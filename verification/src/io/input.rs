use vstd::prelude::*;
use crate::io::text::{words, split_whitespace, parse_unsigned, lemma_words_from_bounds, range_is, lemma_parse_unsigned_range};
use crate::io::window::{word, unsigned_or_zero};

verus! {

/// A keyboard event as the window manager reports it.
#[derive(Clone, Copy, PartialEq, Eq, Debug, Default)]
pub struct KeyboardEvent {
    pub state: u8,
    pub _pad1: u8,
    pub key: u16,
    pub mods: u16,
    pub _pad2: u16,
    pub unicode: u32,
}

/// The word that starts a keyboard event.
pub open spec fn kbd_word() -> Seq<char> {
    seq!['k', 'b', 'd']
}

/// The word that starts a mouse event.
pub open spec fn mouse_word() -> Seq<char> {
    seq!['m', 'o', 'u', 's', 'e']
}

/// The keyboard event that the words after word `k` describe: key,
/// modifiers, state and character, each 0 when it is not a number of its
/// type.
pub open spec fn event_at(msg: Seq<char>, k: int) -> KeyboardEvent {
    KeyboardEvent {
        state: unsigned_or_zero(word(msg, k + 3), u8::MAX as int) as u8,
        _pad1: 0,
        key: unsigned_or_zero(word(msg, k + 1), u16::MAX as int) as u16,
        mods: unsigned_or_zero(word(msg, k + 2), u16::MAX as int) as u16,
        _pad2: 0,
        unicode: unsigned_or_zero(word(msg, k + 4), u32::MAX as int) as u32,
    }
}

/// The keyboard events in the words of `msg` from word `k` on: `kbd` and
/// four numbers make an event; a `kbd` without four more words ends the
/// message; `mouse` skips itself and five words; any other word is skipped.
pub open spec fn events_from(msg: Seq<char>, k: int) -> Seq<KeyboardEvent>
    decreases words(msg).len() + 6 - k,
{
    if k < 0 || k >= words(msg).len() {
        Seq::empty()
    } else if word(msg, k) == kbd_word() {
        if k + 4 < words(msg).len() {
            seq![event_at(msg, k)] + events_from(msg, k + 5)
        } else {
            Seq::empty()
        }
    } else if word(msg, k) == mouse_word() {
        events_from(msg, k + 6)
    } else {
        events_from(msg, k + 1)
    }
}

/// Where `kbd` stands with four more words after it, the event it starts
/// comes first: the key from the first of those words (as a `u16`), the
/// modifiers from the second (as a `u16`), the state from the third (as a
/// `u8`) and the character from the fourth (as a `u32`); a word that is no
/// number of its type counts as 0.
pub proof fn lemma_kbd_event_fields(msg: Seq<char>, k: int)
    requires
        0 <= k,
        k + 4 < words(msg).len(),
        word(msg, k) == kbd_word(),
    ensures
        events_from(msg, k).len() >= 1,
        events_from(msg, k)[0].key as int == unsigned_or_zero(word(msg, k + 1), 65535),
        events_from(msg, k)[0].mods as int == unsigned_or_zero(word(msg, k + 2), 65535),
        events_from(msg, k)[0].state as int == unsigned_or_zero(word(msg, k + 3), 255),
        events_from(msg, k)[0].unicode as int == unsigned_or_zero(word(msg, k + 4), 4294967295),
        events_from(msg, k)[0]._pad1 == 0,
        events_from(msg, k)[0]._pad2 == 0,
{
    lemma_parse_unsigned_range(word(msg, k + 1), 65535);
    lemma_parse_unsigned_range(word(msg, k + 2), 65535);
    lemma_parse_unsigned_range(word(msg, k + 3), 255);
    lemma_parse_unsigned_range(word(msg, k + 4), 4294967295);
}

/// Events come out in the order of their `kbd` words: the events from word
/// `k` on are the event at `k` followed by those after its four numbers.
pub proof fn lemma_kbd_events_in_order(msg: Seq<char>, k: int)
    requires
        0 <= k,
        k + 4 < words(msg).len(),
        word(msg, k) == kbd_word(),
    ensures
        events_from(msg, k).drop_first() == events_from(msg, k + 5),
{
    assert(events_from(msg, k).drop_first() =~= events_from(msg, k + 5));
}

/// The keyboard events of an input message.
pub fn parse_input_events(msg: &[char]) -> (r: Vec<KeyboardEvent>)
    ensures
        r@ == events_from(msg@, 0),
{
    let args = split_whitespace(msg);
    proof {
        lemma_words_from_bounds(msg@, 0);
    }
    let kbd = ['k', 'b', 'd'];
    let mouse = ['m', 'o', 'u', 's', 'e'];
    proof {
        assert(kbd@ == kbd_word());
        assert(mouse@ == mouse_word());
    }
    let mut events: Vec<KeyboardEvent> = Vec::new();
    let mut args_n: usize = 0;
    while args_n < args.len()
        invariant
            args@.len() == words(msg@).len(),
            forall|k: int| 0 <= k < args@.len() ==> (#[trigger] args@[k]).0 == words(msg@)[k].0 && args@[k].1 == words(msg@)[k].1,
            forall|k: int| 0 <= k < words(msg@).len() ==> 0 <= (#[trigger] words(msg@)[k]).0 < words(msg@)[k].1 <= msg@.len(),
            kbd@ == kbd_word(),
            mouse@ == mouse_word(),
            events@ + events_from(msg@, args_n as int) == events_from(msg@, 0),
            args_n <= args@.len(),
        ensures
            events@ == events_from(msg@, 0),
        decreases args@.len() - args_n,
    {
        let (a, b) = args[args_n];
        proof {
            if args_n + 1 >= args@.len() {
                assert(events_from(msg@, args_n + 1) =~= Seq::<KeyboardEvent>::empty());
            }
            assert(msg@.subrange(a as int, b as int) == word(msg@, args_n as int));
        }
        if range_is(msg, a, b, &kbd) {
            if args.len() - args_n > 4 {
                let key = parse_number(msg, args[args_n + 1], u16::MAX as u64) as u16;
                let mods = parse_number(msg, args[args_n + 2], u16::MAX as u64) as u16;
                let state = parse_number(msg, args[args_n + 3], u8::MAX as u64) as u8;
                let unicode = parse_number(msg, args[args_n + 4], u32::MAX as u64) as u32;
                let ev = KeyboardEvent { state, _pad1: 0, key, mods, _pad2: 0, unicode };
                proof {
                    assert(ev == event_at(msg@, args_n as int));
                    assert(events@.push(ev) + events_from(msg@, args_n + 5) =~= events@ + events_from(msg@, args_n as int));
                }
                events.push(ev);
                args_n = args_n + 5;
            } else {
                proof {
                    assert(events_from(msg@, args_n as int) =~= Seq::<KeyboardEvent>::empty());
                    assert(events@ + Seq::<KeyboardEvent>::empty() =~= events@);
                }
                break;
            }
        } else if range_is(msg, a, b, &mouse) {
            if args.len() - args_n > 6 {
                args_n = args_n + 6;
            } else {
                proof {
                    assert(events_from(msg@, args_n + 6) =~= Seq::<KeyboardEvent>::empty());
                    assert(events_from(msg@, args@.len() as int) =~= Seq::<KeyboardEvent>::empty());
                }
                args_n = args.len();
            }
        } else {
            args_n = args_n + 1;
        }
    }
    events
}

/// Word `range` of `msg` read as an unsigned number up to `max`, or 0.
fn parse_number(msg: &[char], range: (usize, usize), max: u64) -> (r: u64)
    requires
        range.0 <= range.1 <= msg@.len(),
    ensures
        r == unsigned_or_zero(msg@.subrange(range.0 as int, range.1 as int), max as int),
        r <= max,
{
    let (a, b) = range;
    match parse_unsigned(&msg[a..b], max) {
        Some(v) => v,
        None => 0,
    }
}

} // verus!
