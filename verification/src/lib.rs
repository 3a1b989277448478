use vstd::prelude::*;

pub mod util;
pub mod heap;
pub mod mem;
pub mod format;
pub mod strings;
pub mod shm;
pub mod io;
pub mod graphics;
pub mod file;
pub mod keyboard;
pub mod syscall;

verus! {

} // verus!
