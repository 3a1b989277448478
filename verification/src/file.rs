use vstd::prelude::*;

verus! {

/// A file handle: the descriptor that the system returned, or -1.
#[derive(Clone, Copy, PartialEq, Eq, Debug)]
pub struct FILE {
    pub fd: i64,
}

/// The number of descriptors a process can hold.
pub const MAX_FD: usize = 16;

pub const SEEK_SET: i32 = 0;
pub const SEEK_CUR: i32 = 1;
pub const SEEK_END: i32 = 2;

impl FILE {
    /// A handle that refers to no file.
    pub fn zeroed() -> (r: FILE)
        ensures
            r.fd == -1,
    {
        FILE { fd: -1 }
    }
}

/// `fd` is a descriptor a process can hold: from 0 up to `MAX_FD`.
pub open spec fn spec_fd_ok(fd: i64) -> bool {
    0 <= fd < MAX_FD
}

/// Tells whether `fd` is a descriptor a process can hold.
pub fn fd_ok(fd: i64) -> (r: bool)
    ensures
        r == spec_fd_ok(fd),
{
    fd >= 0 && fd < MAX_FD as i64
}

/// The count that `fread` reports for what the read system call returned:
/// errors count as nothing read.
pub fn read_count(ret: isize) -> (r: usize)
    ensures
        ret < 0 ==> r == 0,
        ret >= 0 ==> r == ret,
{
    if ret < 0 {
        0
    } else {
        ret as usize
    }
}

} // verus!
