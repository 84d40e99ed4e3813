//! The file system calls of the process kernel.
use vstd::prelude::*;

use crate::address::PhysAddr;
use crate::page_table::{buffer_chunks, translate_va_spec, translated_byte_buffer};
use crate::phys_mem::PhysMem;

verus! {

/// The file descriptor of standard input.
pub const FD_STDIN: u64 = 0;
/// The file descriptor of standard output.
pub const FD_STDOUT: u64 = 1;
/// What the console gives back when no character is waiting.
pub const NO_CHAR: u64 = 0;

/// One attempt of the blocking `read` of one character from standard input into the user
/// buffer `buf` of the address space that `token` selects; `c` is what the console gave back.
/// When the console gave 0, no character was waiting: it gives nothing and writes nothing, and
/// the caller lets other tasks run and tries again. Any other value is taken as the character:
/// its low byte is stored and it gives 1, the number of bytes read.
pub fn sys_read(mem: &mut PhysMem, token: u64, fd: u64, buf: u64, len: u64, c: u64) -> (r: Option<i64>)
    requires
        fd == FD_STDIN,
        len == 1,
        c != NO_CHAR ==> {
            &&& buf + 1 <= 0xffff_ffff_ffff_f000
            &&& translate_va_spec(old(mem), token & 0xfff_ffff_ffffu64, buf) is Some
        },
    ensures
        c == NO_CHAR ==> r is None && *final(mem) == *old(mem),
        c != NO_CHAR ==> {
            let pa = (translate_va_spec(old(mem), token & 0xfff_ffff_ffffu64, buf)->0).0;
            &&& r == Some(1i64)
            &&& final(mem).byte(pa) == c as u8
            &&& forall|a: u64| a != pa ==> #[trigger] final(mem).byte(a) == old(mem).byte(a)
        },
{
    if c == NO_CHAR {
        return None;
    }
    let ch = c as u8;
    let buffers = translated_byte_buffer(mem, token, buf, len);
    proof {
        let root = token & 0xfff_ffff_ffffu64;
        assert(buffer_chunks(mem, root, buf, (buf + 1) as u64)[0].0 == translate_va_spec(mem, root, buf)->0);
    }
    let pa: PhysAddr = buffers[0].0;
    mem.write_byte(pa, ch);
    Some(1)
}

} // verus!
