//! System calls: the table of calls, the registers that set up the `syscall` instruction,
//! and what `write` answers.
use vstd::prelude::*;

verus! {

pub const MSR_EFER: u32 = 0xc0000080;
pub const MSR_STAR: u32 = 0xc0000081;
pub const MSR_LSTAR: u32 = 0xc0000082;
pub const MSR_CSTAR: u32 = 0xc0000083;
pub const MSR_SFMASK: u32 = 0xc0000084;

/// The number of the `debug` call.
pub const SYSCALL_DEBUG: usize = 0;
/// The number of the `write` call.
pub const SYSCALL_WRITE: usize = 1;
/// The number of the `exit` call.
pub const SYSCALL_EXIT: usize = 2;
/// The number of calls.
pub const SYSCALL_COUNT: usize = 3;

/// What `write` answers when the count is too large.
pub const WRITE_ERR_COUNT: i64 = -4;
/// What `write` answers for a file other than standard output and standard error.
pub const WRITE_ERR_FILE: i64 = -1;
/// What `write` answers when the buffer cannot be read.
pub const WRITE_ERR_BUFFER: i64 = -3;
/// What `write` answers when the bytes are not UTF-8.
pub const WRITE_ERR_UTF8: i64 = -2;

/// Whether `core::str::from_utf8` accepts `bytes`. The contract claims what its
/// documentation says: it accepts exactly the well-formed UTF-8 byte sequences, as
/// `vstd::utf8::valid_utf8` defines them.
#[verifier::external_body]
fn is_utf8(bytes: &[u8]) -> (r: bool)
    ensures
        r == vstd::utf8::valid_utf8(bytes@),
{
    core::str::from_utf8(bytes).is_ok()
}

/// What `write` answers for `count` bytes to file `file`, given the bytes when the buffer
/// could be read (`None` when it could not); when the answer is `count`, the bytes are
/// printed.
pub open spec fn write_result(file: i32, count: usize, buf: Option<Seq<u8>>) -> i64 {
    if count > isize::MAX {
        WRITE_ERR_COUNT
    } else if file != 1 && file != 2 {
        WRITE_ERR_FILE
    } else if count == 0 {
        0
    } else {
        match buf {
            None => WRITE_ERR_BUFFER,
            Some(b) => if vstd::utf8::valid_utf8(b) {
                count as i64
            } else {
                WRITE_ERR_UTF8
            },
        }
    }
}

/// `write` writes only to the standard output (1) and the standard error (2): for any other
/// file, once the count is in range, the answer is the error -1, whatever the bytes; an
/// answer that is not an error is the count itself, written to file 1 or 2. A count above
/// `isize::MAX` gives -4, no bytes to write give 0, an unreadable buffer -3, and bytes that
/// are not UTF-8 -2.
pub proof fn lemma_write_files(file: i32, count: usize, buf: Option<Seq<u8>>)
    ensures
        count <= isize::MAX && file != 1 && file != 2 ==> write_result(file, count, buf) == -1,
        write_result(file, count, buf) >= 0 ==> (file == 1 || file == 2) && write_result(file, count, buf)
            == count,
        count > isize::MAX ==> write_result(file, count, buf) == -4,
        count == 0 && (file == 1 || file == 2) ==> write_result(file, count, buf) == 0,
        0 < count <= isize::MAX && (file == 1 || file == 2) && buf is None ==> write_result(file, count, buf)
            == -3,
        0 < count <= isize::MAX && (file == 1 || file == 2) && buf is Some ==> write_result(file, count, buf)
            == if vstd::utf8::valid_utf8(buf->0) {
            count as int
        } else {
            -2
        },
{
}

/// The `write` call: the answer for `count` bytes to file `file`; `buf` holds the bytes when
/// the buffer could be read.
pub fn syscall_write(file: i32, count: usize, buf: Option<&[u8]>) -> (r: i64)
    requires
        buf matches Some(b) ==> b@.len() == count,
    ensures
        r == write_result(
            file,
            count,
            match buf {
                Some(b) => Some(b@),
                None => None,
            },
        ),
{
    if count > isize::MAX as usize {
        WRITE_ERR_COUNT
    } else if file != 1 && file != 2 {
        WRITE_ERR_FILE
    } else if count == 0 {
        0
    } else {
        match buf {
            None => WRITE_ERR_BUFFER,
            Some(b) => if is_utf8(b) {
                count as i64
            } else {
                WRITE_ERR_UTF8
            },
        }
    }
}

/// The segment selectors for `syscall` and `sysret`: kernel code at 0x08, user selectors
/// from 0x10 with privilege level 3.
pub const STAR_VALUE: u64 = 0x0013_0008_0000_0000;

/// `STAR_VALUE` holds 0x08 in bits 32 to 47 and 0x10 with privilege level 3 in bits 48 to 63.
pub proof fn lemma_star_value()
    ensures
        STAR_VALUE == 0x13u64 * 0x1_0000_0000_0000 + 0x8u64 * 0x1_0000_0000,
{
}

/// The register writes that set up `syscall` with its entry at `entry`, in order.
pub fn init_writes(entry: u64) -> (r: Vec<(u32, u64)>)
    ensures
        r@ == seq![(MSR_STAR, STAR_VALUE), (MSR_LSTAR, entry), (MSR_CSTAR, 0u64), (MSR_SFMASK, 0x200u64)],
{
    vec![(MSR_STAR, STAR_VALUE), (MSR_LSTAR, entry), (MSR_CSTAR, 0), (MSR_SFMASK, 0x200)]
}

/// The extended feature register `efer` with system calls enabled.
pub fn efer_with_syscalls(efer: u64) -> (r: u64)
    ensures
        r == efer | 1,
{
    efer | 0x1
}

} // verus!
