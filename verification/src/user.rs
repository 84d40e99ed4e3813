//! The decisions of the user library's waiting loops.
use vstd::prelude::*;

verus! {

/// What `wait` and `waitpid` do with the result of one `waitpid` system call.
#[derive(Clone, Copy, PartialEq, Eq, Structural, Debug)]
pub enum WaitStep {
    /// The child is still running: yield and ask again.
    Retry,
    /// The answer: -1 (no such child) or the pid of the child that exited.
    Done(i64),
}

/// The step after a `waitpid` system call returned `ret`: -2 means "still running".
pub fn wait_step(ret: i64) -> (r: WaitStep)
    ensures
        r == (if ret == -2 { WaitStep::Retry } else { WaitStep::Done(ret) }),
{
    if ret == -2 {
        WaitStep::Retry
    } else {
        WaitStep::Done(ret)
    }
}

/// Whether `sleep` started at `start` for `period_ms` keeps yielding at time `now`.
pub fn sleep_continues(now: i64, start: i64, period_ms: u64) -> (r: bool)
    requires
        period_ms <= i64::MAX,
        i64::MIN <= start + period_ms <= i64::MAX,
    ensures
        r == (now < start + period_ms),
{
    now < start + period_ms as i64
}

/// What `getchar` makes of one `read` of one byte: the byte when one was read, else
/// nothing (yield and read again).
pub fn getchar_step(read_ret: i64, c: u8) -> (r: Option<u8>)
    ensures
        r == (if read_ret > 0 { Some(c) } else { None::<u8> }),
{
    if read_ret > 0 {
        Some(c)
    } else {
        None
    }
}

} // verus!
