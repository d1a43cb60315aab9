//! What became of a copy to the system clipboard.

use crate::az::unit_result;
use vstd::prelude::*;

verus! {

/// What came back from the thread that owns the clipboard.
#[derive(Debug, PartialEq)]
pub enum Reply {
    Done(Result<(), String>),
    TimedOut,
    /// It stopped without answering.
    Gone,
}

/// Whether a copy worked. `owner` says whether there is a clipboard at all,
/// and `reply` what the request was answered; none when it could not be sent.
/// A copy still in flight counts as one that worked: holding the window over
/// it would be worse.
pub fn copy(owner: Result<(), String>, reply: Option<Reply>) -> (r: Result<(), String>)
    ensures
        unit_result(r) == match owner {
            Err(e) => Err(e@),
            Ok(_) => match reply {
                Some(Reply::Done(done)) => unit_result(done),
                Some(Reply::TimedOut) => Ok(()),
                Some(Reply::Gone) => Err("the clipboard is no longer available"@),
                None => Err("the clipboard is no longer available"@),
            },
        },
{
    match owner {
        Err(e) => Err(e),
        Ok(_) => match reply {
            Some(Reply::Done(done)) => done,
            Some(Reply::TimedOut) => Ok(()),
            Some(Reply::Gone) => Err("the clipboard is no longer available".to_owned()),
            None => Err("the clipboard is no longer available".to_owned()),
        },
    }
}

} // verus!
