//! The mail-sending capability. The library only decides what is sent and
//! hands out credentials and relay settings; the SMTP transport itself is
//! a collaborator that implements [`SendMail`] outside this crate.

use vstd::prelude::*;

verus! {

/// One send request: recipient, subject and message body, as the command
/// line collects them.
pub struct Args {
    pub configure: bool,
    pub to: String,
    pub subject: String,
    pub msg: String,
}

/// Something that can send mail when supplied with the recipient, message
/// and subject via `args`. Implemented by the transport collaborator; a
/// failure is reported as a description of what went wrong.
pub trait SendMail {
    fn send(&self, args: &Args) -> Result<(), String>;
}

} // verus!
