//! The quickstart logger: message construction for the generated binary's
//! logging front end. The concrete rendering (color, destination stream) is
//! an external concern.

use vstd::prelude::*;

use crate::ascii::push_all;

verus! {

/// The `warning: ` message prefix.
pub open spec fn warning_prefix() -> Seq<u8> {
    seq![119u8, 97u8, 114u8, 110u8, 105u8, 110u8, 103u8, 58u8, 32u8]
}

/// The `error: ` message prefix.
pub open spec fn error_prefix() -> Seq<u8> {
    seq![101u8, 114u8, 114u8, 111u8, 114u8, 58u8, 32u8]
}

/// The logging front end of the generated binary.
pub struct RustCliQuickStartLogger {}

impl RustCliQuickStartLogger {
    /// A fresh logger.
    pub fn new() -> (l: RustCliQuickStartLogger) {
        RustCliQuickStartLogger {  }
    }

    /// An output line: the message itself.
    pub fn output_line(&self, msg: &[u8]) -> (r: Vec<u8>)
        ensures
            r@ == msg@,
    {
        crate::ascii::copy_bytes(msg)
    }

    /// A warning line: the message behind the warning prefix.
    pub fn warning_line(&self, msg: &[u8]) -> (r: Vec<u8>)
        ensures
            r@ == warning_prefix() + msg@,
    {
        let mut r: Vec<u8> = vec![119u8, 97u8, 114u8, 110u8, 105u8, 110u8, 103u8, 58u8, 32u8];
        proof {
            assert(r@ =~= warning_prefix());
        }
        push_all(&mut r, msg);
        r
    }

    /// An error line: the message behind the error prefix.
    pub fn error_line(&self, msg: &[u8]) -> (r: Vec<u8>)
        ensures
            r@ == error_prefix() + msg@,
    {
        let mut r: Vec<u8> = vec![101u8, 114u8, 114u8, 111u8, 114u8, 58u8, 32u8];
        proof {
            assert(r@ =~= error_prefix());
        }
        push_all(&mut r, msg);
        r
    }
}

} // verus!
