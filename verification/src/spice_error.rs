//! The error CSPICE reports: its short message and its long message.

use vstd::prelude::*;

use crate::chars::push_str;

verus! {

#[derive(Debug, Clone)]
pub struct SpiceError {
    pub short: String,
    pub long: String,
}

impl SpiceError {
    /// The text of the error: the short message, then `": "` and the long
    /// message when there is one.
    pub fn message(&self) -> (r: String)
        ensures
            r@ == (if self.long@.len() == 0 {
                self.short@
            } else {
                self.short@ + ": "@ + self.long@
            }),
    {
        let mut out = self.short.clone();
        if self.long.as_str().is_empty() {
            return out;
        }
        push_str(&mut out, ": ");
        push_str(&mut out, self.long.as_str());
        out
    }
}

} // verus!
