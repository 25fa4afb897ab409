//! What comes of asking the window system for the attention of the user.

use crate::text::{signed, signed_text};
use vstd::prelude::*;

verus! {

/// The window that is to ask for attention.
#[derive(Clone, Copy, Debug, PartialEq, Eq, Structural)]
pub struct XDoHandle {
    pub window: u64,
}

/// What is said of a call that went wrong.
pub open spec fn code_text(code: int) -> Seq<char> {
    "xdo failed with code: "@ + signed(code)
}

/// Whether a call went right: its code is zero.
pub fn check_code(code: i32) -> (r: Result<(), String>)
    ensures
        match r {
            Ok(_) => code == 0,
            Err(message) => code != 0 && message@ == code_text(code as int),
        },
{
    if code == 0 {
        Ok(())
    } else {
        Err(String::from_str("xdo failed with code: ").concat(signed_text(code).as_str()))
    }
}

impl XDoHandle {
    /// The window that was active, given what asking for it came to: nothing, if there was no
    /// one to ask, or else a code and the window.
    pub fn new(active: Option<(i32, u64)>) -> (r: Result<XDoHandle, String>)
        ensures
            match r {
                Ok(handle) => active == Some((0i32, handle.window)),
                Err(message) => match active {
                    None => message@ == "could not create handle"@,
                    Some((code, _)) => code != 0 && message@ == code_text(code as int),
                },
            },
    {
        match active {
            None => Err(String::from_str("could not create handle")),
            Some((code, window)) => {
                match check_code(code) {
                    Ok(_) => Ok(XDoHandle { window }),
                    Err(message) => Err(message),
                }
            },
        }
    }

    /// What is to be asked for: the window, and whether it wants attention or does not any more.
    pub fn require_user_attention(&self, attention: i32) -> (r: (u64, i32))
        ensures
            r == (self.window, attention),
    {
        (self.window, attention)
    }
}

/// What is said of a call that went wrong ends with its code.
pub proof fn law_code_is_shown(code: int)
    ensures
        code_text(code).take("xdo failed with code: "@.len() as int) == "xdo failed with code: "@,
        code_text(code).skip("xdo failed with code: "@.len() as int) == signed(code),
{
    assert(code_text(code).take("xdo failed with code: "@.len() as int)
        =~= "xdo failed with code: "@);
    assert(code_text(code).skip("xdo failed with code: "@.len() as int) =~= signed(code));
}

} // verus!
