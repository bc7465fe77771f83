//! Failures of the input backend (keyboard and mouse injection, clipboard)
//! and what the clipboard reports about a copied file.

use vstd::prelude::*;
use crate::clipboard::{cb_error_code, CbError};
use crate::text::push_str;

verus! {

/// A failed backend operation: an injection failure with its message, or a
/// clipboard failure.
#[derive(Debug)]
pub enum BackendError {
    Inject(String),
    Clipboard(CbError),
}

/// The protocol error code of a backend failure.
pub open spec fn backend_error_code(e: BackendError) -> Seq<char> {
    match e {
        BackendError::Inject(_) => "inject_failed"@,
        BackendError::Clipboard(c) => cb_error_code(c),
    }
}

impl BackendError {
    /// Injection failures are `inject_failed`; clipboard failures keep their
    /// own finer codes.
    pub fn error_code(&self) -> (r: &'static str)
        ensures
            r@ == backend_error_code(*self),
    {
        match self {
            BackendError::Inject(_) => "inject_failed",
            BackendError::Clipboard(e) => crate::clipboard::error_code(e),
        }
    }
}

/// The outcome of a copy or paste shortcut: the modifier press, then the
/// letter click, each with its failure message; the modifier is released
/// whatever happened. The press failure is reported first.
pub fn shortcut_outcome(press: Result<(), String>, click: Result<(), String>) -> (r: Result<(), String>)
    ensures
        press matches Err(e) ==> r matches Err(m) && m@ == "modifier press error: "@ + e@,
        press is Ok ==> (click matches Err(e) ==> r matches Err(m) && m@ == "key click error: "@ + e@),
        press is Ok && click is Ok ==> r is Ok,
{
    match press {
        Err(e) => {
            let mut m = String::new();
            push_str(&mut m, "modifier press error: ");
            push_str(&mut m, e.as_str());
            Err(m)
        },
        Ok(()) => match click {
            Err(e) => {
                let mut m = String::new();
                push_str(&mut m, "key click error: ");
                push_str(&mut m, e.as_str());
                Err(m)
            },
            Ok(()) => Ok(()),
        },
    }
}

/// A file referenced by the clipboard.
pub struct FileMeta {
    pub path: String,
    pub name: String,
    pub size: u64,
    pub mime: String,
}

} // verus!
