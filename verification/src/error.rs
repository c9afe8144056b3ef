//! The errors of the library.

use vstd::prelude::*;

verus! {

/// Why an operation failed.
#[derive(Debug)]
pub enum AxError {
    /// The process may not use the accessibility interface.
    AccessDenied,
    /// An action could not be performed.
    ActionFailed(String),
    /// No running application answers to a name.
    AppNotFound(String),
    /// An element does not have an attribute.
    AttributeNotFound(String),
    /// An argument does not make sense.
    InvalidArgument(String),
    /// Several elements match a locator that must match one. With `at_least`,
    /// `count` is how many were looked at, and there may be more.
    LocatorAmbiguous { locator: String, count: usize, at_least: bool },
    /// A locator breaks the rules of its syntax.
    LocatorInvalid(String),
    /// No element matches a locator.
    LocatorNotFound(String),
    /// A screenshot could not be taken or saved.
    ScreenshotFailed(String),
}

} // verus!
