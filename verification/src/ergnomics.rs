//! Small helpers on `Option` and `Result`.
use vstd::prelude::*;

verus! {

/// The error of a value that was expected and was absent.
#[derive(Debug)]
pub struct NoneError;

impl NoneError {
    /// What went wrong, as a message.
    pub fn message(&self) -> (m: &'static str)
        ensures
            m@ == "called `Option::unwrap()` on a `None` value"@,
    {
        "called `Option::unwrap()` on a `None` value"
    }
}

/// Drops a result on purpose.
pub trait ResultExt: Sized {
    fn ignore(self);
}

impl<T, E> ResultExt for Result<T, E> {
    fn ignore(self) {
    }
}

/// Helpers on an optional value.
pub trait OptionExt: Sized {
    type Nullable;

    /// Whether the value is there.
    spec fn has_value(&self) -> bool;

    /// The value, or `NoneError`.
    fn some(self) -> Result<Self::Nullable, NoneError>;

    /// The value, which must be there; `f` would make the message otherwise.
    fn expect_with<F: FnOnce() -> E, E>(self, f: F) -> Self::Nullable
        requires
            self.has_value(),
    ;

    /// Drops the value on purpose.
    fn ignore(self);
}

impl<T> OptionExt for Option<T> {
    type Nullable = T;

    open spec fn has_value(&self) -> bool {
        self is Some
    }

    fn some(self) -> (r: Result<T, NoneError>)
        ensures
            self matches Some(v) ==> r == Ok::<T, NoneError>(v),
            self is None ==> r == Err::<T, NoneError>(NoneError),
    {
        match self {
            Some(v) => Ok(v),
            None => Err(NoneError),
        }
    }

    fn expect_with<F: FnOnce() -> E, E>(self, f: F) -> (v: T)
        ensures
            self == Some(v),
    {
        self.unwrap()
    }

    fn ignore(self) {
    }
}

/// Types that can be shared between threads for the whole program.
pub trait Trivial: Send + Sync + 'static {
}

impl<T> Trivial for T where T: Send + Sync + 'static {
}

/// The size of a type.
pub trait StaticSize: Sized {
    /// The size of the type in bytes.
    fn size() -> usize;
}

impl<T> StaticSize for T {
    fn size() -> (n: usize)
        ensures
            n == vstd::layout::size_of::<T>(),
    {
        core::mem::size_of::<T>()
    }
}

} // verus!
