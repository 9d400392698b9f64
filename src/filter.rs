//! The policy that decides what a failed per-process read means.
use vstd::prelude::*;

verus! {

/// Why reading a process's details failed.
#[derive(Clone, Debug, PartialEq, Eq)]
pub enum ReadError {
    /// The caller may not read it; the path, if known.
    PermissionDenied(Option<String>),
    /// It is gone, most likely because the process exited; the path, if known.
    NotFound(Option<String>),
    /// Any other failure, described.
    Other(String),
}

/// What to do with the result of a per-process read.
#[derive(Clone, Debug)]
pub enum Filtered<T> {
    /// The read succeeded: go on with its value.
    Proceed(T),
    /// The failure ends the whole refresh.
    Fatal(ReadError),
    /// Leave the process out, quietly.
    Skip,
    /// Leave the process out, with a warning that names the vanished path.
    SkipWithWarning(Option<String>),
}

/// The error-filter policy as a function of the read's result.
pub open spec fn filter_spec<T>(result: Result<T, ReadError>, fail_on_noperm: bool) -> Filtered<T> {
    match result {
        Ok(v) => Filtered::Proceed(v),
        Err(ReadError::PermissionDenied(p)) => if fail_on_noperm {
            Filtered::Fatal(ReadError::PermissionDenied(p))
        } else {
            Filtered::Skip
        },
        Err(ReadError::NotFound(p)) => Filtered::SkipWithWarning(p),
        Err(ReadError::Other(m)) => Filtered::Fatal(ReadError::Other(m)),
    }
}

/// The error-filter policy. A denied permission is fatal when
/// `fail_on_noperm` is set and otherwise skips the process quietly; a target
/// that vanished skips it with a warning; any other failure is fatal.
pub fn filter_errors<T>(result: Result<T, ReadError>, fail_on_noperm: bool) -> (r: Filtered<T>)
    ensures
        r == filter_spec(result, fail_on_noperm),
        match result {
            Ok(v) => r == Filtered::Proceed(v),
            Err(ReadError::PermissionDenied(p)) => if fail_on_noperm {
                r == Filtered::<T>::Fatal(ReadError::PermissionDenied(p))
            } else {
                r == Filtered::<T>::Skip
            },
            Err(ReadError::NotFound(p)) => r == Filtered::<T>::SkipWithWarning(p),
            Err(ReadError::Other(m)) => r == Filtered::<T>::Fatal(ReadError::Other(m)),
        },
{
    match result {
        Ok(v) => Filtered::Proceed(v),
        Err(ReadError::PermissionDenied(p)) => {
            if fail_on_noperm {
                Filtered::Fatal(ReadError::PermissionDenied(p))
            } else {
                Filtered::Skip
            }
        },
        Err(ReadError::NotFound(p)) => Filtered::SkipWithWarning(p),
        Err(ReadError::Other(m)) => Filtered::Fatal(ReadError::Other(m)),
    }
}

} // verus!
