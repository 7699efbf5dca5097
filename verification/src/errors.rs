use vstd::prelude::*;

verus! {

/// Native store error code for an absent key or value.
pub const ERROR_FILE_NOT_FOUND: u32 = 2;

/// Native store error code for insufficient permissions.
pub const ERROR_ACCESS_DENIED: u32 = 5;

/// Native store error code reported by indexed enumeration when the index
/// runs past the last child; normalized to end-of-sequence by callers.
pub const ERROR_NO_MORE_ITEMS: u32 = 259;

/// Failure taxonomy of the registry abstraction.
///
/// `NotFound` is recoverable and is collapsed to an empty result by the
/// `try_` read variants; `MalformedValue` carries the value type tag that the
/// codec could not honour; `Win32` is the catch-all carrying a native failure
/// code for diagnostics.
#[derive(Clone, Copy, Debug, PartialEq, Eq, Structural)]
pub enum RegistryError {
    NotFound,
    AccessDenied,
    MalformedValue(u32),
    InvalidName,
    InvalidOperation,
    ExhaustedNamespace,
    Win32(u32),
}

/// The mapping from a native error code to the taxonomy: absent keys and
/// exhausted enumeration both read as `NotFound`, denied permissions as
/// `AccessDenied`, and everything else is kept verbatim in `Win32`.
pub open spec fn spec_error_from_code(code: u32) -> RegistryError {
    if code == ERROR_FILE_NOT_FOUND || code == ERROR_NO_MORE_ITEMS {
        RegistryError::NotFound
    } else if code == ERROR_ACCESS_DENIED {
        RegistryError::AccessDenied
    } else {
        RegistryError::Win32(code)
    }
}

impl From<u32> for RegistryError {
    fn from(code: u32) -> (r: RegistryError) {
        if code == ERROR_FILE_NOT_FOUND || code == ERROR_NO_MORE_ITEMS {
            RegistryError::NotFound
        } else if code == ERROR_ACCESS_DENIED {
            RegistryError::AccessDenied
        } else {
            RegistryError::Win32(code)
        }
    }
}

impl vstd::std_specs::convert::FromSpecImpl<u32> for RegistryError {
    open spec fn obeys_from_spec() -> bool {
        true
    }

    open spec fn from_spec(code: u32) -> RegistryError {
        spec_error_from_code(code)
    }
}

} // verus!
