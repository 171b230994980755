//! A payload that is guaranteed to hold valid UTF-8.

use vstd::prelude::*;
use vstd::string::StringSliceAdditionalSpecFns;
use vstd::utf8::encode_utf8;
use vstd::utf8::valid_utf8;

verus! {

/// The error returned when bytes fail UTF-8 validation; the offending
/// value is never constructed.
#[derive(Clone, Copy, Debug, PartialEq, Eq, Structural)]
pub struct Utf8Error;

/// A byte payload additionally guaranteed valid UTF-8 at construction
/// time.
#[derive(Debug)]
pub struct Utf8Bytes {
    bytes: Vec<u8>,
}

impl Clone for Utf8Bytes {
    fn clone(&self) -> (r: Self)
        ensures
            r@ == self@,
    {
        proof {
            use_type_invariant(self);
        }
        let b = self.bytes.clone();
        proof {
            assert(b@ =~= self.bytes@);
        }
        Utf8Bytes { bytes: b }
    }
}

impl View for Utf8Bytes {
    type V = Seq<u8>;

    closed spec fn view(&self) -> Seq<u8> {
        self.bytes@
    }
}

/// Relies on core::str::from_utf8: it returns `Ok` exactly when the bytes
/// are a valid UTF-8 encoding.
#[verifier::external_body]
fn check_utf8(v: &Vec<u8>) -> (r: bool)
    ensures
        r == valid_utf8(v@),
{
    core::str::from_utf8(v.as_slice()).is_ok()
}

/// Relies on str::as_bytes and on the language guarantee that every `str`
/// holds valid UTF-8.
#[verifier::external_body]
fn str_bytes_vec(s: &str) -> (r: Vec<u8>)
    ensures
        r@ == s.spec_bytes(),
        valid_utf8(r@),
{
    s.as_bytes().to_vec()
}

/// Relies on core::str::from_utf8 returning a view of the very bytes it
/// was given; the bytes are known valid, so the error arm is never taken.
#[verifier::external_body]
fn bytes_as_str(v: &Vec<u8>) -> (r: &str)
    requires
        valid_utf8(v@),
    ensures
        r.spec_bytes() == v@,
{
    match core::str::from_utf8(v.as_slice()) {
        Ok(s) => s,
        Err(_) => "",
    }
}

impl Utf8Bytes {
    #[verifier::type_invariant]
    closed spec fn inv(self) -> bool {
        valid_utf8(self.bytes@)
    }

    /// Creates from a static string slice.
    pub fn from_static(s: &'static str) -> (r: Self)
        ensures
            r@ == s.spec_bytes(),
    {
        Utf8Bytes { bytes: str_bytes_vec(s) }
    }

    /// Validates the bytes and constructs, or reports the validation
    /// failure; succeeds exactly on valid UTF-8.
    pub fn try_from_vec(v: Vec<u8>) -> (r: Result<Self, Utf8Error>)
        ensures
            r is Ok <==> valid_utf8(v@),
            r matches Ok(u) ==> u@ == v@,
    {
        if check_utf8(&v) {
            Ok(Utf8Bytes { bytes: v })
        } else {
            Err(Utf8Error)
        }
    }

    /// Returns the payload as a string slice.
    pub fn as_str(&self) -> (r: &str)
        ensures
            r.spec_bytes() == self@,
    {
        proof {
            use_type_invariant(self);
        }
        bytes_as_str(&self.bytes)
    }

    /// Creates from a string slice, copying its bytes.
    pub fn from_str(s: &str) -> (r: Self)
        ensures
            r@ == s.spec_bytes(),
    {
        Utf8Bytes { bytes: str_bytes_vec(s) }
    }

    /// Creates from an owned string.
    pub fn from_string(s: String) -> (r: Self)
        ensures
            r@ == encode_utf8(s@),
    {
        Utf8Bytes { bytes: str_bytes_vec(s.as_str()) }
    }

    /// The payload bytes.
    pub fn into_bytes(self) -> (r: Vec<u8>)
        ensures
            r@ == self@,
    {
        self.bytes
    }

    pub fn len(&self) -> (r: usize)
        ensures
            r == self@.len(),
    {
        self.bytes.len()
    }
}

} // verus!
