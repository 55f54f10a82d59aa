//! Random bytes from the operating system.
use vstd::prelude::*;

verus! {

/// The operating system gave no random bytes.
#[derive(Debug, Clone, Copy, PartialEq, Eq, Structural)]
pub struct EntropyError;

/// The error of `getrandom`, carried through.
#[verifier::external_type_specification]
#[verifier::external_body]
pub struct ExGetrandomError(getrandom::Error);

/// `getrandom::fill` overwrites the bytes of `dest`: their number stays, their
/// values are whatever the operating system gave. After a failure they may be
/// anything too. Where there is nothing to overwrite it succeeds.
pub assume_specification[ getrandom::fill ](dest: &mut [u8]) -> (r: Result<(), getrandom::Error>)
    ensures
        final(dest)@.len() == old(dest)@.len(),
        old(dest)@.len() == 0 ==> r is Ok,
;

/// `n` random bytes. None at all can always be had.
pub fn random_bytes(n: usize) -> (r: Result<Vec<u8>, EntropyError>)
    ensures
        r is Ok ==> r->Ok_0@.len() == n,
        n == 0 ==> r is Ok,
{
    let mut buf: Vec<u8> = vec![0u8; n];
    let filled = getrandom::fill(buf.as_mut_slice());
    drawn_bytes(filled, buf)
}

/// What a draw into `buf` gives: the bytes where it succeeded, else nothing but
/// the failure.
pub fn drawn_bytes(filled: Result<(), getrandom::Error>, buf: Vec<u8>) -> (r: Result<
    Vec<u8>,
    EntropyError,
>)
    ensures
        r == (match filled {
            Ok(_) => Ok::<Vec<u8>, EntropyError>(buf),
            Err(_) => Err::<Vec<u8>, EntropyError>(EntropyError),
        }),
{
    match filled {
        Ok(_) => Ok(buf),
        Err(_) => Err(EntropyError),
    }
}

} // verus!
