//! The word and synonym dictionaries: sets of byte strings held by the
//! `fst` crate as finite-state transducers.
//!
//! The store never looks inside a set. It writes the byte image of the
//! transducer and builds a set from the image it reads back. What this
//! module takes on trust from `fst` is stated on the items below; the test
//! that `fst` applies to an image before it accepts it is short, and is
//! written out in [`accepted`].

use vstd::prelude::*;
use crate::error::IndexError;
use crate::radix::{le_value, read_le};

verus! {

/// `fst::Set`, a set of byte strings. Nothing of its fields is seen here.
#[verifier::external_type_specification]
#[verifier::external_body]
pub struct ExSet(fst::Set);

/// `fst::Error`, why `fst` refused an image.
#[verifier::external_type_specification]
#[verifier::external_body]
pub struct ExSetError(fst::Error);

/// The keys that a set holds.
pub uninterp spec fn set_keys(set: fst::Set) -> Set<Seq<u8>>;

/// The byte image of the transducer that a set is held as.
pub uninterp spec fn set_image(set: fst::Set) -> Seq<u8>;

/// The keys of the set that `fst` builds from an image.
pub uninterp spec fn image_keys(image: Seq<u8>) -> Set<Seq<u8>>;

/// The version that an image states: its first eight bytes.
pub open spec fn image_version(image: Seq<u8>) -> nat {
    le_value(image.subrange(0, 8))
}

/// The address of the root node that an image states: its last eight bytes.
pub open spec fn image_root(image: Seq<u8>) -> nat {
    le_value(image.subrange(image.len() - 8, image.len() as int))
}

/// The number of keys that an image states: the eight bytes before the
/// root address.
pub open spec fn image_count(image: Seq<u8>) -> nat {
    le_value(image.subrange(image.len() - 16, image.len() - 8))
}

/// Whether the root address and the number of keys of an image fit a
/// pointer of this machine. `fst` can only read an image of which they do.
pub open spec fn addresses_fit(image: Seq<u8>) -> bool {
    image.len() >= 32 ==> image_root(image) <= usize::MAX && image_count(image) <= usize::MAX
}

/// The test that `fst` applies before it builds a set from an image: the
/// image has its four eight-byte fields, states version 1 or 2, and states
/// a root address other than 0 unless it is the image of the empty set.
pub open spec fn accepted(image: Seq<u8>) -> bool {
    &&& image.len() >= 32
    &&& 1 <= image_version(image) <= 2
    &&& (image_root(image) != 0 || image.len() == 32)
}

/// Whether `image` is one that a set can be read from on this machine.
pub open spec fn is_set_image(image: Seq<u8>) -> bool {
    addresses_fit(image) && accepted(image)
}

/// What holds of every set: it was built from its own image, so its image
/// passes the test, and its keys are those that the image denotes.
pub open spec fn set_valid(set: fst::Set) -> bool {
    is_set_image(set_image(set)) && set_keys(set) == image_keys(set_image(set))
}

/// `fst::Set::as_fst` and `fst::raw::Fst::as_bytes`: a copy of the bytes
/// that the set was built from.
///
/// Trusted: the bytes are the set's image, and the set is valid, because
/// every constructor of `fst::raw::Fst` goes through the one test and keeps
/// the bytes it tested.
#[verifier::external_body]
pub(crate) fn set_bytes(set: &fst::Set) -> (image: Vec<u8>)
    ensures
        image@ == set_image(*set),
        is_set_image(image@),
        image_keys(image@) == set_keys(*set),
{
    set.as_fst().as_bytes().to_vec()
}

/// `fst::Set::from_bytes`: the set held by the transducer written in
/// `image`.
///
/// Trusted: the call succeeds exactly on the images that pass [`accepted`];
/// the set it returns keeps `image` as its image and holds the keys that
/// `image` denotes. The call panics where a stated address does not fit the
/// machine's pointers, which `requires` leaves out.
#[verifier::external_body]
fn set_from_bytes(image: Vec<u8>) -> (r: Result<fst::Set, fst::Error>)
    requires
        addresses_fit(image@),
    ensures
        match r {
            Ok(set) => accepted(image@) && set_image(set) == image@ && set_keys(set) == image_keys(
                image@,
            ),
            Err(_) => !accepted(image@),
        },
{
    fst::Set::from_bytes(image)
}

/// Whether the addresses that `image` states fit a pointer of this machine.
pub fn check_addresses(image: &[u8]) -> (fit: bool)
    ensures
        fit == addresses_fit(image@),
{
    let total: usize = image.len();
    if total < 32 {
        return true;
    }
    let root: u64 = read_le(image, total - 8, 8);
    let count: u64 = read_le(image, total - 16, 8);
    root <= usize::MAX as u64 && count <= usize::MAX as u64
}

/// The set that `image` is the image of.
///
/// Fails with [`IndexError::DecodeError`] exactly when `image` is not one
/// that a set can be read from.
pub fn read_set(image: Vec<u8>) -> (r: Result<fst::Set, IndexError>)
    ensures
        match r {
            Ok(set) => is_set_image(image@) && set_image(set) == image@ && set_valid(set),
            Err(e) => e == IndexError::DecodeError && !is_set_image(image@),
        },
{
    if !check_addresses(image.as_slice()) {
        return Err(IndexError::DecodeError);
    }
    match set_from_bytes(image) {
        Ok(set) => Ok(set),
        Err(_) => Err(IndexError::DecodeError),
    }
}

} // verus!
