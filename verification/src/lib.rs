//! Key derivation from human-memorable material.
//!
//! A key is derived from any value that can be turned into canonical bytes:
//! a passphrase, a group of common words whose order does not matter, or a
//! collection of such values. The bytes are salted and stretched into a
//! 256-bit key.
//!
//! - [`kdf`] holds the sources of key material: the trait [`kdf::CKey`], its
//!   implementations for texts and collections, and the word group
//!   [`kdf::WordKey`].
//! - [`stretch`] turns material and salt into a key.
//! - [`words`] holds what a word group needs: the canonical order of words,
//!   the word list and the draw from it.
//! - [`bytes`] holds the order and the concatenation of byte strings.

use vstd::prelude::*;

pub mod bytes;
pub mod kdf;
pub mod stretch;
pub mod words;

verus! {

/// The sum of two sizes.
pub fn add(left: usize, right: usize) -> (sum: usize)
    requires
        left + right <= usize::MAX,
    ensures
        sum == left + right,
{
    left + right
}

} // verus!
