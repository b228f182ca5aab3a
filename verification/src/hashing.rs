//! Texts that go into a hash.
use std::collections::hash_map::DefaultHasher;
use std::hash::Hash;
use vstd::prelude::*;

verus! {

/// What a text writes to a hasher.
pub uninterp spec fn text_writes(text: Seq<char>) -> Seq<Seq<u8>>;

/// Feeds a text to a hasher.
///
/// `<str as Hash>::hash`: that it adds writes to those which the hasher has seen, and that the
/// text alone decides which.
#[verifier::external_body]
pub(crate) fn hash_text(text: &str, state: &mut DefaultHasher)
    ensures
        final(state)@ == old(state)@ + text_writes(text@),
{
    text.hash(state);
}

} // verus!
