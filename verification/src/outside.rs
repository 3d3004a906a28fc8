//! The calls into other crates, each with what is taken for granted of it.

use sha2::Digest;
use unicode_normalization::UnicodeNormalization;
use vstd::prelude::*;

verus! {

/// A number in groups of seven bits, the lowest first; every group but the last has its
/// top bit set.
pub open spec fn varint(value: nat) -> Seq<u8>
    decreases value,
{
    if value < 128 {
        seq![value as u8]
    } else {
        seq![(128 + value % 128) as u8] + varint(value / 128)
    }
}

/// `postcard::to_allocvec` of a `usize`: never fails, and writes the number as a [`varint`].
#[verifier::external_body]
pub(crate) fn encode_count(count: usize) -> (r: Option<Vec<u8>>)
    ensures
        r is Some,
        r->0@ == varint(count as nat),
{
    postcard::to_allocvec(&count).ok()
}

#[verifier::external_type_specification]
#[verifier::external_body]
pub struct ExRandomError(getrandom::Error);

/// `getrandom::fill` on sixteen bytes, read as a number: nothing is claimed of the number,
/// nor of when it fails.
#[verifier::external_body]
pub(crate) fn random_number() -> (r: Result<u128, getrandom::Error>)
{
    let mut bytes = [0u8; 16];
    getrandom::fill(&mut bytes).map(|_| u128::from_be_bytes(bytes))
}

/// `getrandom::Error` in words, as its `Display` has them: nothing is claimed of the words,
/// which are the system's own where the system failed.
#[verifier::external_body]
pub(crate) fn random_cause(error: getrandom::Error) -> (r: String)
{
    format!("{error}")
}

/// The SHA-256 digest of some bytes.
pub uninterp spec fn sha256(bytes: Seq<u8>) -> Seq<u8>;

/// What a hasher has taken in so far.
pub uninterp spec fn taken_in(hasher: Hasher) -> Seq<u8>;

/// A `sha2::Sha256`: bytes are taken in one after the other, until their digest is asked for.
#[verifier::external_body]
pub struct Hasher {
    inner: sha2::Sha256,
}

impl Hasher {
    /// `sha2::Sha256::new`: nothing is taken in yet.
    #[verifier::external_body]
    pub(crate) fn start() -> (r: Hasher)
        ensures
            taken_in(r) == Seq::<u8>::empty(),
    {
        Hasher { inner: sha2::Sha256::new() }
    }

    /// `sha2::Sha256::update`: takes in some bytes behind those before.
    #[verifier::external_body]
    pub(crate) fn take_in(&mut self, bytes: &Vec<u8>)
        ensures
            taken_in(*final(self)) == taken_in(*old(self)) + bytes@,
    {
        self.inner.update(bytes)
    }

    /// `sha2::Sha256::finalize`: the digest, of thirty-two bytes, of all that was taken in,
    /// whichever pieces it came in.
    #[verifier::external_body]
    pub(crate) fn finish(self) -> (r: Vec<u8>)
        ensures
            r@ == sha256(taken_in(self)),
            r@.len() == 32,
    {
        self.inner.finalize().to_vec()
    }
}

/// A text in Unicode Normalization Form C.
pub uninterp spec fn composed(text: Seq<char>) -> Seq<char>;

/// `unicode_normalization`'s `nfc` of a text: what it makes of the text is [`composed`] by
/// definition, and depends on nothing else.
#[verifier::external_body]
pub(crate) fn compose(text: &str) -> (r: String)
    ensures
        r@ == composed(text@),
{
    text.nfc().collect::<String>()
}

/// A text in lower case, as the Unicode tables have it.
pub uninterp spec fn uncapitalized(text: Seq<char>) -> Seq<char>;

/// `str::to_lowercase`: what it makes of the text is [`uncapitalized`] by definition, and
/// depends on nothing else.
#[verifier::external_body]
pub(crate) fn uncapitalize(text: &str) -> (r: String)
    ensures
        r@ == uncapitalized(text@),
{
    text.to_lowercase()
}

/// A byte that separates values in JSON.
pub open spec fn is_blank(byte: u8) -> bool {
    byte == 0x20 || byte == 0x0a || byte == 0x09 || byte == 0x0d
}

/// Some bytes are blank.
pub open spec fn all_blank(bytes: Seq<u8>) -> bool {
    forall|i: int| 0 <= i < bytes.len() ==> is_blank(#[trigger] bytes[i])
}

/// The words for a choice.
pub open spec fn flag_bytes(flag: bool) -> Seq<u8> {
    if flag {
        seq![0x74u8, 0x72, 0x75, 0x65]
    } else {
        seq![0x66u8, 0x61, 0x6c, 0x73, 0x65]
    }
}

/// Some bytes say a choice, and nothing else but blanks.
pub open spec fn says(bytes: Seq<u8>, flag: bool) -> bool {
    exists|i: int, j: int|
        0 <= i <= j <= bytes.len() && all_blank(#[trigger] bytes.subrange(0, i)) && bytes.subrange(
            i,
            j,
        ) == flag_bytes(flag) && all_blank(#[trigger] bytes.subrange(j, bytes.len() as int))
}

/// `serde_json::from_slice` of a `bool`: takes `true` or `false` with blanks round it, and
/// nothing else.
#[verifier::external_body]
pub(crate) fn read_flag(bytes: &Vec<u8>) -> (r: Option<bool>)
    ensures
        r == Some(true) <==> says(bytes@, true),
        r == Some(false) <==> says(bytes@, false),
{
    serde_json::from_slice(bytes).ok()
}

/// `serde_json::to_vec` of a `bool`: never fails, and writes `true` or `false`.
#[verifier::external_body]
pub(crate) fn write_flag(flag: bool) -> (r: Option<Vec<u8>>)
    ensures
        r is Some,
        r->0@ == flag_bytes(flag),
{
    serde_json::to_vec(&flag).ok()
}

} // verus!
