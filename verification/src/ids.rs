//! UUIDs in their text form, made by the `uuid` crate.
use vstd::prelude::*;

verus! {

/// A lowercase hexadecimal digit.
pub open spec fn is_lower_hex(c: char) -> bool {
    ('0' <= c && c <= '9') || ('a' <= c && c <= 'f')
}

/// The hyphenated text form of a UUID: 36 characters, `-` at positions 8,
/// 13, 18 and 23, lowercase hexadecimal digits elsewhere.
pub open spec fn hyphenated(s: Seq<char>) -> bool {
    &&& s.len() == 36
    &&& forall|i: int|
        0 <= i < 36 ==> if i == 8 || i == 13 || i == 18 || i == 23 {
            s[i] == '-'
        } else {
            is_lower_hex(#[trigger] s[i])
        }
}

/// What `uuid::Uuid::new_v5` gives (SHA-1 of the namespace's bytes and the
/// name's UTF-8 bytes), in text form.
pub uninterp spec fn uuid_v5(namespace: Seq<u8>, name: Seq<char>) -> Seq<char>;

/// `uuid::Uuid::new_v5` on a namespace given by its bytes, written with
/// `Display`: the result is `uuid_v5` of the namespace and the name, in the
/// hyphenated form.
#[verifier::external_body]
pub fn new_v5(namespace: &[u8; 16], name: &str) -> (r: String)
    ensures
        r@ == uuid_v5(namespace@, name@),
        hyphenated(r@),
{
    uuid::Uuid::new_v5(&uuid::Uuid::from_bytes(*namespace), name.as_bytes()).to_string()
}

/// `uuid::Uuid::new_v4` (random), written with `Display`: only its
/// hyphenated form is stated, since the value is random.
#[verifier::external_body]
pub fn new_v4() -> (r: String)
    ensures
        hyphenated(r@),
{
    uuid::Uuid::new_v4().to_string()
}

} // verus!
