//! Fresh identities: scene keys and correlation ids, drawn as random
//! (version 4) UUIDs.
use vstd::prelude::*;
use crate::scene::SceneKey;

verus! {

/// The lower-case hexadecimal digit of `d` (0 to 15).
pub open spec fn hex_digit(d: int) -> char {
    if d < 10 {
        (d + 48) as char
    } else {
        (d - 10 + 97) as char
    }
}

/// Two lower-case hexadecimal digits of a byte, the high one first.
pub open spec fn hex_byte(b: u8) -> Seq<char> {
    seq![hex_digit(b as int / 16), hex_digit(b as int % 16)]
}

/// The bytes in hexadecimal, in order.
pub open spec fn hex_bytes(bs: Seq<u8>) -> Seq<char>
    decreases bs.len(),
{
    if bs.len() == 0 {
        Seq::empty()
    } else {
        hex_bytes(bs.drop_last()) + hex_byte(bs.last())
    }
}

/// The text of a UUID: its 16 bytes in lower-case hexadecimal, in groups of
/// 4, 2, 2, 2 and 6 bytes joined by hyphens.
pub open spec fn uuid_text(b: Seq<u8>) -> Seq<char> {
    hex_bytes(b.subrange(0, 4)) + seq!['-'] + hex_bytes(b.subrange(4, 6)) + seq!['-'] + hex_bytes(
        b.subrange(6, 8),
    ) + seq!['-'] + hex_bytes(b.subrange(8, 10)) + seq!['-'] + hex_bytes(b.subrange(10, 16))
}

/// 16 bytes with the version (4, random) and variant (RFC 4122) bits of a
/// random UUID.
pub open spec fn is_v4_uuid(b: Seq<u8>) -> bool {
    &&& b.len() == 16
    &&& b[6] & 0xf0u8 == 0x40u8
    &&& b[8] & 0xc0u8 == 0x80u8
}

/// Calls `uuid::Uuid::new_v4` and hands back its bytes (`Uuid::as_bytes`).
/// Claimed: 16 bytes carrying the version and variant bits that `new_v4`
/// sets; the other bits are random and nothing is said of them.
#[verifier::external_body]
fn new_v4_bytes() -> (r: Vec<u8>)
    ensures
        is_v4_uuid(r@),
{
    uuid::Uuid::new_v4().as_bytes().to_vec()
}

/// Calls `uuid::Uuid::from_slice` on 16 bytes (which it accepts) and formats
/// the UUID with `Display`. Claimed: the lower-case hyphenated text of the
/// bytes (`uuid_text`).
#[verifier::external_body]
fn uuid_string(bytes: &[u8]) -> (s: String)
    requires
        bytes@.len() == 16,
    ensures
        s@ == uuid_text(bytes@),
{
    uuid::Uuid::from_slice(bytes).unwrap().to_string()
}

impl SceneKey {
    /// A fresh key: the bytes of a random UUID.
    pub fn new() -> (r: SceneKey)
        ensures
            is_v4_uuid(r@),
    {
        SceneKey { id: new_v4_bytes() }
    }

    /// The key as UUID text; the key must be 16 bytes long.
    pub fn __repr__(&self) -> (s: String)
        requires
            self@.len() == 16,
        ensures
            s@ == uuid_text(self@),
    {
        uuid_string(self.id.as_slice())
    }
}

/// Ties a request to the backend to its later answer.
#[derive(Debug, Clone, PartialEq, Eq, Hash)]
pub struct CorrelationId {
    pub id: String,
}

impl View for CorrelationId {
    type V = Seq<char>;

    open spec fn view(&self) -> Seq<char> {
        self.id@
    }
}

impl CorrelationId {
    /// A fresh id: the text of a random UUID.
    pub fn new() -> (r: CorrelationId)
        ensures
            exists|b: Seq<u8>| is_v4_uuid(b) && r@ == uuid_text(b),
    {
        let b = new_v4_bytes();
        CorrelationId { id: uuid_string(b.as_slice()) }
    }

    /// The id's text.
    pub fn __repr__(&self) -> (s: String)
        ensures
            s@ == self@,
    {
        self.id.clone()
    }
}

impl Default for CorrelationId {
    fn default() -> (r: CorrelationId)
        ensures
            exists|b: Seq<u8>| is_v4_uuid(b) && r@ == uuid_text(b),
    {
        CorrelationId::new()
    }
}

} // verus!
