//! Content identifiers: 20 raw bytes, written as 40 lowercase hex digits.

use std::marker::PhantomData;
use vstd::prelude::*;

verus! {

/// Number of bytes in a content hash.
pub const ID_LEN: usize = 20;

/// The hex digits in order of their value.
pub open spec fn hex_digits() -> Seq<char> {
    seq!['0', '1', '2', '3', '4', '5', '6', '7', '8', '9', 'a', 'b', 'c', 'd', 'e', 'f']
}

/// Lowercase hex text of a byte string: two digits per byte, high nibble first.
pub open spec fn hex_of(b: Seq<u8>) -> Seq<char>
    decreases b.len(),
{
    if b.len() == 0 {
        Seq::empty()
    } else {
        let last = b.last();
        hex_of(b.drop_last()) + seq![hex_digits()[(last / 16) as int], hex_digits()[(last % 16) as int]]
    }
}

/// Value of one hex digit, either case.
pub open spec fn hex_value(c: char) -> Option<u8> {
    if '0' <= c && c <= '9' {
        Some((c as u32 - '0' as u32) as u8)
    } else if 'a' <= c && c <= 'f' {
        Some((c as u32 - 'a' as u32 + 10) as u8)
    } else if 'A' <= c && c <= 'F' {
        Some((c as u32 - 'A' as u32 + 10) as u8)
    } else {
        None
    }
}

/// `s` is hex text of exactly `n` bytes.
pub open spec fn is_hex_of_len(s: Seq<char>, n: nat) -> bool {
    s.len() == 2 * n && forall|i: int| 0 <= i < s.len() ==> (#[trigger] hex_value(s[i])) is Some
}

/// The bytes that hex text `s` stands for.
pub open spec fn bytes_of_hex(s: Seq<char>) -> Seq<u8> {
    Seq::new(
        s.len() / 2,
        |i: int| (hex_value(s[2 * i])->0 * 16 + hex_value(s[2 * i + 1])->0) as u8,
    )
}

proof fn lemma_hex_digit(d: int)
    requires
        0 <= d < 16,
    ensures
        hex_value(hex_digits()[d]) == Some(d as u8),
{
    let t = hex_digits();
    assert(t[0] == '0' && t[1] == '1' && t[2] == '2' && t[3] == '3' && t[4] == '4' && t[5] == '5');
    assert(t[6] == '6' && t[7] == '7' && t[8] == '8' && t[9] == '9' && t[10] == 'a' && t[11] == 'b');
    assert(t[12] == 'c' && t[13] == 'd' && t[14] == 'e' && t[15] == 'f');
}

proof fn lemma_hex_of_shape(b: Seq<u8>)
    ensures
        hex_of(b).len() == 2 * b.len(),
        forall|i: int| 0 <= i < b.len() ==> hex_value(#[trigger] hex_of(b)[2 * i]) == Some((b[i] / 16) as u8)
            && hex_value(hex_of(b)[2 * i + 1]) == Some((b[i] % 16) as u8),
    decreases b.len(),
{
    if b.len() > 0 {
        let p = b.drop_last();
        lemma_hex_of_shape(p);
        let last = b.last();
        lemma_hex_digit((last / 16) as int);
        lemma_hex_digit((last % 16) as int);
        assert forall|i: int| 0 <= i < b.len() implies hex_value(#[trigger] hex_of(b)[2 * i]) == Some((b[i] / 16) as u8)
            && hex_value(hex_of(b)[2 * i + 1]) == Some((b[i] % 16) as u8) by {
            if i < p.len() {
                assert(hex_of(p)[2 * i] == hex_of(b)[2 * i]);
                assert(b[i] == p[i]);
            }
        }
    }
}

/// Reading back the hex text of bytes gives the bytes.
pub proof fn lemma_hex_round_trip(b: Seq<u8>)
    ensures
        is_hex_of_len(hex_of(b), b.len()),
        bytes_of_hex(hex_of(b)) == b,
        !hex_of(b).contains(':') && !hex_of(b).contains('\n') && !hex_of(b).contains('='),
{
    lemma_hex_of_shape(b);
    let h = hex_of(b);
    assert forall|i: int| 0 <= i < h.len() implies (#[trigger] hex_value(h[i])) is Some by {
        let k = i / 2;
        assert(0 <= k < b.len());
        assert(hex_value(h[2 * k]) is Some && hex_value(h[2 * k + 1]) is Some);
        if i % 2 == 0 {
            assert(i == 2 * k);
        } else {
            assert(i == 2 * k + 1);
        }
    }
    assert forall|i: int| 0 <= i < b.len() implies bytes_of_hex(h)[i] == b[i] by {
        assert(hex_value(h[2 * i]) == Some((b[i] / 16) as u8));
    }
    assert(bytes_of_hex(h) =~= b);
    assert forall|i: int| 0 <= i < h.len() implies h[i] != ':' && h[i] != '\n' && h[i] != '=' by {
        assert(hex_value(h[i]) is Some);
    }
}

/// Relies on hex::encode: lowercase digits, two for each byte, high nibble first.
#[verifier::external_body]
fn encode_hex(b: &[u8; 20]) -> (r: String)
    ensures
        r@ == hex_of(b@),
{
    hex::encode(b)
}

/// Relies on hex::decode_to_slice: it fills the 20 bytes from 40 hex digits of
/// either case, and fails on any other length or on a character that is not a
/// hex digit.
#[verifier::external_body]
fn decode_hex(s: &str) -> (r: Option<[u8; 20]>)
    ensures
        r is Some <==> is_hex_of_len(s@, 20),
        r matches Some(a) ==> a@ == bytes_of_hex(s@),
{
    let mut out = [0u8; 20];
    match hex::decode_to_slice(s, &mut out) {
        Ok(()) => Some(out),
        Err(_) => None,
    }
}

/// Raw content hash.
#[derive(Clone, Copy, Debug, PartialEq, Eq)]
pub struct UntypedId(pub [u8; 20]);

impl View for UntypedId {
    type V = Seq<u8>;

    open spec fn view(&self) -> Seq<u8> {
        self.0@
    }
}

impl UntypedId {
    /// The identifier as 40 lowercase hex digits.
    pub fn hex(&self) -> (r: String)
        ensures
            r@ == hex_of(self@),
    {
        encode_hex(&self.0)
    }

    /// Strict parse of the textual form: exactly 40 hex digits.
    pub fn parse(s: &str) -> (r: Option<UntypedId>)
        ensures
            r is Some <==> is_hex_of_len(s@, 20),
            r matches Some(id) ==> id@ == bytes_of_hex(s@),
    {
        match decode_hex(s) {
            Some(a) => Some(UntypedId(a)),
            None => None,
        }
    }

    /// Byte-wise equality of two identifiers.
    pub fn same(&self, other: &UntypedId) -> (r: bool)
        ensures
            r == (self@ == other@),
    {
        let mut i: usize = 0;
        while i < ID_LEN
            invariant
                i <= ID_LEN,
                self@.len() == ID_LEN,
                other@.len() == ID_LEN,
                forall|j: int| 0 <= j < i ==> self@[j] == other@[j],
            decreases ID_LEN - i,
        {
            if self.0[i] != other.0[i] {
                return false;
            }
            i = i + 1;
        }
        assert(self@ =~= other@);
        true
    }
}

/// Identifier of an object of the kind that the marker type `T` names. The
/// kind exists only at compile time: the store sees the untyped bytes.
#[derive(Debug, PartialEq, Eq)]
pub struct Id<T> {
    pub untyped_id: UntypedId,
    pub phantom: PhantomData<T>,
}

impl<T> Clone for Id<T> {
    fn clone(&self) -> (r: Self)
        ensures
            r@ == self@,
    {
        Id { untyped_id: self.untyped_id, phantom: PhantomData }
    }
}

impl<T> Copy for Id<T> {
}

impl<T> View for Id<T> {
    type V = Seq<u8>;

    open spec fn view(&self) -> Seq<u8> {
        self.untyped_id@
    }
}

impl<T> Id<T> {
    pub fn new(id: UntypedId) -> (r: Self)
        ensures
            r@ == id@,
    {
        Id { untyped_id: id, phantom: PhantomData }
    }

    pub fn untyped(&self) -> (r: UntypedId)
        ensures
            r@ == self@,
    {
        self.untyped_id
    }

    /// The identifier as 40 lowercase hex digits.
    pub fn hex(&self) -> (r: String)
        ensures
            r@ == hex_of(self@),
    {
        self.untyped_id.hex()
    }

    /// Strict parse of the textual form: exactly 40 hex digits.
    pub fn parse(s: &str) -> (r: Option<Self>)
        ensures
            r is Some <==> is_hex_of_len(s@, 20),
            r matches Some(id) ==> id@ == bytes_of_hex(s@),
    {
        match UntypedId::parse(s) {
            Some(u) => Some(Id::new(u)),
            None => None,
        }
    }

    /// Byte-wise equality of two identifiers.
    pub fn same(&self, other: &Self) -> (r: bool)
        ensures
            r == (self@ == other@),
    {
        self.untyped_id.same(&other.untyped_id)
    }
}

} // verus!
