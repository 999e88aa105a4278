use vstd::prelude::*;

verus! {

/// Little-endian bytes of a `u64`, the layout borsh gives every fixed-width integer.
pub open spec fn le_bytes_u64(v: u64) -> Seq<u8> {
    seq![
        (v & 0xff) as u8,
        ((v >> 8u64) & 0xff) as u8,
        ((v >> 16u64) & 0xff) as u8,
        ((v >> 24u64) & 0xff) as u8,
        ((v >> 32u64) & 0xff) as u8,
        ((v >> 40u64) & 0xff) as u8,
        ((v >> 48u64) & 0xff) as u8,
        ((v >> 56u64) & 0xff) as u8,
    ]
}

/// The `u64` whose little-endian bytes are `b[0..8]`.
pub open spec fn u64_from_le(b: Seq<u8>) -> u64 {
    (b[0] as u64) | ((b[1] as u64) << 8u64) | ((b[2] as u64) << 16u64) | ((b[3] as u64) << 24u64)
        | ((b[4] as u64) << 32u64) | ((b[5] as u64) << 40u64) | ((b[6] as u64) << 48u64) | ((
    b[7] as u64) << 56u64)
}

/// A value that can be stored: it has a deterministic byte encoding, the encoding
/// decodes back to the value, and equal values can be told apart from unequal ones.
pub trait BorshCodec: Sized {
    /// The bytes that `encode` produces for `v`.
    spec fn encoding(v: Self) -> Seq<u8>;

    /// The value that `decode` yields for `b`, or `None` where `b` is not an encoding.
    spec fn decoding(b: Seq<u8>) -> Option<Self>;

    proof fn lemma_decode_encode(v: Self)
        ensures
            Self::decoding(Self::encoding(v)) == Some(v),
    ;

    fn encode(&self) -> (r: Vec<u8>)
        ensures
            r@ == Self::encoding(*self),
    ;

    fn decode(bytes: &[u8]) -> (r: Option<Self>)
        ensures
            r == Self::decoding(bytes@),
    ;

    fn same(&self, other: &Self) -> (r: bool)
        ensures
            r == (*self == *other),
    ;

    fn duplicate(&self) -> (r: Self)
        ensures
            r == *self,
    ;
}

/// Relies on borsh::to_vec for `u8`: the single byte itself.
#[verifier::external_body]
fn borsh_encode_u8(v: u8) -> (r: Vec<u8>)
    ensures
        r@ == seq![v],
{
    borsh::to_vec(&v).expect("writing into a Vec cannot fail")
}

/// Relies on borsh::from_slice for `u8`: succeeds exactly on one byte, which is the value.
#[verifier::external_body]
fn borsh_decode_u8(b: &[u8]) -> (r: Option<u8>)
    ensures
        r == (if b@.len() == 1 { Some(b@[0]) } else { None::<u8> }),
{
    borsh::from_slice::<u8>(b).ok()
}

/// Relies on borsh::to_vec for `u64`: the eight little-endian bytes.
#[verifier::external_body]
fn borsh_encode_u64(v: u64) -> (r: Vec<u8>)
    ensures
        r@ == le_bytes_u64(v),
{
    borsh::to_vec(&v).expect("writing into a Vec cannot fail")
}

/// Relies on borsh::from_slice for `u64`: succeeds exactly on eight bytes, read little-endian.
#[verifier::external_body]
fn borsh_decode_u64(b: &[u8]) -> (r: Option<u64>)
    ensures
        r == (if b@.len() == 8 { Some(u64_from_le(b@)) } else { None::<u64> }),
{
    borsh::from_slice::<u64>(b).ok()
}

impl BorshCodec for u8 {
    open spec fn encoding(v: u8) -> Seq<u8> {
        seq![v]
    }

    open spec fn decoding(b: Seq<u8>) -> Option<u8> {
        if b.len() == 1 {
            Some(b[0])
        } else {
            None
        }
    }

    proof fn lemma_decode_encode(v: u8) {
    }

    fn encode(&self) -> (r: Vec<u8>) {
        borsh_encode_u8(*self)
    }

    fn decode(bytes: &[u8]) -> (r: Option<u8>) {
        borsh_decode_u8(bytes)
    }

    fn same(&self, other: &u8) -> (r: bool) {
        *self == *other
    }

    fn duplicate(&self) -> (r: u8) {
        *self
    }
}

proof fn lemma_le_round_trip(v: u64)
    ensures
        u64_from_le(le_bytes_u64(v)) == v,
{
    let b = le_bytes_u64(v);
    let b0 = (v & 0xff) as u8;
    let b1 = ((v >> 8u64) & 0xff) as u8;
    let b2 = ((v >> 16u64) & 0xff) as u8;
    let b3 = ((v >> 24u64) & 0xff) as u8;
    let b4 = ((v >> 32u64) & 0xff) as u8;
    let b5 = ((v >> 40u64) & 0xff) as u8;
    let b6 = ((v >> 48u64) & 0xff) as u8;
    let b7 = ((v >> 56u64) & 0xff) as u8;
    assert(b[0] == b0 && b[1] == b1 && b[2] == b2 && b[3] == b3);
    assert(b[4] == b4 && b[5] == b5 && b[6] == b6 && b[7] == b7);
    assert((b0 as u64) | ((b1 as u64) << 8u64) | ((b2 as u64) << 16u64) | ((b3 as u64) << 24u64)
        | ((b4 as u64) << 32u64) | ((b5 as u64) << 40u64) | ((b6 as u64) << 48u64) | ((b7 as u64)
        << 56u64) == v) by (bit_vector)
        requires
            b0 == (v & 0xff) as u8,
            b1 == ((v >> 8u64) & 0xff) as u8,
            b2 == ((v >> 16u64) & 0xff) as u8,
            b3 == ((v >> 24u64) & 0xff) as u8,
            b4 == ((v >> 32u64) & 0xff) as u8,
            b5 == ((v >> 40u64) & 0xff) as u8,
            b6 == ((v >> 48u64) & 0xff) as u8,
            b7 == ((v >> 56u64) & 0xff) as u8,
    ;
}

impl BorshCodec for u64 {
    open spec fn encoding(v: u64) -> Seq<u8> {
        le_bytes_u64(v)
    }

    open spec fn decoding(b: Seq<u8>) -> Option<u64> {
        if b.len() == 8 {
            Some(u64_from_le(b))
        } else {
            None
        }
    }

    proof fn lemma_decode_encode(v: u64) {
        lemma_le_round_trip(v);
    }

    fn encode(&self) -> (r: Vec<u8>) {
        borsh_encode_u64(*self)
    }

    fn decode(bytes: &[u8]) -> (r: Option<u64>) {
        borsh_decode_u64(bytes)
    }

    fn same(&self, other: &u64) -> (r: bool) {
        *self == *other
    }

    fn duplicate(&self) -> (r: u64) {
        *self
    }
}

} // verus!
