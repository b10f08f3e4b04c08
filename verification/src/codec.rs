use crate::errors::StorageError;
use vstd::prelude::*;
use vstd::slice::slice_to_vec;

verus! {

/// The number that `bytes` spells in base 256, most significant digit first.
pub open spec fn be_value(bytes: Seq<u8>) -> nat
    decreases bytes.len(),
{
    if bytes.len() == 0 {
        0
    } else {
        be_value(bytes.drop_last()) * 256 + bytes.last() as nat
    }
}

/// The `width` low-order base-256 digits of `value`, most significant first.
pub open spec fn be_bytes(value: nat, width: nat) -> Seq<u8>
    decreases width,
{
    if width == 0 {
        Seq::empty()
    } else {
        be_bytes(value / 256, (width - 1) as nat).push((value % 256) as u8)
    }
}

/// 256 to the power `n`.
pub open spec fn pow256(n: nat) -> nat
    decreases n,
{
    if n == 0 {
        1
    } else {
        256 * pow256((n - 1) as nat)
    }
}

/// A number spelled with `width` digits takes `width` bytes.
pub proof fn lemma_be_bytes_len(value: nat, width: nat)
    ensures
        be_bytes(value, width).len() == width,
    decreases width,
{
    if width > 0 {
        lemma_be_bytes_len(value / 256, (width - 1) as nat);
    }
}

/// A sequence of `n` digits spells a number below 256 to the `n`.
pub proof fn lemma_be_value_bound(bytes: Seq<u8>)
    ensures
        be_value(bytes) < pow256(bytes.len()),
    decreases bytes.len(),
{
    if bytes.len() > 0 {
        lemma_be_value_bound(bytes.drop_last());
    }
}

/// Spelling a number with enough digits and reading it back gives the number.
pub proof fn lemma_be_value_of_bytes(value: nat, width: nat)
    requires
        value < pow256(width),
    ensures
        be_value(be_bytes(value, width)) == value,
    decreases width,
{
    if width > 0 {
        let rest = be_bytes(value / 256, (width - 1) as nat);
        lemma_be_value_of_bytes(value / 256, (width - 1) as nat);
        assert(be_bytes(value, width).drop_last() == rest);
    }
}

/// Writes `value` as `N` big-endian bytes.
fn to_be_array<const N: usize>(value: u64) -> (out: [u8; N])
    ensures
        out@ == be_bytes(value as nat, N as nat),
{
    let mut out: [u8; N] = [0u8; N];
    let mut rest: u64 = value;
    let mut i: usize = N;
    while i > 0
        invariant
            i <= N,
            out@.len() == N,
            be_bytes(value as nat, N as nat) == be_bytes(rest as nat, i as nat) + out@.subrange(
                i as int,
                N as int,
            ),
        decreases i,
    {
        i = i - 1;
        out[i] = (rest % 256) as u8;
        rest = rest / 256;
    }
    out
}

/// Reads up to eight big-endian bytes as a number.
fn from_be_slice(bytes: &[u8]) -> (value: u64)
    requires
        bytes@.len() <= 8,
    ensures
        value == be_value(bytes@),
{
    let mut value: u64 = 0;
    let mut i: usize = 0;
    while i < bytes.len()
        invariant
            i <= bytes@.len() <= 8,
            value == be_value(bytes@.subrange(0, i as int)),
        decreases bytes@.len() - i,
    {
        proof {
            let head = bytes@.subrange(0, i as int);
            let next = bytes@.subrange(0, i + 1);
            lemma_be_value_bound(head);
            lemma_pow256_monotonic(i as nat, 7);
            reveal_with_fuel(pow256, 8);
            assert(next.drop_last() == head);
        }
        value = value * 256 + bytes[i] as u64;
        i = i + 1;
    }
    assert(bytes@.subrange(0, i as int) == bytes@);
    value
}

/// A higher power of 256 is not smaller.
pub proof fn lemma_pow256_monotonic(a: nat, b: nat)
    requires
        a <= b,
    ensures
        pow256(a) <= pow256(b),
    decreases b,
{
    if a < b {
        lemma_pow256_monotonic(a, (b - 1) as nat);
    }
}

/// The bytes that stand for a value while it is handed to the storage engine.
///
/// Small fixed-width values are held inline, byte strings are borrowed from the
/// value they encode, and anything else owns its buffer.
pub enum Encoded<'a> {
    U8([u8; 1]),
    U8x2([u8; 2]),
    U8x4([u8; 4]),
    U8x8([u8; 8]),
    Owned(Vec<u8>),
    Borrowed(&'a [u8]),
}

impl<'a> View for Encoded<'a> {
    type V = Seq<u8>;

    open spec fn view(&self) -> Seq<u8> {
        match self {
            Encoded::U8(bytes) => bytes@,
            Encoded::U8x2(bytes) => bytes@,
            Encoded::U8x4(bytes) => bytes@,
            Encoded::U8x8(bytes) => bytes@,
            Encoded::Owned(bytes) => bytes@,
            Encoded::Borrowed(bytes) => bytes@,
        }
    }
}

impl<'a> Encoded<'a> {
    /// A view of the bytes that lasts as long as this value is borrowed.
    pub fn as_bytes(&self) -> (r: &[u8])
        ensures
            r@ == self@,
    {
        match self {
            Encoded::U8(bytes) => bytes.as_slice(),
            Encoded::U8x2(bytes) => bytes.as_slice(),
            Encoded::U8x4(bytes) => bytes.as_slice(),
            Encoded::U8x8(bytes) => bytes.as_slice(),
            Encoded::Owned(bytes) => bytes.as_slice(),
            Encoded::Borrowed(bytes) => bytes,
        }
    }

    /// The bytes as a buffer of their own, which outlives what they were borrowed from.
    pub fn into_owned(self) -> (r: Vec<u8>)
        ensures
            r@ == self@,
    {
        match self {
            Encoded::Owned(bytes) => bytes,
            Encoded::U8(bytes) => slice_to_vec(bytes.as_slice()),
            Encoded::U8x2(bytes) => slice_to_vec(bytes.as_slice()),
            Encoded::U8x4(bytes) => slice_to_vec(bytes.as_slice()),
            Encoded::U8x8(bytes) => slice_to_vec(bytes.as_slice()),
            Encoded::Borrowed(bytes) => slice_to_vec(bytes),
        }
    }
}

/// Values that can be written as bytes.
pub trait Encode: View {
    /// The bytes that stand for `value`, or `None` where it has no encoding.
    spec fn encoding(value: Self::V) -> Option<Seq<u8>>;

    /// Encodes the value, borrowing from it where its bytes are already at hand.
    fn encode(&self) -> (r: Result<Encoded<'_>, StorageError>)
        ensures
            match r {
                Ok(bytes) => Self::encoding(self@) == Some(bytes@),
                Err(e) => Self::encoding(self@) is None && e == StorageError::SerializationError,
            },
    ;
}

/// Values that can be read back from bytes.
pub trait Decode: Sized + View {
    /// The value that `bytes` stand for, or `None` where they stand for none.
    spec fn decoding(bytes: Seq<u8>) -> Option<Self::V>;

    /// Decodes a value that owns its data from bytes that are only lent for the call.
    fn decode(bytes: &[u8]) -> (r: Result<Self, StorageError>)
        ensures
            match r {
                Ok(value) => Self::decoding(bytes@) == Some(value@),
                Err(e) => Self::decoding(bytes@) is None && e
                    == StorageError::DeserializationError,
            },
    ;
}

/// Keys of a typed map: two keys with the same encoding are the same key.
pub trait KeyCodec: Encode {
    proof fn encoding_is_injective(a: Self::V, b: Self::V)
        requires
            Self::encoding(a) is Some,
            Self::encoding(a) == Self::encoding(b),
        ensures
            a == b,
    ;
}

/// Values of a typed map: decoding undoes encoding.
pub trait ValueCodec: Encode + Decode {
    proof fn decoding_inverts_encoding(value: Self::V)
        requires
            Self::encoding(value) is Some,
        ensures
            Self::decoding(Self::encoding(value).unwrap()) == Some(value),
    ;
}

impl Encode for u8 {
    open spec fn encoding(value: u8) -> Option<Seq<u8>> {
        Some(seq![value])
    }

    fn encode(&self) -> (r: Result<Encoded<'_>, StorageError>) {
        let bytes: [u8; 1] = [*self];
        assert(bytes@ == seq![*self]);
        Ok(Encoded::U8(bytes))
    }
}

impl Decode for u8 {
    open spec fn decoding(bytes: Seq<u8>) -> Option<u8> {
        if bytes.len() == 1 {
            Some(bytes[0])
        } else {
            None
        }
    }

    fn decode(bytes: &[u8]) -> (r: Result<Self, StorageError>) {
        if bytes.len() == 1 {
            Ok(bytes[0])
        } else {
            Err(StorageError::DeserializationError)
        }
    }
}

impl KeyCodec for u8 {
    proof fn encoding_is_injective(a: u8, b: u8) {
        assert(seq![a][0] == seq![b][0]);
    }
}

impl ValueCodec for u8 {
    proof fn decoding_inverts_encoding(value: u8) {
    }
}

impl Encode for u16 {
    open spec fn encoding(value: u16) -> Option<Seq<u8>> {
        Some(be_bytes(value as nat, 2))
    }

    fn encode(&self) -> (r: Result<Encoded<'_>, StorageError>) {
        Ok(Encoded::U8x2(to_be_array::<2>(*self as u64)))
    }
}

impl Decode for u16 {
    open spec fn decoding(bytes: Seq<u8>) -> Option<u16> {
        if bytes.len() == 2 {
            Some(be_value(bytes) as u16)
        } else {
            None
        }
    }

    fn decode(bytes: &[u8]) -> (r: Result<Self, StorageError>) {
        if bytes.len() == 2 {
            proof {
                lemma_be_value_bound(bytes@);
                reveal_with_fuel(pow256, 3);
            }
            Ok(from_be_slice(bytes) as u16)
        } else {
            Err(StorageError::DeserializationError)
        }
    }
}

impl KeyCodec for u16 {
    proof fn encoding_is_injective(a: u16, b: u16) {
        reveal_with_fuel(pow256, 3);
        lemma_be_value_of_bytes(a as nat, 2);
        lemma_be_value_of_bytes(b as nat, 2);
    }
}

impl ValueCodec for u16 {
    proof fn decoding_inverts_encoding(value: u16) {
        reveal_with_fuel(pow256, 3);
        lemma_be_bytes_len(value as nat, 2);
        lemma_be_value_of_bytes(value as nat, 2);
    }
}

impl Encode for u32 {
    open spec fn encoding(value: u32) -> Option<Seq<u8>> {
        Some(be_bytes(value as nat, 4))
    }

    fn encode(&self) -> (r: Result<Encoded<'_>, StorageError>) {
        Ok(Encoded::U8x4(to_be_array::<4>(*self as u64)))
    }
}

impl Decode for u32 {
    open spec fn decoding(bytes: Seq<u8>) -> Option<u32> {
        if bytes.len() == 4 {
            Some(be_value(bytes) as u32)
        } else {
            None
        }
    }

    fn decode(bytes: &[u8]) -> (r: Result<Self, StorageError>) {
        if bytes.len() == 4 {
            proof {
                lemma_be_value_bound(bytes@);
                reveal_with_fuel(pow256, 5);
            }
            Ok(from_be_slice(bytes) as u32)
        } else {
            Err(StorageError::DeserializationError)
        }
    }
}

impl KeyCodec for u32 {
    proof fn encoding_is_injective(a: u32, b: u32) {
        reveal_with_fuel(pow256, 5);
        lemma_be_value_of_bytes(a as nat, 4);
        lemma_be_value_of_bytes(b as nat, 4);
    }
}

impl ValueCodec for u32 {
    proof fn decoding_inverts_encoding(value: u32) {
        reveal_with_fuel(pow256, 5);
        lemma_be_bytes_len(value as nat, 4);
        lemma_be_value_of_bytes(value as nat, 4);
    }
}

impl Encode for u64 {
    open spec fn encoding(value: u64) -> Option<Seq<u8>> {
        Some(be_bytes(value as nat, 8))
    }

    fn encode(&self) -> (r: Result<Encoded<'_>, StorageError>) {
        Ok(Encoded::U8x8(to_be_array::<8>(*self)))
    }
}

impl Decode for u64 {
    open spec fn decoding(bytes: Seq<u8>) -> Option<u64> {
        if bytes.len() == 8 {
            Some(be_value(bytes) as u64)
        } else {
            None
        }
    }

    fn decode(bytes: &[u8]) -> (r: Result<Self, StorageError>) {
        if bytes.len() == 8 {
            Ok(from_be_slice(bytes))
        } else {
            Err(StorageError::DeserializationError)
        }
    }
}

impl KeyCodec for u64 {
    proof fn encoding_is_injective(a: u64, b: u64) {
        reveal_with_fuel(pow256, 9);
        lemma_be_value_of_bytes(a as nat, 8);
        lemma_be_value_of_bytes(b as nat, 8);
    }
}

impl ValueCodec for u64 {
    proof fn decoding_inverts_encoding(value: u64) {
        reveal_with_fuel(pow256, 9);
        lemma_be_bytes_len(value as nat, 8);
        lemma_be_value_of_bytes(value as nat, 8);
    }
}

impl Encode for Vec<u8> {
    open spec fn encoding(value: Seq<u8>) -> Option<Seq<u8>> {
        Some(value)
    }

    fn encode(&self) -> (r: Result<Encoded<'_>, StorageError>) {
        Ok(Encoded::Borrowed(self.as_slice()))
    }
}

impl Decode for Vec<u8> {
    open spec fn decoding(bytes: Seq<u8>) -> Option<Seq<u8>> {
        Some(bytes)
    }

    fn decode(bytes: &[u8]) -> (r: Result<Self, StorageError>) {
        Ok(slice_to_vec(bytes))
    }
}

impl KeyCodec for Vec<u8> {
    proof fn encoding_is_injective(a: Seq<u8>, b: Seq<u8>) {
    }
}

impl ValueCodec for Vec<u8> {
    proof fn decoding_inverts_encoding(value: Seq<u8>) {
    }
}

} // verus!
