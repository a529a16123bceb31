use vstd::prelude::*;
use bytes::BufMut;

verus! {

/// A network endpoint as the node sees it: a 16-byte address (IPv4 addresses
/// are carried in their IPv6-mapped form) together with a port. The 16 octets
/// are packed big-endian into two 64-bit halves, so that the whole endpoint is
/// a plain value that can serve as a lookup key.
#[derive(Clone, Copy, Debug, PartialEq, Eq, Structural, Hash)]
pub struct Address {
    pub ip_hi: u64,
    pub ip_lo: u64,
    pub port: u16,
}

impl Address {
    pub fn new(ip_hi: u64, ip_lo: u64, port: u16) -> (r: Address)
        ensures
            r == (Address { ip_hi, ip_lo, port }),
    {
        Address { ip_hi, ip_lo, port }
    }
}

/// Error cases of the byte-stream readers: a fixed-width field that the buffer
/// cannot supply, a length claim that disagrees with the bytes at hand, or a
/// transport failure reported by the caller.
#[derive(Clone, Copy, Debug, PartialEq, Eq, Structural)]
pub enum MessageCodecError {
    SerializationError,
    DataLengthMismatch,
    IO,
}

#[verifier::external_type_specification]
#[verifier::external_body]
pub struct ExBytesMut(bytes::BytesMut);

/// The byte contents of a `bytes::BytesMut` buffer, in order.
pub uninterp spec fn buf_bytes(b: bytes::BytesMut) -> Seq<u8>;

/// Relies on bytes::BytesMut::new: creates an empty buffer.
#[verifier::external_body]
pub(crate) fn buf_new() -> (r: bytes::BytesMut)
    ensures
        buf_bytes(r) == Seq::<u8>::empty(),
{
    bytes::BytesMut::new()
}

/// Relies on bytes::BytesMut::len: the number of bytes the buffer holds.
#[verifier::external_body]
pub(crate) fn buf_len(b: &bytes::BytesMut) -> (r: usize)
    ensures
        r == buf_bytes(*b).len(),
{
    b.len()
}

/// Relies on bytes::BufMut::put_u8: appends the byte to the buffer.
#[verifier::external_body]
pub(crate) fn buf_put_u8(b: &mut bytes::BytesMut, v: u8)
    ensures
        buf_bytes(*final(b)) == buf_bytes(*old(b)).push(v),
{
    b.put_u8(v);
}

/// Relies on bytes::BufMut::put_u16: appends the two big-endian bytes of `v`.
#[verifier::external_body]
pub(crate) fn buf_put_u16(b: &mut bytes::BytesMut, v: u16)
    ensures
        buf_bytes(*final(b)) == buf_bytes(*old(b)) + spec_u16_to_be_bytes(v),
{
    b.put_u16(v);
}

/// Relies on bytes::BufMut::put_u64: appends the eight big-endian bytes of `v`.
#[verifier::external_body]
pub(crate) fn buf_put_u64(b: &mut bytes::BytesMut, v: u64)
    ensures
        buf_bytes(*final(b)) == buf_bytes(*old(b)) + spec_u64_to_be_bytes(v),
{
    b.put_u64(v);
}

/// Relies on bytes::BytesMut::extend_from_slice: appends the slice's bytes.
#[verifier::external_body]
pub(crate) fn buf_extend(b: &mut bytes::BytesMut, data: &[u8])
    ensures
        buf_bytes(*final(b)) == buf_bytes(*old(b)) + data@,
{
    b.extend_from_slice(data);
}

/// Relies on bytes::BytesMut::unsplit: appends the other buffer's bytes.
#[verifier::external_body]
pub(crate) fn buf_unsplit(b: &mut bytes::BytesMut, other: bytes::BytesMut)
    ensures
        buf_bytes(*final(b)) == buf_bytes(*old(b)) + buf_bytes(other),
{
    b.unsplit(other);
}

/// Relies on bytes::BytesMut::split_to: removes and returns the first `at`
/// bytes; panics when `at` exceeds the length, which the contract rules out.
#[verifier::external_body]
pub(crate) fn buf_split_to(b: &mut bytes::BytesMut, at: usize) -> (r: bytes::BytesMut)
    requires
        at <= buf_bytes(*old(b)).len(),
    ensures
        buf_bytes(r) == buf_bytes(*old(b)).take(at as int),
        buf_bytes(*final(b)) == buf_bytes(*old(b)).skip(at as int),
{
    b.split_to(at)
}

/// Relies on the slice indexing that bytes::BytesMut exposes through Deref:
/// reads the byte at position `i`.
#[verifier::external_body]
pub(crate) fn buf_byte_at(b: &bytes::BytesMut, i: usize) -> (r: u8)
    requires
        i < buf_bytes(*b).len(),
    ensures
        r == buf_bytes(*b)[i as int],
{
    b[i]
}

pub open spec fn spec_u16_to_be_bytes(x: u16) -> Seq<u8> {
    seq![((x >> 8) & 0xff) as u8, (x & 0xff) as u8]
}

pub open spec fn spec_u16_from_be_bytes(s: Seq<u8>) -> u16
    recommends
        s.len() == 2,
{
    ((s[0] as u16) << 8) | (s[1] as u16)
}

pub open spec fn spec_u32_from_be_bytes(s: Seq<u8>) -> u32
    recommends
        s.len() == 4,
{
    ((s[0] as u32) << 24) | ((s[1] as u32) << 16) | ((s[2] as u32) << 8) | (s[3] as u32)
}

pub open spec fn spec_u64_to_be_bytes(x: u64) -> Seq<u8> {
    seq![
        ((x >> 56) & 0xff) as u8,
        ((x >> 48) & 0xff) as u8,
        ((x >> 40) & 0xff) as u8,
        ((x >> 32) & 0xff) as u8,
        ((x >> 24) & 0xff) as u8,
        ((x >> 16) & 0xff) as u8,
        ((x >> 8) & 0xff) as u8,
        (x & 0xff) as u8,
    ]
}

pub open spec fn spec_u64_from_be_bytes(s: Seq<u8>) -> u64
    recommends
        s.len() == 8,
{
    ((s[0] as u64) << 56) | ((s[1] as u64) << 48) | ((s[2] as u64) << 40) | ((s[3] as u64) << 32)
        | ((s[4] as u64) << 24) | ((s[5] as u64) << 16) | ((s[6] as u64) << 8) | (s[7] as u64)
}

/// Writing a 16-bit value big-endian and reading it back yields the value.
pub proof fn lemma_u16_be_roundtrip(x: u16)
    ensures
        spec_u16_from_be_bytes(spec_u16_to_be_bytes(x)) == x,
{
    assert(((((x >> 8) & 0xff) as u8 as u16) << 8) | ((x & 0xff) as u8 as u16) == x)
        by (bit_vector);
}

/// Writing a 64-bit value big-endian and reading it back yields the value.
pub proof fn lemma_u64_be_roundtrip(x: u64)
    ensures
        spec_u64_from_be_bytes(spec_u64_to_be_bytes(x)) == x,
{
    assert(((((x >> 56) & 0xff) as u8 as u64) << 56) | ((((x >> 48) & 0xff) as u8 as u64) << 48)
        | ((((x >> 40) & 0xff) as u8 as u64) << 40) | ((((x >> 32) & 0xff) as u8 as u64) << 32)
        | ((((x >> 24) & 0xff) as u8 as u64) << 24) | ((((x >> 16) & 0xff) as u8 as u64) << 16)
        | ((((x >> 8) & 0xff) as u8 as u64) << 8) | ((x & 0xff) as u8 as u64) == x)
        by (bit_vector);
}

/// Reads a big-endian 64-bit integer off the front of the buffer; fails when
/// fewer than eight bytes are present, leaving the buffer unchanged.
pub fn take_u64(src: &mut bytes::BytesMut) -> (r: Result<u64, MessageCodecError>)
    ensures
        buf_bytes(*old(src)).len() < 8 ==> r == Err::<u64, MessageCodecError>(
            MessageCodecError::SerializationError,
        ) && buf_bytes(*final(src)) == buf_bytes(*old(src)),
        buf_bytes(*old(src)).len() >= 8 ==> r == Ok::<u64, MessageCodecError>(
            spec_u64_from_be_bytes(buf_bytes(*old(src)).take(8)),
        ) && buf_bytes(*final(src)) == buf_bytes(*old(src)).skip(8),
{
    if buf_len(src) < 8 {
        return Err(MessageCodecError::SerializationError);
    }
    let head = buf_split_to(src, 8);
    let b0 = buf_byte_at(&head, 0);
    let b1 = buf_byte_at(&head, 1);
    let b2 = buf_byte_at(&head, 2);
    let b3 = buf_byte_at(&head, 3);
    let b4 = buf_byte_at(&head, 4);
    let b5 = buf_byte_at(&head, 5);
    let b6 = buf_byte_at(&head, 6);
    let b7 = buf_byte_at(&head, 7);
    let v: u64 = ((b0 as u64) << 56) | ((b1 as u64) << 48) | ((b2 as u64) << 40) | ((b3 as u64)
        << 32) | ((b4 as u64) << 24) | ((b5 as u64) << 16) | ((b6 as u64) << 8) | (b7 as u64);
    Ok(v)
}

/// Reads a big-endian 32-bit integer off the front of the buffer; fails when
/// fewer than four bytes are present, leaving the buffer unchanged.
pub fn take_u32(src: &mut bytes::BytesMut) -> (r: Result<u32, MessageCodecError>)
    ensures
        buf_bytes(*old(src)).len() < 4 ==> r == Err::<u32, MessageCodecError>(
            MessageCodecError::SerializationError,
        ) && buf_bytes(*final(src)) == buf_bytes(*old(src)),
        buf_bytes(*old(src)).len() >= 4 ==> r == Ok::<u32, MessageCodecError>(
            spec_u32_from_be_bytes(buf_bytes(*old(src)).take(4)),
        ) && buf_bytes(*final(src)) == buf_bytes(*old(src)).skip(4),
{
    if buf_len(src) < 4 {
        return Err(MessageCodecError::SerializationError);
    }
    let head = buf_split_to(src, 4);
    let b0 = buf_byte_at(&head, 0);
    let b1 = buf_byte_at(&head, 1);
    let b2 = buf_byte_at(&head, 2);
    let b3 = buf_byte_at(&head, 3);
    let v: u32 = ((b0 as u32) << 24) | ((b1 as u32) << 16) | ((b2 as u32) << 8) | (b3 as u32);
    Ok(v)
}

/// Reads a big-endian 16-bit integer off the front of the buffer; fails when
/// fewer than two bytes are present, leaving the buffer unchanged.
pub fn take_u16(src: &mut bytes::BytesMut) -> (r: Result<u16, MessageCodecError>)
    ensures
        buf_bytes(*old(src)).len() < 2 ==> r == Err::<u16, MessageCodecError>(
            MessageCodecError::SerializationError,
        ) && buf_bytes(*final(src)) == buf_bytes(*old(src)),
        buf_bytes(*old(src)).len() >= 2 ==> r == Ok::<u16, MessageCodecError>(
            spec_u16_from_be_bytes(buf_bytes(*old(src)).take(2)),
        ) && buf_bytes(*final(src)) == buf_bytes(*old(src)).skip(2),
{
    if buf_len(src) < 2 {
        return Err(MessageCodecError::SerializationError);
    }
    let head = buf_split_to(src, 2);
    let b0 = buf_byte_at(&head, 0);
    let b1 = buf_byte_at(&head, 1);
    let v: u16 = ((b0 as u16) << 8) | (b1 as u16);
    Ok(v)
}

/// Splitting a concatenation at the length of its first part recovers the
/// two parts.
pub proof fn lemma_concat_take_skip(a: Seq<u8>, b: Seq<u8>)
    ensures
        (a + b).take(a.len() as int) == a,
        (a + b).skip(a.len() as int) == b,
{
    assert((a + b).take(a.len() as int) =~= a);
    assert((a + b).skip(a.len() as int) =~= b);
}

/// Concatenation of byte strings is associative.
pub proof fn lemma_concat_assoc(a: Seq<u8>, b: Seq<u8>, c: Seq<u8>)
    ensures
        (a + b) + c == a + (b + c),
{
    assert((a + b) + c =~= a + (b + c));
}

/// Byte-for-byte comparison of two strings.
pub fn bytes_eq(a: &Vec<u8>, b: &Vec<u8>) -> (r: bool)
    ensures
        r == (a@ == b@),
{
    if a.len() != b.len() {
        proof {
            assert(a@.len() != b@.len());
        }
        return false;
    }
    let mut i: usize = 0;
    while i < a.len()
        invariant
            a@.len() == b@.len(),
            i <= a@.len(),
            forall|k: int| 0 <= k < i ==> a@[k] == b@[k],
        decreases a@.len() - i,
    {
        if a[i] != b[i] {
            return false;
        }
        i = i + 1;
    }
    proof {
        assert(a@ =~= b@);
    }
    true
}

/// A byte string with its trailing NUL padding removed.
pub open spec fn trim_zeros(s: Seq<u8>) -> Seq<u8>
    decreases s.len(),
{
    if s.len() > 0 && s[s.len() - 1] == 0 {
        trim_zeros(s.drop_last())
    } else {
        s
    }
}

/// Trimming leaves a string without trailing NULs unchanged.
pub proof fn lemma_trim_zeros_id(s: Seq<u8>)
    requires
        s.len() == 0 || s[s.len() - 1] != 0,
    ensures
        trim_zeros(s) == s,
{
}

/// Trimming never lengthens a string.
pub proof fn lemma_trim_zeros_len(s: Seq<u8>)
    ensures
        trim_zeros(s).len() <= s.len(),
    decreases s.len(),
{
    if s.len() > 0 && s[s.len() - 1] == 0 {
        lemma_trim_zeros_len(s.drop_last());
    }
}

/// Takes `n` bytes off the front of the buffer and returns them with trailing
/// NUL padding removed; `n == 0` stands for an absent string.
pub fn get_nstring(src: &mut bytes::BytesMut, n: usize) -> (r: Option<Vec<u8>>)
    requires
        n <= buf_bytes(*old(src)).len(),
    ensures
        buf_bytes(*final(src)) == buf_bytes(*old(src)).skip(n as int),
        n == 0 ==> r is None,
        n > 0 ==> (r matches Some(v) && v@ == trim_zeros(buf_bytes(*old(src)).take(n as int))),
{
    let head = buf_split_to(src, n);
    if n == 0 {
        assert(buf_bytes(*src) =~= buf_bytes(*old(src)).skip(0));
        return None;
    }
    let mut v: Vec<u8> = Vec::new();
    let mut i: usize = 0;
    while i < n
        invariant
            i <= n,
            n == buf_bytes(head).len(),
            v@ == buf_bytes(head).take(i as int),
        decreases n - i,
    {
        v.push(buf_byte_at(&head, i));
        i = i + 1;
        assert(v@ =~= buf_bytes(head).take(i as int));
    }
    assert(v@ == buf_bytes(head));
    let mut end: usize = v.len();
    while end > 0 && v[end - 1] == 0u8
        invariant
            end <= v@.len(),
            trim_zeros(v@) == trim_zeros(v@.take(end as int)),
        decreases end,
    {
        assert(v@.take(end as int).drop_last() =~= v@.take(end - 1));
        end = end - 1;
    }
    assert(v@.take(end as int).len() == 0 || v@.take(end as int)[end - 1] != 0);
    proof {
        lemma_trim_zeros_id(v@.take(end as int));
    }
    v.truncate(end);
    Some(v)
}

} // verus!
