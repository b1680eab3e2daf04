use vstd::bytes::{
    lemma_auto_spec_u64_to_from_le_bytes, spec_u64_from_le_bytes, spec_u64_to_le_bytes,
    spec_u64_to_le_bytes_to_open, u64_from_le_bytes,
};
use vstd::prelude::*;
use vstd::slice::slice_subrange;

verus! {

broadcast use vstd::slice::group_slice_axioms;

/// The number held in the eight bytes that begin at `at`, least significant
/// byte first.
pub open spec fn field(bytes: Seq<u8>, at: int) -> u64 {
    spec_u64_from_le_bytes(bytes.subrange(at, at + 8))
}

/// `bytes` with the eight bytes that begin at `at` replaced by `value`.
pub open spec fn with_field(bytes: Seq<u8>, at: int, value: u64) -> Seq<u8> {
    bytes.subrange(0, at) + spec_u64_to_le_bytes(value) + bytes.subrange(
        at + 8,
        bytes.len() as int,
    )
}

/// Writing a number keeps the length, and the number is then read back.
pub proof fn lemma_with_field(bytes: Seq<u8>, at: int, value: u64)
    requires
        0 <= at,
        at + 8 <= bytes.len(),
    ensures
        with_field(bytes, at, value).len() == bytes.len(),
        field(with_field(bytes, at, value), at) == value,
{
    lemma_auto_spec_u64_to_from_le_bytes();
    assert(with_field(bytes, at, value).subrange(at, at + 8) =~= spec_u64_to_le_bytes(value));
}

/// Writing a number leaves every part of the buffer that lies beside it.
pub proof fn lemma_with_field_beside(bytes: Seq<u8>, at: int, value: u64, from: int, to: int)
    requires
        0 <= at,
        at + 8 <= bytes.len(),
        0 <= from <= to <= bytes.len(),
        to <= at || at + 8 <= from,
    ensures
        with_field(bytes, at, value).subrange(from, to) == bytes.subrange(from, to),
{
    lemma_auto_spec_u64_to_from_le_bytes();
    assert(with_field(bytes, at, value).subrange(from, to) =~= bytes.subrange(from, to));
}

/// Writing a number leaves every number that does not overlap it.
pub proof fn lemma_with_field_other(bytes: Seq<u8>, at: int, value: u64, other: int)
    requires
        0 <= at,
        at + 8 <= bytes.len(),
        0 <= other,
        other + 8 <= bytes.len(),
        other + 8 <= at || at + 8 <= other,
    ensures
        field(with_field(bytes, at, value), other) == field(bytes, other),
{
    lemma_with_field_beside(bytes, at, value, other, other + 8);
}

/// The eight bytes at `at` are the little-endian form of the number they hold.
pub proof fn lemma_field_bytes(bytes: Seq<u8>, at: int)
    requires
        0 <= at,
        at + 8 <= bytes.len(),
    ensures
        bytes.subrange(at, at + 8) == spec_u64_to_le_bytes(field(bytes, at)),
{
    lemma_auto_spec_u64_to_from_le_bytes();
    let chunk = bytes.subrange(at, at + 8);
    assert(chunk.len() == 8);
    assert(spec_u64_to_le_bytes(spec_u64_from_le_bytes(chunk)) == chunk);
}

/// Appending to a buffer leaves the numbers in it as they were.
pub proof fn lemma_field_kept(bytes: Seq<u8>, more: Seq<u8>, at: int)
    requires
        0 <= at,
        at + 8 <= bytes.len(),
    ensures
        field(bytes + more, at) == field(bytes, at),
{
    assert((bytes + more).subrange(at, at + 8) =~= bytes.subrange(at, at + 8));
}

/// A number in the front part of a buffer is the number at the same place
/// of the whole.
pub proof fn lemma_field_of_front(bytes: Seq<u8>, end: int, at: int)
    requires
        0 <= at,
        at + 8 <= end <= bytes.len(),
    ensures
        field(bytes.subrange(0, end), at) == field(bytes, at),
{
    assert(bytes.subrange(0, end).subrange(at, at + 8) =~= bytes.subrange(at, at + 8));
}

/// Reads the number at `at`.
pub fn get_field(bytes: &[u8], at: usize) -> (value: u64)
    requires
        at + 8 <= bytes@.len(),
    ensures
        value == field(bytes@, at as int),
{
    let total = bytes.len();
    u64_from_le_bytes(slice_subrange(bytes, at, at + 8))
}

/// Byte `k` of the little-endian form of `value`.
fn le_byte(value: u64, k: usize) -> (b: u8)
    requires
        k < 8,
    ensures
        b == spec_u64_to_le_bytes(value)[k as int],
{
    proof {
        spec_u64_to_le_bytes_to_open(value);
        assert(value & 0xff < 256) by (bit_vector);
        assert((value >> 8) & 0xff < 256) by (bit_vector);
        assert((value >> 16) & 0xff < 256) by (bit_vector);
        assert((value >> 24) & 0xff < 256) by (bit_vector);
        assert((value >> 32) & 0xff < 256) by (bit_vector);
        assert((value >> 40) & 0xff < 256) by (bit_vector);
        assert((value >> 48) & 0xff < 256) by (bit_vector);
        assert((value >> 56) & 0xff < 256) by (bit_vector);
    }
    if k == 0 {
        (value & 0xff) as u8
    } else if k == 1 {
        ((value >> 8) & 0xff) as u8
    } else if k == 2 {
        ((value >> 16) & 0xff) as u8
    } else if k == 3 {
        ((value >> 24) & 0xff) as u8
    } else if k == 4 {
        ((value >> 32) & 0xff) as u8
    } else if k == 5 {
        ((value >> 40) & 0xff) as u8
    } else if k == 6 {
        ((value >> 48) & 0xff) as u8
    } else {
        ((value >> 56) & 0xff) as u8
    }
}

/// Writes `value` over the eight bytes at `at`.
pub fn put_field(bytes: &mut [u8], at: usize, value: u64)
    requires
        at + 8 <= old(bytes)@.len(),
    ensures
        final(bytes)@ == with_field(old(bytes)@, at as int, value),
{
    proof {
        lemma_auto_spec_u64_to_from_le_bytes();
    }
    let total = bytes.len();
    let mut k: usize = 0;
    while k < 8
        invariant
            k <= 8,
            at + 8 <= bytes@.len(),
            bytes@.len() == total,
            bytes@.len() == old(bytes)@.len(),
            spec_u64_to_le_bytes(value).len() == 8,
            forall|j: int| 0 <= j < at ==> bytes@[j] == old(bytes)@[j],
            forall|j: int| at + 8 <= j < bytes@.len() ==> bytes@[j] == old(bytes)@[j],
            forall|j: int| at + k <= j < at + 8 ==> bytes@[j] == old(bytes)@[j],
            forall|j: int| at <= j < at + k ==> bytes@[j] == spec_u64_to_le_bytes(value)[j - at],
        decreases 8 - k,
    {
        let b: u8 = le_byte(value, k);
        bytes[at + k] = b;
        k += 1;
    }
    assert(bytes@ =~= with_field(old(bytes)@, at as int, value));
}

/// Appends the eight bytes of `value`.
pub fn push_field(out: &mut Vec<u8>, value: u64)
    ensures
        final(out)@ == old(out)@ + spec_u64_to_le_bytes(value),
{
    proof {
        lemma_auto_spec_u64_to_from_le_bytes();
    }
    let mut k: usize = 0;
    while k < 8
        invariant
            k <= 8,
            spec_u64_to_le_bytes(value).len() == 8,
            out@ == old(out)@ + spec_u64_to_le_bytes(value).take(k as int),
        decreases 8 - k,
    {
        let b: u8 = le_byte(value, k);
        out.push(b);
        k += 1;
        assert(out@ =~= old(out)@ + spec_u64_to_le_bytes(value).take(k as int));
    }
    assert(spec_u64_to_le_bytes(value).take(8) =~= spec_u64_to_le_bytes(value));
}

} // verus!
