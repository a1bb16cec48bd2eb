//! Big-endian integers and copies between byte buffers.

use vstd::prelude::*;

verus! {

/// The four bytes of `value`, most significant first.
pub open spec fn be32(value: u32) -> Seq<u8> {
    seq![
        (value / 0x100_0000) as u8,
        (value / 0x1_0000 % 0x100) as u8,
        (value / 0x100 % 0x100) as u8,
        (value % 0x100) as u8,
    ]
}

/// The number that four bytes stand for, most significant first.
pub open spec fn from_be32(bytes: Seq<u8>) -> u32 {
    (bytes[0] * 0x100_0000 + bytes[1] * 0x1_0000 + bytes[2] * 0x100 + bytes[3]) as u32
}

/// Writing a number and reading it back gives the number.
pub proof fn be32_round_trip(value: u32)
    ensures
        be32(value).len() == 4,
        from_be32(be32(value)) == value,
{
}

/// Appends the four bytes of `value`.
pub fn push_be32(out: &mut Vec<u8>, value: u32)
    ensures
        final(out)@ == old(out)@ + be32(value),
{
    out.push((value / 0x100_0000) as u8);
    out.push((value / 0x1_0000 % 0x100) as u8);
    out.push((value / 0x100 % 0x100) as u8);
    out.push((value % 0x100) as u8);
    assert(out@ =~= old(out)@ + be32(value));
}

/// Reads the number whose four bytes start at `at`.
pub fn read_be32(bytes: &[u8], at: usize) -> (value: u32)
    requires
        at + 4 <= bytes@.len(),
    ensures
        value == from_be32(bytes@.subrange(at as int, at + 4)),
{
    bytes[at] as u32 * 0x100_0000 + bytes[at + 1] as u32 * 0x1_0000 + bytes[at + 2] as u32 * 0x100
        + bytes[at + 3] as u32
}

/// `whole` with the bytes from `at` on overwritten by `part`.
pub open spec fn splice(whole: Seq<u8>, at: int, part: Seq<u8>) -> Seq<u8> {
    Seq::new(
        whole.len(),
        |i: int|
            if at <= i < at + part.len() {
                part[i - at]
            } else {
                whole[i]
            },
    )
}

/// Copies `from[from_at..from_at + len]` over `into[into_at..into_at + len]`.
pub fn copy_bytes(into: &mut [u8], into_at: usize, from: &[u8], from_at: usize, len: usize)
    requires
        into_at + len <= old(into)@.len(),
        from_at + len <= from@.len(),
    ensures
        final(into)@ == splice(
            old(into)@,
            into_at as int,
            from@.subrange(from_at as int, from_at + len),
        ),
{
    let ghost part = from@.subrange(from_at as int, from_at + len);
    let mut i: usize = 0;
    assert(into@ =~= splice(old(into)@, into_at as int, part.take(0)));
    while i < len
        invariant
            i <= len,
            into_at + len <= into.len(),
            from_at + len <= from.len(),
            part == from@.subrange(from_at as int, from_at + len),
            into@ == splice(old(into)@, into_at as int, part.take(i as int)),
        decreases len - i,
    {
        into[into_at + i] = from[from_at + i];
        i += 1;
        assert(into@ =~= splice(old(into)@, into_at as int, part.take(i as int)));
    }
    assert(part.take(len as int) =~= part);
}

/// Appends `data`.
pub fn append(out: &mut Vec<u8>, data: &[u8])
    ensures
        final(out)@ == old(out)@ + data@,
{
    out.extend_from_slice(data);
    assert(out@ =~= old(out)@ + data@);
}

/// A buffer of `len` zeros.
pub fn zeros(len: usize) -> (out: Vec<u8>)
    ensures
        out@ == Seq::new(len as nat, |i: int| 0u8),
{
    let out = vec![0u8; len];
    assert(out@ =~= Seq::new(len as nat, |i: int| 0u8));
    out
}

/// The four bytes that are written for a number are its digits to the base 256, most
/// significant first.
pub proof fn be32_has_the_digits(value: u32)
    ensures
        be32(value).len() == 4,
        be32(value)[0] * 16777216 + be32(value)[1] * 65536 + be32(value)[2] * 256 + be32(value)[3]
            == value,
{
}

/// Four bytes are read as digits to the base 256, most significant first.
pub proof fn from_be32_counts_the_digits(bytes: Seq<u8>)
    ensures
        from_be32(bytes) == bytes[0] * 16777216 + bytes[1] * 65536 + bytes[2] * 256 + bytes[3],
{
}

/// Whichever part is overwritten, the bytes of the part stand there, and no other byte and no
/// length changes.
pub proof fn splice_changes_its_part_alone(whole: Seq<u8>, at: int, part: Seq<u8>)
    requires
        0 <= at,
        at + part.len() <= whole.len(),
    ensures
        splice(whole, at, part) == whole.take(at) + part + whole.skip(at + part.len()),
{
    assert(splice(whole, at, part) =~= whole.take(at) + part + whole.skip(at + part.len()));
}

/// The number that stands at `at`: four digits to the base 256, most significant first.
pub open spec fn number_at(bytes: Seq<u8>, at: int) -> int {
    bytes[at] * 16777216 + bytes[at + 1] * 65536 + bytes[at + 2] * 256 + bytes[at + 3]
}

} // verus!
