//! The checksum at the end of every chunk.

use vstd::prelude::*;

verus! {

/// The generator polynomial, lowest power of x in the highest bit.
pub const CRC_POLYNOMIAL: u32 = 0xEDB8_8320;

/// The shift register after one message bit: it moves right by one, and the generator
/// is subtracted if the bit that fell out differs from the message bit.
pub open spec fn crc_after_bit(register: u32, bit: bool) -> u32 {
    if (register & 1 == 1) != bit {
        (register >> 1) ^ CRC_POLYNOMIAL
    } else {
        register >> 1
    }
}

/// Bit `k` of `byte`, counted from the least significant.
pub open spec fn bit_of(byte: u8, k: u32) -> bool {
    (byte >> k) & 1 == 1
}

/// The shift register after the eight bits of `byte`, least significant first.
pub open spec fn crc_after_byte(register: u32, byte: u8) -> u32 {
    let r1 = crc_after_bit(register, bit_of(byte, 0));
    let r2 = crc_after_bit(r1, bit_of(byte, 1));
    let r3 = crc_after_bit(r2, bit_of(byte, 2));
    let r4 = crc_after_bit(r3, bit_of(byte, 3));
    let r5 = crc_after_bit(r4, bit_of(byte, 4));
    let r6 = crc_after_bit(r5, bit_of(byte, 5));
    let r7 = crc_after_bit(r6, bit_of(byte, 6));
    crc_after_bit(r7, bit_of(byte, 7))
}

/// The shift register after all of `data`.
pub open spec fn crc_register(register: u32, data: Seq<u8>) -> u32
    decreases data.len(),
{
    if data.len() == 0 {
        register
    } else {
        crc_after_byte(crc_register(register, data.drop_last()), data.last())
    }
}

/// The CRC-32 of `data`: the register starts with all bits set and is inverted at the
/// end.
pub open spec fn crc_of(data: Seq<u8>) -> u32 {
    crc_register(0xFFFF_FFFF, data) ^ 0xFFFF_FFFF
}

/// One turn of the byte-wise loop.
spec fn crc_turn(c: u32) -> u32 {
    if c & 1 != 0 {
        (c >> 1) ^ 0xEDB8_8320
    } else {
        c >> 1
    }
}

/// Adding the whole byte first and then turning eight times is the same as feeding
/// the bits one by one.
proof fn lemma_byte_at_once(register: u32, byte: u8)
    by (bit_vector)
    ensures
        crc_turn(
            crc_turn(
                crc_turn(
                    crc_turn(crc_turn(crc_turn(crc_turn(crc_turn(register ^ (byte as u32)))))),
                ),
            ),
        ) == crc_after_byte(register, byte),
{
}

/// Feeds one byte.
fn crc_update(register: u32, byte: u8) -> (next: u32)
    ensures
        next == crc_after_byte(register, byte),
{
    let mut c: u32 = register ^ (byte as u32);
    let ghost c0 = c;
    let ghost turned: Seq<u32> = seq![
        c0,
        crc_turn(c0),
        crc_turn(crc_turn(c0)),
        crc_turn(crc_turn(crc_turn(c0))),
        crc_turn(crc_turn(crc_turn(crc_turn(c0)))),
        crc_turn(crc_turn(crc_turn(crc_turn(crc_turn(c0))))),
        crc_turn(crc_turn(crc_turn(crc_turn(crc_turn(crc_turn(c0)))))),
        crc_turn(crc_turn(crc_turn(crc_turn(crc_turn(crc_turn(crc_turn(c0))))))),
        crc_turn(crc_turn(crc_turn(crc_turn(crc_turn(crc_turn(crc_turn(crc_turn(c0)))))))),
    ];
    let mut k: u32 = 0;
    while k < 8
        invariant
            k <= 8,
            turned.len() == 9,
            forall|i: int| 0 <= i < 8 ==> turned[i + 1] == crc_turn(#[trigger] turned[i]),
            c == turned[k as int],
        decreases 8 - k,
    {
        if (c & 1) != 0 {
            c = (c >> 1) ^ 0xEDB8_8320;
        } else {
            c = c >> 1;
        }
        k += 1;
    }
    proof {
        lemma_byte_at_once(register, byte);
    }
    c
}

/// The register after `head` and then `tail`.
pub proof fn lemma_crc_register_concat(register: u32, head: Seq<u8>, tail: Seq<u8>)
    ensures
        crc_register(register, head + tail) == crc_register(crc_register(register, head), tail),
    decreases tail.len(),
{
    if tail.len() == 0 {
        assert(head + tail =~= head);
    } else {
        lemma_crc_register_concat(register, head, tail.drop_last());
        assert((head + tail).drop_last() =~= head + tail.drop_last());
    }
}

/// Different bytes lead to different registers.
proof fn lemma_byte_shows(register: u32, a: u8, b: u8)
    by (bit_vector)
    ensures
        crc_after_byte(register, a) == crc_after_byte(register, b) ==> a == b,
{
}

/// Different registers stay different.
proof fn lemma_register_shows(r: u32, s: u32, byte: u8)
    by (bit_vector)
    ensures
        crc_after_byte(r, byte) == crc_after_byte(s, byte) ==> r == s,
{
}

proof fn lemma_registers_differ(r: u32, s: u32, data: Seq<u8>)
    requires
        r != s,
    ensures
        crc_register(r, data) != crc_register(s, data),
    decreases data.len(),
{
    if data.len() > 0 {
        lemma_registers_differ(r, s, data.drop_last());
        lemma_register_shows(
            crc_register(r, data.drop_last()),
            crc_register(s, data.drop_last()),
            data.last(),
        );
    }
}

/// The checksum shows every change of a single byte.
pub proof fn checksum_shows_changed_byte(data: Seq<u8>, at: int, byte: u8)
    requires
        0 <= at < data.len(),
        byte != data[at],
    ensures
        crc_of(data.update(at, byte)) != crc_of(data),
{
    let head = data.take(at);
    let tail = data.skip(at + 1);
    let start = 0xFFFF_FFFFu32;
    let changed = data.update(at, byte);
    assert(data =~= head.push(data[at]) + tail);
    assert(changed =~= head.push(byte) + tail);
    lemma_crc_register_concat(start, head.push(data[at]), tail);
    lemma_crc_register_concat(start, head.push(byte), tail);
    assert(head.push(data[at]).drop_last() =~= head);
    assert(head.push(byte).drop_last() =~= head);
    lemma_byte_shows(crc_register(start, head), data[at], byte);
    let r = crc_register(start, head.push(data[at]));
    let s = crc_register(start, head.push(byte));
    lemma_registers_differ(r, s, tail);
    let x = crc_register(r, tail);
    let y = crc_register(s, tail);
    assert(x != y ==> x ^ 0xFFFF_FFFF != y ^ 0xFFFF_FFFF) by (bit_vector);
}

/// Feeds all of `data`.
fn crc_feed(register: u32, data: &[u8]) -> (next: u32)
    ensures
        next == crc_register(register, data@),
{
    let mut c: u32 = register;
    let mut i: usize = 0;
    assert(data@.take(0) =~= Seq::<u8>::empty());
    while i < data.len()
        invariant
            i <= data@.len(),
            c == crc_register(register, data@.take(i as int)),
        decreases data@.len() - i,
    {
        c = crc_update(c, data[i]);
        i += 1;
        assert(data@.take(i as int).drop_last() =~= data@.take(i - 1));
    }
    assert(data@.take(i as int) =~= data@);
    c
}

/// The checksum of a chunk: the CRC-32 of its type followed by its data.
pub fn crc32(type_bytes: &[u8; 4], data: &[u8]) -> (crc: u32)
    ensures
        crc == crc_of(type_bytes@ + data@),
{
    let crc: u32 = 0xFFFF_FFFF;
    let crc: u32 = crc_feed(crc, type_bytes);
    let crc: u32 = crc_feed(crc, data);
    proof {
        lemma_crc_register_concat(0xFFFF_FFFF, type_bytes@, data@);
    }
    crc ^ 0xFFFF_FFFF
}

/// The bytes of two messages of the same length, added bit by bit.
pub open spec fn mixed(a: Seq<u8>, b: Seq<u8>) -> Seq<u8> {
    Seq::new(a.len(), |i: int| a[i] ^ b[i])
}

proof fn lemma_bit_is_linear(r: u32, s: u32, x: bool, y: bool)
    by (bit_vector)
    ensures
        crc_after_bit(r ^ s, x != y) == crc_after_bit(r, x) ^ crc_after_bit(s, y),
{
}

proof fn lemma_bit_of_sum(a: u8, b: u8, k: u32)
    by (bit_vector)
    requires
        k < 8,
    ensures
        bit_of(a ^ b, k) == (bit_of(a, k) != bit_of(b, k)),
{
}

proof fn lemma_byte_is_linear(r: u32, s: u32, a: u8, b: u8)
    ensures
        crc_after_byte(r ^ s, a ^ b) == crc_after_byte(r, a) ^ crc_after_byte(s, b),
{
    let r1 = crc_after_bit(r, bit_of(a, 0));
    let s1 = crc_after_bit(s, bit_of(b, 0));
    lemma_bit_of_sum(a, b, 0);
    lemma_bit_is_linear(r, s, bit_of(a, 0), bit_of(b, 0));
    let r2 = crc_after_bit(r1, bit_of(a, 1));
    let s2 = crc_after_bit(s1, bit_of(b, 1));
    lemma_bit_of_sum(a, b, 1);
    lemma_bit_is_linear(r1, s1, bit_of(a, 1), bit_of(b, 1));
    let r3 = crc_after_bit(r2, bit_of(a, 2));
    let s3 = crc_after_bit(s2, bit_of(b, 2));
    lemma_bit_of_sum(a, b, 2);
    lemma_bit_is_linear(r2, s2, bit_of(a, 2), bit_of(b, 2));
    let r4 = crc_after_bit(r3, bit_of(a, 3));
    let s4 = crc_after_bit(s3, bit_of(b, 3));
    lemma_bit_of_sum(a, b, 3);
    lemma_bit_is_linear(r3, s3, bit_of(a, 3), bit_of(b, 3));
    let r5 = crc_after_bit(r4, bit_of(a, 4));
    let s5 = crc_after_bit(s4, bit_of(b, 4));
    lemma_bit_of_sum(a, b, 4);
    lemma_bit_is_linear(r4, s4, bit_of(a, 4), bit_of(b, 4));
    let r6 = crc_after_bit(r5, bit_of(a, 5));
    let s6 = crc_after_bit(s5, bit_of(b, 5));
    lemma_bit_of_sum(a, b, 5);
    lemma_bit_is_linear(r5, s5, bit_of(a, 5), bit_of(b, 5));
    let r7 = crc_after_bit(r6, bit_of(a, 6));
    let s7 = crc_after_bit(s6, bit_of(b, 6));
    lemma_bit_of_sum(a, b, 6);
    lemma_bit_is_linear(r6, s6, bit_of(a, 6), bit_of(b, 6));
    lemma_bit_of_sum(a, b, 7);
    lemma_bit_is_linear(r7, s7, bit_of(a, 7), bit_of(b, 7));
}

proof fn lemma_register_is_linear(r: u32, s: u32, a: Seq<u8>, b: Seq<u8>)
    requires
        a.len() == b.len(),
    ensures
        crc_register(r ^ s, mixed(a, b)) == crc_register(r, a) ^ crc_register(s, b),
    decreases a.len(),
{
    if a.len() > 0 {
        lemma_register_is_linear(r, s, a.drop_last(), b.drop_last());
        assert(mixed(a, b).drop_last() =~= mixed(a.drop_last(), b.drop_last()));
        lemma_byte_is_linear(
            crc_register(r, a.drop_last()),
            crc_register(s, b.drop_last()),
            a.last(),
            b.last(),
        );
    }
}

/// The checksum is that of a linear code: of three messages of the same length, the sum has the
/// sum of the checksums, bit by bit.
pub proof fn checksum_is_linear(a: Seq<u8>, b: Seq<u8>, c: Seq<u8>)
    requires
        a.len() == b.len() == c.len(),
    ensures
        crc_of(mixed(mixed(a, b), c)) == crc_of(a) ^ crc_of(b) ^ crc_of(c),
{
    let f = 0xFFFF_FFFFu32;
    lemma_register_is_linear(f, f, a, b);
    lemma_register_is_linear(f ^ f, f, mixed(a, b), c);
    let x = crc_register(f, a);
    let y = crc_register(f, b);
    let z = crc_register(f, c);
    assert((f ^ f) ^ f == f) by (bit_vector)
        requires
            f == 0xFFFF_FFFFu32,
    ;
    assert((x ^ y ^ z) ^ 0xFFFF_FFFF == (x ^ 0xFFFF_FFFF) ^ (y ^ 0xFFFF_FFFF) ^ (z ^ 0xFFFF_FFFF))
        by (bit_vector);
}

/// A byte meets the low byte of the register, and the rest of the register moves down.
proof fn lemma_byte_meets_low_byte(r: u32, byte: u8)
    by (bit_vector)
    ensures
        crc_after_byte(r, byte) == (r >> 8) ^ crc_after_byte(0, ((r & 0xff) as u8) ^ byte),
{
}

/// The four bytes of a number, least significant first.
pub open spec fn low_first(value: u32) -> Seq<u8> {
    seq![
        (value % 256) as u8,
        (value / 256 % 256) as u8,
        (value / 65536 % 256) as u8,
        (value / 16777216) as u8,
    ]
}

proof fn lemma_bytes_of(r: u32)
    ensures
        ({
            let c = r ^ 0xFFFF_FFFF;
            &&& (c % 256) as u8 == (c & 0xff) as u8
            &&& (c / 256 % 256) as u8 == ((c >> 8) & 0xff) as u8
            &&& (c / 65536 % 256) as u8 == ((c >> 16) & 0xff) as u8
            &&& (c / 16777216) as u8 == ((c >> 24) & 0xff) as u8
        }),
{
    let c = r ^ 0xFFFF_FFFF;
    assert((c % 256) as u8 == (c & 0xff) as u8) by (bit_vector);
    assert((c / 256 % 256) as u8 == ((c >> 8) & 0xff) as u8) by (bit_vector);
    assert((c / 65536 % 256) as u8 == ((c >> 16) & 0xff) as u8) by (bit_vector);
    assert((c / 16777216) as u8 == ((c >> 24) & 0xff) as u8) by (bit_vector);
}

/// Four bytes that are the inverse of the register bring it to a fixed value.
proof fn lemma_residue(r: u32)
    ensures
        ({
            let c = r ^ 0xFFFF_FFFF;
            let r1 = crc_after_byte(r, (c & 0xff) as u8);
            let r2 = crc_after_byte(r1, ((c >> 8) & 0xff) as u8);
            let r3 = crc_after_byte(r2, ((c >> 16) & 0xff) as u8);
            crc_after_byte(r3, ((c >> 24) & 0xff) as u8) == 0xDEBB_20E3
        }),
{
    let c = r ^ 0xFFFF_FFFF;
    let b0 = (c & 0xff) as u8;
    let b1 = ((c >> 8) & 0xff) as u8;
    let b2 = ((c >> 16) & 0xff) as u8;
    let b3 = ((c >> 24) & 0xff) as u8;
    let r1 = crc_after_byte(r, b0);
    let r2 = crc_after_byte(r1, b1);
    let r3 = crc_after_byte(r2, b2);
    let k1 = crc_after_byte(0, 0xff);
    lemma_byte_meets_low_byte(r, b0);
    assert(((r & 0xff) as u8) ^ b0 == 0xff) by (bit_vector)
        requires
            b0 == ((r ^ 0xFFFF_FFFF) & 0xff) as u8,
    ;
    lemma_byte_meets_low_byte(r1, b1);
    assert(((r1 & 0xff) as u8) ^ b1 == ((k1 & 0xff) as u8) ^ 0xff) by (bit_vector)
        requires
            r1 == (r >> 8) ^ k1,
            b1 == (((r ^ 0xFFFF_FFFF) >> 8) & 0xff) as u8,
    ;
    let k2 = crc_after_byte(0, ((k1 & 0xff) as u8) ^ 0xff);
    lemma_byte_meets_low_byte(r2, b2);
    assert(((r2 & 0xff) as u8) ^ b2 == ((((k1 >> 8) ^ k2) & 0xff) as u8) ^ 0xff) by (bit_vector)
        requires
            r1 == (r >> 8) ^ k1,
            r2 == (r1 >> 8) ^ k2,
            b2 == (((r ^ 0xFFFF_FFFF) >> 16) & 0xff) as u8,
    ;
    let k3 = crc_after_byte(0, ((((k1 >> 8) ^ k2) & 0xff) as u8) ^ 0xff);
    lemma_byte_meets_low_byte(r3, b3);
    assert(((r3 & 0xff) as u8) ^ b3 == ((((k1 >> 16) ^ (k2 >> 8) ^ k3) & 0xff) as u8) ^ 0xff)
        by (bit_vector)
        requires
            r1 == (r >> 8) ^ k1,
            r2 == (r1 >> 8) ^ k2,
            r3 == (r2 >> 8) ^ k3,
            b3 == (((r ^ 0xFFFF_FFFF) >> 24) & 0xff) as u8,
    ;
    let k4 = crc_after_byte(0, ((((k1 >> 16) ^ (k2 >> 8) ^ k3) & 0xff) as u8) ^ 0xff);
    assert((r3 >> 8) ^ k4 == (k1 >> 24) ^ (k2 >> 16) ^ (k3 >> 8) ^ k4) by (bit_vector)
        requires
            r1 == (r >> 8) ^ k1,
            r2 == (r1 >> 8) ^ k2,
            r3 == (r2 >> 8) ^ k3,
    ;
    lemma_constants(k1, k2, k3, k4);
}

proof fn lemma_constants(k1: u32, k2: u32, k3: u32, k4: u32)
    by (bit_vector)
    requires
        k1 == crc_after_byte(0, 0xff),
        k2 == crc_after_byte(0, ((k1 & 0xff) as u8) ^ 0xff),
        k3 == crc_after_byte(0, ((((k1 >> 8) ^ k2) & 0xff) as u8) ^ 0xff),
        k4 == crc_after_byte(0, ((((k1 >> 16) ^ (k2 >> 8) ^ k3) & 0xff) as u8) ^ 0xff),
    ensures
        (k1 >> 24) ^ (k2 >> 16) ^ (k3 >> 8) ^ k4 == 0xDEBB_20E3,
{
}

/// The checksum is the remainder of the CRC-32 polynomial: a message that is followed by its
/// checksum, least significant byte first, has the checksum that all such messages have.
pub proof fn checksum_leaves_the_known_remainder(data: Seq<u8>)
    ensures
        crc_of(data + low_first(crc_of(data))) == 0x2144_DF1C,
        crc_of(Seq::<u8>::empty()) == 0,
{
    let start = 0xFFFF_FFFFu32;
    let r = crc_register(start, data);
    let tail = low_first(crc_of(data));
    lemma_crc_register_concat(start, data, tail);
    lemma_bytes_of(r);
    lemma_residue(r);
    let none = Seq::<u8>::empty();
    assert(tail.drop_last().drop_last().drop_last().drop_last() =~= none);
    assert(crc_register(r, none) == r);
    let one = tail.drop_last().drop_last().drop_last();
    assert(one.drop_last() =~= none);
    assert(crc_register(r, one) == crc_after_byte(r, tail[0]));
    let two = tail.drop_last().drop_last();
    assert(two.drop_last() =~= one);
    assert(crc_register(r, two) == crc_after_byte(crc_register(r, one), tail[1]));
    let three = tail.drop_last();
    assert(crc_register(r, three) == crc_after_byte(crc_register(r, two), tail[2]));
    assert(crc_register(r, tail) == crc_after_byte(crc_register(r, three), tail[3]));
    assert(0xDEBB_20E3u32 ^ 0xFFFF_FFFF == 0x2144_DF1C) by (bit_vector);
    assert(0xFFFF_FFFFu32 ^ 0xFFFF_FFFF == 0) by (bit_vector);
    assert(crc_register(start, none) == start);
}

} // verus!
