//! Little-endian integers in a byte sequence.

use vstd::prelude::*;

verus! {

/// The unsigned 32-bit integer at `off`.
pub open spec fn le_u32(b: Seq<u8>, off: int) -> u32 {
    (b[off] + 0x100 * b[off + 1] + 0x1_0000 * b[off + 2] + 0x100_0000 * b[off + 3]) as u32
}

/// The signed 16-bit integer at `off`, in two's complement.
pub open spec fn le_i16(b: Seq<u8>, off: int) -> i16 {
    let u = b[off] + 0x100 * b[off + 1];
    if u < 0x8000 {
        u as i16
    } else {
        (u - 0x1_0000) as i16
    }
}

/// The `len` unsigned 32-bit integers at `off`.
pub open spec fn u32s_at(b: Seq<u8>, off: nat, len: nat) -> Seq<u32> {
    Seq::new(len, |i: int| le_u32(b, off + 4 * i))
}

/// The `len` signed 16-bit integers at `off`.
pub open spec fn i16s_at(b: Seq<u8>, off: nat, len: nat) -> Seq<i16> {
    Seq::new(len, |i: int| le_i16(b, off + 2 * i))
}

/// The four bytes of an unsigned 32-bit integer.
pub open spec fn u32_bytes(x: u32) -> Seq<u8> {
    seq![
        (x % 0x100) as u8,
        (x / 0x100 % 0x100) as u8,
        (x / 0x1_0000 % 0x100) as u8,
        (x / 0x100_0000) as u8,
    ]
}

/// The two bytes of a signed 16-bit integer.
pub open spec fn i16_bytes(x: i16) -> Seq<u8> {
    let u = if x >= 0 {
        x as int
    } else {
        x + 0x1_0000
    };
    seq![(u % 0x100) as u8, (u / 0x100) as u8]
}

/// The bytes of a run of unsigned 32-bit integers.
pub open spec fn u32s_bytes(xs: Seq<u32>) -> Seq<u8>
    decreases xs.len(),
{
    if xs.len() == 0 {
        Seq::empty()
    } else {
        u32s_bytes(xs.drop_last()) + u32_bytes(xs.last())
    }
}

/// The bytes of a run of signed 16-bit integers.
pub open spec fn i16s_bytes(xs: Seq<i16>) -> Seq<u8>
    decreases xs.len(),
{
    if xs.len() == 0 {
        Seq::empty()
    } else {
        i16s_bytes(xs.drop_last()) + i16_bytes(xs.last())
    }
}

/// Reads the unsigned 32-bit integer at `off`.
pub fn rd_u32(b: &[u8], off: usize) -> (x: u32)
    requires
        off + 4 <= b.len(),
    ensures
        x == le_u32(b@, off as int),
{
    b[off] as u32 + 0x100 * (b[off + 1] as u32) + 0x1_0000 * (b[off + 2] as u32) + 0x100_0000 * (
    b[off + 3] as u32)
}

/// Reads the signed 16-bit integer at `off`.
pub fn rd_i16(b: &[u8], off: usize) -> (x: i16)
    requires
        off + 2 <= b.len(),
    ensures
        x == le_i16(b@, off as int),
{
    let u: i32 = b[off] as i32 + 0x100 * (b[off + 1] as i32);
    if u < 0x8000 {
        u as i16
    } else {
        (u - 0x1_0000) as i16
    }
}

/// Appends the bytes of an unsigned 32-bit integer.
pub fn put_u32(out: &mut Vec<u8>, x: u32)
    ensures
        final(out)@ == old(out)@ + u32_bytes(x),
{
    out.push((x % 0x100) as u8);
    out.push((x / 0x100 % 0x100) as u8);
    out.push((x / 0x1_0000 % 0x100) as u8);
    out.push((x / 0x100_0000) as u8);
}

/// Appends the bytes of a signed 16-bit integer.
pub fn put_i16(out: &mut Vec<u8>, x: i16)
    ensures
        final(out)@ == old(out)@ + i16_bytes(x),
{
    let u: i32 = if x >= 0 {
        x as i32
    } else {
        x as i32 + 0x1_0000
    };
    out.push((u % 0x100) as u8);
    out.push((u / 0x100) as u8);
}

/// Appends the bytes of a run of unsigned 32-bit integers.
pub fn put_u32s(out: &mut Vec<u8>, xs: &[u32])
    ensures
        final(out)@ == old(out)@ + u32s_bytes(xs@),
{
    for i in 0..xs.len()
        invariant
            out@ =~= old(out)@ + u32s_bytes(xs@.take(i as int)),
    {
        assert(xs@.take(i + 1).drop_last() =~= xs@.take(i as int));
        put_u32(out, xs[i]);
    }
    assert(xs@.take(xs@.len() as int) =~= xs@);
}

/// Appends the bytes of a run of signed 16-bit integers.
pub fn put_i16s(out: &mut Vec<u8>, xs: &[i16])
    ensures
        final(out)@ == old(out)@ + i16s_bytes(xs@),
{
    for i in 0..xs.len()
        invariant
            out@ =~= old(out)@ + i16s_bytes(xs@.take(i as int)),
    {
        assert(xs@.take(i + 1).drop_last() =~= xs@.take(i as int));
        put_i16(out, xs[i]);
    }
    assert(xs@.take(xs@.len() as int) =~= xs@);
}

/// The bytes written for an integer are read back as that integer.
pub proof fn u32_round_trip(x: u32)
    ensures
        u32_bytes(x).len() == 4,
        le_u32(u32_bytes(x), 0) == x,
{
}

/// The bytes written for an integer are read back as that integer.
pub proof fn i16_round_trip(x: i16)
    ensures
        i16_bytes(x).len() == 2,
        le_i16(i16_bytes(x), 0) == x,
{
}

/// A run of unsigned 32-bit integers, written at the end of `pre` and followed by anything,
/// is read back as it was.
pub proof fn u32s_round_trip(pre: Seq<u8>, xs: Seq<u32>, post: Seq<u8>)
    ensures
        u32s_bytes(xs).len() == 4 * xs.len(),
        u32s_at(pre + u32s_bytes(xs) + post, pre.len(), xs.len()) == xs,
    decreases xs.len(),
{
    if xs.len() > 0 {
        let init = xs.drop_last();
        let rest = u32_bytes(xs.last()) + post;
        u32s_round_trip(pre, init, rest);
        let all = pre + u32s_bytes(xs) + post;
        assert(all =~= pre + u32s_bytes(init) + rest);
        let got = u32s_at(all, pre.len(), xs.len());
        assert forall|i: int| 0 <= i < xs.len() implies got[i] == xs[i] by {
            if i < init.len() {
                assert(u32s_at(all, pre.len(), init.len())[i] == init[i]);
            } else {
                u32_round_trip(xs.last());
                let at = pre.len() + 4 * i;
                assert(all[at] == u32_bytes(xs.last())[0]);
                assert(all[at + 1] == u32_bytes(xs.last())[1]);
                assert(all[at + 2] == u32_bytes(xs.last())[2]);
                assert(all[at + 3] == u32_bytes(xs.last())[3]);
            }
        }
    }
}

/// A run of signed 16-bit integers, written at the end of `pre` and followed by anything,
/// is read back as it was.
pub proof fn i16s_round_trip(pre: Seq<u8>, xs: Seq<i16>, post: Seq<u8>)
    ensures
        i16s_bytes(xs).len() == 2 * xs.len(),
        i16s_at(pre + i16s_bytes(xs) + post, pre.len(), xs.len()) == xs,
    decreases xs.len(),
{
    if xs.len() > 0 {
        let init = xs.drop_last();
        let rest = i16_bytes(xs.last()) + post;
        i16s_round_trip(pre, init, rest);
        let all = pre + i16s_bytes(xs) + post;
        assert(all =~= pre + i16s_bytes(init) + rest);
        let got = i16s_at(all, pre.len(), xs.len());
        assert forall|i: int| 0 <= i < xs.len() implies got[i] == xs[i] by {
            if i < init.len() {
                assert(i16s_at(all, pre.len(), init.len())[i] == init[i]);
            } else {
                i16_round_trip(xs.last());
                let at = pre.len() + 2 * i;
                assert(all[at] == i16_bytes(xs.last())[0]);
                assert(all[at + 1] == i16_bytes(xs.last())[1]);
            }
        }
    }
}

/// Reads `len` unsigned 32-bit integers.
pub fn rd_u32s(b: &[u8], off: usize, len: usize) -> (xs: Vec<u32>)
    requires
        off + 4 * len <= b.len(),
    ensures
        xs@ == u32s_at(b@, off as nat, len as nat),
{
    let mut xs: Vec<u32> = Vec::with_capacity(len);
    for i in 0..len
        invariant
            off + 4 * len <= b.len(),
            xs@ =~= u32s_at(b@, off as nat, i as nat),
    {
        xs.push(rd_u32(b, off + 4 * i));
    }
    xs
}

/// Reads `len` signed 16-bit integers.
pub fn rd_i16s(b: &[u8], off: usize, len: usize) -> (xs: Vec<i16>)
    requires
        off + 2 * len <= b.len(),
    ensures
        xs@ == i16s_at(b@, off as nat, len as nat),
{
    let mut xs: Vec<i16> = Vec::with_capacity(len);
    for i in 0..len
        invariant
            off + 2 * len <= b.len(),
            xs@ =~= i16s_at(b@, off as nat, i as nat),
    {
        xs.push(rd_i16(b, off + 2 * i));
    }
    xs
}

/// What four bytes are worth, the first one least; and four bytes that are worth an integer.
pub proof fn words_start_with_the_least_byte(b: Seq<u8>, off: int, x: u32)
    ensures
        le_u32(b, off) == b[off] + 256 * b[off + 1] + 65536 * b[off + 2] + 16777216 * b[off + 3],
        u32_bytes(x).len() == 4,
        x == u32_bytes(x)[0] + 256 * u32_bytes(x)[1] + 65536 * u32_bytes(x)[2] + 16777216
            * u32_bytes(x)[3],
{
}

/// What two bytes are worth, the first one least, in two's complement; and two bytes that are
/// worth an integer.
pub proof fn halves_start_with_the_least_byte(b: Seq<u8>, off: int, x: i16)
    ensures
        b[off + 1] < 128 ==> le_i16(b, off) == b[off] + 256 * b[off + 1],
        b[off + 1] >= 128 ==> le_i16(b, off) == b[off] + 256 * b[off + 1] - 65536,
        i16_bytes(x).len() == 2,
        (i16_bytes(x)[0] + 256 * i16_bytes(x)[1] - x) % 65536 == 0,
{
}

/// Integers of a run stand one behind the other.
pub proof fn runs_stand_in_order(
    b: Seq<u8>,
    off: nat,
    len: nat,
    i: int,
    xs: Seq<u32>,
    ys: Seq<i16>,
    x: u32,
    y: i16,
)
    requires
        0 <= i < len,
    ensures
        u32s_at(b, off, len).len() == len,
        u32s_at(b, off, len)[i] == le_u32(b, off + 4 * i),
        i16s_at(b, off, len).len() == len,
        i16s_at(b, off, len)[i] == le_i16(b, off + 2 * i),
        u32s_bytes(Seq::empty()) == Seq::<u8>::empty(),
        u32s_bytes(xs.push(x)) == u32s_bytes(xs) + u32_bytes(x),
        i16s_bytes(Seq::empty()) == Seq::<u8>::empty(),
        i16s_bytes(ys.push(y)) == i16s_bytes(ys) + i16_bytes(y),
{
    assert(xs.push(x).drop_last() =~= xs);
    assert(ys.push(y).drop_last() =~= ys);
}

} // verus!
