//! Little-endian byte encoding of unsigned values, and small helpers for
//! growing a byte buffer.

use vstd::prelude::*;
use vstd::pervasive::VecAdditionalExecFns;
use vstd::utf8::encode_utf8;

verus! {

/// `256^e`: the number of values representable in `e` bytes.
pub open spec fn pow256(e: nat) -> nat
    decreases e,
{
    if e == 0 {
        1
    } else {
        256 * pow256((e - 1) as nat)
    }
}

/// The `w` little-endian bytes of `v` (`v` taken modulo `256^w`).
pub open spec fn le_bytes(v: nat, w: nat) -> Seq<u8>
    decreases w,
{
    if w == 0 {
        Seq::empty()
    } else {
        seq![(v % 256) as u8] + le_bytes(v / 256, (w - 1) as nat)
    }
}

/// The unsigned value stored little-endian in a byte sequence.
pub open spec fn le_value(bs: Seq<u8>) -> nat
    decreases bs.len(),
{
    if bs.len() == 0 {
        0
    } else {
        (bs[0] + 256 * le_value(bs.skip(1))) as nat
    }
}

/// The UTF-8 bytes of a character sequence; field names and the fixed pieces
/// of the header text enter the byte-level model through this function.
pub open spec fn text_bytes(s: Seq<char>) -> Seq<u8> {
    encode_utf8(s)
}

pub proof fn lemma_le_bytes_len(v: nat, w: nat)
    ensures
        le_bytes(v, w).len() == w,
    decreases w,
{
    if w > 0 {
        lemma_le_bytes_len(v / 256, (w - 1) as nat);
    }
}

pub proof fn lemma_le_value_bound(bs: Seq<u8>)
    ensures
        le_value(bs) < pow256(bs.len()),
    decreases bs.len(),
{
    if bs.len() > 0 {
        lemma_le_value_bound(bs.skip(1));
    }
}

/// Writing `v` in `w` little-endian bytes and reading them back yields `v`,
/// provided `v` fits in `w` bytes.
pub proof fn lemma_le_round_trip(v: nat, w: nat)
    requires
        v < pow256(w),
    ensures
        le_value(le_bytes(v, w)) == v,
    decreases w,
{
    if w > 0 {
        lemma_le_round_trip(v / 256, (w - 1) as nat);
        let tail = le_bytes(v / 256, (w - 1) as nat);
        assert((seq![(v % 256) as u8] + tail).skip(1) =~= tail);
    }
}

pub proof fn lemma_pow256_values()
    ensures
        pow256(1) == 0x100,
        pow256(2) == 0x1_0000,
        pow256(4) == 0x1_0000_0000,
        pow256(8) == 0x1_0000_0000_0000_0000,
{
    assert(pow256(0) == 1);
    assert(pow256(1) == 0x100);
    assert(pow256(2) == 0x1_0000);
    assert(pow256(3) == 0x100_0000);
    assert(pow256(4) == 0x1_0000_0000);
    assert(pow256(5) == 0x100_0000_0000);
    assert(pow256(6) == 0x1_0000_0000_0000);
    assert(pow256(7) == 0x100_0000_0000_0000);
    assert(pow256(8) == 0x1_0000_0000_0000_0000);
}

pub proof fn lemma_pow256_increases(e1: nat, e2: nat)
    requires
        e1 <= e2,
    ensures
        pow256(e1) <= pow256(e2),
    decreases e2,
{
    if e1 < e2 && e2 > 0 {
        lemma_pow256_increases(e1, (e2 - 1) as nat);
    }
}

/// Appends the `w` little-endian bytes of `v` to `out`.
pub fn push_le_bytes(out: &mut Vec<u8>, v: u64, w: usize)
    ensures
        final(out)@ == old(out)@ + le_bytes(v as nat, w as nat),
{
    let mut cur: u64 = v;
    let mut i: usize = 0;
    while i < w
        invariant
            i <= w,
            out@ + le_bytes(cur as nat, (w - i) as nat) == old(out)@ + le_bytes(
                v as nat,
                w as nat,
            ),
        decreases w - i,
    {
        let ghost pre = out@;
        let ghost precur = cur as nat;
        out.push((cur % 256) as u8);
        cur = cur / 256;
        i = i + 1;
        proof {
            let tail = le_bytes(precur / 256, (w - i) as nat);
            assert(le_bytes(precur, (w - i + 1) as nat) == seq![(precur % 256) as u8] + tail);
            assert(out@ + tail =~= pre + le_bytes(precur, (w - i + 1) as nat));
        }
    }
    proof {
        assert(out@ + le_bytes(cur as nat, 0) =~= out@);
    }
}

/// Reads the unsigned value stored in the `w` bytes of `buf` starting at
/// `off`, little-endian.
pub fn read_le_bytes(buf: &[u8], off: usize, w: usize) -> (r: u64)
    requires
        off + w <= buf@.len(),
        w <= 8,
    ensures
        r as nat == le_value(buf@.subrange(off as int, off as int + w as int)),
{
    let n = buf.len();
    let mut r: u64 = 0;
    let mut i: usize = w;
    proof {
        assert(buf@.subrange(off + i, off + w) =~= Seq::<u8>::empty());
    }
    while i > 0
        invariant
            i <= w,
            w <= 8,
            off + w <= n == buf@.len(),
            r as nat == le_value(buf@.subrange(off + i, off + w)),
            (r as nat) < pow256((w - i) as nat),
        decreases i,
    {
        i = i - 1;
        let b = buf[off + i];
        proof {
            let rest = buf@.subrange(off + i + 1, off + w);
            let whole = buf@.subrange(off + i, off + w);
            assert(whole[0] == b);
            assert(whole.skip(1) =~= rest);
            assert(le_value(whole) == b + 256 * le_value(rest));
            lemma_pow256_increases((w - i) as nat, 8);
            lemma_pow256_values();
        }
        r = r * 256 + (b as u64);
    }
    proof {
        assert(buf@.subrange(off as int, off as int + w as int) =~= buf@.subrange(
            off as int,
            off + w,
        ));
    }
    r
}

/// Appends the UTF-8 bytes of `s` to `out`.
pub fn push_str_bytes(out: &mut Vec<u8>, s: &str)
    ensures
        final(out)@ == old(out)@ + text_bytes(s@),
{
    let bs = s.as_bytes();
    out.extend_from_slice(bs);
}

/// Appends `n` copies of the byte `b` to `out`.
pub fn push_repeat(out: &mut Vec<u8>, b: u8, n: usize)
    ensures
        final(out)@ == old(out)@ + Seq::new(n as nat, |k: int| b),
{
    let mut i: usize = 0;
    proof {
        assert(out@ + Seq::new(0nat, |k: int| b) =~= out@);
    }
    while i < n
        invariant
            i <= n,
            out@ == old(out)@ + Seq::new(i as nat, |k: int| b),
        decreases n - i,
    {
        out.push(b);
        i = i + 1;
        proof {
            assert(old(out)@ + Seq::new(i as nat, |k: int| b) =~= (old(out)@ + Seq::new(
                (i - 1) as nat,
                |k: int| b,
            )).push(b));
        }
    }
}

/// Overwrites `data.len()` bytes of `out` in place, starting at `pos`; the
/// length of `out` does not change.
pub fn write_at(out: &mut Vec<u8>, pos: usize, data: &Vec<u8>)
    requires
        pos + data@.len() <= old(out)@.len(),
    ensures
        final(out)@.len() == old(out)@.len(),
        final(out)@ == old(out)@.take(pos as int) + data@ + old(out)@.skip(pos + data@.len()),
{
    let n = out.len();
    let mut i: usize = 0;
    proof {
        assert(out@ =~= old(out)@.take(pos as int) + data@.take(0) + old(out)@.skip(pos as int));
    }
    while i < data.len()
        invariant
            i <= data@.len(),
            pos + data@.len() <= n == old(out)@.len(),
            out@.len() == old(out)@.len(),
            out@ == old(out)@.take(pos as int) + data@.take(i as int) + old(out)@.skip(pos + i),
        decreases data@.len() - i,
    {
        out.set(pos + i, data[i]);
        i = i + 1;
        proof {
            assert(out@ =~= old(out)@.take(pos as int) + data@.take(i as int) + old(out)@.skip(
                pos + i,
            ));
        }
    }
    proof {
        assert(data@.take(data@.len() as int) =~= data@);
    }
}

} // verus!
