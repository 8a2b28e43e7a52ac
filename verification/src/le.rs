//! Fixed-width integers in memory: least significant byte first unless said otherwise.
use crate::bytes;
use vstd::prelude::*;

verus! {

/// One more than the largest integer that `width` bytes hold.
pub open spec fn limit(width: nat) -> nat
    decreases width,
{
    if width == 0 {
        1
    } else {
        256 * limit((width - 1) as nat)
    }
}

/// The low `width` bytes of `value`, least significant first.
pub open spec fn le(value: nat, width: nat) -> Seq<u8>
    decreases width,
{
    if width == 0 {
        Seq::empty()
    } else {
        seq![(value % 256) as u8] + le(value / 256, (width - 1) as nat)
    }
}

/// The integer that `bytes` stand for, least significant first.
pub open spec fn from_le(bytes: Seq<u8>) -> nat
    decreases bytes.len(),
{
    if bytes.len() == 0 {
        0
    } else {
        bytes[0] as nat + 256 * from_le(bytes.skip(1))
    }
}

/// The low `width` bytes of `value`, most significant first.
pub open spec fn be(value: nat, width: nat) -> Seq<u8> {
    le(value, width).reverse()
}

pub proof fn lemma_le_len(value: nat, width: nat)
    ensures
        le(value, width).len() == width,
    decreases width,
{
    if width > 0 {
        lemma_le_len(value / 256, (width - 1) as nat);
    }
}

pub proof fn lemma_limits()
    ensures
        limit(1) == 0x100,
        limit(2) == 0x1_0000,
        limit(4) == 0x1_0000_0000,
        limit(8) == 0x1_0000_0000_0000_0000,
{
    reveal_with_fuel(limit, 9);
}

pub proof fn lemma_limit_monotone(a: nat, b: nat)
    requires
        a <= b,
    ensures
        1 <= limit(a) <= limit(b),
    decreases b,
{
    if a < b {
        lemma_limit_monotone(a, (b - 1) as nat);
    } else if a > 0 {
        lemma_limit_monotone((a - 1) as nat, (b - 1) as nat);
    }
}

/// What `width` bytes stand for is below the limit.
pub proof fn lemma_from_le_bound(bytes: Seq<u8>)
    ensures
        from_le(bytes) < limit(bytes.len()),
    decreases bytes.len(),
{
    if bytes.len() > 0 {
        lemma_from_le_bound(bytes.skip(1));
    }
}

/// An integer that fits reads back as it was stored.
pub proof fn law_reads_back(value: nat, width: nat)
    requires
        value < limit(width),
    ensures
        from_le(le(value, width)) == value,
    decreases width,
{
    if width > 0 {
        let rest = (width - 1) as nat;
        assert(value / 256 < limit(rest)) by (nonlinear_arith)
            requires
                value < 256 * limit(rest),
        ;
        law_reads_back(value / 256, rest);
        assert(le(value, width).skip(1) =~= le(value / 256, rest));
    }
}

/// Storing an integer that was read gives the same bytes.
pub proof fn law_stores_back(bytes: Seq<u8>)
    ensures
        le(from_le(bytes), bytes.len()) == bytes,
    decreases bytes.len(),
{
    if bytes.len() > 0 {
        let tail = bytes.skip(1);
        law_stores_back(tail);
        let value = from_le(bytes);
        assert(value == bytes[0] as nat + 256 * from_le(tail));
        assert(value % 256 == bytes[0] as nat);
        assert(value / 256 == from_le(tail));
        assert(le(value, bytes.len()) =~= bytes);
    } else {
        assert(le(0, 0) =~= bytes);
    }
}

/// Appends the low `width` bytes of `value`.
pub fn append_le(out: &mut Vec<u8>, value: u64, width: usize)
    ensures
        final(out)@ == old(out)@ + le(value as nat, width as nat),
{
    let mut rest: u64 = value;
    let mut i: usize = 0;
    let ghost start = out@;
    assert(start + le(value as nat, width as nat) =~= out@ + le(rest as nat, (width - i) as nat));
    while i < width
        invariant
            i <= width,
            start == old(out)@,
            start + le(value as nat, width as nat) == out@ + le(rest as nat, (width - i) as nat),
        decreases width - i,
    {
        let ghost before = out@;
        out.push((rest % 256) as u8);
        proof {
            assert(before + le(rest as nat, (width - i) as nat) =~= out@ + le(
                (rest / 256) as nat,
                (width - i - 1) as nat,
            ));
        }
        rest = rest / 256;
        i = i + 1;
    }
    assert(out@ + le(rest as nat, 0) =~= out@);
}

/// Appends two bytes.
pub fn append_u16(out: &mut Vec<u8>, value: u16)
    ensures
        final(out)@ == old(out)@ + le(value as nat, 2),
{
    append_le(out, value as u64, 2);
}

/// Appends four bytes.
pub fn append_u32(out: &mut Vec<u8>, value: u32)
    ensures
        final(out)@ == old(out)@ + le(value as nat, 4),
{
    append_le(out, value as u64, 4);
}

/// Appends eight bytes.
pub fn append_u64(out: &mut Vec<u8>, value: u64)
    ensures
        final(out)@ == old(out)@ + le(value as nat, 8),
{
    append_le(out, value, 8);
}

/// Appends the low `width` bytes of `value`, most significant first.
pub fn append_be(out: &mut Vec<u8>, value: u64, width: usize)
    ensures
        final(out)@ == old(out)@ + be(value as nat, width as nat),
{
    let mut low: Vec<u8> = Vec::new();
    append_le(&mut low, value, width);
    let ghost bytes = le(value as nat, width as nat);
    let ghost start = out@;
    assert(low@ =~= bytes);
    let mut i: usize = low.len();
    while i > 0
        invariant
            i <= low@.len(),
            low@ == bytes,
            start == old(out)@,
            out@ == start + bytes.reverse().take(bytes.len() - i),
        decreases i,
    {
        i = i - 1;
        out.push(low[i]);
        assert(bytes.reverse().take(bytes.len() - i) =~= bytes.reverse().take(
            bytes.len() - i - 1,
        ).push(bytes[i as int]));
    }
    assert(bytes.reverse().take(bytes.len() as int) =~= bytes.reverse());
}

/// Stores the low `width` bytes of `value` at `at`.
pub fn store_le(out: &mut [u8], at: usize, value: u64, width: usize)
    requires
        at + width <= old(out)@.len(),
    ensures
        final(out)@ == bytes::put(old(out)@, at as int, le(value as nat, width as nat)),
{
    let total: usize = out.len();
    let mut rest: u64 = value;
    let mut i: usize = 0;
    let ghost start = out@;
    let ghost all = le(value as nat, width as nat);
    proof {
        lemma_le_len(value as nat, width as nat);
        bytes::lemma_put_empty(start, at as int);
        assert(all.take(0) =~= Seq::<u8>::empty());
        assert(all.skip(0) =~= all);
    }
    while i < width
        invariant
            i <= width,
            start == old(out)@,
            at + width <= total,
            total == start.len(),
            all.len() == width,
            all.skip(i as int) == le(rest as nat, (width - i) as nat),
            out@ == bytes::put(start, at as int, all.take(i as int)),
        decreases width - i,
    {
        proof {
            assert(all[i as int] == all.skip(i as int)[0]);
            assert(all.skip(i + 1) =~= all.skip(i as int).skip(1));
            assert(le(rest as nat, (width - i) as nat).skip(1) =~= le(
                (rest / 256) as nat,
                (width - i - 1) as nat,
            ));
            bytes::lemma_put_put(start, at as int, all.take(i as int), seq![all[i as int]]);
            assert(all.take(i as int) + seq![all[i as int]] =~= all.take(i + 1));
        }
        let ghost before = out@;
        out[at + i] = (rest % 256) as u8;
        assert(out@ =~= bytes::put(before, at + i, seq![all[i as int]]));
        rest = rest / 256;
        i = i + 1;
    }
    assert(all.take(i as int) =~= all);
}

/// Reads `width` bytes from `at` on.
pub fn load_le(data: &[u8], at: usize, width: usize) -> (value: u64)
    requires
        width <= 8,
        at + width <= data@.len(),
    ensures
        value == from_le(data@.subrange(at as int, at + width)),
        value < limit(width as nat),
{
    let total: usize = data.len();
    let mut value: u64 = 0;
    let mut i: usize = width;
    proof {
        lemma_limits();
        assert(data@.subrange(at + width, at + width) =~= Seq::<u8>::empty());
    }
    while i > 0
        invariant
            i <= width <= 8,
            at + width <= total,
            total == data@.len(),
            value == from_le(data@.subrange(at + i, at + width)),
        decreases i,
    {
        i = i - 1;
        proof {
            let bytes = data@.subrange(at + i, at + width);
            assert(bytes.skip(1) =~= data@.subrange(at + i + 1, at + width));
            lemma_from_le_bound(bytes);
            lemma_limit_monotone(bytes.len(), 8);
            lemma_limits();
        }
        value = value * 256 + data[at + i] as u64;
    }
    proof {
        lemma_from_le_bound(data@.subrange(at as int, at + width));
    }
    value
}

} // verus!
