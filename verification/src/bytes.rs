//! Copying, comparing and storing runs of bytes.
use vstd::prelude::*;

verus! {

/// The bytes of `data` from `from` up to `to`.
pub fn copy_range(data: &[u8], from: usize, to: usize) -> (copy: Vec<u8>)
    requires
        from <= to <= data@.len(),
    ensures
        copy@ == data@.subrange(from as int, to as int),
{
    let mut copy: Vec<u8> = Vec::new();
    let mut i: usize = from;
    while i < to
        invariant
            from <= i <= to <= data@.len(),
            copy@ == data@.subrange(from as int, i as int),
        decreases to - i,
    {
        copy.push(data[i]);
        i = i + 1;
        assert(data@.subrange(from as int, i as int) =~= data@.subrange(
            from as int,
            i - 1,
        ).push(data@[i - 1]));
    }
    copy
}

/// `out` with `bytes` stored from `cursor` on. What does not fit is cut off.
pub open spec fn put(out: Seq<u8>, cursor: int, bytes: Seq<u8>) -> Seq<u8> {
    Seq::new(
        out.len(),
        |i: int|
            if cursor <= i < cursor + bytes.len() {
                bytes[i - cursor]
            } else {
                out[i]
            },
    )
}

/// Storing nothing changes nothing.
pub proof fn lemma_put_empty(out: Seq<u8>, cursor: int)
    ensures
        put(out, cursor, Seq::empty()) == out,
{
    assert(put(out, cursor, Seq::empty()) =~= out);
}

/// Storing one run and then the next is storing both.
pub proof fn lemma_put_put(out: Seq<u8>, cursor: int, a: Seq<u8>, b: Seq<u8>)
    ensures
        put(put(out, cursor, a), cursor + a.len(), b) == put(out, cursor, a + b),
{
    assert(put(put(out, cursor, a), cursor + a.len(), b) =~= put(out, cursor, a + b));
}

/// Once `out` is full, nothing further is stored.
pub proof fn lemma_put_full(out: Seq<u8>, cursor: int, a: Seq<u8>, b: Seq<u8>)
    requires
        cursor + a.len() >= out.len(),
    ensures
        put(out, cursor, a) == put(out, cursor, a + b),
{
    assert(put(out, cursor, a) =~= put(out, cursor, a + b));
}

/// Stores `bytes` at `at`.
pub fn store_bytes(out: &mut [u8], at: usize, bytes: &[u8])
    requires
        at + bytes@.len() <= old(out)@.len(),
    ensures
        final(out)@ == put(old(out)@, at as int, bytes@),
{
    let total: usize = out.len();
    let ghost start = out@;
    let mut i: usize = 0;
    proof {
        lemma_put_empty(start, at as int);
        assert(bytes@.take(0) =~= Seq::<u8>::empty());
    }
    while i < bytes.len()
        invariant
            i <= bytes@.len(),
            at + bytes@.len() <= total,
            total == start.len(),
            start == old(out)@,
            out@ == put(start, at as int, bytes@.take(i as int)),
        decreases bytes@.len() - i,
    {
        let ghost before = out@;
        out[at + i] = bytes[i];
        proof {
            assert(out@ =~= put(before, at + i, seq![bytes@[i as int]]));
            lemma_put_put(start, at as int, bytes@.take(i as int), seq![bytes@[i as int]]);
            assert(bytes@.take(i as int) + seq![bytes@[i as int]] =~= bytes@.take(i + 1));
        }
        i = i + 1;
    }
    assert(bytes@.take(i as int) =~= bytes@);
}

/// Appends `bytes`.
pub fn append_bytes(out: &mut Vec<u8>, bytes: &[u8])
    ensures
        final(out)@ == old(out)@ + bytes@,
{
    let mut i: usize = 0;
    let ghost start = out@;
    assert(start + bytes@.take(0) =~= start);
    while i < bytes.len()
        invariant
            i <= bytes@.len(),
            start == old(out)@,
            out@ == start + bytes@.take(i as int),
        decreases bytes@.len() - i,
    {
        out.push(bytes[i]);
        assert(start + bytes@.take(i + 1) =~= (start + bytes@.take(i as int)).push(
            bytes@[i as int],
        ));
        i = i + 1;
    }
    assert(bytes@.take(i as int) =~= bytes@);
}

/// `count` zero bytes.
pub open spec fn zeros(count: nat) -> Seq<u8> {
    Seq::new(count, |i: int| 0u8)
}

/// Appends `count` zero bytes.
pub fn append_zeros(out: &mut Vec<u8>, count: usize)
    ensures
        final(out)@ == old(out)@ + zeros(count as nat),
{
    let mut i: usize = 0;
    let ghost start = out@;
    assert(start + zeros(0) =~= start);
    while i < count
        invariant
            i <= count,
            start == old(out)@,
            out@ == start + zeros(i as nat),
        decreases count - i,
    {
        out.push(0);
        assert(start + zeros((i + 1) as nat) =~= (start + zeros(i as nat)).push(0u8));
        i = i + 1;
    }
}

/// Returns whether two runs of bytes are the same.
pub fn same_bytes(a: &[u8], b: &[u8]) -> (same: bool)
    ensures
        same == (a@ == b@),
{
    if a.len() != b.len() {
        return false;
    }
    let mut i: usize = 0;
    while i < a.len()
        invariant
            i <= a@.len(),
            a@.len() == b@.len(),
            forall|j: int| 0 <= j < i ==> a@[j] == b@[j],
        decreases a@.len() - i,
    {
        if a[i] != b[i] {
            return false;
        }
        i = i + 1;
    }
    assert(a@ =~= b@);
    true
}

/// Where the first zero at or after `at` is.
pub open spec fn terminator(data: Seq<u8>, at: int) -> Option<int>
    decreases data.len() - at,
{
    if at >= data.len() {
        None
    } else if data[at] == 0 {
        Some(at)
    } else {
        terminator(data, at + 1)
    }
}

/// Finds the first zero at or after `from`.
pub fn find_terminator(data: &[u8], from: usize) -> (found: Option<usize>)
    requires
        from <= data@.len(),
    ensures
        match found {
            Some(end) => terminator(data@, from as int) == Some(end as int) && from <= end
                < data@.len(),
            None => terminator(data@, from as int) is None,
        },
{
    let total: usize = data.len();
    let mut end: usize = from;
    while end < total
        invariant
            from <= end <= total == data@.len(),
            terminator(data@, from as int) == terminator(data@, end as int),
        decreases total - end,
    {
        if data[end] == 0 {
            return Some(end);
        }
        end = end + 1;
    }
    None
}

} // verus!
