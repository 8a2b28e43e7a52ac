//! Variable-length unsigned integers: seven bits to a byte, least significant group first, with
//! the top bit set on every byte but the last.
use vstd::prelude::*;

verus! {

/// The bytes that stand for `value`.
pub open spec fn encoding(value: nat) -> Seq<u8>
    decreases value,
{
    if value < 0x80 {
        seq![value as u8]
    } else {
        seq![(value % 0x80 + 0x80) as u8] + encoding(value / 0x80)
    }
}

/// The integer that starts at `offset`, and where the bytes after it begin. `None` if `data` ends
/// first.
pub open spec fn decoding(data: Seq<u8>, offset: int) -> Option<(nat, int)>
    decreases data.len() - offset,
{
    if offset < 0 || offset >= data.len() {
        None
    } else if data[offset] < 0x80 {
        Some((data[offset] as nat, offset + 1))
    } else {
        match decoding(data, offset + 1) {
            Some((high, next)) => Some(((data[offset] - 0x80 + 0x80 * high) as nat, next)),
            None => None,
        }
    }
}

/// How many bytes `value` takes.
pub fn uleb128_len(value: u64) -> (len: usize)
    ensures
        len == encoding(value as nat).len(),
        1 <= len <= 10,
{
    let mut rest: u64 = value;
    let mut len: usize = 1;
    proof {
        lemma_len(value as nat);
        lemma_len_bound(value);
    }
    while rest >= 0x80
        invariant
            1 <= len <= encoding(value as nat).len() <= 10,
            len - 1 + encoding(rest as nat).len() == encoding(value as nat).len(),
        decreases rest,
    {
        assert(rest >> 7 == rest / 0x80) by (bit_vector);
        proof {
            lemma_len((rest / 0x80) as nat);
        }
        rest = rest >> 7;
        len = len + 1;
    }
    len
}

/// Every integer takes at least one byte.
pub proof fn lemma_len(value: nat)
    ensures
        encoding(value).len() >= 1,
    decreases value,
{
    if value >= 0x80 {
        lemma_len(value / 0x80);
    }
}

/// A smaller integer never takes more bytes.
pub proof fn lemma_len_monotone(a: nat, b: nat)
    requires
        a <= b,
    ensures
        encoding(a).len() <= encoding(b).len(),
    decreases b,
{
    lemma_len(b);
    if a >= 0x80 {
        lemma_len_monotone(a / 0x80, b / 0x80);
    }
}

pub proof fn lemma_len_bound(value: u64)
    ensures
        1 <= encoding(value as nat).len() <= 10,
{
    lemma_len(value as nat);
    lemma_len_monotone(value as nat, u64::MAX as nat);
    reveal_with_fuel(encoding, 11);
}

pub proof fn lemma_len_bound_u32(value: u32)
    ensures
        1 <= encoding(value as nat).len() <= 5,
{
    lemma_len(value as nat);
    lemma_len_monotone(value as nat, u32::MAX as nat);
    reveal_with_fuel(encoding, 6);
}

/// An integer reads back as what was written, wherever it stands.
pub proof fn law_decodes_what_was_encoded(data: Seq<u8>, offset: int, value: nat)
    requires
        0 <= offset,
        offset + encoding(value).len() <= data.len(),
        data.subrange(offset, offset + encoding(value).len()) == encoding(value),
    ensures
        decoding(data, offset) == Some((value, offset + encoding(value).len())),
    decreases value,
{
    lemma_len(value);
    let len = encoding(value).len();
    assert(data[offset] == data.subrange(offset, offset + len)[0]);
    if value >= 0x80 {
        let high = value / 0x80;
        lemma_len(high);
        assert(data.subrange(offset + 1, offset + 1 + encoding(high).len()) =~= encoding(high)) by {
            assert forall|i: int| 0 <= i < encoding(high).len() implies data[offset + 1 + i]
                == encoding(high)[i] by {
                assert(data[offset + 1 + i] == data.subrange(offset, offset + len)[i + 1]);
            }
        }
        law_decodes_what_was_encoded(data, offset + 1, high);
    }
}

} // verus!
