//! Little-endian words in byte strings.
use vstd::prelude::*;

verus! {

/// The eight bytes from `at` on as a little-endian number.
pub open spec fn le_word(data: Seq<u8>, at: int) -> u64 {
    (data[at] + 0x100 * data[at + 1] + 0x1_0000 * data[at + 2] + 0x100_0000 * data[at + 3]
        + 0x1_0000_0000 * data[at + 4] + 0x100_0000_0000 * data[at + 5] + 0x1_0000_0000_0000
        * data[at + 6] + 0x100_0000_0000_0000 * data[at + 7]) as u64
}

/// The data as pairs of words; what is left at the end is dropped.
pub open spec fn word_pairs(data: Seq<u8>) -> Seq<(u64, u64)> {
    Seq::new(
        data.len() / 16,
        |i: int| (le_word(data, 16 * i), le_word(data, 16 * i + 8)),
    )
}

/// The eight bytes from `at` on as a little-endian number.
pub fn read_word(data: &[u8], at: usize) -> (r: u64)
    requires
        at + 8 <= data@.len(),
    ensures
        r == le_word(data@, at as int),
{
    data[at] as u64 + 0x100 * (data[at + 1] as u64) + 0x1_0000 * (data[at + 2] as u64) + 0x100_0000
        * (data[at + 3] as u64) + 0x1_0000_0000 * (data[at + 4] as u64) + 0x100_0000_0000 * (data[at
        + 5] as u64) + 0x1_0000_0000_0000 * (data[at + 6] as u64) + 0x100_0000_0000_0000 * (data[at
        + 7] as u64)
}

/// The data as pairs of words.
pub fn read_word_pairs(data: &[u8]) -> (r: Vec<(u64, u64)>)
    ensures
        r@ == word_pairs(data@),
{
    let mut pairs: Vec<(u64, u64)> = Vec::new();
    let mut at: usize = 0;
    while data.len() - at >= 16
        invariant
            at <= data@.len(),
            at == 16 * pairs.len(),
            pairs.len() <= data@.len() / 16,
            forall|i: int|
                0 <= i < pairs.len() ==> #[trigger] pairs[i] == word_pairs(data@)[i],
        decreases data@.len() - at,
    {
        pairs.push((read_word(data, at), read_word(data, at + 8)));
        at = at + 16;
    }
    assert(pairs@ =~= word_pairs(data@));
    pairs
}

/// The bytes of a word, from the lowest on, are the bytes that it was read from, in their order.
pub proof fn lemma_word_bytes(data: Seq<u8>, at: int)
    ensures
        (le_word(data, at) / 1) % 0x100 == data[at + 0],
        (le_word(data, at) / 0x100) % 0x100 == data[at + 1],
        (le_word(data, at) / 0x1_0000) % 0x100 == data[at + 2],
        (le_word(data, at) / 0x100_0000) % 0x100 == data[at + 3],
        (le_word(data, at) / 0x1_0000_0000) % 0x100 == data[at + 4],
        (le_word(data, at) / 0x100_0000_0000) % 0x100 == data[at + 5],
        (le_word(data, at) / 0x1_0000_0000_0000) % 0x100 == data[at + 6],
        (le_word(data, at) / 0x100_0000_0000_0000) % 0x100 == data[at + 7],
{
    let w = le_word(data, at) as int;
    let q7 = data[at + 7] as int;
    let q6 = data[at + 6] + 0x100 * q7;
    let q5 = data[at + 5] + 0x100 * q6;
    let q4 = data[at + 4] + 0x100 * q5;
    let q3 = data[at + 3] + 0x100 * q4;
    let q2 = data[at + 2] + 0x100 * q3;
    let q1 = data[at + 1] + 0x100 * q2;
    let q0 = data[at + 0] + 0x100 * q1;
    assert(w == q0);
    lemma_shifted(w, q0, 1, q1, data[at + 0] as int);
    lemma_shifted(w, q1, 0x100, q2, data[at + 1] as int);
    lemma_shifted(w, q2, 0x1_0000, q3, data[at + 2] as int);
    lemma_shifted(w, q3, 0x100_0000, q4, data[at + 3] as int);
    lemma_shifted(w, q4, 0x1_0000_0000, q5, data[at + 4] as int);
    lemma_shifted(w, q5, 0x100_0000_0000, q6, data[at + 5] as int);
    lemma_shifted(w, q6, 0x1_0000_0000_0000, q7, data[at + 6] as int);
    assert(q7 % 0x100 == q7);
}

proof fn lemma_shifted(w: int, q: int, shift: int, next: int, low: int)
    requires
        0 < shift,
        w / shift == q,
        q == low + 0x100 * next,
        0 <= low < 0x100,
        0 <= next,
    ensures
        (w / shift) % 0x100 == low,
        w / (shift * 0x100) == next,
{
    vstd::arithmetic::div_mod::lemma_fundamental_div_mod_converse(q, 0x100, next, low);
    if w >= 0 {
        vstd::arithmetic::div_mod::lemma_div_denominator(w, shift, 0x100);
    } else {
        assert(w / shift < 0) by (nonlinear_arith)
            requires
                w < 0,
                0 < shift,
        ;
    }
}

/// Pairs of words are read one behind the other, sixteen bytes each, as far as there are whole ones.
pub proof fn lemma_pairs_in_turn(data: Seq<u8>)
    ensures
        data.len() < 16 ==> word_pairs(data).len() == 0,
        data.len() >= 16 ==> word_pairs(data).len() > 0 && word_pairs(data)[0] == (
            le_word(data, 0),
            le_word(data, 8),
        ) && word_pairs(data).drop_first() == word_pairs(data.skip(16)),
{
    if data.len() >= 16 {
        let rest = data.skip(16);
        assert(data.len() / 16 == rest.len() / 16 + 1);
        assert forall|i: int| 0 <= i < rest.len() / 16 implies word_pairs(data).drop_first()[i]
            == word_pairs(rest)[i] by {
            assert(word_pairs(data).drop_first()[i] == word_pairs(data)[i + 1]);
            assert forall|k: int| 0 <= k < rest.len() implies rest[k] == data[16 + k] by {}
            assert(16 * i + 16 <= rest.len());
        }
        assert(word_pairs(data).drop_first() =~= word_pairs(rest));
    }
}

} // verus!
