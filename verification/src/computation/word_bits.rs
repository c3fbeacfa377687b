use vstd::prelude::*;

verus! {

/// Whether bit `b` of the word `w` is set.
pub open spec fn word_bit(w: u64, b: u64) -> bool {
    (w >> b) & 1u64 == 1u64
}

/// The word of index `i` of `words`, or zero past the end.
pub open spec fn word_at(words: Seq<u64>, i: int) -> u64 {
    if 0 <= i < words.len() {
        words[i]
    } else {
        0u64
    }
}

/// Whether the words `words`, read as one bit array (lowest bits first), hold the bit `i`.
pub open spec fn words_hold(words: Seq<u64>, i: int) -> bool {
    &&& 0 <= i
    &&& word_bit(word_at(words, i / 64), (i % 64) as u64)
}

/// The set of bits held by `words`.
pub open spec fn words_set(words: Seq<u64>) -> Set<int> {
    Set::new(|i: int| words_hold(words, i))
}

pub proof fn lemma_bit_or(a: u64, b: u64, k: u64)
    requires
        k < 64,
    ensures
        word_bit(a | b, k) == (word_bit(a, k) || word_bit(b, k)),
{
    assert(((a | b) >> k) & 1u64 == 1u64 <==> ((a >> k) & 1u64 == 1u64 || (b >> k) & 1u64 == 1u64))
        by (bit_vector)
        requires
            k < 64,
    ;
}

pub proof fn lemma_bit_and(a: u64, b: u64, k: u64)
    requires
        k < 64,
    ensures
        word_bit(a & b, k) == (word_bit(a, k) && word_bit(b, k)),
{
    assert(((a & b) >> k) & 1u64 == 1u64 <==> ((a >> k) & 1u64 == 1u64 && (b >> k) & 1u64 == 1u64))
        by (bit_vector)
        requires
            k < 64,
    ;
}

pub proof fn lemma_bit_xor(a: u64, b: u64, k: u64)
    requires
        k < 64,
    ensures
        word_bit(a ^ b, k) == (word_bit(a, k) != word_bit(b, k)),
{
    assert(((a ^ b) >> k) & 1u64 == 1u64 <==> ((a >> k) & 1u64 == 1u64) != ((b >> k) & 1u64
        == 1u64)) by (bit_vector)
        requires
            k < 64,
    ;
}

pub proof fn lemma_bit_not(a: u64, k: u64)
    requires
        k < 64,
    ensures
        word_bit(!a, k) == !word_bit(a, k),
{
    assert(((!a) >> k) & 1u64 == 1u64 <==> !((a >> k) & 1u64 == 1u64)) by (bit_vector)
        requires
            k < 64,
    ;
}

pub proof fn lemma_bit_and_not(a: u64, b: u64, k: u64)
    requires
        k < 64,
    ensures
        word_bit(a & !b, k) == (word_bit(a, k) && !word_bit(b, k)),
{
    assert(((a & !b) >> k) & 1u64 == 1u64 <==> ((a >> k) & 1u64 == 1u64 && !((b >> k) & 1u64
        == 1u64))) by (bit_vector)
        requires
            k < 64,
    ;
}

pub proof fn lemma_bit_single(s: u64, k: u64)
    requires
        s < 64,
        k < 64,
    ensures
        word_bit(1u64 << s, k) == (k == s),
{
    assert((((1u64 << s) >> k) & 1u64 == 1u64) <==> (k == s)) by (bit_vector)
        requires
            s < 64,
            k < 64,
    ;
}

pub proof fn lemma_bit_zero(k: u64)
    ensures
        !word_bit(0u64, k),
{
    assert(((0u64 >> k) & 1u64) == 0u64) by (bit_vector);
}

/// A nonzero word has a bit set at or after `n` once its bits before `n` are gone.
proof fn lemma_shifted_nonzero_has_bit(w: u64, n: u64)
    requires
        n < 64,
        (w >> n) != 0u64,
    ensures
        exists|k: u64| n <= k < 64 && #[trigger] word_bit(w, k),
    decreases 64 - n,
{
    if (w >> n) & 1u64 == 1u64 {
        assert(word_bit(w, n));
    } else {
        if n == 63 {
            assert((w >> n) != 0u64 && n == 63 ==> (w >> n) & 1u64 == 1u64) by (bit_vector);
        } else {
            let n1: u64 = (n + 1) as u64;
            assert((w >> n) != 0u64 && (w >> n) & 1u64 != 1u64 && n < 63 && n1 == n + 1 ==> (w
                >> n1) != 0u64) by (bit_vector);
            lemma_shifted_nonzero_has_bit(w, n1);
        }
    }
}

pub proof fn lemma_nonzero_has_bit(w: u64)
    ensures
        w != 0u64 <==> exists|k: u64| k < 64 && #[trigger] word_bit(w, k),
{
    if w != 0u64 {
        assert((w >> 0u64) == w) by (bit_vector);
        lemma_shifted_nonzero_has_bit(w, 0);
    } else {
        assert forall|k: u64| k < 64 implies !#[trigger] word_bit(w, k) by {
            lemma_bit_zero(k);
        }
    }
}

/// Reading a word one bit at a time by shifting it right.
pub proof fn lemma_shift_step(w: u64, rem: u64, i: u64)
    requires
        i < 64,
        rem == w >> i,
    ensures
        (rem % 2 == 1) == word_bit(w, i),
        rem >> 1u64 == w >> ((i + 1) as u64),
        rem == 0 ==> forall|k: u64| i <= k < 64 ==> !#[trigger] word_bit(w, k),
{
    assert(rem == w >> i && i < 64 ==> ((rem % 2 == 1) <==> ((w >> i) & 1u64 == 1u64)))
        by (bit_vector);
    let i1: u64 = (i + 1) as u64;
    assert(rem == w >> i && i < 64 && i1 == i + 1 ==> rem >> 1u64 == w >> i1) by (bit_vector);
    if rem == 0 {
        assert forall|k: u64| i <= k < 64 implies !#[trigger] word_bit(w, k) by {
            assert(rem == w >> i && rem == 0u64 && i <= k && k < 64 ==> (w >> k) & 1u64 == 0u64)
                by (bit_vector);
        }
    }
}

/// A word shifted right by its width is zero.
pub proof fn lemma_shift_out(w: u64)
    ensures
        w >> 64u64 == 0u64,
{
    assert(w >> 64u64 == 0u64) by (bit_vector);
}

/// `a & b` is below `b` exactly when `b` has a bit that `a` lacks.
pub proof fn lemma_and_below(a: u64, b: u64)
    ensures
        ((a & b) < b) <==> exists|k: u64| k < 64 && word_bit(b, k) && !#[trigger] word_bit(a, k),
{
    assert((a & b) <= b) by (bit_vector);
    assert(((a & b) != b) <==> ((a & b) ^ b) != 0u64) by (bit_vector);
    lemma_nonzero_has_bit((a & b) ^ b);
    if (a & b) < b {
        let k = choose|k: u64| k < 64 && #[trigger] word_bit((a & b) ^ b, k);
        lemma_bit_xor(a & b, b, k);
        lemma_bit_and(a, b, k);
    }
    if exists|k: u64| k < 64 && word_bit(b, k) && !#[trigger] word_bit(a, k) {
        let k = choose|k: u64| k < 64 && word_bit(b, k) && !#[trigger] word_bit(a, k);
        lemma_bit_xor(a & b, b, k);
        lemma_bit_and(a, b, k);
    }
}

/// Indices split into a word index and a bit index.
pub proof fn lemma_index_split(i: int)
    requires
        0 <= i,
    ensures
        i == (i / 64) * 64 + i % 64,
        0 <= i % 64 < 64,
        0 <= i / 64,
{
}

} // verus!
