use vstd::arithmetic::power2::{
    lemma2_to64, lemma2_to64_rest, lemma_pow2_pos, lemma_pow2_strictly_increases, lemma_pow2_unfold, pow2,
};
use vstd::prelude::*;

verus! {

/// The smallest `k` with `2^k >= n`, and 0 when `n <= 1`.
pub open spec fn spec_encompassing_bits(n: nat) -> nat
    decreases n,
{
    if n <= 1 {
        0
    } else {
        1 + spec_encompassing_bits(((n + 1) / 2) as nat)
    }
}

/// How many entries of `bits` bits one 64-bit word holds.
pub open spec fn per_word(bits: nat) -> nat {
    64nat / bits
}

/// How many words hold `count` entries of `bits` bits.
pub open spec fn word_count(count: nat, bits: nat) -> nat {
    let per = per_word(bits);
    ((count + per - 1) / (per as int)) as nat
}

/// The mask of the low `bits` bits.
pub open spec fn low_mask(bits: u64) -> u64 {
    ((1u64 << bits) - 1) as u64
}

/// The bits of a signed word, unchanged, as an unsigned word.
pub open spec fn as_bits(w: i64) -> u64 {
    #[verifier::truncate]
    (w as u64)
}

/// Entry `j` of a word: bits `j * bits .. j * bits + bits`.
pub open spec fn word_entry(word: u64, bits: nat, j: nat) -> u64 {
    ((word >> ((j * bits) as u64)) & low_mask(bits as u64))
}

/// Entry `i` of a packed array: the words are filled one after another,
/// least-significant bits first.
pub open spec fn entry_at(words: Seq<i64>, bits: nat, i: nat) -> u64 {
    word_entry(as_bits(words[(i / per_word(bits)) as int]), bits, i % per_word(bits))
}

/// `words` packs `entries` at `bits` bits each: the right number of words,
/// each entry in its place, and every bit that holds no entry clear.
pub open spec fn packs(words: Seq<i64>, entries: Seq<u64>, bits: nat) -> bool {
    let per = per_word(bits);
    &&& words.len() == word_count(entries.len(), bits)
    &&& forall|i: nat| i < words.len() * per ==> #[trigger] entry_at(words, bits, i) == (if i
        < entries.len() {
        entries[i as int]
    } else {
        0
    })
    &&& per * bits < 64 ==> forall|w: int|
        0 <= w < words.len() ==> #[trigger] as_bits(words[w]) >> ((per * bits) as u64) == 0
}

/// `smallest k such that 2^k >= n` (0 for `n <= 1`): the bits needed to tell
/// `n` palette entries apart.
pub fn encompassing_bits(n: usize) -> (r: u8)
    ensures
        r == spec_encompassing_bits(n as nat),
        n <= 1 ==> r == 0,
        n > 1 ==> pow2((r - 1) as nat) < n <= pow2(r as nat),
{
    let mut k: u8 = 0;
    let mut m: usize = n;
    proof {
        lemma_encompassing(n as nat);
    }
    while m > 1
        invariant
            k + spec_encompassing_bits(m as nat) == spec_encompassing_bits(n as nat),
            k <= 64,
            spec_encompassing_bits(n as nat) <= 64,
        decreases m,
    {
        m = m / 2 + m % 2;
        k = k + 1;
    }
    k
}

/// `spec_encompassing_bits` is the least `k` with `n <= 2^k`.
pub proof fn lemma_encompassing(n: nat)
    ensures
        n <= pow2(spec_encompassing_bits(n)),
        n > 1 ==> pow2((spec_encompassing_bits(n) - 1) as nat) < n,
        n < 0x1_0000_0000_0000_0000 ==> spec_encompassing_bits(n) <= 64,
    decreases n,
{
    lemma_pow2_pos(0);
    if n > 1 {
        let h = ((n + 1) / 2) as nat;
        let e = spec_encompassing_bits(h);
        lemma_encompassing(h);
        lemma_pow2_unfold(e + 1);
        assert(spec_encompassing_bits(n) == e + 1);
        assert(pow2(e + 1) == 2 * pow2(e));
        if h > 1 {
            lemma_pow2_unfold(e);
            assert(pow2((e - 1) as nat) < h);
            assert(pow2(e) <= 2 * h - 2);
        } else {
            assert(e == 0);
            lemma2_to64();
        }
        if n < 0x1_0000_0000_0000_0000 && e + 1 > 64 {
            lemma2_to64_rest();
            if e > 64 {
                lemma_pow2_strictly_increases(64, e);
            }
        }
    }
}

proof fn lemma_or_keeps_lower(w: u64, v: u64, s: u64, t: u64, k: u64)
    requires
        1 <= k,
        t + k <= s,
        s + k <= 64,
    ensures
        ((w | (v << s)) >> t) & low_mask(k) == (w >> t) & low_mask(k),
{
    assert(((w | (v << s)) >> t) & (((1u64 << k) - 1) as u64) == (w >> t) & (((1u64 << k) - 1)
        as u64)) by (bit_vector)
        requires
            1 <= k,
            t + k <= s,
            s + k <= 64,
    ;
}

proof fn lemma_or_places_entry(w: u64, v: u64, s: u64, k: u64)
    requires
        1 <= k,
        s + k <= 64,
        w >> s == 0,
        v >> k == 0,
    ensures
        ((w | (v << s)) >> s) & low_mask(k) == v,
        s + k < 64 ==> (w | (v << s)) >> ((s + k) as u64) == 0,
{
    assert(((w | (v << s)) >> s) & (((1u64 << k) - 1) as u64) == v) by (bit_vector)
        requires
            1 <= k,
            s + k <= 64,
            w >> s == 0,
            v >> k == 0,
    ;
    assert(s + k < 64 ==> (w | (v << s)) >> ((s + k) as u64) == 0) by (bit_vector)
        requires
            1 <= k,
            s + k <= 64,
            w >> s == 0,
            v >> k == 0,
    ;
}

proof fn lemma_zero_above(w: u64, s: u64, k: u64)
    requires
        1 <= k,
        s + k <= 64,
        w >> s == 0,
    ensures
        (w >> s) & low_mask(k) == 0,
        s + k < 64 ==> w >> ((s + k) as u64) == 0,
{
    assert((w >> s) & (((1u64 << k) - 1) as u64) == 0 && (s + k < 64 ==> w >> ((s + k) as u64) == 0))
        by (bit_vector)
        requires
            1 <= k,
            s + k <= 64,
            w >> s == 0,
    ;
}

proof fn lemma_slot_fits(j: nat, bits: nat)
    requires
        1 <= bits,
        j < per_word(bits),
    ensures
        j * bits + bits <= 64,
        forall|jj: nat| jj < j ==> #[trigger] (jj * bits) + bits <= j * bits,
{
    assert(j * bits + bits <= 64) by (nonlinear_arith)
        requires
            1 <= bits,
            j < 64nat / bits,
    ;
    assert forall|jj: nat| jj < j implies #[trigger] (jj * bits) + bits <= j * bits by {
        assert(jj * bits + bits <= j * bits) by (nonlinear_arith)
            requires
                jj < j,
        ;
    }
}

proof fn lemma_entry_index(i: nat, q: nat, per: nat)
    requires
        per > 0,
        q * per <= i < q * per + per,
    ensures
        i / per == q,
        i % per == i - q * per,
{
    vstd::arithmetic::div_mod::lemma_fundamental_div_mod_converse(
        i as int,
        per as int,
        q as int,
        i - q * per,
    );
}

/// Packs `entries`, `bits` bits each, into as few 64-bit words as hold them.
pub fn pack_entries(entries: &Vec<u64>, bits: u8) -> (r: Vec<i64>)
    requires
        1 <= bits <= 63,
        entries@.len() + 64 <= usize::MAX,
        forall|i: int| 0 <= i < entries@.len() ==> (entries@[i] as nat) < pow2(bits as nat),
    ensures
        packs(r@, entries@, bits as nat),
{
    let per: usize = (64 / bits) as usize;
    let n = entries.len();
    let ghost b = bits as nat;
    assert(per == per_word(b));
    assert(1 <= 64int / (bits as int) <= 64) by (nonlinear_arith)
        requires
            1 <= bits <= 63,
    ;
    let mut words: Vec<i64> = Vec::new();
    let mut idx: usize = 0;
    assert(words@.len() == 0);
    assert(words@.len() * per == 0) by (nonlinear_arith)
        requires
            words@.len() == 0,
    ;
    while idx < n
        invariant
            per == per_word(b),
            1 <= per <= 64,
            1 <= b <= 63,
            b == bits,
            n == entries@.len(),
            n + 64 <= usize::MAX,
            idx == words@.len() * per,
            words@.len() > 0 ==> idx - per < n,
            forall|i: int| 0 <= i < entries@.len() ==> (entries@[i] as nat) < pow2(bits as nat),
            forall|i: nat| i < idx ==> #[trigger] entry_at(words@, b, i) == (if i < n {
                entries@[i as int]
            } else {
                0
            }),
            per * b < 64 ==> forall|w: int|
                0 <= w < words@.len() ==> #[trigger] as_bits(words@[w]) >> ((per * b) as u64)
                    == 0,
        decreases n + per - idx,
    {
        let mut word: u64 = 0;
        let mut j: usize = 0;
        assert(0u64 >> 0u64 == 0) by (bit_vector);
        while j < per
            invariant
                per == per_word(b),
                1 <= per <= 64,
                1 <= b <= 63,
                b == bits,
                n == entries@.len(),
                idx < n,
                n + 64 <= usize::MAX,
                j <= per,
                forall|i: int| 0 <= i < entries@.len() ==> (entries@[i] as nat) < pow2(
                    bits as nat,
                ),
                forall|jj: nat| jj < j ==> #[trigger] word_entry(word, b, jj) == (if idx + jj
                    < n {
                    entries@[idx + jj]
                } else {
                    0
                }),
                j * b < 64 ==> word >> ((j * b) as u64) == 0,
            decreases per - j,
        {
            proof {
                lemma_slot_fits(j as nat, b);
            }
            let shift: u64 = (j as u64) * (bits as u64);
            let ghost old_word = word;
            if idx + j < n {
                let v = entries[idx + j];
                proof {
                    vstd::bits::lemma_u64_shr_is_div(v, bits as u64);
                    vstd::arithmetic::div_mod::lemma_basic_div(v as int, pow2(b) as int);
                    lemma_or_places_entry(old_word, v, shift, bits as u64);
                }
                word = word | (v << shift);
                proof {
                    assert forall|jj: nat| jj < j + 1 implies #[trigger] word_entry(word, b, jj)
                        == (if idx + jj < n {
                        entries@[idx + jj]
                    } else {
                        0
                    }) by {
                        if jj < j {
                            assert(jj * b + b <= j * b) by (nonlinear_arith)
                                requires
                                    jj < j,
                            ;
                            lemma_or_keeps_lower(old_word, v, shift, (jj * b) as u64, bits as u64);
                            assert(word_entry(old_word, b, jj) == (if idx + jj < n {
                                entries@[idx + jj]
                            } else {
                                0
                            }));
                        } else {
                            assert(jj == j);
                            assert(shift == (jj * b) as u64);
                            assert(word_entry(word, b, jj) == v);
                        }
                    }
                }
            } else {
                proof {
                    lemma_zero_above(word, shift, bits as u64);
                }
            }
            assert((j + 1) * b == j * b + b) by (nonlinear_arith);
            j = j + 1;
        }
        proof {
            assert(j * b == per * b);
        }
        let signed: i64 = #[verifier::truncate] (word as i64);
        assert(as_bits(signed) == word) by (bit_vector)
            requires
                signed == #[verifier::truncate] (word as i64),
        ;
        let ghost old_words = words@;
        words.push(signed);
        proof {
            let q = old_words.len();
            assert forall|i: nat| i < idx + per implies #[trigger] entry_at(words@, b, i) == (if i
                < n {
                entries@[i as int]
            } else {
                0
            }) by {
                if i < idx {
                    assert(entry_at(old_words, b, i) == (if i < n {
                        entries@[i as int]
                    } else {
                        0
                    }));
                    vstd::arithmetic::div_mod::lemma_div_is_ordered(i as int, idx as int, per as int);
                    assert(idx as int / per as int == q) by {
                        lemma_entry_index(idx as nat, q, per as nat);
                    }
                    if i / (per as nat) == q {
                        vstd::arithmetic::div_mod::lemma_fundamental_div_mod(i as int, per as int);
                        assert(false) by (nonlinear_arith)
                            requires
                                i < idx,
                                idx == q * per,
                                i == per * (i / (per as nat)) + i % (per as nat),
                                i % (per as nat) >= 0,
                                i / (per as nat) == q,
                        ;
                    }
                    assert(words@[(i / (per as nat)) as int] == old_words[(i / (per as nat)) as int]);
                } else {
                    lemma_entry_index(i, q, per as nat);
                    assert(words@[q as int] == signed);
                    let jj = (i - idx) as nat;
                    assert(word_entry(word, b, jj) == (if idx + jj < n {
                        entries@[idx + jj]
                    } else {
                        0
                    }));
                }
            }
            assert((q + 1) * per == q * per + per) by (nonlinear_arith);
        }
        idx = idx + per;
    }
    proof {
        let len = words@.len();
        if len > 0 {
            assert(word_count(n as nat, b) == len) by {
                assert((len - 1) * per == idx - per) by (nonlinear_arith)
                    requires
                        idx == len * per,
                ;
                lemma_entry_index((n + per - 1) as nat, len as nat, per as nat);
            }
        } else {
            assert(n == 0);
            assert((per - 1) as int / per as int == 0) by (nonlinear_arith)
                requires
                    per >= 1,
            ;
        }
    }
    words
}

/// Entry `i` of a packed array, or `None` past its last word.
pub fn entry_in(words: &[i64], bits: u8, i: usize) -> (r: Option<u64>)
    requires
        1 <= bits <= 63,
    ensures
        r == (if (i as nat) < words@.len() * per_word(bits as nat) {
            Some(entry_at(words@, bits as nat, i as nat))
        } else {
            None::<u64>
        }),
{
    let per: usize = (64 / bits) as usize;
    assert(1 <= 64int / (bits as int) <= 64) by (nonlinear_arith)
        requires
            1 <= bits <= 63,
    ;
    let w = i / per;
    if w < words.len() {
        let j = i % per;
        proof {
            vstd::arithmetic::div_mod::lemma_fundamental_div_mod(i as int, per as int);
            assert(i < words@.len() * per) by (nonlinear_arith)
                requires
                    w < words@.len(),
                    i == per * w + j,
                    j < per,
            ;
            lemma_slot_fits(j as nat, bits as nat);
        }
        let shift: u64 = (j as u64) * (bits as u64);
        let bits64 = bits as u64;
        assert(1u64 << bits64 >= 1) by (bit_vector)
            requires
                bits64 <= 63,
        ;
        let mask: u64 = (1u64 << bits64) - 1;
        let word: u64 = #[verifier::truncate] (words[w] as u64);
        Some((word >> shift) & mask)
    } else {
        proof {
            vstd::arithmetic::div_mod::lemma_fundamental_div_mod(i as int, per as int);
            assert(i >= words@.len() * per) by (nonlinear_arith)
                requires
                    w >= words@.len(),
                    i == per * w + i % per,
                    i % per >= 0,
            ;
        }
        None
    }
}

/// No count of entries up to `2^e` needs more than `e` bits.
pub proof fn lemma_encompassing_le(n: nat, e: nat)
    requires
        n <= pow2(e),
    ensures
        spec_encompassing_bits(n) <= e,
{
    lemma_encompassing(n);
    let k = spec_encompassing_bits(n);
    if k > e {
        if (k - 1) as nat > e {
            lemma_pow2_strictly_increases(e, (k - 1) as nat);
        }
    }
}

/// The words of a packed array hold at least as many entries as it packs.
pub proof fn lemma_word_count_covers(n: nat, bits: nat)
    requires
        1 <= bits <= 64,
    ensures
        n <= word_count(n, bits) * per_word(bits),
        per_word(bits) >= 1,
{
    let per = per_word(bits);
    assert(per >= 1) by (nonlinear_arith)
        requires
            1 <= bits <= 64,
            per == 64nat / bits,
    ;
    let m = (n + per - 1) as int;
    vstd::arithmetic::div_mod::lemma_fundamental_div_mod(m, per as int);
    let p = per as int;
    assert(n <= (m / p) * p) by (nonlinear_arith)
        requires
            m == p * (m / p) + m % p,
            m % p < p,
            m == n + p - 1,
    ;
}

} // verus!
