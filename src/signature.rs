use vstd::prelude::*;

use crate::error::VettoreError;

verus! {

/// Bit `j` of a word, where `j = 0` is the most significant bit.
pub open spec fn word_bit(w: u64, j: u64) -> bool {
    (w >> ((63u64 - j) as u64)) & 1u64 == 1u64
}

proof fn lemma_shift_step(x: u64, y: u64, k: u64)
    by (bit_vector)
    requires
        1 <= k <= 64,
        x >> k == y >> k,
        ((x >> ((k - 1) as u64)) & 1u64 == 1u64) == ((y >> ((k - 1) as u64)) & 1u64 == 1u64),
    ensures
        x >> ((k - 1) as u64) == y >> ((k - 1) as u64),
{
}

proof fn lemma_shift_all(x: u64, y: u64)
    by (bit_vector)
    ensures
        x >> 64u64 == y >> 64u64,
        x >> 0u64 == x,
{
}

proof fn lemma_shift_eq_from(x: u64, y: u64, k: u64)
    requires
        k <= 64,
        forall|j: u64| j < 64 ==> #[trigger] word_bit(x, j) == word_bit(y, j),
    ensures
        x >> k == y >> k,
    decreases 64 - k,
{
    if k == 64 {
        lemma_shift_all(x, y);
    } else {
        lemma_shift_eq_from(x, y, (k + 1) as u64);
        assert(word_bit(x, (63 - k) as u64) == word_bit(y, (63 - k) as u64));
        assert((63u64 - (63 - k) as u64) as u64 == k);
        lemma_shift_step(x, y, (k + 1) as u64);
    }
}

/// Two words that agree on every bit are equal.
proof fn lemma_word_ext(x: u64, y: u64)
    requires
        forall|j: u64| j < 64 ==> #[trigger] word_bit(x, j) == word_bit(y, j),
    ensures
        x == y,
{
    lemma_shift_eq_from(x, y, 0);
    lemma_shift_all(x, y);
    lemma_shift_all(y, x);
}

/// Whether position `i` of a sign pattern is set; positions past its end are clear.
pub open spec fn sign_at(s: Seq<bool>, i: int) -> bool {
    0 <= i < s.len() && s[i]
}

/// The number of 64-bit words that hold `n` sign bits.
pub open spec fn word_count(n: nat) -> nat {
    ((n + 63) / 64) as nat
}

/// `words` is the packed signature of the sign pattern `s`: word `w` holds
/// positions `64 * w` to `64 * w + 63`, the first of them in the most
/// significant bit, and every bit past the end of `s` is zero.
pub open spec fn encodes(words: Seq<u64>, s: Seq<bool>) -> bool {
    &&& words.len() == word_count(s.len())
    &&& forall|w: int, j: u64|
        0 <= w < words.len() && j < 64 ==> #[trigger] word_bit(words[w], j) == sign_at(s, 64 * w + j)
}

/// The number of one bits among the first `k` bits (most significant first) of `w`.
pub open spec fn ones_among(w: u64, k: nat) -> nat
    decreases k,
{
    if k == 0 {
        0
    } else {
        ones_among(w, (k - 1) as nat) + if word_bit(w, (k - 1) as u64) {
            1nat
        } else {
            0nat
        }
    }
}

/// The number of one bits of a word.
pub open spec fn popcount(w: u64) -> nat {
    ones_among(w, 64)
}

/// The number of differing bits between the first `n` words of `a` and of `b`.
pub open spec fn hamming(a: Seq<u64>, b: Seq<u64>, n: nat) -> nat
    decreases n,
{
    if n == 0 {
        0
    } else {
        hamming(a, b, (n - 1) as nat) + popcount(a[n - 1] ^ b[n - 1])
    }
}

/// The number of differing bits between two signatures, over the words that
/// both of them have.
pub open spec fn hamming_between(a: Seq<u64>, b: Seq<u64>) -> nat {
    hamming(a, b, if a.len() < b.len() { a.len() } else { b.len() })
}

/// The number of positions below `m` at which two sign patterns differ.
pub open spec fn differing_below(s: Seq<bool>, t: Seq<bool>, m: nat) -> nat
    decreases m,
{
    if m == 0 {
        0
    } else {
        differing_below(s, t, (m - 1) as nat) + if sign_at(s, m - 1) != sign_at(t, m - 1) {
            1nat
        } else {
            0nat
        }
    }
}

/// The number of positions at which two sign patterns of one length differ.
pub open spec fn sign_flips(s: Seq<bool>, t: Seq<bool>) -> nat {
    differing_below(s, t, s.len())
}

proof fn lemma_set_bit(x: u64, f: u64, j: u64)
    by (bit_vector)
    requires
        f < 64,
        j < 64,
    ensures
        word_bit(x | (1u64 << ((63u64 - f) as u64)), j) == (word_bit(x, j) || j == f),
{
}

proof fn lemma_zero_bits(j: u64)
    by (bit_vector)
    ensures
        !word_bit(0u64, j),
{
}

proof fn lemma_xor_bit(x: u64, y: u64, j: u64)
    by (bit_vector)
    requires
        j < 64,
    ensures
        word_bit(x ^ y, j) == (word_bit(x, j) != word_bit(y, j)),
{
}

proof fn lemma_ones_bound(w: u64, k: nat)
    ensures
        ones_among(w, k) <= k,
    decreases k,
{
    if k > 0 {
        lemma_ones_bound(w, (k - 1) as nat);
    }
}

proof fn lemma_hamming_bound(a: Seq<u64>, b: Seq<u64>, n: nat)
    ensures
        hamming(a, b, n) <= 64 * n,
    decreases n,
{
    if n > 0 {
        lemma_hamming_bound(a, b, (n - 1) as nat);
        lemma_ones_bound(a[n - 1] ^ b[n - 1], 64);
    }
}

/// A sign pattern has exactly one packed signature.
pub proof fn lemma_encoding_unique(a: Seq<u64>, b: Seq<u64>, s: Seq<bool>)
    requires
        encodes(a, s),
        encodes(b, s),
    ensures
        a == b,
{
    assert forall|w: int| 0 <= w < a.len() implies a[w] == b[w] by {
        assert forall|j: u64| j < 64 implies #[trigger] word_bit(a[w], j) == word_bit(b[w], j) by {
            assert(word_bit(a[w], j) == sign_at(s, 64 * w + j));
            assert(word_bit(b[w], j) == sign_at(s, 64 * w + j));
        }
        lemma_word_ext(a[w], b[w]);
    }
    assert(a =~= b);
}

/// The word whose first `k` bits are positions `base` to `base + k - 1` of `s`
/// and whose other bits are zero.
pub open spec fn word_of(s: Seq<bool>, base: int, k: nat) -> u64
    decreases k,
{
    if k == 0 {
        0
    } else {
        let j = (k - 1) as u64;
        let rest = word_of(s, base, (k - 1) as nat);
        if sign_at(s, base + j) {
            rest | (1u64 << ((63u64 - j) as u64))
        } else {
            rest
        }
    }
}

/// The packed signature of a sign pattern.
pub open spec fn signature_of(s: Seq<bool>) -> Seq<u64> {
    Seq::new(word_count(s.len()), |w: int| word_of(s, 64 * w, 64))
}

proof fn lemma_word_of_bits(s: Seq<bool>, base: int, k: nat)
    requires
        k <= 64,
    ensures
        forall|j: u64|
            j < 64 ==> #[trigger] word_bit(word_of(s, base, k), j) == (j < k && sign_at(s, base + j)),
    decreases k,
{
    if k == 0 {
        assert forall|j: u64| j < 64 implies #[trigger] word_bit(word_of(s, base, k), j) == (j < k
            && sign_at(s, base + j)) by {
            lemma_zero_bits(j);
        }
    } else {
        lemma_word_of_bits(s, base, (k - 1) as nat);
        let f = (k - 1) as u64;
        let rest = word_of(s, base, (k - 1) as nat);
        assert forall|j: u64| j < 64 implies #[trigger] word_bit(word_of(s, base, k), j) == (j < k
            && sign_at(s, base + j)) by {
            if sign_at(s, base + f) {
                lemma_set_bit(rest, f, j);
            }
        }
    }
}

/// Every sign pattern has a packed signature.
pub proof fn lemma_signature_of_encodes(s: Seq<bool>)
    ensures
        encodes(signature_of(s), s),
{
    let words = signature_of(s);
    assert forall|w: int, j: u64| 0 <= w < words.len() && j < 64 implies #[trigger] word_bit(
        words[w],
        j,
    ) == sign_at(s, 64 * w + j) by {
        lemma_word_of_bits(s, 64 * w, 64);
    }
}

/// Packs a sign pattern into 64-bit words: bit `j` (most significant first) of
/// word `w` is set exactly when position `64 * w + j` is set.
pub fn pack_sign_bits(signs: &[bool]) -> (r: Vec<u64>)
    ensures
        encodes(r@, signs@),
        r@ == signature_of(signs@),
{
    let n = signs.len();
    let words: usize = n / 64 + if n % 64 == 0 { 0 } else { 1 };
    assert(words == word_count(n as nat));
    let mut out: Vec<u64> = Vec::with_capacity(words);
    let mut w: usize = 0;
    while w < words
        invariant
            n == signs@.len(),
            words == word_count(n as nat),
            w <= words,
            out@.len() == w,
            forall|w2: int, j: u64|
                0 <= w2 < w && j < 64 ==> #[trigger] word_bit(out@[w2], j) == sign_at(
                    signs@,
                    64 * w2 + j,
                ),
        decreases words - w,
    {
        assert(64 * w < n) by (nonlinear_arith)
            requires
                w < words,
                words == (n + 63) / 64,
        ;
        let base: usize = w * 64;
        let mut current: u64 = 0;
        let mut j: usize = 0;
        assert forall|j2: u64| j2 < 64 implies #[trigger] word_bit(current, j2) == (j2 < j
            && sign_at(signs@, base + j2)) by {
            lemma_zero_bits(j2);
        }
        while j < 64
            invariant
                n == signs@.len(),
                base < n,
                j <= 64,
                forall|j2: u64|
                    j2 < 64 ==> #[trigger] word_bit(current, j2) == (j2 < j && sign_at(
                        signs@,
                        base + j2,
                    )),
            decreases 64 - j,
        {
            let bit = j < n - base && signs[base + j];
            let old_current = current;
            if bit {
                current = current | (1u64 << (63 - j as u64));
            }
            assert forall|j2: u64| j2 < 64 implies #[trigger] word_bit(current, j2) == (j2 < j
                + 1 && sign_at(signs@, base + j2)) by {
                if bit {
                    lemma_set_bit(old_current, j as u64, j2);
                }
            }
            j = j + 1;
        }
        out.push(current);
        assert(base == 64 * w);
        w = w + 1;
    }
    proof {
        lemma_signature_of_encodes(signs@);
        lemma_encoding_unique(out@, signature_of(signs@), signs@);
    }
    out
}

/// Relies on `u64::count_ones`: the number of one bits of the word.
#[verifier::external_body]
fn count_ones(w: u64) -> (r: u32)
    ensures
        r as nat == popcount(w),
{
    w.count_ones()
}

/// The number of differing bits between two signatures, over the words that
/// both of them have.
pub fn hamming_distance(a: &[u64], b: &[u64]) -> (r: u32)
    requires
        64 * (if a@.len() < b@.len() { a@.len() } else { b@.len() }) <= u32::MAX,
    ensures
        r == hamming_between(a@, b@),
{
    let n: usize = if a.len() < b.len() { a.len() } else { b.len() };
    let mut sum: u32 = 0;
    let mut i: usize = 0;
    while i < n
        invariant
            n == (if a@.len() < b@.len() { a@.len() } else { b@.len() }),
            64 * n <= u32::MAX,
            i <= n,
            sum == hamming(a@, b@, i as nat),
        decreases n - i,
    {
        proof {
            lemma_hamming_bound(a@, b@, (i + 1) as nat);
        }
        let c = count_ones(a[i] ^ b[i]);
        sum = sum + c;
        i = i + 1;
    }
    sum
}

/// The Hamming distance between two signatures of one length; signatures of
/// different lengths are refused.
pub fn hamming_distance_bits(bits_a: Vec<u64>, bits_b: Vec<u64>) -> (r: Result<u32, VettoreError>)
    requires
        64 * bits_a@.len() <= u32::MAX,
    ensures
        bits_a@.len() != bits_b@.len() ==> r == Err::<u32, VettoreError>(VettoreError::LengthMismatch),
        bits_a@.len() == bits_b@.len() ==> r == Ok::<u32, VettoreError>(
            hamming(bits_a@, bits_b@, bits_a@.len()) as u32,
        ),
{
    if bits_a.len() != bits_b.len() {
        return Err(VettoreError::LengthMismatch);
    }
    Ok(hamming_distance(bits_a.as_slice(), bits_b.as_slice()))
}

proof fn lemma_word_ones(a: Seq<u64>, b: Seq<u64>, s: Seq<bool>, t: Seq<bool>, w: int, k: nat)
    requires
        encodes(a, s),
        encodes(b, t),
        s.len() == t.len(),
        0 <= w < a.len(),
        k <= 64,
    ensures
        ones_among(a[w] ^ b[w], k) + differing_below(s, t, (64 * w) as nat) == differing_below(
            s,
            t,
            (64 * w + k) as nat,
        ),
    decreases k,
{
    if k > 0 {
        let j = (k - 1) as u64;
        lemma_word_ones(a, b, s, t, w, (k - 1) as nat);
        lemma_xor_bit(a[w], b[w], j);
        assert(word_bit(a[w], j) == sign_at(s, 64 * w + j));
        assert(word_bit(b[w], j) == sign_at(t, 64 * w + j));
    }
}

proof fn lemma_hamming_prefix(a: Seq<u64>, b: Seq<u64>, s: Seq<bool>, t: Seq<bool>, n: nat)
    requires
        encodes(a, s),
        encodes(b, t),
        s.len() == t.len(),
        n <= a.len(),
    ensures
        hamming(a, b, n) == differing_below(s, t, 64 * n),
    decreases n,
{
    if n > 0 {
        lemma_hamming_prefix(a, b, s, t, (n - 1) as nat);
        lemma_word_ones(a, b, s, t, n - 1, 64);
    }
}

proof fn lemma_past_the_end(s: Seq<bool>, t: Seq<bool>, m: nat)
    requires
        s.len() == t.len(),
        m >= s.len(),
    ensures
        differing_below(s, t, m) == differing_below(s, t, s.len()),
    decreases m,
{
    if m > s.len() {
        lemma_past_the_end(s, t, (m - 1) as nat);
    }
}

proof fn lemma_no_difference(s: Seq<bool>, m: nat)
    ensures
        differing_below(s, s, m) == 0,
    decreases m,
{
    if m > 0 {
        lemma_no_difference(s, (m - 1) as nat);
    }
}

proof fn lemma_one_difference(s: Seq<bool>, i: int, m: nat)
    requires
        0 <= i < s.len(),
    ensures
        differing_below(s, s.update(i, !s[i]), m) == if m > i {
            1nat
        } else {
            0nat
        },
    decreases m,
{
    if m > 0 {
        lemma_one_difference(s, i, (m - 1) as nat);
    }
}

/// The Hamming distance between the signatures of two sign patterns of one
/// length is the number of positions at which the patterns differ.
pub proof fn lemma_hamming_counts_sign_flips(s: Seq<bool>, t: Seq<bool>, a: Seq<u64>, b: Seq<u64>)
    requires
        s.len() == t.len(),
        encodes(a, s),
        encodes(b, t),
    ensures
        hamming(a, b, a.len()) == sign_flips(s, t),
{
    lemma_hamming_prefix(a, b, s, t, a.len());
    assert(64 * a.len() >= s.len()) by (nonlinear_arith)
        requires
            a.len() == (s.len() + 63) / 64,
    ;
    lemma_past_the_end(s, t, 64 * a.len());
}

/// A signature is at Hamming distance zero from itself.
pub proof fn lemma_hamming_self_zero(s: Seq<bool>, a: Seq<u64>)
    requires
        encodes(a, s),
    ensures
        hamming(a, a, a.len()) == 0,
{
    lemma_hamming_counts_sign_flips(s, s, a, a);
    lemma_no_difference(s, s.len());
}

/// Flipping the sign of one component moves the signature by exactly one bit.
pub proof fn lemma_single_flip_distance_one(s: Seq<bool>, i: int, a: Seq<u64>, b: Seq<u64>)
    requires
        0 <= i < s.len(),
        encodes(a, s),
        encodes(b, s.update(i, !s[i])),
    ensures
        hamming(a, b, a.len()) == 1,
{
    lemma_hamming_counts_sign_flips(s, s.update(i, !s[i]), a, b);
    lemma_one_difference(s, i, s.len());
}

proof fn lemma_no_ones_in_self_xor(x: u64, k: nat)
    requires
        k <= 64,
    ensures
        ones_among(x ^ x, k) == 0,
    decreases k,
{
    if k > 0 {
        lemma_no_ones_in_self_xor(x, (k - 1) as nat);
        lemma_xor_bit(x, x, (k - 1) as u64);
    }
}

proof fn lemma_hamming_self_prefix(a: Seq<u64>, n: nat)
    requires
        n <= a.len(),
    ensures
        hamming(a, a, n) == 0,
    decreases n,
{
    if n > 0 {
        lemma_hamming_self_prefix(a, (n - 1) as nat);
        lemma_no_ones_in_self_xor(a[n - 1], 64);
    }
}

/// Any sequence of words is at Hamming distance zero from itself.
pub proof fn lemma_hamming_between_self(a: Seq<u64>)
    ensures
        hamming_between(a, a) == 0,
{
    lemma_hamming_self_prefix(a, a.len());
}

} // verus!
