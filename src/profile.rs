//! Letter profiles: 26 counts, one per ASCII letter, case folded.

use vstd::prelude::*;
use vstd::string::StringSliceAdditionalSpecFns;

verus! {

/// The letter slot of a byte: `a`..`z` and `A`..`Z` map to 0..25, any other
/// byte to -1.
pub open spec fn letter_index(b: u8) -> int {
    if 97 <= b && b <= 122 {
        b - 97
    } else if 65 <= b && b <= 90 {
        b - 65
    } else {
        -1
    }
}

/// How many bytes of `s` are the letter in slot `k`.
pub open spec fn letter_count(s: Seq<u8>, k: int) -> nat
    decreases s.len(),
{
    if s.len() == 0 {
        0
    } else {
        letter_count(s.drop_last(), k) + if letter_index(s.last()) == k {
            1nat
        } else {
            0nat
        }
    }
}

/// `p` holds the letter counts of `s`.
pub open spec fn is_profile_of(p: Seq<u8>, s: Seq<u8>) -> bool {
    &&& p.len() == 26
    &&& forall|k: int| 0 <= k < 26 ==> #[trigger] p[k] == letter_count(s, k)
}

/// No letter of `s` occurs more than 255 times, so its profile fits in bytes.
pub open spec fn counts_fit_bytes(s: Seq<u8>) -> bool {
    forall|k: int| 0 <= k < 26 ==> #[trigger] letter_count(s, k) <= 255
}

/// Every count of `candidate` is at most the matching count of `container`.
pub open spec fn fits(container: Seq<u8>, candidate: Seq<u8>) -> bool {
    forall|i: int| 0 <= i < 26 ==> #[trigger] candidate[i] <= container[i]
}

/// The sum of the first `n` counts of `p`.
pub open spec fn sum_prefix(p: Seq<u8>, n: int) -> int
    decreases n,
{
    if n <= 0 {
        0
    } else {
        sum_prefix(p, n - 1) + p[n - 1]
    }
}

/// The total letter count of a profile.
pub open spec fn weight(p: Seq<u8>) -> int {
    sum_prefix(p, 26)
}

/// Letter counts add up over concatenation.
pub proof fn lemma_letter_count_concat(s1: Seq<u8>, s2: Seq<u8>, k: int)
    ensures
        letter_count(s1 + s2, k) == letter_count(s1, k) + letter_count(s2, k),
    decreases s2.len(),
{
    if s2.len() == 0 {
        assert(s1 + s2 =~= s1);
    } else {
        assert((s1 + s2).drop_last() =~= s1 + s2.drop_last());
        lemma_letter_count_concat(s1, s2.drop_last(), k);
    }
}

/// Letter counts of a prefix never exceed those of the whole.
pub proof fn lemma_letter_count_prefix(s: Seq<u8>, n: int, k: int)
    requires
        0 <= n <= s.len(),
    ensures
        letter_count(s.subrange(0, n), k) <= letter_count(s, k),
{
    lemma_letter_count_concat(s.subrange(0, n), s.subrange(n, s.len() as int), k);
    assert(s.subrange(0, n) + s.subrange(n, s.len() as int) =~= s);
}

/// Sums of prefixes are monotone under pointwise order.
pub proof fn lemma_sum_prefix_le(a: Seq<u8>, b: Seq<u8>, n: int)
    requires
        0 <= n <= 26,
        a.len() == 26,
        b.len() == 26,
        fits(a, b),
    ensures
        sum_prefix(b, n) <= sum_prefix(a, n),
    decreases n,
{
    if n > 0 {
        lemma_sum_prefix_le(a, b, n - 1);
        assert(b[n - 1] <= a[n - 1]);
    }
}

/// Sums of prefixes of a pointwise difference are differences of sums.
pub proof fn lemma_sum_prefix_sub(a: Seq<u8>, b: Seq<u8>, c: Seq<u8>, n: int)
    requires
        0 <= n <= 26,
        a.len() == 26,
        b.len() == 26,
        c.len() == 26,
        forall|i: int| 0 <= i < 26 ==> #[trigger] c[i] == a[i] - b[i],
    ensures
        sum_prefix(c, n) == sum_prefix(a, n) - sum_prefix(b, n),
    decreases n,
{
    if n > 0 {
        lemma_sum_prefix_sub(a, b, c, n - 1);
        assert(c[n - 1] == a[n - 1] - b[n - 1]);
    }
}

/// A prefix of counts summing to zero holds only zeros.
pub proof fn lemma_sum_prefix_zero(p: Seq<u8>, n: int)
    requires
        0 <= n <= p.len(),
        sum_prefix(p, n) == 0,
    ensures
        forall|i: int| 0 <= i < n ==> #[trigger] p[i] == 0,
    decreases n,
{
    if n > 0 {
        lemma_sum_prefix_nonneg(p, n - 1);
        lemma_sum_prefix_zero(p, n - 1);
    }
}

/// A prefix of zeros sums to zero.
pub proof fn lemma_sum_prefix_zero_converse(p: Seq<u8>, n: int)
    requires
        0 <= n <= p.len(),
        forall|i: int| 0 <= i < n ==> #[trigger] p[i] == 0,
    ensures
        sum_prefix(p, n) == 0,
    decreases n,
{
    if n > 0 {
        lemma_sum_prefix_zero_converse(p, n - 1);
    }
}

/// A count vector whose sum is positive has a positive slot.
pub proof fn lemma_positive_slot(p: Seq<u8>)
    requires
        p.len() == 26,
        weight(p) >= 1,
    ensures
        exists|k: int| 0 <= k < 26 && #[trigger] p[k] >= 1,
{
    if forall|k: int| 0 <= k < 26 ==> #[trigger] p[k] < 1 {
        assert forall|k: int| 0 <= k < 26 implies #[trigger] p[k] == 0 by {}
        lemma_sum_prefix_zero_converse(p, 26);
    }
}

/// Sums of counts are never negative.
pub proof fn lemma_sum_prefix_nonneg(p: Seq<u8>, n: int)
    ensures
        sum_prefix(p, n) >= 0,
    decreases n,
{
    if n > 0 {
        lemma_sum_prefix_nonneg(p, n - 1);
    }
}

/// Whether every count of `counts` is at most the matching count of
/// `target_counts`.
pub fn fits_inside(target_counts: &[u8; 26], counts: &[u8; 26]) -> (r: bool)
    ensures
        r == fits(target_counts@, counts@),
{
    let mut i: usize = 0;
    while i < 26
        invariant
            i <= 26,
            forall|j: int| 0 <= j < i ==> #[trigger] counts@[j] <= target_counts@[j],
        decreases 26 - i,
    {
        if counts[i] > target_counts[i] {
            return false;
        }
        i = i + 1;
    }
    true
}

/// The profile of `word`, or `None` when some letter occurs in `word` more
/// often than `bound` allows; this is the test that admits a dictionary word.
pub fn profile_if_fits(word: &[u8], bound: &[u8; 26]) -> (r: Option<[u8; 26]>)
    ensures
        r.is_some() <==> forall|k: int| 0 <= k < 26 ==> #[trigger] letter_count(word@, k) <= bound@[k],
        r matches Some(p) ==> is_profile_of(p@, word@),
{
    let mut counts = [0u8; 26];
    let mut i: usize = 0;
    assert(word@.subrange(0, 0) =~= Seq::<u8>::empty());
    while i < word.len()
        invariant
            i <= word@.len(),
            is_profile_of(counts@, word@.subrange(0, i as int)),
            forall|k: int| 0 <= k < 26 ==> #[trigger] counts@[k] <= bound@[k],
        decreases word.len() - i,
    {
        let b = word[i];
        let ghost pre = word@.subrange(0, i as int);
        let ghost next = word@.subrange(0, i + 1);
        assert(next.drop_last() =~= pre);
        assert(next.last() == b);
        let slot: usize = if b >= 97 && b <= 122 {
            (b - 97) as usize
        } else if b >= 65 && b <= 90 {
            (b - 65) as usize
        } else {
            26
        };
        if slot < 26 {
            if counts[slot] >= bound[slot] {
                proof {
                    lemma_letter_count_prefix(word@, i + 1, slot as int);
                    assert(letter_count(word@, slot as int) > bound@[slot as int]);
                }
                return None;
            }
            counts[slot] = counts[slot] + 1;
        }
        i = i + 1;
    }
    assert(word@.subrange(0, word@.len() as int) =~= word@);
    assert forall|k: int| 0 <= k < 26 implies #[trigger] letter_count(word@, k) <= bound@[k] by {
        assert(counts@[k] == letter_count(word@, k));
    }
    Some(counts)
}

/// The profile of a byte string; bytes that are no ASCII letter are skipped.
pub fn get_letter_counts_bytes(word: &[u8]) -> (counts: [u8; 26])
    requires
        counts_fit_bytes(word@),
    ensures
        is_profile_of(counts@, word@),
{
    let bound = [255u8; 26];
    match profile_if_fits(word, &bound) {
        Some(p) => p,
        None => {
            proof {
                let k = choose|k: int| 0 <= k < 26 && !(#[trigger] letter_count(word@, k) <= bound@[k]);
                assert(letter_count(word@, k) <= 255);
            }
            [0u8; 26]
        },
    }
}

/// The profile of a text, counted over its UTF-8 bytes: the bytes of a
/// character outside ASCII are no letter.
pub fn get_letter_counts(word: &str) -> (counts: [u8; 26])
    requires
        counts_fit_bytes(word.spec_bytes()),
    ensures
        is_profile_of(counts@, word.spec_bytes()),
{
    get_letter_counts_bytes(word.as_bytes())
}

/// Takes `counts` away from `target`, slot by slot.
pub fn subtract_in_place(target: &mut [u8; 26], counts: &[u8; 26])
    requires
        fits(old(target)@, counts@),
    ensures
        forall|i: int| 0 <= i < 26 ==> #[trigger] final(target)@[i] == old(target)@[i] - counts@[i],
{
    let ghost t0 = old(target)@;
    let mut i: usize = 0;
    while i < 26
        invariant
            i <= 26,
            fits(t0, counts@),
            forall|j: int| 0 <= j < i ==> #[trigger] target@[j] == t0[j] - counts@[j],
            forall|j: int| i <= j < 26 ==> #[trigger] target@[j] == t0[j],
        decreases 26 - i,
    {
        target[i] = target[i] - counts[i];
        i = i + 1;
    }
}

/// Gives `counts` back to `target`, slot by slot.
pub fn add_in_place(target: &mut [u8; 26], counts: &[u8; 26])
    requires
        forall|i: int| 0 <= i < 26 ==> #[trigger] old(target)@[i] + counts@[i] <= 255,
    ensures
        forall|i: int| 0 <= i < 26 ==> #[trigger] final(target)@[i] == old(target)@[i] + counts@[i],
{
    let ghost t0 = old(target)@;
    let mut i: usize = 0;
    while i < 26
        invariant
            i <= 26,
            forall|j: int| 0 <= j < 26 ==> #[trigger] t0[j] + counts@[j] <= 255,
            forall|j: int| 0 <= j < i ==> #[trigger] target@[j] == t0[j] + counts@[j],
            forall|j: int| i <= j < 26 ==> #[trigger] target@[j] == t0[j],
        decreases 26 - i,
    {
        target[i] = target[i] + counts[i];
        i = i + 1;
    }
}

/// The total letter count of a profile.
pub fn profile_weight(counts: &[u8; 26]) -> (r: usize)
    ensures
        r as int == weight(counts@),
{
    let mut sum: usize = 0;
    let mut i: usize = 0;
    while i < 26
        invariant
            i <= 26,
            sum as int == sum_prefix(counts@, i as int),
            sum <= 255 * i,
        decreases 26 - i,
    {
        sum = sum + counts[i] as usize;
        i = i + 1;
    }
    sum
}

} // verus!
