//! The combination search over word groups and the expansion of each
//! abstract solution into concrete sentences.

use vstd::prelude::*;
use crate::groups::{lines, spelled_earlier, WordGroup};
use crate::profile::{
    add_in_place, fits, fits_inside, lemma_letter_count_concat, lemma_sum_prefix_le,
    lemma_sum_prefix_sub, lemma_sum_prefix_zero, lemma_sum_prefix_zero_converse, letter_count,
    letter_index, subtract_in_place, sum_prefix, weight,
};

verus! {

/// Receives sentences one at a time, as the search finds them.
pub trait Emit {
    /// Takes the next sentence.
    fn emit(&mut self, sentence: Vec<u8>);
}

impl Emit for Vec<Vec<u8>> {
    fn emit(&mut self, sentence: Vec<u8>) {
        self.push(sentence);
    }
}

/// A sink together with the record of every sentence handed to it, in
/// order.
pub struct Recorder<S> {
    pub sink: S,
    pub log: Ghost<Seq<Seq<u8>>>,
}

impl<S: Emit> Recorder<S> {
    /// A recorder that has handed nothing to `sink` yet.
    pub fn new(sink: S) -> (r: Self)
        ensures
            r.log@ == Seq::<Seq<u8>>::empty(),
            r.sink == sink,
    {
        Recorder { sink, log: Ghost(Seq::empty()) }
    }

    /// Hands `sentence` to the sink and records it.
    pub fn emit(&mut self, sentence: Vec<u8>)
        ensures
            final(self).log@ == old(self).log@.push(sentence@),
    {
        let ghost v = sentence@;
        self.sink.emit(sentence);
        self.log = Ghost(self.log@.push(v));
    }
}

/// One group of a partial combination, chosen `reps` times in a row.
#[derive(Clone, Copy)]
pub struct RepeatedGroup {
    /// The position of the group in the group list.
    pub group: usize,
    /// How many times the group is chosen.
    pub reps: usize,
}

/// The count of letter `k` that a combination covers: each entry adds its
/// group's count once per repetition.
pub open spec fn combo_count(groups: Seq<WordGroup>, combo: Seq<RepeatedGroup>, k: int) -> int
    decreases combo.len(),
{
    if combo.len() == 0 {
        0
    } else {
        combo_count(groups, combo.drop_last(), k) + combo.last().reps * groups[combo.last().group as int].counts@[k]
    }
}

/// Every group of the list is well formed.
pub open spec fn all_wf(groups: Seq<WordGroup>) -> bool {
    forall|g: int| 0 <= g < groups.len() ==> (#[trigger] groups[g]).wf()
}

/// Every entry of a combination names a group of the list and is chosen at
/// least once.
pub open spec fn combo_wf(groups: Seq<WordGroup>, combo: Seq<RepeatedGroup>) -> bool {
    forall|e: int| 0 <= e < combo.len() ==> (#[trigger] combo[e]).group < groups.len() && combo[e].reps >= 1
}

/// A sentence buffer is empty or ends with the space that follows a word.
pub open spec fn buffer_wf(buffer: Seq<u8>) -> bool {
    buffer.len() == 0 || buffer.last() == 32
}

/// `sentence` is one of the sentences of `out`.
pub open spec fn emitted(out: Seq<Seq<u8>>, sentence: Seq<u8>) -> bool {
    exists|s: int| 0 <= s < out.len() && #[trigger] out[s] == sentence
}

/// The sentences that realise the entries of `combo` from `start` on after
/// `buffer`, in the order of emission: the buffer's own sentence once the
/// entries are used up (none for an empty buffer), else the choices for
/// entry `start`.
pub open spec fn expansion(groups: Seq<WordGroup>, combo: Seq<RepeatedGroup>, start: int, buffer: Seq<u8>) -> Seq<Seq<u8>>
    decreases combo.len() - start + 1, 0int, 0int,
{
    if start >= combo.len() {
        if buffer.len() > 0 {
            seq![buffer.drop_last()]
        } else {
            Seq::empty()
        }
    } else if start < 0 {
        Seq::empty()
    } else {
        choices(groups, combo, start, 0, combo[start].reps as int, buffer)
    }
}

/// The sentences for `reps` more words of the group of entry `start`, taken
/// at non-decreasing positions from `from` on, then the entries after it:
/// all choices that start with the word at `from`, then those that start
/// later (lexicographic order of the positions). A word spelled like an
/// earlier word of its group is passed over, so each multiset of spellings
/// comes once.
pub open spec fn choices(
    groups: Seq<WordGroup>,
    combo: Seq<RepeatedGroup>,
    start: int,
    from: int,
    reps: int,
    buffer: Seq<u8>,
) -> Seq<Seq<u8>>
    decreases combo.len() - start, reps + 1, groups[combo[start].group as int].words@.len() - from,
{
    if start < 0 || start >= combo.len() || reps < 0 || from < 0 {
        Seq::empty()
    } else if reps == 0 {
        expansion(groups, combo, start + 1, buffer)
    } else if from >= groups[combo[start].group as int].words@.len() {
        Seq::empty()
    } else if lines(groups[combo[start].group as int].words@).subrange(0, from).contains(
        groups[combo[start].group as int].words@[from]@,
    ) {
        choices(groups, combo, start, from + 1, reps, buffer)
    } else {
        choices(
            groups,
            combo,
            start,
            from,
            reps - 1,
            buffer + groups[combo[start].group as int].words@[from]@ + seq![32u8],
        ) + choices(groups, combo, start, from + 1, reps, buffer)
    }
}

/// `target` with `counts` taken away, slot by slot.
pub open spec fn minus(target: Seq<u8>, counts: Seq<u8>) -> Seq<u8> {
    Seq::new(26, |k: int| (target[k] - counts[k]) as u8)
}

/// `combo` with group `g` chosen once more: the last entry repeated when it
/// is `g`, else a new entry.
pub open spec fn pushed(combo: Seq<RepeatedGroup>, g: usize) -> Seq<RepeatedGroup> {
    if combo.len() > 0 && combo.last().group == g {
        combo.update(combo.len() - 1, RepeatedGroup { group: g, reps: (combo.last().reps + 1) as usize })
    } else {
        combo.push(RepeatedGroup { group: g, reps: 1 })
    }
}

/// The candidates whose signature fits inside `target`, in their order.
pub open spec fn fitting(groups: Seq<WordGroup>, cands: Seq<usize>, target: Seq<u8>) -> Seq<usize>
    decreases cands.len(),
{
    if cands.len() == 0 {
        Seq::empty()
    } else {
        let r = fitting(groups, cands.drop_last(), target);
        if fits(target, groups[cands.last() as int].counts@) {
            r.push(cands.last())
        } else {
            r
        }
    }
}

/// The sentences of the search, in the order of emission: with no letter
/// left, the expansion of the combination; else, for each frontier position
/// in turn, the search after choosing that group, over the part of the
/// frontier from that position on that still fits.
pub open spec fn search(
    groups: Seq<WordGroup>,
    length: int,
    target: Seq<u8>,
    frontier: Seq<usize>,
    combo: Seq<RepeatedGroup>,
    buffer: Seq<u8>,
) -> Seq<Seq<u8>>
    decreases length, frontier.len() + 1,
{
    if length <= 0 {
        expansion(groups, combo, 0, buffer)
    } else {
        search_from(groups, length, target, frontier, 0, combo, buffer)
    }
}

/// The part of `search` that chooses a group at frontier position `i` or
/// later.
pub open spec fn search_from(
    groups: Seq<WordGroup>,
    length: int,
    target: Seq<u8>,
    frontier: Seq<usize>,
    i: int,
    combo: Seq<RepeatedGroup>,
    buffer: Seq<u8>,
) -> Seq<Seq<u8>>
    decreases length, frontier.len() - i,
{
    if i < 0 || i >= frontier.len() || length <= 0 {
        Seq::empty()
    } else {
        let g = frontier[i];
        let w = groups[g as int].len as int;
        let t1 = minus(target, groups[g as int].counts@);
        let rest = search_from(groups, length, target, frontier, i + 1, combo, buffer);
        if 1 <= w <= length {
            search(
                groups,
                length - w,
                t1,
                fitting(groups, frontier.subrange(i, frontier.len() as int), t1),
                pushed(combo, g),
                buffer,
            ) + rest
        } else {
            rest
        }
    }
}

/// Words each followed by a space, one after the other.
pub open spec fn spaced(ws: Seq<Seq<u8>>) -> Seq<u8>
    decreases ws.len(),
{
    if ws.len() == 0 {
        Seq::empty()
    } else {
        spaced(ws.drop_last()) + ws.last() + seq![32u8]
    }
}

/// `w` is a member word of one of the groups.
pub open spec fn group_word(groups: Seq<WordGroup>, w: Seq<u8>) -> bool {
    exists|g: int, x: int| 0 <= g < groups.len() && 0 <= x < groups[g].words@.len() && #[trigger] groups[g].words@[x]@ == w
}

/// `s` is what follows `buffer` when group words are appended to it, each
/// with a space, without the last space.
pub open spec fn extends_with_words(groups: Seq<WordGroup>, buffer: Seq<u8>, s: Seq<u8>) -> bool {
    exists|ws: Seq<Seq<u8>>|
        (forall|i: int| 0 <= i < ws.len() ==> group_word(groups, #[trigger] ws[i])) && s.push(32u8) == buffer + #[trigger] spaced(ws)
}

/// Spacing distributes over concatenation.
pub proof fn lemma_spaced_concat(a: Seq<Seq<u8>>, b: Seq<Seq<u8>>)
    ensures
        spaced(a + b) == spaced(a) + spaced(b),
    decreases b.len(),
{
    if b.len() == 0 {
        assert(a + b =~= a);
        assert(spaced(a) + spaced(b) =~= spaced(a));
    } else {
        assert((a + b).drop_last() =~= a + b.drop_last());
        lemma_spaced_concat(a, b.drop_last());
        assert(spaced(a + b) =~= spaced(a) + spaced(b));
    }
}

/// One more word in front of the words that follow a buffer.
proof fn lemma_extends_step(groups: Seq<WordGroup>, b0: Seq<u8>, w: Seq<u8>, s: Seq<u8>)
    requires
        group_word(groups, w),
        extends_with_words(groups, b0 + w + seq![32u8], s),
    ensures
        extends_with_words(groups, b0, s),
{
    let ws1 = choose|ws: Seq<Seq<u8>>|
        (forall|i: int| 0 <= i < ws.len() ==> group_word(groups, #[trigger] ws[i])) && s.push(32u8) == (b0 + w + seq![32u8]) + #[trigger] spaced(ws);
    let ws = seq![w] + ws1;
    lemma_spaced_concat(seq![w], ws1);
    assert(seq![w].drop_last() =~= Seq::<Seq<u8>>::empty());
    assert(seq![w].last() == w);
    assert(spaced(seq![w].drop_last()) == Seq::<u8>::empty());
    assert(spaced(seq![w]) =~= w + seq![32u8]);
    assert(s.push(32u8) =~= b0 + spaced(ws));
    assert forall|i: int| 0 <= i < ws.len() implies group_word(groups, #[trigger] ws[i]) by {
        if i > 0 {
            assert(ws[i] == ws1[i - 1]);
        }
    }
}

/// A sentence stays emitted when more sentences follow.
proof fn lemma_emitted_kept(a: Seq<Seq<u8>>, b: Seq<Seq<u8>>, sentence: Seq<u8>)
    requires
        b.len() <= a.len(),
        a.subrange(0, b.len() as int) == b,
        emitted(b, sentence),
    ensures
        emitted(a, sentence),
{
    let s = choose|s: int| 0 <= s < b.len() && #[trigger] b[s] == sentence;
    assert(a.subrange(0, b.len() as int)[s] == b[s]);
    assert(a[s] == sentence);
}

/// The counts of a combination add up over concatenation.
pub proof fn lemma_combo_count_concat(groups: Seq<WordGroup>, c1: Seq<RepeatedGroup>, c2: Seq<RepeatedGroup>, k: int)
    ensures
        combo_count(groups, c1 + c2, k) == combo_count(groups, c1, k) + combo_count(groups, c2, k),
    decreases c2.len(),
{
    if c2.len() == 0 {
        assert(c1 + c2 =~= c1);
    } else {
        assert((c1 + c2).drop_last() =~= c1 + c2.drop_last());
        lemma_combo_count_concat(groups, c1, c2.drop_last(), k);
    }
}

/// The combination from `start` on is its first entry followed by the rest.
proof fn lemma_combo_count_first(groups: Seq<WordGroup>, combo: Seq<RepeatedGroup>, start: int, k: int)
    requires
        0 <= start < combo.len(),
    ensures
        combo_count(groups, combo.subrange(start, combo.len() as int), k) == combo[start].reps
            * groups[combo[start].group as int].counts@[k] + combo_count(
            groups,
            combo.subrange(start + 1, combo.len() as int),
            k,
        ),
{
    let first = seq![combo[start]];
    let rest = combo.subrange(start + 1, combo.len() as int);
    assert(combo.subrange(start, combo.len() as int) =~= first + rest);
    lemma_combo_count_concat(groups, first, rest, k);
    assert(first.drop_last() =~= Seq::<RepeatedGroup>::empty());
    assert(combo_count(groups, first.drop_last(), k) == 0);
    assert(first.last() == combo[start]);
}

/// The sentence held in a buffer: the buffer without its trailing space.
fn sentence_of(buffer: &Vec<u8>) -> (s: Vec<u8>)
    requires
        buffer@.len() >= 1,
        buffer@.last() == 32,
    ensures
        s@ == buffer@.drop_last(),
        forall|k: int| 0 <= k < 26 ==> #[trigger] letter_count(s@, k) == letter_count(buffer@, k),
{
    let mut s: Vec<u8> = Vec::new();
    let mut i: usize = 0;
    while i < buffer.len() - 1
        invariant
            i + 1 <= buffer@.len(),
            s@ == buffer@.subrange(0, i as int),
        decreases buffer.len() - i,
    {
        s.push(buffer[i]);
        i = i + 1;
    }
    assert(s@ =~= buffer@.drop_last());
    assert forall|k: int| 0 <= k < 26 implies #[trigger] letter_count(s@, k) == letter_count(buffer@, k) by {
        assert(letter_count(buffer@, k) == letter_count(buffer@.drop_last(), k) + if letter_index(buffer@.last()) == k {
            1nat
        } else {
            0nat
        });
    }
    s
}

/// Appends a word and the space that ends it.
fn append_word(buffer: &mut Vec<u8>, word: &Vec<u8>)
    ensures
        final(buffer)@ == old(buffer)@ + word@ + seq![32u8],
{
    let ghost start = old(buffer)@;
    let mut i: usize = 0;
    while i < word.len()
        invariant
            i <= word@.len(),
            buffer@ == start + word@.subrange(0, i as int),
        decreases word.len() - i,
    {
        buffer.push(word[i]);
        i = i + 1;
        assert(buffer@ =~= start + word@.subrange(0, i as int));
    }
    buffer.push(32);
    assert(buffer@ =~= start + word@ + seq![32u8]);
}

/// Emits every sentence that realises the entries of `combo` from `start`
/// on, after the words already in `buffer`.
pub fn expand_solution<S: Emit>(
    groups: &Vec<WordGroup>,
    combo: &Vec<RepeatedGroup>,
    start: usize,
    buffer: &mut Vec<u8>,
    out: &mut Recorder<S>,
)
    requires
        start <= combo@.len(),
        all_wf(groups@),
        combo_wf(groups@, combo@),
        buffer_wf(old(buffer)@),
    ensures
        final(buffer)@ == old(buffer)@,
        old(out).log@.len() <= final(out).log@.len(),
        final(out).log@.subrange(0, old(out).log@.len() as int) == old(out).log@,
        forall|s: int, k: int|
            old(out).log@.len() <= s < final(out).log@.len() && 0 <= k < 26 ==> #[trigger] letter_count(final(out).log@[s], k)
                == letter_count(old(buffer)@, k) + combo_count(groups@, combo@.subrange(start as int, combo@.len() as int), k),
        forall|s: int|
            old(out).log@.len() <= s < final(out).log@.len() ==> extends_with_words(groups@, old(buffer)@, #[trigger] final(out).log@[s]),
        final(out).log@ == old(out).log@ + expansion(groups@, combo@, start as int, old(buffer)@),
        start == combo@.len() && old(buffer)@.len() == 0 ==> final(out).log@ == old(out).log@,
        start == combo@.len() && old(buffer)@.len() > 0 ==> emitted(final(out).log@, old(buffer)@.drop_last()),
        start + 1 == combo@.len() && combo@[start as int].reps == 1 ==> forall|x: int|
            0 <= x < groups@[combo@[start as int].group as int].words@.len() ==> emitted(
                final(out).log@,
                old(buffer)@ + (#[trigger] groups@[combo@[start as int].group as int].words@[x])@,
            ),
    decreases combo@.len() - start + 1, 0int,
{
    if start == combo.len() {
        if buffer.len() > 0 {
            let s = sentence_of(buffer);
            out.emit(s);
            assert(out.log@[out.log@.len() - 1] == old(buffer)@.drop_last());
            assert(out.log@ =~= old(out).log@ + seq![old(buffer)@.drop_last()]);
            assert(spaced(Seq::<Seq<u8>>::empty()) =~= Seq::<u8>::empty());
            assert(old(buffer)@.drop_last().push(32u8) =~= old(buffer)@ + spaced(Seq::<Seq<u8>>::empty()));
            assert(out.log@.subrange(0, out.log@.len() - 1) =~= old(out).log@);
            assert(combo@.subrange(start as int, combo@.len() as int) =~= Seq::<RepeatedGroup>::empty());
        } else {
            assert(out.log@ =~= old(out).log@ + Seq::<Seq<u8>>::empty());
            assert(out.log@.subrange(0, old(out).log@.len() as int) =~= old(out).log@);
        }
        return;
    }
    let entry = combo[start];
    choose_words(groups, combo, start, 0, entry.reps, buffer, out);
    proof {
        assert forall|s: int, k: int|
            old(out).log@.len() <= s < final(out).log@.len() && 0 <= k < 26 implies #[trigger] letter_count(final(out).log@[s], k)
                == letter_count(old(buffer)@, k) + combo_count(groups@, combo@.subrange(start as int, combo@.len() as int), k) by {
            lemma_combo_count_first(groups@, combo@, start as int, k);
        }
    }
}

/// Chooses `reps` more words of the group of entry `start`, each at a
/// position no smaller than `from` and than the word chosen before it, so
/// that each multiset of words comes once; then expands the entries after
/// `start`.
pub fn choose_words<S: Emit>(
    groups: &Vec<WordGroup>,
    combo: &Vec<RepeatedGroup>,
    start: usize,
    from: usize,
    reps: usize,
    buffer: &mut Vec<u8>,
    out: &mut Recorder<S>,
)
    requires
        start < combo@.len(),
        all_wf(groups@),
        combo_wf(groups@, combo@),
        buffer_wf(old(buffer)@),
    ensures
        final(buffer)@ == old(buffer)@,
        old(out).log@.len() <= final(out).log@.len(),
        final(out).log@.subrange(0, old(out).log@.len() as int) == old(out).log@,
        forall|s: int, k: int|
            old(out).log@.len() <= s < final(out).log@.len() && 0 <= k < 26 ==> #[trigger] letter_count(final(out).log@[s], k)
                == letter_count(old(buffer)@, k) + reps * groups@[combo@[start as int].group as int].counts@[k]
                + combo_count(groups@, combo@.subrange(start + 1, combo@.len() as int), k),
        forall|s: int|
            old(out).log@.len() <= s < final(out).log@.len() ==> extends_with_words(groups@, old(buffer)@, #[trigger] final(out).log@[s]),
        final(out).log@ == old(out).log@ + choices(groups@, combo@, start as int, from as int, reps as int, old(buffer)@),
        reps == 0 && start + 1 == combo@.len() && old(buffer)@.len() > 0 ==> emitted(final(out).log@, old(buffer)@.drop_last()),
        reps == 1 && start + 1 == combo@.len() && from == 0 ==> forall|x: int|
            from <= x < groups@[combo@[start as int].group as int].words@.len() ==> emitted(
                final(out).log@,
                old(buffer)@ + (#[trigger] groups@[combo@[start as int].group as int].words@[x])@,
            ),
    decreases combo@.len() - start, reps + 1,
{
    let n = combo.len();
    if reps == 0 {
        expand_solution(groups, combo, start + 1, buffer, out);
        return;
    }
    let g = combo[start].group;
    let words = &groups[g].words;
    let ghost b0 = old(buffer)@;
    let ghost o0 = old(out).log@;
    let ghost c = groups@[g as int].counts@;
    let ghost rest = combo@.subrange(start + 1, combo@.len() as int);
    let mut i: usize = from;
    while i < words.len()
        invariant
            words == &groups@[g as int].words,
            g == combo@[start as int].group,
            rest == combo@.subrange(start + 1, combo@.len() as int),
            g < groups@.len(),
            c == groups@[g as int].counts@,
            start < combo@.len(),
            all_wf(groups@),
            combo_wf(groups@, combo@),
            0 < reps,
            from <= i,
            buffer@ == b0,
            out.log@ + choices(groups@, combo@, start as int, i as int, reps as int, b0) == o0 + choices(
                groups@,
                combo@,
                start as int,
                from as int,
                reps as int,
                b0,
            ),
            forall|s: int| o0.len() <= s < out.log@.len() ==> extends_with_words(groups@, b0, #[trigger] out.log@[s]),
            reps == 1 && start + 1 == combo@.len() && from == 0 ==> forall|x: int|
                from <= x < i ==> emitted(out.log@, b0 + (#[trigger] groups@[g as int].words@[x])@),
            buffer_wf(b0),
            o0.len() <= out.log@.len(),
            out.log@.subrange(0, o0.len() as int) == o0,
            forall|s: int, k: int|
                o0.len() <= s < out.log@.len() && 0 <= k < 26 ==> #[trigger] letter_count(out.log@[s], k)
                    == letter_count(b0, k) + reps * c[k] + combo_count(groups@, rest, k),
        decreases words.len() - i,
    {
        if spelled_earlier(words, i) {
            proof {
                let wv = lines(words@);
                assert(wv == lines(groups@[g as int].words@));
                if reps == 1 && start + 1 == combo@.len() && from == 0 {
                    assert forall|x: int| from <= x <= i implies emitted(out.log@, b0 + (#[trigger] groups@[g as int].words@[x])@) by {
                        if x == i {
                            let y = choose|y: int| 0 <= y < wv.subrange(0, i as int).len() && wv.subrange(0, i as int)[y] == words@[i as int]@;
                            assert(wv.subrange(0, i as int)[y] == groups@[g as int].words@[y]@);
                        }
                    }
                }
            }
        } else {
            let mark = buffer.len();
            let ghost o1 = out.log@;
            append_word(buffer, &words[i]);
            let ghost b1 = buffer@;
            choose_words(groups, combo, start, i, reps - 1, buffer, out);
            buffer.truncate(mark);
            assert(buffer@ =~= b0);
            proof {
                assert(groups@[g as int].wf());
                let w = words@[i as int]@;
                assert forall|s: int, k: int|
                    o0.len() <= s < out.log@.len() && 0 <= k < 26 implies #[trigger] letter_count(out.log@[s], k)
                        == letter_count(b0, k) + reps * c[k] + combo_count(groups@, rest, k) by {
                    if s < o1.len() {
                        assert(out.log@.subrange(0, o1.len() as int)[s] == o1[s]);
                        assert(out.log@[s] == o1[s]);
                        assert(letter_count(o1[s], k) == letter_count(b0, k) + reps * c[k] + combo_count(groups@, rest, k));
                    } else {
                        assert(letter_count(out.log@[s], k) == letter_count(b1, k) + (reps - 1) * c[k] + combo_count(groups@, rest, k));
                        assert(b1 == b0 + w + seq![32u8]);
                        lemma_letter_count_concat(b0 + w, seq![32u8], k);
                        lemma_letter_count_concat(b0, w, k);
                        assert(seq![32u8].drop_last() =~= Seq::<u8>::empty());
                        assert(letter_count(w, k) == c[k]);
                        assert((reps - 1) * c[k] + c[k] == reps * c[k]) by (nonlinear_arith);
                        assert(seq![32u8].last() == 32u8);
                        assert(letter_count(seq![32u8].drop_last(), k) == 0);
                        assert(letter_count(seq![32u8], k) == 0);
                        assert(letter_count(b1, k) == letter_count(b0, k) + c[k]);
                    }
                }
                assert(out.log@.subrange(0, o0.len() as int) =~= o0) by {
                    assert(out.log@.subrange(0, o1.len() as int) == o1);
                    assert forall|j: int| 0 <= j < o0.len() implies out.log@[j] == o0[j] by {
                        assert(out.log@.subrange(0, o1.len() as int)[j] == o1[j]);
                        assert(o1.subrange(0, o0.len() as int)[j] == o0[j]);
                    }
                }
                assert forall|s: int| o0.len() <= s < out.log@.len() implies extends_with_words(groups@, b0, #[trigger] out.log@[s]) by {
                    if s < o1.len() {
                        assert(out.log@.subrange(0, o1.len() as int)[s] == o1[s]);
                    } else {
                        assert(group_word(groups@, w)) by {
                            assert(groups@[g as int].words@[i as int]@ == w);
                        }
                        lemma_extends_step(groups@, b0, w, out.log@[s]);
                    }
                }
                assert(choices(groups@, combo@, start as int, i as int, reps as int, b0) == choices(
                    groups@,
                    combo@,
                    start as int,
                    i as int,
                    reps - 1,
                    b1,
                ) + choices(groups@, combo@, start as int, i + 1, reps as int, b0));
                assert(out.log@ + choices(groups@, combo@, start as int, i + 1, reps as int, b0) =~= o1 + choices(
                    groups@,
                    combo@,
                    start as int,
                    i as int,
                    reps as int,
                    b0,
                ));
                if reps == 1 && start + 1 == combo@.len() && from == 0 {
                    assert forall|x: int| from <= x <= i implies emitted(out.log@, b0 + (#[trigger] groups@[g as int].words@[x])@) by {
                        if x < i {
                            lemma_emitted_kept(out.log@, o1, b0 + groups@[g as int].words@[x]@);
                        } else {
                            assert(b1.drop_last() =~= b0 + w);
                        }
                    }
                }
            }
        }
        i = i + 1;
    }
    assert(out.log@ =~= o0 + choices(groups@, combo@, start as int, from as int, reps as int, b0)) by {
        assert(choices(groups@, combo@, start as int, i as int, reps as int, b0) =~= Seq::<Seq<u8>>::empty());
    }
}

/// The frontier is a list of positions of groups that fit inside `target`.
pub open spec fn frontier_wf(groups: Seq<WordGroup>, frontier: Seq<usize>, target: Seq<u8>) -> bool {
    forall|j: int| 0 <= j < frontier.len() ==> (#[trigger] frontier[j]) < groups.len() && fits(target, groups[frontier[j] as int].counts@)
}

/// Adds `gi` to the end of a combination: one more repetition when the last
/// entry is that same group, else a new entry.
fn push_group(combo: &mut Vec<RepeatedGroup>, gi: usize, Ghost(bound): Ghost<int>)
    requires
        forall|e: int| 0 <= e < old(combo)@.len() ==> (#[trigger] old(combo)@[e]).reps + bound <= usize::MAX,
        bound >= 1,
    ensures
        final(combo)@ == pushed(old(combo)@, gi),
        final(combo)@.len() >= 1,
        final(combo)@.last().group == gi,
        ({
            let n = old(combo)@.len();
            ||| (n > 0 && old(combo)@.last().group == gi && final(combo)@ == old(combo)@.update(
                n - 1,
                RepeatedGroup { group: gi, reps: (old(combo)@.last().reps + 1) as usize },
            ))
            ||| (final(combo)@ == old(combo)@.push(RepeatedGroup { group: gi, reps: 1 }))
        }),
{
    let n = combo.len();
    if n > 0 && combo[n - 1].group == gi {
        combo[n - 1].reps = combo[n - 1].reps + 1;
    } else {
        combo.push(RepeatedGroup { group: gi, reps: 1 });
    }
}

/// Undoes `push_group`: one repetition fewer of the last entry, or the entry
/// removed when it was chosen once.
fn pop_group(combo: &mut Vec<RepeatedGroup>)
    requires
        old(combo)@.len() >= 1,
    ensures
        old(combo)@.last().reps > 1 ==> final(combo)@ == old(combo)@.update(
            old(combo)@.len() - 1,
            RepeatedGroup { group: old(combo)@.last().group, reps: (old(combo)@.last().reps - 1) as usize },
        ),
        old(combo)@.last().reps <= 1 ==> final(combo)@ == old(combo)@.drop_last(),
{
    let n = combo.len();
    if combo[n - 1].reps > 1 {
        combo[n - 1].reps = combo[n - 1].reps - 1;
    } else {
        combo.pop();
    }
}

/// Choosing group `gi` once more adds its counts to the combination's.
proof fn lemma_push_group_count(groups: Seq<WordGroup>, c0: Seq<RepeatedGroup>, c1: Seq<RepeatedGroup>, gi: usize, k: int)
    requires
        ({
            let n = c0.len();
            ||| (n > 0 && c0.last().group == gi && c1 == c0.update(
                n - 1,
                RepeatedGroup { group: gi, reps: (c0.last().reps + 1) as usize },
            ))
            ||| (c1 == c0.push(RepeatedGroup { group: gi, reps: 1 }))
        }),
        c0.len() > 0 ==> c0.last().reps < usize::MAX,
    ensures
        combo_count(groups, c1, k) == combo_count(groups, c0, k) + groups[gi as int].counts@[k],
{
    let x = groups[gi as int].counts@[k] as int;
    if c1 == c0.push(RepeatedGroup { group: gi, reps: 1 }) {
        assert(c1.drop_last() =~= c0);
        assert(c1.last().reps == 1);
    } else {
        let n = c0.len();
        let r = c0.last().reps as int;
        assert(c1.drop_last() =~= c0.drop_last());
        assert(c1.last().reps as int == r + 1);
        assert(c1.last().group == gi);
        assert((r + 1) * x == r * x + x) by (nonlinear_arith);
        assert(combo_count(groups, c1, k) == combo_count(groups, c0.drop_last(), k) + (r + 1) * x);
        assert(combo_count(groups, c0, k) == combo_count(groups, c0.drop_last(), k) + r * x);
    }
}

/// Taking a group's signature `reps` times out of a target takes `reps`
/// times the group's weight out of the target's weight, and what is left
/// weighs nothing exactly when no letter is left, that is when the chosen
/// groups cover the target.
pub proof fn lemma_weight_conservation(target: Seq<u8>, counts: Seq<u8>, reps: nat, rest: Seq<u8>)
    requires
        target.len() == 26,
        counts.len() == 26,
        rest.len() == 26,
        forall|k: int| 0 <= k < 26 ==> #[trigger] rest[k] == target[k] - reps * counts[k],
    ensures
        weight(rest) == weight(target) - reps * weight(counts),
        weight(rest) == 0 <==> forall|k: int| 0 <= k < 26 ==> #[trigger] rest[k] == 0,
{
    lemma_sum_prefix_scaled_sub(target, counts, reps, rest, 26);
    if weight(rest) == 0 {
        lemma_sum_prefix_zero(rest, 26);
    }
    if forall|k: int| 0 <= k < 26 ==> #[trigger] rest[k] == 0 {
        lemma_sum_prefix_zero_converse(rest, 26);
    }
}

proof fn lemma_sum_prefix_scaled_sub(target: Seq<u8>, counts: Seq<u8>, reps: nat, rest: Seq<u8>, n: int)
    requires
        0 <= n <= 26,
        target.len() == 26,
        counts.len() == 26,
        rest.len() == 26,
        forall|k: int| 0 <= k < 26 ==> #[trigger] rest[k] == target[k] - reps * counts[k],
    ensures
        sum_prefix(rest, n) == sum_prefix(target, n) - reps * sum_prefix(counts, n),
    decreases n,
{
    if n > 0 {
        lemma_sum_prefix_scaled_sub(target, counts, reps, rest, n - 1);
        let a = sum_prefix(counts, n - 1);
        let b = counts[n - 1] as int;
        assert(rest[n - 1] == target[n - 1] - reps * counts[n - 1]);
        assert(reps * (a + b) == reps * a + reps * b) by (nonlinear_arith);
    }
}

/// Finds every way to cover `target` with the groups of `frontier`, taken
/// with repetition in frontier order, and emits each one, after the
/// combination already chosen, through the expander. The next level's
/// frontier is the part of the current one from the chosen group on that
/// still fits, so each multiset of groups is found along one path only.
/// `target` and `combo` are given back as they came.
pub fn find_anagrams<S: Emit>(
    groups: &Vec<WordGroup>,
    target: &mut [u8; 26],
    length: usize,
    frontier: &Vec<usize>,
    combo: &mut Vec<RepeatedGroup>,
    buffer: &mut Vec<u8>,
    out: &mut Recorder<S>,
)
    requires
        all_wf(groups@),
        length as int == weight(old(target)@),
        frontier_wf(groups@, frontier@, old(target)@),
        combo_wf(groups@, old(combo)@),
        forall|e: int| 0 <= e < old(combo)@.len() ==> (#[trigger] old(combo)@[e]).reps + length <= usize::MAX,
        buffer_wf(old(buffer)@),
    ensures
        final(target)@ == old(target)@,
        final(combo)@ == old(combo)@,
        final(buffer)@ == old(buffer)@,
        old(out).log@.len() <= final(out).log@.len(),
        final(out).log@.subrange(0, old(out).log@.len() as int) == old(out).log@,
        forall|s: int, k: int|
            old(out).log@.len() <= s < final(out).log@.len() && 0 <= k < 26 ==> #[trigger] letter_count(final(out).log@[s], k)
                == letter_count(old(buffer)@, k) + combo_count(groups@, old(combo)@, k) + old(target)@[k],
        forall|s: int|
            old(out).log@.len() <= s < final(out).log@.len() ==> extends_with_words(groups@, old(buffer)@, #[trigger] final(out).log@[s]),
        final(out).log@ == old(out).log@ + search(
            groups@,
            length as int,
            old(target)@,
            frontier@,
            old(combo)@,
            old(buffer)@,
        ),
        length == 0 && old(combo)@.len() == 0 && old(buffer)@.len() == 0 ==> final(out).log@ == old(out).log@,
        length > 0 && frontier@.len() == 0 ==> final(out).log@ == old(out).log@,
        length == 0 && old(combo)@.len() == 1 && old(combo)@[0].reps == 1 ==> forall|x: int|
            0 <= x < groups@[old(combo)@[0].group as int].words@.len() ==> emitted(
                final(out).log@,
                old(buffer)@ + (#[trigger] groups@[old(combo)@[0].group as int].words@[x])@,
            ),
        old(combo)@.len() == 0 && old(buffer)@.len() == 0 ==> forall|j: int, x: int|
            0 <= j < frontier@.len() && groups@[frontier@[j] as int].counts@ == old(target)@ && 0 <= x
                < groups@[frontier@[j] as int].words@.len() ==> emitted(
                final(out).log@,
                (#[trigger] groups@[frontier@[j] as int].words@[x])@,
            ),
    decreases length,
{
    if length == 0 {
        proof {
            lemma_sum_prefix_zero(target@, 26);
        }
        expand_solution(groups, combo, 0, buffer, out);
        assert(combo@.subrange(0, combo@.len() as int) =~= combo@);
        return;
    }
    let ghost t0 = target@;
    let ghost c0 = combo@;
    let ghost b0 = buffer@;
    let ghost o0 = out.log@;
    let mut next: Vec<usize> = Vec::new();
    let mut i: usize = 0;
    while i < frontier.len()
        invariant
            all_wf(groups@),
            length > 0,
            length as int == weight(t0),
            frontier_wf(groups@, frontier@, t0),
            combo_wf(groups@, c0),
            forall|e: int| 0 <= e < c0.len() ==> (#[trigger] c0[e]).reps + length <= usize::MAX,
            buffer_wf(b0),
            target@ == t0,
            combo@ == c0,
            buffer@ == b0,
            o0.len() <= out.log@.len(),
            out.log@.subrange(0, o0.len() as int) == o0,
            frontier@.len() == 0 ==> out.log@ == o0,
            i <= frontier@.len(),
            out.log@ + search_from(groups@, length as int, t0, frontier@, i as int, c0, b0) == o0 + search_from(
                groups@,
                length as int,
                t0,
                frontier@,
                0,
                c0,
                b0,
            ),
            forall|s: int| o0.len() <= s < out.log@.len() ==> extends_with_words(groups@, b0, #[trigger] out.log@[s]),
            c0.len() == 0 && b0.len() == 0 ==> forall|j: int, x: int|
                0 <= j < i && groups@[frontier@[j] as int].counts@ == t0 && 0 <= x
                    < groups@[frontier@[j] as int].words@.len() ==> emitted(
                    out.log@,
                    (#[trigger] groups@[frontier@[j] as int].words@[x])@,
                ),
            forall|s: int, k: int|
                o0.len() <= s < out.log@.len() && 0 <= k < 26 ==> #[trigger] letter_count(out.log@[s], k)
                    == letter_count(b0, k) + combo_count(groups@, c0, k) + t0[k],
        decreases frontier.len() - i,
    {
        let gi = frontier[i];
        let wg = &groups[gi];
        let ghost c = wg.counts@;
        assert(groups@[gi as int].wf());
        subtract_in_place(target, &wg.counts);
        let ghost t1 = target@;
        assert(t1 =~= minus(t0, c));
        proof {
            lemma_sum_prefix_le(t0, c, 26);
            lemma_sum_prefix_sub(t0, c, t1, 26);
        }
        push_group(combo, gi, Ghost(length as int));
        let ghost c1 = combo@;
        next.clear();
        let mut j: usize = i;
        assert(frontier@.subrange(i as int, i as int) =~= Seq::<usize>::empty());
        while j < frontier.len()
            invariant
                i <= j <= frontier@.len(),
                next@ == fitting(groups@, frontier@.subrange(i as int, j as int), t1),
                t1 == target@,
                frontier_wf(groups@, frontier@, t0),
                frontier_wf(groups@, next@, t1),
            decreases frontier.len() - j,
        {
            let g2 = frontier[j];
            assert(frontier@.subrange(i as int, j + 1).drop_last() =~= frontier@.subrange(i as int, j as int));
            if fits_inside(target, &groups[g2].counts) {
                next.push(g2);
            }
            j = j + 1;
        }
        proof {
            assert forall|e: int| 0 <= e < c1.len() implies (#[trigger] c1[e]).group < groups@.len() && c1[e].reps >= 1
                && c1[e].reps + (length - wg.len) <= usize::MAX by {
                if e < c0.len() {
                    assert(c0[e].reps + length <= usize::MAX);
                }
            }
            assert forall|k: int| 0 <= k < 26 implies combo_count(groups@, c1, k) == combo_count(groups@, c0, k) + c[k] by {
                if c0.len() > 0 {
                    assert(c0[c0.len() - 1].reps + length <= usize::MAX);
                }
                lemma_push_group_count(groups@, c0, c1, gi, k);
            }
        }
        let ghost o1 = out.log@;
        let ghost next_v = next@;
        find_anagrams(groups, target, length - wg.len, &next, combo, buffer, out);
        assert(search_from(groups@, length as int, t0, frontier@, i as int, c0, b0) == search(
            groups@,
            length - wg.len,
            t1,
            next_v,
            c1,
            b0,
        ) + search_from(groups@, length as int, t0, frontier@, i + 1, c0, b0));
        assert(out.log@ + search_from(groups@, length as int, t0, frontier@, i + 1, c0, b0) =~= o1
            + search_from(groups@, length as int, t0, frontier@, i as int, c0, b0));
        pop_group(combo);
        assert(combo@ =~= c0);
        add_in_place(target, &wg.counts);
        assert(target@ =~= t0);
        proof {
            assert forall|s: int, k: int|
                o0.len() <= s < out.log@.len() && 0 <= k < 26 implies #[trigger] letter_count(out.log@[s], k)
                    == letter_count(b0, k) + combo_count(groups@, c0, k) + t0[k] by {
                if s < o1.len() {
                    assert(out.log@.subrange(0, o1.len() as int)[s] == o1[s]);
                } else {
                    assert(letter_count(out.log@[s], k) == letter_count(b0, k) + combo_count(groups@, c1, k) + t1[k]);
                }
            }
            assert(out.log@.subrange(0, o0.len() as int) =~= o0) by {
                assert forall|j: int| 0 <= j < o0.len() implies out.log@[j] == o0[j] by {
                    assert(out.log@.subrange(0, o1.len() as int)[j] == o1[j]);
                    assert(o1.subrange(0, o0.len() as int)[j] == o0[j]);
                }
            }
            assert forall|s: int| o0.len() <= s < out.log@.len() implies extends_with_words(groups@, b0, #[trigger] out.log@[s]) by {
                if s < o1.len() {
                    assert(out.log@.subrange(0, o1.len() as int)[s] == o1[s]);
                }
            }
            if c0.len() == 0 && b0.len() == 0 {
                assert forall|j: int, x: int|
                    0 <= j <= i && groups@[frontier@[j] as int].counts@ == t0 && 0 <= x
                        < groups@[frontier@[j] as int].words@.len() implies emitted(
                        out.log@,
                        (#[trigger] groups@[frontier@[j] as int].words@[x])@,
                    ) by {
                    let w = groups@[frontier@[j] as int].words@[x]@;
                    if j < i {
                        lemma_emitted_kept(out.log@, o1, w);
                    } else {
                        assert(c1 == c0.push(RepeatedGroup { group: gi, reps: 1 }));
                        assert(c1[0].group == gi);
                        assert(c == t0);
                        assert(weight(c) == weight(t0));
                        assert(b0 + w =~= w);
                    }
                }
            }
        }
        i = i + 1;
    }
}

} // verus!
