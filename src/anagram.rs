//! The whole run: from a dictionary and a phrase to the anagram sentences.

use vstd::prelude::*;
use crate::groups::{
    accepted, lines, members, WordGroup, build_map_from_words, build_word_groups_from_map, in_dictionary, in_map,
    order_by_weight,
};
use crate::profile::{
    counts_fit_bytes, fits, get_letter_counts_bytes, is_profile_of, lemma_positive_slot,
    lemma_sum_prefix_zero_converse,
    letter_count, profile_weight, sum_prefix, weight,
};
use crate::search::{
    combo_count, emitted, extends_with_words, find_anagrams, group_word, search, spaced,
    Emit, Recorder, RepeatedGroup,
};

verus! {

/// `phrase` holds no letter at all.
pub open spec fn has_no_letters(phrase: Seq<u8>) -> bool {
    forall|k: int| 0 <= k < 26 ==> #[trigger] letter_count(phrase, k) == 0
}

/// The profile of a phrase as a sequence of 26 counts.
pub open spec fn phrase_profile(phrase: Seq<u8>) -> Seq<u8> {
    Seq::new(26, |k: int| letter_count(phrase, k) as u8)
}

/// `groups` gathers the accepted words of `dictionary`: each group is well
/// formed, fits inside `target` and lists exactly the dictionary words of its
/// signature (in dictionary order, repeated spellings kept); signatures differ;
/// every accepted word has its group.
pub open spec fn groups_of(groups: Seq<WordGroup>, dictionary: Seq<Vec<u8>>, target: Seq<u8>) -> bool {
    &&& forall|g: int|
        0 <= g < groups.len() ==> {
            &&& (#[trigger] groups[g]).wf()
            &&& fits(target, groups[g].counts@)
            &&& lines(groups[g].words@) == members(lines(dictionary), groups[g].counts@)
        }
    &&& forall|a: int, b: int| 0 <= a < b < groups.len() ==> #[trigger] groups[a].counts@ != #[trigger] groups[b].counts@
    &&& forall|i: int|
        0 <= i < dictionary.len() && accepted(#[trigger] dictionary[i]@, target) ==> exists|g: int|
            0 <= g < groups.len() && is_profile_of(#[trigger] groups[g].counts@, dictionary[i]@)
}

/// `order` lists every group position once, heaviest group first, groups of
/// equal weight in their own order.
pub open spec fn heaviest_first(groups: Seq<WordGroup>, order: Seq<usize>) -> bool {
    &&& forall|j: int| 0 <= j < order.len() ==> #[trigger] order[j] < groups.len()
    &&& forall|a: int, b: int| 0 <= a < b < order.len() ==> #[trigger] order[a] != #[trigger] order[b]
    &&& forall|a: int, b: int| 0 <= a < b < order.len() ==> groups[order[a] as int].len >= groups[order[b] as int].len
    &&& forall|a: int, b: int|
        0 <= a < b < order.len() && groups[order[a] as int].len == groups[order[b] as int].len ==> #[trigger] order[a]
            < #[trigger] order[b]
    &&& forall|g: int| 0 <= g < groups.len() ==> #[trigger] order.contains(g as usize)
}

/// `sentence` has the letters of `phrase`, each as often.
pub open spec fn same_letters(sentence: Seq<u8>, phrase: Seq<u8>) -> bool {
    forall|k: int| 0 <= k < 26 ==> #[trigger] letter_count(sentence, k) == letter_count(phrase, k)
}

/// `sentence` is dictionary words joined by single spaces.
pub open spec fn joins_dictionary_words(dictionary: Seq<Vec<u8>>, sentence: Seq<u8>) -> bool {
    exists|ws: Seq<Seq<u8>>|
        (forall|i: int| 0 <= i < ws.len() ==> in_dictionary(dictionary, #[trigger] ws[i])) && sentence.push(32u8)
            == #[trigger] spaced(ws)
}

/// Hands to `sink`, as they are found, every multiword anagram of `phrase`
/// made of dictionary words, one
/// sentence per multiset of distinct dictionary spellings, its words joined by
/// single spaces.
/// Groups of words come heaviest first; the words of a group in dictionary
/// order.
pub fn write_anagrams<S: Emit>(dictionary: &Vec<Vec<u8>>, phrase: &[u8], sink: &mut Recorder<S>)
    requires
        counts_fit_bytes(phrase@),
    ensures
        exists|groups: Seq<WordGroup>, order: Seq<usize>|
            groups_of(groups, dictionary@, phrase_profile(phrase@)) && heaviest_first(groups, order) && final(sink).log@
                == old(sink).log@ + #[trigger] search(
                groups,
                weight(phrase_profile(phrase@)),
                phrase_profile(phrase@),
                order,
                Seq::empty(),
                Seq::empty(),
            ),
        forall|s: int|
            old(sink).log@.len() <= s < final(sink).log@.len() ==> same_letters(#[trigger] final(sink).log@[s], phrase@),
        forall|s: int|
            old(sink).log@.len() <= s < final(sink).log@.len() ==> joins_dictionary_words(
                dictionary@,
                #[trigger] final(sink).log@[s],
            ),
        has_no_letters(phrase@) ==> final(sink).log@ == old(sink).log@,
        (forall|i: int| 0 <= i < dictionary@.len() ==> !accepted(#[trigger] dictionary@[i]@, phrase_profile(phrase@)))
            ==> final(sink).log@ == old(sink).log@,
        forall|i: int|
            0 <= i < dictionary@.len() && same_letters(#[trigger] dictionary@[i]@, phrase@) && !has_no_letters(phrase@)
                ==> emitted(final(sink).log@, dictionary@[i]@),
{
    let mut target = get_letter_counts_bytes(phrase);
    let length = profile_weight(&target);
    let map = build_map_from_words(dictionary, &target);
    let ghost m = map@;
    let groups = build_word_groups_from_map(map);
    let order = order_by_weight(&groups);
    proof {
        assert(target@ == phrase_profile(phrase@)) by {
            assert(target@ =~= phrase_profile(phrase@));
        }
        assert forall|g: int| 0 <= g < groups@.len() implies (#[trigger] groups@[g]).wf() && fits(
            target@,
            groups@[g].counts@,
        ) by {
            let e = m.len() - 1 - g;
            assert(fits(target@, m[e].0@));
        }
        if m.len() > 0 {
            let entry = m[0];
            assert(in_dictionary(dictionary@, entry.1@[0]@));
            let i = choose|i: int| 0 <= i < dictionary@.len() && #[trigger] dictionary@[i]@ == entry.1@[0]@;
            lemma_positive_slot(entry.0@);
            let k = choose|k: int| 0 <= k < 26 && #[trigger] entry.0@[k] >= 1;
            assert(is_profile_of(entry.0@, entry.1@[0]@));
            assert(letter_count(dictionary@[i]@, k) >= 1);
            assert forall|k2: int| 0 <= k2 < 26 implies #[trigger] letter_count(dictionary@[i]@, k2) <= phrase_profile(phrase@)[k2] by {
                assert(entry.0@[k2] == letter_count(dictionary@[i]@, k2));
            }
            assert(accepted(dictionary@[i]@, phrase_profile(phrase@)));
        }
    }
    let mut combo: Vec<RepeatedGroup> = Vec::new();
    let mut buffer: Vec<u8> = Vec::new();
    let ghost o0 = sink.log@;
    assert(combo@ =~= Seq::<RepeatedGroup>::empty());
    assert(buffer@ =~= Seq::<u8>::empty());
    find_anagrams(&groups, &mut target, length, &order, &mut combo, &mut buffer, sink);
    proof {
        assert(sink.log@ =~= o0 + search(
            groups@,
            weight(phrase_profile(phrase@)),
            phrase_profile(phrase@),
            order@,
            Seq::empty(),
            Seq::empty(),
        ));
        assert forall|g: int| 0 <= g < groups@.len() implies lines((#[trigger] groups@[g]).words@) == members(lines(dictionary@), groups@[g].counts@) by {
            let e = m.len() - 1 - g;
            assert(lines(m[e].1@) == members(lines(dictionary@), m[e].0@));
        }
        assert forall|a: int, b: int| 0 <= a < b < groups@.len() implies #[trigger] groups@[a].counts@ != #[trigger] groups@[b].counts@ by {
            let ea = m.len() - 1 - a;
            let eb = m.len() - 1 - b;
            assert(m[eb].0@ != m[ea].0@);
        }
        assert forall|i: int| 0 <= i < dictionary@.len() && accepted(#[trigger] dictionary@[i]@, phrase_profile(phrase@)) implies exists|g: int|
            0 <= g < groups@.len() && is_profile_of(#[trigger] groups@[g].counts@, dictionary@[i]@) by {
            assert(in_map(m, dictionary@[i]@));
            let (e, x) = choose|e: int, x: int| 0 <= e < m.len() && 0 <= x < m[e].1@.len() && #[trigger] m[e].1@[x]@ == dictionary@[i]@;
            let g = m.len() - 1 - e;
            assert(is_profile_of(groups@[g].counts@, dictionary@[i]@));
        }
        assert(groups_of(groups@, dictionary@, phrase_profile(phrase@)));
        assert(heaviest_first(groups@, order@));
        if m.len() == 0 {
            if order@.len() > 0 {
                assert(order@[0] < groups@.len());
            }
        }
        if has_no_letters(phrase@) {
            assert(sum_prefix(target@, 26) == 0) by {
                lemma_sum_prefix_zero_converse(target@, 26);
            }
        }
        assert forall|i: int|
            0 <= i < dictionary@.len() && same_letters(#[trigger] dictionary@[i]@, phrase@) && !has_no_letters(phrase@)
                implies emitted(sink.log@, dictionary@[i]@) by {
            let w = dictionary@[i]@;
            let t = phrase_profile(phrase@);
            let k0 = choose|k: int| 0 <= k < 26 && !(#[trigger] letter_count(phrase@, k) == 0);
            assert(letter_count(w, k0) >= 1);
            assert forall|k: int| 0 <= k < 26 implies #[trigger] letter_count(w, k) <= t[k] by {
                assert(letter_count(phrase@, k) <= 255);
            }
            assert(accepted(w, t));
            assert(in_map(m, w));
            let (e, x) = choose|e: int, x: int| 0 <= e < m.len() && 0 <= x < m[e].1@.len() && #[trigger] m[e].1@[x]@ == w;
            let g = m.len() - 1 - e;
            assert(groups@[g].words@ == m[e].1@);
            assert(groups@[g].counts@ =~= target@) by {
                assert(is_profile_of(m[e].0@, w));
                assert forall|k: int| 0 <= k < 26 implies groups@[g].counts@[k] == target@[k] by {
                    assert(letter_count(phrase@, k) <= 255);
                }
            }
            assert(order@.contains(g as usize));
            let j = choose|j: int| 0 <= j < order@.len() && order@[j] == g as usize;
            assert(groups@[order@[j] as int].words@[x]@ == w);
        }
        assert forall|s: int| o0.len() <= s < sink.log@.len() implies joins_dictionary_words(dictionary@, #[trigger] sink.log@[s]) by {
            assert(extends_with_words(groups@, Seq::<u8>::empty(), sink.log@[s]));
            let ws = choose|ws: Seq<Seq<u8>>|
                (forall|i: int| 0 <= i < ws.len() ==> group_word(groups@, #[trigger] ws[i])) && sink.log@[s].push(32u8)
                    == Seq::<u8>::empty() + #[trigger] spaced(ws);
            assert(Seq::<u8>::empty() + spaced(ws) =~= spaced(ws));
            assert forall|i: int| 0 <= i < ws.len() implies in_dictionary(dictionary@, #[trigger] ws[i]) by {
                let (g, x) = choose|g: int, x: int| 0 <= g < groups@.len() && 0 <= x < groups@[g].words@.len() && #[trigger] groups@[g].words@[x]@ == ws[i];
                let e = m.len() - 1 - g;
                assert(m[e].1@[x]@ == ws[i]);
            }
        }
        assert forall|s: int| o0.len() <= s < sink.log@.len() implies same_letters(#[trigger] sink.log@[s], phrase@) by {
            assert forall|k: int| 0 <= k < 26 implies #[trigger] letter_count(sink.log@[s], k) == letter_count(phrase@, k) by {
                assert(letter_count(sink.log@[s], k) == letter_count(Seq::<u8>::empty(), k) + combo_count(groups@, Seq::<RepeatedGroup>::empty(), k) + target@[k]);
            }
        }
    }
}

} // verus!
