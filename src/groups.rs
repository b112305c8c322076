//! Word groups: every accepted dictionary word, gathered under its letter
//! profile, and the order of the groups by descending weight.

use vstd::prelude::*;
use crate::profile::{
    fits, is_profile_of, lemma_positive_slot, lemma_sum_prefix_zero, letter_count,
    profile_if_fits, profile_weight, weight,
};

verus! {

/// The words of the dictionary that share one letter profile.
pub struct WordGroup {
    /// The shared profile (the group's signature).
    pub counts: [u8; 26],
    /// The member words, in dictionary order.
    pub words: Vec<Vec<u8>>,
    /// The number of letters of the signature, which every member has.
    pub len: usize,
}

impl WordGroup {
    /// The signature's weight is cached, is at least one, and is the profile
    /// of every member word.
    pub open spec fn wf(&self) -> bool {
        &&& self.len as int == weight(self.counts@)
        &&& self.len >= 1
        &&& self.words@.len() >= 1
        &&& forall|j: int| 0 <= j < self.words@.len() ==> is_profile_of(self.counts@, #[trigger] self.words@[j]@)
    }
}

/// The byte strings that a list of byte vectors holds.
pub open spec fn lines(out: Seq<Vec<u8>>) -> Seq<Seq<u8>> {
    Seq::new(out.len(), |i: int| out[i]@)
}

/// The words of `dict` whose profile is `key`, in dictionary order,
/// repeated spellings kept.
pub open spec fn members(dict: Seq<Seq<u8>>, key: Seq<u8>) -> Seq<Seq<u8>>
    decreases dict.len(),
{
    if dict.len() == 0 {
        Seq::empty()
    } else {
        let r = members(dict.drop_last(), key);
        if is_profile_of(key, dict.last()) {
            r.push(dict.last())
        } else {
            r
        }
    }
}

/// Profiles paired with their member words, as gathered from a dictionary.
pub open spec fn profile_map_wf(map: Seq<([u8; 26], Vec<Vec<u8>>)>, target: Seq<u8>) -> bool {
    &&& forall|a: int, b: int| 0 <= a < b < map.len() ==> #[trigger] map[a].0@ != #[trigger] map[b].0@
    &&& forall|e: int| 0 <= e < map.len() ==> {
        &&& fits(target, (#[trigger] map[e]).0@)
        &&& weight(map[e].0@) >= 1
        &&& map[e].1@.len() >= 1
        &&& forall|j: int| 0 <= j < map[e].1@.len() ==> is_profile_of(map[e].0@, #[trigger] map[e].1@[j]@)
    }
}

/// A dictionary word takes part in the search: it has at least one letter
/// and its profile fits inside the target.
pub open spec fn accepted(word: Seq<u8>, target: Seq<u8>) -> bool {
    &&& exists|k: int| 0 <= k < 26 && #[trigger] letter_count(word, k) >= 1
    &&& forall|k: int| 0 <= k < 26 ==> #[trigger] letter_count(word, k) <= target[k]
}

/// `word` is a member of some entry of `map`.
pub open spec fn in_map(map: Seq<([u8; 26], Vec<Vec<u8>>)>, word: Seq<u8>) -> bool {
    exists|e: int, j: int| 0 <= e < map.len() && 0 <= j < map[e].1@.len() && #[trigger] map[e].1@[j]@ == word
}

/// A copy of a byte string.
pub fn copy_bytes(b: &[u8]) -> (r: Vec<u8>)
    ensures
        r@ == b@,
{
    let mut r: Vec<u8> = Vec::new();
    let mut i: usize = 0;
    while i < b.len()
        invariant
            i <= b@.len(),
            r@ == b@.subrange(0, i as int),
        decreases b.len() - i,
    {
        r.push(b[i]);
        i = i + 1;
    }
    assert(r@ =~= b@);
    r
}

/// Whether two byte strings are equal.
pub fn same_bytes(a: &Vec<u8>, b: &Vec<u8>) -> (r: bool)
    ensures
        r == (a@ == b@),
{
    if a.len() != b.len() {
        return false;
    }
    let mut i: usize = 0;
    while i < a.len()
        invariant
            a@.len() == b@.len(),
            i <= a@.len(),
            forall|j: int| 0 <= j < i ==> #[trigger] a@[j] == b@[j],
        decreases a.len() - i,
    {
        if a[i] != b[i] {
            return false;
        }
        i = i + 1;
    }
    assert(a@ =~= b@);
    true
}

/// Whether the word at position `i` of `list` is spelled like an earlier one.
pub fn spelled_earlier(list: &Vec<Vec<u8>>, i: usize) -> (r: bool)
    requires
        i < list@.len(),
    ensures
        r == lines(list@).subrange(0, i as int).contains(list@[i as int]@),
{
    let mut j: usize = 0;
    while j < i
        invariant
            i < list@.len(),
            j <= i,
            forall|y: int| 0 <= y < j ==> #[trigger] list@[y]@ != list@[i as int]@,
        decreases i - j,
    {
        if same_bytes(&list[j], &list[i]) {
            assert(lines(list@).subrange(0, i as int)[j as int] == list@[i as int]@);
            return true;
        }
        j = j + 1;
    }
    assert forall|y: int| 0 <= y < i implies lines(list@).subrange(0, i as int)[y] != list@[i as int]@ by {
        assert(lines(list@).subrange(0, i as int)[y] == list@[y]@);
    }
    false
}

/// Whether two profiles are equal.
pub fn same_profile(a: &[u8; 26], b: &[u8; 26]) -> (r: bool)
    ensures
        r == (a@ == b@),
{
    let mut i: usize = 0;
    while i < 26
        invariant
            i <= 26,
            forall|j: int| 0 <= j < i ==> #[trigger] a@[j] == b@[j],
        decreases 26 - i,
    {
        if a[i] != b[i] {
            return false;
        }
        i = i + 1;
    }
    assert(a@ =~= b@);
    true
}


/// `word` is one of the dictionary's words.
pub open spec fn in_dictionary(words: Seq<Vec<u8>>, word: Seq<u8>) -> bool {
    exists|i: int| 0 <= i < words.len() && #[trigger] words[i]@ == word
}

/// The position of the entry of `map` whose profile is `p`, if there is one.
pub fn find_profile(map: &Vec<([u8; 26], Vec<Vec<u8>>)>, p: &[u8; 26]) -> (r: Option<usize>)
    ensures
        r matches Some(e) ==> e < map@.len() && map@[e as int].0@ == p@,
        r is None ==> forall|e: int| 0 <= e < map@.len() ==> #[trigger] map@[e].0@ != p@,
{
    let mut e: usize = 0;
    while e < map.len()
        invariant
            e <= map@.len(),
            forall|x: int| 0 <= x < e ==> #[trigger] map@[x].0@ != p@,
        decreases map.len() - e,
    {
        if same_profile(&map[e].0, p) {
            return Some(e);
        }
        e = e + 1;
    }
    None
}

/// A word listed under `key` is a dictionary word with that profile.
proof fn lemma_members_from(d: Seq<Seq<u8>>, key: Seq<u8>)
    ensures
        members(d, key).len() > 0 ==> exists|x: int| 0 <= x < d.len() && is_profile_of(key, #[trigger] d[x]),
    decreases d.len(),
{
    if d.len() > 0 {
        lemma_members_from(d.drop_last(), key);
        if members(d.drop_last(), key).len() > 0 {
            let x = choose|x: int| 0 <= x < d.drop_last().len() && is_profile_of(key, #[trigger] d.drop_last()[x]);
            assert(d[x] == d.drop_last()[x]);
        } else if members(d, key).len() > 0 {
            assert(is_profile_of(key, d[d.len() - 1]));
        }
    }
}

/// Gathers the accepted words of a dictionary under their profiles: a word
/// is accepted when it has a letter and its profile fits inside `target`.
/// Entries come in the order in which their first word occurs; the words of
/// an entry keep the dictionary order, repeated spellings included.
pub fn build_map_from_words(words: &Vec<Vec<u8>>, target: &[u8; 26]) -> (map: Vec<([u8; 26], Vec<Vec<u8>>)>)
    ensures
        profile_map_wf(map@, target@),
        forall|i: int| 0 <= i < words@.len() && accepted(#[trigger] words@[i]@, target@) ==> in_map(map@, words@[i]@),
        forall|e: int, j: int| 0 <= e < map@.len() && 0 <= j < map@[e].1@.len() ==> in_dictionary(words@, #[trigger] map@[e].1@[j]@),
        forall|e: int| 0 <= e < map@.len() ==> lines((#[trigger] map@[e]).1@) == members(lines(words@), map@[e].0@),
{
    let ghost dv = lines(words@);
    let mut map: Vec<([u8; 26], Vec<Vec<u8>>)> = Vec::new();
    let mut i: usize = 0;
    while i < words.len()
        invariant
            i <= words@.len(),
            dv == lines(words@),
            profile_map_wf(map@, target@),
            forall|x: int| 0 <= x < i && accepted(#[trigger] words@[x]@, target@) ==> in_map(map@, words@[x]@),
            forall|e: int, j: int| 0 <= e < map@.len() && 0 <= j < map@[e].1@.len() ==> in_dictionary(words@, #[trigger] map@[e].1@[j]@),
            forall|e: int| 0 <= e < map@.len() ==> lines((#[trigger] map@[e]).1@) == members(dv.subrange(0, i as int), map@[e].0@),
        decreases words.len() - i,
    {
        let w = &words[i];
        let ghost wv = words@[i as int]@;
        let ghost pre = dv.subrange(0, i as int);
        let ghost nxt = dv.subrange(0, i + 1);
        let ghost old_map = map@;
        assert(nxt.drop_last() =~= pre);
        assert(nxt.last() == wv);
        assert(in_dictionary(words@, wv));
        match profile_if_fits(w.as_slice(), target) {
            None => {
                assert(!accepted(wv, target@));
                assert forall|e: int| 0 <= e < map@.len() implies lines((#[trigger] map@[e]).1@) == members(nxt, map@[e].0@) by {
                    if is_profile_of(map@[e].0@, wv) {
                        assert forall|k: int| 0 <= k < 26 implies #[trigger] letter_count(wv, k) <= target@[k] by {
                            assert(map@[e].0@[k] == letter_count(wv, k));
                        }
                    }
                }
            },
            Some(p) => {
                let wt = profile_weight(&p);
                if wt >= 1 {
                    let copy = copy_bytes(w.as_slice());
                    match find_profile(&map, &p) {
                        Some(e) => {
                            map[e].1.push(copy);
                            assert(lines(map@[e as int].1@) =~= lines(old_map[e as int].1@).push(wv));
                            assert forall|x: int| 0 <= x <= i && accepted(#[trigger] words@[x]@, target@) implies in_map(map@, words@[x]@) by {
                                if x < i {
                                    let (e2, j2) = choose|e2: int, j2: int| 0 <= e2 < old_map.len() && 0 <= j2 < old_map[e2].1@.len() && #[trigger] old_map[e2].1@[j2]@ == words@[x]@;
                                    assert(map@[e2].1@[j2]@ == words@[x]@);
                                } else {
                                    assert(map@[e as int].1@[old_map[e as int].1@.len() as int]@ == words@[x]@);
                                }
                            }
                            assert forall|e2: int| 0 <= e2 < map@.len() implies lines((#[trigger] map@[e2]).1@) == members(nxt, map@[e2].0@) by {
                                if e2 != e {
                                    assert(old_map[e2].0@ != old_map[e as int].0@);
                                    if is_profile_of(map@[e2].0@, wv) {
                                        assert(map@[e2].0@ =~= p@);
                                    }
                                }
                            }
                        },
                        None => {
                            let mut ws: Vec<Vec<u8>> = Vec::new();
                            ws.push(copy);
                            map.push((p, ws));
                            assert forall|x: int| 0 <= x <= i && accepted(#[trigger] words@[x]@, target@) implies in_map(map@, words@[x]@) by {
                                if x < i {
                                    let (e2, j2) = choose|e2: int, j2: int| 0 <= e2 < old_map.len() && 0 <= j2 < old_map[e2].1@.len() && #[trigger] old_map[e2].1@[j2]@ == words@[x]@;
                                    assert(map@[e2].1@[j2]@ == words@[x]@);
                                } else {
                                    assert(map@[old_map.len() as int].1@[0]@ == words@[x]@);
                                }
                            }
                            proof {
                                lemma_members_from(pre, p@);
                                if members(pre, p@).len() > 0 {
                                    let x = choose|x: int| 0 <= x < pre.len() && is_profile_of(p@, #[trigger] pre[x]);
                                    assert(pre[x] == words@[x]@);
                                    assert(accepted(words@[x]@, target@)) by {
                                        lemma_positive_slot(p@);
                                        let k0 = choose|k: int| 0 <= k < 26 && #[trigger] p@[k] >= 1;
                                        assert(letter_count(words@[x]@, k0) >= 1);
                                        assert(is_profile_of(p@, words@[x]@));
                                        assert(is_profile_of(p@, wv));
                                        assert forall|k: int| 0 <= k < 26 implies #[trigger] letter_count(words@[x]@, k) <= target@[k] by {
                                            assert(p@[k] == letter_count(wv, k));
                                            assert(p@[k] == letter_count(words@[x]@, k));
                                            assert(letter_count(wv, k) <= target@[k]);
                                        }
                                    }
                                    let (e2, j2) = choose|e2: int, j2: int| 0 <= e2 < old_map.len() && 0 <= j2 < old_map[e2].1@.len() && #[trigger] old_map[e2].1@[j2]@ == words@[x]@;
                                    assert(old_map[e2].0@ =~= p@);
                                }
                                assert(members(pre, p@) =~= Seq::<Seq<u8>>::empty());
                            }
                            assert forall|e2: int| 0 <= e2 < map@.len() implies lines((#[trigger] map@[e2]).1@) == members(nxt, map@[e2].0@) by {
                                if e2 < old_map.len() {
                                    assert(old_map[e2].0@ != p@);
                                    if is_profile_of(map@[e2].0@, wv) {
                                        assert(map@[e2].0@ =~= p@);
                                    }
                                } else {
                                    assert(lines(map@[e2].1@) =~= seq![wv]);
                                    assert(seq![wv] =~= Seq::<Seq<u8>>::empty().push(wv));
                                }
                            }
                        },
                    }
                } else {
                    proof {
                        lemma_sum_prefix_zero(p@, 26);
                        assert forall|k: int| 0 <= k < 26 implies #[trigger] letter_count(wv, k) == 0 by {
                            assert(p@[k] == 0);
                        }
                        assert(!accepted(wv, target@));
                        assert forall|e: int| 0 <= e < map@.len() implies lines((#[trigger] map@[e]).1@) == members(nxt, map@[e].0@) by {
                            if is_profile_of(map@[e].0@, wv) {
                                assert(map@[e].0@ =~= p@);
                            }
                        }
                    }
                }
            },
        }
        i = i + 1;
    }
    assert(dv.subrange(0, words@.len() as int) =~= dv);
    map
}

/// Turns each entry of a profile map into a word group that caches the
/// weight of its signature. The groups come in the reverse order of the
/// entries.
pub fn build_word_groups_from_map(map: Vec<([u8; 26], Vec<Vec<u8>>)>) -> (groups: Vec<WordGroup>)
    ensures
        groups@.len() == map@.len(),
        forall|g: int| 0 <= g < groups@.len() ==> {
            let entry = map@[map@.len() - 1 - g];
            &&& (#[trigger] groups@[g]).counts == entry.0
            &&& groups@[g].words@ == entry.1@
            &&& groups@[g].len as int == weight(entry.0@)
        },
{
    let ghost orig = map@;
    let mut map = map;
    let mut groups: Vec<WordGroup> = Vec::new();
    while map.len() > 0
        invariant
            map@ == orig.subrange(0, map@.len() as int),
            groups@.len() + map@.len() == orig.len(),
            forall|g: int| 0 <= g < groups@.len() ==> {
                let entry = orig[orig.len() - 1 - g];
                &&& (#[trigger] groups@[g]).counts == entry.0
                &&& groups@[g].words@ == entry.1@
                &&& groups@[g].len as int == weight(entry.0@)
            },
        decreases map.len(),
    {
        let ghost before = map@;
        match map.pop() {
            Some(entry) => {
                let (counts, words) = entry;
                let len = profile_weight(&counts);
                assert(before.last() == orig[orig.len() - 1 - groups@.len()]);
                groups.push(WordGroup { counts, words, len });
                assert(map@ =~= orig.subrange(0, map@.len() as int));
            },
            None => {},
        }
    }
    groups
}

/// The positions of all groups, heaviest first; groups of equal weight keep
/// their relative order.
pub fn order_by_weight(groups: &Vec<WordGroup>) -> (order: Vec<usize>)
    ensures
        forall|j: int| 0 <= j < order@.len() ==> #[trigger] order@[j] < groups@.len(),
        forall|a: int, b: int| 0 <= a < b < order@.len() ==> #[trigger] order@[a] != #[trigger] order@[b],
        forall|a: int, b: int| 0 <= a < b < order@.len() ==> groups@[order@[a] as int].len >= groups@[order@[b] as int].len,
        forall|g: int| 0 <= g < groups@.len() ==> #[trigger] order@.contains(g as usize),
        forall|a: int, b: int|
            0 <= a < b < order@.len() && groups@[order@[a] as int].len == groups@[order@[b] as int].len ==> #[trigger] order@[a]
                < #[trigger] order@[b],
{
    let n = groups.len();
    let mut top: usize = 0;
    let mut g: usize = 0;
    while g < n
        invariant
            n == groups@.len(),
            g <= n,
            forall|x: int| 0 <= x < g ==> #[trigger] groups@[x].len <= top,
        decreases n - g,
    {
        if groups[g].len > top {
            top = groups[g].len;
        }
        g = g + 1;
    }
    let mut order: Vec<usize> = Vec::new();
    // `w` runs down from `top`; every group heavier than `w` is placed.
    let mut w: usize = top;
    loop
        invariant
            n == groups@.len(),
            w <= top,
            forall|x: int| 0 <= x < n ==> #[trigger] groups@[x].len <= top,
            forall|j: int| 0 <= j < order@.len() ==> #[trigger] order@[j] < n,
            forall|j: int| 0 <= j < order@.len() ==> groups@[#[trigger] order@[j] as int].len > w,
            forall|a: int, b: int| 0 <= a < b < order@.len() ==> #[trigger] order@[a] != #[trigger] order@[b],
            forall|a: int, b: int| 0 <= a < b < order@.len() ==> groups@[order@[a] as int].len >= groups@[order@[b] as int].len,
            forall|a: int, b: int|
                0 <= a < b < order@.len() && groups@[order@[a] as int].len == groups@[order@[b] as int].len ==> #[trigger] order@[a]
                    < #[trigger] order@[b],
            forall|x: int| 0 <= x < n && groups@[x].len > w ==> #[trigger] order@.contains(x as usize),
        decreases w,
    {
        let ghost placed = order@;
        let mut x: usize = 0;
        while x < n
            invariant
                n == groups@.len(),
                x <= n,
                placed.len() <= order@.len(),
                order@.subrange(0, placed.len() as int) == placed,
                forall|j: int| 0 <= j < placed.len() ==> groups@[#[trigger] placed[j] as int].len > w,
                forall|j: int| placed.len() <= j < order@.len() ==> #[trigger] order@[j] < x && groups@[order@[j] as int].len == w,
                forall|j: int| 0 <= j < order@.len() ==> #[trigger] order@[j] < n,
                forall|a: int, b: int| 0 <= a < b < order@.len() ==> #[trigger] order@[a] != #[trigger] order@[b],
                forall|a: int, b: int| 0 <= a < b < order@.len() ==> groups@[order@[a] as int].len >= groups@[order@[b] as int].len,
                forall|a: int, b: int|
                    0 <= a < b < order@.len() && groups@[order@[a] as int].len == groups@[order@[b] as int].len ==> #[trigger] order@[a]
                        < #[trigger] order@[b],
                forall|y: int| 0 <= y < n && groups@[y].len > w ==> #[trigger] order@.contains(y as usize),
                forall|y: int| 0 <= y < x && groups@[y].len == w ==> #[trigger] order@.contains(y as usize),
            decreases n - x,
        {
            if groups[x].len == w {
                let ghost before = order@;
                assert forall|j: int| 0 <= j < before.len() implies #[trigger] before[j] != x && groups@[before[j] as int].len >= w
                    && (groups@[before[j] as int].len == w ==> before[j] < x) by {
                    if j < placed.len() {
                        assert(before.subrange(0, placed.len() as int)[j] == placed[j]);
                    }
                }
                order.push(x);
                assert forall|y: int| 0 <= y < n && groups@[y].len > w implies #[trigger] order@.contains(y as usize) by {
                    assert(before.contains(y as usize));
                    let j = choose|j: int| 0 <= j < before.len() && before[j] == y as usize;
                    assert(order@[j] == y as usize);
                }
                assert forall|y: int| 0 <= y <= x && groups@[y].len == w implies #[trigger] order@.contains(y as usize) by {
                    if y < x {
                        assert(before.contains(y as usize));
                        let j = choose|j: int| 0 <= j < before.len() && before[j] == y as usize;
                        assert(order@[j] == y as usize);
                    } else {
                        assert(order@[before.len() as int] == y as usize);
                    }
                }
                assert(order@.subrange(0, placed.len() as int) =~= before.subrange(0, placed.len() as int));
            }
            x = x + 1;
        }
        assert forall|j: int| 0 <= j < order@.len() implies groups@[#[trigger] order@[j] as int].len >= w by {
            if j < placed.len() {
                assert(order@.subrange(0, placed.len() as int)[j] == placed[j]);
            }
        }
        if w == 0 {
            return order;
        }
        w = w - 1;
    }
}

} // verus!
