use anagrams::anagram::write_anagrams;
use anagrams::groups::{build_map_from_words, build_word_groups_from_map, order_by_weight};
use anagrams::profile::{
    add_in_place, fits_inside, get_letter_counts, get_letter_counts_bytes, profile_if_fits,
    profile_weight, subtract_in_place,
};
use anagrams::groups::WordGroup;
use anagrams::search::{choose_words, expand_solution, find_anagrams, Recorder, RepeatedGroup};

fn dict(words: &[&str]) -> Vec<Vec<u8>> {
    words.iter().map(|w| w.as_bytes().to_vec()).collect()
}

fn anagrams(dictionary: &Vec<Vec<u8>>, phrase: &[u8]) -> Vec<Vec<u8>> {
    let mut rec = Recorder::new(Vec::new());
    write_anagrams(dictionary, phrase, &mut rec);
    rec.sink
}

fn lines(out: &[Vec<u8>]) -> Vec<String> {
    out.iter().map(|s| String::from_utf8(s.clone()).unwrap()).collect()
}

fn profile(word: &str) -> [u8; 26] {
    get_letter_counts(word)
}

#[test]
fn counts_letters_case_insensitively() {
    let p = get_letter_counts("Hello, World!");
    assert_eq!(p[(b'l' - b'a') as usize], 3);
    assert_eq!(p[(b'o' - b'a') as usize], 2);
    assert_eq!(p[(b'h' - b'a') as usize], 1);
    assert_eq!(p[(b'w' - b'a') as usize], 1);
    assert_eq!(profile_weight(&p), 10);
}

#[test]
fn bytes_outside_letters_are_skipped() {
    let p = get_letter_counts_bytes(b"don't 42\xc3\xa9");
    assert_eq!(profile_weight(&p), 4);
    assert_eq!(p[(b'd' - b'a') as usize], 1);
    assert_eq!(p[(b't' - b'a') as usize], 1);
}

#[test]
fn fits_inside_is_pointwise() {
    let t = profile("listen");
    assert!(fits_inside(&t, &profile("silent")));
    assert!(fits_inside(&t, &profile("lit")));
    assert!(!fits_inside(&t, &profile("lull")));
    assert!(fits_inside(&t, &profile("")));
}

#[test]
fn profile_if_fits_rejects_excess_letters() {
    let bound = profile("aab");
    assert_eq!(profile_if_fits(b"ba", &bound), Some(profile("ab")));
    assert_eq!(profile_if_fits(b"aaa", &bound), None);
    assert_eq!(profile_if_fits(b"c", &bound), None);
    let long = vec![b'a'; 300];
    assert_eq!(profile_if_fits(&long, &[255u8; 26]), None);
}

#[test]
fn subtract_then_add_restores() {
    let mut t = profile("anagram");
    let c = profile("nag");
    subtract_in_place(&mut t, &c);
    assert_eq!(t, profile("aarm"));
    add_in_place(&mut t, &c);
    assert_eq!(t, profile("anagram"));
}

#[test]
fn grouping_gathers_equal_profiles() {
    let target = profile("eat");
    let map = build_map_from_words(&dict(&["eat", "ate", "", "tea", "at", "eta", "x", "--"]), &target);
    assert_eq!(map.len(), 2);
    assert_eq!(map[0].0, profile("eat"));
    assert_eq!(lines(&map[0].1), vec!["eat", "ate", "tea", "eta"]);
    assert_eq!(lines(&map[1].1), vec!["at"]);
    let groups = build_word_groups_from_map(map);
    assert_eq!(groups.len(), 2);
    assert_eq!(groups[0].len, 2);
    assert_eq!(groups[1].len, 3);
    assert_eq!(order_by_weight(&groups), vec![1, 0]);
}

#[test]
fn order_by_weight_is_stable() {
    let target = profile("abcdef");
    let groups = build_word_groups_from_map(build_map_from_words(&dict(&["a", "bc", "d", "ef", "abc"]), &target));
    let weights: Vec<usize> = order_by_weight(&groups).iter().map(|&g| groups[g].len).collect();
    assert_eq!(weights, vec![3, 2, 2, 1, 1]);
    assert_eq!(order_by_weight(&groups), vec![0, 1, 3, 2, 4]);
}

#[test]
fn same_group_words_come_once_each() {
    let out = anagrams(&dict(&["eat", "ate", "tea", "at", "eta"]), b"eat");
    assert_eq!(lines(&out), vec!["eat", "ate", "tea", "eta"]);
}

#[test]
fn multiword_covers_in_group_order() {
    let out = anagrams(&dict(&["dog", "god", "do", "g", "go", "d"]), b"dog");
    assert_eq!(lines(&out), vec!["dog", "god", "go d", "do g"]);
}

#[test]
fn repeated_word_from_one_entry() {
    let out = anagrams(&dict(&["a"]), b"aa");
    assert_eq!(lines(&out), vec!["a a"]);
}

#[test]
fn identical_entries_give_one_line() {
    let out = anagrams(&dict(&["a", "a"]), b"aa");
    assert_eq!(lines(&out), vec!["a a"]);
}

#[test]
fn identical_spellings_are_kept_in_groups() {
    let target = profile("eat");
    let map = build_map_from_words(&dict(&["tea", "eat", "tea", "at", "eat", "ate"]), &target);
    assert_eq!(map.len(), 2);
    assert_eq!(lines(&map[0].1), vec!["tea", "eat", "tea", "eat", "ate"]);
    assert_eq!(lines(&map[1].1), vec!["at"]);
}

fn one_group(words: &[&str]) -> Vec<WordGroup> {
    let counts = profile(words[0]);
    vec![WordGroup { counts, words: dict(words), len: profile_weight(&counts) }]
}

#[test]
fn choose_words_takes_non_decreasing_positions() {
    let groups = one_group(&["ab", "ba"]);
    let combo = vec![RepeatedGroup { group: 0, reps: 2 }];
    let mut buffer: Vec<u8> = Vec::new();
    let mut out = Recorder::new(Vec::new());
    choose_words(&groups, &combo, 0, 0, 2, &mut buffer, &mut out);
    let out = out.sink;
    assert_eq!(lines(&out), vec!["ab ab", "ab ba", "ba ba"]);
    assert!(buffer.is_empty());
}

#[test]
fn choose_words_counts_a_repeated_spelling_once() {
    let groups = one_group(&["a", "a"]);
    let combo = vec![RepeatedGroup { group: 0, reps: 2 }];
    let mut buffer: Vec<u8> = Vec::new();
    let mut out = Recorder::new(Vec::new());
    choose_words(&groups, &combo, 0, 0, 2, &mut buffer, &mut out);
    let out = out.sink;
    assert_eq!(lines(&out), vec!["a a"]);
}

#[test]
fn find_anagrams_with_a_repeated_spelling_gives_one_line() {
    let groups = one_group(&["a", "a"]);
    let mut target = profile("aa");
    let mut combo: Vec<RepeatedGroup> = Vec::new();
    let mut buffer: Vec<u8> = Vec::new();
    let mut out = Recorder::new(Vec::new());
    find_anagrams(&groups, &mut target, 2, &vec![0], &mut combo, &mut buffer, &mut out);
    let out = out.sink;
    assert_eq!(lines(&out), vec!["a a"]);
}

#[test]
fn write_anagrams_appends_to_the_sink() {
    let mut out = Recorder::new(vec![b"first".to_vec()]);
    write_anagrams(&dict(&["eat", "tea"]), b"ate", &mut out);
    let out = out.sink;
    assert_eq!(lines(&out), vec!["first", "eat", "tea"]);
}

#[test]
fn choose_words_with_no_word_left_emits_nothing() {
    let groups = one_group(&["ab", "ba"]);
    let combo = vec![RepeatedGroup { group: 0, reps: 1 }];
    let mut buffer: Vec<u8> = b"xy ".to_vec();
    let mut out = Recorder::new(Vec::new());
    choose_words(&groups, &combo, 0, 2, 1, &mut buffer, &mut out);
    let out = out.sink;
    assert!(out.is_empty());
    assert_eq!(buffer, b"xy ".to_vec());
}

#[test]
fn expand_solution_counts_choices_per_entry() {
    let mut groups = one_group(&["ab", "ba", "ab"]);
    groups.extend(one_group(&["c", "C"]));
    let combo = vec![RepeatedGroup { group: 0, reps: 2 }, RepeatedGroup { group: 1, reps: 1 }];
    let mut buffer: Vec<u8> = Vec::new();
    let mut out = Recorder::new(Vec::new());
    expand_solution(&groups, &combo, 0, &mut buffer, &mut out);
    let out = out.sink;
    // Two distinct spellings in the first group: C(2 + 2 - 1, 2) * C(2 + 1 - 1, 1) = 3 * 2
    assert_eq!(out.len(), 6);
    assert_eq!(lines(&out[0..4]), vec!["ab ab c", "ab ab C", "ab ba c", "ab ba C"]);
}

#[test]
fn expand_solution_emits_the_buffer_once() {
    let groups = one_group(&["ab"]);
    let mut buffer: Vec<u8> = b"ab ".to_vec();
    let mut out = Recorder::new(Vec::new());
    expand_solution(&groups, &Vec::new(), 0, &mut buffer, &mut out);
    let out = out.sink;
    assert_eq!(lines(&out), vec!["ab"]);
}

#[test]
fn empty_phrase_gives_nothing() {
    assert!(anagrams(&dict(&["a", "b", "ab"]), b"").is_empty());
    assert!(anagrams(&dict(&["a", "b", "ab"]), b" ,.!").is_empty());
}

#[test]
fn empty_or_filtered_dictionary_gives_nothing() {
    assert!(anagrams(&dict(&[]), b"listen").is_empty());
    assert!(anagrams(&dict(&["xyz", "quiz", ""]), b"listen").is_empty());
}

#[test]
fn every_sentence_has_the_phrase_letters() {
    let phrase = b"Clint Eastwood";
    let words = dict(&["old", "west", "action", "clint", "eastwood", "toad", "cows", "net", "lint", "seat", "wood", "cat"]);
    let out = anagrams(&words, phrase);
    assert!(out.contains(&b"action west old".to_vec()));
    assert!(out.contains(&b"eastwood clint".to_vec()));
    for s in &out {
        assert_eq!(get_letter_counts_bytes(s), get_letter_counts_bytes(phrase));
    }
}

#[test]
fn search_restores_target_and_combination() {
    let target0 = profile("dog");
    let groups = build_word_groups_from_map(build_map_from_words(&dict(&["dog", "do", "g", "go", "d"]), &target0));
    let order = order_by_weight(&groups);
    let mut target = target0;
    let mut combo: Vec<RepeatedGroup> = Vec::new();
    let mut buffer: Vec<u8> = Vec::new();
    let mut out = Recorder::new(vec![b"kept".to_vec()]);
    find_anagrams(&groups, &mut target, 3, &order, &mut combo, &mut buffer, &mut out);
    let out = out.sink;
    assert_eq!(target, target0);
    assert!(combo.is_empty());
    assert!(buffer.is_empty());
    assert_eq!(out[0], b"kept".to_vec());
    assert_eq!(out.len(), 4);
}

#[test]
fn search_after_a_chosen_group() {
    // "g" chosen already; the search covers what is left, "do".
    let full = profile("dog");
    let groups = build_word_groups_from_map(build_map_from_words(&dict(&["do", "g"]), &full));
    let g = (0..groups.len()).find(|&i| groups[i].len == 1).unwrap();
    let d = 1 - g;
    let mut target = profile("do");
    let combo0 = vec![RepeatedGroup { group: g, reps: 1 }];
    let mut combo = combo0.clone();
    let mut buffer: Vec<u8> = Vec::new();
    let mut out = Recorder::new(Vec::new());
    find_anagrams(&groups, &mut target, 2, &vec![d], &mut combo, &mut buffer, &mut out);
    let out = out.sink;
    assert_eq!(lines(&out), vec!["g do"]);
    assert_eq!(target, profile("do"));
    assert_eq!(combo.len(), 1);
    assert_eq!((combo[0].group, combo[0].reps), (g, 1));
}

#[test]
fn weight_is_total_letter_count() {
    assert_eq!(profile_weight(&profile("")), 0);
    assert_eq!(profile_weight(&profile("Mississippi")), 11);
    let mut t = profile("aaaa");
    let c = profile("a");
    subtract_in_place(&mut t, &c);
    subtract_in_place(&mut t, &c);
    assert_eq!(profile_weight(&t), 4 - 2 * profile_weight(&c));
}
