use std::collections::HashSet;

use wordcover::{create_word_index, find_covers, format_solution_line, next_free_letter, solve,
    Word};

fn w(s: &str) -> Word {
    Word::new(s.as_bytes()).expect("word should parse")
}

fn words(list: &[&str]) -> Vec<Word> {
    list.iter().map(|s| w(s)).collect()
}

fn spelling(word: &Word) -> String {
    String::from_utf8(word.bytes.to_vec()).unwrap()
}

/// Each solution as a sorted set of spellings, the whole output as a set.
fn solution_set(sols: &Vec<Vec<Word>>) -> HashSet<Vec<String>> {
    let mut set = HashSet::new();
    for sol in sols {
        let mut names: Vec<String> = sol.iter().map(spelling).collect();
        names.sort();
        set.insert(names);
    }
    set
}

fn letter_set(word: &Word) -> HashSet<u8> {
    word.bytes.iter().copied().collect()
}

#[test]
fn parse_accepts_five_distinct_lowercase() {
    let word = Word::new(b"ghost").unwrap();
    assert_eq!(&word.bytes, b"ghost");
    assert_eq!(word.bitword.count_ones(), 5);
}

#[test]
fn parse_rejects_repeated_letter() {
    assert!(Word::new(b"apple").is_none());
    assert!(Word::new(b"zzzzz").is_none());
}

#[test]
fn parse_rejects_non_lowercase() {
    assert!(Word::new(b"gh0st").is_none());
    assert!(Word::new(b"Ghost").is_none());
    assert!(Word::new(b"gh st").is_none());
}

#[test]
fn parse_rejects_wrong_length() {
    assert!(Word::new(b"ab").is_none());
    assert!(Word::new(b"").is_none());
    assert!(Word::new(b"abcdef").is_none());
}

#[test]
fn parse_mask_is_exact() {
    // 'a'..'e' occupy the five lowest bits
    assert_eq!(w("abcde").bitword, 0b11111);
    assert_eq!(w("edcba").bitword, 0b11111);
    assert_eq!(w("vwxyz").bitword, 0b11111 << 21);
}

#[test]
fn from_line_trims_carriage_return() {
    let word = Word::from_line(b"ghost\r").unwrap();
    assert_eq!(&word.bytes, b"ghost");
    assert!(Word::from_line(b"ghost\r\r").is_none());
    assert!(Word::from_line(b"ghost").is_some());
}

#[test]
fn next_free_letter_finds_rarest() {
    assert_eq!(next_free_letter(0), 25);
    assert_eq!(next_free_letter(1 << 25), 24);
    assert_eq!(next_free_letter(0x3FF_FFFF & !(1 << 7)), 7);
}

#[test]
fn anagrams_collapse_to_one_word() {
    // "bread" and "beard" share one letter set
    let idx = create_word_index(words(&["bread", "beard"]));
    let total: usize = idx.buckets.iter().map(|b| b.len()).sum();
    assert_eq!(total, 1);
}

#[test]
fn anagram_representative_is_first_occurrence() {
    let idx = create_word_index(words(&["bread", "beard", "debra"]));
    let kept: Vec<String> = idx.buckets.iter().flatten().map(spelling).collect();
    assert_eq!(kept, vec!["bread".to_string()]);
    let idx2 = create_word_index(words(&["debra", "beard", "bread"]));
    let kept2: Vec<String> = idx2.buckets.iter().flatten().map(spelling).collect();
    assert_eq!(kept2, vec!["debra".to_string()]);
}

#[test]
fn sorting_brings_separated_anagrams_together() {
    // an anagram pair separated by a word with a smaller mask: without the
    // mask sort the two could never be collapsed into one representative;
    // the survivor is the earlier spelling, "bcdfg"
    let idx = create_word_index(words(&["gfdcb", "abcde", "bcdfg"]));
    let total: usize = idx.buckets.iter().map(|b| b.len()).sum();
    assert_eq!(total, 2);
    let mut kept: Vec<String> = idx.buckets.iter().flatten().map(spelling).collect();
    kept.sort();
    assert_eq!(kept, vec!["abcde".to_string(), "gfdcb".to_string()]);
}

#[test]
fn indexing_is_idempotent() {
    let list = ["fjord", "vibex", "waltz", "gucks", "nymph", "abcde", "edcba", "klmno"];
    let idx1 = create_word_index(words(&list));
    let idx2 = create_word_index(words(&list));
    assert_eq!(idx1.buckets.len(), 26);
    assert_eq!(idx2.buckets.len(), 26);
    for b in 0..26 {
        let masks1: Vec<u32> = idx1.buckets[b].iter().map(|x| x.bitword).collect();
        let masks2: Vec<u32> = idx2.buckets[b].iter().map(|x| x.bitword).collect();
        assert_eq!(masks1, masks2);
        let names1: Vec<String> = idx1.buckets[b].iter().map(spelling).collect();
        let names2: Vec<String> = idx2.buckets[b].iter().map(spelling).collect();
        assert_eq!(names1, names2);
    }
}

#[test]
fn bucket_masks_ignore_input_order() {
    // representatives follow input order, but which letter sets survive,
    // their ranking and their bucket placement do not depend on it
    let list1 = ["fjord", "vibex", "waltz", "gucks", "nymph", "abcde"];
    let list2 = ["abcde", "nymph", "gucks", "waltz", "vibex", "fjord"];
    let idx1 = create_word_index(words(&list1));
    let idx2 = create_word_index(words(&list2));
    for b in 0..26 {
        let masks1: Vec<u32> = idx1.buckets[b].iter().map(|x| x.bitword).collect();
        let masks2: Vec<u32> = idx2.buckets[b].iter().map(|x| x.bitword).collect();
        assert_eq!(masks1, masks2);
    }
}

#[test]
fn every_bucket_word_has_its_bucket_as_highest_bit() {
    let list = ["fjord", "vibex", "waltz", "gucks", "nymph", "abcde", "klmno"];
    let idx = create_word_index(words(&list));
    for b in 0..26 {
        for word in &idx.buckets[b] {
            assert_eq!(word.bitword.count_ones(), 5);
            assert_eq!(31 - word.bitword.leading_zeros() as usize, b);
        }
    }
}

#[test]
fn known_cover_is_found() {
    let list = ["fjord", "vibex", "waltz", "gucks", "nymph"];
    let (_, sols) = solve(words(&list));
    let expected: Vec<String> =
        ["fjord", "gucks", "nymph", "vibex", "waltz"].iter().map(|s| s.to_string()).collect();
    assert_eq!(solution_set(&sols), HashSet::from([expected]));
}

#[test]
fn search_finds_all_covers_and_nothing_else() {
    // two covers by hand: the five disjoint blocks, and the same with the
    // last block shifted one letter; overlapping noise words join neither
    let list = ["abcde", "fghij", "klmno", "pqrst", "uvwxy", "vwxyz", "abcdf", "aeiou"];
    let (_, sols) = solve(words(&list));
    let mut expected = HashSet::new();
    expected.insert(
        ["abcde", "fghij", "klmno", "pqrst", "uvwxy"].iter().map(|s| s.to_string()).collect(),
    );
    expected.insert(
        ["abcde", "fghij", "klmno", "pqrst", "vwxyz"].iter().map(|s| s.to_string()).collect(),
    );
    assert_eq!(solution_set(&sols), expected);
    assert_eq!(sols.len(), 2);
}

#[test]
fn every_emitted_cover_is_valid() {
    let list = ["abcde", "fghij", "klmno", "pqrst", "uvwxy", "vwxyz", "abcdf", "fghiz", "zyxwv"];
    let (_, sols) = solve(words(&list));
    assert!(!sols.is_empty());
    for sol in &sols {
        assert_eq!(sol.len(), 5);
        let mut all = HashSet::new();
        for word in sol {
            let letters = letter_set(word);
            assert_eq!(letters.len(), 5);
            assert!(all.is_disjoint(&letters));
            all.extend(letters);
        }
        assert_eq!(all.len(), 25);
    }
}

#[test]
fn no_cover_is_reported_twice_for_anagrams() {
    let list = ["abcde", "edcba", "fghij", "klmno", "pqrst", "uvwxy"];
    let (_, sols) = solve(words(&list));
    assert_eq!(sols.len(), 1);
}

#[test]
fn empty_dictionary_gives_empty_output() {
    let (_, sols) = solve(Vec::new());
    assert!(sols.is_empty());
}

#[test]
fn fewer_than_five_words_give_empty_output() {
    let list = ["abcde", "fghij", "klmno"];
    let (_, sols) = solve(words(&list));
    assert!(sols.is_empty());
}

#[test]
fn unsatisfiable_dictionary_gives_empty_output() {
    // plenty of words, but every pair shares the letter 'a'
    let list = ["abcde", "afghi", "ajklm", "anopq", "arstu", "avwxy"];
    let (_, sols) = solve(words(&list));
    assert!(sols.is_empty());
}

#[test]
fn solution_lines_are_formatted_exactly() {
    let sol = vec![w("fjord"), w("vibex"), w("waltz"), w("gucks"), w("nymph")];
    let line = format_solution_line(&sol);
    assert_eq!(line, b"fjord vibex waltz gucks nymph\n".to_vec());
}

#[test]
fn solutions_place_rarest_letter_first() {
    // the first word of each emitted solution holds the rarest-ranked
    // letter, so its remapped mask peaks above the others
    let list = ["abcde", "fghij", "klmno", "pqrst", "uvwxy"];
    let (_, sols) = solve(words(&list));
    assert_eq!(sols.len(), 1);
    // emitted words carry remapped masks and descend by highest set bit
    let peaks: Vec<u32> = sols[0].iter().map(|x| 31 - x.bitword.leading_zeros()).collect();
    for k in 1..peaks.len() {
        assert!(peaks[k - 1] > peaks[k]);
    }
}
