//! Tests for the search engine, its pruning, and the parallel strategies.

use std::collections::HashMap;

use wordle5::grouping::make_letter_space;
use wordle5::search::solve_sequential;
use wordle5::space::{LetterSpace, SearchConfig};
use wordle5::split::{solve_parallel, solve_split};
use wordle5::words::assemble_dicts;

fn dict_of(words: &[&str]) -> (HashMap<u32, String>, Vec<u32>) {
    let owned: Vec<String> = words.iter().map(|w| w.to_string()).collect();
    assemble_dicts(&owned)
}

fn space_of(words: &[&str]) -> LetterSpace {
    let (_, keys) = dict_of(words);
    make_letter_space(&keys, SearchConfig::all_pruning())
}

// The engine reports a solution once per valid placement of the letter
// skip, so a combination may be listed more than once; for comparing
// against the expected combinations, sort and deduplicate.
fn as_sets(solutions: &[Vec<u32>]) -> Vec<Vec<u32>> {
    let mut out: Vec<Vec<u32>> = solutions
        .iter()
        .map(|s| {
            let mut t = s.clone();
            t.sort();
            t
        })
        .collect();
    out.sort();
    out.dedup();
    out
}

const ABCDE: u32 = 0x1F;
const FGHIJ: u32 = 0x3E0;
const KLMNO: u32 = 0x7C00;
const PQRST: u32 = 0xF_8000;
const UVWXY: u32 = 0x1F0_0000;
const VWXYZ: u32 = 0x3E0_0000;

#[test]
fn unique_solution() {
    let space = space_of(&["abcde", "fghij", "klmno", "pqrst", "uvwxy"]);
    let solutions = solve_sequential(&space);
    assert_eq!(solutions.len(), 1);
    let mut found = solutions[0].clone();
    found.sort();
    assert_eq!(found, vec![ABCDE, FGHIJ, KLMNO, PQRST, UVWXY]);
}

#[test]
fn no_solution_on_overlap() {
    let space = space_of(&["abcde", "abcdf"]);
    let solutions = solve_sequential(&space);
    assert_eq!(solutions.len(), 0);
}

#[test]
fn skip_required() {
    // Six candidates; two five-word combinations are disjoint, each
    // omitting one letter ('z' or 'u').  No combination may use two skips.
    let space = space_of(&["abcde", "fghij", "klmno", "pqrst", "uvwxy", "vwxyz"]);
    let solutions = solve_sequential(&space);
    let got = as_sets(&solutions);
    let mut expected = vec![
        vec![ABCDE, FGHIJ, KLMNO, PQRST, UVWXY],
        vec![ABCDE, FGHIJ, KLMNO, PQRST, VWXYZ],
    ];
    expected.sort();
    assert_eq!(got, expected);
}

#[test]
fn classic_five_words() {
    let space = space_of(&[
        "fjord", "gucks", "nymph", "vibex", "waltz", "quick", "jumpy", "brick",
    ]);
    let solutions = solve_sequential(&space);
    let got = as_sets(&solutions);
    let classic = {
        let (_, keys) = dict_of(&["fjord", "gucks", "nymph", "vibex", "waltz"]);
        let mut k = keys.clone();
        k.sort();
        k
    };
    assert!(got.contains(&classic));
    assert_eq!(got.len(), 1);
}

#[test]
fn solutions_are_disjoint_and_cover_25() {
    let space = space_of(&["abcde", "fghij", "klmno", "pqrst", "uvwxy", "vwxyz"]);
    for sol in solve_sequential(&space) {
        assert_eq!(sol.len(), 5);
        let mut union: u32 = 0;
        for w in &sol {
            assert_eq!(union & w, 0);
            union |= w;
        }
        assert_eq!(union.count_ones(), 25);
    }
}

#[test]
fn strategies_agree() {
    let words = [
        "fjord", "gucks", "nymph", "vibex", "waltz", "quick", "jumpy", "brick", "abcde", "fghij",
        "klmno", "pqrst", "uvwxy", "vwxyz", "edcba",
    ];
    let space = space_of(&words);
    let sequential = solve_sequential(&space);
    let split = solve_split(&space);
    let parallel = solve_parallel(&space);
    assert_eq!(sequential, split);
    assert_eq!(sequential, parallel);
}

#[test]
fn pruning_changes_nothing() {
    let words = [
        "fjord", "gucks", "nymph", "vibex", "waltz", "quick", "jumpy", "brick", "abcde", "fghij",
        "klmno", "pqrst", "uvwxy", "vwxyz",
    ];
    let (_, keys) = dict_of(&words);
    let pruned = make_letter_space(&keys, SearchConfig::all_pruning());
    let brute = make_letter_space(&keys, SearchConfig::no_pruning());
    assert_eq!(solve_sequential(&pruned), solve_sequential(&brute));
}

#[test]
fn pseudovowels_hit_every_word() {
    let words = ["fjord", "gucks", "nymph", "vibex", "waltz", "quick", "jumpy"];
    let (_, keys) = dict_of(&words);
    let space = make_letter_space(&keys, SearchConfig::all_pruning());
    let pv = space.pseudovowels;
    assert_ne!(pv, 0);
    for k in &keys {
        assert_ne!(k & pv, 0);
    }
    let gpv = space.global_pseudovowels;
    if gpv != 0 {
        for k in &keys {
            assert_ne!(k & gpv, 0);
        }
    }
}

#[test]
fn local_pseudovowels_are_minimal() {
    let words = ["fjord", "gucks", "nymph", "vibex", "waltz", "quick", "jumpy"];
    let (_, keys) = dict_of(&words);
    let space = make_letter_space(&keys, SearchConfig::all_pruning());
    let pv = space.pseudovowels;
    assert_ne!(pv, 0);
    for l in 0..26u32 {
        if pv & (1 << l) != 0 {
            let reduced = pv & !(1 << l);
            // removing any single letter must miss at least one word
            assert!(keys.iter().any(|k| k & reduced == 0));
        }
    }
}

#[test]
fn pseudovowels_disabled_by_config() {
    let (_, keys) = dict_of(&["abcde", "fghij", "klmno"]);
    let config = SearchConfig {
        prune_groups: true,
        use_local_pseudovowels: false,
        use_global_pseudovowels: false,
    };
    let space = make_letter_space(&keys, config);
    assert_eq!(space.pseudovowels, 0);
    assert_eq!(space.global_pseudovowels, 0);
}

#[test]
fn empty_dictionary_finds_nothing() {
    let space = space_of(&[]);
    assert_eq!(solve_sequential(&space).len(), 0);
    assert_eq!(solve_split(&space).len(), 0);
}

#[test]
fn solvify_from_initial_state() {
    let space = space_of(&["abcde", "fghij", "klmno", "pqrst", "uvwxy"]);
    let mut cur: Vec<u32> = Vec::new();
    let mut solns: Vec<Vec<u32>> = Vec::new();
    wordle5::search::solvify(&space, &mut cur, &mut solns, 0, 0, 0, false);
    assert_eq!(solns, solve_sequential(&space));
    assert!(cur.is_empty());
}

#[test]
fn anagrams_are_one_node() {
    // "abcde" and "edcba" form a single search node, so the unique
    // solution appears once, not twice.
    let space = space_of(&["abcde", "edcba", "fghij", "klmno", "pqrst", "uvwxy"]);
    let solutions = solve_sequential(&space);
    assert_eq!(solutions.len(), 1);
}
