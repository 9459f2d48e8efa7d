use crosswords::{
    Crossword, CrosswordHashMap, CrosswordNeedleSearch, EstimateSize, NaiveSolver, Solver, Trie,
};

fn all_counts(grid: &Crossword, word: &[u8]) -> Vec<usize> {
    let mut out = Vec::new();
    out.push(NaiveSolver::new(grid).count_occurrences(word));
    out.push(CrosswordNeedleSearch::new(grid).count_occurrences(word));
    out.push(Trie::new(grid, None).count_occurrences(word));
    let mut word_len = 1;
    while word_len <= 4 {
        out.push(CrosswordHashMap::new(grid, word_len).count_occurrences(word));
        word_len += 1;
    }
    out
}

#[test]
fn transposed_shapes() {
    let crossword = Crossword::new(3, b"abcdefghi".to_vec());
    let needle = CrosswordNeedleSearch::new(&crossword);

    assert_eq!(needle.plans[0], b"abc.def.ghi.".to_vec());
    assert_eq!(needle.plans[1], b"adg.beh.cfi.".to_vec());
    assert_eq!(needle.plans[2], b"g.dh.aei.bf.c.".to_vec());
    assert_eq!(needle.plans[3], b"a.bd.ceg.fh.i.".to_vec());
}

#[test]
fn concrete_scenario_rows_cols_diag() {
    let grid = Crossword::new(3, b"abcdefghi".to_vec());
    for count in all_counts(&grid, b"ghi") {
        assert_eq!(count, 1);
    }
    for count in all_counts(&grid, b"cfi") {
        assert_eq!(count, 1);
    }
    for count in all_counts(&grid, b"aei") {
        assert_eq!(count, 1);
    }
}

#[test]
fn reverse_occurrences_count() {
    let grid = Crossword::new(3, b"abcdefghi".to_vec());
    // "ihg" is row 2 read backward; every strategy must count the mirror.
    for count in all_counts(&grid, b"ihg") {
        assert_eq!(count, 1);
    }
    // "gda" is column 0 read backward.
    for count in all_counts(&grid, b"gda") {
        assert_eq!(count, 1);
    }
}

#[test]
fn empty_word_yields_zero() {
    let grid = Crossword::new(3, b"abcdefghi".to_vec());
    for count in all_counts(&grid, b"") {
        assert_eq!(count, 0);
    }
}

#[test]
fn absent_word_yields_zero() {
    let grid = Crossword::new(3, b"abcdefghi".to_vec());
    for count in all_counts(&grid, b"zzz") {
        assert_eq!(count, 0);
    }
    for count in all_counts(&grid, b"abcd") {
        assert_eq!(count, 0);
    }
}

#[test]
fn palindrome_counted_once() {
    let grid = Crossword::new(3, b"ababcbaba".to_vec());
    // Rows "aba", "bcb", "aba"; palindrome "aba" sits in rows 0 and 2 and in
    // columns 0 and 2: exactly 4 anchors, and the mirror reading of each is
    // the same word, so no strategy may report 8.
    for count in all_counts(&grid, b"aba") {
        assert_eq!(count, 4);
    }
    for count in all_counts(&grid, b"bcb") {
        assert_eq!(count, 2);
    }
}

#[test]
fn overlapping_occurrences_all_count() {
    let grid = Crossword::new(1, b"aaaa".to_vec());
    // "aa" starts at three offsets of the single row; overlapping starts all
    // count, and the palindrome is not doubled.
    for count in all_counts(&grid, b"aa") {
        assert_eq!(count, 3);
    }
    for count in all_counts(&grid, b"aaa") {
        assert_eq!(count, 2);
    }
    for count in all_counts(&grid, b"aaaaa") {
        assert_eq!(count, 0);
    }
}

#[test]
fn boundary_word_exact_length() {
    let grid = Crossword::new(2, b"abcdef".to_vec());
    // Rows "abc", "def": a word as long as a row matches only the full rows.
    for count in all_counts(&grid, b"abc") {
        assert_eq!(count, 1);
    }
    for count in all_counts(&grid, b"bcd") {
        assert_eq!(count, 0);
    }
    // A word as long as a column matches only full columns ("ad", "be", "cf")
    // and their mirrors; "ab" appears only along row 0.
    for count in all_counts(&grid, b"ad") {
        assert_eq!(count, 1);
    }
}

#[test]
fn hash_long_word_reverification() {
    let grid = Crossword::new(3, b"abcdefghi".to_vec());
    // word_len 1 and 2 force the anchor re-verification path for 3-letter
    // queries.
    let h1 = CrosswordHashMap::new(&grid, 1);
    let h2 = CrosswordHashMap::new(&grid, 2);
    assert_eq!(h1.count_occurrences(b"ghi"), 1);
    assert_eq!(h2.count_occurrences(b"ghi"), 1);
    assert_eq!(h1.count_occurrences(b"ihg"), 1);
    assert_eq!(h2.count_occurrences(b"ihg"), 1);
    assert_eq!(h1.count_occurrences(b"ggg"), 0);
    assert_eq!(h2.count_occurrences(b"abd"), 0);
}

#[test]
fn trie_with_length_limit() {
    let grid = Crossword::new(3, b"abcdefghi".to_vec());
    let capped = Trie::new(&grid, Some(2));
    // Runs longer than the cap are not indexed whole.
    assert_eq!(capped.count_occurrences(b"ghi"), 0);
    assert_eq!(capped.count_occurrences(b"gh"), 1);
    let full = Trie::new(&grid, None);
    assert_eq!(full.count_occurrences(b"ghi"), 1);
}

#[test]
fn single_cell_grid() {
    let grid = Crossword::new(1, b"q".to_vec());
    let trie = Trie::new(&grid, None);
    // No direction offers a run of length 2, so the lone cell is inserted
    // once.
    assert_eq!(trie.count_occurrences(b"q"), 1);
    assert_eq!(trie.count_occurrences(b"qq"), 0);
    let needle = CrosswordNeedleSearch::new(&grid);
    assert_eq!(needle.count_occurrences(b"q"), 4);
}

#[test]
fn construction_repeats_agree() {
    let grid = Crossword::parse(b"abc\ndef\nghi").unwrap();
    let n1 = CrosswordNeedleSearch::new(&grid);
    let n2 = CrosswordNeedleSearch::new(&grid);
    let t1 = Trie::new(&grid, None);
    let t2 = Trie::new(&grid, None);
    let h1 = CrosswordHashMap::new(&grid, 2);
    let h2 = CrosswordHashMap::new(&grid, 2);
    let words: Vec<&[u8]> = vec![b"abc", b"aei", b"cfi", b"ihg", b"x", b"", b"beh"];
    for w in words {
        assert_eq!(n1.count_occurrences(w), n2.count_occurrences(w));
        assert_eq!(t1.count_occurrences(w), t2.count_occurrences(w));
        assert_eq!(h1.count_occurrences(w), h2.count_occurrences(w));
    }
}

#[test]
fn single_character_counting_conventions() {
    // Single characters are where the strategies legitimately part ways: the
    // oracle and the linearized index see one occurrence per direction (four
    // per matching cell), while the trie and the width-1 hash index count
    // each matching cell once. Wider hash indexes follow the oracle.
    let grid = Crossword::new(2, b"abca".to_vec());
    assert_eq!(NaiveSolver::new(&grid).count_occurrences(b"a"), 8);
    assert_eq!(CrosswordNeedleSearch::new(&grid).count_occurrences(b"a"), 8);
    assert_eq!(Trie::new(&grid, None).count_occurrences(b"a"), 2);
    assert_eq!(CrosswordHashMap::new(&grid, 1).count_occurrences(b"a"), 2);
    assert_eq!(CrosswordHashMap::new(&grid, 2).count_occurrences(b"a"), 8);
}

#[test]
fn hash_matches_oracle_on_sampled_words() {
    // The proven equivalence, exercised: every query of length 2 or more
    // (and every query when the configured length exceeds 1) agrees with the
    // brute-force scan.
    let grid = Crossword::parse(b"raceh
elcar
carhe
acehr
rheca").unwrap();
    let naive = NaiveSolver::new(&grid);
    let words: Vec<&[u8]> = vec![
        b"race", b"ecar", b"car", b"rac", b"ace", b"h", b"he", b"aaaa", b"racehorse", b"cc",
        b"raceh", b"hrace",
    ];
    let mut word_len = 1;
    while word_len <= 6 {
        let hash = CrosswordHashMap::new(&grid, word_len);
        for w in &words {
            if w.len() == 1 && word_len == 1 {
                continue;
            }
            assert_eq!(hash.count_occurrences(w), naive.count_occurrences(w));
        }
        word_len += 1;
    }
}

#[test]
fn trie_matches_oracle_on_sampled_words() {
    // The proven equivalence, exercised: with the default cap, every query
    // of length 2 or more agrees with the brute-force scan; a capped trie
    // agrees up to its cap and answers 0 above it.
    let grid = Crossword::parse(b"raceh
elcar
carhe
acehr
rheca").unwrap();
    let naive = NaiveSolver::new(&grid);
    let trie = Trie::new(&grid, None);
    let capped = Trie::new(&grid, Some(3));
    let words: Vec<&[u8]> = vec![
        b"race", b"ecar", b"car", b"rac", b"ace", b"he", b"aaaa", b"racehorse", b"cc", b"raceh",
        b"hrace", b"ar",
    ];
    for w in &words {
        assert_eq!(trie.count_occurrences(w), naive.count_occurrences(w));
        if w.len() <= 3 {
            assert_eq!(capped.count_occurrences(w), naive.count_occurrences(w));
        } else {
            assert_eq!(capped.count_occurrences(w), 0);
        }
    }
}

#[test]
fn estimate_sizes_are_positive() {
    let grid = Crossword::new(3, b"abcdefghi".to_vec());
    assert!(NaiveSolver::new(&grid).estimate_size() > 0);
    assert!(CrosswordNeedleSearch::new(&grid).estimate_size() > 0);
    assert!(Trie::new(&grid, None).estimate_size() > 0);
    assert!(CrosswordHashMap::new(&grid, 2).estimate_size() > 0);
}
