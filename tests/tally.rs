use kana_wordle::tally::{all_pattern_counts, all_words_str, pattern_counts};
use kana_wordle::tiles::Tile::{Absent, Close, Consonant, Correct, Present, Vowel};
use kana_wordle::tiles::{word_tiles, WORD_LEN};

fn words(ws: &[&str]) -> Vec<String> {
    ws.iter().map(|w| w.to_string()).collect()
}

#[test]
fn counts_by_first_occurrence() {
    let cands = words(&["せいかん", "かんせい", "せいかん", "ともしび"]);
    let counts = pattern_counts("かんせい", &cands);
    assert_eq!(
        counts,
        vec![
            ([Present; WORD_LEN], 2),
            ([Correct; WORD_LEN], 1),
            ([Absent, Absent, Consonant, Vowel], 1),
        ]
    );
}

#[test]
fn single_candidate_gives_one_entry() {
    let cands = words(&["げんざい"]);
    let counts = pattern_counts("けんざい", &cands);
    assert_eq!(counts, vec![([Close, Correct, Correct, Correct], 1)]);
}

#[test]
fn identical_patterns_give_one_entry() {
    let cands = words(&["ともしび", "ぬぬぬぬ", "ろろろろ"]);
    let counts = pattern_counts("かかかか", &cands);
    assert_eq!(counts, vec![([Absent; WORD_LEN], 3)]);
}

#[test]
fn distinct_patterns_count_once_each() {
    let cands = words(&["かんせい", "せいかん", "ともしび", "けんせい"]);
    let counts = pattern_counts("かんせい", &cands);
    assert_eq!(counts.len(), cands.len());
    for (i, (p, n)) in counts.iter().enumerate() {
        assert_eq!(*n, 1);
        assert_eq!(*p, word_tiles("かんせい", &cands[i]));
    }
}

#[test]
fn counts_add_up_to_candidates() {
    let cands = words(&["かたよる", "かたまる", "かんじん", "かんぱい", "ほしがる", "はつげん"]);
    for g in cands.iter() {
        let counts = pattern_counts(g, &cands);
        let sum: usize = counts.iter().map(|e| e.1).sum();
        assert_eq!(sum, cands.len());
        assert!(counts.iter().all(|e| e.1 >= 1));
    }
}

#[test]
fn empty_candidates_give_empty_table() {
    let cands: Vec<String> = Vec::new();
    assert!(pattern_counts("かんせい", &cands).is_empty());
}

#[test]
fn parallel_counts_follow_guess_order() {
    let guesses = words(&["ともしび", "かんせい", "けんざい"]);
    let cands = words(&["げんざい", "かんせい", "せいかん"]);
    let all = all_pattern_counts(&guesses, &cands);
    assert_eq!(all.len(), guesses.len());
    for (i, g) in guesses.iter().enumerate() {
        assert_eq!(all[i], pattern_counts(g, &cands));
    }
    assert_eq!(
        all[1],
        vec![
            ([Consonant, Correct, Consonant, Correct], 1),
            ([Correct; WORD_LEN], 1),
            ([Present; WORD_LEN], 1),
        ]
    );
}

#[test]
fn word_list_length_check() {
    assert!(all_words_str(&words(&["かんせい", "せいかん"])));
    assert!(all_words_str(&words(&[])));
    assert!(!all_words_str(&words(&["かんせい", "せいか"])));
}
