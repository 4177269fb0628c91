use kana_wordle::tiles::{is_word_str, word_tiles, WORD_LEN};
use kana_wordle::tiles::Tile::{Absent, Close, Consonant, Correct, Present, Vowel};

#[test]
fn correct_absent() {
    assert_eq!(word_tiles("ほしがる", "ほしがる"), [Correct; WORD_LEN]);
    assert_eq!(
        word_tiles("かたまる", "かたよる"),
        [Correct, Correct, Absent, Correct]
    );
    assert_eq!(
        word_tiles("かたまる", "かたよる"),
        [Correct, Correct, Absent, Correct]
    );
    assert_eq!(
        word_tiles("かんじん", "かんぱい"),
        [Correct, Correct, Absent, Absent]
    );
    assert_eq!(
        word_tiles("ともしび", "かたかな"),
        [Absent, Absent, Absent, Absent]
    );
}

#[test]
fn correct_present() {
    assert_eq!(word_tiles("かんせい", "せいかん"), [Present; WORD_LEN]);
    assert_eq!(
        word_tiles("せいかい", "かいせい"),
        [Present, Correct, Present, Correct]
    );
    assert_eq!(
        word_tiles("あたなら", "あらたな"),
        [Correct, Present, Present, Present]
    );
}

#[test]
fn consonant_vowel() {
    assert_eq!(
        word_tiles("げんざい", "けんざい"),
        [Close, Correct, Correct, Correct]
    );
    assert_eq!(
        word_tiles("けってい", "かつどう"),
        [Consonant, Close, Consonant, Consonant]
    );
    assert_eq!(
        word_tiles("はっけん", "はつげん"),
        [Correct, Close, Close, Correct]
    );
    assert_eq!(
        word_tiles("とつぜん", "こいぶみ"),
        [Vowel, Absent, Absent, Absent]
    );
    assert_eq!(
        word_tiles("かいぶつ", "こしょう"),
        [Consonant, Vowel, Absent, Vowel]
    );
    assert_eq!(
        word_tiles("だいざい", "たいだん"),
        [Close, Correct, Vowel, Absent]
    );
    assert_eq!(
        word_tiles("だいたい", "たいたい"),
        [Close, Correct, Correct, Correct]
    );
}

#[test]
fn self_score_is_all_correct() {
    for w in ["かんせい", "ああああ", "ゔーんと", "ほしがる"] {
        assert_eq!(word_tiles(w, w), [Correct; WORD_LEN]);
    }
}

#[test]
fn repeated_syllable_is_counted_once() {
    assert_eq!(
        word_tiles("かかかん", "んかせか"),
        [Present, Correct, Absent, Present]
    );
    assert_eq!(
        word_tiles("かかかた", "たいかん"),
        [Vowel, Absent, Correct, Present]
    );
    assert_eq!(
        word_tiles("かかかか", "かんせい"),
        [Correct, Absent, Absent, Absent]
    );
}

#[test]
fn repeated_syllable_counts_stay_within_answer() {
    let pairs = [
        ("かかかん", "んかせか"),
        ("かかかか", "かんせい"),
        ("かいかい", "いかかい"),
        ("かかいた", "たいかか"),
    ];
    for (guess, answer) in pairs {
        let tiles = word_tiles(guess, answer);
        let g: Vec<char> = guess.chars().collect();
        for c in g.iter() {
            let shown = (0..WORD_LEN)
                .filter(|&i| g[i] == *c && (tiles[i] == Correct || tiles[i] == Present))
                .count();
            let held = answer.chars().filter(|a| a == c).count();
            assert!(shown <= held);
        }
    }
}

#[test]
fn near_miss_gives_way_to_presence() {
    assert_eq!(
        word_tiles("きかたな", "かくせい"),
        [Consonant, Present, Absent, Absent]
    );
}

#[test]
fn close_blocks_presence() {
    assert_eq!(
        word_tiles("がかさた", "かんせい"),
        [Close, Present, Consonant, Absent]
    );
    assert_eq!(
        word_tiles("ゔかかか", "うかかか"),
        [Close, Correct, Correct, Correct]
    );
}

#[test]
fn all_present_when_rearranged() {
    assert_eq!(word_tiles("かかいた", "たいかか"), [Present; WORD_LEN]);
}

#[test]
fn word_length_check() {
    assert!(is_word_str("かんせい"));
    assert!(!is_word_str("かんせ"));
    assert!(!is_word_str("かんせいい"));
    assert!(!is_word_str(""));
}
