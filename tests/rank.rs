use kana_wordle::rank::{top_ranked, word_less};

fn entries(es: &[(&str, u64)]) -> Vec<(String, u64)> {
    es.iter().map(|(w, s)| (w.to_string(), *s)).collect()
}

#[test]
fn best_first_and_cut_at_k() {
    let es = entries(&[("あ", 5), ("い", 7), ("う", 9), ("え", 1)]);
    assert_eq!(top_ranked(&es, 2), vec![2, 1]);
    assert_eq!(top_ranked(&es, 4), vec![2, 1, 0, 3]);
}

#[test]
fn length_is_min_of_k_and_entries() {
    let es = entries(&[("あ", 5), ("い", 7), ("う", 9)]);
    assert_eq!(top_ranked(&es, 10).len(), 3);
    assert_eq!(top_ranked(&es, 0), Vec::<usize>::new());
    assert_eq!(top_ranked(&entries(&[]), 10), Vec::<usize>::new());
}

#[test]
fn ties_go_to_smaller_word_then_earlier_entry() {
    let es = entries(&[("かんせい", 3), ("かたまる", 3), ("かんせい", 3), ("ほしがる", 4)]);
    assert_eq!(top_ranked(&es, 10), vec![3, 1, 0, 2]);
}

#[test]
fn same_result_for_same_input() {
    let es = entries(&[("い", 2), ("あ", 2), ("う", 2), ("え", 8), ("お", 0)]);
    let first = top_ranked(&es, 3);
    assert_eq!(first, vec![3, 1, 0]);
    assert_eq!(top_ranked(&es, 3), first);
}

#[test]
fn lexicographic_order() {
    assert!(word_less("かた", "かん"));
    assert!(!word_less("かん", "かた"));
    assert!(word_less("かん", "かんせい"));
    assert!(!word_less("かんせい", "かん"));
    assert!(!word_less("かん", "かん"));
    assert!(word_less("", "あ"));
}
