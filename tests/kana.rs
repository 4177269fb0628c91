use kana_wordle::kana::{close_status, consonant, vowel, CloseStatus, Consonant, Vowel};

#[test]
fn close() {
    assert_eq!(close_status('ゔ', 'う'), Some(CloseStatus::Close));
}

#[test]
fn consonant_rows() {
    assert_eq!(consonant('ぁ'), Some(Consonant::A));
    assert_eq!(consonant('お'), Some(Consonant::A));
    assert_eq!(consonant('が'), Some(Consonant::Ka));
    assert_eq!(consonant('ぞ'), Some(Consonant::Sa));
    assert_eq!(consonant('っ'), Some(Consonant::Ta));
    assert_eq!(consonant('の'), Some(Consonant::Na));
    assert_eq!(consonant('ぽ'), Some(Consonant::Ha));
    assert_eq!(consonant('む'), Some(Consonant::Ma));
    assert_eq!(consonant('ゃ'), Some(Consonant::Ya));
    assert_eq!(consonant('ろ'), Some(Consonant::Ra));
    assert_eq!(consonant('を'), Some(Consonant::Wa));
    assert_eq!(consonant('ん'), None);
    assert_eq!(consonant('ゔ'), None);
    assert_eq!(consonant('ー'), None);
    assert_eq!(consonant('a'), None);
}

#[test]
fn vowel_columns() {
    assert_eq!(vowel('ゃ'), Some(Vowel::A));
    assert_eq!(vowel('ぢ'), Some(Vowel::I));
    assert_eq!(vowel('ゔ'), Some(Vowel::U));
    assert_eq!(vowel('っ'), Some(Vowel::U));
    assert_eq!(vowel('ぺ'), Some(Vowel::E));
    assert_eq!(vowel('を'), Some(Vowel::O));
    assert_eq!(vowel('ん'), None);
    assert_eq!(vowel('ー'), None);
}

#[test]
fn close_status_kinds() {
    assert_eq!(close_status('げ', 'け'), Some(CloseStatus::Close));
    assert_eq!(close_status('っ', 'つ'), Some(CloseStatus::Close));
    assert_eq!(close_status('け', 'か'), Some(CloseStatus::Consonant));
    assert_eq!(close_status('と', 'こ'), Some(CloseStatus::Vowel));
    assert_eq!(close_status('ぅ', 'ゔ'), Some(CloseStatus::Close));
    assert_eq!(close_status('ゔ', 'く'), None);
    assert_eq!(close_status('か', 'ん'), None);
    assert_eq!(close_status('か', 'し'), None);
}

#[test]
fn close_status_symmetric() {
    let syllables = ['か', 'が', 'き', 'さ', 'ん', 'ゔ', 'う', 'ぅ', 'っ', 'つ', 'を', 'ー'];
    for &a in syllables.iter() {
        for &b in syllables.iter() {
            if a != b {
                assert_eq!(close_status(a, b), close_status(b, a));
            }
        }
    }
}
