//! Phonetic classification of hiragana syllables: consonant rows, vowel
//! columns, and the near-miss relation between two syllables built on them.

use vstd::prelude::*;

verus! {

/// The consonant row of the gojuon table that a syllable belongs to.
#[derive(Copy, Clone, PartialEq, Eq, Structural, Hash, Debug)]
pub enum Consonant {
    A,
    Ka,
    Sa,
    Ta,
    Na,
    Ha,
    Ma,
    Ya,
    Ra,
    Wa,
}

/// The vowel column of the gojuon table that a syllable belongs to.
#[derive(Copy, Clone, PartialEq, Eq, Structural, Hash, Debug)]
pub enum Vowel {
    A,
    I,
    U,
    E,
    O,
}

/// How two differing syllables are close to each other.
#[derive(Copy, Clone, PartialEq, Eq, Structural, Hash, Debug)]
pub enum CloseStatus {
    /// Same consonant row, different vowel.
    Consonant,
    /// Same vowel, different consonant row.
    Vowel,
    /// Same row and same vowel (voicing or small forms aside).
    Close,
}

/// The consonant row of `c`: each row is a contiguous block of hiragana code
/// points, voiced and small forms included.
pub open spec fn consonant_of(c: char) -> Option<Consonant> {
    if 'ぁ' <= c && c <= 'お' {
        Some(Consonant::A)
    } else if 'か' <= c && c <= 'ご' {
        Some(Consonant::Ka)
    } else if 'さ' <= c && c <= 'ぞ' {
        Some(Consonant::Sa)
    } else if 'た' <= c && c <= 'ど' {
        Some(Consonant::Ta)
    } else if 'な' <= c && c <= 'の' {
        Some(Consonant::Na)
    } else if 'は' <= c && c <= 'ぽ' {
        Some(Consonant::Ha)
    } else if 'ま' <= c && c <= 'も' {
        Some(Consonant::Ma)
    } else if 'ゃ' <= c && c <= 'よ' {
        Some(Consonant::Ya)
    } else if 'ら' <= c && c <= 'ろ' {
        Some(Consonant::Ra)
    } else if c == 'わ' || c == 'を' {
        Some(Consonant::Wa)
    } else {
        None
    }
}

/// The vowel column of `c`, by membership in one table per vowel.
pub open spec fn vowel_of(c: char) -> Option<Vowel> {
    match c {
        'ぁ' | 'あ' | 'か' | 'さ' | 'た' | 'な' | 'は' | 'ま' | 'や' | 'ら' | 'わ' | 'が' | 'ざ' | 'だ'
        | 'ば' | 'ぱ' | 'ゃ' => Some(Vowel::A),
        'ぃ' | 'い' | 'き' | 'し' | 'ち' | 'に' | 'ひ' | 'み' | 'り' | 'ぎ' | 'じ' | 'ぢ' | 'び'
        | 'ぴ' => Some(Vowel::I),
        'ぅ' | 'う' | 'く' | 'す' | 'つ' | 'ぬ' | 'ふ' | 'む' | 'ゆ' | 'る' | 'ゔ' | 'ぐ' | 'ず' | 'づ'
        | 'っ' | 'ぶ' | 'ぷ' | 'ゅ' => Some(Vowel::U),
        'ぇ' | 'え' | 'け' | 'せ' | 'て' | 'ね' | 'へ' | 'め' | 'れ' | 'げ' | 'ぜ' | 'で' | 'べ'
        | 'ぺ' => Some(Vowel::E),
        'ぉ' | 'お' | 'こ' | 'そ' | 'と' | 'の' | 'ほ' | 'も' | 'よ' | 'ろ' | 'を' | 'ご' | 'ぞ' | 'ど'
        | 'ぼ' | 'ぽ' | 'ょ' => Some(Vowel::O),
        _ => None,
    }
}

/// `v` is the plain or small `u`, which `vu` stands close to although `vu`
/// has no consonant row.
pub open spec fn is_vu_partner(v: char, u: char) -> bool {
    v == 'ゔ' && (u == 'う' || u == 'ぅ')
}

/// Both syllables are fully classified and share their row or their vowel.
pub open spec fn shares_row_or_vowel(c1: char, c2: char) -> bool {
    &&& consonant_of(c1) is Some
    &&& consonant_of(c2) is Some
    &&& vowel_of(c1) is Some
    &&& vowel_of(c2) is Some
    &&& (consonant_of(c1) == consonant_of(c2) || vowel_of(c1) == vowel_of(c2))
}

/// The near-miss relation between two syllables.
pub open spec fn close_of(c1: char, c2: char) -> Option<CloseStatus> {
    if shares_row_or_vowel(c1, c2) {
        if consonant_of(c1) == consonant_of(c2) && vowel_of(c1) == vowel_of(c2) {
            Some(CloseStatus::Close)
        } else if consonant_of(c1) == consonant_of(c2) {
            Some(CloseStatus::Consonant)
        } else {
            Some(CloseStatus::Vowel)
        }
    } else if is_vu_partner(c1, c2) || is_vu_partner(c2, c1) {
        Some(CloseStatus::Close)
    } else {
        None
    }
}

/// The consonant row of `c`, or `None` for a character outside the table.
pub fn consonant(c: char) -> (r: Option<Consonant>)
    ensures
        r == consonant_of(c),
{
    if 'ぁ' <= c && c <= 'お' {
        Some(Consonant::A)
    } else if 'か' <= c && c <= 'ご' {
        Some(Consonant::Ka)
    } else if 'さ' <= c && c <= 'ぞ' {
        Some(Consonant::Sa)
    } else if 'た' <= c && c <= 'ど' {
        Some(Consonant::Ta)
    } else if 'な' <= c && c <= 'の' {
        Some(Consonant::Na)
    } else if 'は' <= c && c <= 'ぽ' {
        Some(Consonant::Ha)
    } else if 'ま' <= c && c <= 'も' {
        Some(Consonant::Ma)
    } else if 'ゃ' <= c && c <= 'よ' {
        Some(Consonant::Ya)
    } else if 'ら' <= c && c <= 'ろ' {
        Some(Consonant::Ra)
    } else if c == 'わ' || c == 'を' {
        Some(Consonant::Wa)
    } else {
        None
    }
}

/// The vowel column of `c`, or `None` for a character outside the table.
pub fn vowel(c: char) -> (r: Option<Vowel>)
    ensures
        r == vowel_of(c),
{
    match c {
        'ぁ' | 'あ' | 'か' | 'さ' | 'た' | 'な' | 'は' | 'ま' | 'や' | 'ら' | 'わ' | 'が' | 'ざ' | 'だ'
        | 'ば' | 'ぱ' | 'ゃ' => Some(Vowel::A),
        'ぃ' | 'い' | 'き' | 'し' | 'ち' | 'に' | 'ひ' | 'み' | 'り' | 'ぎ' | 'じ' | 'ぢ' | 'び'
        | 'ぴ' => Some(Vowel::I),
        'ぅ' | 'う' | 'く' | 'す' | 'つ' | 'ぬ' | 'ふ' | 'む' | 'ゆ' | 'る' | 'ゔ' | 'ぐ' | 'ず' | 'づ'
        | 'っ' | 'ぶ' | 'ぷ' | 'ゅ' => Some(Vowel::U),
        'ぇ' | 'え' | 'け' | 'せ' | 'て' | 'ね' | 'へ' | 'め' | 'れ' | 'げ' | 'ぜ' | 'で' | 'べ'
        | 'ぺ' => Some(Vowel::E),
        'ぉ' | 'お' | 'こ' | 'そ' | 'と' | 'の' | 'ほ' | 'も' | 'よ' | 'ろ' | 'を' | 'ご' | 'ぞ' | 'ど'
        | 'ぼ' | 'ぽ' | 'ょ' => Some(Vowel::O),
        _ => None,
    }
}

/// Whether `u` is the plain or small `u` that the syllable `vu` is close to.
fn is_u(u: char) -> (r: bool)
    ensures
        r == (u == 'う' || u == 'ぅ'),
{
    u == 'う' || u == 'ぅ'
}

/// The near-miss relation between `c1` and `c2`: `Close` when both row and
/// vowel agree (or for `vu` against `u`), `Consonant` or `Vowel` when only one
/// of them does, `None` when neither does.
pub fn close_status(c1: char, c2: char) -> (r: Option<CloseStatus>)
    ensures
        r == close_of(c1, c2),
{
    let k1 = consonant(c1);
    let k2 = consonant(c2);
    let v1 = vowel(c1);
    let v2 = vowel(c2);
    match (k1, k2, v1, v2) {
        (Some(k1), Some(k2), Some(v1), Some(v2)) => {
            if k1 == k2 && v1 == v2 {
                return Some(CloseStatus::Close);
            } else if k1 == k2 {
                return Some(CloseStatus::Consonant);
            } else if v1 == v2 {
                return Some(CloseStatus::Vowel);
            }
        },
        _ => {},
    }
    if (c1 == 'ゔ' && is_u(c2)) || (c2 == 'ゔ' && is_u(c1)) {
        Some(CloseStatus::Close)
    } else {
        None
    }
}

/// The near-miss relation does not depend on the order of its arguments.
pub proof fn lemma_close_symmetric(a: char, b: char)
    ensures
        close_of(a, b) == close_of(b, a),
{
}

} // verus!
