//! Feedback for one guess against one answer, with the Wordle rule for
//! repeated syllables: exact matches first, then near misses, then presence.

use vstd::prelude::*;
use crate::kana::{CloseStatus, close_of, close_status};

verus! {

broadcast use vstd::seq_lib::group_to_multiset_ensures;

/// Number of syllables in every word.
pub const WORD_LEN: usize = 4;

/// Feedback for one position of a guess.
#[derive(Copy, Clone, PartialEq, Eq, Structural, Hash, Debug)]
pub enum Tile {
    Absent,
    Present,
    Correct,
    Consonant,
    Vowel,
    Close,
}

/// Feedback for a whole guess, one tile per position.
pub type Pattern = [Tile; WORD_LEN];

/// A word of the game: exactly `WORD_LEN` syllables.
pub open spec fn is_word(w: Seq<char>) -> bool {
    w.len() == WORD_LEN
}

/// Whether `w` has exactly `WORD_LEN` syllables.
pub fn is_word_str(w: &str) -> (r: bool)
    ensures
        r == is_word(w@),
{
    w.unicode_len() == WORD_LEN
}

/// The near-miss tile for a differing position, `Absent` where the two
/// syllables are not close.
pub open spec fn near_tile(g: char, a: char) -> Tile {
    match close_of(g, a) {
        Some(CloseStatus::Close) => Tile::Close,
        Some(CloseStatus::Consonant) => Tile::Consonant,
        Some(CloseStatus::Vowel) => Tile::Vowel,
        None => Tile::Absent,
    }
}

/// Position `i` may still become `Present`: it is neither an exact match nor
/// a `Close` near miss.
pub open spec fn open_at(g: Seq<char>, a: Seq<char>, i: int) -> bool {
    g[i] != a[i] && close_of(g[i], a[i]) != Some(CloseStatus::Close)
}

/// Number of positions below `n` where the answer holds `c` and the guess
/// does not match it exactly: the occurrences of `c` left for `Present`.
pub open spec fn spare_below(g: Seq<char>, a: Seq<char>, c: char, n: int) -> nat
    decreases n,
{
    if n <= 0 {
        0
    } else {
        spare_below(g, a, c, n - 1) + if a[n - 1] == c && g[n - 1] != c { 1nat } else { 0nat }
    }
}

/// Number of open positions below `n` whose guess syllable is `c`.
pub open spec fn open_below(g: Seq<char>, a: Seq<char>, c: char, n: int) -> nat
    decreases n,
{
    if n <= 0 {
        0
    } else {
        open_below(g, a, c, n - 1) + if g[n - 1] == c && open_at(g, a, n - 1) {
            1nat
        } else {
            0nat
        }
    }
}

/// The tile at position `i`: exact match, then a `Close` near miss, then
/// presence among the answer syllables not matched exactly (taken by the open
/// positions from left to right), then the weaker near misses, then `Absent`.
pub open spec fn tile_at(g: Seq<char>, a: Seq<char>, i: int) -> Tile {
    if g[i] == a[i] {
        Tile::Correct
    } else if close_of(g[i], a[i]) == Some(CloseStatus::Close) {
        Tile::Close
    } else if open_below(g, a, g[i], i) < spare_below(g, a, g[i], a.len() as int) {
        Tile::Present
    } else {
        near_tile(g[i], a[i])
    }
}

/// The feedback pattern of guess `g` against answer `a`.
pub open spec fn pattern_of(g: Seq<char>, a: Seq<char>) -> Seq<Tile> {
    Seq::new(WORD_LEN as nat, |i: int| tile_at(g, a, i))
}

/// Index of some occurrence of `c` in `v`.
fn find_char(v: &Vec<char>, c: char) -> (r: Option<usize>)
    ensures
        match r {
            Some(k) => k < v@.len() && v@[k as int] == c,
            None => !v@.contains(c),
        },
{
    let mut k: usize = 0;
    while k < v.len()
        invariant
            k <= v@.len(),
            forall|j: int| 0 <= j < k ==> v@[j] != c,
        decreases v@.len() - k,
    {
        if v[k] == c {
            return Some(k);
        }
        k += 1;
    }
    None
}

/// The near-miss tile of `g` against `a`.
fn near_miss(g: char, a: char) -> (r: Tile)
    ensures
        r == near_tile(g, a),
{
    match close_status(g, a) {
        Some(CloseStatus::Close) => Tile::Close,
        Some(CloseStatus::Consonant) => Tile::Consonant,
        Some(CloseStatus::Vowel) => Tile::Vowel,
        None => Tile::Absent,
    }
}

/// Scores `guess` against `answer`, position by position.
pub fn word_tiles(guess: &str, answer: &str) -> (r: Pattern)
    requires
        is_word(guess@),
        is_word(answer@),
    ensures
        r@ == pattern_of(guess@, answer@),
{
    let ghost g = guess@;
    let ghost a = answer@;
    let mut tiles: Pattern = [Tile::Absent, Tile::Absent, Tile::Absent, Tile::Absent];
    let mut chars: Vec<char> = Vec::new();
    let mut i: usize = 0;
    while i < WORD_LEN
        invariant
            i <= WORD_LEN,
            is_word(g),
            is_word(a),
            guess@ == g,
            answer@ == a,
            chars@ == a.take(i as int),
        decreases WORD_LEN - i,
    {
        chars.push(answer.get_char(i));
        i += 1;
    }
    assert(chars@ == a);

    // Exact matches: each one takes its syllable out of the remaining answer.
    let mut i: usize = 0;
    while i < WORD_LEN
        invariant
            i <= WORD_LEN,
            is_word(g),
            is_word(a),
            guess@ == g,
            answer@ == a,
            forall|c: char|
                chars@.to_multiset().count(c) == a.skip(i as int).to_multiset().count(c)
                    + spare_below(g, a, c, i as int),
            forall|j: int| 0 <= j < i ==> tiles@[j] == if g[j] == a[j] {
                Tile::Correct
            } else {
                Tile::Absent
            },
            forall|j: int| i <= j < WORD_LEN ==> tiles@[j] == Tile::Absent,
        decreases WORD_LEN - i,
    {
        let gc = guess.get_char(i);
        let ac = answer.get_char(i);
        proof {
            let s = a.skip(i as int);
            assert(s.remove(0) =~= a.skip(i + 1));
            assert(s[0] == ac);
        }
        if gc == ac {
            tiles[i] = Tile::Correct;
            match find_char(&chars, gc) {
                Some(k) => {
                    chars.remove(k);
                },
                None => {
                    assert(chars@.to_multiset().count(gc) > 0);
                },
            }
        }
        i += 1;
    }
    assert(a.skip(WORD_LEN as int) =~= Seq::<char>::empty());

    // Near misses, on the positions that did not match exactly.
    let mut i: usize = 0;
    while i < WORD_LEN
        invariant
            i <= WORD_LEN,
            is_word(g),
            is_word(a),
            guess@ == g,
            answer@ == a,
            forall|c: char|
                chars@.to_multiset().count(c) == spare_below(g, a, c, WORD_LEN as int),
            forall|j: int| 0 <= j < i ==> tiles@[j] == if g[j] == a[j] {
                Tile::Correct
            } else {
                near_tile(g[j], a[j])
            },
            forall|j: int| i <= j < WORD_LEN ==> tiles@[j] == if g[j] == a[j] {
                Tile::Correct
            } else {
                Tile::Absent
            },
        decreases WORD_LEN - i,
    {
        if tiles[i] == Tile::Absent {
            tiles[i] = near_miss(guess.get_char(i), answer.get_char(i));
        }
        i += 1;
    }

    // Presence: an open position takes one remaining occurrence of its syllable.
    let mut i: usize = 0;
    while i < WORD_LEN
        invariant
            i <= WORD_LEN,
            is_word(g),
            is_word(a),
            guess@ == g,
            answer@ == a,
            forall|c: char|
                #![trigger chars@.to_multiset().count(c)]
                if open_below(g, a, c, i as int) <= spare_below(g, a, c, WORD_LEN as int) {
                    chars@.to_multiset().count(c) == spare_below(g, a, c, WORD_LEN as int)
                        - open_below(g, a, c, i as int)
                } else {
                    chars@.to_multiset().count(c) == 0
                },
            forall|j: int| 0 <= j < i ==> tiles@[j] == tile_at(g, a, j),
            forall|j: int| i <= j < WORD_LEN ==> tiles@[j] == if g[j] == a[j] {
                Tile::Correct
            } else {
                near_tile(g[j], a[j])
            },
        decreases WORD_LEN - i,
    {
        let gc = guess.get_char(i);
        if tiles[i] != Tile::Correct && tiles[i] != Tile::Close {
            assert(open_at(g, a, i as int));
            match find_char(&chars, gc) {
                Some(k) => {
                    assert(chars@.to_multiset().count(gc) > 0);
                    assert(open_below(g, a, gc, i as int) < spare_below(g, a, gc, WORD_LEN as int));
                    tiles[i] = Tile::Present;
                    chars.remove(k);
                },
                None => {
                    assert(chars@.to_multiset().count(gc) == 0);
                    assert(!(open_below(g, a, gc, i as int) < spare_below(g, a, gc, WORD_LEN as int)));
                },
            }
        }
        assert(tiles@[i as int] == tile_at(g, a, i as int));
        i += 1;
    }
    assert(tiles@ =~= pattern_of(g, a));
    tiles
}

/// Number of positions below `n` where pattern `p` shows tile `t` and the
/// guess `g` holds syllable `c`.
pub open spec fn tagged_below(p: Seq<Tile>, g: Seq<char>, t: Tile, c: char, n: int) -> nat
    decreases n,
{
    if n <= 0 {
        0
    } else {
        tagged_below(p, g, t, c, n - 1) + if p[n - 1] == t && g[n - 1] == c {
            1nat
        } else {
            0nat
        }
    }
}

/// A word scored against itself is correct at every position.
pub proof fn lemma_self_all_correct(w: Seq<char>)
    requires
        is_word(w),
    ensures
        pattern_of(w, w) == Seq::new(WORD_LEN as nat, |i: int| Tile::Correct),
{
    assert(pattern_of(w, w) =~= Seq::new(WORD_LEN as nat, |i: int| Tile::Correct));
}

/// The exact matches on `c` and the spare occurrences of `c` below `n`
/// together are the occurrences of `c` in the first `n` answer syllables.
proof fn lemma_correct_and_spare(g: Seq<char>, a: Seq<char>, c: char, n: int)
    requires
        is_word(g),
        is_word(a),
        0 <= n <= WORD_LEN,
    ensures
        tagged_below(pattern_of(g, a), g, Tile::Correct, c, n) + spare_below(g, a, c, n)
            == a.take(n).to_multiset().count(c),
    decreases n,
{
    if n > 0 {
        lemma_correct_and_spare(g, a, c, n - 1);
        assert(a.take(n) =~= a.take(n - 1).push(a[n - 1]));
    } else {
        assert(a.take(n) =~= Seq::<char>::empty());
    }
}

/// The open positions below `n` that show `Present` for `c` are as many as
/// the open positions holding `c`, up to the spare occurrences of `c`.
proof fn lemma_present_count(g: Seq<char>, a: Seq<char>, c: char, n: int)
    requires
        is_word(g),
        is_word(a),
        0 <= n <= WORD_LEN,
    ensures
        tagged_below(pattern_of(g, a), g, Tile::Present, c, n) == if open_below(g, a, c, n)
            <= spare_below(g, a, c, WORD_LEN as int) {
            open_below(g, a, c, n)
        } else {
            spare_below(g, a, c, WORD_LEN as int)
        },
    decreases n,
{
    if n > 0 {
        lemma_present_count(g, a, c, n - 1);
    }
}

/// No syllable is counted more often than the answer holds it: for each
/// syllable, its `Correct` tiles plus its `Present` tiles are at most its
/// occurrences in the answer.
pub proof fn lemma_no_double_count(g: Seq<char>, a: Seq<char>, c: char)
    requires
        is_word(g),
        is_word(a),
    ensures
        tagged_below(pattern_of(g, a), g, Tile::Correct, c, WORD_LEN as int) + tagged_below(
            pattern_of(g, a),
            g,
            Tile::Present,
            c,
            WORD_LEN as int,
        ) <= a.to_multiset().count(c),
{
    lemma_correct_and_spare(g, a, c, WORD_LEN as int);
    lemma_present_count(g, a, c, WORD_LEN as int);
    assert(a.take(WORD_LEN as int) =~= a);
}

} // verus!
