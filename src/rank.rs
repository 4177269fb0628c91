//! Selection of the best-scoring words, highest score first, with a fixed
//! tie-break so that the outcome depends on the input alone.

use vstd::prelude::*;

verus! {

/// `x` comes before `y` in lexicographic order, comparing from position `i`
/// on (the positions below `i` being equal).
pub open spec fn lex_lt_from(x: Seq<char>, y: Seq<char>, i: int) -> bool
    decreases x.len() - i,
{
    if i >= x.len() {
        i < y.len()
    } else if i >= y.len() {
        false
    } else if x[i] != y[i] {
        x[i] < y[i]
    } else {
        lex_lt_from(x, y, i + 1)
    }
}

/// `x` comes before `y` in lexicographic order of code points.
pub open spec fn word_lt(x: Seq<char>, y: Seq<char>) -> bool {
    lex_lt_from(x, y, 0)
}

/// Entry `x` ranks above entry `y`: a higher score, then the lexicographically
/// smaller word, then the earlier position.
pub open spec fn ranks_above(entries: Seq<(String, u64)>, x: int, y: int) -> bool {
    let (wx, sx) = (entries[x].0@, entries[x].1);
    let (wy, sy) = (entries[y].0@, entries[y].1);
    sx > sy || (sx == sy && (word_lt(wx, wy) || (wx == wy && x < y)))
}

/// The smaller of `k` and `n`.
pub open spec fn min_len(k: nat, n: nat) -> nat {
    if k <= n {
        k
    } else {
        n
    }
}

/// `r` lists the `k` best entries (all of them if there are fewer), best
/// first: positions of `entries`, each ranking above the next, and each
/// ranking above every entry left out.
pub open spec fn is_ranking(entries: Seq<(String, u64)>, k: nat, r: Seq<usize>) -> bool {
    &&& r.len() == min_len(k, entries.len())
    &&& forall|i: int| 0 <= i < r.len() ==> #[trigger] r[i] < entries.len()
    &&& forall|i: int, j: int|
        0 <= i < j < r.len() ==> #[trigger] ranks_above(entries, r[i] as int, r[j] as int)
    &&& forall|i: int, y: int|
        0 <= i < r.len() && 0 <= y < entries.len() && !r.contains(y as usize)
            ==> #[trigger] ranks_above(entries, r[i] as int, y)
}

proof fn lemma_lex_irreflexive(x: Seq<char>, i: int)
    requires
        0 <= i,
    ensures
        !lex_lt_from(x, x, i),
    decreases x.len() - i,
{
    if i < x.len() {
        lemma_lex_irreflexive(x, i + 1);
    }
}

proof fn lemma_lex_transitive(x: Seq<char>, y: Seq<char>, z: Seq<char>, i: int)
    requires
        0 <= i,
        lex_lt_from(x, y, i),
        lex_lt_from(y, z, i),
    ensures
        lex_lt_from(x, z, i),
    decreases x.len() - i,
{
    if i < x.len() && i < y.len() && i < z.len() && x[i] == y[i] && y[i] == z[i] {
        lemma_lex_transitive(x, y, z, i + 1);
    }
}

proof fn lemma_lex_total(x: Seq<char>, y: Seq<char>, i: int)
    requires
        0 <= i,
        forall|j: int| 0 <= j < i && j < x.len() ==> x[j] == y[j],
        i <= x.len(),
        i <= y.len(),
    ensures
        lex_lt_from(x, y, i) || lex_lt_from(y, x, i) || x == y,
    decreases x.len() - i,
{
    if i < x.len() && i < y.len() && x[i] == y[i] {
        lemma_lex_total(x, y, i + 1);
    } else if i == x.len() && i == y.len() {
        assert(x =~= y);
    }
}

/// Ranking above is a strict total order on the positions of `entries`.
proof fn lemma_ranks_above_order(entries: Seq<(String, u64)>)
    ensures
        forall|x: int| !ranks_above(entries, x, x),
        forall|x: int, y: int, z: int|
            #[trigger] ranks_above(entries, x, y) && #[trigger] ranks_above(entries, y, z)
                ==> ranks_above(entries, x, z),
        forall|x: int, y: int|
            x != y ==> #[trigger] ranks_above(entries, x, y) || ranks_above(entries, y, x),
{
    assert forall|x: int| !ranks_above(entries, x, x) by {
        lemma_lex_irreflexive(entries[x].0@, 0);
    }
    assert forall|x: int, y: int, z: int|
        #[trigger] ranks_above(entries, x, y) && #[trigger] ranks_above(entries, y, z)
            implies ranks_above(entries, x, z) by {
        let (wx, wy, wz) = (entries[x].0@, entries[y].0@, entries[z].0@);
        if word_lt(wx, wy) && word_lt(wy, wz) {
            lemma_lex_transitive(wx, wy, wz, 0);
        }
    }
    assert forall|x: int, y: int| x != y implies #[trigger] ranks_above(entries, x, y)
        || ranks_above(entries, y, x) by {
        lemma_lex_total(entries[x].0@, entries[y].0@, 0);
    }
}

/// Whether `x` comes before `y` in lexicographic order of code points.
pub fn word_less(x: &str, y: &str) -> (r: bool)
    ensures
        r == word_lt(x@, y@),
{
    let n = x.unicode_len();
    let m = y.unicode_len();
    let mut i: usize = 0;
    while i < n && i < m
        invariant
            n == x@.len(),
            m == y@.len(),
            i <= n,
            i <= m,
            word_lt(x@, y@) == lex_lt_from(x@, y@, i as int),
        decreases n - i,
    {
        let a = x.get_char(i);
        let b = y.get_char(i);
        if a != b {
            return a < b;
        }
        i += 1;
    }
    i == n && i < m
}

/// Whether entry `x` ranks above entry `y`.
fn ranks_above_at(entries: &Vec<(String, u64)>, x: usize, y: usize) -> (r: bool)
    requires
        x < entries@.len(),
        y < entries@.len(),
    ensures
        r == ranks_above(entries@, x as int, y as int),
{
    let sx = entries[x].1;
    let sy = entries[y].1;
    if sx != sy {
        sx > sy
    } else if word_less(entries[x].0.as_str(), entries[y].0.as_str()) {
        true
    } else {
        entries[x].0 == entries[y].0 && x < y
    }
}

/// The positions of the `k` best entries (all entries if there are fewer),
/// best first: a higher score ranks above a lower one, and among equal scores
/// the lexicographically smaller word, then the earlier position, ranks above.
pub fn top_ranked(entries: &Vec<(String, u64)>, k: usize) -> (r: Vec<usize>)
    ensures
        is_ranking(entries@, k as nat, r@),
{
    let n = entries.len();
    let want = if k < n {
        k
    } else {
        n
    };
    let mut perm: Vec<usize> = Vec::new();
    let mut p: usize = 0;
    while p < n
        invariant
            p <= n,
            n == entries@.len(),
            perm@.len() == p,
            forall|q: int| 0 <= q < p ==> perm@[q] == q,
        decreases n - p,
    {
        perm.push(p);
        p += 1;
    }
    proof {
        lemma_ranks_above_order(entries@);
        assert forall|a: int, b: int| 0 <= a < b < n implies perm@[a] != perm@[b] by {
            assert(perm@[a] == a && perm@[b] == b);
        }
        assert forall|y: usize| y < n implies #[trigger] perm@.contains(y) by {
            assert(perm@[y as int] == y);
        }
    }
    let mut i: usize = 0;
    while i < want
        invariant
            i <= want,
            want <= n,
            want == min_len(k as nat, n as nat),
            n == entries@.len(),
            perm@.len() == n,
            forall|q: int| 0 <= q < n ==> #[trigger] perm@[q] < n,
            forall|a: int, b: int| 0 <= a < b < n ==> perm@[a] != perm@[b],
            forall|y: usize| y < n ==> #[trigger] perm@.contains(y),
            forall|a: int, b: int|
                0 <= a < i && a < b < n ==> #[trigger] ranks_above(
                    entries@,
                    perm@[a] as int,
                    perm@[b] as int,
                ),
            forall|x: int| !ranks_above(entries@, x, x),
            forall|x: int, y: int, z: int|
                #[trigger] ranks_above(entries@, x, y) && #[trigger] ranks_above(entries@, y, z)
                    ==> ranks_above(entries@, x, z),
            forall|x: int, y: int|
                x != y ==> #[trigger] ranks_above(entries@, x, y) || ranks_above(entries@, y, x),
        decreases want - i,
    {
        // The best of the positions not yet placed.
        let mut best: usize = i;
        let mut j: usize = i + 1;
        while j < n
            invariant
                i < j <= n,
                i <= best < j,
                i < want <= n,
                n == entries@.len(),
                perm@.len() == n,
                forall|q: int| 0 <= q < n ==> #[trigger] perm@[q] < n,
                forall|a: int, b: int| 0 <= a < b < n ==> perm@[a] != perm@[b],
                forall|q: int|
                    i <= q < j && q != best ==> #[trigger] ranks_above(
                        entries@,
                        perm@[best as int] as int,
                        perm@[q] as int,
                    ),
                forall|x: int| !ranks_above(entries@, x, x),
                forall|x: int, y: int, z: int|
                    #[trigger] ranks_above(entries@, x, y) && #[trigger] ranks_above(
                        entries@,
                        y,
                        z,
                    ) ==> ranks_above(entries@, x, z),
                forall|x: int, y: int|
                    x != y ==> #[trigger] ranks_above(entries@, x, y) || ranks_above(
                        entries@,
                        y,
                        x,
                    ),
            decreases n - j,
        {
            let ghost prev = best;
            if ranks_above_at(entries, perm[j], perm[best]) {
                best = j;
                assert forall|q: int| i <= q < j + 1 && q != best implies #[trigger] ranks_above(
                    entries@,
                    perm@[best as int] as int,
                    perm@[q] as int,
                ) by {
                    if q != prev {
                        assert(ranks_above(entries@, perm@[prev as int] as int, perm@[q] as int));
                    }
                }
            } else {
                assert(perm@[j as int] != perm@[best as int]);
                assert(ranks_above(entries@, perm@[best as int] as int, perm@[j as int] as int));
            }
            j += 1;
        }
        let ghost old_perm = perm@;
        let t = perm[i];
        let u = perm[best];
        perm[i] = u;
        perm[best] = t;
        proof {
            assert forall|y: usize| y < n implies #[trigger] perm@.contains(y) by {
                assert(old_perm.contains(y));
                let q = choose|q: int| 0 <= q < n && #[trigger] old_perm[q] == y;
                if q == i {
                    assert(perm@[best as int] == y);
                } else if q == best {
                    assert(perm@[i as int] == y);
                } else {
                    assert(perm@[q] == y);
                }
            }
            assert forall|a: int, b: int| 0 <= a < i + 1 && a < b < n implies #[trigger] ranks_above(
                entries@,
                perm@[a] as int,
                perm@[b] as int,
            ) by {
                if a < i {
                    if b == best {
                        assert(ranks_above(entries@, old_perm[a] as int, old_perm[i as int] as int));
                    } else {
                        assert(ranks_above(entries@, old_perm[a] as int, old_perm[b] as int));
                    }
                } else if b == best {
                    assert(ranks_above(entries@, old_perm[best as int] as int, old_perm[i as int] as int));
                } else {
                    assert(ranks_above(entries@, old_perm[best as int] as int, old_perm[b] as int));
                }
            }
        }
        i += 1;
    }
    let ghost full = perm@;
    perm.truncate(want);
    proof {
        assert(perm@ =~= full.take(want as int));
        assert forall|a: int, y: int|
            0 <= a < perm@.len() && 0 <= y < n && !perm@.contains(y as usize) implies #[trigger] ranks_above(
            entries@,
            perm@[a] as int,
            y,
        ) by {
            assert(full.contains(y as usize));
            let q = choose|q: int| 0 <= q < n && #[trigger] full[q] == y as usize;
            if q < want {
                assert(perm@[q] == y);
            } else {
                assert(ranks_above(entries@, full[a] as int, full[q] as int));
            }
        }
    }
    perm
}

/// Two rankings of the same entries that agree below position `m` cannot have
/// the entry of the first rank above that of the second at position `m`.
proof fn lemma_ranking_step(
    entries: Seq<(String, u64)>,
    k: nat,
    r1: Seq<usize>,
    r2: Seq<usize>,
    m: int,
)
    requires
        is_ranking(entries, k, r1),
        is_ranking(entries, k, r2),
        0 <= m < r1.len(),
        forall|i: int| 0 <= i < m ==> r1[i] == r2[i],
    ensures
        !ranks_above(entries, r1[m] as int, r2[m] as int),
{
    lemma_ranks_above_order(entries);
    let x = r1[m];
    let y = r2[m];
    if ranks_above(entries, x as int, y as int) {
        if r2.contains(x) {
            let p = choose|p: int| 0 <= p < r2.len() && r2[p] == x;
            if p < m {
                assert(r1[p] == x);
                assert(ranks_above(entries, r1[p] as int, r1[m] as int));
            } else if p > m {
                assert(ranks_above(entries, r2[m] as int, r2[p] as int));
            }
        } else {
            assert(ranks_above(entries, r2[m] as int, x as int));
        }
    }
}

/// The ranking is determined by the entries and `k` alone: any two results
/// that meet it are the same sequence, whatever order the scores were
/// computed in.
pub proof fn lemma_ranking_unique(
    entries: Seq<(String, u64)>,
    k: nat,
    r1: Seq<usize>,
    r2: Seq<usize>,
)
    requires
        is_ranking(entries, k, r1),
        is_ranking(entries, k, r2),
    ensures
        r1 == r2,
{
    lemma_ranking_agree_below(entries, k, r1, r2, r1.len() as int);
    assert(r1 =~= r2);
}

proof fn lemma_ranking_agree_below(
    entries: Seq<(String, u64)>,
    k: nat,
    r1: Seq<usize>,
    r2: Seq<usize>,
    m: int,
)
    requires
        is_ranking(entries, k, r1),
        is_ranking(entries, k, r2),
        0 <= m <= r1.len(),
    ensures
        forall|i: int| 0 <= i < m ==> r1[i] == r2[i],
    decreases m,
{
    if m > 0 {
        lemma_ranking_agree_below(entries, k, r1, r2, m - 1);
        lemma_ranking_step(entries, k, r1, r2, m - 1);
        lemma_ranking_step(entries, k, r2, r1, m - 1);
        lemma_ranks_above_order(entries);
        assert(r1[m - 1] as int == r2[m - 1] as int);
    }
}

} // verus!
