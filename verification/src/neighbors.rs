//! Selection of the nearest samples and the vote over their targets.

use vstd::prelude::*;
use crate::metric::Ncd;

verus! {

/// Every one of the first `n` distances has a denominator.
pub open spec fn all_wf(s: Seq<Ncd>, n: int) -> bool {
    forall|i: int| 0 <= i < n ==> (#[trigger] s[i]).wf()
}

/// Position `i` ranks before position `j`: its distance is smaller, or
/// the two are equal and `i` comes first.
pub open spec fn ranks_before(s: Seq<Ncd>, i: int, j: int) -> bool {
    s[i].lt(s[j]) || (!s[j].lt(s[i]) && i < j)
}

/// `r` lists, nearest first, the `k` positions among the first `n` of `s`
/// that rank first (all `n` of them, if there are not `k`).
pub open spec fn selects(s: Seq<Ncd>, n: int, k: int, r: Seq<usize>) -> bool {
    &&& r.len() == (if k <= n {
        k
    } else {
        n
    })
    &&& forall|p: int| 0 <= p < r.len() ==> (#[trigger] r[p]) < n
    &&& forall|p: int, q: int|
        0 <= p < q < r.len() ==> #[trigger] ranks_before(s, r[p] as int, r[q] as int)
    &&& forall|j: int, p: int|
        0 <= j < n && 0 <= p < r.len() && !r.contains(j as usize) ==> #[trigger] ranks_before(
            s,
            r[p] as int,
            j,
        )
}

/// Ranking is transitive.
pub proof fn lemma_ranks_transitive(s: Seq<Ncd>, i: int, j: int, l: int)
    requires
        s[i].wf(),
        s[j].wf(),
        s[l].wf(),
        ranks_before(s, i, j),
        ranks_before(s, j, l),
    ensures
        ranks_before(s, i, l),
{
    let (a, b, c) = (s[i], s[j], s[l]);
    if a.lt(b) {
        Ncd::lemma_lt_le_transitive(a, b, c);
    } else if b.lt(c) {
        Ncd::lemma_le_lt_transitive(a, b, c);
    } else {
        Ncd::lemma_le_transitive(a, b, c);
    }
}

/// Of two different positions exactly one ranks before the other, and no
/// position ranks before itself.
pub proof fn lemma_ranks_total(s: Seq<Ncd>, i: int, j: int)
    ensures
        i != j ==> (ranks_before(s, i, j) <==> !ranks_before(s, j, i)),
        !ranks_before(s, i, i),
{
}

/// Equal prefixes: two selections of the same positions agree up to `p`.
proof fn lemma_selections_agree(s: Seq<Ncd>, n: int, k: int, r1: Seq<usize>, r2: Seq<usize>, p: int)
    requires
        all_wf(s, n),
        selects(s, n, k, r1),
        selects(s, n, k, r2),
        0 <= p <= r1.len(),
    ensures
        forall|q: int| 0 <= q < p ==> r1[q] == r2[q],
    decreases p,
{
    if p > 0 {
        lemma_selections_agree(s, n, k, r1, r2, p - 1);
        let a = r1[p - 1];
        let b = r2[p - 1];
        if a != b {
            lemma_ranks_total(s, a as int, b as int);
            lemma_first_difference(s, n, k, r1, r2, p - 1);
            lemma_first_difference(s, n, k, r2, r1, p - 1);
        }
    }
}

/// Where two selections agree before `p`, the entry of the first at `p`
/// does not rank before the entry of the second there.
proof fn lemma_first_difference(s: Seq<Ncd>, n: int, k: int, r1: Seq<usize>, r2: Seq<usize>, p: int)
    requires
        all_wf(s, n),
        selects(s, n, k, r1),
        selects(s, n, k, r2),
        0 <= p < r1.len(),
        forall|q: int| 0 <= q < p ==> r1[q] == r2[q],
    ensures
        !ranks_before(s, r1[p] as int, r2[p] as int),
{
    let a = r1[p];
    let b = r2[p];
    if ranks_before(s, a as int, b as int) {
        lemma_ranks_total(s, a as int, b as int);
        if r2.contains(a) {
            let q = choose|q: int| 0 <= q < r2.len() && r2[q] == a;
            if q < p {
                assert(ranks_before(s, r1[q] as int, r1[p] as int));
                lemma_ranks_total(s, a as int, a as int);
            } else if q > p {
                assert(ranks_before(s, r2[p] as int, r2[q] as int));
            }
        } else {
            assert(ranks_before(s, r2[p] as int, a as int));
        }
    }
}

/// The selection is unique: the positions that rank first, and their
/// order, are determined by the distances alone.
pub proof fn lemma_selection_unique(s: Seq<Ncd>, n: int, k: int, r1: Seq<usize>, r2: Seq<usize>)
    requires
        all_wf(s, n),
        selects(s, n, k, r1),
        selects(s, n, k, r2),
    ensures
        r1 == r2,
{
    lemma_selections_agree(s, n, k, r1, r2, r1.len() as int);
    assert(r1 =~= r2);
}

/// The `k` nearest positions of `s`, nearest first.
pub open spec fn nearest(s: Seq<Ncd>, k: int) -> Seq<usize> {
    choose|r: Seq<usize>| selects(s, s.len() as int, k, r)
}

/// Where one position ranks before every other, it is the one nearest
/// position.
pub proof fn lemma_nearest_one(s: Seq<Ncd>, m: usize)
    requires
        all_wf(s, s.len() as int),
        m < s.len(),
        forall|j: int| 0 <= j < s.len() && j != m ==> #[trigger] ranks_before(s, m as int, j),
    ensures
        nearest(s, 1) == seq![m],
{
    let only = seq![m];
    assert(only[0] == m);
    assert forall|j: int, p: int|
        0 <= j < s.len() && 0 <= p < only.len() && !only.contains(j as usize) implies #[trigger] ranks_before(
        s,
        only[p] as int,
        j,
    ) by {
        if j == m {
            assert(only[0] == j as usize);
        }
    }
    assert(selects(s, s.len() as int, 1, only));
    lemma_selection_unique(s, s.len() as int, 1, only, nearest(s, 1));
}

/// Selects the `k` nearest positions of `scores`, nearest first; equal
/// distances keep the order of their positions. Each position is placed
/// into a list of at most `k`, so nothing is sorted in full.
pub fn k_nearest(scores: &Vec<Ncd>, k: usize) -> (r: Vec<usize>)
    requires
        all_wf(scores@, scores@.len() as int),
    ensures
        selects(scores@, scores@.len() as int, k as int, r@),
        r@ == nearest(scores@, k as int),
{
    let n = scores.len();
    let mut best: Vec<usize> = Vec::new();
    let mut i: usize = 0;
    while i < n
        invariant
            i <= n,
            n == scores@.len(),
            all_wf(scores@, n as int),
            selects(scores@, i as int, k as int, best@),
            best@.len() < k ==> forall|j: usize| j < i ==> #[trigger] best@.contains(j),
        decreases n - i,
    {
        let mut p: usize = best.len();
        while p > 0 && scores[i].is_less(&scores[best[p - 1]])
            invariant
                i < n,
                n == scores@.len(),
                p <= best@.len(),
                forall|q: int| 0 <= q < best@.len() ==> (#[trigger] best@[q]) < i,
                forall|q: int|
                    p <= q < best@.len() ==> scores@[i as int].lt(
                        scores@[(#[trigger] best@[q]) as int],
                    ),
            decreases p,
        {
            p = p - 1;
        }
        let ghost before = best@;
        let ghost s = scores@;
        proof {
            // Everything before the place found ranks before `i`.
            assert forall|q: int| 0 <= q < p implies ranks_before(
                s,
                #[trigger] before[q] as int,
                i as int,
            ) by {
                assert(ranks_before(s, before[p - 1] as int, i as int));
                if q < p - 1 {
                    assert(ranks_before(s, before[q] as int, before[p - 1] as int));
                    lemma_ranks_transitive(s, before[q] as int, before[p - 1] as int, i as int);
                }
            }
        }
        if p < k {
            best.insert(p, i);
            let ghost grown = best@;
            proof {
                assert(grown == before.insert(p as int, i));
                assert forall|a: int, b: int| 0 <= a < b < grown.len() implies #[trigger] ranks_before(
                    s,
                    grown[a] as int,
                    grown[b] as int,
                ) by {
                    if b < p {
                        assert(ranks_before(s, before[a] as int, before[b] as int));
                    } else if b == p {
                        assert(ranks_before(s, before[a] as int, i as int));
                    } else if a < p {
                        assert(ranks_before(s, before[a] as int, before[b - 1] as int));
                    } else if a == p {
                        assert(s[i as int].lt(s[before[b - 1] as int]));
                    } else {
                        assert(ranks_before(s, before[a - 1] as int, before[b - 1] as int));
                    }
                }
                assert(grown[p as int] == i);
                assert forall|x: usize| before.contains(x) implies grown.contains(x) by {
                    let q = choose|q: int| 0 <= q < before.len() && before[q] == x;
                    if q < p {
                        assert(grown[q] == x);
                    } else {
                        assert(grown[q + 1] == x);
                    }
                }
            }
            if best.len() > k {
                best.pop();
                proof {
                    let kept = best@;
                    assert(kept == grown.take(k as int));
                    let z = grown[k as int];
                    assert forall|j: int, q: int|
                        0 <= j < i + 1 && 0 <= q < kept.len() && !kept.contains(
                            j as usize,
                        ) implies #[trigger] ranks_before(s, kept[q] as int, j) by {
                        assert(kept[q] == grown[q]);
                        assert(kept[p as int] == i);
                        if j == z {
                            assert(ranks_before(s, grown[q] as int, grown[k as int] as int));
                        } else {
                            assert(j != i);
                            if before.contains(j as usize) {
                                let t = choose|t: int| 0 <= t < grown.len() && grown[t] == j as usize;
                                assert(kept[t] == j as usize);
                            }
                            assert(ranks_before(s, z as int, j)) by {
                                assert(z == before[k - 1]);
                                assert(ranks_before(s, before[k - 1] as int, j));
                            }
                            assert(ranks_before(s, grown[q] as int, grown[k as int] as int));
                            lemma_ranks_transitive(s, kept[q] as int, z as int, j);
                        }
                    }
                }
            } else {
                proof {
                    assert forall|j: usize| j < i + 1 implies #[trigger] best@.contains(j) by {
                        if j < i {
                            assert(before.contains(j));
                        }
                    }
                }
            }
        } else {
            proof {
                assert forall|j: int, q: int|
                    0 <= j < i + 1 && 0 <= q < best@.len() && !best@.contains(
                        j as usize,
                    ) implies #[trigger] ranks_before(s, best@[q] as int, j) by {
                    if j < i {
                        assert(ranks_before(s, before[q] as int, j));
                    }
                }
            }
        }
        i = i + 1;
    }
    proof {
        let witness = best@;
        assert(selects(scores@, scores@.len() as int, k as int, witness));
        lemma_selection_unique(
            scores@,
            scores@.len() as int,
            k as int,
            witness,
            nearest(scores@, k as int),
        );
    }
    best
}

/// How often `v` occurs in `s`.
pub open spec fn count_of(s: Seq<u8>, v: u8) -> nat
    decreases s.len(),
{
    if s.len() == 0 {
        0
    } else {
        count_of(s.drop_last(), v) + (if s.last() == v {
            1nat
        } else {
            0nat
        })
    }
}

/// Position `w` holds the winner of a vote over `s`: no token occurs more
/// often than the one there, and every token at an earlier position
/// occurs less often.
pub open spec fn is_winner(s: Seq<u8>, w: int) -> bool {
    &&& 0 <= w < s.len()
    &&& forall|j: int| 0 <= j < s.len() ==> count_of(s, #[trigger] s[j]) <= count_of(s, s[w])
    &&& forall|j: int| 0 <= j < w ==> count_of(s, #[trigger] s[j]) < count_of(s, s[w])
}

/// The position of the winner of a vote over a sequence with an entry.
pub open spec fn winner(s: Seq<u8>) -> int {
    choose|w: int| is_winner(s, w)
}

/// The token that a vote over `s` gives: the most frequent one, and of
/// several such the one that is met first. An empty vote gives none.
pub open spec fn vote(s: Seq<u8>) -> Option<u8> {
    if s.len() == 0 {
        None
    } else {
        Some(s[winner(s)])
    }
}

/// A vote has one winner.
pub proof fn lemma_winner_unique(s: Seq<u8>, w1: int, w2: int)
    requires
        is_winner(s, w1),
        is_winner(s, w2),
    ensures
        w1 == w2,
{
    if w1 < w2 {
        assert(count_of(s, s[w1]) < count_of(s, s[w2]));
        assert(count_of(s, s[w2]) <= count_of(s, s[w1]));
    } else if w2 < w1 {
        assert(count_of(s, s[w2]) < count_of(s, s[w1]));
        assert(count_of(s, s[w1]) <= count_of(s, s[w2]));
    }
}

/// The one token of a vote wins it.
pub proof fn lemma_vote_of_one(token: u8)
    ensures
        vote(seq![token]) == Some(token),
{
    let s = seq![token];
    assert(s[0] == token);
    assert(is_winner(s, 0));
    lemma_winner_unique(s, 0, winner(s));
}

/// A token occurs in a sequence at most as often as the sequence is long.
pub proof fn lemma_count_bounded(s: Seq<u8>, v: u8)
    ensures
        count_of(s, v) <= s.len(),
    decreases s.len(),
{
    if s.len() > 0 {
        lemma_count_bounded(s.drop_last(), v);
    }
}

/// Counts how often `v` occurs in `tokens`.
pub fn count_in(tokens: &Vec<u8>, v: u8) -> (c: usize)
    ensures
        c == count_of(tokens@, v),
{
    let mut c: usize = 0;
    let mut i: usize = 0;
    while i < tokens.len()
        invariant
            i <= tokens@.len(),
            c == count_of(tokens@.take(i as int), v),
            c <= i,
        decreases tokens@.len() - i,
    {
        proof {
            assert(tokens@.take(i + 1).drop_last() == tokens@.take(i as int));
            lemma_count_bounded(tokens@.take(i + 1), v);
        }
        if tokens[i] == v {
            c = c + 1;
        }
        i = i + 1;
    }
    assert(tokens@.take(i as int) == tokens@);
    c
}

/// Takes a vote over `tokens`: the most frequent token wins, and of
/// several such the one that is met first. There is no winner of an
/// empty vote.
pub fn majority(tokens: &Vec<u8>) -> (r: Option<u8>)
    ensures
        r == vote(tokens@),
        r is None <==> tokens@.len() == 0,
{
    let n = tokens.len();
    if n == 0 {
        return None;
    }
    let ghost s = tokens@;
    let mut lead: usize = 0;
    let mut lead_count: usize = count_in(tokens, tokens[0]);
    let mut i: usize = 1;
    while i < n
        invariant
            1 <= i <= n,
            n == tokens@.len(),
            s == tokens@,
            lead < i,
            lead_count == count_of(s, s[lead as int]),
            forall|j: int| 0 <= j < i ==> count_of(s, #[trigger] s[j]) <= lead_count,
            forall|j: int| 0 <= j < lead ==> count_of(s, #[trigger] s[j]) < lead_count,
        decreases n - i,
    {
        let c = count_in(tokens, tokens[i]);
        if c > lead_count {
            lead = i;
            lead_count = c;
        }
        i = i + 1;
    }
    proof {
        assert(is_winner(s, lead as int));
        lemma_winner_unique(s, lead as int, winner(s));
    }
    Some(tokens[lead])
}

} // verus!
