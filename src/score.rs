//! Merges the posting lists of a query's trigrams into per-candidate
//! statistics, and ranks candidates by weighted Jaccard similarity.
use crate::trie::Leaf;
use vstd::prelude::*;

verus! {

/// A candidate's statistics against a query: the trigram occurrences that
/// they share, and the size of the union of their trigram multisets. The
/// similarity score is `shared / all`.
#[derive(Clone, Copy, Debug, PartialEq, Eq, Structural)]
pub struct Match {
    pub id: u32,
    pub shared: u64,
    pub all: u64,
}

/// Posting lists, each with the number of times its trigram occurs in the
/// query.
pub type Hits = Vec<(Vec<Leaf>, u32)>;

/// The model of posting lists.
pub open spec fn hits_view(hits: Seq<(Vec<Leaf>, u32)>) -> Seq<(Seq<Leaf>, u32)> {
    hits.map_values(|h: (Vec<Leaf>, u32)| (h.0@, h.1))
}

/// Ids in strictly ascending order.
pub open spec fn strictly_sorted(l: Seq<Leaf>) -> bool {
    forall|a: int, b: int| 0 <= a < b < l.len() ==> (#[trigger] l[a]).id < (#[trigger] l[b]).id
}

/// The number of trigram occurrences in the query.
pub open spec fn query_total(h: Seq<(Seq<Leaf>, u32)>) -> nat
    decreases h.len(),
{
    if h.len() == 0 {
        0
    } else {
        query_total(h.drop_last()) + h.last().1 as nat
    }
}

/// Whether a posting list holds `id`.
pub open spec fn has_id(l: Seq<Leaf>, id: u32) -> bool {
    exists|k: int| 0 <= k < l.len() && (#[trigger] l[k]).id == id
}

/// The leaf of `id` in a posting list that holds it.
pub open spec fn leaf_for(l: Seq<Leaf>, id: u32) -> Leaf {
    l[choose|k: int| 0 <= k < l.len() && (#[trigger] l[k]).id == id]
}

pub open spec fn min_nat(a: nat, b: nat) -> nat {
    if a <= b {
        a
    } else {
        b
    }
}

/// What the first `n` posting lists share with the query for `id`: per list
/// that holds it, the smaller of the query's and the candidate's counts.
pub open spec fn shared_upto(h: Seq<(Seq<Leaf>, u32)>, id: u32, n: int) -> nat
    decreases n,
{
    if n <= 0 {
        0
    } else {
        shared_upto(h, id, n - 1) + if has_id(h[n - 1].0, id) {
            min_nat(h[n - 1].1 as nat, leaf_for(h[n - 1].0, id).count as nat)
        } else {
            0
        }
    }
}

/// The candidate's trigram total, from the first list from `i` on that
/// holds `id`.
pub open spec fn total_from(h: Seq<(Seq<Leaf>, u32)>, id: u32, i: int) -> nat
    decreases h.len() - i,
{
    if i >= h.len() || i < 0 {
        0
    } else if has_id(h[i].0, id) {
        leaf_for(h[i].0, id).total_ngrams as nat
    } else {
        total_from(h, id, i + 1)
    }
}

/// The statistics of candidate `id` against the query.
pub open spec fn match_of(h: Seq<(Seq<Leaf>, u32)>, id: u32) -> Match {
    let shared = shared_upto(h, id, h.len() as int);
    Match {
        id,
        shared: shared as u64,
        all: (query_total(h) + total_from(h, id, 0) - shared) as u64,
    }
}

/// Whether some posting list holds `id`.
pub open spec fn is_candidate(h: Seq<(Seq<Leaf>, u32)>, id: u32) -> bool {
    exists|i: int| 0 <= i < h.len() && has_id(#[trigger] h[i].0, id)
}

/// The id at the head of list `i`, that is at position `p[i]`.
pub open spec fn head(h: Seq<(Seq<Leaf>, u32)>, p: Seq<usize>, i: int) -> u32 {
    h[i].0[p[i] as int].id
}

/// The number of leaves not yet consumed in the first `n` lists.
pub open spec fn left(h: Seq<(Seq<Leaf>, u32)>, p: Seq<usize>, n: int) -> nat
    decreases n,
{
    if n <= 0 {
        0
    } else {
        left(h, p, n - 1) + (h[n - 1].0.len() - p[n - 1]) as nat
    }
}

proof fn lemma_left_decreases(h: Seq<(Seq<Leaf>, u32)>, p: Seq<usize>, later: Seq<usize>, n: int, j: int)
    requires
        0 <= n <= h.len(),
        p.len() == h.len(),
        later.len() == h.len(),
        forall|i: int| 0 <= i < n ==> p[i] <= #[trigger] later[i] <= h[i].0.len(),
    ensures
        left(h, later, n) <= left(h, p, n),
        0 <= j < n && p[j] < later[j] ==> left(h, later, n) < left(h, p, n),
    decreases n,
{
    if n > 0 {
        assert(p[n - 1] <= later[n - 1] <= h[n - 1].0.len());
        lemma_left_decreases(h, p, later, n - 1, j);
    }
}

proof fn lemma_shared_bound(h: Seq<(Seq<Leaf>, u32)>, id: u32, n: int)
    requires
        0 <= n <= h.len(),
    ensures
        shared_upto(h, id, n) <= query_total(h.take(n)),
    decreases n,
{
    if n > 0 {
        lemma_shared_bound(h, id, n - 1);
        assert(h.take(n).drop_last() =~= h.take(n - 1));
    }
}

proof fn lemma_query_total_take(h: Seq<(Seq<Leaf>, u32)>)
    ensures
        h.take(h.len() as int) == h,
{
    assert(h.take(h.len() as int) =~= h);
}

proof fn lemma_total_from(h: Seq<(Seq<Leaf>, u32)>, id: u32, i: int, first: int)
    requires
        0 <= i <= first < h.len(),
        has_id(h[first].0, id),
        forall|j: int| i <= j < first ==> !has_id(#[trigger] h[j].0, id),
    ensures
        total_from(h, id, i) == leaf_for(h[first].0, id).total_ngrams,
    decreases first - i,
{
    if i < first {
        lemma_total_from(h, id, i + 1, first);
    }
}

proof fn lemma_leaf_for(l: Seq<Leaf>, k: int)
    requires
        strictly_sorted(l),
        0 <= k < l.len(),
    ensures
        has_id(l, l[k].id),
        leaf_for(l, l[k].id) == l[k],
{
    let id = l[k].id;
    assert(exists|m: int| 0 <= m < l.len() && (#[trigger] l[m]).id == id);
    let m = choose|m: int| 0 <= m < l.len() && (#[trigger] l[m]).id == id;
    if m < k {
        assert(l[m].id < l[k].id);
    } else if k < m {
        assert(l[k].id < l[m].id);
    }
}

/// Sums the query's trigram counts.
fn query_count(hits: &Hits) -> (r: u64)
    requires
        query_total(hits_view(hits@)) <= u64::MAX,
    ensures
        r == query_total(hits_view(hits@)),
{
    let ghost h = hits_view(hits@);
    let mut q: u64 = 0;
    let mut i: usize = 0;
    while i < hits.len()
        invariant
            0 <= i <= hits@.len(),
            h == hits_view(hits@),
            query_total(h) <= u64::MAX,
            q == query_total(h.take(i as int)),
        decreases hits@.len() - i,
    {
        assert(h.take(i + 1).drop_last() =~= h.take(i as int));
        proof {
            lemma_total_prefix(h, i + 1);
        }
        q = q + hits[i].1 as u64;
        i = i + 1;
    }
    proof {
        lemma_query_total_take(h);
    }
    q
}

proof fn lemma_total_prefix(h: Seq<(Seq<Leaf>, u32)>, n: int)
    requires
        0 <= n <= h.len(),
    ensures
        query_total(h.take(n)) <= query_total(h),
    decreases h.len() - n,
{
    if n < h.len() {
        lemma_total_prefix(h, n + 1);
        assert(h.take(n + 1).drop_last() =~= h.take(n));
    } else {
        lemma_query_total_take(h);
    }
}

/// Every posting list sorted by strictly ascending id.
pub open spec fn lists_sorted(h: Seq<(Seq<Leaf>, u32)>) -> bool {
    forall|i: int| 0 <= i < h.len() ==> strictly_sorted(#[trigger] h[i].0)
}

/// Whether `id` is among the ids of `r`.
pub open spec fn emitted(r: Seq<Match>, id: u32) -> bool {
    exists|m: int| 0 <= m < r.len() && (#[trigger] r[m]).id == id
}

/// Merges posting lists into the statistics of every candidate, in
/// ascending order of id, one round per candidate: the smallest head id is
/// the next candidate, and each list whose head holds it advances.
pub fn merge_hits(hits: &Hits) -> (r: Vec<Match>)
    requires
        lists_sorted(hits_view(hits@)),
        query_total(hits_view(hits@)) + 255 <= u64::MAX,
    ensures
        forall|a: int, b: int| 0 <= a < b < r@.len() ==> (#[trigger] r@[a]).id < (#[trigger] r@[b]).id,
        forall|m: int|
            0 <= m < r@.len() ==> #[trigger] r@[m] == match_of(hits_view(hits@), r@[m].id)
                && is_candidate(hits_view(hits@), r@[m].id),
        forall|id: u32| is_candidate(hits_view(hits@), id) ==> #[trigger] emitted(r@, id),
{
    let ghost h = hits_view(hits@);
    let n = hits.len();
    let q = query_count(hits);
    let mut pos: Vec<usize> = Vec::new();
    let mut z: usize = 0;
    while z < n
        invariant
            0 <= z <= n,
            pos@.len() == z,
            forall|i: int| 0 <= i < z ==> pos@[i] == 0,
        decreases n - z,
    {
        pos.push(0);
        z = z + 1;
    }
    let mut r: Vec<Match> = Vec::new();
    loop
        invariant
            n == hits@.len() == h.len() == pos@.len(),
            h == hits_view(hits@),
            lists_sorted(h),
            q == query_total(h),
            q + 255 <= u64::MAX,
            forall|i: int| 0 <= i < n ==> #[trigger] pos@[i] <= h[i].0.len(),
            forall|a: int, b: int| 0 <= a < b < r@.len() ==> (#[trigger] r@[a]).id < (#[trigger] r@[b]).id,
            forall|m: int|
                0 <= m < r@.len() ==> #[trigger] r@[m] == match_of(h, r@[m].id) && is_candidate(h, r@[m].id),
            forall|i: int, k: int| 0 <= i < n && 0 <= k < pos@[i] ==> emitted(r@, #[trigger] h[i].0[k].id),
            forall|i: int, k: int, m: int|
                0 <= i < n && pos@[i] <= k < h[i].0.len() && 0 <= m < r@.len() ==> (#[trigger] r@[m]).id
                    < (#[trigger] h[i].0[k]).id,
        ensures
            forall|id: u32| is_candidate(h, id) ==> #[trigger] emitted(r@, id),
            h == hits_view(hits@),
            forall|a: int, b: int| 0 <= a < b < r@.len() ==> (#[trigger] r@[a]).id < (#[trigger] r@[b]).id,
            forall|m: int|
                0 <= m < r@.len() ==> #[trigger] r@[m] == match_of(h, r@[m].id) && is_candidate(h, r@[m].id),
        decreases left(h, pos@, n as int),
    {
        // The smallest head, and the first list whose head holds it.
        let mut found = false;
        let mut smallest: u32 = 0;
        let mut total: u8 = 0;
        let mut first: usize = 0;
        let mut i: usize = 0;
        while i < n
            invariant
                0 <= i <= n,
                n == hits@.len() == h.len() == pos@.len(),
                h == hits_view(hits@),
                forall|j: int| 0 <= j < n ==> #[trigger] pos@[j] <= h[j].0.len(),
                found ==> first < i && pos@[first as int] < h[first as int].0.len() && head(h, pos@, first as int) == smallest
                    && total == h[first as int].0[pos@[first as int] as int].total_ngrams,
                found ==> forall|j: int| 0 <= j < i && pos@[j] < h[j].0.len() ==> smallest <= #[trigger] head(h, pos@, j),
                found ==> forall|j: int| 0 <= j < first && pos@[j] < h[j].0.len() ==> smallest != #[trigger] head(h, pos@, j),
                !found ==> forall|j: int| 0 <= j < i ==> #[trigger] pos@[j] == h[j].0.len(),
            decreases n - i,
        {
            let p = pos[i];
            let list = &hits[i].0;
            if p < list.len() {
                let leaf = list[p];
                assert(leaf.id == head(h, pos@, i as int));
                if !found || leaf.id < smallest {
                    found = true;
                    smallest = leaf.id;
                    total = leaf.total_ngrams;
                    first = i;
                }
            }
            i = i + 1;
        }
        if !found {
            proof {
                assert forall|id: u32| is_candidate(h, id) implies #[trigger] emitted(r@, id) by {
                    let j = choose|j: int| 0 <= j < h.len() && has_id(#[trigger] h[j].0, id);
                    let k = choose|k: int| 0 <= k < h[j].0.len() && (#[trigger] h[j].0[k]).id == id;
                    assert(pos@[j] == h[j].0.len());
                    assert(emitted(r@, h[j].0[k].id));
                }
            }
            break;
        }
        // Every list that holds the candidate holds it at its head.
        proof {
            assert forall|m: int| 0 <= m < r@.len() implies (#[trigger] r@[m]).id < smallest by {
                assert(r@[m].id < h[first as int].0[pos@[first as int] as int].id);
            }
            assert forall|j: int| 0 <= j < n implies (has_id(#[trigger] h[j].0, smallest) <==> (pos@[j] < h[j].0.len()
                && head(h, pos@, j) == smallest)) by {
                if has_id(h[j].0, smallest) {
                    let k = choose|k: int| 0 <= k < h[j].0.len() && (#[trigger] h[j].0[k]).id == smallest;
                    if k < pos@[j] {
                        assert(emitted(r@, h[j].0[k].id));
                        let m = choose|m: int| 0 <= m < r@.len() && (#[trigger] r@[m]).id == smallest;
                        assert(r@[m].id < smallest);
                    } else if k > pos@[j] {
                        assert(strictly_sorted(h[j].0));
                        assert(h[j].0[pos@[j] as int].id < h[j].0[k].id);
                        assert(smallest <= head(h, pos@, j));
                    }
                }
                if pos@[j] < h[j].0.len() && head(h, pos@, j) == smallest {
                    assert(h[j].0[pos@[j] as int].id == smallest);
                }
            }
        }
        let ghost start_pos = pos@;
        let ghost r0 = r@;
        let mut shared: u64 = 0;
        let mut i: usize = 0;
        while i < n
            invariant
                0 <= i <= n,
                n == hits@.len() == h.len() == pos@.len() == start_pos.len(),
                h == hits_view(hits@),
                lists_sorted(h),
                q == query_total(h),
                q + 255 <= u64::MAX,
                forall|j: int| 0 <= j < n ==> #[trigger] start_pos[j] <= h[j].0.len(),
                forall|j: int| i <= j < n ==> #[trigger] pos@[j] == start_pos[j],
                forall|j: int|
                    0 <= j < i ==> #[trigger] pos@[j] == if start_pos[j] < h[j].0.len() && head(h, start_pos, j) == smallest {
                        start_pos[j] + 1
                    } else {
                        start_pos[j] as int
                    },
                forall|j: int| 0 <= j < n ==> (has_id(#[trigger] h[j].0, smallest) <==> (start_pos[j] < h[j].0.len()
                    && head(h, start_pos, j) == smallest)),
                shared == shared_upto(h, smallest, i as int),
            decreases n - i,
        {
            let p = pos[i];
            let list = &hits[i].0;
            proof {
                lemma_shared_bound(h, smallest, i + 1);
                lemma_total_prefix(h, i + 1);
            }
            if p < list.len() && list[p].id == smallest {
                let leaf = list[p];
                proof {
                    lemma_leaf_for(h[i as int].0, p as int);
                }
                let qc = hits[i].1 as u64;
                let lc = leaf.count as u64;
                let c = if qc <= lc {
                    qc
                } else {
                    lc
                };
                shared = shared + c;
                pos.set(i, p + 1);
            }
            i = i + 1;
        }
        proof {
            lemma_shared_bound(h, smallest, n as int);
            lemma_query_total_take(h);
            assert forall|j: int| 0 <= j < first implies !has_id(#[trigger] h[j].0, smallest) by {
                if start_pos[j] < h[j].0.len() {
                    assert(smallest != head(h, start_pos, j));
                }
            }
            lemma_total_from(h, smallest, 0, first as int);
            lemma_leaf_for(h[first as int].0, start_pos[first as int] as int);
            lemma_left_decreases(h, start_pos, pos@, n as int, first as int);
        }
        let m = Match { id: smallest, shared, all: q + total as u64 - shared };
        r.push(m);
        proof {
            assert(is_candidate(h, smallest)) by {
                assert(has_id(h[first as int].0, smallest));
            }
            assert forall|j: int, k: int| 0 <= j < n && 0 <= k < pos@[j] implies emitted(r@, #[trigger] h[j].0[k].id) by {
                if k < start_pos[j] {
                    assert(emitted(r0, h[j].0[k].id));
                    let mm = choose|mm: int| 0 <= mm < r0.len() && (#[trigger] r0[mm]).id == h[j].0[k].id;
                    assert(r@[mm] == r0[mm]);
                } else {
                    assert(r@[r0.len() as int].id == h[j].0[k].id);
                }
            }
            assert forall|j: int, k: int, mm: int|
                0 <= j < n && pos@[j] <= k < h[j].0.len() && 0 <= mm < r@.len() implies (#[trigger] r@[mm]).id
                < (#[trigger] h[j].0[k]).id by {
                if mm < r0.len() {
                    assert(r@[mm] == r0[mm]);
                } else {
                    assert(strictly_sorted(h[j].0));
                    if k > start_pos[j] {
                        assert(h[j].0[start_pos[j] as int].id < h[j].0[k].id);
                    }
                }
            }
        }
    }
    r
}

/// A similarity cutoff, the fraction `num / den`.
#[derive(Clone, Copy, Debug, PartialEq, Eq, Structural)]
pub struct Threshold {
    pub num: u64,
    pub den: u64,
}

/// The numerator of a match's score; a match with an empty union scores 0.
pub open spec fn num_of(m: Match) -> int {
    if m.all == 0 {
        0
    } else {
        m.shared as int
    }
}

/// The denominator of a match's score, never 0.
pub open spec fn den_of(m: Match) -> int {
    if m.all == 0 {
        1
    } else {
        m.all as int
    }
}

/// Whether `a` scores higher than `b`.
pub open spec fn higher(a: Match, b: Match) -> bool {
    num_of(a) * den_of(b) > num_of(b) * den_of(a)
}

/// Whether `a` and `b` score the same.
pub open spec fn same_score(a: Match, b: Match) -> bool {
    num_of(a) * den_of(b) == num_of(b) * den_of(a)
}

/// Ranking order: higher score first, then lower id.
pub open spec fn ranks_before(a: Match, b: Match) -> bool {
    higher(a, b) || (same_score(a, b) && a.id < b.id)
}

/// Whether a match's score reaches the threshold.
pub open spec fn passes(m: Match, t: Threshold) -> bool {
    num_of(m) * t.den >= t.num * den_of(m)
}

/// The ranked results over posting lists `h`: every candidate whose score
/// reaches `t`, with its statistics, in ranking order.
pub open spec fn ranked(v: Seq<Match>, h: Seq<(Seq<Leaf>, u32)>, t: Threshold) -> bool {
    &&& forall|a: int, b: int| 0 <= a < b < v.len() ==> ranks_before(#[trigger] v[a], #[trigger] v[b])
    &&& forall|m: int|
        0 <= m < v.len() ==> #[trigger] v[m] == match_of(h, v[m].id) && is_candidate(h, v[m].id) && passes(v[m], t)
    &&& forall|id: u32| is_candidate(h, id) && passes(match_of(h, id), t) ==> #[trigger] emitted(v, id)
}

proof fn lemma_push_contains(s: Seq<Match>, x: Match, y: Match)
    ensures
        s.push(x).contains(y) <==> s.contains(y) || y == x,
{
    if s.contains(y) {
        let k = choose|k: int| 0 <= k < s.len() && #[trigger] s[k] == y;
        assert(s.push(x)[k] == y);
    }
    if y == x {
        assert(s.push(x)[s.len() as int] == y);
    }
    if s.push(x).contains(y) {
        let k = choose|k: int| 0 <= k < s.len() + 1 && #[trigger] s.push(x)[k] == y;
        if k < s.len() {
            assert(s[k] == y);
        }
    }
}

proof fn lemma_insert_contains(s: Seq<Match>, j: int, x: Match, y: Match)
    requires
        0 <= j <= s.len(),
    ensures
        s.insert(j, x).contains(y) <==> s.contains(y) || y == x,
{
    let t = s.insert(j, x);
    if s.contains(y) {
        let k = choose|k: int| 0 <= k < s.len() && #[trigger] s[k] == y;
        if k < j {
            assert(t[k] == y);
        } else {
            assert(t[k + 1] == y);
        }
    }
    if y == x {
        assert(t[j] == y);
    }
    if t.contains(y) {
        let k = choose|k: int| 0 <= k < t.len() && #[trigger] t[k] == y;
        if k < j {
            assert(s[k] == y);
        } else if k > j {
            assert(s[k - 1] == y);
        }
    }
}

proof fn lemma_rank_order(a: Match, b: Match, c: Match)
    ensures
        ranks_before(a, b) ==> !ranks_before(b, a),
        a.id != b.id ==> ranks_before(a, b) || ranks_before(b, a),
        ranks_before(a, b) && ranks_before(b, c) ==> ranks_before(a, c),
{
    let (na, nb, nc) = (num_of(a), num_of(b), num_of(c));
    let (da, db, dc) = (den_of(a), den_of(b), den_of(c));
    assert(da > 0 && db > 0 && dc > 0);
    assert(na * db >= nb * da && nb * dc >= nc * db ==> na * dc >= nc * da) by (nonlinear_arith)
        requires
            da > 0,
            db > 0,
            dc > 0,
    {
        if na * db >= nb * da && nb * dc >= nc * db {
            assert(na * db * dc >= nb * da * dc);
            assert(nb * dc * da >= nc * db * da);
            assert(na * dc * db >= nc * da * db);
        }
    }
    assert(na * db > nb * da && nb * dc >= nc * db ==> na * dc > nc * da) by (nonlinear_arith)
        requires
            da > 0,
            db > 0,
            dc > 0,
    {
        if na * db > nb * da && nb * dc >= nc * db {
            assert(na * db * dc > nb * da * dc);
            assert(nb * dc * da >= nc * db * da);
            assert(na * dc * db > nc * da * db);
        }
    }
    assert(na * db >= nb * da && nb * dc > nc * db ==> na * dc > nc * da) by (nonlinear_arith)
        requires
            da > 0,
            db > 0,
            dc > 0,
    {
        if na * db >= nb * da && nb * dc > nc * db {
            assert(na * db * dc >= nb * da * dc);
            assert(nb * dc * da > nc * db * da);
            assert(na * dc * db > nc * da * db);
        }
    }
}

/// The score's numerator and denominator as computed.
fn score_parts(m: &Match) -> (r: (u128, u128))
    ensures
        r.0 as int == num_of(*m),
        r.1 as int == den_of(*m),
{
    if m.all == 0 {
        (0, 1)
    } else {
        (m.shared as u128, m.all as u128)
    }
}

/// Whether `a` comes before `b` in ranking order.
pub fn ranks_first(a: &Match, b: &Match) -> (r: bool)
    ensures
        r == ranks_before(*a, *b),
{
    let (na, da) = score_parts(a);
    let (nb, db) = score_parts(b);
    assert(na * db <= u128::MAX) by (nonlinear_arith)
        requires
            na <= u64::MAX,
            db <= u64::MAX,
    ;
    assert(nb * da <= u128::MAX) by (nonlinear_arith)
        requires
            nb <= u64::MAX,
            da <= u64::MAX,
    ;
    let x = na * db;
    let y = nb * da;
    x > y || (x == y && a.id < b.id)
}

/// Whether a match's score reaches the threshold.
pub fn reaches(m: &Match, t: &Threshold) -> (r: bool)
    ensures
        r == passes(*m, *t),
{
    let (n, d) = score_parts(m);
    assert(n * (t.den as u128) <= u128::MAX) by (nonlinear_arith)
        requires
            n <= u64::MAX,
            t.den <= u64::MAX,
    ;
    assert((t.num as u128) * d <= u128::MAX) by (nonlinear_arith)
        requires
            d <= u64::MAX,
            t.num <= u64::MAX,
    ;
    n * (t.den as u128) >= (t.num as u128) * d
}

/// The matches whose score reaches `t`, in ranking order.
pub fn rank(ms: &Vec<Match>, t: &Threshold) -> (r: Vec<Match>)
    requires
        forall|a: int, b: int| 0 <= a < b < ms@.len() ==> (#[trigger] ms@[a]).id < (#[trigger] ms@[b]).id,
    ensures
        forall|a: int, b: int| 0 <= a < b < r@.len() ==> ranks_before(#[trigger] r@[a], #[trigger] r@[b]),
        forall|x: Match| #[trigger] r@.contains(x) <==> ms@.contains(x) && passes(x, *t),
{
    let mut r: Vec<Match> = Vec::new();
    let mut i: usize = 0;
    while i < ms.len()
        invariant
            0 <= i <= ms@.len(),
            forall|a: int, b: int| 0 <= a < b < ms@.len() ==> (#[trigger] ms@[a]).id < (#[trigger] ms@[b]).id,
            forall|a: int, b: int| 0 <= a < b < r@.len() ==> ranks_before(#[trigger] r@[a], #[trigger] r@[b]),
            forall|x: Match| #[trigger] r@.contains(x) <==> ms@.take(i as int).contains(x) && passes(x, *t),
        decreases ms@.len() - i,
    {
        let x = ms[i];
        let ghost before = ms@.take(i as int);
        assert(ms@.take(i + 1) =~= before.push(x));
        proof {
            assert forall|y: Match| before.push(x).contains(y) <==> before.contains(y) || y == x by {
                lemma_push_contains(before, x, y);
            }
        }
        if reaches(&x, t) {
            let mut j: usize = 0;
            while j < r.len() && !ranks_first(&x, &r[j])
                invariant
                    0 <= j <= r@.len(),
                    forall|k: int| 0 <= k < j ==> !ranks_before(x, #[trigger] r@[k]),
                decreases r@.len() - j,
            {
                j = j + 1;
            }
            let ghost old_r = r@;
            proof {
                assert forall|k: int| 0 <= k < old_r.len() implies (#[trigger] old_r[k]).id != x.id by {
                    assert(old_r.contains(old_r[k]));
                    assert(r@.contains(old_r[k]));
                    assert(before.contains(old_r[k]));
                    let kk = choose|kk: int| 0 <= kk < before.len() && #[trigger] before[kk] == old_r[k];
                    assert(ms@[kk].id < ms@[i as int].id);
                }
            }
            r.insert(j, x);
            proof {
                assert forall|a: int, b: int| 0 <= a < b < r@.len() implies ranks_before(#[trigger] r@[a], #[trigger] r@[b]) by {
                    if b < j {
                        assert(ranks_before(old_r[a], old_r[b]));
                    } else if b == j {
                        lemma_rank_order(old_r[a], x, x);
                    } else if a < j {
                        lemma_rank_order(x, old_r[j as int], old_r[b - 1]);
                        if j < b - 1 {
                            assert(ranks_before(old_r[j as int], old_r[b - 1]));
                        }
                        lemma_rank_order(old_r[a], x, old_r[b - 1]);
                        assert(ranks_before(x, old_r[b - 1]));
                        assert(ranks_before(old_r[a], x));
                    } else if a == j {
                        lemma_rank_order(x, old_r[j as int], old_r[b - 1]);
                        if j < b - 1 {
                            assert(ranks_before(old_r[j as int], old_r[b - 1]));
                        }
                    } else {
                        assert(ranks_before(old_r[a - 1], old_r[b - 1]));
                    }
                }
                assert forall|y: Match| #[trigger] r@.contains(y) <==> ms@.take(i + 1).contains(y) && passes(y, *t) by {
                    lemma_insert_contains(old_r, j as int, x, y);
                    assert(old_r.contains(y) <==> before.contains(y) && passes(y, *t));
                }
            }
        } else {
            proof {
                assert forall|y: Match| #[trigger] r@.contains(y) <==> ms@.take(i + 1).contains(y) && passes(y, *t) by {
                    assert(r@.contains(y) <==> before.contains(y) && passes(y, *t));
                }
            }
        }
        i = i + 1;
    }
    assert(ms@.take(i as int) =~= ms@);
    assert forall|y: Match| #[trigger] r@.contains(y) <==> ms@.contains(y) && passes(y, *t) by {
        assert(r@.contains(y) <==> ms@.take(i as int).contains(y) && passes(y, *t));
    }
    r
}

/// Scores are never negative and never exceed 1: the shared count is at
/// most the query's total, and at most the union wherever it is at most the
/// candidate's own total.
pub proof fn lemma_score_bounds(h: Seq<(Seq<Leaf>, u32)>, id: u32)
    requires
        query_total(h) + 255 <= u64::MAX,
    ensures
        0 <= num_of(match_of(h, id)),
        0 < den_of(match_of(h, id)),
        match_of(h, id).shared <= query_total(h),
        shared_upto(h, id, h.len() as int) <= total_from(h, id, 0) ==> num_of(match_of(h, id)) <= den_of(
            match_of(h, id),
        ),
{
    lemma_shared_bound(h, id, h.len() as int);
    lemma_query_total_take(h);
    lemma_total_bound(h, id, 0);
}

proof fn lemma_total_bound(h: Seq<(Seq<Leaf>, u32)>, id: u32, i: int)
    ensures
        total_from(h, id, i) <= 255,
    decreases h.len() - i,
{
    if 0 <= i < h.len() && !has_id(h[i].0, id) {
        lemma_total_bound(h, id, i + 1);
    }
}

proof fn lemma_passes_monotone(m: Match, t1: Threshold, t2: Threshold)
    requires
        t1.den > 0,
        t2.den > 0,
        t1.num * t2.den <= t2.num * t1.den,
        passes(m, t2),
    ensures
        passes(m, t1),
{
    let (n, d) = (num_of(m), den_of(m));
    let (a1, b1, a2, b2) = (t1.num as int, t1.den as int, t2.num as int, t2.den as int);
    assert(n >= 0 && d > 0);
    assert(n * b1 >= a1 * d) by (nonlinear_arith)
        requires
            n >= 0,
            d > 0,
            a1 >= 0,
            b1 > 0,
            b2 > 0,
            a1 * b2 <= a2 * b1,
            n * b2 >= a2 * d,
    {
        assert(n * b2 * b1 >= a2 * d * b1);
        assert(a2 * b1 * d >= a1 * b2 * d);
        assert(n * b1 * b2 >= a1 * d * b2);
    }
}

/// The ids of a sequence of matches.
pub open spec fn ids(v: Seq<Match>) -> Seq<u32> {
    v.map_values(|m: Match| m.id)
}

/// Raising the threshold never adds results, so never lengthens them: the
/// results over the same posting lists at a higher threshold are among
/// those at a lower one.
pub proof fn lemma_threshold_monotone(
    v1: Seq<Match>,
    v2: Seq<Match>,
    h: Seq<(Seq<Leaf>, u32)>,
    t1: Threshold,
    t2: Threshold,
)
    requires
        ranked(v1, h, t1),
        ranked(v2, h, t2),
        t1.den > 0,
        t2.den > 0,
        t1.num * t2.den <= t2.num * t1.den,
    ensures
        forall|m: int| 0 <= m < v2.len() ==> emitted(v1, (#[trigger] v2[m]).id),
        v2.len() <= v1.len(),
{
    assert forall|m: int| 0 <= m < v2.len() implies emitted(v1, (#[trigger] v2[m]).id) by {
        lemma_passes_monotone(v2[m], t1, t2);
    }
    let i1 = ids(v1);
    let i2 = ids(v2);
    assert(i2.no_duplicates()) by {
        assert forall|a: int, b: int| 0 <= a < i2.len() && 0 <= b < i2.len() && a != b implies i2[a] != i2[b] by {
            if a < b {
                assert(ranks_before(v2[a], v2[b]));
                lemma_rank_order(v2[a], v2[a], v2[a]);
            } else {
                assert(ranks_before(v2[b], v2[a]));
                lemma_rank_order(v2[b], v2[b], v2[b]);
            }
        }
    }
    i2.unique_seq_to_set();
    i1.lemma_cardinality_of_set();
    assert(i2.to_set().subset_of(i1.to_set())) by {
        assert forall|x: u32| i2.to_set().contains(x) implies i1.to_set().contains(x) by {
            assert(i2.contains(x));
            let m = choose|m: int| 0 <= m < i2.len() && i2[m] == x;
            assert(emitted(v1, v2[m].id));
            let k = choose|k: int| 0 <= k < v1.len() && (#[trigger] v1[k]).id == x;
            assert(i1[k] == x);
        }
    }
    vstd::set_lib::lemma_len_subset(i2.to_set(), i1.to_set());
}

} // verus!
