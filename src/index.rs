//! An opened index: searches the binary form of a trie.
use crate::codec::{be32, leaf_at, read_path, scan, FormatError, SearchError, BRANCH_TAG, LEAF_TAG};
use crate::score::{
    emitted, hits_view, lemma_threshold_monotone, is_candidate, lists_sorted, match_of, merge_hits, passes, query_total, rank, ranked,
    strictly_sorted, Match, Threshold,
};
use crate::trigram::{count_trigrams, first_occurrences, keys, lemma_occurrences_bound, normalized, occurrences, trigrams_of, views, with_trigrams};
use crate::builder::NgramsBuilder;
use crate::trie::{codes, Leaf, DEPTH};
use vstd::prelude::*;

verus! {

/// An index over the bytes of its file, which it borrows (for instance
/// from a memory map).
pub struct Ngrams<'a> {
    data: &'a [u8],
}

/// The big-endian number at `i`, read.
pub fn get_u32(b: &[u8], i: usize) -> (r: u32)
    requires
        i + 4 <= b@.len(),
    ensures
        r as int == be32(b@, i as int),
{
    // The length is a usize, so the indices below cannot overflow.
    let _len = b.len();
    (b[i] as u32) * 16777216 + (b[i + 1] as u32) * 65536 + (b[i + 2] as u32) * 256 + (b[i + 3] as u32)
}

/// Scans `n` branch slots from `base` for character `c`.
fn find_slot(data: &[u8], base: usize, n: u32, c: u32) -> (r: Result<Option<u32>, FormatError>)
    requires
        base <= data@.len(),
    ensures
        r == scan(data@, base as int, n as int, c, 0),
{
    let len = data.len();
    let avail = (len - base) / 8;
    let mut i: usize = 0;
    while i < n as usize
        invariant
            base <= len == data@.len(),
            avail == (len - base) / 8,
            0 <= i <= n,
            scan(data@, base as int, n as int, c, 0) == scan(data@, base as int, n as int, c, i as int),
        decreases n - i,
    {
        if i >= avail {
            return Err(FormatError::Truncated);
        }
        let at = base + 8 * i;
        if get_u32(data, at) == c {
            return Ok(Some(get_u32(data, at + 4)));
        }
        i = i + 1;
    }
    Ok(None)
}

/// The sum of a query's trigram counts.
pub open spec fn count_total(ts: Seq<([char; 3], u32)>) -> nat
    decreases ts.len(),
{
    if ts.len() == 0 {
        0
    } else {
        count_total(ts.drop_last()) + ts.last().1 as nat
    }
}

proof fn lemma_count_total_prefix(ts: Seq<([char; 3], u32)>, n: int)
    requires
        0 <= n <= ts.len(),
    ensures
        count_total(ts.take(n)) <= count_total(ts),
    decreases ts.len() - n,
{
    if n < ts.len() {
        lemma_count_total_prefix(ts, n + 1);
        assert(ts.take(n + 1).drop_last() =~= ts.take(n));
    } else {
        assert(ts.take(n) =~= ts);
    }
}

proof fn lemma_count_total_bound(ts: Seq<([char; 3], u32)>, bound: nat)
    requires
        forall|j: int| 0 <= j < ts.len() ==> (#[trigger] ts[j]).1 <= bound,
    ensures
        count_total(ts) <= ts.len() * bound,
    decreases ts.len(),
{
    if ts.len() > 0 {
        lemma_count_total_bound(ts.drop_last(), bound);
        assert((ts.len() - 1) * bound + bound == ts.len() * bound) by (nonlinear_arith)
            requires
                ts.len() >= 1,
        ;
    }
}

proof fn lemma_totals_agree(h: Seq<(Seq<Leaf>, u32)>, ts: Seq<([char; 3], u32)>)
    requires
        h.len() == ts.len(),
        forall|j: int| 0 <= j < h.len() ==> (#[trigger] h[j]).1 == ts[j].1,
    ensures
        query_total(h) == count_total(ts),
    decreases h.len(),
{
    if h.len() > 0 {
        lemma_totals_agree(h.drop_last(), ts.drop_last());
    }
}

/// Whether leaf ids are in strictly ascending order.
fn ids_ascending(v: &Vec<Leaf>) -> (r: bool)
    ensures
        r == strictly_sorted(v@),
{
    let mut i: usize = 1;
    if v.len() == 0 {
        return true;
    }
    while i < v.len()
        invariant
            1 <= i <= v@.len(),
            strictly_sorted(v@.take(i as int)),
        decreases v@.len() - i,
    {
        if v[i - 1].id >= v[i].id {
            assert(!strictly_sorted(v@)) by {
                assert(v@[i - 1].id >= v@[i as int].id);
            }
            return false;
        }
        assert forall|a: int, b: int| 0 <= a < b < i + 1 implies (#[trigger] v@.take(i + 1)[a]).id
            < (#[trigger] v@.take(i + 1)[b]).id by {
            if b < i {
                assert(v@.take(i as int)[a] == v@[a]);
                assert(v@.take(i as int)[b] == v@[b]);
            } else if a < i - 1 {
                assert(v@.take(i as int)[a] == v@[a]);
                assert(v@.take(i as int)[i - 1] == v@[i - 1]);
            }
        }
        i = i + 1;
    }
    assert(v@.take(i as int) =~= v@);
    true
}

/// A query with its trigrams as character sequences.
pub open spec fn qview(ts: Seq<([char; 3], u32)>) -> Seq<(Seq<char>, u32)> {
    ts.map_values(|e: ([char; 3], u32)| (e.0@, e.1))
}

/// The query that a string makes: its distinct trigrams in order of first
/// occurrence, each with its number of occurrences.
pub open spec fn string_query(s: Seq<char>) -> Seq<(Seq<char>, u32)> {
    let ts = trigrams_of(normalized(s));
    first_occurrences(ts).map_values(|t: Seq<char>| (t, occurrences(ts, t) as u32))
}

impl<'a> Ngrams<'a> {
    /// The bytes of the index.
    pub closed spec fn bytes(&self) -> Seq<u8> {
        self.data@
    }

    /// What searching the index along `path` gives.
    pub open spec fn lookup(&self, path: Seq<u32>) -> Result<Seq<Leaf>, FormatError> {
        read_path(self.bytes(), 0, path)
    }

    /// An empty builder, to make the bytes of an index.
    pub fn builder() -> (r: NgramsBuilder)
        ensures
            r.wf(),
            forall|p: Seq<u32>| #[trigger] r.lookup(p) == Seq::<Leaf>::empty(),
    {
        NgramsBuilder::new()
    }

    /// An index over the bytes of an index file.
    pub fn from_bytes(data: &'a [u8]) -> (r: Ngrams<'a>)
        ensures
            r.bytes() == data@,
    {
        Ngrams { data }
    }

    /// The leaves stored under a trigram, in ascending order of id; empty
    /// where the trigram is absent, an error where the bytes are not an index.
    pub fn search_ngram(&self, trigram: &[char; 3]) -> (r: Result<Vec<Leaf>, FormatError>)
        ensures
            match r {
                Ok(v) => self.lookup(codes(trigram@)) == Ok::<Seq<Leaf>, FormatError>(v@),
                Err(e) => self.lookup(codes(trigram@)) == Err::<Seq<Leaf>, FormatError>(e),
            },
    {
        let path = [trigram[0] as u32, trigram[1] as u32, trigram[2] as u32];
        assert(path@ =~= codes(trigram@));
        assert(path@.skip(0) =~= path@);
        let data = self.data;
        let len = data.len();
        let mut pos: usize = 0;
        let mut level: usize = 0;
        while level < DEPTH
            invariant
                len == data@.len(),
                data@ == self.bytes(),
                0 <= level <= DEPTH,
                path@ == codes(trigram@),
                read_path(data@, 0, path@) == read_path(data@, pos as int, path@.skip(level as int)),
            decreases DEPTH - level,
        {
            if pos >= len {
                return Err(FormatError::Truncated);
            }
            if data[pos] != BRANCH_TAG {
                return Err(FormatError::InvalidBranch);
            }
            if len - pos < 5 {
                return Err(FormatError::Truncated);
            }
            let n = get_u32(data, pos + 1);
            let c = path[level];
            assert(path@.skip(level as int)[0] == c);
            assert(path@.skip(level as int).drop_first() =~= path@.skip(level + 1));
            match find_slot(data, pos + 5, n, c) {
                Err(e) => {
                    return Err(e);
                },
                Ok(None) => {
                    return Ok(Vec::new());
                },
                Ok(Some(o)) => {
                    pos = o as usize;
                },
            }
            level = level + 1;
        }
        if pos >= len {
            return Err(FormatError::Truncated);
        }
        if data[pos] != LEAF_TAG {
            return Err(FormatError::InvalidLeaf);
        }
        if len - pos < 5 {
            return Err(FormatError::Truncated);
        }
        let n = get_u32(data, pos + 1);
        if (len - pos - 5) / 6 < n as usize {
            return Err(FormatError::Truncated);
        }
        let base = pos + 5;
        let mut leaves: Vec<Leaf> = Vec::new();
        let mut i: usize = 0;
        while i < n as usize
            invariant
                len == data@.len(),
                base == pos + 5,
                base + 6 * (n as int) <= len,
                0 <= i <= n,
                leaves@.len() == i,
                forall|k: int| 0 <= k < i ==> #[trigger] leaves@[k] == leaf_at(data@, base + 6 * k),
            decreases n - i,
        {
            let at = base + 6 * i;
            leaves.push(Leaf { id: get_u32(data, at), count: data[at + 4], total_ngrams: data[at + 5] });
            i = i + 1;
        }
        assert(path@.skip(3) =~= Seq::<u32>::empty());
        assert(leaves@ =~= Seq::new(n as nat, |k: int| leaf_at(data@, pos + 5 + 6 * k)));
        Ok(leaves)
    }

    /// Whether every trigram of a query is found without error.
    pub open spec fn found_all(&self, q: Seq<(Seq<char>, u32)>) -> bool {
        forall|i: int| 0 <= i < q.len() ==> #[trigger] self.lookup(codes(q[i].0)) is Ok
    }

    /// The posting list of each trigram of a query, with its count.
    pub open spec fn found_hits(&self, q: Seq<(Seq<char>, u32)>) -> Seq<(Seq<Leaf>, u32)> {
        Seq::new(q.len(), |i: int| (self.lookup(codes(q[i].0))->Ok_0, q[i].1))
    }

    /// The first failure met when looking up the trigrams of a query from
    /// position `i` on: a lookup's error, or a posting list out of order.
    pub open spec fn failure_from(&self, q: Seq<(Seq<char>, u32)>, i: int) -> Option<FormatError>
        decreases q.len() - i,
    {
        if i < 0 || i >= q.len() {
            None
        } else {
            match self.lookup(codes(q[i].0)) {
                Err(e) => Some(e),
                Ok(v) => if strictly_sorted(v) {
                    self.failure_from(q, i + 1)
                } else {
                    Some(FormatError::Unsorted)
                },
            }
        }
    }

    /// Ranks the candidates of a query given as trigrams with counts: every
    /// id found under some trigram whose score reaches the threshold, by
    /// descending score and then ascending id.
    pub fn search_trigrams(&self, trigrams: &Vec<([char; 3], u32)>, threshold: Threshold) -> (r: Result<
        Vec<Match>,
        SearchError,
    >)
        ensures
            (r == Err::<Vec<Match>, SearchError>(SearchError::QueryTooLarge)) <==> count_total(trigrams@) + 255
                > u64::MAX,
            r is Ok <==> count_total(trigrams@) + 255 <= u64::MAX && self.found_all(qview(trigrams@))
                && lists_sorted(self.found_hits(qview(trigrams@))),
            r matches Ok(v) ==> ranked(v@, self.found_hits(qview(trigrams@)), threshold),
            r matches Err(SearchError::Format(e)) ==> self.failure_from(qview(trigrams@), 0) == Some(e),
    {
        let ghost ts = trigrams@;
        let ghost qs = qview(ts);
        let mut q: u64 = 0;
        let mut i: usize = 0;
        while i < trigrams.len()
            invariant
                0 <= i <= ts.len(),
                ts == trigrams@,
                q == count_total(ts.take(i as int)),
                q + 255 <= u64::MAX,
            decreases ts.len() - i,
        {
            let c = trigrams[i].1 as u64;
            assert(ts.take(i + 1).drop_last() =~= ts.take(i as int));
            if c > 18446744073709551360u64 - q {
                proof {
                    lemma_count_total_prefix(ts, i + 1);
                }
                return Err(SearchError::QueryTooLarge);
            }
            q = q + c;
            i = i + 1;
        }
        assert(ts.take(i as int) =~= ts);
        let ghost fh = self.found_hits(qs);
        let mut hits: Vec<(Vec<Leaf>, u32)> = Vec::new();
        let mut i: usize = 0;
        while i < trigrams.len()
            invariant
                0 <= i <= ts.len(),
                ts == trigrams@,
                qs == qview(ts),
                fh == self.found_hits(qs),
                count_total(ts) + 255 <= u64::MAX,
                hits@.len() == i,
                self.failure_from(qs, 0) == self.failure_from(qs, i as int),
                forall|j: int| 0 <= j < i ==> #[trigger] self.lookup(codes(qs[j].0)) is Ok,
                forall|j: int| 0 <= j < i ==> #[trigger] hits_view(hits@)[j] == fh[j],
                forall|j: int| 0 <= j < i ==> strictly_sorted(#[trigger] hits@[j].0@),
            decreases ts.len() - i,
        {
            assert(qs[i as int].0 == trigrams@[i as int].0@);
            match self.search_ngram(&trigrams[i].0) {
                Err(e) => {
                    return Err(SearchError::Format(e));
                },
                Ok(v) => {
                    if !ids_ascending(&v) {
                        proof {
                            assert(fh[i as int].0 == v@);
                        }
                        return Err(SearchError::Format(FormatError::Unsorted));
                    }
                    let ghost old_hits = hits@;
                    hits.push((v, trigrams[i].1));
                    proof {
                        assert(self.lookup(codes(qs[i as int].0)) == Ok::<Seq<Leaf>, FormatError>(v@));
                        assert(self.failure_from(qs, i as int) == self.failure_from(qs, i + 1));
                        assert forall|j: int| 0 <= j < i + 1 implies #[trigger] hits_view(hits@)[j] == fh[j] by {
                            if j == i {
                                assert(hits@[j].0@ == v@);
                                assert(hits_view(hits@)[j] == (hits@[j].0@, hits@[j].1));
                            } else {
                                assert(hits@[j] == old_hits[j]);
                                assert(hits_view(old_hits)[j] == fh[j]);
                            }
                        }
                        assert forall|j: int| 0 <= j < i + 1 implies strictly_sorted(#[trigger] hits@[j].0@) by {
                            if j < i {
                                assert(hits@[j] == old_hits[j]);
                            }
                        }
                    }
                },
            }
            i = i + 1;
        }
        proof {
            assert(hits_view(hits@) =~= fh);
            assert forall|j: int| 0 <= j < fh.len() implies strictly_sorted(#[trigger] fh[j].0) by {
                assert(hits_view(hits@)[j] == fh[j]);
                assert(strictly_sorted(hits@[j].0@));
            }
            lemma_totals_agree(fh, ts);
        }
        let merged = merge_hits(&hits);
        let v = rank(&merged, &threshold);
        proof {
            assert forall|m: int| 0 <= m < v@.len() implies #[trigger] v@[m] == match_of(fh, v@[m].id) && is_candidate(fh, v@[m].id)
                && passes(v@[m], threshold) by {
                assert(v@.contains(v@[m]));
                assert(merged@.contains(v@[m]));
                let k = choose|k: int| 0 <= k < merged@.len() && #[trigger] merged@[k] == v@[m];
                assert(merged@[k] == match_of(fh, merged@[k].id));
            }
            assert forall|id: u32| is_candidate(fh, id) && passes(match_of(fh, id), threshold) implies #[trigger] emitted(v@, id) by {
                assert(emitted(merged@, id));
                let k = choose|k: int| 0 <= k < merged@.len() && (#[trigger] merged@[k]).id == id;
                assert(merged@[k] == match_of(fh, merged@[k].id));
                assert(merged@.contains(merged@[k]));
                assert(v@.contains(merged@[k]));
                let m = choose|m: int| 0 <= m < v@.len() && #[trigger] v@[m] == merged@[k];
                assert(v@[m].id == id);
            }
        }
        Ok(v)
    }

    /// Ranks the candidates of a string: its trigrams, counted, searched as
    /// by `search_trigrams`.
    pub fn search(&self, string: &str, threshold: Threshold) -> (r: Result<Vec<Match>, SearchError>)
        ensures
            r is Ok <==> trigrams_of(normalized(string@)).len() <= u32::MAX && self.found_all(
                string_query(string@),
            ) && lists_sorted(self.found_hits(string_query(string@))),
            r matches Ok(v) ==> ranked(v@, self.found_hits(string_query(string@)), threshold),
            r matches Err(SearchError::Format(e)) ==> self.failure_from(string_query(string@), 0) == Some(e),
            (r == Err::<Vec<Match>, SearchError>(SearchError::QueryTooLarge)) <==> trigrams_of(normalized(string@)).len()
                > u32::MAX,
    {
        let trigrams = with_trigrams(string);
        let ghost ts = views(trigrams@);
        if trigrams.len() > 4294967295usize {
            return Err(SearchError::QueryTooLarge);
        }
        let counts = count_trigrams(&trigrams);
        proof {
            assert forall|m: int| 0 <= m < counts@.len() implies (#[trigger] counts@[m]).1 <= trigrams@.len() by {
                lemma_occurrences_bound(ts, counts@[m].0@);
            }
        }
        let mut query: Vec<([char; 3], u32)> = Vec::new();
        let mut k: usize = 0;
        while k < counts.len()
            invariant
                0 <= k <= counts@.len(),
                ts == views(trigrams@),
                trigrams@.len() <= u32::MAX,
                counts@.len() <= trigrams@.len(),
                keys(counts@) == first_occurrences(ts),
                ts == trigrams_of(normalized(string@)),
                query@.len() == k,
                forall|m: int|
                    0 <= m < counts@.len() ==> (#[trigger] counts@[m]).1 == occurrences(ts, counts@[m].0@),
                forall|m: int| 0 <= m < counts@.len() ==> (#[trigger] counts@[m]).1 <= trigrams@.len(),
                forall|m: int| 0 <= m < k ==> (#[trigger] query@[m]).0 == counts@[m].0 && query@[m].1 as int == counts@[m].1 as int,
            decreases counts@.len() - k,
        {
            let (t, c) = counts[k];
            query.push((t, c as u32));
            k = k + 1;
        }
        proof {
            assert(query@.len() <= u32::MAX);
            lemma_count_total_bound(query@, u32::MAX as nat);
            assert(query@.len() * (u32::MAX as nat) <= u32::MAX * u32::MAX) by (nonlinear_arith)
                requires
                    query@.len() <= u32::MAX,
            ;
            let sq = string_query(string@);
            assert(keys(counts@).len() == counts@.len());
            assert forall|m: int| 0 <= m < query@.len() implies #[trigger] qview(query@)[m] == sq[m] by {
                assert(keys(counts@)[m] == counts@[m].0@);
                assert(query@[m].0 == counts@[m].0);
            }
            assert(qview(query@) =~= sq);
        }
        self.search_trigrams(&query, threshold)
    }
}

/// Searching one string in one index at a higher threshold never returns
/// more results than at a lower one: both searches rank the same posting
/// lists, those of the string's query.
pub proof fn lemma_search_threshold_monotone(
    ix: Ngrams,
    s: Seq<char>,
    v1: Seq<Match>,
    v2: Seq<Match>,
    t1: Threshold,
    t2: Threshold,
)
    requires
        ranked(v1, ix.found_hits(string_query(s)), t1),
        ranked(v2, ix.found_hits(string_query(s)), t2),
        t1.den > 0,
        t2.den > 0,
        t1.num * t2.den <= t2.num * t1.den,
    ensures
        v2.len() <= v1.len(),
{
    lemma_threshold_monotone(v1, v2, ix.found_hits(string_query(s)), t1, t2);
}

} // verus!
