//! The in-memory trie that a builder fills: three levels of branches keyed
//! by character, over lists of leaves sorted by id.
use vstd::prelude::*;

verus! {

/// One source string's statistics for one trigram.
#[derive(Clone, Copy, Debug, PartialEq, Eq, Structural)]
pub struct Leaf {
    pub id: u32,
    pub count: u8,
    pub total_ngrams: u8,
}

/// An inner node, keyed by one character of a trigram.
#[derive(Debug)]
pub struct Branch {
    pub entries: Vec<Entry>,
    pub character: u32,
}

/// A node of the trie.
#[derive(Debug)]
pub enum Entry {
    Branch(Branch),
    Leaf(Leaf),
}

/// Number of characters in a trigram, hence the depth of the trie.
pub const DEPTH: usize = 3;

/// The character of the `i`-th entry, taken as a branch.
pub open spec fn char_at(s: Seq<Entry>, i: int) -> u32 {
    s[i]->Branch_0.character
}

/// The children of the `i`-th entry, taken as a branch.
pub open spec fn children(s: Seq<Entry>, i: int) -> Seq<Entry> {
    s[i]->Branch_0.entries@
}

/// The entries taken as leaves.
pub open spec fn leaves_view(s: Seq<Entry>) -> Seq<Leaf> {
    s.map_values(|e: Entry| e->Leaf_0)
}

/// Leaves in strictly ascending order of id: at most one leaf per id.
pub open spec fn sorted_by_id(s: Seq<Leaf>) -> bool {
    forall|i: int, j: int| 0 <= i < j < s.len() ==> (#[trigger] s[i]).id < (#[trigger] s[j]).id
}

/// No leaf of `s` has id `id`.
pub open spec fn absent(s: Seq<Leaf>, id: u32) -> bool {
    forall|k: int| 0 <= k < s.len() ==> (#[trigger] s[k]).id != id
}

/// Branches in strictly ascending order of character.
pub open spec fn sorted_by_char(s: Seq<Entry>) -> bool {
    forall|i: int, j: int| 0 <= i < j < s.len() ==> char_at(s, i) < char_at(s, j)
}

/// Branches in non-decreasing order of character.
pub open spec fn chars_ascending(s: Seq<Entry>) -> bool {
    forall|i: int, j: int| 0 <= i < j < s.len() ==> char_at(s, i) <= char_at(s, j)
}

/// A level with `depth` characters still to go: leaves sorted by id at the
/// bottom, above it branches sorted by character, each with children.
pub open spec fn wf_level(s: Seq<Entry>, depth: nat) -> bool
    decreases depth,
{
    if depth == 0 {
        (forall|i: int| 0 <= i < s.len() ==> (#[trigger] s[i]) is Leaf) && sorted_by_id(
            leaves_view(s),
        )
    } else {
        &&& forall|i: int| 0 <= i < s.len() ==> (#[trigger] s[i]) is Branch
        &&& sorted_by_char(s)
        &&& forall|i: int|
            0 <= i < s.len() ==> (#[trigger] children(s, i)).len() > 0 && wf_level(
                children(s, i),
                (depth - 1) as nat,
            )
    }
}

/// The index of the branch keyed by `c`, or -1.
pub open spec fn find_char(s: Seq<Entry>, c: u32) -> int {
    if exists|i: int| 0 <= i < s.len() && #[trigger] char_at(s, i) == c {
        choose|i: int| 0 <= i < s.len() && #[trigger] char_at(s, i) == c
    } else {
        -1
    }
}

/// The leaves reached by following `path` down from `s`; empty where some
/// character of the path has no branch.
pub open spec fn postings(s: Seq<Entry>, path: Seq<u32>) -> Seq<Leaf>
    decreases path.len(),
{
    if path.len() == 0 {
        leaves_view(s)
    } else {
        let i = find_char(s, path[0]);
        if i < 0 {
            Seq::empty()
        } else {
            postings(children(s, i), path.drop_first())
        }
    }
}

/// The first position in `s` whose id is above `id`.
pub open spec fn upper_bound(s: Seq<Leaf>, id: u32) -> int
    decreases s.len(),
{
    if s.len() == 0 {
        0
    } else if id < s[0].id {
        0
    } else {
        1 + upper_bound(s.drop_first(), id)
    }
}

/// `s` with `leaf` inserted after every leaf whose id is not above its own.
pub open spec fn insert_leaf(s: Seq<Leaf>, leaf: Leaf) -> Seq<Leaf> {
    s.insert(upper_bound(s, leaf.id), leaf)
}

/// The code points of a trigram.
pub open spec fn codes(t: Seq<char>) -> Seq<u32> {
    t.map_values(|c: char| c as u32)
}

proof fn lemma_find_at(s: Seq<Entry>, c: u32, i: int)
    requires
        sorted_by_char(s),
        0 <= i < s.len(),
        char_at(s, i) == c,
    ensures
        find_char(s, c) == i,
{
    assert(exists|j: int| 0 <= j < s.len() && #[trigger] char_at(s, j) == c);
    let j = find_char(s, c);
    if j < i {
        assert(char_at(s, j) < char_at(s, i));
    } else if i < j {
        assert(char_at(s, i) < char_at(s, j));
    }
}

proof fn lemma_find_none(s: Seq<Entry>, c: u32)
    requires
        forall|i: int| 0 <= i < s.len() ==> #[trigger] char_at(s, i) != c,
    ensures
        find_char(s, c) == -1,
{
}

pub proof fn lemma_postings_empty(path: Seq<u32>)
    ensures
        postings(Seq::<Entry>::empty(), path) == Seq::<Leaf>::empty(),
{
    if path.len() == 0 {
        assert(leaves_view(Seq::<Entry>::empty()) =~= Seq::<Leaf>::empty());
    } else {
        lemma_find_none(Seq::<Entry>::empty(), path[0]);
    }
}

proof fn lemma_upper_bound(s: Seq<Leaf>, id: u32, k: int)
    requires
        0 <= k <= s.len(),
        forall|j: int| 0 <= j < k ==> (#[trigger] s[j]).id <= id,
        forall|j: int| k <= j < s.len() ==> id < (#[trigger] s[j]).id,
    ensures
        upper_bound(s, id) == k,
    decreases s.len(),
{
    if s.len() > 0 && k > 0 {
        let t = s.drop_first();
        assert forall|j: int| 0 <= j < k - 1 implies (#[trigger] t[j]).id <= id by {
            assert(t[j] == s[j + 1]);
        }
        assert forall|j: int| k - 1 <= j < t.len() implies id < (#[trigger] t[j]).id by {
            assert(t[j] == s[j + 1]);
        }
        lemma_upper_bound(t, id, k - 1);
    }
}

/// The first position in a leaf list whose id is above `id`.
pub fn bisect_leaves(data: &Vec<Entry>, id: u32) -> (r: usize)
    requires
        wf_level(data@, 0),
    ensures
        r <= data@.len(),
        r as int == upper_bound(leaves_view(data@), id),
        forall|j: int| 0 <= j < r ==> (#[trigger] leaves_view(data@)[j]).id <= id,
        forall|j: int| r <= j < data@.len() ==> id < (#[trigger] leaves_view(data@)[j]).id,
{
    let ghost s = leaves_view(data@);
    let mut low: usize = 0;
    let mut high: usize = data.len();
    while low < high
        invariant
            0 <= low <= high <= data@.len(),
            s == leaves_view(data@),
            wf_level(data@, 0),
            forall|j: int| 0 <= j < low ==> (#[trigger] s[j]).id <= id,
            forall|j: int| high <= j < data@.len() ==> id < (#[trigger] s[j]).id,
        decreases high - low,
    {
        let mid = low + (high - low) / 2;
        let x = match &data[mid] {
            Entry::Leaf(leaf) => leaf.id,
            Entry::Branch(_) => {
                assert(data@[mid as int] is Leaf);
                0
            },
        };
        assert(x == s[mid as int].id);
        if id < x {
            high = mid;
        } else {
            low = mid + 1;
        }
    }
    proof {
        lemma_upper_bound(s, id, low as int);
    }
    low
}

/// The first position in a branch list whose character is above `character`.
pub fn bisect_branches(data: &Vec<Entry>, character: u32) -> (r: usize)
    requires
        forall|i: int| 0 <= i < data@.len() ==> (#[trigger] data@[i]) is Branch,
        chars_ascending(data@),
    ensures
        r <= data@.len(),
        forall|j: int| 0 <= j < r ==> #[trigger] char_at(data@, j) <= character,
        forall|j: int| r <= j < data@.len() ==> character < #[trigger] char_at(data@, j),
{
    let mut low: usize = 0;
    let mut high: usize = data.len();
    while low < high
        invariant
            0 <= low <= high <= data@.len(),
            forall|i: int| 0 <= i < data@.len() ==> (#[trigger] data@[i]) is Branch,
            chars_ascending(data@),
            forall|j: int| 0 <= j < low ==> #[trigger] char_at(data@, j) <= character,
            forall|j: int| high <= j < data@.len() ==> character < #[trigger] char_at(data@, j),
        decreases high - low,
    {
        let mid = low + (high - low) / 2;
        let x = match &data[mid] {
            Entry::Branch(b) => b.character,
            Entry::Leaf(_) => {
                assert(data@[mid as int] is Branch);
                0
            },
        };
        assert(x == char_at(data@, mid as int));
        if character < x {
            high = mid;
        } else {
            low = mid + 1;
        }
    }
    low
}

/// Inserts `leaf` under the characters of `path` from position `level` on,
/// creating branches where they are missing.
pub fn insert_path(entries: &mut Vec<Entry>, path: &[u32; 3], level: usize, leaf: Leaf)
    requires
        level <= DEPTH,
        wf_level(old(entries)@, (DEPTH - level) as nat),
        absent(postings(old(entries)@, path@.skip(level as int)), leaf.id),
    ensures
        wf_level(final(entries)@, (DEPTH - level) as nat),
        final(entries)@.len() > 0,
        forall|p: Seq<u32>|
            p.len() == DEPTH - level ==> #[trigger] postings(final(entries)@, p) == if p
                == path@.skip(level as int) {
                insert_leaf(postings(old(entries)@, p), leaf)
            } else {
                postings(old(entries)@, p)
            },
    decreases DEPTH - level,
{
    let ghost old_s = entries@;
    if level == DEPTH {
        assert(path@.skip(level as int) =~= Seq::<u32>::empty());
        assert(absent(leaves_view(old_s), leaf.id));
        let k = bisect_leaves(entries, leaf.id);
        entries.insert(k, Entry::Leaf(leaf));
        proof {
            let ls = leaves_view(old_s);
            let ns = leaves_view(entries@);
            assert(ns =~= ls.insert(k as int, leaf));
            assert(sorted_by_id(ns)) by {
                assert forall|i: int, j: int| 0 <= i < j < ns.len() implies (#[trigger] ns[i]).id
                    < (#[trigger] ns[j]).id by {
                    if j < k {
                    } else if j == k {
                        assert(ls[i].id <= leaf.id);
                        assert(ls[i].id != leaf.id);
                    } else if i < k {
                        assert(ls[i].id < ls[j - 1].id);
                    } else if i == k {
                        assert(leaf.id < ls[j - 1].id);
                    } else {
                        assert(ls[i - 1].id < ls[j - 1].id);
                    }
                }
            }
            assert forall|i: int| 0 <= i < entries@.len() implies (#[trigger] entries@[i]) is Leaf by {
                if i < k {
                    assert(entries@[i] == old_s[i]);
                } else if i > k {
                    assert(entries@[i] == old_s[i - 1]);
                }
            }
            assert forall|p: Seq<u32>| p.len() == DEPTH - level implies #[trigger] postings(entries@, p)
                == if p == path@.skip(level as int) {
                insert_leaf(postings(old_s, p), leaf)
            } else {
                postings(old_s, p)
            } by {
                assert(p =~= path@.skip(level as int));
            }
        }
    } else {
        let c = path[level];
        let k = bisect_branches(entries, c);
        let mut found = false;
        if k > 0 {
            match &entries[k - 1] {
                Entry::Branch(b) => {
                    found = b.character == c;
                },
                Entry::Leaf(_) => {},
            }
        }
        if found {
            let idx = k - 1;
            let mut taken = Entry::Branch(Branch { entries: Vec::new(), character: c });
            std::mem::swap(&mut entries[idx], &mut taken);
            let ghost mid = entries@;
            match taken {
                Entry::Branch(b) => {
                    let Branch { entries: mut child, character } = b;
                    let ghost old_child = child@;
                    assert(old_child == children(old_s, idx as int));
                    proof {
                        let rest = path@.skip(level as int);
                        assert(rest[0] == c);
                        assert(rest.drop_first() =~= path@.skip(level + 1));
                        assert(char_at(old_s, idx as int) == c);
                        lemma_find_at(old_s, c, idx as int);
                        assert(postings(old_s, rest) == postings(old_child, path@.skip(level + 1)));
                    }
                    insert_path(&mut child, path, level + 1, leaf);
                    entries.set(idx, Entry::Branch(Branch { entries: child, character }));
                    proof {
                        lemma_descend_existing(old_s, entries@, idx as int, c, old_child, path@, level as int, leaf);
                    }
                },
                Entry::Leaf(_) => {
                    assert(false);
                },
            }
        } else {
            let mut child: Vec<Entry> = Vec::new();
            proof {
                lemma_postings_empty(path@.skip(level + 1));
            }
            insert_path(&mut child, path, level + 1, leaf);
            entries.insert(k, Entry::Branch(Branch { entries: child, character: c }));
            proof {
                lemma_descend_new(old_s, entries@, k as int, c, path@, level as int, leaf);
            }
        }
    }
}

proof fn lemma_descend_existing(
    old_s: Seq<Entry>,
    new_s: Seq<Entry>,
    idx: int,
    c: u32,
    old_child: Seq<Entry>,
    path: Seq<u32>,
    level: int,
    leaf: Leaf,
)
    requires
        0 <= level < DEPTH,
        path.len() == DEPTH,
        path[level] == c,
        wf_level(old_s, (DEPTH - level) as nat),
        0 <= idx < old_s.len(),
        char_at(old_s, idx) == c,
        old_child == children(old_s, idx),
        new_s.len() == old_s.len(),
        new_s[idx] is Branch,
        char_at(new_s, idx) == c,
        forall|i: int| 0 <= i < old_s.len() && i != idx ==> new_s[i] == old_s[i],
        children(new_s, idx).len() > 0,
        wf_level(children(new_s, idx), (DEPTH - level - 1) as nat),
        forall|p: Seq<u32>|
            p.len() == DEPTH - level - 1 ==> #[trigger] postings(children(new_s, idx), p) == if p
                == path.skip(level + 1) {
                insert_leaf(postings(old_child, p), leaf)
            } else {
                postings(old_child, p)
            },
    ensures
        wf_level(new_s, (DEPTH - level) as nat),
        forall|p: Seq<u32>|
            p.len() == DEPTH - level ==> #[trigger] postings(new_s, p) == if p == path.skip(level) {
                insert_leaf(postings(old_s, p), leaf)
            } else {
                postings(old_s, p)
            },
{
    let d = (DEPTH - level) as nat;
    assert forall|i: int| 0 <= i < new_s.len() implies (#[trigger] new_s[i]) is Branch by {
        if i != idx {
            assert(old_s[i] is Branch);
        }
    }
    assert(sorted_by_char(new_s)) by {
        assert forall|i: int, j: int| 0 <= i < j < new_s.len() implies char_at(new_s, i) < char_at(new_s, j) by {
            assert(char_at(old_s, i) < char_at(old_s, j));
        }
    }
    assert forall|i: int| 0 <= i < new_s.len() implies (#[trigger] children(new_s, i)).len() > 0
        && wf_level(children(new_s, i), (d - 1) as nat) by {
        if i != idx {
            assert(children(new_s, i) == children(old_s, i));
        }
    }
    assert forall|p: Seq<u32>| p.len() == DEPTH - level implies #[trigger] postings(new_s, p) == if p
        == path.skip(level) {
        insert_leaf(postings(old_s, p), leaf)
    } else {
        postings(old_s, p)
    } by {
        let c2 = p[0];
        let q = p.drop_first();
        if c2 == c {
            lemma_find_at(old_s, c, idx);
            lemma_find_at(new_s, c, idx);
            assert(postings(new_s, p) == postings(children(new_s, idx), q));
            assert(postings(old_s, p) == postings(old_child, q));
            assert(p == path.skip(level) <==> q == path.skip(level + 1)) by {
                if q == path.skip(level + 1) {
                    assert forall|i: int| 0 <= i < p.len() implies p[i] == path.skip(level)[i] by {
                        if i > 0 {
                            assert(p[i] == q[i - 1]);
                        }
                    }
                    assert(p =~= path.skip(level));
                }
                if p == path.skip(level) {
                    assert(q =~= path.skip(level + 1));
                }
            }
        } else {
            assert(p != path.skip(level)) by {
                if p == path.skip(level) {
                    assert(p[0] == path[level]);
                }
            }
            let j = find_char(old_s, c2);
            if j >= 0 {
                assert(0 <= j < old_s.len() && char_at(old_s, j) == c2);
                assert(j != idx);
                assert(char_at(new_s, j) == c2);
                lemma_find_at(new_s, c2, j);
                assert(children(new_s, j) == children(old_s, j));
                assert(postings(new_s, p) == postings(children(new_s, j), q));
                assert(postings(old_s, p) == postings(children(old_s, j), q));
            } else {
                assert forall|i: int| 0 <= i < new_s.len() implies #[trigger] char_at(new_s, i) != c2 by {
                    if i != idx {
                        if char_at(old_s, i) == c2 {
                            lemma_find_at(old_s, c2, i);
                        }
                    }
                }
                lemma_find_none(new_s, c2);
            }
        }
    }
}

proof fn lemma_descend_new(
    old_s: Seq<Entry>,
    new_s: Seq<Entry>,
    k: int,
    c: u32,
    path: Seq<u32>,
    level: int,
    leaf: Leaf,
)
    requires
        0 <= level < DEPTH,
        path.len() == DEPTH,
        path[level] == c,
        wf_level(old_s, (DEPTH - level) as nat),
        0 <= k <= old_s.len(),
        forall|j: int| 0 <= j < k ==> #[trigger] char_at(old_s, j) <= c,
        forall|j: int| k <= j < old_s.len() ==> c < #[trigger] char_at(old_s, j),
        k > 0 ==> char_at(old_s, k - 1) != c,
        new_s.len() == old_s.len() + 1,
        new_s[k] is Branch,
        char_at(new_s, k) == c,
        forall|i: int| 0 <= i < k ==> new_s[i] == old_s[i],
        forall|i: int| k < i < new_s.len() ==> new_s[i] == old_s[i - 1],
        children(new_s, k).len() > 0,
        wf_level(children(new_s, k), (DEPTH - level - 1) as nat),
        forall|p: Seq<u32>|
            p.len() == DEPTH - level - 1 ==> #[trigger] postings(children(new_s, k), p) == if p
                == path.skip(level + 1) {
                insert_leaf(postings(Seq::<Entry>::empty(), p), leaf)
            } else {
                postings(Seq::<Entry>::empty(), p)
            },
    ensures
        wf_level(new_s, (DEPTH - level) as nat),
        forall|p: Seq<u32>|
            p.len() == DEPTH - level ==> #[trigger] postings(new_s, p) == if p == path.skip(level) {
                insert_leaf(postings(old_s, p), leaf)
            } else {
                postings(old_s, p)
            },
{
    let d = (DEPTH - level) as nat;
    assert forall|j: int| 0 <= j < k implies #[trigger] char_at(old_s, j) < c by {
        if k > 0 {
            assert(char_at(old_s, k - 1) < c);
            if j < k - 1 {
                assert(char_at(old_s, j) < char_at(old_s, k - 1));
            }
        }
    }
    assert forall|i: int| 0 <= i < new_s.len() implies (#[trigger] new_s[i]) is Branch by {
        if i < k {
            assert(old_s[i] is Branch);
        } else if i > k {
            assert(old_s[i - 1] is Branch);
        }
    }
    assert(sorted_by_char(new_s)) by {
        assert forall|i: int, j: int| 0 <= i < j < new_s.len() implies char_at(new_s, i) < char_at(new_s, j) by {
            if j < k {
                assert(char_at(old_s, i) < char_at(old_s, j));
            } else if j == k {
                assert(char_at(old_s, i) < c);
            } else if i < k {
                assert(char_at(old_s, i) < c);
                assert(c < char_at(old_s, j - 1));
            } else if i == k {
                assert(c < char_at(old_s, j - 1));
            } else {
                assert(char_at(old_s, i - 1) < char_at(old_s, j - 1));
            }
        }
    }
    assert forall|i: int| 0 <= i < new_s.len() implies (#[trigger] children(new_s, i)).len() > 0
        && wf_level(children(new_s, i), (d - 1) as nat) by {
        if i < k {
            assert(children(new_s, i) == children(old_s, i));
        } else if i > k {
            assert(children(new_s, i) == children(old_s, i - 1));
        }
    }
    assert forall|p: Seq<u32>| p.len() == DEPTH - level implies #[trigger] postings(new_s, p) == if p
        == path.skip(level) {
        insert_leaf(postings(old_s, p), leaf)
    } else {
        postings(old_s, p)
    } by {
        let c2 = p[0];
        let q = p.drop_first();
        lemma_postings_empty(q);
        if c2 == c {
            lemma_find_at(new_s, c, k);
            assert forall|i: int| 0 <= i < old_s.len() implies #[trigger] char_at(old_s, i) != c by {
                if i >= k {
                    assert(c < char_at(old_s, i));
                }
            }
            lemma_find_none(old_s, c);
            assert(postings(new_s, p) == postings(children(new_s, k), q));
            assert(postings(old_s, p) == Seq::<Leaf>::empty());
            assert(p == path.skip(level) <==> q == path.skip(level + 1)) by {
                if q == path.skip(level + 1) {
                    assert forall|i: int| 0 <= i < p.len() implies p[i] == path.skip(level)[i] by {
                        if i > 0 {
                            assert(p[i] == q[i - 1]);
                        }
                    }
                    assert(p =~= path.skip(level));
                }
                if p == path.skip(level) {
                    assert(q =~= path.skip(level + 1));
                }
            }
            assert(insert_leaf(Seq::<Leaf>::empty(), leaf) =~= seq![leaf]);
        } else {
            assert(p != path.skip(level)) by {
                if p == path.skip(level) {
                    assert(p[0] == path[level]);
                }
            }
            let j = find_char(old_s, c2);
            if j >= 0 {
                assert(0 <= j < old_s.len() && char_at(old_s, j) == c2);
                let nj = if j < k { j } else { j + 1 };
                assert(new_s[nj] == old_s[j]);
                lemma_find_at(new_s, c2, nj);
                assert(children(new_s, nj) == children(old_s, j));
                assert(postings(new_s, p) == postings(children(new_s, nj), q));
                assert(postings(old_s, p) == postings(children(old_s, j), q));
            } else {
                assert forall|i: int| 0 <= i < new_s.len() implies #[trigger] char_at(new_s, i) != c2 by {
                    if i < k {
                        if char_at(old_s, i) == c2 {
                            lemma_find_at(old_s, c2, i);
                        }
                    } else if i > k {
                        if char_at(old_s, i - 1) == c2 {
                            lemma_find_at(old_s, c2, i - 1);
                        }
                    }
                }
                lemma_find_none(new_s, c2);
            }
        }
    }
}

} // verus!
