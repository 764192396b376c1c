//! The binary form of a trie: records of a one-byte tag and a big-endian
//! count, branches with (character, offset) slots, leaves with (id, count,
//! total) triples. The root record starts at offset 0.
use crate::trie::{char_at, children, codes, postings, find_char, leaves_view, sorted_by_char, wf_level, Entry, Leaf, DEPTH};
use vstd::prelude::*;

verus! {

/// Tag byte of a branch record.
pub const BRANCH_TAG: u8 = 1;

/// Tag byte of a leaf record.
pub const LEAF_TAG: u8 = 2;

/// Why bytes could not be read as an index.
#[derive(Clone, Copy, Debug, PartialEq, Eq, Structural)]
pub enum FormatError {
    /// A branch record was expected and the tag says otherwise.
    InvalidBranch,
    /// A leaf record was expected and the tag says otherwise.
    InvalidLeaf,
    /// A record runs past the end of the bytes.
    Truncated,
    /// A leaf record's ids are not in strictly ascending order.
    Unsorted,
}

/// Why a search could not be made.
#[derive(Clone, Copy, Debug, PartialEq, Eq, Structural)]
pub enum SearchError {
    /// The index is not well formed.
    Format(FormatError),
    /// The query's trigram counts are too large to add up.
    QueryTooLarge,
}

/// Why a trie could not be written.
#[derive(Clone, Copy, Debug, PartialEq, Eq, Structural)]
pub enum WriteError {
    /// The trie holds nothing.
    Empty,
    /// An offset or a count does not fit in 32 bits.
    TooLarge,
}

/// The big-endian 32-bit number at position `i`.
pub open spec fn be32(b: Seq<u8>, i: int) -> int {
    b[i] as int * 16777216 + b[i + 1] as int * 65536 + b[i + 2] as int * 256 + b[i + 3] as int
}

/// The leaf triple at position `at`.
pub open spec fn leaf_at(b: Seq<u8>, at: int) -> Leaf {
    Leaf { id: be32(b, at) as u32, count: b[at + 4], total_ngrams: b[at + 5] }
}

/// Scans branch slots `i..n` from `base` for character `c`: the offset of
/// the first match, none, or truncation where a slot runs past the end.
pub open spec fn scan(b: Seq<u8>, base: int, n: int, c: u32, i: int) -> Result<Option<u32>, FormatError>
    decreases n - i,
{
    if i >= n {
        Ok(None)
    } else if base + 8 * (i + 1) > b.len() {
        Err(FormatError::Truncated)
    } else if be32(b, base + 8 * i) == c as int {
        Ok(Some(be32(b, base + 8 * i + 4) as u32))
    } else {
        scan(b, base, n, c, i + 1)
    }
}

/// What reading the record at `pos` along `path` gives.
pub open spec fn read_path(b: Seq<u8>, pos: int, path: Seq<u32>) -> Result<Seq<Leaf>, FormatError>
    decreases path.len(),
{
    if pos < 0 || pos >= b.len() {
        Err(FormatError::Truncated)
    } else if path.len() > 0 {
        if b[pos] != BRANCH_TAG {
            Err(FormatError::InvalidBranch)
        } else if pos + 5 > b.len() {
            Err(FormatError::Truncated)
        } else {
            match scan(b, pos + 5, be32(b, pos + 1), path[0], 0) {
                Err(e) => Err(e),
                Ok(None) => Ok(Seq::empty()),
                Ok(Some(o)) => read_path(b, o as int, path.drop_first()),
            }
        }
    } else {
        if b[pos] != LEAF_TAG {
            Err(FormatError::InvalidLeaf)
        } else if pos + 5 > b.len() || pos + 5 + 6 * be32(b, pos + 1) > b.len() {
            Err(FormatError::Truncated)
        } else {
            Ok(Seq::new(be32(b, pos + 1) as nat, |i: int| leaf_at(b, pos + 5 + 6 * i)))
        }
    }
}

/// The record at `pos` holds level `s` with `depth` characters to go, and
/// it and all it points to lie in `pos..end`.
pub open spec fn encodes(b: Seq<u8>, pos: int, end: int, s: Seq<Entry>, depth: nat) -> bool
    decreases depth,
{
    &&& 0 <= pos
    &&& pos + 5 <= end <= b.len()
    &&& be32(b, pos + 1) == s.len()
    &&& if depth == 0 {
        &&& b[pos] == LEAF_TAG
        &&& pos + 5 + 6 * s.len() <= end
        &&& forall|i: int| 0 <= i < s.len() ==> #[trigger] leaf_at(b, pos + 5 + 6 * i) == leaves_view(s)[i]
    } else {
        &&& b[pos] == BRANCH_TAG
        &&& pos + 5 + 8 * s.len() <= end
        &&& forall|i: int|
            0 <= i < s.len() ==> {
                &&& be32(b, pos + 5 + 8 * i) == #[trigger] char_at(s, i) as int
                &&& pos + 5 + 8 * s.len() <= be32(b, pos + 9 + 8 * i)
                &&& encodes(b, be32(b, pos + 9 + 8 * i), end, children(s, i), (depth - 1) as nat)
            }
    }
}

/// The number of bytes that the records of a level take.
pub open spec fn encoded_size(s: Seq<Entry>, depth: nat) -> nat
    decreases depth, 1int, 0int,
{
    if depth == 0 {
        5 + 6 * s.len()
    } else {
        5 + 8 * s.len() + children_size(s, depth, s.len() as int)
    }
}

/// The number of bytes that the records under the first `i` branches of a
/// level take.
pub open spec fn children_size(s: Seq<Entry>, depth: nat, i: int) -> nat
    decreases depth, 0int, i,
{
    if i <= 0 || depth == 0 {
        0
    } else {
        children_size(s, depth, i - 1) + encoded_size(children(s, i - 1), (depth - 1) as nat)
    }
}

proof fn lemma_children_size_grows(s: Seq<Entry>, depth: nat, i: int, j: int)
    requires
        depth > 0,
        0 <= i <= j,
    ensures
        children_size(s, depth, i) <= children_size(s, depth, j),
    decreases j - i,
{
    if i < j {
        lemma_children_size_grows(s, depth, i, j - 1);
    }
}

/// Slot `k` of a branch record whose slots start at `start`: the character
/// of the `k`-th branch and the offset, past the slots, of a record that
/// holds its children.
pub open spec fn slot_ok(b: Seq<u8>, start: int, end: int, s: Seq<Entry>, depth: nat, k: int) -> bool {
    &&& be32(b, start + 8 * k) == char_at(s, k) as int
    &&& start + 8 * s.len() <= be32(b, start + 8 * k + 4)
    &&& encodes(b, be32(b, start + 8 * k + 4), end, children(s, k), depth)
}

proof fn lemma_frame(b1: Seq<u8>, b2: Seq<u8>, pos: int, end1: int, end2: int, s: Seq<Entry>, depth: nat)
    requires
        encodes(b1, pos, end1, s, depth),
        end1 <= end2 <= b2.len(),
        forall|j: int| pos <= j < end1 ==> b2[j] == b1[j],
    ensures
        encodes(b2, pos, end2, s, depth),
    decreases depth,
{
    assert(be32(b2, pos + 1) == be32(b1, pos + 1));
    if depth == 0 {
        assert(b2[pos] == b1[pos]);
        assert forall|i: int| 0 <= i < s.len() implies #[trigger] leaf_at(b2, pos + 5 + 6 * i) == leaves_view(s)[i] by {
            assert(leaf_at(b2, pos + 5 + 6 * i) == leaf_at(b1, pos + 5 + 6 * i));
        }
        assert(b2[pos] == LEAF_TAG);
        assert(pos + 5 + 6 * s.len() <= end2);
        assert(forall|i: int| 0 <= i < s.len() ==> #[trigger] leaf_at(b2, pos + 5 + 6 * i) == leaves_view(s)[i]);
        assert(0 <= pos);
        assert(pos + 5 <= end2 <= b2.len());
        assert(be32(b2, pos + 1) == s.len());
        assert(encodes(b2, pos, end2, s, 0));
        assert(encodes(b2, pos, end2, s, depth));
    } else {
        assert(b2[pos] == b1[pos]);
        assert forall|i: int| 0 <= i < s.len() implies {
            &&& be32(b2, pos + 5 + 8 * i) == #[trigger] char_at(s, i) as int
            &&& pos + 5 + 8 * s.len() <= be32(b2, pos + 9 + 8 * i)
            &&& encodes(b2, be32(b2, pos + 9 + 8 * i), end2, children(s, i), (depth - 1) as nat)
        } by {
            assert(char_at(s, i) == char_at(s, i));
            assert(be32(b1, pos + 5 + 8 * i) == char_at(s, i) as int);
            assert(encodes(b1, be32(b1, pos + 9 + 8 * i), end1, children(s, i), (depth - 1) as nat));
            assert(be32(b2, pos + 5 + 8 * i) == be32(b1, pos + 5 + 8 * i));
            assert(be32(b2, pos + 9 + 8 * i) == be32(b1, pos + 9 + 8 * i));
            lemma_frame(b1, b2, be32(b1, pos + 9 + 8 * i), end1, end2, children(s, i), (depth - 1) as nat);
        }
        assert(b2[pos] == BRANCH_TAG);
        assert(pos + 5 + 8 * s.len() <= end2);
    }
    assert(0 <= pos);
    assert(pos + 5 <= end2 <= b2.len());
    assert(be32(b2, pos + 1) == s.len());
}

proof fn lemma_scan(b: Seq<u8>, pos: int, end: int, s: Seq<Entry>, depth: nat, c: u32, i: int)
    requires
        depth > 0,
        encodes(b, pos, end, s, depth),
        sorted_by_char(s),
        0 <= i <= s.len(),
        forall|j: int| 0 <= j < i ==> #[trigger] char_at(s, j) != c,
    ensures
        scan(b, pos + 5, s.len() as int, c, i) == if find_char(s, c) >= 0 {
            Ok::<Option<u32>, FormatError>(Some(be32(b, pos + 9 + 8 * find_char(s, c)) as u32))
        } else {
            Ok::<Option<u32>, FormatError>(None)
        },
    decreases s.len() - i,
{
    if i >= s.len() {
        assert forall|j: int| 0 <= j < s.len() implies #[trigger] char_at(s, j) != c by {}
        assert(!(exists|j: int| 0 <= j < s.len() && #[trigger] char_at(s, j) == c));
    } else {
        assert(pos + 5 + 8 * (i + 1) <= b.len());
        if char_at(s, i) == c {
            assert(exists|j: int| 0 <= j < s.len() && #[trigger] char_at(s, j) == c);
            let f = find_char(s, c);
            if f < i {
                assert(char_at(s, f) != c);
            } else if f > i {
                assert(char_at(s, i) < char_at(s, f));
            }
        } else {
            lemma_scan(b, pos, end, s, depth, c, i + 1);
        }
    }
}

/// Bytes that encode a well-formed level read back, along every path, as
/// the leaves that the level stores there.
pub proof fn lemma_read_encoded(b: Seq<u8>, pos: int, end: int, s: Seq<Entry>, depth: nat, path: Seq<u32>)
    requires
        wf_level(s, depth),
        encodes(b, pos, end, s, depth),
        path.len() == depth,
    ensures
        read_path(b, pos, path) == Ok::<Seq<Leaf>, FormatError>(postings(s, path)),
    decreases depth,
{
    if depth == 0 {
        let n = be32(b, pos + 1);
        assert(Seq::new(n as nat, |i: int| leaf_at(b, pos + 5 + 6 * i)) =~= leaves_view(s));
    } else {
        lemma_scan(b, pos, end, s, depth, path[0], 0);
        let f = find_char(s, path[0]);
        if f >= 0 {
            assert(0 <= f < s.len() && char_at(s, f) == path[0]);
            lemma_read_encoded(b, be32(b, pos + 9 + 8 * f), end, children(s, f), (depth - 1) as nat, path.drop_first());
        }
    }
}

fn be_split(v: u32) -> (r: (u8, u8, u8, u8))
    ensures
        r.0 as int * 16777216 + r.1 as int * 65536 + r.2 as int * 256 + r.3 as int == v as int,
{
    let b0 = v / 16777216;
    let b1 = (v / 65536) % 256;
    let b2 = (v / 256) % 256;
    let b3 = v % 256;
    assert(b0 * 16777216 + b1 * 65536 + b2 * 256 + b3 == v) by (nonlinear_arith)
        requires
            b0 == v / 16777216,
            b1 == (v / 65536) % 256,
            b2 == (v / 256) % 256,
            b3 == v % 256,
    ;
    (b0 as u8, b1 as u8, b2 as u8, b3 as u8)
}

/// Appends `v` in big-endian order.
fn put_u32(out: &mut Vec<u8>, v: u32)
    ensures
        final(out)@.len() == old(out)@.len() + 4,
        forall|j: int| 0 <= j < old(out)@.len() ==> #[trigger] final(out)@[j] == old(out)@[j],
        be32(final(out)@, old(out)@.len() as int) == v as int,
{
    let (b0, b1, b2, b3) = be_split(v);
    out.push(b0);
    out.push(b1);
    out.push(b2);
    out.push(b3);
}

/// Overwrites the four bytes at `at` with `v` in big-endian order.
fn set_u32(out: &mut Vec<u8>, at: usize, v: u32)
    requires
        at + 4 <= old(out)@.len(),
    ensures
        final(out)@.len() == old(out)@.len(),
        forall|j: int|
            0 <= j < old(out)@.len() && !(at <= j < at + 4) ==> #[trigger] final(out)@[j] == old(out)@[j],
        be32(final(out)@, at as int) == v as int,
{
    // The length is a usize, so the indices below cannot overflow.
    let _len = out.len();
    let (b0, b1, b2, b3) = be_split(v);
    out.set(at, b0);
    out.set(at + 1, b1);
    out.set(at + 2, b2);
    out.set(at + 3, b3);
}

/// Appends the records of a level with `depth` characters to go, children
/// after their parent, and returns the offset of the level's own record.
/// Each branch record is written with empty slots first, which are filled
/// in as its children are written.
pub fn write_branch(entries: &Vec<Entry>, out: &mut Vec<u8>, depth: usize) -> (r: Result<
    u32,
    WriteError,
>)
    requires
        depth <= DEPTH,
        wf_level(entries@, depth as nat),
        entries@.len() > 0,
    ensures
        final(out)@.len() >= old(out)@.len(),
        forall|j: int| 0 <= j < old(out)@.len() ==> #[trigger] final(out)@[j] == old(out)@[j],
        match r {
            Ok(pos) => pos == old(out)@.len() && final(out)@.len() == old(out)@.len() + encoded_size(
                entries@,
                depth as nat,
            ) && encodes(final(out)@, pos as int, final(out)@.len() as int, entries@, depth as nat) && (depth
                > 0 ==> forall|i: int|
                0 <= i < entries@.len() ==> #[trigger] be32(final(out)@, pos + 9 + 8 * i) == pos + 5 + 8
                    * entries@.len() + children_size(entries@, depth as nat, i)),
            Err(e) => e == WriteError::TooLarge && old(out)@.len() + encoded_size(entries@, depth as nat)
                > u32::MAX,
        },
    decreases depth,
{
    let pos_us = out.len();
    let n = entries.len();
    if pos_us > 4294967295usize || n > 4294967295usize {
        return Err(WriteError::TooLarge);
    }
    let pos = pos_us as u32;
    let ghost old_out = out@;
    assert(old_out == old(out)@);
    if depth == 0 {
        out.push(LEAF_TAG);
        put_u32(out, n as u32);
        let mut i: usize = 0;
        while i < n
            invariant
                0 <= i <= n,
                n == entries@.len(),
                depth == 0,
                wf_level(entries@, 0),
                pos_us == old_out.len(),
                old_out == old(out)@,
                out@.len() == pos_us + 5 + 6 * i,
                forall|j: int| 0 <= j < old_out.len() ==> #[trigger] out@[j] == old_out[j],
                out@[pos_us as int] == LEAF_TAG,
                be32(out@, pos_us + 1) == n,
                forall|k: int| 0 <= k < i ==> #[trigger] leaf_at(out@, pos_us + 5 + 6 * k) == leaves_view(entries@)[k],
            decreases n - i,
        {
            let ghost before = out@;
            match &entries[i] {
                Entry::Leaf(leaf) => {
                    put_u32(out, leaf.id);
                    out.push(leaf.count);
                    out.push(leaf.total_ngrams);
                    proof {
                        assert(leaf_at(out@, pos_us + 5 + 6 * i) == leaves_view(entries@)[i as int]);
                        assert forall|k: int| 0 <= k < i + 1 implies #[trigger] leaf_at(out@, pos_us + 5 + 6 * k)
                            == leaves_view(entries@)[k] by {
                            if k < i {
                                assert(leaf_at(out@, pos_us + 5 + 6 * k) == leaf_at(before, pos_us + 5 + 6 * k));
                            }
                        }
                    }
                },
                Entry::Branch(_) => {
                    assert(entries@[i as int] is Leaf);
                },
            }
            i = i + 1;
        }
        assert(encodes(out@, pos as int, out@.len() as int, entries@, 0));
        assert(out@.len() == old_out.len() + encoded_size(entries@, 0));
        Ok(pos)
    } else {
        out.push(BRANCH_TAG);
        put_u32(out, n as u32);
        let start = out.len();
        let ghost hdr = out@;
        assert(start == pos_us + 5);
        let mut z: usize = 0;
        while z < n
            invariant
                0 <= z <= n,
                hdr.len() == start,
                start == pos_us + 5,
                pos_us == old_out.len(),
                old_out == old(out)@,
                out@.len() == start + 8 * z,
                forall|j: int| 0 <= j < start ==> #[trigger] out@[j] == hdr[j],
            decreases n - z,
        {
            let ghost before = out@;
            let mut w: usize = 0;
            while w < 8
                invariant
                    0 <= w <= 8,
                    out@.len() == before.len() + w,
                    forall|j: int| 0 <= j < before.len() ==> #[trigger] out@[j] == before[j],
                decreases 8 - w,
            {
                out.push(0);
                w = w + 1;
            }
            z = z + 1;
        }
        assert(out@.len() == start + 8 * n);
        let ghost header = out@;
        let mut i: usize = 0;
        while i < n
            invariant
                0 <= i <= n,
                n == entries@.len(),
                0 < depth <= DEPTH,
                wf_level(entries@, depth as nat),
                pos_us == old_out.len(),
                old_out == old(out)@,
                start == pos_us + 5,
                out@.len() == start + 8 * n + children_size(entries@, depth as nat, i as int),
                forall|j: int| 0 <= j < old_out.len() ==> #[trigger] out@[j] == old_out[j],
                out@[pos_us as int] == BRANCH_TAG,
                be32(out@, pos_us + 1) == n,
                forall|k: int|
                    0 <= k < i ==> #[trigger] slot_ok(out@, start as int, out@.len() as int, entries@, (depth - 1) as nat, k),
                forall|k: int|
                    0 <= k < i ==> #[trigger] be32(out@, start + 8 * k + 4) == start + 8 * n + children_size(
                        entries@,
                        depth as nat,
                        k,
                    ),
            decreases n - i,
        {
            let cur = out.len();
            match &entries[i] {
                Entry::Branch(b) => {
                    let ghost before = out@;
                    assert(children(entries@, i as int) == b.entries@);
                    let child = write_branch(&b.entries, out, depth - 1);
                    match child {
                        Ok(cpos) => {
                            let ghost mid = out@;
                            set_u32(out, start + 8 * i, b.character);
                            set_u32(out, start + 8 * i + 4, cpos);
                            proof {
                                assert forall|j: int| 0 <= j < old_out.len() implies #[trigger] out@[j] == old_out[j] by {
                                    assert(mid[j] == before[j]);
                                }
                                assert(out@[pos_us as int] == mid[pos_us as int]);
                                assert(be32(out@, pos_us + 1) == be32(mid, pos_us + 1));
                                assert(be32(mid, pos_us + 1) == be32(before, pos_us + 1));
                                assert forall|j: int| cpos <= j < mid.len() implies out@[j] == mid[j] by {}
                                lemma_frame(mid, out@, cpos as int, mid.len() as int, mid.len() as int, b.entries@, (depth - 1) as nat);
                                assert(be32(out@, start + 8 * i) == char_at(entries@, i as int) as int);
                                assert forall|k: int| 0 <= k < i + 1 implies #[trigger] slot_ok(out@, start as int, out@.len() as int, entries@, (depth - 1) as nat, k) by {
                                    if k < i {
                                        assert(slot_ok(before, start as int, before.len() as int, entries@, (depth - 1) as nat, k));
                                        let off = be32(before, start + 8 * k + 4);
                                        assert(be32(mid, start + 8 * k) == be32(before, start + 8 * k));
                                        assert(be32(mid, start + 8 * k + 4) == off);
                                        assert(be32(out@, start + 8 * k) == be32(mid, start + 8 * k));
                                        assert(be32(out@, start + 8 * k + 4) == off);
                                        assert forall|j: int| off <= j < before.len() implies mid[j] == before[j] by {}
                                        lemma_frame(before, mid, off, before.len() as int, mid.len() as int, children(entries@, k), (depth - 1) as nat);
                                        assert forall|j: int| off <= j < mid.len() implies out@[j] == mid[j] by {}
                                        lemma_frame(mid, out@, off, mid.len() as int, mid.len() as int, children(entries@, k), (depth - 1) as nat);
                                    }
                                }
                                assert forall|k: int| 0 <= k < i + 1 implies #[trigger] be32(out@, start + 8 * k + 4)
                                    == start + 8 * n + children_size(entries@, depth as nat, k) by {
                                    if k < i {
                                        assert(be32(mid, start + 8 * k + 4) == be32(before, start + 8 * k + 4));
                                        assert(be32(out@, start + 8 * k + 4) == be32(mid, start + 8 * k + 4));
                                    }
                                }
                            }
                        },
                        Err(e) => {
                            proof {
                                assert forall|j: int| 0 <= j < old_out.len() implies #[trigger] out@[j] == old_out[j] by {
                                    assert(out@[j] == before[j]);
                                }
                                lemma_children_size_grows(entries@, depth as nat, i + 1, n as int);
                            }
                            return Err(e);
                        },
                    }
                },
                Entry::Leaf(_) => {
                    assert(entries@[i as int] is Branch);
                },
            }
            i = i + 1;
        }
        proof {
            assert forall|k: int| 0 <= k < n implies {
                &&& be32(out@, pos_us + 5 + 8 * k) == #[trigger] char_at(entries@, k) as int
                &&& pos_us + 5 + 8 * n <= be32(out@, pos_us + 9 + 8 * k)
                &&& encodes(out@, be32(out@, pos_us + 9 + 8 * k), out@.len() as int, children(entries@, k), (depth - 1) as nat)
            } by {
                assert(slot_ok(out@, start as int, out@.len() as int, entries@, (depth - 1) as nat, k));
                assert(start + 8 * k + 4 == pos_us + 9 + 8 * k);
            }
            assert forall|k: int| 0 <= k < n implies #[trigger] be32(out@, pos_us + 9 + 8 * k) == pos_us + 5 + 8
                * n + children_size(entries@, depth as nat, k) by {
                assert(start + 8 * k + 4 == pos_us + 9 + 8 * k);
                assert(be32(out@, start + 8 * k + 4) == start + 8 * n + children_size(entries@, depth as nat, k));
            }
            assert(out@[pos_us as int] == BRANCH_TAG);
            assert(pos_us + 5 + 8 * n <= out@.len());
            assert(be32(out@, pos_us + 1) == n);
            assert(encodes(out@, pos as int, out@.len() as int, entries@, depth as nat));
            assert(out@.len() == old_out.len() + encoded_size(entries@, depth as nat));
        }
        Ok(pos)
    }
}

} // verus!
