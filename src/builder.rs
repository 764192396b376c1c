//! Accumulates strings' trigram statistics into a trie.
use crate::codec::{encoded_size, encodes, lemma_read_encoded, read_path, write_branch, FormatError, WriteError};
use crate::trie::{
    absent,
    codes, insert_leaf, insert_path, postings, sorted_by_id, wf_level, Entry, Leaf, DEPTH,
};
use crate::trigram::{count_trigrams, normalized, occurrences, trigrams_of, views, with_trigrams};
use vstd::prelude::*;
use vstd::std_specs::iter::IteratorSpec;

verus! {

/// A byte count, capped at 255.
pub open spec fn saturate(n: nat) -> u8 {
    if n > 255 {
        255
    } else {
        n as u8
    }
}

/// The leaf that a string with trigrams `ts` and id `id` stores for `t`.
pub open spec fn string_leaf(ts: Seq<Seq<char>>, t: Seq<char>, id: u32) -> Leaf {
    Leaf { id, count: saturate(occurrences(ts, t)), total_ngrams: saturate(ts.len()) }
}

/// Builds the trie of an index, one string at a time.
pub struct NgramsBuilder {
    data: Vec<Entry>,
}

impl NgramsBuilder {
    /// The top level of the trie.
    pub closed spec fn entries(&self) -> Seq<Entry> {
        self.data@
    }

    /// The trie has depth three, branches sorted by character and leaves by id.
    pub open spec fn wf(&self) -> bool {
        wf_level(self.entries(), DEPTH as nat)
    }

    /// The leaves stored under a path of three code points.
    pub open spec fn lookup(&self, path: Seq<u32>) -> Seq<Leaf> {
        postings(self.entries(), path)
    }

    /// No leaf of the trie has id `id`.
    pub open spec fn id_absent(&self, id: u32) -> bool {
        forall|p: Seq<u32>| p.len() == DEPTH ==> absent(#[trigger] self.lookup(p), id)
    }

    /// An empty builder.
    pub fn new() -> (r: Self)
        ensures
            r.wf(),
            r.entries().len() == 0,
            forall|p: Seq<u32>| #[trigger] r.lookup(p) == Seq::<Leaf>::empty(),
    {
        let r = NgramsBuilder { data: Vec::new() };
        assert forall|p: Seq<u32>| #[trigger] r.lookup(p) == Seq::<Leaf>::empty() by {
            crate::trie::lemma_postings_empty(p);
        }
        r
    }

    /// The top level of the trie, for writing it out.
    pub fn data(&self) -> (r: &Vec<Entry>)
        ensures
            r@ == self.entries(),
    {
        &self.data
    }

    /// Stores a leaf under the three characters of a trigram.
    pub fn add_trigram_chars(&mut self, trigram: &[char; 3], id: u32, count: u8, total_ngrams: u8)
        requires
            old(self).wf(),
            absent(old(self).lookup(codes(trigram@)), id),
        ensures
            final(self).wf(),
            forall|p: Seq<u32>|
                p.len() == DEPTH ==> #[trigger] final(self).lookup(p) == if p == codes(trigram@) {
                    insert_leaf(old(self).lookup(p), Leaf { id, count, total_ngrams })
                } else {
                    old(self).lookup(p)
                },
    {
        let path = [trigram[0] as u32, trigram[1] as u32, trigram[2] as u32];
        assert(path@ =~= codes(trigram@));
        assert(path@.skip(0) =~= path@);
        insert_path(&mut self.data, &path, 0, Leaf { id, count, total_ngrams });
    }

    /// Stores a leaf under a trigram written as a string of three characters.
    pub fn add_trigram(&mut self, trigram: &str, id: u32, count: u8, total_ngrams: u8)
        requires
            old(self).wf(),
            trigram@.len() == DEPTH,
            absent(old(self).lookup(codes(trigram@)), id),
        ensures
            final(self).wf(),
            forall|p: Seq<u32>|
                p.len() == DEPTH ==> #[trigger] final(self).lookup(p) == if p == codes(trigram@) {
                    insert_leaf(old(self).lookup(p), Leaf { id, count, total_ngrams })
                } else {
                    old(self).lookup(p)
                },
    {
        let chars = chars_of(trigram);
        let t = [chars[0], chars[1], chars[2]];
        assert(t@ =~= trigram@);
        self.add_trigram_chars(&t, id, count, total_ngrams);
    }

    /// Stores a list of trigrams under id `id`: one leaf per distinct
    /// trigram, with its number of occurrences and the list's length, both
    /// capped at 255.
    pub fn add_trigrams(&mut self, trigrams: &Vec<[char; 3]>, id: u32)
        requires
            old(self).wf(),
            old(self).id_absent(id),
        ensures
            final(self).wf(),
            forall|j: int|
                0 <= j < views(trigrams@).len() ==> #[trigger] final(self).lookup(
                    codes(views(trigrams@)[j]),
                ) == insert_leaf(
                    old(self).lookup(codes(views(trigrams@)[j])),
                    string_leaf(views(trigrams@), views(trigrams@)[j], id),
                ),
            forall|p: Seq<u32>|
                p.len() == DEPTH && (forall|j: int|
                    0 <= j < views(trigrams@).len() ==> codes(
                        #[trigger] views(trigrams@)[j],
                    ) != p) ==> #[trigger] final(self).lookup(p) == old(self).lookup(p),
    {
        let ghost ts = views(trigrams@);
        let counts = count_trigrams(&trigrams);
        let total_ngrams: u8 = if trigrams.len() > 255 {
            255
        } else {
            trigrams.len() as u8
        };
        let ghost start = *self;
        let mut k: usize = 0;
        while k < counts.len()
            invariant
                0 <= k <= counts@.len(),
                self.wf(),
                ts == views(trigrams@),
                total_ngrams == saturate(ts.len()),
                start.wf(),
                start.id_absent(id),
                forall|a: int, b: int|
                    0 <= a < b < counts@.len() ==> (#[trigger] counts@[a]).0@ != (#[trigger] counts@[b]).0@,
                forall|m: int|
                    0 <= m < counts@.len() ==> (#[trigger] counts@[m]).1 == occurrences(ts, counts@[m].0@),
                forall|m: int| 0 <= m < counts@.len() ==> (#[trigger] counts@[m]).0@.len() == DEPTH,
                forall|m: int|
                    0 <= m < k ==> #[trigger] self.lookup(codes(counts@[m].0@)) == insert_leaf(
                        start.lookup(codes(counts@[m].0@)),
                        string_leaf(ts, counts@[m].0@, id),
                    ),
                forall|p: Seq<u32>|
                    p.len() == DEPTH && (forall|m: int|
                        0 <= m < k ==> codes((#[trigger] counts@[m]).0@) != p) ==> #[trigger] self.lookup(p)
                        == start.lookup(p),
            decreases counts@.len() - k,
        {
            let (t, n) = counts[k];
            let count: u8 = if n > 255 {
                255
            } else {
                n as u8
            };
            let ghost before = *self;
            proof {
                assert forall|mm: int| 0 <= mm < k implies codes((#[trigger] counts@[mm]).0@) != codes(t@) by {
                    if codes(counts@[mm].0@) == codes(t@) {
                        lemma_codes_injective(counts@[mm].0@, t@);
                    }
                }
                assert(self.lookup(codes(t@)) == start.lookup(codes(t@)));
                assert(codes(t@).len() == DEPTH);
            }
            self.add_trigram_chars(&t, id, count, total_ngrams);
            proof {
                assert forall|m: int| 0 <= m < k + 1 implies #[trigger] self.lookup(codes(counts@[m].0@))
                    == insert_leaf(
                    start.lookup(codes(counts@[m].0@)),
                    string_leaf(ts, counts@[m].0@, id),
                ) by {
                    if m < k && codes(counts@[m].0@) == codes(t@) {
                        lemma_codes_injective(counts@[m].0@, t@);
                    } else {
                        assert(forall|mm: int| 0 <= mm < k ==> codes((#[trigger] counts@[mm]).0@) != codes(t@)) by {
                            assert forall|mm: int| 0 <= mm < k implies codes((#[trigger] counts@[mm]).0@) != codes(t@) by {
                                if codes(counts@[mm].0@) == codes(t@) {
                                    lemma_codes_injective(counts@[mm].0@, t@);
                                }
                            }
                        }
                    }
                }
            }
            k = k + 1;
        }
        proof {
            assert forall|j: int| 0 <= j < ts.len() implies #[trigger] self.lookup(codes(ts[j]))
                == insert_leaf(start.lookup(codes(ts[j])), string_leaf(ts, ts[j], id)) by {
                assert(ts[j] == trigrams@[j]@);
                assert(crate::trigram::has_key(counts@, trigrams@[j]@));
            }
            assert forall|p: Seq<u32>| p.len() == DEPTH && (forall|j: int|
                0 <= j < ts.len() ==> codes(#[trigger] ts[j]) != p) implies #[trigger] self.lookup(p)
                == start.lookup(p) by {
                assert forall|m: int| 0 <= m < k implies codes((#[trigger] counts@[m]).0@) != p by {
                    lemma_counted_occurs(ts, counts@[m].0@);
                }
            }
        }
    }
}

impl NgramsBuilder {
    /// Stores the trigrams of a string under id `id`: one leaf per distinct
    /// trigram, with its number of occurrences and the string's number of
    /// trigrams, both capped at 255.
    pub fn add(&mut self, string: &str, id: u32)
        requires
            old(self).wf(),
            old(self).id_absent(id),
        ensures
            final(self).wf(),
            forall|j: int|
                0 <= j < trigrams_of(normalized(string@)).len() ==> #[trigger] final(self).lookup(
                    codes(trigrams_of(normalized(string@))[j]),
                ) == insert_leaf(
                    old(self).lookup(codes(trigrams_of(normalized(string@))[j])),
                    string_leaf(trigrams_of(normalized(string@)), trigrams_of(normalized(string@))[j], id),
                ),
            forall|p: Seq<u32>|
                p.len() == DEPTH && (forall|j: int|
                    0 <= j < trigrams_of(normalized(string@)).len() ==> codes(
                        #[trigger] trigrams_of(normalized(string@))[j],
                    ) != p) ==> #[trigger] final(self).lookup(p) == old(self).lookup(p),
    {
        let trigrams = with_trigrams(string);
        self.add_trigrams(&trigrams, id);
    }

    /// Appends the binary form of the trie to `output`, root record first.
    /// Written to an empty buffer, the bytes read back along every trigram
    /// as the leaves stored under it. Fails on an empty trie, and where an
    /// offset would not fit in 32 bits.
    pub fn write(&self, output: &mut Vec<u8>) -> (r: Result<(), WriteError>)
        requires
            self.wf(),
        ensures
            final(output)@.len() >= old(output)@.len(),
            forall|j: int| 0 <= j < old(output)@.len() ==> #[trigger] final(output)@[j] == old(output)@[j],
            r is Err ==> final(output)@ == old(output)@,
            (r == Err::<(), WriteError>(WriteError::Empty)) <==> self.entries().len() == 0,
            r == Err::<(), WriteError>(WriteError::TooLarge) ==> old(output)@.len() + encoded_size(
                self.entries(),
                DEPTH as nat,
            ) > u32::MAX,
            r is Ok ==> final(output)@.len() == old(output)@.len() + encoded_size(self.entries(), DEPTH as nat),
            r is Ok ==> encodes(
                final(output)@,
                old(output)@.len() as int,
                final(output)@.len() as int,
                self.entries(),
                DEPTH as nat,
            ),
            r is Ok && old(output)@.len() == 0 ==> forall|p: Seq<u32>|
                p.len() == DEPTH ==> #[trigger] read_path(final(output)@, 0, p) == Ok::<Seq<Leaf>, FormatError>(
                    self.lookup(p),
                ),
    {
        if self.data.len() == 0 {
            return Err(WriteError::Empty);
        }
        let start = output.len();
        match write_branch(&self.data, output, DEPTH) {
            Ok(_) => {
                proof {
                    if old(output)@.len() == 0 {
                        assert forall|p: Seq<u32>| p.len() == DEPTH implies #[trigger] read_path(output@, 0, p)
                            == Ok::<Seq<Leaf>, FormatError>(self.lookup(p)) by {
                            lemma_read_encoded(output@, 0, output@.len() as int, self.data@, DEPTH as nat, p);
                        }
                    }
                }
                Ok(())
            },
            Err(e) => {
                output.truncate(start);
                assert(output@ =~= old(output)@);
                Err(e)
            },
        }
    }
}

impl Default for NgramsBuilder {
    /// An empty builder.
    fn default() -> (r: Self)
        ensures
            r.wf(),
            r.entries().len() == 0,
    {
        NgramsBuilder::new()
    }
}

/// Bytes that hold the records of a well-formed builder's trie from offset
/// 0 on read back, along every path of three code points, as exactly the
/// leaves that the builder stores there.
pub proof fn lemma_round_trip(b: NgramsBuilder, bytes: Seq<u8>, p: Seq<u32>)
    requires
        b.wf(),
        encodes(bytes, 0, bytes.len() as int, b.entries(), DEPTH as nat),
        p.len() == DEPTH,
    ensures
        read_path(bytes, 0, p) == Ok::<Seq<Leaf>, FormatError>(b.lookup(p)),
{
    lemma_read_encoded(bytes, 0, bytes.len() as int, b.entries(), DEPTH as nat, p);
}

proof fn lemma_codes_injective(a: Seq<char>, b: Seq<char>)
    requires
        a.len() == b.len(),
        codes(a) == codes(b),
    ensures
        a == b,
{
    assert forall|i: int| 0 <= i < a.len() implies a[i] == b[i] by {
        assert(codes(a)[i] == codes(b)[i]);
        assert(codes(a)[i] == a[i] as u32);
        assert(codes(b)[i] == b[i] as u32);
        let u = a[i] as u32;
        vstd::utf8::char_u32_cast(a[i], u);
        vstd::utf8::char_u32_cast(b[i], u);
    }
    assert(a =~= b);
}

proof fn lemma_counted_occurs(ts: Seq<Seq<char>>, t: Seq<char>)
    requires
        occurrences(ts, t) >= 1,
    ensures
        exists|j: int| 0 <= j < ts.len() && ts[j] == t,
    decreases ts.len(),
{
    if ts.last() != t {
        lemma_counted_occurs(ts.drop_last(), t);
        let j = choose|j: int| 0 <= j < ts.len() - 1 && ts.drop_last()[j] == t;
        assert(ts[j] == t);
    } else {
        assert(ts[ts.len() - 1] == t);
    }
}

/// The characters of a string, in order.
fn chars_of(s: &str) -> (r: Vec<char>)
    ensures
        r@ == s@,
{
    broadcast use vstd::string::axiom_spec_iter, vstd::string::next_postcondition;
    let mut it = s.chars();
    let mut r: Vec<char> = Vec::new();
    loop
        invariant
            it.obeys_prophetic_iter_laws(),
            r@ + it.remaining() == s@,
        ensures
            r@ == s@,
        decreases s@.len() - r@.len(),
    {
        let ghost before = it.remaining();
        match it.next() {
            Some(c) => {
                r.push(c);
                assert(r@ + it.remaining() =~= s@) by {
                    assert(before =~= seq![c] + it.remaining());
                }
            },
            None => {
                assert(r@ =~= s@);
                break;
            },
        }
    }
    r
}

} // verus!
