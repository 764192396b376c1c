//! Normalisation of strings and extraction of their padded trigrams.
use unicode_normalization::UnicodeNormalization;
use vstd::prelude::*;

verus! {

/// What `str::to_lowercase` makes of a string.
pub uninterp spec fn lower_of(s: Seq<char>) -> Seq<char>;

/// What Unicode canonical composition (NFC) makes of a string.
pub uninterp spec fn nfc_of(s: Seq<char>) -> Seq<char>;

/// A string as trigrams see it: lower-cased, then composed.
pub open spec fn normalized(s: Seq<char>) -> Seq<char> {
    nfc_of(lower_of(s))
}

/// The sentinel that pads both ends of a string.
pub const PAD: char = '$';

/// The string with two sentinels on each side.
pub open spec fn padded(s: Seq<char>) -> Seq<char> {
    seq![PAD, PAD] + s + seq![PAD, PAD]
}

/// The trigram that starts at position `i` of the padded string.
pub open spec fn window(s: Seq<char>, i: int) -> Seq<char> {
    padded(s).subrange(i, i + 3)
}

/// The trigrams of an already normalised string, in order: one all-sentinel
/// trigram for the empty string, else one window per position of the padded
/// string but the last two.
pub open spec fn trigrams_of(s: Seq<char>) -> Seq<Seq<char>> {
    if s.len() == 0 {
        seq![seq![PAD, PAD, PAD]]
    } else {
        Seq::new((s.len() + 2) as nat, |i: int| window(s, i))
    }
}

/// The character sequences of a list of trigrams.
pub open spec fn views(ts: Seq<[char; 3]>) -> Seq<Seq<char>> {
    ts.map_values(|t: [char; 3]| t@)
}

/// How many times `t` occurs in `s`.
pub open spec fn occurrences(s: Seq<Seq<char>>, t: Seq<char>) -> nat
    decreases s.len(),
{
    if s.len() == 0 {
        0
    } else {
        occurrences(s.drop_last(), t) + if s.last() == t { 1nat } else { 0nat }
    }
}

/// A string yields one trigram when it normalises to nothing, and two more
/// than its normalised length otherwise.
pub proof fn lemma_trigram_count(s: Seq<char>)
    ensures
        trigrams_of(normalized(s)).len() == if normalized(s).len() == 0 {
            1
        } else {
            normalized(s).len() + 2
        },
{
}

pub proof fn lemma_occurrences_bound(s: Seq<Seq<char>>, t: Seq<char>)
    ensures
        occurrences(s, t) <= s.len(),
    decreases s.len(),
{
    if s.len() > 0 {
        lemma_occurrences_bound(s.drop_last(), t);
    }
}

/// Relies on `str::to_lowercase`: the lower-case form depends on the
/// characters alone, and each character lowers to at least one.
#[verifier::external_body]
fn lowercase(s: &str) -> (r: String)
    ensures
        r@ == lower_of(s@),
        s@.len() == 0 <==> r@.len() == 0,
{
    s.to_lowercase()
}

/// Relies on `UnicodeNormalization::nfc` of unicode-normalization: the
/// composed characters depend on the input characters alone, and only an
/// empty input composes to nothing.
#[verifier::external_body]
fn compose(s: &str) -> (r: Vec<char>)
    ensures
        r@ == nfc_of(s@),
        s@.len() == 0 <==> r@.len() == 0,
{
    s.nfc().collect()
}

/// Lower-cases and composes a string into its characters.
pub fn normalize(string: &str) -> (r: Vec<char>)
    ensures
        r@ == normalized(string@),
        string@.len() == 0 <==> r@.len() == 0,
{
    let lower = lowercase(string);
    compose(lower.as_str())
}

/// The trigrams of already normalised characters.
pub fn trigrams_of_chars(chars: &Vec<char>) -> (r: Vec<[char; 3]>)
    ensures
        views(r@) == trigrams_of(chars@),
{
    let mut r: Vec<[char; 3]> = Vec::new();
    if chars.len() == 0 {
        r.push([PAD, PAD, PAD]);
        assert(views(r@) =~= trigrams_of(chars@));
        return r;
    }
    let ghost p = padded(chars@);
    let mut c1 = PAD;
    let mut c2 = PAD;
    let mut i: usize = 0;
    while i < chars.len()
        invariant
            0 <= i <= chars.len(),
            p == padded(chars@),
            c1 == p[i as int],
            c2 == p[i + 1],
            r@.len() == i,
            forall|j: int| 0 <= j < i ==> (#[trigger] r@[j])@ == window(chars@, j),
        decreases chars.len() - i,
    {
        let c3 = chars[i];
        assert(c3 == p[i + 2]);
        let t = [c1, c2, c3];
        assert(t@ =~= window(chars@, i as int));
        r.push(t);
        c1 = c2;
        c2 = c3;
        i = i + 1;
    }
    let t = [c1, c2, PAD];
    assert(t@ =~= window(chars@, i as int));
    r.push(t);
    let t = [c2, PAD, PAD];
    assert(t@ =~= window(chars@, i + 1));
    r.push(t);
    assert(views(r@) =~= trigrams_of(chars@));
    r
}

/// The trigrams of a string, after lower-casing and composition.
pub fn with_trigrams(string: &str) -> (r: Vec<[char; 3]>)
    ensures
        views(r@) == trigrams_of(normalized(string@)),
        r@.len() == if string@.len() == 0 {
            1
        } else {
            normalized(string@).len() + 2
        },
{
    let chars = normalize(string);
    let r = trigrams_of_chars(&chars);
    assert(r@.len() == views(r@).len());
    r
}

/// Whether two trigrams hold the same characters.
pub fn same_trigram(a: &[char; 3], b: &[char; 3]) -> (r: bool)
    ensures
        r == (a@ == b@),
{
    let r = a[0] == b[0] && a[1] == b[1] && a[2] == b[2];
    if !r {
        assert(a@[0] != b@[0] || a@[1] != b@[1] || a@[2] != b@[2]);
    } else {
        assert(a@ =~= b@);
    }
    r
}

/// The distinct trigrams of a list, in order of first occurrence, each with
/// the number of times it occurs.
pub fn count_trigrams(ts: &Vec<[char; 3]>) -> (r: Vec<([char; 3], usize)>)
    ensures
        r@.len() <= ts@.len(),
        keys(r@) == first_occurrences(views(ts@)),
        forall|a: int, b: int|
            0 <= a < b < r@.len() ==> (#[trigger] r@[a]).0@ != (#[trigger] r@[b]).0@,
        forall|k: int|
            0 <= k < r@.len() ==> (#[trigger] r@[k]).1 == occurrences(views(ts@), r@[k].0@)
                && r@[k].1 >= 1,
        forall|j: int| 0 <= j < ts@.len() ==> has_key(r@, (#[trigger] ts@[j])@),
{
    let mut r: Vec<([char; 3], usize)> = Vec::new();
    let ghost all = views(ts@);
    let mut i: usize = 0;
    while i < ts.len()
        invariant
            0 <= i <= ts.len(),
            all == views(ts@),
            r@.len() <= i,
            keys(r@) == first_occurrences(all.take(i as int)),
            forall|a: int, b: int|
                0 <= a < b < r@.len() ==> (#[trigger] r@[a]).0@ != (#[trigger] r@[b]).0@,
            forall|k: int|
                0 <= k < r@.len() ==> (#[trigger] r@[k]).1 == occurrences(all.take(i as int), r@[k].0@)
                    && r@[k].1 >= 1,
            forall|j: int| 0 <= j < i ==> has_key(r@, (#[trigger] ts@[j])@),
        decreases ts.len() - i,
    {
        let t = ts[i];
        let ghost before = all.take(i as int);
        let ghost after = all.take(i + 1);
        assert(after.drop_last() =~= before);
        assert(after.last() == t@);
        let mut k: usize = 0;
        let mut found = false;
        while k < r.len() && !found
            invariant
                0 <= k <= r@.len(),
                !found ==> forall|m: int| 0 <= m < k ==> (#[trigger] r@[m]).0@ != t@,
                found ==> k < r@.len() && r@[k as int].0@ == t@,
            decreases r@.len() - k + if found { 0int } else { 1int },
        {
            if same_trigram(&r[k].0, &t) {
                found = true;
            } else {
                k = k + 1;
            }
        }
        let ghost old_r = r@;
        if found {
            proof {
                lemma_occurrences_bound(before, t@);
            }
            let n = r[k].1;
            r.set(k, (t, n + 1));
            proof {
                assert(keys(old_r)[k as int] == t@);
                assert(keys(old_r).contains(t@));
                assert(keys(r@) =~= keys(old_r));
            }
        } else {
            r.push((t, 1));
            proof {
                assert(!keys(old_r).contains(t@)) by {
                    if keys(old_r).contains(t@) {
                        let m = choose|m: int| 0 <= m < keys(old_r).len() && keys(old_r)[m] == t@;
                        assert(old_r[m].0@ == t@);
                    }
                }
                assert(keys(r@) =~= keys(old_r).push(t@));
            }
            assert(occurrences(before, t@) == 0) by {
                assert forall|j: int| 0 <= j < before.len() implies before[j] != t@ by {
                    assert(before[j] == ts@[j]@);
                    assert(has_key(old_r, ts@[j]@));
                    let kk = choose|kk: int| 0 <= kk < old_r.len() && (#[trigger] old_r[kk]).0@ == ts@[j]@;
                    assert(old_r[kk].0@ != t@);
                }
                lemma_absent(before, t@);
            }
        }
        assert forall|j: int| 0 <= j < i + 1 implies has_key(r@, (#[trigger] ts@[j])@) by {
            if j < i {
                assert(has_key(old_r, ts@[j]@));
                let kk = choose|kk: int| 0 <= kk < old_r.len() && (#[trigger] old_r[kk]).0@ == ts@[j]@;
                assert(r@[kk].0@ == ts@[j]@);
            } else {
                assert(r@[k as int].0@ == ts@[j]@);
            }
        }
        i = i + 1;
    }
    assert(all.take(i as int) =~= all);
    r
}

/// The distinct trigrams of `s`, in order of first occurrence.
pub open spec fn first_occurrences(s: Seq<Seq<char>>) -> Seq<Seq<char>>
    decreases s.len(),
{
    if s.len() == 0 {
        Seq::empty()
    } else {
        let d = first_occurrences(s.drop_last());
        if d.contains(s.last()) {
            d
        } else {
            d.push(s.last())
        }
    }
}

/// The trigrams of a count list.
pub open spec fn keys(r: Seq<([char; 3], usize)>) -> Seq<Seq<char>> {
    r.map_values(|e: ([char; 3], usize)| e.0@)
}

/// Whether some entry of a count list holds trigram `t`.
pub open spec fn has_key(r: Seq<([char; 3], usize)>, t: Seq<char>) -> bool {
    exists|k: int| 0 <= k < r.len() && (#[trigger] r[k]).0@ == t
}

proof fn lemma_absent(s: Seq<Seq<char>>, t: Seq<char>)
    requires
        forall|j: int| 0 <= j < s.len() ==> s[j] != t,
    ensures
        occurrences(s, t) == 0,
    decreases s.len(),
{
    if s.len() > 0 {
        lemma_absent(s.drop_last(), t);
    }
}

} // verus!
