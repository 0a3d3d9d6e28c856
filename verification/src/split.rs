//! The split algorithm: lazy, bidirectional decomposition of a byte string
//! into its non-empty segments, delimited by the separator byte.
//!
//! [`split_spec`] is the mathematical decomposition; [`PathEnvSplit`] walks
//! it from either end without allocating. [`join`] is its inverse on
//! canonical text: the segments rendered with single separators between
//! them.

use vstd::prelude::*;
use vstd::slice::{slice_subrange, slice_index_get, slice_to_vec};
use crate::separator;

verus! {

/// Index of the first separator byte in `s`, or `s.len()` if there is none.
pub open spec fn sep_pos(s: Seq<u8>) -> int
    decreases s.len(),
{
    if s.len() == 0 {
        0
    } else if s[0] == separator::U8 {
        0
    } else {
        1 + sep_pos(s.drop_first())
    }
}

/// `sep_pos` points at the first separator: everything before it is not a
/// separator, and it is in bounds exactly when a separator exists.
pub proof fn lemma_sep_pos(s: Seq<u8>)
    ensures
        0 <= sep_pos(s) <= s.len(),
        forall|k: int| 0 <= k < sep_pos(s) ==> s[k] != separator::U8,
        sep_pos(s) < s.len() ==> s[sep_pos(s)] == separator::U8,
    decreases s.len(),
{
    if s.len() > 0 && s[0] != separator::U8 {
        lemma_sep_pos(s.drop_first());
        assert forall|k: int| 0 <= k < sep_pos(s) implies s[k] != separator::U8 by {
            if k > 0 {
                assert(s.drop_first()[k - 1] != separator::U8);
            }
        }
    }
}

/// Any position that holds a separator with none before it is `sep_pos`.
pub proof fn lemma_sep_pos_unique(s: Seq<u8>, i: int)
    requires
        0 <= i < s.len(),
        s[i] == separator::U8,
        forall|k: int| 0 <= k < i ==> s[k] != separator::U8,
    ensures
        sep_pos(s) == i,
{
    lemma_sep_pos(s);
}

/// If no byte of `s` is a separator, `sep_pos` runs off the end.
pub proof fn lemma_sep_pos_absent(s: Seq<u8>)
    requires
        forall|k: int| 0 <= k < s.len() ==> s[k] != separator::U8,
    ensures
        sep_pos(s) == s.len(),
{
    lemma_sep_pos(s);
}

/// The decomposition of `s`: the non-empty byte runs between separator
/// bytes, in left-to-right order. Runs of adjacent separators, and
/// separators at either boundary, contribute nothing. A separator inside a
/// quoted region still splits: quoting is not treated specially.
pub open spec fn split_spec(s: Seq<u8>) -> Seq<Seq<u8>>
    decreases s.len(),
    via split_spec_decreases
{
    let i = sep_pos(s);
    if i == s.len() {
        if s.len() == 0 {
            Seq::empty()
        } else {
            seq![s]
        }
    } else if i == 0 {
        split_spec(s.subrange(1, s.len() as int))
    } else {
        seq![s.subrange(0, i)] + split_spec(s.subrange(i + 1, s.len() as int))
    }
}

#[via_fn]
proof fn split_spec_decreases(s: Seq<u8>) {
    lemma_sep_pos(s);
}

/// A well-formed segment: non-empty, and free of separator bytes.
pub open spec fn seg_ok(t: Seq<u8>) -> bool {
    &&& t.len() > 0
    &&& forall|k: int| 0 <= k < t.len() ==> t[k] != separator::U8
}

/// Every segment of a decomposition is non-empty and separator-free.
pub proof fn lemma_split_spec_elements(s: Seq<u8>)
    ensures
        forall|j: int| 0 <= j < split_spec(s).len() ==> seg_ok(#[trigger] split_spec(s)[j]),
    decreases s.len(),
{
    lemma_sep_pos(s);
    let i = sep_pos(s);
    if i == s.len() {
        if s.len() > 0 {
            assert(seg_ok(s));
        }
    } else if i == 0 {
        lemma_split_spec_elements(s.subrange(1, s.len() as int));
    } else {
        let head = s.subrange(0, i);
        let rest = split_spec(s.subrange(i + 1, s.len() as int));
        lemma_split_spec_elements(s.subrange(i + 1, s.len() as int));
        assert(seg_ok(head));
        assert forall|j: int| 0 <= j < split_spec(s).len() implies seg_ok(
            #[trigger] split_spec(s)[j],
        ) by {
            if j > 0 {
                assert(split_spec(s)[j] == rest[j - 1]);
            }
        }
    }
}

/// Canonical text for a segment sequence: the segments with exactly one
/// separator between adjacent ones and none at either boundary.
pub open spec fn join(segs: Seq<Seq<u8>>) -> Seq<u8>
    decreases segs.len(),
{
    if segs.len() == 0 {
        Seq::empty()
    } else if segs.len() == 1 {
        segs[0]
    } else {
        segs[0] + seq![separator::U8] + join(segs.drop_first())
    }
}

/// Joining non-empty segments yields non-empty text.
pub proof fn lemma_join_len(segs: Seq<Seq<u8>>)
    requires
        segs.len() > 0,
        segs[0].len() > 0,
    ensures
        join(segs).len() > 0,
{
}

/// Appending one segment to canonical text appends one separator and the
/// segment's bytes.
pub proof fn lemma_join_push(segs: Seq<Seq<u8>>, x: Seq<u8>)
    ensures
        segs.len() == 0 ==> join(segs.push(x)) == x,
        segs.len() > 0 ==> join(segs.push(x)) == join(segs) + seq![separator::U8] + x,
    decreases segs.len(),
{
    let p = segs.push(x);
    if segs.len() == 0 {
        assert(p.len() == 1);
        assert(p[0] == x);
    } else if segs.len() == 1 {
        assert(p.drop_first() =~= seq![x]);
        assert(join(p.drop_first()) == x);
        assert(join(segs) == segs[0]);
    } else {
        assert(p.drop_first() =~= segs.drop_first().push(x));
        lemma_join_push(segs.drop_first(), x);
        assert(join(p) == p[0] + seq![separator::U8] + join(p.drop_first()));
        assert(join(segs.push(x)) =~= join(segs) + seq![separator::U8] + x);
    }
}

/// Splitting at the first separator: if `s[i]` is the first separator byte,
/// the decomposition of `s` is the (possibly absent) head run followed by
/// the decomposition of what comes after the separator.
pub proof fn lemma_split_spec_first(s: Seq<u8>, i: int)
    requires
        0 <= i < s.len(),
        s[i] == separator::U8,
        forall|k: int| 0 <= k < i ==> s[k] != separator::U8,
    ensures
        i == 0 ==> split_spec(s) == split_spec(s.subrange(1, s.len() as int)),
        i > 0 ==> split_spec(s) == seq![s.subrange(0, i)] + split_spec(
            s.subrange(i + 1, s.len() as int),
        ),
{
    lemma_sep_pos_unique(s, i);
}

/// Splitting at the last separator: if `s[j]` is the last separator byte,
/// the decomposition of `s` is the decomposition of what comes before it
/// followed by the (possibly absent) tail run.
pub proof fn lemma_split_spec_last(s: Seq<u8>, j: int)
    requires
        0 <= j < s.len(),
        s[j] == separator::U8,
        forall|k: int| j < k < s.len() ==> s[k] != separator::U8,
    ensures
        j + 1 == s.len() ==> split_spec(s) == split_spec(s.subrange(0, j)),
        j + 1 < s.len() ==> split_spec(s) == split_spec(s.subrange(0, j)) + seq![
            s.subrange(j + 1, s.len() as int),
        ],
    decreases s.len(),
{
    lemma_sep_pos(s);
    let i = sep_pos(s);
    let n = s.len() as int;
    let pre = s.subrange(0, j);
    let tail = s.subrange(j + 1, n);
    assert(i <= j) by {
        if i > j {
            assert(s[j] != separator::U8);
        }
    }
    if i == j {
        // The first separator is also the last: the prefix is separator-free.
        assert forall|k: int| 0 <= k < pre.len() implies pre[k] != separator::U8 by {
            assert(pre[k] == s[k]);
        }
        lemma_sep_pos_absent(pre);
        assert forall|k: int| 0 <= k < tail.len() implies tail[k] != separator::U8 by {
            assert(tail[k] == s[j + 1 + k]);
        }
        lemma_sep_pos_absent(tail);
        if i == 0 {
            assert(split_spec(s) == split_spec(s.subrange(1, n)));
            assert(s.subrange(1, n) =~= tail);
            assert(split_spec(pre) =~= Seq::<Seq<u8>>::empty());
            if j + 1 < n {
                assert(split_spec(tail) =~= seq![tail]);
                assert(split_spec(s) =~= split_spec(pre) + seq![tail]);
            }
        } else {
            assert(split_spec(s) == seq![s.subrange(0, i)] + split_spec(s.subrange(i + 1, n)));
            assert(s.subrange(i + 1, n) =~= tail);
            assert(split_spec(pre) =~= seq![pre]);
            if j + 1 < n {
                assert(split_spec(tail) =~= seq![tail]);
                assert(split_spec(s) =~= split_spec(pre) + seq![tail]);
            } else {
                assert(split_spec(tail) =~= Seq::<Seq<u8>>::empty());
                assert(split_spec(s) =~= split_spec(pre));
            }
        }
    } else {
        // The first separator comes earlier: recurse past it.
        let si = s.subrange(i + 1, n);
        let ji = j - i - 1;
        assert(si[ji] == separator::U8);
        assert forall|k: int| ji < k < si.len() implies si[k] != separator::U8 by {
            assert(si[k] == s[i + 1 + k]);
        }
        lemma_split_spec_last(si, ji);
        assert(si.subrange(0, ji) =~= s.subrange(i + 1, j));
        assert(si.subrange(ji + 1, si.len() as int) =~= tail);
        // The prefix up to `j` splits at the same first separator.
        assert(pre[i] == separator::U8);
        assert forall|k: int| 0 <= k < i implies pre[k] != separator::U8 by {
            assert(pre[k] == s[k]);
        }
        lemma_split_spec_first(pre, i);
        assert(pre.subrange(i + 1, pre.len() as int) =~= s.subrange(i + 1, j));
        if i == 0 {
            assert(split_spec(s) == split_spec(s.subrange(1, n)));
            assert(s.subrange(1, n) =~= si);
            assert(pre.subrange(1, pre.len() as int) =~= s.subrange(i + 1, j));
            if j + 1 < n {
                assert(split_spec(s) =~= split_spec(pre) + seq![tail]);
            } else {
                assert(split_spec(s) =~= split_spec(pre));
            }
        } else {
            assert(split_spec(s) == seq![s.subrange(0, i)] + split_spec(si));
            assert(pre.subrange(0, i) =~= s.subrange(0, i));
            if j + 1 < n {
                assert(split_spec(s) =~= split_spec(pre) + seq![tail]);
            } else {
                assert(split_spec(s) =~= split_spec(pre));
            }
        }
    }
}

/// Round trip: splitting the canonical text of well-formed segments yields
/// exactly those segments.
pub proof fn lemma_split_join(segs: Seq<Seq<u8>>)
    requires
        forall|j: int| 0 <= j < segs.len() ==> seg_ok(#[trigger] segs[j]),
    ensures
        split_spec(join(segs)) == segs,
    decreases segs.len(),
{
    let s = join(segs);
    if segs.len() == 0 {
        assert(sep_pos(s) == 0);
        assert(split_spec(s) =~= segs);
    } else if segs.len() == 1 {
        assert(seg_ok(segs[0]));
        lemma_sep_pos_absent(s);
        assert(split_spec(s) =~= segs);
    } else {
        let a = segs[0];
        let rest = segs.drop_first();
        let b = join(rest);
        assert(seg_ok(rest[0]));
        lemma_join_len(rest);
        assert(s == a + seq![separator::U8] + b);
        let i = a.len() as int;
        assert(s[i] == separator::U8);
        assert forall|k: int| 0 <= k < i implies s[k] != separator::U8 by {
            assert(s[k] == a[k]);
        }
        lemma_split_spec_first(s, i);
        assert(s.subrange(0, i) =~= a);
        assert(s.subrange(i + 1, s.len() as int) =~= b);
        lemma_split_join(rest);
        assert(split_spec(s) =~= segs);
    }
}

/// The concatenation of the decompositions of several entries: what a
/// container gains when the entries are appended in order.
pub open spec fn split_concat(entries: Seq<Seq<u8>>) -> Seq<Seq<u8>>
    decreases entries.len(),
{
    if entries.len() == 0 {
        Seq::empty()
    } else {
        split_spec(entries[0]) + split_concat(entries.drop_first())
    }
}

/// Appending one more entry appends its decomposition.
pub proof fn lemma_split_concat_push(entries: Seq<Seq<u8>>, x: Seq<u8>)
    ensures
        split_concat(entries.push(x)) == split_concat(entries) + split_spec(x),
    decreases entries.len(),
{
    let p = entries.push(x);
    if entries.len() == 0 {
        assert(p.drop_first() =~= Seq::<Seq<u8>>::empty());
        assert(split_concat(p.drop_first()) == Seq::<Seq<u8>>::empty());
        assert(p[0] == x);
        assert(split_concat(p) =~= split_spec(x));
        assert(split_concat(entries) + split_spec(x) =~= split_spec(x));
    } else {
        assert(p.drop_first() =~= entries.drop_first().push(x));
        lemma_split_concat_push(entries.drop_first(), x);
        assert(split_concat(p) =~= split_concat(entries) + split_spec(x));
    }
}

/// The number of bytes of `s` that equal `b`.
pub open spec fn count_occurrences(s: Seq<u8>, b: u8) -> int
    decreases s.len(),
{
    if s.len() == 0 {
        0
    } else {
        (if s[0] == b {
            1int
        } else {
            0int
        }) + count_occurrences(s.drop_first(), b)
    }
}

/// An occurrence count lies between zero and the length.
pub proof fn lemma_count_occurrences_bounds(s: Seq<u8>, b: u8)
    ensures
        0 <= count_occurrences(s, b) <= s.len(),
    decreases s.len(),
{
    if s.len() > 0 {
        lemma_count_occurrences_bounds(s.drop_first(), b);
    }
}

/// Cutting the text just after its first separator removes exactly one
/// occurrence.
proof fn lemma_count_after_first_sep(s: Seq<u8>)
    requires
        sep_pos(s) < s.len(),
    ensures
        count_occurrences(s, separator::U8) == 1 + count_occurrences(
            s.subrange(sep_pos(s) + 1, s.len() as int),
            separator::U8,
        ),
    decreases s.len(),
{
    lemma_sep_pos(s);
    if s[0] == separator::U8 {
        assert(s.drop_first() =~= s.subrange(1, s.len() as int));
        lemma_count_occurrences_bounds(s.drop_first(), separator::U8);
    } else {
        let d = s.drop_first();
        lemma_count_after_first_sep(d);
        assert(d.subrange(sep_pos(d) + 1, d.len() as int) =~= s.subrange(
            sep_pos(s) + 1,
            s.len() as int,
        ));
    }
}

/// There are never more segments than bytes.
pub proof fn lemma_split_len_le_len(s: Seq<u8>)
    ensures
        split_spec(s).len() <= s.len(),
    decreases s.len(),
{
    lemma_sep_pos(s);
    let i = sep_pos(s);
    if i < s.len() {
        if i == 0 {
            lemma_split_len_le_len(s.subrange(1, s.len() as int));
        } else {
            lemma_split_len_le_len(s.subrange(i + 1, s.len() as int));
        }
    }
}

/// The size estimate is sound: one more segment than there are separator
/// bytes is an upper bound on the number of segments.
pub proof fn lemma_split_len_le_count(s: Seq<u8>)
    ensures
        split_spec(s).len() <= count_occurrences(s, separator::U8) + 1,
    decreases s.len(),
{
    lemma_sep_pos(s);
    lemma_count_occurrences_bounds(s, separator::U8);
    let i = sep_pos(s);
    if i < s.len() {
        lemma_count_after_first_sep(s);
        lemma_split_len_le_count(s.subrange(i + 1, s.len() as int));
        if i == 0 {
            assert(s.subrange(1, s.len() as int) =~= s.subrange(i + 1, s.len() as int));
        }
    }
}

/// A byte that occurs nowhere is counted zero times.
proof fn lemma_count_absent(s: Seq<u8>, b: u8)
    requires
        forall|k: int| 0 <= k < s.len() ==> s[k] != b,
    ensures
        count_occurrences(s, b) == 0,
    decreases s.len(),
{
    if s.len() > 0 {
        assert forall|k: int| 0 <= k < s.drop_first().len() implies s.drop_first()[k] != b by {
            assert(s.drop_first()[k] == s[k + 1]);
        }
        lemma_count_absent(s.drop_first(), b);
    }
}

/// Occurrence counts add over concatenation.
proof fn lemma_count_concat(x: Seq<u8>, y: Seq<u8>, b: u8)
    ensures
        count_occurrences(x + y, b) == count_occurrences(x, b) + count_occurrences(y, b),
    decreases x.len(),
{
    if x.len() == 0 {
        assert(x + y =~= y);
    } else {
        assert((x + y).drop_first() =~= x.drop_first() + y);
        lemma_count_concat(x.drop_first(), y, b);
        assert((x + y)[0] == x[0]);
    }
}

/// On canonical text the size estimate is exact: the text of well-formed
/// segments holds one separator fewer than it has segments, so the
/// decomposition has exactly one more segment than separator bytes.
pub proof fn lemma_size_estimate_exact(segs: Seq<Seq<u8>>)
    requires
        segs.len() > 0,
        forall|j: int| 0 <= j < segs.len() ==> seg_ok(#[trigger] segs[j]),
    ensures
        count_occurrences(join(segs), separator::U8) == segs.len() - 1,
        split_spec(join(segs)).len() == count_occurrences(join(segs), separator::U8) + 1,
    decreases segs.len(),
{
    lemma_split_join(segs);
    if segs.len() == 1 {
        assert(seg_ok(segs[0]));
        lemma_count_absent(join(segs), separator::U8);
    } else {
        let a = segs[0];
        let rest = segs.drop_first();
        assert(seg_ok(a));
        lemma_size_estimate_exact(rest);
        lemma_count_concat(a, seq![separator::U8], separator::U8);
        lemma_count_concat(a + seq![separator::U8], join(rest), separator::U8);
        lemma_count_absent(a, separator::U8);
        assert(count_occurrences(seq![separator::U8], separator::U8) == 1) by {
            assert(count_occurrences(Seq::<u8>::empty(), separator::U8) == 0);
            assert(seq![separator::U8].drop_first() =~= Seq::<u8>::empty());
            assert(seq![separator::U8][0] == separator::U8);
        }
        assert(join(segs) == a + seq![separator::U8] + join(rest));
    }
}

/// Relies on `memchr::memchr`: the index of the first occurrence of
/// `needle` in `haystack`, or `None` if it does not occur.
#[verifier::external_body]
fn find_first_byte(needle: u8, haystack: &[u8]) -> (r: Option<usize>)
    ensures
        match r {
            Some(i) => i < haystack@.len() && haystack@[i as int] == needle && forall|k: int|
                0 <= k < i ==> haystack@[k] != needle,
            None => forall|k: int| 0 <= k < haystack@.len() ==> haystack@[k] != needle,
        },
{
    memchr::memchr(needle, haystack)
}

/// Relies on `bytecount::count`: the number of occurrences of `needle` in
/// `haystack`.
#[verifier::external_body]
fn count_byte(haystack: &[u8], needle: u8) -> (r: usize)
    ensures
        r == count_occurrences(haystack@, needle),
{
    bytecount::count(haystack, needle)
}

/// The index of the last separator byte, or `None` if there is none.
fn rfind_sep(bytes: &[u8]) -> (r: Option<usize>)
    ensures
        match r {
            Some(j) => j < bytes@.len() && bytes@[j as int] == separator::U8 && forall|k: int|
                j < k < bytes@.len() ==> bytes@[k] != separator::U8,
            None => forall|k: int| 0 <= k < bytes@.len() ==> bytes@[k] != separator::U8,
        },
{
    let mut j = bytes.len();
    while j > 0
        invariant
            j <= bytes@.len(),
            forall|k: int| j <= k < bytes@.len() ==> bytes@[k] != separator::U8,
        decreases j,
    {
        j = j - 1;
        if *slice_index_get(bytes, j) == separator::U8 {
            return Some(j);
        }
    }
    None
}

/// A lazy, restartable, double-ended walk over the segments of a byte
/// string. Segments are handed out as borrowed slices of the input; empty
/// runs between separators are skipped from either end.
pub struct PathEnvSplit<'a> {
    rest: &'a [u8],
}

impl<'a> View for PathEnvSplit<'a> {
    type V = Seq<Seq<u8>>;

    /// The segments not yet handed out, in left-to-right order.
    closed spec fn view(&self) -> Seq<Seq<u8>> {
        split_spec(self.rest@)
    }
}

impl<'a> PathEnvSplit<'a> {
    /// The text not yet consumed from either end.
    pub closed spec fn remaining(&self) -> Seq<u8> {
        self.rest@
    }

    /// Creates a walk over the segments of `path`.
    pub fn new(path: &'a [u8]) -> (r: Self)
        ensures
            r@ == split_spec(path@),
            r.remaining() == path@,
    {
        PathEnvSplit { rest: path }
    }

    /// Hands out the leftmost remaining segment, if any.
    pub fn next(&mut self) -> (r: Option<&'a [u8]>)
        ensures
            old(self)@.len() == 0 ==> r is None && final(self)@ == old(self)@,
            old(self)@.len() > 0 ==> (r matches Some(seg) && seg@ == old(self)@[0]
                && final(self)@ == old(self)@.drop_first()),
    {
        loop
            invariant
                split_spec(self.rest@) == old(self)@,
            decreases self.rest@.len(),
        {
            let n = self.rest.len();
            match find_first_byte(separator::U8, self.rest) {
                Some(i) => {
                    let head = slice_subrange(self.rest, 0, i);
                    let new_rest = slice_subrange(self.rest, i + 1, n);
                    proof {
                        lemma_split_spec_first(self.rest@, i as int);
                    }
                    self.rest = new_rest;
                    if head.len() > 0 {
                        return Some(head);
                    }
                },
                None => {
                    let out = self.rest;
                    proof {
                        lemma_sep_pos_absent(self.rest@);
                    }
                    self.rest = slice_subrange(self.rest, 0, 0);
                    if out.len() == 0 {
                        return None;
                    } else {
                        return Some(out);
                    }
                },
            }
        }
    }

    /// Hands out the rightmost remaining segment, if any: one backward
    /// step, independent of any forward traversal.
    pub fn next_back(&mut self) -> (r: Option<&'a [u8]>)
        ensures
            old(self)@.len() == 0 ==> r is None && final(self)@ == old(self)@,
            old(self)@.len() > 0 ==> (r matches Some(seg) && seg@ == old(self)@.last()
                && final(self)@ == old(self)@.drop_last()),
    {
        loop
            invariant
                split_spec(self.rest@) == old(self)@,
            decreases self.rest@.len(),
        {
            let n = self.rest.len();
            match rfind_sep(self.rest) {
                Some(j) => {
                    let tail = slice_subrange(self.rest, j + 1, n);
                    let new_rest = slice_subrange(self.rest, 0, j);
                    proof {
                        lemma_split_spec_last(self.rest@, j as int);
                    }
                    self.rest = new_rest;
                    if tail.len() > 0 {
                        return Some(tail);
                    }
                },
                None => {
                    let out = self.rest;
                    proof {
                        lemma_sep_pos_absent(self.rest@);
                    }
                    self.rest = slice_subrange(self.rest, 0, 0);
                    if out.len() == 0 {
                        return None;
                    } else {
                        return Some(out);
                    }
                },
            }
        }
    }

    /// The last segment, served by one backward step rather than a full
    /// forward traversal.
    pub fn last(self) -> (r: Option<&'a [u8]>)
        ensures
            self@.len() == 0 ==> r is None,
            self@.len() > 0 ==> (r matches Some(seg) && seg@ == self@.last()),
    {
        let mut it = self;
        it.next_back()
    }

    /// A size estimate for the remaining walk: at least zero segments, and
    /// at most one more than the number of separator bytes left.
    pub fn size_hint(&self) -> (r: (usize, Option<usize>))
        ensures
            r.0 == 0,
            r.1 matches Some(u) && self@.len() <= u,
            count_occurrences(self.remaining(), separator::U8) + 1 <= usize::MAX ==> r.1
                == Some((count_occurrences(self.remaining(), separator::U8) + 1) as usize),
    {
        let n = self.rest.len();
        let c = count_byte(self.rest, separator::U8);
        proof {
            assert(self.rest@.len() == n);
            lemma_count_occurrences_bounds(self.rest@, separator::U8);
            lemma_split_len_le_count(self.rest@);
            lemma_split_len_le_len(self.rest@);
        }
        if c < usize::MAX {
            (0, Some(c + 1))
        } else {
            (0, Some(c))
        }
    }
}

/// Creates a walk over the segments of a search-path text.
pub fn split<'a>(path: &'a [u8]) -> (r: PathEnvSplit<'a>)
    ensures
        r@ == split_spec(path@),
        r.remaining() == path@,
{
    PathEnvSplit::new(path)
}

/// The decoded segments of `s`, collected by forward iteration.
pub fn path_env_outputs(s: &[u8]) -> (r: Vec<Vec<u8>>)
    ensures
        r.deep_view() == split_spec(s@),
{
    let mut out: Vec<Vec<u8>> = Vec::new();
    let mut it = PathEnvSplit::new(s);
    loop
        invariant
            out.deep_view() + it@ == split_spec(s@),
        decreases it@.len(),
    {
        match it.next() {
            Some(seg) => {
                out.push(slice_to_vec(seg));
                proof {
                    assert(out.deep_view() + it@ =~~= split_spec(s@));
                }
            },
            None => {
                proof {
                    assert(out.deep_view() =~~= split_spec(s@));
                }
                return out;
            },
        }
    }
}

/// The decoded segments of `s`, collected by backward iteration: always
/// the exact reverse of what forward iteration collects.
pub fn path_env_outputs_rev(s: &[u8]) -> (r: Vec<Vec<u8>>)
    ensures
        r.deep_view() == split_spec(s@).reverse(),
{
    let mut out: Vec<Vec<u8>> = Vec::new();
    let mut it = PathEnvSplit::new(s);
    proof {
        assert(it@ =~= split_spec(s@).take(it@.len() as int));
        assert(out.deep_view() =~~= split_spec(s@).skip(it@.len() as int).reverse());
    }
    loop
        invariant
            it@.len() <= split_spec(s@).len(),
            it@ == split_spec(s@).take(it@.len() as int),
            out.deep_view() == split_spec(s@).skip(it@.len() as int).reverse(),
        decreases it@.len(),
    {
        let ghost all = split_spec(s@);
        let ghost m = it@.len() as int;
        let ghost prev = out.deep_view();
        match it.next_back() {
            Some(seg) => {
                out.push(slice_to_vec(seg));
                proof {
                    assert(seg@ == all[m - 1]);
                    assert(it@ =~= all.take(m - 1));
                    assert(out.deep_view() =~~= prev.push(seg@));
                    assert(all.skip(m - 1).reverse() =~= all.skip(m).reverse().push(all[m - 1]));
                    assert(out.deep_view() =~~= all.skip(m - 1).reverse());
                }
            },
            None => {
                proof {
                    assert(out.deep_view() =~~= split_spec(s@).reverse());
                }
                return out;
            },
        }
    }
}

} // verus!
