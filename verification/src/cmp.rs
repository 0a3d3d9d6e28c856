//! Comparison semantics: equality and ordering are defined over decoded
//! segment sequences, never over raw text, whether a container is compared
//! with another container or with raw text. Raw text is decoded lazily, so
//! comparing never allocates.

use vstd::prelude::*;
use vstd::slice::slice_index_get;
use core::cmp::Ordering;
use crate::split::{split_spec, PathEnvSplit};
use crate::PathEnv;

verus! {

/// Three-way byte-wise lexicographic comparison of two byte strings.
pub open spec fn bytes_cmp(a: Seq<u8>, b: Seq<u8>) -> Ordering
    decreases a.len(),
{
    if a.len() == 0 && b.len() == 0 {
        Ordering::Equal
    } else if a.len() == 0 {
        Ordering::Less
    } else if b.len() == 0 {
        Ordering::Greater
    } else if a[0] < b[0] {
        Ordering::Less
    } else if a[0] > b[0] {
        Ordering::Greater
    } else {
        bytes_cmp(a.drop_first(), b.drop_first())
    }
}

/// Three-way segment-by-segment comparison of two decoded sequences: each
/// segment by its own byte ordering, a strict prefix ordered first.
pub open spec fn segs_cmp(a: Seq<Seq<u8>>, b: Seq<Seq<u8>>) -> Ordering
    decreases a.len(),
{
    if a.len() == 0 && b.len() == 0 {
        Ordering::Equal
    } else if a.len() == 0 {
        Ordering::Less
    } else if b.len() == 0 {
        Ordering::Greater
    } else if bytes_cmp(a[0], b[0]) == Ordering::Equal {
        segs_cmp(a.drop_first(), b.drop_first())
    } else {
        bytes_cmp(a[0], b[0])
    }
}

/// The first `i` bytes of `a` and `b` agree.
pub open spec fn bytes_prefix_eq(a: Seq<u8>, b: Seq<u8>, i: int) -> bool {
    &&& 0 <= i <= a.len()
    &&& i <= b.len()
    &&& forall|k: int| 0 <= k < i ==> a[k] == b[k]
}

/// Byte-wise lexicographic strict order, stated directly: after some
/// common prefix, either `a` ends while `b` goes on, or `a`'s next byte is
/// smaller.
pub open spec fn bytes_lt(a: Seq<u8>, b: Seq<u8>) -> bool {
    exists|i: int|
        #[trigger] bytes_prefix_eq(a, b, i) && ((i == a.len() && i < b.len()) || (i < a.len() && i
            < b.len() && a[i] < b[i]))
}

/// The first `i` segments of `a` and `b` agree.
pub open spec fn segs_prefix_eq(a: Seq<Seq<u8>>, b: Seq<Seq<u8>>, i: int) -> bool {
    &&& 0 <= i <= a.len()
    &&& i <= b.len()
    &&& forall|k: int| 0 <= k < i ==> a[k] == b[k]
}

/// Lexicographic strict order on decoded sequences, stated directly:
/// after some common prefix of segments, either `a` ends while `b` goes
/// on, or `a`'s next segment is byte-wise smaller.
pub open spec fn segs_lt(a: Seq<Seq<u8>>, b: Seq<Seq<u8>>) -> bool {
    exists|i: int|
        #[trigger] segs_prefix_eq(a, b, i) && ((i == a.len() && i < b.len()) || (i < a.len() && i
            < b.len() && bytes_lt(a[i], b[i])))
}

/// Byte comparison answers `Equal` exactly on equal strings.
pub proof fn lemma_bytes_cmp_eq(a: Seq<u8>, b: Seq<u8>)
    ensures
        (bytes_cmp(a, b) == Ordering::Equal) == (a == b),
    decreases a.len(),
{
    if a.len() > 0 && b.len() > 0 && a[0] == b[0] {
        lemma_bytes_cmp_eq(a.drop_first(), b.drop_first());
        if a.drop_first() == b.drop_first() {
            assert forall|k: int| 0 <= k < a.len() implies a[k] == b[k] by {
                if k > 0 {
                    assert(a[k] == a.drop_first()[k - 1]);
                    assert(b[k] == b.drop_first()[k - 1]);
                }
            }
            assert(a =~= b);
        }
        if a == b {
            assert(a.drop_first() =~= b.drop_first());
        }
    } else if a.len() == 0 && b.len() == 0 {
        assert(a =~= b);
    }
}

/// Byte comparison answers `Less` exactly on the lexicographic order.
pub proof fn lemma_bytes_cmp_lt(a: Seq<u8>, b: Seq<u8>)
    ensures
        (bytes_cmp(a, b) == Ordering::Less) == bytes_lt(a, b),
    decreases a.len(),
{
    if a.len() == 0 && b.len() == 0 {
        assert(!bytes_lt(a, b)) by {
            if bytes_lt(a, b) {
                let i = choose|i: int|
                    #[trigger] bytes_prefix_eq(a, b, i) && ((i == a.len() && i < b.len()) || (i
                        < a.len() && i < b.len() && a[i] < b[i]));
                assert(false);
            }
        }
    } else if a.len() == 0 {
        assert(bytes_prefix_eq(a, b, 0));
        assert(bytes_lt(a, b));
    } else if b.len() == 0 {
        assert(!bytes_lt(a, b)) by {
            if bytes_lt(a, b) {
                let i = choose|i: int|
                    #[trigger] bytes_prefix_eq(a, b, i) && ((i == a.len() && i < b.len()) || (i
                        < a.len() && i < b.len() && a[i] < b[i]));
                assert(false);
            }
        }
    } else if a[0] < b[0] {
        assert(bytes_prefix_eq(a, b, 0));
        assert(bytes_lt(a, b));
    } else if a[0] > b[0] {
        assert(!bytes_lt(a, b)) by {
            if bytes_lt(a, b) {
                let i = choose|i: int|
                    #[trigger] bytes_prefix_eq(a, b, i) && ((i == a.len() && i < b.len()) || (i
                        < a.len() && i < b.len() && a[i] < b[i]));
                if i > 0 {
                    assert(a[0] == b[0]);
                }
                assert(false);
            }
        }
    } else {
        let a2 = a.drop_first();
        let b2 = b.drop_first();
        lemma_bytes_cmp_lt(a2, b2);
        if bytes_lt(a2, b2) {
            let i = choose|i: int|
                #[trigger] bytes_prefix_eq(a2, b2, i) && ((i == a2.len() && i < b2.len()) || (i
                    < a2.len() && i < b2.len() && a2[i] < b2[i]));
            assert(bytes_prefix_eq(a, b, i + 1)) by {
                assert forall|k: int| 0 <= k < i + 1 implies a[k] == b[k] by {
                    if k > 0 {
                        assert(a2[k - 1] == b2[k - 1]);
                    }
                }
            }
            assert(bytes_lt(a, b));
        }
        if bytes_lt(a, b) {
            let i = choose|i: int|
                #[trigger] bytes_prefix_eq(a, b, i) && ((i == a.len() && i < b.len()) || (i
                    < a.len() && i < b.len() && a[i] < b[i]));
            assert(i > 0 || a[0] < b[0] || (0 == a.len() && 0 < b.len()));
            assert(i > 0);
            assert(bytes_prefix_eq(a2, b2, i - 1)) by {
                assert forall|k: int| 0 <= k < i - 1 implies a2[k] == b2[k] by {
                    assert(a[k + 1] == b[k + 1]);
                }
            }
            assert(bytes_lt(a2, b2));
        }
    }
}

/// Byte comparison is antisymmetric.
pub proof fn lemma_bytes_cmp_antisym(a: Seq<u8>, b: Seq<u8>)
    ensures
        (bytes_cmp(a, b) == Ordering::Less) == (bytes_cmp(b, a) == Ordering::Greater),
        (bytes_cmp(a, b) == Ordering::Equal) == (bytes_cmp(b, a) == Ordering::Equal),
    decreases a.len(),
{
    if a.len() > 0 && b.len() > 0 && a[0] == b[0] {
        lemma_bytes_cmp_antisym(a.drop_first(), b.drop_first());
    }
}

/// Segment comparison answers `Equal` exactly on equal sequences.
pub proof fn lemma_segs_cmp_eq(a: Seq<Seq<u8>>, b: Seq<Seq<u8>>)
    ensures
        (segs_cmp(a, b) == Ordering::Equal) == (a == b),
    decreases a.len(),
{
    if a.len() > 0 && b.len() > 0 {
        lemma_bytes_cmp_eq(a[0], b[0]);
        if bytes_cmp(a[0], b[0]) == Ordering::Equal {
            lemma_segs_cmp_eq(a.drop_first(), b.drop_first());
            if a.drop_first() == b.drop_first() {
                assert forall|k: int| 0 <= k < a.len() implies a[k] == b[k] by {
                    if k > 0 {
                        assert(a[k] == a.drop_first()[k - 1]);
                        assert(b[k] == b.drop_first()[k - 1]);
                    }
                }
                assert(a =~= b);
            }
            if a == b {
                assert(a.drop_first() =~= b.drop_first());
            }
        } else {
            assert(a[0] != b[0]);
        }
    } else if a.len() == 0 && b.len() == 0 {
        assert(a =~= b);
    }
}

/// Segment comparison answers `Less` exactly on the lexicographic order.
pub proof fn lemma_segs_cmp_lt(a: Seq<Seq<u8>>, b: Seq<Seq<u8>>)
    ensures
        (segs_cmp(a, b) == Ordering::Less) == segs_lt(a, b),
    decreases a.len(),
{
    if a.len() == 0 && b.len() == 0 {
        assert(!segs_lt(a, b)) by {
            if segs_lt(a, b) {
                let i = choose|i: int|
                    #[trigger] segs_prefix_eq(a, b, i) && ((i == a.len() && i < b.len()) || (i
                        < a.len() && i < b.len() && bytes_lt(a[i], b[i])));
                assert(false);
            }
        }
    } else if a.len() == 0 {
        assert(segs_prefix_eq(a, b, 0));
        assert(segs_lt(a, b));
    } else if b.len() == 0 {
        assert(!segs_lt(a, b)) by {
            if segs_lt(a, b) {
                let i = choose|i: int|
                    #[trigger] segs_prefix_eq(a, b, i) && ((i == a.len() && i < b.len()) || (i
                        < a.len() && i < b.len() && bytes_lt(a[i], b[i])));
                assert(false);
            }
        }
    } else if bytes_cmp(a[0], b[0]) == Ordering::Equal {
        lemma_bytes_cmp_eq(a[0], b[0]);
        let a2 = a.drop_first();
        let b2 = b.drop_first();
        lemma_segs_cmp_lt(a2, b2);
        if segs_lt(a2, b2) {
            let i = choose|i: int|
                #[trigger] segs_prefix_eq(a2, b2, i) && ((i == a2.len() && i < b2.len()) || (i
                    < a2.len() && i < b2.len() && bytes_lt(a2[i], b2[i])));
            assert(segs_prefix_eq(a, b, i + 1)) by {
                assert forall|k: int| 0 <= k < i + 1 implies a[k] == b[k] by {
                    if k > 0 {
                        assert(a2[k - 1] == b2[k - 1]);
                    }
                }
            }
            assert(segs_lt(a, b));
        }
        if segs_lt(a, b) {
            let i = choose|i: int|
                #[trigger] segs_prefix_eq(a, b, i) && ((i == a.len() && i < b.len()) || (i
                    < a.len() && i < b.len() && bytes_lt(a[i], b[i])));
            assert(i > 0) by {
                if i == 0 {
                    lemma_bytes_cmp_lt(a[0], b[0]);
                }
            }
            assert(segs_prefix_eq(a2, b2, i - 1)) by {
                assert forall|k: int| 0 <= k < i - 1 implies a2[k] == b2[k] by {
                    assert(a[k + 1] == b[k + 1]);
                }
            }
            assert(segs_lt(a2, b2));
        }
    } else {
        lemma_bytes_cmp_eq(a[0], b[0]);
        lemma_bytes_cmp_lt(a[0], b[0]);
        if bytes_cmp(a[0], b[0]) == Ordering::Less {
            assert(segs_prefix_eq(a, b, 0));
            assert(segs_lt(a, b));
        } else {
            assert(!segs_lt(a, b)) by {
                if segs_lt(a, b) {
                    let i = choose|i: int|
                        #[trigger] segs_prefix_eq(a, b, i) && ((i == a.len() && i < b.len()) || (i
                            < a.len() && i < b.len() && bytes_lt(a[i], b[i])));
                    if i > 0 {
                        assert(a[0] == b[0]);
                        assert(bytes_cmp(a[0], b[0]) == Ordering::Equal) by {
                            lemma_bytes_cmp_eq(a[0], b[0]);
                        }
                    } else {
                        assert(bytes_lt(a[0], b[0]));
                        lemma_bytes_cmp_lt(a[0], b[0]);
                    }
                    assert(false);
                }
            }
        }
    }
}

/// Segment comparison is antisymmetric.
pub proof fn lemma_segs_cmp_antisym(a: Seq<Seq<u8>>, b: Seq<Seq<u8>>)
    ensures
        (segs_cmp(a, b) == Ordering::Less) == (segs_cmp(b, a) == Ordering::Greater),
        (segs_cmp(a, b) == Ordering::Equal) == (segs_cmp(b, a) == Ordering::Equal),
    decreases a.len(),
{
    if a.len() > 0 && b.len() > 0 {
        lemma_bytes_cmp_antisym(a[0], b[0]);
        if bytes_cmp(a[0], b[0]) == Ordering::Equal {
            lemma_segs_cmp_antisym(a.drop_first(), b.drop_first());
        }
    }
}

/// What comparison decides, in terms of the decoded sequences alone: equal
/// exactly when the sequences are equal, and ordered exactly by their
/// lexicographic order, in either direction.
pub proof fn lemma_cmp_characterized(a: Seq<Seq<u8>>, b: Seq<Seq<u8>>)
    ensures
        (segs_cmp(a, b) == Ordering::Equal) == (a == b),
        (segs_cmp(a, b) == Ordering::Less) == segs_lt(a, b),
        (segs_cmp(a, b) == Ordering::Greater) == segs_lt(b, a),
{
    lemma_segs_cmp_eq(a, b);
    lemma_segs_cmp_lt(a, b);
    lemma_segs_cmp_lt(b, a);
    lemma_segs_cmp_antisym(b, a);
}

/// Three-way comparison of two byte strings.
fn cmp_bytes(a: &[u8], b: &[u8]) -> (r: Ordering)
    ensures
        r == bytes_cmp(a@, b@),
{
    let alen = a.len();
    let blen = b.len();
    let mut i: usize = 0;
    proof {
        assert(a@.skip(0) =~= a@);
        assert(b@.skip(0) =~= b@);
    }
    while i < alen && i < blen
        invariant
            i <= alen,
            i <= blen,
            alen == a@.len(),
            blen == b@.len(),
            bytes_cmp(a@, b@) == bytes_cmp(a@.skip(i as int), b@.skip(i as int)),
        decreases alen - i,
    {
        let x = *slice_index_get(a, i);
        let y = *slice_index_get(b, i);
        proof {
            assert(a@.skip(i as int)[0] == a@[i as int]);
            assert(b@.skip(i as int)[0] == b@[i as int]);
        }
        if x < y {
            return Ordering::Less;
        }
        if x > y {
            return Ordering::Greater;
        }
        i = i + 1;
        proof {
            assert(a@.skip(i - 1).drop_first() =~= a@.skip(i as int));
            assert(b@.skip(i - 1).drop_first() =~= b@.skip(i as int));
        }
    }
    proof {
        if i == alen {
            assert(a@.skip(i as int) =~= Seq::<u8>::empty());
        }
        if i == blen {
            assert(b@.skip(i as int) =~= Seq::<u8>::empty());
        }
    }
    if alen == blen {
        Ordering::Equal
    } else if alen < blen {
        Ordering::Less
    } else {
        Ordering::Greater
    }
}

impl PathEnv {
    /// Three-way comparison with another container, over the decoded
    /// segment sequences.
    pub fn compare(&self, other: &PathEnv) -> (r: Ordering)
        requires
            self.wf(),
            other.wf(),
        ensures
            r == segs_cmp(self@, other@),
    {
        let n = self.len();
        let m = other.len();
        let mut i: usize = 0;
        proof {
            assert(self@.skip(0) =~= self@);
            assert(other@.skip(0) =~= other@);
        }
        loop
            invariant
                self.wf(),
                other.wf(),
                n == self@.len(),
                m == other@.len(),
                i <= self@.len(),
                i <= other@.len(),
                segs_cmp(self@, other@) == segs_cmp(
                    self@.skip(i as int),
                    other@.skip(i as int),
                ),
            decreases self@.len() - i,
        {
            let a = self.get(i);
            let b = other.get(i);
            proof {
                if i < self@.len() {
                    assert(self@.skip(i as int)[0] == self@[i as int]);
                }
                if i < other@.len() {
                    assert(other@.skip(i as int)[0] == other@[i as int]);
                }
            }
            match (a, b) {
                (Some(x), Some(y)) => {
                    let c = cmp_bytes(x, y);
                    match c {
                        Ordering::Equal => {
                            i = i + 1;
                            proof {
                                assert(self@.skip(i - 1).drop_first() =~= self@.skip(i as int));
                                assert(other@.skip(i - 1).drop_first() =~= other@.skip(i as int));
                            }
                        },
                        _ => {
                            return c;
                        },
                    }
                },
                (Some(_), None) => {
                    return Ordering::Greater;
                },
                (None, Some(_)) => {
                    return Ordering::Less;
                },
                (None, None) => {
                    return Ordering::Equal;
                },
            }
        }
    }

    /// Whether another container holds the same decoded segments.
    pub fn equals(&self, other: &PathEnv) -> (r: bool)
        requires
            self.wf(),
            other.wf(),
        ensures
            r == (self@ == other@),
    {
        proof {
            lemma_segs_cmp_eq(self@, other@);
        }
        match self.compare(other) {
            Ordering::Equal => true,
            _ => false,
        }
    }

    /// Three-way comparison with raw search-path text, decoding the text
    /// lazily: no intermediate container, no allocation. Texts that differ
    /// only in separator placement compare as their common decomposition.
    pub fn compare_text(&self, path: &[u8]) -> (r: Ordering)
        requires
            self.wf(),
        ensures
            r == segs_cmp(self@, split_spec(path@)),
    {
        let mut it = PathEnvSplit::new(path);
        let n = self.len();
        let mut i: usize = 0;
        proof {
            assert(self@.skip(0) =~= self@);
        }
        loop
            invariant
                self.wf(),
                n == self@.len(),
                i <= self@.len(),
                segs_cmp(self@, split_spec(path@)) == segs_cmp(self@.skip(i as int), it@),
            decreases self@.len() - i,
        {
            let a = self.get(i);
            proof {
                if i < self@.len() {
                    assert(self@.skip(i as int)[0] == self@[i as int]);
                }
            }
            let ghost pre = it@;
            match a {
                Some(x) => {
                    match it.next() {
                        Some(y) => {
                            let c = cmp_bytes(x, y);
                            match c {
                                Ordering::Equal => {
                                    i = i + 1;
                                    proof {
                                        assert(self@.skip(i - 1).drop_first() =~= self@.skip(
                                            i as int,
                                        ));
                                    }
                                },
                                _ => {
                                    return c;
                                },
                            }
                        },
                        None => {
                            return Ordering::Greater;
                        },
                    }
                },
                None => {
                    match it.next() {
                        Some(_) => {
                            return Ordering::Less;
                        },
                        None => {
                            return Ordering::Equal;
                        },
                    }
                },
            }
        }
    }

    /// Whether raw search-path text decodes to the same segments as this
    /// container.
    pub fn equals_text(&self, path: &[u8]) -> (r: bool)
        requires
            self.wf(),
        ensures
            r == (self@ == split_spec(path@)),
    {
        proof {
            lemma_segs_cmp_eq(self@, split_spec(path@));
        }
        match self.compare_text(path) {
            Ordering::Equal => true,
            _ => false,
        }
    }
}

} // verus!
