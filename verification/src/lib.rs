//! Operations on the textual representation of an OS search-path variable:
//! a list of filesystem paths joined by a single separator byte.
//!
//! The central type, [`PathEnv`], owns the raw byte buffer of the variable
//! and caches the decoded list of non-empty path segments as offset/length
//! pairs into that buffer.

use vstd::prelude::*;

pub mod cmp;
pub mod separator;
pub mod split;
pub mod sys;
pub mod util;

use crate::split::{
    split_spec, join, seg_ok, lemma_split_spec_elements, lemma_split_join, lemma_join_push,
    PathEnvSplit,
};
use crate::sys::byte_repr::{ByteRepr, NativeString};

verus! {

/// One cached segment: the byte range `[start, start + len)` of the
/// container's buffer. Offsets are reallocation-invariant, so the cache
/// survives buffer growth and cloning unchanged.
#[derive(Clone, Copy)]
pub struct Span {
    /// Offset of the segment's first byte in the buffer.
    pub start: usize,
    /// Number of bytes in the segment.
    pub len: usize,
}

/// The bytes of `path` that `sp` designates.
pub open spec fn span_seg(path: Seq<u8>, sp: Span) -> Seq<u8> {
    path.subrange(sp.start as int, sp.start + sp.len)
}

/// `sp` lies inside `path`, is non-empty, and covers no separator byte.
pub open spec fn span_ok(path: Seq<u8>, sp: Span) -> bool {
    &&& sp.len > 0
    &&& sp.start + sp.len <= path.len()
    &&& forall|k: int| sp.start <= k < sp.start + sp.len ==> path[k] != separator::U8
}

/// The segments designated by `parts`, in order.
pub open spec fn segs_of(path: Seq<u8>, parts: Seq<Span>) -> Seq<Seq<u8>> {
    Seq::new(parts.len(), |i: int| span_seg(path, parts[i]))
}

/// The cache layout invariant: the spans tile `path` from its first byte
/// to its last, each non-empty and separator-free, with exactly one
/// separator byte between adjacent spans. Such a buffer is canonical text.
pub open spec fn layout_ok(path: Seq<u8>, parts: Seq<Span>) -> bool {
    &&& forall|i: int| 0 <= i < parts.len() ==> span_ok(path, #[trigger] parts[i])
    &&& (parts.len() == 0 ==> path.len() == 0)
    &&& (parts.len() > 0 ==> parts[0].start == 0)
    &&& (parts.len() > 0 ==> parts[parts.len() - 1].start + parts[parts.len() - 1].len
        == path.len())
    &&& forall|i: int, j: int|
        #![trigger parts[i], parts[j]]
        0 <= i && i + 1 == j && j < parts.len() ==> parts[i].start + parts[i].len + 1
            == parts[j].start && path[parts[i].start + parts[i].len] == separator::U8
}

/// Spans of a well-formed layout come in strictly increasing buffer order.
proof fn lemma_layout_ordered(path: Seq<u8>, parts: Seq<Span>, i: int, j: int)
    requires
        layout_ok(path, parts),
        0 <= i <= j < parts.len(),
    ensures
        parts[i].start + parts[i].len <= parts[j].start + parts[j].len,
        i < j ==> parts[i].start + parts[i].len + 1 <= parts[j].start,
    decreases j - i,
{
    if i < j {
        lemma_layout_ordered(path, parts, i, j - 1);
        assert(parts[j - 1].start + parts[j - 1].len + 1 == parts[j].start);
    }
}

/// In a well-formed layout the buffer is exactly the canonical text of the
/// cached segments.
pub proof fn lemma_layout_join(path: Seq<u8>, parts: Seq<Span>)
    requires
        layout_ok(path, parts),
    ensures
        path == join(segs_of(path, parts)),
    decreases parts.len(),
{
    let segs = segs_of(path, parts);
    let n = parts.len() as int;
    if n == 0 {
        assert(path =~= join(segs));
    } else if n == 1 {
        assert(segs[0] =~= path);
        assert(path =~= join(segs));
    } else {
        let e = parts[n - 2].start + parts[n - 2].len;
        let path2 = path.subrange(0, e);
        let parts2 = parts.drop_last();
        assert forall|i: int| 0 <= i < parts2.len() implies span_ok(path2, #[trigger] parts2[i]) by {
            lemma_layout_ordered(path, parts, i, n - 2);
            assert forall|k: int|
                parts2[i].start <= k < parts2[i].start + parts2[i].len implies path2[k]
                != separator::U8 by {
                assert(path2[k] == path[k]);
            }
        }
        assert forall|i: int, j: int|
            #![trigger parts2[i], parts2[j]]
            0 <= i && i + 1 == j && j < parts2.len() implies parts2[i].start + parts2[i].len + 1
            == parts2[j].start && path2[parts2[i].start + parts2[i].len] == separator::U8 by {
            assert(parts2[i] == parts[i]);
            assert(parts2[j] == parts[j]);
            assert(parts[i].start + parts[i].len + 1 == parts[j].start && path[parts[i].start
                + parts[i].len] == separator::U8);
            lemma_layout_ordered(path, parts, j, n - 2);
            assert(path2[parts[i].start + parts[i].len] == path[parts[i].start + parts[i].len]);
        }
        assert(layout_ok(path2, parts2));
        lemma_layout_join(path2, parts2);
        let segs2 = segs_of(path2, parts2);
        assert forall|i: int| 0 <= i < segs2.len() implies segs2[i] == segs.drop_last()[i] by {
            lemma_layout_ordered(path, parts, i, n - 2);
            assert(span_seg(path2, parts[i]) =~= span_seg(path, parts[i]));
        }
        assert(segs2 =~= segs.drop_last());
        lemma_join_push(segs.drop_last(), segs[n - 1]);
        assert(segs.drop_last().push(segs[n - 1]) =~= segs);
        // The buffer itself is the shorter buffer, one separator, and the
        // last segment's bytes.
        assert(parts[n - 2].start + parts[n - 2].len + 1 == parts[n - 1].start && path[parts[n
            - 2].start + parts[n - 2].len] == separator::U8);
        assert(parts[n - 1].start == e + 1);
        assert(path[e] == separator::U8);
        assert(path =~= path2 + seq![separator::U8] + span_seg(path, parts[n - 1]));
    }
}

/// Each segment of a well-formed layout is non-empty and separator-free.
pub proof fn lemma_layout_segs_ok(path: Seq<u8>, parts: Seq<Span>)
    requires
        layout_ok(path, parts),
    ensures
        forall|j: int|
            0 <= j < segs_of(path, parts).len() ==> seg_ok(#[trigger] segs_of(path, parts)[j]),
{
    let segs = segs_of(path, parts);
    assert forall|j: int| 0 <= j < segs.len() implies seg_ok(#[trigger] segs[j]) by {
        assert(span_ok(path, parts[j]));
        assert forall|k: int| 0 <= k < segs[j].len() implies segs[j][k] != separator::U8 by {
            assert(segs[j][k] == path[parts[j].start + k]);
        }
    }
}

/// Cutting a well-formed layout at the end of its `k`-th segment keeps the
/// first `k` spans well formed and their segments unchanged.
proof fn lemma_layout_truncate(path: Seq<u8>, parts: Seq<Span>, k: int)
    requires
        layout_ok(path, parts),
        0 < k <= parts.len(),
    ensures
        layout_ok(
            path.take(parts[k - 1].start + parts[k - 1].len),
            parts.take(k),
        ),
        segs_of(
            path.take(parts[k - 1].start + parts[k - 1].len),
            parts.take(k),
        ) == segs_of(path, parts).take(k),
{
    let e = parts[k - 1].start + parts[k - 1].len;
    let path2 = path.take(e);
    let parts2 = parts.take(k);
    assert forall|i: int| 0 <= i < parts2.len() implies span_ok(path2, #[trigger] parts2[i]) by {
        lemma_layout_ordered(path, parts, i, k - 1);
        assert(span_ok(path, parts[i]));
        assert forall|p: int| parts2[i].start <= p < parts2[i].start + parts2[i].len implies path2[p]
            != separator::U8 by {
            assert(path2[p] == path[p]);
        }
    }
    assert forall|i: int, j: int|
        #![trigger parts2[i], parts2[j]]
        0 <= i && i + 1 == j && j < parts2.len() implies parts2[i].start + parts2[i].len + 1
        == parts2[j].start && path2[parts2[i].start + parts2[i].len] == separator::U8 by {
        assert(parts2[i] == parts[i]);
        assert(parts2[j] == parts[j]);
        assert(parts[i].start + parts[i].len + 1 == parts[j].start && path[parts[i].start
            + parts[i].len] == separator::U8);
        lemma_layout_ordered(path, parts, j, k - 1);
        assert(path2[parts[i].start + parts[i].len] == path[parts[i].start + parts[i].len]);
    }
    assert(layout_ok(path2, parts2));
    assert forall|i: int| 0 <= i < k implies segs_of(path2, parts2)[i] == segs_of(path, parts).take(
        k,
    )[i] by {
        lemma_layout_ordered(path, parts, i, k - 1);
        assert(span_seg(path2, parts[i]) =~= span_seg(path, parts[i]));
    }
    assert(segs_of(path2, parts2) =~= segs_of(path, parts).take(k));
}

/// The spans of a layout's suffix, rebased to a buffer that starts at the
/// `n`-th segment's first byte.
pub open spec fn shifted_spans(parts: Seq<Span>, n: int) -> Seq<Span> {
    Seq::new(
        (parts.len() - n) as nat,
        |j: int|
            Span {
                start: (parts[n + j].start - parts[n].start) as usize,
                len: parts[n + j].len,
            },
    )
}

/// Cutting a well-formed layout at the start of its `n`-th segment keeps
/// the surviving spans, rebased, well formed with their segments
/// unchanged.
/// One rebased span of a layout's suffix keeps its place, bytes, and
/// neighbouring separator.
#[verifier::rlimit(100)]
proof fn lemma_layout_shift_span(path: Seq<u8>, parts: Seq<Span>, n: int, j: int)
    requires
        layout_ok(path, parts),
        0 <= n < parts.len(),
        0 <= j < parts.len() - n,
    ensures
        span_ok(path.skip(parts[n].start as int), shifted_spans(parts, n)[j]),
        span_seg(path.skip(parts[n].start as int), shifted_spans(parts, n)[j]) == span_seg(
            path,
            parts[n + j],
        ),
        j < parts.len() - n - 1 ==> path.skip(parts[n].start as int)[shifted_spans(parts, n)[j].start
            + shifted_spans(parts, n)[j].len] == separator::U8,
{
    let shift = parts[n].start as int;
    let path2 = path.skip(shift);
    let sp2 = shifted_spans(parts, n)[j];
    lemma_layout_ordered(path, parts, n, n + j);
    lemma_layout_ordered(path, parts, n + j, parts.len() - 1);
    assert(span_ok(path, parts[n + j]));
    assert forall|p: int| sp2.start <= p < sp2.start + sp2.len implies path2[p]
        != separator::U8 by {
        assert(path2[p] == path[p + shift]);
    }
    assert(span_seg(path2, sp2) =~= span_seg(path, parts[n + j]));
    if j < parts.len() - n - 1 {
        assert(parts[n + j].start + parts[n + j].len + 1 == parts[n + j + 1].start && path[parts[n
            + j].start + parts[n + j].len] == separator::U8);
        assert(path2[sp2.start + sp2.len] == path[parts[n + j].start + parts[n + j].len]);
    }
}

/// Cutting a well-formed layout at the start of its `n`-th segment keeps
/// the surviving spans, rebased, well formed with their segments
/// unchanged.
#[verifier::rlimit(100)]
proof fn lemma_layout_shift(path: Seq<u8>, parts: Seq<Span>, n: int)
    requires
        layout_ok(path, parts),
        0 <= n < parts.len(),
    ensures
        layout_ok(path.skip(parts[n].start as int), shifted_spans(parts, n)),
        segs_of(path.skip(parts[n].start as int), shifted_spans(parts, n)) == segs_of(
            path,
            parts,
        ).skip(n),
{
    let shift = parts[n].start as int;
    let path2 = path.skip(shift);
    let parts2 = shifted_spans(parts, n);
    assert forall|j: int| 0 <= j < parts2.len() implies span_ok(path2, #[trigger] parts2[j]) by {
        lemma_layout_shift_span(path, parts, n, j);
    }
    assert forall|i: int, j: int|
        #![trigger parts2[i], parts2[j]]
        0 <= i && i + 1 == j && j < parts2.len() implies parts2[i].start + parts2[i].len + 1
        == parts2[j].start && path2[parts2[i].start + parts2[i].len] == separator::U8 by {
        lemma_layout_shift_span(path, parts, n, i);
        lemma_layout_shift_span(path, parts, n, j);
        lemma_layout_ordered(path, parts, n, n + i);
        lemma_layout_ordered(path, parts, n, n + j);
        assert(parts[n + i].start + parts[n + i].len + 1 == parts[n + j].start && path[parts[n
            + i].start + parts[n + i].len] == separator::U8);
    }
    assert(parts2.len() > 0);
    assert(parts2[0].start == 0);
    assert(parts2[parts2.len() - 1].start + parts2[parts2.len() - 1].len == path2.len()) by {
        lemma_layout_ordered(path, parts, n, parts.len() - 1);
    }
    assert(layout_ok(path2, parts2));
    assert forall|j: int| 0 <= j < parts2.len() implies segs_of(path2, parts2)[j] == segs_of(
        path,
        parts,
    ).skip(n)[j] by {
        lemma_layout_shift_span(path, parts, n, j);
    }
    assert(segs_of(path2, parts2) =~= segs_of(path, parts).skip(n));
}

/// Appending a separator (when the buffer is non-empty) and one
/// separator-free segment extends a well-formed layout by one span.
proof fn lemma_layout_push(
    oldpath: Seq<u8>,
    oldparts: Seq<Span>,
    newpath: Seq<u8>,
    sp: Span,
    seg: Seq<u8>,
)
    requires
        layout_ok(oldpath, oldparts),
        seg_ok(seg),
        sp.len == seg.len(),
        oldparts.len() == 0 ==> newpath == seg && sp.start == 0,
        oldparts.len() > 0 ==> newpath == oldpath + seq![separator::U8] + seg && sp.start
            == oldpath.len() + 1,
    ensures
        layout_ok(newpath, oldparts.push(sp)),
        segs_of(newpath, oldparts.push(sp)) == segs_of(oldpath, oldparts).push(seg),
{
    let newparts = oldparts.push(sp);
    assert forall|i: int| 0 <= i < newparts.len() implies span_ok(
        newpath,
        #[trigger] newparts[i],
    ) by {
        if i < oldparts.len() {
            assert(newparts[i] == oldparts[i]);
            assert(span_ok(oldpath, oldparts[i]));
            assert forall|k: int|
                oldparts[i].start <= k < oldparts[i].start + oldparts[i].len implies newpath[k]
                != separator::U8 by {
                assert(newpath[k] == oldpath[k]);
            }
        } else {
            assert(newparts[i] == sp);
            assert forall|k: int| sp.start <= k < sp.start + sp.len implies newpath[k]
                != separator::U8 by {
                assert(newpath[k] == seg[k - sp.start]);
            }
        }
    }
    assert forall|i: int, j: int|
        #![trigger newparts[i], newparts[j]]
        0 <= i && i + 1 == j && j < newparts.len() implies newparts[i].start + newparts[i].len + 1
        == newparts[j].start && newpath[newparts[i].start + newparts[i].len]
        == separator::U8 by {
        if j < newparts.len() - 1 {
            assert(newparts[i] == oldparts[i]);
            assert(newparts[j] == oldparts[j]);
            assert(oldparts[i].start + oldparts[i].len + 1 == oldparts[j].start && oldpath[
                oldparts[i].start + oldparts[i].len] == separator::U8);
            assert(newpath[oldparts[i].start + oldparts[i].len] == oldpath[oldparts[i].start
                + oldparts[i].len]);
        } else {
            assert(newparts[i] == oldparts[i]);
            assert(newparts[j] == sp);
            assert(oldparts[i].start + oldparts[i].len == oldpath.len());
            assert(newpath[oldpath.len() as int] == separator::U8);
        }
    }
    assert(newparts[newparts.len() - 1] == sp);
    assert(sp.start + sp.len == newpath.len());
    assert(layout_ok(newpath, newparts));
    assert forall|i: int| 0 <= i < newparts.len() implies segs_of(newpath, newparts)[i] == segs_of(
        oldpath,
        oldparts,
    ).push(seg)[i] by {
        if i < oldparts.len() {
            assert(span_seg(newpath, oldparts[i]) =~= span_seg(oldpath, oldparts[i]));
        } else {
            assert(span_seg(newpath, sp) =~= seg);
        }
    }
    assert(segs_of(newpath, newparts) =~= segs_of(oldpath, oldparts).push(seg));
}

/// An owned, mutable search-path variable.
///
/// The container owns the raw byte text of the variable and caches, as
/// offset/length pairs into that buffer, the decoded list of its non-empty
/// path segments. The buffer is kept in canonical form: exactly one
/// separator byte between adjacent segments and none at either boundary.
pub struct PathEnv {
    /// The variable's raw text.
    path: NativeString,
    /// The spans of the decoded segments of `path`, in buffer order.
    parts: Vec<Span>,
}

impl View for PathEnv {
    type V = Seq<Seq<u8>>;

    /// The decoded segment sequence.
    closed spec fn view(&self) -> Seq<Seq<u8>> {
        segs_of(self.path@, self.parts@)
    }
}

impl PathEnv {
    /// The buffer and the segment cache are well formed: the cached spans
    /// tile the buffer, so the cache, read in order, is exactly the
    /// decomposition of the buffer's content.
    pub closed spec fn wf(&self) -> bool {
        layout_ok(self.path@, self.parts@)
    }

    /// A well-formed container renders to canonical text that decodes back
    /// to exactly its own segment sequence.
    pub proof fn lemma_cache_exact(&self)
        requires
            self.wf(),
        ensures
            split_spec(join(self@)) == self@,
            forall|j: int| 0 <= j < self@.len() ==> seg_ok(#[trigger] self@[j]),
    {
        lemma_layout_segs_ok(self.path@, self.parts@);
        lemma_split_join(self@);
    }

    /// Constructs a new, empty container.
    pub fn empty() -> (r: Self)
        ensures
            r.wf(),
            r@ == Seq::<Seq<u8>>::empty(),
    {
        let r = PathEnv { path: NativeString::new(), parts: Vec::new() };
        proof {
            assert(r@ =~= Seq::<Seq<u8>>::empty());
        }
        r
    }

    /// The number of paths in the container.
    pub fn len(&self) -> (r: usize)
        ensures
            r == self@.len(),
    {
        self.parts.len()
    }

    /// Whether the container holds no paths.
    pub fn is_empty(&self) -> (r: bool)
        ensures
            r == (self@.len() == 0),
    {
        self.parts.len() == 0
    }

    /// Appends one decoded segment to the back: a separator byte unless the
    /// buffer is empty, then the segment's bytes.
    fn push_seg(&mut self, seg: &[u8])
        requires
            old(self).wf(),
            seg_ok(seg@),
        ensures
            final(self).wf(),
            final(self)@ == old(self)@.push(seg@),
    {
        if self.parts.len() > 0 {
            self.path.push_byte(separator::U8);
        }
        let start = self.path.len();
        self.path.push_bytes(seg);
        let sp = Span { start, len: seg.len() };
        self.parts.push(sp);
        proof {
            if old(self).parts@.len() > 0 {
                assert(self.path@ =~= old(self).path@ + seq![separator::U8] + seg@);
            } else {
                assert(self.path@ =~= seg@);
            }
            lemma_layout_push(old(self).path@, old(self).parts@, self.path@, sp, seg@);
        }
    }

    /// Constructs a container by decoding `path`: one full split pass. The
    /// buffer is stored in canonical form.
    pub fn from_bytes(path: &[u8]) -> (r: Self)
        ensures
            r.wf(),
            r@ == split_spec(path@),
    {
        let mut r = PathEnv::empty();
        let mut it = PathEnvSplit::new(path);
        proof {
            lemma_split_spec_elements(path@);
        }
        loop
            invariant
                r.wf(),
                r@ + it@ == split_spec(path@),
                forall|j: int| 0 <= j < it@.len() ==> seg_ok(#[trigger] it@[j]),
            decreases it@.len(),
        {
            let ghost pre = it@;
            match it.next() {
                Some(seg) => {
                    proof {
                        assert(seg@ == pre[0]);
                        assert(seg_ok(seg@));
                    }
                    r.push_seg(seg);
                    proof {
                        assert(r@ + it@ =~= split_spec(path@));
                    }
                },
                None => {
                    proof {
                        assert(r@ =~= split_spec(path@));
                    }
                    return r;
                },
            }
        }
    }

    /// Constructs a container by decoding a platform-native string: one
    /// full split pass.
    pub fn from_os_string(path: NativeString) -> (r: Self)
        ensures
            r.wf(),
            r@ == split_spec(path@),
    {
        Self::from_bytes(ByteRepr::as_bytes(&path))
    }

    /// Borrows the raw text of the container: always the canonical
    /// rendering of its segments.
    pub fn as_os_str(&self) -> (r: &NativeString)
        requires
            self.wf(),
        ensures
            r@ == join(self@),
    {
        proof {
            lemma_layout_join(self.path@, self.parts@);
        }
        &self.path
    }

    /// Releases the raw text of the container: always the canonical
    /// rendering of its segments.
    pub fn into_os_string(self) -> (r: NativeString)
        requires
            self.wf(),
        ensures
            r@ == join(self@),
    {
        proof {
            lemma_layout_join(self.path@, self.parts@);
        }
        self.path
    }

    /// The segment at `index`, if it exists.
    pub fn get(&self, index: usize) -> (r: Option<&[u8]>)
        requires
            self.wf(),
        ensures
            index < self@.len() ==> (r matches Some(seg) && seg@ == self@[index as int]),
            index >= self@.len() ==> r is None,
    {
        if index < self.parts.len() {
            let sp = self.parts[index];
            let n = self.path.len();
            proof {
                assert(span_ok(self.path@, self.parts@[index as int]));
            }
            Some(self.path.subslice(sp.start, sp.start + sp.len))
        } else {
            None
        }
    }

    /// The first segment, if any.
    pub fn front(&self) -> (r: Option<&[u8]>)
        requires
            self.wf(),
        ensures
            self@.len() > 0 ==> (r matches Some(seg) && seg@ == self@[0]),
            self@.len() == 0 ==> r is None,
    {
        self.get(0)
    }

    /// The last segment, if any.
    pub fn back(&self) -> (r: Option<&[u8]>)
        requires
            self.wf(),
        ensures
            self@.len() > 0 ==> (r matches Some(seg) && seg@ == self@.last()),
            self@.len() == 0 ==> r is None,
    {
        let len = self.parts.len();
        if len == 0 {
            None
        } else {
            self.get(len - 1)
        }
    }

    /// Whether some segment of the container equals `path`.
    pub fn contains(&self, path: &[u8]) -> (r: bool)
        requires
            self.wf(),
        ensures
            r == self@.contains(path@),
    {
        let mut i: usize = 0;
        while i < self.parts.len()
            invariant
                self.wf(),
                i <= self@.len(),
                forall|k: int| 0 <= k < i ==> self@[k] != path@,
            decreases self@.len() - i,
        {
            let sp = self.parts[i];
            let n = self.path.len();
            proof {
                assert(span_ok(self.path@, self.parts@[i as int]));
            }
            let seg = self.path.subslice(sp.start, sp.start + sp.len);
            if util::bytes_eq(seg, path) {
                proof {
                    assert(self@[i as int] == path@);
                }
                return true;
            }
            i = i + 1;
        }
        proof {
            assert(!self@.contains(path@)) by {
                if self@.contains(path@) {
                    let k = choose|k: int| 0 <= k < self@.len() && self@[k] == path@;
                    assert(self@[k] != path@);
                }
            }
        }
        false
    }

    /// A lazy walk over the decoded segments, from either end.
    pub fn iter<'a>(&'a self) -> (r: PathEnvSplit<'a>)
        requires
            self.wf(),
        ensures
            r@ == self@,
    {
        proof {
            lemma_layout_join(self.path@, self.parts@);
            self.lemma_cache_exact();
        }
        PathEnvSplit::new(ByteRepr::as_bytes(&self.path))
    }

    /// Appends the decoded segments of `path` to the back. An entry with
    /// no segments appends nothing; an entry holding separators appends a
    /// segment per non-empty run, as a full re-split of the grown buffer
    /// would.
    pub fn push_back(&mut self, path: &[u8])
        requires
            old(self).wf(),
        ensures
            final(self).wf(),
            final(self)@ == old(self)@ + split_spec(path@),
    {
        let mut it = PathEnvSplit::new(path);
        proof {
            lemma_split_spec_elements(path@);
        }
        loop
            invariant
                self.wf(),
                self@ + it@ == old(self)@ + split_spec(path@),
                forall|j: int| 0 <= j < it@.len() ==> seg_ok(#[trigger] it@[j]),
            decreases it@.len(),
        {
            let ghost pre = it@;
            match it.next() {
                Some(seg) => {
                    proof {
                        assert(seg@ == pre[0]);
                        assert(seg_ok(seg@));
                    }
                    self.push_seg(seg);
                    proof {
                        assert(self@ + it@ =~= old(self)@ + split_spec(path@));
                    }
                },
                None => {
                    proof {
                        assert(self@ =~= old(self)@ + split_spec(path@));
                    }
                    return ;
                },
            }
        }
    }

    /// Appends each of `entries` to the back, in order, pre-sizing the
    /// buffer with the reservation heuristic to reduce reallocations.
    pub fn extend(&mut self, entries: &Vec<Vec<u8>>)
        requires
            old(self).wf(),
        ensures
            final(self).wf(),
            final(self)@ == old(self)@ + crate::split::split_concat(entries.deep_view()),
    {
        util::reserve_heuristic(&mut self.path, entries.len());
        let ghost all = entries.deep_view();
        let mut i: usize = 0;
        while i < entries.len()
            invariant
                self.wf(),
                all == entries.deep_view(),
                i <= all.len(),
                self@ == old(self)@ + crate::split::split_concat(all.take(i as int)),
            decreases entries@.len() - i,
        {
            self.push_back(entries[i].as_slice());
            i = i + 1;
            proof {
                crate::split::lemma_split_concat_push(all.take(i - 1), all[i - 1]);
                assert(all.take(i as int) =~= all.take(i - 1).push(all[i - 1]));
                assert(all[i - 1] == entries@[i - 1]@);
                assert(self@ =~= old(self)@ + crate::split::split_concat(all.take(i as int)));
            }
        }
        proof {
            assert(all.take(all.len() as int) =~= all);
        }
    }

    /// Builds a container from a sequence of entries, appending each in
    /// order into a buffer pre-sized by the reservation heuristic.
    pub fn from_entries(entries: &Vec<Vec<u8>>) -> (r: Self)
        ensures
            r.wf(),
            r@ == crate::split::split_concat(entries.deep_view()),
    {
        let mut r = PathEnv::empty();
        r.extend(entries);
        proof {
            assert(Seq::<Seq<u8>>::empty() + crate::split::split_concat(entries.deep_view())
                =~= crate::split::split_concat(entries.deep_view()));
        }
        r
    }

    /// Removes all segments and empties the buffer.
    pub fn clear(&mut self)
        ensures
            final(self).wf(),
            final(self)@ == Seq::<Seq<u8>>::empty(),
    {
        self.parts.clear();
        self.path.truncate(0);
        proof {
            assert(final(self)@ =~= Seq::<Seq<u8>>::empty());
        }
    }

    /// Removes (at most) the last `n` segments, truncating the buffer to
    /// the end of the last survivor. Removing more segments than the
    /// container holds empties it; it is never an error.
    pub fn pop_back_n(&mut self, n: usize)
        requires
            old(self).wf(),
        ensures
            final(self).wf(),
            n >= old(self)@.len() ==> final(self)@ == Seq::<Seq<u8>>::empty(),
            n < old(self)@.len() ==> final(self)@ == old(self)@.take(old(self)@.len() - n),
    {
        let len = self.parts.len();
        if n >= len {
            self.clear();
            return ;
        }
        let k = len - n;
        let sp = self.parts[k - 1];
        let plen = self.path.len();
        proof {
            assert(span_ok(self.path@, self.parts@[k - 1]));
        }
        let e = sp.start + sp.len;
        self.path.truncate(e);
        self.parts.truncate(k);
        proof {
            lemma_layout_truncate(old(self).path@, old(self).parts@, k as int);
            assert(self.path@ == old(self).path@.take(e as int));
            assert(self.parts@ == old(self).parts@.take(k as int));
        }
    }

    /// Prepends the decoded segments of `path` to the front. Every byte of
    /// the buffer shifts, so the whole cache is re-derived: cost is
    /// proportional to the total content length, unlike appending at the
    /// back.
    pub fn push_front(&mut self, path: &[u8])
        requires
            old(self).wf(),
        ensures
            final(self).wf(),
            final(self)@ == split_spec(path@) + old(self)@,
    {
        let mut fresh = PathEnv::from_bytes(path);
        let len = self.parts.len();
        let mut i: usize = 0;
        while i < len
            invariant
                *self == *old(self),
                self.wf(),
                fresh.wf(),
                len == self@.len(),
                i <= len,
                fresh@ == split_spec(path@) + self@.take(i as int),
            decreases len - i,
        {
            let sp = self.parts[i];
            let n = self.path.len();
            proof {
                assert(span_ok(self.path@, self.parts@[i as int]));
            }
            let seg = self.path.subslice(sp.start, sp.start + sp.len);
            proof {
                assert forall|k: int| 0 <= k < seg@.len() implies seg@[k] != separator::U8 by {
                    assert(seg@[k] == self.path@[sp.start + k]);
                }
                assert(seg_ok(seg@));
                assert(seg@ == self@[i as int]);
            }
            fresh.push_seg(seg);
            i = i + 1;
            proof {
                assert(self@.take(i as int) =~= self@.take(i - 1).push(self@[i - 1]));
                assert(fresh@ =~= split_spec(path@) + self@.take(i as int));
            }
        }
        proof {
            assert(self@.take(len as int) =~= self@);
        }
        *self = fresh;
    }

    /// Removes (at most) the first `n` segments. The buffer's effective
    /// start shifts, so the surviving spans are rebased: cost is
    /// proportional to the surviving content, strictly more than removal
    /// from the back. Over-removal empties the container.
    pub fn pop_front_n(&mut self, n: usize)
        requires
            old(self).wf(),
        ensures
            final(self).wf(),
            n >= old(self)@.len() ==> final(self)@ == Seq::<Seq<u8>>::empty(),
            n < old(self)@.len() ==> final(self)@ == old(self)@.skip(n as int),
    {
        let len = self.parts.len();
        if n >= len {
            self.clear();
            return ;
        }
        let shift = self.parts[n].start;
        let plen = self.path.len();
        let newbytes = vstd::slice::slice_to_vec(self.path.subslice(shift, plen));
        let mut newparts: Vec<Span> = Vec::new();
        let mut i: usize = n;
        while i < len
            invariant
                *self == *old(self),
                self.wf(),
                len == self@.len(),
                n <= i <= len,
                n < len,
                shift == self.parts@[n as int].start,
                newparts@.len() == i - n,
                forall|j: int|
                    0 <= j < newparts@.len() ==> (#[trigger] newparts@[j]).start + shift
                        == self.parts@[n + j].start && newparts@[j].len == self.parts@[n + j].len,
            decreases len - i,
        {
            let sp = self.parts[i];
            proof {
                lemma_layout_ordered(self.path@, self.parts@, n as int, i as int);
                assert(span_ok(self.path@, self.parts@[i as int]));
            }
            newparts.push(Span { start: sp.start - shift, len: sp.len });
            i = i + 1;
        }
        self.path = crate::sys::byte_repr::ByteBufRepr::from_bytes(newbytes);
        self.parts = newparts;
        proof {
            let nn = n as int;
            lemma_layout_shift(old(self).path@, old(self).parts@, nn);
            assert(self.path@ =~= old(self).path@.skip(shift as int));
            assert(self.parts@ =~= shifted_spans(old(self).parts@, nn));
        }
    }

    /// Removes the first segment, if any.
    pub fn pop_front(&mut self)
        requires
            old(self).wf(),
        ensures
            final(self).wf(),
            old(self)@.len() == 0 ==> final(self)@ == old(self)@,
            old(self)@.len() > 0 ==> final(self)@ == old(self)@.drop_first(),
    {
        self.pop_front_n(1);
        proof {
            if old(self)@.len() == 0 {
                assert(old(self)@ =~= Seq::<Seq<u8>>::empty());
            }
        }
    }

    /// Removes the last segment, if any.
    pub fn pop_back(&mut self)
        requires
            old(self).wf(),
        ensures
            final(self).wf(),
            old(self)@.len() == 0 ==> final(self)@ == old(self)@,
            old(self)@.len() > 0 ==> final(self)@ == old(self)@.drop_last(),
    {
        self.pop_back_n(1);
        proof {
            if old(self)@.len() > 0 {
                assert(old(self)@.take(old(self)@.len() - 1) =~= old(self)@.drop_last());
            } else {
                assert(old(self)@ =~= Seq::<Seq<u8>>::empty());
            }
        }
    }
}

impl Clone for PathEnv {
    /// An independent copy: the buffer is copied and the cache is reused
    /// as it stands, since offsets into the buffer survive the copy
    /// unchanged.
    fn clone(&self) -> (r: Self)
        ensures
            r@ == self@,
            self.wf() ==> r.wf(),
    {
        let r = PathEnv { path: self.path.clone(), parts: self.parts.clone() };
        proof {
            assert(r.path@ == self.path@);
            assert forall|i: int| 0 <= i < self.parts@.len() implies r.parts@[i]
                == self.parts@[i] by {
                assert(vstd::pervasive::cloned::<Span>(self.parts@[i], r.parts@[i]));
            }
            assert(r.parts@ =~= self.parts@);
            assert(r@ =~= self@);
        }
        r
    }
}

/// Removes redundant separators from search-path text: the canonical
/// rendering of its decoded segments. Defined as render-after-construct,
/// and therefore idempotent.
pub fn normalize(path: &[u8]) -> (r: NativeString)
    ensures
        r@ == join(split_spec(path@)),
{
    PathEnv::from_bytes(path).into_os_string()
}

/// Normalization is idempotent: canonical text decodes to the segments it
/// was rendered from, so normalizing again changes nothing.
pub proof fn lemma_normalize_idempotent(x: Seq<u8>)
    ensures
        join(split_spec(join(split_spec(x)))) == join(split_spec(x)),
{
    lemma_split_spec_elements(x);
    lemma_split_join(split_spec(x));
}

/// Round trip: a container rebuilt from its rendered text decodes to the
/// same segment sequence.
pub proof fn lemma_construct_render_round_trip(c: &PathEnv)
    requires
        c.wf(),
    ensures
        split_spec(join(c@)) == c@,
{
    c.lemma_cache_exact();
}

/// Appending one non-empty, separator-free entry and then removing one
/// segment from the back restores the decoded sequence exactly, and with
/// it the rendered text.
pub proof fn lemma_push_pop_back(s: Seq<Seq<u8>>, e: Seq<u8>)
    requires
        seg_ok(e),
    ensures
        split_spec(e) == seq![e],
        (s + split_spec(e)).take(s.len() as int) == s,
{
    crate::split::lemma_sep_pos_absent(e);
    assert(split_spec(e) =~= seq![e]);
    assert((s + split_spec(e)).take(s.len() as int) =~= s);
}

} // verus!
