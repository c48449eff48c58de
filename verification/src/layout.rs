//! Several files seen as one run of bytes: where a span of the payload
//! lies in the files.

use vstd::prelude::*;

verus! {

/// A part of a span that lies in one file.
#[derive(Debug, Clone, Copy, PartialEq, Eq, Structural)]
pub struct Segment {
    /// Index of the file.
    pub file: usize,
    /// Offset of the part's first byte in the file.
    pub offset: u64,
    /// Length of the part in bytes.
    pub length: u64,
}

/// Sum of the first `k` of `sizes`: the offset in the payload at which
/// file `k` starts.
pub open spec fn start_of(sizes: Seq<u64>, k: int) -> int
    decreases k,
{
    if k <= 0 {
        0
    } else {
        start_of(sizes, k - 1) + sizes[k - 1]
    }
}

/// The parts of the span of `len` bytes at `offset` of the payload that
/// lie in the files from `k` on, file `k` starting at `start`: what of the
/// span lies in file `k`, then what lies in the files after it.
pub open spec fn cut(sizes: Seq<u64>, k: int, start: int, offset: int, len: int) -> Seq<Segment>
    decreases sizes.len() - k,
{
    if k < 0 || k >= sizes.len() || len <= 0 {
        Seq::empty()
    } else if start <= offset < start + sizes[k] {
        let take = if len <= start + sizes[k] - offset {
            len
        } else {
            start + sizes[k] - offset
        };
        seq![Segment { file: k as usize, offset: (offset - start) as u64, length: take as u64 }]
            + cut(sizes, k + 1, start + sizes[k], offset + take, len - take)
    } else {
        cut(sizes, k + 1, start + sizes[k], offset, len)
    }
}

/// The parts of the span of `len` bytes at `offset` of the payload, file
/// by file.
pub open spec fn segments_of(sizes: Seq<u64>, offset: int, len: int) -> Seq<Segment> {
    cut(sizes, 0, 0, offset, len)
}

/// Sum of the lengths of `parts`.
pub open spec fn parts_total(parts: Seq<Segment>) -> int
    decreases parts.len(),
{
    if parts.len() == 0 {
        0
    } else {
        parts_total(parts.drop_last()) + parts.last().length
    }
}

/// The files of a payload, by their sizes, in payload order.
pub struct FileLayout {
    sizes: Vec<u64>,
    total: u64,
}

impl View for FileLayout {
    type V = Seq<u64>;

    closed spec fn view(&self) -> Seq<u64> {
        self.sizes@
    }
}

proof fn lemma_start_grows(sizes: Seq<u64>, a: int, b: int)
    requires
        0 <= a <= b,
    ensures
        start_of(sizes, a) <= start_of(sizes, b),
    decreases b - a,
{
    if a < b {
        lemma_start_grows(sizes, a, b - 1);
    }
}

impl FileLayout {
    #[verifier::type_invariant]
    spec fn fits(self) -> bool {
        self.total == start_of(self.sizes@, self.sizes@.len() as int)
    }

    /// The layout of files of the given sizes; none if all the sizes
    /// together are more than 64 bits count.
    pub fn new(sizes: Vec<u64>) -> (layout: Option<FileLayout>)
        ensures
            layout is Some <==> start_of(sizes@, sizes@.len() as int) <= u64::MAX,
            layout matches Some(l) ==> l@ == sizes@,
    {
        let mut total: u64 = 0;
        let mut i: usize = 0;
        while i < sizes.len()
            invariant
                i <= sizes@.len(),
                total == start_of(sizes@, i as int),
            decreases sizes@.len() - i,
        {
            match total.checked_add(sizes[i]) {
                Some(t) => {
                    total = t;
                },
                None => {
                    proof {
                        lemma_start_grows(sizes@, i + 1, sizes@.len() as int);
                    }
                    return None;
                },
            }
            i += 1;
        }
        Some(FileLayout { sizes, total })
    }

    /// Length of the payload: all the sizes together.
    pub fn total(&self) -> (n: u64)
        ensures
            n == start_of(self@, self@.len() as int),
    {
        proof {
            use_type_invariant(self);
        }
        self.total
    }

    /// Number of files.
    pub fn len(&self) -> (n: usize)
        ensures
            n == self@.len(),
    {
        self.sizes.len()
    }

    /// Where the span of `len` bytes at `offset` of the payload lies: its
    /// parts, file by file, each with the offset in its file. None if the
    /// span does not lie within the payload.
    pub fn segments(&self, offset: u64, len: u64) -> (parts: Option<Vec<Segment>>)
        ensures
            parts is Some <==> offset + len <= start_of(self@, self@.len() as int),
            parts matches Some(p) ==> p@ == segments_of(self@, offset as int, len as int),
    {
        proof {
            use_type_invariant(self);
        }
        if len > self.total || offset > self.total - len {
            return None;
        }
        let ghost sizes = self.sizes@;
        let mut parts: Vec<Segment> = Vec::new();
        let mut start: u64 = 0;
        let mut at: u64 = offset;
        let mut left: u64 = len;
        let mut k: usize = 0;
        while k < self.sizes.len() && left > 0
            invariant
                k <= sizes.len(),
                sizes == self.sizes@,
                self.total == start_of(sizes, sizes.len() as int),
                start == start_of(sizes, k as int),
                left > 0 ==> start <= at,
                at + left == offset + len,
                at + left <= self.total,
                segments_of(sizes, offset as int, len as int) == parts@ + cut(
                    sizes,
                    k as int,
                    start as int,
                    at as int,
                    left as int,
                ),
            decreases sizes.len() - k,
        {
            let size: u64 = self.sizes[k];
            proof {
                lemma_start_grows(sizes, k + 1, sizes.len() as int);
            }
            let end: u64 = start + size;
            if at < end {
                let room: u64 = end - at;
                let take: u64 = if left <= room {
                    left
                } else {
                    room
                };
                let ghost before = parts@;
                parts.push(Segment { file: k, offset: at - start, length: take });
                proof {
                    let rest = cut(sizes, k + 1, end as int, at + take, left - take);
                    assert(before + (seq![parts@.last()] + rest) =~= parts@ + rest);
                }
                at += take;
                left -= take;
            }
            start = end;
            k += 1;
        }
        proof {
            assert(left == 0) by {
                if left > 0 {
                    assert(k == sizes.len());
                }
            }
            assert(parts@ + Seq::<Segment>::empty() =~= parts@);
        }
        Some(parts)
    }
}

proof fn lemma_cut(sizes: Seq<u64>, k: int, start: int, offset: int, len: int, i: int)
    requires
        0 <= k <= sizes.len(),
        start == start_of(sizes, k),
        len > 0 ==> start <= offset,
        0 <= len,
        offset + len <= start_of(sizes, sizes.len() as int),
        start_of(sizes, sizes.len() as int) <= u64::MAX,
        sizes.len() <= usize::MAX,
    ensures
        parts_total(cut(sizes, k, start, offset, len)) == len,
        0 <= i < cut(sizes, k, start, offset, len).len() ==> {
            let part = cut(sizes, k, start, offset, len)[i];
            &&& k <= part.file < sizes.len()
            &&& part.length > 0
            &&& part.offset + part.length <= sizes[part.file as int]
            &&& offset <= start_of(sizes, part.file as int) + part.offset
            &&& start_of(sizes, part.file as int) + part.offset + part.length <= offset + len
            &&& i == 0 ==> start_of(sizes, part.file as int) + part.offset == offset
            &&& i + 1 < cut(sizes, k, start, offset, len).len() ==> {
                let next = cut(sizes, k, start, offset, len)[i + 1];
                &&& part.file < next.file
                &&& part.offset + part.length == sizes[part.file as int]
                &&& start_of(sizes, part.file as int) + part.offset + part.length == start_of(
                    sizes,
                    next.file as int,
                ) + next.offset
            }
        },
    decreases sizes.len() - k,
{
    let all = cut(sizes, k, start, offset, len);
    if k >= sizes.len() || len <= 0 {
        assert(len == 0) by {
            if k >= sizes.len() {
            }
        }
    } else {
        lemma_start_grows(sizes, k + 1, sizes.len() as int);
        let end = start + sizes[k];
        if offset < end {
            let take = if len <= end - offset {
                len
            } else {
                end - offset
            };
            let rest = cut(sizes, k + 1, end, offset + take, len - take);
            let head = Segment {
                file: k as usize,
                offset: (offset - start) as u64,
                length: take as u64,
            };
            assert(all == seq![head] + rest);
            lemma_cut(sizes, k + 1, end, offset + take, len - take, i - 1);
            lemma_cut(sizes, k + 1, end, offset + take, len - take, 0);
            lemma_total_front(head, rest);
            if i > 0 && i < all.len() {
                assert(all[i] == rest[i - 1]);
                if i + 1 < all.len() {
                    assert(all[i + 1] == rest[i]);
                }
            }
            if i == 0 && all.len() > 1 {
                assert(all[1] == rest[0]);
                assert(len - take > 0);
            }
        } else {
            lemma_cut(sizes, k + 1, end, offset, len, i);
        }
    }
}

proof fn lemma_total_front(head: Segment, rest: Seq<Segment>)
    ensures
        parts_total(seq![head] + rest) == head.length + parts_total(rest),
    decreases rest.len(),
{
    let all = seq![head] + rest;
    if rest.len() == 0 {
        assert(all.drop_last() =~= Seq::<Segment>::empty());
        assert(all.last() == head);
        assert(parts_total(all.drop_last()) == 0);
    } else {
        assert(all.drop_last() =~= seq![head] + rest.drop_last());
        assert(all.last() == rest.last());
        lemma_total_front(head, rest.drop_last());
    }
}

/// The parts of a span that lies within the payload cover it exactly, in
/// order and without gaps: no part is empty, each lies within its file, the
/// first starts where the span starts, each part but the last runs to the
/// end of its file, the next one takes up in a later file where it left
/// off, and all the parts together are as long as the span.
pub proof fn lemma_segments_cover(sizes: Seq<u64>, offset: int, len: int, i: int)
    requires
        0 <= offset,
        0 <= len,
        offset + len <= start_of(sizes, sizes.len() as int),
        start_of(sizes, sizes.len() as int) <= u64::MAX,
        sizes.len() <= usize::MAX,
    ensures
        parts_total(segments_of(sizes, offset, len)) == len,
        0 <= i < segments_of(sizes, offset, len).len() ==> {
            let part = segments_of(sizes, offset, len)[i];
            &&& part.file < sizes.len()
            &&& part.length > 0
            &&& part.offset + part.length <= sizes[part.file as int]
            &&& i == 0 ==> start_of(sizes, part.file as int) + part.offset == offset
            &&& i + 1 < segments_of(sizes, offset, len).len() ==> {
                let next = segments_of(sizes, offset, len)[i + 1];
                &&& part.file < next.file
                &&& part.offset + part.length == sizes[part.file as int]
                &&& start_of(sizes, part.file as int) + part.offset + part.length == start_of(
                    sizes,
                    next.file as int,
                ) + next.offset
            }
        },
{
    lemma_cut(sizes, 0, 0, offset, len, i);
}

} // verus!
