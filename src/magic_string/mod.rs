pub mod indent;
pub mod model;
pub mod mutation;
pub mod source_map;
pub mod token;

use std::collections::VecDeque;
use vstd::prelude::*;
use vstd::seq_lib::lemma_flatten_concat;
use vstd::string::{StringExecFns, StringSliceAdditionalSpecFns};
use vstd::utf8::*;

use self::model::{
    cuts_inside, index_ending_at, index_starting_at, lemma_pieces_fragments_push, lemma_split_idempotent,
    lemma_split_keeps_text,
    pieces_disjoint, pieces_fragments, pieces_in, split_pieces, update_ending_at, update_starting_at,
};
use crate::basic_types::AssertIntoU32;
use crate::chunk::{frag_views, str_views, Chunk, Piece};
use crate::offset_index::{index_get, index_insert, index_new, OffsetIndex};
use crate::span::{bytes_of, lemma_str_view_is_decoded, Span};

verus! {

broadcast use {encode_utf8_valid_utf8, encode_utf8_decode_utf8};

pub struct MagicStringOptions {
    pub filename: Option<String>,
}

/// Why an edit or a construction was refused.
#[derive(Debug, Clone, Copy, PartialEq, Eq, Structural)]
pub enum MagicStringError {
    /// The source is longer than a `u32` offset can address.
    SourceTooLarge,
    /// The range is empty or reversed where that is not allowed.
    InvalidRange,
    /// The destination of a move lies inside the moved range.
    RelocateIntoSelf,
    /// The offset lies past the end of the source.
    OffsetOutOfBounds,
    /// The offset falls inside the encoding of a character.
    NonCharBoundary,
}

/// An editable view of a source text: a partition of it into chunks, each with
/// what is inserted before and after it, in the order that they render.
#[derive(Clone)]
pub struct MagicString {
    pub filename: Option<String>,
    intro: VecDeque<String>,
    outro: VecDeque<String>,
    source: String,
    source_len: u32,
    chunks: Vec<Chunk>,
    first_chunk_idx: usize,
    last_chunk_idx: usize,
    chunk_by_start: OffsetIndex,
    chunk_by_end: OffsetIndex,
    /// The chunk handles in the order that the links give.
    order: Ghost<Seq<usize>>,
    /// The position of each handle in `order`.
    pos: Ghost<Seq<int>>,
}

/// Appends each fragment to `ret`, in order.
fn push_fragments(ret: &mut String, frags: &Vec<&str>)
    ensures
        final(ret)@ == old(ret)@ + str_views(frags@).flatten(),
{
    let mut j: usize = 0;
    assert(str_views(frags@).take(0).flatten() =~= Seq::<char>::empty());
    assert(ret@ =~= old(ret)@ + str_views(frags@).take(0).flatten());
    while j < frags.len()
        invariant
            j <= frags@.len(),
            ret@ == old(ret)@ + str_views(frags@).take(j as int).flatten(),
        decreases frags@.len() - j,
    {
        ret.append(frags[j]);
        proof {
            let v = str_views(frags@);
            assert(v.take(j as int + 1) =~= v.take(j as int).push(frags@[j as int]@));
            v.take(j as int).lemma_flatten_push(frags@[j as int]@);
        }
        j = j + 1;
        assert(ret@ =~= old(ret)@ + str_views(frags@).take(j as int).flatten());
    }
    assert(str_views(frags@).take(j as int) =~= str_views(frags@));
}

/// Appends each string of the queue to `ret`, in order.
fn push_queue(ret: &mut String, q: &VecDeque<String>)
    ensures
        final(ret)@ == old(ret)@ + frag_views(q@).flatten(),
{
    let mut j: usize = 0;
    assert(frag_views(q@).take(0).flatten() =~= Seq::<char>::empty());
    assert(ret@ =~= old(ret)@ + frag_views(q@).take(0).flatten());
    while j < q.len()
        invariant
            j <= q@.len(),
            ret@ == old(ret)@ + frag_views(q@).take(j as int).flatten(),
        decreases q@.len() - j,
    {
        ret.append(q[j].as_str());
        proof {
            let v = frag_views(q@);
            assert(v.take(j as int + 1) =~= v.take(j as int).push(q@[j as int]@));
            v.take(j as int).lemma_flatten_push(q@[j as int]@);
        }
        j = j + 1;
        assert(ret@ =~= old(ret)@ + frag_views(q@).take(j as int).flatten());
    }
    assert(frag_views(q@).take(j as int) =~= frag_views(q@));
}

impl MagicString {
    /// The bytes of the source text.
    pub closed spec fn src(&self) -> Seq<u8> {
        bytes_of(self.source@)
    }

    /// The name of the source file, if one was given.
    pub closed spec fn file_name(&self) -> Option<String> {
        self.filename
    }

    /// The source text.
    pub closed spec fn source_view(&self) -> Seq<char> {
        self.source@
    }

    /// What is inserted before everything.
    pub closed spec fn intro_frags(&self) -> Seq<Seq<char>> {
        frag_views(self.intro@)
    }

    /// What is inserted after everything.
    pub closed spec fn outro_frags(&self) -> Seq<Seq<char>> {
        frag_views(self.outro@)
    }

    /// The chunks, as pieces, in the order that they render.
    pub closed spec fn pieces(&self) -> Seq<Piece> {
        Seq::new(self.order@.len(), |i: int| self.chunks@[self.order@[i] as int].piece())
    }

    /// All fragments that the document renders, in order.
    pub open spec fn fragment_views(&self) -> Seq<Seq<char>> {
        self.intro_frags() + pieces_fragments(self.pieces(), self.src()) + self.outro_frags()
    }

    /// The text that the document renders.
    pub open spec fn rendered(&self) -> Seq<char> {
        self.fragment_views().flatten()
    }

    closed spec fn chunk_ok(&self, h: int) -> bool {
        let c = self.chunks@[h];
        let len = self.source_len as int;
        &&& c.span.0 <= c.span.1 <= len
        &&& c.span.0 < c.span.1 || len == 0
        &&& is_char_boundary(self.src(), c.span.0 as int)
        &&& is_char_boundary(self.src(), c.span.1 as int)
        &&& self.chunk_by_start@.contains_key(c.span.0)
        &&& self.chunk_by_start@[c.span.0] == h
        &&& self.chunk_by_end@.contains_key(c.span.1)
        &&& self.chunk_by_end@[c.span.1] == h
        &&& c.span.0 == 0 || self.chunk_by_end@.contains_key(c.span.0)
        &&& c.span.1 == len || self.chunk_by_start@.contains_key(c.span.1)
    }

    closed spec fn links_ok(&self) -> bool {
        let n = self.chunks@.len() as int;
        let order = self.order@;
        let chunks = self.chunks@;
        &&& order.len() == n
        &&& self.pos@.len() == n
        &&& forall|i: int| 0 <= i < n ==> 0 <= #[trigger] order[i] < n && self.pos@[order[i] as int] == i
        &&& forall|h: int| 0 <= h < n ==> 0 <= #[trigger] self.pos@[h] < n && order[self.pos@[h]] == h
        &&& self.first_chunk_idx == order[0]
        &&& self.last_chunk_idx == order[n - 1]
        &&& forall|i: int| 0 <= i < n - 1 ==> #[trigger] chunks[order[i] as int].next == Some(order[i + 1])
        &&& chunks[order[n - 1] as int].next.is_none()
        &&& forall|i: int| 0 < i < n ==> #[trigger] chunks[order[i] as int].prev == Some(order[i - 1])
        &&& chunks[order[0] as int].prev.is_none()
    }

    closed spec fn index_ok(&self) -> bool {
        let n = self.chunks@.len() as int;
        &&& forall|k: u32| #[trigger] self.chunk_by_start@.contains_key(k) ==>
                self.chunk_by_start@[k] < n && self.chunks@[self.chunk_by_start@[k] as int].span.0 == k
        &&& forall|k: u32| #[trigger] self.chunk_by_end@.contains_key(k) ==>
                self.chunk_by_end@[k] < n && self.chunks@[self.chunk_by_end@[k] as int].span.1 == k
        &&& self.chunk_by_start@.contains_key(0)
        &&& self.chunk_by_end@.contains_key(self.source_len)
    }

    /// The document's invariant.
    pub closed spec fn wf(&self) -> bool {
        let n = self.chunks@.len() as int;
        &&& n >= 1
        &&& self.source_len as int == self.src().len()
        &&& self.links_ok()
        &&& self.index_ok()
        &&& forall|h: int| 0 <= h < n ==> #[trigger] self.chunk_ok(h)
        &&& forall|h1: int, h2: int|
            0 <= h1 < n && 0 <= h2 < n && h1 != h2 ==>
                #[trigger] self.chunks@[h1].span.1 <= #[trigger] self.chunks@[h2].span.0
                || self.chunks@[h2].span.1 <= self.chunks@[h1].span.0
    }

    /// The length of the source in bytes.
    pub closed spec fn source_length(&self) -> int {
        self.source_len as int
    }

    /// A new document over `source`; the source must be addressable by `u32` offsets.
    pub fn new(source: &str) -> (r: MagicString)
        requires
            source.spec_bytes().len() <= u32::MAX,
        ensures
            r.wf(),
            r.source_view() == source@,
            r.src() == source.spec_bytes(),
            r.file_name().is_none(),
            r.intro_frags() == Seq::<Seq<char>>::empty(),
            r.outro_frags() == Seq::<Seq<char>>::empty(),
            r.pieces() == seq![Piece {
                start: 0,
                end: source.spec_bytes().len() as int,
                intro: Seq::empty(),
                outro: Seq::empty(),
                edited: None,
                store_name: false,
            }],
            r.rendered() == source@,
    {
        Self::with_options(source, MagicStringOptions { filename: None })
    }

    pub fn with_options(source: &str, options: MagicStringOptions) -> (r: MagicString)
        requires
            source.spec_bytes().len() <= u32::MAX,
        ensures
            r.wf(),
            r.source_view() == source@,
            r.src() == source.spec_bytes(),
            r.file_name() == options.filename,
            r.intro_frags() == Seq::<Seq<char>>::empty(),
            r.outro_frags() == Seq::<Seq<char>>::empty(),
            r.pieces() == seq![Piece {
                start: 0,
                end: source.spec_bytes().len() as int,
                intro: Seq::empty(),
                outro: Seq::empty(),
                edited: None,
                store_name: false,
            }],
            r.rendered() == source@,
    {
        let source_len = source.len() as u32;
        let initial_chunk = Chunk::new(Span(0, source_len));
        let mut chunks: Vec<Chunk> = Vec::new();
        chunks.push(initial_chunk);
        let mut chunk_by_start = index_new();
        let mut chunk_by_end = index_new();
        index_insert(&mut chunk_by_start, 0, 0);
        index_insert(&mut chunk_by_end, source_len, 0);
        let ghost order = seq![0usize];
        let ghost pos = seq![0int];
        let r = MagicString {
            filename: options.filename,
            intro: VecDeque::new(),
            outro: VecDeque::new(),
            source: source.to_owned(),
            source_len,
            chunks,
            first_chunk_idx: 0,
            last_chunk_idx: 0,
            chunk_by_start,
            chunk_by_end,
            order: Ghost(order),
            pos: Ghost(pos),
        };
        proof {
            let src = source.spec_bytes();
            lemma_str_view_is_decoded(source);
            is_char_boundary_start_end_of_seq(src);
            assert(r.chunk_ok(0));
            assert(r.intro_frags() =~= Seq::<Seq<char>>::empty());
            assert(r.outro_frags() =~= Seq::<Seq<char>>::empty());
            assert(r.pieces() =~= seq![r.chunks@[0].piece()]);
            let p = r.chunks@[0].piece();
            assert(src.subrange(0, src.len() as int) =~= src);
            assert(p.content(src) == source@);
            lemma_pieces_fragments_push(Seq::empty(), p, src);
            assert(seq![p] =~= Seq::<Piece>::empty().push(p));
            assert(pieces_fragments(Seq::empty(), src) =~= Seq::<Seq<char>>::empty());
            assert(r.fragment_views() =~= seq![source@]);
            seq![source@].lemma_flatten_singleton();
        }
        r
    }

    /// Finds the chunk whose span holds `at_index` strictly inside, walking the
    /// offset order from whichever end of the source is nearer.
    fn find_chunk_around(&self, at_index: u32) -> (t: usize)
        requires
            self.wf(),
            0 < at_index < self.source_len,
            !self.chunk_by_end@.contains_key(at_index),
        ensures
            t < self.chunks@.len(),
            self.chunks@[t as int].span.0 < at_index < self.chunks@[t as int].span.1,
    {
        if self.source_len - at_index > at_index {
            let mut idx = index_get(&self.chunk_by_start, 0).unwrap();
            assert(self.chunk_ok(idx as int));
            while !self.chunks[idx].contains(at_index)
                invariant
                    self.wf(),
                    0 < at_index < self.source_len,
                    !self.chunk_by_end@.contains_key(at_index),
                    idx < self.chunks@.len(),
                    self.chunks@[idx as int].span.0 < at_index,
                decreases at_index - self.chunks@[idx as int].span.0,
            {
                assert(self.chunk_ok(idx as int));
                let end = self.chunks[idx].end();
                idx = index_get(&self.chunk_by_start, end).unwrap();
            }
            idx
        } else {
            let mut idx = index_get(&self.chunk_by_end, self.source_len).unwrap();
            assert(self.chunk_ok(idx as int));
            while !self.chunks[idx].contains(at_index)
                invariant
                    self.wf(),
                    0 < at_index < self.source_len,
                    !self.chunk_by_end@.contains_key(at_index),
                    idx < self.chunks@.len(),
                    self.chunks@[idx as int].span.1 > at_index,
                decreases self.chunks@[idx as int].span.1 - at_index,
            {
                assert(self.chunk_ok(idx as int));
                let start = self.chunks[idx].start();
                idx = index_get(&self.chunk_by_end, start).unwrap();
            }
            idx
        }
    }

    /// Makes `at_index` a boundary between chunks, cutting the chunk around it.
    /// The rendered text does not change.
    #[verifier::rlimit(100)]
    fn split_at(&mut self, at_index: u32)
        requires
            old(self).wf(),
            at_index <= old(self).source_len,
            is_char_boundary(old(self).src(), at_index as int),
        ensures
            final(self).wf(),
            final(self).src() == old(self).src(),
            final(self).source_view() == old(self).source_view(),
            final(self).file_name() == old(self).file_name(),
            final(self).source_len == old(self).source_len,
            final(self).source == old(self).source,
            final(self).filename == old(self).filename,
            final(self).intro@ == old(self).intro@,
            final(self).outro@ == old(self).outro@,
            final(self).pieces() == split_pieces(old(self).pieces(), at_index as int),
            0 < at_index ==> final(self).chunk_by_end@.contains_key(at_index),
            at_index < final(self).source_len ==> final(self).chunk_by_start@.contains_key(at_index),
            forall|k: u32| old(self).chunk_by_start@.contains_key(k) ==> #[trigger] final(self).chunk_by_start@.contains_key(k),
            forall|k: u32| old(self).chunk_by_end@.contains_key(k) ==> #[trigger] final(self).chunk_by_end@.contains_key(k),
    {
        let ghost ps = self.pieces();
        let ghost n = self.chunks@.len() as int;
        if at_index == 0 || at_index >= self.source_len || index_get(&self.chunk_by_end, at_index).is_some() {
            proof {
                if cuts_inside(ps, at_index as int) {
                    let i = choose|i: int| 0 <= i < ps.len() && #[trigger] ps[i].start < at_index < ps[i].end;
                    let h = self.order@[i] as int;
                    assert(self.chunk_ok(h));
                    let h2 = self.chunk_by_end@[at_index] as int;
                    assert(self.chunk_ok(h2));
                    assert(false);
                }
                if 0 < at_index < self.source_len {
                    let h2 = self.chunk_by_end@[at_index] as int;
                    assert(self.chunk_ok(h2));
                }
            }
            return;
        }
        let t = self.find_chunk_around(at_index);
        let ghost old_self = *self;
        let ghost pt = self.pos@[t as int];
        let ghost order = self.order@;
        proof {
            assert(self.chunk_ok(t as int));
            assert(order[pt] == t);
        }
        let second = self.chunks[t].split(at_index);
        let second_end = second.end();
        let m = self.chunks.len();
        self.chunks.push(second);
        index_insert(&mut self.chunk_by_end, at_index, t);
        index_insert(&mut self.chunk_by_start, at_index, m);
        index_insert(&mut self.chunk_by_end, second_end, m);
        let ghost nx = self.chunks@[m as int].next;
        if let Some(nx) = self.chunks[m].next {
            self.chunks[nx].prev = Some(m);
        }
        self.chunks[m].prev = Some(t);
        self.chunks[t].next = Some(m);
        if t == self.last_chunk_idx {
            self.last_chunk_idx = m;
        }
        let ghost new_order = order.insert(pt + 1, m);
        let ghost new_pos = Seq::new((n + 1) as nat, |h: int|
            if h == m { pt + 1 } else if old_self.pos@[h] > pt { old_self.pos@[h] + 1 } else { old_self.pos@[h] });
        self.order = Ghost(new_order);
        self.pos = Ghost(new_pos);
        proof {
            let chunks = self.chunks@;
            let oc = old_self.chunks@;
            assert(chunks.len() == n + 1);
            // which chunks changed, and how
            assert forall|h: int| 0 <= h < n && h != t implies #[trigger] chunks[h].piece() == oc[h].piece()
                && chunks[h].span == oc[h].span by {}
            assert(chunks[t as int].piece() == oc[t as int].piece().left_of(at_index as int));
            assert(chunks[m as int].piece() == oc[t as int].piece().right_of(at_index as int));
            // links
            if pt < n - 1 {
                assert(old_self.chunks@[order[pt] as int].next == Some(order[pt + 1]));
                assert(nx == Some(order[pt + 1]));
            } else {
                assert(nx.is_none());
            }
            assert forall|i: int| 0 <= i < n + 1 implies 0 <= #[trigger] new_order[i] < n + 1 && new_pos[new_order[i] as int] == i by {
                if i <= pt {
                    assert(new_order[i] == order[i]);
                } else if i == pt + 1 {
                } else {
                    assert(new_order[i] == order[i - 1]);
                }
            }
            assert forall|h: int| 0 <= h < n + 1 implies 0 <= #[trigger] new_pos[h] < n + 1 && new_order[new_pos[h]] == h by {
                if h < n {
                    assert(order[old_self.pos@[h]] == h);
                }
            }
            assert forall|i: int| 0 <= i < n + 1 - 1 implies #[trigger] chunks[new_order[i] as int].next == Some(new_order[i + 1]) by {
                if i < pt {
                    assert(oc[order[i] as int].next == Some(order[i + 1]));
                } else if i == pt {
                } else if i == pt + 1 {
                } else {
                    assert(oc[order[i - 1] as int].next == Some(order[i]));
                }
            }
            assert forall|i: int| 0 < i < n + 1 implies #[trigger] chunks[new_order[i] as int].prev == Some(new_order[i - 1]) by {
                if i <= pt {
                    assert(oc[order[i] as int].prev == Some(order[i - 1]));
                } else if i == pt + 1 {
                } else if i == pt + 2 {
                } else {
                    assert(oc[order[i - 1] as int].prev == Some(order[i - 2]));
                }
            }
            assert(self.links_ok());
            // indices
            assert forall|k: u32| #[trigger] self.chunk_by_start@.contains_key(k) implies
                self.chunk_by_start@[k] < n + 1 && chunks[self.chunk_by_start@[k] as int].span.0 == k by {
                if k != at_index {
                    assert(old_self.chunk_by_start@.contains_key(k));
                }
            }
            assert forall|k: u32| #[trigger] self.chunk_by_end@.contains_key(k) implies
                self.chunk_by_end@[k] < n + 1 && chunks[self.chunk_by_end@[k] as int].span.1 == k by {
                if k != at_index && k != second_end {
                    assert(old_self.chunk_by_end@.contains_key(k));
                    let h = old_self.chunk_by_end@[k] as int;
                    assert(h != t);
                }
            }
            assert(self.index_ok());
            assert forall|h: int| 0 <= h < n + 1 implies #[trigger] self.chunk_ok(h) by {
                if h < n && h != t {
                    assert(old_self.chunk_ok(h));
                    let c = oc[h];
                    assert(c.span.1 != at_index);
                    if c.span.0 == at_index {
                        assert(old_self.chunk_ok(t as int));
                        assert(false);
                    }
                    assert(c.span.1 != second_end);
                } else {
                    assert(old_self.chunk_ok(t as int));
                }
            }
            assert forall|h1: int, h2: int|
                0 <= h1 < n + 1 && 0 <= h2 < n + 1 && h1 != h2 implies
                    #[trigger] chunks[h1].span.1 <= #[trigger] chunks[h2].span.0
                    || chunks[h2].span.1 <= chunks[h1].span.0 by {
                let o1 = if h1 == m { t as int } else { h1 };
                let o2 = if h2 == m { t as int } else { h2 };
                if o1 != o2 {
                    assert(oc[o1].span.1 <= oc[o2].span.0 || oc[o2].span.1 <= oc[o1].span.0);
                }
            }
            assert(self.wf());
            // the pieces
            assert(ps[pt].start < at_index < ps[pt].end);
            let i = choose|i: int| 0 <= i < ps.len() && #[trigger] ps[i].start < at_index < ps[i].end;
            if i != pt {
                let hi = order[i] as int;
                assert(oc[hi].span.1 <= oc[t as int].span.0 || oc[t as int].span.1 <= oc[hi].span.0);
            }
            assert(i == pt);
            let expect = ps.take(pt) + seq![ps[pt].left_of(at_index as int), ps[pt].right_of(at_index as int)] + ps.skip(pt + 1);
            assert forall|j: int| 0 <= j < n + 1 implies #[trigger] self.pieces()[j] == expect[j] by {
                if j < pt {
                    assert(new_order[j] == order[j]);
                } else if j == pt || j == pt + 1 {
                } else {
                    assert(new_order[j] == order[j - 1]);
                }
            }
            assert(self.pieces() =~= expect);
        }
    }

    /// The pieces of a well-formed document do not overlap, so cutting it twice
    /// at one offset is cutting it once.
    pub proof fn lemma_pieces_disjoint(&self)
        requires
            self.wf(),
        ensures
            pieces_disjoint(self.pieces()),
    {
        let ps = self.pieces();
        let n = self.chunks@.len() as int;
        assert forall|i: int| 0 <= i < ps.len() implies #[trigger] ps[i].start <= ps[i].end by {
            assert(self.chunk_ok(self.order@[i] as int));
        }
        assert forall|i: int, j: int|
            0 <= i < ps.len() && 0 <= j < ps.len() && i != j implies #[trigger] ps[i].end <= #[trigger] ps[j].start
                || ps[j].end <= ps[i].start by {
            let hi = self.order@[i] as int;
            let hj = self.order@[j] as int;
            assert(self.pos@[hi] == i && self.pos@[hj] == j);
            assert(self.chunks@[hi].span.1 <= self.chunks@[hj].span.0 || self.chunks@[hj].span.1 <= self.chunks@[hi].span.0);
        }
    }

    /// Cutting a document twice at one offset gives the partition that cutting
    /// it once gives.
    pub proof fn lemma_split_twice(&self, p: int)
        requires
            self.wf(),
        ensures
            split_pieces(split_pieces(self.pieces(), p), p) == split_pieces(self.pieces(), p),
    {
        self.lemma_pieces_disjoint();
        lemma_split_idempotent(self.pieces(), p);
    }

    /// Cutting a document at a character boundary leaves the text that it
    /// renders as it was.
    pub proof fn lemma_split_keeps_rendered(&self, p: int)
        requires
            self.wf(),
            0 <= p <= self.source_length(),
            is_char_boundary(self.src(), p),
        ensures
            (self.intro_frags() + pieces_fragments(split_pieces(self.pieces(), p), self.src()) + self.outro_frags()).flatten()
                == self.rendered(),
    {
        let ps = self.pieces();
        let src = self.src();
        assert forall|i: int| 0 <= i < ps.len() implies {
            &&& 0 <= #[trigger] ps[i].start <= ps[i].end <= src.len()
            &&& is_char_boundary(src, ps[i].start)
            &&& is_char_boundary(src, ps[i].end)
        } by {
            assert(self.chunk_ok(self.order@[i] as int));
        }
        assert(pieces_in(ps, src));
        lemma_split_keeps_text(ps, p, src);
        let a = self.intro_frags();
        let c = self.outro_frags();
        let before = pieces_fragments(ps, src);
        let after = pieces_fragments(split_pieces(ps, p), src);
        lemma_flatten_concat(a + after, c);
        lemma_flatten_concat(a, after);
        lemma_flatten_concat(a + before, c);
        lemma_flatten_concat(a, before);
    }

    /// Replacing one chunk by one with the same span and links keeps the
    /// invariant, and changes just that chunk's piece.
    proof fn lemma_chunk_replaced(a: MagicString, b: MagicString, h: int)
        requires
            a.wf(),
            0 <= h < a.chunks@.len(),
            b.chunks@ == a.chunks@.update(h, b.chunks@[h]),
            b.chunks@[h].span == a.chunks@[h].span,
            b.chunks@[h].next == a.chunks@[h].next,
            b.chunks@[h].prev == a.chunks@[h].prev,
            b.source == a.source,
            b.source_len == a.source_len,
            b.first_chunk_idx == a.first_chunk_idx,
            b.last_chunk_idx == a.last_chunk_idx,
            b.chunk_by_start == a.chunk_by_start,
            b.chunk_by_end == a.chunk_by_end,
            b.order == a.order,
            b.pos == a.pos,
        ensures
            b.wf(),
            b.pieces() == a.pieces().update(a.pos@[h], b.chunks@[h].piece()),
    {
        let n = a.chunks@.len() as int;
        assert forall|g: int| 0 <= g < n implies #[trigger] b.chunk_ok(g) by {
            assert(a.chunk_ok(g));
        }
        assert forall|i: int| 0 <= i < n - 1 implies #[trigger] b.chunks@[b.order@[i] as int].next == Some(b.order@[i + 1]) by {
            assert(a.chunks@[a.order@[i] as int].next == Some(a.order@[i + 1]));
        }
        assert forall|i: int| 0 < i < n implies #[trigger] b.chunks@[b.order@[i] as int].prev == Some(b.order@[i - 1]) by {
            assert(a.chunks@[a.order@[i] as int].prev == Some(a.order@[i - 1]));
        }
        assert(b.links_ok());
        assert(b.index_ok());
        assert forall|h1: int, h2: int|
            0 <= h1 < n && 0 <= h2 < n && h1 != h2 implies
                #[trigger] b.chunks@[h1].span.1 <= #[trigger] b.chunks@[h2].span.0
                || b.chunks@[h2].span.1 <= b.chunks@[h1].span.0 by {
            assert(a.chunks@[h1].span.1 <= a.chunks@[h2].span.0 || a.chunks@[h2].span.1 <= a.chunks@[h1].span.0);
        }
        assert(b.pieces() =~= a.pieces().update(a.pos@[h], b.chunks@[h].piece()));
    }

    /// What is inserted before or after everything does not touch the chunks.
    proof fn lemma_ends_changed(a: MagicString, b: MagicString)
        requires
            a.wf(),
            b.chunks == a.chunks,
            b.source == a.source,
            b.source_len == a.source_len,
            b.first_chunk_idx == a.first_chunk_idx,
            b.last_chunk_idx == a.last_chunk_idx,
            b.chunk_by_start == a.chunk_by_start,
            b.chunk_by_end == a.chunk_by_end,
            b.order == a.order,
            b.pos == a.pos,
        ensures
            b.wf(),
            b.pieces() == a.pieces(),
    {
        let n = a.chunks@.len() as int;
        assert forall|g: int| 0 <= g < n implies #[trigger] b.chunk_ok(g) by {
            assert(a.chunk_ok(g));
        }
        assert(b.links_ok());
        assert(b.index_ok());
        assert(b.pieces() =~= a.pieces());
    }

    /// In a well-formed document the piece of handle `h` is the one that ends,
    /// and the one that starts, where its span does.
    proof fn lemma_piece_indices(&self, h: int)
        requires
            self.wf(),
            0 <= h < self.chunks@.len(),
        ensures
            self.pieces()[self.pos@[h]] == self.chunks@[h].piece(),
            index_ending_at(self.pieces(), self.chunks@[h].span.1 as int) == self.pos@[h],
            index_starting_at(self.pieces(), self.chunks@[h].span.0 as int) == self.pos@[h],
    {
        let ps = self.pieces();
        let ph = self.pos@[h];
        assert(self.chunk_ok(h));
        assert(ps[ph].end == self.chunks@[h].span.1 as int);
        let j = index_ending_at(ps, self.chunks@[h].span.1 as int);
        let g = self.order@[j] as int;
        assert(self.chunk_ok(g));
        assert(self.chunks@[g].span.1 == self.chunks@[h].span.1);
        assert(g == h);
        assert(ps[ph].start == self.chunks@[h].span.0 as int);
        let k = index_starting_at(ps, self.chunks@[h].span.0 as int);
        let f = self.order@[k] as int;
        assert(self.chunk_ok(f));
        assert(f == h);
    }

    /// What is wrong with `p` as an offset into this source, if anything.
    pub open spec fn offset_error(&self, p: int) -> Option<MagicStringError> {
        if !(0 <= p <= self.source_length()) {
            Some(MagicStringError::OffsetOutOfBounds)
        } else if !is_char_boundary(self.src(), p) {
            Some(MagicStringError::NonCharBoundary)
        } else {
            None
        }
    }

    /// Reads `text_index` as an offset and checks it against the source.
    fn check_offset<T: AssertIntoU32>(&self, text_index: T) -> (r: Result<u32, MagicStringError>)
        requires
            self.wf(),
        ensures
            match r {
                Ok(p) => self.offset_error(text_index.offset_value()) is None && p as int == text_index.offset_value(),
                Err(e) => self.offset_error(text_index.offset_value()) == Some(e),
            },
    {
        let p = match text_index.assert_into_u32() {
            Some(p) => p,
            None => return Err(MagicStringError::OffsetOutOfBounds),
        };
        if p > self.source_len {
            return Err(MagicStringError::OffsetOutOfBounds);
        }
        if !self.source.as_str().is_char_boundary(p as usize) {
            return Err(MagicStringError::NonCharBoundary);
        }
        Ok(p)
    }

    /// Makes `p` a boundary and returns the chunk that ends there.
    fn chunk_ending_at(&mut self, p: u32) -> (h: usize)
        requires
            old(self).wf(),
            0 < p <= old(self).source_len,
            is_char_boundary(old(self).src(), p as int),
        ensures
            final(self).wf(),
            final(self).source == old(self).source,
            final(self).source_len == old(self).source_len,
            final(self).filename == old(self).filename,
            final(self).intro@ == old(self).intro@,
            final(self).outro@ == old(self).outro@,
            final(self).pieces() == split_pieces(old(self).pieces(), p as int),
            h < final(self).chunks@.len(),
            final(self).chunks@[h as int].span.1 == p,
    {
        self.split_at(p);
        let h = index_get(&self.chunk_by_end, p).unwrap();
        h
    }

    /// Makes `p` a boundary and returns the chunk that starts there.
    fn chunk_starting_at(&mut self, p: u32) -> (h: usize)
        requires
            old(self).wf(),
            p < old(self).source_len,
            is_char_boundary(old(self).src(), p as int),
        ensures
            final(self).wf(),
            final(self).source == old(self).source,
            final(self).source_len == old(self).source_len,
            final(self).filename == old(self).filename,
            final(self).intro@ == old(self).intro@,
            final(self).outro@ == old(self).outro@,
            final(self).pieces() == split_pieces(old(self).pieces(), p as int),
            h < final(self).chunks@.len(),
            final(self).chunks@[h as int].span.0 == p,
    {
        self.split_at(p);
        let h = index_get(&self.chunk_by_start, p).unwrap();
        h
    }

    /// Inserts `content` after everything.
    pub fn append(&mut self, content: &str)
        requires
            old(self).wf(),
        ensures
            final(self).wf(),
            final(self).src() == old(self).src(),
            final(self).source_view() == old(self).source_view(),
            final(self).file_name() == old(self).file_name(),
            final(self).pieces() == old(self).pieces(),
            final(self).intro_frags() == old(self).intro_frags(),
            final(self).outro_frags() == old(self).outro_frags().push(content@),
    {
        self.outro.push_back(content.to_owned());
        assert(self.outro_frags() =~= old(self).outro_frags().push(content@));
        proof { Self::lemma_ends_changed(*old(self), *self); }
    }

    /// Inserts `content` before everything.
    pub fn prepend(&mut self, content: &str)
        requires
            old(self).wf(),
        ensures
            final(self).wf(),
            final(self).src() == old(self).src(),
            final(self).source_view() == old(self).source_view(),
            final(self).file_name() == old(self).file_name(),
            final(self).pieces() == old(self).pieces(),
            final(self).intro_frags() == seq![content@] + old(self).intro_frags(),
            final(self).outro_frags() == old(self).outro_frags(),
    {
        self.intro.push_front(content.to_owned());
        assert(self.intro_frags() =~= seq![content@] + old(self).intro_frags());
        proof { Self::lemma_ends_changed(*old(self), *self); }
    }

    /// Inserts `content` at `text_index`, on the left of the boundary, after what
    /// was inserted there before. At offset 0 it goes before everything.
    pub fn append_left<T: AssertIntoU32>(&mut self, text_index: T, content: &str) -> (r: Result<(), MagicStringError>)
        requires
            old(self).wf(),
        ensures
            final(self).wf(),
            final(self).src() == old(self).src(),
            final(self).source_view() == old(self).source_view(),
            final(self).file_name() == old(self).file_name(),
            match r {
                Err(e) => old(self).offset_error(text_index.offset_value()) == Some(e) && *final(self) == *old(self),
                Ok(_) => old(self).offset_error(text_index.offset_value()) is None && final(self).outro_frags() == old(self).outro_frags() && if text_index.offset_value() == 0 {
                    &&& final(self).pieces() == old(self).pieces()
                    &&& final(self).intro_frags() == old(self).intro_frags().push(content@)
                } else {
                    &&& final(self).intro_frags() == old(self).intro_frags()
                    &&& final(self).pieces() == update_ending_at(
                        split_pieces(old(self).pieces(), text_index.offset_value()),
                        text_index.offset_value(),
                        (|q: Piece| Piece { outro: q.outro.push(content@), ..q }),
                    )
                },
            },
    {
        let p = match self.check_offset(text_index) {
            Ok(p) => p,
            Err(e) => return Err(e),
        };
        if p == 0 {
            self.intro.push_back(content.to_owned());
            assert(self.intro_frags() =~= old(self).intro_frags().push(content@));
            proof { Self::lemma_ends_changed(*old(self), *self); }
        } else {
            let h = self.chunk_ending_at(p);
            let ghost mid = *self;
            proof { mid.lemma_piece_indices(h as int); }
            self.chunks[h].append_outro(content.to_owned());
            proof { Self::lemma_chunk_replaced(mid, *self, h as int); }
        }
        Ok(())
    }

    /// Inserts `content` at `text_index`, on the left of the boundary, before what
    /// was inserted there before. At offset 0 it goes before everything.
    pub fn prepend_left<T: AssertIntoU32>(&mut self, text_index: T, content: &str) -> (r: Result<(), MagicStringError>)
        requires
            old(self).wf(),
        ensures
            final(self).wf(),
            final(self).src() == old(self).src(),
            final(self).source_view() == old(self).source_view(),
            final(self).file_name() == old(self).file_name(),
            match r {
                Err(e) => old(self).offset_error(text_index.offset_value()) == Some(e) && *final(self) == *old(self),
                Ok(_) => old(self).offset_error(text_index.offset_value()) is None && final(self).outro_frags() == old(self).outro_frags() && if text_index.offset_value() == 0 {
                    &&& final(self).pieces() == old(self).pieces()
                    &&& final(self).intro_frags() == seq![content@] + old(self).intro_frags()
                } else {
                    &&& final(self).intro_frags() == old(self).intro_frags()
                    &&& final(self).pieces() == update_ending_at(
                        split_pieces(old(self).pieces(), text_index.offset_value()),
                        text_index.offset_value(),
                        (|q: Piece| Piece { outro: seq![content@] + q.outro, ..q }),
                    )
                },
            },
    {
        let p = match self.check_offset(text_index) {
            Ok(p) => p,
            Err(e) => return Err(e),
        };
        if p == 0 {
            self.intro.push_front(content.to_owned());
            assert(self.intro_frags() =~= seq![content@] + old(self).intro_frags());
            proof { Self::lemma_ends_changed(*old(self), *self); }
        } else {
            let h = self.chunk_ending_at(p);
            let ghost mid = *self;
            proof { mid.lemma_piece_indices(h as int); }
            self.chunks[h].prepend_outro(content.to_owned());
            proof { Self::lemma_chunk_replaced(mid, *self, h as int); }
        }
        Ok(())
    }

    /// Inserts `content` at `text_index`, on the right of the boundary, after what
    /// was inserted there before. At the end of the source it goes after everything.
    pub fn append_right<T: AssertIntoU32>(&mut self, text_index: T, content: &str) -> (r: Result<(), MagicStringError>)
        requires
            old(self).wf(),
        ensures
            final(self).wf(),
            final(self).src() == old(self).src(),
            final(self).source_view() == old(self).source_view(),
            final(self).file_name() == old(self).file_name(),
            match r {
                Err(e) => old(self).offset_error(text_index.offset_value()) == Some(e) && *final(self) == *old(self),
                Ok(_) => old(self).offset_error(text_index.offset_value()) is None && final(self).intro_frags() == old(self).intro_frags() && if text_index.offset_value() == old(self).source_length() {
                    &&& final(self).pieces() == old(self).pieces()
                    &&& final(self).outro_frags() == old(self).outro_frags().push(content@)
                } else {
                    &&& final(self).outro_frags() == old(self).outro_frags()
                    &&& final(self).pieces() == update_starting_at(
                        split_pieces(old(self).pieces(), text_index.offset_value()),
                        text_index.offset_value(),
                        (|q: Piece| Piece { intro: q.intro.push(content@), ..q }),
                    )
                },
            },
    {
        let p = match self.check_offset(text_index) {
            Ok(p) => p,
            Err(e) => return Err(e),
        };
        if p == self.source_len {
            self.outro.push_back(content.to_owned());
            assert(self.outro_frags() =~= old(self).outro_frags().push(content@));
            proof { Self::lemma_ends_changed(*old(self), *self); }
        } else {
            let h = self.chunk_starting_at(p);
            let ghost mid = *self;
            proof { mid.lemma_piece_indices(h as int); }
            self.chunks[h].append_intro(content.to_owned());
            proof { Self::lemma_chunk_replaced(mid, *self, h as int); }
        }
        Ok(())
    }

    /// Inserts `content` at `text_index`, on the right of the boundary, before what
    /// was inserted there before. At the end of the source it goes after everything.
    pub fn prepend_right<T: AssertIntoU32>(&mut self, text_index: T, content: &str) -> (r: Result<(), MagicStringError>)
        requires
            old(self).wf(),
        ensures
            final(self).wf(),
            final(self).src() == old(self).src(),
            final(self).source_view() == old(self).source_view(),
            final(self).file_name() == old(self).file_name(),
            match r {
                Err(e) => old(self).offset_error(text_index.offset_value()) == Some(e) && *final(self) == *old(self),
                Ok(_) => old(self).offset_error(text_index.offset_value()) is None && final(self).intro_frags() == old(self).intro_frags() && if text_index.offset_value() == old(self).source_length() {
                    &&& final(self).pieces() == old(self).pieces()
                    &&& final(self).outro_frags() == seq![content@] + old(self).outro_frags()
                } else {
                    &&& final(self).outro_frags() == old(self).outro_frags()
                    &&& final(self).pieces() == update_starting_at(
                        split_pieces(old(self).pieces(), text_index.offset_value()),
                        text_index.offset_value(),
                        (|q: Piece| Piece { intro: seq![content@] + q.intro, ..q }),
                    )
                },
            },
    {
        let p = match self.check_offset(text_index) {
            Ok(p) => p,
            Err(e) => return Err(e),
        };
        if p == self.source_len {
            self.outro.push_front(content.to_owned());
            assert(self.outro_frags() =~= seq![content@] + old(self).outro_frags());
            proof { Self::lemma_ends_changed(*old(self), *self); }
        } else {
            let h = self.chunk_starting_at(p);
            let ghost mid = *self;
            proof { mid.lemma_piece_indices(h as int); }
            self.chunks[h].prepend_intro(content.to_owned());
            proof { Self::lemma_chunk_replaced(mid, *self, h as int); }
        }
        Ok(())
    }

    /// A new document over `source`, refused where the source is longer than a
    /// `u32` offset can address.
    pub fn try_new(source: &str) -> (r: Result<MagicString, MagicStringError>)
        ensures
            match r {
                Ok(d) => source.spec_bytes().len() <= u32::MAX && d.wf() && d.source_view() == source@
                    && d.rendered() == source@ && d.file_name().is_none(),
                Err(e) => source.spec_bytes().len() > u32::MAX && e == MagicStringError::SourceTooLarge,
            },
    {
        let n = source.as_bytes().len();
        if n > u32::MAX as usize {
            Err(MagicStringError::SourceTooLarge)
        } else {
            Ok(MagicString::new(source))
        }
    }

    /// The length in bytes of the rendered text.
    pub fn len(&self) -> (r: usize)
        requires
            self.wf(),
        ensures
            r == bytes_of(self.rendered()).len() as usize,
    {
        let text = self.to_string();
        text.as_str().len()
    }

    /// The rendered text.
    pub fn to_string(&self) -> (r: String)
        requires
            self.wf(),
        ensures
            r@ == self.rendered(),
    {
        let mut ret = String::new();
        push_queue(&mut ret, &self.intro);
        let ghost n = self.chunks@.len() as int;
        let ghost src = self.src();
        let ghost ps = self.pieces();
        let mut cur: Option<usize> = Some(self.first_chunk_idx);
        let ghost mut k: int = 0;
        proof {
            assert(ps.take(0) =~= Seq::<Piece>::empty());
            assert(self.intro_frags() + pieces_fragments(ps.take(0), src) =~= self.intro_frags());
        }
        while cur.is_some()
            invariant
                self.wf(),
                n == self.chunks@.len(),
                src == self.src(),
                ps == self.pieces(),
                0 <= k <= n,
                k < n ==> cur == Some(self.order@[k]),
                k == n ==> cur.is_none(),
                ret@ == (self.intro_frags() + pieces_fragments(ps.take(k), src)).flatten(),
            decreases n - k,
        {
            let idx = cur.unwrap();
            proof {
                assert(self.chunk_ok(idx as int));
            }
            let chunk = &self.chunks[idx];
            let frags = chunk.fragments(self.source.as_str());
            push_fragments(&mut ret, &frags);
            cur = chunk.next;
            proof {
                let before = self.intro_frags() + pieces_fragments(ps.take(k), src);
                assert(ps[k] == chunk.piece());
                assert(ps.take(k + 1) =~= ps.take(k).push(ps[k]));
                lemma_pieces_fragments_push(ps.take(k), ps[k], src);
                assert(before + chunk.piece().fragments(src) =~= self.intro_frags() + pieces_fragments(ps.take(k + 1), src));
                lemma_flatten_concat(before, chunk.piece().fragments(src));
                k = k + 1;
            }
        }
        proof {
            assert(ps.take(k) =~= ps);
        }
        push_queue(&mut ret, &self.outro);
        proof {
            lemma_flatten_concat(self.intro_frags() + pieces_fragments(ps, src), self.outro_frags());
        }
        ret
    }
}

} // verus!
