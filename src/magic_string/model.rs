use vstd::prelude::*;

use crate::chunk::Piece;
use crate::span::lemma_text_of_split;
use vstd::seq_lib::lemma_flatten_concat;
use vstd::utf8::{is_char_boundary, valid_utf8};
use super::MagicStringError;

verus! {

/// The fragments that a run of pieces renders, in order.
pub open spec fn pieces_fragments(ps: Seq<Piece>, src: Seq<u8>) -> Seq<Seq<char>>
    decreases ps.len(),
{
    if ps.len() == 0 {
        Seq::empty()
    } else {
        pieces_fragments(ps.drop_last(), src) + ps.last().fragments(src)
    }
}

pub proof fn lemma_pieces_fragments_push(ps: Seq<Piece>, p: Piece, src: Seq<u8>)
    ensures
        pieces_fragments(ps.push(p), src) == pieces_fragments(ps, src) + p.fragments(src),
{
    assert(ps.push(p).drop_last() =~= ps);
}

pub proof fn lemma_pieces_fragments_concat(a: Seq<Piece>, b: Seq<Piece>, src: Seq<u8>)
    ensures
        pieces_fragments(a + b, src) == pieces_fragments(a, src) + pieces_fragments(b, src),
    decreases b.len(),
{
    if b.len() == 0 {
        assert(a + b =~= a);
        assert(pieces_fragments(b, src) =~= Seq::empty());
        assert(pieces_fragments(a, src) + pieces_fragments(b, src) =~= pieces_fragments(a, src));
    } else {
        assert((a + b).drop_last() =~= a + b.drop_last());
        assert((a + b).last() == b.last());
        lemma_pieces_fragments_concat(a, b.drop_last(), src);
        assert(pieces_fragments(a + b, src) =~= pieces_fragments(a, src) + pieces_fragments(b, src));
    }
}

/// Whether some piece lies strictly around `p`.
pub open spec fn cuts_inside(ps: Seq<Piece>, p: int) -> bool {
    exists|i: int| 0 <= i < ps.len() && #[trigger] ps[i].start < p < ps[i].end
}

/// The pieces after a cut at `p`: the piece strictly around `p`, if there is one,
/// becomes its left and right parts; otherwise nothing changes.
pub open spec fn split_pieces(ps: Seq<Piece>, p: int) -> Seq<Piece> {
    if cuts_inside(ps, p) {
        let i = choose|i: int| 0 <= i < ps.len() && #[trigger] ps[i].start < p < ps[i].end;
        ps.take(i) + seq![ps[i].left_of(p), ps[i].right_of(p)] + ps.skip(i + 1)
    } else {
        ps
    }
}

/// Pieces whose spans do not overlap.
pub open spec fn pieces_disjoint(ps: Seq<Piece>) -> bool {
    &&& forall|i: int| 0 <= i < ps.len() ==> #[trigger] ps[i].start <= ps[i].end
    &&& forall|i: int, j: int|
        0 <= i < ps.len() && 0 <= j < ps.len() && i != j ==> #[trigger] ps[i].end <= #[trigger] ps[j].start
            || ps[j].end <= ps[i].start
}

/// Cutting a partition twice at the same offset gives the partition that
/// cutting it once gives.
pub proof fn lemma_split_idempotent(ps: Seq<Piece>, p: int)
    requires
        pieces_disjoint(ps),
    ensures
        split_pieces(split_pieces(ps, p), p) == split_pieces(ps, p),
{
    if cuts_inside(ps, p) {
        let i = choose|i: int| 0 <= i < ps.len() && #[trigger] ps[i].start < p < ps[i].end;
        let q = split_pieces(ps, p);
        assert(q.len() == ps.len() + 1);
        if cuts_inside(q, p) {
            let j = choose|j: int| 0 <= j < q.len() && #[trigger] q[j].start < p < q[j].end;
            if j < i {
                assert(q[j] == ps[j]);
                assert(ps[j].end <= ps[i].start || ps[i].end <= ps[j].start);
            } else if j == i {
                assert(q[j] == ps[i].left_of(p));
            } else if j == i + 1 {
                assert(q[j] == ps[i].right_of(p));
            } else {
                assert(q[j] == ps[j - 1]);
                assert(ps[j - 1].end <= ps[i].start || ps[i].end <= ps[j - 1].start);
            }
        }
    }
}

/// Pieces that lie in `src` with their ends on character boundaries.
pub open spec fn pieces_in(ps: Seq<Piece>, src: Seq<u8>) -> bool {
    forall|i: int| 0 <= i < ps.len() ==> {
        &&& 0 <= #[trigger] ps[i].start <= ps[i].end <= src.len()
        &&& is_char_boundary(src, ps[i].start)
        &&& is_char_boundary(src, ps[i].end)
    }
}

/// Cutting a partition at a character boundary does not change the text
/// that it renders.
pub proof fn lemma_split_keeps_text(ps: Seq<Piece>, p: int, src: Seq<u8>)
    requires
        valid_utf8(src),
        pieces_in(ps, src),
        is_char_boundary(src, p),
        0 <= p <= src.len(),
    ensures
        pieces_fragments(split_pieces(ps, p), src).flatten() == pieces_fragments(ps, src).flatten(),
{
    if cuts_inside(ps, p) {
        let i = choose|i: int| 0 <= i < ps.len() && #[trigger] ps[i].start < p < ps[i].end;
        let x = ps[i];
        let a = ps.take(i);
        let b = ps.skip(i + 1);
        let l = x.left_of(p);
        let r = x.right_of(p);
        assert(ps =~= a + seq![x] + b);
        let q = a + seq![l, r] + b;
        assert(split_pieces(ps, p) == q);
        lemma_pieces_fragments_concat(a + seq![x], b, src);
        lemma_pieces_fragments_concat(a, seq![x], src);
        lemma_pieces_fragments_concat(a + seq![l, r], b, src);
        lemma_pieces_fragments_concat(a, seq![l, r], src);
        lemma_pieces_fragments_push(Seq::empty(), x, src);
        assert(seq![x] =~= Seq::<Piece>::empty().push(x));
        lemma_pieces_fragments_push(Seq::empty(), l, src);
        assert(seq![l] =~= Seq::<Piece>::empty().push(l));
        lemma_pieces_fragments_push(seq![l], r, src);
        assert(seq![l, r] =~= seq![l].push(r));
        assert(pieces_fragments(Seq::<Piece>::empty(), src) =~= Seq::<Seq<char>>::empty());
        let fx = pieces_fragments(seq![x], src);
        let flr = pieces_fragments(seq![l, r], src);
        assert(fx =~= x.intro + seq![x.content(src)] + x.outro);
        assert(flr =~= x.intro + seq![l.content(src)] + seq![r.content(src)] + x.outro);
        match x.edited {
            Some(e) => {
                assert(l.content(src) + r.content(src) =~= x.content(src));
            },
            None => {
                lemma_text_of_split(src, x.start, p, x.end);
                assert(l.content(src) + r.content(src) == x.content(src));
            },
        }
        lemma_flatten_concat(x.intro + seq![x.content(src)], x.outro);
        lemma_flatten_concat(x.intro, seq![x.content(src)]);
        lemma_flatten_concat(x.intro + seq![l.content(src)] + seq![r.content(src)], x.outro);
        lemma_flatten_concat(x.intro + seq![l.content(src)], seq![r.content(src)]);
        lemma_flatten_concat(x.intro, seq![l.content(src)]);
        seq![x.content(src)].lemma_flatten_singleton();
        seq![l.content(src)].lemma_flatten_singleton();
        seq![r.content(src)].lemma_flatten_singleton();
        assert(fx.flatten() =~= flr.flatten());
        let pa = pieces_fragments(a, src);
        let pb = pieces_fragments(b, src);
        lemma_flatten_concat(pa + fx, pb);
        lemma_flatten_concat(pa, fx);
        lemma_flatten_concat(pa + flr, pb);
        lemma_flatten_concat(pa, flr);
    }
}

/// The index of the piece that ends at `p`.
pub open spec fn index_ending_at(ps: Seq<Piece>, p: int) -> int {
    choose|j: int| 0 <= j < ps.len() && #[trigger] ps[j].end == p
}

/// The index of the piece that starts at `p`.
pub open spec fn index_starting_at(ps: Seq<Piece>, p: int) -> int {
    choose|j: int| 0 <= j < ps.len() && #[trigger] ps[j].start == p
}

/// `ps` with `f` applied to the piece that ends at `p`.
pub open spec fn update_ending_at(ps: Seq<Piece>, p: int, f: spec_fn(Piece) -> Piece) -> Seq<Piece> {
    let j = index_ending_at(ps, p);
    ps.update(j, f(ps[j]))
}

/// `ps` with `f` applied to the piece that starts at `p`.
pub open spec fn update_starting_at(ps: Seq<Piece>, p: int, f: spec_fn(Piece) -> Piece) -> Seq<Piece> {
    let j = index_starting_at(ps, p);
    ps.update(j, f(ps[j]))
}

/// What an edit of `[start, end)` to `content` does to one piece: the piece at
/// `start` takes the content, the others inside the range render nothing, and
/// `overwrite` also drops what was inserted around them.
pub open spec fn edited_piece(
    q: Piece,
    start: int,
    end: int,
    content: Seq<char>,
    overwrite: bool,
    store_name: bool,
) -> Piece {
    if start <= q.start < end {
        Piece {
            intro: if overwrite { Seq::empty() } else { q.intro },
            outro: if overwrite { Seq::empty() } else { q.outro },
            edited: Some(if q.start == start { content } else { Seq::empty() }),
            store_name: q.start == start && store_name,
            ..q
        }
    } else {
        q
    }
}

/// Each piece after an edit of `[start, end)` to `content`.
pub open spec fn edit_range(
    ps: Seq<Piece>,
    start: int,
    end: int,
    content: Seq<char>,
    overwrite: bool,
    store_name: bool,
) -> Seq<Piece> {
    Seq::new(ps.len(), |i: int| edited_piece(ps[i], start, end, content, overwrite, store_name))
}

/// Where the piece at position `i` comes from when the run of positions
/// `[a, b]` moves to stand before position `t` (at the end when `t` is the
/// length): positions outside the run and its destination keep their place.
pub open spec fn moved_source(i: int, a: int, b: int, t: int) -> int {
    let run = b - a + 1;
    if t < a {
        if i < t {
            i
        } else if i < t + run {
            a + (i - t)
        } else if i <= b {
            i - run
        } else {
            i
        }
    } else if t > b + 1 {
        if i < a {
            i
        } else if i < t - run {
            i + run
        } else if i < t {
            a + (i - (t - run))
        } else {
            i
        }
    } else {
        i
    }
}

/// The position that the piece at position `p` takes in the same move.
pub open spec fn moved_target(p: int, a: int, b: int, t: int) -> int {
    let run = b - a + 1;
    if t < a {
        if p < t {
            p
        } else if a <= p <= b {
            t + (p - a)
        } else if p < a {
            p + run
        } else {
            p
        }
    } else if t > b + 1 {
        if p < a {
            p
        } else if a <= p <= b {
            (t - run) + (p - a)
        } else if p < t {
            p - run
        } else {
            p
        }
    } else {
        p
    }
}

/// The pieces after the run of positions `[a, b]` moves before position `t`.
pub open spec fn move_run(ps: Seq<Piece>, a: int, b: int, t: int) -> Seq<Piece> {
    Seq::new(ps.len(), |i: int| ps[moved_source(i, a, b, t)])
}

/// What a relocation of `[start, end)` to `to` does to pieces that already have
/// boundaries at the three offsets: the run of pieces from the one that starts at
/// `start` to the one that ends at `end` moves before the piece that starts at
/// `to`, or to the end where `to` is the source's length. It is refused where the
/// run is not in order, and where the destination lies inside the run.
pub open spec fn relocated(ps: Seq<Piece>, start: int, end: int, to: int, len: int) -> Result<
    Seq<Piece>,
    MagicStringError,
> {
    let a = index_starting_at(ps, start);
    let b = index_ending_at(ps, end);
    let t = if to == len { ps.len() as int } else { index_starting_at(ps, to) };
    if a > b {
        Err(MagicStringError::InvalidRange)
    } else if a < t <= b {
        Err(MagicStringError::RelocateIntoSelf)
    } else {
        Ok(move_run(ps, a, b, t))
    }
}

} // verus!
