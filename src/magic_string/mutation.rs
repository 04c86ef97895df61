use vstd::prelude::*;
use vstd::utf8::*;

use super::model::{
    edit_range, edited_piece, move_run, moved_source, moved_target,
    relocated, split_pieces,
};
use super::{MagicString, MagicStringError};
use crate::basic_types::AssertIntoU32;
use crate::chunk::{Chunk, Piece};
use crate::offset_index::index_get;

verus! {

/// How `update_with` edits a range.
#[derive(Debug, Default, Clone, Copy)]
pub struct UpdateOptions {
    /// Keep the original text of the range as a name in the source map.
    pub keep_original: bool,
    /// Also drop what was inserted before and after the chunks of the range.
    pub overwrite: bool,
}

/// Two chunks with the same span and the same links.
spec fn same_place(c: Chunk, d: Chunk) -> bool {
    c.span == d.span && c.next == d.next && c.prev == d.prev
}

impl MagicString {
    /// The chunks after relinking the run of positions `[a, b]` before position
    /// `t` form a well-formed document whose pieces are the moved ones.
    #[verifier::rlimit(100)]
    proof fn lemma_relinked(x: MagicString, y: MagicString, a: int, b: int, t: int)
        requires
            x.wf(),
            0 <= a <= b < x.chunks@.len(),
            0 <= t <= x.chunks@.len(),
            t < a || t > b + 1,
            y.chunks@.len() == x.chunks@.len(),
            y.source == x.source,
            y.source_len == x.source_len,
            y.chunk_by_start == x.chunk_by_start,
            y.chunk_by_end == x.chunk_by_end,
            y.order@ == Seq::new(x.order@.len(), |i: int| x.order@[moved_source(i, a, b, t)]),
            y.pos@ == Seq::new(x.pos@.len(), |h: int| moved_target(x.pos@[h], a, b, t)),
            y.first_chunk_idx == (if t == 0 { x.order@[a] } else if a == 0 { x.order@[b + 1] } else { x.first_chunk_idx }),
            y.last_chunk_idx == (if t == x.chunks@.len() { x.order@[b] } else if b == x.chunks@.len() - 1 { x.order@[a - 1] } else { x.last_chunk_idx }),
            forall|h: int| 0 <= h < x.chunks@.len() ==> {
                let o = x.order@;
                let n = x.chunks@.len() as int;
                &&& #[trigger] y.chunks@[h].piece() == x.chunks@[h].piece()
                &&& y.chunks@[h].span == x.chunks@[h].span
                &&& y.chunks@[h].next == if h == o[b] as int {
                    if t < n { Some(o[t]) } else { None }
                } else if a > 0 && h == o[a - 1] as int {
                    if b + 1 < n { Some(o[b + 1]) } else { None }
                } else if t > 0 && h == o[t - 1] as int {
                    Some(o[a])
                } else {
                    x.chunks@[h].next
                }
                &&& y.chunks@[h].prev == if h == o[a] as int {
                    if t > 0 { Some(o[t - 1]) } else { None }
                } else if b + 1 < n && h == o[b + 1] as int {
                    if a > 0 { Some(o[a - 1]) } else { None }
                } else if t < n && h == o[t] as int {
                    Some(o[b])
                } else {
                    x.chunks@[h].prev
                }
            },
        ensures
            y.wf(),
            y.pieces() == move_run(x.pieces(), a, b, t),
    {
        let n = x.chunks@.len() as int;
        let o = x.order@;
        let no = y.order@;
        assert(y.src() == x.src());
        assert forall|i: int| 0 <= i < n implies 0 <= #[trigger] moved_source(i, a, b, t) < n
            && moved_target(moved_source(i, a, b, t), a, b, t) == i by {}
        assert forall|p: int| 0 <= p < n implies 0 <= #[trigger] moved_target(p, a, b, t) < n
            && moved_source(moved_target(p, a, b, t), a, b, t) == p by {}
        assert forall|i: int| 0 <= i < n implies 0 <= #[trigger] no[i] < n && y.pos@[no[i] as int] == i by {
            let j = moved_source(i, a, b, t);
            assert(x.pos@[o[j] as int] == j);
        }
        assert forall|h: int| 0 <= h < n implies 0 <= #[trigger] y.pos@[h] < n && no[y.pos@[h]] == h by {
            let p = x.pos@[h];
            assert(o[p] == h);
        }
        assert forall|i: int| 0 <= i < n - 1 implies #[trigger] y.chunks@[no[i] as int].next == Some(no[i + 1]) by {
            let j = moved_source(i, a, b, t);
            let h = o[j] as int;
            assert(x.pos@[h] == j);
            assert(y.chunks@[h].piece() == x.chunks@[h].piece());
            if b + 1 < n { assert(x.pos@[o[b + 1] as int] == b + 1); }
            if a > 0 { assert(x.pos@[o[a - 1] as int] == a - 1); }
            if t > 0 { assert(x.pos@[o[t - 1] as int] == t - 1); }
            assert(x.pos@[o[b] as int] == b);
            if j < n - 1 {
                assert(x.chunks@[o[j] as int].next == Some(o[j + 1]));
            }
        }
        assert forall|i: int| 0 < i < n implies #[trigger] y.chunks@[no[i] as int].prev == Some(no[i - 1]) by {
            let j = moved_source(i, a, b, t);
            let h = o[j] as int;
            assert(x.pos@[h] == j);
            assert(y.chunks@[h].piece() == x.chunks@[h].piece());
            if b + 1 < n { assert(x.pos@[o[b + 1] as int] == b + 1); }
            if t < n { assert(x.pos@[o[t] as int] == t); }
            assert(x.pos@[o[a] as int] == a);
            if j > 0 {
                assert(x.chunks@[o[j] as int].prev == Some(o[j - 1]));
            }
        }
        assert(no[0] == o[moved_source(0, a, b, t)]);
        assert(no[n - 1] == o[moved_source(n - 1, a, b, t)]);
        assert(x.chunks@[o[n - 1] as int].next.is_none());
        assert(x.chunks@[o[0] as int].prev.is_none());
        if n - 1 != b && !(a > 0 && n - 1 == a - 1) && !(t > 0 && n - 1 == t - 1) {
            assert(moved_source(n - 1, a, b, t) == n - 1);
        }
        assert(y.chunks@[no[n - 1] as int].next.is_none()) by {
            assert(y.chunks@[no[n - 1] as int].piece() == x.chunks@[no[n - 1] as int].piece());
            assert(x.pos@[o[b] as int] == b);
            if a > 0 { assert(x.pos@[o[a - 1] as int] == a - 1); }
            if t > 0 { assert(x.pos@[o[t - 1] as int] == t - 1); }
            assert(x.pos@[o[n - 1] as int] == n - 1);
        }
        assert(y.chunks@[no[0] as int].prev.is_none()) by {
            assert(y.chunks@[no[0] as int].piece() == x.chunks@[no[0] as int].piece());
            assert(x.pos@[o[a] as int] == a);
            if b + 1 < n { assert(x.pos@[o[b + 1] as int] == b + 1); }
            if t < n { assert(x.pos@[o[t] as int] == t); }
            assert(x.pos@[o[0] as int] == 0);
        }
        assert(y.links_ok());
        assert forall|g: int| 0 <= g < n implies #[trigger] y.chunk_ok(g) by {
            assert(x.chunk_ok(g));
            assert(y.chunks@[g].piece() == x.chunks@[g].piece());
        }
        assert forall|k: u32| #[trigger] y.chunk_by_start@.contains_key(k) implies
            y.chunk_by_start@[k] < n && y.chunks@[y.chunk_by_start@[k] as int].span.0 == k by {
            let h = x.chunk_by_start@[k] as int;
            assert(y.chunks@[h].piece() == x.chunks@[h].piece());
        }
        assert forall|k: u32| #[trigger] y.chunk_by_end@.contains_key(k) implies
            y.chunk_by_end@[k] < n && y.chunks@[y.chunk_by_end@[k] as int].span.1 == k by {
            let h = x.chunk_by_end@[k] as int;
            assert(y.chunks@[h].piece() == x.chunks@[h].piece());
        }
        assert(y.index_ok());
        assert forall|h1: int, h2: int|
            0 <= h1 < n && 0 <= h2 < n && h1 != h2 implies
                #[trigger] y.chunks@[h1].span.1 <= #[trigger] y.chunks@[h2].span.0
                || y.chunks@[h2].span.1 <= y.chunks@[h1].span.0 by {
            assert(y.chunks@[h1].piece() == x.chunks@[h1].piece());
            assert(y.chunks@[h2].piece() == x.chunks@[h2].piece());
            assert(x.chunks@[h1].span.1 <= x.chunks@[h2].span.0 || x.chunks@[h2].span.1 <= x.chunks@[h1].span.0);
        }
        assert forall|i: int| 0 <= i < n implies #[trigger] y.pieces()[i] == move_run(x.pieces(), a, b, t)[i] by {
            let h = no[i] as int;
            assert(y.chunks@[h].piece() == x.chunks@[h].piece());
        }
        assert(y.pieces() =~= move_run(x.pieces(), a, b, t));
    }

    /// What is wrong with `[start, end)` as a range to edit, if anything.
    pub open spec fn range_error(&self, start: int, end: int) -> Option<MagicStringError> {
        if self.offset_error(start) is Some {
            self.offset_error(start)
        } else if self.offset_error(end) is Some {
            self.offset_error(end)
        } else if start >= end {
            Some(MagicStringError::InvalidRange)
        } else {
            None
        }
    }

    /// Edits the chunks of `[start, end)`, which are boundaries of the document:
    /// the first takes `content`, the others are emptied.
    #[verifier::rlimit(60)]
    fn edit_chunks(&mut self, start: u32, end: u32, content: String, opts: UpdateOptions)
        requires
            old(self).wf(),
            start < end <= old(self).source_len,
            old(self).chunk_by_start@.contains_key(start),
            old(self).chunk_by_end@.contains_key(end),
        ensures
            final(self).wf(),
            final(self).source == old(self).source,
            final(self).source_len == old(self).source_len,
            final(self).filename == old(self).filename,
            final(self).intro@ == old(self).intro@,
            final(self).outro@ == old(self).outro@,
            final(self).pieces() == edit_range(
                old(self).pieces(),
                start as int,
                end as int,
                content@,
                opts.overwrite,
                opts.keep_original,
            ),
    {
        let ghost mid = *self;
        let ghost n = self.chunks@.len() as int;
        let mut idx = index_get(&self.chunk_by_start, start).unwrap();
        proof {
            assert(mid.chunk_ok(idx as int));
        }
        self.chunks[idx].edit(content, opts.overwrite, opts.keep_original);
        proof {
            MagicString::lemma_chunk_replaced(mid, *self, idx as int);
        }
        let mut c_end = self.chunks[idx].end();
        proof {
            let ge = mid.chunk_by_end@[end] as int;
            assert(mid.chunk_ok(ge));
            if c_end > end {
                assert(ge != idx);
                assert(mid.chunks@[ge].span.1 <= mid.chunks@[idx as int].span.0 || mid.chunks@[idx as int].span.1 <= mid.chunks@[ge].span.0);
            }
            assert forall|h: int| 0 <= h < n implies #[trigger] self.chunks@[h].piece() == if start <= mid.chunks@[h].span.0 < c_end {
                edited_piece(mid.chunks@[h].piece(), start as int, end as int, content@, opts.overwrite, opts.keep_original)
            } else {
                mid.chunks@[h].piece()
            } by {
                if h != idx && start <= mid.chunks@[h].span.0 < c_end {
                    assert(mid.chunk_ok(h));
                    assert(mid.chunks@[h].span.1 <= mid.chunks@[idx as int].span.0 || mid.chunks@[idx as int].span.1 <= mid.chunks@[h].span.0);
                }
            }
        }
        while c_end != end
            invariant
                self.wf(),
                n == self.chunks@.len(),
                start < end <= self.source_len,
                mid.wf(),
                mid.chunks@.len() == n,
                mid.chunk_by_start@.contains_key(start),
                mid.chunk_by_end@.contains_key(end),
                self.source == mid.source,
                self.source_len == mid.source_len,
                self.filename == mid.filename,
                self.intro@ == mid.intro@,
                self.outro@ == mid.outro@,
                self.first_chunk_idx == mid.first_chunk_idx,
                self.last_chunk_idx == mid.last_chunk_idx,
                self.chunk_by_start == mid.chunk_by_start,
                self.chunk_by_end == mid.chunk_by_end,
                self.order == mid.order,
                self.pos == mid.pos,
                start < c_end <= end,
                mid.chunk_by_end@.contains_key(c_end),
                forall|h: int| 0 <= h < n ==> same_place(#[trigger] self.chunks@[h], mid.chunks@[h]),
                forall|h: int| 0 <= h < n ==> #[trigger] self.chunks@[h].piece() == if start <= mid.chunks@[h].span.0 < c_end {
                    edited_piece(mid.chunks@[h].piece(), start as int, end as int, content@, opts.overwrite, opts.keep_original)
                } else {
                    mid.chunks@[h].piece()
                },
            decreases end - c_end,
        {
            proof {
                let g = mid.chunk_by_end@[c_end] as int;
                assert(mid.chunk_ok(g));
                let ge = mid.chunk_by_end@[end] as int;
                assert(mid.chunk_ok(ge));
            }
            let next = index_get(&self.chunk_by_start, c_end).unwrap();
            let ghost before = *self;
            proof {
                assert(mid.chunk_ok(next as int));
                assert(same_place(self.chunks@[next as int], mid.chunks@[next as int]));
                assert(!(start <= mid.chunks@[next as int].span.0 < c_end));
            }
            self.chunks[next].edit(String::new(), opts.overwrite, false);
            proof {
                MagicString::lemma_chunk_replaced(before, *self, next as int);
            }
            let new_end = self.chunks[next].end();
            proof {
                // the next chunk ends at or before `end`
                let ge = mid.chunk_by_end@[end] as int;
                assert(mid.chunk_ok(ge));
                if new_end > end {
                    assert(ge != next);
                    assert(mid.chunks@[ge].span.1 <= mid.chunks@[next as int].span.0 || mid.chunks@[next as int].span.1 <= mid.chunks@[ge].span.0);
                }
                assert forall|h: int| 0 <= h < n implies #[trigger] self.chunks@[h].piece() == if start <= mid.chunks@[h].span.0 < new_end {
                    edited_piece(mid.chunks@[h].piece(), start as int, end as int, content@, opts.overwrite, opts.keep_original)
                } else {
                    mid.chunks@[h].piece()
                } by {
                    if h != next && c_end <= mid.chunks@[h].span.0 < new_end {
                        assert(mid.chunk_ok(h));
                        assert(mid.chunks@[h].span.1 <= mid.chunks@[next as int].span.0 || mid.chunks@[next as int].span.1 <= mid.chunks@[h].span.0);
                    }
                }
                assert forall|h: int| 0 <= h < n implies same_place(#[trigger] self.chunks@[h], mid.chunks@[h]) by {
                    assert(same_place(before.chunks@[h], mid.chunks@[h]));
                    if h == next as int {
                        assert(self.chunks@[h].piece().start == before.chunks@[h].piece().start);
                        assert(self.chunks@[h].piece().end == before.chunks@[h].piece().end);
                        assert(self.chunks@[h].next == before.chunks@[h].next);
                        assert(self.chunks@[h].prev == before.chunks@[h].prev);
                    } else {
                        assert(self.chunks@[h] == before.chunks@[h]);
                    }
                }
            }
            c_end = new_end;
        }
        proof {
            let ps = mid.pieces();
            let expect = edit_range(ps, start as int, end as int, content@, opts.overwrite, opts.keep_original);
            assert forall|i: int| 0 <= i < n implies #[trigger] self.pieces()[i] == expect[i] by {
                let h = mid.order@[i] as int;
                assert(mid.chunk_ok(h));
                if start <= mid.chunks@[h].span.0 < end {
                    if mid.chunks@[h].span.0 >= c_end {
                        assert(false);
                    }
                }
            }
            assert(self.pieces() =~= expect);
        }
    }

    /// What is wrong with moving `[start, end)` to `to`, if anything, before the
    /// chunks are looked at.
    pub open spec fn relocate_error(&self, start: int, end: int, to: int) -> Option<MagicStringError> {
        if 0 <= start && end <= u32::MAX && start <= to <= end {
            Some(MagicStringError::RelocateIntoSelf)
        } else if self.range_error(start, end) is Some {
            self.range_error(start, end)
        } else {
            self.offset_error(to)
        }
    }

    /// Checks an offset that was read as `u32`, if it could be.
    fn offset_check(&self, p: Option<u32>) -> (r: Result<u32, MagicStringError>)
        requires
            self.wf(),
        ensures
            match p {
                None => r == Err::<u32, MagicStringError>(MagicStringError::OffsetOutOfBounds),
                Some(v) => match r {
                    Ok(x) => x == v && self.offset_error(v as int) is None,
                    Err(e) => self.offset_error(v as int) == Some(e),
                },
            },
    {
        let p = match p {
            Some(p) => p,
            None => return Err(MagicStringError::OffsetOutOfBounds),
        };
        if p > self.source_len {
            return Err(MagicStringError::OffsetOutOfBounds);
        }
        if !self.source.as_str().is_char_boundary(p as usize) {
            return Err(MagicStringError::NonCharBoundary);
        }
        Ok(p)
    }

    /// The link position of the destination: that of `new_right`, or the end.
    closed spec fn dest_position(&self, new_right: Option<usize>) -> int {
        match new_right {
            Some(r) => self.pos@[r as int],
            None => self.chunks@.len() as int,
        }
    }

    /// Follows the links from `first` to `last`, and tells whether they form a
    /// run in order that does not hold the destination `new_right`.
    fn check_run(&self, first: usize, last: usize, new_right: Option<usize>) -> (r: Result<(), MagicStringError>)
        requires
            self.wf(),
            first < self.chunks@.len(),
            last < self.chunks@.len(),
            new_right matches Some(x) ==> x < self.chunks@.len(),
            self.dest_position(new_right) != self.pos@[first as int],
        ensures
            ({
                let a = self.pos@[first as int];
                let b = self.pos@[last as int];
                let t = self.dest_position(new_right);
                r == if a > b {
                    Err::<(), MagicStringError>(MagicStringError::InvalidRange)
                } else if a < t <= b {
                    Err::<(), MagicStringError>(MagicStringError::RelocateIntoSelf)
                } else {
                    Ok::<(), MagicStringError>(())
                }
            }),
    {
        let ghost n = self.chunks@.len() as int;
        let ghost o = self.order@;
        let ghost a = self.pos@[first as int];
        let ghost tt = self.dest_position(new_right);
        proof {
            assert(0 <= self.pos@[first as int] < n);
            assert(o[a] == first);
            match new_right {
                Some(x) => {
                    assert(0 <= self.pos@[x as int] < n);
                    assert(o[tt] == x);
                },
                None => {},
            }
        }
        let mut cur = first;
        let mut hit = false;
        let ghost mut k: int = 0;
        while cur != last
            invariant
                self.wf(),
                n == self.chunks@.len(),
                o == self.order@,
                a == self.pos@[first as int],
                tt == self.dest_position(new_right),
                0 <= a < n,
                0 <= a + k < n,
                cur == o[a + k],
                last < n,
                forall|j: int| a <= j < a + k ==> #[trigger] o[j] != last,
                hit == (a < tt <= a + k),
                k >= 0,
                0 <= tt <= n,
                tt != a,
                new_right == (if tt < n { Some(o[tt]) } else { None::<usize> }),
            decreases n - (a + k),
        {
            proof {
                assert(self.links_ok());
            }
            match self.chunks[cur].next {
                None => {
                    proof {
                        if a + k < n - 1 {
                            assert(self.chunks@[o[a + k] as int].next == Some(o[a + k + 1]));
                        }
                        let b = self.pos@[last as int];
                        assert(0 <= b < n);
                        assert(o[b] == last);
                        assert(a + k == n - 1);
                        assert(b < a);
                    }
                    return Err(MagicStringError::InvalidRange);
                },
                Some(nx) => {
                    proof {
                        if a + k == n - 1 {
                            assert(self.chunks@[o[n - 1] as int].next.is_none());
                        }
                        assert(self.chunks@[o[a + k] as int].next == Some(o[a + k + 1]));
                        assert(a + k + 1 < n);
                        if tt < n {
                            assert(self.pos@[o[tt] as int] == tt);
                            assert(self.pos@[o[a + k + 1] as int] == a + k + 1);
                            assert(new_right == Some(o[tt]));
                            assert((o[tt] == nx) == (tt == a + k + 1));
                        } else {
                            assert(new_right.is_none());
                            assert(tt != a + k + 1);
                        }
                    }
                    match new_right {
                        Some(x) => {
                            if x == nx {
                                hit = true;
                            }
                        },
                        None => {},
                    }
                    cur = nx;
                    proof {
                        k = k + 1;
                    }
                },
            }
        }
        proof {
            assert(self.pos@[last as int] == a + k);
        }
        if hit {
            return Err(MagicStringError::RelocateIntoSelf);
        }
        Ok(())
    }

    /// Relinks the run of chunks from `first` to `last` before `new_right`, or at
    /// the end where there is none.
    #[verifier::rlimit(60)]
    fn move_run_before(&mut self, first: usize, last: usize, new_right: Option<usize>)
        requires
            old(self).wf(),
            first < old(self).chunks@.len(),
            last < old(self).chunks@.len(),
            new_right matches Some(x) ==> x < old(self).chunks@.len(),
            old(self).pos@[first as int] <= old(self).pos@[last as int],
            ({
                let t = old(self).dest_position(new_right);
                !(old(self).pos@[first as int] <= t <= old(self).pos@[last as int])
            }),
        ensures
            final(self).wf(),
            final(self).source == old(self).source,
            final(self).source_len == old(self).source_len,
            final(self).filename == old(self).filename,
            final(self).intro@ == old(self).intro@,
            final(self).outro@ == old(self).outro@,
            final(self).pieces() == move_run(
                old(self).pieces(),
                old(self).pos@[first as int],
                old(self).pos@[last as int],
                old(self).dest_position(new_right),
            ),
    {
        let ghost x = *self;
        let ghost n = self.chunks@.len() as int;
        let ghost o = self.order@;
        let ghost a = self.pos@[first as int];
        let ghost b = self.pos@[last as int];
        let ghost tt = self.dest_position(new_right);
        proof {
            assert(self.links_ok());
            assert(0 <= a < n && 0 <= b < n);
            assert(o[a] == first && o[b] == last);
            match new_right {
                Some(r) => {
                    assert(0 <= self.pos@[r as int] < n);
                    assert(o[tt] == r);
                },
                None => {},
            }
            if b + 1 < n {
                assert(self.chunks@[o[b] as int].next == Some(o[b + 1]));
            }
        }
        if self.chunks[last].next == new_right {
            proof {
                if tt < n {
                    assert(self.pos@[o[tt] as int] == tt);
                    if b + 1 < n {
                        assert(self.pos@[o[b + 1] as int] == b + 1);
                    }
                }
                assert(tt == b + 1);
                assert(move_run(x.pieces(), a, b, tt) =~= x.pieces());
            }
            return;
        }
        proof {
            if tt < n && b + 1 < n {
                assert(self.pos@[o[tt] as int] == tt);
                assert(self.pos@[o[b + 1] as int] == b + 1);
            }
            assert(tt < a || tt > b + 1);
            if a > 0 {
                assert(self.chunks@[o[a] as int].prev == Some(o[a - 1]));
            }
            if tt > 0 && tt < n {
                assert(self.chunks@[o[tt] as int].prev == Some(o[tt - 1]));
            }
        }
        let old_left = self.chunks[first].prev;
        let old_right = self.chunks[last].next;
        let new_left = match new_right {
            Some(r) => self.chunks[r].prev,
            None => Some(self.last_chunk_idx),
        };
        if let Some(l) = old_left {
            self.chunks[l].next = old_right;
        }
        if let Some(r) = old_right {
            self.chunks[r].prev = old_left;
        }
        if let Some(l) = new_left {
            self.chunks[l].next = Some(first);
        }
        if let Some(r) = new_right {
            self.chunks[r].prev = Some(last);
        }
        self.chunks[first].prev = new_left;
        self.chunks[last].next = new_right;
        if old_left.is_none() {
            self.first_chunk_idx = old_right.unwrap();
        }
        if old_right.is_none() {
            self.last_chunk_idx = old_left.unwrap();
        }
        if new_left.is_none() {
            self.first_chunk_idx = first;
        }
        if new_right.is_none() {
            self.last_chunk_idx = last;
        }
        self.order = Ghost(Seq::new(n as nat, |i: int| o[moved_source(i, a, b, tt)]));
        self.pos = Ghost(Seq::new(n as nat, |h: int| moved_target(x.pos@[h], a, b, tt)));
        proof {
            assert(x.pos@[o[b] as int] == b);
            assert(x.pos@[o[a] as int] == a);
            if a > 0 { assert(x.pos@[o[a - 1] as int] == a - 1); }
            if tt > 0 { assert(x.pos@[o[tt - 1] as int] == tt - 1); }
            if b + 1 < n { assert(x.pos@[o[b + 1] as int] == b + 1); }
            if tt < n { assert(x.pos@[o[tt] as int] == tt); }
            assert forall|h: int| 0 <= h < n implies {
                &&& #[trigger] self.chunks@[h].piece() == x.chunks@[h].piece()
                &&& self.chunks@[h].span == x.chunks@[h].span
                &&& self.chunks@[h].next == if h == o[b] as int {
                    if tt < n { Some(o[tt]) } else { None }
                } else if a > 0 && h == o[a - 1] as int {
                    if b + 1 < n { Some(o[b + 1]) } else { None }
                } else if tt > 0 && h == o[tt - 1] as int {
                    Some(o[a])
                } else {
                    x.chunks@[h].next
                }
                &&& self.chunks@[h].prev == if h == o[a] as int {
                    if tt > 0 { Some(o[tt - 1]) } else { None }
                } else if b + 1 < n && h == o[b + 1] as int {
                    if a > 0 { Some(o[a - 1]) } else { None }
                } else if tt < n && h == o[tt] as int {
                    Some(o[b])
                } else {
                    x.chunks@[h].prev
                }
            } by {}
            Self::lemma_relinked(x, *self, a, b, tt);
        }
    }

    /// Moves the chunks of `[start, end)`, with what was inserted around them, to
    /// `to`: before the chunk that starts there, or to the end where `to` is the
    /// length of the source.
    pub fn relocate<S: AssertIntoU32, E: AssertIntoU32, T: AssertIntoU32>(
        &mut self,
        start: S,
        end: E,
        to: T,
    ) -> (r: Result<(), MagicStringError>)
        requires
            old(self).wf(),
        ensures
            final(self).wf(),
            final(self).src() == old(self).src(),
            final(self).source_view() == old(self).source_view(),
            final(self).file_name() == old(self).file_name(),
            final(self).intro_frags() == old(self).intro_frags(),
            final(self).outro_frags() == old(self).outro_frags(),
            ({
                let (s, e, t) = (start.offset_value(), end.offset_value(), to.offset_value());
                let cut = split_pieces(split_pieces(split_pieces(old(self).pieces(), s), e), t);
                match r {
                    Ok(_) => old(self).relocate_error(s, e, t) is None
                        && relocated(cut, s, e, t, old(self).source_length()) == Ok::<Seq<Piece>, MagicStringError>(final(self).pieces()),
                    Err(err) => if old(self).relocate_error(s, e, t) is Some {
                        old(self).relocate_error(s, e, t) == Some(err) && *final(self) == *old(self)
                    } else {
                        relocated(cut, s, e, t, old(self).source_length()) == Err::<Seq<Piece>, MagicStringError>(err)
                            && final(self).pieces() == cut
                    },
                }
            }),
    {
        let so = start.assert_into_u32();
        let eo = end.assert_into_u32();
        let too = to.assert_into_u32();
        match (so, eo, too) {
            (Some(s), Some(e), Some(t)) => {
                if s <= t && t <= e {
                    return Err(MagicStringError::RelocateIntoSelf);
                }
            },
            _ => {},
        }
        let s = match self.offset_check(so) {
            Ok(s) => s,
            Err(err) => return Err(err),
        };
        let e = match self.offset_check(eo) {
            Ok(e) => e,
            Err(err) => return Err(err),
        };
        if s >= e {
            return Err(MagicStringError::InvalidRange);
        }
        let t = match self.offset_check(too) {
            Ok(t) => t,
            Err(err) => return Err(err),
        };
        self.split_at(s);
        self.split_at(e);
        self.split_at(t);
        let first = index_get(&self.chunk_by_start, s).unwrap();
        let last = index_get(&self.chunk_by_end, e).unwrap();
        let new_right: Option<usize> = if t == self.source_len {
            None
        } else {
            Some(index_get(&self.chunk_by_start, t).unwrap())
        };
        proof {
            let ps = self.pieces();
            self.lemma_piece_indices(first as int);
            self.lemma_piece_indices(last as int);
            assert(self.chunk_ok(first as int));
            assert(self.chunk_ok(last as int));
            match new_right {
                Some(r) => {
                    self.lemma_piece_indices(r as int);
                    assert(self.chunk_ok(r as int));
                    assert(r != first);
                    assert(self.order@[self.pos@[r as int]] == r);
                    assert(self.order@[self.pos@[first as int]] == first);
                },
                None => {
                    assert(0 <= self.pos@[first as int] < self.chunks@.len());
                },
            }
        }
        match self.check_run(first, last, new_right) {
            Err(err) => return Err(err),
            Ok(()) => {},
        }
        self.move_run_before(first, last, new_right);
        Ok(())
    }

    /// Replaces `[start, end)` by `content`, as `options` say.
    pub fn update_with<S: AssertIntoU32, E: AssertIntoU32>(
        &mut self,
        start: S,
        end: E,
        content: &str,
        options: UpdateOptions,
    ) -> (r: Result<(), MagicStringError>)
        requires
            old(self).wf(),
        ensures
            final(self).wf(),
            final(self).src() == old(self).src(),
            final(self).source_view() == old(self).source_view(),
            final(self).file_name() == old(self).file_name(),
            final(self).intro_frags() == old(self).intro_frags(),
            final(self).outro_frags() == old(self).outro_frags(),
            match r {
                Err(e) => old(self).range_error(start.offset_value(), end.offset_value()) == Some(e)
                    && *final(self) == *old(self),
                Ok(_) => old(self).range_error(start.offset_value(), end.offset_value()) is None
                    && final(self).pieces() == edit_range(
                        split_pieces(split_pieces(old(self).pieces(), start.offset_value()), end.offset_value()),
                        start.offset_value(),
                        end.offset_value(),
                        content@,
                        options.overwrite,
                        options.keep_original,
                    ),
            },
    {
        let s = match self.check_offset(start) {
            Ok(s) => s,
            Err(e) => return Err(e),
        };
        let e = match self.check_offset(end) {
            Ok(e) => e,
            Err(err) => return Err(err),
        };
        if s >= e {
            return Err(MagicStringError::InvalidRange);
        }
        self.split_at(s);
        self.split_at(e);
        self.edit_chunks(s, e, content.to_owned(), options);
        Ok(())
    }

    /// Replaces `[start, end)` by `content`.
    pub fn update<S: AssertIntoU32, E: AssertIntoU32>(&mut self, start: S, end: E, content: &str) -> (r: Result<(), MagicStringError>)
        requires
            old(self).wf(),
        ensures
            final(self).wf(),
            final(self).src() == old(self).src(),
            final(self).source_view() == old(self).source_view(),
            final(self).file_name() == old(self).file_name(),
            final(self).intro_frags() == old(self).intro_frags(),
            final(self).outro_frags() == old(self).outro_frags(),
            match r {
                Err(e) => old(self).range_error(start.offset_value(), end.offset_value()) == Some(e)
                    && *final(self) == *old(self),
                Ok(_) => old(self).range_error(start.offset_value(), end.offset_value()) is None
                    && final(self).pieces() == edit_range(
                        split_pieces(split_pieces(old(self).pieces(), start.offset_value()), end.offset_value()),
                        start.offset_value(),
                        end.offset_value(),
                        content@,
                        false,
                        false,
                    ),
            },
    {
        self.update_with(start, end, content, UpdateOptions { keep_original: false, overwrite: false })
    }

    /// Removes `[start, end)` with what was inserted around its chunks. An empty
    /// range removes nothing.
    pub fn remove<S: AssertIntoU32, E: AssertIntoU32>(&mut self, start: S, end: E) -> (r: Result<(), MagicStringError>)
        requires
            old(self).wf(),
        ensures
            final(self).wf(),
            final(self).src() == old(self).src(),
            final(self).source_view() == old(self).source_view(),
            final(self).file_name() == old(self).file_name(),
            final(self).intro_frags() == old(self).intro_frags(),
            final(self).outro_frags() == old(self).outro_frags(),
            match r {
                Err(e) => old(self).range_error(start.offset_value(), end.offset_value()) == Some(e)
                    && !(old(self).offset_error(start.offset_value()) is None
                        && start.offset_value() == end.offset_value())
                    && *final(self) == *old(self),
                Ok(_) => if start.offset_value() == end.offset_value() {
                    old(self).offset_error(start.offset_value()) is None && *final(self) == *old(self)
                } else {
                    old(self).range_error(start.offset_value(), end.offset_value()) is None
                    && final(self).pieces() == edit_range(
                        split_pieces(split_pieces(old(self).pieces(), start.offset_value()), end.offset_value()),
                        start.offset_value(),
                        end.offset_value(),
                        Seq::empty(),
                        true,
                        false,
                    )
                },
            },
    {
        let s = match self.check_offset(start) {
            Ok(s) => s,
            Err(e) => return Err(e),
        };
        let e = match self.check_offset(end) {
            Ok(e) => e,
            Err(err) => return Err(err),
        };
        if s == e {
            return Ok(());
        }
        if s > e {
            return Err(MagicStringError::InvalidRange);
        }
        self.split_at(s);
        self.split_at(e);
        self.edit_chunks(s, e, String::new(), UpdateOptions { keep_original: false, overwrite: true });
        Ok(())
    }
}

} // verus!
