use std::collections::VecDeque;
use vstd::prelude::*;
use vstd::string::StringSliceAdditionalSpecFns;
use vstd::utf8::*;

use crate::span::{text_of, Span};

verus! {

broadcast use encode_utf8_valid_utf8;

/// The texts of a queue of fragments, in order.
pub open spec fn frag_views(q: Seq<String>) -> Seq<Seq<char>> {
    Seq::new(q.len(), |i: int| q[i]@)
}

/// The texts of a list of string slices, in order.
pub open spec fn str_views(v: Seq<&str>) -> Seq<Seq<char>> {
    Seq::new(v.len(), |i: int| v[i]@)
}

pub proof fn lemma_str_views_push(v: Seq<&str>, x: &str)
    ensures
        str_views(v.push(x)) == str_views(v).push(x@),
{
    assert(str_views(v.push(x)) =~= str_views(v).push(x@));
}

/// What a chunk renders, with no link to its neighbours: the model of a chunk.
pub struct Piece {
    pub start: int,
    pub end: int,
    pub intro: Seq<Seq<char>>,
    pub outro: Seq<Seq<char>>,
    pub edited: Option<Seq<char>>,
    pub store_name: bool,
}

impl Piece {
    /// The text in the middle: the edited content, or else the original span of `src`.
    pub open spec fn content(self, src: Seq<u8>) -> Seq<char> {
        match self.edited {
            Some(e) => e,
            None => text_of(src, self.start, self.end),
        }
    }

    /// The fragments that the piece renders, in order.
    pub open spec fn fragments(self, src: Seq<u8>) -> Seq<Seq<char>> {
        self.intro + seq![self.content(src)] + self.outro
    }

    /// The left part of a piece cut at `p`: it keeps the intro.
    pub open spec fn left_of(self, p: int) -> Piece {
        Piece { end: p, outro: Seq::empty(), ..self }
    }

    /// The right part of a piece cut at `p`: it takes the outro, and an edited
    /// piece leaves it empty, so that the edit still renders once.
    pub open spec fn right_of(self, p: int) -> Piece {
        Piece {
            start: p,
            intro: Seq::empty(),
            outro: self.outro,
            edited: match self.edited {
                Some(_) => Some(Seq::empty()),
                None => None,
            },
            store_name: false,
            ..self
        }
    }
}

/// One segment of the source partition, with what is inserted before and after it.
#[derive(Debug, Default, Clone)]
pub struct Chunk {
    pub intro: VecDeque<String>,
    pub outro: VecDeque<String>,
    pub span: Span,
    pub edited_content: Option<String>,
    pub next: Option<usize>,
    pub prev: Option<usize>,
    pub store_name: bool,
}

impl Chunk {
    pub open spec fn piece(&self) -> Piece {
        Piece {
            start: self.span.0 as int,
            end: self.span.1 as int,
            intro: frag_views(self.intro@),
            outro: frag_views(self.outro@),
            edited: match self.edited_content {
                Some(e) => Some(e@),
                None => None,
            },
            store_name: self.store_name,
        }
    }

    pub fn new(span: Span) -> (r: Chunk)
        ensures
            r.piece() == (Piece {
                start: span.0 as int,
                end: span.1 as int,
                intro: Seq::empty(),
                outro: Seq::empty(),
                edited: None,
                store_name: false,
            }),
            r.next.is_none(),
            r.prev.is_none(),
    {
        let r = Chunk {
            intro: VecDeque::new(),
            outro: VecDeque::new(),
            span,
            edited_content: None,
            next: None,
            prev: None,
            store_name: false,
        };
        assert(frag_views(r.intro@) =~= Seq::empty());
        assert(frag_views(r.outro@) =~= Seq::empty());
        r
    }

    pub fn start(&self) -> (r: u32)
        ensures
            r == self.span.0,
    {
        self.span.start()
    }

    pub fn end(&self) -> (r: u32)
        ensures
            r == self.span.1,
    {
        self.span.end()
    }

    /// Whether `text_index` lies strictly inside the span.
    pub fn contains(&self, text_index: u32) -> (r: bool)
        ensures
            r == (self.span.0 < text_index && text_index < self.span.1),
    {
        self.start() < text_index && text_index < self.end()
    }

    pub fn append_outro(&mut self, content: String)
        ensures
            final(self).piece() == (Piece { outro: old(self).piece().outro.push(content@), ..old(self).piece() }),
            final(self).next == old(self).next,
            final(self).prev == old(self).prev,
    {
        self.outro.push_back(content);
        assert(frag_views(self.outro@) =~= frag_views(old(self).outro@).push(content@));
    }

    pub fn append_intro(&mut self, content: String)
        ensures
            final(self).piece() == (Piece { intro: old(self).piece().intro.push(content@), ..old(self).piece() }),
            final(self).next == old(self).next,
            final(self).prev == old(self).prev,
    {
        self.intro.push_back(content);
        assert(frag_views(self.intro@) =~= frag_views(old(self).intro@).push(content@));
    }

    pub fn prepend_outro(&mut self, content: String)
        ensures
            final(self).piece() == (Piece { outro: seq![content@] + old(self).piece().outro, ..old(self).piece() }),
            final(self).next == old(self).next,
            final(self).prev == old(self).prev,
    {
        self.outro.push_front(content);
        assert(frag_views(self.outro@) =~= seq![content@] + frag_views(old(self).outro@));
    }

    pub fn prepend_intro(&mut self, content: String)
        ensures
            final(self).piece() == (Piece { intro: seq![content@] + old(self).piece().intro, ..old(self).piece() }),
            final(self).next == old(self).next,
            final(self).prev == old(self).prev,
    {
        self.intro.push_front(content);
        assert(frag_views(self.intro@) =~= seq![content@] + frag_views(old(self).intro@));
    }

    /// Cuts the chunk at `text_index`: this chunk keeps `[start, text_index)` and
    /// the intro; the returned chunk covers `[text_index, end)`, takes the outro and
    /// comes next.
    pub fn split(&mut self, text_index: u32) -> (r: Chunk)
        requires
            old(self).span.0 < text_index < old(self).span.1,
        ensures
            final(self).piece() == old(self).piece().left_of(text_index as int),
            r.piece() == old(self).piece().right_of(text_index as int),
            final(self).next == old(self).next,
            final(self).prev == old(self).prev,
            r.next == old(self).next,
    {
        let first_slice_span = Span(self.start(), text_index);
        let last_slice_span = Span(text_index, self.end());
        let mut new_chunk = Chunk::new(last_slice_span);
        if self.is_edited() {
            new_chunk.edit(String::new(), true, false);
        }
        std::mem::swap(&mut new_chunk.outro, &mut self.outro);
        self.span = first_slice_span;
        new_chunk.next = self.next;
        proof {
            assert(frag_views(self.outro@) =~= Seq::empty());
        }
        new_chunk
    }

    /// The fragments that the chunk renders: intro, content, outro.
    pub fn fragments<'a>(&'a self, source: &'a str) -> (r: Vec<&'a str>)
        requires
            self.span.0 <= self.span.1 <= source.spec_bytes().len(),
            is_char_boundary(source.spec_bytes(), self.span.0 as int),
            is_char_boundary(source.spec_bytes(), self.span.1 as int),
        ensures
            str_views(r@) == self.piece().fragments(source.spec_bytes()),
    {
        let mut r: Vec<&'a str> = Vec::new();
        let mut i: usize = 0;
        assert(str_views(r@) =~= frag_views(self.intro@).take(0));
        while i < self.intro.len()
            invariant
                i <= self.intro@.len(),
                str_views(r@) == frag_views(self.intro@).take(i as int),
            decreases self.intro@.len() - i,
        {
            let f = self.intro[i].as_str();
            proof {
                lemma_str_views_push(r@, f);
            }
            r.push(f);
            i = i + 1;
            assert(str_views(r@) =~= frag_views(self.intro@).take(i as int));
        }
        assert(frag_views(self.intro@).take(i as int) =~= frag_views(self.intro@));
        let mid = match &self.edited_content {
            Some(e) => e.as_str(),
            None => self.span.text(source),
        };
        proof {
            lemma_str_views_push(r@, mid);
        }
        r.push(mid);
        let ghost base = str_views(r@);
        assert(base =~= frag_views(self.intro@) + seq![self.piece().content(source.spec_bytes())]);
        let mut j: usize = 0;
        assert(str_views(r@) =~= base + frag_views(self.outro@).take(0));
        while j < self.outro.len()
            invariant
                j <= self.outro@.len(),
                str_views(r@) == base + frag_views(self.outro@).take(j as int),
            decreases self.outro@.len() - j,
        {
            let f = self.outro[j].as_str();
            proof {
                lemma_str_views_push(r@, f);
            }
            r.push(f);
            j = j + 1;
            assert(str_views(r@) =~= base + frag_views(self.outro@).take(j as int));
        }
        assert(frag_views(self.outro@).take(j as int) =~= frag_views(self.outro@));
        r
    }

    /// Sets the content that replaces the span; `overwrite` also drops what was
    /// inserted before and after it.
    pub fn edit(&mut self, content: String, overwrite: bool, store_name: bool)
        ensures
            final(self).piece() == (Piece {
                intro: if overwrite { Seq::empty() } else { old(self).piece().intro },
                outro: if overwrite { Seq::empty() } else { old(self).piece().outro },
                edited: Some(content@),
                store_name: store_name,
                ..old(self).piece()
            }),
            final(self).next == old(self).next,
            final(self).prev == old(self).prev,
    {
        if overwrite {
            self.intro.clear();
            self.outro.clear();
            assert(frag_views(self.intro@) =~= Seq::empty());
            assert(frag_views(self.outro@) =~= Seq::empty());
        }
        self.store_name = store_name;
        self.edited_content = Some(content);
    }

    pub fn is_edited(&self) -> (r: bool)
        ensures
            r == self.edited_content.is_some(),
    {
        self.edited_content.is_some()
    }
}

} // verus!
