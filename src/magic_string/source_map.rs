use std::collections::VecDeque;
use vstd::prelude::*;
use vstd::string::StringSliceAdditionalSpecFns;

use super::MagicString;
use crate::chunk::{frag_views, Piece};
use crate::locator::Locator;
use crate::source_map::decoded_map::DecodedMap;
use crate::source_map::mappings::{advanced, chunk_mapped, mappings_text, Mappings, Segment};
use crate::source_map::SourceMap as EncodedSourceMap;
use super::token::{Token, TokenChunk};
use crate::span::{bytes_of, text_of};

verus! {

/// What `source_map` includes.
#[derive(Debug, Default, Clone, Copy)]
pub struct SourceMapOptions {
    /// Put the original source in `sourcesContent`.
    pub include_content: bool,
}

/// A source map with its mappings decoded into tokens.
#[derive(Debug, Clone, Default)]
pub struct SourceMap {
    pub file: Option<String>,
    pub names: Vec<String>,
    pub source_root: Option<String>,
    pub sources: Vec<String>,
    pub source_contents: Option<Vec<String>>,
    pub tokens: Vec<Token>,
    pub token_chunks: Option<Vec<TokenChunk>>,
    pub x_google_ignore_list: Option<Vec<u32>>,
}

impl SourceMap {
    pub fn get_file(&self) -> (r: Option<&str>)
        ensures
            match r {
                Some(f) => self.file is Some && f@ == self.file->0@,
                None => self.file is None,
            },
    {
        match &self.file {
            Some(f) => Some(f.as_str()),
            None => None,
        }
    }

    pub fn get_names(&self) -> (r: &Vec<String>)
        ensures
            r == &self.names,
    {
        &self.names
    }

    pub fn get_source_root(&self) -> (r: Option<&str>)
        ensures
            match r {
                Some(f) => self.source_root is Some && f@ == self.source_root->0@,
                None => self.source_root is None,
            },
    {
        match &self.source_root {
            Some(f) => Some(f.as_str()),
            None => None,
        }
    }

    pub fn get_sources(&self) -> (r: &Vec<String>)
        ensures
            r == &self.sources,
    {
        &self.sources
    }

    pub fn get_source_contents(&self) -> (r: Option<&Vec<String>>)
        ensures
            match r {
                Some(c) => self.source_contents == Some(*c),
                None => self.source_contents is None,
            },
    {
        match &self.source_contents {
            Some(c) => Some(c),
            None => None,
        }
    }

    pub fn get_tokens(&self) -> (r: &Vec<Token>)
        ensures
            r == &self.tokens,
    {
        &self.tokens
    }
}

/// The token of a segment in generated line `line`.
pub open spec fn token_of(line: int, s: Segment) -> Token {
    Token {
        dst_line: line as u32,
        dst_col: s.dst_column as u32,
        src_line: s.src_line as u32,
        src_col: s.src_column as u32,
        source_id: Some(s.source_index as u32),
        name_id: match s.name_index {
            Some(n) => Some(n as u32),
            None => None,
        },
    }
}

/// The tokens of the rows, row by row, each row's in order.
pub open spec fn tokens_of(rows: Seq<Seq<Segment>>) -> Seq<Token>
    decreases rows.len(),
{
    if rows.len() == 0 {
        Seq::empty()
    } else {
        let line = rows.len() - 1;
        tokens_of(rows.drop_last()) + Seq::new(rows.last().len(), |j: int| token_of(line, rows.last()[j]))
    }
}

/// The rows and column after generated text made of the fragments, which map
/// to nothing.
pub open spec fn frags_advanced(rows: Seq<Seq<Segment>>, col: int, frags: Seq<Seq<char>>) -> (Seq<Seq<Segment>>, int)
    decreases frags.len(),
{
    if frags.len() == 0 {
        (rows, col)
    } else {
        let (r, c) = frags_advanced(rows, col, frags.drop_last());
        advanced(r, c, bytes_of(frags.last()))
    }
}

/// The first index of `x` in `names`, or -1.
pub open spec fn position_of(names: Seq<Seq<char>>, x: Seq<char>) -> int
    decreases names.len(),
{
    if names.len() == 0 {
        -1
    } else if position_of(names.drop_last(), x) >= 0 {
        position_of(names.drop_last(), x)
    } else if names.last() == x {
        names.len() - 1
    } else {
        -1
    }
}

/// The names with `x` added, where it is not there yet.
pub open spec fn with_name(names: Seq<Seq<char>>, x: Seq<char>) -> Seq<Seq<char>> {
    if position_of(names, x) >= 0 { names } else { names.push(x) }
}

/// The original text that an edited piece keeps as a name, if it keeps one.
pub open spec fn name_of(p: Piece, src: Seq<u8>) -> Option<Seq<char>> {
    if p.store_name && p.edited is Some { Some(text_of(src, p.start, p.end)) } else { None }
}

/// Where a generation stands: the rows, the column and the names so far.
pub struct Generated {
    pub rows: Seq<Seq<Segment>>,
    pub col: int,
    pub names: Seq<Seq<char>>,
}

/// The generation after one piece: its intro, its own text, its outro.
pub open spec fn piece_generated(g: Generated, p: Piece, src: Seq<u8>, source_index: int) -> Generated {
    let (r1, c1) = frags_advanced(g.rows, g.col, p.intro);
    let names = match name_of(p, src) {
        Some(x) => with_name(g.names, x),
        None => g.names,
    };
    let idx = match name_of(p, src) {
        Some(x) => if position_of(names, x) < u32::MAX { Some(position_of(names, x)) } else { None },
        None => None,
    };
    let (r2, c2) = chunk_mapped(r1, c1, p, src, source_index, idx);
    let (r3, c3) = frags_advanced(r2, c2, p.outro);
    Generated { rows: r3, col: c3, names }
}

/// The generation after the pieces, in order.
pub open spec fn pieces_generated(g: Generated, ps: Seq<Piece>, src: Seq<u8>, source_index: int) -> Generated
    decreases ps.len(),
{
    if ps.len() == 0 {
        g
    } else {
        piece_generated(pieces_generated(g, ps.drop_last(), src, source_index), ps.last(), src, source_index)
    }
}

/// The generation after a whole document: what is before everything, the
/// pieces, what is after everything.
pub open spec fn doc_generated(g: Generated, d: MagicString, source_index: int) -> Generated {
    let (r1, c1) = frags_advanced(g.rows, g.col, d.intro_frags());
    let g2 = pieces_generated(Generated { rows: r1, col: c1, names: g.names }, d.pieces(), d.src(), source_index);
    let (r3, c3) = frags_advanced(g2.rows, g2.col, d.outro_frags());
    Generated { rows: r3, col: c3, names: g2.names }
}

/// The generation that a new map starts from.
pub open spec fn fresh_generation() -> Generated {
    Generated { rows: seq![Seq::empty()], col: 0, names: Seq::empty() }
}

/// Moves the generated position past each string of the queue.
fn advance_queue(m: &mut Mappings, q: &VecDeque<String>)
    requires
        old(m).wf(),
    ensures
        final(m).wf(),
        (final(m).rows(), final(m).column()) == frags_advanced(old(m).rows(), old(m).column(), frag_views(q@)),
{
    let ghost v = frag_views(q@);
    let mut i: usize = 0;
    assert(v.take(0) =~= Seq::<Seq<char>>::empty());
    while i < q.len()
        invariant
            m.wf(),
            i <= q@.len(),
            v == frag_views(q@),
            (m.rows(), m.column()) == frags_advanced(old(m).rows(), old(m).column(), v.take(i as int)),
        decreases q@.len() - i,
    {
        m.advance(q[i].as_str());
        proof {
            let k = i as int + 1;
            assert(v.take(k).drop_last() =~= v.take(i as int));
            assert(v.take(k).last() == q@[i as int]@);
        }
        i = i + 1;
    }
    assert(v.take(i as int) =~= v);
}

/// Finds `x` among the names, adding it where it is missing, and returns its
/// index where that fits in `u32`.
pub(crate) fn name_index(names: &mut Vec<String>, x: &str) -> (r: Option<u32>)
    ensures
        frag_views(final(names)@) == with_name(frag_views(old(names)@), x@),
        r == (if position_of(with_name(frag_views(old(names)@), x@), x@) < u32::MAX {
            Some(position_of(with_name(frag_views(old(names)@), x@), x@) as u32)
        } else {
            None
        }),
{
    let ghost v = frag_views(names@);
    let xs = x.to_owned();
    let mut found: Option<usize> = None;
    let mut i: usize = 0;
    assert(v.take(0) =~= Seq::<Seq<char>>::empty());
    while i < names.len()
        invariant
            i <= names@.len(),
            names@ == old(names)@,
            v == frag_views(names@),
            xs@ == x@,
            match found {
                Some(j) => position_of(v.take(i as int), x@) == j as int,
                None => position_of(v.take(i as int), x@) == -1,
            },
        decreases names@.len() - i,
    {
        let ni: &String = &names[i];
        let same = ni.eq(&xs);
        assert(xs@ == x@);
        assert(ni@ == names@[i as int]@);
        assert(same == (ni@ == xs@));
        proof {
            let k = i as int + 1;
            assert(v.take(k).drop_last() =~= v.take(i as int));
            assert(v.take(k).last() == names@[i as int]@);
        }
        if found.is_none() && same {
            found = Some(i);
        }
        i = i + 1;
    }
    assert(v.take(i as int) =~= v);
    let idx = match found {
        Some(j) => j,
        None => {
            let at = names.len();
            names.push(xs);
            proof {
                let w = frag_views(names@);
                assert(w =~= v.push(x@));
                assert(w.drop_last() =~= v);
            }
            at
        },
    };
    if idx < u32::MAX as usize {
        Some(idx as u32)
    } else {
        None
    }
}

impl MagicString {
    /// Adds this document's segments and names to a generation in progress,
    /// with `source_index` as the source of every segment.
    pub fn generate_mappings(&self, mappings: &mut Mappings, names: &mut Vec<String>, source_index: u32)
        requires
            self.wf(),
            old(mappings).wf(),
        ensures
            final(mappings).wf(),
            ({
                let g = doc_generated(
                    Generated { rows: old(mappings).rows(), col: old(mappings).column(), names: frag_views(old(names)@) },
                    *self,
                    source_index as int,
                );
                final(mappings).rows() == g.rows && final(mappings).column() == g.col && frag_views(final(names)@) == g.names
            }),
    {
        let ghost g0 = Generated { rows: mappings.rows(), col: mappings.column(), names: frag_views(names@) };
        let ghost src = self.src();
        let ghost ps = self.pieces();
        advance_queue(mappings, &self.intro);
        let ghost g1 = Generated { rows: mappings.rows(), col: mappings.column(), names: g0.names };
        let locator = Locator::new(self.source.as_str());
        let ghost n = self.chunks@.len() as int;
        let mut cur: Option<usize> = Some(self.first_chunk_idx);
        let ghost mut k: int = 0;
        while cur.is_some()
            invariant
                self.wf(),
                mappings.wf(),
                n == self.chunks@.len(),
                src == self.src(),
                ps == self.pieces(),
                locator.wf(),
                locator.source() == src,
                0 <= k <= n,
                k < n ==> cur == Some(self.order@[k]),
                k == n ==> cur.is_none(),
                ({
                    let g = pieces_generated(g1, ps.take(k), src, source_index as int);
                    mappings.rows() == g.rows && mappings.column() == g.col && frag_views(names@) == g.names
                }),
            decreases n - k,
        {
            let idx = cur.unwrap();
            proof {
                assert(self.chunk_ok(idx as int));
                assert(ps[k] == self.chunks@[idx as int].piece());
                assert(ps.take(k + 1).drop_last() =~= ps.take(k));
                assert(ps.take(k + 1).last() == ps[k]);
            }
            let chunk = &self.chunks[idx];
            advance_queue(mappings, &chunk.intro);
            let name = if chunk.store_name && chunk.is_edited() {
                name_index(names, chunk.span.text(self.source.as_str()))
            } else {
                None
            };
            chunk_add(mappings, chunk, &locator, source_index, self.source.as_str(), name);
            advance_queue(mappings, &chunk.outro);
            cur = chunk.next;
            proof {
                k = k + 1;
            }
        }
        proof {
            assert(ps.take(k) =~= ps);
        }
        advance_queue(mappings, &self.outro);
    }

    /// The name of the source file, or the empty string where none was given.
    pub fn file_name_text(&self) -> (r: String)
        ensures
            r@ == (match self.file_name() {
                Some(f) => f@,
                None => Seq::<char>::empty(),
            }),
    {
        match &self.filename {
            Some(f) => f.clone(),
            None => String::new(),
        }
    }

    /// The original source text.
    pub fn original(&self) -> (r: &str)
        ensures
            r@ == self.source_view(),
    {
        self.source.as_str()
    }

    /// The source map of this document alone, with its mappings as tokens.
    pub fn create_own_sourcemap(&self, opts: SourceMapOptions) -> (r: SourceMap)
        requires
            self.wf(),
        ensures
            ({
                let g = doc_generated(fresh_generation(), *self, 0);
                &&& r.tokens@ == tokens_of(g.rows)
                &&& frag_views(r.names@) == g.names
                &&& frag_views(r.sources@) == seq![match self.file_name() {
                    Some(f) => f@,
                    None => Seq::<char>::empty(),
                }]
                &&& match r.source_contents {
                    Some(c) => opts.include_content && frag_views(c@) == seq![self.source_view()],
                    None => !opts.include_content,
                }
            }),
    {
        let mut mappings = Mappings::new();
        let mut names: Vec<String> = Vec::new();
        assert(frag_views(names@) =~= Seq::<Seq<char>>::empty());
        self.generate_mappings(&mut mappings, &mut names, 0);
        let tokens = mappings.tokens();
        let mut sources: Vec<String> = Vec::new();
        sources.push(self.file_name_text());
        assert(frag_views(sources@) =~= seq![match self.file_name() {
            Some(f) => f@,
            None => Seq::<char>::empty(),
        }]);
        let source_contents = if opts.include_content {
            let mut c: Vec<String> = Vec::new();
            c.push(self.source.clone());
            assert(frag_views(c@) =~= seq![self.source_view()]);
            Some(c)
        } else {
            None
        };
        SourceMap {
            file: None,
            names,
            source_root: None,
            sources,
            source_contents,
            tokens,
            token_chunks: None,
            x_google_ignore_list: None,
        }
    }

    /// The source map of this document alone.
    pub fn source_map(&self, opts: SourceMapOptions) -> (r: EncodedSourceMap)
        requires
            self.wf(),
        ensures
            r.version == 3,
            frag_views(r.sources@) == seq![match self.file_name() {
                Some(f) => f@,
                None => Seq::<char>::empty(),
            }],
            frag_views(r.sources_content@) == (if opts.include_content {
                seq![self.source_view()]
            } else {
                Seq::<Seq<char>>::empty()
            }),
            ({
                let g = doc_generated(fresh_generation(), *self, 0);
                r.mappings@ == mappings_text(g.rows) && frag_views(r.names@) == g.names
            }),
    {
        let mut mappings = Mappings::new();
        let mut names: Vec<String> = Vec::new();
        assert(frag_views(names@) =~= Seq::<Seq<char>>::empty());
        self.generate_mappings(&mut mappings, &mut names, 0);
        let mut sources: Vec<String> = Vec::new();
        match &self.filename {
            Some(f) => sources.push(f.clone()),
            None => sources.push(String::new()),
        }
        let mut sources_content: Vec<String> = Vec::new();
        if opts.include_content {
            sources_content.push(self.source.clone());
        }
        assert(frag_views(sources@) =~= seq![match self.file_name() {
            Some(f) => f@,
            None => Seq::<char>::empty(),
        }]);
        assert(frag_views(sources_content@) =~= (if opts.include_content {
            seq![self.source_view()]
        } else {
            Seq::<Seq<char>>::empty()
        }));
        let decoded = DecodedMap { version: 3, sources, sources_content, mappings, names };
        decoded.into_source_map()
    }
}

/// Adds one chunk's segments, with the name index that it keeps, if any.
fn chunk_add(m: &mut Mappings, chunk: &crate::chunk::Chunk, locator: &Locator, source_index: u32, source: &str, name: Option<u32>)
    requires
        old(m).wf(),
        chunk.span.0 <= chunk.span.1 <= source.spec_bytes().len() <= u32::MAX,
        locator.wf(),
        locator.source() == source.spec_bytes(),
    ensures
        final(m).wf(),
        (final(m).rows(), final(m).column()) == chunk_mapped(
            old(m).rows(),
            old(m).column(),
            chunk.piece(),
            source.spec_bytes(),
            source_index as int,
            match name {
                Some(n) => Some(n as int),
                None => None,
            },
        ),
{
    m.add_chunk(chunk, locator, source_index, source, name);
}

} // verus!
