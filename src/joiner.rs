use vstd::prelude::*;
use vstd::string::{StringExecFns, StringSliceAdditionalSpecFns};

use crate::chunk::frag_views;
use crate::magic_string::source_map::{
    doc_generated, name_index, position_of, with_name, Generated, SourceMapOptions,
};
use crate::magic_string::MagicString;
use crate::source_map::decoded_map::DecodedMap;
use crate::source_map::mappings::{advanced, mappings_text, Mappings};
use crate::source_map::SourceMap;
use crate::span::bytes_of;

verus! {

pub struct JoinerOptions {
    pub separator: Option<String>,
}

/// The texts with `sep` between each two of them, and nowhere else.
pub open spec fn joined(texts: Seq<Seq<char>>, sep: Seq<char>) -> Seq<char>
    decreases texts.len(),
{
    if texts.len() == 0 {
        Seq::empty()
    } else if texts.len() == 1 {
        texts[0]
    } else {
        joined(texts.drop_last(), sep) + sep + texts.last()
    }
}

/// The name under which a document's source is listed.
pub open spec fn listed_name(d: MagicString) -> Seq<char> {
    match d.file_name() {
        Some(f) => f@,
        None => Seq::empty(),
    }
}

/// Where a joined generation stands: the generation, the distinct sources
/// and, where asked for, their contents.
pub struct JoinedMap {
    pub g: Generated,
    pub sources: Seq<Seq<char>>,
    pub contents: Seq<Seq<char>>,
}

/// The joined generation over the documents: between two documents the
/// generated position moves past the separator; each document maps to the
/// first source listed under its name.
pub open spec fn docs_generated(docs: Seq<MagicString>, sep: Seq<char>, with_content: bool) -> JoinedMap
    decreases docs.len(),
{
    if docs.len() == 0 {
        JoinedMap {
            g: Generated { rows: seq![Seq::empty()], col: 0, names: Seq::empty() },
            sources: Seq::empty(),
            contents: Seq::empty(),
        }
    } else {
        let st = docs_generated(docs.drop_last(), sep, with_content);
        let d = docs.last();
        let (rows, col) = if docs.len() > 1 {
            advanced(st.g.rows, st.g.col, bytes_of(sep))
        } else {
            (st.g.rows, st.g.col)
        };
        let name = listed_name(d);
        let sources = with_name(st.sources, name);
        let at = position_of(sources, name);
        let contents = if with_content && position_of(st.sources, name) < 0 {
            st.contents.push(d.source_view())
        } else {
            st.contents
        };
        let g = doc_generated(
            Generated { rows, col, names: st.g.names },
            d,
            if at < u32::MAX { at } else { u32::MAX as int },
        );
        JoinedMap { g, sources, contents }
    }
}

/// Documents joined one after another, with an optional separator.
pub struct Joiner {
    sources: Vec<MagicString>,
    separator: Option<String>,
}

impl Joiner {
    /// The documents, in order.
    pub closed spec fn docs(&self) -> Seq<MagicString> {
        self.sources@
    }

    /// The separator, empty where none was given.
    pub closed spec fn sep(&self) -> Seq<char> {
        match self.separator {
            Some(s) => s@,
            None => Seq::empty(),
        }
    }

    /// The separator between sources in a source map: the given one, or a newline.
    pub closed spec fn map_sep(&self) -> Seq<char> {
        match self.separator {
            Some(s) => s@,
            None => seq!['\n'],
        }
    }

    pub closed spec fn wf(&self) -> bool {
        forall|i: int| 0 <= i < self.sources@.len() ==> (#[trigger] self.sources@[i]).wf()
    }

    /// The rendered text of each document.
    pub open spec fn texts(&self) -> Seq<Seq<char>> {
        Seq::new(self.docs().len(), |i: int| self.docs()[i].rendered())
    }

    pub fn new() -> (r: Joiner)
        ensures
            r.wf(),
            r.docs() == Seq::<MagicString>::empty(),
            r.sep() == Seq::<char>::empty(),
            r.map_sep() == seq!['\n'],
    {
        Joiner { sources: Vec::new(), separator: None }
    }

    pub fn with_options(options: JoinerOptions) -> (r: Joiner)
        ensures
            r.wf(),
            r.docs() == Seq::<MagicString>::empty(),
            r.sep() == (match options.separator {
                Some(s) => s@,
                None => Seq::<char>::empty(),
            }),
    {
        Joiner { sources: Vec::new(), separator: options.separator }
    }

    pub fn append(&mut self, source: MagicString)
        requires
            old(self).wf(),
            source.wf(),
        ensures
            final(self).wf(),
            final(self).docs() == old(self).docs().push(source),
            final(self).sep() == old(self).sep(),
            final(self).map_sep() == old(self).map_sep(),
    {
        self.sources.push(source);
        assert forall|i: int| 0 <= i < self.sources@.len() implies (#[trigger] self.sources@[i]).wf() by {
            if i < old(self).sources@.len() {
                assert(old(self).sources@[i].wf());
            }
        }
    }

    /// Appends a document over `raw`, unedited.
    pub fn append_raw(&mut self, raw: &str)
        requires
            old(self).wf(),
            raw.spec_bytes().len() <= u32::MAX,
        ensures
            final(self).wf(),
            final(self).docs().len() == old(self).docs().len() + 1,
            final(self).docs().drop_last() == old(self).docs(),
            final(self).docs().last().rendered() == raw@,
            final(self).docs().last().file_name().is_none(),
            final(self).sep() == old(self).sep(),
            final(self).map_sep() == old(self).map_sep(),
    {
        let doc = MagicString::new(raw);
        self.append(doc);
        assert(self.docs().drop_last() =~= old(self).docs());
    }

    /// The joined text: each document's text, with the separator between
    /// each two and nowhere else.
    pub fn join(&self) -> (r: String)
        requires
            self.wf(),
        ensures
            r@ == joined(self.texts(), self.sep()),
    {
        let mut ret = String::new();
        let mut i: usize = 0;
        let ghost texts = self.texts();
        assert(texts.take(0) =~= Seq::<Seq<char>>::empty());
        while i < self.sources.len()
            invariant
                self.wf(),
                i <= self.sources@.len(),
                texts == self.texts(),
                ret@ == joined(texts.take(i as int), self.sep()),
            decreases self.sources@.len() - i,
        {
            if i > 0 {
                match &self.separator {
                    Some(s) => ret.append(s.as_str()),
                    None => {},
                }
            }
            assert(self.sources@[i as int].wf());
            let text = self.sources[i].to_string();
            ret.append(text.as_str());
            proof {
                let k = i as int + 1;
                assert(texts.take(k).drop_last() =~= texts.take(i as int));
                assert(texts.take(k).last() == texts[i as int]);
                if i == 0 {
                    assert(texts.take(k)[0] == texts[0]);
                    assert(ret@ =~= joined(texts.take(k), self.sep()));
                } else {
                    assert(ret@ =~= joined(texts.take(k), self.sep()));
                }
            }
            i = i + 1;
        }
        assert(texts.take(i as int) =~= texts);
        ret
    }

    /// The length in bytes of the joined text.
    pub fn len(&self) -> (r: usize)
        requires
            self.wf(),
        ensures
            r == bytes_of(joined(self.texts(), self.sep())).len() as usize,
    {
        let text = self.join();
        text.as_str().len()
    }

    /// The source map of the joined text.
    pub fn source_map(&self, opts: SourceMapOptions) -> (r: SourceMap)
        requires
            self.wf(),
        ensures
            ({
                let st = docs_generated(self.docs(), self.map_sep(), opts.include_content);
                &&& r.version == 3
                &&& frag_views(r.sources@) == st.sources
                &&& frag_views(r.sources_content@) == st.contents
                &&& frag_views(r.names@) == st.g.names
                &&& r.mappings@ == mappings_text(st.g.rows)
            }),
    {
        let mut mappings = Mappings::new();
        let mut names: Vec<String> = Vec::new();
        let mut sources: Vec<String> = Vec::new();
        let mut contents: Vec<String> = Vec::new();
        let sep: &str = match &self.separator {
            Some(s) => s.as_str(),
            None => "\n",
        };
        proof {
            reveal_strlit("\n");
        }
        let ghost docs = self.docs();
        let mut i: usize = 0;
        assert(docs.take(0) =~= Seq::<MagicString>::empty());
        assert(frag_views(names@) =~= Seq::<Seq<char>>::empty());
        assert(frag_views(sources@) =~= Seq::<Seq<char>>::empty());
        assert(frag_views(contents@) =~= Seq::<Seq<char>>::empty());
        while i < self.sources.len()
            invariant
                self.wf(),
                mappings.wf(),
                docs == self.docs(),
                i <= docs.len(),
                sep@ == self.map_sep(),
                ({
                    let st = docs_generated(docs.take(i as int), self.map_sep(), opts.include_content);
                    &&& mappings.rows() == st.g.rows
                    &&& mappings.column() == st.g.col
                    &&& frag_views(names@) == st.g.names
                    &&& frag_views(sources@) == st.sources
                    &&& frag_views(contents@) == st.contents
                }),
            decreases docs.len() - i,
        {
            proof {
                let k = i as int + 1;
                assert(docs.take(k).drop_last() =~= docs.take(i as int));
                assert(docs.take(k).last() == docs[i as int]);
            }
            if i > 0 {
                mappings.advance(sep);
            }
            let d = &self.sources[i];
            assert(d.wf());
            let file = d.file_name_text();
            let ghost known = position_of(frag_views(sources@), file@);
            let before = sources.len();
            let at = name_index(&mut sources, file.as_str());
            let si: u32 = match at {
                Some(x) => x,
                None => u32::MAX,
            };
            if opts.include_content && sources.len() > before {
                contents.push(d.original().to_owned());
                proof {
                    assert(known < 0);
                }
            } else {
                proof {
                    if opts.include_content {
                        assert(known >= 0);
                    }
                }
            }
            d.generate_mappings(&mut mappings, &mut names, si);
            i = i + 1;
        }
        assert(docs.take(i as int) =~= docs);
        let decoded = DecodedMap { version: 3, sources, sources_content: contents, mappings, names };
        decoded.into_source_map()
    }
}

impl Default for Joiner {
    fn default() -> (r: Joiner)
        ensures
            r.wf(),
            r.docs() == Seq::<MagicString>::empty(),
            r.sep() == Seq::<char>::empty(),
    {
        Joiner::new()
    }
}

} // verus!
