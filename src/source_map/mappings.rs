use vstd::prelude::*;
use vstd::string::StringSliceAdditionalSpecFns;

use crate::chunk::{Chunk, Piece};
use crate::locator::{byte_utf16_units, column_of, lemma_location_bounds, line_of, utf16_units, Locator};
use crate::span::bytes_of;
use crate::magic_string::token::Token;
use crate::magic_string::source_map::{token_of, tokens_of};

verus! {

/// One mapping entry: a column of the generated text and the place in an
/// original source that it comes from, with a name where one was kept.
/// Columns count UTF-16 code units.
#[derive(Debug, Clone, Copy, PartialEq, Eq, Structural)]
pub struct Segment {
    pub dst_column: i64,
    pub source_index: i64,
    pub src_line: i64,
    pub src_column: i64,
    pub name_index: Option<i64>,
}

impl Segment {
    pub fn new(dst_column: i64, source_index: i64, src_line: i64, src_column: i64, name_index: Option<i64>) -> (r: Segment)
        ensures
            r == (Segment { dst_column, source_index, src_line, src_column, name_index }),
    {
        Segment { dst_column, source_index, src_line, src_column, name_index }
    }

    pub fn dst_column(&self) -> (r: i64)
        ensures
            r == self.dst_column,
    {
        self.dst_column
    }

    pub fn source_index(&self) -> (r: i64)
        ensures
            r == self.source_index,
    {
        self.source_index
    }

    pub fn src_line(&self) -> (r: i64)
        ensures
            r == self.src_line,
    {
        self.src_line
    }

    pub fn src_column(&self) -> (r: i64)
        ensures
            r == self.src_column,
    {
        self.src_column
    }

    pub fn name_index(&self) -> (r: Option<i64>)
        ensures
            r == self.name_index,
    {
        self.name_index
    }
}

/// The range that the fields of a generated segment stay in.
pub open spec fn segment_in_range(s: Segment) -> bool {
    let bound = 0x2_0000_0000int;
    &&& 0 <= s.dst_column <= bound
    &&& 0 <= s.source_index <= bound
    &&& 0 <= s.src_line <= bound
    &&& 0 <= s.src_column <= bound
    &&& match s.name_index {
        Some(n) => 0 <= n <= bound,
        None => true,
    }
}

/// `col + d`, held at `u32::MAX`.
pub open spec fn sat_add(col: int, d: int) -> int {
    if col + d > u32::MAX { u32::MAX as int } else { col + d }
}

/// The rows after appending `seg` to the last one.
pub open spec fn push_segment(rows: Seq<Seq<Segment>>, seg: Segment) -> Seq<Seq<Segment>> {
    rows.update(rows.len() - 1, rows.last().push(seg))
}

/// The rows and column after the generated text moves past byte `b`: a newline
/// starts a new row.
pub open spec fn advance_byte(rows: Seq<Seq<Segment>>, col: int, b: u8) -> (Seq<Seq<Segment>>, int) {
    if b == 10u8 {
        (rows.push(Seq::empty()), 0)
    } else {
        (rows, sat_add(col, utf16_units(b)))
    }
}

/// The rows and column after the generated text moves past `bytes`.
pub open spec fn advanced(rows: Seq<Seq<Segment>>, col: int, bytes: Seq<u8>) -> (Seq<Seq<Segment>>, int)
    decreases bytes.len(),
{
    if bytes.len() == 0 {
        (rows, col)
    } else {
        let (r, c) = advanced(rows, col, bytes.drop_last());
        advance_byte(r, c, bytes.last())
    }
}

/// The state of a walk over original text: the rows, the generated column,
/// and whether the next character starts a line.
pub struct Walk {
    pub rows: Seq<Seq<Segment>>,
    pub col: int,
    pub fresh: bool,
}

/// The walk over the original bytes `[start, q)` of `src`: each line of it that
/// has a character gets one segment, at that character.
pub open spec fn walked(rows: Seq<Seq<Segment>>, col: int, src: Seq<u8>, start: int, q: int, source_index: int) -> Walk
    decreases q - start,
{
    if q <= start {
        Walk { rows, col, fresh: true }
    } else {
        let w = walked(rows, col, src, start, q - 1, source_index);
        let b = src[q - 1];
        if b == 10u8 {
            Walk { rows: w.rows.push(Seq::empty()), col: 0, fresh: true }
        } else {
            let seg = Segment {
                dst_column: w.col as i64,
                source_index: source_index as i64,
                src_line: line_of(src, q - 1) as i64,
                src_column: column_of(src, q - 1) as i64,
                name_index: None,
            };
            Walk {
                rows: if w.fresh { push_segment(w.rows, seg) } else { w.rows },
                col: sat_add(w.col, utf16_units(b)),
                fresh: false,
            }
        }
    }
}

/// The rows and column after a chunk's text: an edited chunk gets one segment
/// (none where its content is empty) at its start; an unedited one is walked.
pub open spec fn chunk_mapped(
    rows: Seq<Seq<Segment>>,
    col: int,
    p: Piece,
    src: Seq<u8>,
    source_index: int,
    name_index: Option<int>,
) -> (Seq<Seq<Segment>>, int) {
    match p.edited {
        Some(e) => {
            let seg = Segment {
                dst_column: col as i64,
                source_index: source_index as i64,
                src_line: line_of(src, p.start) as i64,
                src_column: column_of(src, p.start) as i64,
                name_index: match name_index {
                    Some(n) => Some(n as i64),
                    None => None,
                },
            };
            let r = if e.len() > 0 { push_segment(rows, seg) } else { rows };
            advanced(r, col, bytes_of(e))
        },
        None => {
            let w = walked(rows, col, src, p.start, p.end, source_index);
            (w.rows, w.col)
        },
    }
}

/// The base64 digit for `d`, which is below 64.
pub open spec fn b64_digit(d: int) -> char {
    if d < 26 {
        ((65 + d) as u8) as char
    } else if d < 52 {
        ((97 + d - 26) as u8) as char
    } else if d < 62 {
        ((48 + d - 52) as u8) as char
    } else if d == 62 {
        '+'
    } else {
        '/'
    }
}

/// The base64 VLQ digits of `z`, five bits at a time from the lowest; every
/// digit but the last has the continuation bit.
pub open spec fn vlq_digits(z: int) -> Seq<char>
    decreases z,
{
    if z < 32 {
        seq![b64_digit(z)]
    } else {
        seq![b64_digit(z % 32 + 32)] + vlq_digits(z / 32)
    }
}

/// The VLQ encoding of `n`: its magnitude shifted left, with the sign in the
/// lowest bit.
pub open spec fn vlq(n: int) -> Seq<char> {
    vlq_digits(if n < 0 { -n * 2 + 1 } else { n * 2 })
}

/// The fields that the next segment's deltas are taken against.
pub struct Previous {
    pub source_index: int,
    pub src_line: int,
    pub src_column: int,
    pub name_index: int,
}

/// The text of one segment: four or five VLQ deltas.
pub open spec fn encode_segment(seg: Segment, prev_column: int, p: Previous) -> Seq<char> {
    vlq(seg.dst_column - prev_column) + vlq(seg.source_index - p.source_index) + vlq(
        seg.src_line - p.src_line,
    ) + vlq(seg.src_column - p.src_column) + match seg.name_index {
        Some(n) => vlq(n - p.name_index),
        None => Seq::empty(),
    }
}

/// What the segment after `seg` is compared with.
pub open spec fn after_segment(seg: Segment, p: Previous) -> Previous {
    Previous {
        source_index: seg.source_index as int,
        src_line: seg.src_line as int,
        src_column: seg.src_column as int,
        name_index: match seg.name_index {
            Some(n) => n as int,
            None => p.name_index,
        },
    }
}

/// The text of one row, segments separated by commas; the generated column is
/// compared within the row, the rest with the segment before, in any row.
pub open spec fn encode_row(segs: Seq<Segment>, p: Previous) -> (Seq<char>, Previous)
    decreases segs.len(),
{
    if segs.len() == 0 {
        (Seq::empty(), p)
    } else {
        let (t, q) = encode_row(segs.drop_last(), p);
        let n = segs.len() as int;
        let prev_column = if n > 1 { segs[n - 2].dst_column as int } else { 0 };
        let sep = if n > 1 { seq![','] } else { Seq::empty() };
        (t + sep + encode_segment(segs.last(), prev_column, q), after_segment(segs.last(), q))
    }
}

/// The text of the rows, separated by semicolons.
pub open spec fn encode_rows(rows: Seq<Seq<Segment>>, p: Previous) -> (Seq<char>, Previous)
    decreases rows.len(),
{
    if rows.len() == 0 {
        (Seq::empty(), p)
    } else {
        let (t, q) = encode_rows(rows.drop_last(), p);
        let sep = if rows.len() > 1 { seq![';'] } else { Seq::empty() };
        let (t2, q2) = encode_row(rows.last(), q);
        (t + sep + t2, q2)
    }
}

/// The "mappings" text of the rows.
pub open spec fn mappings_text(rows: Seq<Seq<Segment>>) -> Seq<char> {
    encode_rows(rows, Previous { source_index: 0, src_line: 0, src_column: 0, name_index: 0 }).0
}

/// Relies on `String::push`: the character is appended.
#[verifier::external_body]
pub(crate) fn push_char(out: &mut String, c: char)
    ensures
        final(out)@ == old(out)@.push(c),
{
    out.push(c);
}

/// The base64 digit for `d`.
fn b64(d: u64) -> (c: char)
    requires
        d < 64,
    ensures
        c == b64_digit(d as int),
{
    if d < 26 {
        (65 + d as u8) as char
    } else if d < 52 {
        (97 + (d - 26) as u8) as char
    } else if d < 62 {
        (48 + (d - 52) as u8) as char
    } else if d == 62 {
        '+'
    } else {
        '/'
    }
}

/// Appends the VLQ encoding of `num` to `out`.
pub fn encode_vlq(num: i64, out: &mut String)
    requires
        num != i64::MIN,
    ensures
        final(out)@ == old(out)@ + vlq(num as int),
{
    let mut z: u64 = if num < 0 { ((-num) as u64) * 2 + 1 } else { (num as u64) * 2 };
    let ghost z0 = z as int;
    let mut done = false;
    assert(old(out)@ + vlq_digits(z0) == out@ + vlq_digits(z as int));
    while !done
        invariant
            done ==> out@ == old(out)@ + vlq_digits(z0),
            !done ==> old(out)@ + vlq_digits(z0) == out@ + vlq_digits(z as int),
        decreases (if done { 0int } else { 1int }), z,
    {
        let low = z % 32;
        let rest = z / 32;
        let ghost before = out@;
        if rest > 0 {
            push_char(out, b64(low + 32));
            assert(vlq_digits(z as int) == seq![b64_digit(low + 32)] + vlq_digits(rest as int));
            assert(before + vlq_digits(z as int) =~= out@ + vlq_digits(rest as int));
        } else {
            push_char(out, b64(low));
            assert(vlq_digits(z as int) == seq![b64_digit(low as int)]);
            assert(before + vlq_digits(z as int) =~= out@);
            done = true;
        }
        z = rest;
    }
}

/// Segments, one row per line of the generated text, and the column that the
/// generated text has reached in the last row.
pub struct Mappings {
    generated_code_column: u32,
    raw: Vec<Vec<Segment>>,
}

impl Mappings {
    /// The rows of segments.
    pub closed spec fn rows(&self) -> Seq<Seq<Segment>> {
        Seq::new(self.raw@.len(), |i: int| self.raw@[i]@)
    }

    /// The generated column in the last row.
    pub closed spec fn column(&self) -> int {
        self.generated_code_column as int
    }

    pub closed spec fn wf(&self) -> bool {
        &&& self.raw@.len() >= 1
        &&& forall|i: int, j: int| 0 <= i < self.raw@.len() && 0 <= j < self.raw@[i]@.len() ==>
            segment_in_range(#[trigger] self.raw@[i]@[j])
    }

    pub fn new() -> (r: Mappings)
        ensures
            r.wf(),
            r.rows() == seq![Seq::<Segment>::empty()],
            r.column() == 0,
    {
        let mut raw: Vec<Vec<Segment>> = Vec::new();
        raw.push(Vec::new());
        let r = Mappings { generated_code_column: 0, raw };
        assert(r.rows() =~= seq![Seq::<Segment>::empty()]);
        r
    }

    fn add_segment_to_current_line(&mut self, seg: Segment)
        requires
            old(self).wf(),
            segment_in_range(seg),
        ensures
            final(self).wf(),
            final(self).rows() == push_segment(old(self).rows(), seg),
            final(self).column() == old(self).column(),
    {
        let last = self.raw.len() - 1;
        self.raw[last].push(seg);
        assert(self.rows() =~= push_segment(old(self).rows(), seg));
    }

    fn bump_line(&mut self)
        requires
            old(self).wf(),
        ensures
            final(self).wf(),
            final(self).rows() == old(self).rows().push(Seq::empty()),
            final(self).column() == 0,
    {
        self.generated_code_column = 0;
        self.raw.push(Vec::new());
        assert(self.rows() =~= old(self).rows().push(Seq::empty()));
    }

    /// The "mappings" text: the rows separated by `;`, the segments of a row by
    /// `,`, each segment as VLQ deltas.
    pub fn encoded(&self) -> (r: String)
        requires
            self.wf(),
        ensures
            r@ == mappings_text(self.rows()),
    {
        let ghost rows = self.rows();
        let ghost p0 = Previous { source_index: 0, src_line: 0, src_column: 0, name_index: 0 };
        let mut out = String::new();
        let mut p_source: i64 = 0;
        let mut p_line: i64 = 0;
        let mut p_column: i64 = 0;
        let mut p_name: i64 = 0;
        let mut i: usize = 0;
        assert(rows.take(0) =~= Seq::<Seq<Segment>>::empty());
        while i < self.raw.len()
            invariant
                self.wf(),
                rows == self.rows(),
                i <= rows.len(),
                ({
                    let (t, q) = encode_rows(rows.take(i as int), p0);
                    out@ == t && q == (Previous {
                        source_index: p_source as int,
                        src_line: p_line as int,
                        src_column: p_column as int,
                        name_index: p_name as int,
                    })
                }),
                0 <= p_source <= 0x2_0000_0000,
                0 <= p_line <= 0x2_0000_0000,
                0 <= p_column <= 0x2_0000_0000,
                0 <= p_name <= 0x2_0000_0000,
            decreases rows.len() - i,
        {
            let ghost row_start = out@;
            let ghost q_row = Previous { source_index: p_source as int, src_line: p_line as int, src_column: p_column as int, name_index: p_name as int };
            if i > 0 {
                push_char(&mut out, ';');
            }
            let ghost sep_done = out@;
            let row = &self.raw[i];
            let ghost segs = row@;
            assert(segs == rows[i as int]);
            let mut prev_column: i64 = 0;
            let mut j: usize = 0;
            assert(segs.take(0) =~= Seq::<Segment>::empty());
            while j < row.len()
                invariant
                    self.wf(),
                    rows == self.rows(),
                    i < rows.len(),
                    segs == rows[i as int],
                    segs == row@,
                    j <= segs.len(),
                    ({
                        let (t, q) = encode_row(segs.take(j as int), q_row);
                        out@ == sep_done + t && q == (Previous {
                            source_index: p_source as int,
                            src_line: p_line as int,
                            src_column: p_column as int,
                            name_index: p_name as int,
                        })
                    }),
                    prev_column == (if j > 0 { segs[j - 1].dst_column } else { 0 }),
                    0 <= prev_column <= 0x2_0000_0000,
                    0 <= p_source <= 0x2_0000_0000,
                    0 <= p_line <= 0x2_0000_0000,
                    0 <= p_column <= 0x2_0000_0000,
                    0 <= p_name <= 0x2_0000_0000,
                decreases segs.len() - j,
            {
                let ghost seg_start = out@;
                if j > 0 {
                    push_char(&mut out, ',');
                }
                let seg = row[j];
                assert(segment_in_range(self.raw@[i as int]@[j as int]));
                encode_vlq(seg.dst_column - prev_column, &mut out);
                encode_vlq(seg.source_index - p_source, &mut out);
                encode_vlq(seg.src_line - p_line, &mut out);
                encode_vlq(seg.src_column - p_column, &mut out);
                let ghost q_before = Previous { source_index: p_source as int, src_line: p_line as int, src_column: p_column as int, name_index: p_name as int };
                prev_column = seg.dst_column;
                p_source = seg.source_index;
                p_line = seg.src_line;
                p_column = seg.src_column;
                match seg.name_index {
                    Some(n) => {
                        encode_vlq(n - p_name, &mut out);
                        p_name = n;
                    },
                    None => {},
                }
                proof {
                    let k = j as int + 1;
                    assert(segs.take(k).drop_last() =~= segs.take(j as int));
                    assert(segs.take(k).last() == seg);
                    if k > 1 {
                        assert(segs.take(k)[k - 2] == segs[j - 1]);
                    }
                    assert(out@ =~= seg_start + (if j > 0 { seq![','] } else { Seq::empty() }) + encode_segment(seg, if j > 0 { segs[j - 1].dst_column as int } else { 0 }, q_before));
                }
                j = j + 1;
            }
            proof {
                assert(segs.take(j as int) =~= segs);
                let k = i as int + 1;
                assert(rows.take(k).drop_last() =~= rows.take(i as int));
                assert(rows.take(k).last() == segs);
            }
            i = i + 1;
        }
        assert(rows.take(i as int) =~= rows);
        out
    }

    /// Each segment as a token, row by row.
    pub fn tokens(&self) -> (r: Vec<Token>)
        requires
            self.wf(),
        ensures
            r@ == tokens_of(self.rows()),
    {
        let ghost rows = self.rows();
        let mut out: Vec<Token> = Vec::new();
        let mut i: usize = 0;
        assert(rows.take(0) =~= Seq::<Seq<Segment>>::empty());
        while i < self.raw.len()
            invariant
                self.wf(),
                rows == self.rows(),
                i <= rows.len(),
                out@ == tokens_of(rows.take(i as int)),
            decreases rows.len() - i,
        {
            let row = &self.raw[i];
            let ghost base = out@;
            let mut j: usize = 0;
            while j < row.len()
                invariant
                    self.wf(),
                    rows == self.rows(),
                    i < rows.len(),
                    row@ == rows[i as int],
                    j <= row@.len(),
                    out@ == base + Seq::new(j as nat, |k: int| token_of(i as int, rows[i as int][k])),
                decreases row@.len() - j,
            {
                let s = row[j];
                assert(segment_in_range(self.raw@[i as int]@[j as int]));
                let t = Token {
                    dst_line: i as u32,
                    dst_col: s.dst_column as u32,
                    src_line: s.src_line as u32,
                    src_col: s.src_column as u32,
                    source_id: Some(s.source_index as u32),
                    name_id: match s.name_index {
                        Some(n) => Some(n as u32),
                        None => None,
                    },
                };
                out.push(t);
                j = j + 1;
                assert(out@ =~= base + Seq::new(j as nat, |k: int| token_of(i as int, rows[i as int][k])));
            }
            proof {
                let k = i as int + 1;
                assert(rows.take(k).drop_last() =~= rows.take(i as int));
                assert(rows.take(k).last() == rows[i as int]);
                assert(out@ =~= tokens_of(rows.take(k)));
            }
            i = i + 1;
        }
        assert(rows.take(i as int) =~= rows);
        out
    }

    /// Moves the generated position past `content`, which maps to nothing.
    pub fn advance(&mut self, content: &str)
        requires
            old(self).wf(),
        ensures
            final(self).wf(),
            (final(self).rows(), final(self).column()) == advanced(old(self).rows(), old(self).column(), content.spec_bytes()),
    {
        let bytes = content.as_bytes();
        let mut i: usize = 0;
        assert(bytes@.take(0) =~= Seq::<u8>::empty());
        while i < bytes.len()
            invariant
                self.wf(),
                i <= bytes@.len(),
                bytes@ == content.spec_bytes(),
                (self.rows(), self.column()) == advanced(old(self).rows(), old(self).column(), bytes@.take(i as int)),
            decreases bytes@.len() - i,
        {
            let b = bytes[i];
            if b == 10 {
                self.bump_line();
            } else {
                self.generated_code_column = self.generated_code_column.saturating_add(byte_utf16_units(b));
            }
            proof {
                assert(bytes@.take(i as int + 1).drop_last() =~= bytes@.take(i as int));
            }
            i = i + 1;
        }
        assert(bytes@.take(i as int) =~= bytes@);
    }

    /// Adds the segments of one chunk, whose original text is in `source`.
    pub fn add_chunk(
        &mut self,
        chunk: &Chunk,
        locator: &Locator,
        source_index: u32,
        source: &str,
        name_index: Option<u32>,
    )
        requires
            old(self).wf(),
            chunk.span.0 <= chunk.span.1 <= source.spec_bytes().len() <= u32::MAX,
            locator.wf(),
            locator.source() == source.spec_bytes(),
        ensures
            final(self).wf(),
            (final(self).rows(), final(self).column()) == chunk_mapped(
                old(self).rows(),
                old(self).column(),
                chunk.piece(),
                source.spec_bytes(),
                source_index as int,
                match name_index {
                    Some(n) => Some(n as int),
                    None => None,
                },
            ),
    {
        let ghost src = source.spec_bytes();
        let start = chunk.start();
        let mut loc = locator.locate(start as usize);
        proof {
            lemma_location_bounds(src, start as int);
        }
        match &chunk.edited_content {
            Some(edited) => {
                if !edited.as_str().is_empty() {
                    let seg = Segment::new(
                        self.generated_code_column as i64,
                        source_index as i64,
                        loc.line as i64,
                        loc.column as i64,
                        match name_index {
                            Some(n) => Some(n as i64),
                            None => None,
                        },
                    );
                    self.add_segment_to_current_line(seg);
                }
                self.advance(edited.as_str());
            },
            None => {
                let bytes = source.as_bytes();
                let end = chunk.end();
                let mut q: usize = start as usize;
                let mut fresh = true;
                while q < end as usize
                    invariant
                        self.wf(),
                        bytes@ == src,
                        src.len() <= u32::MAX,
                        start <= q <= end <= src.len(),
                        loc.line == line_of(src, q as int),
                        loc.column == column_of(src, q as int),
                        ({
                            let w = walked(old(self).rows(), old(self).column(), src, start as int, q as int, source_index as int);
                            self.rows() == w.rows && self.column() == w.col && fresh == w.fresh
                        }),
                    decreases end - q,
                {
                    proof {
                        lemma_location_bounds(src, q as int);
                    }
                    let b = bytes[q];
                    if b == 10 {
                        loc.bump_line();
                        self.bump_line();
                        fresh = true;
                    } else {
                        if fresh {
                            let seg = Segment::new(
                                self.generated_code_column as i64,
                                source_index as i64,
                                loc.line as i64,
                                loc.column as i64,
                                None,
                            );
                            self.add_segment_to_current_line(seg);
                            fresh = false;
                        }
                        let units = byte_utf16_units(b);
                        loc.column = loc.column + units as u64;
                        self.generated_code_column = self.generated_code_column.saturating_add(units);
                    }
                    q = q + 1;
                }
            },
        }
    }
}

} // verus!
