use vstd::prelude::*;
use vstd::string::{StrSliceExecFns, StringSliceAdditionalSpecFns};

verus! {

/// How many UTF-16 code units a byte of UTF-8 adds: one for the byte that
/// starts a character, and one more where that character needs four bytes.
pub open spec fn utf16_units(b: u8) -> int {
    (if 0x80 <= b < 0xC0 { 0int } else { 1int }) + (if b >= 0xF0 { 1int } else { 0int })
}

/// The line of byte offset `p` in `src`: the newlines before it.
pub open spec fn line_of(src: Seq<u8>, p: int) -> int
    decreases p,
{
    if p <= 0 {
        0
    } else {
        line_of(src, p - 1) + if src[p - 1] == 10u8 { 1int } else { 0int }
    }
}

/// The column of byte offset `p` in `src`, in UTF-16 code units since the last
/// newline before it.
pub open spec fn column_of(src: Seq<u8>, p: int) -> int
    decreases p,
{
    if p <= 0 {
        0
    } else if src[p - 1] == 10u8 {
        0
    } else {
        column_of(src, p - 1) + utf16_units(src[p - 1])
    }
}

pub proof fn lemma_location_bounds(src: Seq<u8>, p: int)
    requires
        0 <= p <= src.len(),
    ensures
        0 <= line_of(src, p) <= p,
        0 <= column_of(src, p) <= 2 * p,
    decreases p,
{
    if p > 0 {
        lemma_location_bounds(src, p - 1);
    }
}

/// The UTF-16 code units that a byte adds.
pub fn byte_utf16_units(b: u8) -> (r: u32)
    ensures
        r as int == utf16_units(b),
{
    let lead: u32 = if 0x80 <= b && b < 0xC0 { 0 } else { 1 };
    let extra: u32 = if b >= 0xF0 { 1 } else { 0 };
    lead + extra
}

/// Finds the line and column of byte offsets in one source text.
pub struct Locator {
    source: Vec<u8>,
    /// The byte offset at which each line starts.
    line_offsets: Vec<usize>,
}

/// A line and a column, both counted from 0.
#[derive(Debug, PartialEq, Eq, Structural, Clone, Copy)]
pub struct Location {
    pub line: u64,
    pub column: u64,
}

impl Locator {
    /// The source that the locator reads.
    pub closed spec fn source(&self) -> Seq<u8> {
        self.source@
    }

    /// Line `k` holds no newline before its last byte, which is read up to `upto`
    /// for the last line.
    closed spec fn line_is_whole(src: Seq<u8>, offs: Seq<usize>, k: int, upto: int) -> bool {
        let stop = if k + 1 < offs.len() { offs[k + 1] - 1 } else { upto };
        forall|q: int| offs[k] <= q < stop ==> #[trigger] src[q] != 10u8
    }

    closed spec fn offsets_ok(src: Seq<u8>, offs: Seq<usize>, upto: int) -> bool {
        &&& offs.len() >= 1
        &&& offs[0] == 0
        &&& forall|k: int| 0 <= k < offs.len() ==> #[trigger] offs[k] <= upto
        &&& forall|k: int| 0 < k < offs.len() ==> #[trigger] offs[k] >= 1 && src[offs[k] - 1] == 10u8
        &&& forall|i: int, j: int| 0 <= i < j < offs.len() ==> #[trigger] offs[i] < #[trigger] offs[j]
        &&& forall|k: int| 0 <= k < offs.len() ==> #[trigger] line_of(src, offs[k] as int) == k
        &&& forall|k: int| 0 <= k < offs.len() ==> #[trigger] Self::line_is_whole(src, offs, k, upto)
    }

    pub closed spec fn wf(&self) -> bool {
        Self::offsets_ok(self.source@, self.line_offsets@, self.source@.len() as int)
    }

    pub fn new(source: &str) -> (r: Locator)
        ensures
            r.wf(),
            r.source() == source.spec_bytes(),
    {
        let bytes = source.as_bytes_vec();
        let ghost src = bytes@;
        let mut line_offsets: Vec<usize> = Vec::new();
        line_offsets.push(0);
        let mut i: usize = 0;
        proof {
            assert(Self::line_is_whole(src, line_offsets@, 0, 0));
        }
        while i < bytes.len()
            invariant
                bytes@ == src,
                i <= src.len(),
                Self::offsets_ok(src, line_offsets@, i as int),
                line_of(src, i as int) == line_offsets@.len() - 1,
            decreases src.len() - i,
        {
            let ghost offs = line_offsets@;
            if bytes[i] == 10 {
                line_offsets.push(i + 1);
                proof {
                    let no = line_offsets@;
                    let last = offs.len() - 1;
                    assert forall|k: int| 0 <= k < no.len() implies #[trigger] Self::line_is_whole(src, no, k, i as int + 1) by {
                        if k < last {
                            assert(Self::line_is_whole(src, offs, k, i as int));
                        } else if k == last {
                            assert(Self::line_is_whole(src, offs, k, i as int));
                        } else {
                        }
                    }
                    assert forall|a: int, b: int| 0 <= a < b < no.len() implies #[trigger] no[a] < #[trigger] no[b] by {
                        if b < offs.len() {
                            assert(offs[a] < offs[b]);
                        } else {
                            assert(offs[a] <= i);
                        }
                    }
                    assert forall|k: int| 0 <= k < no.len() implies #[trigger] line_of(src, no[k] as int) == k by {
                        if k < offs.len() {
                            assert(no[k] == offs[k]);
                        }
                    }
                }
            } else {
                proof {
                    assert forall|k: int| 0 <= k < offs.len() implies #[trigger] Self::line_is_whole(src, offs, k, i as int + 1) by {
                        assert(Self::line_is_whole(src, offs, k, i as int));
                    }
                }
            }
            i = i + 1;
        }
        Locator { source: bytes, line_offsets }
    }

    /// The line and column of byte offset `index`: the line by a binary search
    /// over the line starts, the column by the bytes of that line before it.
    pub fn locate(&self, index: usize) -> (r: Location)
        requires
            self.wf(),
            index <= self.source().len(),
            2 * index <= u64::MAX,
        ensures
            r.line == line_of(self.source(), index as int),
            r.column == column_of(self.source(), index as int),
    {
        let ghost src = self.source@;
        let ghost offs = self.line_offsets@;
        let mut lo: usize = 0;
        let mut hi: usize = self.line_offsets.len();
        while hi - lo > 1
            invariant
                self.wf(),
                src == self.source@,
                offs == self.line_offsets@,
                0 <= lo < hi <= offs.len(),
                offs[lo as int] <= index,
                hi == offs.len() || offs[hi as int] > index,
            decreases hi - lo,
        {
            let mid = lo + (hi - lo) / 2;
            if self.line_offsets[mid] <= index {
                lo = mid;
            } else {
                hi = mid;
            }
        }
        let start = self.line_offsets[lo];
        proof {
            assert(Self::line_is_whole(src, offs, lo as int, src.len() as int));
            assert(line_of(src, start as int) == lo);
            lemma_location_bounds(src, start as int);
            if lo > 0 {
                assert(src[start - 1] == 10u8);
            }
            if lo + 1 < offs.len() {
                assert(offs[lo + 1] > index);
            }
        }
        let mut q: usize = start;
        let mut column: u64 = 0;
        while q < index
            invariant
                self.wf(),
                src == self.source@,
                offs == self.line_offsets@,
                start <= q <= index <= src.len(),
                2 * index <= u64::MAX,
                start == offs[lo as int],
                lo < offs.len(),
                lo + 1 < offs.len() ==> offs[lo + 1] > index,
                Self::line_is_whole(src, offs, lo as int, src.len() as int),
                line_of(src, q as int) == lo,
                column == column_of(src, q as int),
            decreases index - q,
        {
            proof {
                lemma_location_bounds(src, q as int);
                assert(src[q as int] != 10u8);
            }
            column = column + byte_utf16_units(self.source[q]) as u64;
            q = q + 1;
        }
        Location { line: lo as u64, column }
    }
}

impl Location {
    /// Moves to the start of the next line.
    pub fn bump_line(&mut self)
        requires
            old(self).line < u64::MAX,
        ensures
            final(self).line == old(self).line + 1,
            final(self).column == 0,
    {
        self.line = self.line + 1;
        self.column = 0;
    }
}

} // verus!
