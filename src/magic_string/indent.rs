use vstd::prelude::*;
use vstd::string::StringSliceAdditionalSpecFns;

use super::MagicString;
use crate::source_map::mappings::push_char;

verus! {

/// Whether a line starts at byte `s` and holds at least one byte.
pub open spec fn is_line_start(src: Seq<u8>, s: int) -> bool {
    0 <= s < src.len() && (s == 0 || src[s - 1] == 10u8)
}

/// Whether the line at `s` starts with a tab.
pub open spec fn is_tabbed(src: Seq<u8>, s: int) -> bool {
    is_line_start(src, s) && src[s] == 9u8
}

/// Whether the line at `s` starts with two spaces.
pub open spec fn is_spaced(src: Seq<u8>, s: int) -> bool {
    is_line_start(src, s) && s + 1 < src.len() && src[s] == 32u8 && src[s + 1] == 32u8
}

/// The spaces in a row from byte `s`.
pub open spec fn leading_spaces(src: Seq<u8>, s: int) -> nat
    decreases src.len() - s,
{
    if 0 <= s < src.len() && src[s] == 32u8 {
        1 + leading_spaces(src, s + 1)
    } else {
        0
    }
}

/// The lines before byte `k` that start with a tab.
pub open spec fn tabbed_before(src: Seq<u8>, k: int) -> nat
    decreases k,
{
    if k <= 0 {
        0
    } else {
        tabbed_before(src, k - 1) + if is_tabbed(src, k - 1) { 1nat } else { 0nat }
    }
}

/// The lines before byte `k` that start with two spaces.
pub open spec fn spaced_before(src: Seq<u8>, k: int) -> nat
    decreases k,
{
    if k <= 0 {
        0
    } else {
        spaced_before(src, k - 1) + if is_spaced(src, k - 1) { 1nat } else { 0nat }
    }
}

/// The fewest leading spaces of a line before byte `k` that starts with two
/// spaces, if there is such a line.
pub open spec fn fewest_spaces_before(src: Seq<u8>, k: int) -> Option<nat>
    decreases k,
{
    if k <= 0 {
        None
    } else {
        let rest = fewest_spaces_before(src, k - 1);
        if is_spaced(src, k - 1) {
            let here = leading_spaces(src, k - 1);
            match rest {
                Some(m) => Some(if here < m { here } else { m }),
                None => Some(here),
            }
        } else {
            rest
        }
    }
}

/// The indentation that a text seems to use: a tab where at least as many
/// lines start with a tab as with two spaces, else the fewest leading spaces
/// of the lines that start with two; none where no line is indented.
pub open spec fn guessed_indent(src: Seq<u8>) -> Option<Seq<char>> {
    let n = src.len() as int;
    let tabs = tabbed_before(src, n);
    let spaced = spaced_before(src, n);
    if tabs == 0 && spaced == 0 {
        None
    } else if tabs >= spaced {
        Some(seq!['\t'])
    } else {
        match fewest_spaces_before(src, n) {
            Some(m) => Some(Seq::new(m, |i: int| ' ')),
            None => Some(Seq::empty()),
        }
    }
}

proof fn lemma_leading_spaces_bound(src: Seq<u8>, s: int)
    requires
        0 <= s <= src.len(),
    ensures
        leading_spaces(src, s) <= src.len() - s,
    decreases src.len() - s,
{
    if s < src.len() {
        lemma_leading_spaces_bound(src, s + 1);
    }
}

proof fn lemma_counts_bound(src: Seq<u8>, k: int)
    requires
        0 <= k,
    ensures
        tabbed_before(src, k) <= k,
        spaced_before(src, k) <= k,
    decreases k,
{
    if k > 0 {
        lemma_counts_bound(src, k - 1);
    }
}

/// Guesses the indentation of `source`.
pub fn guess_indentor(source: &str) -> (r: Option<String>)
    ensures
        match r {
            Some(s) => guessed_indent(source.spec_bytes()) == Some(s@),
            None => guessed_indent(source.spec_bytes()) is None,
        },
{
    let bytes = source.as_bytes();
    let ghost src = bytes@;
    let n = bytes.len();
    let mut tabbed: usize = 0;
    let mut spaced: usize = 0;
    let mut fewest: Option<usize> = None;
    let mut i: usize = 0;
    while i < n
        invariant
            n == src.len(),
            bytes@ == src,
            i <= n,
            tabbed == tabbed_before(src, i as int),
            spaced == spaced_before(src, i as int),
            match fewest {
                Some(m) => fewest_spaces_before(src, i as int) == Some(m as nat),
                None => fewest_spaces_before(src, i as int) is None,
            },
        decreases n - i,
    {
        proof {
            lemma_counts_bound(src, i as int);
        }
        let starts_line = i == 0 || bytes[i - 1] == 10;
        if starts_line && bytes[i] == 9 {
            tabbed = tabbed + 1;
        } else if starts_line && i + 1 < n && bytes[i] == 32 && bytes[i + 1] == 32 {
            spaced = spaced + 1;
            let mut j: usize = i;
            while j < n && bytes[j] == 32
                invariant
                    n == src.len(),
                    bytes@ == src,
                    i <= j <= n,
                    leading_spaces(src, i as int) == (j - i) + leading_spaces(src, j as int),
                decreases n - j,
            {
                j = j + 1;
            }
            let here = j - i;
            fewest = match fewest {
                Some(m) => Some(if here < m { here } else { m }),
                None => Some(here),
            };
        }
        i = i + 1;
    }
    if tabbed == 0 && spaced == 0 {
        return None;
    }
    if tabbed >= spaced {
        let mut t = String::new();
        push_char(&mut t, '\t');
        assert(t@ =~= seq!['\t']);
        return Some(t);
    }
    let count = match fewest {
        Some(m) => m,
        None => 0,
    };
    let mut out = String::new();
    let mut k: usize = 0;
    while k < count
        invariant
            k <= count,
            out@ == Seq::new(k as nat, |x: int| ' '),
        decreases count - k,
    {
        push_char(&mut out, ' ');
        k = k + 1;
        assert(out@ =~= Seq::new(k as nat, |x: int| ' '));
    }
    proof {
        if fewest is None {
            assert(out@ =~= Seq::<char>::empty());
        }
    }
    Some(out)
}

impl MagicString {
    /// The indentation that the source seems to use, a tab where it shows none.
    pub fn guessed_indentor(&self) -> (r: String)
        requires
            self.wf(),
        ensures
            r@ == match guessed_indent(self.src()) {
                Some(s) => s,
                None => seq!['\t'],
            },
    {
        match guess_indentor(self.original()) {
            Some(s) => s,
            None => {
                let mut t = String::new();
                push_char(&mut t, '\t');
                assert(t@ =~= seq!['\t']);
                t
            },
        }
    }
}

} // verus!
