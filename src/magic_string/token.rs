use vstd::prelude::*;

verus! {

/// One decoded mapping: a generated line and column and where it comes from.
#[derive(Debug, PartialEq, Eq, Structural, Clone, Copy)]
pub struct Token {
    pub dst_line: u32,
    pub dst_col: u32,
    pub src_line: u32,
    pub src_col: u32,
    pub source_id: Option<u32>,
    pub name_id: Option<u32>,
}

/// A run of tokens with the values that the first of them is encoded against.
#[derive(Debug, Clone, Copy, Default, PartialEq, Eq, Structural)]
pub struct TokenChunk {
    pub start: u32,
    pub end: u32,
    pub prev_dst_line: u32,
    pub prev_dst_col: u32,
    pub prev_src_line: u32,
    pub prev_src_col: u32,
    pub prev_name_id: u32,
    pub prev_source_id: u32,
}

impl Token {
    pub fn new(
        dst_line: u32,
        dst_col: u32,
        src_line: u32,
        src_col: u32,
        source_id: Option<u32>,
        name_id: Option<u32>,
    ) -> (r: Token)
        ensures
            r == (Token { dst_line, dst_col, src_line, src_col, source_id, name_id }),
    {
        Token { dst_line, dst_col, src_line, src_col, source_id, name_id }
    }
}

} // verus!
