use vstd::prelude::*;

use super::mappings::{mappings_text, Mappings};
use super::SourceMap;

verus! {

/// A source map whose mappings are still rows of segments.
pub struct DecodedMap {
    pub version: u8,
    pub sources: Vec<String>,
    pub sources_content: Vec<String>,
    pub mappings: Mappings,
    pub names: Vec<String>,
}

impl DecodedMap {
    /// The same map with its mappings encoded.
    pub fn into_source_map(self) -> (r: SourceMap)
        requires
            self.mappings.wf(),
        ensures
            r.version == self.version,
            r.sources == self.sources,
            r.sources_content == self.sources_content,
            r.names == self.names,
            r.mappings@ == mappings_text(self.mappings.rows()),
    {
        let mappings = self.mappings.encoded();
        SourceMap {
            version: self.version,
            sources: self.sources,
            sources_content: self.sources_content,
            mappings,
            names: self.names,
        }
    }
}

} // verus!
