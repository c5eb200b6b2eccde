use vstd::prelude::*;

verus! {

/// The position in an original source text that a generated position came from.
/// `source` indexes the map's table of source paths; `name`, when present,
/// indexes the table of identifier names.
#[derive(Clone, Copy, Debug)]
pub struct OriginalLocation {
    pub original_line: u32,
    pub original_column: u32,
    pub source: u32,
    pub name: Option<u32>,
}

impl OriginalLocation {
    pub fn new(original_line: u32, original_column: u32, source: u32, name: Option<u32>) -> (r:
        OriginalLocation)
        ensures
            r == (OriginalLocation { original_line, original_column, source, name }),
    {
        OriginalLocation { original_line, original_column, source, name }
    }
}

/// One mapping: a generated position, and the original position it came from.
/// A mapping with `original == None` is a pure boundary: it marks generated
/// text with no original counterpart, and is still significant.
#[derive(Clone, Copy, Debug)]
pub struct Mapping {
    pub generated_line: u32,
    pub generated_column: u32,
    pub original: Option<OriginalLocation>,
}

impl Mapping {
    pub fn new(generated_line: u32, generated_column: u32, original: Option<OriginalLocation>) -> (r:
        Mapping)
        ensures
            r == (Mapping { generated_line, generated_column, original }),
    {
        Mapping { generated_line, generated_column, original }
    }
}

} // verus!
