use vstd::prelude::*;

verus! {

/// One rendered chunk of the tab strip: its styled text, its display width in
/// terminal columns, and the 0-based position of the tab it stands for, if
/// any.
#[derive(Debug)]
pub struct LinePart {
    pub part: String,
    pub len: usize,
    pub tab_index: Option<usize>,
}

} // verus!
