use vstd::prelude::*;

verus! {

/// A range of characters `start..end` of a source file.
#[derive(Debug, Default)]
pub struct Span {
    pub file_path: String,
    pub start: usize,
    pub end: usize,
}

impl Clone for Span {
    fn clone(&self) -> (res: Self)
        ensures
            res == *self,
    {
        Span { file_path: self.file_path.clone(), start: self.start, end: self.end }
    }
}

/// Where a node was written never tells two nodes apart: all spans compare equal.
impl PartialEq for Span {
    fn eq(&self, other: &Self) -> (res: bool) {
        true
    }
}

impl vstd::std_specs::cmp::PartialEqSpecImpl for Span {
    open spec fn obeys_eq_spec() -> bool {
        true
    }

    open spec fn eq_spec(&self, other: &Span) -> bool {
        true
    }
}

impl Span {
    /// The span that covers nothing of an unnamed file.
    pub fn empty() -> (res: Self)
        ensures
            res.file_path@ == Seq::<char>::empty(),
            res.start == 0,
            res.end == 0,
    {
        Span { file_path: String::new(), start: 0, end: 0 }
    }
}

} // verus!
