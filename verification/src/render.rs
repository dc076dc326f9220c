//! A render context: the lines that rendering has produced so far.

use vstd::prelude::*;

verus! {

/// The lines rendered so far.
#[derive(Debug)]
pub struct RenderCtx {
    lines: Vec<String>,
}

impl View for RenderCtx {
    type V = Seq<Seq<char>>;

    closed spec fn view(&self) -> Seq<Seq<char>> {
        self.lines@.map_values(|s: String| s@)
    }
}

impl RenderCtx {
    /// A context with no lines.
    pub fn new() -> (r: Self)
        ensures
            r@ == Seq::<Seq<char>>::empty(),
    {
        let r = RenderCtx { lines: Vec::new() };
        assert(r@ =~= Seq::<Seq<char>>::empty());
        r
    }

    /// Appends a line.
    pub fn push_line(&mut self, line: &str)
        ensures
            final(self)@ == old(self)@.push(line@),
    {
        let ghost before = self.lines@;
        self.lines.push(line.to_owned());
        assert(self.lines@.map_values(|s: String| s@) =~= before.map_values(|s: String| s@).push(
            line@,
        ));
    }

    /// The number of lines.
    pub fn len(&self) -> (r: usize)
        ensures
            r == self@.len(),
    {
        self.lines.len()
    }

    /// The line at place `i`.
    pub fn line(&self, i: usize) -> (r: &str)
        requires
            i < self@.len(),
        ensures
            r@ == self@[i as int],
    {
        self.lines[i].as_str()
    }
}

} // verus!
