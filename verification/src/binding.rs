//! Binding occurrences and the history of one name.

use vstd::prelude::*;

verus! {

/// One place where a name is bound: its line, and whether it was the first
/// binding of that name in its function.
#[derive(Clone, Copy, Debug, PartialEq, Eq, Structural)]
pub struct Case {
    pub loc: usize,
    pub is_original: bool,
}

impl Case {
    pub fn new(loc: usize, is_original: bool) -> (case: Case)
        ensures
            case == (Case { loc, is_original }),
    {
        Case { loc, is_original }
    }
}

impl Default for Case {
    fn default() -> (case: Case)
        ensures
            case == (Case { loc: 0, is_original: false }),
    {
        Case { loc: 0, is_original: false }
    }
}

/// A history is in order when its first occurrence, and no other, is marked
/// as the first binding of the name.
pub open spec fn history_ok(history: Seq<Case>) -> bool {
    forall|i: int| 0 <= i < history.len() ==> (#[trigger] history[i]).is_original == (i == 0)
}

/// The history after one more binding at `line`.
pub open spec fn extend(history: Seq<Case>, line: usize) -> Seq<Case> {
    history.push(Case { loc: line, is_original: history.len() == 0 })
}

/// The lines of a history, in the order of binding.
pub open spec fn lines_of(history: Seq<Case>) -> Seq<usize> {
    Seq::new(history.len(), |i: int| history[i].loc)
}

/// The ordered, append-only binding history of one name in one function.
#[derive(Clone, Debug)]
pub struct Count {
    locs: Vec<Case>,
}

impl View for Count {
    type V = Seq<Case>;

    closed spec fn view(&self) -> Seq<Case> {
        self.locs@
    }
}

impl Default for Count {
    fn default() -> (count: Count)
        ensures
            count@ == Seq::<Case>::empty(),
    {
        Count::new()
    }
}

impl Count {
    pub fn new() -> (count: Count)
        ensures
            count@ == Seq::<Case>::empty(),
    {
        Count { locs: Vec::new() }
    }

    /// Appends a binding at `line`; tells whether it was the first.
    pub fn record(&mut self, line: usize) -> (is_original: bool)
        ensures
            final(self)@ == extend(old(self)@, line),
            is_original == (old(self)@.len() == 0),
    {
        let is_original: bool = self.locs.len() == 0;
        self.locs.push(Case::new(line, is_original));
        is_original
    }

    pub fn len(&self) -> (n: usize)
        ensures
            n == self@.len(),
    {
        self.locs.len()
    }

    /// The occurrences, oldest first.
    pub fn locs(&self) -> (locs: &Vec<Case>)
        ensures
            locs@ == self@,
    {
        &self.locs
    }

    /// The lines at which the name was bound, oldest first.
    pub fn lines(&self) -> (lines: Vec<usize>)
        ensures
            lines@ == lines_of(self@),
    {
        let mut lines: Vec<usize> = Vec::new();
        let mut i: usize = 0;
        while i < self.locs.len()
            invariant
                i <= self.locs.len(),
                lines@ == lines_of(self.locs@.take(i as int)),
            decreases self.locs.len() - i,
        {
            lines.push(self.locs[i].loc);
            i += 1;
            assert(lines@ =~= lines_of(self.locs@.take(i as int)));
        }
        assert(self.locs@.take(i as int) =~= self.locs@);
        lines
    }
}

/// A name bound at a line.
pub ghost struct Binding {
    pub name: Seq<char>,
    pub line: usize,
}

/// An identifier as the tracker reads it: its text and the line it stands on.
#[derive(Clone, Debug)]
pub struct Ident {
    pub name: String,
    pub line: usize,
}

impl View for Ident {
    type V = Binding;

    open spec fn view(&self) -> Binding {
        Binding { name: self.name@, line: self.line }
    }
}

impl Ident {
    pub fn new(name: String, line: usize) -> (ident: Ident)
        ensures
            ident@ == (Binding { name: name@, line }),
    {
        Ident { name, line }
    }
}

/// The bindings that a sequence of identifiers stands for.
pub open spec fn bindings_of(idents: Seq<Ident>) -> Seq<Binding> {
    Seq::new(idents.len(), |i: int| idents[i]@)
}

/// One alternative of a binding statement's pattern.
#[derive(Clone, Debug)]
pub enum Pattern {
    /// A plain name, bound by value or by reference.
    Ident { by_ref: bool, ident: Ident },
    /// Any other form of pattern; it binds nothing that is tracked.
    Other,
}

impl View for Pattern {
    /// For a plain name: whether it is bound by reference, its text and its
    /// line. `None` for every other form.
    type V = Option<(bool, Seq<char>, usize)>;

    open spec fn view(&self) -> Option<(bool, Seq<char>, usize)> {
        match *self {
            Pattern::Ident { by_ref, ident } => Some((by_ref, ident.name@, ident.line)),
            Pattern::Other => None,
        }
    }
}

/// The shapes of a sequence of alternatives.
pub open spec fn shapes_of(patterns: Seq<Pattern>) -> Seq<Option<(bool, Seq<char>, usize)>> {
    Seq::new(patterns.len(), |i: int| patterns[i]@)
}

/// The names that a pattern binds by value, in the order of its
/// alternatives. Names bound by reference and other forms of pattern give
/// nothing.
pub open spec fn bound_names(shapes: Seq<Option<(bool, Seq<char>, usize)>>) -> Seq<Binding>
    decreases shapes.len(),
{
    if shapes.len() == 0 {
        Seq::empty()
    } else {
        let rest = bound_names(shapes.drop_last());
        match shapes.last() {
            Some((by_ref, name, line)) => if by_ref {
                rest
            } else {
                rest.push(Binding { name, line })
            },
            None => rest,
        }
    }
}

} // verus!
