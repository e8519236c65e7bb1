//! The analysis of one file: the functions met so far and the file's flag.

use vstd::prelude::*;
use syn::punctuated::Punctuated;
use syn::token::Or;
use syn::Pat;
use crate::binding::{bindings_of, bound_names, Ident};
use crate::function::Function;
use crate::model::{flagged, CounterView};
use crate::pattern::{alternatives, get_idents};
use crate::report::{reports_of, FunctionReport};

verus! {

/// Why an analysis stopped.
#[derive(Clone, Copy, Debug, PartialEq, Eq)]
pub enum ShadowError {
    /// A binding statement was met while no function was open. `line` is
    /// the line of the statement.
    BindingOutsideFunction { line: usize },
}

/// The analysis state of one file.
pub struct ShadowCounter<'a> {
    funcs: Vec<Function>,
    open: Vec<usize>,
    filename: &'a str,
    has_shadow: bool,
}

impl<'a> View for ShadowCounter<'a> {
    type V = CounterView;

    closed spec fn view(&self) -> CounterView {
        CounterView {
            filename: self.filename@,
            funcs: Seq::new(self.funcs@.len(), |i: int| self.funcs@[i]@),
            open: Seq::new(self.open@.len(), |k: int| self.open@[k] as int),
            has_shadow: self.has_shadow,
        }
    }
}

impl<'a> ShadowCounter<'a> {
    pub fn new(filename: &'a str) -> (counter: ShadowCounter<'a>)
        ensures
            counter@ == CounterView::fresh(filename@),
            counter@.wf(),
    {
        let counter = ShadowCounter {
            filename,
            funcs: Vec::new(),
            open: Vec::new(),
            has_shadow: false,
        };
        assert(counter@.funcs =~= Seq::empty());
        assert(counter@.open =~= Seq::empty());
        counter
    }

    /// Enters a function-like declaration: it gets a record with nothing
    /// bound yet and becomes the innermost open function.
    pub fn enter_function(&mut self, name: String, loc: usize)
        requires
            old(self)@.wf(),
        ensures
            final(self)@ == old(self)@.enter(name@, loc),
            final(self)@.wf(),
    {
        let ghost before = self@;
        let index = self.funcs.len();
        self.funcs.push(Function::new(name, loc));
        self.open.push(index);
        proof {
            before.lemma_enter_wf(name@, loc);
            assert(self@.funcs =~= before.enter(name@, loc).funcs);
            assert(self@.open =~= before.enter(name@, loc).open);
        }
    }

    /// Leaves the innermost open function: the function that encloses it,
    /// if any, is current again. Where none is open, nothing changes.
    pub fn leave_function(&mut self)
        requires
            old(self)@.wf(),
        ensures
            final(self)@ == old(self)@.leave(),
            final(self)@.wf(),
    {
        let ghost before = self@;
        if self.open.len() > 0 {
            self.open.pop();
            assert(self@.open =~= before.leave().open);
            assert(self@.funcs =~= before.funcs);
        }
        proof {
            before.lemma_leave_wf();
        }
    }

    /// Records the names bound by the binding statement at `line`, in their
    /// order, in the innermost open function. Fails, and changes nothing,
    /// where no function is open.
    pub fn bind_idents(&mut self, line: usize, idents: &Vec<Ident>) -> (result: Result<
        (),
        ShadowError,
    >)
        requires
            old(self)@.wf(),
        ensures
            final(self)@.wf(),
            match result {
                Ok(()) => old(self)@.inside() && final(self)@ == old(self)@.bind_all(
                    bindings_of(idents@),
                ),
                Err(error) => !old(self)@.inside() && final(self)@ == old(self)@ && error
                    == (ShadowError::BindingOutsideFunction { line }),
            },
    {
        let depth = self.open.len();
        if depth == 0 {
            return Err(ShadowError::BindingOutsideFunction { line });
        }
        let current = self.open[depth - 1];
        let ghost before = self@;
        let ghost bindings = bindings_of(idents@);
        assert(before.open[depth - 1] == current);
        let mut k: usize = 0;
        while k < idents.len()
            invariant
                k <= idents.len(),
                before.wf(),
                before.inside(),
                before.current() == current,
                bindings == bindings_of(idents@),
                self@.wf(),
                self@.open == before.open,
                self@ == before.bind_all(bindings.take(k as int)),
            decreases idents.len() - k,
        {
            let ghost here = self@;
            assert(here.open[here.open.len() - 1] == current);
            assert(here.funcs[current as int].wf());
            assert(here.funcs[current as int] == self.funcs@[current as int]@);
            let shadow = self.funcs[current].record(&idents[k]);
            if shadow {
                self.has_shadow = true;
            }
            proof {
                let binding = bindings[k as int];
                here.lemma_bind_wf(binding);
                here.funcs[current as int].lemma_record_history(binding.name, binding.line);
                assert(self@.funcs =~= here.bind(binding).funcs);
                assert(self@.open =~= here.open);
                assert(bindings.take(k + 1).drop_last() =~= bindings.take(k as int));
                assert(bindings.take(k + 1).last() == binding);
            }
            k += 1;
        }
        assert(bindings.take(k as int) =~= bindings);
        Ok(())
    }

    /// Handles the binding statement at `line`: records the names that its
    /// pattern binds by value, in the innermost open function.
    pub fn visit_local(&mut self, line: usize, pattern: &Punctuated<Pat, Or>) -> (result: Result<
        (),
        ShadowError,
    >)
        requires
            old(self)@.wf(),
        ensures
            final(self)@.wf(),
            match result {
                Ok(()) => old(self)@.inside() && final(self)@ == old(self)@.bind_all(
                    bound_names(alternatives(*pattern)),
                ),
                Err(error) => !old(self)@.inside() && final(self)@ == old(self)@ && error
                    == (ShadowError::BindingOutsideFunction { line }),
            },
    {
        let idents = get_idents(pattern);
        self.bind_idents(line, &idents)
    }

    /// What is reported of the file: nothing where no name was shadowed,
    /// else one entry for each function in which one was, in source order.
    pub fn report(&self) -> (reports: Vec<FunctionReport>)
        ensures
            reports_of(reports@) == self@.report(),
    {
        let mut reports: Vec<FunctionReport> = Vec::new();
        if !self.has_shadow {
            assert(reports_of(reports@) =~= Seq::empty());
            return reports;
        }
        let ghost all = self@.funcs;
        let mut i: usize = 0;
        while i < self.funcs.len()
            invariant
                i <= self.funcs.len(),
                all == self@.funcs,
                reports_of(reports@) == flagged(all.take(i as int)),
            decreases self.funcs.len() - i,
        {
            let ghost before = reports_of(reports@);
            if self.funcs[i].has_shadow() {
                let report = self.funcs[i].report();
                reports.push(report);
                assert(reports_of(reports@) =~= before.push(report@));
            }
            proof {
                assert(all.take(i + 1).drop_last() =~= all.take(i as int));
                assert(all.take(i + 1).last() == all[i as int]);
            }
            i += 1;
        }
        assert(all.take(i as int) =~= all);
        reports
    }

    pub fn filename(&self) -> (filename: &'a str)
        ensures
            filename@ == self@.filename,
    {
        self.filename
    }

    pub fn has_shadow(&self) -> (flag: bool)
        ensures
            flag == self@.has_shadow,
    {
        self.has_shadow
    }

    /// How many functions are open; a binding is accepted where this is
    /// not zero.
    pub fn depth(&self) -> (depth: usize)
        ensures
            depth == self@.open.len(),
    {
        self.open.len()
    }

    /// The function records, in source order.
    pub fn funcs(&self) -> (funcs: &Vec<Function>)
        ensures
            funcs@.len() == self@.funcs.len(),
            forall|i: int| 0 <= i < funcs@.len() ==> (#[trigger] funcs@[i])@ == self@.funcs[i],
    {
        &self.funcs
    }
}

} // verus!
