//! The record of one function: which names it binds, and where.

use vstd::prelude::*;
use crate::binding::{Count, Ident};
use crate::model::{shadowed_of, FunctionView, VarView};
use crate::report::{entries_of, FunctionReport, ShadowedVar};

verus! {

#[derive(Clone, Debug)]
struct Var {
    name: String,
    count: Count,
}

/// The shadow-tracking state of a single function-like declaration.
#[derive(Clone, Debug)]
pub struct Function {
    name: String,
    loc: usize,
    vars: Vec<Var>,
    has_shadow: bool,
}

impl View for Function {
    type V = FunctionView;

    closed spec fn view(&self) -> FunctionView {
        FunctionView {
            name: self.name@,
            loc: self.loc,
            vars: Seq::new(
                self.vars@.len(),
                |i: int| VarView { name: self.vars@[i].name@, cases: self.vars@[i].count@ },
            ),
            has_shadow: self.has_shadow,
        }
    }
}

impl Default for Function {
    fn default() -> (function: Function)
        ensures
            function@ == FunctionView::fresh(Seq::empty(), 0),
            function@.wf(),
    {
        Function::new(String::new(), 0)
    }
}

impl Function {
    pub fn new(name: String, loc: usize) -> (function: Function)
        ensures
            function@ == FunctionView::fresh(name@, loc),
            function@.wf(),
    {
        let function = Function { name, loc, vars: Vec::new(), has_shadow: false };
        assert(function@.vars =~= Seq::empty());
        function
    }

    /// Records that `ident` is bound in this function; tells whether the
    /// binding shadows an earlier one of the same name. The name is looked
    /// up by a scan over the names tracked so far, which are kept in the
    /// order of first binding.
    pub fn record(&mut self, ident: &Ident) -> (shadow: bool)
        requires
            old(self)@.wf(),
        ensures
            final(self)@ == old(self)@.record(ident@.name, ident@.line),
            final(self)@.wf(),
            shadow == (old(self)@.history(ident@.name).len() > 0),
    {
        let ghost before = self@;
        let mut i: usize = 0;
        while i < self.vars.len() && self.vars[i].name != ident.name
            invariant
                i <= self.vars.len(),
                *self == *old(self),
                forall|j: int| 0 <= j < i ==> (#[trigger] self@.vars[j]).name != ident@.name,
            decreases self.vars.len() - i,
        {
            i += 1;
        }
        proof {
            before.lemma_record_wf(ident@.name, ident@.line);
        }
        if i < self.vars.len() {
            assert(before.vars[i as int].name == ident@.name);
            assert(before.tracks(ident@.name));
            assert(before.index_of(ident@.name) == i);
            let original = self.vars[i].count.record(ident.line);
            if !original {
                self.has_shadow = true;
            }
            assert(self@.vars =~= before.record(ident@.name, ident@.line).vars);
            !original
        } else {
            assert(!before.tracks(ident@.name));
            let mut count = Count::new();
            count.record(ident.line);
            self.vars.push(Var { name: ident.name.clone(), count });
            assert(self@.vars =~= before.record(ident@.name, ident@.line).vars);
            false
        }
    }

    /// The names bound more than once, in the order in which each was first
    /// bound, each with its count and its lines.
    pub fn shadowed(&self) -> (vars: Vec<ShadowedVar>)
        ensures
            entries_of(vars@) == shadowed_of(self@.vars),
    {
        let ghost all = self@.vars;
        let mut vars: Vec<ShadowedVar> = Vec::new();
        let mut i: usize = 0;
        while i < self.vars.len()
            invariant
                i <= self.vars.len(),
                all == self@.vars,
                entries_of(vars@) == shadowed_of(all.take(i as int)),
            decreases self.vars.len() - i,
        {
            let ghost before = entries_of(vars@);
            let count = self.vars[i].count.len();
            if count > 1 {
                let var = ShadowedVar {
                    name: self.vars[i].name.clone(),
                    count,
                    lines: self.vars[i].count.lines(),
                };
                vars.push(var);
                assert(entries_of(vars@) =~= before.push(var@));
            }
            proof {
                assert(all.take(i + 1).drop_last() =~= all.take(i as int));
                assert(all.take(i + 1).last() == all[i as int]);
            }
            i += 1;
        }
        assert(all.take(i as int) =~= all);
        vars
    }

    /// What is reported of this function.
    pub fn report(&self) -> (report: FunctionReport)
        ensures
            report@ == self@.report(),
    {
        FunctionReport { name: self.name.clone(), loc: self.loc, vars: self.shadowed() }
    }

    pub fn name(&self) -> (name: &String)
        ensures
            name@ == self@.name,
    {
        &self.name
    }

    pub fn loc(&self) -> (loc: usize)
        ensures
            loc == self@.loc,
    {
        self.loc
    }

    pub fn has_shadow(&self) -> (flag: bool)
        ensures
            flag == self@.has_shadow,
    {
        self.has_shadow
    }
}

} // verus!
