//! The mathematical model of function records and of a file's report.

use vstd::prelude::*;
use crate::binding::{extend, history_ok, lines_of, Binding, Case};

verus! {

/// One tracked name with its history.
pub ghost struct VarView {
    pub name: Seq<char>,
    pub cases: Seq<Case>,
}

/// A function record: the tracked names in the order in which each was first
/// bound, each with its history.
pub ghost struct FunctionView {
    pub name: Seq<char>,
    pub loc: usize,
    pub vars: Seq<VarView>,
    pub has_shadow: bool,
}

impl FunctionView {
    /// The record of a function that has bound nothing yet.
    pub open spec fn fresh(name: Seq<char>, loc: usize) -> FunctionView {
        FunctionView { name, loc, vars: Seq::empty(), has_shadow: false }
    }

    pub open spec fn tracks(self, name: Seq<char>) -> bool {
        exists|i: int| 0 <= i < self.vars.len() && (#[trigger] self.vars[i]).name == name
    }

    pub open spec fn index_of(self, name: Seq<char>) -> int {
        choose|i: int| 0 <= i < self.vars.len() && (#[trigger] self.vars[i]).name == name
    }

    /// The binding history of `name`; empty where the name was never bound.
    pub open spec fn history(self, name: Seq<char>) -> Seq<Case> {
        if self.tracks(name) {
            self.vars[self.index_of(name)].cases
        } else {
            Seq::empty()
        }
    }

    /// The record after `name` is bound at `line`.
    pub open spec fn record(self, name: Seq<char>, line: usize) -> FunctionView {
        if self.tracks(name) {
            let i = self.index_of(name);
            FunctionView {
                vars: self.vars.update(
                    i,
                    VarView { name, cases: extend(self.vars[i].cases, line) },
                ),
                has_shadow: self.has_shadow || self.vars[i].cases.len() > 0,
                ..self
            }
        } else {
            FunctionView {
                vars: self.vars.push(VarView { name, cases: extend(Seq::empty(), line) }),
                ..self
            }
        }
    }

    /// The record after each of `bindings` is recorded, first to last.
    pub open spec fn record_all(self, bindings: Seq<Binding>) -> FunctionView
        decreases bindings.len(),
    {
        if bindings.len() == 0 {
            self
        } else {
            self.record_all(bindings.drop_last()).record(
                bindings.last().name,
                bindings.last().line,
            )
        }
    }

    /// No name is tracked twice, each history is non-empty and in order, and
    /// the flag is set exactly when some history holds more than one binding.
    pub open spec fn wf(self) -> bool {
        &&& forall|i: int, j: int|
            0 <= i < j < self.vars.len() ==> (#[trigger] self.vars[i]).name != (
            #[trigger] self.vars[j]).name
        &&& forall|i: int|
            0 <= i < self.vars.len() ==> (#[trigger] self.vars[i]).cases.len() > 0 && history_ok(
                self.vars[i].cases,
            )
        &&& self.has_shadow <==> exists|i: int|
            0 <= i < self.vars.len() && (#[trigger] self.vars[i]).cases.len() > 1
    }

    /// Recording a name appends to that name's history and leaves every
    /// other history as it was; the flag is raised exactly when the name
    /// had a history already.
    pub proof fn lemma_record_history(self, name: Seq<char>, line: usize)
        requires
            self.wf(),
        ensures
            self.record(name, line).history(name) == extend(self.history(name), line),
            forall|other: Seq<char>|
                other != name ==> #[trigger] self.record(name, line).history(other)
                    == self.history(other),
            self.record(name, line).has_shadow == (self.has_shadow || self.history(name).len()
                > 0),
    {
        let after = self.record(name, line);
        self.lemma_record_wf(name, line);
        if self.tracks(name) {
            let i = self.index_of(name);
            assert(after.vars[i].name == name);
            assert(after.tracks(name));
            assert(after.index_of(name) == i);
        } else {
            let n = self.vars.len() as int;
            assert(after.vars[n].name == name);
            assert(after.tracks(name));
            assert(after.index_of(name) == n);
        }
        assert forall|other: Seq<char>| other != name implies #[trigger] after.history(other)
            == self.history(other) by {
            if self.tracks(other) {
                let k = self.index_of(other);
                assert(after.vars[k].name == other);
                assert(after.tracks(other));
                assert(after.index_of(other) == k);
            } else {
                if after.tracks(other) {
                    let k = after.index_of(other);
                    assert(after.vars[k].name == other);
                    assert(k < self.vars.len());
                    assert(self.vars[k].name == other);
                }
            }
        }
    }

    /// Recording keeps a record well formed.
    pub proof fn lemma_record_wf(self, name: Seq<char>, line: usize)
        requires
            self.wf(),
        ensures
            self.record(name, line).wf(),
    {
        let after = self.record(name, line);
        if self.tracks(name) {
            let i = self.index_of(name);
            assert(after.vars[i].cases.len() > 1);
            assert forall|k: int| 0 <= k < after.vars.len() implies (#[trigger] after.vars[k]).name
                == self.vars[k].name by {}
            if self.has_shadow {
                let w = choose|w: int|
                    0 <= w < self.vars.len() && (#[trigger] self.vars[w]).cases.len() > 1;
                assert(after.vars[w].cases.len() > 1);
            }
        } else {
            let n = self.vars.len() as int;
            assert(after.vars[n].cases.len() == 1);
            if after.has_shadow {
                let w = choose|w: int|
                    0 <= w < self.vars.len() && (#[trigger] self.vars[w]).cases.len() > 1;
                assert(after.vars[w].cases.len() > 1);
            }
            if exists|w: int| 0 <= w < after.vars.len() && (#[trigger] after.vars[w]).cases.len() > 1 {
                let w = choose|w: int|
                    0 <= w < after.vars.len() && (#[trigger] after.vars[w]).cases.len() > 1;
                assert(w < n);
                assert(self.vars[w].cases.len() > 1);
            }
        }
    }
}

/// What is reported of one shadowed name: how often it was bound, and where.
pub ghost struct ShadowedVarView {
    pub name: Seq<char>,
    pub count: nat,
    pub lines: Seq<usize>,
}

/// What is reported of one function: its name, its line, and its shadowed
/// names.
pub ghost struct FunctionReportView {
    pub name: Seq<char>,
    pub loc: usize,
    pub vars: Seq<ShadowedVarView>,
}

/// The entries for those of `vars` that were bound more than once, in the
/// order of `vars`.
pub open spec fn shadowed_of(vars: Seq<VarView>) -> Seq<ShadowedVarView>
    decreases vars.len(),
{
    if vars.len() == 0 {
        Seq::empty()
    } else {
        let rest = shadowed_of(vars.drop_last());
        let var = vars.last();
        if var.cases.len() > 1 {
            rest.push(
                ShadowedVarView {
                    name: var.name,
                    count: var.cases.len(),
                    lines: lines_of(var.cases),
                },
            )
        } else {
            rest
        }
    }
}

impl FunctionView {
    pub open spec fn report(self) -> FunctionReportView {
        FunctionReportView { name: self.name, loc: self.loc, vars: shadowed_of(self.vars) }
    }
}

/// The reports of those of `funcs` whose flag is set, in the order of `funcs`.
pub open spec fn flagged(funcs: Seq<FunctionView>) -> Seq<FunctionReportView>
    decreases funcs.len(),
{
    if funcs.len() == 0 {
        Seq::empty()
    } else {
        let rest = flagged(funcs.drop_last());
        if funcs.last().has_shadow {
            rest.push(funcs.last().report())
        } else {
            rest
        }
    }
}

/// The state of one file's analysis: every function entered so far, in
/// source order, and the indices of those whose extent is still open, the
/// innermost last. A binding belongs to the innermost open function.
pub ghost struct CounterView {
    pub filename: Seq<char>,
    pub funcs: Seq<FunctionView>,
    pub open: Seq<int>,
    pub has_shadow: bool,
}

impl CounterView {
    pub open spec fn fresh(filename: Seq<char>) -> CounterView {
        CounterView { filename, funcs: Seq::empty(), open: Seq::empty(), has_shadow: false }
    }

    /// Whether a binding met now has a function to belong to.
    pub open spec fn inside(self) -> bool {
        self.open.len() > 0
    }

    /// The index of the innermost open function.
    pub open spec fn current(self) -> int
        recommends
            self.inside(),
    {
        self.open.last()
    }

    /// The state after a function-like declaration is entered: it gets a
    /// record of its own and becomes the innermost open function.
    pub open spec fn enter(self, name: Seq<char>, loc: usize) -> CounterView {
        CounterView {
            funcs: self.funcs.push(FunctionView::fresh(name, loc)),
            open: self.open.push(self.funcs.len() as int),
            ..self
        }
    }

    /// The state after the innermost open function is left: the function
    /// that encloses it, if any, is current again. No record changes.
    pub open spec fn leave(self) -> CounterView {
        if self.inside() {
            CounterView { open: self.open.drop_last(), ..self }
        } else {
            self
        }
    }

    /// The state after one binding in the innermost open function.
    pub open spec fn bind(self, binding: Binding) -> CounterView
        recommends
            self.inside(),
    {
        let current = self.funcs[self.current()];
        CounterView {
            funcs: self.funcs.update(
                self.current(),
                current.record(binding.name, binding.line),
            ),
            has_shadow: self.has_shadow || current.history(binding.name).len() > 0,
            ..self
        }
    }

    /// The state after each of `bindings` in the innermost open function,
    /// first to last.
    pub open spec fn bind_all(self, bindings: Seq<Binding>) -> CounterView
        recommends
            self.inside(),
        decreases bindings.len(),
    {
        if bindings.len() == 0 {
            self
        } else {
            self.bind_all(bindings.drop_last()).bind(bindings.last())
        }
    }

    /// Every function record is well formed, the open functions are records
    /// of the file, each entered after the one that encloses it, and the
    /// file's flag is set exactly when some function's flag is.
    pub open spec fn wf(self) -> bool {
        &&& forall|i: int| 0 <= i < self.funcs.len() ==> (#[trigger] self.funcs[i]).wf()
        &&& forall|k: int| 0 <= k < self.open.len() ==> 0 <= #[trigger] self.open[k] < self.funcs.len()
        &&& forall|j: int, k: int|
            0 <= j < k < self.open.len() ==> #[trigger] self.open[j] < #[trigger] self.open[k]
        &&& self.has_shadow <==> exists|i: int|
            0 <= i < self.funcs.len() && (#[trigger] self.funcs[i]).has_shadow
    }

    /// What is reported of the file: nothing where no shadow was found,
    /// else the flagged functions in source order.
    pub open spec fn report(self) -> Seq<FunctionReportView> {
        if self.has_shadow {
            flagged(self.funcs)
        } else {
            Seq::empty()
        }
    }

    /// Entering a function keeps a state well formed.
    pub proof fn lemma_enter_wf(self, name: Seq<char>, loc: usize)
        requires
            self.wf(),
        ensures
            self.enter(name, loc).wf(),
    {
        let after = self.enter(name, loc);
        if self.has_shadow {
            let w = choose|w: int| 0 <= w < self.funcs.len() && (#[trigger] self.funcs[w]).has_shadow;
            assert(after.funcs[w].has_shadow);
        }
        if exists|w: int| 0 <= w < after.funcs.len() && (#[trigger] after.funcs[w]).has_shadow {
            let w = choose|w: int|
                0 <= w < after.funcs.len() && (#[trigger] after.funcs[w]).has_shadow;
            assert(w < self.funcs.len());
            assert(self.funcs[w].has_shadow);
        }
        assert forall|k: int| 0 <= k < after.open.len() implies 0 <= #[trigger] after.open[k]
            < after.funcs.len() by {
            if k < self.open.len() {
                assert(after.open[k] == self.open[k]);
            }
        }
        assert forall|j: int, k: int| 0 <= j < k < after.open.len() implies #[trigger] after.open[j]
            < #[trigger] after.open[k] by {
            assert(after.open[j] == self.open[j]);
            if k < self.open.len() {
                assert(after.open[k] == self.open[k]);
            }
        }
    }

    /// Leaving a function keeps a state well formed.
    pub proof fn lemma_leave_wf(self)
        requires
            self.wf(),
        ensures
            self.leave().wf(),
    {
        let after = self.leave();
        if self.has_shadow {
            let w = choose|w: int| 0 <= w < self.funcs.len() && (#[trigger] self.funcs[w]).has_shadow;
            assert(after.funcs[w].has_shadow);
        }
        if exists|w: int| 0 <= w < after.funcs.len() && (#[trigger] after.funcs[w]).has_shadow {
            let w = choose|w: int|
                0 <= w < after.funcs.len() && (#[trigger] after.funcs[w]).has_shadow;
            assert(self.funcs[w].has_shadow);
        }
        if self.inside() {
            assert forall|k: int| 0 <= k < after.open.len() implies 0 <= #[trigger] after.open[k]
                < after.funcs.len() by {
                assert(after.open[k] == self.open[k]);
            }
            assert forall|j: int, k: int| 0 <= j < k < after.open.len() implies
                #[trigger] after.open[j] < #[trigger] after.open[k] by {
                assert(after.open[j] == self.open[j]);
                assert(after.open[k] == self.open[k]);
            }
        }
    }

    /// Binding keeps a state well formed, and touches the innermost open
    /// function only.
    pub proof fn lemma_bind_wf(self, binding: Binding)
        requires
            self.wf(),
            self.inside(),
        ensures
            self.bind(binding).wf(),
            self.bind(binding).funcs.len() == self.funcs.len(),
            self.bind(binding).open == self.open,
    {
        let n = self.current();
        assert(n == self.open[self.open.len() - 1]);
        let current = self.funcs[n];
        let after = self.bind(binding);
        current.lemma_record_wf(binding.name, binding.line);
        current.lemma_record_history(binding.name, binding.line);
        assert(after.funcs[n] == current.record(binding.name, binding.line));
        if self.has_shadow {
            let w = choose|w: int| 0 <= w < self.funcs.len() && (#[trigger] self.funcs[w]).has_shadow;
            assert(after.funcs[w].has_shadow);
        }
        if exists|w: int| 0 <= w < after.funcs.len() && (#[trigger] after.funcs[w]).has_shadow {
            let w = choose|w: int|
                0 <= w < after.funcs.len() && (#[trigger] after.funcs[w]).has_shadow;
            if w != n {
                assert(self.funcs[w].has_shadow);
            }
        }
    }
}

} // verus!
