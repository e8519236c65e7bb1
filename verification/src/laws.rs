//! What holds of every analysis, stated over the model and proved.

use vstd::prelude::*;
use crate::binding::{bound_names, history_ok, lines_of, Binding, Case};
use crate::model::{
    flagged, shadowed_of, CounterView, FunctionReportView, FunctionView, ShadowedVarView, VarView,
};

verus! {

/// The lines at which `name` is bound in `bindings`, in order.
pub open spec fn lines_named(bindings: Seq<Binding>, name: Seq<char>) -> Seq<usize>
    decreases bindings.len(),
{
    if bindings.len() == 0 {
        Seq::empty()
    } else {
        let rest = lines_named(bindings.drop_last(), name);
        if bindings.last().name == name {
            rest.push(bindings.last().line)
        } else {
            rest
        }
    }
}

/// The names of `bindings` in the order in which each is first bound.
pub open spec fn first_names(bindings: Seq<Binding>) -> Seq<Seq<char>>
    decreases bindings.len(),
{
    if bindings.len() == 0 {
        Seq::empty()
    } else {
        let rest = first_names(bindings.drop_last());
        if rest.contains(bindings.last().name) {
            rest
        } else {
            rest.push(bindings.last().name)
        }
    }
}

/// The names that a record tracks, in the record's order.
pub open spec fn names_of(vars: Seq<VarView>) -> Seq<Seq<char>> {
    Seq::new(vars.len(), |i: int| vars[i].name)
}

/// What is reported of one tracked name.
pub open spec fn entry_of(var: VarView) -> ShadowedVarView {
    ShadowedVarView { name: var.name, count: var.cases.len(), lines: lines_of(var.cases) }
}

/// In a well-formed record the history of a tracked name is the one stored
/// with it.
pub proof fn lemma_history_at(record: FunctionView, i: int)
    requires
        record.wf(),
        0 <= i < record.vars.len(),
    ensures
        record.tracks(record.vars[i].name),
        record.history(record.vars[i].name) == record.vars[i].cases,
{
    let name = record.vars[i].name;
    assert(record.tracks(name));
    assert(record.index_of(name) == i);
}

/// In a well-formed record the first occurrence in the history of any name
/// is marked as the first binding, and every later one is not.
pub proof fn lemma_history_in_order(record: FunctionView, name: Seq<char>)
    requires
        record.wf(),
    ensures
        history_ok(record.history(name)),
{
    if record.tracks(name) {
        let i = record.index_of(name);
        assert(history_ok(record.vars[i].cases));
    }
}

/// Recording a sequence of bindings keeps a record well formed and leaves
/// the function's name and line alone.
pub proof fn lemma_record_all_wf(record: FunctionView, bindings: Seq<Binding>)
    requires
        record.wf(),
    ensures
        record.record_all(bindings).wf(),
        record.record_all(bindings).name == record.name,
        record.record_all(bindings).loc == record.loc,
    decreases bindings.len(),
{
    if bindings.len() > 0 {
        lemma_record_all_wf(record, bindings.drop_last());
        record.record_all(bindings.drop_last()).lemma_record_wf(
            bindings.last().name,
            bindings.last().line,
        );
    }
}

/// After a sequence of bindings is recorded, the lines in the history of a
/// name are the lines it had before, followed by the lines at which the
/// sequence binds that name, in order.
pub proof fn lemma_record_all_lines(record: FunctionView, bindings: Seq<Binding>, name: Seq<char>)
    requires
        record.wf(),
    ensures
        lines_of(record.record_all(bindings).history(name)) == lines_of(record.history(name))
            + lines_named(bindings, name),
    decreases bindings.len(),
{
    if bindings.len() == 0 {
        assert(lines_of(record.history(name)) + Seq::<usize>::empty() =~= lines_of(
            record.history(name),
        ));
    } else {
        let front = bindings.drop_last();
        let last = bindings.last();
        let mid = record.record_all(front);
        lemma_record_all_wf(record, front);
        lemma_record_all_lines(record, front, name);
        mid.lemma_record_history(last.name, last.line);
        if last.name == name {
            assert(lines_of(mid.record(last.name, last.line).history(name)) =~= lines_of(
                mid.history(name),
            ).push(last.line));
            assert(lines_of(record.history(name)) + lines_named(front, name).push(last.line)
                =~= (lines_of(record.history(name)) + lines_named(front, name)).push(last.line));
        }
    }
}

/// Bindings of other names leave the history of `name` as it was.
pub proof fn lemma_unbound_name_keeps_history(
    record: FunctionView,
    bindings: Seq<Binding>,
    name: Seq<char>,
)
    requires
        record.wf(),
        forall|k: int| 0 <= k < bindings.len() ==> (#[trigger] bindings[k]).name != name,
    ensures
        record.record_all(bindings).history(name) == record.history(name),
    decreases bindings.len(),
{
    if bindings.len() > 0 {
        let front = bindings.drop_last();
        let last = bindings.last();
        assert forall|k: int| 0 <= k < front.len() implies (#[trigger] front[k]).name != name by {
            assert(front[k] == bindings[k]);
        }
        lemma_record_all_wf(record, front);
        lemma_unbound_name_keeps_history(record, front, name);
        record.record_all(front).lemma_record_history(last.name, last.line);
    }
}

/// A name has lines in `bindings` only where some binding carries it.
pub proof fn lemma_lines_named_witness(bindings: Seq<Binding>, name: Seq<char>)
    requires
        lines_named(bindings, name).len() > 0,
    ensures
        exists|k: int| 0 <= k < bindings.len() && (#[trigger] bindings[k]).name == name,
    decreases bindings.len(),
{
    if bindings.len() > 0 {
        if bindings.last().name == name {
            assert(bindings[bindings.len() - 1].name == name);
        } else {
            lemma_lines_named_witness(bindings.drop_last(), name);
            let k = choose|k: int|
                0 <= k < bindings.drop_last().len() && (#[trigger] bindings.drop_last()[k]).name
                    == name;
            assert(bindings[k].name == name);
        }
    }
}

/// Where the names of `bindings` are mutually distinct, no name has more
/// than one line.
pub proof fn lemma_distinct_names_single_line(bindings: Seq<Binding>, name: Seq<char>)
    requires
        forall|i: int, j: int|
            0 <= i < j < bindings.len() ==> (#[trigger] bindings[i]).name != (
            #[trigger] bindings[j]).name,
    ensures
        lines_named(bindings, name).len() <= 1,
    decreases bindings.len(),
{
    if bindings.len() > 0 {
        let front = bindings.drop_last();
        assert forall|i: int, j: int| 0 <= i < j < front.len() implies (#[trigger] front[i]).name
            != (#[trigger] front[j]).name by {
            assert(front[i] == bindings[i]);
            assert(front[j] == bindings[j]);
        }
        lemma_distinct_names_single_line(front, name);
        if bindings.last().name == name && lines_named(front, name).len() > 0 {
            lemma_lines_named_witness(front, name);
            let k = choose|k: int| 0 <= k < front.len() && (#[trigger] front[k]).name == name;
            assert(bindings[k].name == name);
            assert(bindings[bindings.len() - 1].name == name);
        }
    }
}

/// Nothing is reported of names that were each bound once.
pub proof fn lemma_shadowed_none(vars: Seq<VarView>)
    requires
        forall|i: int| 0 <= i < vars.len() ==> (#[trigger] vars[i]).cases.len() <= 1,
    ensures
        shadowed_of(vars) == Seq::<ShadowedVarView>::empty(),
    decreases vars.len(),
{
    if vars.len() > 0 {
        let front = vars.drop_last();
        assert forall|i: int| 0 <= i < front.len() implies (#[trigger] front[i]).cases.len()
            <= 1 by {
            assert(front[i] == vars[i]);
        }
        lemma_shadowed_none(front);
        assert(vars[vars.len() - 1].cases.len() <= 1);
    }
}

/// A name bound more than once is reported, with its count and its lines.
pub proof fn lemma_shadowed_has(vars: Seq<VarView>, i: int)
    requires
        0 <= i < vars.len(),
        vars[i].cases.len() > 1,
    ensures
        shadowed_of(vars).contains(entry_of(vars[i])),
    decreases vars.len(),
{
    let front = vars.drop_last();
    let rest = shadowed_of(front);
    if i == vars.len() - 1 {
        assert(rest.push(entry_of(vars[i]))[rest.len() as int] == entry_of(vars[i]));
    } else {
        lemma_shadowed_has(front, i);
        assert(front[i] == vars[i]);
        let k = choose|k: int| 0 <= k < rest.len() && rest[k] == entry_of(vars[i]);
        if vars.last().cases.len() > 1 {
            assert(shadowed_of(vars)[k] == entry_of(vars[i]));
        }
    }
}

/// Every reported entry is that of a tracked name bound more than once.
pub proof fn lemma_shadowed_only(vars: Seq<VarView>, k: int)
    requires
        0 <= k < shadowed_of(vars).len(),
    ensures
        exists|i: int|
            0 <= i < vars.len() && (#[trigger] vars[i]).cases.len() > 1 && shadowed_of(vars)[k]
                == entry_of(vars[i]),
    decreases vars.len(),
{
    if vars.len() > 0 {
        let front = vars.drop_last();
        let rest = shadowed_of(front);
        if k < rest.len() {
            lemma_shadowed_only(front, k);
            let i = choose|i: int|
                0 <= i < front.len() && (#[trigger] front[i]).cases.len() > 1 && rest[k]
                    == entry_of(front[i]);
            assert(front[i] == vars[i]);
            assert(vars[i].cases.len() > 1 && shadowed_of(vars)[k] == entry_of(vars[i]));
        } else {
            let i = vars.len() - 1;
            assert(vars[i].cases.len() > 1 && shadowed_of(vars)[k] == entry_of(vars[i]));
        }
    }
}

/// A function whose bindings all carry mutually distinct names has no
/// shadow, and nothing is reported under it.
pub proof fn lemma_distinct_names_no_shadow(name: Seq<char>, loc: usize, bindings: Seq<Binding>)
    requires
        forall|i: int, j: int|
            0 <= i < j < bindings.len() ==> (#[trigger] bindings[i]).name != (
            #[trigger] bindings[j]).name,
    ensures
        !FunctionView::fresh(name, loc).record_all(bindings).has_shadow,
        FunctionView::fresh(name, loc).record_all(bindings).report().vars == Seq::<
            ShadowedVarView,
        >::empty(),
{
    let fresh = FunctionView::fresh(name, loc);
    let record = fresh.record_all(bindings);
    lemma_record_all_wf(fresh, bindings);
    assert forall|i: int| 0 <= i < record.vars.len() implies (#[trigger] record.vars[i]).cases.len()
        <= 1 by {
        let var = record.vars[i].name;
        lemma_history_at(record, i);
        lemma_record_all_lines(fresh, bindings, var);
        lemma_distinct_names_single_line(bindings, var);
        assert(lines_of(record.history(var)).len() == record.vars[i].cases.len());
        assert(lines_of(fresh.history(var)).len() == 0);
    }
    lemma_shadowed_none(record.vars);
}

/// Where `name` is bound at `i` and nowhere else, its lines are that one
/// line.
pub proof fn lemma_lines_named_once(bindings: Seq<Binding>, name: Seq<char>, i: int)
    requires
        0 <= i < bindings.len(),
        forall|k: int| 0 <= k < bindings.len() ==> ((#[trigger] bindings[k]).name == name <==> k == i),
    ensures
        lines_named(bindings, name) == seq![bindings[i].line],
    decreases bindings.len(),
{
    let front = bindings.drop_last();
    assert(bindings[bindings.len() - 1] == bindings.last());
    if i == bindings.len() - 1 {
        if lines_named(front, name).len() > 0 {
            lemma_lines_named_witness(front, name);
            let k = choose|k: int| 0 <= k < front.len() && (#[trigger] front[k]).name == name;
            assert(bindings[k].name == name);
        }
        assert(lines_named(bindings, name) =~= seq![bindings[i].line]);
    } else {
        assert forall|k: int| 0 <= k < front.len() implies ((#[trigger] front[k]).name == name <==> k
            == i) by {
            assert(front[k] == bindings[k]);
        }
        lemma_lines_named_once(front, name, i);
        assert(front[i] == bindings[i]);
    }
}

/// Where `name` is bound at `i`, again at `j`, and nowhere else, its lines
/// are those two, in that order.
pub proof fn lemma_lines_named_twice(bindings: Seq<Binding>, name: Seq<char>, i: int, j: int)
    requires
        0 <= i < j < bindings.len(),
        forall|k: int|
            0 <= k < bindings.len() ==> ((#[trigger] bindings[k]).name == name <==> (k == i || k
                == j)),
    ensures
        lines_named(bindings, name) == seq![bindings[i].line, bindings[j].line],
    decreases bindings.len(),
{
    let front = bindings.drop_last();
    assert(bindings[bindings.len() - 1] == bindings.last());
    if j == bindings.len() - 1 {
        assert forall|k: int| 0 <= k < front.len() implies ((#[trigger] front[k]).name == name <==> k
            == i) by {
            assert(front[k] == bindings[k]);
        }
        lemma_lines_named_once(front, name, i);
        assert(front[i] == bindings[i]);
        assert(lines_named(bindings, name) =~= seq![bindings[i].line, bindings[j].line]);
    } else {
        assert forall|k: int| 0 <= k < front.len() implies ((#[trigger] front[k]).name == name <==> (
        k == i || k == j)) by {
            assert(front[k] == bindings[k]);
        }
        lemma_lines_named_twice(front, name, i, j);
        assert(front[i] == bindings[i]);
        assert(front[j] == bindings[j]);
    }
}

/// A function that binds `name` at position `i`, again at position `j`, and
/// nowhere else has a shadow; the history of `name` holds the two lines in
/// the order of binding, and the report lists `name` with count 2 and those
/// two lines.
pub proof fn lemma_bound_twice_is_reported(
    name: Seq<char>,
    loc: usize,
    bindings: Seq<Binding>,
    var: Seq<char>,
    i: int,
    j: int,
)
    requires
        0 <= i < j < bindings.len(),
        forall|k: int|
            0 <= k < bindings.len() ==> ((#[trigger] bindings[k]).name == var <==> (k == i || k
                == j)),
    ensures
        FunctionView::fresh(name, loc).record_all(bindings).has_shadow,
        lines_of(FunctionView::fresh(name, loc).record_all(bindings).history(var))
            == seq![bindings[i].line, bindings[j].line],
        FunctionView::fresh(name, loc).record_all(bindings).report().vars.contains(
            ShadowedVarView {
                name: var,
                count: 2,
                lines: seq![bindings[i].line, bindings[j].line],
            },
        ),
{
    let fresh = FunctionView::fresh(name, loc);
    let record = fresh.record_all(bindings);
    lemma_record_all_wf(fresh, bindings);
    lemma_record_all_lines(fresh, bindings, var);
    lemma_lines_named_twice(bindings, var, i, j);
    assert(lines_of(fresh.history(var)) =~= Seq::<usize>::empty());
    assert(lines_of(record.history(var)) =~= seq![bindings[i].line, bindings[j].line]);
    assert(record.history(var).len() == lines_of(record.history(var)).len());
    assert(record.tracks(var));
    let k = record.index_of(var);
    assert(record.vars[k].cases.len() == 2);
    lemma_shadowed_has(record.vars, k);
}

/// A pattern in which `name` stands only behind `ref` binds no `name`.
pub proof fn lemma_by_ref_binds_nothing(
    shapes: Seq<Option<(bool, Seq<char>, usize)>>,
    name: Seq<char>,
)
    requires
        forall|k: int|
            0 <= k < shapes.len() ==> match #[trigger] shapes[k] {
                Some((by_ref, text, _)) => text == name ==> by_ref,
                None => true,
            },
    ensures
        forall|k: int|
            0 <= k < bound_names(shapes).len() ==> (#[trigger] bound_names(shapes)[k]).name
                != name,
    decreases shapes.len(),
{
    if shapes.len() > 0 {
        let front = shapes.drop_last();
        assert forall|k: int| 0 <= k < front.len() implies match #[trigger] front[k] {
            Some((by_ref, text, _)) => text == name ==> by_ref,
            None => true,
        } by {
            assert(front[k] == shapes[k]);
        }
        lemma_by_ref_binds_nothing(front, name);
        let rest = bound_names(front);
        let all = bound_names(shapes);
        assert(shapes[shapes.len() - 1] == shapes.last());
        assert forall|k: int| 0 <= k < all.len() implies (#[trigger] all[k]).name != name by {
            if k < rest.len() {
                assert(all[k] == rest[k]);
            } else {
                match shapes.last() {
                    Some((by_ref, text, line)) => {
                        assert(!by_ref);
                        assert(all[k] == Binding { name: text, line });
                    },
                    None => {},
                }
            }
        }
    }
}

/// Binding in the innermost open function is recording in its record: the
/// other records stay as they were, the same functions stay open, and the
/// state stays well formed.
pub proof fn lemma_bind_all_current(state: CounterView, bindings: Seq<Binding>)
    requires
        state.wf(),
        state.inside(),
    ensures
        state.bind_all(bindings).wf(),
        state.bind_all(bindings).filename == state.filename,
        state.bind_all(bindings).open == state.open,
        state.bind_all(bindings).funcs == state.funcs.update(
            state.current(),
            state.funcs[state.current()].record_all(bindings),
        ),
    decreases bindings.len(),
{
    let c = state.current();
    assert(c == state.open[state.open.len() - 1]);
    if bindings.len() == 0 {
        assert(state.funcs =~= state.funcs.update(c, state.funcs[c]));
    } else {
        let front = bindings.drop_last();
        let mid = state.bind_all(front);
        lemma_bind_all_current(state, front);
        mid.lemma_bind_wf(bindings.last());
        assert(mid.bind(bindings.last()).funcs =~= state.funcs.update(
            c,
            state.funcs[c].record_all(bindings),
        ));
    }
}

/// A binding statement in which `name` stands only behind `ref` leaves the
/// history of `name` in the innermost open function as it was, whatever
/// else the function binds by value: such a binding is never an occurrence
/// and never a shadow.
pub proof fn lemma_by_ref_never_recorded(
    state: CounterView,
    shapes: Seq<Option<(bool, Seq<char>, usize)>>,
    name: Seq<char>,
)
    requires
        state.wf(),
        state.inside(),
        forall|k: int|
            0 <= k < shapes.len() ==> match #[trigger] shapes[k] {
                Some((by_ref, text, _)) => text == name ==> by_ref,
                None => true,
            },
    ensures
        state.bind_all(bound_names(shapes)).funcs[state.current()].history(name)
            == state.funcs[state.current()].history(name),
{
    let bindings = bound_names(shapes);
    let c = state.current();
    assert(c == state.open[state.open.len() - 1]);
    lemma_by_ref_binds_nothing(shapes, name);
    lemma_bind_all_current(state, bindings);
    lemma_unbound_name_keeps_history(state.funcs[c], bindings, name);
}

/// Bindings land in the innermost open function only: every other function,
/// be it a sibling, an enclosing one or one already left, keeps its record,
/// flag and report.
pub proof fn lemma_siblings_untouched(state: CounterView, bindings: Seq<Binding>, i: int)
    requires
        state.wf(),
        state.inside(),
        0 <= i < state.funcs.len(),
        i != state.current(),
    ensures
        state.bind_all(bindings).funcs.len() == state.funcs.len(),
        state.bind_all(bindings).funcs[i] == state.funcs[i],
{
    assert(state.current() == state.open[state.open.len() - 1]);
    lemma_bind_all_current(state, bindings);
}

/// Entering a function leaves every earlier record as it was, and the new
/// record is the innermost open one and starts with no history: what was
/// bound before it never counts against it.
pub proof fn lemma_enter_starts_clean(
    state: CounterView,
    name: Seq<char>,
    loc: usize,
    var: Seq<char>,
)
    ensures
        forall|i: int|
            0 <= i < state.funcs.len() ==> #[trigger] state.enter(name, loc).funcs[i]
                == state.funcs[i],
        state.enter(name, loc).current() == state.funcs.len(),
        state.enter(name, loc).funcs[state.enter(name, loc).current()].history(var) == Seq::<
            Case,
        >::empty(),
        state.enter(name, loc).has_shadow == state.has_shadow,
{
}

/// A nested function is a detour: after it is entered, whatever is bound
/// in it, and left, the same functions are open as before, every earlier
/// record is as it was, and the next binding belongs to the enclosing
/// function again.
pub proof fn lemma_nested_function_is_a_detour(
    state: CounterView,
    name: Seq<char>,
    loc: usize,
    bindings: Seq<Binding>,
)
    requires
        state.wf(),
    ensures
        state.enter(name, loc).bind_all(bindings).leave().wf(),
        state.enter(name, loc).bind_all(bindings).leave().open == state.open,
        forall|i: int|
            0 <= i < state.funcs.len() ==> #[trigger] state.enter(name, loc).bind_all(
                bindings,
            ).leave().funcs[i] == state.funcs[i],
        state.enter(name, loc).bind_all(bindings).leave().funcs[state.funcs.len() as int]
            == FunctionView::fresh(name, loc).record_all(bindings),
{
    let entered = state.enter(name, loc);
    state.lemma_enter_wf(name, loc);
    lemma_bind_all_current(entered, bindings);
    let bound = entered.bind_all(bindings);
    bound.lemma_leave_wf();
    assert(bound.leave().open =~= state.open);
}

/// A function that has been left is never current again, so its record is
/// never changed again: no step opens a record but the one it creates.
pub proof fn lemma_left_function_stays_closed(state: CounterView, i: int)
    requires
        state.wf(),
        0 <= i < state.funcs.len(),
        !state.open.contains(i),
    ensures
        forall|name: Seq<char>, loc: usize| !(#[trigger] state.enter(name, loc)).open.contains(i),
        !state.leave().open.contains(i),
        forall|binding: Binding|
            state.inside() ==> !(#[trigger] state.bind(binding)).open.contains(i) && state.bind(
                binding,
            ).funcs[i] == state.funcs[i],
{
    assert forall|name: Seq<char>, loc: usize| !(#[trigger] state.enter(name, loc)).open.contains(
        i,
    ) by {
        let after = state.enter(name, loc);
        if after.open.contains(i) {
            let k = choose|k: int| 0 <= k < after.open.len() && after.open[k] == i;
            if k < state.open.len() {
                assert(state.open[k] == i);
            }
        }
    }
    if state.leave().open.contains(i) {
        let after = state.leave();
        let k = choose|k: int| 0 <= k < after.open.len() && after.open[k] == i;
        assert(state.open[k] == i);
    }
    if state.inside() {
        assert(state.open[state.open.len() - 1] == state.current());
    }
}

/// Every reported function is one whose flag is set: a function without a
/// shadow is left out, also where the file has one elsewhere.
pub proof fn lemma_flagged_only(funcs: Seq<FunctionView>, k: int)
    requires
        0 <= k < flagged(funcs).len(),
    ensures
        exists|i: int|
            0 <= i < funcs.len() && (#[trigger] funcs[i]).has_shadow && flagged(funcs)[k]
                == funcs[i].report(),
    decreases funcs.len(),
{
    if funcs.len() > 0 {
        let front = funcs.drop_last();
        let rest = flagged(front);
        if k < rest.len() {
            lemma_flagged_only(front, k);
            let i = choose|i: int|
                0 <= i < front.len() && (#[trigger] front[i]).has_shadow && rest[k]
                    == front[i].report();
            assert(front[i] == funcs[i]);
            assert(funcs[i].has_shadow && flagged(funcs)[k] == funcs[i].report());
        } else {
            let i = funcs.len() - 1;
            assert(funcs[i].has_shadow && flagged(funcs)[k] == funcs[i].report());
        }
    }
}

/// A file in which no function binds any name twice is reported clean:
/// its flag is down and its report is empty.
pub proof fn lemma_clean_file_reports_nothing(state: CounterView)
    requires
        state.wf(),
        forall|i: int, k: int|
            0 <= i < state.funcs.len() && 0 <= k < state.funcs[i].vars.len() ==> (
            #[trigger] state.funcs[i].vars[k]).cases.len() <= 1,
    ensures
        !state.has_shadow,
        state.report() == Seq::<FunctionReportView>::empty(),
{
    assert forall|i: int| 0 <= i < state.funcs.len() implies !(#[trigger] state.funcs[i]).has_shadow by {
        let f = state.funcs[i];
        assert(f.wf());
        if f.has_shadow {
            let k = choose|k: int| 0 <= k < f.vars.len() && (#[trigger] f.vars[k]).cases.len() > 1;
            assert(state.funcs[i].vars[k].cases.len() <= 1);
        }
    }
}

/// A record tracks its names in the order in which each was first bound, so
/// the order of the names in a report is fixed by the source.
pub proof fn lemma_names_in_first_binding_order(
    name: Seq<char>,
    loc: usize,
    bindings: Seq<Binding>,
)
    ensures
        names_of(FunctionView::fresh(name, loc).record_all(bindings).vars) == first_names(
            bindings,
        ),
    decreases bindings.len(),
{
    let fresh = FunctionView::fresh(name, loc);
    if bindings.len() == 0 {
        assert(names_of(fresh.vars) =~= Seq::<Seq<char>>::empty());
    } else {
        let front = bindings.drop_last();
        let last = bindings.last();
        let mid = fresh.record_all(front);
        let after = mid.record(last.name, last.line);
        lemma_names_in_first_binding_order(name, loc, front);
        lemma_record_all_wf(fresh, front);
        if mid.tracks(last.name) {
            let k = mid.index_of(last.name);
            assert(names_of(mid.vars)[k] == last.name);
            assert(first_names(front).contains(last.name));
            assert(names_of(after.vars) =~= names_of(mid.vars));
        } else {
            if first_names(front).contains(last.name) {
                let k = choose|k: int|
                    0 <= k < first_names(front).len() && first_names(front)[k] == last.name;
                assert(names_of(mid.vars)[k] == last.name);
                assert(mid.vars[k].name == last.name);
            }
            assert(names_of(after.vars) =~= names_of(mid.vars).push(last.name));
        }
    }
}

/// The line at which a tracked name was first bound.
pub open spec fn first_line(var: VarView) -> usize {
    var.cases[0].loc
}

/// The names of a record stand in strictly ascending order of the line at
/// which each was first bound.
pub open spec fn ascending(record: FunctionView) -> bool {
    forall|i: int, j: int|
        0 <= i < j < record.vars.len() ==> first_line(#[trigger] record.vars[i]) < first_line(
            #[trigger] record.vars[j],
        )
}

/// Of two ascending records with the same histories, a name of the first
/// stands in the second with the same history, and not earlier there.
pub proof fn lemma_position_not_before(a: FunctionView, b: FunctionView, i: int)
    requires
        a.wf(),
        b.wf(),
        ascending(a),
        ascending(b),
        forall|n: Seq<char>| #![trigger a.history(n)] #![trigger b.history(n)]
            a.history(n) == b.history(n),
        0 <= i < a.vars.len(),
    ensures
        b.tracks(a.vars[i].name),
        0 <= b.index_of(a.vars[i].name) < b.vars.len(),
        b.index_of(a.vars[i].name) >= i,
        b.vars[b.index_of(a.vars[i].name)].name == a.vars[i].name,
        b.vars[b.index_of(a.vars[i].name)].cases == a.vars[i].cases,
    decreases i,
{
    let name = a.vars[i].name;
    lemma_history_at(a, i);
    assert(a.history(name) == b.history(name));
    assert(a.vars[i].cases.len() > 0);
    assert(b.tracks(name));
    let p = b.index_of(name);
    if i > 0 {
        lemma_position_not_before(a, b, i - 1);
        let q = b.index_of(a.vars[i - 1].name);
        assert(first_line(a.vars[i - 1]) < first_line(a.vars[i]));
        assert(first_line(b.vars[q]) < first_line(b.vars[p]));
        if p < q {
            assert(first_line(b.vars[p]) < first_line(b.vars[q]));
        }
    }
}

/// The order of a report is fixed by the contents of the record: two
/// records of one function that hold the same history for every name, each
/// with its names in ascending order of first binding, are the same record
/// and are reported alike, however each was built.
pub proof fn lemma_same_histories_same_report(a: FunctionView, b: FunctionView)
    requires
        a.wf(),
        b.wf(),
        a.name == b.name,
        a.loc == b.loc,
        ascending(a),
        ascending(b),
        forall|n: Seq<char>| #![trigger a.history(n)] #![trigger b.history(n)]
            a.history(n) == b.history(n),
    ensures
        a == b,
        a.report() == b.report(),
{
    assert forall|i: int| 0 <= i < a.vars.len() implies i < b.vars.len() && a.vars[i]
        == b.vars[i] by {
        lemma_position_not_before(a, b, i);
        let p = b.index_of(a.vars[i].name);
        lemma_position_not_before(b, a, p);
        let r = a.index_of(b.vars[p].name);
        assert(a.vars[r].name == a.vars[i].name);
        assert(r == i);
    }
    if a.vars.len() > 0 {
        assert(a.vars[a.vars.len() - 1] == b.vars[a.vars.len() - 1]);
    }
    if b.vars.len() > a.vars.len() {
        lemma_position_not_before(b, a, b.vars.len() - 1);
    }
    assert(a.vars =~= b.vars);
    if a.has_shadow {
        let w = choose|w: int| 0 <= w < a.vars.len() && (#[trigger] a.vars[w]).cases.len() > 1;
        assert(b.vars[w].cases.len() > 1);
    }
    if b.has_shadow {
        let w = choose|w: int| 0 <= w < b.vars.len() && (#[trigger] b.vars[w]).cases.len() > 1;
        assert(a.vars[w].cases.len() > 1);
    }
}

/// Bindings as a walk in source order gives them, for a function in which
/// no line binds two different names: lines never go back, and bindings of
/// different names stand on different lines.
pub open spec fn in_source_order(bindings: Seq<Binding>) -> bool {
    forall|i: int, j: int|
        0 <= i < j < bindings.len() ==> (#[trigger] bindings[i]).line <= (
        #[trigger] bindings[j]).line && (bindings[i].name != bindings[j].name ==> bindings[i].line
            < bindings[j].line)
}

/// Some binding of `bindings` carries the name of `var` and stands on the
/// line of its first binding.
pub open spec fn first_bound_in(bindings: Seq<Binding>, var: VarView) -> bool {
    exists|k: int|
        0 <= k < bindings.len() && (#[trigger] bindings[k]).name == var.name && bindings[k].line
            == first_line(var)
}

/// A record built from bindings in source order lists its names in
/// ascending order of the line of first binding, each first bound where
/// some binding of that name stands.
pub proof fn lemma_source_order_ascends(name: Seq<char>, loc: usize, bindings: Seq<Binding>)
    requires
        in_source_order(bindings),
    ensures
        ascending(FunctionView::fresh(name, loc).record_all(bindings)),
        forall|i: int|
            0 <= i < FunctionView::fresh(name, loc).record_all(bindings).vars.len()
                ==> first_bound_in(
                bindings,
                #[trigger] FunctionView::fresh(name, loc).record_all(bindings).vars[i],
            ),
    decreases bindings.len(),
{
    let fresh = FunctionView::fresh(name, loc);
    if bindings.len() > 0 {
        let front = bindings.drop_last();
        let last = bindings.last();
        let n = bindings.len() - 1;
        assert(bindings[n] == last);
        assert forall|i: int, j: int| 0 <= i < j < front.len() implies (#[trigger] front[i]).line
            <= (#[trigger] front[j]).line && (front[i].name != front[j].name ==> front[i].line
            < front[j].line) by {
            assert(front[i] == bindings[i]);
            assert(front[j] == bindings[j]);
        }
        lemma_source_order_ascends(name, loc, front);
        lemma_record_all_wf(fresh, front);
        let mid = fresh.record_all(front);
        let after = mid.record(last.name, last.line);
        assert(after == fresh.record_all(bindings));
        if mid.tracks(last.name) {
            let at = mid.index_of(last.name);
            assert(mid.vars[at].cases.len() > 0);
            assert forall|i: int| 0 <= i < after.vars.len() implies first_line(
                #[trigger] after.vars[i],
            ) == first_line(mid.vars[i]) && after.vars[i].name == mid.vars[i].name by {
                assert(mid.vars[i].cases.len() > 0);
            }
            assert forall|i: int| 0 <= i < after.vars.len() implies first_bound_in(
                bindings,
                #[trigger] after.vars[i],
            ) by {
                assert(first_bound_in(front, mid.vars[i]));
                let k = choose|k: int|
                    0 <= k < front.len() && (#[trigger] front[k]).name == mid.vars[i].name
                        && front[k].line == first_line(mid.vars[i]);
                assert(bindings[k] == front[k]);
            }
            assert forall|i: int, j: int| 0 <= i < j < after.vars.len() implies first_line(
                #[trigger] after.vars[i],
            ) < first_line(#[trigger] after.vars[j]) by {
                assert(first_line(mid.vars[i]) < first_line(mid.vars[j]));
            }
        } else {
            let m = mid.vars.len() as int;
            assert(after.vars[m].name == last.name);
            assert(first_line(after.vars[m]) == last.line);
            assert forall|i: int| 0 <= i < m implies first_line(#[trigger] after.vars[i])
                < last.line by {
                assert(after.vars[i] == mid.vars[i]);
                assert(first_bound_in(front, mid.vars[i]));
                let k = choose|k: int|
                    0 <= k < front.len() && (#[trigger] front[k]).name == mid.vars[i].name
                        && front[k].line == first_line(mid.vars[i]);
                assert(bindings[k] == front[k]);
                assert(mid.vars[i].name != last.name);
                assert(bindings[k].line < bindings[n].line);
            }
            assert forall|i: int| 0 <= i < after.vars.len() implies first_bound_in(
                bindings,
                #[trigger] after.vars[i],
            ) by {
                if i < m {
                    assert(after.vars[i] == mid.vars[i]);
                    assert(first_bound_in(front, mid.vars[i]));
                    let k = choose|k: int|
                        0 <= k < front.len() && (#[trigger] front[k]).name == mid.vars[i].name
                            && front[k].line == first_line(mid.vars[i]);
                    assert(bindings[k] == front[k]);
                } else {
                    assert(bindings[n].name == after.vars[i].name);
                }
            }
            assert forall|i: int, j: int| 0 <= i < j < after.vars.len() implies first_line(
                #[trigger] after.vars[i],
            ) < first_line(#[trigger] after.vars[j]) by {
                if j < m {
                    assert(after.vars[i] == mid.vars[i]);
                    assert(after.vars[j] == mid.vars[j]);
                    assert(first_line(mid.vars[i]) < first_line(mid.vars[j]));
                }
            }
        }
    }
}

} // verus!
