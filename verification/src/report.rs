//! What is reported of a file: its flagged functions and their shadowed names.

use vstd::prelude::*;
use crate::model::{FunctionReportView, ShadowedVarView};

verus! {

/// One shadowed name: how often it was bound in its function, and the lines
/// of its bindings, oldest first.
#[derive(Clone, Debug, PartialEq, Eq)]
pub struct ShadowedVar {
    pub name: String,
    pub count: usize,
    pub lines: Vec<usize>,
}

impl View for ShadowedVar {
    type V = ShadowedVarView;

    open spec fn view(&self) -> ShadowedVarView {
        ShadowedVarView { name: self.name@, count: self.count as nat, lines: self.lines@ }
    }
}

/// The entries that a sequence of shadowed names stands for.
pub open spec fn entries_of(vars: Seq<ShadowedVar>) -> Seq<ShadowedVarView> {
    Seq::new(vars.len(), |i: int| vars[i]@)
}

/// One function in which a name was shadowed.
#[derive(Clone, Debug, PartialEq, Eq)]
pub struct FunctionReport {
    pub name: String,
    pub loc: usize,
    pub vars: Vec<ShadowedVar>,
}

impl View for FunctionReport {
    type V = FunctionReportView;

    open spec fn view(&self) -> FunctionReportView {
        FunctionReportView { name: self.name@, loc: self.loc, vars: entries_of(self.vars@) }
    }
}

/// The reports that a sequence of function reports stands for.
pub open spec fn reports_of(reports: Seq<FunctionReport>) -> Seq<FunctionReportView> {
    Seq::new(reports.len(), |i: int| reports[i]@)
}

} // verus!
