//! Reading the names that a binding statement's pattern binds.

use vstd::prelude::*;
use syn::punctuated::Punctuated;
use syn::token::Or;
use syn::Pat;
use crate::binding::{bindings_of, bound_names, shapes_of, Ident, Pattern};

verus! {

/// `syn::punctuated::Punctuated`, a sequence of syntax nodes with separators
/// between them. Opaque here: only the wrappers below look inside.
#[verifier::external_type_specification]
#[verifier::external_body]
#[verifier::reject_recursive_types(T)]
#[verifier::reject_recursive_types(P)]
pub struct ExPunctuated<T, P>(Punctuated<T, P>);

/// `syn::Pat`, one pattern of the syntax tree. Opaque here.
#[verifier::external_type_specification]
#[verifier::external_body]
pub struct ExPat(Pat);

/// `syn::token::Or`, the `|` between the alternatives of a pattern. Opaque
/// here.
#[verifier::external_type_specification]
#[verifier::external_body]
pub struct ExOr(Or);

/// The alternatives that a parsed pattern holds, first to last, each by its
/// shape: for a plain name whether it is bound by reference, its text and
/// its line; `None` for any other form.
pub uninterp spec fn alternatives(pattern: Punctuated<Pat, Or>) -> Seq<Option<(bool, Seq<char>, usize)>>;

/// Calls `Punctuated::len`: the number of alternatives, separators not
/// counted. Trusted: the result is the length of what `alternatives` names.
#[verifier::external_body]
fn alternatives_len(pattern: &Punctuated<Pat, Or>) -> (n: usize)
    ensures
        n == alternatives(*pattern).len(),
{
    pattern.len()
}

/// Indexes the `Punctuated` and hands out the alternative at `i` as a plain
/// value: for `Pat::Ident` the presence of `ref`, the identifier's text
/// (`Ident::to_string`) and the line where it starts (`Span::start`); for
/// every other variant `Pattern::Other`. Trusted: the result is the `i`-th
/// entry of what `alternatives` names. Indexing panics out of range, which
/// the precondition excludes.
#[verifier::external_body]
fn alternative_at(pattern: &Punctuated<Pat, Or>, i: usize) -> (alternative: Pattern)
    requires
        i < alternatives(*pattern).len(),
    ensures
        alternative@ == alternatives(*pattern)[i as int],
{
    match &pattern[i] {
        Pat::Ident(p) => Pattern::Ident {
            by_ref: p.by_ref.is_some(),
            ident: Ident { name: p.ident.to_string(), line: p.ident.span().start().line },
        },
        _ => Pattern::Other,
    }
}

/// The alternatives of a parsed pattern as plain values, first to last.
pub fn patterns_of(pattern: &Punctuated<Pat, Or>) -> (patterns: Vec<Pattern>)
    ensures
        shapes_of(patterns@) == alternatives(*pattern),
{
    let n = alternatives_len(pattern);
    let mut patterns: Vec<Pattern> = Vec::new();
    let mut i: usize = 0;
    while i < n
        invariant
            i <= n,
            n == alternatives(*pattern).len(),
            shapes_of(patterns@) == alternatives(*pattern).take(i as int),
        decreases n - i,
    {
        let ghost before = shapes_of(patterns@);
        let alternative = alternative_at(pattern, i);
        patterns.push(alternative);
        assert(shapes_of(patterns@) =~= before.push(alternative@));
        i += 1;
        assert(before.push(alternative@) =~= alternatives(*pattern).take(i as int));
    }
    assert(alternatives(*pattern).take(i as int) =~= alternatives(*pattern));
    patterns
}

/// Picks, in order, the names that the alternatives bind by value.
pub fn select_idents(patterns: &Vec<Pattern>) -> (idents: Vec<Ident>)
    ensures
        bindings_of(idents@) == bound_names(shapes_of(patterns@)),
{
    let ghost shapes = shapes_of(patterns@);
    let mut idents: Vec<Ident> = Vec::new();
    let mut i: usize = 0;
    while i < patterns.len()
        invariant
            i <= patterns.len(),
            shapes == shapes_of(patterns@),
            bindings_of(idents@) == bound_names(shapes.take(i as int)),
        decreases patterns.len() - i,
    {
        let ghost before = bindings_of(idents@);
        match &patterns[i] {
            Pattern::Ident { by_ref, ident } => {
                if !*by_ref {
                    idents.push(Ident::new(ident.name.clone(), ident.line));
                    assert(bindings_of(idents@) =~= before.push(ident@));
                }
            },
            Pattern::Other => {},
        }
        proof {
            assert(shapes.take(i + 1).drop_last() =~= shapes.take(i as int));
            assert(shapes.take(i + 1).last() == patterns@[i as int]@);
        }
        i += 1;
    }
    assert(shapes.take(i as int) =~= shapes);
    idents
}

/// The names that a binding statement's pattern binds by value, in the
/// order of its alternatives.
pub fn get_idents(pattern: &Punctuated<Pat, Or>) -> (idents: Vec<Ident>)
    ensures
        bindings_of(idents@) == bound_names(alternatives(*pattern)),
{
    let patterns = patterns_of(pattern);
    select_idents(&patterns)
}

} // verus!
