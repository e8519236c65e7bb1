use cargo_light::{
    is_file_with_ext, select_idents, Case, Count, Function, FunctionReport, Ident, Pattern,
    ShadowCounter, ShadowError, ShadowedVar,
};

fn ident(name: &str, line: usize) -> Ident {
    Ident::new(name.to_string(), line)
}

fn bind(counter: &mut ShadowCounter, idents: &Vec<Ident>) -> Result<(), ShadowError> {
    let line = idents.first().map(|ident| ident.line).unwrap_or(1);
    counter.bind_idents(line, idents)
}

fn by_value(name: &str, line: usize) -> Pattern {
    Pattern::Ident { by_ref: false, ident: ident(name, line) }
}

fn by_ref(name: &str, line: usize) -> Pattern {
    Pattern::Ident { by_ref: true, ident: ident(name, line) }
}

fn shadowed(name: &str, lines: &[usize]) -> ShadowedVar {
    ShadowedVar { name: name.to_string(), count: lines.len(), lines: lines.to_vec() }
}

#[test]
fn case_new_keeps_its_fields() {
    let case = Case::new(7, true);
    assert_eq!(case.loc, 7);
    assert!(case.is_original);
    assert_eq!(Case::new(9, false), Case { loc: 9, is_original: false });
    assert_eq!(Case::default(), Case { loc: 0, is_original: false });
}

#[test]
fn count_starts_empty() {
    let count = Count::new();
    assert_eq!(count.len(), 0);
    assert!(count.locs().is_empty());
    assert!(count.lines().is_empty());
    assert_eq!(Count::default().len(), 0);
}

#[test]
fn count_marks_only_the_first_binding_original() {
    let mut count = Count::new();
    assert!(count.record(4));
    assert!(!count.record(9));
    assert!(!count.record(2));
    assert_eq!(count.len(), 3);
    assert_eq!(
        count.locs(),
        &vec![Case::new(4, true), Case::new(9, false), Case::new(2, false)]
    );
    assert_eq!(count.lines(), vec![4, 9, 2]);
}

#[test]
fn function_starts_without_bindings() {
    let function = Function::new("f".to_string(), 12);
    assert_eq!(function.name(), "f");
    assert_eq!(function.loc(), 12);
    assert!(!function.has_shadow());
    assert!(function.shadowed().is_empty());
    let default = Function::default();
    assert_eq!(default.name(), "");
    assert_eq!(default.loc(), 0);
    assert!(!default.has_shadow());
}

#[test]
fn distinct_names_have_no_shadow() {
    let mut function = Function::new("f".to_string(), 1);
    assert!(!function.record(&ident("a", 2)));
    assert!(!function.record(&ident("b", 3)));
    assert!(!function.record(&ident("c", 4)));
    assert!(!function.has_shadow());
    assert!(function.shadowed().is_empty());
    assert_eq!(
        function.report(),
        FunctionReport { name: "f".to_string(), loc: 1, vars: vec![] }
    );
}

#[test]
fn name_bound_twice_is_reported_with_both_lines() {
    let mut function = Function::new("g".to_string(), 10);
    assert!(!function.record(&ident("x", 11)));
    assert!(!function.record(&ident("y", 12)));
    assert!(function.record(&ident("x", 15)));
    assert!(function.has_shadow());
    assert_eq!(function.shadowed(), vec![shadowed("x", &[11, 15])]);
    let report = function.report();
    assert_eq!(report.name, "g");
    assert_eq!(report.loc, 10);
    assert_eq!(report.vars[0].count, 2);
    assert_eq!(report.vars[0].lines, vec![11, 15]);
}

#[test]
fn name_bound_three_times_counts_three() {
    let mut function = Function::new("h".to_string(), 1);
    function.record(&ident("v", 2));
    function.record(&ident("v", 3));
    function.record(&ident("v", 8));
    assert_eq!(function.shadowed(), vec![shadowed("v", &[2, 3, 8])]);
}

#[test]
fn flag_stays_up_once_raised() {
    let mut function = Function::new("h".to_string(), 1);
    function.record(&ident("v", 2));
    function.record(&ident("v", 3));
    assert!(function.has_shadow());
    assert!(!function.record(&ident("w", 4)));
    assert!(function.has_shadow());
}

#[test]
fn select_idents_skips_by_ref_and_other_forms() {
    let patterns = vec![
        by_value("a", 3),
        by_ref("b", 3),
        Pattern::Other,
        by_value("c", 4),
    ];
    let idents = select_idents(&patterns);
    let got: Vec<(String, usize)> = idents.iter().map(|i| (i.name.clone(), i.line)).collect();
    assert_eq!(got, vec![("a".to_string(), 3), ("c".to_string(), 4)]);
    assert!(select_idents(&vec![]).is_empty());
}

#[test]
fn by_ref_names_are_never_recorded() {
    let mut counter = ShadowCounter::new("lib.rs");
    counter.enter_function("f".to_string(), 1);
    assert_eq!(bind(&mut counter, &select_idents(&vec![by_value("a", 2)])), Ok(()));
    assert_eq!(bind(&mut counter, &select_idents(&vec![by_ref("a", 3)])), Ok(()));
    assert_eq!(bind(&mut counter, &select_idents(&vec![by_ref("r", 4)])), Ok(()));
    assert_eq!(bind(&mut counter, &select_idents(&vec![by_ref("r", 5)])), Ok(()));
    assert!(!counter.has_shadow());
    assert!(!counter.funcs()[0].has_shadow());
    assert!(counter.report().is_empty());
}

#[test]
fn sibling_functions_are_independent() {
    let mut counter = ShadowCounter::new("lib.rs");
    counter.enter_function("first".to_string(), 1);
    bind(&mut counter, &vec![ident("a", 2), ident("a", 3)]).unwrap();
    counter.enter_function("second".to_string(), 6);
    bind(&mut counter, &vec![ident("a", 7)]).unwrap();
    bind(&mut counter, &vec![ident("b", 8)]).unwrap();
    assert!(counter.has_shadow());
    assert!(counter.funcs()[0].has_shadow());
    assert!(!counter.funcs()[1].has_shadow());
    assert_eq!(
        counter.report(),
        vec![FunctionReport {
            name: "first".to_string(),
            loc: 1,
            vars: vec![shadowed("a", &[2, 3])],
        }]
    );
}

#[test]
fn earlier_function_is_not_touched_by_later_bindings() {
    let mut counter = ShadowCounter::new("lib.rs");
    counter.enter_function("first".to_string(), 1);
    bind(&mut counter, &vec![ident("a", 2)]).unwrap();
    counter.enter_function("second".to_string(), 6);
    bind(&mut counter, &vec![ident("a", 7), ident("a", 8)]).unwrap();
    assert!(!counter.funcs()[0].has_shadow());
    assert!(counter.funcs()[1].has_shadow());
    assert_eq!(counter.report().len(), 1);
    assert_eq!(counter.report()[0].name, "second");
    assert_eq!(counter.report()[0].vars, vec![shadowed("a", &[7, 8])]);
}

#[test]
fn clean_file_reports_nothing() {
    let mut counter = ShadowCounter::new("clean.rs");
    counter.enter_function("f".to_string(), 1);
    bind(&mut counter, &vec![ident("a", 2), ident("b", 3)]).unwrap();
    counter.enter_function("g".to_string(), 5);
    bind(&mut counter, &vec![ident("a", 6)]).unwrap();
    assert!(!counter.has_shadow());
    assert_eq!(counter.report(), vec![]);
    assert_eq!(counter.filename(), "clean.rs");
    assert_eq!(counter.funcs().len(), 2);
}

#[test]
fn empty_file_reports_nothing() {
    let counter = ShadowCounter::new("empty.rs");
    assert!(!counter.has_shadow());
    assert!(counter.funcs().is_empty());
    assert!(counter.report().is_empty());
}

fn sample_report() -> Vec<FunctionReport> {
    let mut counter = ShadowCounter::new("lib.rs");
    counter.enter_function("one".to_string(), 1);
    bind(&mut counter, &vec![ident("z", 2)]).unwrap();
    bind(&mut counter, &vec![ident("m", 3)]).unwrap();
    bind(&mut counter, &vec![ident("a", 4)]).unwrap();
    bind(&mut counter, &vec![ident("a", 5)]).unwrap();
    bind(&mut counter, &vec![ident("m", 6)]).unwrap();
    bind(&mut counter, &vec![ident("z", 7)]).unwrap();
    counter.enter_function("two".to_string(), 9);
    bind(&mut counter, &vec![ident("q", 10)]).unwrap();
    counter.enter_function("three".to_string(), 12);
    bind(&mut counter, &vec![ident("k", 13), ident("k", 13)]).unwrap();
    counter.report()
}

#[test]
fn report_is_stable_and_ordered() {
    let first = sample_report();
    let second = sample_report();
    assert_eq!(first, second);
    assert_eq!(
        first,
        vec![
            FunctionReport {
                name: "one".to_string(),
                loc: 1,
                vars: vec![
                    shadowed("z", &[2, 7]),
                    shadowed("m", &[3, 6]),
                    shadowed("a", &[4, 5]),
                ],
            },
            FunctionReport {
                name: "three".to_string(),
                loc: 12,
                vars: vec![shadowed("k", &[13, 13])],
            },
        ]
    );
}

#[test]
fn binding_outside_function_is_an_error() {
    let mut counter = ShadowCounter::new("lib.rs");
    assert_eq!(
        counter.bind_idents(3, &vec![ident("a", 3), ident("b", 4)]),
        Err(ShadowError::BindingOutsideFunction { line: 3 })
    );
    assert!(counter.funcs().is_empty());
    assert!(!counter.has_shadow());
}

#[test]
fn binding_outside_function_without_names_carries_the_line() {
    let mut counter = ShadowCounter::new("lib.rs");
    assert_eq!(
        counter.bind_idents(7, &vec![]),
        Err(ShadowError::BindingOutsideFunction { line: 7 })
    );
    assert_eq!(
        counter.bind_idents(9, &select_idents(&vec![by_ref("x", 9), Pattern::Other])),
        Err(ShadowError::BindingOutsideFunction { line: 9 })
    );
    assert!(counter.funcs().is_empty());
}

#[test]
fn binding_after_every_function_was_left_is_an_error() {
    let mut counter = ShadowCounter::new("lib.rs");
    counter.enter_function("f".to_string(), 1);
    counter.bind_idents(2, &vec![ident("a", 2)]).unwrap();
    counter.leave_function();
    assert_eq!(counter.depth(), 0);
    assert_eq!(
        counter.bind_idents(5, &vec![ident("a", 5)]),
        Err(ShadowError::BindingOutsideFunction { line: 5 })
    );
    assert!(!counter.has_shadow());
    assert!(counter.funcs()[0].shadowed().is_empty());
}

#[test]
fn let_after_nested_function_belongs_to_the_enclosing_one() {
    let mut counter = ShadowCounter::new("lib.rs");
    counter.enter_function("outer".to_string(), 1);
    counter.enter_function("inner".to_string(), 2);
    assert_eq!(counter.depth(), 2);
    counter.bind_idents(2, &vec![ident("a", 2)]).unwrap();
    counter.leave_function();
    assert_eq!(counter.depth(), 1);
    counter.bind_idents(3, &vec![ident("a", 3)]).unwrap();
    counter.leave_function();
    assert!(!counter.has_shadow());
    assert!(!counter.funcs()[0].has_shadow());
    assert!(!counter.funcs()[1].has_shadow());
    assert!(counter.report().is_empty());
    counter.enter_function("last".to_string(), 6);
    assert_eq!(counter.funcs().len(), 3);
    assert_eq!(counter.depth(), 1);
}

#[test]
fn shadow_around_a_nested_function_is_the_enclosing_ones() {
    let mut counter = ShadowCounter::new("lib.rs");
    counter.enter_function("outer".to_string(), 1);
    counter.bind_idents(2, &vec![ident("a", 2)]).unwrap();
    counter.enter_function("inner".to_string(), 3);
    counter.bind_idents(4, &vec![ident("b", 4)]).unwrap();
    counter.leave_function();
    counter.bind_idents(6, &vec![ident("a", 6)]).unwrap();
    counter.bind_idents(7, &vec![ident("b", 7)]).unwrap();
    counter.leave_function();
    assert!(counter.has_shadow());
    assert!(!counter.funcs()[1].has_shadow());
    assert_eq!(
        counter.report(),
        vec![FunctionReport {
            name: "outer".to_string(),
            loc: 1,
            vars: vec![shadowed("a", &[2, 6])],
        }]
    );
}

#[test]
fn leaving_with_nothing_open_changes_nothing() {
    let mut counter = ShadowCounter::new("lib.rs");
    counter.leave_function();
    assert_eq!(counter.depth(), 0);
    assert!(counter.funcs().is_empty());
    counter.enter_function("f".to_string(), 1);
    counter.leave_function();
    counter.leave_function();
    assert_eq!(counter.depth(), 0);
    assert_eq!(counter.funcs().len(), 1);
}

#[test]
fn is_file_with_ext_wants_a_file_and_the_exact_extension() {
    assert!(is_file_with_ext(true, Some("rs"), "rs"));
    assert!(!is_file_with_ext(false, Some("rs"), "rs"));
    assert!(!is_file_with_ext(true, None, "rs"));
    assert!(!is_file_with_ext(true, Some("txt"), "rs"));
    assert!(!is_file_with_ext(true, Some("RS"), "rs"));
    assert!(!is_file_with_ext(true, Some("rss"), "rs"));
    assert!(!is_file_with_ext(true, Some(""), "rs"));
}
