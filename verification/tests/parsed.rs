use cargo_light::{
    get_idents, patterns_of, FunctionReport, Pattern, ShadowCounter, ShadowError, ShadowedVar,
};
use syn::visit::{self, Visit};
use syn::{ImplItemMethod, Item, ItemFn, Local, Stmt};

fn locals_of(source: &str) -> Vec<(String, usize, Vec<syn::Local>)> {
    let file = syn::parse_file(source).expect("the source parses");
    let mut out = Vec::new();
    for item in file.items {
        if let Item::Fn(f) = item {
            let mut locals = Vec::new();
            for stmt in f.block.stmts.iter() {
                if let Stmt::Local(local) = stmt {
                    locals.push(local.clone());
                }
            }
            out.push((f.ident.to_string(), f.ident.span().start().line, locals));
        }
    }
    out
}

struct Walker<'a> {
    counter: ShadowCounter<'a>,
    failure: Option<ShadowError>,
}

impl<'ast, 'a> Visit<'ast> for Walker<'a> {
    fn visit_item_fn(&mut self, i: &'ast ItemFn) {
        self.counter.enter_function(i.ident.to_string(), i.ident.span().start().line);
        visit::visit_item_fn(self, i);
        self.counter.leave_function();
    }

    fn visit_impl_item_method(&mut self, i: &'ast ImplItemMethod) {
        self.counter.enter_function(i.sig.ident.to_string(), i.sig.ident.span().start().line);
        visit::visit_impl_item_method(self, i);
        self.counter.leave_function();
    }

    fn visit_local(&mut self, i: &'ast Local) {
        let line = i.let_token.span.start().line;
        if let Err(error) = self.counter.visit_local(line, &i.pats) {
            self.failure.get_or_insert(error);
        }
        visit::visit_local(self, i);
    }
}

fn walk<'a>(filename: &'a str, source: &str) -> Walker<'a> {
    let file = syn::parse_file(source).expect("the source parses");
    let mut walker = Walker { counter: ShadowCounter::new(filename), failure: None };
    walker.visit_file(&file);
    walker
}

fn analyse<'a>(filename: &'a str, source: &str) -> ShadowCounter<'a> {
    let walker = walk(filename, source);
    assert_eq!(walker.failure, None);
    walker.counter
}

#[test]
fn get_idents_reads_name_and_line() {
    let functions = locals_of("fn f() {\n    let a = 1;\n    let mut b = 2;\n}\n");
    let locals = &functions[0].2;
    let first = get_idents(&locals[0].pats);
    assert_eq!(first.len(), 1);
    assert_eq!(first[0].name, "a");
    assert_eq!(first[0].line, 2);
    let second = get_idents(&locals[1].pats);
    assert_eq!(second.len(), 1);
    assert_eq!(second[0].name, "b");
    assert_eq!(second[0].line, 3);
}

#[test]
fn get_idents_leaves_out_by_ref_and_destructuring() {
    let functions =
        locals_of("fn f(p: (u8, u8)) {\n    let ref r = p;\n    let (x, y) = p;\n    let _ = x;\n}\n");
    let locals = &functions[0].2;
    assert!(get_idents(&locals[0].pats).is_empty());
    assert!(get_idents(&locals[1].pats).is_empty());
    assert!(get_idents(&locals[2].pats).is_empty());
}

#[test]
fn patterns_of_tells_the_forms_apart() {
    let functions = locals_of("fn f(p: (u8, u8)) {\n    let ref r = p;\n    let (x, y) = p;\n    let z = x;\n}\n");
    let locals = &functions[0].2;
    let by_ref = patterns_of(&locals[0].pats);
    assert_eq!(by_ref.len(), 1);
    match &by_ref[0] {
        Pattern::Ident { by_ref, ident } => {
            assert!(*by_ref);
            assert_eq!(ident.name, "r");
            assert_eq!(ident.line, 2);
        }
        Pattern::Other => panic!("a name was expected"),
    }
    let tuple = patterns_of(&locals[1].pats);
    assert_eq!(tuple.len(), 1);
    assert!(matches!(tuple[0], Pattern::Other));
    let plain = patterns_of(&locals[2].pats);
    assert!(matches!(&plain[0], Pattern::Ident { by_ref: false, ident } if ident.name == "z" && ident.line == 4));
}

#[test]
fn end_to_end_scenario() {
    let source = "fn f() {\n    let a = 1;\n    let b = 2;\n    let a = 3;\n}\n";
    let counter = analyse("scenario.rs", source);
    assert!(counter.has_shadow());
    assert_eq!(
        counter.report(),
        vec![FunctionReport {
            name: "f".to_string(),
            loc: 1,
            vars: vec![ShadowedVar { name: "a".to_string(), count: 2, lines: vec![2, 4] }],
        }]
    );
}

#[test]
fn parsed_by_ref_binding_is_no_shadow() {
    let source = "fn f(v: u8) {\n    let a = v;\n    let ref a = v;\n    let ref a = v;\n}\n";
    let counter = analyse("refs.rs", source);
    assert!(!counter.has_shadow());
    assert!(counter.report().is_empty());
}

#[test]
fn parsed_siblings_are_reported_apart() {
    let source = "fn f() {\n    let a = 1;\n}\nfn g() {\n    let a = 2;\n    let a = 3;\n}\n";
    let counter = analyse("two.rs", source);
    assert!(!counter.funcs()[0].has_shadow());
    assert!(counter.funcs()[1].has_shadow());
    assert_eq!(
        counter.report(),
        vec![FunctionReport {
            name: "g".to_string(),
            loc: 4,
            vars: vec![ShadowedVar { name: "a".to_string(), count: 2, lines: vec![5, 6] }],
        }]
    );
}

#[test]
fn visit_local_outside_a_function_is_an_error() {
    let functions = locals_of("fn f() {\n    let a = 1;\n}\n");
    let mut counter = ShadowCounter::new("lib.rs");
    assert_eq!(
        counter.visit_local(2, &functions[0].2[0].pats),
        Err(ShadowError::BindingOutsideFunction { line: 2 })
    );
    assert!(counter.funcs().is_empty());
}

#[test]
fn visit_local_outside_a_function_names_the_line_of_a_pattern_without_names() {
    let functions = locals_of(
        "fn f(t: (u8, u8)) {\n    let _ = 1;\n    let ref x = t;\n    let (a, b) = t;\n}\n",
    );
    let mut counter = ShadowCounter::new("lib.rs");
    for (local, line) in functions[0].2.iter().zip([2usize, 3, 4]) {
        assert_eq!(local.let_token.span.start().line, line);
        assert_eq!(
            counter.visit_local(line, &local.pats),
            Err(ShadowError::BindingOutsideFunction { line })
        );
    }
    assert!(counter.funcs().is_empty());
}

#[test]
fn parsed_let_outside_any_function_is_reported_with_its_line() {
    let source = "const LIMIT: u8 = {\n    let _ = 1;\n    2\n};\n";
    let walker = walk("consts.rs", source);
    assert_eq!(walker.failure, Some(ShadowError::BindingOutsideFunction { line: 2 }));
    assert!(walker.counter.funcs().is_empty());
}

#[test]
fn parsed_let_after_nested_function_belongs_to_the_enclosing_one() {
    let source = "fn outer() {\n    fn inner() { let a = 1; }\n    let a = 2;\n}\n";
    let counter = analyse("nested.rs", source);
    assert_eq!(counter.funcs().len(), 2);
    assert_eq!(counter.funcs()[0].name(), "outer");
    assert_eq!(counter.funcs()[0].loc(), 1);
    assert_eq!(counter.funcs()[1].name(), "inner");
    assert_eq!(counter.funcs()[1].loc(), 2);
    assert!(!counter.funcs()[0].has_shadow());
    assert!(!counter.funcs()[1].has_shadow());
    assert!(!counter.has_shadow());
    assert!(counter.report().is_empty());
}

#[test]
fn parsed_shadow_across_a_nested_function_is_reported_under_the_outer_one() {
    let source =
        "fn outer() {\n    let a = 1;\n    fn inner() {\n        let a = 2;\n    }\n    let a = 3;\n}\n";
    let counter = analyse("nested.rs", source);
    assert!(!counter.funcs()[1].has_shadow());
    assert_eq!(
        counter.report(),
        vec![FunctionReport {
            name: "outer".to_string(),
            loc: 1,
            vars: vec![ShadowedVar { name: "a".to_string(), count: 2, lines: vec![2, 6] }],
        }]
    );
}

#[test]
fn parsed_method_and_nested_block_bindings() {
    let source = "struct S;\nimpl S {\n    fn m(&self) {\n        let v = 1;\n        {\n            let v = 2;\n        }\n    }\n}\n";
    let counter = analyse("method.rs", source);
    assert_eq!(
        counter.report(),
        vec![FunctionReport {
            name: "m".to_string(),
            loc: 3,
            vars: vec![ShadowedVar { name: "v".to_string(), count: 2, lines: vec![4, 6] }],
        }]
    );
}
