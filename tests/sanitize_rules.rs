use rule_sanitizer::{
    create_fresh, duplicator, sanitize_rule, sanitize_term, CtxSanitizeTerm, NameTable,
    NewStringGenerator, Oper, Rule, SanitizeError, Term, UsesMap, term_size,
};

fn var(n: &str) -> Box<Term> {
    Box::new(Term::Var { name: n.to_string() })
}

fn ctr(n: &str, args: Vec<Box<Term>>) -> Box<Term> {
    Box::new(Term::Ctr { name: n.to_string(), args })
}

fn num(n: u32) -> Box<Term> {
    Box::new(Term::U32 { numb: n })
}

fn var_name(t: &Term) -> &str {
    match t {
        Term::Var { name } => name.as_str(),
        other => panic!("not a variable: {:?}", other),
    }
}

fn ctr_args(t: &Term) -> (&str, &Vec<Box<Term>>) {
    match t {
        Term::Ctr { name, args } => (name.as_str(), args),
        other => panic!("not a constructor: {:?}", other),
    }
}

fn names_of(args: &Vec<Box<Term>>) -> Vec<String> {
    args.iter().map(|a| var_name(a).to_string()).collect()
}

fn ctx() -> CtxSanitizeTerm {
    CtxSanitizeTerm { uses: UsesMap::new(), fresh: NewStringGenerator::new() }
}

fn table_of(pairs: &[(&str, &str)]) -> NameTable {
    let mut t = NameTable::new();
    for (k, v) in pairs {
        t.insert(k.to_string(), v.to_string());
    }
    t
}

#[test]
fn fresh_names_count_up_from_zero() {
    let mut g = NewStringGenerator::new();
    assert_eq!(g.new_string(), "_0");
    assert_eq!(g.new_string(), "_1");
    assert_eq!(g.new_string(), "_2");
    assert_eq!(g.counter(), 3);
}

#[test]
fn fresh_names_never_repeat() {
    let mut g = NewStringGenerator::default();
    let mut seen = std::collections::HashSet::new();
    for _ in 0..1000 {
        assert!(seen.insert(g.new_string()));
    }
    assert!(seen.contains("_999"));
    assert!(seen.contains("_10"));
}

#[test]
fn extract_binds_flat_and_nested_variables() {
    let rule = Rule {
        lhs: ctr("Foo", vec![var("x"), ctr("Bar", vec![var("y"), num(3), var("z")]), num(7)]),
        rhs: num(0),
    };
    let mut g = NewStringGenerator::new();
    let tbl = create_fresh(&rule, &mut g).unwrap();
    assert_eq!(tbl.get(&"x".to_string()).unwrap(), "_0");
    assert_eq!(tbl.get(&"y".to_string()).unwrap(), "_1");
    assert_eq!(tbl.get(&"z".to_string()).unwrap(), "_2");
    assert!(tbl.get(&"Bar".to_string()).is_none());
    assert_eq!(g.counter(), 3);
}

#[test]
fn extract_repeated_name_last_wins() {
    let rule = Rule { lhs: ctr("Foo", vec![var("x"), var("x")]), rhs: num(0) };
    let mut g = NewStringGenerator::new();
    let tbl = create_fresh(&rule, &mut g).unwrap();
    assert_eq!(tbl.get(&"x".to_string()).unwrap(), "_1");
}

#[test]
fn extract_rejects_non_constructor_pattern() {
    let rule = Rule { lhs: var("x"), rhs: num(0) };
    let mut g = NewStringGenerator::new();
    assert!(matches!(create_fresh(&rule, &mut g), Err(SanitizeError::InvalidPattern)));
    assert_eq!(g.counter(), 0);
    let rule = Rule { lhs: num(1), rhs: num(0) };
    assert!(matches!(create_fresh(&rule, &mut g), Err(SanitizeError::InvalidPattern)));
}

#[test]
fn extract_rejects_bad_argument_shape() {
    let lam = Box::new(Term::Lam { name: "a".to_string(), body: var("a") });
    let rule = Rule { lhs: ctr("Foo", vec![var("x"), lam]), rhs: num(0) };
    let mut g = NewStringGenerator::new();
    assert!(matches!(create_fresh(&rule, &mut g), Err(SanitizeError::InvalidPattern)));
    assert_eq!(g.counter(), 0);
}

#[test]
fn replacement_occurrences_are_numbered() {
    let mut tbl = table_of(&[("x", "_0"), ("y", "_1")]);
    let mut c = ctx();
    let t = ctr("C", vec![var("x"), var("y"), var("x"), var("x")]);
    let r = sanitize_term(&t, false, &mut tbl, &mut c).unwrap();
    let (_, args) = ctr_args(&r);
    assert_eq!(names_of(args), vec!["_0.0", "_1.0", "_0.1", "_0.2"]);
    assert_eq!(c.uses.get(&"_0".to_string()), Some(3));
    assert_eq!(c.uses.get(&"_1".to_string()), Some(1));
}

#[test]
fn pattern_side_erases_unused() {
    let mut tbl = table_of(&[("x", "_0"), ("y", "_1")]);
    let mut c = ctx();
    let used = var("x");
    sanitize_term(&used, false, &mut tbl, &mut c).unwrap();
    let pat = ctr("P", vec![var("x"), var("y"), var("w")]);
    let r = sanitize_term(&pat, true, &mut tbl, &mut c).unwrap();
    let (_, args) = ctr_args(&r);
    assert_eq!(names_of(args), vec!["_0", "*", "*"]);
}

#[test]
fn pattern_side_keeps_global_names() {
    let mut tbl = NameTable::new();
    let mut c = ctx();
    let r = sanitize_term(&var("$g"), true, &mut tbl, &mut c).unwrap();
    assert_eq!(var_name(&r), "$g");
}

#[test]
fn unbound_variable_is_reported() {
    let mut tbl = table_of(&[("x", "_0")]);
    let mut c = ctx();
    let t = ctr("C", vec![var("x"), var("q")]);
    match sanitize_term(&t, false, &mut tbl, &mut c) {
        Err(SanitizeError::UnboundVariable { name }) => assert_eq!(name, "q"),
        other => panic!("unexpected: {:?}", other),
    }
}

#[test]
fn global_name_used_twice_is_rejected() {
    let mut tbl = NameTable::new();
    let mut c = ctx();
    let t = ctr("C", vec![var("$g"), var("$g")]);
    match sanitize_term(&t, false, &mut tbl, &mut c) {
        Err(SanitizeError::DuplicateGlobalUse { name }) => assert_eq!(name, "$g"),
        other => panic!("unexpected: {:?}", other),
    }
}

#[test]
fn global_name_used_once_is_kept() {
    let mut tbl = NameTable::new();
    let mut c = ctx();
    let r = sanitize_term(&var("$g"), false, &mut tbl, &mut c).unwrap();
    assert_eq!(var_name(&r), "$g");
    assert_eq!(tbl.get(&"$g".to_string()).unwrap(), "");
}

#[test]
fn end_to_end_foo_bar() {
    let rule = Rule {
        lhs: ctr("Foo", vec![var("x"), ctr("Bar", vec![var("y"), var("z")])]),
        rhs: ctr("Ctr", vec![var("x"), var("x"), var("y")]),
    };
    let mut g = NewStringGenerator::new();
    let tbl = create_fresh(&rule, &mut g).unwrap();
    assert_eq!(tbl.get(&"x".to_string()).unwrap(), "_0");
    assert_eq!(tbl.get(&"y".to_string()).unwrap(), "_1");
    assert_eq!(tbl.get(&"z".to_string()).unwrap(), "_2");

    let mut g = NewStringGenerator::new();
    let sr = sanitize_rule(&rule, &mut g).unwrap();
    let (name, args) = ctr_args(&sr.rule.rhs);
    assert_eq!(name, "Ctr");
    assert_eq!(names_of(args), vec!["_0.0", "_0.1", "_1.0"]);
    assert_eq!(sr.uses.get(&"_0".to_string()), Some(2));
    assert_eq!(sr.uses.get(&"_1".to_string()), Some(1));
    assert_eq!(sr.uses.get(&"_2".to_string()), None);
    let (name, args) = ctr_args(&sr.rule.lhs);
    assert_eq!(name, "Foo");
    assert_eq!(var_name(&args[0]), "_0");
    let (inner, inner_args) = ctr_args(&args[1]);
    assert_eq!(inner, "Bar");
    assert_eq!(names_of(inner_args), vec!["_1", "*"]);
}

#[test]
fn end_to_end_single_use() {
    let rule = Rule { lhs: ctr("K", vec![var("a")]), rhs: var("a") };
    let mut g = NewStringGenerator::new();
    let sr = sanitize_rule(&rule, &mut g).unwrap();
    assert_eq!(var_name(&sr.rule.rhs), "_0.0");
    assert_eq!(sr.uses.get(&"_0".to_string()), Some(1));
    let (name, args) = ctr_args(&sr.rule.lhs);
    assert_eq!(name, "K");
    assert_eq!(names_of(args), vec!["_0"]);
}

#[test]
fn rule_errors_propagate() {
    let rule = Rule { lhs: ctr("K", vec![var("a")]), rhs: var("b") };
    let mut g = NewStringGenerator::new();
    assert!(matches!(sanitize_rule(&rule, &mut g), Err(SanitizeError::UnboundVariable { .. })));
    let rule = Rule { lhs: var("a"), rhs: var("a") };
    assert!(matches!(sanitize_rule(&rule, &mut g), Err(SanitizeError::InvalidPattern)));
}

#[test]
fn let_used_once_becomes_let_of_first_copy() {
    let mut tbl = table_of(&[("x", "_9")]);
    let mut c = ctx();
    let t = Box::new(Term::Let { name: "v".to_string(), expr: var("x"), body: var("v") });
    let r = sanitize_term(&t, false, &mut tbl, &mut c).unwrap();
    match *r {
        Term::Let { name, expr, body } => {
            assert_eq!(name, "_0.0");
            assert_eq!(var_name(&expr), "_9.0");
            assert_eq!(var_name(&body), "_0.0");
        }
        other => panic!("unexpected: {:?}", other),
    }
    assert!(tbl.get(&"v".to_string()).is_none());
}

#[test]
fn let_unused_is_dismissed() {
    let mut tbl = NameTable::new();
    let mut c = ctx();
    let t = Box::new(Term::Let { name: "v".to_string(), expr: num(1), body: num(2) });
    let r = sanitize_term(&t, false, &mut tbl, &mut c).unwrap();
    assert!(matches!(*r, Term::U32 { numb: 2 }));
}

#[test]
fn let_used_three_times_chains_duplications() {
    let mut tbl = NameTable::new();
    let mut c = ctx();
    let t = Box::new(Term::Let {
        name: "v".to_string(),
        expr: num(5),
        body: ctr("T", vec![var("v"), var("v"), var("v")]),
    });
    let r = sanitize_term(&t, false, &mut tbl, &mut c).unwrap();
    match *r {
        Term::Dup { nam0, nam1, expr, body } => {
            assert_eq!(nam0, "_0.0");
            assert_eq!(nam1, "_0.c0");
            assert!(matches!(*expr, Term::U32 { numb: 5 }));
            match *body {
                Term::Dup { nam0, nam1, expr, body } => {
                    assert_eq!(nam0, "_0.1");
                    assert_eq!(nam1, "_0.2");
                    assert_eq!(var_name(&expr), "_0.c0");
                    let (_, args) = ctr_args(&body);
                    assert_eq!(names_of(args), vec!["_0.0", "_0.1", "_0.2"]);
                }
                other => panic!("unexpected: {:?}", other),
            }
        }
        other => panic!("unexpected: {:?}", other),
    }
}

#[test]
fn let_restores_shadowed_binding() {
    let mut tbl = table_of(&[("v", "_7")]);
    let mut c = ctx();
    let t = Box::new(Term::Let { name: "v".to_string(), expr: num(1), body: var("v") });
    sanitize_term(&t, false, &mut tbl, &mut c).unwrap();
    assert_eq!(tbl.get(&"v".to_string()).unwrap(), "_7");
}

#[test]
fn dup_renames_binders_and_restores() {
    let mut tbl = table_of(&[("a", "_5")]);
    let mut c = ctx();
    let t = Box::new(Term::Dup {
        nam0: "a".to_string(),
        nam1: "b".to_string(),
        expr: num(3),
        body: Box::new(Term::App { func: var("a"), argm: var("b") }),
    });
    let r = sanitize_term(&t, false, &mut tbl, &mut c).unwrap();
    match *r {
        Term::Dup { nam0, nam1, body, .. } => {
            assert_eq!(nam0, "_0.0");
            assert_eq!(nam1, "_1.0");
            match *body {
                Term::App { func, argm } => {
                    assert_eq!(var_name(&func), "_0.0");
                    assert_eq!(var_name(&argm), "_1.0");
                }
                other => panic!("unexpected: {:?}", other),
            }
        }
        other => panic!("unexpected: {:?}", other),
    }
    assert_eq!(tbl.get(&"a".to_string()).unwrap(), "_5");
    assert!(tbl.get(&"b".to_string()).is_none());
}

#[test]
fn dup_with_equal_binders_restores_exactly() {
    let mut tbl = table_of(&[("a", "_5")]);
    let mut c = ctx();
    let t = Box::new(Term::Dup { nam0: "a".to_string(), nam1: "a".to_string(), expr: num(3), body: num(4) });
    sanitize_term(&t, false, &mut tbl, &mut c).unwrap();
    assert_eq!(tbl.get(&"a".to_string()).unwrap(), "_5");
}

#[test]
fn lambda_unused_binder_is_erased() {
    let mut tbl = NameTable::new();
    let mut c = ctx();
    let t = Box::new(Term::Lam { name: "x".to_string(), body: num(1) });
    let r = sanitize_term(&t, false, &mut tbl, &mut c).unwrap();
    match *r {
        Term::Lam { name, body } => {
            assert_eq!(name, "*");
            assert!(matches!(*body, Term::U32 { numb: 1 }));
        }
        other => panic!("unexpected: {:?}", other),
    }
}

#[test]
fn lambda_used_once_binds_first_copy() {
    let mut tbl = NameTable::new();
    let mut c = ctx();
    let t = Box::new(Term::Lam { name: "x".to_string(), body: var("x") });
    let r = sanitize_term(&t, false, &mut tbl, &mut c).unwrap();
    match *r {
        Term::Lam { name, body } => {
            assert_eq!(name, "_0");
            match *body {
                Term::Let { name, expr, body } => {
                    assert_eq!(name, "_0.0");
                    assert_eq!(var_name(&expr), "_0");
                    assert_eq!(var_name(&body), "_0.0");
                }
                other => panic!("unexpected: {:?}", other),
            }
        }
        other => panic!("unexpected: {:?}", other),
    }
}

#[test]
fn lambda_global_binder_keeps_name() {
    let mut tbl = NameTable::new();
    let mut c = ctx();
    let t = Box::new(Term::Lam { name: "$f".to_string(), body: num(0) });
    let r = sanitize_term(&t, false, &mut tbl, &mut c).unwrap();
    match *r {
        Term::Lam { name, .. } => assert_eq!(name, "$f"),
        other => panic!("unexpected: {:?}", other),
    }
    assert_eq!(c.fresh.counter(), 0);
}

#[test]
fn operators_and_constants_recurse() {
    let mut tbl = table_of(&[("x", "_0")]);
    let mut c = ctx();
    let t = Box::new(Term::Op2 { oper: Oper::Add, val0: var("x"), val1: num(2) });
    let r = sanitize_term(&t, false, &mut tbl, &mut c).unwrap();
    match *r {
        Term::Op2 { oper, val0, val1 } => {
            assert_eq!(oper, Oper::Add);
            assert_eq!(var_name(&val0), "_0.0");
            assert!(matches!(*val1, Term::U32 { numb: 2 }));
        }
        other => panic!("unexpected: {:?}", other),
    }
}

#[test]
fn duplicator_by_use_count() {
    let mut uses = UsesMap::new();
    let n = "_4".to_string();
    let r = duplicator(&n, num(1), num(2), &uses);
    assert!(matches!(*r, Term::U32 { numb: 2 }));
    uses.increment(&n);
    uses.increment(&n);
    let r = duplicator(&n, num(1), num(2), &uses);
    match *r {
        Term::Dup { nam0, nam1, expr, body } => {
            assert_eq!(nam0, "_4.0");
            assert_eq!(nam1, "_4.1");
            assert!(matches!(*expr, Term::U32 { numb: 1 }));
            assert!(matches!(*body, Term::U32 { numb: 2 }));
        }
        other => panic!("unexpected: {:?}", other),
    }
}

#[test]
fn name_table_insert_get_remove() {
    let mut t = NameTable::new();
    t.insert("b".to_string(), "_1".to_string());
    t.insert("a".to_string(), "_0".to_string());
    t.insert("b".to_string(), "_2".to_string());
    assert_eq!(t.get(&"a".to_string()).unwrap(), "_0");
    assert_eq!(t.get(&"b".to_string()).unwrap(), "_2");
    assert_eq!(t.remove(&"b".to_string()), Some("_2".to_string()));
    assert!(t.get(&"b".to_string()).is_none());
    assert_eq!(t.remove(&"b".to_string()), None);
}

#[test]
fn term_size_counts_nodes() {
    assert_eq!(term_size(&var("x")), 1);
    let t = ctr("C", vec![var("x"), ctr("D", vec![num(1), var("y")])]);
    assert_eq!(term_size(&t), 5);
    let d = Box::new(Term::Dup { nam0: "a".to_string(), nam1: "b".to_string(), expr: num(1), body: var("a") });
    assert_eq!(term_size(&d), 4);
}

#[test]
fn name_table_keys_are_ordered() {
    let mut t = NameTable::new();
    for k in ["zeta", "alpha", "mid", "al", "beta"] {
        t.insert(k.to_string(), "_0".to_string());
    }
    assert_eq!(t.keys(), vec!["al", "alpha", "beta", "mid", "zeta"]);
    let mut u = NameTable::new();
    for k in ["beta", "al", "zeta", "alpha", "mid"] {
        u.insert(k.to_string(), "_1".to_string());
    }
    assert_eq!(u.keys(), t.keys());
}

#[test]
fn nested_occurrences_numbered_left_to_right() {
    let mut tbl = table_of(&[("x", "_0"), ("y", "_1")]);
    let mut c = ctx();
    let inner = Box::new(Term::Op2 { oper: Oper::Mul, val0: var("x"), val1: var("y") });
    let app = Box::new(Term::App { func: var("x"), argm: inner });
    let t = ctr("C", vec![var("x"), app, var("y")]);
    let r = sanitize_term(&t, false, &mut tbl, &mut c).unwrap();
    let (_, args) = ctr_args(&r);
    assert_eq!(var_name(&args[0]), "_0.0");
    match &*args[1] {
        Term::App { func, argm } => {
            assert_eq!(var_name(func), "_0.1");
            match &**argm {
                Term::Op2 { val0, val1, .. } => {
                    assert_eq!(var_name(val0), "_0.2");
                    assert_eq!(var_name(val1), "_1.0");
                }
                other => panic!("unexpected: {:?}", other),
            }
        }
        other => panic!("unexpected: {:?}", other),
    }
    assert_eq!(var_name(&args[2]), "_1.1");
    assert_eq!(c.uses.get(&"_0".to_string()), Some(3));
    assert_eq!(c.uses.get(&"_1".to_string()), Some(2));
}

#[test]
fn counts_continue_from_recorded_uses() {
    let mut tbl = table_of(&[("x", "_0")]);
    let mut c = ctx();
    c.uses.increment(&"_0".to_string());
    let r = sanitize_term(&var("x"), false, &mut tbl, &mut c).unwrap();
    assert_eq!(var_name(&r), "_0.1");
    assert_eq!(c.uses.get(&"_0".to_string()), Some(2));
}

#[test]
fn global_name_twice_in_nested_term_is_rejected() {
    let mut tbl = table_of(&[("x", "_0")]);
    let mut c = ctx();
    let app = Box::new(Term::App { func: var("$g"), argm: var("x") });
    let t = ctr("C", vec![app, var("$g")]);
    assert!(matches!(
        sanitize_term(&t, false, &mut tbl, &mut c),
        Err(SanitizeError::DuplicateGlobalUse { .. })
    ));
}

#[test]
fn unbound_variable_inside_nested_term() {
    let mut tbl = table_of(&[("x", "_0")]);
    let mut c = ctx();
    let app = Box::new(Term::App { func: var("x"), argm: var("w") });
    let t = ctr("C", vec![app]);
    match sanitize_term(&t, false, &mut tbl, &mut c) {
        Err(SanitizeError::UnboundVariable { name }) => assert_eq!(name, "w"),
        other => panic!("unexpected: {:?}", other),
    }
}
