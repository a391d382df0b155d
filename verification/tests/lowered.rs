use saerom::builtins::Builtin;
use saerom::diag::Span;
use saerom::dump::hir;
use saerom::hir::{Callee, Expr, Function, Kind, Module, Place, Program, Stmt};
use saerom::intern::Interner;
use saerom::nothing::{flows, place_of, spot, tests_nothing, tolerates};
use saerom::emit::calls_user;
use saerom::types::{always_returns, blocks, constants_of, count_sets};

fn at() -> Span {
    Span::new(1, 0, 1)
}

#[test]
fn lowered_program_dump_lists_modules_then_functions() {
    let mut names = Interner::new();
    let length = names.intern("길이");
    let module = Module {
        name: "main".to_string(),
        path: "main.sr".to_string(),
        source: String::new(),
        init: vec![
            Stmt::Assign { place: Place::Global(0), value: Expr::Int(3) },
            Stmt::Eval(Expr::Call { callee: Callee::Op(Builtin::Print), args: vec![Expr::Global(0)], span: at() }),
        ],
        nouns: vec![(length, 0)],
    };
    let function = Function {
        name: "길이".to_string(),
        kind: Kind::Noun,
        module: 0,
        params: vec![0, 2],
        locals: 3,
        body: vec![Stmt::Return {
            value: Expr::Field { owner: Box::new(Expr::Local(0)), field: length, span: at() },
            span: at(),
        }],
        span: at(),
    };
    let program = Program {
        modules: vec![module],
        functions: vec![function],
        names,
        globals: 2,
        order: vec![0],
        root: 0,
    };
    let expected = [
        "globals 2\n",
        "module 0 main\n",
        "  nouns 길이=#0\n",
        "  (set global 0\n    int 3\n  )\n",
        "  (eval\n    (call Print\n      global 0\n    )\n  )\n",
        "fn #0 길이 noun module=0 params=[0 2] locals=3\n",
        "  (return\n    (field 길이\n      local 0\n    )\n  )\n",
    ]
    .concat();
    assert_eq!(hir(&program), expected);
}

#[test]
fn lowered_statements_show_loops_and_stores() {
    let mut names = Interner::new();
    let key = names.intern("k");
    let body = vec![
        Stmt::Each {
            place: Place::Local(1),
            over: Expr::Table(vec![Expr::Bool(true)], vec![(key, Expr::Nothing)]),
            body: vec![Stmt::Break],
            span: at(),
        },
        Stmt::SetPick {
            owner: Expr::Local(0),
            key: Expr::Str("a\tb".to_string()),
            value: Expr::Not(Box::new(Expr::Int(-1))),
            span: at(),
        },
        Stmt::If {
            branches: vec![(Expr::Call { callee: Callee::User(4), args: Vec::new(), span: at() }, vec![Stmt::Continue])],
            otherwise: None,
        },
    ];
    let program = Program {
        modules: vec![Module { name: "m".to_string(), path: String::new(), source: String::new(), init: body, nouns: Vec::new() }],
        functions: Vec::new(),
        names,
        globals: 0,
        order: vec![0],
        root: 0,
    };
    let expected = [
        "globals 0\n",
        "module 0 m\n",
        "  (each local 1\n    (table\n      bool 참\n      (entry k\n        nothing\n      )\n    )\n    (body\n      break\n    )\n  )\n",
        "  (set pick\n    local 0\n    str a\\tb\n    (not\n      int -1\n    )\n  )\n",
        "  (if\n    (branch\n      (test\n        (call #4\n        )\n      )\n      (body\n        continue\n      )\n    )\n  )\n",
    ]
    .concat();
    assert_eq!(hir(&program), expected);
}

fn stop_call() -> Stmt {
    Stmt::Eval(Expr::Call { callee: Callee::Op(Builtin::Stop), args: vec![Expr::Int(0)], span: at() })
}

#[test]
fn bodies_that_always_return() {
    let ret = || Stmt::Return { value: Expr::Nothing, span: at() };
    assert!(!always_returns(&Vec::new()));
    assert!(always_returns(&vec![ret()]));
    assert!(always_returns(&vec![stop_call()]));
    assert!(!always_returns(&vec![ret(), Stmt::Break]));
    let both = Stmt::If { branches: vec![(Expr::Bool(true), vec![ret()])], otherwise: Some(vec![stop_call()]) };
    assert!(always_returns(&vec![both]));
    let one = Stmt::If { branches: vec![(Expr::Bool(true), vec![ret()])], otherwise: None };
    assert!(!always_returns(&vec![one]));
    let partly = Stmt::If {
        branches: vec![(Expr::Bool(true), vec![ret()]), (Expr::Bool(false), Vec::new())],
        otherwise: Some(vec![ret()]),
    };
    assert!(!always_returns(&vec![partly]));
}

#[test]
fn bodies_that_fall_through() {
    assert!(flows(&Vec::new()));
    assert!(!flows(&vec![Stmt::Continue]));
    assert!(!flows(&vec![stop_call()]));
    let closed = Stmt::If { branches: vec![(Expr::Bool(true), vec![Stmt::Break])], otherwise: Some(vec![Stmt::Continue]) };
    assert!(!flows(&vec![closed]));
    let open = Stmt::If { branches: vec![(Expr::Bool(true), vec![Stmt::Break])], otherwise: Some(Vec::new()) };
    assert!(flows(&vec![open]));
    assert!(flows(&vec![Stmt::If { branches: vec![(Expr::Bool(true), vec![Stmt::Break])], otherwise: None }]));
}

#[test]
fn conditions_that_test_for_nothing() {
    let equal = |left: Expr, right: Expr| Expr::Call { callee: Callee::Op(Builtin::Equal), args: vec![left, right], span: at() };
    assert_eq!(tests_nothing(&equal(Expr::Local(3), Expr::Nothing)), Some((Place::Local(3), true)));
    assert_eq!(tests_nothing(&equal(Expr::Nothing, Expr::Global(1))), Some((Place::Global(1), true)));
    assert_eq!(
        tests_nothing(&Expr::Not(Box::new(equal(Expr::Local(2), Expr::Nothing)))),
        Some((Place::Local(2), false))
    );
    assert_eq!(tests_nothing(&equal(Expr::Local(2), Expr::Int(0))), None);
    assert_eq!(tests_nothing(&Expr::Local(2)), None);
    assert_eq!(place_of(&Expr::Global(7)), Some(Place::Global(7)));
    assert_eq!(place_of(&Expr::Int(7)), None);
    assert_eq!(spot(&equal(Expr::Nothing, Expr::Nothing)), Some(at()));
    assert_eq!(spot(&Expr::Nothing), None);
    assert!(tolerates(Builtin::Print));
    assert!(!tolerates(Builtin::Add));
}

fn import_of(path: &str) -> saerom::ast::Stmt {
    saerom::ast::Stmt::Import { module: path.to_string(), names: None, path: path.to_string(), span: at() }
}

fn unit(name: &str, path: Option<&str>, statements: Vec<saerom::ast::Stmt>) -> saerom::load::Unit {
    saerom::load::Unit {
        name: name.to_string(),
        path: path.map(|found| found.to_string()),
        source: "첫 줄\n둘째 줄\n".to_string(),
        statements,
    }
}

fn loaded() -> saerom::load::Loaded {
    saerom::load::Loaded {
        units: vec![
            unit("main", None, vec![import_of("a.sr"), import_of("b.sr")]),
            unit("a", Some("a.sr"), vec![import_of("b.sr"), import_of("missing.sr")]),
            unit("b", Some("b.sr"), vec![import_of("a.sr")]),
        ],
        root: 0,
        errors: Vec::new(),
    }
}

#[test]
fn load_order_puts_imports_first_and_the_root_last() {
    let program = loaded();
    assert_eq!(saerom::resolve::order_of(&program), vec![2, 1, 0]);
    assert_eq!(program.unit_of("b.sr"), Some(2));
    assert_eq!(program.unit_of("c.sr"), None);
}

#[test]
fn errors_render_against_their_unit() {
    let program = loaded();
    let mut error = saerom::diag::Diag::name("없는 이름".to_string(), Span::new(2, 0, 2));
    error.unit = Some(1);
    let shown = program.render(&vec![error], false);
    assert!(shown.contains("a.sr"));
    assert!(shown.contains("없는 이름"));
    assert!(shown.ends_with('\n'));
    let orphan = saerom::diag::Diag::name("m".to_string(), Span::new(1, 0, 1));
    assert!(program.render(&vec![orphan], false).contains("main"));
    assert_eq!(saerom::load::span_of(&Vec::new()), Span::new(0, 0, 0));
    assert_eq!(saerom::load::span_of(&vec![import_of("x")]), at());
}

#[test]
fn without_cycles_imports_come_before_importers() {
    let program = saerom::load::Loaded {
        units: vec![
            unit("main", None, vec![import_of("b.sr"), import_of("a.sr")]),
            unit("a", Some("a.sr"), vec![import_of("c.sr")]),
            unit("b", Some("b.sr"), vec![import_of("a.sr")]),
            unit("c", Some("c.sr"), Vec::new()),
            unit("unused", Some("d.sr"), Vec::new()),
        ],
        root: 0,
        errors: Vec::new(),
    };
    assert_eq!(saerom::resolve::order_of(&program), vec![3, 1, 2, 0]);
}

#[test]
fn returning_bodies_never_fall_through() {
    let ret = || Stmt::Return { value: Expr::Nothing, span: at() };
    let bodies = vec![
        vec![ret()],
        vec![stop_call()],
        vec![Stmt::If { branches: vec![(Expr::Bool(true), vec![ret()])], otherwise: Some(vec![stop_call()]) }],
    ];
    for body in &bodies {
        assert!(always_returns(body));
        assert!(!flows(body));
    }
}

fn user_call(id: u32) -> Expr {
    Expr::Call { callee: Callee::User(id), args: Vec::new(), span: at() }
}

fn print_of(value: Expr) -> Stmt {
    Stmt::Eval(Expr::Call { callee: Callee::Op(Builtin::Print), args: vec![value], span: at() })
}

#[test]
fn a_call_of_a_program_function_is_found_at_any_depth() {
    assert!(!calls_user(&vec![print_of(Expr::Int(1)), Stmt::Break]));
    assert!(calls_user(&vec![print_of(Expr::Not(Box::new(user_call(0))))]));
    let nested = vec![Stmt::While {
        test: Expr::Bool(true),
        body: vec![Stmt::If {
            branches: vec![(Expr::Bool(false), vec![Stmt::Continue])],
            otherwise: Some(vec![Stmt::Assign { place: Place::Local(0), value: user_call(3) }]),
        }],
    }];
    assert!(calls_user(&nested));
    let tested = vec![Stmt::If { branches: vec![(user_call(1), Vec::new())], otherwise: None }];
    assert!(calls_user(&tested));
    let mut names = Interner::new();
    let key = names.intern("k");
    let in_table = vec![print_of(Expr::Table(vec![Expr::Int(1)], vec![(key, user_call(2))]))];
    assert!(calls_user(&in_table));
}

#[test]
fn the_bodies_under_a_statement_are_listed_in_order() {
    let condition = Stmt::If {
        branches: vec![(Expr::Bool(true), vec![Stmt::Break]), (Expr::Bool(false), Vec::new())],
        otherwise: Some(vec![Stmt::Continue, Stmt::Continue]),
    };
    let found = blocks(&condition);
    assert_eq!(found.len(), 3);
    assert_eq!(found[0].len(), 1);
    assert_eq!(found[1].len(), 0);
    assert_eq!(found[2].len(), 2);
    let looped = Stmt::While { test: Expr::Bool(true), body: vec![Stmt::Break] };
    assert_eq!(blocks(&looped).len(), 1);
    assert!(blocks(&Stmt::Break).is_empty());
}

fn text_module(init: Vec<Stmt>) -> Module {
    Module { name: "main".to_string(), path: "main.sr".to_string(), source: String::new(), init, nouns: Vec::new() }
}

#[test]
fn globals_stored_once_by_a_string_are_constants() {
    let kind = |slot: u32, text: &str| Stmt::Assign { place: Place::Global(slot), value: Expr::Str(text.to_string()) };
    let init = vec![
        kind(0, "정수"),
        kind(1, "실수"),
        kind(1, "문자열"),
        Stmt::Assign { place: Place::Global(2), value: Expr::Int(4) },
        Stmt::If { branches: vec![(Expr::Bool(true), vec![kind(3, "수")])], otherwise: None },
        Stmt::Range {
            place: Place::Global(4),
            start: Expr::Int(0),
            stop: Expr::Int(3),
            step: None,
            body: Vec::new(),
            span: at(),
        },
    ];
    let function = Function {
        name: "하다".to_string(),
        kind: Kind::Verb,
        module: 0,
        params: Vec::new(),
        locals: 0,
        body: vec![kind(5, "논리값"), kind(3, "다시")],
        span: at(),
    };
    let program = Program {
        modules: vec![text_module(init)],
        functions: vec![function],
        names: Interner::new(),
        globals: 7,
        order: vec![0],
        root: 0,
    };
    let found = constants_of(&program);
    assert_eq!(found.len(), 7);
    assert_eq!(found[0].as_deref(), Some("정수"));
    assert_eq!(found[1], None);
    assert_eq!(found[2], None);
    assert_eq!(found[3], None);
    assert_eq!(found[4], None);
    assert_eq!(found[5].as_deref(), Some("논리값"));
    assert_eq!(found[6], None);
}

#[test]
fn counting_stores_keeps_none_one_or_more() {
    let body = vec![
        Stmt::Assign { place: Place::Global(0), value: Expr::Str("a".to_string()) },
        Stmt::Assign { place: Place::Global(0), value: Expr::Int(1) },
        Stmt::Assign { place: Place::Global(1), value: Expr::Int(1) },
        Stmt::Assign { place: Place::Local(0), value: Expr::Str("b".to_string()) },
    ];
    let mut counts = vec![0usize, 0, 0];
    let mut found: Vec<Option<String>> = vec![None, None, None];
    count_sets(&body, &mut counts, &mut found);
    assert_eq!(counts, vec![2, 1, 0]);
    assert_eq!(found, vec![Some("a".to_string()), None, None]);
}

#[test]
fn sibling_imports_load_in_the_order_of_their_statements() {
    let program = saerom::load::Loaded {
        units: vec![
            unit("main", None, vec![import_of("b.sr"), import_of("a.sr")]),
            unit("a", Some("a.sr"), Vec::new()),
            unit("b", Some("b.sr"), Vec::new()),
        ],
        root: 0,
        errors: Vec::new(),
    };
    assert_eq!(saerom::resolve::order_of(&program), vec![2, 1, 0]);
}
