use saerom::ast::{CallExpr, DefKind, Expr, Literal, LoopKind, Selector, Slot, Stmt, Target, TemplatePart};
use saerom::diag::Span;
use saerom::assign::is_integer_text;
use saerom::dump::ast;
use saerom::hir::Expr as Low;
use saerom::sig::Marker;

fn at() -> Span {
    Span::new(1, 0, 1)
}

fn name(text: &str) -> Expr {
    Expr::Name { name: text.to_string(), span: at() }
}

fn number(value: i64) -> Expr {
    Expr::Literal { value: Literal::Int(value), span: at() }
}

fn target(root: &str, fields: Vec<Selector>) -> Target {
    Target { root: root.to_string(), fields, span: at() }
}

#[test]
fn declaration_dump_shows_target_and_value() {
    let program = vec![Stmt::Declare {
        assigns: vec![(target("x", Vec::new()), number(-3))],
        span: at(),
    }];
    assert_eq!(
        ast(&program),
        "(declare\n  (target\n    name x\n  )\n  (value\n    lit int -3\n  )\n)\n"
    );
}

#[test]
fn selectors_wrap_the_target_in_turn() {
    let program = vec![Stmt::Declare {
        assigns: vec![(
            target("표", vec![Selector::Name("이름".to_string()), Selector::Pick(name("k"))]),
            Expr::Literal { value: Literal::Nothing, span: at() },
        )],
        span: at(),
    }];
    let expected = "(declare\n  (target\n    (pick\n      (field 이름\n        name 표\n      )\n      name k\n    )\n  )\n  (value\n    lit nothing\n  )\n)\n";
    assert_eq!(ast(&program), expected);
}

#[test]
fn calls_show_tail_and_flags() {
    let call = CallExpr {
        verb: "더하다".to_string(),
        slots: vec![
            Slot { marker: Marker::Case("와"), expr: number(1) },
            Slot { marker: Marker::Bare, expr: name("y") },
        ],
        negated: true,
        asks: false,
        tail: None,
        span: at(),
    };
    let program = vec![Stmt::Exec { calls: vec![call], span: at() }];
    let expected = "(exec\n  (call 더하다 tail=- neg=1 asks=0\n    (slot 와\n      lit int 1\n    )\n    (slot -\n      name y\n    )\n  )\n)\n";
    assert_eq!(ast(&program), expected);
}

#[test]
fn conditions_show_branches_and_joined_tests() {
    let test = Expr::And {
        left: Box::new(Expr::Literal { value: Literal::Bool(true), span: at() }),
        right: Box::new(name("b")),
        span: at(),
    };
    let program = vec![Stmt::If {
        branches: vec![(test, vec![Stmt::Break { span: at() }])],
        otherwise: Some(vec![Stmt::Continue { span: at() }]),
        span: at(),
    }];
    let expected = "(if\n  (branch\n    (test\n      (call 그리고 tail=- neg=0 asks=0\n        (slot -\n          lit bool 참\n        )\n        (slot -\n          name b\n        )\n      )\n    )\n    (body\n      break\n    )\n  )\n  (otherwise\n    continue\n  )\n)\n";
    assert_eq!(ast(&program), expected);
}

#[test]
fn loops_definitions_and_imports_dump() {
    let program = vec![
        Stmt::Loop {
            kind: LoopKind::Range {
                variable: "i".to_string(),
                start: number(1),
                stop: number(10),
                step: Some(number(2)),
            },
            body: Vec::new(),
            span: at(),
        },
        Stmt::Loop {
            kind: LoopKind::Each { variable: "v".to_string(), over: name("목록") },
            body: vec![Stmt::Return { value: name("v"), span: at() }],
            span: at(),
        },
        Stmt::Define {
            name: "보이다".to_string(),
            kind: DefKind::Verb,
            params: vec![(Marker::Case("를"), "값".to_string()), (Marker::Bare, "n".to_string())],
            body: Vec::new(),
            span: at(),
        },
        Stmt::Import { module: "셈".to_string(), names: None, path: "셈.sr".to_string(), span: at() },
        Stmt::Import {
            module: "글".to_string(),
            names: Some(vec!["a".to_string(), "b".to_string()]),
            path: "글.sr".to_string(),
            span: at(),
        },
    ];
    let expected = [
        "(loop range i\n  (start\n    lit int 1\n  )\n  (stop\n    lit int 10\n  )\n  (step\n    lit int 2\n  )\n  (body\n  )\n)\n",
        "(each v\n  (over\n    name 목록\n  )\n  (body\n    (return\n      name v\n    )\n  )\n)\n",
        "(define 보이다 [를:값 -:n]\n  (body\n  )\n)\n",
        "import 셈 [*]\n",
        "import 글 [a b]\n",
    ]
    .concat();
    assert_eq!(ast(&program), expected);
}

#[test]
fn tables_templates_and_escapes_dump() {
    let table = Expr::Table {
        items: vec![number(1)],
        entries: vec![("k".to_string(), Expr::Literal { value: Literal::Str("a\nb".to_string()), span: at() })],
        span: at(),
    };
    let template = Expr::Template {
        parts: vec![TemplatePart::Text("x\t".to_string()), TemplatePart::Expr(name("n"))],
        span: at(),
    };
    let program = vec![
        Stmt::Value { expr: table, span: at() },
        Stmt::Value { expr: template, span: at() },
    ];
    let expected = [
        "(value\n  (table\n    lit int 1\n    (entry k\n      lit str a\\nb\n    )\n  )\n)\n",
        "(value\n  (template\n    lit str x\\t\n    name n\n  )\n)\n",
    ]
    .concat();
    assert_eq!(ast(&program), expected);
}

fn names(list: &[&str]) -> Vec<String> {
    list.iter().map(|one| one.to_string()).collect()
}

fn assign_to(root: &str, value: Expr) -> Stmt {
    Stmt::Declare { assigns: vec![(target(root, Vec::new()), value)], span: at() }
}

fn read(text: &str, line: usize) -> Stmt {
    Stmt::Value { expr: Expr::Name { name: text.to_string(), span: Span::new(line, 0, 1) }, span: at() }
}

#[test]
fn name_assigned_on_one_branch_only_is_reported() {
    let body = vec![
        Stmt::If {
            branches: vec![(name("c"), vec![assign_to("x", number(1))])],
            otherwise: None,
            span: at(),
        },
        read("x", 5),
        read("x", 6),
    ];
    let errors = saerom::assign::check(&body, &names(&["x"]), &names(&["c"]));
    assert_eq!(errors.len(), 1);
    assert_eq!(errors[0].msg, "'x'에 값이 대입되지 않았을 수 있음");
    assert_eq!(errors[0].span, Span::new(5, 0, 1));
    assert_eq!(errors[0].kind, saerom::msg::NAME);
}

#[test]
fn name_assigned_on_every_branch_is_live() {
    let body = vec![
        Stmt::If {
            branches: vec![(name("c"), vec![assign_to("x", number(1))])],
            otherwise: Some(vec![assign_to("x", number(2))]),
            span: at(),
        },
        read("x", 5),
    ];
    assert!(saerom::assign::check(&body, &names(&["x"]), &names(&["c"])).is_empty());
}

#[test]
fn branch_that_returns_does_not_weaken_the_rest() {
    let body = vec![
        Stmt::If {
            branches: vec![(name("c"), vec![Stmt::Return { value: number(0), span: at() }])],
            otherwise: Some(vec![assign_to("x", number(2))]),
            span: at(),
        },
        read("x", 5),
    ];
    assert!(saerom::assign::check(&body, &names(&["x"]), &names(&["c"])).is_empty());
}

#[test]
fn loop_bodies_may_not_run() {
    let body = vec![
        Stmt::Loop {
            kind: LoopKind::While { test: name("c") },
            body: vec![assign_to("x", number(1))],
            span: at(),
        },
        read("x", 7),
        Stmt::Loop {
            kind: LoopKind::Range { variable: "i".to_string(), start: number(1), stop: number(3), step: None },
            body: Vec::new(),
            span: at(),
        },
        read("i", 8),
    ];
    let errors = saerom::assign::check(&body, &names(&["x", "i"]), &names(&["c"]));
    assert_eq!(errors.len(), 1);
    assert_eq!(errors[0].msg, "'x'에 값이 대입되지 않았을 수 있음");
    assert_eq!(errors[0].span, Span::new(7, 0, 1));
}

#[test]
fn reads_after_a_stop_are_not_checked_and_non_locals_are_free() {
    let body = vec![read("g", 1), Stmt::Break { span: at() }, read("x", 2)];
    assert!(saerom::assign::check(&body, &names(&["x"]), &Vec::new()).is_empty());
}

#[test]
fn ordinal_fields_read_their_counting_name() {
    let field = |label: &str| Stmt::Value {
        expr: Expr::Field { owner: Box::new(name("목록")), name: label.to_string(), span: Span::new(3, 1, 2) },
        span: at(),
    };
    let body = vec![field("3번째"), field("자리번째")];
    let errors = saerom::assign::check(&body, &names(&["자리", "목록"]), &names(&["목록"]));
    assert_eq!(errors.len(), 1);
    assert_eq!(errors[0].msg, "'자리'에 값이 대입되지 않았을 수 있음");
    assert_eq!(errors[0].span, Span::new(3, 1, 2));
}

#[test]
fn integer_text_follows_the_i64_parser() {
    assert!(is_integer_text("12"));
    assert!(is_integer_text("+5"));
    assert!(is_integer_text("-9223372036854775808"));
    assert!(is_integer_text("9223372036854775807"));
    assert!(!is_integer_text("9223372036854775808"));
    assert!(!is_integer_text("-"));
    assert!(!is_integer_text(""));
    assert!(!is_integer_text("1a"));
    assert_eq!(saerom::assign::ordinal_head("자리번째"), Some("자리".to_string()));
    assert_eq!(saerom::assign::ordinal_head("-2번째"), None);
    assert_eq!(saerom::assign::ordinal_head("번째"), Some(String::new()));
}

fn call_of(verb: &str, slots: Vec<Slot>) -> CallExpr {
    CallExpr { verb: verb.to_string(), slots, negated: false, asks: false, tail: None, span: at() }
}

#[test]
fn parameters_called_as_verbs_are_verb_slots() {
    let inner = Expr::Call(Box::new(call_of("f", Vec::new())));
    let body = vec![
        Stmt::Exec { calls: vec![call_of("출력하다", vec![Slot { marker: Marker::Case("를"), expr: inner }])], span: at() },
        Stmt::Loop {
            kind: LoopKind::While { test: name("c") },
            body: vec![Stmt::Exec { calls: vec![call_of("g", Vec::new())], span: at() }],
            span: at(),
        },
    ];
    let params = vec![
        (Marker::Case("를"), "f".to_string()),
        (Marker::Case("로"), "x".to_string()),
        (Marker::Bare, "g".to_string()),
    ];
    assert_eq!(saerom::resolve::verb_slots(&params, &body), vec!["f".to_string(), "g".to_string()]);
}

#[test]
fn bound_names_come_from_bare_targets_and_loop_variables() {
    let body = vec![
        Stmt::Declare {
            assigns: vec![
                (target("a", Vec::new()), number(1)),
                (target("표", vec![Selector::Name("k".to_string())]), number(2)),
            ],
            span: at(),
        },
        Stmt::If {
            branches: vec![(name("c"), vec![assign_to("b", number(3))])],
            otherwise: Some(vec![Stmt::Loop {
                kind: LoopKind::Each { variable: "v".to_string(), over: name("목록") },
                body: vec![assign_to("w", number(4))],
                span: at(),
            }]),
            span: at(),
        },
        Stmt::Define {
            name: "f".to_string(),
            kind: DefKind::Verb,
            params: Vec::new(),
            body: vec![assign_to("hidden", number(0))],
            span: at(),
        },
    ];
    let mut found = vec!["p".to_string()];
    saerom::resolve::bind_names(&body, &mut found);
    assert_eq!(found, names(&["p", "a", "b", "v", "w"]));
}

#[test]
fn arguments_follow_the_parameter_order() {

    let args = vec![
        (Marker::Case("를"), Low::Int(1)),
        (Marker::Case("에"), Low::Int(2)),
        (Marker::Case("를"), Low::Int(3)),
    ];
    let params = vec![Marker::Case("에"), Marker::Case("를"), Marker::Case("로"), Marker::Case("를")];
    let out = saerom::resolve::order_args(args, &params);
    assert_eq!(out.len(), 4);
    assert!(matches!(out[0], Low::Int(2)));
    assert!(matches!(out[1], Low::Int(1)));
    assert!(matches!(out[2], Low::Nothing));
    assert!(matches!(out[3], Low::Int(3)));
}

fn verb_info(name: &str) -> saerom::parse::VerbInfo {
    saerom::parse::VerbInfo {
        name: name.to_string(),
        pos: saerom::hangul::Pos::Descriptive,
        ending: saerom::hangul::Ending::Conditional,
        negated: false,
        span: at(),
    }
}

#[test]
fn comparison_words_fold_into_verbs() {
    let slots = vec![
        Slot { marker: Marker::Case("가"), expr: name("x") },
        Slot { marker: Marker::Bare, expr: number(3) },
        Slot { marker: Marker::Bare, expr: name("이상") },
    ];
    let (folded, info) = saerom::parse::fold_comparison(slots, verb_info("이다"));
    assert_eq!(folded.len(), 2);
    assert_eq!(folded[1].marker, Marker::Case("보다"));
    assert!(matches!(folded[1].expr, Expr::Literal { value: Literal::Int(3), .. }));
    assert_eq!(info.name, "작다");
    assert!(info.negated);

    let plain = vec![
        Slot { marker: Marker::Case("가"), expr: name("x") },
        Slot { marker: Marker::Bare, expr: name("미만") },
    ];
    let (kept, info) = saerom::parse::fold_comparison(plain, verb_info("크다"));
    assert_eq!(kept.len(), 2);
    assert_eq!(info.name, "크다");

    let under = vec![
        Slot { marker: Marker::Bare, expr: number(1) },
        Slot { marker: Marker::Case("가"), expr: name("미만") },
    ];
    let (folded, info) = saerom::parse::fold_comparison(under, verb_info("이다"));
    assert_eq!(folded.len(), 1);
    assert_eq!(info.name, "작다");
    assert!(!info.negated);
}

#[test]
fn second_subject_before_the_copula_is_bare() {
    let slots = vec![
        Slot { marker: Marker::Case("가"), expr: name("a") },
        Slot { marker: Marker::Case("를"), expr: name("c") },
        Slot { marker: Marker::Case("가"), expr: name("b") },
    ];
    let found = saerom::parse::copula_slots(slots);
    assert_eq!(found[0].marker, Marker::Case("가"));
    assert_eq!(found[1].marker, Marker::Case("를"));
    assert_eq!(found[2].marker, Marker::Bare);
    let single = saerom::parse::copula_slots(vec![Slot { marker: Marker::Case("가"), expr: name("a") }]);
    assert_eq!(single[0].marker, Marker::Case("가"));
}

#[test]
fn dump_of_joined_programs_is_joined_dumps() {
    let first = vec![assign_to("a", number(1))];
    let second = vec![Stmt::Break { span: at() }, read("a", 2)];
    let mut both = vec![assign_to("a", number(1))];
    both.push(Stmt::Break { span: at() });
    both.push(read("a", 2));
    assert_eq!(ast(&both), ast(&first) + &ast(&second));
}
