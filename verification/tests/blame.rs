use saerom::builtins::Builtin;
use saerom::diag::Span;
use saerom::hir::{Callee, Expr, Function, Kind, Module, Place, Program, Stmt};
use saerom::intern::Interner;
use saerom::nothing::{check, Blame, Need};
use saerom::types::{Fields, Ty, Types};

fn at(col: usize) -> Span {
    Span::new(1, col, col + 1)
}

fn program(init: Vec<Stmt>, body: Vec<Stmt>) -> Program {
    let module = Module {
        name: "main".to_string(),
        path: "main.sr".to_string(),
        source: String::new(),
        init,
        nouns: Vec::new(),
    };
    let function = Function {
        name: "하다".to_string(),
        kind: Kind::Verb,
        module: 0,
        params: vec![0],
        locals: 2,
        body,
        span: at(0),
    };
    Program { modules: vec![module], functions: vec![function], names: Interner::new(), globals: 1, order: vec![0], root: 0 }
}

fn types() -> Types {
    Types {
        fields: Fields { kind: Some(7), length: Some(8), names: None },
        nouns: Vec::new(),
        globals: vec![Ty::Any],
        locals: vec![vec![Ty::Any, Ty::Any]],
        returns: vec![Ty::Nothing],
        constants: vec![None],
    }
}

fn field_of(owner: Expr, col: usize) -> Expr {
    Expr::Field { owner: Box::new(owner), field: 3, span: at(col) }
}

fn is_nothing(expr: Expr) -> Expr {
    Expr::Call { callee: Callee::Op(Builtin::Equal), args: vec![expr, Expr::Nothing], span: at(0) }
}

#[test]
fn an_owner_that_may_be_nothing_is_blamed_where_it_is_used() {
    let init = vec![Stmt::Eval(field_of(Expr::Global(0), 4))];
    let found = check(&program(init, Vec::new()), &types());
    assert_eq!(found, vec![Blame { module: 0, span: at(4), need: Need::Owner }]);
}

#[test]
fn a_real_value_assigned_makes_the_place_known() {
    let init = vec![
        Stmt::Assign { place: Place::Global(0), value: Expr::Int(1) },
        Stmt::Eval(field_of(Expr::Global(0), 4)),
        Stmt::Assign { place: Place::Global(0), value: Expr::Nothing },
        Stmt::Eval(field_of(Expr::Global(0), 6)),
    ];
    let found = check(&program(init, Vec::new()), &types());
    assert_eq!(found, vec![Blame { module: 0, span: at(6), need: Need::Owner }]);
}

#[test]
fn a_test_against_nothing_makes_the_place_known_inside() {
    let init = vec![
        Stmt::If {
            branches: vec![(Expr::Not(Box::new(is_nothing(Expr::Global(0)))), vec![Stmt::Eval(field_of(Expr::Global(0), 4))])],
            otherwise: None,
        },
        Stmt::Eval(field_of(Expr::Global(0), 6)),
    ];
    let found = check(&program(init, Vec::new()), &types());
    assert_eq!(found, vec![Blame { module: 0, span: at(6), need: Need::Owner }]);
}

#[test]
fn a_branch_that_stops_leaves_the_place_known_after_it() {
    let stop = Stmt::Eval(Expr::Call { callee: Callee::Op(Builtin::Stop), args: Vec::new(), span: at(2) });
    let init = vec![
        Stmt::If { branches: vec![(is_nothing(Expr::Global(0)), vec![stop])], otherwise: None },
        Stmt::Eval(field_of(Expr::Global(0), 6)),
    ];
    let found = check(&program(init, Vec::new()), &types());
    assert!(found.is_empty());
}

#[test]
fn arguments_need_real_values_unless_the_builtin_accepts_nothing() {
    let printed = Expr::Call { callee: Callee::Op(Builtin::Print), args: vec![Expr::Global(0)], span: at(2) };
    let added = Expr::Call { callee: Callee::Op(Builtin::Add), args: vec![Expr::Int(1), Expr::Global(0)], span: at(5) };
    let called = Expr::Call { callee: Callee::User(0), args: vec![Expr::Global(0)], span: at(9) };
    let init = vec![Stmt::Eval(printed), Stmt::Eval(added), Stmt::Eval(called)];
    let found = check(&program(init, Vec::new()), &types());
    assert_eq!(
        found,
        vec![
            Blame { module: 0, span: at(5), need: Need::Argument(Callee::Op(Builtin::Add)) },
            Blame { module: 0, span: at(9), need: Need::Argument(Callee::User(0)) },
        ]
    );
}

#[test]
fn parameters_are_known_and_other_locals_are_not() {
    let body = vec![Stmt::Eval(field_of(Expr::Local(0), 3)), Stmt::Eval(field_of(Expr::Local(1), 5))];
    let found = check(&program(Vec::new(), body), &types());
    assert_eq!(found, vec![Blame { module: 0, span: at(5), need: Need::Owner }]);
}

#[test]
fn a_counted_loop_needs_real_bounds_and_knows_its_counter() {
    let body = vec![Stmt::Eval(field_of(Expr::Global(0), 7))];
    let init = vec![Stmt::Range {
        place: Place::Global(0),
        start: Expr::Int(1),
        stop: Expr::Nothing,
        step: None,
        body,
        span: at(1),
    }];
    let found = check(&program(init, Vec::new()), &types());
    assert_eq!(found, vec![Blame { module: 0, span: at(1), need: Need::RangeBound }]);
}

#[test]
fn types_of_expressions_follow_the_inference() {
    let kinds = types();
    let convert = Expr::Call {
        callee: Callee::Op(Builtin::Convert),
        args: vec![Expr::Str("x".to_string()), Expr::Str("정수".to_string())],
        span: at(0),
    };
    assert_eq!(kinds.of(None, &convert), Ty::Int);
    let kind = Expr::Field { owner: Box::new(Expr::Int(1)), field: 7, span: at(0) };
    assert_eq!(kinds.of(None, &kind), Ty::Str);
    let length = Expr::Field { owner: Box::new(Expr::Str("글".to_string())), field: 8, span: at(0) };
    assert_eq!(kinds.of(None, &length), Ty::Int);
    let added = Expr::Call { callee: Callee::Op(Builtin::Add), args: vec![Expr::Int(1), Expr::Float("2.0".to_string())], span: at(0) };
    assert_eq!(kinds.of(None, &added), Ty::Float);
    assert_eq!(kinds.of(Some(0), &Expr::Local(1)), Ty::Any);
    assert_eq!(kinds.of(None, &Expr::Local(1)), Ty::Any);
    assert_eq!(kinds.of(None, &Expr::Call { callee: Callee::User(0), args: Vec::new(), span: at(0) }), Ty::Nothing);
}

fn call_user(arg: Expr) -> Expr {
    Expr::Call { callee: Callee::User(0), args: vec![arg], span: at(0) }
}

#[test]
fn inference_raises_each_place_to_what_it_is_given() {
    let init = vec![
        Stmt::Assign { place: Place::Global(0), value: Expr::Int(1) },
        Stmt::Eval(call_user(Expr::Int(2))),
    ];
    let body = vec![Stmt::Return { value: Expr::Local(0), span: at(0) }];
    let mut lowered = program(init, body);
    lowered.globals = 2;
    lowered.modules[0].init.push(Stmt::Assign { place: Place::Global(1), value: Expr::Str("a".to_string()) });
    lowered.modules[0].init.push(Stmt::Assign { place: Place::Global(1), value: Expr::Int(3) });
    let found = saerom::types::infer(&lowered);
    assert_eq!(found.globals, vec![Ty::Int, Ty::Any]);
    assert_eq!(found.locals, vec![vec![Ty::Int, Ty::Never]]);
    assert_eq!(found.returns, vec![Ty::Int]);
    assert_eq!(found.constants, vec![None, None]);
}

#[test]
fn a_function_that_may_end_without_returning_gives_nothing() {
    let body = vec![Stmt::Eval(Expr::Local(0))];
    let found = saerom::types::infer(&program(Vec::new(), body));
    assert_eq!(found.returns, vec![Ty::Nothing]);
    assert_eq!(found.locals, vec![vec![Ty::Never, Ty::Never]]);
}

#[test]
fn a_counter_takes_the_type_its_bounds_make() {
    let init = vec![Stmt::Range {
        place: Place::Global(0),
        start: Expr::Float("0.5".to_string()),
        stop: Expr::Float("2.5".to_string()),
        step: None,
        body: Vec::new(),
        span: at(0),
    }];
    let found = saerom::types::infer(&program(init, Vec::new()));
    assert_eq!(found.globals, vec![Ty::Float]);
    let mixed = vec![Stmt::Range {
        place: Place::Global(0),
        start: Expr::Int(1),
        stop: Expr::Float("2.5".to_string()),
        step: None,
        body: Vec::new(),
        span: at(0),
    }];
    let found = saerom::types::infer(&program(mixed, Vec::new()));
    assert_eq!(found.globals, vec![Ty::Any]);
}

fn text_types() -> Types {
    Types {
        fields: Fields::default(),
        nouns: Vec::new(),
        globals: vec![Ty::Str, Ty::Str],
        locals: vec![vec![Ty::Str, Ty::Str]],
        returns: vec![Ty::Nothing],
        constants: vec![None, None],
    }
}

fn grow(place: Place, held: Expr) -> Stmt {
    Stmt::Assign {
        place,
        value: Expr::Call { callee: Callee::Op(Builtin::Add), args: vec![held, Expr::Str("b".to_string())], span: at(0) },
    }
}

#[test]
fn a_text_only_grown_with_new_values_may_be_reused() {
    let init = vec![
        Stmt::Assign { place: Place::Global(0), value: Expr::Str("a".to_string()) },
        grow(Place::Global(0), Expr::Global(0)),
    ];
    let found = saerom::reuse::find(&program(init, Vec::new()), &text_types());
    assert!(found.kept == vec![saerom::reuse::Key::Global(0)]);
    assert!(found.allows(None, Place::Global(0)));
    assert!(!found.allows(None, Place::Global(1)));
}

#[test]
fn a_text_handed_on_copied_or_handed_in_is_not_reused() {
    let init = vec![
        Stmt::Assign { place: Place::Global(0), value: Expr::Str("a".to_string()) },
        Stmt::Assign { place: Place::Global(1), value: Expr::Global(0) },
    ];
    let body = vec![grow(Place::Local(0), Expr::Local(0)), grow(Place::Local(1), Expr::Local(1))];
    let found = saerom::reuse::find(&program(init, body), &text_types());
    assert!(found.kept == vec![saerom::reuse::Key::Local(0, 1)]);
    assert!(found.allows(Some(0), Place::Local(1)));
    assert!(!found.allows(Some(0), Place::Local(0)));
    assert!(!found.allows(None, Place::Local(1)));
}
