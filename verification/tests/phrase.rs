use saerom::ast::{Expr, Literal, Slot, TemplatePart};
use saerom::diag::Span;
use saerom::hangul::{Ending, Pos};
use saerom::lex::{Num, Part, Tok, Token};
use saerom::parse::Parser;
use saerom::phrase::carry_subject;
use saerom::prescan::Program;
use saerom::sig::Marker;

fn token(tok: Tok, col: usize) -> Token {
    Token { tok, span: Span::new(1, col, col + 1) }
}

fn line(toks: Vec<Tok>) -> Vec<Token> {
    let mut found: Vec<Token> = Vec::new();
    for (col, tok) in toks.into_iter().enumerate() {
        found.push(token(tok, col));
    }
    found.push(token(Tok::Eof, found.len()));
    found
}

fn parser<'a>(tokens: &'a Vec<Token>, program: &'a Program) -> Parser<'a> {
    Parser {
        tokens,
        at: 0,
        program,
        base_dir: None,
        errors: Vec::new(),
        inside: false,
        plan: Vec::new(),
        picks: Vec::new(),
        stuck: false,
        room: usize::MAX,
    }
}

fn name(text: &str) -> Tok {
    Tok::Name(text.to_string())
}

fn keyword(text: &str) -> Tok {
    Tok::Keyword(text.to_string())
}

fn particle(role: &'static str, canon: &'static str) -> Tok {
    Tok::Particle { role, canon }
}

fn verb(text: &str, ending: Ending) -> Tok {
    Tok::Verb { name: text.to_string(), pos: Pos::Descriptive, ending }
}

fn failed<T>(found: Result<T, saerom::diag::Diag>) -> saerom::diag::Diag {
    match found {
        Ok(_) => panic!("read where an error was due"),
        Err(error) => error,
    }
}

fn read_one(tok: Tok) -> Result<Expr, saerom::diag::Diag> {
    let tokens = line(vec![tok]);
    let program = Program::default();
    let mut cursor = parser(&tokens, &program);
    let found = cursor.primary();
    let moved = if found.is_ok() { 1 } else { 0 };
    assert_eq!(cursor.at, moved);
    found
}

#[test]
fn a_primary_reads_each_kind_of_value() {
    assert!(matches!(read_one(Tok::Number(Num::Int(42))).unwrap(), Expr::Literal { value: Literal::Int(42), .. }));
    match read_one(Tok::Number(Num::Float("2.5".to_string()))).unwrap() {
        Expr::Literal { value: Literal::Float(text), .. } => assert_eq!(text, "2.5"),
        _ => panic!("not a real"),
    }
    match read_one(Tok::Str("글".to_string())).unwrap() {
        Expr::Literal { value: Literal::Str(text), span } => {
            assert_eq!(text, "글");
            assert_eq!(span, Span::new(1, 0, 1));
        },
        _ => panic!("not a string"),
    }
    assert!(matches!(read_one(keyword("참")).unwrap(), Expr::Literal { value: Literal::Bool(true), .. }));
    assert!(matches!(read_one(keyword("거짓")).unwrap(), Expr::Literal { value: Literal::Bool(false), .. }));
    assert!(matches!(read_one(keyword("없음")).unwrap(), Expr::Literal { value: Literal::Nothing, .. }));
    match read_one(keyword("묶음")).unwrap() {
        Expr::Table { items, entries, .. } => assert!(items.is_empty() && entries.is_empty()),
        _ => panic!("not a table"),
    }
    match read_one(name("값")).unwrap() {
        Expr::Name { name, .. } => assert_eq!(name, "값"),
        _ => panic!("not a name"),
    }
}

#[test]
fn a_primary_refuses_what_is_no_value_and_stays() {
    let error = failed(read_one(Tok::Symbol(':')));
    assert_eq!(error.kind, "구문 오류");
    assert_eq!(error.msg, "값이 아님: 기호 ':'");
    assert_eq!(error.span, Span::new(1, 0, 1));
    let error = failed(read_one(keyword("만약")));
    assert_eq!(error.msg, "값이 아님: 예약어 '만약'");
    let error = failed(read_one(Tok::Newline));
    assert_eq!(error.msg, "값이 아님: 줄 끝");
}

#[test]
fn a_template_reads_its_embedded_expression_in_place() {
    let parts = vec![
        Part::Text("합: ".to_string()),
        Part::Expr { source: "x".to_string(), span: Span::new(3, 7, 8) },
    ];
    let found = read_one(Tok::Template(parts)).unwrap();
    match found {
        Expr::Template { parts, span } => {
            assert_eq!(span, Span::new(1, 0, 1));
            assert_eq!(parts.len(), 2);
            assert!(matches!(&parts[0], TemplatePart::Text(text) if text == "합: "));
            match &parts[1] {
                TemplatePart::Expr(Expr::Name { name, span }) => {
                    assert_eq!(name, "x");
                    assert_eq!(*span, Span::new(3, 7, 8));
                },
                _ => panic!("not the embedded name"),
            }
        },
        _ => panic!("not a template"),
    }
}

#[test]
fn an_embedded_expression_that_does_not_lex_is_blamed_on_its_place() {
    let program = Program::default();
    let tokens = line(vec![]);
    let cursor = parser(&tokens, &program);
    let error = failed(cursor.fragment(&"x $ y".to_string(), Span::new(2, 5, 10)));
    assert_eq!(error.kind, "어휘 오류");
    assert_eq!(error.span, Span::new(2, 5, 10));
}

#[test]
fn an_embedded_expression_must_be_one_value() {
    let program = Program::default();
    let tokens = line(vec![]);
    let cursor = parser(&tokens, &program);
    let error = failed(cursor.fragment(&"x y".to_string(), Span::new(2, 5, 10)));
    assert_eq!(error.msg, "삽입된 표현식이 단일하지 않음");
}

#[test]
fn templates_nest_no_deeper_than_the_room_left() {
    let program = Program::default();
    let tokens = line(vec![]);
    let mut cursor = parser(&tokens, &program);
    cursor.room = 0;
    let error = failed(cursor.fragment(&"x".to_string(), Span::new(2, 5, 10)));
    assert_eq!(error.msg, "삽입된 표현식이 너무 깊이 겹침");
    assert_eq!(error.span, Span::new(2, 5, 10));
}

#[test]
fn fields_chain_after_a_value() {
    let tokens = line(vec![name("사람"), particle("gen", "의"), name("나이"), particle("gen", "의"), name("자리")]);
    let program = Program::default();
    let mut cursor = parser(&tokens, &program);
    let first = Expr::Name { name: "사람".to_string(), span: Span::new(1, 0, 1) };
    cursor.at = 1;
    let found = cursor.chain(first);
    assert_eq!(cursor.at, 5);
    match found {
        Expr::Field { owner, name, span } => {
            assert_eq!(name, "자리");
            assert_eq!(span, Span::new(1, 4, 5));
            assert!(matches!(*owner, Expr::Field { ref name, .. } if name == "나이"));
        },
        _ => panic!("not a field"),
    }
}

#[test]
fn a_field_before_a_copula_in_another_ending_is_left_alone() {
    let tokens = line(vec![particle("gen", "의"), name("수"), Tok::Copula { ending: Ending::Conditional }]);
    let program = Program::default();
    let mut cursor = parser(&tokens, &program);
    let first = Expr::Name { name: "x".to_string(), span: Span::new(1, 0, 1) };
    let found = cursor.chain(first);
    assert_eq!(cursor.at, 0);
    assert!(matches!(found, Expr::Name { .. }));
}

#[test]
fn a_pushed_value_takes_the_particle_after_it() {
    let tokens = line(vec![name("책"), particle("object", "를")]);
    let program = Program::default();
    let mut cursor = parser(&tokens, &program);
    let mut slots: Vec<Slot> = Vec::new();
    let first = cursor.primary().unwrap();
    cursor.push(&mut slots, first).unwrap();
    assert_eq!(cursor.at, 2);
    assert_eq!(slots.len(), 1);
    assert_eq!(slots[0].marker, Marker::Case("를"));
}

#[test]
fn joined_values_make_one_table_in_order() {
    let tokens = line(vec![name("a"), particle("conj", "와"), name("b"), particle("conj", "와"), Tok::Number(Num::Int(3))]);
    let program = Program::default();
    let mut cursor = parser(&tokens, &program);
    let mut slots: Vec<Slot> = Vec::new();
    let first = cursor.primary().unwrap();
    cursor.push(&mut slots, first).unwrap();
    assert_eq!(cursor.at, 5);
    assert_eq!(slots[0].marker, Marker::Bare);
    match &slots[0].expr {
        Expr::Table { items, entries, .. } => {
            assert_eq!(items.len(), 3);
            assert!(entries.is_empty());
            assert!(matches!(&items[1], Expr::Name { name, .. } if name == "b"));
            assert!(matches!(&items[2], Expr::Literal { value: Literal::Int(3), .. }));
        },
        _ => panic!("not a table"),
    }
}

fn clause_of(expr: &Expr) -> (&str, usize, bool) {
    match expr {
        Expr::Call(call) => {
            assert!(!call.asks);
            assert!(call.tail.is_none());
            (call.verb.as_str(), call.slots.len(), call.negated)
        },
        _ => panic!("not a clause"),
    }
}

#[test]
fn a_condition_ends_at_the_conditional_ending() {
    let tokens = line(vec![name("x"), particle("subject", "가"), verb("있다", Ending::Conditional), Tok::Symbol(':')]);
    let program = Program::default();
    let mut cursor = parser(&tokens, &program);
    let found = cursor.condition().unwrap();
    assert_eq!(cursor.at, 3);
    assert_eq!(clause_of(&found), ("있다", 1, false));
}

#[test]
fn clauses_join_by_and_then_or_carrying_the_subject() {
    let tokens = line(vec![
        name("x"),
        particle("subject", "가"),
        verb("크다", Ending::Conjunctive),
        verb("작다", Ending::Alternative),
        name("y"),
        particle("subject", "가"),
        verb("있다", Ending::Conditional),
    ]);
    let program = Program::default();
    let mut cursor = parser(&tokens, &program);
    let found = cursor.condition().unwrap();
    assert_eq!(cursor.at, 7);
    match found {
        Expr::Or { left, right, .. } => {
            assert_eq!(clause_of(&right), ("있다", 1, false));
            match *left {
                Expr::And { left, right, .. } => {
                    assert_eq!(clause_of(&left), ("크다", 1, false));
                    assert_eq!(clause_of(&right), ("작다", 1, false));
                    match *right {
                        Expr::Call(call) => {
                            assert_eq!(call.slots[0].marker, Marker::Case("가"));
                            assert!(matches!(&call.slots[0].expr, Expr::Name { name, .. } if name == "x"));
                        },
                        _ => panic!("not a clause"),
                    }
                },
                _ => panic!("not a conjunction"),
            }
        },
        _ => panic!("not a disjunction"),
    }
}

#[test]
fn otherwise_after_values_reads_as_is_not() {
    let tokens = line(vec![name("x"), particle("subject", "가"), keyword("없음"), keyword("아니면")]);
    let program = Program::default();
    let mut cursor = parser(&tokens, &program);
    let found = cursor.condition().unwrap();
    assert_eq!(cursor.at, 4);
    assert_eq!(clause_of(&found), ("이다", 2, true));
}

#[test]
fn a_clause_in_another_ending_is_refused() {
    let tokens = line(vec![name("x"), particle("subject", "가"), verb("있다", Ending::Final)]);
    let program = Program::default();
    let mut cursor = parser(&tokens, &program);
    let error = failed(cursor.condition());
    assert_eq!(error.msg, "조건에 허용되지 않는 어미: -ㄴ다");
    assert_eq!(error.span, Span::new(1, 2, 3));
}

#[test]
fn the_subject_is_carried_only_into_a_clause_without_one() {
    let at = Span::new(1, 0, 1);
    let mut subject = Some(Expr::Name { name: "x".to_string(), span: at });
    let mut slots: Vec<Slot> = Vec::new();
    carry_subject(&mut slots, &mut subject);
    assert_eq!(slots.len(), 1);
    assert_eq!(slots[0].marker, Marker::Case("가"));
    let mut own = vec![Slot { marker: Marker::Case("가"), expr: Expr::Name { name: "y".to_string(), span: at } }];
    carry_subject(&mut own, &mut subject);
    assert_eq!(own.len(), 1);
    assert!(matches!(subject, Some(Expr::Name { ref name, .. }) if name == "y"));
}

#[test]
fn reading_to_the_line_end_applies_verbs_as_they_come() {
    let tokens = line(vec![name("a"), particle("object", "를"), verb("세다", Ending::AdnominalPres), name("값"), Tok::Newline]);
    let program = Program::default();
    let mut cursor = parser(&tokens, &program);
    let found = cursor.reduce_until("값").unwrap();
    assert_eq!(cursor.at, 4);
    match found {
        Expr::Call(call) => {
            assert_eq!(call.verb, "세다");
            assert_eq!(call.tail.as_deref(), Some("값"));
        },
        _ => panic!("not a call"),
    }
}
