use saerom::ast::{Expr, Literal, Slot};
use saerom::hangul::{Ending, Pos};
use saerom::sig::Marker;
use saerom::diag::Span;
use saerom::lex::{Num, Tok, Token};
use saerom::parse::{describe, join_and, join_or, same_tok, Parser, VerbInfo};
use saerom::prescan::Program;

fn token(tok: Tok, col: usize) -> Token {
    Token { tok, span: Span::new(1, col, col + 1) }
}

fn stream() -> Vec<Token> {
    vec![
        token(Tok::Name("x".to_string()), 0),
        token(Tok::Symbol('('), 1),
        token(Tok::Newline, 2),
        token(Tok::Indent(4), 3),
        token(Tok::Name("y".to_string()), 4),
        token(Tok::Indent(8), 5),
        token(Tok::Name("z".to_string()), 6),
        token(Tok::Newline, 7),
        token(Tok::Dedent(4), 8),
        token(Tok::Dedent(0), 9),
        token(Tok::Name("w".to_string()), 10),
        token(Tok::Eof, 11),
    ]
}

fn parser<'a>(tokens: &'a Vec<Token>, program: &'a Program) -> Parser<'a> {
    Parser {
        tokens,
        at: 0,
        program,
        base_dir: None,
        errors: Vec::new(),
        inside: false,
        plan: Vec::new(),
        picks: Vec::new(),
        stuck: false,
        room: usize::MAX,
    }
}

#[test]
fn resync_skips_the_line_and_the_block_under_it() {
    let tokens = stream();
    let program = Program::default();
    let mut cursor = parser(&tokens, &program);
    cursor.resync();
    assert_eq!(cursor.at, 10);
    assert_eq!(cursor.peek(), &Tok::Name("w".to_string()));
    cursor.resync();
    assert_eq!(cursor.at, 11);
}

#[test]
fn cursor_looks_ahead_without_passing_the_end() {
    let tokens = stream();
    let program = Program::default();
    let mut cursor = parser(&tokens, &program);
    assert!(cursor.at_symbol(1, '('));
    assert_eq!(cursor.ahead(100).tok, Tok::Eof);
    assert_eq!(cursor.line_end(), 2);
    assert!(!cursor.accept(&Tok::Symbol('(')));
    assert_eq!(cursor.expect_name().unwrap().0, "x");
    assert!(cursor.accept(&Tok::Symbol('(')));
    let error = cursor.expect(&Tok::Symbol(')'), "')'").unwrap_err();
    assert_eq!(error.msg, "줄바꿈시 누락됨: ')'");
    assert_eq!(cursor.at, 2);
    assert_eq!(cursor.advance().tok, Tok::Newline);
    let error = cursor.expect_particle().unwrap_err();
    assert_eq!(error.msg, "조사가 아님: 들여쓰기");
}

#[test]
fn tokens_are_described_for_messages() {
    assert_eq!(describe(&Tok::Name("값".to_string())), "이름 '값'");
    assert_eq!(describe(&Tok::Number(Num::Int(-7))), "수 '-7'");
    assert_eq!(describe(&Tok::Symbol(':')), "기호 ':'");
    assert_eq!(describe(&Tok::Eof), "파일 끝");
    assert!(same_tok(&Tok::Indent(4), &Tok::Indent(4)));
    assert!(!same_tok(&Tok::Indent(4), &Tok::Dedent(4)));
}

#[test]
fn conditions_join_from_the_left() {
    let at = Span::new(1, 0, 1);
    let flag = |value: bool| Expr::Literal { value: Literal::Bool(value), span: at };
    let joined = join_or(vec![flag(true), flag(false), flag(true)], at);
    match joined {
        Expr::Or { left, right, .. } => {
            assert!(matches!(*left, Expr::Or { .. }));
            assert!(matches!(*right, Expr::Literal { value: Literal::Bool(true), .. }));
        },
        _ => panic!("not a disjunction"),
    }
    assert!(matches!(join_and(None, flag(false), at), Expr::Literal { .. }));
    assert!(matches!(join_and(Some(flag(true)), flag(false), at), Expr::And { .. }));
}

fn named(name: &str) -> Expr {
    Expr::Name { name: name.to_string(), span: Span::new(1, 0, 1) }
}

fn verb(name: &str, pos: Pos) -> VerbInfo {
    VerbInfo { name: name.to_string(), pos, ending: Ending::Final, negated: false, span: Span::new(1, 2, 3) }
}

fn object(expr: Expr) -> Vec<Slot> {
    vec![Slot { marker: Marker::Case("를"), expr }]
}

#[test]
fn a_passive_takes_the_name_after_it_as_its_head() {
    let tokens = vec![token(Tok::Name("것".to_string()), 4), token(Tok::Eof, 5)];
    let program = Program::default();
    let mut cursor = parser(&tokens, &program);
    let (made, left) = cursor.reduce(object(named("책")), verb("읽다", Pos::Passive)).unwrap();
    assert!(left.is_empty());
    assert_eq!(cursor.at, 1);
    match made {
        Expr::Passive(passive) => {
            assert_eq!(passive.verb, "읽다");
            assert!(matches!(&passive.head, Expr::Name { name, .. } if name == "것"));
            assert_eq!(passive.slots.len(), 1);
        },
        _ => panic!("not a passive"),
    }
}

#[test]
fn a_passive_without_a_head_takes_its_object() {
    let tokens = vec![token(Tok::Eof, 4)];
    let program = Program::default();
    let mut cursor = parser(&tokens, &program);
    let (made, _) = cursor.reduce(object(named("책")), verb("읽다", Pos::Passive)).unwrap();
    assert_eq!(cursor.at, 0);
    match made {
        Expr::Passive(passive) => {
            assert!(matches!(&passive.head, Expr::Name { name, .. } if name == "책"));
            assert!(passive.slots.is_empty());
        },
        _ => panic!("not a passive"),
    }
}

#[test]
fn a_result_name_after_a_call_names_its_tail() {
    let tokens = vec![token(Tok::Name("나머지".to_string()), 4), token(Tok::Eof, 5)];
    let program = Program::default();
    let mut cursor = parser(&tokens, &program);
    let seven = Expr::Literal { value: Literal::Int(7), span: Span::new(1, 0, 1) };
    let (made, left) = cursor.reduce(object(seven), verb("나누다", Pos::Verb)).unwrap();
    assert!(left.is_empty());
    assert_eq!(cursor.at, 1);
    assert_eq!(cursor.picks, vec![2]);
    assert!(!cursor.stuck);
    match made {
        Expr::Call(call) => {
            assert_eq!(call.verb, "나누다");
            assert_eq!(call.tail.as_deref(), Some("나머지"));
            assert_eq!(call.slots.len(), 1);
            assert!(!call.negated);
            assert!(!call.asks);
        },
        _ => panic!("not a call"),
    }
}

#[test]
fn a_call_without_a_result_name_gives_its_value() {
    let tokens = vec![token(Tok::Newline, 4), token(Tok::Eof, 5)];
    let program = Program::default();
    let mut cursor = parser(&tokens, &program);
    let (made, _) = cursor.reduce(object(named("책")), verb("읽다", Pos::Verb)).unwrap();
    assert_eq!(cursor.at, 0);
    assert!(matches!(made, Expr::Call(call) if call.tail.as_deref() == Some("값")));
}

#[test]
fn a_name_after_a_plain_call_is_refused() {
    let tokens = vec![token(Tok::Name("것".to_string()), 4), token(Tok::Eof, 5)];
    let program = Program::default();
    let mut cursor = parser(&tokens, &program);
    let error = match cursor.reduce(object(named("책")), verb("읽다", Pos::Verb)) {
        Err(error) => error,
        Ok(_) => panic!("a name after a plain call was taken"),
    };
    assert_eq!(error.msg, "관형형 뒤에 `값`이 아님: '것'");
    assert_eq!(error.span, Span::new(1, 4, 5));
    assert_eq!(cursor.at, 1);
}

fn line(toks: Vec<Tok>) -> Vec<Token> {
    let mut tokens: Vec<Token> = toks.into_iter().enumerate().map(|(col, tok)| token(tok, col)).collect();
    tokens.push(token(Tok::Eof, tokens.len()));
    tokens
}

fn topic() -> Tok {
    Tok::Particle { role: "topic", canon: "은" }
}

#[test]
fn keywords_are_taken_only_when_they_come() {
    let tokens = line(vec![Tok::Keyword("만약".to_string()), Tok::Keyword("아니면".to_string())]);
    let program = Program::default();
    let mut cursor = parser(&tokens, &program);
    assert!(cursor.keyword_at(1, "아니면"));
    assert!(!cursor.accept_keyword("아니면"));
    assert!(cursor.expect_keyword("만약").is_ok());
    let error = cursor.expect_keyword("만약").unwrap_err();
    assert_eq!(error.msg, "키워드 불일치: '만약' 기대하였으나: 예약어 '아니면'");
    assert_eq!(cursor.at, 1);
    assert_eq!(cursor.tok_at(99), &Tok::Eof);
}

#[test]
fn a_statement_ends_with_a_period_and_a_newline() {
    let tokens = line(vec![Tok::Symbol('.'), Tok::Newline, Tok::Symbol('.'), Tok::Symbol('.')]);
    let program = Program::default();
    let mut cursor = parser(&tokens, &program);
    assert!(cursor.end_of_statement().is_ok());
    assert_eq!(cursor.at, 2);
    let error = cursor.end_of_statement().unwrap_err();
    assert_eq!(error.msg, "줄바꿈이 기대하였으나: 기호 '.'");
    assert_eq!(cursor.at, 3);
    let error = cursor.end_of_statement().unwrap_err();
    assert_eq!(error.msg, "줄바꿈시 누락됨: 줄바꿈이");
}

#[test]
fn lines_are_told_apart_by_how_they_end() {
    let program = Program::default();
    let definition = line(vec![Tok::Name("크다".to_string()), Tok::Name("것".to_string()), topic(), Tok::Symbol(':'), Tok::Newline]);
    let cursor = parser(&definition, &program);
    assert!(cursor.looks_like_definition());
    assert!(!cursor.looks_like_import());
    assert!(cursor.tail_is_head(1));
    assert!(!cursor.tail_is_head(0));
    let import = line(vec![
        Tok::Name("수학".to_string()),
        Tok::Particle { role: "object", canon: "를" },
        Tok::Verb { name: "가져오다".to_string(), pos: Pos::Verb, ending: Ending::Final },
        Tok::Symbol('.'),
        Tok::Newline,
    ]);
    let cursor = parser(&import, &program);
    assert!(cursor.looks_like_import());
    assert!(!cursor.looks_like_definition());
    let copula = line(vec![Tok::Name("x".to_string()), Tok::Copula { ending: Ending::Final }, Tok::Symbol('.'), Tok::Newline]);
    let cursor = parser(&copula, &program);
    assert!(cursor.ends_with_copula());
    let short = line(vec![Tok::Symbol('.'), Tok::Newline]);
    let cursor = parser(&short, &program);
    assert!(!cursor.ends_with_copula());
}

#[test]
fn imported_names_take_the_copula_in() {
    let program = Program::default();
    let tokens = line(vec![Tok::Name("수".to_string()), Tok::Copula { ending: Ending::Final }, Tok::Name("길이".to_string())]);
    let mut cursor = parser(&tokens, &program);
    assert_eq!(cursor.import_name().unwrap(), "수이다");
    assert_eq!(cursor.at, 2);
    assert_eq!(cursor.import_name().unwrap(), "길이");
    let error = cursor.import_name().unwrap_err();
    assert_eq!(error.msg, "가져올 수 없는 식별자: 파일 끝");
    assert_eq!(cursor.at, 3);
    let verbs = line(vec![Tok::Verb { name: "더하다".to_string(), pos: Pos::Verb, ending: Ending::Final }]);
    let mut cursor = parser(&verbs, &program);
    assert_eq!(cursor.import_name().unwrap(), "더하다");
}

fn object_particle() -> Tok {
    Tok::Particle { role: "object", canon: "를" }
}

#[test]
fn a_definition_head_gives_its_name_and_parameters() {
    let program = Program::default();
    let tokens = line(vec![
        Tok::Name("수".to_string()),
        object_particle(),
        Tok::Name("두배".to_string()),
        Tok::Copula { ending: Ending::Quotative },
        Tok::Name("것".to_string()),
        topic(),
        Tok::Symbol(':'),
        Tok::Newline,
    ]);
    let mut cursor = parser(&tokens, &program);
    let (head, params) = cursor.definition_head().unwrap();
    assert_eq!(head, "두배");
    assert_eq!(params.len(), 1);
    assert!(matches!(params[0].0, Marker::Case("를")));
    assert_eq!(params[0].1, "수");
    assert_eq!(cursor.at, 4);
}

#[test]
fn a_definition_head_refuses_what_is_no_head() {
    let program = Program::default();
    let twice = line(vec![
        Tok::Name("a".to_string()),
        object_particle(),
        Tok::Name("b".to_string()),
        object_particle(),
        Tok::Name("하다".to_string()),
        Tok::Copula { ending: Ending::Quotative },
    ]);
    let mut cursor = parser(&twice, &program);
    let error = cursor.definition_head().unwrap_err();
    assert_eq!(error.msg, "조사 '를'가 두 번 포함됨");
    assert_eq!(error.span, Span::new(1, 3, 4));
    assert_eq!(cursor.at, 2);
    let colon = line(vec![Tok::Name("a".to_string()), object_particle(), Tok::Symbol(':')]);
    let mut cursor = parser(&colon, &program);
    assert_eq!(cursor.definition_head().unwrap_err().msg, "정의에서 '라는 것은' 누락");
    let verb = line(vec![Tok::Verb { name: "하다".to_string(), pos: Pos::Verb, ending: Ending::Final }]);
    let mut cursor = parser(&verb, &program);
    let error = cursor.definition_head().unwrap_err();
    assert_eq!(error.msg, "정의 서술어 형태가 사전형이 아님");
    assert!(error.hint.is_some());
    let number = line(vec![Tok::Number(Num::Int(3))]);
    let mut cursor = parser(&number, &program);
    assert_eq!(cursor.definition_head().unwrap_err().msg, "정의는 식별자 + 조사로 시작해야 함: 수 '3'");
    let final_form = line(vec![Tok::Name("하다".to_string()), Tok::Copula { ending: Ending::Final }]);
    let mut cursor = parser(&final_form, &program);
    assert_eq!(cursor.definition_head().unwrap_err().msg, "정의 서술어 형태가 사전형이 아님");
}
