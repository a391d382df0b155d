use saerom::diag::Span;
use saerom::hangul::{Ending, Pos};
use saerom::lex::{ready, tokenize, Num, Part, Tok, Token, Vocabulary};
use saerom::msg;

fn vocab() -> Vocabulary {
    Vocabulary::new(Vec::new(), Vec::new())
}

fn kinds(tokens: &[Token]) -> Vec<Tok> {
    tokens.iter().map(|token| token.tok.clone()).collect()
}

#[test]
fn declaration_splits_particle_and_copula() {
    let tokens = tokenize("x는 3이다.", &vocab()).expect("tokens");
    assert_eq!(
        kinds(&tokens),
        vec![
            Tok::Name("x".to_string()),
            Tok::Particle { role: "topic", canon: "는" },
            Tok::Number(Num::Int(3)),
            Tok::Copula { ending: Ending::Final },
            Tok::Symbol('.'),
            Tok::Newline,
            Tok::Eof,
        ]
    );
    assert_eq!(tokens[0].span, Span::new(1, 0, 1));
    assert_eq!(tokens[1].span, Span::new(1, 1, 2));
    assert_eq!(tokens[2].span, Span::new(1, 3, 4));
    assert_eq!(tokens[3].span, Span::new(1, 4, 6));
    assert_eq!(tokens[4].span, Span::new(1, 6, 7));
    assert_eq!(tokens[5].span, Span::new(1, 7, 7));
}

#[test]
fn builtin_verb_form_is_a_verb() {
    let tokens = tokenize("x를 출력한다.", &vocab()).expect("tokens");
    assert_eq!(
        tokens[2].tok,
        Tok::Verb { name: "출력하다".to_string(), pos: Pos::Verb, ending: Ending::Final }
    );
}

#[test]
fn noun_with_hada_is_a_verb() {
    let tokens = tokenize("x를 정리한다.", &vocab()).expect("tokens");
    assert_eq!(
        tokens[2].tok,
        Tok::Verb { name: "정리하다".to_string(), pos: Pos::Verb, ending: Ending::Final }
    );
}

#[test]
fn declared_stem_conjugates() {
    let vocab = Vocabulary::new(Vec::new(), vec!["굽".to_string()]);
    let tokens = tokenize("x를 굽는다.", &vocab).expect("tokens");
    assert!(matches!(&tokens[2].tok, Tok::Verb { name, .. } if name == "굽다"));
    assert_eq!(vocab.verb_named("굽는다"), Some("굽다".to_string()));
    assert_eq!(vocab.verb_named("출력한다"), Some("출력하다".to_string()));
    assert_eq!(vocab.verb_named("사과"), None);
}

#[test]
fn known_name_is_not_split() {
    let vocab = Vocabulary::new(vec!["사이".to_string()], Vec::new());
    let tokens = tokenize("사이.", &vocab).expect("tokens");
    assert_eq!(tokens[0].tok, Tok::Name("사이".to_string()));
    let plain = tokenize("사이.", &Vocabulary::default()).expect("tokens");
    assert_eq!(plain[0].tok, Tok::Name("사".to_string()));
    assert_eq!(plain[1].tok, Tok::Particle { role: "subject", canon: "가" });
}

#[test]
fn keyword_and_single_word_statement() {
    let tokens = tokenize("참\n", &vocab()).expect("tokens");
    assert_eq!(kinds(&tokens), vec![Tok::Keyword("참".to_string()), Tok::Newline, Tok::Eof]);
}

#[test]
fn indentation_opens_and_closes_blocks() {
    let tokens = tokenize("a:\n  b.\n", &vocab()).expect("tokens");
    assert_eq!(
        kinds(&tokens),
        vec![
            Tok::Name("a".to_string()),
            Tok::Symbol(':'),
            Tok::Newline,
            Tok::Indent(2),
            Tok::Name("b".to_string()),
            Tok::Symbol('.'),
            Tok::Newline,
            Tok::Dedent(0),
            Tok::Eof,
        ]
    );
    assert_eq!(tokens[3].span, Span::new(2, 0, 2));
    assert_eq!(tokens[7].span, Span::new(3, 0, 0));
    assert_eq!(tokens[8].span, Span::new(3, 0, 0));
}

#[test]
fn dedent_to_an_unopened_depth_is_an_error() {
    let found = tokenize("a:\n    b.\n  c.\n", &vocab());
    let diag = found.err().expect("error");
    assert_eq!(diag.kind, msg::LEX);
    assert_eq!(diag.msg, msg::INDENT_ODD);
    assert_eq!(diag.span, Span::new(3, 0, 2));
}

#[test]
fn statement_going_on_at_same_depth_is_an_error() {
    let diag = tokenize("x는 1이다\ny는 2이다.", &vocab()).err().expect("error");
    assert_eq!(diag.msg, msg::MISSING_PERIOD);
    assert_eq!(diag.span, Span::new(2, 0, 0));
}

#[test]
fn statement_may_go_on_deeper() {
    let tokens = tokenize("x는\n  1이다.", &vocab()).expect("tokens");
    assert_eq!(tokens[2].tok, Tok::Number(Num::Int(1)));
    assert_eq!(tokens[2].span, Span::new(2, 2, 3));
}

#[test]
fn comments_and_blank_lines_are_skipped() {
    let tokens = tokenize("# 설명\n\nx. # 끝\n", &vocab()).expect("tokens");
    assert_eq!(
        kinds(&tokens),
        vec![Tok::Name("x".to_string()), Tok::Symbol('.'), Tok::Newline, Tok::Eof]
    );
}

#[test]
fn unknown_character_is_shown_as_debug() {
    let diag = tokenize("x는 $.", &vocab()).err().expect("error");
    assert_eq!(diag.msg, "사용할 수 없는 글자: '$'");
    assert_eq!(diag.span, Span::new(1, 3, 4));
}

#[test]
fn string_with_escape() {
    let tokens = tokenize("\"a\\nb\".", &vocab()).expect("tokens");
    assert_eq!(tokens[0].tok, Tok::Str("a\nb".to_string()));
    assert_eq!(tokens[0].span, Span::new(1, 0, 6));
}

#[test]
fn template_parts() {
    let tokens = tokenize("\"a{ x }b\".", &vocab()).expect("tokens");
    assert_eq!(
        tokens[0].tok,
        Tok::Template(vec![
            Part::Text("a".to_string()),
            Part::Expr { source: "x".to_string(), span: Span::new(1, 4, 5) },
            Part::Text("b".to_string()),
        ])
    );
    let only = tokenize("\"{x}\".", &vocab()).expect("tokens");
    assert_eq!(
        only[0].tok,
        Tok::Template(vec![Part::Expr { source: "x".to_string(), span: Span::new(1, 2, 3) }])
    );
}

#[test]
fn string_errors() {
    let open = tokenize("\"ab", &vocab()).err().expect("error");
    assert_eq!(open.msg, msg::QUOTE_OPEN);
    assert_eq!(open.span, Span::new(1, 0, 1));
    let empty = tokenize("\"{ }\".", &vocab()).err().expect("error");
    assert_eq!(empty.msg, msg::BRACE_EMPTY);
    assert_eq!(empty.span, Span::new(1, 1, 4));
    let brace = tokenize("\"{x\".", &vocab()).err().expect("error");
    assert_eq!(brace.msg, msg::BRACE_OPEN);
    assert_eq!(brace.span, Span::new(1, 1, 2));
}

#[test]
fn numbers() {
    let tokens = tokenize("-12.5.", &vocab()).expect("tokens");
    assert_eq!(tokens[0].tok, Tok::Number(Num::Float("-12.5".to_string())));
    assert_eq!(tokens[0].span, Span::new(1, 0, 5));
    assert_eq!(tokens[1].tok, Tok::Symbol('.'));
    let big = tokenize("99999999999999999999.", &vocab()).expect("tokens");
    assert_eq!(big[0].tok, Tok::Number(Num::Float("99999999999999999999".to_string())));
    let least = tokenize("-9223372036854775808.", &vocab()).expect("tokens");
    assert_eq!(least[0].tok, Tok::Number(Num::Int(i64::MIN)));
    let most = tokenize("9223372036854775807.", &vocab()).expect("tokens");
    assert_eq!(most[0].tok, Tok::Number(Num::Int(i64::MAX)));
    let over = tokenize("9223372036854775808.", &vocab()).expect("tokens");
    assert_eq!(over[0].tok, Tok::Number(Num::Float("9223372036854775808".to_string())));
    let bad = tokenize("-1.2.3", &vocab()).err().expect("error");
    assert_eq!(bad.msg, "숫자가 아님: -1.2.3");
    assert_eq!(bad.span, Span::new(1, 0, 6));
}

#[test]
fn range_genitive_is_an_error() {
    let diag = tokenize("1부터의 값.", &vocab()).err().expect("error");
    assert_eq!(diag.msg, msg::RANGE_GENITIVE);
    assert_eq!(diag.span, Span::new(1, 1, 4));
}

#[test]
fn ready_composes_and_detabs() {
    assert_eq!(ready("\u{1100}\u{1161}\tb"), "가    b");
}

#[test]
fn a_tab_before_jamo_becomes_four_spaces_and_a_syllable() {
    assert_eq!(ready("\t\u{1100}\u{1161}"), "    가");
}
