use saerom::hangul::{Ending, Pos};
use saerom::lex::{Num, Tok, Token};
use saerom::diag::{Diag, Span};
use saerom::prescan::{merge_stems, note_import, survey_source, Import};
use saerom::Failure;

#[test]
fn stems_are_merged_once_each_in_order() {
    let mut stems = vec!["가".to_string(), "나".to_string()];
    merge_stems(&mut stems, &vec!["나".to_string(), "다".to_string(), "다".to_string()]);
    assert_eq!(stems, vec!["가", "나", "다"]);
}

#[test]
fn a_module_imported_whole_is_noted_once() {
    let mut modules: Vec<String> = Vec::new();
    let whole = Import { module: "수학".to_string(), names: None };
    note_import(&mut modules, &whole);
    note_import(&mut modules, &whole);
    let part = Import { module: "글".to_string(), names: Some(vec!["자르다".to_string()]) };
    note_import(&mut modules, &part);
    assert_eq!(modules, vec!["수학"]);
}

#[test]
fn a_source_alone_is_surveyed_with_its_own_verbs() {
    let source = "x는 1이다.\n굽다라는 것은:\n  끝.\n";
    let program = survey_source(source).unwrap();
    assert_eq!(program.vocab.stems, vec!["굽"]);
    assert!(program.modules.is_empty());
    assert!(program.vocab.names.contains(&"x".to_string()));
    assert!(program.signatures.knows("굽다"));
    assert!(program.signatures.knows("출력하다"));
}

#[test]
fn several_errors_end_with_their_count() {
    let at = Span::new(1, 0, 1);
    let one = Diag::syntax("하나".to_string(), at);
    let failure = Failure { loaded: None, errors: vec![one.clone(), one] };
    let shown = failure.render("x\n", "a.sr", false);
    assert!(shown.ends_with("오류: 종료됨. (오류 2개)\n"));
    assert_eq!(shown.matches("하나").count(), 2);
    let single = Failure { loaded: None, errors: vec![Diag::syntax("하나".to_string(), at)] };
    assert!(!single.render("x\n", "a.sr", false).contains("종료됨"));
}

#[test]
fn the_token_dump_has_a_line_for_each_token() {
    let at = Span::new(1, 0, 1);
    let stream = vec![
        Token { tok: Tok::Name("x".to_string()), span: at },
        Token { tok: Tok::Particle { role: "topic", canon: "는" }, span: at },
        Token { tok: Tok::Number(Num::Int(-3)), span: at },
        Token { tok: Tok::Verb { name: "하다".to_string(), pos: Pos::Verb, ending: Ending::Final }, span: at },
        Token { tok: Tok::Str("a\tb".to_string()), span: at },
        Token { tok: Tok::Indent(4), span: at },
        Token { tok: Tok::Eof, span: at },
    ];
    let expected = "name x\nparticle 는 topic\nnumber -3\nverb 하다 verb final\nstring a\\tb\nindent 4\neof\n";
    assert_eq!(saerom::dump::tokens(&stream), expected);
    assert_eq!(saerom::dump::tokens(&Vec::new()), "\n");
}

#[test]
fn a_source_is_surveyed_then_lexed_with_its_own_words() {
    let found = saerom::tokens("x는 3이다.\n").unwrap();
    assert!(matches!(&found[0].tok, saerom::lex::Tok::Name(name) if name == "x"));
    assert!(matches!(found.last().unwrap().tok, saerom::lex::Tok::Eof));
    let error = match saerom::tokens("x는 $이다.\n") {
        Ok(_) => panic!("lexed"),
        Err(error) => error,
    };
    assert_eq!(error.kind, "어휘 오류");
}

#[test]
fn a_module_is_found_by_its_composed_file_name() {
    assert_eq!(saerom::prescan::module_file("모듈"), "모듈.sr");
    assert_eq!(saerom::prescan::module_file("\u{1106}\u{1169}\u{1103}\u{1172}\u{11AF}"), "모듈.sr");
    assert!(saerom::prescan::names_file("\u{1106}\u{1169}\u{1103}\u{1172}\u{11AF}.sr", "모듈.sr"));
    assert!(!saerom::prescan::names_file("모듈.txt", "모듈.sr"));
}
