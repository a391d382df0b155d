use saerom::assign::{meet, Check};
use saerom::ast::{Expr, Stmt};
use saerom::builtins::{self, Builtin};
use saerom::dump::{marker_name, template};
use saerom::emit::Repr;
use saerom::lex::Part;
use saerom::text::{trim, width};
use saerom::diag::{suggest, Diag, Span};
use saerom::hangul::Ending;
use saerom::hir::Place;
use saerom::intern::Interner;
use saerom::lex::{tokenize, Tok, Vocabulary};
use saerom::msg;
use saerom::ops::{sr_quot_int, sr_rem_int};
use saerom::order::sort_texts;
use saerom::parse::{bump, ending_label, not_dictionary_form, starts_value};
use saerom::prescan::{
    declared_names, declared_stems, definitions, dictionary_form, imports, shadowed, take_definitions, Program,
};
use saerom::report::{bold, note, plain, red, Report};
use saerom::resolve::{global_slot, same_slots, spot_of, Frame, Tables};
use saerom::reuse::{Key, Reuse};
use saerom::sig::{describe, fits, ordered, same, shown, Marker, Signatures};
use saerom::text::{char_at, char_len};
use saerom::types::{arithmetic, raise, Ty, Types, Fields};
use saerom::value::{Table, Value, INT};
use saerom::words::{builtin_forms, copula_suffix, is_keyword, particle, stem_forms};

#[test]
fn fits_counts_each_marker() {
    let sig = [Marker::Case("에"), Marker::Case("를")];
    assert!(fits(&[Marker::Case("를")], &sig));
    assert!(fits(&[Marker::Case("를"), Marker::Case("에")], &sig));
    assert!(!fits(&[Marker::Case("를"), Marker::Case("를")], &sig));
    assert!(!fits(&[Marker::Case("로")], &sig));
    assert!(!fits(&[Marker::Bare, Marker::Bare, Marker::Bare], &sig));
    let nine = [Marker::Bare; 9];
    assert!(!fits(&[], &nine));
}

#[test]
fn ordered_sorts_particles_before_bare_and_module() {
    let found = ordered(&[Marker::Module, Marker::Bare, Marker::Case("를"), Marker::Case("가")]);
    assert_eq!(found, vec![Marker::Case("가"), Marker::Case("를"), Marker::Bare, Marker::Module]);
    assert!(same(&[Marker::Case("를"), Marker::Case("에")], &[Marker::Case("에"), Marker::Case("를")]));
    assert!(!same(&[Marker::Case("를")], &[Marker::Case("에")]));
    assert!(!same(&[Marker::Case("를")], &[Marker::Case("를"), Marker::Case("를")]));
}

#[test]
fn marker_labels_and_arguments() {
    assert_eq!(Marker::Case("를").label(), "를");
    assert_eq!(Marker::Bare.label(), "없음");
    assert_eq!(Marker::Module.label(), "모듈");
    assert!(Marker::Case("를").is_argument());
    assert!(!Marker::Case("부터").is_argument());
    assert!(Marker::Bare.is_argument());
    assert!(!Marker::Module.is_argument());
}

#[test]
fn shown_and_described() {
    assert_eq!(shown(&[Marker::Case("에"), Marker::Bare, Marker::Case("를")]), "에, 를");
    assert_eq!(shown(&[Marker::Bare]), msg::NO_PARTICLE);
    assert_eq!(describe("더하다", &[Marker::Case("에"), Marker::Bare, Marker::Case("를")]), "~에 ~를 더하다");
}

#[test]
fn signatures_read_back_what_was_added() {
    let mut table = Signatures::new();
    assert!(!table.knows("굽다"));
    assert!(table.ways("굽다").is_empty());
    table.add("굽다", vec![Marker::Case("를")]);
    table.add("굽다", vec![Marker::Case("를")]);
    table.add("굽다", vec![Marker::Case("에"), Marker::Case("를")]);
    table.add("먹다", vec![]);
    assert!(table.knows("굽다"));
    assert_eq!(
        table.ways("굽다"),
        vec![vec![Marker::Case("를")], vec![Marker::Case("에"), Marker::Case("를")]]
    );
    assert_eq!(table.ways("먹다"), vec![Vec::<Marker>::new()]);
}

#[test]
fn builtin_signatures_are_reserved() {
    let table = Signatures::builtin();
    assert_eq!(
        table.ways("같다"),
        vec![vec![Marker::Case("가"), Marker::Case("와")], vec![Marker::Case("가"), Marker::Case("보다")]]
    );
    assert_eq!(table.ways("이다").len(), 3);
    assert!(Signatures::reserved("출력하다"));
    assert!(!Signatures::reserved("굽다"));
}

#[test]
fn builtin_definitions() {
    assert_eq!(builtins::table().len(), 26);
    let found = builtins::find("나누다", &[Marker::Case("로"), Marker::Case("를")]).expect("def");
    assert_eq!(found.op, Builtin::Div);
    let truth = builtins::find("이다", &[Marker::Bare]).expect("def");
    assert_eq!(truth.op, Builtin::Truthy);
    assert!(builtins::find("나누다", &[Marker::Case("를")]).is_none());
    assert!(builtins::find("굽다", &[]).is_none());
    assert_eq!(builtins::ways("잇다"), vec![vec![Marker::Case("를")], vec![Marker::Case("를"), Marker::Case("로")]]);
    assert!(builtins::ways("굽다").is_empty());
}

#[test]
fn type_lattice() {
    assert_eq!(Ty::Never.join(Ty::Int), Ty::Int);
    assert_eq!(Ty::Int.join(Ty::Int), Ty::Int);
    assert_eq!(Ty::Int.join(Ty::Str), Ty::Any);
    assert_eq!(Ty::Any.join(Ty::Never), Ty::Any);
    assert!(Ty::Float.number());
    assert!(!Ty::Str.number());
    assert_eq!(arithmetic(Ty::Int, Ty::Int), Ty::Int);
    assert_eq!(arithmetic(Ty::Int, Ty::Float), Ty::Float);
    assert_eq!(arithmetic(Ty::Str, Ty::Int), Ty::Any);
    let mut slot = Ty::Never;
    let mut moved = false;
    raise(&mut slot, Ty::Int, &mut moved);
    assert_eq!(slot, Ty::Int);
    assert!(moved);
    let mut again = false;
    raise(&mut slot, Ty::Int, &mut again);
    assert!(!again);
}

#[test]
fn types_of_places() {
    let types = Types {
        fields: Fields::default(),
        nouns: Vec::new(),
        globals: vec![Ty::Str],
        locals: vec![vec![Ty::Int, Ty::Bool]],
        returns: vec![Ty::Nothing],
        constants: vec![None],
    };
    assert_eq!(types.place(None, Place::Global(0)), Ty::Str);
    assert_eq!(types.place(Some(0), Place::Local(1)), Ty::Bool);
    assert_eq!(types.place(None, Place::Local(1)), Ty::Any);
}

#[test]
fn reuse_allows_kept_places() {
    let reuse = Reuse { kept: vec![Key::Global(3), Key::Local(1, 2)] };
    assert!(reuse.allows(None, Place::Global(3)));
    assert!(reuse.allows(Some(1), Place::Local(2)));
    assert!(!reuse.allows(None, Place::Local(2)));
    assert!(!reuse.allows(Some(0), Place::Local(2)));
    assert!(!Reuse::default().allows(None, Place::Global(3)));
}

#[test]
fn values_round_trip() {
    assert_eq!(Value::from_int(-5).as_int(), -5);
    assert_eq!(Value::from_int(i64::MIN).as_int(), i64::MIN);
    assert!(Value::bool(true).as_bool());
    assert!(!Value::bool(false).as_bool());
    assert!(Value::from_int(1).number());
    assert!(!Value::nothing().number());
    assert_eq!(Value::from_int(1).kind(), "수");
    assert_eq!(Value::from_int(1).type_text(), "정수");
    assert_eq!(Value::nothing().type_text(), "없음");
    assert_eq!(Value { tag: 9, bits: 0 }.kind(), "값");
    assert_eq!(Value::from_int(2).tag, INT);
}

#[test]
fn table_keys_read_back() {
    let mut table = Table { items: Vec::new(), keys: Vec::new() };
    assert!(table.empty());
    table.put("a", Value::from_int(1));
    table.put("b", Value::from_int(2));
    table.put("a", Value::from_int(3));
    assert_eq!(table.keys.len(), 2);
    assert_eq!(table.get("a").map(|v| v.as_int()), Some(3));
    assert_eq!(table.get("b").map(|v| v.as_int()), Some(2));
    assert!(table.get("c").is_none());
    assert!(table.drop_key("a"));
    assert!(!table.drop_key("a"));
    assert!(table.get("a").is_none());
    assert!(!table.empty());
}

#[test]
fn texts_by_character() {
    assert_eq!(char_len("가나a"), 3);
    assert_eq!(char_at("가나a", 1), Some('나'));
    assert_eq!(char_at("가나a", 3), None);
}

#[test]
fn floored_division() {
    assert_eq!(sr_quot_int(-7, 2), -4);
    assert_eq!(sr_rem_int(-7, 2), 1);
    assert_eq!(sr_quot_int(7, -2), -4);
    assert_eq!(sr_rem_int(7, -2), -1);
    assert_eq!(sr_quot_int(7, 2), 3);
    assert_eq!(sr_quot_int(i64::MIN, -1), i64::MIN);
    assert_eq!(sr_rem_int(i64::MIN, -1), 0);
    let (q, r) = (sr_quot_int(-9, 4), sr_rem_int(-9, 4));
    assert_eq!(q * 4 + r, -9);
}

#[test]
fn interner_gives_one_symbol_per_text() {
    let mut names = Interner::new();
    assert!(names.is_empty());
    let a = names.intern("가");
    let b = names.intern("나");
    assert_eq!(names.intern("가"), a);
    assert_ne!(a, b);
    assert_eq!(names.name(b), "나");
    assert_eq!(names.len(), 2);
}

#[test]
fn reports_render_plainly() {
    let diag = Diag::lex("사용할 수 없는 글자: '$'".to_string(), Span::new(1, 3, 4));
    assert_eq!(
        diag.render("x는 $.", "a.sr", false),
        "어휘 오류: 사용할 수 없는 글자: '$'\n --> a.sr:1:4\n  |\n1 | x는 $.\n  |     ^\n"
    );
    let hinted = Diag::syntax("m".to_string(), Span::new(2, 0, 0)).with_hint("h".to_string());
    assert_eq!(hinted.render("a\nb", "p", false), "구문 오류: m\n --> p:2:1\n  |\n2 | b\n  | ^\n  |\n  = 도움말: h\n");
    let report = Report { kind: "오류", msg: "m", hint: None, path: "p", source: None, line: 10, col: 0, end: 0 };
    assert_eq!(report.render(false), "오류: m\n  --> p:10:1\n");
    assert_eq!(plain("오류", "m", false), "오류: m\n");
    assert_eq!(note("m", false), "참고: m\n");
    assert_eq!(red("x", true), "\x1b[1;31mx\x1b[0m");
    assert_eq!(bold("x", false), "x");
}

#[test]
fn messages() {
    assert_eq!(msg::aborting(3), "종료됨. (오류 3개)");
    assert_eq!(msg::not_number("1.2.3"), "숫자가 아님: 1.2.3");
}

#[test]
fn suggestion_takes_the_closest() {
    assert_eq!(suggest("출력", &["출럭", "입력", "abc"]), Some("출럭"));
    assert_eq!(suggest("abc", &["xyz"]), None);
    assert_eq!(suggest("abcd", &["abxy", "abcx"]), Some("abcx"));
}

#[test]
fn words_tables() {
    assert_eq!(particle("은"), Some(("topic", "는")));
    assert_eq!(particle("고양이"), None);
    assert!(is_keyword("만약"));
    assert!(!is_keyword("고양이"));
    assert_eq!(copula_suffix("고양이이다", &Vec::new()), Some(("이다", Ending::Final)));
    assert_eq!(copula_suffix("고양이", &Vec::new()), None);
    let forms = builtin_forms();
    assert_eq!(forms.get("출력한다").map(|(name, _, _)| name), Some("출력하다".to_string()));
    let mine = stem_forms(&vec!["굽".to_string()]);
    assert!(mine.get("굽는다").is_some());
    assert!(mine.get("구운").is_some());
    assert_eq!(sort_texts(&vec!["나".to_string(), "가".to_string()]), vec!["가".to_string(), "나".to_string()]);
}

fn lexed(source: &str) -> Vec<saerom::lex::Token> {
    tokenize(source, &Vocabulary::default()).expect("tokens")
}

#[test]
fn survey_finds_declared_names_and_stems() {
    let tokens = lexed("x는 1이다.\n굽다라는 것은:\n  끝.\n");
    assert_eq!(declared_names(&tokens), vec!["x".to_string(), "것".to_string()]);
    assert_eq!(declared_stems(&tokens), vec!["굽".to_string()]);
    assert!(dictionary_form("굽다"));
    assert!(!dictionary_form("정리하다"));
    assert!(!dictionary_form("다"));
}

#[test]
fn survey_finds_definitions_and_imports() {
    let tokens = lexed("값을 굽다라는 것은:\n  끝.\n수학에서 제곱을 가져온다.\n도구를 가져온다.\n");
    let found = definitions(&tokens);
    assert_eq!(found.len(), 1);
    assert_eq!(found[0].0, "굽다");
    assert_eq!(found[0].1, vec![(Marker::Case("를"), "값".to_string())]);
    let taken = imports(&tokens);
    assert_eq!(taken.len(), 2);
    assert_eq!(taken[0].module, "수학");
    assert_eq!(taken[0].names, Some(vec!["제곱".to_string()]));
    assert_eq!(taken[1].module, "도구");
    assert_eq!(taken[1].names, None);
    let mut program = Program::default();
    take_definitions(&mut program, &tokens, None);
    assert_eq!(program.signatures.ways("굽다"), vec![vec![Marker::Case("를")]]);
    let mut picky = Program::default();
    take_definitions(&mut picky, &tokens, Some(&vec!["다른".to_string()]));
    assert!(!picky.signatures.knows("굽다"));
}

#[test]
fn a_name_may_not_be_a_verb_form() {
    let vocab = Vocabulary::default();
    let tokens = tokenize("출력한다.", &vocab).expect("tokens");
    assert!(shadowed(&vocab, &tokens).is_ok());
    let named = vec![saerom::lex::Token { tok: Tok::Name("출력한다".to_string()), span: Span::new(1, 0, 4) }];
    let diag = shadowed(&vocab, &named).err().expect("error");
    assert_eq!(diag.kind, msg::NAME);
    assert_eq!(diag.msg, "'출력한다'은(는) 동사 '출력하다'의 활용형과 같아 이름으로 쓸 수 없음");
    assert_eq!(diag.span, Span::new(1, 0, 4));
}

#[test]
fn code_generation_pieces() {
    assert_eq!(Repr::of(Ty::Int), Repr::Word);
    assert_eq!(Repr::of(Ty::Str), Repr::Boxed);
    assert_eq!(Repr::Real.llvm(), "double");
    assert_eq!(Repr::Boxed.storage(), "%Value");
    assert_eq!(Repr::Flag.storage(), "i1");
    assert_eq!(Repr::Real.zero(), "0x0000000000000000");
    assert_eq!(Repr::Word.tag(), 2);
    assert_eq!(saerom::emit::escape("a\"b\\\n가".as_bytes()), "a\\22b\\5C\\0A\\EA\\B0\\80");
}

#[test]
fn dump_pieces() {
    assert_eq!(saerom::dump::escape("a\\b\nc\td"), "a\\\\b\\nc\\td");
    let parts = vec![
        Part::Text("a\n".to_string()),
        Part::Expr { source: "x".to_string(), span: Span::new(1, 0, 1) },
    ];
    assert_eq!(template(&parts), "text:a\\n|expr:x");
    assert_eq!(template(&Vec::new()), "");
    assert_eq!(marker_name(Marker::Bare), "-");
    assert_eq!(marker_name(Marker::Case("를")), "를");
}

#[test]
fn numeral_trimming_and_widths() {
    assert_eq!(trim("1.500"), "1.5");
    assert_eq!(trim("2.000"), "2");
    assert_eq!(trim("100"), "100");
    assert_eq!(width(b'a'), 1);
    assert_eq!(width(0xEA), 3);
    assert_eq!(width(0xF0), 4);
    assert_eq!(width(0xC3), 2);
    assert!(saerom::value::both_int(&Value::from_int(1), &Value::from_int(2)));
    assert!(!saerom::value::both_int(&Value::from_int(1), &Value::nothing()));
}

#[test]
fn syntax_tree_spans() {
    let name = Expr::Name { name: "x".to_string(), span: Span::new(1, 2, 3) };
    assert_eq!(name.span(), Span::new(1, 2, 3));
    assert_eq!(name.as_name(), Some("x"));
    let stop = Stmt::Break { span: Span::new(4, 0, 5) };
    assert_eq!(stop.span(), Span::new(4, 0, 5));
}

#[test]
fn names_keep_their_slots() {
    let mut frame = Frame { unit: 0, locals: Vec::new(), count: 0, inside_function: true, verbs: Vec::new() };
    assert_eq!(frame.bind_local("가"), 0);
    assert_eq!(frame.bind_local("나"), 1);
    assert_eq!(frame.bind_local("가"), 0);
    assert_eq!(frame.count, 2);
    let mut tables = Tables::default();
    let mut globals = 5;
    assert_eq!(frame.place("다", &mut tables, &mut globals), Place::Local(2));
    assert_eq!(globals, 5);
    let mut outside = Frame { unit: 0, locals: Vec::new(), count: 0, inside_function: false, verbs: Vec::new() };
    assert_eq!(outside.place("x", &mut tables, &mut globals), Place::Global(5));
    assert_eq!(outside.place("y", &mut tables, &mut globals), Place::Global(6));
    assert_eq!(global_slot("x", &mut tables, &mut globals), 5);
    assert_eq!(globals, 7);
    assert!(outside.locals.is_empty());
}

#[test]
fn ordinal_names_and_slots() {
    assert_eq!(spot_of("3번째"), Some("3".to_string()));
    assert_eq!(spot_of("번째"), None);
    assert_eq!(spot_of("사과"), None);
    assert!(same_slots(&[Marker::Case("를"), Marker::Bare], &[Marker::Bare, Marker::Case("를")]));
    assert!(!same_slots(&[Marker::Case("를")], &[Marker::Bare]));
}

#[test]
fn surely_assigned_names_meet() {
    let both = meet(
        vec![vec!["a".to_string(), "b".to_string()], vec!["b".to_string(), "c".to_string()]],
        &vec!["z".to_string()],
    );
    assert_eq!(both, vec!["b".to_string()]);
    assert_eq!(meet(Vec::new(), &vec!["z".to_string()]), vec!["z".to_string()]);
    let locals = vec!["a".to_string(), "b".to_string()];
    let mut check = Check { locals: &locals, errors: Vec::new(), seen: Vec::new() };
    check.name("a", Span::new(1, 0, 1), &vec!["a".to_string()]);
    check.name("x", Span::new(1, 0, 1), &Vec::new());
    assert!(check.errors.is_empty());
    check.name("b", Span::new(2, 3, 4), &Vec::new());
    check.name("b", Span::new(3, 3, 4), &Vec::new());
    assert_eq!(check.errors.len(), 1);
    assert_eq!(check.errors[0].msg, "'b'에 값이 대입되지 않았을 수 있음");
    assert_eq!(check.errors[0].span, Span::new(2, 3, 4));
}

#[test]
fn place_names() {
    assert_eq!(saerom::dump::place_name(Place::Local(3)), "local 3");
    assert_eq!(saerom::dump::place_name(Place::Global(12)), "global 12");
}

#[test]
fn parser_helpers() {
    assert_eq!(ending_label(Ending::Final), "-ㄴ다");
    assert_eq!(ending_label(Ending::Auxiliary), msg::END_AUXILIARY);
    let diag = not_dictionary_form(Span::new(1, 0, 2));
    assert_eq!(diag.kind, msg::SYNTAX);
    assert_eq!(diag.msg, msg::HEAD_NOT_DICT);
    assert_eq!(diag.hint.as_deref(), Some(msg::HEAD_NOT_DICT_HELP));
    assert!(starts_value(&Tok::Name("x".to_string())));
    assert!(starts_value(&Tok::Keyword("목록".to_string())));
    assert!(!starts_value(&Tok::Keyword("만약".to_string())));
    assert!(!starts_value(&Tok::Symbol('.')));
    let counts = [2, 3];
    let mut plan = Vec::new();
    assert!(bump(&mut plan, &counts));
    assert_eq!(plan, vec![0, 1]);
    assert!(bump(&mut plan, &counts));
    assert_eq!(plan, vec![0, 2]);
    assert!(bump(&mut plan, &counts));
    assert_eq!(plan, vec![1, 0]);
    let mut last = vec![1, 2];
    assert!(!bump(&mut last, &counts));
    assert_eq!(last, vec![1, 2]);
}

#[test]
fn diagnostic_in_one_line() {
    let diag = Diag::name("m".to_string(), Span::new(1, 0, 1));
    assert_eq!(diag.to_string(), "식별자 오류: m");
}

#[test]
fn interning_twice_gives_the_same_symbol() {
    let mut names = Interner::new();
    let a = names.intern("가");
    let b = names.intern("나");
    assert_ne!(a, b);
    assert_eq!(names.intern("가"), a);
    assert_eq!(names.len(), 2);
    assert_eq!(names.name(b), "나");
}

#[test]
fn no_two_builtins_share_a_verb_and_markers() {
    let table = builtins::table();
    for (i, left) in table.iter().enumerate() {
        assert!(left.params.len() <= 2);
        for right in &table[i + 1..] {
            assert!(!(left.verb == right.verb && same(&left.params, &right.params)));
        }
    }
}

#[test]
fn suggestions_come_within_the_edit_distance() {
    let found = suggest("kitten", &["sitting", "mitten"]);
    assert_eq!(found.as_deref(), Some("mitten"));
}
