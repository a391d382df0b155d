//! The library's messages: diagnostic kinds, fixed texts, and the
//! functions that fill a message with the names it speaks of.

use vstd::prelude::*;

use crate::chars::{owned, push_decimal, push_signed, push_str};

verus! {

// ── 진단 유형 ───────────────────────────────────────────────
pub const LEX: &'static str = "어휘 오류";
pub const SYNTAX: &'static str = "구문 오류";
pub const NAME: &'static str = "식별자 오류";
pub const MODULE: &'static str = "모듈 오류";
pub const PARTICLE: &'static str = "조사 오류";
pub const VALUE: &'static str = "값 오류";
pub const ARITH: &'static str = "산술 오류";
pub const FILE: &'static str = "파일 오류";
pub const STOP: &'static str = "종료";
pub const ERROR: &'static str = "오류";

// ── 진단 범주 ─────────────────────────────────────────────────
pub const HELP: &'static str = "도움말";
pub const NOTE: &'static str = "참고";

pub fn aborting(count: usize) -> (text: String)
    ensures
        text@ == "종료됨. (오류 "@ + crate::chars::decimal(count as nat) + "개)"@,
{
    let mut text = owned("종료됨. (오류 ");
    push_decimal(&mut text, count as u64);
    push_str(&mut text, "개)");
    text
}

// ── 오류 경로 추적 ─────────────────────────────────────────────
pub const TRACE: &'static str = "오류 경로 추적:";
pub const FRAME_UNKNOWN: &'static str = "<알 수 없음>";
pub const FRAME_TOP: &'static str = "<최상단>";
pub const TRACE_OFF: &'static str = "`-g`로 컴파일하여 오류 경로를 추적할 수 있습니다.";

// ── 어휘 ────────────────────────────────────────────────────
pub const INDENT_ODD: &'static str = "들여쓰기가 잘못됨";
pub const BRACE_OPEN: &'static str = "'{'가 닫히지 않음";
pub const BRACE_EMPTY: &'static str = "'{}' 안이 비어 있음";
pub const QUOTE_OPEN: &'static str = "따옴표가 닫히지 않음";
pub const MISSING_PERIOD: &'static str = "문장 끝에 마침표 누락: 이어지는 줄은 더 깊게 들여써야 함";
pub const RANGE_GENITIVE: &'static str = "'부터'와 '까지' 뒤에는 '의'를 붙일 수 없음";

pub fn bad_char(shown: &str) -> (text: String)
    ensures
        text@ == "사용할 수 없는 글자: "@ + shown@,
{
    let mut text = owned("사용할 수 없는 글자: ");
    push_str(&mut text, shown);
    text
}

pub fn not_number(raw: &str) -> (text: String)
    ensures
        text@ == "숫자가 아님: "@ + raw@,
{
    let mut text = owned("숫자가 아님: ");
    push_str(&mut text, raw);
    text
}

// ── 구문 ────────────────────────────────────────────────────
pub const NO_BLOCK: &'static str = "구문 블록의 들여쓰기 누락";
pub const NOT_NEGATION: &'static str = "'-지'에 대응하는 '않다' 누락";
pub const DECL_NOT_ONE: &'static str = "선언문에 지정된 표현식이 단일 값이 아님";
pub const DECL_NO_COPULA: &'static str = "선언문에서 '이다' 누락";
pub const HEAD_NO_QUOTATIVE: &'static str = "정의에서 '라는 것은' 누락";
pub const HEAD_NOT_DICT: &'static str = "정의 서술어 형태가 사전형이 아님";
pub const HEAD_NOT_DICT_HELP: &'static str = "'<구문>* <사전형>라는 것은:' 형식 준수 필요";
pub const NO_STEP_NUMBER: &'static str = "'<구문>간격' 형식 준수 필요";
pub const WHILE_NOT_ONE: &'static str = "'동안' 절의 표현식이 단일하지 않음";
pub const RETURN_NOT_ONE: &'static str = "반환할 값이 단일하지 않음";
pub const EXEC_CONDITIONAL: &'static str = "실행문에 쓸 수 없는 어미: -면";
pub const EXEC_CONDITIONAL_HELP: &'static str = "조건문은 '만약'으로 시작해야 함";
pub const EACH_NOT_NAME: &'static str = "'마다'의 수식 대상이 식별자가 아님";
pub const LOOP_NO_EACH: &'static str = "반복문에 '마다' 누락";
pub const LOOP_NO_RANGE: &'static str = "반복문 범위 누락";
pub const WANT_COLON: &'static str = "':'이";
pub const WANT_NEWLINE: &'static str = "줄바꿈이";
pub const WANT_PERIOD: &'static str = "'.'이";
pub const WANT_EMBEDDED: &'static str = "삽입된 표현식";
pub const TOO_DEEP: &'static str = "삽입된 표현식이 너무 깊이 겹침";
pub const TOO_LONG: &'static str = "삽입된 표현식이 너무 김";

pub fn line_ended(what: &str) -> (text: String)
    ensures
        text@ == "줄바꿈시 누락됨: "@ + what@,
{
    let mut text = owned("줄바꿈시 누락됨: ");
    push_str(&mut text, what);
    text
}

pub fn not_wanted(what: &str, found: &str) -> (text: String)
    ensures
        text@ == what@ + " 기대하였으나: "@ + found@,
{
    let mut text = String::new();
    push_str(&mut text, what);
    push_str(&mut text, " 기대하였으나: ");
    push_str(&mut text, found);
    text
}

pub fn not_a_name(found: &str) -> (text: String)
    ensures
        text@ == "유효하지 않은 식별자: "@ + found@,
{
    let mut text = owned("유효하지 않은 식별자: ");
    push_str(&mut text, found);
    text
}

pub fn not_a_particle(found: &str) -> (text: String)
    ensures
        text@ == "조사가 아님: "@ + found@,
{
    let mut text = owned("조사가 아님: ");
    push_str(&mut text, found);
    text
}

pub fn not_a_verb(found: &str) -> (text: String)
    ensures
        text@ == "동사가 아님: "@ + found@,
{
    let mut text = owned("동사가 아님: ");
    push_str(&mut text, found);
    text
}

pub fn not_a_value(found: &str) -> (text: String)
    ensures
        text@ == "값이 아님: "@ + found@,
{
    let mut text = owned("값이 아님: ");
    push_str(&mut text, found);
    text
}

pub fn not_head_value(head: &str) -> (text: String)
    ensures
        text@ == "관형형 뒤에 `값`이 아님: '"@ + head@ + "'"@,
{
    let mut text = owned("관형형 뒤에 `값`이 아님: '");
    push_str(&mut text, head);
    push_str(&mut text, "'");
    text
}

pub fn not_one(what: &str, mark: &str) -> (text: String)
    ensures
        text@ == what@ + mark@ + " 단일하지 않음"@,
{
    let mut text = String::new();
    push_str(&mut text, what);
    push_str(&mut text, mark);
    push_str(&mut text, " 단일하지 않음");
    text
}

pub fn not_keyword(word: &str, found: &str) -> (text: String)
    ensures
        text@ == "키워드 불일치: '"@ + word@ + "' 기대하였으나: "@ + found@,
{
    let mut text = owned("키워드 불일치: '");
    push_str(&mut text, word);
    push_str(&mut text, "' 기대하였으나: ");
    push_str(&mut text, found);
    text
}

pub fn reserved_target(word: &str) -> (text: String)
    ensures
        text@ == "예약어에 값을 할당할 수 없음: '"@ + word@ + "'"@,
{
    let mut text = owned("예약어에 값을 할당할 수 없음: '");
    push_str(&mut text, word);
    push_str(&mut text, "'");
    text
}

pub fn decl_bad_ending(ending: &str) -> (text: String)
    ensures
        text@ == "선언문에 허용되지 않는 어미: "@ + ending@,
{
    let mut text = owned("선언문에 허용되지 않는 어미: ");
    push_str(&mut text, ending);
    text
}

pub fn cond_bad_ending(ending: &str) -> (text: String)
    ensures
        text@ == "조건에 허용되지 않는 어미: "@ + ending@,
{
    let mut text = owned("조건에 허용되지 않는 어미: ");
    push_str(&mut text, ending);
    text
}

pub fn exec_bad_ending(ending: &str) -> (text: String)
    ensures
        text@ == "실행문에 허용되지 않는 어미: "@ + ending@,
{
    let mut text = owned("실행문에 허용되지 않는 어미: ");
    push_str(&mut text, ending);
    text
}

pub fn not_thing(thing: &str) -> (text: String)
    ensures
        text@ == "'것'이 아님: '"@ + thing@ + "'"@,
{
    let mut text = owned("'것'이 아님: '");
    push_str(&mut text, thing);
    push_str(&mut text, "'");
    text
}

pub fn noun_needs_owner(head: &str) -> (text: String)
    ensures
        text@ == "파생 필드 '"@ + head@ + "'의 수식어가 단일하지 않음"@,
{
    let mut text = owned("파생 필드 '");
    push_str(&mut text, head);
    push_str(&mut text, "'의 수식어가 단일하지 않음");
    text
}

pub fn head_not_phrase(found: &str) -> (text: String)
    ensures
        text@ == "정의는 식별자 + 조사로 시작해야 함: "@ + found@,
{
    let mut text = owned("정의는 식별자 + 조사로 시작해야 함: ");
    push_str(&mut text, found);
    text
}

pub fn head_twice(particle: &str) -> (text: String)
    ensures
        text@ == "조사 '"@ + particle@ + "'가 두 번 포함됨"@,
{
    let mut text = owned("조사 '");
    push_str(&mut text, particle);
    push_str(&mut text, "'가 두 번 포함됨");
    text
}

pub fn not_import_name(found: &str) -> (text: String)
    ensures
        text@ == "가져올 수 없는 식별자: "@ + found@,
{
    let mut text = owned("가져올 수 없는 식별자: ");
    push_str(&mut text, found);
    text
}

// ── 낱말 이름  ───────────────────────────────────────────────
pub const TOK_NAME: &'static str = "이름";
pub const TOK_VERB: &'static str = "동사";
pub const TOK_COPULA: &'static str = "'이다'";
pub const TOK_PARTICLE: &'static str = "조사";
pub const TOK_KEYWORD: &'static str = "예약어";
pub const TOK_NUMBER: &'static str = "수";
pub const TOK_STRING: &'static str = "글";
pub const TOK_SYMBOL: &'static str = "기호";
pub const TOK_INDENT: &'static str = "들여쓰기";
pub const TOK_DEDENT: &'static str = "내어쓰기";
pub const TOK_NEWLINE: &'static str = "줄 끝";
pub const TOK_EOF: &'static str = "파일 끝";
pub const END_AUXILIARY: &'static str = "보조 어미";

// ── 이름 ────────────────────────────────────────────────────

pub fn undefined(name: &str) -> (text: String)
    ensures
        text@ == "'"@ + name@ + "' 정의되지 않음"@,
{
    let mut text = owned("'");
    push_str(&mut text, name);
    push_str(&mut text, "' 정의되지 않음");
    text
}

pub fn name_shadows_verb(name: &str, verb: &str) -> (text: String)
    ensures
        text@ == "'"@ + name@ + "'은(는) 동사 '"@ + verb@ + "'의 활용형과 같아 이름으로 쓸 수 없음"@,
{
    let mut text = owned("'");
    push_str(&mut text, name);
    push_str(&mut text, "'은(는) 동사 '");
    push_str(&mut text, verb);
    push_str(&mut text, "'의 활용형과 같아 이름으로 쓸 수 없음");
    text
}

pub fn not_assigned(name: &str) -> (text: String)
    ensures
        text@ == "'"@ + name@ + "'에 값이 대입되지 않았을 수 있음"@,
{
    let mut text = owned("'");
    push_str(&mut text, name);
    push_str(&mut text, "'에 값이 대입되지 않았을 수 있음");
    text
}

pub fn verb_undefined(verb: &str) -> (text: String)
    ensures
        text@ == "동사 '"@ + verb@ + "' 정의되지 않음"@,
{
    let mut text = owned("동사 '");
    push_str(&mut text, verb);
    push_str(&mut text, "' 정의되지 않음");
    text
}

pub fn module_lacks(module: &str, name: &str) -> (text: String)
    ensures
        text@ == "모듈 '"@ + module@ + "'에 '"@ + name@ + "' 없음"@,
{
    let mut text = owned("모듈 '");
    push_str(&mut text, module);
    push_str(&mut text, "'에 '");
    push_str(&mut text, name);
    push_str(&mut text, "' 없음");
    text
}

pub fn module_not_taken(module: &str) -> (text: String)
    ensures
        text@ == "모듈 '"@ + module@ + "' 가져오지 않음"@,
{
    let mut text = owned("모듈 '");
    push_str(&mut text, module);
    push_str(&mut text, "' 가져오지 않음");
    text
}

pub fn wrong_particles(verb: &str, used: &str) -> (text: String)
    ensures
        text@ == "'"@ + verb@ + "'를 조사 "@ + used@ + "로 호출할 수 없음"@,
{
    let mut text = owned("'");
    push_str(&mut text, verb);
    push_str(&mut text, "'를 조사 ");
    push_str(&mut text, used);
    push_str(&mut text, "로 호출할 수 없음");
    text
}

pub fn similar(close: &str) -> (text: String)
    ensures
        text@ == "비슷한 이름: '"@ + close@ + "'"@,
{
    let mut text = owned("비슷한 이름: '");
    push_str(&mut text, close);
    push_str(&mut text, "'");
    text
}

pub fn ways(listed: &str) -> (text: String)
    ensures
        text@ == "조사: "@ + listed@,
{
    let mut text = owned("조사: ");
    push_str(&mut text, listed);
    text
}
pub const NO_PARTICLE: &'static str = "없음";

// ── 모듈 ────────────────────────────────────────────────────
pub const INPUT_UNIT: &'static str = "<입력>";

pub fn module_cycle(module: &str) -> (text: String)
    ensures
        text@ == "'"@ + module@ + "' 순환 참조"@,
{
    let mut text = owned("'");
    push_str(&mut text, module);
    push_str(&mut text, "' 순환 참조");
    text
}

pub fn module_unreadable(module: &str, why: &str) -> (text: String)
    ensures
        text@ == "'"@ + module@ + "'을 읽을 수 없음: "@ + why@,
{
    let mut text = owned("'");
    push_str(&mut text, module);
    push_str(&mut text, "'을 읽을 수 없음: ");
    push_str(&mut text, why);
    text
}

pub fn module_missing(module: &str) -> (text: String)
    ensures
        text@ == "모듈 파일이 없음: "@ + module@ + ".sr"@,
{
    let mut text = owned("모듈 파일이 없음: ");
    push_str(&mut text, module);
    push_str(&mut text, ".sr");
    text
}

// ── 실행 중 ─────────────────────────────────────────────────
pub const DIV_ZERO: &'static str = "0으로 나눌 수 없음";

pub fn arg_not_number(verb: &str, kind: &str, shown: &str) -> (text: String)
    ensures
        text@ == "'"@ + verb@ + "'의 인자가 수가 아님: "@ + kind@ + " "@ + shown@,
{
    let mut text = owned("'");
    push_str(&mut text, verb);
    push_str(&mut text, "'의 인자가 수가 아님: ");
    push_str(&mut text, kind);
    push_str(&mut text, " ");
    push_str(&mut text, shown);
    text
}

pub fn no_field(field: &str) -> (text: String)
    ensures
        text@ == "'"@ + field@ + "' 접근할 수 없음"@,
{
    let mut text = owned("'");
    push_str(&mut text, field);
    push_str(&mut text, "' 접근할 수 없음");
    text
}

pub fn no_field_on(kind: &str, field: &str) -> (text: String)
    ensures
        text@ == kind@ + "에 '"@ + field@ + "' 접근할 수 없음"@,
{
    let mut text = String::new();
    push_str(&mut text, kind);
    push_str(&mut text, "에 '");
    push_str(&mut text, field);
    push_str(&mut text, "' 접근할 수 없음");
    text
}

pub fn empty_at(field: &str, size: usize) -> (text: String)
    ensures
        text@ == "'"@ + field@ + "'에 접근할 수 없음 (크기: "@ + crate::chars::decimal(size as nat) + ")"@,
{
    let mut text = owned("'");
    push_str(&mut text, field);
    push_str(&mut text, "'에 접근할 수 없음 (크기: ");
    push_decimal(&mut text, size as u64);
    push_str(&mut text, ")");
    text
}

pub fn place_not_int(shown: &str) -> (text: String)
    ensures
        text@ == "자리가 정수가 아님: "@ + shown@,
{
    let mut text = owned("자리가 정수가 아님: ");
    push_str(&mut text, shown);
    text
}

pub fn no_place(kind: &str) -> (text: String)
    ensures
        text@ == kind@ + "에 자리가 없음"@,
{
    let mut text = String::new();
    push_str(&mut text, kind);
    push_str(&mut text, "에 자리가 없음");
    text
}

pub fn out_of_range(index: i64, size: usize) -> (text: String)
    ensures
        text@ == crate::chars::signed_decimal(index as int) + "번째 없음 (크기: "@ + crate::chars::decimal(size as nat) + ")"@,
{
    let mut text = String::new();
    push_signed(&mut text, index);
    push_str(&mut text, "번째 없음 (크기: ");
    push_decimal(&mut text, size as u64);
    push_str(&mut text, ")");
    text
}

pub fn cannot_order(verb: &str, left: &str, right: &str) -> (text: String)
    ensures
        text@ == "'"@ + verb@ + "'로 비교할 수 없음: "@ + left@ + ", "@ + right@,
{
    let mut text = owned("'");
    push_str(&mut text, verb);
    push_str(&mut text, "'로 비교할 수 없음: ");
    push_str(&mut text, left);
    push_str(&mut text, ", ");
    push_str(&mut text, right);
    text
}

pub fn cannot_convert(kind: &str, shown: &str) -> (text: String)
    ensures
        text@ == kind@ + "로 바꿀 수 없음: "@ + shown@,
{
    let mut text = String::new();
    push_str(&mut text, kind);
    push_str(&mut text, "로 바꿀 수 없음: ");
    push_str(&mut text, shown);
    text
}

pub fn unknown_kind(kind: &str) -> (text: String)
    ensures
        text@ == "바꿀 수 없는 자료형: '"@ + kind@ + "'"@,
{
    let mut text = owned("바꿀 수 없는 자료형: '");
    push_str(&mut text, kind);
    push_str(&mut text, "'");
    text
}

pub fn no_return(name: &str) -> (text: String)
    ensures
        text@ == "'"@ + name@ + "' 반환하는 값이 없음"@,
{
    let mut text = owned("'");
    push_str(&mut text, name);
    push_str(&mut text, "' 반환하는 값이 없음");
    text
}

pub fn not_bool(name: &str, kind: &str, shown: &str) -> (text: String)
    ensures
        text@ == "'"@ + name@ + "'의 값이 논리값이 아님: "@ + kind@ + " "@ + shown@,
{
    let mut text = owned("'");
    push_str(&mut text, name);
    push_str(&mut text, "'의 값이 논리값이 아님: ");
    push_str(&mut text, kind);
    push_str(&mut text, " ");
    push_str(&mut text, shown);
    text
}

pub fn bad_mode(mode: &str) -> (text: String)
    ensures
        text@ == "정의되지 않은 방식: '"@ + mode@ + "'"@,
{
    let mut text = owned("정의되지 않은 방식: '");
    push_str(&mut text, mode);
    push_str(&mut text, "'");
    text
}

pub fn cannot_open(name: &str, why: &str) -> (text: String)
    ensures
        text@ == "'"@ + name@ + "'을 열 수 없음: "@ + why@,
{
    let mut text = owned("'");
    push_str(&mut text, name);
    push_str(&mut text, "'을 열 수 없음: ");
    push_str(&mut text, why);
    text
}

pub fn cannot_read(why: &str) -> (text: String)
    ensures
        text@ == "읽을 수 없음: "@ + why@,
{
    let mut text = owned("읽을 수 없음: ");
    push_str(&mut text, why);
    text
}

pub fn cannot_write(why: &str) -> (text: String)
    ensures
        text@ == "쓸 수 없음: "@ + why@,
{
    let mut text = owned("쓸 수 없음: ");
    push_str(&mut text, why);
    text
}

pub fn not_descriptor(verb: &str, shown: &str) -> (text: String)
    ensures
        text@ == "'"@ + verb@ + "'의 서술자가 정수가 아님: "@ + shown@,
{
    let mut text = owned("'");
    push_str(&mut text, verb);
    push_str(&mut text, "'의 서술자가 정수가 아님: ");
    push_str(&mut text, shown);
    text
}

// ── 명령줄 ──────────────────────────────────────────────────
pub const USAGE: &'static str = "\
새롬

  saeromc <파일.sr> [-o <출력>] [-O2] [-g]
  saeromc --check <파일.sr>
  saeromc --emit-llvm <파일.sr>
";

pub fn source_unreadable(path: &str, why: &str) -> (text: String)
    ensures
        text@ == "파일을 읽을 수 없음: "@ + path@ + " ("@ + why@ + ")"@,
{
    let mut text = owned("파일을 읽을 수 없음: ");
    push_str(&mut text, path);
    push_str(&mut text, " (");
    push_str(&mut text, why);
    push_str(&mut text, ")");
    text
}

pub fn write_failed(path: &str, why: &str) -> (text: String)
    ensures
        text@ == path@ + "를 쓸 수 없음: "@ + why@,
{
    let mut text = String::new();
    push_str(&mut text, path);
    push_str(&mut text, "를 쓸 수 없음: ");
    push_str(&mut text, why);
    text
}

pub fn clang_missing(why: &str) -> (text: String)
    ensures
        text@ == "clang을 호출할 수 없음: "@ + why@,
{
    let mut text = owned("clang을 호출할 수 없음: ");
    push_str(&mut text, why);
    text
}

pub fn link_failed(details: &str) -> (text: String)
    ensures
        text@ == "링크 실패\n"@ + details@,
{
    let mut text = owned("링크 실패\n");
    push_str(&mut text, details);
    text
}

pub fn runtime_missing(name: &str, looked: &str) -> (text: String)
    ensures
        text@ == "런타임 "@ + name@ + " 을 찾을 수 없음. ("@ + looked@ + ")"@,
{
    let mut text = owned("런타임 ");
    push_str(&mut text, name);
    push_str(&mut text, " 을 찾을 수 없음. (");
    push_str(&mut text, looked);
    push_str(&mut text, ")");
    text
}

} // verus!
