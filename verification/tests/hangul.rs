use saerom::hangul::{compose, conjugate, decompose, irregular, subject_particle, to_nfc, Ending, Pos};

#[test]
fn decompose_splits_a_syllable() {
    assert_eq!(decompose('한'), Some(('ㅎ', 'ㅏ', Some('ㄴ'))));
    assert_eq!(decompose('가'), Some(('ㄱ', 'ㅏ', None)));
    assert_eq!(decompose('a'), None);
}

#[test]
fn compose_builds_a_syllable() {
    assert_eq!(compose('ㅎ', 'ㅏ', Some('ㄴ')), '한');
    assert_eq!(compose('ㄱ', 'ㅏ', None), '가');
}

#[test]
fn conjugates_regular_stems() {
    assert_eq!(conjugate("먹", Pos::Verb, Ending::Final).as_deref(), Some("먹는다"));
    assert_eq!(conjugate("가", Pos::Verb, Ending::Final).as_deref(), Some("간다"));
    assert_eq!(conjugate("열", Pos::Verb, Ending::Final).as_deref(), Some("연다"));
    assert_eq!(conjugate("크", Pos::Descriptive, Ending::AdnominalPres).as_deref(), Some("큰"));
    assert_eq!(conjugate("하", Pos::Verb, Ending::Auxiliary).as_deref(), Some("해"));
    assert_eq!(conjugate("먹", Pos::Verb, Ending::Interrogative).as_deref(), Some("먹는지"));
    assert_eq!(conjugate("", Pos::Verb, Ending::Final), None);
    assert_eq!(conjugate("먹", Pos::Verb, Ending::Quotative), None);
}

#[test]
fn irregular_stems_have_alternatives() {
    assert_eq!(irregular("짓", Ending::AdnominalPast).as_deref(), Some("지은"));
    assert_eq!(irregular("듣", Ending::Conditional).as_deref(), Some("들으면"));
    assert_eq!(irregular("돕", Ending::AdnominalPast).as_deref(), Some("도운"));
    assert_eq!(irregular("돕", Ending::Auxiliary).as_deref(), Some("도와"));
    assert_eq!(irregular("먹", Ending::Auxiliary), None);
}

#[test]
fn nfc_composes_conjoining_jamo() {
    assert_eq!(to_nfc("\u{1112}\u{1161}\u{11AB}"), "한");
    assert_eq!(to_nfc("\u{1100}\u{1161}x"), "가x");
    assert_eq!(to_nfc("abc"), "abc");
}

#[test]
fn subject_particle_follows_the_coda() {
    assert_eq!(subject_particle("책"), "이");
    assert_eq!(subject_particle("나무"), "가");
}

#[test]
fn composing_jamo_twice_is_composing_once() {
    assert_eq!(to_nfc("\u{1100}\u{1161}\u{11A8}"), "각");
    assert_eq!(to_nfc("\u{1112}\u{1161}"), "하");
    let mixed = "\u{1100}\u{1100}\u{1161}\u{1161}x\u{1112}";
    let once = to_nfc(mixed);
    assert_eq!(to_nfc(&once), once);
    assert_eq!(to_nfc("abc 한글"), "abc 한글");
}
