//! Hangul syllables and the conjugation of Korean verb stems.
//!
//! A precomposed syllable U+AC00..=U+D7A3 is `0xAC00 + onset * 588 +
//! vowel * 28 + coda`, where `coda == 0` means "no final consonant".

use vstd::prelude::*;

use crate::chars::{chars_of, owned, push_char, push_str, string_of};

verus! {

pub const BASE: u32 = 0xAC00;

pub const LAST: u32 = 0xD7A3;

/// Parts of speech of a verb stem.
#[derive(Clone, Copy, Debug, PartialEq, Eq, Structural)]
pub enum Pos {
    Verb,
    Descriptive,
    Passive,
}

/// The endings that a stem is conjugated with.
#[derive(Clone, Copy, Debug, PartialEq, Eq, Structural)]
pub enum Ending {
    Final,
    AdnominalPast,
    AdnominalPres,
    Conditional,
    Conjunctive,
    Alternative,
    Interrogative,
    Auxiliary,
    Negative,
    Quotative,
}

/// The endings that every regular stem takes, in the order the form tables
/// are built in.
pub open spec fn regular_endings() -> Seq<Ending> {
    seq![
        Ending::Final,
        Ending::AdnominalPast,
        Ending::AdnominalPres,
        Ending::Conditional,
        Ending::Conjunctive,
        Ending::Alternative,
        Ending::Interrogative,
        Ending::Auxiliary,
        Ending::Negative,
    ]
}

/// The regular endings as a vector.
pub fn regular_ending_list() -> (found: Vec<Ending>)
    ensures
        found@ == regular_endings(),
{
    let found = vec![
        Ending::Final,
        Ending::AdnominalPast,
        Ending::AdnominalPres,
        Ending::Conditional,
        Ending::Conjunctive,
        Ending::Alternative,
        Ending::Interrogative,
        Ending::Auxiliary,
        Ending::Negative,
    ];
    assert(found@ == regular_endings());
    found
}

/// Initial consonants, in the order of the syllable arithmetic.
pub open spec fn onset_table() -> Seq<char> {
    seq![
        'ㄱ', 'ㄲ', 'ㄴ', 'ㄷ', 'ㄸ', 'ㄹ', 'ㅁ', 'ㅂ', 'ㅃ', 'ㅅ', 'ㅆ', 'ㅇ', 'ㅈ', 'ㅉ', 'ㅊ',
        'ㅋ', 'ㅌ', 'ㅍ', 'ㅎ',
    ]
}

/// Vowels, in the order of the syllable arithmetic.
pub open spec fn vowel_table() -> Seq<char> {
    seq![
        'ㅏ', 'ㅐ', 'ㅑ', 'ㅒ', 'ㅓ', 'ㅔ', 'ㅕ', 'ㅖ', 'ㅗ', 'ㅘ', 'ㅙ', 'ㅚ', 'ㅛ', 'ㅜ', 'ㅝ',
        'ㅞ', 'ㅟ', 'ㅠ', 'ㅡ', 'ㅢ', 'ㅣ',
    ]
}

/// Final consonants; the coda number of `coda_table()[i]` is `i + 1`.
pub open spec fn coda_table() -> Seq<char> {
    seq![
        'ㄱ', 'ㄲ', 'ㄳ', 'ㄴ', 'ㄵ', 'ㄶ', 'ㄷ', 'ㄹ', 'ㄺ', 'ㄻ', 'ㄼ', 'ㄽ', 'ㄾ', 'ㄿ', 'ㅀ',
        'ㅁ', 'ㅂ', 'ㅄ', 'ㅅ', 'ㅆ', 'ㅇ', 'ㅈ', 'ㅊ', 'ㅋ', 'ㅌ', 'ㅍ', 'ㅎ',
    ]
}

fn onsets() -> (table: [char; 19])
    ensures
        table@ == onset_table(),
{
    let table = [
        'ㄱ', 'ㄲ', 'ㄴ', 'ㄷ', 'ㄸ', 'ㄹ', 'ㅁ', 'ㅂ', 'ㅃ', 'ㅅ', 'ㅆ', 'ㅇ', 'ㅈ', 'ㅉ', 'ㅊ',
        'ㅋ', 'ㅌ', 'ㅍ', 'ㅎ',
    ];
    assert(table@ == onset_table());
    table
}

fn vowels() -> (table: [char; 21])
    ensures
        table@ == vowel_table(),
{
    let table = [
        'ㅏ', 'ㅐ', 'ㅑ', 'ㅒ', 'ㅓ', 'ㅔ', 'ㅕ', 'ㅖ', 'ㅗ', 'ㅘ', 'ㅙ', 'ㅚ', 'ㅛ', 'ㅜ', 'ㅝ',
        'ㅞ', 'ㅟ', 'ㅠ', 'ㅡ', 'ㅢ', 'ㅣ',
    ];
    assert(table@ == vowel_table());
    table
}

fn codas() -> (table: [char; 27])
    ensures
        table@ == coda_table(),
{
    let table = [
        'ㄱ', 'ㄲ', 'ㄳ', 'ㄴ', 'ㄵ', 'ㄶ', 'ㄷ', 'ㄹ', 'ㄺ', 'ㄻ', 'ㄼ', 'ㄽ', 'ㄾ', 'ㄿ', 'ㅀ',
        'ㅁ', 'ㅂ', 'ㅄ', 'ㅅ', 'ㅆ', 'ㅇ', 'ㅈ', 'ㅊ', 'ㅋ', 'ㅌ', 'ㅍ', 'ㅎ',
    ];
    assert(table@ == coda_table());
    table
}

/// The index of the first occurrence of `c` in `table`, or -1.
pub open spec fn first_index(table: Seq<char>, c: char) -> int
    decreases table.len(),
{
    if table.len() == 0 {
        -1
    } else if table[0] == c {
        0
    } else {
        let rest = first_index(table.drop_first(), c);
        if rest < 0 {
            -1
        } else {
            rest + 1
        }
    }
}

proof fn lemma_first_index(table: Seq<char>, c: char, at: int)
    requires
        0 <= at <= table.len(),
        forall|j: int| 0 <= j < at ==> table[j] != c,
    ensures
        at < table.len() && table[at] == c ==> first_index(table, c) == at,
        at == table.len() ==> first_index(table, c) == -1,
        -1 <= first_index(table, c) < table.len(),
    decreases table.len(),
{
    if table.len() > 0 && at > 0 {
        let rest = table.drop_first();
        assert forall|j: int| 0 <= j < at - 1 implies rest[j] != c by {
            assert(rest[j] == table[j + 1]);
        }
        lemma_first_index(rest, c, at - 1);
    } else if table.len() > 0 {
        lemma_first_index(table.drop_first(), c, 0);
    }
}

/// Where `c` stands in `table`: the first index, or `None`.
fn find_slot(table: &[char], c: char) -> (found: Option<usize>)
    ensures
        match found {
            Some(i) => i < table@.len() && i as int == first_index(table@, c),
            None => first_index(table@, c) == -1,
        },
{
    let mut at: usize = 0;
    while at < table.len()
        invariant
            0 <= at <= table@.len(),
            forall|j: int| 0 <= j < at ==> table@[j] != c,
        decreases table.len() - at,
    {
        if table[at] == c {
            proof {
                lemma_first_index(table@, c, at as int);
            }
            return Some(at);
        }
        at += 1;
    }
    proof {
        lemma_first_index(table@, c, at as int);
    }
    None
}

/// `char::from_u32` of std: the character with scalar value `code`, if any.
#[verifier::external_body]
fn char_from(code: u32) -> (found: Option<char>)
    ensures
        code <= 0xD7FF || (0xE000 <= code <= 0x10FFFF) ==> found == Some(code as char),
        !(code <= 0xD7FF || (0xE000 <= code <= 0x10FFFF)) ==> found is None,
{
    char::from_u32(code)
}

/// A precomposed Hangul syllable.
pub open spec fn syllable(ch: char) -> bool {
    BASE <= ch as u32 <= LAST
}

/// The onset, vowel and optional coda of a syllable.
pub open spec fn spec_decompose(ch: char) -> Option<(char, char, Option<char>)> {
    if !syllable(ch) {
        None
    } else {
        let code = ch as u32 - BASE;
        let coda = code % 28;
        Some(
            (
                onset_table()[code / 588],
                vowel_table()[(code % 588) / 28],
                if coda > 0 {
                    Some(coda_table()[coda - 1])
                } else {
                    None
                },
            ),
        )
    }
}

/// The syllable number that a jamo table slot contributes; an unknown jamo
/// counts as the first one.
pub open spec fn slot_or_first(table: Seq<char>, c: char) -> int {
    if first_index(table, c) < 0 {
        0
    } else {
        first_index(table, c)
    }
}

/// The coda number: 0 for no coda or an unknown one, else its index plus one.
pub open spec fn coda_number(coda: Option<char>) -> int {
    match coda {
        Some(c) => if first_index(coda_table(), c) < 0 {
            0
        } else {
            first_index(coda_table(), c) + 1
        },
        None => 0,
    }
}

/// The scalar value of the syllable built from the three parts.
pub open spec fn compose_code(onset: char, vowel: char, coda: Option<char>) -> int {
    BASE + slot_or_first(onset_table(), onset) * 588 + slot_or_first(vowel_table(), vowel) * 28
        + coda_number(coda)
}

/// The syllable built from an onset, a vowel and an optional coda.
pub open spec fn spec_compose(onset: char, vowel: char, coda: Option<char>) -> char {
    compose_code(onset, vowel, coda) as char
}

pub open spec fn spec_coda_of(ch: char) -> Option<char> {
    match spec_decompose(ch) {
        Some((_, _, coda)) => coda,
        None => None,
    }
}

/// Whether `ch` is a precomposed Hangul syllable.
pub fn is_syllable(ch: char) -> (found: bool)
    ensures
        found == syllable(ch),
{
    let code = ch as u32;
    BASE <= code && code <= LAST
}

/// Splits a syllable into its onset, vowel and optional coda.
pub fn decompose(ch: char) -> (found: Option<(char, char, Option<char>)>)
    ensures
        found == spec_decompose(ch),
{
    if !is_syllable(ch) {
        return None;
    }
    let code = ch as u32 - BASE;
    let coda = code % 28;
    let onset = onsets()[(code / 588) as usize];
    let vowel = vowels()[((code % 588) / 28) as usize];
    let last = if coda > 0 {
        Some(codas()[(coda - 1) as usize])
    } else {
        None
    };
    Some((onset, vowel, last))
}

proof fn lemma_compose_code_range(onset: char, vowel: char, coda: Option<char>)
    ensures
        BASE <= compose_code(onset, vowel, coda) <= LAST,
{
    lemma_first_index(onset_table(), onset, 0);
    lemma_first_index(vowel_table(), vowel, 0);
    lemma_first_index(coda_table(), onset, 0);
    match coda {
        Some(c) => lemma_first_index(coda_table(), c, 0),
        None => {},
    }
    let o = slot_or_first(onset_table(), onset);
    let v = slot_or_first(vowel_table(), vowel);
    let t = coda_number(coda);
    assert(0 <= o <= 18 && 0 <= v <= 20 && 0 <= t <= 27);
    assert(o * 588 + v * 28 + t <= 18 * 588 + 20 * 28 + 27) by (nonlinear_arith)
        requires
            0 <= o <= 18,
            0 <= v <= 20,
            0 <= t <= 27,
    ;
    assert(0 <= o * 588 + v * 28) by (nonlinear_arith)
        requires
            0 <= o,
            0 <= v,
    ;
}

/// Builds a syllable from its parts. An onset or vowel that is not in the
/// tables counts as the first one, an unknown coda as none.
pub fn compose(onset: char, vowel: char, coda: Option<char>) -> (found: char)
    ensures
        found == spec_compose(onset, vowel, coda),
        syllable(found),
{
    let o = match find_slot(&onsets(), onset) {
        Some(i) => i as u32,
        None => 0,
    };
    let v = match find_slot(&vowels(), vowel) {
        Some(i) => i as u32,
        None => 0,
    };
    let t = match coda {
        Some(c) => match find_slot(&codas(), c) {
            Some(i) => i as u32 + 1,
            None => 0,
        },
        None => 0,
    };
    proof {
        lemma_compose_code_range(onset, vowel, coda);
    }
    let code = BASE + o * 588 + v * 28 + t;
    match char_from(code) {
        Some(found) => found,
        None => '?',
    }
}

/// The final consonant of a syllable, if it has one.
pub fn coda_of(ch: char) -> (found: Option<char>)
    ensures
        found == spec_coda_of(ch),
{
    match decompose(ch) {
        Some((_, _, coda)) => coda,
        None => None,
    }
}

} // verus!
verus! {

proof fn lemma_tables_distinct()
    ensures
        forall|i: int, j: int| 0 <= i < j < 19 ==> onset_table()[i] != onset_table()[j],
        forall|i: int, j: int| 0 <= i < j < 21 ==> vowel_table()[i] != vowel_table()[j],
        forall|i: int, j: int| 0 <= i < j < 27 ==> coda_table()[i] != coda_table()[j],
{
    let o = onset_table();
    assert forall|i: int, j: int| 0 <= i < j < 19 implies o[i] != o[j] by {
        assert(o[i] as u32 <= o[j] as u32 - 1);
    }
}

} // verus!
verus! {

proof fn lemma_slot_of_member(table: Seq<char>, at: int)
    requires
        0 <= at < table.len(),
        forall|i: int, j: int| 0 <= i < j < table.len() ==> table[i] != table[j],
    ensures
        first_index(table, table[at]) == at,
{
    assert forall|j: int| 0 <= j < at implies table[j] != table[at] by {}
    lemma_first_index(table, table[at], at);
}

proof fn lemma_syllable_arithmetic(code: int)
    requires
        0 <= code,
    ensures
        code == (code / 588) * 588 + ((code % 588) / 28) * 28 + code % 28,
        0 <= (code % 588) / 28 < 21,
        0 <= code % 28 < 28,
{
    assert(code == (code / 588) * 588 + ((code % 588) / 28) * 28 + code % 28) by (nonlinear_arith)
        requires
            0 <= code,
    {
        let q = code / 588;
        let r = code % 588;
        assert(code == q * 588 + r);
        assert(r == (r / 28) * 28 + r % 28);
        assert(r % 28 == code % 28);
    }
    assert(0 <= (code % 588) / 28 < 21) by (nonlinear_arith)
        requires
            0 <= code,
    ;
}

/// Decomposing a syllable and composing the parts again gives the syllable back.
pub proof fn law_decompose_then_compose(ch: char)
    requires
        syllable(ch),
    ensures
        spec_decompose(ch) matches Some((onset, vowel, coda)) && spec_compose(onset, vowel, coda)
            == ch,
{
    lemma_tables_distinct();
    let code = (ch as u32 - BASE) as int;
    lemma_syllable_arithmetic(code);
    assert(code / 588 < 19) by (nonlinear_arith)
        requires
            0 <= code <= LAST - BASE,
    ;
    let o = code / 588;
    let v = (code % 588) / 28;
    let t = code % 28;
    lemma_slot_of_member(onset_table(), o);
    lemma_slot_of_member(vowel_table(), v);
    if t > 0 {
        lemma_slot_of_member(coda_table(), t - 1);
    }
    assert(compose_code(onset_table()[o], vowel_table()[v], if t > 0 {
        Some(coda_table()[t - 1])
    } else {
        None
    }) == ch as u32);
}

/// Composing known parts and decomposing the syllable gives the parts back.
pub proof fn law_compose_then_decompose(onset: char, vowel: char, coda: Option<char>)
    requires
        onset_table().contains(onset),
        vowel_table().contains(vowel),
        coda matches Some(c) ==> coda_table().contains(c),
    ensures
        spec_decompose(spec_compose(onset, vowel, coda)) == Some((onset, vowel, coda)),
{
    lemma_tables_distinct();
    let oi = choose|i: int| 0 <= i < onset_table().len() && onset_table()[i] == onset;
    let vi = choose|i: int| 0 <= i < vowel_table().len() && vowel_table()[i] == vowel;
    lemma_slot_of_member(onset_table(), oi);
    lemma_slot_of_member(vowel_table(), vi);
    let ti: int = match coda {
        Some(c) => {
            let k = choose|i: int| 0 <= i < coda_table().len() && coda_table()[i] == c;
            lemma_slot_of_member(coda_table(), k);
            k + 1
        },
        None => 0,
    };
    lemma_compose_code_range(onset, vowel, coda);
    let code = oi * 588 + vi * 28 + ti;
    assert(compose_code(onset, vowel, coda) == BASE + code);
    assert(code / 588 == oi && (code % 588) / 28 == vi && code % 28 == ti) by (nonlinear_arith)
        requires
            code == oi * 588 + vi * 28 + ti,
            0 <= oi < 19,
            0 <= vi < 21,
            0 <= ti < 28,
    {
        let inner = vi * 28 + ti;
        assert(0 <= inner < 588);
        assert(code == oi * 588 + inner);
    }
}

} // verus!
verus! {

pub open spec fn spec_drop_coda(ch: char) -> char {
    match spec_decompose(ch) {
        Some((onset, vowel, _)) => spec_compose(onset, vowel, None),
        None => ch,
    }
}

pub open spec fn spec_add_coda(ch: char, coda: char) -> char {
    match spec_decompose(ch) {
        Some((onset, vowel, None)) => spec_compose(onset, vowel, Some(coda)),
        _ => ch,
    }
}

/// The syllable without its final consonant; other characters unchanged.
fn drop_coda(ch: char) -> (found: char)
    ensures
        found == spec_drop_coda(ch),
{
    match decompose(ch) {
        Some((onset, vowel, _)) => compose(onset, vowel, None),
        None => ch,
    }
}

/// The open syllable with `coda` added; other characters unchanged.
fn add_coda(ch: char, coda: char) -> (found: char)
    ensures
        found == spec_add_coda(ch, coda),
{
    match decompose(ch) {
        Some((onset, vowel, None)) => compose(onset, vowel, Some(coda)),
        _ => ch,
    }
}

/// How deep the conjugation of an ending recurses into other endings.
pub open spec fn ending_rank(ending: Ending) -> nat {
    match ending {
        Ending::Interrogative => 2,
        Ending::AdnominalPres => 1,
        _ => 0,
    }
}

/// A bright vowel takes 아/와 endings, any other takes 어/워.
pub open spec fn bright(vowel: char) -> bool {
    vowel == 'ㅏ' || vowel == 'ㅗ'
}

/// The 아/어 form of a stem.
pub open spec fn spec_auxiliary(stem: Seq<char>) -> Option<Seq<char>>
    recommends
        stem.len() > 0,
{
    let last = stem.last();
    let head = stem.drop_last();
    if last == '하' {
        Some(head + "해"@)
    } else {
        match spec_decompose(last) {
            None => None,
            Some((onset, vowel, coda)) => if coda is Some {
                Some(
                    stem + if bright(vowel) {
                        "아"@
                    } else {
                        "어"@
                    },
                )
            } else if vowel == 'ㅏ' || vowel == 'ㅓ' || vowel == 'ㅐ' || vowel == 'ㅔ' {
                Some(stem)
            } else if vowel == 'ㅗ' {
                Some(head.push(spec_compose(onset, 'ㅘ', None)))
            } else if vowel == 'ㅜ' {
                Some(head.push(spec_compose(onset, 'ㅝ', None)))
            } else if vowel == 'ㅡ' {
                Some(head.push(spec_compose(onset, 'ㅓ', None)))
            } else if vowel == 'ㅣ' {
                Some(head.push(spec_compose(onset, 'ㅕ', None)))
            } else {
                Some(stem + "어"@)
            },
        }
    }
}

/// The surface form of a regular stem with an ending; `None` for an empty
/// stem, for the quotative ending, and for an auxiliary form of a stem whose
/// last character is not a syllable.
pub open spec fn spec_conjugate(stem: Seq<char>, pos: Pos, ending: Ending) -> Option<Seq<char>>
    decreases ending_rank(ending),
{
    if stem.len() == 0 {
        None
    } else {
        let last = stem.last();
        let head = stem.drop_last();
        let coda = spec_coda_of(last);
        let open = coda is None;
        let riul = coda == Some('ㄹ');
        let descriptive = pos == Pos::Descriptive;
        let nieun = head.push(
            spec_add_coda(
                if riul {
                    spec_drop_coda(last)
                } else {
                    last
                },
                'ㄴ',
            ),
        );
        match ending {
            Ending::Final => if descriptive {
                Some(stem + "다"@)
            } else if riul || open {
                Some(nieun + "다"@)
            } else {
                Some(stem + "는다"@)
            },
            Ending::AdnominalPast => if riul || open {
                Some(nieun)
            } else {
                Some(stem + "은"@)
            },
            Ending::AdnominalPres => if descriptive {
                spec_conjugate(stem, pos, Ending::AdnominalPast)
            } else if riul {
                Some(head.push(spec_drop_coda(last)) + "는"@)
            } else {
                Some(stem + "는"@)
            },
            Ending::Conditional => if open || riul {
                Some(stem + "면"@)
            } else {
                Some(stem + "으면"@)
            },
            Ending::Conjunctive => Some(stem + "고"@),
            Ending::Alternative => Some(stem + "거나"@),
            Ending::Negative => Some(stem + "지"@),
            Ending::Interrogative => {
                let base = if descriptive {
                    Ending::AdnominalPast
                } else {
                    Ending::AdnominalPres
                };
                match spec_conjugate(stem, pos, base) {
                    Some(form) => Some(form + "지"@),
                    None => None,
                }
            },
            Ending::Auxiliary => spec_auxiliary(stem),
            Ending::Quotative => None,
        }
    }
}

/// The ㅅ/ㄷ/ㅂ-irregular alternative form of a stem with an ending, for the
/// endings where such a stem changes; `None` where it does not.
pub open spec fn spec_irregular(stem: Seq<char>, ending: Ending) -> Option<Seq<char>> {
    if stem.len() == 0 {
        None
    } else {
        let last = stem.last();
        let head = stem.drop_last();
        match spec_decompose(last) {
            None => None,
            Some((onset, vowel, coda)) => {
                let bare = spec_compose(onset, vowel, None);
                let tail = if bright(vowel) {
                    "아"@
                } else {
                    "어"@
                };
                match coda {
                    Some(c) => if c == 'ㅅ' {
                        match ending {
                            Ending::AdnominalPast => Some(head.push(bare) + "은"@),
                            Ending::Conditional => Some(head.push(bare) + "으면"@),
                            Ending::Auxiliary => Some(head.push(bare) + tail),
                            _ => None,
                        }
                    } else if c == 'ㄷ' {
                        let riul = spec_add_coda(bare, 'ㄹ');
                        match ending {
                            Ending::AdnominalPast => Some(head.push(riul) + "은"@),
                            Ending::Conditional => Some(head.push(riul) + "으면"@),
                            Ending::Auxiliary => Some(head.push(riul) + tail),
                            _ => None,
                        }
                    } else if c == 'ㅂ' {
                        match ending {
                            Ending::AdnominalPast => Some(
                                head.push(bare).push(spec_add_coda('우', 'ㄴ')),
                            ),
                            Ending::Conditional => Some(head.push(bare) + "우면"@),
                            Ending::Auxiliary => Some(
                                head.push(bare) + if bright(vowel) {
                                    "와"@
                                } else {
                                    "워"@
                                },
                            ),
                            _ => None,
                        }
                    } else {
                        None
                    },
                    None => None,
                }
            },
        }
    }
}

/// `head` followed by `ch` and `tail`.
fn joined(chars: &Vec<char>, upto: usize, ch: char, tail: &str) -> (made: String)
    requires
        upto <= chars@.len(),
    ensures
        made@ == chars@.subrange(0, upto as int).push(ch) + tail@,
{
    let mut made = string_of(chars.as_slice(), 0, upto);
    push_char(&mut made, ch);
    push_str(&mut made, tail);
    made
}

/// `head` followed by `ch`.
fn replaced_last(chars: &Vec<char>, upto: usize, ch: char) -> (made: String)
    requires
        upto <= chars@.len(),
    ensures
        made@ == chars@.subrange(0, upto as int).push(ch),
{
    let mut made = string_of(chars.as_slice(), 0, upto);
    push_char(&mut made, ch);
    made
}

/// All of `stem` followed by `tail`.
fn suffixed(stem: &str, tail: &str) -> (made: String)
    ensures
        made@ == stem@ + tail@,
{
    let mut made = owned(stem);
    push_str(&mut made, tail);
    made
}

fn auxiliary(stem: &str, chars: &Vec<char>) -> (found: Option<String>)
    requires
        chars@ == stem@,
        stem@.len() > 0,
    ensures
        crate::chars::view_opt(found) == spec_auxiliary(stem@),
{
    let n = chars.len();
    let last = chars[n - 1];
    assert(chars@.subrange(0, n - 1) == stem@.drop_last());
    if last == '하' {
        let mut made = string_of(chars.as_slice(), 0, n - 1);
        push_str(&mut made, "해");
        return Some(made);
    }
    let (onset, vowel, coda) = match decompose(last) {
        Some(parts) => parts,
        None => return None,
    };
    if coda.is_some() {
        let tail = if vowel == 'ㅏ' || vowel == 'ㅗ' {
            "아"
        } else {
            "어"
        };
        return Some(suffixed(stem, tail));
    }
    if vowel == 'ㅏ' || vowel == 'ㅓ' || vowel == 'ㅐ' || vowel == 'ㅔ' {
        Some(owned(stem))
    } else if vowel == 'ㅗ' {
        Some(replaced_last(chars, n - 1, compose(onset, 'ㅘ', None)))
    } else if vowel == 'ㅜ' {
        Some(replaced_last(chars, n - 1, compose(onset, 'ㅝ', None)))
    } else if vowel == 'ㅡ' {
        Some(replaced_last(chars, n - 1, compose(onset, 'ㅓ', None)))
    } else if vowel == 'ㅣ' {
        Some(replaced_last(chars, n - 1, compose(onset, 'ㅕ', None)))
    } else {
        Some(suffixed(stem, "어"))
    }
}

} // verus!
verus! {

/// Conjugates a regular stem with an ending (see `spec_conjugate`).
pub fn conjugate(stem: &str, pos: Pos, ending: Ending) -> (found: Option<String>)
    ensures
        crate::chars::view_opt(found) == spec_conjugate(stem@, pos, ending),
    decreases ending_rank(ending),
{
    let chars = chars_of(stem);
    let n = chars.len();
    if n == 0 {
        return None;
    }
    let last = chars[n - 1];
    assert(chars@.subrange(0, n - 1) == stem@.drop_last());
    let coda = coda_of(last);
    let open = coda.is_none();
    let riul = match coda {
        Some(c) => c == 'ㄹ',
        None => false,
    };
    assert(riul == (spec_coda_of(last) == Some('ㄹ')));
    let descriptive = pos == Pos::Descriptive;
    let nieun_base = if riul {
        drop_coda(last)
    } else {
        last
    };
    let nieun = add_coda(nieun_base, 'ㄴ');
    match ending {
        Ending::Final => {
            if descriptive {
                Some(suffixed(stem, "다"))
            } else if riul || open {
                Some(joined(&chars, n - 1, nieun, "다"))
            } else {
                Some(suffixed(stem, "는다"))
            }
        },
        Ending::AdnominalPast => {
            if riul || open {
                Some(replaced_last(&chars, n - 1, nieun))
            } else {
                Some(suffixed(stem, "은"))
            }
        },
        Ending::AdnominalPres => {
            if descriptive {
                conjugate(stem, pos, Ending::AdnominalPast)
            } else if riul {
                Some(joined(&chars, n - 1, drop_coda(last), "는"))
            } else {
                Some(suffixed(stem, "는"))
            }
        },
        Ending::Conditional => {
            if open || riul {
                Some(suffixed(stem, "면"))
            } else {
                Some(suffixed(stem, "으면"))
            }
        },
        Ending::Conjunctive => Some(suffixed(stem, "고")),
        Ending::Alternative => Some(suffixed(stem, "거나")),
        Ending::Negative => Some(suffixed(stem, "지")),
        Ending::Interrogative => {
            let base = if descriptive {
                Ending::AdnominalPast
            } else {
                Ending::AdnominalPres
            };
            match conjugate(stem, pos, base) {
                Some(form) => {
                    let mut made = form;
                    push_str(&mut made, "지");
                    Some(made)
                },
                None => None,
            }
        },
        Ending::Auxiliary => auxiliary(stem, &chars),
        Ending::Quotative => None,
    }
}

/// The ㅅ/ㄷ/ㅂ-irregular alternative of a stem's form (see `spec_irregular`).
/// Whether a stem is irregular cannot be told from its spelling, so callers
/// accept both this and the regular form.
pub fn irregular(stem: &str, ending: Ending) -> (found: Option<String>)
    ensures
        crate::chars::view_opt(found) == spec_irregular(stem@, ending),
{
    let chars = chars_of(stem);
    let n = chars.len();
    if n == 0 {
        return None;
    }
    let last = chars[n - 1];
    assert(chars@.subrange(0, n - 1) == stem@.drop_last());
    let (onset, vowel, coda) = match decompose(last) {
        Some(parts) => parts,
        None => return None,
    };
    let bare = compose(onset, vowel, None);
    let is_bright = vowel == 'ㅏ' || vowel == 'ㅗ';
    let tail = if is_bright {
        "아"
    } else {
        "어"
    };
    let c = match coda {
        Some(c) => c,
        None => return None,
    };
    if c == 'ㅅ' {
        match ending {
            Ending::AdnominalPast => Some(joined(&chars, n - 1, bare, "은")),
            Ending::Conditional => Some(joined(&chars, n - 1, bare, "으면")),
            Ending::Auxiliary => Some(joined(&chars, n - 1, bare, tail)),
            _ => None,
        }
    } else if c == 'ㄷ' {
        let riul = add_coda(bare, 'ㄹ');
        match ending {
            Ending::AdnominalPast => Some(joined(&chars, n - 1, riul, "은")),
            Ending::Conditional => Some(joined(&chars, n - 1, riul, "으면")),
            Ending::Auxiliary => Some(joined(&chars, n - 1, riul, tail)),
            _ => None,
        }
    } else if c == 'ㅂ' {
        match ending {
            Ending::AdnominalPast => {
                let mut made = replaced_last(&chars, n - 1, bare);
                push_char(&mut made, add_coda('우', 'ㄴ'));
                Some(made)
            },
            Ending::Conditional => Some(joined(&chars, n - 1, bare, "우면")),
            Ending::Auxiliary => {
                let wa = if is_bright {
                    "와"
                } else {
                    "워"
                };
                Some(joined(&chars, n - 1, bare, wa))
            },
            _ => None,
        }
    } else {
        None
    }
}

pub const LEAD: u32 = 0x1100;

pub const MEDIAL: u32 = 0x1161;

pub const TRAIL: u32 = 0x11A8;

pub open spec fn leading_jamo(ch: char) -> bool {
    LEAD <= ch as u32 && (ch as u32) < LEAD + 19
}

pub open spec fn medial_jamo(ch: char) -> bool {
    MEDIAL <= ch as u32 && (ch as u32) < MEDIAL + 21
}

pub open spec fn trailing_jamo(ch: char) -> bool {
    TRAIL <= ch as u32 && (ch as u32) < TRAIL + 27
}

/// Canonical composition of conjoining Hangul jamo: a leading consonant and
/// a vowel, with an optional trailing consonant, become one syllable; every
/// other character stays as it is.
pub open spec fn spec_nfc(s: Seq<char>) -> Seq<char>
    decreases s.len(),
{
    if s.len() == 0 {
        seq![]
    } else if leading_jamo(s[0]) && s.len() > 1 && medial_jamo(s[1]) {
        let base = BASE + (s[0] as u32 - LEAD) * 588 + (s[1] as u32 - MEDIAL) * 28;
        if s.len() > 2 && trailing_jamo(s[2]) {
            seq![(base + (s[2] as u32 - TRAIL) + 1) as char] + spec_nfc(s.skip(3))
        } else {
            seq![base as char] + spec_nfc(s.skip(2))
        }
    } else {
        seq![s[0]] + spec_nfc(s.skip(1))
    }
}

/// Composes conjoining jamo into precomposed syllables (see `spec_nfc`).
pub fn to_nfc(source: &str) -> (out: String)
    ensures
        out@ == spec_nfc(source@),
{
    let chars = chars_of(source);
    let mut out = String::new();
    let mut at: usize = 0;
    assert(chars@.skip(0) == chars@);
    while at < chars.len()
        invariant
            at <= chars@.len(),
            chars@ == source@,
            out@ + spec_nfc(chars@.skip(at as int)) == spec_nfc(source@),
        decreases chars.len() - at,
    {
        let ghost rest = chars@.skip(at as int);
        let ch = chars[at];
        let code = ch as u32;
        if !(LEAD <= code && code < LEAD + 19) || at + 1 >= chars.len() {
            push_char(&mut out, ch);
            at += 1;
            assert(rest.skip(1) == chars@.skip(at as int));
            continue;
        }
        let vowel = chars[at + 1] as u32;
        if !(MEDIAL <= vowel && vowel < MEDIAL + 21) {
            push_char(&mut out, ch);
            at += 1;
            assert(rest.skip(1) == chars@.skip(at as int));
            continue;
        }
        let mut syllable = BASE + (code - LEAD) * 588 + (vowel - MEDIAL) * 28;
        at += 2;
        if at < chars.len() {
            let coda = chars[at] as u32;
            if TRAIL <= coda && coda < TRAIL + 27 {
                syllable = syllable + coda - TRAIL + 1;
                at += 1;
            }
        }
        assert(rest.skip(at - (chars@.len() - rest.len())) == chars@.skip(at as int));
        let made = match char_from(syllable) {
            Some(found) => found,
            None => ch,
        };
        push_char(&mut out, made);
    }
    assert(chars@.skip(at as int) == Seq::<char>::empty());
    out
}

/// The subject particle that follows `word`: 이 after a final consonant, 가 otherwise.
pub open spec fn spec_subject_particle(word: Seq<char>) -> Seq<char> {
    if word.len() > 0 && spec_coda_of(word.last()) is Some {
        "이"@
    } else {
        "가"@
    }
}

pub fn subject_particle(word: &str) -> (found: &'static str)
    ensures
        found@ == spec_subject_particle(word@),
{
    let chars = chars_of(word);
    if chars.len() > 0 && coda_of(chars[chars.len() - 1]).is_some() {
        "이"
    } else {
        "가"
    }
}

pub open spec fn ending_name(ending: Ending) -> Seq<char> {
    match ending {
        Ending::Final => "final"@,
        Ending::AdnominalPast => "adnominal_past"@,
        Ending::AdnominalPres => "adnominal_pres"@,
        Ending::Conditional => "conditional"@,
        Ending::Conjunctive => "conjunctive"@,
        Ending::Alternative => "alternative"@,
        Ending::Interrogative => "interrogative"@,
        Ending::Auxiliary => "auxiliary"@,
        Ending::Negative => "negative"@,
        Ending::Quotative => "quotative"@,
    }
}

pub open spec fn pos_name(pos: Pos) -> Seq<char> {
    match pos {
        Pos::Verb => "verb"@,
        Pos::Descriptive => "descriptive"@,
        Pos::Passive => "passive"@,
    }
}

impl Ending {
    /// The ending's name in token dumps.
    pub fn as_str(self) -> (name: &'static str)
        ensures
            name@ == ending_name(self),
    {
        match self {
            Ending::Final => "final",
            Ending::AdnominalPast => "adnominal_past",
            Ending::AdnominalPres => "adnominal_pres",
            Ending::Conditional => "conditional",
            Ending::Conjunctive => "conjunctive",
            Ending::Alternative => "alternative",
            Ending::Interrogative => "interrogative",
            Ending::Auxiliary => "auxiliary",
            Ending::Negative => "negative",
            Ending::Quotative => "quotative",
        }
    }
}

impl Pos {
    /// The part of speech's name in token dumps.
    pub fn as_str(self) -> (name: &'static str)
        ensures
            name@ == pos_name(self),
    {
        match self {
            Pos::Verb => "verb",
            Pos::Descriptive => "descriptive",
            Pos::Passive => "passive",
        }
    }
}

} // verus!
verus! {

/// A syllable that composition makes is no jamo.
proof fn lemma_composed_plain(s: Seq<char>)
    requires
        s.len() > 1,
        leading_jamo(s[0]),
        medial_jamo(s[1]),
    ensures
        !leading_jamo(spec_nfc(s)[0]),
        !medial_jamo(spec_nfc(s)[0]),
        spec_nfc(s).len() > 0,
{
    let base = BASE + (s[0] as u32 - LEAD) * 588 + (s[1] as u32 - MEDIAL) * 28;
    assert(BASE <= base <= BASE + 18 * 588 + 20 * 28);
    if s.len() > 2 && trailing_jamo(s[2]) {
        let made = (base + (s[2] as u32 - TRAIL) + 1) as u32;
        assert(BASE < made <= LAST);
        assert((made as char) as u32 == made);
        assert(spec_nfc(s)[0] == made as char);
    } else {
        assert(((base as u32) as char) as u32 == base);
        assert(spec_nfc(s)[0] == (base as u32) as char);
    }
}

/// The first character of a composed text is a vowel jamo exactly when
/// the text began with one.
proof fn lemma_nfc_head(s: Seq<char>)
    requires
        s.len() > 0,
    ensures
        spec_nfc(s).len() > 0,
        medial_jamo(spec_nfc(s)[0]) == medial_jamo(s[0]),
{
    if leading_jamo(s[0]) && s.len() > 1 && medial_jamo(s[1]) {
        lemma_composed_plain(s);
    } else {
        assert(spec_nfc(s)[0] == s[0]);
    }
}

/// Composing twice is composing once.
pub proof fn law_nfc_idempotent(s: Seq<char>)
    ensures
        spec_nfc(spec_nfc(s)) == spec_nfc(s),
    decreases s.len(),
{
    if s.len() == 0 {
        return;
    }
    let out = spec_nfc(s);
    if leading_jamo(s[0]) && s.len() > 1 && medial_jamo(s[1]) {
        lemma_composed_plain(s);
        let rest = if s.len() > 2 && trailing_jamo(s[2]) { s.skip(3) } else { s.skip(2) };
        law_nfc_idempotent(rest);
        assert(out == seq![out[0]] + spec_nfc(rest));
        assert(out.skip(1) =~= spec_nfc(rest));
        assert(spec_nfc(out) == seq![out[0]] + spec_nfc(out.skip(1)));
    } else {
        let rest = s.skip(1);
        law_nfc_idempotent(rest);
        assert(out == seq![s[0]] + spec_nfc(rest));
        assert(out.skip(1) =~= spec_nfc(rest));
        assert(out[0] == s[0]);
        if rest.len() > 0 {
            lemma_nfc_head(rest);
            assert(out[1] == spec_nfc(rest)[0]);
        }
        assert(spec_nfc(out) == seq![out[0]] + spec_nfc(out.skip(1)));
    }
}

/// A text with no leading consonant jamo is left as it is.
pub proof fn law_nfc_plain(s: Seq<char>)
    requires
        forall|i: int| 0 <= i < s.len() ==> !leading_jamo(#[trigger] s[i]),
    ensures
        spec_nfc(s) == s,
    decreases s.len(),
{
    if s.len() > 0 {
        let rest = s.skip(1);
        assert forall|i: int| 0 <= i < rest.len() implies !leading_jamo(#[trigger] rest[i]) by {
            assert(rest[i] == s[i + 1]);
        }
        law_nfc_plain(rest);
        assert(s =~= seq![s[0]] + rest);
    }
}

} // verus!
verus! {

/// A leading consonant jamo and a vowel jamo, with a trailing consonant
/// jamo after them when there is one, become one syllable:
/// ㄱ ㅏ ㄱ is 각 and ㅎ ㅏ is 하.
pub proof fn law_nfc_composes(lead: char, vowel: char, rest: Seq<char>)
    requires
        leading_jamo(lead),
        medial_jamo(vowel),
    ensures
        rest.len() > 0 && trailing_jamo(rest[0]) ==> spec_nfc(seq![lead, vowel] + rest) == seq![
            ((BASE + (lead as u32 - LEAD) * 588 + (vowel as u32 - MEDIAL) * 28 + (rest[0] as u32 - TRAIL) + 1) as u32) as char,
        ] + spec_nfc(rest.skip(1)),
        !(rest.len() > 0 && trailing_jamo(rest[0])) ==> spec_nfc(seq![lead, vowel] + rest) == seq![
            ((BASE + (lead as u32 - LEAD) * 588 + (vowel as u32 - MEDIAL) * 28) as u32) as char,
        ] + spec_nfc(rest),
        spec_nfc(seq!['\u{1100}', '\u{1161}', '\u{11A8}']) == seq!['각'],
        spec_nfc(seq!['\u{1112}', '\u{1161}']) == seq!['하'],
{
    let s = seq![lead, vowel] + rest;
    assert(s[0] == lead && s[1] == vowel);
    assert(s.skip(2) =~= rest);
    if rest.len() > 0 {
        assert(s[2] == rest[0]);
        assert(s.skip(3) =~= rest.skip(1));
    }
    let gak = seq!['\u{1100}', '\u{1161}', '\u{11A8}'];
    assert(gak.skip(3) =~= Seq::<char>::empty());
    assert(spec_nfc(Seq::<char>::empty()) == Seq::<char>::empty());
    assert((0xAC01u32 as char) == '각');
    assert(seq!['각'] + Seq::<char>::empty() =~= seq!['각']);
    let ha = seq!['\u{1112}', '\u{1161}'];
    assert(ha.skip(2) =~= Seq::<char>::empty());
    assert((0xD558u32 as char) == '하');
    assert(seq!['하'] + Seq::<char>::empty() =~= seq!['하']);
}

} // verus!
verus! {

/// The conditional ending follows the stem's last sound. A stem whose last
/// character carries no final consonant (or is no syllable at all), or whose
/// final consonant is ㄹ (coda number 8), takes 면 directly; a stem ending in
/// any other final consonant takes 으면.
pub proof fn law_conditional_ending(stem: Seq<char>, pos: Pos)
    requires
        stem.len() > 0,
    ensures
        ({
            let code = stem.last() as u32;
            let hangul = BASE <= code <= LAST;
            let coda = (code - BASE) % 28;
            &&& (!hangul || coda == 0 || coda == 8) ==> spec_conjugate(stem, pos, Ending::Conditional)
                == Some(stem + "면"@)
            &&& (hangul && coda != 0 && coda != 8) ==> spec_conjugate(stem, pos, Ending::Conditional)
                == Some(stem + "으면"@)
        }),
{
    let code = stem.last() as u32;
    if BASE <= code <= LAST {
        let coda = (code - BASE) % 28;
        assert(coda_table()[7] == 'ㄹ');
        if coda != 0 && coda != 8 {
            assert(coda_table()[coda - 1] != 'ㄹ') by {
                assert(coda_table() =~= seq![
                    'ㄱ', 'ㄲ', 'ㄳ', 'ㄴ', 'ㄵ', 'ㄶ', 'ㄷ', 'ㄹ', 'ㄺ', 'ㄻ', 'ㄼ', 'ㄽ', 'ㄾ', 'ㄿ', 'ㅀ',
                    'ㅁ', 'ㅂ', 'ㅄ', 'ㅅ', 'ㅆ', 'ㅇ', 'ㅈ', 'ㅊ', 'ㅋ', 'ㅌ', 'ㅍ', 'ㅎ',
                ]);
            }
        }
    }
}

} // verus!
verus! {

/// On a syllable, dropping the final consonant subtracts its coda number
/// from the code point, and adding ㄴ to an open syllable adds 4 (ㄴ is the
/// fourth final consonant); adding to a closed syllable changes nothing.
proof fn lemma_coda_arithmetic(ch: char)
    requires
        syllable(ch),
    ensures
        spec_drop_coda(ch) as u32 == ch as u32 - (ch as u32 - BASE) % 28,
        syllable(spec_drop_coda(ch)),
        (ch as u32 - BASE) % 28 == 0 ==> spec_add_coda(ch, 'ㄴ') as u32 == ch as u32 + 4,
        (ch as u32 - BASE) % 28 != 0 ==> spec_add_coda(ch, 'ㄴ') == ch,
{
    lemma_tables_distinct();
    let code = (ch as u32 - BASE) as int;
    lemma_syllable_arithmetic(code);
    assert(code / 588 < 19) by (nonlinear_arith)
        requires
            0 <= code <= LAST - BASE,
    ;
    let o = code / 588;
    let v = (code % 588) / 28;
    let t = code % 28;
    lemma_slot_of_member(onset_table(), o);
    lemma_slot_of_member(vowel_table(), v);
    lemma_slot_of_member(coda_table(), 3);
    assert(coda_table()[3] == 'ㄴ');
    assert(compose_code(onset_table()[o], vowel_table()[v], None) == BASE + o * 588 + v * 28);
    lemma_compose_code_range(onset_table()[o], vowel_table()[v], None);
    if t == 0 {
        assert(compose_code(onset_table()[o], vowel_table()[v], Some('ㄴ')) == BASE + o * 588 + v * 28 + 4);
        lemma_compose_code_range(onset_table()[o], vowel_table()[v], Some('ㄴ'));
    }
}

/// How a stem is conjugated, ending by ending, in terms of its last
/// syllable's final consonant. Write `head` for the stem without its last
/// character, `c` for that character's code point and `t` for its coda
/// number (0 when it has none, 8 for ㄹ):
/// - the linking endings add 고, 거나 and 지, and the quotative ending and
///   an empty stem give nothing;
/// - a descriptive stem ends its statement with 다;
/// - on an open syllable, the statement of a verb and the past adnominal
///   add ㄴ to the last syllable (`c + 4`);
/// - on a ㄹ syllable they replace the ㄹ by ㄴ (`c - 4`), and the present
///   adnominal of a verb drops the ㄹ (`c - 8`) before 는;
/// - after any other final consonant they add 는다, 은 and 는.
pub proof fn law_conjugation(stem: Seq<char>, pos: Pos)
    ensures
        stem.len() == 0 ==> spec_conjugate(stem, pos, Ending::Final) is None,
        spec_conjugate(stem, pos, Ending::Quotative) is None,
        stem.len() > 0 ==> {
            &&& spec_conjugate(stem, pos, Ending::Conjunctive) == Some(stem + "고"@)
            &&& spec_conjugate(stem, pos, Ending::Alternative) == Some(stem + "거나"@)
            &&& spec_conjugate(stem, pos, Ending::Negative) == Some(stem + "지"@)
            &&& pos == Pos::Descriptive ==> spec_conjugate(stem, pos, Ending::Final) == Some(stem + "다"@)
            &&& pos == Pos::Descriptive ==> spec_conjugate(stem, pos, Ending::AdnominalPres) == spec_conjugate(
                stem,
                pos,
                Ending::AdnominalPast,
            )
        },
        stem.len() > 0 && syllable(stem.last()) ==> {
            let c = stem.last() as u32;
            let t = (c - BASE) % 28;
            let head = stem.drop_last();
            &&& t == 0 ==> spec_conjugate(stem, pos, Ending::AdnominalPast) == Some(head.push((c + 4) as char))
            &&& t == 0 && pos != Pos::Descriptive ==> spec_conjugate(stem, pos, Ending::Final) == Some(
                head.push((c + 4) as char) + "다"@,
            )
            &&& t == 0 && pos != Pos::Descriptive ==> spec_conjugate(stem, pos, Ending::AdnominalPres) == Some(
                stem + "는"@,
            )
            &&& t == 8 ==> spec_conjugate(stem, pos, Ending::AdnominalPast) == Some(head.push((c - 4) as char))
            &&& t == 8 && pos != Pos::Descriptive ==> spec_conjugate(stem, pos, Ending::Final) == Some(
                head.push((c - 4) as char) + "다"@,
            )
            &&& t == 8 && pos != Pos::Descriptive ==> spec_conjugate(stem, pos, Ending::AdnominalPres) == Some(
                head.push((c - 8) as char) + "는"@,
            )
            &&& t != 0 && t != 8 ==> spec_conjugate(stem, pos, Ending::AdnominalPast) == Some(stem + "은"@)
            &&& t != 0 && t != 8 && pos != Pos::Descriptive ==> spec_conjugate(stem, pos, Ending::Final) == Some(
                stem + "는다"@,
            )
            &&& t != 0 && t != 8 && pos != Pos::Descriptive ==> spec_conjugate(stem, pos, Ending::AdnominalPres)
                == Some(stem + "는"@)
        },
{
    if stem.len() > 0 && syllable(stem.last()) {
        let ch = stem.last();
        let c = ch as u32;
        let t = (c - BASE) % 28;
        lemma_coda_arithmetic(ch);
        let dropped = spec_drop_coda(ch);
        lemma_coda_arithmetic(dropped);
        assert((dropped as u32 - BASE) % 28 == 0) by (nonlinear_arith)
            requires
                dropped as u32 == c - t,
                t == (c - BASE) % 28,
                BASE <= c,
        {
        }
        assert(coda_table()[7] == 'ㄹ');
        if t != 0 && t != 8 {
            assert(coda_table()[t - 1] != 'ㄹ') by {
                assert(coda_table() =~= seq![
                    'ㄱ', 'ㄲ', 'ㄳ', 'ㄴ', 'ㄵ', 'ㄶ', 'ㄷ', 'ㄹ', 'ㄺ', 'ㄻ', 'ㄼ', 'ㄽ', 'ㄾ', 'ㄿ', 'ㅀ',
                    'ㅁ', 'ㅂ', 'ㅄ', 'ㅅ', 'ㅆ', 'ㅇ', 'ㅈ', 'ㅊ', 'ㅋ', 'ㅌ', 'ㅍ', 'ㅎ',
                ]);
            }
        }
    }
}

} // verus!
verus! {

/// Adding final consonant number `k + 1` (the `k`-th of the table) to an
/// open syllable adds `k + 1` to its code point.
proof fn lemma_add_coda_number(ch: char, k: int)
    requires
        syllable(ch),
        (ch as u32 - BASE) % 28 == 0,
        0 <= k < 27,
    ensures
        spec_add_coda(ch, coda_table()[k]) as u32 == ch as u32 + k + 1,
        spec_decompose(ch) matches Some((onset, vowel, _)) && spec_compose(onset, vowel, None) == ch,
{
    lemma_tables_distinct();
    let code = (ch as u32 - BASE) as int;
    lemma_syllable_arithmetic(code);
    assert(code / 588 < 19) by (nonlinear_arith)
        requires
            0 <= code <= LAST - BASE,
    ;
    let o = code / 588;
    let v = (code % 588) / 28;
    lemma_slot_of_member(onset_table(), o);
    lemma_slot_of_member(vowel_table(), v);
    lemma_slot_of_member(coda_table(), k);
    lemma_compose_code_range(onset_table()[o], vowel_table()[v], Some(coda_table()[k]));
    lemma_compose_code_range(onset_table()[o], vowel_table()[v], None);
}

/// The irregular stems: a stem whose last syllable ends in ㅅ (coda number
/// 19) loses it, one ending in ㄷ (7) turns it into ㄹ (8), and one ending
/// in ㅂ (17) loses it and takes 우, before the endings that start with a
/// vowel: the past adnominal, the conditional and the auxiliary. No other
/// stem and no other ending has an irregular form.
pub proof fn law_irregular(stem: Seq<char>, ending: Ending)
    ensures
        stem.len() == 0 ==> spec_irregular(stem, ending) is None,
        !(ending == Ending::AdnominalPast || ending == Ending::Conditional || ending == Ending::Auxiliary)
            ==> spec_irregular(stem, ending) is None,
        stem.len() > 0 && !syllable(stem.last()) ==> spec_irregular(stem, ending) is None,
        stem.len() > 0 && syllable(stem.last()) ==> {
            let c = stem.last() as u32;
            let t = (c - BASE) % 28;
            let head = stem.drop_last();
            &&& !(t == 7 || t == 17 || t == 19) ==> spec_irregular(stem, ending) is None
            &&& t == 19 ==> spec_irregular(stem, Ending::AdnominalPast) == Some(head.push((c - 19) as char) + "은"@)
            &&& t == 19 ==> spec_irregular(stem, Ending::Conditional) == Some(head.push((c - 19) as char) + "으면"@)
            &&& t == 7 ==> spec_irregular(stem, Ending::AdnominalPast) == Some(head.push((c + 1) as char) + "은"@)
            &&& t == 7 ==> spec_irregular(stem, Ending::Conditional) == Some(head.push((c + 1) as char) + "으면"@)
            &&& t == 17 ==> spec_irregular(stem, Ending::AdnominalPast) == Some(head.push((c - 17) as char).push('운'))
            &&& t == 17 ==> spec_irregular(stem, Ending::Conditional) == Some(head.push((c - 17) as char) + "우면"@)
        },
{
    if stem.len() > 0 && syllable(stem.last()) {
        let ch = stem.last();
        let c = ch as u32;
        let t = (c - BASE) % 28;
        lemma_tables_distinct();
        lemma_coda_arithmetic(ch);
        let bare = spec_drop_coda(ch);
        assert((bare as u32 - BASE) % 28 == 0) by (nonlinear_arith)
            requires
                bare as u32 == c - t,
                t == (c - BASE) % 28,
                BASE <= c,
        {
        }
        assert(coda_table()[18] == 'ㅅ' && coda_table()[6] == 'ㄷ' && coda_table()[16] == 'ㅂ' && coda_table()[7] == 'ㄹ');
        lemma_add_coda_number(bare, 7);
        lemma_coda_arithmetic('우');
        assert(('우' as u32 + 4) as char == '운');
    }
}

} // verus!
verus! {

/// The 아/어 form. Write `c` for the last character's code point, `v` for
/// its vowel number (ㅏ 0, ㅐ 1, ㅓ 4, ㅔ 5, ㅗ 8, ㅜ 13, ㅡ 18, ㅣ 20) and
/// `t` for its coda number: 하 becomes 해; a closed syllable takes 아 after
/// ㅏ or ㅗ and 어 otherwise; an open syllable in ㅏ, ㅐ, ㅓ or ㅔ stays as it
/// is; ㅗ and ㅜ contract with the ending into ㅘ and ㅝ (the next vowel,
/// `c + 28`); ㅡ and ㅣ into ㅓ and ㅕ (fourteen vowels back); any other
/// open syllable takes 어; a stem ending in no syllable has no such form.
pub proof fn law_auxiliary(stem: Seq<char>)
    requires
        stem.len() > 0,
    ensures
        ({
            let ch = stem.last();
            let c = ch as u32;
            let head = stem.drop_last();
            let found = spec_auxiliary(stem);
            let v = ((c - BASE) % 588) / 28;
            let t = (c - BASE) % 28;
            &&& ch == '하' ==> found == Some(head + "해"@)
            &&& !syllable(ch) ==> found is None
            &&& syllable(ch) && ch != '하' ==> {
                &&& t != 0 && (v == 0 || v == 8) ==> found == Some(stem + "아"@)
                &&& t != 0 && !(v == 0 || v == 8) ==> found == Some(stem + "어"@)
                &&& t == 0 && (v == 0 || v == 1 || v == 4 || v == 5) ==> found == Some(stem)
                &&& t == 0 && (v == 8 || v == 13) ==> found == Some(head.push((c + 28) as char))
                &&& t == 0 && (v == 18 || v == 20) ==> found == Some(head.push((c - 392) as char))
                &&& t == 0 && !(v == 0 || v == 1 || v == 4 || v == 5 || v == 8 || v == 13 || v == 18 || v == 20)
                    ==> found == Some(stem + "어"@)
            }
        }),
{
    let ch = stem.last();
    if syllable(ch) && ch != '하' {
        lemma_tables_distinct();
        let code = (ch as u32 - BASE) as int;
        lemma_syllable_arithmetic(code);
        assert(code / 588 < 19) by (nonlinear_arith)
            requires
                0 <= code <= LAST - BASE,
        ;
        let o = code / 588;
        let v = (code % 588) / 28;
        lemma_slot_of_member(onset_table(), o);
        assert(vowel_table()[0] == 'ㅏ' && vowel_table()[1] == 'ㅐ' && vowel_table()[4] == 'ㅓ' && vowel_table()[5] == 'ㅔ');
        assert(vowel_table()[6] == 'ㅕ' && vowel_table()[8] == 'ㅗ' && vowel_table()[9] == 'ㅘ' && vowel_table()[13] == 'ㅜ');
        assert(vowel_table()[14] == 'ㅝ' && vowel_table()[18] == 'ㅡ' && vowel_table()[20] == 'ㅣ');
        if v == 8 || v == 13 {
            lemma_slot_of_member(vowel_table(), v + 1);
            lemma_compose_code_range(onset_table()[o], vowel_table()[v + 1], None);
        }
        if v == 18 || v == 20 {
            lemma_slot_of_member(vowel_table(), v - 14);
            lemma_compose_code_range(onset_table()[o], vowel_table()[v - 14], None);
        }
    }
}

} // verus!
verus! {

/// The interrogative of a stem is its present adnominal (for a verb) or
/// its past adnominal (for a descriptive stem), followed by 지.
pub proof fn law_interrogative(stem: Seq<char>, pos: Pos)
    ensures
        spec_conjugate(stem, pos, Ending::Interrogative) == match spec_conjugate(
            stem,
            pos,
            if pos == Pos::Descriptive { Ending::AdnominalPast } else { Ending::AdnominalPres },
        ) {
            Some(form) => Some(form + "지"@),
            None => None::<Seq<char>>,
        },
{
}

} // verus!
