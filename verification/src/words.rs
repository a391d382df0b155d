//! The fixed words of the language: particles, keywords, the forms of 하다,
//! 되다 and the copula, and the conjugated forms of the built-in verbs.

use vstd::prelude::*;

use crate::chars::{chars_of, owned, push_str, same_text};
use crate::hangul::{conjugate, irregular, regular_ending_list, Ending, Pos};

verus! {

/// A particle: its surface form, its grammatical role, and its canonical
/// spelling (the form after a vowel).
pub open spec fn particle_table() -> Seq<(Seq<char>, Seq<char>, Seq<char>)> {
    seq![
        ("은"@, "topic"@, "는"@),
        ("는"@, "topic"@, "는"@),
        ("이"@, "subject"@, "가"@),
        ("가"@, "subject"@, "가"@),
        ("을"@, "object"@, "를"@),
        ("를"@, "object"@, "를"@),
        ("에서"@, "ablative"@, "에서"@),
        ("에게"@, "dative_person"@, "에게"@),
        ("에"@, "dative"@, "에"@),
        ("으로"@, "instrument"@, "로"@),
        ("로"@, "instrument"@, "로"@),
        ("의"@, "genitive"@, "의"@),
        ("보다"@, "comparative"@, "보다"@),
        ("마다"@, "distributive"@, "마다"@),
        ("만큼"@, "quantity"@, "만큼"@),
        ("씩"@, "step"@, "씩"@),
        ("부터"@, "from"@, "부터"@),
        ("까지"@, "to"@, "까지"@),
        ("와"@, "conj"@, "와"@),
        ("과"@, "conj"@, "와"@),
    ]
}

pub open spec fn triple_view(
    found: Seq<(&'static str, &'static str, &'static str)>,
) -> Seq<(Seq<char>, Seq<char>, Seq<char>)> {
    Seq::new(found.len(), |i: int| (found[i].0@, found[i].1@, found[i].2@))
}

/// The particles, in the order they are tried.
pub fn particles() -> (found: Vec<(&'static str, &'static str, &'static str)>)
    ensures
        triple_view(found@) == particle_table(),
{
    let found = vec![
        ("은", "topic", "는"),
        ("는", "topic", "는"),
        ("이", "subject", "가"),
        ("가", "subject", "가"),
        ("을", "object", "를"),
        ("를", "object", "를"),
        ("에서", "ablative", "에서"),
        ("에게", "dative_person", "에게"),
        ("에", "dative", "에"),
        ("으로", "instrument", "로"),
        ("로", "instrument", "로"),
        ("의", "genitive", "의"),
        ("보다", "comparative", "보다"),
        ("마다", "distributive", "마다"),
        ("만큼", "quantity", "만큼"),
        ("씩", "step", "씩"),
        ("부터", "from", "부터"),
        ("까지", "to", "까지"),
        ("와", "conj", "와"),
        ("과", "conj", "와"),
    ];
    assert(triple_view(found@) =~= particle_table());
    found
}

/// The entries of `table` whose form has exactly `n` characters, in order.
pub open spec fn of_length<A, B>(table: Seq<(Seq<char>, A, B)>, n: nat) -> Seq<(Seq<char>, A, B)>
    decreases table.len(),
{
    if table.len() == 0 {
        seq![]
    } else {
        let rest = of_length(table.drop_last(), n);
        if table.last().0.len() == n {
            rest.push(table.last())
        } else {
            rest
        }
    }
}

/// A stable ordering of `table` by the length of its forms, longest first,
/// for forms of at most `longest` characters.
pub open spec fn longest_first<A, B>(table: Seq<(Seq<char>, A, B)>, longest: nat) -> Seq<(Seq<char>, A, B)>
    decreases longest,
{
    if longest == 0 {
        of_length(table, 0)
    } else {
        of_length(table, longest) + longest_first(table, (longest - 1) as nat)
    }
}

/// The greatest form length in `table`.
pub open spec fn max_length<A, B>(table: Seq<(Seq<char>, A, B)>) -> nat
    decreases table.len(),
{
    if table.len() == 0 {
        0
    } else {
        let rest = max_length(table.drop_last());
        if table.last().0.len() > rest {
            table.last().0.len()
        } else {
            rest
        }
    }
}

pub open spec fn owned_triple_view(
    found: Seq<(String, &'static str, &'static str)>,
) -> Seq<(Seq<char>, Seq<char>, Seq<char>)> {
    Seq::new(found.len(), |i: int| (found[i].0@, found[i].1@, found[i].2@))
}

pub(crate) fn char_count(text: &str) -> (count: usize)
    ensures
        count == text@.len(),
{
    chars_of(text).len()
}

/// The particles of one length, in table order.
fn particles_of_length(
    table: &Vec<(&'static str, &'static str, &'static str)>,
    n: usize,
    into: &mut Vec<(String, &'static str, &'static str)>,
)
    ensures
        owned_triple_view(final(into)@) == owned_triple_view(old(into)@) + of_length(
            triple_view(table@),
            n as nat,
        ),
{
    let ghost start = owned_triple_view(into@);
    let mut at: usize = 0;
    while at < table.len()
        invariant
            at <= table@.len(),
            owned_triple_view(into@) == start + of_length(
                triple_view(table@).take(at as int),
                n as nat,
            ),
        decreases table@.len() - at,
    {
        let (form, role, canon) = table[at];
        let ghost before = owned_triple_view(into@);
        assert(triple_view(table@).take(at + 1).drop_last() == triple_view(table@).take(
            at as int,
        ));
        if char_count(form) == n {
            into.push((owned(form), role, canon));
            assert(owned_triple_view(into@) == before.push((form@, role@, canon@)));
        } else {
            assert(owned_triple_view(into@) == before);
        }
        at += 1;
    }
    assert(triple_view(table@).take(table@.len() as int) == triple_view(table@));
}

/// The particles, longest forms first (and otherwise in table order), so that
/// a word is split at its longest particle.
pub fn particles_by_length() -> (found: Vec<(String, &'static str, &'static str)>)
    ensures
        owned_triple_view(found@) == longest_first(
            particle_table(),
            max_length(particle_table()),
        ),
{
    let table = particles();
    let mut longest: usize = 0;
    let mut at: usize = 0;
    while at < table.len()
        invariant
            at <= table@.len(),
            triple_view(table@) == particle_table(),
            longest == max_length(triple_view(table@).take(at as int)),
        decreases table@.len() - at,
    {
        let (form, _, _) = table[at];
        assert(triple_view(table@).take(at + 1).drop_last() == triple_view(table@).take(
            at as int,
        ));
        let n = char_count(form);
        if n > longest {
            longest = n;
        }
        at += 1;
    }
    assert(triple_view(table@).take(table@.len() as int) == triple_view(table@));
    let mut found: Vec<(String, &'static str, &'static str)> = Vec::new();
    let mut n = longest;
    assert(owned_triple_view(found@) == Seq::<(Seq<char>, Seq<char>, Seq<char>)>::empty());
    loop
        invariant
            n <= longest,
            triple_view(table@) == particle_table(),
            longest == max_length(particle_table()),
            longest_first(particle_table(), longest as nat) == owned_triple_view(found@)
                + longest_first(particle_table(), n as nat),
        decreases n,
    {
        let ghost before = owned_triple_view(found@);
        particles_of_length(&table, n, &mut found);
        if n == 0 {
            return found;
        }
        assert(longest_first(particle_table(), n as nat) == of_length(particle_table(), n as nat)
            + longest_first(particle_table(), (n - 1) as nat));
        n = n - 1;
    }
}

/// The surface forms and roles of particle `form`, if it is one.
pub open spec fn spec_particle(form: Seq<char>) -> Option<(Seq<char>, Seq<char>)>
    decreases particle_table().len(),
{
    first_particle(particle_table(), form)
}

pub open spec fn first_particle(
    table: Seq<(Seq<char>, Seq<char>, Seq<char>)>,
    form: Seq<char>,
) -> Option<(Seq<char>, Seq<char>)>
    decreases table.len(),
{
    if table.len() == 0 {
        None
    } else if table[0].0 == form {
        Some((table[0].1, table[0].2))
    } else {
        first_particle(table.drop_first(), form)
    }
}

/// The role and canonical spelling of particle `form`.
pub fn particle(form: &str) -> (found: Option<(&'static str, &'static str)>)
    ensures
        match found {
            Some((role, canon)) => spec_particle(form@) == Some((role@, canon@)),
            None => spec_particle(form@) is None,
        },
{
    let table = particles();
    let mut at: usize = 0;
    assert(triple_view(table@).skip(0) == triple_view(table@));
    while at < table.len()
        invariant
            at <= table@.len(),
            triple_view(table@) == particle_table(),
            first_particle(particle_table(), form@) == first_particle(
                triple_view(table@).skip(at as int),
                form@,
            ),
        decreases table@.len() - at,
    {
        let (candidate, role, canon) = table[at];
        assert(triple_view(table@).skip(at as int).drop_first() == triple_view(table@).skip(
            at + 1,
        ));
        if same_text(candidate, form) {
            return Some((role, canon));
        }
        at += 1;
    }
    None
}

} // verus!
verus! {

pub open spec fn text_view(found: Seq<&'static str>) -> Seq<Seq<char>> {
    Seq::new(found.len(), |i: int| found[i]@)
}

/// Whether `word` is one of `list`.
pub fn listed(list: &Vec<&'static str>, word: &str) -> (found: bool)
    ensures
        found == text_view(list@).contains(word@),
{
    let mut at: usize = 0;
    while at < list.len()
        invariant
            at <= list@.len(),
            forall|j: int| 0 <= j < at ==> list@[j]@ != word@,
        decreases list@.len() - at,
    {
        if same_text(list[at], word) {
            assert(text_view(list@)[at as int] == word@);
            return true;
        }
        at += 1;
    }
    assert forall|j: int| 0 <= j < text_view(list@).len() implies text_view(list@)[j] != word@ by {
        assert(text_view(list@)[j] == list@[j]@);
    }
    false
}

/// Particles that shape a statement rather than fill a verb's slot.
pub open spec fn structural_table() -> Seq<Seq<char>> {
    seq!["마다"@, "부터"@, "까지"@, "씩"@, "모듈"@]
}

pub fn structural() -> (found: Vec<&'static str>)
    ensures
        text_view(found@) == structural_table(),
{
    let found = vec!["마다", "부터", "까지", "씩", "모듈"];
    assert(text_view(found@) =~= structural_table());
    found
}

/// The fields every value has.
pub open spec fn field_table() -> Seq<Seq<char>> {
    seq!["자료형"@, "길이"@, "명칭"@]
}

pub fn fields() -> (found: Vec<&'static str>)
    ensures
        text_view(found@) == field_table(),
{
    let found = vec!["자료형", "길이", "명칭"];
    assert(text_view(found@) =~= field_table());
    found
}

/// The reserved words.
pub open spec fn keyword_table() -> Seq<Seq<char>> {
    seq!["만약"@, "아니고"@, "아니면"@, "동안"@, "참"@, "거짓"@, "없음"@, "묶음"@]
}

pub fn keywords() -> (found: Vec<&'static str>)
    ensures
        text_view(found@) == keyword_table(),
{
    let found = vec!["만약", "아니고", "아니면", "동안", "참", "거짓", "없음", "묶음"];
    assert(text_view(found@) =~= keyword_table());
    found
}

/// Names that may follow a call as its result ("값", "나머지", "몫").
pub open spec fn call_tail_table() -> Seq<Seq<char>> {
    seq!["값"@, "나머지"@, "몫"@]
}

pub fn call_tails() -> (found: Vec<&'static str>)
    ensures
        text_view(found@) == call_tail_table(),
{
    let found = vec!["값", "나머지", "몫"];
    assert(text_view(found@) =~= call_tail_table());
    found
}

pub fn is_keyword(word: &str) -> (found: bool)
    ensures
        found == keyword_table().contains(word@),
{
    listed(&keywords(), word)
}

pub fn is_field(word: &str) -> (found: bool)
    ensures
        found == field_table().contains(word@),
{
    listed(&fields(), word)
}

pub fn is_structural(word: &str) -> (found: bool)
    ensures
        found == structural_table().contains(word@),
{
    listed(&structural(), word)
}

pub open spec fn pair_view(found: Seq<(&'static str, Ending)>) -> Seq<(Seq<char>, Ending)> {
    Seq::new(found.len(), |i: int| (found[i].0@, found[i].1))
}

/// The forms of 하다 that end a verb spelled as a noun plus 하다.
pub open spec fn hada_table() -> Seq<(Seq<char>, Ending)> {
    seq![
        ("하는지"@, Ending::Interrogative),
        ("하거나"@, Ending::Alternative),
        ("하는"@, Ending::AdnominalPres),
        ("하면"@, Ending::Conditional),
        ("하고"@, Ending::Conjunctive),
        ("하지"@, Ending::Negative),
        ("한다"@, Ending::Final),
        ("한"@, Ending::AdnominalPast),
        ("해"@, Ending::Auxiliary),
    ]
}

pub fn hada_forms() -> (found: Vec<(&'static str, Ending)>)
    ensures
        pair_view(found@) == hada_table(),
{
    let found = vec![
        ("하는지", Ending::Interrogative),
        ("하거나", Ending::Alternative),
        ("하는", Ending::AdnominalPres),
        ("하면", Ending::Conditional),
        ("하고", Ending::Conjunctive),
        ("하지", Ending::Negative),
        ("한다", Ending::Final),
        ("한", Ending::AdnominalPast),
        ("해", Ending::Auxiliary),
    ];
    assert(pair_view(found@) =~= hada_table());
    found
}

/// The forms of 되다 that end a passive verb spelled as a noun plus 되다.
pub open spec fn doeda_table() -> Seq<(Seq<char>, Ending)> {
    seq![
        ("되는지"@, Ending::Interrogative),
        ("되는"@, Ending::AdnominalPres),
        ("되면"@, Ending::Conditional),
        ("되고"@, Ending::Conjunctive),
        ("된다"@, Ending::Final),
        ("된"@, Ending::AdnominalPast),
    ]
}

pub fn doeda_forms() -> (found: Vec<(&'static str, Ending)>)
    ensures
        pair_view(found@) == doeda_table(),
{
    let found = vec![
        ("되는지", Ending::Interrogative),
        ("되는", Ending::AdnominalPres),
        ("되면", Ending::Conditional),
        ("되고", Ending::Conjunctive),
        ("된다", Ending::Final),
        ("된", Ending::AdnominalPast),
    ];
    assert(pair_view(found@) =~= doeda_table());
    found
}

/// The forms of the copula 이다.
pub open spec fn copula_table() -> Seq<(Seq<char>, Ending)> {
    seq![
        ("이거나"@, Ending::Alternative),
        ("이라는"@, Ending::Quotative),
        ("라는"@, Ending::Quotative),
        ("이면"@, Ending::Conditional),
        ("인지"@, Ending::Interrogative),
        ("이고"@, Ending::Conjunctive),
        ("이다"@, Ending::Final),
        ("인"@, Ending::AdnominalPast),
    ]
}

pub fn copula_forms() -> (found: Vec<(&'static str, Ending)>)
    ensures
        pair_view(found@) == copula_table(),
{
    let found = vec![
        ("이거나", Ending::Alternative),
        ("이라는", Ending::Quotative),
        ("라는", Ending::Quotative),
        ("이면", Ending::Conditional),
        ("인지", Ending::Interrogative),
        ("이고", Ending::Conjunctive),
        ("이다", Ending::Final),
        ("인", Ending::AdnominalPast),
    ];
    assert(pair_view(found@) =~= copula_table());
    found
}

/// Comparison words: the word, the verb it stands for, and whether equality counts.
pub open spec fn comparative_table() -> Seq<(Seq<char>, Seq<char>, bool)> {
    seq![
        ("이상"@, "작다"@, true),
        ("이하"@, "크다"@, true),
        ("초과"@, "크다"@, false),
        ("미만"@, "작다"@, false),
    ]
}

pub open spec fn comparative_view(
    found: Seq<(&'static str, &'static str, bool)>,
) -> Seq<(Seq<char>, Seq<char>, bool)> {
    Seq::new(found.len(), |i: int| (found[i].0@, found[i].1@, found[i].2))
}

pub fn comparatives() -> (found: Vec<(&'static str, &'static str, bool)>)
    ensures
        comparative_view(found@) == comparative_table(),
{
    let found = vec![
        ("이상", "작다", true),
        ("이하", "크다", true),
        ("초과", "크다", false),
        ("미만", "작다", false),
    ];
    assert(comparative_view(found@) =~= comparative_table());
    found
}

/// Whether `word` is one of the comparison words.
pub fn is_comparative(word: &str) -> (found: bool)
    ensures
        found == exists|i: int|
            0 <= i < comparative_table().len() && #[trigger] comparative_table()[i].0 == word@,
{
    let table = comparatives();
    let mut at: usize = 0;
    while at < table.len()
        invariant
            at <= table@.len(),
            comparative_view(table@) == comparative_table(),
            forall|j: int| 0 <= j < at ==> comparative_table()[j].0 != word@,
        decreases table@.len() - at,
    {
        let (candidate, _, _) = table[at];
        assert(comparative_table()[at as int].0 == candidate@);
        if same_text(candidate, word) {
            return true;
        }
        at += 1;
    }
    false
}

} // verus!
verus! {

/// `form` ends `chunk` and leaves a non-empty head before it.
pub open spec fn ends_with_form(chunk: Seq<char>, form: Seq<char>) -> bool {
    form.len() < chunk.len() && chunk.skip(chunk.len() - form.len()) == form
}

/// The head of `chunk` before a suffix of `size` characters.
pub open spec fn head_before(chunk: Seq<char>, size: nat) -> Seq<char> {
    chunk.take(chunk.len() - size)
}

/// The entries of `table` whose form ends `chunk`, in table order.
pub open spec fn fitting(table: Seq<(Seq<char>, Ending)>, chunk: Seq<char>) -> Seq<(Seq<char>, Ending)>
    decreases table.len(),
{
    if table.len() == 0 {
        seq![]
    } else {
        let rest = fitting(table.drop_last(), chunk);
        if ends_with_form(chunk, table.last().0) {
            rest.push(table.last())
        } else {
            rest
        }
    }
}

pub open spec fn pairs_of_length(table: Seq<(Seq<char>, Ending)>, n: nat) -> Seq<(Seq<char>, Ending)>
    decreases table.len(),
{
    if table.len() == 0 {
        seq![]
    } else {
        let rest = pairs_of_length(table.drop_last(), n);
        if table.last().0.len() == n {
            rest.push(table.last())
        } else {
            rest
        }
    }
}

/// A stable ordering of `table` by form length, shortest first, for forms
/// of at most `longest` characters.
pub open spec fn shortest_first(table: Seq<(Seq<char>, Ending)>, longest: nat) -> Seq<(Seq<char>, Ending)>
    decreases longest,
{
    if longest == 0 {
        pairs_of_length(table, 0)
    } else {
        shortest_first(table, (longest - 1) as nat) + pairs_of_length(table, longest)
    }
}

/// A name is known when the program declares it or it is a built-in field.
pub open spec fn known(names: Seq<Seq<char>>, word: Seq<char>) -> bool {
    names.contains(word) || field_table().contains(word)
}

pub open spec fn string_view(found: Seq<String>) -> Seq<Seq<char>> {
    Seq::new(found.len(), |i: int| found[i]@)
}

/// The first entry whose head before it in `chunk` is a known name.
pub open spec fn first_known(
    entries: Seq<(Seq<char>, Ending)>,
    chunk: Seq<char>,
    names: Seq<Seq<char>>,
) -> Option<(Seq<char>, Ending)>
    decreases entries.len(),
{
    if entries.len() == 0 {
        None
    } else if known(names, head_before(chunk, entries[0].0.len())) {
        Some(entries[0])
    } else {
        first_known(entries.drop_first(), chunk, names)
    }
}

/// Which copula form to split off the end of `chunk`: among the forms that
/// end it, shortest first, the first that leaves a known name before it;
/// failing that, the longest (the last of the longest in table order).
pub open spec fn spec_copula_suffix(chunk: Seq<char>, names: Seq<Seq<char>>) -> Option<
    (Seq<char>, Ending),
> {
    let sorted = shortest_first(fitting(copula_table(), chunk), chunk.len());
    match first_known(sorted, chunk, names) {
        Some(found) => Some(found),
        None => if sorted.len() > 0 {
            Some(sorted.last())
        } else {
            None
        },
    }
}

proof fn lemma_fitting_members(table: Seq<(Seq<char>, Ending)>, chunk: Seq<char>)
    ensures
        forall|x: (Seq<char>, Ending)|
            #[trigger] fitting(table, chunk).contains(x) ==> x.0.len() < chunk.len() && ends_with_form(
                chunk,
                x.0,
            ) && table.contains(x),
    decreases table.len(),
{
    if table.len() > 0 {
        lemma_fitting_members(table.drop_last(), chunk);
        let rest = fitting(table.drop_last(), chunk);
        assert forall|x: (Seq<char>, Ending)|
            fitting(table, chunk).contains(x) implies x.0.len() < chunk.len() && ends_with_form(chunk, x.0)
                && table.contains(x) by {
            if ends_with_form(chunk, table.last().0) {
                let i = choose|i: int| 0 <= i < rest.push(table.last()).len() && rest.push(table.last())[i] == x;
                if i < rest.len() {
                    assert(rest.contains(x));
                } else {
                    assert(table[table.len() - 1] == x);
                }
            } else {
                assert(rest.contains(x));
            }
            if rest.contains(x) {
                assert(fitting(table.drop_last(), chunk).contains(x));
                assert(table.drop_last().contains(x));
                let k = choose|k: int| 0 <= k < table.drop_last().len() && table.drop_last()[k] == x;
                assert(table[k] == x);
            }
        }
    }
}

proof fn lemma_first_known_member(
    entries: Seq<(Seq<char>, Ending)>,
    chunk: Seq<char>,
    names: Seq<Seq<char>>,
)
    ensures
        first_known(entries, chunk, names) matches Some(x) ==> entries.contains(x),
    decreases entries.len(),
{
    if entries.len() > 0 && !known(names, head_before(chunk, entries[0].0.len())) {
        lemma_first_known_member(entries.drop_first(), chunk, names);
        if let Some(x) = first_known(entries.drop_first(), chunk, names) {
            let k = choose|k: int| 0 <= k < entries.drop_first().len() && entries.drop_first()[k] == x;
            assert(entries[k + 1] == x);
        }
    } else if entries.len() > 0 {
        assert(entries[0] == entries[0]);
    }
}

proof fn lemma_copula_forms_nonempty()
    ensures
        forall|x: (Seq<char>, Ending)| copula_table().contains(x) ==> x.0.len() > 0,
{
    reveal_strlit("이거나");
    reveal_strlit("이라는");
    reveal_strlit("라는");
    reveal_strlit("이면");
    reveal_strlit("인지");
    reveal_strlit("이고");
    reveal_strlit("이다");
    reveal_strlit("인");
    assert forall|x: (Seq<char>, Ending)| copula_table().contains(x) implies x.0.len() > 0 by {
        let i = choose|i: int| 0 <= i < copula_table().len() && copula_table()[i] == x;
    }
}

/// The copula form that `spec_copula_suffix` picks is one of the copula's
/// forms, not empty, and ends the chunk with something before it.
pub proof fn lemma_copula_suffix_fits(chunk: Seq<char>, names: Seq<Seq<char>>)
    ensures
        spec_copula_suffix(chunk, names) matches Some(x) ==> {
            &&& copula_table().contains(x)
            &&& 0 < x.0.len() < chunk.len()
            &&& ends_with_form(chunk, x.0)
        },
{
    let sorted = shortest_first(fitting(copula_table(), chunk), chunk.len());
    lemma_fitting_members(copula_table(), chunk);
    lemma_shortest_first_members(fitting(copula_table(), chunk), chunk.len());
    lemma_first_known_member(sorted, chunk, names);
    lemma_copula_forms_nonempty();
    if let Some(x) = spec_copula_suffix(chunk, names) {
        if first_known(sorted, chunk, names) is None {
            assert(sorted[sorted.len() - 1] == x);
            assert(sorted.contains(x));
        }
        assert(sorted.contains(x));
        assert(fitting(copula_table(), chunk).contains(x));
    }
}

proof fn lemma_pairs_of_length_members(table: Seq<(Seq<char>, Ending)>, n: nat)
    ensures
        forall|x: (Seq<char>, Ending)| pairs_of_length(table, n).contains(x) ==> table.contains(x),
    decreases table.len(),
{
    if table.len() > 0 {
        lemma_pairs_of_length_members(table.drop_last(), n);
        let rest = pairs_of_length(table.drop_last(), n);
        assert forall|x: (Seq<char>, Ending)|
            pairs_of_length(table, n).contains(x) implies table.contains(x) by {
            if table.last().0.len() == n {
                let i = choose|i: int| 0 <= i < rest.push(table.last()).len() && rest.push(table.last())[i] == x;
                if i < rest.len() {
                    assert(rest[i] == x);
                    assert(rest.contains(x));
                    assert(table.drop_last().contains(x));
                    let k = choose|k: int| 0 <= k < table.drop_last().len() && table.drop_last()[k] == x;
                    assert(table[k] == x);
                } else {
                    assert(table[table.len() - 1] == x);
                }
            } else {
                assert(rest.contains(x));
                assert(table.drop_last().contains(x));
                let k = choose|k: int| 0 <= k < table.drop_last().len() && table.drop_last()[k] == x;
                assert(table[k] == x);
            }
        }
    }
}

proof fn lemma_shortest_first_members(table: Seq<(Seq<char>, Ending)>, longest: nat)
    ensures
        forall|x: (Seq<char>, Ending)| shortest_first(table, longest).contains(x) ==> table.contains(x),
    decreases longest,
{
    lemma_pairs_of_length_members(table, longest);
    if longest > 0 {
        lemma_shortest_first_members(table, (longest - 1) as nat);
        let a = shortest_first(table, (longest - 1) as nat);
        let b = pairs_of_length(table, longest);
        assert forall|x: (Seq<char>, Ending)| (a + b).contains(x) implies table.contains(x) by {
            let i = choose|i: int| 0 <= i < (a + b).len() && (a + b)[i] == x;
            if i < a.len() {
                assert(a[i] == x);
                assert(a.contains(x));
            } else {
                assert(b[i - a.len()] == x);
                assert(b.contains(x));
            }
        }
    } else {
        lemma_pairs_of_length_members(table, 0);
    }
}

/// Whether `word` is a known name: one of `names` or a built-in field.
pub fn knows(names: &Vec<String>, word: &str) -> (found: bool)
    ensures
        found == known(string_view(names@), word@),
{
    let mut at: usize = 0;
    while at < names.len()
        invariant
            at <= names@.len(),
            forall|j: int| 0 <= j < at ==> names@[j]@ != word@,
        decreases names@.len() - at,
    {
        if same_text(names[at].as_str(), word) {
            assert(string_view(names@)[at as int] == word@);
            return true;
        }
        at += 1;
    }
    assert forall|j: int| 0 <= j < string_view(names@).len() implies string_view(names@)[j]
        != word@ by {
        assert(string_view(names@)[j] == names@[j]@);
    }
    is_field(word)
}

/// Whether the characters of `form` end `chunk` with something before them.
pub(crate) fn ends_with(chunk: &Vec<char>, form: &Vec<char>) -> (found: bool)
    ensures
        found == ends_with_form(chunk@, form@),
{
    if form.len() >= chunk.len() {
        return false;
    }
    let shift = chunk.len() - form.len();
    let mut at: usize = 0;
    while at < form.len()
        invariant
            at <= form@.len(),
            shift + form.len() == chunk.len(),
            forall|j: int| 0 <= j < at ==> chunk@[shift + j] == form@[j],
        decreases form@.len() - at,
    {
        if chunk[shift + at] != form[at] {
            assert(chunk@.skip(shift as int)[at as int] != form@[at as int]);
            return false;
        }
        at += 1;
    }
    assert(chunk@.skip(shift as int) =~= form@);
    true
}

fn pairs_by_length(table: &Vec<(&'static str, Ending)>, n: usize, into: &mut Vec<(&'static str, Ending)>)
    ensures
        pair_view(final(into)@) == pair_view(old(into)@) + pairs_of_length(pair_view(table@), n as nat),
{
    let ghost start = pair_view(into@);
    let mut at: usize = 0;
    while at < table.len()
        invariant
            at <= table@.len(),
            pair_view(into@) == start + pairs_of_length(pair_view(table@).take(at as int), n as nat),
        decreases table@.len() - at,
    {
        let (form, ending) = table[at];
        let ghost before = pair_view(into@);
        assert(pair_view(table@).take(at + 1).drop_last() == pair_view(table@).take(at as int));
        if char_count(form) == n {
            into.push((form, ending));
            assert(pair_view(into@) == before.push((form@, ending)));
        } else {
            assert(pair_view(into@) == before);
        }
        at += 1;
    }
    assert(pair_view(table@).take(table@.len() as int) == pair_view(table@));
}

/// Which copula form to split off the end of `chunk` (see `spec_copula_suffix`).
/// A head counts as known when it is one of `names` or a built-in field.
pub fn copula_suffix(chunk: &str, names: &Vec<String>) -> (found: Option<(&'static str, Ending)>)
    ensures
        match found {
            Some((form, ending)) => spec_copula_suffix(chunk@, string_view(names@)) == Some(
                (form@, ending),
            ),
            None => spec_copula_suffix(chunk@, string_view(names@)) is None,
        },
{
    let letters = chars_of(chunk);
    let table = copula_forms();
    let mut fits: Vec<(&'static str, Ending)> = Vec::new();
    let mut at: usize = 0;
    while at < table.len()
        invariant
            at <= table@.len(),
            letters@ == chunk@,
            pair_view(table@) == copula_table(),
            pair_view(fits@) == fitting(copula_table().take(at as int), chunk@),
        decreases table@.len() - at,
    {
        let (form, ending) = table[at];
        assert(copula_table().take(at + 1).drop_last() == copula_table().take(at as int));
        let ghost before = pair_view(fits@);
        if ends_with(&letters, &chars_of(form)) {
            fits.push((form, ending));
            assert(pair_view(fits@) == before.push((form@, ending)));
        } else {
            assert(pair_view(fits@) == before);
        }
        at += 1;
    }
    assert(copula_table().take(table@.len() as int) == copula_table());
    let mut sorted: Vec<(&'static str, Ending)> = Vec::new();
    pairs_by_length(&fits, 0, &mut sorted);
    assert(pair_view(sorted@) == shortest_first(pair_view(fits@), 0));
    let mut n: usize = 0;
    while n < letters.len()
        invariant
            n <= letters@.len(),
            letters@ == chunk@,
            pair_view(fits@) == fitting(copula_table(), chunk@),
            pair_view(sorted@) == shortest_first(pair_view(fits@), n as nat),
        decreases letters@.len() - n,
    {
        n += 1;
        pairs_by_length(&fits, n, &mut sorted);
    }
    let ghost order = shortest_first(fitting(copula_table(), chunk@), chunk@.len());
    assert(pair_view(sorted@) == order);
    proof {
        lemma_fitting_members(copula_table(), chunk@);
        lemma_shortest_first_members(fitting(copula_table(), chunk@), chunk@.len());
        assert forall|x: (Seq<char>, Ending)| order.contains(x) implies x.0.len() < chunk@.len() by {
            assert(fitting(copula_table(), chunk@).contains(x));
        }
    }
    let mut at: usize = 0;
    assert(order.skip(0) == order);
    while at < sorted.len()
        invariant
            at <= sorted@.len(),
            letters@ == chunk@,
            pair_view(sorted@) == order,
            order == shortest_first(fitting(copula_table(), chunk@), chunk@.len()),
            forall|x: (Seq<char>, Ending)| order.contains(x) ==> x.0.len() < chunk@.len(),
            first_known(order, chunk@, string_view(names@)) == first_known(
                order.skip(at as int),
                chunk@,
                string_view(names@),
            ),
        decreases sorted@.len() - at,
    {
        let (form, ending) = sorted[at];
        let size = char_count(form);
        assert(order.skip(at as int)[0] == (form@, ending));
        assert(order.skip(at as int).drop_first() == order.skip(at + 1));
        assert(order.contains(order[at as int]));
        assert(size < letters.len());
        let head = crate::chars::string_of(letters.as_slice(), 0, letters.len() - size);
        assert(head@ == head_before(chunk@, size as nat));
        if knows(names, head.as_str()) {
            assert(order.skip(at as int).len() > 0);
            assert(first_known(order.skip(at as int), chunk@, string_view(names@)) == Some(
                (form@, ending),
            ));
            return Some((form, ending));
        }
        at += 1;
    }
    if sorted.len() > 0 {
        Some(sorted[sorted.len() - 1])
    } else {
        None
    }
}

} // verus!
verus! {

/// One conjugated surface form: the surface, the verb's dictionary name, its
/// part of speech and the ending.
pub type Form = (Seq<char>, Seq<char>, Pos, Ending);

/// The first entry for `surface`: its verb name, part of speech and ending.
pub open spec fn lookup(entries: Seq<Form>, surface: Seq<char>) -> Option<(Seq<char>, Pos, Ending)>
    decreases entries.len(),
{
    if entries.len() == 0 {
        None
    } else if entries[0].0 == surface {
        Some((entries[0].1, entries[0].2, entries[0].3))
    } else {
        lookup(entries.drop_first(), surface)
    }
}

/// Taking candidates in order, keeping each surface's first entry only.
pub open spec fn absorb(candidates: Seq<Form>) -> Seq<Form>
    decreases candidates.len(),
{
    if candidates.len() == 0 {
        seq![]
    } else {
        let kept = absorb(candidates.drop_last());
        if lookup(kept, candidates.last().0) is None {
            kept.push(candidates.last())
        } else {
            kept
        }
    }
}

proof fn lemma_lookup_push(entries: Seq<Form>, extra: Form, surface: Seq<char>)
    ensures
        lookup(entries.push(extra), surface) == if lookup(entries, surface) is Some {
            lookup(entries, surface)
        } else if extra.0 == surface {
            Some((extra.1, extra.2, extra.3))
        } else {
            None::<(Seq<char>, Pos, Ending)>
        },
    decreases entries.len(),
{
    if entries.len() > 0 {
        assert(entries.push(extra).drop_first() == entries.drop_first().push(extra));
        lemma_lookup_push(entries.drop_first(), extra, surface);
    } else {
        assert(entries.push(extra).drop_first() =~= Seq::<Form>::empty());
        assert(lookup(Seq::<Form>::empty(), surface) is None);
    }
}

/// Keeping only first entries changes no lookup: a surface finds in the kept
/// table what it finds first among the candidates.
pub proof fn law_absorb_keeps_first(candidates: Seq<Form>, surface: Seq<char>)
    ensures
        lookup(absorb(candidates), surface) == lookup(candidates, surface),
    decreases candidates.len(),
{
    if candidates.len() > 0 {
        let rest = candidates.drop_last();
        let last = candidates.last();
        law_absorb_keeps_first(rest, surface);
        law_absorb_keeps_first(rest, last.0);
        assert(rest.push(last) == candidates);
        lemma_lookup_push(rest, last, surface);
        lemma_lookup_push(absorb(rest), last, surface);
    }
}

/// Conjugated forms, by surface. The first form put for a surface stays.
pub struct FormTable {
    entries: Vec<(String, String, Pos, Ending)>,
}

pub open spec fn form_view(found: Seq<(String, String, Pos, Ending)>) -> Seq<Form> {
    Seq::new(found.len(), |i: int| (found[i].0@, found[i].1@, found[i].2, found[i].3))
}

impl View for FormTable {
    type V = Seq<Form>;

    closed spec fn view(&self) -> Seq<Form> {
        form_view(self.entries@)
    }
}

impl FormTable {
    pub fn new() -> (made: FormTable)
        ensures
            made@ == Seq::<Form>::empty(),
    {
        let made = FormTable { entries: Vec::new() };
        assert(made@ =~= Seq::<Form>::empty());
        made
    }

    /// Where `surface` first stands, if it does.
    fn position(&self, surface: &str) -> (found: Option<usize>)
        ensures
            match found {
                Some(i) => i < self@.len() && lookup(self@, surface@) == Some(
                    (self@[i as int].1, self@[i as int].2, self@[i as int].3),
                ),
                None => lookup(self@, surface@) is None,
            },
    {
        let mut at: usize = 0;
        assert(self@.skip(0) == self@);
        while at < self.entries.len()
            invariant
                at <= self@.len(),
                self@.len() == self.entries@.len(),
                lookup(self@, surface@) == lookup(self@.skip(at as int), surface@),
            decreases self@.len() - at,
        {
            assert(self@.skip(at as int)[0] == self@[at as int]);
            assert(self@.skip(at as int).drop_first() == self@.skip(at + 1));
            if same_text(self.entries[at].0.as_str(), surface) {
                return Some(at);
            }
            at += 1;
        }
        None
    }

    /// The verb name, part of speech and ending of `surface`.
    pub fn get(&self, surface: &str) -> (found: Option<(String, Pos, Ending)>)
        ensures
            match found {
                Some((name, pos, ending)) => lookup(self@, surface@) == Some((name@, pos, ending)),
                None => lookup(self@, surface@) is None,
            },
    {
        match self.position(surface) {
            Some(i) => {
                let (_, name, pos, ending) = &self.entries[i];
                Some((name.clone(), *pos, *ending))
            },
            None => None,
        }
    }

    /// Puts a form unless its surface already has one.
    pub fn put_new(&mut self, surface: String, name: String, pos: Pos, ending: Ending)
        ensures
            final(self)@ == if lookup(old(self)@, surface@) is None {
                old(self)@.push((surface@, name@, pos, ending))
            } else {
                old(self)@
            },
    {
        if self.position(surface.as_str()).is_none() {
            let ghost before = self@;
            self.entries.push((surface, name, pos, ending));
            assert(self@ =~= before.push((surface@, name@, pos, ending)));
        }
    }
}

} // verus!
verus! {

/// A built-in verb: its dictionary name, its stem, its part of speech, and
/// the surface forms that do not follow the regular conjugation.
pub struct Builtin {
    pub name: &'static str,
    stem: &'static str,
    pos: Pos,
    overrides: Vec<(Ending, &'static str)>,
}

pub type VerbEntry = (Seq<char>, Seq<char>, Pos, Seq<(Ending, Seq<char>)>);

impl View for Builtin {
    type V = VerbEntry;

    closed spec fn view(&self) -> VerbEntry {
        (
            self.name@,
            self.stem@,
            self.pos,
            Seq::new(self.overrides@.len(), |i: int| (self.overrides@[i].0, self.overrides@[i].1@)),
        )
    }
}

/// The built-in verbs.
pub open spec fn builtin_table() -> Seq<VerbEntry> {
    seq![
        ("출력하다"@, "출력하"@, Pos::Verb, seq![]),
        ("추가하다"@, "추가하"@, Pos::Verb, seq![]),
        ("제거하다"@, "제거하"@, Pos::Verb, seq![]),
        ("바꾸다"@, "바꾸"@, Pos::Verb, seq![]),
        ("더하다"@, "더하"@, Pos::Verb, seq![]),
        ("빼다"@, "빼"@, Pos::Verb, seq![]),
        ("곱하다"@, "곱하"@, Pos::Verb, seq![]),
        ("나누다"@, "나누"@, Pos::Verb, seq![]),
        ("반복하다"@, "반복하"@, Pos::Verb, seq![]),
        ("빠져나가다"@, "빠져나가"@, Pos::Verb, seq![]),
        ("하다"@, "하"@, Pos::Verb, seq![]),
        ("읽다"@, "읽"@, Pos::Verb, seq![]),
        ("쓰다"@, "쓰"@, Pos::Verb, seq![]),
        ("가져오다"@, "가져오"@, Pos::Verb, seq![]),
        ("넘어가다"@, "넘어가"@, Pos::Verb, seq![]),
        ("반환하다"@, "반환하"@, Pos::Verb, seq![]),
        ("잇다"@, "잇"@, Pos::Verb, seq![(Ending::Auxiliary, "이어"@), (Ending::AdnominalPast, "이은"@), (Ending::Conditional, "이으면"@)]),
        ("않다"@, "않"@, Pos::Descriptive, seq![(Ending::Final, "않다"@), (Ending::AdnominalPast, "않은"@), (Ending::AdnominalPres, "않는"@), (Ending::Conditional, "않으면"@), (Ending::Conjunctive, "않고"@), (Ending::Interrogative, "않은지"@), (Ending::Alternative, "않거나"@)]),
        ("아니다"@, "아니"@, Pos::Descriptive, seq![(Ending::Final, "아니다"@), (Ending::AdnominalPast, "아닌"@), (Ending::AdnominalPres, "아닌"@), (Ending::Interrogative, "아닌지"@), (Ending::Conjunctive, "아니고"@), (Ending::Conditional, "아니면"@)]),
        ("열다"@, "열"@, Pos::Verb, seq![]),
        ("닫다"@, "닫"@, Pos::Verb, seq![]),
        ("크다"@, "크"@, Pos::Descriptive, seq![]),
        ("작다"@, "작"@, Pos::Descriptive, seq![]),
        ("같다"@, "같"@, Pos::Descriptive, seq![]),
    ]
}

pub open spec fn verbs_view(found: Seq<Builtin>) -> Seq<VerbEntry> {
    Seq::new(found.len(), |i: int| found[i]@)
}

/// The built-in verbs, in table order.
pub fn builtin_verbs() -> (found: Vec<Builtin>)
    ensures
        verbs_view(found@) == builtin_table(),
{
    let found = vec![
        Builtin { name: "출력하다", stem: "출력하", pos: Pos::Verb, overrides: vec![] },
        Builtin { name: "추가하다", stem: "추가하", pos: Pos::Verb, overrides: vec![] },
        Builtin { name: "제거하다", stem: "제거하", pos: Pos::Verb, overrides: vec![] },
        Builtin { name: "바꾸다", stem: "바꾸", pos: Pos::Verb, overrides: vec![] },
        Builtin { name: "더하다", stem: "더하", pos: Pos::Verb, overrides: vec![] },
        Builtin { name: "빼다", stem: "빼", pos: Pos::Verb, overrides: vec![] },
        Builtin { name: "곱하다", stem: "곱하", pos: Pos::Verb, overrides: vec![] },
        Builtin { name: "나누다", stem: "나누", pos: Pos::Verb, overrides: vec![] },
        Builtin { name: "반복하다", stem: "반복하", pos: Pos::Verb, overrides: vec![] },
        Builtin { name: "빠져나가다", stem: "빠져나가", pos: Pos::Verb, overrides: vec![] },
        Builtin { name: "하다", stem: "하", pos: Pos::Verb, overrides: vec![] },
        Builtin { name: "읽다", stem: "읽", pos: Pos::Verb, overrides: vec![] },
        Builtin { name: "쓰다", stem: "쓰", pos: Pos::Verb, overrides: vec![] },
        Builtin { name: "가져오다", stem: "가져오", pos: Pos::Verb, overrides: vec![] },
        Builtin { name: "넘어가다", stem: "넘어가", pos: Pos::Verb, overrides: vec![] },
        Builtin { name: "반환하다", stem: "반환하", pos: Pos::Verb, overrides: vec![] },
        Builtin { name: "잇다", stem: "잇", pos: Pos::Verb, overrides: vec![(Ending::Auxiliary, "이어"), (Ending::AdnominalPast, "이은"), (Ending::Conditional, "이으면")] },
        Builtin { name: "않다", stem: "않", pos: Pos::Descriptive, overrides: vec![(Ending::Final, "않다"), (Ending::AdnominalPast, "않은"), (Ending::AdnominalPres, "않는"), (Ending::Conditional, "않으면"), (Ending::Conjunctive, "않고"), (Ending::Interrogative, "않은지"), (Ending::Alternative, "않거나")] },
        Builtin { name: "아니다", stem: "아니", pos: Pos::Descriptive, overrides: vec![(Ending::Final, "아니다"), (Ending::AdnominalPast, "아닌"), (Ending::AdnominalPres, "아닌"), (Ending::Interrogative, "아닌지"), (Ending::Conjunctive, "아니고"), (Ending::Conditional, "아니면")] },
        Builtin { name: "열다", stem: "열", pos: Pos::Verb, overrides: vec![] },
        Builtin { name: "닫다", stem: "닫", pos: Pos::Verb, overrides: vec![] },
        Builtin { name: "크다", stem: "크", pos: Pos::Descriptive, overrides: vec![] },
        Builtin { name: "작다", stem: "작", pos: Pos::Descriptive, overrides: vec![] },
        Builtin { name: "같다", stem: "같", pos: Pos::Descriptive, overrides: vec![] },
    ];
    assert(verbs_view(found@) =~~= builtin_table());
    found
}

} // verus!
verus! {

/// The override spelling of `ending`, if the verb has one.
pub open spec fn override_of(overrides: Seq<(Ending, Seq<char>)>, ending: Ending) -> Option<Seq<char>>
    decreases overrides.len(),
{
    if overrides.len() == 0 {
        None
    } else if overrides[0].0 == ending {
        Some(overrides[0].1)
    } else {
        override_of(overrides.drop_first(), ending)
    }
}

/// A built-in verb's surface form with an ending: its override, or else the
/// regular conjugation of its stem.
pub open spec fn verb_surface(verb: VerbEntry, ending: Ending) -> Option<Seq<char>> {
    match override_of(verb.3, ending) {
        Some(form) => Some(form),
        None => crate::hangul::spec_conjugate(verb.1, verb.2, ending),
    }
}

/// A built-in verb's forms with each of `endings`, in order.
pub open spec fn verb_forms(verb: VerbEntry, endings: Seq<Ending>) -> Seq<Form>
    decreases endings.len(),
{
    if endings.len() == 0 {
        seq![]
    } else {
        let rest = verb_forms(verb, endings.drop_last());
        match verb_surface(verb, endings.last()) {
            Some(surface) => rest.push((surface, verb.0, verb.2, endings.last())),
            None => rest,
        }
    }
}

/// The forms of all `verbs` with the regular endings, verb by verb.
pub open spec fn forms_of_verbs(verbs: Seq<VerbEntry>) -> Seq<Form>
    decreases verbs.len(),
{
    if verbs.len() == 0 {
        seq![]
    } else {
        forms_of_verbs(verbs.drop_last()) + verb_forms(verbs.last(), crate::hangul::regular_endings())
    }
}

impl Builtin {
    /// The override spelling of `ending`, if this verb has one.
    fn override_for(&self, ending: Ending) -> (found: Option<&'static str>)
        ensures
            match found {
                Some(form) => override_of(self@.3, ending) == Some(form@),
                None => override_of(self@.3, ending) is None,
            },
    {
        let mut at: usize = 0;
        assert(self@.3.skip(0) == self@.3);
        while at < self.overrides.len()
            invariant
                at <= self.overrides@.len(),
                self@.3.len() == self.overrides@.len(),
                override_of(self@.3, ending) == override_of(self@.3.skip(at as int), ending),
            decreases self.overrides@.len() - at,
        {
            let (which, form) = self.overrides[at];
            assert(self@.3.skip(at as int)[0] == (which, form@));
            assert(self@.3.skip(at as int).drop_first() == self@.3.skip(at + 1));
            if which == ending {
                return Some(form);
            }
            at += 1;
        }
        None
    }

    /// This verb's surface form with `ending`.
    fn surface(&self, ending: Ending) -> (found: Option<String>)
        ensures
            crate::chars::view_opt(found) == verb_surface(self@, ending),
    {
        match self.override_for(ending) {
            Some(form) => Some(owned(form)),
            None => conjugate(self.stem, self.pos, ending),
        }
    }
}

/// The conjugated forms of the built-in verbs; a surface that two verbs
/// share belongs to the first.
pub fn builtin_forms() -> (table: FormTable)
    ensures
        table@ == absorb(forms_of_verbs(builtin_table())),
{
    let verbs = builtin_verbs();
    let endings = regular_ending_list();
    let mut table = FormTable::new();
    let mut i: usize = 0;
    while i < verbs.len()
        invariant
            i <= verbs@.len(),
            verbs_view(verbs@) == builtin_table(),
            endings@ == crate::hangul::regular_endings(),
            table@ == absorb(forms_of_verbs(builtin_table().take(i as int))),
        decreases verbs@.len() - i,
    {
        let verb = &verbs[i];
        let ghost entry = builtin_table()[i as int];
        assert(verb@ == entry);
        let ghost done = forms_of_verbs(builtin_table().take(i as int));
        let mut k: usize = 0;
        assert(verb_forms(entry, endings@.take(0)) == Seq::<Form>::empty());
        assert(done + Seq::<Form>::empty() == done);
        while k < endings.len()
            invariant
                k <= endings@.len(),
                endings@ == crate::hangul::regular_endings(),
                verb@ == entry,
                table@ == absorb(done + verb_forms(entry, endings@.take(k as int))),
            decreases endings@.len() - k,
        {
            let ending = endings[k];
            let ghost before = verb_forms(entry, endings@.take(k as int));
            assert(endings@.take(k + 1).drop_last() == endings@.take(k as int));
            assert(endings@.take(k + 1).last() == ending);
            match verb.surface(ending) {
                Some(surface) => {
                    let ghost added = (surface@, entry.0, entry.2, ending);
                    assert(verb_forms(entry, endings@.take(k + 1)) == before.push(added));
                    assert(done + before.push(added) == (done + before).push(added));
                    assert(verb.name@ == entry.0 && verb.pos == entry.2);
                    let ghost joined = (done + before).push(added);
                    assert(joined.drop_last() == done + before);
                    assert(joined.last() == added);
                    assert(absorb(joined) == if lookup(absorb(done + before), added.0) is None {
                        absorb(done + before).push(added)
                    } else {
                        absorb(done + before)
                    });
                    table.put_new(surface, owned(verb.name), verb.pos, ending);
                    assert(table@ == absorb(joined));
                },
                None => {
                    assert(verb_forms(entry, endings@.take(k + 1)) == before);
                },
            }
            k += 1;
        }
        assert(endings@.take(endings@.len() as int) == endings@);
        assert(builtin_table().take(i + 1).drop_last() == builtin_table().take(i as int));
        i += 1;
    }
    assert(builtin_table().take(verbs@.len() as int) == builtin_table());
    table
}

} // verus!
verus! {

/// A declared stem's forms with each of `endings`: the regular form, then
/// the ㅅ/ㄷ/ㅂ-irregular one where there is such.
pub open spec fn stem_forms_with(stem: Seq<char>, endings: Seq<Ending>) -> Seq<Form>
    decreases endings.len(),
{
    if endings.len() == 0 {
        seq![]
    } else {
        let rest = stem_forms_with(stem, endings.drop_last());
        let ending = endings.last();
        let name = stem + "다"@;
        let regular = match crate::hangul::spec_conjugate(stem, Pos::Verb, ending) {
            Some(surface) => rest.push((surface, name, Pos::Verb, ending)),
            None => rest,
        };
        match crate::hangul::spec_irregular(stem, ending) {
            Some(surface) => regular.push((surface, name, Pos::Verb, ending)),
            None => regular,
        }
    }
}

/// The forms of all `stems` with the regular endings, stem by stem.
pub open spec fn forms_of_stems(stems: Seq<Seq<char>>) -> Seq<Form>
    decreases stems.len(),
{
    if stems.len() == 0 {
        seq![]
    } else {
        forms_of_stems(stems.drop_last()) + stem_forms_with(
            stems.last(),
            crate::hangul::regular_endings(),
        )
    }
}

proof fn lemma_absorb_push(done: Seq<Form>, added: Form)
    ensures
        absorb(done.push(added)) == if lookup(absorb(done), added.0) is None {
            absorb(done).push(added)
        } else {
            absorb(done)
        },
{
    assert(done.push(added).drop_last() == done);
}

/// The forms of the verbs a program declares, from their stems, taken in
/// the text order of the stems so that the table does not depend on the
/// order the stems were found in.
pub fn stem_forms(stems: &Vec<String>) -> (table: FormTable)
    ensures
        table@ == absorb(
            forms_of_stems(crate::order::sorted_texts(string_view(stems@))),
        ),
{
    let sorted = crate::order::sort_texts(stems);
    let ghost order = string_view(sorted@);
    let endings = regular_ending_list();
    let mut table = FormTable::new();
    let mut i: usize = 0;
    while i < sorted.len()
        invariant
            i <= sorted@.len(),
            order == string_view(sorted@),
            endings@ == crate::hangul::regular_endings(),
            table@ == absorb(forms_of_stems(order.take(i as int))),
        decreases sorted@.len() - i,
    {
        let stem = sorted[i].as_str();
        let ghost done = forms_of_stems(order.take(i as int));
        assert(stem@ == order[i as int]);
        let mut name = owned(stem);
        push_str(&mut name, "다");
        let mut k: usize = 0;
        assert(stem_forms_with(stem@, endings@.take(0)) == Seq::<Form>::empty());
        assert(done + Seq::<Form>::empty() == done);
        while k < endings.len()
            invariant
                k <= endings@.len(),
                endings@ == crate::hangul::regular_endings(),
                name@ == stem@ + "다"@,
                table@ == absorb(done + stem_forms_with(stem@, endings@.take(k as int))),
            decreases endings@.len() - k,
        {
            let ending = endings[k];
            let ghost before = stem_forms_with(stem@, endings@.take(k as int));
            assert(endings@.take(k + 1).drop_last() == endings@.take(k as int));
            assert(endings@.take(k + 1).last() == ending);
            let ghost middle = before;
            match conjugate(stem, Pos::Verb, ending) {
                Some(surface) => {
                    let ghost added = (surface@, name@, Pos::Verb, ending);
                    proof {
                        lemma_absorb_push(done + before, added);
                        assert((done + before).push(added) == done + before.push(added));
                    }
                    table.put_new(surface, name.clone(), Pos::Verb, ending);
                    proof {
                        middle = before.push(added);
                    }
                },
                None => {},
            }
            assert(table@ == absorb(done + middle));
            match irregular(stem, ending) {
                Some(surface) => {
                    let ghost added = (surface@, name@, Pos::Verb, ending);
                    proof {
                        lemma_absorb_push(done + middle, added);
                        assert((done + middle).push(added) == done + middle.push(added));
                    }
                    table.put_new(surface, name.clone(), Pos::Verb, ending);
                    assert(stem_forms_with(stem@, endings@.take(k + 1)) == middle.push(added));
                },
                None => {
                    assert(stem_forms_with(stem@, endings@.take(k + 1)) == middle);
                },
            }
            k += 1;
        }
        assert(endings@.take(endings@.len() as int) == endings@);
        assert(order.take(i + 1).drop_last() == order.take(i as int));
        i += 1;
    }
    assert(order.take(sorted@.len() as int) == order);
    table
}

} // verus!
