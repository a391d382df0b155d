//! The parser's cursor over a token stream and its recovery after an
//! error, how messages describe tokens and endings, which tokens start a
//! value, stepping through the ways to read a line, reading a verb and
//! reducing it with the slots before it, the shapes of statement lines and
//! of definition heads, and the rewriting of comparison words and of copula
//! sentences with two subjects.

use vstd::prelude::*;

use crate::diag::{Diag, Span};
use crate::ast::{CallExpr, Expr, PassiveExpr, Slot};
use crate::chars::{owned, same_text};
use crate::hangul::{Ending, Pos};
use crate::sig::{markers_view, Marker, MarkerModel};
use crate::words::{comparative_table, comparative_view, comparatives};
use crate::chars::push_str;
use crate::lex::{Num, NumModel, Part, Tok, TokModel, Token};

verus! {

/// How messages name an ending.
pub open spec fn ending_text(ending: Ending) -> Seq<char> {
    match ending {
        Ending::Final => "-ㄴ다"@,
        Ending::AdnominalPast => "-ㄴ"@,
        Ending::AdnominalPres => "-는"@,
        Ending::Conditional => "-면"@,
        Ending::Conjunctive => "-고"@,
        Ending::Alternative => "-거나"@,
        Ending::Interrogative => "-ㄴ지"@,
        Ending::Auxiliary => crate::msg::END_AUXILIARY@,
        Ending::Negative => "-지"@,
        Ending::Quotative => "-라는"@,
    }
}

pub fn ending_label(ending: Ending) -> (found: &'static str)
    ensures
        found@ == ending_text(ending),
{
    match ending {
        Ending::Final => "-ㄴ다",
        Ending::AdnominalPast => "-ㄴ",
        Ending::AdnominalPres => "-는",
        Ending::Conditional => "-면",
        Ending::Conjunctive => "-고",
        Ending::Alternative => "-거나",
        Ending::Interrogative => "-ㄴ지",
        Ending::Auxiliary => crate::msg::END_AUXILIARY,
        Ending::Negative => "-지",
        Ending::Quotative => "-라는",
    }
}

/// The error for a definition whose head is not a verb in dictionary
/// form, with the form to follow as a hint.
pub fn not_dictionary_form(span: Span) -> (diag: Diag)
    ensures
        diag.kind == crate::msg::SYNTAX,
        diag.msg@ == crate::msg::HEAD_NOT_DICT@,
        diag.hint matches Some(hint) && hint@ == crate::msg::HEAD_NOT_DICT_HELP@,
        diag.span == span,
        diag.unit is None,
{
    Diag::syntax(crate::chars::owned(crate::msg::HEAD_NOT_DICT), span).with_hint(
        crate::chars::owned(crate::msg::HEAD_NOT_DICT_HELP),
    )
}

/// A token that can start a value: a number, a string, a name, one of the
/// value keywords, or an opening bracket.
pub open spec fn spec_starts_value(tok: crate::lex::TokModel) -> bool {
    match tok {
        crate::lex::TokModel::Number(_) => true,
        crate::lex::TokModel::Str(_) => true,
        crate::lex::TokModel::Template(_) => true,
        crate::lex::TokModel::Name(_) => true,
        crate::lex::TokModel::Keyword(word) => word == "참"@ || word == "거짓"@ || word == "없음"@
            || word == "목록"@ || word == "사전"@,
        crate::lex::TokModel::Symbol(ch) => ch == '[' || ch == '{',
        _ => false,
    }
}

pub fn starts_value(tok: &Tok) -> (found: bool)
    ensures
        found == spec_starts_value(tok@),
{
    match tok {
        Tok::Number(_) | Tok::Str(_) | Tok::Template(_) | Tok::Name(_) => true,
        Tok::Keyword(word) => {
            let w = word.as_str();
            crate::chars::same_text(w, "참") || crate::chars::same_text(w, "거짓") || crate::chars::same_text(
                w,
                "없음",
            ) || crate::chars::same_text(w, "목록") || crate::chars::same_text(w, "사전")
        },
        Tok::Symbol(ch) => *ch == '[' || *ch == '{',
        _ => false,
    }
}

/// `plan` made `n` long: cut, or padded with zeros.
pub open spec fn resized(plan: Seq<usize>, n: nat) -> Seq<usize> {
    if n <= plan.len() {
        plan.take(n as int)
    } else {
        plan + Seq::new((n - plan.len()) as nat, |i: int| 0usize)
    }
}

/// The last place below `k` whose choice can still move on.
pub open spec fn last_room(plan: Seq<usize>, counts: Seq<usize>, k: int) -> Option<int>
    decreases k,
{
    if k <= 0 {
        None
    } else if plan[k - 1] + 1 < counts[k - 1] {
        Some(k - 1)
    } else {
        last_room(plan, counts, k - 1)
    }
}

/// The next plan, counting like an odometer: the last choice that can move
/// on moves on, and the choices after it start over.
pub open spec fn bumped(plan: Seq<usize>, counts: Seq<usize>) -> Option<Seq<usize>> {
    let sized = resized(plan, counts.len());
    match last_room(sized, counts, counts.len() as int) {
        Some(at) => Some(
            Seq::new(counts.len(), |i: int| if i < at { sized[i] } else if i == at { (sized[i] + 1) as usize } else { 0usize }),
        ),
        None => None,
    }
}

/// Moves `plan` on to the next way to read a line, where place `i` has
/// `counts[i]` choices; `false` when all have been tried.
pub fn bump(plan: &mut Vec<usize>, counts: &[usize]) -> (moved: bool)
    ensures
        match bumped(old(plan)@, counts@) {
            Some(next) => moved && final(plan)@ == next,
            None => !moved && final(plan)@ == resized(old(plan)@, counts@.len()),
        },
{
    let n = counts.len();
    let ghost start = plan@;
    if plan.len() >= n {
        plan.truncate(n);
    } else {
        while plan.len() < n
            invariant
                start.len() <= plan@.len() <= n,
                plan@ == start + Seq::new((plan@.len() - start.len()) as nat, |i: int| 0usize),
            decreases n - plan@.len(),
        {
            let ghost before = plan@;
            plan.push(0);
            assert(plan@ =~= start + Seq::new((plan@.len() - start.len()) as nat, |i: int| 0usize));
        }
    }
    let ghost sized = plan@;
    assert(sized =~= resized(start, n as nat));
    let mut at = n;
    while at > 0
        invariant
            at <= n,
            n == counts@.len(),
            plan@ == sized,
            sized.len() == n,
            sized == resized(start, n as nat),
            start == old(plan)@,
            last_room(sized, counts@, n as int) == last_room(sized, counts@, at as int),
        decreases at,
    {
        let i = at - 1;
        if plan[i] < counts[i] && plan[i] + 1 < counts[i] {
            assert(last_room(sized, counts@, at as int) == Some(i as int));
            plan.set(i, plan[i] + 1);
            let mut j = i + 1;
            while j < n
                invariant
                    i < j <= n,
                    n == counts@.len(),
                    plan@.len() == n,
                    forall|k: int| 0 <= k < i ==> plan@[k] == sized[k],
                    plan@[i as int] == sized[i as int] + 1,
                    forall|k: int| i < k < j ==> plan@[k] == 0,
                decreases n - j,
            {
                plan.set(j, 0);
                j += 1;
            }
            proof {
                let next = Seq::new(counts@.len(), |k: int| if k < i { sized[k] } else if k == i { (sized[k] + 1) as usize } else { 0usize });
                assert(plan@ =~= next);
                assert(resized(start, counts@.len()) == sized);
                assert(last_room(sized, counts@, counts@.len() as int) == Some(i as int));
                assert(bumped(start, counts@) == Some(next));
            }
            return true;
        }
        at -= 1;
    }
    false
}

} // verus!
verus! {

/// A verb as the parser takes it: its dictionary form, part of speech,
/// ending, whether it is negated, and where it stands.
pub struct VerbInfo {
    pub name: String,
    pub pos: Pos,
    pub ending: Ending,
    pub negated: bool,
    pub span: Span,
}

/// A slot marked as the subject (`가`).
pub open spec fn subject_slot(slot: Slot) -> bool {
    slot.marker@ == MarkerModel::Case("가"@)
}

/// How many of `slots` are subjects.
pub open spec fn subjects(slots: Seq<Slot>) -> nat
    decreases slots.len(),
{
    if slots.len() == 0 {
        0
    } else {
        subjects(slots.drop_last()) + if subject_slot(slots.last()) { 1nat } else { 0nat }
    }
}

/// Where the last subject of `slots` stands.
pub open spec fn last_subject(slots: Seq<Slot>) -> int
    decreases slots.len(),
{
    if slots.len() == 0 {
        -1
    } else if subject_slot(slots.last()) {
        slots.len() - 1
    } else {
        last_subject(slots.drop_last())
    }
}

proof fn lemma_subjects_step(slots: Seq<Slot>, k: int)
    requires
        0 <= k < slots.len(),
    ensures
        subjects(slots.take(k + 1)) == subjects(slots.take(k)) + if subject_slot(slots[k]) { 1nat } else { 0nat },
        last_subject(slots.take(k + 1)) == if subject_slot(slots[k]) { k } else { last_subject(slots.take(k)) },
{
    assert(slots.take(k + 1).drop_last() =~= slots.take(k));
}

proof fn lemma_last_subject(slots: Seq<Slot>)
    ensures
        subjects(slots) > 0 ==> 0 <= last_subject(slots) < slots.len() && subject_slot(slots[last_subject(slots)]),
    decreases slots.len(),
{
    if slots.len() > 0 {
        lemma_last_subject(slots.drop_last());
    }
}

/// `A가 B가 이다`: with two subjects or more before the copula, the last
/// one is the complement, and loses its marker.
pub fn copula_slots(slots: Vec<Slot>) -> (found: Vec<Slot>)
    ensures
        subjects(slots@) >= 2 ==> {
            let at = last_subject(slots@);
            &&& found@.len() == slots@.len()
            &&& forall|i: int| 0 <= i < slots@.len() && i != at ==> found@[i] == slots@[i]
            &&& found@[at].marker@ == MarkerModel::Bare
            &&& found@[at].expr == slots@[at].expr
        },
        subjects(slots@) < 2 ==> found@ == slots@,
        found@ == copula_marked(slots@),
{
    let ghost given = slots@;
    let mut slots = slots;
    let mut count: usize = 0;
    let mut last: usize = 0;
    let mut at: usize = 0;
    assert(slots@.take(0) =~= Seq::<Slot>::empty());
    while at < slots.len()
        invariant
            at <= slots@.len(),
            count == subjects(slots@.take(at as int)),
            count <= at,
            count > 0 ==> last as int == last_subject(slots@.take(at as int)),
        decreases slots@.len() - at,
    {
        proof {
            lemma_subjects_step(slots@, at as int);
            lemma_last_subject(slots@.take(at as int));
        }
        let subject = match slots[at].marker {
            Marker::Case(particle) => same_text(particle, "가"),
            _ => false,
        };
        if subject {
            count += 1;
            last = at;
        }
        at += 1;
    }
    assert(slots@.take(slots@.len() as int) =~= slots@);
    proof {
        lemma_last_subject(slots@);
    }
    if count >= 2 {
        let ghost before = slots@;
        let mut slot = slots.remove(last);
        slot.marker = Marker::Bare;
        slots.insert(last, slot);
        assert forall|i: int| 0 <= i < before.len() && i != last implies slots@[i] == before[i] by {
            if i < last {
                assert(slots@[i] == before.remove(last as int)[i]);
            } else {
                assert(slots@[i] == before.remove(last as int)[i - 1]);
            }
        }
    }
    proof {
        lemma_copula_marked(given, slots@);
    }
    slots
}

/// The comparison word the last slot names, read against the slot before
/// it (`A가 B 이상이다`): the verb it stands for and whether equality
/// counts; none when the last two slots are not of that shape.
pub open spec fn comparison_of(slots: Seq<Slot>) -> Option<(Seq<char>, bool)> {
    if slots.len() < 2 {
        None
    } else {
        let last = slots[slots.len() - 1];
        let before = slots[slots.len() - 2];
        if (last.marker@ == MarkerModel::Bare || last.marker@ == MarkerModel::Case("가"@))
            && before.marker@ == MarkerModel::Bare && last.expr is Name {
            let at = comparative_from(last.expr->Name_name@, 0);
            if at < comparative_table().len() {
                Some((comparative_table()[at].1, comparative_table()[at].2))
            } else {
                None
            }
        } else {
            None
        }
    }
}

/// Where the first comparison word at or after `k` that is `word` stands
/// in the table (its length when none is).
pub open spec fn comparative_from(word: Seq<char>, k: int) -> int
    decreases comparative_table().len() - k,
{
    if k < 0 || k >= comparative_table().len() {
        comparative_table().len() as int
    } else if comparative_table()[k].0 == word {
        k
    } else {
        comparative_from(word, k + 1)
    }
}

proof fn lemma_comparative_from(word: Seq<char>, k: int)
    requires
        0 <= k <= comparative_table().len(),
        forall|j: int| 0 <= j < k ==> comparative_table()[j].0 != word,
    ensures
        comparative_from(word, 0) == comparative_from(word, k),
    decreases k,
{
    if k > 0 {
        lemma_comparative_from(word, k - 1);
    }
}

/// `A가 B 이상이다` reads as `A가 B보다 작지 않다`: the comparison word
/// becomes the verb, its operand takes `보다`, and the negation flips
/// where equality counts.
pub fn fold_comparison(slots: Vec<Slot>, info: VerbInfo) -> (found: (Vec<Slot>, VerbInfo))
    ensures
        match (info.name@ == "이다"@, comparison_of(slots@)) {
            (true, Some((verb, equal))) => {
                let n = slots@.len();
                &&& found.0@.len() == n - 1
                &&& found.0@.take(n - 2) == slots@.take(n - 2)
                &&& found.0@[n - 2].marker@ == MarkerModel::Case("보다"@)
                &&& found.0@[n - 2].expr == slots@[n - 2].expr
                &&& found.0@ == folded_slots(slots@)
                &&& found.1.name@ == verb
                &&& found.1.negated == (equal != info.negated)
                &&& found.1.pos == info.pos
                &&& found.1.ending == info.ending
                &&& found.1.span == info.span
            },
            _ => found == (slots, info),
        },
{
    if !same_text(info.name.as_str(), "이다") || slots.len() < 2 {
        return (slots, info);
    }
    let n = slots.len();
    let last_bare = match slots[n - 1].marker {
        Marker::Bare => true,
        Marker::Case(particle) => same_text(particle, "가"),
        Marker::Module => false,
    };
    let before_bare = match slots[n - 2].marker {
        Marker::Bare => true,
        _ => false,
    };
    if !last_bare || !before_bare {
        return (slots, info);
    }
    let word = match &slots[n - 1].expr {
        Expr::Name { name, .. } => owned(name.as_str()),
        _ => {
            return (slots, info);
        },
    };
    let table = comparatives();
    let mut at: usize = 0;
    let mut hit = false;
    while at < table.len() && !hit
        invariant
            at <= table@.len(),
            comparative_view(table@) == comparative_table(),
            forall|j: int| 0 <= j < at ==> comparative_table()[j].0 != word@,
            hit ==> at < table@.len() && comparative_table()[at as int].0 == word@,
        decreases table@.len() - at + if hit { 0int } else { 1int },
    {
        if same_text(table[at].0, word.as_str()) {
            hit = true;
        } else {
            at += 1;
        }
    }
    if !hit {
        proof {
            lemma_comparative_from(word@, at as int);
        }
        return (slots, info);
    }
    proof {
        lemma_comparative_from(word@, at as int);
    }
    let (_, verb, equal) = table[at];
    let mut slots = slots;
    let ghost held = slots@;
    slots.pop();
    let operand = slots.pop();
    let operand = match operand {
        Some(slot) => slot.expr,
        None => {
            return (slots, info);
        },
    };
    slots.push(Slot { marker: Marker::Case("보다"), expr: operand });
    assert(slots@.take(n - 2) =~= held.take(n - 2));
    assert(slots@ =~= folded_slots(held));
    let folded = VerbInfo { name: owned(verb), pos: info.pos, ending: info.ending, negated: equal != info.negated, span: info.span };
    assert(comparative_view(table@)[at as int] == comparative_table()[at as int]);
    assert(comparative_table()[at as int].1 == verb@ && comparative_table()[at as int].2 == equal);
    (slots, folded)
}

} // verus!
verus! {

/// How messages describe a token. A real number is shown as its numeral.
pub open spec fn described(tok: TokModel) -> Seq<char> {
    match tok {
        TokModel::Name(name) => crate::msg::TOK_NAME@ + " '"@ + name + "'"@,
        TokModel::Verb(name, _, _) => crate::msg::TOK_VERB@ + " '"@ + name + "'"@,
        TokModel::Copula(_) => crate::msg::TOK_COPULA@,
        TokModel::Particle(_, canon) => crate::msg::TOK_PARTICLE@ + " '"@ + canon + "'"@,
        TokModel::Keyword(word) => crate::msg::TOK_KEYWORD@ + " '"@ + word + "'"@,
        TokModel::Number(NumModel::Int(value)) => crate::msg::TOK_NUMBER@ + " '"@ + crate::chars::signed_decimal(value) + "'"@,
        TokModel::Number(NumModel::Float(text)) => crate::msg::TOK_NUMBER@ + " '"@ + text + "'"@,
        TokModel::Str(_) => crate::msg::TOK_STRING@,
        TokModel::Template(_) => crate::msg::TOK_STRING@,
        TokModel::Symbol(ch) => crate::msg::TOK_SYMBOL@ + " '"@ + seq![ch] + "'"@,
        TokModel::Indent(_) => crate::msg::TOK_INDENT@,
        TokModel::Dedent(_) => crate::msg::TOK_DEDENT@,
        TokModel::Newline => crate::msg::TOK_NEWLINE@,
        TokModel::Eof => crate::msg::TOK_EOF@,
    }
}

fn quoted(kind: &str, text: &str) -> (out: String)
    ensures
        out@ == kind@ + " '"@ + text@ + "'"@,
{
    let mut out = owned(kind);
    push_str(&mut out, " '");
    push_str(&mut out, text);
    push_str(&mut out, "'");
    out
}

pub fn describe(tok: &Tok) -> (out: String)
    ensures
        out@ == described(tok@),
{
    match tok {
        Tok::Name(name) => quoted(crate::msg::TOK_NAME, name.as_str()),
        Tok::Verb { name, .. } => quoted(crate::msg::TOK_VERB, name.as_str()),
        Tok::Copula { .. } => owned(crate::msg::TOK_COPULA),
        Tok::Particle { canon, .. } => quoted(crate::msg::TOK_PARTICLE, canon),
        Tok::Keyword(word) => quoted(crate::msg::TOK_KEYWORD, word.as_str()),
        Tok::Number(Num::Int(value)) => {
            let mut out = owned(crate::msg::TOK_NUMBER);
            push_str(&mut out, " '");
            crate::chars::push_signed(&mut out, *value);
            push_str(&mut out, "'");
            out
        },
        Tok::Number(Num::Float(text)) => quoted(crate::msg::TOK_NUMBER, text.as_str()),
        Tok::Str(_) | Tok::Template(_) => owned(crate::msg::TOK_STRING),
        Tok::Symbol(ch) => {
            let mut out = owned(crate::msg::TOK_SYMBOL);
            push_str(&mut out, " '");
            crate::chars::push_char(&mut out, *ch);
            push_str(&mut out, "'");
            out
        },
        Tok::Indent(_) => owned(crate::msg::TOK_INDENT),
        Tok::Dedent(_) => owned(crate::msg::TOK_DEDENT),
        Tok::Newline => owned(crate::msg::TOK_NEWLINE),
        Tok::Eof => owned(crate::msg::TOK_EOF),
    }
}

fn same_part(left: &Part, right: &Part) -> (same: bool)
    ensures
        same == (left@ == right@),
{
    match (left, right) {
        (Part::Text(a), Part::Text(b)) => same_text(a.as_str(), b.as_str()),
        (Part::Expr { source: a, span: x }, Part::Expr { source: b, span: y }) => same_text(a.as_str(), b.as_str()) && *x == *y,
        _ => false,
    }
}

fn same_parts(left: &Vec<Part>, right: &Vec<Part>) -> (same: bool)
    ensures
        same == (crate::lex::parts_view(left@) == crate::lex::parts_view(right@)),
{
    if left.len() != right.len() {
        assert(crate::lex::parts_view(left@).len() != crate::lex::parts_view(right@).len());
        return false;
    }
    let mut at: usize = 0;
    while at < left.len()
        invariant
            at <= left@.len(),
            left@.len() == right@.len(),
            forall|j: int| 0 <= j < at ==> left@[j]@ == right@[j]@,
        decreases left@.len() - at,
    {
        if !same_part(&left[at], &right[at]) {
            assert(crate::lex::parts_view(left@)[at as int] != crate::lex::parts_view(right@)[at as int]);
            return false;
        }
        at += 1;
    }
    assert(crate::lex::parts_view(left@) =~= crate::lex::parts_view(right@));
    true
}

/// Whether two tokens are the same token.
pub fn same_tok(left: &Tok, right: &Tok) -> (same: bool)
    ensures
        same == (left@ == right@),
{
    match (left, right) {
        (Tok::Name(a), Tok::Name(b)) => same_text(a.as_str(), b.as_str()),
        (Tok::Verb { name: a, pos: p, ending: e }, Tok::Verb { name: b, pos: q, ending: f }) =>
            same_text(a.as_str(), b.as_str()) && *p == *q && *e == *f,
        (Tok::Copula { ending: e }, Tok::Copula { ending: f }) => *e == *f,
        (Tok::Particle { role: r, canon: c }, Tok::Particle { role: s, canon: d }) => same_text(r, s) && same_text(c, d),
        (Tok::Keyword(a), Tok::Keyword(b)) => same_text(a.as_str(), b.as_str()),
        (Tok::Number(Num::Int(a)), Tok::Number(Num::Int(b))) => *a == *b,
        (Tok::Number(Num::Float(a)), Tok::Number(Num::Float(b))) => same_text(a.as_str(), b.as_str()),
        (Tok::Str(a), Tok::Str(b)) => same_text(a.as_str(), b.as_str()),
        (Tok::Template(a), Tok::Template(b)) => same_parts(a, b),
        (Tok::Symbol(a), Tok::Symbol(b)) => *a == *b,
        (Tok::Indent(a), Tok::Indent(b)) => *a == *b,
        (Tok::Dedent(a), Tok::Dedent(b)) => *a == *b,
        (Tok::Newline, Tok::Newline) => true,
        (Tok::Eof, Tok::Eof) => true,
        _ => false,
    }
}

} // verus!
verus! {

/// At most this many errors are kept from one parse.
pub const MAX_ERRORS: usize = 20;

/// A parser's place in a token stream, what it knows of the program, and
/// the errors it has noted. `plan` and `picks` steer the rereading of a
/// sentence whose verbs can take their arguments in more than one way.
pub struct Parser<'a> {
    pub tokens: &'a Vec<Token>,
    pub at: usize,
    pub program: &'a crate::prescan::Program,
    pub base_dir: Option<&'a str>,
    pub errors: Vec<Diag>,
    pub inside: bool,
    pub plan: Vec<usize>,
    pub picks: Vec<usize>,
    pub stuck: bool,
    /// How many levels of template expressions may still nest inside the
    /// text being read.
    pub room: usize,
}

/// Where a look `offset` tokens ahead of `at` lands: past the end, on the
/// last token.
pub open spec fn ahead_index(at: int, offset: int, len: int) -> int {
    if at + offset < len - 1 { at + offset } else { len - 1 }
}

impl<'a> Parser<'a> {
    /// A token stream that ends with its end-of-file token.
    pub open spec fn wf(&self) -> bool {
        &&& self.tokens@.len() > 0
        &&& self.tokens@.last().tok@ == TokModel::Eof
    }

    pub open spec fn token_at(&self, offset: int) -> Token {
        self.tokens@[ahead_index(self.at as int, offset, self.tokens@.len() as int)]
    }

    /// Only the place moved.
    pub open spec fn moved_to(&self, before: Parser<'a>, at: int) -> bool {
        &&& self.at == at
        &&& self.tokens == before.tokens
        &&& self.program == before.program
        &&& self.base_dir == before.base_dir
        &&& self.errors == before.errors
        &&& self.inside == before.inside
        &&& self.plan == before.plan
        &&& self.picks == before.picks
        &&& self.stuck == before.stuck
        &&& self.room == before.room
    }

    pub fn ahead(&self, offset: usize) -> (found: &'a Token)
        requires
            self.wf(),
        ensures
            *found == self.token_at(offset as int),
    {
        let last = self.tokens.len() - 1;
        let index = if self.at < last && offset < last - self.at { self.at + offset } else { last };
        &self.tokens[index]
    }

    pub fn peek(&self) -> (found: &'a Tok)
        requires
            self.wf(),
        ensures
            *found == self.token_at(0).tok,
    {
        &self.ahead(0).tok
    }

    pub fn span(&self) -> (found: Span)
        requires
            self.wf(),
        ensures
            found == self.token_at(0).span,
    {
        self.ahead(0).span
    }

    pub fn advance(&mut self) -> (found: &'a Token)
        requires
            old(self).wf(),
            old(self).at < usize::MAX,
        ensures
            *found == old(self).token_at(0),
            final(self).moved_to(*old(self), old(self).at + 1),
    {
        let token = self.ahead(0);
        self.at += 1;
        token
    }

    pub fn at_symbol(&self, offset: usize, ch: char) -> (found: bool)
        requires
            self.wf(),
        ensures
            found == (self.token_at(offset as int).tok@ == TokModel::Symbol(ch)),
    {
        match self.ahead(offset).tok {
            Tok::Symbol(found) => found == ch,
            _ => false,
        }
    }

    /// Takes the next token if it is `wanted`.
    pub fn accept(&mut self, wanted: &Tok) -> (taken: bool)
        requires
            old(self).wf(),
            old(self).at < usize::MAX,
        ensures
            taken == (old(self).token_at(0).tok@ == wanted@),
            final(self).moved_to(*old(self), if taken { old(self).at + 1 } else { old(self).at as int }),
    {
        if same_tok(self.peek(), wanted) {
            self.at += 1;
            return true;
        }
        false
    }

    /// Takes the next token, which must be `wanted`; else the error names
    /// `what` was wanted, and what came, or that the line ended.
    pub fn expect(&mut self, wanted: &Tok, what: &str) -> (found: Result<&'a Token, Diag>)
        requires
            old(self).wf(),
            old(self).at < usize::MAX,
        ensures
            match found {
                Ok(token) => {
                    &&& old(self).token_at(0).tok@ == wanted@
                    &&& *token == old(self).token_at(0)
                    &&& final(self).moved_to(*old(self), old(self).at + 1)
                },
                Err(error) => {
                    let token = old(self).token_at(0);
                    &&& token.tok@ != wanted@
                    &&& final(self).moved_to(*old(self), old(self).at as int)
                    &&& error.kind == crate::msg::SYNTAX
                    &&& error.span == token.span
                    &&& error.hint is None
                    &&& error.msg@ == if token.tok@ == TokModel::Newline || token.tok@ == TokModel::Eof {
                        "줄바꿈시 누락됨: "@ + what@
                    } else {
                        what@ + " 기대하였으나: "@ + described(token.tok@)
                    }
                },
            },
    {
        if same_tok(self.peek(), wanted) {
            return Ok(self.advance());
        }
        let token = self.ahead(0);
        match token.tok {
            Tok::Newline | Tok::Eof => Err(Diag::syntax(crate::msg::line_ended(what), token.span)),
            _ => Err(Diag::syntax(crate::msg::not_wanted(what, describe(&token.tok).as_str()), token.span)),
        }
    }

    /// Takes a name.
    pub fn expect_name(&mut self) -> (found: Result<(String, Span), Diag>)
        requires
            old(self).wf(),
            old(self).at < usize::MAX,
        ensures
            match found {
                Ok((name, span)) => {
                    &&& old(self).token_at(0).tok@ == TokModel::Name(name@)
                    &&& span == old(self).token_at(0).span
                    &&& final(self).moved_to(*old(self), old(self).at + 1)
                },
                Err(error) => {
                    let token = old(self).token_at(0);
                    &&& !(token.tok@ is Name)
                    &&& final(self).moved_to(*old(self), old(self).at as int)
                    &&& error.kind == crate::msg::SYNTAX
                    &&& error.span == token.span
                    &&& error.msg@ == "유효하지 않은 식별자: "@ + described(token.tok@)
                },
            },
    {
        match self.peek() {
            Tok::Name(name) => {
                let name = owned(name.as_str());
                Ok((name, self.advance().span))
            },
            other => Err(Diag::syntax(crate::msg::not_a_name(describe(other).as_str()), self.span())),
        }
    }

    /// Takes a particle and gives its standard form.
    pub fn expect_particle(&mut self) -> (found: Result<&'static str, Diag>)
        requires
            old(self).wf(),
            old(self).at < usize::MAX,
        ensures
            match found {
                Ok(canon) => {
                    &&& old(self).token_at(0).tok@ matches TokModel::Particle(_, held) && held == canon@
                    &&& final(self).moved_to(*old(self), old(self).at + 1)
                },
                Err(error) => {
                    let token = old(self).token_at(0);
                    &&& !(token.tok@ is Particle)
                    &&& final(self).moved_to(*old(self), old(self).at as int)
                    &&& error.kind == crate::msg::SYNTAX
                    &&& error.span == token.span
                    &&& error.msg@ == "조사가 아님: "@ + described(token.tok@)
                },
            },
    {
        match self.peek() {
            Tok::Particle { canon, .. } => {
                let canon = *canon;
                self.at += 1;
                Ok(canon)
            },
            other => Err(Diag::syntax(crate::msg::not_a_particle(describe(other).as_str()), self.span())),
        }
    }

    /// Keeps `error`, unless as many errors as are kept were noted.
    pub fn note(&mut self, error: Diag)
        ensures
            final(self).errors@ == if old(self).errors@.len() < MAX_ERRORS {
                old(self).errors@.push(error)
            } else {
                old(self).errors@
            },
            final(self).at == old(self).at,
            final(self).tokens == old(self).tokens,
    {
        if self.errors.len() < MAX_ERRORS {
            self.errors.push(error);
        }
    }
}

} // verus!
verus! {

/// Where the line that goes on at `i` ends: the first newline token from
/// `i` on, or the end of the stream.
pub open spec fn line_end_from(tokens: Seq<Token>, i: int) -> int
    decreases tokens.len() - i,
{
    if i >= tokens.len() {
        i
    } else if tokens[i].tok@ == TokModel::Newline {
        i
    } else {
        line_end_from(tokens, i + 1)
    }
}

/// Past the rest of the line at `i`: just after its newline, or at the
/// first indent, dedent or end of file before one.
pub open spec fn skip_line(tokens: Seq<Token>, i: int) -> int
    decreases tokens.len() - i,
{
    if i >= tokens.len() - 1 {
        i
    } else {
        let tok = tokens[i].tok@;
        if tok == TokModel::Eof || tok is Indent || tok is Dedent {
            i
        } else if tok == TokModel::Newline {
            i + 1
        } else {
            skip_line(tokens, i + 1)
        }
    }
}

/// Past an indented block that starts at `i` (nested `depth` deep so
/// far), up to the first token back at the outer level.
pub open spec fn skip_block(tokens: Seq<Token>, i: int, depth: nat) -> int
    decreases tokens.len() - i,
{
    if i >= tokens.len() - 1 {
        i
    } else {
        let tok = tokens[i].tok@;
        if tok is Indent {
            skip_block(tokens, i + 1, depth + 1)
        } else if tok is Dedent && depth > 0 {
            skip_block(tokens, i + 1, (depth - 1) as nat)
        } else if tok == TokModel::Eof || depth == 0 {
            i
        } else {
            skip_block(tokens, i + 1, depth)
        }
    }
}

proof fn lemma_skip_line_bounds(tokens: Seq<Token>, i: int)
    requires
        0 <= i,
    ensures
        i <= skip_line(tokens, i),
        i < tokens.len() ==> skip_line(tokens, i) < tokens.len(),
    decreases tokens.len() - i,
{
    if i < tokens.len() - 1 {
        lemma_skip_line_bounds(tokens, i + 1);
    }
}

proof fn lemma_skip_block_bounds(tokens: Seq<Token>, i: int, depth: nat)
    requires
        0 <= i,
    ensures
        i <= skip_block(tokens, i, depth),
        i < tokens.len() ==> skip_block(tokens, i, depth) < tokens.len(),
    decreases tokens.len() - i,
{
    if i < tokens.len() - 1 {
        lemma_skip_block_bounds(tokens, i + 1, depth + 1);
        lemma_skip_block_bounds(tokens, i + 1, depth);
        if depth > 0 {
            lemma_skip_block_bounds(tokens, i + 1, (depth - 1) as nat);
        }
    }
}

/// Recovery never goes back, and never past the last token.
pub proof fn law_resync_moves_forward_within(tokens: Seq<Token>, at: int)
    requires
        0 <= at < tokens.len(),
    ensures
        at <= skip_block(tokens, skip_line(tokens, at), 0) < tokens.len(),
{
    lemma_skip_line_bounds(tokens, at);
    lemma_skip_block_bounds(tokens, skip_line(tokens, at), 0);
}

impl<'a> Parser<'a> {
    pub fn line_end(&self) -> (found: usize)
        ensures
            found == line_end_from(self.tokens@, self.at as int),
    {
        let mut index = self.at;
        while index < self.tokens.len()
            invariant
                self.at <= index,
                line_end_from(self.tokens@, self.at as int) == line_end_from(self.tokens@, index as int),
            decreases self.tokens@.len() - index,
        {
            match self.tokens[index].tok {
                Tok::Newline => {
                    return index;
                },
                _ => {},
            }
            index += 1;
        }
        index
    }

    /// After an error, goes past the rest of the line and past the block
    /// under it, so that parsing goes on at the next statement of the same
    /// level; it does not leave the block it is in.
    pub fn resync(&mut self)
        requires
            old(self).wf(),
        ensures
            final(self).moved_to(
                *old(self),
                if old(self).at as int >= old(self).tokens@.len() - 1 {
                    old(self).at as int
                } else {
                    skip_block(old(self).tokens@, skip_line(old(self).tokens@, old(self).at as int), 0)
                },
            ),
    {
        let ghost start = *self;
        let last = self.tokens.len() - 1;
        if self.at >= last {
            return;
        }
        loop
            invariant_except_break
                skip_line(self.tokens@, start.at as int) == skip_line(self.tokens@, self.at as int),
            invariant
                self.wf(),
                self.at <= last,
                last == self.tokens@.len() - 1,
                self.moved_to(start, self.at as int),
            ensures
                self.moved_to(start, skip_line(self.tokens@, start.at as int)),
                self.at <= last,
            decreases last - self.at,
        {
            if self.at >= last {
                break;
            }
            let done = match &self.tokens[self.at].tok {
                Tok::Eof | Tok::Indent(_) | Tok::Dedent(_) => {
                    break;
                },
                Tok::Newline => true,
                _ => false,
            };
            self.at += 1;
            if done {
                break;
            }
        }
        let ghost middle = self.at;
        let mut depth: usize = 0;
        loop
            invariant_except_break
                skip_block(self.tokens@, middle as int, 0) == skip_block(self.tokens@, self.at as int, depth as nat),
            invariant
                self.wf(),
                self.at <= last,
                last == self.tokens@.len() - 1,
                depth <= self.at,
                self.moved_to(start, self.at as int),
            ensures
                self.moved_to(start, skip_block(self.tokens@, middle as int, 0)),
            decreases last - self.at,
        {
            if self.at >= last {
                break;
            }
            match &self.tokens[self.at].tok {
                Tok::Indent(_) => {
                    depth += 1;
                },
                Tok::Dedent(_) => {
                    if depth > 0 {
                        depth -= 1;
                    } else {
                        break;
                    }
                },
                Tok::Eof => {
                    break;
                },
                _ => {
                    if depth == 0 {
                        break;
                    }
                },
            }
            self.at += 1;
        }
    }
}

} // verus!
verus! {

/// A condition added to those before it with `그리고`.
pub open spec fn and_after(left: Option<Expr>, right: Expr, span: Span) -> Expr {
    match left {
        None => right,
        Some(before) => Expr::And { left: Box::new(before), right: Box::new(right), span },
    }
}

pub fn join_and(left: Option<Expr>, right: Expr, span: Span) -> (found: Expr)
    ensures
        found == and_after(left, right, span),
{
    match left {
        None => right,
        Some(before) => Expr::And { left: Box::new(before), right: Box::new(right), span },
    }
}

/// Alternatives joined with `또는`, grouped from the left.
pub open spec fn or_chain(apart: Seq<Expr>, span: Span) -> Expr
    recommends
        apart.len() > 0,
    decreases apart.len(),
{
    if apart.len() <= 1 {
        apart[0]
    } else {
        Expr::Or { left: Box::new(or_chain(apart.drop_last(), span)), right: Box::new(apart.last()), span }
    }
}

pub fn join_or(apart: Vec<Expr>, span: Span) -> (found: Expr)
    requires
        apart@.len() > 0,
    ensures
        found == or_chain(apart@, span),
{
    let ghost whole = apart@;
    let size = apart.len();
    let mut items = apart;
    let mut found = items.remove(0);
    let mut taken: usize = 1;
    assert(whole.take(1).len() == 1);
    while items.len() > 0
        invariant
            1 <= taken <= whole.len(),
            whole.len() == size,
            items@ == whole.skip(taken as int),
            found == or_chain(whole.take(taken as int), span),
        decreases items@.len(),
    {
        let next = items.remove(0);
        assert(next == whole[taken as int]);
        assert(whole.take(taken + 1).drop_last() =~= whole.take(taken as int));
        assert(whole.take(taken + 1).last() == next);
        found = Expr::Or { left: Box::new(found), right: Box::new(next), span };
        taken += 1;
        assert(items@ =~= whole.skip(taken as int));
    }
    assert(whole.take(taken as int) =~= whole);
    found
}

} // verus!
verus! {

/// What reading a verb at `token` (followed by `next`) gives: its name,
/// part of speech, ending and negation, and how many tokens it takes;
/// or the error's message and place. `아니다` is the copula negated; a
/// verb in `-지` must be followed by `않다`, which gives the ending.
pub open spec fn verb_read(token: Token, next: Token) -> Result<(Seq<char>, Pos, Ending, bool, int), (Seq<char>, Span)> {
    match token.tok@ {
        TokModel::Verb(name, pos, ending) => {
            if name == "아니다"@ {
                Ok(("이다"@, Pos::Descriptive, ending, true, 1))
            } else if ending == Ending::Negative {
                match next.tok@ {
                    TokModel::Verb(helper, _, after) => if helper == "않다"@ {
                        Ok((name, pos, after, true, 2))
                    } else {
                        Err((crate::msg::NOT_NEGATION@, next.span))
                    },
                    _ => Err((crate::msg::NOT_NEGATION@, next.span)),
                }
            } else {
                Ok((name, pos, ending, false, 1))
            }
        },
        TokModel::Copula(ending) => {
            if ending == Ending::Negative {
                match next.tok@ {
                    TokModel::Verb(helper, _, after) => if helper == "않다"@ {
                        Ok(("이다"@, Pos::Descriptive, after, true, 2))
                    } else {
                        Err((crate::msg::NOT_NEGATION@, next.span))
                    },
                    _ => Err((crate::msg::NOT_NEGATION@, next.span)),
                }
            } else {
                Ok(("이다"@, Pos::Descriptive, ending, false, 1))
            }
        },
        other => Err(("동사가 아님: "@ + described(other), token.span)),
    }
}

impl<'a> Parser<'a> {
    /// Takes a verb or the copula, with a following `않다` when it is in
    /// `-지` (see `verb_read`).
    pub fn take_verb(&mut self) -> (found: Result<VerbInfo, Diag>)
        requires
            old(self).wf(),
            old(self).at < usize::MAX - 1,
        ensures
            match (found, verb_read(old(self).token_at(0), old(self).token_at(1))) {
                (Ok(info), Ok((name, pos, ending, negated, size))) => {
                    &&& info.name@ == name
                    &&& info.pos == pos
                    &&& info.ending == ending
                    &&& info.negated == negated
                    &&& info.span == old(self).token_at(0).span
                    &&& final(self).moved_to(*old(self), old(self).at + size)
                },
                (Err(error), Err((message, span))) => {
                    &&& error.kind == crate::msg::SYNTAX
                    &&& error.msg@ == message
                    &&& error.span == span
                    &&& error.hint is None
                    &&& final(self).errors == old(self).errors
                    &&& final(self).tokens == old(self).tokens
                    &&& final(self).moved_to(*old(self), old(self).at + if old(self).token_at(0).tok@ is Verb
                        || old(self).token_at(0).tok@ is Copula { 1int } else { 0int })
                },
                _ => false,
            },
    {
        let token = self.ahead(0);
        let (name, pos, ending) = match &token.tok {
            Tok::Verb { name, pos, ending } => (owned(name.as_str()), *pos, *ending),
            Tok::Copula { ending } => (owned("이다"), Pos::Descriptive, *ending),
            other => {
                return Err(Diag::syntax(crate::msg::not_a_verb(describe(other).as_str()), token.span));
            },
        };
        self.at += 1;
        proof {
            reveal_strlit("이다");
            reveal_strlit("아니다");
            assert("이다"@.len() != "아니다"@.len());
            assert("이다"@ != "아니다"@);
        }
        if same_text(name.as_str(), "아니다") {
            return Ok(VerbInfo { name: owned("이다"), pos: Pos::Descriptive, ending, negated: true, span: token.span });
        }
        if ending == Ending::Negative {
            let partner = self.ahead(0);
            match &partner.tok {
                Tok::Verb { name: helper, ending: after, .. } => {
                    if !same_text(helper.as_str(), "않다") {
                        return Err(Diag::syntax(owned(crate::msg::NOT_NEGATION), partner.span));
                    }
                    let after = *after;
                    self.at += 1;
                    return Ok(VerbInfo { name, pos, ending: after, negated: true, span: token.span });
                },
                _ => {
                    return Err(Diag::syntax(owned(crate::msg::NOT_NEGATION), partner.span));
                },
            }
        }
        Ok(VerbInfo { name, pos, ending, negated: false, span: token.span })
    }

    /// Whether a predicate the program defines starts `offset` tokens
    /// ahead: a name, then the copula, with `name이다` known.
    pub fn starts_predicate(&self, offset: usize) -> (found: bool)
        requires
            self.wf(),
            offset < usize::MAX,
        ensures
            found == (self.token_at(offset as int).tok@ matches TokModel::Name(name)
                && self.token_at(offset + 1).tok@ is Copula
                && self.program.signatures@.contains_key(name + "이다"@)),
    {
        let name = match &self.ahead(offset).tok {
            Tok::Name(name) => name,
            _ => {
                return false;
            },
        };
        match self.ahead(offset + 1).tok {
            Tok::Copula { .. } => {},
            _ => {
                return false;
            },
        }
        let mut asked = owned(name.as_str());
        push_str(&mut asked, "이다");
        self.program.signatures.knows(asked.as_str())
    }
}

} // verus!
verus! {

/// The ways the program knows to call `verb`.
pub open spec fn ways_for(signatures: Map<Seq<char>, Seq<Seq<MarkerModel>>>, verb: Seq<char>) -> Seq<Seq<MarkerModel>> {
    if signatures.contains_key(verb) {
        signatures[verb]
    } else {
        seq![]
    }
}

/// `used` are the markers of one of `ways`, in some order.
pub open spec fn fits_a_way(ways: Seq<Seq<MarkerModel>>, used: Seq<MarkerModel>) -> bool {
    exists|i: int| 0 <= i < ways.len() && #[trigger] ways[i].to_multiset() == used.to_multiset()
}

/// The markers of `slots`.
pub open spec fn markers_of(slots: Seq<Slot>) -> Seq<MarkerModel> {
    Seq::new(slots.len(), |i: int| slots[i].marker@)
}

/// The markers of `slots` other than the module marker, in order.
pub open spec fn used_markers(slots: Seq<Slot>) -> Seq<MarkerModel>
    decreases slots.len(),
{
    if slots.len() == 0 {
        seq![]
    } else {
        used_markers(slots.drop_last()) + if slots.last().marker@ == MarkerModel::Module {
            seq![]
        } else {
            seq![slots.last().marker@]
        }
    }
}

/// A marker that an argument is given with, not one that shapes the
/// sentence.
pub open spec fn argument_marker(marker: MarkerModel) -> bool {
    match marker {
        MarkerModel::Case(particle) => !crate::words::structural_table().contains(particle),
        MarkerModel::Bare => true,
        MarkerModel::Module => false,
    }
}

/// The slots whose markers are (or, with `arguments` false, are not)
/// argument markers, in order.
pub open spec fn slots_where(slots: Seq<Slot>, arguments: bool) -> Seq<Slot>
    decreases slots.len(),
{
    if slots.len() == 0 {
        seq![]
    } else {
        slots_where(slots.drop_last(), arguments) + if argument_marker(slots.last().marker@) == arguments {
            seq![slots.last()]
        } else {
            seq![]
        }
    }
}

fn used_of(slots: &Vec<Slot>) -> (used: Vec<Marker>)
    ensures
        markers_view(used@) == used_markers(slots@),
{
    let mut used: Vec<Marker> = Vec::new();
    let mut at: usize = 0;
    assert(markers_view(used@) =~= used_markers(slots@.take(0)));
    while at < slots.len()
        invariant
            at <= slots@.len(),
            markers_view(used@) == used_markers(slots@.take(at as int)),
        decreases slots@.len() - at,
    {
        assert(slots@.take(at + 1).drop_last() =~= slots@.take(at as int));
        let marker = slots[at].marker;
        let ghost before = markers_view(used@);
        match marker {
            Marker::Module => {},
            _ => {
                used.push(marker);
                assert(markers_view(used@) =~= before.push(marker@));
            },
        }
        assert(markers_view(used@) =~= used_markers(slots@.take(at + 1)));
        at += 1;
    }
    assert(slots@.take(slots@.len() as int) =~= slots@);
    used
}

fn fits_any(ways: &Vec<Vec<Marker>>, used: &Vec<Marker>) -> (found: bool)
    ensures
        found == fits_a_way(crate::sig::ways_view(ways@), markers_view(used@)),
{
    let ghost all = crate::sig::ways_view(ways@);
    let mut at: usize = 0;
    while at < ways.len()
        invariant
            at <= ways@.len(),
            all == crate::sig::ways_view(ways@),
            forall|i: int| 0 <= i < at ==> #[trigger] all[i].to_multiset() != markers_view(used@).to_multiset(),
        decreases ways@.len() - at,
    {
        assert(all[at as int] == markers_view(ways@[at as int]@));
        if crate::sig::same(used.as_slice(), ways[at].as_slice()) {
            return true;
        }
        at += 1;
    }
    false
}

impl<'a> Parser<'a> {
    /// A sentence-final verb takes every slot left; when the markers fit
    /// none of its known ways, the arguments were bound wrongly before, and
    /// the parser is stuck on this reading.
    pub fn verify(&mut self, verb: &str, slots: &Vec<Slot>)
        ensures
            final(self).stuck == (old(self).stuck || (
                ways_for(old(self).program.signatures@, verb@).len() > 0
                && verb@ != "이다"@
                && !fits_a_way(ways_for(old(self).program.signatures@, verb@), used_markers(slots@)))),
            final(self).moved_to_stuck(*old(self)),
    {
        let ways = self.program.signatures.ways(verb);
        if ways.len() == 0 || same_text(verb, "이다") {
            return;
        }
        let used = used_of(slots);
        if !fits_any(&ways, &used) {
            self.stuck = true;
        }
    }

    /// Only whether it is stuck may differ.
    pub open spec fn moved_to_stuck(&self, before: Parser<'a>) -> bool {
        &&& self.at == before.at
        &&& self.tokens == before.tokens
        &&& self.program == before.program
        &&& self.base_dir == before.base_dir
        &&& self.errors == before.errors
        &&& self.inside == before.inside
        &&& self.plan == before.plan
        &&& self.picks == before.picks
        &&& self.room == before.room
    }
}

} // verus!
verus! {

/// Whether a verb taking the last `count` of the arguments (with markers
/// `args`) besides the sentence-shaping ones (`fixed`) is called in one
/// of its ways; any count fits a verb of no known way.
pub open spec fn count_fits(ways: Seq<Seq<MarkerModel>>, fixed: Seq<MarkerModel>, args: Seq<MarkerModel>, count: int) -> bool {
    ways.len() == 0 || fits_a_way(ways, fixed + args.skip(args.len() - count))
}

/// Of the counts `args.len()`, `args.len() - 1`, ... (the first `n` of
/// them), those that fit, longest first.
pub open spec fn fitting_counts(ways: Seq<Seq<MarkerModel>>, fixed: Seq<MarkerModel>, args: Seq<MarkerModel>, n: int) -> Seq<int>
    decreases n,
{
    if n <= 0 {
        seq![]
    } else {
        fitting_counts(ways, fixed, args, n - 1) + if count_fits(ways, fixed, args, args.len() - (n - 1)) {
            seq![args.len() - (n - 1)]
        } else {
            seq![]
        }
    }
}

/// The count a reading plan picks for the verb at `index`: the plan's
/// choice when there is one and it is in range, else the longest.
pub open spec fn chosen_count(counts: Seq<int>, plan: Seq<usize>, index: int) -> Option<int> {
    let pick = if 0 <= index < plan.len() { plan[index] as int } else { 0 };
    if pick < counts.len() {
        Some(counts[pick])
    } else if counts.len() > 0 {
        Some(counts[0])
    } else {
        None
    }
}

impl<'a> Parser<'a> {
    /// Which of the slots before a verb are its own: the sentence-shaping
    /// slots, and as many of the last arguments as the plan picks among
    /// the counts that fit one of its ways; the earlier arguments are kept
    /// for the verbs still to come. When no count fits, the verb takes
    /// every slot and the parser is stuck on this reading.
    pub fn split_slots(&mut self, verb: &str, slots: Vec<Slot>) -> (found: (Vec<Slot>, Vec<Slot>))
        ensures
            ({
                let ways = ways_for(old(self).program.signatures@, verb@);
                let structural = slots_where(slots@, false);
                let arguments = slots_where(slots@, true);
                let counts = fitting_counts(ways, used_markers(structural), markers_of(arguments), arguments.len() + 1 as int);
                &&& final(self).picks@ == old(self).picks@.push(if counts.len() > 0 { counts.len() as usize } else { 1 })
                &&& match chosen_count(counts, old(self).plan@, old(self).picks@.len() as int) {
                    None => {
                        &&& found.0@ == Seq::<Slot>::empty()
                        &&& found.1@ == structural + arguments
                        &&& final(self).stuck
                    },
                    Some(count) => {
                        &&& found.0@ == arguments.take(arguments.len() - count)
                        &&& found.1@ == structural + arguments.skip(arguments.len() - count)
                        &&& final(self).stuck == old(self).stuck
                    },
                }
            }),
            final(self).at == old(self).at,
            final(self).tokens == old(self).tokens,
            final(self).program == old(self).program,
            final(self).errors == old(self).errors,
            final(self).plan == old(self).plan,
            final(self).base_dir == old(self).base_dir,
            final(self).inside == old(self).inside,
            final(self).room == old(self).room,
            found.0@ == split_kept(slots@, split_choice(old(self).program.signatures@, verb@, slots@, old(self).plan@, old(self).picks@.len() as int)),
            found.1@ == split_own(slots@, split_choice(old(self).program.signatures@, verb@, slots@, old(self).plan@, old(self).picks@.len() as int)),
            final(self).stuck == (old(self).stuck
                || split_choice(old(self).program.signatures@, verb@, slots@, old(self).plan@, old(self).picks@.len() as int) is None),
    {
        let ghost whole = slots@;
        let ways = self.program.signatures.ways(verb);
        let ghost way_list = ways_for(self.program.signatures@, verb@);
        assert(crate::sig::ways_view(ways@) == way_list);
        let mut rest = slots;
        let mut structural: Vec<Slot> = Vec::new();
        let mut arguments: Vec<Slot> = Vec::new();
        let mut taken: usize = 0;
        let size = rest.len();
        assert(whole.take(0) =~= Seq::<Slot>::empty());
        while rest.len() > 0
            invariant
                taken <= whole.len(),
                size == whole.len(),
                rest@ == whole.skip(taken as int),
                structural@ == slots_where(whole.take(taken as int), false),
                arguments@ == slots_where(whole.take(taken as int), true),
            decreases rest@.len(),
        {
            let slot = rest.remove(0);
            assert(slot == whole[taken as int]);
            assert(whole.take(taken + 1).drop_last() =~= whole.take(taken as int));
            if slot.marker.is_argument() {
                arguments.push(slot);
            } else {
                structural.push(slot);
            }
            taken += 1;
            assert(rest@ =~= whole.skip(taken as int));
        }
        assert(whole.take(taken as int) =~= whole);
        let fixed = used_of(&structural);
        let total = arguments.len();
        let ghost args = markers_of(arguments@);
        let mut candidates: Vec<usize> = Vec::new();
        let mut count: usize = total;
        let mut done = false;
        let ghost mut k: int = 0;
        while !done
            invariant
                total == arguments@.len(),
                args == markers_of(arguments@),
                crate::sig::ways_view(ways@) == way_list,
                !done ==> k == total - count && count <= total,
                done ==> k == total + 1,
                forall|j: int| 0 <= j < candidates@.len() ==> #[trigger] candidates@[j] <= total,
                Seq::new(candidates@.len(), |j: int| candidates@[j] as int) == fitting_counts(way_list, markers_view(fixed@), args, k),
            decreases count + if done { 0int } else { 1int },
        {
            let mut used: Vec<Marker> = Vec::new();
            let mut m: usize = 0;
            while m < fixed.len()
                invariant
                    m <= fixed@.len(),
                    markers_view(used@) == markers_view(fixed@).take(m as int),
                decreases fixed@.len() - m,
            {
                let ghost before = markers_view(used@);
                used.push(fixed[m]);
                assert(markers_view(used@) =~= before.push(fixed@[m as int]@));
                assert(markers_view(fixed@).take(m + 1) =~= markers_view(fixed@).take(m as int).push(fixed@[m as int]@));
                m += 1;
            }
            assert(markers_view(fixed@).take(fixed@.len() as int) =~= markers_view(fixed@));
            let mut a: usize = total - count;
            while a < total
                invariant
                    count <= total,
                    total - count <= a <= total,
                    total == arguments@.len(),
                    args == markers_of(arguments@),
                    markers_view(used@) == markers_view(fixed@) + args.subrange(total - count, a as int),
                decreases total - a,
            {
                let ghost before = markers_view(used@);
                used.push(arguments[a].marker);
                assert(markers_view(used@) =~= before.push(args[a as int]));
                assert(args.subrange(total - count, a + 1) =~= args.subrange(total - count, a as int).push(args[a as int]));
                a += 1;
            }
            assert(args.subrange(total - count, total as int) =~= args.skip(args.len() - count));
            let fits = ways.len() == 0 || fits_any(&ways, &used);
            if fits {
                candidates.push(count);
            }
            assert(Seq::new(candidates@.len(), |j: int| candidates@[j] as int)
                =~= fitting_counts(way_list, markers_view(fixed@), args, k + 1));
            proof {
                k = k + 1;
            }
            if count == 0 {
                done = true;
            } else {
                count -= 1;
            }
        }
        let ghost counts = fitting_counts(way_list, markers_view(fixed@), args, total + 1);
        let index = self.picks.len();
        let kinds = if candidates.len() > 0 { candidates.len() } else { 1 };
        self.picks.push(kinds);
        let pick = if index < self.plan.len() { self.plan[index] } else { 0 };
        let chosen = if pick < candidates.len() {
            Some(candidates[pick])
        } else if candidates.len() > 0 {
            Some(candidates[0])
        } else {
            None
        };
        match chosen {
            None => {
                self.stuck = true;
                let mut rest_args = arguments;
                structural.append(&mut rest_args);
                (Vec::new(), structural)
            },
            Some(count) => {
                let mut kept = arguments;
                let mut tail = kept.split_off(total - count);
                structural.append(&mut tail);
                (kept, structural)
            },
        }
    }
}

} // verus!
verus! {

/// Which count of its last arguments a verb takes (see `split_slots`).
pub open spec fn split_choice(
    signatures: Map<Seq<char>, Seq<Seq<MarkerModel>>>,
    verb: Seq<char>,
    slots: Seq<Slot>,
    plan: Seq<usize>,
    index: int,
) -> Option<int> {
    let arguments = slots_where(slots, true);
    chosen_count(
        fitting_counts(ways_for(signatures, verb), used_markers(slots_where(slots, false)), markers_of(arguments), arguments.len() + 1 as int),
        plan,
        index,
    )
}

/// The arguments a verb leaves to the verbs after it.
pub open spec fn split_kept(slots: Seq<Slot>, choice: Option<int>) -> Seq<Slot> {
    let arguments = slots_where(slots, true);
    match choice {
        None => seq![],
        Some(count) => arguments.take(arguments.len() - count),
    }
}

/// The slots a verb takes.
pub open spec fn split_own(slots: Seq<Slot>, choice: Option<int>) -> Seq<Slot> {
    let arguments = slots_where(slots, true);
    match choice {
        None => slots_where(slots, false) + arguments,
        Some(count) => slots_where(slots, false) + arguments.skip(arguments.len() - count),
    }
}

/// The slots of a copula sentence once a second subject is made bare.
pub open spec fn copula_marked(slots: Seq<Slot>) -> Seq<Slot> {
    if subjects(slots) >= 2 {
        let at = last_subject(slots);
        slots.update(at, Slot { marker: Marker::Bare, expr: slots[at].expr })
    } else {
        slots
    }
}

/// The slots once a comparison word is folded into the verb.
pub open spec fn folded_slots(slots: Seq<Slot>) -> Seq<Slot> {
    slots.take(slots.len() - 2).push(Slot { marker: Marker::Case("보다"), expr: slots[slots.len() - 2].expr })
}

/// The first slot marked as the object (`를`).
pub open spec fn first_object(slots: Seq<Slot>) -> Option<int>
    decreases slots.len(),
{
    if slots.len() == 0 {
        None
    } else if slots[0].marker@ == MarkerModel::Case("를"@) {
        Some(0)
    } else {
        match first_object(slots.drop_first()) {
            Some(i) => Some(i + 1),
            None => None,
        }
    }
}

proof fn lemma_first_object_bounds(slots: Seq<Slot>)
    ensures
        first_object(slots) matches Some(i) ==> 0 <= i < slots.len(),
    decreases slots.len(),
{
    if slots.len() > 0 {
        lemma_first_object_bounds(slots.drop_first());
    }
}

proof fn lemma_bare_marker(marker: Marker)
    requires
        marker@ == MarkerModel::Bare,
    ensures
        marker == Marker::Bare,
{
}

proof fn lemma_copula_marked(slots: Seq<Slot>, found: Seq<Slot>)
    requires
        subjects(slots) >= 2 ==> {
            let at = last_subject(slots);
            &&& found.len() == slots.len()
            &&& forall|i: int| 0 <= i < slots.len() && i != at ==> found[i] == slots[i]
            &&& found[at].marker@ == MarkerModel::Bare
            &&& found[at].expr == slots[at].expr
        },
        subjects(slots) < 2 ==> found == slots,
    ensures
        found == copula_marked(slots),
{
    if subjects(slots) >= 2 {
        lemma_last_subject(slots);
        let at = last_subject(slots);
        lemma_bare_marker(found[at].marker);
        assert(found =~= copula_marked(slots));
    }
}

fn first_object_of(slots: &Vec<Slot>) -> (found: Option<usize>)
    ensures
        match found {
            Some(i) => first_object(slots@) == Some(i as int) && i < slots@.len(),
            None => first_object(slots@) is None,
        },
{
    proof {
        lemma_first_object_bounds(slots@);
    }
    let mut at: usize = 0;
    assert(slots@.skip(0) =~= slots@);
    assert(match first_object(slots@.skip(0)) {
        Some(i) => Some(i + 0),
        None => None::<int>,
    } == first_object(slots@));
    while at < slots.len()
        invariant
            at <= slots@.len(),
            first_object(slots@) == match first_object(slots@.skip(at as int)) {
                Some(i) => Some(i + at),
                None => None::<int>,
            },
        decreases slots@.len() - at,
    {
        assert(slots@.skip(at as int).drop_first() =~= slots@.skip(at + 1));
        let object = match slots[at].marker {
            Marker::Case(particle) => same_text(particle, "를"),
            _ => false,
        };
        if object {
            return Some(at);
        }
        at += 1;
    }
    None
}

} // verus!
verus! {

impl<'a> Parser<'a> {
    /// Applies a verb to the slots read before it: it takes its own slots
    /// (all of them for the copula and a passive), a copula folds a
    /// comparison word, and what follows decides the value made: a name
    /// after a passive is its head; a result name (`값`, `나머지`, `몫`)
    /// names which result of the call is meant; a passive without a head
    /// after it takes its object as the head. Gives the value and the slots
    /// left for the verbs still to come.
    pub fn reduce(&mut self, slots: Vec<Slot>, info: VerbInfo) -> (found: Result<(Expr, Vec<Slot>), Diag>)
        requires
            old(self).wf(),
            old(self).at < usize::MAX,
        ensures
            ({
                let before = *old(self);
                let copula = info.name@ == "이다"@;
                let passive = info.pos == Pos::Passive;
                let choice = split_choice(before.program.signatures@, info.name@, slots@, before.plan@, before.picks@.len() as int);
                let kept = if copula || passive { Seq::<Slot>::empty() } else { split_kept(slots@, choice) };
                let own = if copula || passive { slots@ } else { split_own(slots@, choice) };
                let marked = if copula { copula_marked(own) } else { own };
                let folds = copula && comparison_of(marked) is Some;
                let taken = if folds { folded_slots(marked) } else { marked };
                let folding = comparison_of(marked)->0;
                let verb = if folds { folding.0 } else { info.name@ };
                let negated = if folds { folding.1 != info.negated } else { info.negated };
                let token = before.token_at(0);
                let named = token.tok@ is Name;
                let result_name = token.tok@ matches TokModel::Name(n) && crate::words::call_tail_table().contains(n);
                &&& final(self).tokens == before.tokens
                &&& final(self).errors == before.errors
                &&& final(self).program == before.program
                &&& final(self).base_dir == before.base_dir
                &&& final(self).room == before.room
                &&& (copula || passive) ==> final(self).picks == before.picks && final(self).stuck == before.stuck
                &&& !(copula || passive) ==> final(self).stuck == (before.stuck || choice is None)
                &&& if named && !result_name {
                    &&& final(self).at == before.at + 1
                    &&& if passive {
                        &&& found matches Ok((Expr::Passive(made), left))
                        &&& left@ == kept
                        &&& made.verb@ == verb
                        &&& made.head matches Expr::Name { name: head, span: at }
                        &&& head@ == token.tok@->Name_0
                        &&& at == token.span
                        &&& made.slots@ == taken
                        &&& made.span == info.span
                    } else {
                        &&& found matches Err(error)
                        &&& error.kind == crate::msg::SYNTAX
                        &&& error.msg@ == "관형형 뒤에 `값`이 아님: '"@ + token.tok@->Name_0 + "'"@
                        &&& error.span == token.span
                    }
                } else {
                    &&& final(self).at == before.at + if result_name { 1int } else { 0int }
                    &&& if passive && first_object(taken) is Some {
                        let index = first_object(taken)->0;
                        &&& found matches Ok((Expr::Passive(made), left))
                        &&& left@ == kept
                        &&& made.verb@ == verb
                        &&& made.head == taken[index].expr
                        &&& made.slots@ == taken.remove(index)
                        &&& made.span == info.span
                    } else {
                        &&& found matches Ok((Expr::Call(made), left))
                        &&& left@ == kept
                        &&& made.verb@ == verb
                        &&& made.slots@ == taken
                        &&& made.negated == negated
                        &&& made.asks == (info.ending == Ending::Interrogative)
                        &&& made.tail matches Some(tail)
                        &&& tail@ == (if result_name { token.tok@->Name_0 } else { "값"@ })
                        &&& made.span == info.span
                    }
                }
            }),
    {
        let ghost before = *self;
        let copula = same_text(info.name.as_str(), "이다");
        let passive = info.pos == Pos::Passive;
        let ghost given = slots@;
        let (kept, own) = if copula || passive {
            (Vec::new(), slots)
        } else {
            let verb = owned(info.name.as_str());
            self.split_slots(verb.as_str(), slots)
        };
        let ghost own_slots = own@;
        let ghost name0 = info.name@;
        let ghost negated0 = info.negated;
        let (own, info) = if copula {
            let marked = copula_slots(own);
            fold_comparison(marked, info)
        } else {
            (own, info)
        };
        let token = self.ahead(0);
        let (named, tail) = match &token.tok {
            Tok::Name(name) => {
                let tails = crate::words::call_tails();
                if crate::words::listed(&tails, name.as_str()) {
                    (true, Some(owned(name.as_str())))
                } else {
                    (true, None)
                }
            },
            _ => (false, None),
        };
        if named && tail.is_none() {
            let (head, span) = match self.expect_name() {
                Ok(found) => found,
                Err(error) => {
                    return Err(error);
                },
            };
            if info.pos == Pos::Passive {
                let made = PassiveExpr { verb: info.name, head: Expr::Name { name: head, span }, slots: own, span: info.span };
                return Ok((Expr::Passive(Box::new(made)), kept));
            }
            return Err(Diag::syntax(crate::msg::not_head_value(head.as_str()), span));
        }
        if tail.is_some() {
            self.at += 1;
        }
        if info.pos == Pos::Passive {
            match first_object_of(&own) {
                Some(index) => {
                    let mut own = own;
                    let head = own.remove(index).expr;
                    let made = PassiveExpr { verb: info.name, head, slots: own, span: info.span };
                    return Ok((Expr::Passive(Box::new(made)), kept));
                },
                None => {},
            }
        }
        let tail = match tail {
            Some(name) => name,
            None => owned("값"),
        };
        let made = CallExpr {
            verb: info.name,
            slots: own,
            negated: info.negated,
            asks: info.ending == Ending::Interrogative,
            tail: Some(tail),
            span: info.span,
        };
        Ok((Expr::Call(Box::new(made)), kept))
    }
}

} // verus!
verus! {

impl<'a> Parser<'a> {
    /// The token at `index` of the stream, or the end of input past it.
    pub open spec fn token_index(&self, index: int) -> Token {
        self.tokens@[ahead_index(index, 0, self.tokens@.len() as int)]
    }

    /// A keyword `word` stands `offset` tokens ahead.
    pub open spec fn keyword_ahead(&self, offset: int, word: Seq<char>) -> bool {
        self.token_at(offset).tok@ == TokModel::Keyword(word)
    }

    pub fn tok_at(&self, index: usize) -> (found: &'a Tok)
        requires
            self.wf(),
        ensures
            *found == self.token_index(index as int).tok,
    {
        let last = self.tokens.len() - 1;
        &self.tokens[if index < last { index } else { last }].tok
    }

    pub fn keyword_at(&self, offset: usize, word: &str) -> (found: bool)
        requires
            self.wf(),
        ensures
            found == self.keyword_ahead(offset as int, word@),
    {
        match &self.ahead(offset).tok {
            Tok::Keyword(found) => same_text(found.as_str(), word),
            _ => false,
        }
    }

    /// Takes the keyword `word` if it comes next.
    pub fn accept_keyword(&mut self, word: &str) -> (taken: bool)
        requires
            old(self).wf(),
            old(self).at < usize::MAX,
        ensures
            taken == old(self).keyword_ahead(0, word@),
            final(self).moved_to(*old(self), if taken { old(self).at + 1 } else { old(self).at as int }),
    {
        if self.keyword_at(0, word) {
            self.at += 1;
            return true;
        }
        false
    }

    /// Takes the keyword `word`, which must come next.
    pub fn expect_keyword(&mut self, word: &str) -> (found: Result<(), Diag>)
        requires
            old(self).wf(),
            old(self).at < usize::MAX,
        ensures
            found is Ok == old(self).keyword_ahead(0, word@),
            final(self).moved_to(*old(self), if found is Ok { old(self).at + 1 } else { old(self).at as int }),
            found matches Err(error) ==> {
                &&& error.kind == crate::msg::SYNTAX
                &&& error.span == old(self).token_at(0).span
                &&& error.hint is None
                &&& error.msg@ == "키워드 불일치: '"@ + word@ + "' 기대하였으나: "@ + described(old(self).token_at(0).tok@)
            },
    {
        if self.accept_keyword(word) {
            return Ok(());
        }
        Err(Diag::syntax(crate::msg::not_keyword(word, describe(self.peek()).as_str()), self.span()))
    }

    /// Takes the verb `wanted`, which must come next.
    pub fn expect_verb_named(&mut self, wanted: &str) -> (found: Result<(), Diag>)
        requires
            old(self).wf(),
            old(self).at < usize::MAX,
        ensures
            found is Ok == (old(self).token_at(0).tok@ matches TokModel::Verb(name, _, _) && name == wanted@),
            final(self).moved_to(*old(self), if found is Ok { old(self).at + 1 } else { old(self).at as int }),
            found matches Err(error) ==> {
                &&& error.kind == crate::msg::SYNTAX
                &&& error.span == old(self).token_at(0).span
                &&& error.hint is None
                &&& error.msg@ == "키워드 불일치: '"@ + wanted@ + "' 기대하였으나: "@ + described(old(self).token_at(0).tok@)
            },
    {
        let named = match self.peek() {
            Tok::Verb { name, .. } => same_text(name.as_str(), wanted),
            _ => false,
        };
        if named {
            self.at += 1;
            return Ok(());
        }
        Err(Diag::syntax(crate::msg::not_keyword(wanted, describe(self.peek()).as_str()), self.span()))
    }

    /// Takes the period and the newline that end a statement.
    pub fn end_of_statement(&mut self) -> (found: Result<(), Diag>)
        requires
            old(self).wf(),
            old(self).at < usize::MAX - 1,
        ensures
            ({
                let first = old(self).token_at(0);
                let second = old(self).token_at(1);
                &&& found is Ok == (first.tok@ == TokModel::Symbol('.') && second.tok@ == TokModel::Newline)
                &&& final(self).moved_to(*old(self), if found is Ok {
                    old(self).at + 2
                } else if first.tok@ == TokModel::Symbol('.') {
                    old(self).at + 1
                } else {
                    old(self).at as int
                })
                &&& found matches Err(error) ==> {
                    let token = if first.tok@ == TokModel::Symbol('.') { second } else { first };
                    let what = if first.tok@ == TokModel::Symbol('.') { "줄바꿈이"@ } else { "'.'이"@ };
                    &&& error.kind == crate::msg::SYNTAX
                    &&& error.span == token.span
                    &&& error.hint is None
                    &&& error.msg@ == if token.tok@ == TokModel::Newline || token.tok@ == TokModel::Eof {
                        "줄바꿈시 누락됨: "@ + what
                    } else {
                        what + " 기대하였으나: "@ + described(token.tok@)
                    }
                }
            }),
    {
        let ghost before = *self;
        match self.expect(&Tok::Symbol('.'), crate::msg::WANT_PERIOD) {
            Ok(_) => {},
            Err(error) => {
                return Err(error);
            },
        }
        assert(self.token_at(0) == before.token_at(1));
        match self.expect(&Tok::Newline, crate::msg::WANT_NEWLINE) {
            Ok(_) => {},
            Err(error) => {
                return Err(error);
            },
        }
        Ok(())
    }
}

} // verus!
verus! {

proof fn lemma_line_end_bounds(tokens: Seq<Token>, i: int)
    ensures
        line_end_from(tokens, i) >= i,
        line_end_from(tokens, i) <= if i <= tokens.len() { tokens.len() as int } else { i },
    decreases tokens.len() - i,
{
    if i < tokens.len() && tokens[i].tok@ != TokModel::Newline {
        lemma_line_end_bounds(tokens, i + 1);
    }
}

impl<'a> Parser<'a> {
    /// The line ends with a head `… 것은:` that opens a definition.
    pub open spec fn definition_line(&self) -> bool {
        let end = line_end_from(self.tokens@, self.at as int);
        &&& end >= self.at + 3
        &&& self.token_index(end - 1).tok@ == TokModel::Symbol(':')
        &&& self.token_index(end - 2).tok@ matches TokModel::Particle(role, _) && role == "topic"@
        &&& self.token_index(end - 3).tok@ is Name
    }

    /// The line ends with `가져오다.`: an import.
    pub open spec fn import_line(&self) -> bool {
        let end = line_end_from(self.tokens@, self.at as int);
        &&& end >= self.at + 3
        &&& self.token_index(end - 1).tok@ == TokModel::Symbol('.')
        &&& self.token_index(end - 2).tok@ matches TokModel::Verb(name, _, _) && name == "가져오다"@
    }

    /// The line ends with `이다.` in its final form.
    pub open spec fn copula_line(&self) -> bool {
        let end = line_end_from(self.tokens@, self.at as int);
        &&& end >= self.at + 2
        &&& self.token_index(end - 1).tok@ == TokModel::Symbol('.')
        &&& self.token_index(end - 2).tok@ == TokModel::Copula(Ending::Final)
    }

    proof fn lemma_line_end_after(&self)
        ensures
            line_end_from(self.tokens@, self.at as int) >= self.at,
            line_end_from(self.tokens@, self.at as int) <= if self.at <= self.tokens@.len() { self.tokens@.len() as int } else { self.at as int },
    {
        lemma_line_end_bounds(self.tokens@, self.at as int);
    }

    pub fn looks_like_definition(&self) -> (found: bool)
        requires
            self.wf(),
        ensures
            found == self.definition_line(),
    {
        let end = self.line_end();
        proof {
            self.lemma_line_end_after();
        }
        if end - self.at < 3 {
            return false;
        }
        let colon = match self.tok_at(end - 1) {
            Tok::Symbol(found) => *found == ':',
            _ => false,
        };
        let topic = match self.tok_at(end - 2) {
            Tok::Particle { role, .. } => same_text(role, "topic"),
            _ => false,
        };
        let named = match self.tok_at(end - 3) {
            Tok::Name(_) => true,
            _ => false,
        };
        colon && topic && named
    }

    pub fn looks_like_import(&self) -> (found: bool)
        requires
            self.wf(),
        ensures
            found == self.import_line(),
    {
        let end = self.line_end();
        proof {
            self.lemma_line_end_after();
        }
        if end - self.at < 3 {
            return false;
        }
        let period = match self.tok_at(end - 1) {
            Tok::Symbol(found) => *found == '.',
            _ => false,
        };
        let takes = match self.tok_at(end - 2) {
            Tok::Verb { name, .. } => same_text(name.as_str(), "가져오다"),
            _ => false,
        };
        period && takes
    }

    pub fn ends_with_copula(&self) -> (found: bool)
        requires
            self.wf(),
        ensures
            found == self.copula_line(),
    {
        let end = self.line_end();
        proof {
            self.lemma_line_end_after();
        }
        if end - self.at < 2 {
            return false;
        }
        let period = match self.tok_at(end - 1) {
            Tok::Symbol(found) => *found == '.',
            _ => false,
        };
        let copula = match self.tok_at(end - 2) {
            Tok::Copula { ending } => *ending == Ending::Final,
            _ => false,
        };
        period && copula
    }

    /// `것은:` stands `offset` tokens ahead: the head of a definition.
    pub fn tail_is_head(&self, offset: usize) -> (found: bool)
        requires
            self.wf(),
            offset <= usize::MAX - 2,
        ensures
            found == {
                &&& self.token_at(offset as int).tok@ == TokModel::Name("것"@)
                &&& self.token_at(offset + 1).tok@ matches TokModel::Particle(role, _) && role == "topic"@
                &&& self.token_at(offset + 2).tok@ == TokModel::Symbol(':')
            },
    {
        let thing = match &self.ahead(offset).tok {
            Tok::Name(name) => same_text(name.as_str(), "것"),
            _ => false,
        };
        let topic = match &self.ahead(offset + 1).tok {
            Tok::Particle { role, .. } => same_text(role, "topic"),
            _ => false,
        };
        thing && topic && self.at_symbol(offset + 2, ':')
    }
}

} // verus!
verus! {

impl<'a> Parser<'a> {
    /// Takes what an import names: a name, and with `이다` after it the
    /// copula verb made from it (`수이다`), or a verb.
    pub fn import_name(&mut self) -> (found: Result<String, Diag>)
        requires
            old(self).wf(),
            old(self).at < usize::MAX - 1,
        ensures
            ({
                let token = old(self).token_at(0);
                let copula = old(self).token_at(1).tok@ == TokModel::Copula(Ending::Final);
                match token.tok@ {
                    TokModel::Name(name) => {
                        &&& found matches Ok(text) && text@ == if copula { name + "이다"@ } else { name }
                        &&& final(self).moved_to(*old(self), old(self).at + if copula { 2int } else { 1int })
                    },
                    TokModel::Verb(name, _, _) => {
                        &&& found matches Ok(text) && text@ == name
                        &&& final(self).moved_to(*old(self), old(self).at + 1)
                    },
                    _ => {
                        &&& final(self).moved_to(*old(self), old(self).at as int)
                        &&& found matches Err(error) && error.kind == crate::msg::SYNTAX
                            && error.span == token.span
                            && error.hint is None
                            && error.msg@ == "가져올 수 없는 식별자: "@ + described(token.tok@)
                    },
                }
            }),
    {
        let ghost before = *self;
        match self.peek() {
            Tok::Name(name) => {
                let mut text = owned(name.as_str());
                self.at += 1;
                assert(self.token_at(0) == before.token_at(1));
                let copula = match self.peek() {
                    Tok::Copula { ending } => *ending == Ending::Final,
                    _ => false,
                };
                if copula {
                    self.at += 1;
                    push_str(&mut text, "이다");
                }
                Ok(text)
            },
            Tok::Verb { name, .. } => {
                let text = owned(name.as_str());
                self.at += 1;
                Ok(text)
            },
            other => Err(Diag::syntax(crate::msg::not_import_name(describe(other).as_str()), self.span())),
        }
    }
}

} // verus!
verus! {

/// How reading the head of a definition ends.
pub enum HeadEnd {
    /// The verb or noun defined, with its parameters (each particle with
    /// the name it marks), and where reading stopped.
    Read(Seq<char>, Seq<(MarkerModel, Seq<char>)>, int),
    /// A verb where a dictionary form belongs, or a shape that is no head;
    /// at the token given.
    NotDictionary(Span, int),
    /// Something other than a name where a parameter belongs.
    NotPhrase(TokModel, Span, int),
    /// A parameter followed by `:` without `라는 것은`.
    NoQuotative(Span, int),
    /// A particle used twice.
    Twice(Seq<char>, Span, int),
}

/// Some parameter is marked by `particle`.
pub open spec fn marks(params: Seq<(MarkerModel, Seq<char>)>, particle: Seq<char>) -> bool {
    exists|k: int| 0 <= k < params.len() && #[trigger] params[k].0 == MarkerModel::Case(particle)
}

/// The token at `k`, or the last one past the end.
pub open spec fn token_in(tokens: Seq<Token>, k: int) -> Token {
    tokens[ahead_index(k, 0, tokens.len() as int)]
}

/// Reads a definition's head from token `i`, after `params`: pairs of a
/// name and a particle, up to the name and `라는` that end it.
pub open spec fn head_read(tokens: Seq<Token>, i: int, params: Seq<(MarkerModel, Seq<char>)>) -> HeadEnd
    decreases tokens.len() - i,
{
    let token = token_in(tokens, i);
    let after = token_in(tokens, i + 1);
    if i >= tokens.len() - 1 || i < 0 {
        HeadEnd::NotPhrase(token.tok@, token.span, i)
    } else if token.tok@ is Name && after.tok@ is Copula {
        if after.tok@ != TokModel::Copula(Ending::Quotative) {
            HeadEnd::NotDictionary(token.span, i)
        } else {
            HeadEnd::Read(token.tok@->Name_0, params, i + 2)
        }
    } else if token.tok@ is Verb || token.tok@ is Copula {
        HeadEnd::NotDictionary(token.span, i)
    } else if !(token.tok@ is Name) {
        HeadEnd::NotPhrase(token.tok@, token.span, i)
    } else if !(after.tok@ is Particle) {
        HeadEnd::NotDictionary(token.span, i)
    } else if token_in(tokens, i + 2).tok@ == TokModel::Symbol(':') {
        HeadEnd::NoQuotative(token.span, i)
    } else if token_in(tokens, i + 2).tok@ == TokModel::Name("것"@)
        && (token_in(tokens, i + 3).tok@ matches TokModel::Particle(role, _) && role == "topic"@)
        && token_in(tokens, i + 4).tok@ == TokModel::Symbol(':') {
        HeadEnd::NotDictionary(token.span, i)
    } else if marks(params, after.tok@->Particle_1) {
        HeadEnd::Twice(after.tok@->Particle_1, after.span, i)
    } else {
        head_read(tokens, i + 2, params.push((MarkerModel::Case(after.tok@->Particle_1), token.tok@->Name_0)))
    }
}

pub open spec fn head_params(params: Seq<(Marker, String)>) -> Seq<(MarkerModel, Seq<char>)> {
    Seq::new(params.len(), |k: int| (params[k].0@, params[k].1@))
}

fn marked(params: &Vec<(Marker, String)>, particle: &str) -> (found: bool)
    ensures
        found == marks(head_params(params@), particle@),
{
    let mut k: usize = 0;
    while k < params.len()
        invariant
            k <= params@.len(),
            forall|j: int| 0 <= j < k ==> head_params(params@)[j].0 != MarkerModel::Case(particle@),
        decreases params@.len() - k,
    {
        let same = match params[k].0 {
            Marker::Case(held) => same_text(held, particle),
            _ => false,
        };
        if same {
            assert(head_params(params@)[k as int].0 == MarkerModel::Case(particle@));
            return true;
        }
        k += 1;
    }
    false
}

impl<'a> Parser<'a> {
    /// Reads the head of a definition: its parameters, each a name and the
    /// particle that marks it, then the name defined and `라는`.
    pub fn definition_head(&mut self) -> (found: Result<(String, Vec<(Marker, String)>), Diag>)
        requires
            old(self).wf(),
        ensures
            match head_read(old(self).tokens@, old(self).at as int, Seq::empty()) {
                HeadEnd::Read(name, params, end) => {
                    &&& found matches Ok((head, taken))
                    &&& head@ == name
                    &&& head_params(taken@) == params
                    &&& final(self).moved_to(*old(self), end)
                },
                HeadEnd::NotDictionary(span, end) => {
                    &&& found matches Err(error)
                    &&& error.kind == crate::msg::SYNTAX
                    &&& error.msg@ == crate::msg::HEAD_NOT_DICT@
                    &&& error.hint matches Some(hint)
                    &&& hint@ == crate::msg::HEAD_NOT_DICT_HELP@
                    &&& error.span == span
                    &&& final(self).moved_to(*old(self), end)
                },
                HeadEnd::NotPhrase(tok, span, end) => {
                    &&& found matches Err(error)
                    &&& error.kind == crate::msg::SYNTAX
                    &&& error.msg@ == "정의는 식별자 + 조사로 시작해야 함: "@ + described(tok)
                    &&& error.hint is None
                    &&& error.span == span
                    &&& final(self).moved_to(*old(self), end)
                },
                HeadEnd::NoQuotative(span, end) => {
                    &&& found matches Err(error)
                    &&& error.kind == crate::msg::SYNTAX
                    &&& error.msg@ == crate::msg::HEAD_NO_QUOTATIVE@
                    &&& error.hint is None
                    &&& error.span == span
                    &&& final(self).moved_to(*old(self), end)
                },
                HeadEnd::Twice(particle, span, end) => {
                    &&& found matches Err(error)
                    &&& error.kind == crate::msg::SYNTAX
                    &&& error.msg@ == "조사 '"@ + particle + "'가 두 번 포함됨"@
                    &&& error.hint is None
                    &&& error.span == span
                    &&& final(self).moved_to(*old(self), end)
                },
            },
    {
        let ghost start = *self;
        let mut params: Vec<(Marker, String)> = Vec::new();
        assert(head_params(params@) =~= Seq::<(MarkerModel, Seq<char>)>::empty());
        loop
            invariant
                start == *old(self),
                self.wf(),
                self.moved_to(start, self.at as int),
                head_read(start.tokens@, start.at as int, Seq::empty())
                    == head_read(self.tokens@, self.at as int, head_params(params@)),
            decreases self.tokens@.len() - self.at,
        {
            let token = self.ahead(0);
            let after = self.ahead(1);
            if self.at >= self.tokens.len() - 1 {
                return Err(Diag::syntax(crate::msg::head_not_phrase(describe(&token.tok).as_str()), token.span));
            }
            match (&token.tok, &after.tok) {
                (Tok::Name(name), Tok::Copula { ending }) => {
                    if *ending != Ending::Quotative {
                        return Err(not_dictionary_form(token.span));
                    }
                    let name = owned(name.as_str());
                    self.at += 2;
                    return Ok((name, params));
                },
                _ => {},
            }
            match &token.tok {
                Tok::Verb { .. } | Tok::Copula { .. } => {
                    return Err(not_dictionary_form(token.span));
                },
                _ => {},
            }
            let name = match &token.tok {
                Tok::Name(name) => name,
                _ => {
                    return Err(Diag::syntax(crate::msg::head_not_phrase(describe(&token.tok).as_str()), token.span));
                },
            };
            let canon = match &after.tok {
                Tok::Particle { canon, .. } => *canon,
                _ => {
                    return Err(not_dictionary_form(token.span));
                },
            };
            if self.at_symbol(2, ':') {
                return Err(Diag::syntax(owned(crate::msg::HEAD_NO_QUOTATIVE), token.span));
            }
            if self.tail_is_head(2) {
                return Err(not_dictionary_form(token.span));
            }
            if marked(&params, canon) {
                return Err(Diag::syntax(crate::msg::head_twice(canon), after.span));
            }
            let ghost before = head_params(params@);
            params.push((Marker::Case(canon), owned(name.as_str())));
            assert(head_params(params@) =~= before.push((MarkerModel::Case(canon@), name@)));
            self.at += 2;
        }
    }
}

} // verus!
