//! Reading values out of a sentence: a single value, the field names that
//! follow it, a run of values joined by `와`/`과`, the expression embedded
//! in a template, and the condition of `만약`.

use vstd::prelude::*;

use crate::ast::{CallExpr, Expr, Literal, PassiveExpr, Slot, TemplatePart};
use crate::chars::{chars_of, owned, same_text};
use crate::diag::{Diag, Span};
use crate::hangul::{Ending, Pos};
use crate::lex::{Num, NumModel, Part, PartModel, Tok, TokModel, Token};
use crate::parse::{copula_slots, describe, described, ending_label, fold_comparison, Parser, VerbInfo};
use crate::sig::Marker;

verus! {

/// Whether a keyword stands for a value: `참`, `거짓`, `없음`, or `묶음`
/// (an empty table).
pub open spec fn literal_word(word: Seq<char>) -> bool {
    word == "참"@ || word == "거짓"@ || word == "없음"@ || word == "묶음"@
}

/// Whether a token is a value by itself.
pub open spec fn reads_as_value(tok: TokModel) -> bool {
    match tok {
        TokModel::Number(_) => true,
        TokModel::Str(_) => true,
        TokModel::Template(_) => true,
        TokModel::Name(_) => true,
        TokModel::Keyword(word) => literal_word(word),
        _ => false,
    }
}

/// The pieces of a read template answer to the pieces of its token: each
/// text as it is, each embedded expression read.
pub open spec fn template_read(parts: Seq<PartModel>, made: Seq<TemplatePart>) -> bool {
    &&& made.len() == parts.len()
    &&& forall|i: int|
        0 <= i < parts.len() ==> match #[trigger] parts[i] {
            PartModel::Text(text) => made[i] matches TemplatePart::Text(held) && held@ == text,
            PartModel::Expr(_, _) => made[i] is Expr,
        }
}

/// What a token that is a value by itself reads as.
pub open spec fn leaf_read(token: Token, found: Result<Expr, Diag>) -> bool {
    match token.tok@ {
        TokModel::Number(NumModel::Int(value)) => found matches Ok(
            Expr::Literal { value: Literal::Int(held), span },
        ) && held == value && span == token.span,
        TokModel::Number(NumModel::Float(text)) => found matches Ok(
            Expr::Literal { value: Literal::Float(held), span },
        ) && held@ == text && span == token.span,
        TokModel::Str(text) => found matches Ok(Expr::Literal { value: Literal::Str(held), span })
            && held@ == text && span == token.span,
        TokModel::Name(text) => found matches Ok(Expr::Name { name, span }) && name@ == text && span
            == token.span,
        TokModel::Keyword(word) => if word == "참"@ || word == "거짓"@ {
            found matches Ok(Expr::Literal { value: Literal::Bool(held), span }) && held == (word
                == "참"@) && span == token.span
        } else if word == "없음"@ {
            found matches Ok(Expr::Literal { value: Literal::Nothing, span }) && span == token.span
        } else {
            found matches Ok(Expr::Table { items, entries, span }) && items@.len() == 0
                && entries@.len() == 0 && span == token.span
        },
        TokModel::Template(parts) => match found {
            Ok(made) => made matches Expr::Template { parts: pieces, span } && span == token.span
                && template_read(parts, pieces@),
            Err(_) => exists|i: int| 0 <= i < parts.len() && #[trigger] parts[i] is Expr,
        },
        _ => false,
    }
}

/// The error for a token that is no value.
pub open spec fn not_a_value_at(token: Token, found: Result<Expr, Diag>) -> bool {
    &&& found matches Err(error)
    &&& error.kind == crate::msg::SYNTAX
    &&& error.msg@ == "값이 아님: "@ + described(token.tok@)
    &&& error.span == token.span
    &&& error.hint is None
    &&& error.unit is None
}

/// A clause read as a condition: a call that neither asks nor names a
/// result.
pub open spec fn clause(expr: Expr) -> bool {
    expr matches Expr::Call(call) && !call.asks && call.tail is None
}

/// What a condition reads as: clauses joined, in order, by "and" and "or",
/// each join holding what came before on its left.
pub open spec fn condition_shape(expr: Expr) -> bool
    decreases expr,
{
    match expr {
        Expr::Call(_) => clause(expr),
        Expr::And { left, right, .. } => condition_shape(*left) && clause(*right),
        Expr::Or { left, right, .. } => condition_shape(*left) && clause(*right),
        _ => false,
    }
}

/// A token ahead that is not the end token stands before the last one.
pub proof fn lemma_not_last(p: Parser, k: int)
    requires
        p.wf(),
        0 <= k,
    ensures
        p.token_at(k).tok@ != TokModel::Eof ==> p.at + k < p.tokens@.len() - 1,
{
}

impl<'a> Parser<'a> {
    /// Well formed, and standing on one of its tokens.
    pub open spec fn within(&self) -> bool {
        &&& self.wf()
        &&& self.at < self.tokens@.len()
        &&& self.tokens@.len() <= usize::MAX
    }

    /// Only the place moved, and only forward.
    pub open spec fn went_on(&self, before: Parser<'a>) -> bool {
        &&& self.tokens == before.tokens
        &&& self.program == before.program
        &&& self.base_dir == before.base_dir
        &&& self.errors == before.errors
        &&& self.room == before.room
        &&& self.at >= before.at
    }

    /// Whether `name` is one of the modules the program takes.
    pub fn knows_module(&self, name: &str) -> (found: bool)
        ensures
            found == crate::words::string_view(self.program.modules@).contains(name@),
    {
        let mut i: usize = 0;
        while i < self.program.modules.len()
            invariant
                i <= self.program.modules@.len(),
                forall|j: int| 0 <= j < i ==> self.program.modules@[j]@ != name@,
            decreases self.program.modules@.len() - i,
        {
            if same_text(self.program.modules[i].as_str(), name) {
                assert(crate::words::string_view(self.program.modules@)[i as int] == name@);
                return true;
            }
            i += 1;
        }
        proof {
            if crate::words::string_view(self.program.modules@).contains(name@) {
                let k = choose|k: int|
                    0 <= k < crate::words::string_view(self.program.modules@).len()
                        && crate::words::string_view(self.program.modules@)[k] == name@;
                assert(self.program.modules@[k]@ == name@);
            }
        }
        false
    }

    /// Reads one value: a number, a string, a template (its embedded
    /// expressions read in turn), `참`, `거짓`, `없음`, `묶음` (an empty
    /// table), or a name. Anything else is no value, and the place stays.
    pub fn primary(&mut self) -> (found: Result<Expr, Diag>)
        requires
            old(self).within(),
        ensures
            final(self).within(),
            ({
                let before = *old(self);
                let token = before.token_at(0);
                if reads_as_value(token.tok@) {
                    &&& final(self).moved_to(before, before.at + 1)
                    &&& leaf_read(token, found)
                } else {
                    &&& final(self).moved_to(before, before.at as int)
                    &&& not_a_value_at(token, found)
                }
            }),
        decreases old(self).room, old(self).tokens@.len() - old(self).at, 1nat,
    {
        let token = self.ahead(0);
        let span = token.span;
        proof {
            lemma_not_last(*self, 0);
        }
        match &token.tok {
            Tok::Number(Num::Int(value)) => {
                self.at += 1;
                Ok(Expr::Literal { value: Literal::Int(*value), span })
            },
            Tok::Number(Num::Float(text)) => {
                self.at += 1;
                Ok(Expr::Literal { value: Literal::Float(owned(text.as_str())), span })
            },
            Tok::Str(text) => {
                self.at += 1;
                Ok(Expr::Literal { value: Literal::Str(owned(text.as_str())), span })
            },
            Tok::Template(parts) => {
                self.at += 1;
                let mut made: Vec<TemplatePart> = Vec::new();
                let mut i: usize = 0;
                while i < parts.len()
                    invariant
                        i <= parts@.len(),
                        self.moved_to(*old(self), old(self).at + 1),
                        self.within(),
                        made@.len() == i,
                        token.tok == Tok::Template(*parts),
                        *token == old(self).token_at(0),
                        forall|j: int|
                            0 <= j < i ==> match #[trigger] parts@[j]@ {
                                PartModel::Text(text) => made@[j] matches TemplatePart::Text(held)
                                    && held@ == text,
                                PartModel::Expr(_, _) => made@[j] is Expr,
                            },
                    decreases parts@.len() - i,
                {
                    match &parts[i] {
                        Part::Text(text) => {
                            made.push(TemplatePart::Text(owned(text.as_str())));
                        },
                        Part::Expr { source, span: at } => {
                            let value = match self.fragment(source, *at) {
                                Ok(value) => value,
                                Err(error) => {
                                    proof {
                                        assert(old(self).token_at(0) == *token);
                                        let ghost models = token.tok@->Template_0;
                                        assert(models[i as int] == parts@[i as int]@);
                                        assert(models[i as int] is Expr);
                                    }
                                    return Err(error);
                                },
                            };
                            made.push(TemplatePart::Expr(value));
                        },
                    }
                    i += 1;
                }
                proof {
                    let ghost models = token.tok@->Template_0;
                    assert forall|j: int| 0 <= j < models.len() implies match #[trigger] models[j] {
                        PartModel::Text(text) => made@[j] matches TemplatePart::Text(held) && held@
                            == text,
                        PartModel::Expr(_, _) => made@[j] is Expr,
                    } by {
                        assert(models[j] == parts@[j]@);
                    }
                }
                Ok(Expr::Template { parts: made, span })
            },
            Tok::Keyword(word) => {
                if same_text(word.as_str(), "참") || same_text(word.as_str(), "거짓") {
                    let value = same_text(word.as_str(), "참");
                    self.at += 1;
                    Ok(Expr::Literal { value: Literal::Bool(value), span })
                } else if same_text(word.as_str(), "없음") {
                    self.at += 1;
                    Ok(Expr::Literal { value: Literal::Nothing, span })
                } else if same_text(word.as_str(), "묶음") {
                    self.at += 1;
                    Ok(Expr::Table { items: Vec::new(), entries: Vec::new(), span })
                } else {
                    Err(Diag::syntax(crate::msg::not_a_value(describe(&token.tok).as_str()), span))
                }
            },
            Tok::Name(name) => {
                self.at += 1;
                Ok(Expr::Name { name: owned(name.as_str()), span })
            },
            other => Err(Diag::syntax(crate::msg::not_a_value(describe(other).as_str()), span)),
        }
    }

    /// Reads the expression embedded in a template: `source` is lexed with
    /// the program's words, its places are moved onto the line of `at`
    /// (columns counted from `at`'s), and it is read to its end as one
    /// value. A lexical error in it is reported at `at`. Text nested deeper
    /// than the parser has room for, or too long to lex, is refused.
    pub fn fragment(&self, source: &String, at: Span) -> (found: Result<Expr, Diag>)
        requires
            self.within(),
        ensures
            self.room == 0 ==> (found matches Err(error) && error.msg@ == crate::msg::TOO_DEEP@
                && error.span == at),
            self.room > 0 && source@.len() < usize::MAX / 4 ==> match crate::lex::spec_tokenize(
                crate::words::string_view(self.program.vocab.names@),
                self.program.vocab.declared(),
                source@,
            ) {
                Err((message, _)) => (found matches Err(error) && error.kind == crate::msg::LEX
                    && error.msg@ == message && error.span == at),
                Ok(_) => true,
            },
        decreases self.room, self.tokens@.len() - self.at, 0nat,
    {
        if self.room == 0 {
            return Err(Diag::syntax(owned(crate::msg::TOO_DEEP), at));
        }
        let size = chars_of(source.as_str()).len();
        if size >= usize::MAX / 4 {
            return Err(Diag::syntax(owned(crate::msg::TOO_LONG), at));
        }
        let mut tokens = match crate::lex::tokenize(source.as_str(), &self.program.vocab) {
            Ok(found) => found,
            Err(error) => {
                return Err(Diag { kind: error.kind, msg: error.msg, hint: error.hint, span: at, unit: error.unit });
            },
        };
        proof {
            crate::lex::law_tokens_balanced(
                crate::words::string_view(self.program.vocab.names@),
                self.program.vocab.declared(),
                source@,
            );
            assert(crate::lex::tokens_view(tokens@).last() == tokens@.last()@);
        }
        let ghost lexed = tokens@;
        let mut i: usize = 0;
        while i < tokens.len()
            invariant
                i <= tokens@.len(),
                tokens@.len() == lexed.len(),
                forall|j: int| 0 <= j < tokens@.len() ==> #[trigger] tokens@[j].tok == lexed[j].tok,
            decreases tokens@.len() - i,
        {
            let here = tokens[i].span;
            let moved = Span::new(at.line, at.col.saturating_add(here.col), at.col.saturating_add(here.end));
            let mut token = tokens.remove(i);
            token.span = moved;
            tokens.insert(i, token);
            i += 1;
        }
        let mut inner = Parser {
            tokens: &tokens,
            at: 0,
            program: self.program,
            base_dir: self.base_dir,
            errors: Vec::new(),
            inside: false,
            plan: Vec::new(),
            picks: Vec::new(),
            stuck: false,
            room: self.room - 1,
        };
        assert(inner.tokens@.last().tok == lexed.last().tok);
        inner.reduce_until(crate::msg::WANT_EMBEDDED)
    }

    /// Reads to the end of the line as one value: verbs are applied to the
    /// values read before them as they come. Anything but exactly one value
    /// at the end is an error that names `what`.
    pub fn reduce_until(&mut self, what: &str) -> (found: Result<Expr, Diag>)
        requires
            old(self).within(),
        ensures
            final(self).within(),
            final(self).went_on(*old(self)),
            found is Ok ==> (final(self).token_at(0).tok@ is Newline || final(self).token_at(0).tok@ is Eof),
        decreases old(self).room, old(self).tokens@.len() - old(self).at, 3nat,
    {
        let mut slots: Vec<Slot> = Vec::new();
        loop
            invariant
                self.within(),
                self.went_on(*old(self)),
            decreases self.tokens@.len() - self.at,
        {
            let token = self.ahead(0);
            let stop = match &token.tok {
                Tok::Newline => true,
                Tok::Eof => true,
                _ => false,
            };
            if stop {
                if slots.len() != 1 {
                    let mark = crate::hangul::subject_particle(what);
                    return Err(Diag::syntax(crate::msg::not_one(what, mark), token.span));
                }
                let value = slots.pop().unwrap();
                return Ok(value.expr);
            }
            proof {
                lemma_not_last(*self, 0);
                lemma_not_last(*self, 1);
            }
            let count = self.tokens.len();
            assert(self.at < count - 1);
            let verbal = match &token.tok {
                Tok::Verb { .. } => true,
                Tok::Copula { .. } => true,
                _ => false,
            };
            let ghost start = self.at;
            if verbal {
                let info = self.take_verb()?;
                assert(self.at > start);
                let (value, kept) = self.reduce(slots, info)?;
                slots = kept;
                self.push(&mut slots, value)?;
            } else {
                let value = self.primary()?;
                self.push(&mut slots, value)?;
            }
        }
    }
    /// Reads the condition of `만약` up to the verb in the conditional
    /// ending (`-면`). Values are read and given to the verbs after them;
    /// a verb in an adnominal ending makes a value for the verbs to come;
    /// any other verb closes a clause: it gets the subject of the clause
    /// before when it has none, and a copula folds a comparison word. The
    /// clauses are joined in order: after `-고` by "and", after `-거나` by
    /// "or". `아니면` after some values stands for "is not". A clause closed
    /// in any other ending is an error.
    pub fn condition(&mut self) -> (found: Result<Expr, Diag>)
        requires
            old(self).within(),
        ensures
            final(self).within(),
            final(self).went_on(*old(self)),
            found matches Ok(made) ==> condition_shape(made) && final(self).at > old(self).at,
    {
        let mut left: Option<Expr> = None;
        let mut any = false;
        let mut subject: Option<Expr> = None;
        let mut slots: Vec<Slot> = Vec::new();
        loop
            invariant
                self.within(),
                self.went_on(*old(self)),
                left matches Some(made) ==> condition_shape(made),
            decreases self.tokens@.len() - self.at,
        {
            proof {
                lemma_not_last(*self, 0);
                lemma_not_last(*self, 1);
            }
            let ghost start = self.at;
            let token = self.ahead(0);
            let negated_else = self.keyword_at(0, "아니면") && slots.len() > 0;
            let verbal = match &token.tok {
                Tok::Verb { .. } => true,
                Tok::Copula { .. } => true,
                _ => false,
            };
            if !negated_else && !verbal {
                let value = self.primary()?;
                self.push(&mut slots, value)?;
                continue;
            }
            let info = if negated_else {
                self.at += 1;
                VerbInfo { name: owned("이다"), pos: Pos::Descriptive, ending: Ending::Conditional, negated: true, span: token.span }
            } else {
                self.take_verb()?
            };
            assert(self.at > start);
            let adnominal = match info.ending {
                Ending::AdnominalPast => true,
                Ending::AdnominalPres => true,
                _ => false,
            };
            if adnominal {
                let (value, kept) = self.reduce(slots, info)?;
                slots = kept;
                self.push(&mut slots, value)?;
                continue;
            }
            carry_subject(&mut slots, &mut subject);
            let taken = slots;
            slots = Vec::new();
            let (taken, info) = if same_text(info.name.as_str(), "이다") {
                fold_comparison(copula_slots(taken), info)
            } else {
                (taken, info)
            };
            let span = info.span;
            let ending = info.ending;
            let piece = Expr::Call(Box::new(CallExpr { verb: info.name, slots: taken, negated: info.negated, asks: false, tail: None, span }));
            let joined = match left {
                None => piece,
                Some(before) => if any {
                    Expr::Or { left: Box::new(before), right: Box::new(piece), span }
                } else {
                    Expr::And { left: Box::new(before), right: Box::new(piece), span }
                },
            };
            match ending {
                Ending::Conditional => {
                    return Ok(joined);
                },
                Ending::Conjunctive => {
                    any = false;
                },
                Ending::Alternative => {
                    any = true;
                },
                other => {
                    return Err(Diag::syntax(crate::msg::cond_bad_ending(ending_label(other)), span));
                },
            }
            left = Some(joined);
        }
    }

    /// Whether a run of joined values goes on here: a joining particle, then
    /// a token that starts a value and is not the name of a predicate.
    pub fn joins_on(&self) -> (found: bool)
        requires
            self.within(),
        ensures
            found == (self.token_at(0).tok@ matches TokModel::Particle(role, _) && role == "conj"@
                && crate::parse::spec_starts_value(self.token_at(1).tok@) && !(self.token_at(
                1,
            ).tok@ matches TokModel::Name(name) && self.token_at(2).tok@ is Copula
                && self.program.signatures@.contains_key(name + "이다"@))),
    {
        let joining = match self.peek() {
            Tok::Particle { role, .. } => same_text(role, "conj"),
            _ => false,
        };
        joining && crate::parse::starts_value(&self.ahead(1).tok) && !self.starts_predicate(1)
    }

    /// Reads the field names that follow a value: each `의` with a name
    /// after it that is not a module's and is not followed by the copula in
    /// any ending but the final one makes a field of what was read so far.
    pub fn chain(&mut self, first: Expr) -> (found: Expr)
        requires
            old(self).within(),
        ensures
            final(self).within(),
            final(self).moved_to(*old(self), final(self).at as int),
            final(self).at >= old(self).at,
            !(old(self).token_at(0).tok@ matches TokModel::Particle(_, canon) && canon == "의"@)
                ==> (found == first && final(self).at == old(self).at),
    {
        let mut value = first;
        loop
            invariant
                self.within(),
                self.moved_to(*old(self), self.at as int),
                self.at >= old(self).at,
                self.at == old(self).at ==> value == first,
                self.at > old(self).at ==> (old(self).token_at(0).tok@ matches TokModel::Particle(_, canon) && canon == "의"@),
            decreases self.tokens@.len() - self.at,
        {
            let particle = match self.peek() {
                Tok::Particle { canon, .. } => same_text(canon, "의"),
                _ => false,
            };
            if !particle {
                return value;
            }
            let field = match &self.ahead(1).tok {
                Tok::Name(field) => field,
                _ => {
                    return value;
                },
            };
            if self.knows_module(field.as_str()) {
                return value;
            }
            let other_copula = match &self.ahead(2).tok {
                Tok::Copula { ending } => match ending {
                    Ending::Final => false,
                    _ => true,
                },
                _ => false,
            };
            if other_copula {
                return value;
            }
            proof {
                lemma_not_last(*self, 1);
            }
            let span = self.ahead(1).span;
            let name = owned(field.as_str());
            self.at += 2;
            value = Expr::Field { owner: Box::new(value), name, span };
        }
    }

    /// Reads a value as an argument: the value with the fields after it,
    /// the values joined to it (all of them then make one table, in order),
    /// and the particle after them, which marks the slot (`의` after a
    /// module's name marks a module; no particle leaves it bare). The slot
    /// is added after the others.
    pub fn push(&mut self, slots: &mut Vec<Slot>, first: Expr) -> (found: Result<(), Diag>)
        requires
            old(self).within(),
        ensures
            final(self).within(),
            final(self).moved_to(*old(self), final(self).at as int),
            final(self).at >= old(self).at,
            found is Ok ==> (final(slots)@.len() == old(slots)@.len() + 1 && final(slots)@.take(
                old(slots)@.len() as int,
            ) == old(slots)@),
            found is Err ==> final(slots)@ == old(slots)@,
        decreases old(self).room, old(self).tokens@.len() - old(self).at, 2nat,
    {
        let mut items: Vec<Expr> = Vec::new();
        let value = self.chain(first);
        items.push(value);
        while self.joins_on()
            invariant
                self.within(),
                self.moved_to(*old(self), self.at as int),
                self.at >= old(self).at,
                items@.len() >= 1,
                slots@ == old(slots)@,
            decreases self.tokens@.len() - self.at,
        {
            proof {
                lemma_not_last(*self, 0);
            }
            self.at += 1;
            let next = self.primary()?;
            let next = self.chain(next);
            items.push(next);
        }
        let value = if items.len() == 1 {
            items.pop().unwrap()
        } else {
            let span = items[0].span();
            Expr::Table { items, entries: Vec::new(), span }
        };
        let mut marker = Marker::Bare;
        match self.peek() {
            Tok::Particle { canon, .. } => {
                let canon: &'static str = *canon;
                let namespace = same_text(canon, "의") && match value.as_name() {
                    Some(name) => self.knows_module(name),
                    None => false,
                };
                proof {
                    lemma_not_last(*self, 0);
                }
                self.at += 1;
                marker = if namespace {
                    Marker::Module
                } else {
                    Marker::Case(canon)
                };
            },
            _ => {},
        }
        slots.push(Slot { marker, expr: value });
        proof {
            assert(slots@.take(old(slots)@.len() as int) =~= old(slots)@);
        }
        Ok(())
    }
}

fn copy_literal(value: &Literal) -> (made: Literal) {
    match value {
        Literal::Nothing => Literal::Nothing,
        Literal::Int(n) => Literal::Int(*n),
        Literal::Float(text) => Literal::Float(owned(text.as_str())),
        Literal::Str(text) => Literal::Str(owned(text.as_str())),
        Literal::Bool(b) => Literal::Bool(*b),
    }
}

fn copy_slots(slots: &Vec<Slot>) -> (made: Vec<Slot>)
    decreases slots,
{
    let mut made: Vec<Slot> = Vec::new();
    let mut i: usize = 0;
    while i < slots.len()
        decreases slots@.len() - i,
    {
        proof {
            assert(decreases_to!(slots => slots@[i as int]));
        }
        made.push(Slot { marker: slots[i].marker, expr: copy_expr(&slots[i].expr) });
        i += 1;
    }
    made
}

fn copy_exprs(items: &Vec<Expr>) -> (made: Vec<Expr>)
    decreases items,
{
    let mut made: Vec<Expr> = Vec::new();
    let mut i: usize = 0;
    while i < items.len()
        decreases items@.len() - i,
    {
        proof {
            assert(decreases_to!(items => items@[i as int]));
        }
        made.push(copy_expr(&items[i]));
        i += 1;
    }
    made
}

fn copy_entries(entries: &Vec<(String, Expr)>) -> (made: Vec<(String, Expr)>)
    decreases entries,
{
    let mut made: Vec<(String, Expr)> = Vec::new();
    let mut i: usize = 0;
    while i < entries.len()
        decreases entries@.len() - i,
    {
        proof {
            assert(decreases_to!(entries => entries@[i as int]));
        }
        let (key, value) = &entries[i];
        made.push((owned(key.as_str()), copy_expr(value)));
        i += 1;
    }
    made
}

fn copy_parts(parts: &Vec<TemplatePart>) -> (made: Vec<TemplatePart>)
    decreases parts,
{
    let mut made: Vec<TemplatePart> = Vec::new();
    let mut i: usize = 0;
    while i < parts.len()
        decreases parts@.len() - i,
    {
        proof {
            assert(decreases_to!(parts => parts@[i as int]));
        }
        match &parts[i] {
            TemplatePart::Text(text) => made.push(TemplatePart::Text(owned(text.as_str()))),
            TemplatePart::Expr(inner) => made.push(TemplatePart::Expr(copy_expr(inner))),
        }
        i += 1;
    }
    made
}

/// A copy of an expression, made part by part.
fn copy_expr(expr: &Expr) -> (made: Expr)
    decreases expr,
{
    match expr {
        Expr::Literal { value, span } => Expr::Literal { value: copy_literal(value), span: *span },
        Expr::Name { name, span } => Expr::Name { name: owned(name.as_str()), span: *span },
        Expr::Table { items, entries, span } => Expr::Table {
            items: copy_exprs(items),
            entries: copy_entries(entries),
            span: *span,
        },
        Expr::Template { parts, span } => Expr::Template { parts: copy_parts(parts), span: *span },
        Expr::Field { owner, name, span } => Expr::Field {
            owner: Box::new(copy_expr(owner)),
            name: owned(name.as_str()),
            span: *span,
        },
        Expr::Pick { owner, key, span } => Expr::Pick {
            owner: Box::new(copy_expr(owner)),
            key: Box::new(copy_expr(key)),
            span: *span,
        },
        Expr::Spot { owner, place, span } => Expr::Spot {
            owner: Box::new(copy_expr(owner)),
            place: Box::new(copy_expr(place)),
            span: *span,
        },
        Expr::Call(call) => Expr::Call(
            Box::new(
                CallExpr {
                    verb: owned(call.verb.as_str()),
                    slots: copy_slots(&call.slots),
                    negated: call.negated,
                    asks: call.asks,
                    tail: match &call.tail {
                        Some(tail) => Some(owned(tail.as_str())),
                        None => None,
                    },
                    span: call.span,
                },
            ),
        ),
        Expr::Passive(passive) => Expr::Passive(
            Box::new(
                PassiveExpr {
                    verb: owned(passive.verb.as_str()),
                    head: copy_expr(&passive.head),
                    slots: copy_slots(&passive.slots),
                    span: passive.span,
                },
            ),
        ),
        Expr::And { left, right, span } => Expr::And {
            left: Box::new(copy_expr(left)),
            right: Box::new(copy_expr(right)),
            span: *span,
        },
        Expr::Or { left, right, span } => Expr::Or {
            left: Box::new(copy_expr(left)),
            right: Box::new(copy_expr(right)),
            span: *span,
        },
    }
}

/// Whether some slot is the subject.
pub open spec fn has_subject(slots: Seq<Slot>) -> bool {
    exists|i: int| 0 <= i < slots.len() && #[trigger] crate::parse::subject_slot(slots[i])
}

fn is_subject(marker: &Marker) -> (found: bool)
    ensures
        found == (marker@ == crate::sig::MarkerModel::Case("가"@)),
{
    match marker {
        Marker::Case(particle) => same_text(particle, "가"),
        _ => false,
    }
}

/// Carries the subject of an earlier clause into one that has none: the
/// subject seen last is put first, marked `가`. Then the subject is the
/// last one these slots name, if they name one.
pub fn carry_subject(slots: &mut Vec<Slot>, subject: &mut Option<Expr>)
    ensures
        !has_subject(old(slots)@) && *old(subject) is Some ==> {
            &&& final(slots)@.len() == old(slots)@.len() + 1
            &&& final(slots)@.skip(1) == old(slots)@
            &&& crate::parse::subject_slot(final(slots)@[0])
        },
        !(!has_subject(old(slots)@) && *old(subject) is Some) ==> final(slots)@ == old(slots)@,
        (*final(subject) is Some) == (*old(subject) is Some || has_subject(old(slots)@)),
{
    let mut any = false;
    let mut i: usize = 0;
    while i < slots.len()
        invariant
            i <= slots@.len(),
            any == exists|j: int| 0 <= j < i && #[trigger] crate::parse::subject_slot(slots@[j]),
        decreases slots@.len() - i,
    {
        let here = is_subject(&slots[i].marker);
        proof {
            assert(crate::parse::subject_slot(slots@[i as int]) == here);
            if !here {
                assert forall|j: int| 0 <= j < i + 1 && #[trigger] crate::parse::subject_slot(slots@[j]) implies 0 <= j < i by {
                    if j == i {
                        assert(!crate::parse::subject_slot(slots@[i as int]));
                    }
                }
            }
        }
        if here {
            any = true;
        }
        i += 1;
    }
    if !any {
        let carried = match &*subject {
            Some(found) => Some(copy_expr(found)),
            None => None,
        };
        match carried {
            Some(expr) => {
                let ghost before = slots@;
                slots.insert(0, Slot { marker: Marker::Case("가"), expr });
                assert(slots@.skip(1) =~= before);
                assert(crate::parse::subject_slot(slots@[0]));
            },
            None => {},
        }
    }
    let ghost held = slots@;
    let ghost was = *subject;
    let mut i: usize = 0;
    while i < slots.len()
        invariant
            i <= slots@.len(),
            slots@ == held,
            (*subject is Some) == (was is Some || exists|j: int| 0 <= j < i && #[trigger] crate::parse::subject_slot(held[j])),
        decreases slots@.len() - i,
    {
        let here = is_subject(&slots[i].marker);
        proof {
            assert(crate::parse::subject_slot(held[i as int]) == here);
            if !here {
                assert forall|j: int| 0 <= j < i + 1 && #[trigger] crate::parse::subject_slot(held[j]) implies 0 <= j < i by {
                    if j == i {
                        assert(!crate::parse::subject_slot(held[i as int]));
                    }
                }
            }
        }
        if here {
            *subject = Some(copy_expr(&slots[i].expr));
        }
        i += 1;
    }
    proof {
        if has_subject(held) {
            let j = choose|j: int| 0 <= j < held.len() && #[trigger] crate::parse::subject_slot(held[j]);
            assert(crate::parse::subject_slot(held[j]));
        }
        if !any && was is Some {
            assert(crate::parse::subject_slot(held[0]));
        }
    }
}

} // verus!
