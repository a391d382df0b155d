//! A Korean-grammar programming language: messages, the Hangul morphology
//! that its words are built from, the lexer, reading values and conditions
//! out of sentences, the syntax tree and the lowered program with their
//! dumps, the definite-assignment check, the check for values that may be
//! 없음, name tables and load order, and the small pieces of its runtime
//! that compute on plain values.

use vstd::prelude::*;

pub mod assign;
pub mod ast;
pub mod builtins;
pub mod chars;
pub mod diag;
pub mod dump;
pub mod emit;
pub mod hangul;
pub mod hir;
pub mod intern;
pub mod lex;
pub mod load;
pub mod msg;
pub mod nothing;
pub mod ops;
pub mod parse;
pub mod phrase;
pub mod prescan;
pub mod order;
pub mod report;
pub mod resolve;
pub mod reuse;
pub mod sig;
pub mod text;
pub mod types;
pub mod value;
pub mod words;

verus! {

/// Why a source could not be taken further: the errors found, and the
/// loaded units they point into, once loading got that far.
pub struct Failure {
    pub loaded: Option<load::Loaded>,
    pub errors: Vec<diag::Diag>,
}

/// One error rendered against `source`, read from `path`.
#[verifier::opaque]
pub open spec fn diag_text(error: diag::Diag, source: Seq<char>, path: Seq<char>, colored: bool) -> Seq<char> {
    report::render_text(
        error.kind@,
        error.msg@,
        chars::view_opt(error.hint),
        path,
        Some(source),
        error.span.line as nat,
        error.span.col as nat,
        error.span.end as nat,
        colored,
    )
}

/// The errors rendered against one source, a newline between two.
pub open spec fn joined_text(errors: Seq<diag::Diag>, source: Seq<char>, path: Seq<char>, colored: bool) -> Seq<char>
    decreases errors.len(),
{
    if errors.len() == 0 {
        seq![]
    } else if errors.len() == 1 {
        diag_text(errors[0], source, path, colored)
    } else {
        joined_text(errors.drop_last(), source, path, colored) + "\n"@ + diag_text(errors.last(), source, path, colored)
    }
}

/// A failure rendered: its errors, against their units when the source
/// was loaded and against `source` otherwise, then, when there are several,
/// the line that says how many.
pub open spec fn failure_text(failure: Failure, source: Seq<char>, path: Seq<char>, colored: bool) -> Seq<char> {
    let shown = match failure.loaded {
        Some(loaded) => load::errors_text(loaded, failure.errors@, colored),
        None => joined_text(failure.errors@, source, path, colored),
    };
    let count = failure.errors@.len();
    if count > 1 {
        shown + report::spec_tint(report::RED@, msg::ERROR@, colored) + ": "@
            + report::spec_tint(report::BOLD@, "종료됨. (오류 "@ + chars::decimal(count) + "개)"@, colored) + "\n"@
    } else {
        shown
    }
}

/// The errors rendered against one source, a newline between two.
fn render_each(errors: &Vec<diag::Diag>, source: &str, path: &str, colored: bool) -> (joined: String)
    requires
        forall|i: int| 0 <= i < errors@.len() ==> (#[trigger] errors@[i]).span.col < usize::MAX,
    ensures
        joined@ == joined_text(errors@, source@, path@, colored),
{
    let mut joined = String::new();
    let mut at: usize = 0;
    assert(errors@.take(0) =~= Seq::<diag::Diag>::empty());
    while at < errors.len()
        invariant
            at <= errors@.len(),
            forall|i: int| 0 <= i < errors@.len() ==> (#[trigger] errors@[i]).span.col < usize::MAX,
            joined@ == joined_text(errors@.take(at as int), source@, path@, colored),
        decreases errors@.len() - at,
    {
        let ghost before = joined@;
        let shown = errors[at].render(source, path, colored);
        assert(shown@ == diag_text(errors@[at as int], source@, path@, colored)) by {
            reveal(diag_text);
        }
        if at > 0 {
            chars::push_str(&mut joined, "\n");
        }
        chars::push_str(&mut joined, shown.as_str());
        proof {
            let taken = errors@.take(at + 1);
            assert(taken.drop_last() =~= errors@.take(at as int));
            assert(taken.last() == errors@[at as int]);
            if at == 0 {
                assert(taken.len() == 1);
                assert(taken[0] == errors@[0]);
                assert(joined@ =~= joined_text(taken, source@, path@, colored));
            } else {
                assert(joined@ =~= before + "\n"@ + shown@);
            }
        }
        at += 1;
    }
    assert(errors@.take(errors@.len() as int) =~= errors@);
    joined
}

impl Failure {
    /// The failure as it is shown: its errors, then how many when there are
    /// several.
    pub fn render(&self, source: &str, path: &str, colored: bool) -> (out: String)
        requires
            forall|i: int| 0 <= i < self.errors@.len() ==> (#[trigger] self.errors@[i]).span.col < usize::MAX,
            self.loaded matches Some(loaded) ==> loaded.root < loaded.units@.len(),
        ensures
            out@ == failure_text(*self, source@, path@, colored),
    {
        let mut out = match &self.loaded {
            Some(loaded) => loaded.render(&self.errors, colored),
            None => render_each(&self.errors, source, path, colored),
        };
        if self.errors.len() > 1 {
            let counted = msg::aborting(self.errors.len());
            let line = report::plain(msg::ERROR, counted.as_str(), colored);
            chars::push_str(&mut out, line.as_str());
        }
        out
    }
}

/// The tokens of a source read by itself: it is surveyed for the names it
/// declares and the verbs it defines, then lexed with them. An error of
/// the survey is the result.
pub fn tokens(source: &str) -> (found: Result<Vec<lex::Token>, diag::Diag>)
    requires
        4 * source@.len() < usize::MAX,
    ensures
        match lex::spec_tokenize(Seq::empty(), Seq::empty(), source@) {
            Err(fault) => found matches Err(error) && error.kind == msg::LEX && (error.msg@, error.span) == fault,
            Ok(first) => {
                let kinds = prescan::kinds_of(first);
                let names = prescan::names_upto(kinds, first.len() as int);
                let forms = prescan::stem_forms_of(prescan::stems_upto(kinds, first.len() as int));
                match lex::spec_tokenize(names, forms, source@) {
                    Err(fault) => found matches Err(error) && error.kind == msg::LEX && (error.msg@, error.span)
                        == fault,
                    Ok(second) => match prescan::first_shadow(second, forms, 0) {
                        Some((name, verb, span)) => {
                            &&& found matches Err(error)
                            &&& error.kind == msg::NAME
                            &&& error.msg@ == "'"@ + name + "'은(는) 동사 '"@ + verb
                                + "'의 활용형과 같아 이름으로 쓸 수 없음"@
                            &&& error.span == span
                        },
                        None => found matches Ok(made) && lex::tokens_view(made@) == second,
                    },
                }
            },
        },
{
    let program = match prescan::survey_source(source) {
        Ok(program) => program,
        Err(error) => {
            return Err(error);
        },
    };
    lex::tokenize(source, &program.vocab)
}

} // verus!
