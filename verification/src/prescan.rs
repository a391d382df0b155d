//! The survey before lexing for real: which names a source declares,
//! which verbs it defines, what it imports. Reading the imported files is
//! left to the caller; everything here works on tokens.

use vstd::prelude::*;

use crate::chars::{owned, same_text};
use crate::hangul::Ending;
use crate::lex::{Tok, TokModel, Token, TokenModel};
use crate::sig::{Marker, MarkerModel};

verus! {

pub open spec fn kinds_view(found: Seq<Token>) -> Seq<TokModel> {
    Seq::new(found.len(), |i: int| found[i].tok@)
}

/// The lines of a token stream: the tokens between newlines, without the
/// layout tokens. Tokens after the last newline make no line.
pub open spec fn line_state(tokens: Seq<TokModel>) -> (Seq<Seq<TokModel>>, Seq<TokModel>)
    decreases tokens.len(),
{
    if tokens.len() == 0 {
        (seq![], seq![])
    } else {
        let (done, current) = line_state(tokens.drop_last());
        let last = tokens.last();
        if last is Indent || last is Dedent {
            (done, current)
        } else if last is Newline {
            (done.push(current), seq![])
        } else {
            (done, current.push(last))
        }
    }
}

pub open spec fn spec_lines(tokens: Seq<TokModel>) -> Seq<Seq<TokModel>> {
    line_state(tokens).0
}

pub open spec fn refs_view(found: Seq<&Tok>) -> Seq<TokModel> {
    Seq::new(found.len(), |i: int| found[i]@)
}

pub open spec fn lines_view(found: Seq<Vec<&Tok>>) -> Seq<Seq<TokModel>> {
    Seq::new(found.len(), |i: int| refs_view(found[i]@))
}

fn lines(tokens: &Vec<Token>) -> (all: Vec<Vec<&Tok>>)
    ensures
        lines_view(all@) == spec_lines(kinds_view(tokens@)),
{
    let ghost toks = kinds_view(tokens@);
    let mut all: Vec<Vec<&Tok>> = Vec::new();
    let mut line: Vec<&Tok> = Vec::new();
    let mut at: usize = 0;
    assert(toks.take(0) =~= Seq::<TokModel>::empty());
    assert(lines_view(all@) =~= Seq::<Seq<TokModel>>::empty());
    assert(refs_view(line@) =~= Seq::<TokModel>::empty());
    while at < tokens.len()
        invariant
            at <= tokens@.len(),
            toks == kinds_view(tokens@),
            line_state(toks.take(at as int)) == (lines_view(all@), refs_view(line@)),
        decreases tokens@.len() - at,
    {
        let tok = &tokens[at].tok;
        assert(toks.take(at + 1).drop_last() =~= toks.take(at as int));
        assert(toks.take(at + 1).last() == tok@);
        match tok {
            Tok::Indent(_) | Tok::Dedent(_) => {},
            Tok::Newline => {
                let ghost before = lines_view(all@);
                let ghost current = refs_view(line@);
                all.push(line);
                line = Vec::new();
                assert(lines_view(all@) =~= before.push(current));
                assert(refs_view(line@) =~= Seq::<TokModel>::empty());
            },
            _ => {
                let ghost current = refs_view(line@);
                line.push(tok);
                assert(refs_view(line@) =~= current.push(tok@));
            },
        }
        at += 1;
    }
    assert(toks.take(tokens@.len() as int) =~= toks);
    all
}

} // verus!
verus! {

/// The parameters of a definition's head: name and particle pairs, each
/// marked by the particle's canonical form.
pub open spec fn head_params(front: Seq<TokModel>) -> Option<Seq<(MarkerModel, Seq<char>)>>
    decreases front.len(),
{
    if front.len() == 0 {
        Some(seq![])
    } else if front.len() == 1 {
        None
    } else {
        match (front[0], front[1]) {
            (TokModel::Name(name), TokModel::Particle(_, canon)) => match head_params(front.skip(2)) {
                Some(rest) => Some(seq![(MarkerModel::Case(canon), name)] + rest),
                None => None,
            },
            _ => None,
        }
    }
}

/// A line that heads a definition: its parameters, then the verb or noun
/// in its dictionary form, `라는 것은:` (quotative copula, `것`, topic
/// particle, colon). The defined word and its parameters.
pub open spec fn spec_definition_head(line: Seq<TokModel>) -> Option<(Seq<char>, Seq<(MarkerModel, Seq<char>)>)> {
    if line.len() < 5 {
        None
    } else {
        let n = line.len();
        let tail = line.skip(n - 5);
        match (tail[0], tail[1], tail[2], tail[3], tail[4]) {
            (
                TokModel::Name(head),
                TokModel::Copula(Ending::Quotative),
                TokModel::Name(thing),
                TokModel::Particle(role, _),
                TokModel::Symbol(':'),
            ) => if thing == "것"@ && role == "topic"@ {
                match head_params(line.take(n - 5)) {
                    Some(params) => Some((head, params)),
                    None => None,
                }
            } else {
                None
            },
            _ => None,
        }
    }
}

pub open spec fn params_view(found: Seq<(Marker, String)>) -> Seq<(MarkerModel, Seq<char>)> {
    Seq::new(found.len(), |i: int| (found[i].0@, found[i].1@))
}

fn is_name_text(tok: &Tok, text: &str) -> (found: bool)
    ensures
        found == (tok@ == TokModel::Name(text@)),
{
    match tok {
        Tok::Name(name) => same_text(name.as_str(), text),
        _ => false,
    }
}

fn definition_head(line: &Vec<&Tok>) -> (found: Option<(String, Vec<(Marker, String)>)>)
    ensures
        match found {
            Some((head, params)) => spec_definition_head(refs_view(line@)) == Some((head@, params_view(params@))),
            None => spec_definition_head(refs_view(line@)) is None,
        },
{
    let ghost all = refs_view(line@);
    let n = line.len();
    if n < 5 {
        return None;
    }
    let ghost tail = all.skip(n - 5);
    assert(tail[0] == line@[n - 5]@ && tail[1] == line@[n - 4]@ && tail[2] == line@[n - 3]@);
    assert(tail[3] == line@[n - 2]@ && tail[4] == line@[n - 1]@);
    let head = match line[n - 5] {
        Tok::Name(head) => head,
        _ => {
            return None;
        },
    };
    match line[n - 4] {
        Tok::Copula { ending: Ending::Quotative } => {},
        _ => {
            return None;
        },
    }
    if !is_name_text(line[n - 3], "것") {
        match line[n - 3] {
            Tok::Name(_) => {},
            _ => {
                return None;
            },
        }
        return None;
    }
    match line[n - 2] {
        Tok::Particle { role, .. } => {
            if !same_text(role, "topic") {
                return None;
            }
        },
        _ => {
            return None;
        },
    }
    match line[n - 1] {
        Tok::Symbol(ch) => {
            if *ch != ':' {
                return None;
            }
        },
        _ => {
            return None;
        },
    }
    let ghost front = all.take(n - 5);
    let mut params: Vec<(Marker, String)> = Vec::new();
    let mut at: usize = 0;
    assert(front.skip(0) =~= front);
    assert(params_view(params@) =~= Seq::<(MarkerModel, Seq<char>)>::empty());
    while at + 1 < n - 5
        invariant
            n == line@.len(),
            n >= 5,
            at <= n - 5,
            at % 2 == 0,
            all == refs_view(line@),
            front == all.take(n - 5),
            head_params(front) == match head_params(front.skip(at as int)) {
                Some(rest) => Some(params_view(params@) + rest),
                None => None::<Seq<(MarkerModel, Seq<char>)>>,
            },
        decreases n - at,
    {
        let ghost rest = front.skip(at as int);
        assert(rest[0] == line@[at as int]@ && rest[1] == line@[at + 1]@);
        assert(rest.skip(2) =~= front.skip(at + 2));
        let name = match line[at] {
            Tok::Name(name) => name,
            _ => {
                return None;
            },
        };
        let canon = match line[at + 1] {
            Tok::Particle { canon, .. } => *canon,
            _ => {
                return None;
            },
        };
        let ghost before = params_view(params@);
        let item = (Marker::Case(canon), owned(name.as_str()));
        params.push(item);
        assert(params_view(params@) =~= before.push((MarkerModel::Case(canon@), name@)));
        proof {
            match head_params(rest.skip(2)) {
                Some(tail) => {
                    assert(head_params(rest) == Some(seq![(MarkerModel::Case(canon@), name@)] + tail));
                    assert(before + (seq![(MarkerModel::Case(canon@), name@)] + tail) =~= before.push(
                        (MarkerModel::Case(canon@), name@),
                    ) + tail);
                },
                None => {},
            }
        }
        at += 2;
    }
    if at < n - 5 {
        assert(front.skip(at as int).len() == 1);
        return None;
    }
    assert(front.skip(at as int) =~= Seq::<TokModel>::empty());
    assert(params_view(params@) + Seq::<(MarkerModel, Seq<char>)>::empty() =~= params_view(params@));
    Some((owned(head.as_str()), params))
}

} // verus!
verus! {

/// The definitions that the lines head, in order.
pub open spec fn defs_of(lines: Seq<Seq<TokModel>>) -> Seq<(Seq<char>, Seq<(MarkerModel, Seq<char>)>)>
    decreases lines.len(),
{
    if lines.len() == 0 {
        seq![]
    } else {
        let rest = defs_of(lines.drop_last());
        match spec_definition_head(lines.last()) {
            Some(found) => rest.push(found),
            None => rest,
        }
    }
}

pub open spec fn definitions_view(found: Seq<(String, Vec<(Marker, String)>)>) -> Seq<(Seq<char>, Seq<(MarkerModel, Seq<char>)>)> {
    Seq::new(found.len(), |i: int| (found[i].0@, params_view(found[i].1@)))
}

/// The words a source defines, with their parameters.
pub fn definitions(tokens: &Vec<Token>) -> (found: Vec<(String, Vec<(Marker, String)>)>)
    ensures
        definitions_view(found@) == defs_of(spec_lines(kinds_view(tokens@))),
{
    let all = lines(tokens);
    let ghost view = lines_view(all@);
    let mut found: Vec<(String, Vec<(Marker, String)>)> = Vec::new();
    let mut at: usize = 0;
    assert(view.take(0) =~= Seq::<Seq<TokModel>>::empty());
    assert(definitions_view(found@) =~= Seq::<(Seq<char>, Seq<(MarkerModel, Seq<char>)>)>::empty());
    while at < all.len()
        invariant
            at <= all@.len(),
            view == lines_view(all@),
            definitions_view(found@) == defs_of(view.take(at as int)),
        decreases all@.len() - at,
    {
        assert(view.take(at + 1).drop_last() =~= view.take(at as int));
        assert(view.take(at + 1).last() == refs_view(all@[at as int]@));
        let ghost before = definitions_view(found@);
        match definition_head(&all[at]) {
            Some((head, params)) => {
                let ghost item = (head@, params_view(params@));
                found.push((head, params));
                assert(definitions_view(found@) =~= before.push(item));
            },
            None => {},
        }
        at += 1;
    }
    assert(view.take(all@.len() as int) =~= view);
    found
}

/// An import: the module, and the names taken from it (all of it when
/// none are listed).
pub struct Import {
    pub module: String,
    pub names: Option<Vec<String>>,
}

pub type ImportModel = (Seq<char>, Option<Seq<Seq<char>>>);

pub open spec fn names_opt(found: Option<Vec<String>>) -> Option<Seq<Seq<char>>> {
    match found {
        Some(names) => Some(crate::words::string_view(names@)),
        None => None,
    }
}

impl View for Import {
    type V = ImportModel;

    open spec fn view(&self) -> ImportModel {
        (self.module@, names_opt(self.names))
    }
}

/// The names among `tokens`, in order.
pub open spec fn names_in(tokens: Seq<TokModel>) -> Seq<Seq<char>>
    decreases tokens.len(),
{
    if tokens.len() == 0 {
        seq![]
    } else {
        let rest = names_in(tokens.drop_last());
        match tokens.last() {
            TokModel::Name(name) => rest.push(name),
            _ => rest,
        }
    }
}

/// A line that imports: a module name and a particle, and then ending in
/// a form of `가져오다` and a period. With `에서` the line lists the names
/// taken.
pub open spec fn spec_import(line: Seq<TokModel>) -> Option<ImportModel> {
    if line.len() < 4 {
        None
    } else {
        let rest = line.skip(2);
        match (line[0], line[1], rest[rest.len() - 2], rest.last()) {
            (
                TokModel::Name(module),
                TokModel::Particle(_, canon),
                TokModel::Verb(verb, _, _),
                TokModel::Symbol('.'),
            ) => if verb == "가져오다"@ {
                Some(
                    (
                        module,
                        if canon == "에서"@ {
                            Some(names_in(rest))
                        } else {
                            None
                        },
                    ),
                )
            } else {
                None
            },
            _ => None,
        }
    }
}

pub open spec fn imports_of(lines: Seq<Seq<TokModel>>) -> Seq<ImportModel>
    decreases lines.len(),
{
    if lines.len() == 0 {
        seq![]
    } else {
        let rest = imports_of(lines.drop_last());
        match spec_import(lines.last()) {
            Some(found) => rest.push(found),
            None => rest,
        }
    }
}

pub open spec fn imports_view(found: Seq<Import>) -> Seq<ImportModel> {
    Seq::new(found.len(), |i: int| found[i]@)
}

fn names_from(line: &Vec<&Tok>, from: usize) -> (found: Vec<String>)
    requires
        from <= line@.len(),
    ensures
        crate::words::string_view(found@) == names_in(refs_view(line@).skip(from as int)),
{
    let ghost rest = refs_view(line@).skip(from as int);
    let mut found: Vec<String> = Vec::new();
    let mut at = from;
    assert(rest.take(0) =~= Seq::<TokModel>::empty());
    assert(crate::words::string_view(found@) =~= Seq::<Seq<char>>::empty());
    while at < line.len()
        invariant
            from <= at <= line@.len(),
            rest == refs_view(line@).skip(from as int),
            crate::words::string_view(found@) == names_in(rest.take(at - from)),
        decreases line@.len() - at,
    {
        let ghost k = at - from;
        assert(rest.take(k + 1).drop_last() =~= rest.take(k));
        assert(rest.take(k + 1).last() == line@[at as int]@);
        let ghost before = crate::words::string_view(found@);
        match line[at] {
            Tok::Name(name) => {
                found.push(owned(name.as_str()));
                assert(crate::words::string_view(found@) =~= before.push(name@));
            },
            _ => {},
        }
        at += 1;
    }
    assert(rest.take(line@.len() - from) =~= rest);
    found
}

fn import_of(line: &Vec<&Tok>) -> (found: Option<Import>)
    ensures
        match found {
            Some(import) => spec_import(refs_view(line@)) == Some(import@),
            None => spec_import(refs_view(line@)) is None,
        },
{
    let ghost all = refs_view(line@);
    let n = line.len();
    if n < 4 {
        return None;
    }
    let ghost rest = all.skip(2);
    assert(all[0] == line@[0]@ && all[1] == line@[1]@);
    assert(rest[rest.len() - 2] == line@[n - 2]@ && rest.last() == line@[n - 1]@);
    let module = match line[0] {
        Tok::Name(module) => module,
        _ => {
            return None;
        },
    };
    let canon = match line[1] {
        Tok::Particle { canon, .. } => *canon,
        _ => {
            return None;
        },
    };
    match line[n - 1] {
        Tok::Symbol(ch) => {
            if *ch != '.' {
                return None;
            }
        },
        _ => {
            return None;
        },
    }
    match line[n - 2] {
        Tok::Verb { name, .. } => {
            if !same_text(name.as_str(), "가져오다") {
                return None;
            }
        },
        _ => {
            return None;
        },
    }
    let names = if same_text(canon, "에서") {
        Some(names_from(line, 2))
    } else {
        None
    };
    Some(Import { module: owned(module.as_str()), names })
}

/// What a source imports, line by line.
pub fn imports(tokens: &Vec<Token>) -> (found: Vec<Import>)
    ensures
        imports_view(found@) == imports_of(spec_lines(kinds_view(tokens@))),
{
    let all = lines(tokens);
    let ghost view = lines_view(all@);
    let mut found: Vec<Import> = Vec::new();
    let mut at: usize = 0;
    assert(view.take(0) =~= Seq::<Seq<TokModel>>::empty());
    assert(imports_view(found@) =~= Seq::<ImportModel>::empty());
    while at < all.len()
        invariant
            at <= all@.len(),
            view == lines_view(all@),
            imports_view(found@) == imports_of(view.take(at as int)),
        decreases all@.len() - at,
    {
        assert(view.take(at + 1).drop_last() =~= view.take(at as int));
        assert(view.take(at + 1).last() == refs_view(all@[at as int]@));
        let ghost before = imports_view(found@);
        match import_of(&all[at]) {
            Some(import) => {
                let ghost item = import@;
                found.push(import);
                assert(imports_view(found@) =~= before.push(item));
            },
            None => {},
        }
        at += 1;
    }
    assert(view.take(all@.len() as int) =~= view);
    found
}

} // verus!
verus! {

/// `suffix` ends `word` (or is all of it).
pub open spec fn ends_in(word: Seq<char>, suffix: Seq<char>) -> bool {
    suffix.len() <= word.len() && word.skip(word.len() - suffix.len()) == suffix
}

/// A verb in its dictionary form: a syllable and then `다`, and not a noun
/// with 하다, 되다 or the copula.
pub open spec fn spec_dictionary_form(name: Seq<char>) -> bool {
    &&& name.len() >= 2
    &&& name.last() == '다'
    &&& crate::hangul::syllable(name[name.len() - 2])
    &&& !ends_in(name, "하다"@)
    &&& !ends_in(name, "되다"@)
    &&& !ends_in(name, "이다"@)
}

fn suffixed(letters: &Vec<char>, suffix: &str) -> (found: bool)
    ensures
        found == ends_in(letters@, suffix@),
{
    let tail = crate::chars::chars_of(suffix);
    if tail.len() > letters.len() {
        return false;
    }
    let shift = letters.len() - tail.len();
    let mut at: usize = 0;
    while at < tail.len()
        invariant
            at <= tail@.len(),
            tail@ == suffix@,
            shift + tail@.len() == letters@.len(),
            letters@.len() <= usize::MAX,
            forall|j: int| 0 <= j < at ==> letters@[shift + j] == tail@[j],
        decreases tail@.len() - at,
    {
        if letters[shift + at] != tail[at] {
            assert(letters@.skip(shift as int)[at as int] != suffix@[at as int]);
            return false;
        }
        at += 1;
    }
    assert(letters@.skip(shift as int) =~= suffix@);
    true
}

pub fn dictionary_form(name: &str) -> (found: bool)
    ensures
        found == spec_dictionary_form(name@),
{
    let letters = crate::chars::chars_of(name);
    let n = letters.len();
    if n < 2 {
        return false;
    }
    letters[n - 1] == '다' && crate::hangul::is_syllable(letters[n - 2]) && !suffixed(&letters, "하다")
        && !suffixed(&letters, "되다") && !suffixed(&letters, "이다")
}

/// A name token at `i` opens a table entry: `{` or `,` before it.
pub open spec fn opens_entry(tokens: Seq<TokModel>, i: int) -> bool {
    i > 0 && (tokens[i - 1] == TokModel::Symbol('{') || tokens[i - 1] == TokModel::Symbol(','))
}

/// The name at `i` is declared there: a particle follows it, or a colon
/// where it opens a table entry.
pub open spec fn declares(tokens: Seq<TokModel>, i: int) -> bool {
    &&& tokens[i] is Name
    &&& i + 1 < tokens.len()
    &&& (tokens[i + 1] is Particle || (tokens[i + 1] == TokModel::Symbol(':') && opens_entry(tokens, i)))
}

/// The names declared among the first `n` tokens, each once, in the order
/// they are first declared.
pub open spec fn names_upto(tokens: Seq<TokModel>, n: int) -> Seq<Seq<char>>
    decreases n,
{
    if n <= 0 {
        seq![]
    } else {
        let rest = names_upto(tokens, n - 1);
        match tokens[n - 1] {
            TokModel::Name(name) => if declares(tokens, n - 1) && !rest.contains(name) {
                rest.push(name)
            } else {
                rest
            },
            _ => rest,
        }
    }
}

fn contains_text(found: &Vec<String>, text: &str) -> (present: bool)
    ensures
        present == crate::words::string_view(found@).contains(text@),
{
    let mut at: usize = 0;
    while at < found.len()
        invariant
            at <= found@.len(),
            forall|j: int| 0 <= j < at ==> found@[j]@ != text@,
        decreases found@.len() - at,
    {
        if same_text(found[at].as_str(), text) {
            assert(crate::words::string_view(found@)[at as int] == text@);
            return true;
        }
        at += 1;
    }
    assert forall|j: int| 0 <= j < found@.len() implies crate::words::string_view(found@)[j] != text@ by {
        assert(crate::words::string_view(found@)[j] == found@[j]@);
    }
    false
}

/// The names a source declares.
pub fn declared_names(tokens: &Vec<Token>) -> (names: Vec<String>)
    ensures
        crate::words::string_view(names@) == names_upto(kinds_view(tokens@), tokens@.len() as int),
{
    let ghost toks = kinds_view(tokens@);
    let mut names: Vec<String> = Vec::new();
    let mut at: usize = 0;
    assert(crate::words::string_view(names@) =~= Seq::<Seq<char>>::empty());
    while at < tokens.len()
        invariant
            at <= tokens@.len(),
            toks == kinds_view(tokens@),
            crate::words::string_view(names@) == names_upto(toks, at as int),
        decreases tokens@.len() - at,
    {
        assert(toks[at as int] == tokens@[at as int].tok@);
        if let Tok::Name(name) = &tokens[at].tok {
            let declared = if at + 1 < tokens.len() {
                assert(toks[at + 1] == tokens@[at + 1].tok@);
                match &tokens[at + 1].tok {
                    Tok::Particle { .. } => true,
                    Tok::Symbol(ch) => {
                        if *ch == ':' && at > 0 {
                            assert(toks[at - 1] == tokens@[at - 1].tok@);
                            match &tokens[at - 1].tok {
                                Tok::Symbol(before) => *before == '{' || *before == ',',
                                _ => false,
                            }
                        } else {
                            false
                        }
                    },
                    _ => false,
                }
            } else {
                false
            };
            if declared && !contains_text(&names, name.as_str()) {
                let ghost before = crate::words::string_view(names@);
                names.push(owned(name.as_str()));
                assert(crate::words::string_view(names@) =~= before.push(name@));
            }
        }
        at += 1;
    }
    names
}

/// The window of five tokens at `w` defines a verb: its dictionary form,
/// then `라는 것은:`. The verb's stem.
pub open spec fn stem_at(tokens: Seq<TokModel>, w: int) -> Option<Seq<char>> {
    match (tokens[w], tokens[w + 1], tokens[w + 2], tokens[w + 3], tokens[w + 4]) {
        (
            TokModel::Name(name),
            TokModel::Copula(Ending::Quotative),
            TokModel::Name(thing),
            TokModel::Particle(role, _),
            TokModel::Symbol(':'),
        ) => if spec_dictionary_form(name) && thing == "것"@ && role == "topic"@ {
            Some(name.drop_last())
        } else {
            None
        },
        _ => None,
    }
}

/// The stems of the verbs defined in the windows starting before `n`,
/// each once, in order.
pub open spec fn stems_upto(tokens: Seq<TokModel>, n: int) -> Seq<Seq<char>>
    decreases n,
{
    if n <= 0 {
        seq![]
    } else {
        let rest = stems_upto(tokens, n - 1);
        if n - 1 + 5 <= tokens.len() {
            match stem_at(tokens, n - 1) {
                Some(stem) => if rest.contains(stem) {
                    rest
                } else {
                    rest.push(stem)
                },
                None => rest,
            }
        } else {
            rest
        }
    }
}

fn stem_of(tokens: &Vec<Token>, w: usize) -> (found: Option<String>)
    requires
        w + 5 <= tokens@.len(),
    ensures
        crate::chars::view_opt(found) == stem_at(kinds_view(tokens@), w as int),
{
    let ghost toks = kinds_view(tokens@);
    let len = tokens.len();
    assert(toks[w as int] == tokens@[w as int].tok@ && toks[w + 1] == tokens@[w + 1].tok@);
    assert(toks[w + 2] == tokens@[w + 2].tok@ && toks[w + 3] == tokens@[w + 3].tok@);
    assert(toks[w + 4] == tokens@[w + 4].tok@);
    let name = match &tokens[w].tok {
        Tok::Name(name) => name,
        _ => {
            return None;
        },
    };
    match &tokens[w + 1].tok {
        Tok::Copula { ending: Ending::Quotative } => {},
        _ => {
            return None;
        },
    }
    match &tokens[w + 2].tok {
        Tok::Name(thing) => {
            if !same_text(thing.as_str(), "것") {
                return None;
            }
        },
        _ => {
            return None;
        },
    }
    match &tokens[w + 3].tok {
        Tok::Particle { role, .. } => {
            if !same_text(role, "topic") {
                return None;
            }
        },
        _ => {
            return None;
        },
    }
    match &tokens[w + 4].tok {
        Tok::Symbol(ch) => {
            if *ch != ':' {
                return None;
            }
        },
        _ => {
            return None;
        },
    }
    if !dictionary_form(name.as_str()) {
        return None;
    }
    let letters = crate::chars::chars_of(name.as_str());
    Some(crate::chars::string_of(letters.as_slice(), 0, letters.len() - 1))
}

/// The stems of the verbs a source defines.
pub fn declared_stems(tokens: &Vec<Token>) -> (stems: Vec<String>)
    ensures
        crate::words::string_view(stems@) == stems_upto(kinds_view(tokens@), tokens@.len() as int),
{
    let ghost toks = kinds_view(tokens@);
    let mut stems: Vec<String> = Vec::new();
    let mut w: usize = 0;
    assert(crate::words::string_view(stems@) =~= Seq::<Seq<char>>::empty());
    while w < tokens.len()
        invariant
            w <= tokens@.len(),
            toks == kinds_view(tokens@),
            crate::words::string_view(stems@) == stems_upto(toks, w as int),
        decreases tokens@.len() - w,
    {
        if tokens.len() - w >= 5 {
            match stem_of(tokens, w) {
                Some(stem) => {
                    if !contains_text(&stems, stem.as_str()) {
                        let ghost before = crate::words::string_view(stems@);
                        let ghost item = stem@;
                        stems.push(stem);
                        assert(crate::words::string_view(stems@) =~= before.push(item));
                    }
                },
                None => {},
            }
        }
        w += 1;
    }
    stems
}

} // verus!
verus! {

/// The verb whose conjugated form `word` is, as the vocabulary finds it:
/// a built-in verb before a declared one.
pub open spec fn verb_of(forms: Seq<crate::words::Form>, word: Seq<char>) -> Option<Seq<char>> {
    match crate::words::lookup(crate::lex::builtin_view(), word) {
        Some(verb) => Some(verb.0),
        None => match crate::words::lookup(forms, word) {
            Some(verb) => Some(verb.0),
            None => None,
        },
    }
}

/// The first name from `i` on that is also a verb form: the name, the
/// verb, and the name's place.
pub open spec fn first_shadow(tokens: Seq<TokenModel>, forms: Seq<crate::words::Form>, i: int) -> Option<
    (Seq<char>, Seq<char>, crate::diag::Span),
>
    decreases tokens.len() - i,
{
    if i < 0 || i >= tokens.len() {
        None
    } else {
        match tokens[i].0 {
            TokModel::Name(name) => match verb_of(forms, name) {
                Some(verb) => Some((name, verb, tokens[i].1)),
                None => first_shadow(tokens, forms, i + 1),
            },
            _ => first_shadow(tokens, forms, i + 1),
        }
    }
}

/// A name that is also a form of a verb would hide the verb in the whole
/// file (names are tried first), so it is an error.
pub fn shadowed(vocab: &crate::lex::Vocabulary, tokens: &Vec<Token>) -> (found: Result<(), crate::diag::Diag>)
    ensures
        match found {
            Ok(()) => first_shadow(crate::lex::tokens_view(tokens@), vocab.declared(), 0) is None,
            Err(diag) => {
                &&& first_shadow(crate::lex::tokens_view(tokens@), vocab.declared(), 0) matches Some(
                    (name, verb, span),
                )
                &&& diag.kind == crate::msg::NAME
                &&& diag.msg@ == "'"@ + name + "'은(는) 동사 '"@ + verb + "'의 활용형과 같아 이름으로 쓸 수 없음"@
                &&& diag.span == span
                &&& diag.hint is None
            },
        },
{
    let ghost toks = crate::lex::tokens_view(tokens@);
    let mut at: usize = 0;
    while at < tokens.len()
        invariant
            at <= tokens@.len(),
            toks == crate::lex::tokens_view(tokens@),
            first_shadow(toks, vocab.declared(), 0) == first_shadow(toks, vocab.declared(), at as int),
        decreases tokens@.len() - at,
    {
        assert(toks[at as int] == tokens@[at as int]@);
        if let Tok::Name(name) = &tokens[at].tok {
            match vocab.verb_named(name.as_str()) {
                Some(verb) => {
                    let message = crate::msg::name_shadows_verb(name.as_str(), verb.as_str());
                    return Err(crate::diag::Diag::name(message, tokens[at].span));
                },
                None => {},
            }
        }
        at += 1;
    }
    Ok(())
}

/// What the survey of a program gathers: the vocabulary of its main
/// source, the signatures of all verbs it can call, the modules taken
/// whole, and the nouns defined.
pub struct Program {
    pub vocab: crate::lex::Vocabulary,
    pub signatures: crate::sig::Signatures,
    pub modules: Vec<String>,
    pub nouns: Vec<String>,
}

/// Whether a definition of `head` is taken: all are, or `head` is listed.
pub open spec fn wanted(taking: Option<Seq<Seq<char>>>, head: Seq<char>) -> bool {
    match taking {
        None => true,
        Some(names) => names.contains(head),
    }
}

pub open spec fn markers_of(params: Seq<(MarkerModel, Seq<char>)>) -> Seq<MarkerModel> {
    Seq::new(params.len(), |i: int| params[i].0)
}

/// The signatures and nouns after taking in `defs`: a definition of a
/// verb (its word ends in 다) adds its markers, in order, to the verb's
/// ways; any other adds a noun.
pub open spec fn defs_into(
    signatures: Map<Seq<char>, Seq<Seq<MarkerModel>>>,
    nouns: Seq<Seq<char>>,
    defs: Seq<(Seq<char>, Seq<(MarkerModel, Seq<char>)>)>,
    taking: Option<Seq<Seq<char>>>,
) -> (Map<Seq<char>, Seq<Seq<MarkerModel>>>, Seq<Seq<char>>)
    decreases defs.len(),
{
    if defs.len() == 0 {
        (signatures, nouns)
    } else {
        let (s, n) = defs_into(signatures, nouns, defs.drop_last(), taking);
        let (head, params) = defs.last();
        if !wanted(taking, head) {
            (s, n)
        } else if head.len() > 0 && head.last() == '다' {
            (crate::sig::added(s, head, crate::sig::sorted_markers(markers_of(params))), n)
        } else if n.contains(head) {
            (s, n)
        } else {
            (s, n.push(head))
        }
    }
}

fn ends_with_da(text: &str) -> (found: bool)
    ensures
        found == (text@.len() > 0 && text@.last() == '다'),
{
    let letters = crate::chars::chars_of(text);
    letters.len() > 0 && letters[letters.len() - 1] == '다'
}

/// Takes the definitions among `tokens` (those listed in `taking`, or
/// all) into the program's signatures and nouns.
pub fn take_definitions(into: &mut Program, tokens: &Vec<Token>, taking: Option<&Vec<String>>)
    ensures
        (final(into).signatures@, crate::words::string_view(final(into).nouns@)) == defs_into(
            old(into).signatures@,
            crate::words::string_view(old(into).nouns@),
            defs_of(spec_lines(kinds_view(tokens@))),
            match taking {
                Some(names) => Some(crate::words::string_view(names@)),
                None => None,
            },
        ),
        final(into).modules@ == old(into).modules@,
        final(into).vocab == old(into).vocab,
{
    let mine = definitions(tokens);
    let ghost defs = definitions_view(mine@);
    let ghost listed = match taking {
        Some(names) => Some(crate::words::string_view(names@)),
        None => None::<Seq<Seq<char>>>,
    };
    let ghost start = (into.signatures@, crate::words::string_view(into.nouns@));
    let mut at: usize = 0;
    assert(defs.take(0) =~= Seq::<(Seq<char>, Seq<(MarkerModel, Seq<char>)>)>::empty());
    while at < mine.len()
        invariant
            at <= mine@.len(),
            defs == definitions_view(mine@),
            into.modules@ == old(into).modules@,
            into.vocab == old(into).vocab,
            listed == match taking {
                Some(names) => Some(crate::words::string_view(names@)),
                None => None::<Seq<Seq<char>>>,
            },
            start == (old(into).signatures@, crate::words::string_view(old(into).nouns@)),
            (into.signatures@, crate::words::string_view(into.nouns@)) == defs_into(
                start.0,
                start.1,
                defs.take(at as int),
                listed,
            ),
        decreases mine@.len() - at,
    {
        let (head, params) = &mine[at];
        assert(defs.take(at + 1).drop_last() =~= defs.take(at as int));
        assert(defs.take(at + 1).last() == (head@, params_view(params@)));
        let taken = match taking {
            None => true,
            Some(names) => contains_text(names, head.as_str()),
        };
        if taken {
            if ends_with_da(head.as_str()) {
                let mut markers: Vec<Marker> = Vec::new();
                let mut k: usize = 0;
                while k < params.len()
                    invariant
                        k <= params@.len(),
                        crate::sig::markers_view(markers@) == markers_of(params_view(params@)).take(k as int),
                    decreases params@.len() - k,
                {
                    let ghost before = crate::sig::markers_view(markers@);
                    let marker = params[k].0;
                    markers.push(marker);
                    assert(markers_of(params_view(params@))[k as int] == marker@);
                    assert(crate::sig::markers_view(markers@) =~= before.push(marker@));
                    assert(markers_of(params_view(params@)).take(k + 1) =~= markers_of(params_view(params@)).take(
                        k as int,
                    ).push(marker@));
                    k += 1;
                }
                assert(markers_of(params_view(params@)).take(params@.len() as int) =~= markers_of(
                    params_view(params@),
                ));
                let sorted = crate::sig::ordered(markers.as_slice());
                into.signatures.add(head.as_str(), sorted);
            } else if !contains_text(&into.nouns, head.as_str()) {
                let ghost before = crate::words::string_view(into.nouns@);
                into.nouns.push(owned(head.as_str()));
                assert(crate::words::string_view(into.nouns@) =~= before.push(head@));
            }
        }
        at += 1;
    }
    assert(defs.take(mine@.len() as int) =~= defs);
}

} // verus!
verus! {

impl Default for Program {
    fn default() -> (made: Program)
        ensures
            made.vocab.names@ == Seq::<String>::empty(),
            made.vocab.stems@ == Seq::<String>::empty(),
            made.vocab.declared() == Seq::<crate::words::Form>::empty(),
            made.signatures@ == Map::<Seq<char>, Seq<Seq<MarkerModel>>>::empty(),
            made.modules@ == Seq::<String>::empty(),
            made.nouns@ == Seq::<String>::empty(),
    {
        Program {
            vocab: crate::lex::Vocabulary::default(),
            signatures: crate::sig::Signatures::new(),
            modules: Vec::new(),
            nouns: Vec::new(),
        }
    }
}

} // verus!
verus! {

/// `more` added to `held`: each text not held yet, in order.
pub open spec fn merged(held: Seq<Seq<char>>, more: Seq<Seq<char>>) -> Seq<Seq<char>>
    decreases more.len(),
{
    if more.len() == 0 {
        held
    } else {
        let before = merged(held, more.drop_last());
        if before.contains(more.last()) {
            before
        } else {
            before.push(more.last())
        }
    }
}

/// Adds to `into` each of `more` that it does not hold yet, in order.
pub fn merge_stems(into: &mut Vec<String>, more: &Vec<String>)
    ensures
        crate::words::string_view(final(into)@) == merged(crate::words::string_view(old(into)@), crate::words::string_view(more@)),
{
    let ghost start = crate::words::string_view(into@);
    let ghost given = crate::words::string_view(more@);
    let mut at: usize = 0;
    assert(given.take(0) =~= Seq::<Seq<char>>::empty());
    while at < more.len()
        invariant
            at <= more@.len(),
            given == crate::words::string_view(more@),
            crate::words::string_view(into@) == merged(start, given.take(at as int)),
        decreases more@.len() - at,
    {
        assert(given.take(at + 1).drop_last() =~= given.take(at as int));
        assert(given.take(at + 1).last() == more@[at as int]@);
        if !contains_text(into, more[at].as_str()) {
            let ghost before = crate::words::string_view(into@);
            into.push(owned(more[at].as_str()));
            assert(crate::words::string_view(into@) =~= before.push(more@[at as int]@));
        }
        at += 1;
    }
    assert(given.take(more@.len() as int) =~= given);
}

/// The vocabulary of a source from its tokens: the names it declares,
/// and the stems of the verbs it defines followed by the stems that its
/// imports define (`imported`), each stem once.
pub fn scan_vocab(tokens: &Vec<Token>, imported: &Vec<String>) -> (vocab: crate::lex::Vocabulary)
    ensures
        crate::words::string_view(vocab.names@) == names_upto(kinds_view(tokens@), tokens@.len() as int),
        crate::words::string_view(vocab.stems@) == merged(
            stems_upto(kinds_view(tokens@), tokens@.len() as int),
            crate::words::string_view(imported@),
        ),
        vocab.declared() == crate::words::absorb(
            crate::words::forms_of_stems(crate::order::sorted_texts(crate::words::string_view(vocab.stems@))),
        ),
{
    let mut stems = declared_stems(tokens);
    merge_stems(&mut stems, imported);
    crate::lex::Vocabulary::new(declared_names(tokens), stems)
}

/// Notes a module imported whole, once.
pub fn note_import(modules: &mut Vec<String>, import: &Import)
    ensures
        crate::words::string_view(final(modules)@) == if import.names is None
            && !crate::words::string_view(old(modules)@).contains(import.module@) {
            crate::words::string_view(old(modules)@).push(import.module@)
        } else {
            crate::words::string_view(old(modules)@)
        },
{
    if import.names.is_none() && !contains_text(modules, import.module.as_str()) {
        let ghost before = crate::words::string_view(modules@);
        modules.push(owned(import.module.as_str()));
        assert(crate::words::string_view(modules@) =~= before.push(import.module@));
    }
}

/// Takes in one surveyed unit: the definitions it makes (only those
/// `taking` names, when it names some); for the root unit, also checks
/// that no name hides a verb form and keeps its vocabulary.
pub fn take_unit(
    into: &mut Program,
    vocab: crate::lex::Vocabulary,
    tokens: &Vec<Token>,
    taking: Option<&Vec<String>>,
    root: bool,
) -> (found: Result<(), crate::diag::Diag>)
    ensures
        (final(into).signatures@, crate::words::string_view(final(into).nouns@)) == defs_into(
            old(into).signatures@,
            crate::words::string_view(old(into).nouns@),
            defs_of(spec_lines(kinds_view(tokens@))),
            match taking {
                Some(names) => Some(crate::words::string_view(names@)),
                None => None,
            },
        ),
        final(into).modules@ == old(into).modules@,
        !root ==> found is Ok && final(into).vocab == old(into).vocab,
        root ==> match found {
            Ok(()) => {
                &&& first_shadow(crate::lex::tokens_view(tokens@), vocab.declared(), 0) is None
                &&& final(into).vocab == vocab
            },
            Err(diag) => {
                &&& first_shadow(crate::lex::tokens_view(tokens@), vocab.declared(), 0) matches Some((name, verb, span))
                &&& diag.kind == crate::msg::NAME
                &&& diag.msg@ == "'"@ + name + "'은(는) 동사 '"@ + verb + "'의 활용형과 같아 이름으로 쓸 수 없음"@
                &&& diag.span == span
                &&& diag.hint is None
                &&& final(into).vocab == old(into).vocab
            },
        },
{
    take_definitions(into, tokens, taking);
    if root {
        match shadowed(&vocab, tokens) {
            Ok(()) => {},
            Err(diag) => {
                return Err(diag);
            },
        }
        into.vocab = vocab;
    }
    Ok(())
}

} // verus!
verus! {

/// The kinds of token models.
pub open spec fn kinds_of(found: Seq<TokenModel>) -> Seq<TokModel> {
    Seq::new(found.len(), |i: int| found[i].0)
}

proof fn lemma_kinds(tokens: Seq<Token>)
    ensures
        kinds_view(tokens) == kinds_of(crate::lex::tokens_view(tokens)),
{
    assert(kinds_view(tokens) =~= kinds_of(crate::lex::tokens_view(tokens)));
}

/// The forms that the verbs defined with `stems` take.
pub open spec fn stem_forms_of(stems: Seq<Seq<char>>) -> Seq<crate::words::Form> {
    crate::words::absorb(crate::words::forms_of_stems(crate::order::sorted_texts(stems)))
}

/// Surveys a source that imports nothing it can reach (it has no folder):
/// a first reading finds the names it declares and the verbs it defines;
/// a second, with those verbs known, gives the definitions, taken into the
/// built-in signatures; a name that hides a verb form is an error.
pub fn survey_source(source: &str) -> (found: Result<Program, crate::diag::Diag>)
    requires
        4 * source@.len() < usize::MAX,
    ensures
        match crate::lex::spec_tokenize(Seq::empty(), Seq::empty(), source@) {
            Err(fault) => found matches Err(diag) && diag.kind == crate::msg::LEX && (diag.msg@, diag.span) == fault,
            Ok(first) => {
                let kinds = kinds_of(first);
                let names = names_upto(kinds, first.len() as int);
                let stems = stems_upto(kinds, first.len() as int);
                let forms = stem_forms_of(stems);
                match crate::lex::spec_tokenize(names, forms, source@) {
                    Err(fault) => found matches Err(diag) && diag.kind == crate::msg::LEX && (diag.msg@, diag.span) == fault,
                    Ok(second) => {
                        let taken = defs_into(
                            crate::sig::all_added(crate::sig::builtin_signatures()),
                            Seq::empty(),
                            defs_of(spec_lines(kinds_of(second))),
                            None,
                        );
                        match first_shadow(second, forms, 0) {
                            Some((name, verb, span)) => {
                                &&& found matches Err(diag)
                                &&& diag.kind == crate::msg::NAME
                                &&& diag.msg@ == "'"@ + name + "'은(는) 동사 '"@ + verb + "'의 활용형과 같아 이름으로 쓸 수 없음"@
                                &&& diag.span == span
                            },
                            None => {
                                &&& found matches Ok(program)
                                &&& crate::words::string_view(program.vocab.names@) == names
                                &&& crate::words::string_view(program.vocab.stems@) == stems
                                &&& program.vocab.declared() == forms
                                &&& program.signatures@ == taken.0
                                &&& crate::words::string_view(program.nouns@) == taken.1
                                &&& program.modules@.len() == 0
                            },
                        }
                    },
                }
            },
        },
{
    let blank = crate::lex::Vocabulary::default();
    assert(crate::words::string_view(blank.names@) =~= Seq::<Seq<char>>::empty());
    let first = match crate::lex::tokenize(source, &blank) {
        Ok(found) => found,
        Err(diag) => {
            return Err(diag);
        },
    };
    proof {
        lemma_kinds(first@);
    }
    let none: Vec<String> = Vec::new();
    let vocab = scan_vocab(&first, &none);
    assert(crate::words::string_view(none@) =~= Seq::<Seq<char>>::empty());
    let tokens = match crate::lex::tokenize(source, &vocab) {
        Ok(found) => found,
        Err(diag) => {
            return Err(diag);
        },
    };
    proof {
        lemma_kinds(tokens@);
    }
    let mut program = Program::default();
    program.signatures = crate::sig::Signatures::builtin();
    assert(crate::words::string_view(program.nouns@) =~= Seq::<Seq<char>>::empty());
    match take_unit(&mut program, vocab, &tokens, None, true) {
        Ok(()) => Ok(program),
        Err(diag) => Err(diag),
    }
}

} // verus!
verus! {

/// The file name module `name` is kept under: `<name>.sr`, its jamo
/// composed.
pub fn module_file(name: &str) -> (found: String)
    ensures
        found@ == crate::hangul::spec_nfc(name@ + ".sr"@),
{
    let mut text = crate::chars::owned(name);
    crate::chars::push_str(&mut text, ".sr");
    crate::hangul::to_nfc(text.as_str())
}

/// Whether a file listed as `entry` is the file `wanted`: the same name
/// once its jamo are composed.
pub fn names_file(entry: &str, wanted: &str) -> (found: bool)
    ensures
        found == (crate::hangul::spec_nfc(entry@) == wanted@),
{
    let composed = crate::hangul::to_nfc(entry);
    crate::chars::same_text(composed.as_str(), wanted)
}

} // verus!
