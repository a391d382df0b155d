//! The units a program is loaded from: the source given, and each module
//! it imports, with their statements.

use vstd::prelude::*;

use crate::ast::Stmt;
use crate::chars::{push_str, same_text};
use crate::diag::{Diag, Span};

verus! {

pub type UnitId = usize;

/// One loaded source: its module name, the path it was read from (none
/// for the source given directly), its text and its statements.
pub struct Unit {
    pub name: String,
    pub path: Option<String>,
    pub source: String,
    pub statements: Vec<Stmt>,
}

/// All units of a program, which of them is the one given, and the
/// errors met while loading.
pub struct Loaded {
    pub units: Vec<Unit>,
    pub root: UnitId,
    pub errors: Vec<Diag>,
}

/// The first unit read from `path`.
pub open spec fn unit_with_path(units: Seq<Unit>, path: Seq<char>) -> Option<int>
    decreases units.len(),
{
    if units.len() == 0 {
        None
    } else {
        match unit_with_path(units.drop_last(), path) {
            Some(i) => Some(i),
            None => if units.last().path matches Some(found) && found@ == path {
                Some(units.len() - 1)
            } else {
                None
            },
        }
    }
}

/// The name a unit is shown by in messages: its path, or its module name.
pub open spec fn shown_name(unit: Unit) -> Seq<char> {
    match unit.path {
        Some(path) => path@,
        None => unit.name@,
    }
}

/// The unit an error belongs to: the one it names, else the root.
pub open spec fn unit_for(loaded: Loaded, error: Diag) -> Unit {
    match error.unit {
        Some(id) => if id < loaded.units@.len() { loaded.units@[id as int] } else { loaded.units@[loaded.root as int] },
        None => loaded.units@[loaded.root as int],
    }
}

pub open spec fn error_text(loaded: Loaded, error: Diag, colored: bool) -> Seq<char> {
    let unit = unit_for(loaded, error);
    crate::report::render_text(
        error.kind@,
        error.msg@,
        crate::chars::view_opt(error.hint),
        shown_name(unit),
        Some(unit.source@),
        error.span.line as nat,
        error.span.col as nat,
        error.span.end as nat,
        colored,
    ) + "\n"@
}

pub open spec fn errors_text(loaded: Loaded, errors: Seq<Diag>, colored: bool) -> Seq<char>
    decreases errors.len(),
{
    if errors.len() == 0 {
        seq![]
    } else {
        errors_text(loaded, errors.drop_last(), colored) + error_text(loaded, errors.last(), colored)
    }
}

impl Loaded {
    /// The unit read from `path`, if one was.
    pub fn unit_of(&self, path: &str) -> (found: Option<UnitId>)
        ensures
            match found {
                Some(id) => unit_with_path(self.units@, path@) == Some(id as int),
                None => unit_with_path(self.units@, path@) is None,
            },
    {
        let mut at: usize = 0;
        while at < self.units.len()
            invariant
                at <= self.units@.len(),
                unit_with_path(self.units@.take(at as int), path@) is None,
            decreases self.units@.len() - at,
        {
            assert(self.units@.take(at + 1).drop_last() =~= self.units@.take(at as int));
            let hit = match &self.units[at].path {
                Some(found) => same_text(found.as_str(), path),
                None => false,
            };
            if hit {
                proof {
                    lemma_unit_with_path_prefix(self.units@, at as int + 1, path@);
                }
                return Some(at);
            }
            at += 1;
        }
        assert(self.units@.take(self.units@.len() as int) =~= self.units@);
        None
    }

    /// Each error rendered against the source of its unit, one after another.
    pub fn render(&self, errors: &Vec<Diag>, colored: bool) -> (out: String)
        requires
            self.root < self.units@.len(),
            forall|i: int| 0 <= i < errors@.len() ==> (#[trigger] errors@[i]).span.col < usize::MAX,
        ensures
            out@ == errors_text(*self, errors@, colored),
    {
        let mut out = String::new();
        let mut at: usize = 0;
        assert(errors@.take(0) =~= Seq::<Diag>::empty());
        while at < errors.len()
            invariant
                at <= errors@.len(),
                self.root < self.units@.len(),
                forall|i: int| 0 <= i < errors@.len() ==> (#[trigger] errors@[i]).span.col < usize::MAX,
                out@ == errors_text(*self, errors@.take(at as int), colored),
            decreases errors@.len() - at,
        {
            let error = &errors[at];
            assert(errors@.take(at + 1).drop_last() =~= errors@.take(at as int));
            let unit = match error.unit {
                Some(id) => if id < self.units.len() { &self.units[id] } else { &self.units[self.root] },
                None => &self.units[self.root],
            };
            let name = match &unit.path {
                Some(path) => path.as_str(),
                None => unit.name.as_str(),
            };
            let shown = error.render(unit.source.as_str(), name, colored);
            push_str(&mut out, shown.as_str());
            push_str(&mut out, "\n");
            at += 1;
        }
        assert(errors@.take(errors@.len() as int) =~= errors@);
        out
    }
}

proof fn lemma_unit_with_path_prefix(units: Seq<Unit>, k: int, path: Seq<char>)
    requires
        0 < k <= units.len(),
        unit_with_path(units.take(k - 1), path) is None,
        units[k - 1].path matches Some(found) && found@ == path,
    ensures
        unit_with_path(units, path) == Some(k - 1),
    decreases units.len() - k,
{
    assert(units.take(k).drop_last() =~= units.take(k - 1));
    if k < units.len() {
        lemma_unit_with_path_prefix_extend(units, k, path, k - 1);
    } else {
        assert(units.take(k) =~= units);
    }
}

proof fn lemma_unit_with_path_prefix_extend(units: Seq<Unit>, k: int, path: Seq<char>, at: int)
    requires
        0 < k <= units.len(),
        unit_with_path(units.take(k), path) == Some(at),
    ensures
        unit_with_path(units, path) == Some(at),
    decreases units.len() - k,
{
    if k < units.len() {
        assert(units.take(k + 1).drop_last() =~= units.take(k));
        lemma_unit_with_path_prefix_extend(units, k + 1, path, at);
    } else {
        assert(units.take(k) =~= units);
    }
}

/// Where a run of statements starts: at its first statement, or nowhere.
pub fn span_of(statements: &Vec<Stmt>) -> (found: Span)
    ensures
        found == if statements@.len() > 0 {
            crate::ast::stmt_span(statements@[0])
        } else {
            Span { line: 0, col: 0, end: 0 }
        },
{
    if statements.len() > 0 {
        statements[0].span()
    } else {
        Span::new(0, 0, 0)
    }
}

} // verus!
