//! Merge all files' facts into a table and resolve every reference.
//!
//! Pure and in-memory: after one file's facts are replaced, rerunning this
//! phase over the project's facts is cheap.

use vstd::prelude::*;
use vstd::string::StringExecFns;

use crate::kind::{doc_anchor, KindId};
use crate::model::{FileFacts, Ref, RefView, Symbol, SymbolView};
use crate::table::{
    after_adds, after_aliases, dup_views, find_entry, lemma_walk_duplicates_step, walk_duplicates, Entry, SymbolTable,
};
use crate::text::str_eq;

verus! {

/// How loudly a diagnostic speaks: every schema reference is one the game
/// reads (an error); only a stale smart-doc anchor is a warning.
#[derive(Clone, Copy, Debug, PartialEq, Eq, Structural)]
pub enum Severity {
    Error,
    Warning,
}

impl Default for Severity {
    fn default() -> (s: Severity)
        ensures
            s == Severity::Error,
    {
        Severity::Error
    }
}

/// An unresolved-reference diagnostic: the file and byte range of the
/// offending value, the message, and its severity.
#[derive(Debug)]
pub struct RefDiag {
    pub file: String,
    pub start: u32,
    pub end: u32,
    pub msg: String,
    pub severity: Severity,
}

/// The `Debug` rendering of a string: quoted, with escapes.
pub uninterp spec fn debug_quoted(s: Seq<char>) -> Seq<char>;

/// Renders `s` with `str`'s `Debug` formatting (`format!("{:?}", s)`):
/// the contract names the result as `debug_quoted` of the text; the escape
/// rules themselves are std's and are not restated.
#[verifier::external_body]
fn debug_str(s: &str) -> (r: String)
    ensures
        r@ == debug_quoted(s@),
{
    format!("{:?}", s)
}

/// `unknown <kind> <"name">`.
pub open spec fn unknown_message(kind: Seq<char>, name: Seq<char>) -> Seq<char> {
    "unknown "@ + kind + " "@ + debug_quoted(name)
}

/// Builds the unresolved-reference message for `name` of `kind`.
pub fn unknown_msg(kind: KindId, name: &str) -> (r: String)
    ensures
        r@ == unknown_message(kind@, name@),
{
    let mut m = String::from_str("unknown ");
    m.append(kind.name());
    m.append(" ");
    let q = debug_str(name);
    m.append(q.as_str());
    m
}

/// The severity an unresolved reference of a kind is reported at.
pub open spec fn spec_ref_severity(kind: Seq<char>) -> Severity {
    if kind == "doc_anchor"@ {
        Severity::Warning
    } else {
        Severity::Error
    }
}

fn ref_severity(kind: KindId) -> (s: Severity)
    ensures
        s == spec_ref_severity(kind@),
{
    if kind == doc_anchor() {
        Severity::Warning
    } else {
        Severity::Error
    }
}

/// A reference resolves when its own kind, or one of its alternates, defines
/// its name.
pub open spec fn resolves(es: Seq<Entry>, r: RefView) -> bool {
    ||| find_entry(es, r.kind, r.name) is Some
    ||| exists|i: int| 0 <= i < r.alt.len() && find_entry(es, r.alt[i], r.name) is Some
}

/// The references that do not resolve, in order.
pub open spec fn unresolved(es: Seq<Entry>, rs: Seq<RefView>) -> Seq<RefView>
    decreases rs.len(),
{
    if rs.len() == 0 {
        Seq::empty()
    } else {
        let prev = unresolved(es, rs.drop_last());
        if resolves(es, rs.last()) {
            prev
        } else {
            prev.push(rs.last())
        }
    }
}

/// `d` reports `r` at severity `sev`.
pub open spec fn is_diag_for(d: RefDiag, r: RefView, sev: Severity) -> bool {
    &&& d.file@ == r.file
    &&& d.start == r.start
    &&& d.end == r.end
    &&& d.msg@ == unknown_message(r.kind, r.name)
    &&& d.severity == sev
}

/// `ds` reports `rs` one for one, each at its kind's severity (or always as
/// an error when `always_error`).
pub open spec fn reports(ds: Seq<RefDiag>, rs: Seq<RefView>, always_error: bool) -> bool {
    &&& ds.len() == rs.len()
    &&& forall|i: int|
        0 <= i < ds.len() ==> is_diag_for(
            #[trigger] ds[i],
            rs[i],
            if always_error {
                Severity::Error
            } else {
                spec_ref_severity(rs[i].kind)
            },
        )
}

fn diag_for(r: &Ref, severity: Severity) -> (d: RefDiag)
    ensures
        is_diag_for(d, r@, severity),
{
    RefDiag {
        file: r.file.clone(),
        start: r.start,
        end: r.end,
        msg: unknown_msg(r.kind, r.name.as_str()),
        severity,
    }
}

/// Whether `r` resolves against the table.
fn resolves_in(table: &SymbolTable, r: &Ref) -> (b: bool)
    ensures
        b == resolves(table@, r@),
{
    if table.lookup(r.kind, r.name.as_str()).is_some() {
        return true;
    }
    let mut i: usize = 0;
    while i < r.alt.len()
        invariant
            i <= r.alt@.len(),
            find_entry(table@, r@.kind, r@.name) is None,
            forall|j: int| 0 <= j < i ==> find_entry(table@, r@.alt[j], r@.name) is None,
        decreases r.alt@.len() - i,
    {
        if table.lookup(r.alt[i], r.name.as_str()).is_some() {
            assert(r@.alt[i as int] == r.alt@[i as int]@);
            return true;
        }
        i += 1;
    }
    false
}

/// Checks each reference against the completed table, returning a diagnostic
/// for every one that does not resolve.
pub fn resolve_refs(table: &SymbolTable, refs: &[&Ref]) -> (diags: Vec<RefDiag>)
    ensures
        reports(diags@, unresolved(table@, refs@.map_values(|r: &Ref| r@)), false),
{
    let ghost rs = refs@.map_values(|r: &Ref| r@);
    let mut diags: Vec<RefDiag> = Vec::new();
    let mut i: usize = 0;
    while i < refs.len()
        invariant
            i <= refs@.len(),
            rs == refs@.map_values(|r: &Ref| r@),
            reports(diags@, unresolved(table@, rs.take(i as int)), false),
        decreases refs@.len() - i,
    {
        assert(rs.take(i as int + 1).drop_last() =~= rs.take(i as int));
        let r = refs[i];
        if !resolves_in(table, r) {
            let ghost before = diags@;
            diags.push(diag_for(r, ref_severity(r.kind)));
            assert(diags@ == before.push(diags@.last()));
        }
        i += 1;
    }
    assert(rs.take(refs@.len() as int) =~= rs);
    diags
}

/// The facts registered for `rel` (the entry with that path; callers keep
/// paths unique).
pub open spec fn facts_of(facts: Seq<(String, FileFacts)>, rel: Seq<char>) -> Option<FileFacts>
    decreases facts.len(),
{
    if facts.len() == 0 {
        None
    } else if facts.last().0@ == rel {
        Some(facts.last().1)
    } else {
        facts_of(facts.drop_last(), rel)
    }
}

/// The definitions met walking `order`, file by file.
pub open spec fn walk_defs(facts: Seq<(String, FileFacts)>, order: Seq<&str>) -> Seq<SymbolView>
    decreases order.len(),
{
    if order.len() == 0 {
        Seq::empty()
    } else {
        walk_defs(facts, order.drop_last()) + match facts_of(facts, order.last()@) {
            Some(f) => f.defs@.map_values(|s: Symbol| s@),
            None => Seq::empty(),
        }
    }
}

/// The aliases met walking `order`, file by file.
pub open spec fn walk_aliases(facts: Seq<(String, FileFacts)>, order: Seq<&str>) -> Seq<SymbolView>
    decreases order.len(),
{
    if order.len() == 0 {
        Seq::empty()
    } else {
        walk_aliases(facts, order.drop_last()) + match facts_of(facts, order.last()@) {
            Some(f) => f.aliases@.map_values(|s: Symbol| s@),
            None => Seq::empty(),
        }
    }
}

/// The global references met walking `order`, file by file.
pub open spec fn walk_refs(facts: Seq<(String, FileFacts)>, order: Seq<&str>) -> Seq<RefView>
    decreases order.len(),
{
    if order.len() == 0 {
        Seq::empty()
    } else {
        walk_refs(facts, order.drop_last()) + match facts_of(facts, order.last()@) {
            Some(f) => f.refs@.map_values(|r: Ref| r@),
            None => Seq::empty(),
        }
    }
}

/// Whether one of `consts` is named `name`.
pub open spec fn constant_defined(consts: Seq<Symbol>, name: Seq<char>) -> bool {
    exists|i: int| 0 <= i < consts.len() && consts[i].name@ == name
}

/// The script-constant references of one file that its own constants do not
/// define, in order.
pub open spec fn undefined_constants(consts: Seq<Symbol>, rs: Seq<Ref>) -> Seq<RefView>
    decreases rs.len(),
{
    if rs.len() == 0 {
        Seq::empty()
    } else {
        let prev = undefined_constants(consts, rs.drop_last());
        if constant_defined(consts, rs.last().name@) {
            prev
        } else {
            prev.push(rs.last()@)
        }
    }
}

/// The undefined script-constant references met walking `order`.
pub open spec fn walk_undefined_constants(facts: Seq<(String, FileFacts)>, order: Seq<&str>) -> Seq<RefView>
    decreases order.len(),
{
    if order.len() == 0 {
        Seq::empty()
    } else {
        walk_undefined_constants(facts, order.drop_last()) + match facts_of(facts, order.last()@) {
            Some(f) => undefined_constants(f.constants@, f.constant_refs@),
            None => Seq::empty(),
        }
    }
}

/// The merged table: definitions in walk order (first writer wins), then
/// aliases filling gaps.
pub open spec fn merged_entries(facts: Seq<(String, FileFacts)>, order: Seq<&str>) -> Seq<Entry> {
    after_aliases(after_adds(Seq::empty(), walk_defs(facts, order)), walk_aliases(facts, order))
}

fn facts_index(facts: &[(String, FileFacts)], rel: &str) -> (r: Option<usize>)
    ensures
        r is None ==> facts_of(facts@, rel@) is None,
        r matches Some(i) ==> i < facts@.len() && facts_of(facts@, rel@) == Some(facts@[i as int].1),
{
    let mut i: usize = facts.len();
    assert(facts@.take(i as int) =~= facts@);
    while i > 0
        invariant
            i <= facts@.len(),
            facts_of(facts@, rel@) == facts_of(facts@.take(i as int), rel@),
        decreases i,
    {
        assert(facts@.take(i as int).drop_last() =~= facts@.take(i as int - 1));
        if str_eq(facts[i - 1].0.as_str(), rel) {
            return Some(i - 1);
        }
        i -= 1;
    }
    None
}

/// Builds the symbol table from the gathered facts (definitions in walk
/// order, so a duplicate's "first" is stable; then aliases) and resolves all
/// references. Script constants resolve file-locally: an `@name` reference
/// checks only its own file's `@name = …` definitions. `facts` maps each
/// file (by relative path) to its facts: no path occurs in it twice.
pub fn merge_and_resolve(order: &[&str], facts: &[(String, FileFacts)]) -> (r: (SymbolTable, Vec<RefDiag>))
    requires
        forall|i: int, j: int| 0 <= i < j < facts@.len() ==> (#[trigger] facts@[i]).0@ != (#[trigger] facts@[j]).0@,
    ensures
        r.0@ == merged_entries(facts@, order@),
        r.0.wf(),
        dup_views(r.0.spec_duplicates()) == walk_duplicates(walk_defs(facts@, order@)),
        r.1@.len() == unresolved(r.0@, walk_refs(facts@, order@)).len() + walk_undefined_constants(
            facts@,
            order@,
        ).len(),
        reports(
            r.1@.take(unresolved(r.0@, walk_refs(facts@, order@)).len() as int),
            unresolved(r.0@, walk_refs(facts@, order@)),
            false,
        ),
        reports(
            r.1@.skip(unresolved(r.0@, walk_refs(facts@, order@)).len() as int),
            walk_undefined_constants(facts@, order@),
            true,
        ),
{
    let ghost fs = facts@;
    let mut table = SymbolTable::new();
    let mut refs: Vec<&Ref> = Vec::new();
    let mut k: usize = 0;
    while k < order.len()
        invariant
            k <= order@.len(),
            fs == facts@,
            table@ == after_adds(Seq::empty(), walk_defs(fs, order@.take(k as int))),
            table.wf(),
            dup_views(table.spec_duplicates()) == walk_duplicates(walk_defs(fs, order@.take(k as int))),
            refs@.map_values(|r: &Ref| r@) == walk_refs(fs, order@.take(k as int)),
        decreases order@.len() - k,
    {
        let ghost ok = order@.take(k as int + 1);
        assert(ok.drop_last() =~= order@.take(k as int));
        if let Some(fi) = facts_index(facts, order[k]) {
            let f = &facts[fi].1;
            let ghost base = walk_defs(fs, order@.take(k as int));
            let ghost rbase = refs@.map_values(|r: &Ref| r@);
            let mut j: usize = 0;
            while j < f.defs.len()
                invariant
                    j <= f.defs@.len(),
                    table@ == after_adds(Seq::empty(), base + f.defs@.map_values(|s: Symbol| s@).take(j as int)),
                    table.wf(),
                    dup_views(table.spec_duplicates()) == walk_duplicates(base + f.defs@.map_values(|s: Symbol| s@).take(j as int)),
                decreases f.defs@.len() - j,
            {
                let ghost dv = f.defs@.map_values(|s: Symbol| s@);
                assert((base + dv.take(j as int + 1)).drop_last() =~= base + dv.take(j as int));
                assert(base + dv.take(j as int + 1) =~= (base + dv.take(j as int)).push(dv[j as int]));
                proof {
                    lemma_walk_duplicates_step(base + dv.take(j as int), dv[j as int]);
                }
                table.add(f.defs[j].clone());
                j += 1;
            }
            assert(f.defs@.map_values(|s: Symbol| s@).take(f.defs@.len() as int) =~= f.defs@.map_values(|s: Symbol| s@));
            let mut j: usize = 0;
            while j < f.refs.len()
                invariant
                    j <= f.refs@.len(),
                    refs@.map_values(|r: &Ref| r@) == rbase + f.refs@.map_values(|r: Ref| r@).take(j as int),
                decreases f.refs@.len() - j,
            {
                let ghost before = refs@;
                let rj = &f.refs[j];
                refs.push(rj);
                assert(refs@ == before.push(rj));
                assert(rj@ == f.refs@.map_values(|r: Ref| r@)[j as int]);
                assert(f.refs@.map_values(|r: Ref| r@).take(j as int + 1) =~= f.refs@.map_values(|r: Ref| r@).take(j as int).push(rj@));
                assert(refs@.map_values(|r: &Ref| r@) =~= before.map_values(|r: &Ref| r@).push(rj@));
                assert(refs@.map_values(|r: &Ref| r@) =~= rbase + f.refs@.map_values(|r: Ref| r@).take(j as int + 1));
                j += 1;
            }
            assert(f.refs@.map_values(|r: Ref| r@).take(f.refs@.len() as int) =~= f.refs@.map_values(|r: Ref| r@));
        } else {
            assert(walk_defs(fs, ok) =~= walk_defs(fs, order@.take(k as int)));
            assert(walk_refs(fs, ok) =~= walk_refs(fs, order@.take(k as int)));
        }
        k += 1;
    }
    assert(order@.take(order@.len() as int) =~= order@);
    let ghost defs_done = table@;
    let mut k: usize = 0;
    while k < order.len()
        invariant
            k <= order@.len(),
            fs == facts@,
            table@ == after_aliases(defs_done, walk_aliases(fs, order@.take(k as int))),
            table.wf(),
            dup_views(table.spec_duplicates()) == walk_duplicates(walk_defs(fs, order@)),
        decreases order@.len() - k,
    {
        let ghost ok = order@.take(k as int + 1);
        assert(ok.drop_last() =~= order@.take(k as int));
        if let Some(fi) = facts_index(facts, order[k]) {
            let f = &facts[fi].1;
            let ghost base = walk_aliases(fs, order@.take(k as int));
            let mut j: usize = 0;
            while j < f.aliases.len()
                invariant
                    j <= f.aliases@.len(),
                    table@ == after_aliases(defs_done, base + f.aliases@.map_values(|s: Symbol| s@).take(j as int)),
                    table.wf(),
                    dup_views(table.spec_duplicates()) == walk_duplicates(walk_defs(fs, order@)),
                decreases f.aliases@.len() - j,
            {
                let ghost av = f.aliases@.map_values(|s: Symbol| s@);
                assert((base + av.take(j as int + 1)).drop_last() =~= base + av.take(j as int));
                let alias = &f.aliases[j];
                table.add_alias(alias.kind, alias.name.as_str(), alias.clone());
                j += 1;
            }
            assert(f.aliases@.map_values(|s: Symbol| s@).take(f.aliases@.len() as int) =~= f.aliases@.map_values(|s: Symbol| s@));
        } else {
            assert(walk_aliases(fs, ok) =~= walk_aliases(fs, order@.take(k as int)));
        }
        k += 1;
    }
    let mut diags = resolve_refs(&table, refs.as_slice());
    let ghost n1 = diags@.len();
    let ghost first_part = diags@;
    let mut k: usize = 0;
    while k < order.len()
        invariant
            k <= order@.len(),
            fs == facts@,
            n1 == first_part.len(),
            diags@.len() >= n1,
            diags@.take(n1 as int) == first_part,
            reports(diags@.skip(n1 as int), walk_undefined_constants(fs, order@.take(k as int)), true),
        decreases order@.len() - k,
    {
        let ghost ok = order@.take(k as int + 1);
        assert(ok.drop_last() =~= order@.take(k as int));
        if let Some(fi) = facts_index(facts, order[k]) {
            let f = &facts[fi].1;
            let ghost base = walk_undefined_constants(fs, order@.take(k as int));
            let mut j: usize = 0;
            while j < f.constant_refs.len()
                invariant
                    j <= f.constant_refs@.len(),
                    n1 == first_part.len(),
                    diags@.len() >= n1,
                    diags@.take(n1 as int) == first_part,
                    reports(diags@.skip(n1 as int), base + undefined_constants(f.constants@, f.constant_refs@.take(j as int)), true),
                decreases f.constant_refs@.len() - j,
            {
                assert(f.constant_refs@.take(j as int + 1).drop_last() =~= f.constant_refs@.take(j as int));
                let r = &f.constant_refs[j];
                if !constant_in(&f.constants, r.name.as_str()) {
                    let ghost before = diags@;
                    diags.push(diag_for(r, Severity::Error));
                    assert(diags@.take(n1 as int) =~= before.take(n1 as int));
                    assert(diags@.skip(n1 as int) =~= before.skip(n1 as int).push(diags@.last()));
                }
                j += 1;
            }
            assert(f.constant_refs@.take(f.constant_refs@.len() as int) =~= f.constant_refs@);
        } else {
            assert(walk_undefined_constants(fs, ok) =~= walk_undefined_constants(fs, order@.take(k as int)));
        }
        k += 1;
    }
    (table, diags)
}

fn constant_in(consts: &Vec<Symbol>, name: &str) -> (b: bool)
    ensures
        b == constant_defined(consts@, name@),
{
    let mut i: usize = 0;
    while i < consts.len()
        invariant
            i <= consts@.len(),
            forall|j: int| 0 <= j < i ==> consts@[j].name@ != name@,
        decreases consts@.len() - i,
    {
        if str_eq(consts[i].name.as_str(), name) {
            return true;
        }
        i += 1;
    }
    false
}

} // verus!
