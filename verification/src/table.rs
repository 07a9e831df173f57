//! The whole-project symbol table: merged definitions with duplicate tracking.
//!
//! Merge policy is **first-writer-wins**: the first definition of a
//! (kind, name) in walk order is the one the table serves, and every later
//! redefinition is recorded in [`SymbolTable::duplicates`]. Aliases fill gaps
//! only — an alias never shadows a definition and is never duplicate-tracked.
//!
//! The table is modeled as the sequence of its (kind, name, symbol) entries,
//! in insertion order, with no (kind, name) key occurring twice.

use vstd::prelude::*;

use crate::kind::KindId;
use crate::model::{Symbol, SymbolView};
use crate::text::str_eq;

verus! {

/// A redefinition of an already-defined symbol.
#[derive(Debug)]
pub struct Duplicate {
    pub kind: KindId,
    pub name: String,
    /// The previously registered (winning) definition.
    pub first: Symbol,
    /// The file that redefined it.
    pub file: String,
}

/// One table entry, by view: the kind, the name it answers to, the symbol.
pub type Entry = (Seq<char>, Seq<char>, SymbolView);

/// The symbol the entries serve for (kind, name): the last entry with that
/// key (with unique keys, the only one).
pub open spec fn find_entry(es: Seq<Entry>, kind: Seq<char>, name: Seq<char>) -> Option<SymbolView>
    decreases es.len(),
{
    if es.len() == 0 {
        None
    } else if es.last().0 == kind && es.last().1 == name {
        Some(es.last().2)
    } else {
        find_entry(es.drop_last(), kind, name)
    }
}

/// No (kind, name) key occurs twice.
pub open spec fn keys_unique(es: Seq<Entry>) -> bool {
    forall|i: int, j: int|
        0 <= i < j < es.len() ==> !(es[i].0 == es[j].0 && es[i].1 == es[j].1)
}

/// The number of entries of a kind.
pub open spec fn count_kind(es: Seq<Entry>, kind: Seq<char>) -> nat
    decreases es.len(),
{
    if es.len() == 0 {
        0
    } else {
        count_kind(es.drop_last(), kind) + if es.last().0 == kind {
            1nat
        } else {
            0nat
        }
    }
}

/// The names of the entries of a kind, in insertion order.
pub open spec fn names_of_kind(es: Seq<Entry>, kind: Seq<char>) -> Seq<Seq<char>>
    decreases es.len(),
{
    if es.len() == 0 {
        Seq::empty()
    } else {
        let prev = names_of_kind(es.drop_last(), kind);
        if es.last().0 == kind {
            prev.push(es.last().1)
        } else {
            prev
        }
    }
}

/// The entries after registering a definition: unchanged when its key is
/// taken, else extended by it.
pub open spec fn after_add(es: Seq<Entry>, s: SymbolView) -> Seq<Entry> {
    if find_entry(es, s.kind, s.name) is Some {
        es
    } else {
        es.push((s.kind, s.name, s))
    }
}

/// The entries after registering an alias `name` of `kind` for `s`.
pub open spec fn after_alias(es: Seq<Entry>, kind: Seq<char>, name: Seq<char>, s: SymbolView) -> Seq<Entry> {
    if find_entry(es, kind, name) is Some {
        es
    } else {
        es.push((kind, name, s))
    }
}

/// The entries after registering definitions in order.
pub open spec fn after_adds(es: Seq<Entry>, syms: Seq<SymbolView>) -> Seq<Entry>
    decreases syms.len(),
{
    if syms.len() == 0 {
        es
    } else {
        after_add(after_adds(es, syms.drop_last()), syms.last())
    }
}

/// The first symbol of `syms` defining (kind, name), if any.
pub open spec fn first_definition(syms: Seq<SymbolView>, kind: Seq<char>, name: Seq<char>) -> Option<SymbolView>
    decreases syms.len(),
{
    if syms.len() == 0 {
        None
    } else {
        match first_definition(syms.drop_last(), kind, name) {
            Some(s) => Some(s),
            None => if syms.last().kind == kind && syms.last().name == name {
                Some(syms.last())
            } else {
                None
            },
        }
    }
}

/// A recorded redefinition, by view: the kind, the name, the winning (first)
/// definition, and the file that redefined it.
pub type DupView = (Seq<char>, Seq<char>, SymbolView, Seq<char>);

/// The views of recorded redefinitions.
pub open spec fn dup_views(ds: Seq<Duplicate>) -> Seq<DupView> {
    ds.map_values(|d: Duplicate| (d.kind@, d.name@, d.first@, d.file@))
}

/// The redefinitions met registering `syms` in order into an empty table:
/// one for each definition whose (kind, name) an earlier one already took,
/// carrying that earlier first definition and the redefining file.
pub open spec fn walk_duplicates(syms: Seq<SymbolView>) -> Seq<DupView>
    decreases syms.len(),
{
    if syms.len() == 0 {
        Seq::empty()
    } else {
        let s = syms.last();
        walk_duplicates(syms.drop_last()) + match first_definition(syms.drop_last(), s.kind, s.name) {
            Some(f) => seq![(s.kind, s.name, f, s.file)],
            None => Seq::empty(),
        }
    }
}

/// The distinct kinds of some entries, in first-seen order.
pub open spec fn kinds_in(es: Seq<Entry>) -> Seq<Seq<char>>
    decreases es.len(),
{
    if es.len() == 0 {
        Seq::empty()
    } else {
        let prev = kinds_in(es.drop_last());
        if prev.contains(es.last().0) {
            prev
        } else {
            prev.push(es.last().0)
        }
    }
}

/// The sum of the entry counts of some kinds.
pub open spec fn sum_counts(es: Seq<Entry>, ks: Seq<Seq<char>>) -> nat
    decreases ks.len(),
{
    if ks.len() == 0 {
        0
    } else {
        sum_counts(es, ks.drop_last()) + count_kind(es, ks.last())
    }
}

/// All collected definitions, indexed by kind and name.
#[derive(Debug)]
pub struct SymbolTable {
    entries: Vec<(KindId, String, Symbol)>,
    pub duplicates: Vec<Duplicate>,
}

impl View for SymbolTable {
    type V = Seq<Entry>;

    closed spec fn view(&self) -> Seq<Entry> {
        self.entries@.map_values(|e: (KindId, String, Symbol)| (e.0@, e.1@, e.2@))
    }
}

impl SymbolTable {
    /// The recorded redefinitions, in the order they were met.
    pub closed spec fn spec_duplicates(&self) -> Seq<Duplicate> {
        self.duplicates@
    }

    /// The table's invariant: no (kind, name) key is held twice. Every
    /// table the constructors and mutators build keeps it.
    pub open spec fn wf(&self) -> bool {
        keys_unique(self@)
    }

    /// An empty table.
    pub fn new() -> (t: SymbolTable)
        ensures
            t@ == Seq::<Entry>::empty(),
            t.spec_duplicates().len() == 0,
            t.wf(),
    {
        let t = SymbolTable { entries: Vec::new(), duplicates: Vec::new() };
        assert(t@ =~= Seq::<Entry>::empty());
        t
    }

    /// The index of the entry for (kind, name), searching from the end.
    fn position(&self, kind: KindId, name: &str) -> (r: Option<usize>)
        ensures
            r is None ==> find_entry(self@, kind@, name@) is None,
            r matches Some(i) ==> i < self@.len() && find_entry(self@, kind@, name@) == Some(self@[i as int].2)
                && self.entries@[i as int].2@ == self@[i as int].2,
    {
        let ghost es = self@;
        let mut i: usize = self.entries.len();
        assert(es.take(i as int) =~= es);
        while i > 0
            invariant
                i <= es.len(),
                es == self@,
                es.len() == self.entries@.len(),
                find_entry(es, kind@, name@) == find_entry(es.take(i as int), kind@, name@),
            decreases i,
        {
            assert(es.take(i as int).drop_last() =~= es.take(i as int - 1));
            let e = &self.entries[i - 1];
            if e.0 == kind && str_eq(e.1.as_str(), name) {
                return Some(i - 1);
            }
            i -= 1;
        }
        None
    }

    /// Registers a definition; a repeat of an existing (kind, name) is recorded
    /// as a [`Duplicate`] and does not replace the first definition.
    pub fn add(&mut self, symbol: Symbol)
        ensures
            final(self)@ == after_add(old(self)@, symbol@),
            match find_entry(old(self)@, symbol.kind@, symbol.name@) {
                Some(first) => {
                    &&& final(self).spec_duplicates().len() == old(self).spec_duplicates().len() + 1
                    &&& final(self).spec_duplicates().take(old(self).spec_duplicates().len() as int) == old(self).spec_duplicates()
                    &&& final(self).spec_duplicates().last().kind == symbol.kind
                    &&& final(self).spec_duplicates().last().name == symbol.name
                    &&& final(self).spec_duplicates().last().first@ == first
                    &&& final(self).spec_duplicates().last().file == symbol.file
                },
                None => final(self).spec_duplicates() == old(self).spec_duplicates(),
            },
            dup_views(final(self).spec_duplicates()) == dup_views(old(self).spec_duplicates()) + match find_entry(
                old(self)@,
                symbol.kind@,
                symbol.name@,
            ) {
                Some(first) => seq![(symbol.kind@, symbol.name@, first, symbol.file@)],
                None => Seq::<DupView>::empty(),
            },
            old(self).wf() ==> final(self).wf(),
    {
        proof {
            if keys_unique(self@) {
                law_registration_keeps_keys_unique(self@, symbol@, symbol.kind@, symbol.name@);
            }
        }
        match self.position(symbol.kind, symbol.name.as_str()) {
            Some(i) => {
                let first = self.entries[i].2.clone();
                let ghost old_dups = self.duplicates@;
                let d = Duplicate { kind: symbol.kind, name: symbol.name, first, file: symbol.file };
                let ghost dv = (d.kind@, d.name@, d.first@, d.file@);
                self.duplicates.push(d);
                assert(self.duplicates@.take(old_dups.len() as int) =~= old_dups);
                assert(dup_views(self.duplicates@) =~= dup_views(old_dups) + seq![dv]);
            },
            None => {
                let name = symbol.name.clone();
                let ghost old_es = self@;
                self.entries.push((symbol.kind, name, symbol));
                assert(self@ =~= old_es.push((symbol.kind@, symbol.name@, symbol@)));
            },
        }
    }

    /// Registers an additional resolvable name for a kind without duplicate
    /// tracking — gap-fill only (an existing entry always wins).
    pub fn add_alias(&mut self, kind: KindId, name: &str, symbol: Symbol)
        ensures
            final(self)@ == after_alias(old(self)@, kind@, name@, symbol@),
            final(self).spec_duplicates() == old(self).spec_duplicates(),
            old(self).wf() ==> final(self).wf(),
    {
        proof {
            if keys_unique(self@) {
                law_registration_keeps_keys_unique(self@, symbol@, kind@, name@);
            }
        }
        match self.position(kind, name) {
            Some(_) => {},
            None => {
                let owned = name.to_owned();
                let ghost old_es = self@;
                self.entries.push((kind, owned, symbol));
                assert(self@ =~= old_es.push((kind@, name@, symbol@)));
            },
        }
    }

    /// Number of symbols of the given kind.
    pub fn count(&self, kind: KindId) -> (r: usize)
        ensures
            r == count_kind(self@, kind@),
    {
        let ghost es = self@;
        let mut n: usize = 0;
        let mut i: usize = 0;
        while i < self.entries.len()
            invariant
                i <= es.len(),
                es == self@,
                es.len() == self.entries@.len(),
                n == count_kind(es.take(i as int), kind@),
                n <= i,
            decreases es.len() - i,
        {
            assert(es.take(i as int + 1).drop_last() =~= es.take(i as int));
            if self.entries[i].0 == kind {
                n += 1;
            }
            i += 1;
        }
        assert(es.take(es.len() as int) =~= es);
        n
    }

    /// Total number of symbols across all kinds.
    pub fn total(&self) -> (r: usize)
        ensures
            r == self@.len(),
    {
        self.entries.len()
    }

    /// The symbol of the given kind and name, if present.
    pub fn lookup(&self, kind: KindId, name: &str) -> (r: Option<&Symbol>)
        ensures
            r is None ==> find_entry(self@, kind@, name@) is None,
            r matches Some(s) ==> find_entry(self@, kind@, name@) == Some(s@),
    {
        match self.position(kind, name) {
            Some(i) => Some(&self.entries[i].2),
            None => None,
        }
    }

    /// All defined names of a kind, in insertion order: each name the table
    /// serves for the kind, once.
    pub fn names(&self, kind: KindId) -> (r: Vec<&str>)
        ensures
            r@.map_values(|s: &str| s@) == names_of_kind(self@, kind@),
            forall|n: Seq<char>| r@.map_values(|s: &str| s@).contains(n) <==> find_entry(self@, kind@, n) is Some,
            self.wf() ==> r@.map_values(|s: &str| s@).no_duplicates(),
            r@.len() == count_kind(self@, kind@),
    {
        proof {
            lemma_names_of_kind(self@, kind@);
            law_count_within_total(self@, kind@);
        }
        let ghost es = self@;
        let mut out: Vec<&str> = Vec::new();
        let mut i: usize = 0;
        while i < self.entries.len()
            invariant
                i <= es.len(),
                es == self@,
                es.len() == self.entries@.len(),
                out@.map_values(|s: &str| s@) == names_of_kind(es.take(i as int), kind@),
            decreases es.len() - i,
        {
            assert(es.take(i as int + 1).drop_last() =~= es.take(i as int));
            if self.entries[i].0 == kind {
                let ghost before = out@;
                out.push(self.entries[i].1.as_str());
                assert(out@.map_values(|s: &str| s@) =~= before.map_values(|s: &str| s@).push(es[i as int].1));
            }
            i += 1;
        }
        assert(es.take(es.len() as int) =~= es);
        out
    }

    /// Every symbol across all kinds, in insertion order (aliases included).
    pub fn iter(&self) -> (r: Vec<&Symbol>)
        ensures
            r@.len() == self@.len(),
            forall|i: int| 0 <= i < r@.len() ==> r@[i]@ == self@[i].2,
    {
        let mut out: Vec<&Symbol> = Vec::new();
        let mut i: usize = 0;
        while i < self.entries.len()
            invariant
                i <= self.entries@.len(),
                out@.len() == i,
                forall|k: int| 0 <= k < i ==> out@[k]@ == self@[k].2,
            decreases self.entries@.len() - i,
        {
            out.push(&self.entries[i].2);
            i += 1;
        }
        out
    }
}

// ---------------------------------------------------------------------------
// Laws.

/// A present key is found in the entries, unchanged by unrelated appends.
proof fn lemma_find_push(es: Seq<Entry>, e: Entry, kind: Seq<char>, name: Seq<char>)
    ensures
        find_entry(es.push(e), kind, name) == if e.0 == kind && e.1 == name {
            Some(e.2)
        } else {
            find_entry(es, kind, name)
        },
{
    assert(es.push(e).drop_last() =~= es);
}

/// `find_entry` answers `Some` exactly when some entry has the key, and then
/// with that entry's symbol.
proof fn lemma_find_some(es: Seq<Entry>, kind: Seq<char>, name: Seq<char>)
    ensures
        find_entry(es, kind, name) is Some <==> exists|i: int|
            0 <= i < es.len() && es[i].0 == kind && es[i].1 == name,
    decreases es.len(),
{
    if es.len() > 0 {
        lemma_find_some(es.drop_last(), kind, name);
        if find_entry(es.drop_last(), kind, name) is Some {
            let i = choose|i: int| 0 <= i < es.drop_last().len() && es.drop_last()[i].0 == kind
                && es.drop_last()[i].1 == name;
            assert(es[i].0 == kind && es[i].1 == name);
        }
        if exists|i: int| 0 <= i < es.len() && es[i].0 == kind && es[i].1 == name {
            let i = choose|i: int| 0 <= i < es.len() && es[i].0 == kind && es[i].1 == name;
            if i < es.len() - 1 {
                assert(es.drop_last()[i] == es[i]);
            }
        }
    }
}

/// Registering a definition or an alias keeps keys unique.
pub proof fn law_registration_keeps_keys_unique(es: Seq<Entry>, s: SymbolView, kind: Seq<char>, name: Seq<char>)
    requires
        keys_unique(es),
    ensures
        keys_unique(after_add(es, s)),
        keys_unique(after_alias(es, kind, name, s)),
{
    lemma_find_some(es, s.kind, s.name);
    lemma_find_some(es, kind, name);
}

/// First writer wins: after registering `s`, its key is served by the
/// previous definition when there was one, else by `s`; every other key is
/// served as before.
pub proof fn law_add_first_writer_wins(es: Seq<Entry>, s: SymbolView, kind: Seq<char>, name: Seq<char>)
    ensures
        find_entry(after_add(es, s), s.kind, s.name) == match find_entry(es, s.kind, s.name) {
            Some(f) => Some(f),
            None => Some(s),
        },
        !(kind == s.kind && name == s.name) ==> find_entry(after_add(es, s), kind, name) == find_entry(
            es,
            kind,
            name,
        ),
{
    lemma_find_push(es, (s.kind, s.name, s), s.kind, s.name);
    lemma_find_push(es, (s.kind, s.name, s), kind, name);
}

/// Aliases only fill gaps: a served key keeps its symbol, an unserved one
/// gets the alias's symbol, and every other key is untouched.
pub proof fn law_alias_fills_gaps_only(es: Seq<Entry>, kind: Seq<char>, name: Seq<char>, s: SymbolView, k2: Seq<char>, n2: Seq<char>)
    ensures
        find_entry(after_alias(es, kind, name, s), kind, name) == match find_entry(es, kind, name) {
            Some(f) => Some(f),
            None => Some(s),
        },
        !(k2 == kind && n2 == name) ==> find_entry(after_alias(es, kind, name, s), k2, n2) == find_entry(
            es,
            k2,
            n2,
        ),
{
    lemma_find_push(es, (kind, name, s), kind, name);
    lemma_find_push(es, (kind, name, s), k2, n2);
}

/// Over a whole walk, each key is served by the table's prior definition if
/// it had one, else by the first symbol of the walk that defines it.
pub proof fn law_walk_order_first_definition(es: Seq<Entry>, syms: Seq<SymbolView>, kind: Seq<char>, name: Seq<char>)
    ensures
        find_entry(after_adds(es, syms), kind, name) == match find_entry(es, kind, name) {
            Some(f) => Some(f),
            None => first_definition(syms, kind, name),
        },
    decreases syms.len(),
{
    if syms.len() > 0 {
        law_walk_order_first_definition(es, syms.drop_last(), kind, name);
        law_add_first_writer_wins(after_adds(es, syms.drop_last()), syms.last(), kind, name);
    }
}

/// The table's size is the sum of what it holds: every entry counts toward
/// exactly its own kind, so no kind counts more than the total.
pub proof fn law_count_within_total(es: Seq<Entry>, kind: Seq<char>)
    ensures
        count_kind(es, kind) <= es.len(),
        count_kind(es, kind) == names_of_kind(es, kind).len(),
    decreases es.len(),
{
    if es.len() > 0 {
        law_count_within_total(es.drop_last(), kind);
    }
}

/// The names listed for a kind are exactly the names the entries serve for
/// it, and with unique keys each is listed once.
proof fn lemma_names_of_kind(es: Seq<Entry>, kind: Seq<char>)
    ensures
        forall|n: Seq<char>| names_of_kind(es, kind).contains(n) <==> find_entry(es, kind, n) is Some,
        keys_unique(es) ==> names_of_kind(es, kind).no_duplicates(),
    decreases es.len(),
{
    if es.len() > 0 {
        let init = es.drop_last();
        let e = es.last();
        lemma_names_of_kind(init, kind);
        assert(init.push(e) =~= es);
        let ns = names_of_kind(es, kind);
        let prev = names_of_kind(init, kind);
        assert forall|n: Seq<char>| ns.contains(n) <==> find_entry(es, kind, n) is Some by {
            lemma_find_push(init, e, kind, n);
            if e.0 == kind {
                if ns.contains(n) && n != e.1 {
                    let w = choose|w: int| 0 <= w < ns.len() && ns[w] == n;
                    assert(w < prev.len());
                    assert(prev[w] == n);
                }
                if prev.contains(n) {
                    let w = choose|w: int| 0 <= w < prev.len() && prev[w] == n;
                    assert(ns[w] == n);
                }
                if n == e.1 {
                    assert(ns[prev.len() as int] == n);
                }
            }
        }
        if keys_unique(es) {
            assert(keys_unique(init)) by {
                assert forall|i: int, j: int| 0 <= i < j < init.len() implies !(init[i].0 == init[j].0 && init[i].1 == init[j].1) by {
                    assert(init[i] == es[i] && init[j] == es[j]);
                }
            }
            if e.0 == kind {
                assert(!prev.contains(e.1)) by {
                    if prev.contains(e.1) {
                        lemma_find_some(init, kind, e.1);
                        let i = choose|i: int| 0 <= i < init.len() && init[i].0 == kind && init[i].1 == e.1;
                        assert(es[i] == init[i]);
                        assert(es[es.len() - 1] == e);
                    }
                }
                assert forall|a: int, b: int| 0 <= a < ns.len() && 0 <= b < ns.len() && a != b implies ns[a] != ns[b] by {
                    if a < prev.len() && b < prev.len() {
                        assert(ns[a] == prev[a] && ns[b] == prev[b]);
                    } else if a < prev.len() {
                        assert(ns[a] == prev[a]);
                    } else {
                        assert(ns[b] == prev[b]);
                    }
                }
            }
        }
    }
}

/// Registering definitions in order from an empty table records exactly the
/// walk's redefinitions.
pub proof fn lemma_walk_duplicates_step(syms: Seq<SymbolView>, s: SymbolView)
    ensures
        walk_duplicates(syms.push(s)) == walk_duplicates(syms) + match find_entry(after_adds(Seq::empty(), syms), s.kind, s.name) {
            Some(f) => seq![(s.kind, s.name, f, s.file)],
            None => Seq::<DupView>::empty(),
        },
{
    assert(syms.push(s).drop_last() =~= syms);
    law_walk_order_first_definition(Seq::empty(), syms, s.kind, s.name);
}

proof fn lemma_count_push(es: Seq<Entry>, e: Entry, k: Seq<char>)
    ensures
        count_kind(es.push(e), k) == count_kind(es, k) + if e.0 == k { 1nat } else { 0nat },
{
    assert(es.push(e).drop_last() =~= es);
}

proof fn lemma_sum_counts_push(es: Seq<Entry>, e: Entry, ks: Seq<Seq<char>>)
    requires
        ks.no_duplicates(),
    ensures
        sum_counts(es.push(e), ks) == sum_counts(es, ks) + if ks.contains(e.0) { 1nat } else { 0nat },
    decreases ks.len(),
{
    if ks.len() > 0 {
        let init = ks.drop_last();
        assert(init.no_duplicates()) by {
            assert forall|a: int, b: int| 0 <= a < init.len() && 0 <= b < init.len() && a != b implies init[a] != init[b] by {
                assert(init[a] == ks[a] && init[b] == ks[b]);
            }
        }
        lemma_sum_counts_push(es, e, init);
        lemma_count_push(es, e, ks.last());
        if init.contains(e.0) {
            let w = choose|w: int| 0 <= w < init.len() && init[w] == e.0;
            assert(ks[w] == e.0);
            assert(ks.last() != e.0);
            assert(ks.contains(e.0));
        } else if ks.last() == e.0 {
            assert(ks[ks.len() - 1] == e.0);
        } else {
            assert(!ks.contains(e.0)) by {
                if ks.contains(e.0) {
                    let w = choose|w: int| 0 <= w < ks.len() && ks[w] == e.0;
                    assert(w < init.len());
                    assert(init[w] == e.0);
                }
            }
        }
    }
}

proof fn lemma_kinds_in(es: Seq<Entry>)
    ensures
        kinds_in(es).no_duplicates(),
        forall|k: Seq<char>| !kinds_in(es).contains(k) ==> count_kind(es, k) == 0,
    decreases es.len(),
{
    if es.len() > 0 {
        let init = es.drop_last();
        lemma_kinds_in(init);
        let prev = kinds_in(init);
        let ks = kinds_in(es);
        assert forall|k: Seq<char>| !ks.contains(k) implies count_kind(es, k) == 0 by {
            if prev.contains(k) {
                let w = choose|w: int| 0 <= w < prev.len() && prev[w] == k;
                assert(ks[w] == k);
            }
            if es.last().0 == k && !prev.contains(k) {
                assert(ks[prev.len() as int] == k);
            }
            assert(count_kind(es, k) == count_kind(init, k) + if es.last().0 == k { 1nat } else { 0nat });
            assert(count_kind(init, k) == 0);
        }
        if !prev.contains(es.last().0) {
            assert forall|a: int, b: int| 0 <= a < ks.len() && 0 <= b < ks.len() && a != b implies ks[a] != ks[b] by {
                if a < prev.len() && b < prev.len() {
                    assert(ks[a] == prev[a] && ks[b] == prev[b]);
                } else if a < prev.len() {
                    assert(ks[a] == prev[a]);
                } else {
                    assert(ks[b] == prev[b]);
                }
            }
        }
    }
}

/// The table's size is the sum, over the kinds it holds, of each kind's
/// count: every symbol counts toward exactly one kind.
pub proof fn law_total_is_sum_of_counts(es: Seq<Entry>)
    ensures
        es.len() == sum_counts(es, kinds_in(es)),
    decreases es.len(),
{
    if es.len() > 0 {
        let init = es.drop_last();
        let e = es.last();
        law_total_is_sum_of_counts(init);
        lemma_kinds_in(init);
        assert(init.push(e) =~= es);
        let k0 = kinds_in(init);
        lemma_sum_counts_push(init, e, k0);
        if !k0.contains(e.0) {
            lemma_count_push(init, e, e.0);
            assert(k0.push(e.0).drop_last() =~= k0);
        }
    }
}

} // verus!

verus! {

/// The entries after registering aliases in order (each under its own kind
/// and name).
pub open spec fn after_aliases(es: Seq<Entry>, aliases: Seq<SymbolView>) -> Seq<Entry>
    decreases aliases.len(),
{
    if aliases.len() == 0 {
        es
    } else {
        let a = aliases.last();
        after_alias(after_aliases(es, aliases.drop_last()), a.kind, a.name, a)
    }
}

} // verus!
