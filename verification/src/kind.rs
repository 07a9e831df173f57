//! Symbol-kind identity: an opaque, self-describing name.
//!
//! The engine compares, counts and names kinds but never enumerates them;
//! each game supplies its own vocabulary.

use vstd::prelude::*;

use crate::text::str_eq;

verus! {

/// The identity of a symbol kind, carried as its stable report name.
#[derive(Clone, Copy, Debug)]
pub struct KindId(&'static str);

impl View for KindId {
    type V = Seq<char>;

    closed spec fn view(&self) -> Seq<char> {
        self.0@
    }
}

impl KindId {
    /// Declares a kind by its stable report name (`"secret_type"`).
    pub fn new(name: &'static str) -> (k: KindId)
        ensures
            k@ == name@,
    {
        KindId(name)
    }

    /// The stable report name — used in dumps, diagnostics, and hover.
    pub fn name(self) -> (s: &'static str)
        ensures
            s@ == self@,
    {
        self.0
    }
}

impl PartialEq for KindId {
    fn eq(&self, other: &Self) -> (r: bool) {
        str_eq(self.0, other.0)
    }
}

impl vstd::std_specs::cmp::PartialEqSpecImpl for KindId {
    open spec fn obeys_eq_spec() -> bool {
        true
    }

    open spec fn eq_spec(&self, other: &Self) -> bool {
        self@ == other@
    }
}

impl Eq for KindId {}

/// Localization keys — the kind the engine owns, since localization is
/// universal to every Paradox game.
pub fn loc_key() -> (k: KindId)
    ensures
        k@ == "loc_key"@,
{
    KindId("loc_key")
}

/// Script constants (`@name = value`): file-local symbols that resolve per
/// file and never enter the global symbol table.
pub fn script_constant() -> (k: KindId)
    ensures
        k@ == "script_constant"@,
{
    KindId("script_constant")
}

/// The smart-doc anchor kind (`#! @key …`): its unresolved references are
/// only warnings.
pub fn doc_anchor() -> (k: KindId)
    ensures
        k@ == "doc_anchor"@,
{
    KindId("doc_anchor")
}

/// The kinds a game's call-by-name references resolve to.
#[derive(Clone, Copy, Debug)]
pub struct CallKinds {
    pub effect: KindId,
    pub trigger: KindId,
    pub value: KindId,
}

/// The kinds a game assigns to the two interface-script (`.gui`) symbol
/// roles, plus the datafunction argument and loc-field conventions.
#[derive(Clone, Copy, Debug)]
pub struct GuiKinds {
    pub template: KindId,
    pub ty: KindId,
    /// Datafunctions whose first quoted argument names a symbol of a kind.
    pub arg_refs: &'static [(&'static str, KindId)],
    /// Widget properties whose quoted value is a localization key.
    pub loc_fields: &'static [&'static str],
}

} // verus!
