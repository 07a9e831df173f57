//! The per-file facts model: symbols, references, and the facts of one file.

use vstd::prelude::*;

use crate::kind::{CallKinds, KindId};

verus! {

/// A definition (or alias) of a named symbol.
#[derive(Debug)]
pub struct Symbol {
    pub name: String,
    pub kind: KindId,
    /// The file (relative path) that defines it.
    pub file: String,
    /// Byte offset of the definition's start.
    pub offset: u32,
    /// Byte offset just past the definition's name.
    pub end_offset: u32,
    /// The `$PARAM$` names its body uses, sorted and deduplicated.
    pub params: Vec<String>,
}

/// The content of a [`Symbol`].
pub struct SymbolView {
    pub name: Seq<char>,
    pub kind: Seq<char>,
    pub file: Seq<char>,
    pub offset: u32,
    pub end_offset: u32,
    pub params: Seq<Seq<char>>,
}

impl View for Symbol {
    type V = SymbolView;

    open spec fn view(&self) -> SymbolView {
        SymbolView {
            name: self.name@,
            kind: self.kind@,
            file: self.file@,
            offset: self.offset,
            end_offset: self.end_offset,
            params: self.params@.map_values(|p: String| p@),
        }
    }
}

impl Clone for Symbol {
    fn clone(&self) -> (r: Symbol)
        ensures
            r@ == self@,
    {
        let params = self.params.clone();
        proof {
            assert forall|i: int| 0 <= i < params@.len() implies params@[i] == self.params@[i] by {
                assert(cloned::<String>(self.params@[i], params@[i]));
            }
            assert(params@ =~= self.params@);
        }
        Symbol {
            name: self.name.clone(),
            kind: self.kind,
            file: self.file.clone(),
            offset: self.offset,
            end_offset: self.end_offset,
            params,
        }
    }
}

/// A reference to a named symbol.
#[derive(Debug)]
pub struct Ref {
    pub kind: KindId,
    /// Alternate kinds the name may resolve to.
    pub alt: &'static [KindId],
    pub name: String,
    /// The path reported with the reference.
    pub file: String,
    /// Byte range of the referencing text.
    pub start: u32,
    pub end: u32,
}

/// The content of a [`Ref`].
pub struct RefView {
    pub kind: Seq<char>,
    pub alt: Seq<Seq<char>>,
    pub name: Seq<char>,
    pub file: Seq<char>,
    pub start: u32,
    pub end: u32,
}

impl View for Ref {
    type V = RefView;

    open spec fn view(&self) -> RefView {
        RefView {
            kind: self.kind@,
            alt: self.alt@.map_values(|k: KindId| k@),
            name: self.name@,
            file: self.file@,
            start: self.start,
            end: self.end,
        }
    }
}

impl Clone for Ref {
    fn clone(&self) -> (r: Ref)
        ensures
            r == *self,
    {
        Ref {
            kind: self.kind,
            alt: self.alt,
            name: self.name.clone(),
            file: self.file.clone(),
            start: self.start,
            end: self.end,
        }
    }
}

/// Everything one file contributes to the project.
#[derive(Debug)]
pub struct FileFacts {
    pub defs: Vec<Symbol>,
    pub aliases: Vec<Symbol>,
    pub refs: Vec<Ref>,
    /// File-local script constants (`@name = value`).
    pub constants: Vec<Symbol>,
    /// References to file-local script constants.
    pub constant_refs: Vec<Ref>,
    /// Call-by-name references (soft: navigation only, never diagnosed).
    pub calls: Vec<Ref>,
}

impl FileFacts {
    /// Facts with nothing in them.
    pub fn empty() -> (f: FileFacts)
        ensures
            f.defs@.len() == 0,
            f.aliases@.len() == 0,
            f.refs@.len() == 0,
            f.constants@.len() == 0,
            f.constant_refs@.len() == 0,
            f.calls@.len() == 0,
    {
        FileFacts {
            defs: Vec::new(),
            aliases: Vec::new(),
            refs: Vec::new(),
            constants: Vec::new(),
            constant_refs: Vec::new(),
            calls: Vec::new(),
        }
    }
}

/// The project-wide names that call-by-name references match against.
#[derive(Debug)]
pub struct CallTargets {
    pub effects: Vec<String>,
    pub triggers: Vec<String>,
    pub script_values: Vec<String>,
    pub kinds: CallKinds,
}

} // verus!
