//! The whole pass: analyze, then remove and renumber.
use vstd::prelude::*;
use crate::analyze::{analyze, blacklist_view, section_len, Analysis};
use crate::imports::function_import_types;
use crate::model::{Item, Module};
use crate::remap::{remap, remapped};
use crate::soundness::lemma_no_dangling;

verus! {

/// Why the pass left a module unchanged.
#[derive(Clone, Copy, Debug, PartialEq, Eq)]
pub enum ShrinkError {
    /// A section or the function index space has `u32::MAX` entries or more.
    TooLarge,
    /// An entity that the roots reach names an entry the module lacks.
    Unresolved(Item),
}

/// Whether every section and index space is short enough for the pass.
pub fn within_limits(m: &Module) -> (r: bool)
    ensures
        r == m.within_limits(),
{
    let ni = function_import_types(&m.imports).len();
    let nf = section_len(&m.functions);
    let max = u32::MAX as usize;
    ni < max && nf < max - ni && section_len(&m.types) < max && section_len(&m.tables) < max
        && section_len(&m.memories) < max && section_len(&m.globals) < max && section_len(
        &m.exports,
    ) < max && section_len(&m.code) < max
}

/// Removes from `m` everything that the roots do not reach (the exports
/// whose field name is not in `blacklist`, the data and element segments,
/// the tables and the start function) and renumbers what survives. On
/// success returns the live sets that were used, and every index left in `m`
/// names an entry of `m`; on failure `m` is unchanged.
pub fn shrink(m: &mut Module, blacklist: &Vec<String>) -> (r: Result<Analysis, ShrinkError>)
    ensures
        match r {
            Ok(a) => {
                &&& old(m).within_limits()
                &&& a.is_live_sets_of(*old(m), blacklist_view(blacklist@))
                &&& remapped(*old(m), a, *final(m))
                &&& final(m).refs_resolve()
            },
            Err(ShrinkError::TooLarge) => !old(m).within_limits() && *final(m) == *old(m),
            Err(ShrinkError::Unresolved(it)) => {
                &&& old(m).within_limits()
                &&& old(m).reached(blacklist_view(blacklist@), it)
                &&& !old(m).resolves(it)
                &&& *final(m) == *old(m)
            },
        },
{
    if !within_limits(m) {
        return Err(ShrinkError::TooLarge);
    }
    match analyze(m, blacklist) {
        Ok(a) => {
            let ghost before = *m;
            remap(m, &a);
            proof {
                lemma_no_dangling(before, a, *m);
            }
            Ok(a)
        },
        Err(it) => Err(ShrinkError::Unresolved(it)),
    }
}

} // verus!
