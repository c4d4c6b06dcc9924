//! What the pass guarantees of its output, proved from the contracts of the
//! analyzer and the remapper.
use vstd::prelude::*;
use crate::analyze::Analysis;
use crate::model::{
    data_refs, element_refs, expr_refs, func_import_types, import_index, instr_ref, offset_refs, seq_or_empty, target_item, Body,
    Export, Global, Import, Instr, Item, Module,
};
use crate::numbering::{
    count, keep, lemma_count_same, lemma_keep, lemma_keep_all, lemma_rank_bounds,
    lemma_rank_prefix, lemma_rank_split, lemma_rank_strict, lemma_translation_bijective, rank,
    translated,
};
use crate::imports::{lemma_import_index, lemma_import_types_keep};
use crate::remap::{
    body_remapped, code_remapped, data_remapped, element_remapped, export_remapped,
    global_remapped, import_remapped, instr_remapped, lemma_live_entries, offset_remapped,
    remapped, section_remapped, tr,
};

verus! {

/// Where the remapper sends a live item.
pub open spec fn image(a: Analysis, it: Item) -> Item {
    match it {
        Item::Function(i) => Item::Function(tr(a.functions@, i)),
        Item::Type(i) => Item::Type(tr(a.types@, i)),
        Item::Table(i) => Item::Table(tr(a.tables@, i)),
        Item::Memory(i) => Item::Memory(tr(a.memories@, i)),
        Item::Global(i) => Item::Global(tr(a.globals@, i)),
    }
}

pub proof fn lemma_section_len<T>(old: Option<Vec<T>>, f: Seq<bool>, new: Option<Vec<T>>, rel: spec_fn(T, T) -> bool)
    requires
        section_remapped(old, f, new, rel),
        seq_or_empty(old).len() == f.len(),
    ensures
        seq_or_empty(new).len() == count(f),
{
    lemma_keep(seq_or_empty(old), f);
}

pub proof fn lemma_section_entry<T>(old: Option<Vec<T>>, f: Seq<bool>, new: Option<Vec<T>>, rel: spec_fn(T, T) -> bool, j: int)
    requires
        section_remapped(old, f, new, rel),
        seq_or_empty(old).len() == f.len(),
        0 <= j < seq_or_empty(new).len(),
    ensures
        rel(keep(seq_or_empty(old), f)[j], seq_or_empty(new)[j]),
{
    lemma_keep(seq_or_empty(old), f);
}

/// Renumbering the signatures of imports renumbers the signatures of the
/// function imports.
pub proof fn lemma_import_types_remapped(a: Analysis, x: Seq<Import>, y: Seq<Import>)
    requires
        x.len() == y.len(),
        forall|j: int| 0 <= j < x.len() ==> #[trigger] import_remapped(a, x[j], y[j]),
    ensures
        func_import_types(y) == func_import_types(x).map_values(|t: u32| tr(a.types@, t)),
    decreases x.len(),
{
    if x.len() == 0 {
        assert(func_import_types(y) =~= func_import_types(x).map_values(|t: u32| tr(a.types@, t)));
    } else {
        let n = x.len() - 1;
        assert forall|j: int| 0 <= j < n implies #[trigger] import_remapped(a, x.drop_last()[j], y.drop_last()[j]) by {
            assert(import_remapped(a, x[j], y[j]));
        }
        lemma_import_types_remapped(a, x.drop_last(), y.drop_last());
        assert(import_remapped(a, x[n], y[n]));
        assert(func_import_types(y) =~= func_import_types(x).map_values(|t: u32| tr(a.types@, t)));
    }
}

/// The function imports of the output are the live ones, in order, with
/// their signatures renumbered; there are as many as live function imports.
pub proof fn lemma_nimports(m: Module, a: Analysis, out: Module)
    requires
        a.sound(m),
        remapped(m, a, out),
    ensures
        out.function_import_types() == keep(
            m.function_import_types(),
            a.functions@.subrange(0, m.nimports()),
        ).map_values(|t: u32| tr(a.types@, t)),
        out.nimports() == rank(a.functions@, m.nimports()),
{
    let s = m.imports_seq();
    let ni = m.nimports();
    let ff = a.functions@.subrange(0, ni);
    assert forall|p: int| 0 <= p < s.len() && (#[trigger] s[p]).desc is Function implies a.imports@[p]
        == ff[import_index(s, p)] by {
        lemma_import_index(s, p);
    }
    lemma_import_types_keep(s, a.imports@, ff);
    let k = keep(s, a.imports@);
    lemma_section_len(m.imports, a.imports@, out.imports, |x: Import, y: Import| import_remapped(a, x, y));
    lemma_keep(s, a.imports@);
    assert forall|j: int| 0 <= j < k.len() implies #[trigger] import_remapped(a, k[j], out.imports_seq()[j]) by {
        lemma_section_entry(m.imports, a.imports@, out.imports, |x: Import, y: Import| import_remapped(a, x, y), j);
    }
    lemma_import_types_remapped(a, k, out.imports_seq());
    lemma_keep(m.function_import_types(), ff);
    lemma_rank_prefix(ff, a.functions@, ni);
}

/// The output's function index space has one entry per live function, and
/// its code section as many bodies as its function section has entries.
pub proof fn lemma_function_counts(m: Module, a: Analysis, out: Module)
    requires
        a.sound(m),
        m.within_limits(),
        remapped(m, a, out),
    ensures
        out.nfunctions() == count(a.functions@),
        out.code_seq().len() == out.functions_seq().len(),
{
    let f = a.functions@;
    let ni = m.nimports();
    let nf = m.nfunctions();
    let sub = f.subrange(ni, nf);
    let codes = a.codes@;
    lemma_nimports(m, a, out);
    lemma_section_len(m.functions, sub, out.functions, |x: u32, y: u32| y == tr(a.types@, x));
    lemma_section_len(m.code, codes, out.code, |x: Body, y: Body| body_remapped(a, x, y));
    lemma_rank_split(f, ni, nf - ni);
    assert(f.subrange(ni, f.len() as int) == sub);
    assert forall|k: int| 0 <= k < codes.len() && #[trigger] codes[k] implies k < sub.len() && sub[k] by {
        assert(codes[k] == (ni + k < nf && f[ni + k]));
    }
    assert forall|k: int| 0 <= k < sub.len() && #[trigger] sub[k] implies k < codes.len() && codes[k] by {
        assert(a.live().contains(Item::Function((ni + k) as u32)));
        assert(m.resolves(Item::Function((ni + k) as u32)));
        assert(codes[k] == (ni + k < nf && f[ni + k]));
    }
    lemma_count_same(codes, sub);
}

/// A live index translates below the number of survivors of its space.
pub proof fn lemma_live_below(f: Seq<bool>, i: u32)
    requires
        i < f.len(),
        f[i as int],
        f.len() < u32::MAX,
    ensures
        tr(f, i) < count(f),
        tr(f, i) == rank(f, i as int),
{
    lemma_translation_bijective(f);
    lemma_rank_bounds(f, i as int, i as int);
    assert(translated(f, i as int) < count(f));
}

/// The entity a live item names after the pass is present in the output.
pub proof fn lemma_image_resolves(m: Module, a: Analysis, out: Module, it: Item)
    requires
        a.sound(m),
        m.within_limits(),
        remapped(m, a, out),
        a.live().contains(it),
    ensures
        out.resolves(image(a, it)),
{
    assert(m.resolves(it));
    match it {
        Item::Function(i) => {
            let f = a.functions@;
            let ni = m.nimports();
            let nf = m.nfunctions();
            let sub = f.subrange(ni, nf);
            lemma_live_below(f, i);
            let codes = a.codes@;
            lemma_nimports(m, a, out);
            lemma_section_len(m.functions, sub, out.functions, |x: u32, y: u32| y == tr(a.types@, x));
            lemma_section_len(m.code, codes, out.code, |x: Body, y: Body| body_remapped(a, x, y));
            lemma_rank_split(f, ni, nf - ni);
            assert(f.subrange(ni, f.len() as int) == sub);
            if rank(f, i as int) >= rank(f, ni) {
                if (i as int) < ni {
                    lemma_rank_strict(f, i as int, ni);
                }
                let d = i - ni;
                lemma_rank_split(f, ni, d);
                assert forall|k: int| 0 <= k < d implies sub[k] == codes[k] by {
                    assert(codes[k] == (ni + k < nf && f[ni + k]));
                }
                lemma_rank_prefix(sub, codes, d);
                assert(codes[d] == (ni + d < nf && f[ni + d]));
                lemma_rank_strict(codes, d, codes.len() as int);
            }
        },
        Item::Type(i) => {
            lemma_live_below(a.types@, i);
            lemma_section_len(m.types, a.types@, out.types, |x, y| y == x);
        },
        Item::Table(i) => {
            lemma_live_below(a.tables@, i);
            lemma_section_len(m.tables, a.tables@, out.tables, |x, y| y == x);
        },
        Item::Memory(i) => {
            lemma_live_below(a.memories@, i);
            lemma_section_len(m.memories, a.memories@, out.memories, |x, y| y == x);
        },
        Item::Global(i) => {
            lemma_live_below(a.globals@, i);
            lemma_section_len(m.globals, a.globals@, out.globals, |x: Global, y: Global| crate::remap::global_remapped(a, x, y));
        },
    }
}

/// Every index in a rewritten instruction sequence whose old indices were
/// live names an entry present in the output.
proof fn lemma_code_resolves(m: Module, a: Analysis, out: Module, x: Seq<Instr>, y: Seq<Instr>)
    requires
        a.sound(m),
        m.within_limits(),
        remapped(m, a, out),
        code_remapped(a, x, y),
        expr_refs(x).subset_of(a.live()),
    ensures
        forall|it: Item| #[trigger] expr_refs(y).contains(it) ==> out.resolves(it),
{
    assert forall|it: Item| #[trigger] expr_refs(y).contains(it) implies out.resolves(it) by {
        let k = choose|k: int| 0 <= k < y.len() && #[trigger] instr_ref(y[k]) == Some(it);
        assert(instr_remapped(a, x[k], y[k]));
        let old_it = instr_ref(x[k])->0;
        assert(expr_refs(x).contains(old_it));
        lemma_image_resolves(m, a, out, old_it);
    }
}

proof fn lemma_offset_resolves(m: Module, a: Analysis, out: Module, x: Option<Vec<Instr>>, y: Option<Vec<Instr>>)
    requires
        a.sound(m),
        m.within_limits(),
        remapped(m, a, out),
        offset_remapped(a, x, y),
        offset_refs(x).subset_of(a.live()),
    ensures
        forall|it: Item| #[trigger] offset_refs(y).contains(it) ==> out.resolves(it),
{
    if let Some(c) = x {
        lemma_code_resolves(m, a, out, c@, y->0@);
    }
}

/// After the pass no reference of any kind dangles: every index in every
/// section of the output names an entry that the output holds (and so none
/// is the removed-entry marker).
pub proof fn lemma_no_dangling(m: Module, a: Analysis, out: Module)
    requires
        a.sound(m),
        m.within_limits(),
        remapped(m, a, out),
    ensures
        out.refs_resolve(),
{
    lemma_live_entries(m, a);
    let ni = m.nimports();
    let nf = m.nfunctions();
    let sub = a.functions@.subrange(ni, nf);
    // imports
    let ki = keep(m.imports_seq(), a.imports@);
    lemma_keep_all(m.imports_seq(), a.imports@, |e: Import| e.desc is Function ==> a.live().contains(Item::Type(e.desc->Function_0)));
    lemma_section_len(m.imports, a.imports@, out.imports, |x: Import, y: Import| import_remapped(a, x, y));
    lemma_keep(m.imports_seq(), a.imports@);
    assert forall|i: int|
        0 <= i < out.imports_seq().len() && (#[trigger] out.imports_seq()[i]).desc is Function
            implies out.resolves(Item::Type(out.imports_seq()[i].desc->Function_0)) by {
        lemma_section_entry(m.imports, a.imports@, out.imports, |x: Import, y: Import| import_remapped(a, x, y), i);
        let t = ki[i].desc->Function_0;
        lemma_image_resolves(m, a, out, Item::Type(t));
    }
    // function signatures
    let kf = keep(m.functions_seq(), sub);
    assert forall|d: int| 0 <= d < m.functions_seq().len() && sub[d] implies a.live().contains(Item::Type(#[trigger] m.functions_seq()[d])) by {
        assert(a.functions@[ni + d]);
    }
    lemma_keep_all(m.functions_seq(), sub, |t: u32| a.live().contains(Item::Type(t)));
    lemma_section_len(m.functions, sub, out.functions, |x: u32, y: u32| y == tr(a.types@, x));
    lemma_keep(m.functions_seq(), sub);
    assert forall|d: int| 0 <= d < out.functions_seq().len() implies out.resolves(Item::Type(#[trigger] out.functions_seq()[d])) by {
        lemma_section_entry(m.functions, sub, out.functions, |x: u32, y: u32| y == tr(a.types@, x), d);
        lemma_image_resolves(m, a, out, Item::Type(kf[d]));
    }
    // globals
    let kg = keep(m.globals_seq(), a.globals@);
    lemma_keep_all(m.globals_seq(), a.globals@, |g: Global| expr_refs(g.init@).subset_of(a.live()));
    lemma_section_len(m.globals, a.globals@, out.globals, |x: Global, y: Global| global_remapped(a, x, y));
    lemma_keep(m.globals_seq(), a.globals@);
    assert forall|g: int, it: Item|
        0 <= g < out.globals_seq().len() && #[trigger] expr_refs(out.globals_seq()[g].init@).contains(it)
            implies out.resolves(it) by {
        lemma_section_entry(m.globals, a.globals@, out.globals, |x: Global, y: Global| global_remapped(a, x, y), g);
        assert(expr_refs(kg[g].init@).subset_of(a.live()));
        lemma_code_resolves(m, a, out, kg[g].init@, out.globals_seq()[g].init@);
    }
    // exports
    let ke = keep(m.exports_seq(), a.exports@);
    lemma_keep_all(m.exports_seq(), a.exports@, |e: Export| a.live().contains(target_item(e.target)));
    lemma_section_len(m.exports, a.exports@, out.exports, |x: Export, y: Export| export_remapped(a, x, y));
    lemma_keep(m.exports_seq(), a.exports@);
    assert forall|e: int| 0 <= e < out.exports_seq().len() implies out.resolves(#[trigger] out.export_item(e)) by {
        lemma_section_entry(m.exports, a.exports@, out.exports, |x: Export, y: Export| export_remapped(a, x, y), e);
        assert(a.live().contains(target_item(ke[e].target)));
        lemma_image_resolves(m, a, out, target_item(ke[e].target));
    }
    // code bodies
    let kc = keep(m.code_seq(), a.codes@);
    lemma_keep_all(m.code_seq(), a.codes@, |b: Body| expr_refs(b.code@).subset_of(a.live()));
    lemma_section_len(m.code, a.codes@, out.code, |x: Body, y: Body| body_remapped(a, x, y));
    lemma_keep(m.code_seq(), a.codes@);
    assert forall|d: int, it: Item|
        0 <= d < out.code_seq().len() && #[trigger] expr_refs(out.code_seq()[d].code@).contains(it)
            implies out.resolves(it) by {
        lemma_section_entry(m.code, a.codes@, out.code, |x: Body, y: Body| body_remapped(a, x, y), d);
        assert(expr_refs(kc[d].code@).subset_of(a.live()));
        lemma_code_resolves(m, a, out, kc[d].code@, out.code_seq()[d].code@);
    }
    // segments, tables and the start function
    assert forall|it: Item| #[trigger] out.fixed_roots().contains(it) implies out.resolves(it) by {
        lemma_fixed_root_resolves(m, a, out, it);
    }
}

proof fn lemma_fixed_root_resolves(m: Module, a: Analysis, out: Module, it: Item)
    requires
        a.sound(m),
        m.within_limits(),
        remapped(m, a, out),
        out.fixed_roots().contains(it),
    ensures
        out.resolves(it),
{
    if exists|k: int| 0 <= k < out.data_seq().len() && #[trigger] data_refs(out.data_seq()[k]).contains(it) {
        let k = choose|k: int| 0 <= k < out.data_seq().len() && #[trigger] data_refs(out.data_seq()[k]).contains(it);
        let x = m.data_seq()[k];
        let y = out.data_seq()[k];
        assert(data_remapped(a, x, y));
        assert forall|r: Item| data_refs(x).contains(r) implies a.live().contains(r) by {
            assert(m.fixed_roots().contains(r));
        }
        if it == Item::Memory(y.memory) {
            lemma_image_resolves(m, a, out, Item::Memory(x.memory));
        } else {
            assert(offset_refs(x.offset).subset_of(a.live()));
            lemma_offset_resolves(m, a, out, x.offset, y.offset);
        }
    } else if exists|k: int| 0 <= k < out.elements_seq().len() && #[trigger] element_refs(out.elements_seq()[k]).contains(it) {
        let k = choose|k: int| 0 <= k < out.elements_seq().len() && #[trigger] element_refs(out.elements_seq()[k]).contains(it);
        let x = m.elements_seq()[k];
        let y = out.elements_seq()[k];
        assert(element_remapped(a, x, y));
        assert forall|r: Item| element_refs(x).contains(r) implies a.live().contains(r) by {
            assert(m.fixed_roots().contains(r));
        }
        if it == Item::Table(y.table) {
            lemma_image_resolves(m, a, out, Item::Table(x.table));
        } else if offset_refs(y.offset).contains(it) {
            assert(offset_refs(x.offset).subset_of(a.live()));
            lemma_offset_resolves(m, a, out, x.offset, y.offset);
        } else {
            let w = choose|w: int| 0 <= w < y.members@.len() && it == Item::Function(#[trigger] y.members@[w]);
            assert(element_refs(x).contains(Item::Function(x.members@[w])));
            lemma_image_resolves(m, a, out, Item::Function(x.members@[w]));
        }
    } else if !(it is Table && it->Table_0 < out.tables_seq().len()) {
        let f = m.start->0;
        assert(m.fixed_roots().contains(Item::Function(f)));
        lemma_image_resolves(m, a, out, Item::Function(f));
    }
}

/// The entry that `it` names in `m` is, rewritten, the one its image names
/// in `out`.
pub open spec fn same_entity(m: Module, a: Analysis, out: Module, it: Item) -> bool {
    match it {
        Item::Function(i) => if i < m.nimports() {
            out.function_import_types()[tr(a.functions@, i) as int] == tr(
                a.types@,
                m.function_import_types()[i as int],
            )
        } else {
            let d = i - m.nimports();
            let nd = tr(a.functions@, i) - out.nimports();
            &&& body_remapped(a, m.code_seq()[d], out.code_seq()[nd])
            &&& out.functions_seq()[nd] == tr(a.types@, m.functions_seq()[d])
        },
        Item::Type(i) => out.types_seq()[tr(a.types@, i) as int] == m.types_seq()[i as int],
        Item::Table(i) => out.tables_seq()[tr(a.tables@, i) as int] == m.tables_seq()[i as int],
        Item::Memory(i) => out.memories_seq()[tr(a.memories@, i) as int] == m.memories_seq()[i as int],
        Item::Global(i) => global_remapped(
            a,
            m.globals_seq()[i as int],
            out.globals_seq()[tr(a.globals@, i) as int],
        ),
    }
}

/// A live entry survives the pass, rewritten, at the new index of its item.
pub proof fn lemma_entity_kept(m: Module, a: Analysis, out: Module, it: Item)
    requires
        a.sound(m),
        m.within_limits(),
        remapped(m, a, out),
        a.live().contains(it),
    ensures
        out.resolves(image(a, it)),
        same_entity(m, a, out, it),
{
    lemma_image_resolves(m, a, out, it);
    match it {
        Item::Function(i) => {
            let f = a.functions@;
            let ni = m.nimports();
            let nf = m.nfunctions();
            let sub = f.subrange(ni, nf);
            let codes = a.codes@;
            lemma_live_below(f, i);
            lemma_nimports(m, a, out);
            if (i as int) < ni {
                let ff = f.subrange(0, ni);
                lemma_rank_prefix(ff, f, i as int);
                lemma_keep(m.function_import_types(), ff);
                lemma_rank_strict(f, i as int, ni);
            } else {
                let d = i - ni;
                lemma_rank_split(f, ni, d);
                assert(f.subrange(ni, f.len() as int) == sub);
                assert forall|k: int| 0 <= k < d implies sub[k] == codes[k] by {
                    assert(codes[k] == (ni + k < nf && f[ni + k]));
                }
                lemma_rank_prefix(sub, codes, d);
                assert(codes[d] == (ni + d < nf && f[ni + d]));
                lemma_rank_strict(codes, d, codes.len() as int);
                lemma_keep(m.code_seq(), codes);
                lemma_keep(m.functions_seq(), sub);
                lemma_rank_strict(sub, d, sub.len() as int);
                lemma_rank_split(f, ni, nf - ni);
                lemma_section_len(m.functions, sub, out.functions, |x: u32, y: u32| y == tr(a.types@, x));
                lemma_section_len(m.code, codes, out.code, |x: Body, y: Body| body_remapped(a, x, y));
                lemma_section_entry(m.code, codes, out.code, |x: Body, y: Body| body_remapped(a, x, y), rank(codes, d) as int);
                lemma_section_entry(m.functions, sub, out.functions, |x: u32, y: u32| y == tr(a.types@, x), rank(sub, d) as int);
            }
        },
        Item::Type(i) => {
            lemma_live_below(a.types@, i);
            lemma_keep(m.types_seq(), a.types@);
            lemma_section_len(m.types, a.types@, out.types, |x, y| y == x);
            lemma_section_entry(m.types, a.types@, out.types, |x, y| y == x, rank(a.types@, i as int) as int);
        },
        Item::Table(i) => {
            lemma_live_below(a.tables@, i);
            lemma_keep(m.tables_seq(), a.tables@);
            lemma_section_len(m.tables, a.tables@, out.tables, |x, y| y == x);
            lemma_section_entry(m.tables, a.tables@, out.tables, |x, y| y == x, rank(a.tables@, i as int) as int);
        },
        Item::Memory(i) => {
            lemma_live_below(a.memories@, i);
            lemma_keep(m.memories_seq(), a.memories@);
            lemma_section_len(m.memories, a.memories@, out.memories, |x, y| y == x);
            lemma_section_entry(m.memories, a.memories@, out.memories, |x, y| y == x, rank(a.memories@, i as int) as int);
        },
        Item::Global(i) => {
            lemma_live_below(a.globals@, i);
            lemma_keep(m.globals_seq(), a.globals@);
            lemma_section_len(m.globals, a.globals@, out.globals, |x: Global, y: Global| global_remapped(a, x, y));
            lemma_section_entry(m.globals, a.globals@, out.globals, |x: Global, y: Global| global_remapped(a, x, y), rank(a.globals@, i as int) as int);
        },
    }
}

/// Every export whose field name is not blacklisted is in the output, at
/// the position its survivors' order gives it, with the same field name and
/// kind, pointing at the same entity (rewritten).
pub proof fn lemma_roots_preserved(m: Module, blacklist: Seq<Seq<char>>, a: Analysis, out: Module, e: int)
    requires
        a.sound(m),
        m.within_limits(),
        remapped(m, a, out),
        forall|k: int|
            0 <= k < m.exports_seq().len() ==> #[trigger] a.exports@[k] == !blacklist.contains(
                m.exports_seq()[k].field@,
            ),
        0 <= e < m.exports_seq().len(),
        !blacklist.contains(m.exports_seq()[e].field@),
    ensures
        rank(a.exports@, e) < out.exports_seq().len(),
        out.exports_seq()[rank(a.exports@, e) as int].field == m.exports_seq()[e].field,
        out.export_item(rank(a.exports@, e) as int) == image(a, m.export_item(e)),
        same_entity(m, a, out, m.export_item(e)),
{
    assert(a.exports@[e]);
    lemma_rank_strict(a.exports@, e, a.exports@.len() as int);
    lemma_keep(m.exports_seq(), a.exports@);
    lemma_section_len(m.exports, a.exports@, out.exports, |x: Export, y: Export| export_remapped(a, x, y));
    lemma_section_entry(m.exports, a.exports@, out.exports, |x: Export, y: Export| export_remapped(a, x, y), rank(a.exports@, e) as int);
    lemma_entity_kept(m, a, out, m.export_item(e));
}

} // verus!
