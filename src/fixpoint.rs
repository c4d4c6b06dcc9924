//! A second pass has nothing left to do: on the output of the pass every
//! entry is live and every translation is the identity.
use vstd::prelude::*;
use crate::analyze::Analysis;
use crate::model::{
    data_refs, element_refs, expr_refs, import_index, instr_ref, offset_refs, seq_or_empty, Body, DataSegment,
    ElementSegment, Export, Global, Import, Instr, Item, Module,
};
use crate::imports::lemma_import_index;
use crate::numbering::{
    count, keep, lemma_keep, lemma_keep_all, lemma_rank_all_set, lemma_rank_bounds,
    lemma_rank_strict, lemma_translation_bijective, rank, reached_by, translated,
};
use crate::remap::{
    body_remapped, code_remapped, data_remapped, element_remapped, export_remapped,
    global_remapped, import_remapped, instr_remapped, offset_remapped, remapped, section_remapped,
    tr,
};
use crate::soundness::{
    image, lemma_entity_kept, lemma_function_counts, lemma_image_resolves, lemma_nimports,
    lemma_no_dangling, lemma_roots_preserved, lemma_section_entry, lemma_section_len,
};

verus! {

/// The image of a name in an instruction sequence is named by its rewrite.
proof fn lemma_code_image(a: Analysis, x: Seq<Instr>, y: Seq<Instr>, it: Item)
    requires
        code_remapped(a, x, y),
        expr_refs(x).contains(it),
    ensures
        expr_refs(y).contains(image(a, it)),
{
    let k = choose|k: int| 0 <= k < x.len() && #[trigger] instr_ref(x[k]) == Some(it);
    assert(instr_remapped(a, x[k], y[k]));
    assert(instr_ref(y[k]) == Some(image(a, it)));
}

proof fn lemma_offset_image(a: Analysis, x: Option<Vec<Instr>>, y: Option<Vec<Instr>>, it: Item)
    requires
        offset_remapped(a, x, y),
        offset_refs(x).contains(it),
    ensures
        offset_refs(y).contains(image(a, it)),
{
    lemma_code_image(a, x->0@, y->0@, it);
}

/// What a live entry refers to, the rewritten entry refers to by its image.
proof fn lemma_edge_image(m: Module, a: Analysis, out: Module, x: Item, y: Item)
    requires
        a.sound(m),
        m.within_limits(),
        remapped(m, a, out),
        a.live().contains(x),
        m.edges(x).contains(y),
    ensures
        out.edges(image(a, x)).contains(image(a, y)),
{
    lemma_entity_kept(m, a, out, x);
    assert(m.resolves(x));
    match x {
        Item::Function(i) => {
            let f = a.functions@;
            let ni = m.nimports();
            lemma_nimports(m, a, out);
            lemma_rank_bounds(f, i as int, i as int);
            if (i as int) < ni {
                lemma_rank_strict(f, i as int, ni);
            } else {
                lemma_rank_bounds(f, ni, i as int);
                let d = i - ni;
                if y != Item::Type(m.functions_seq()[d]) {
                    lemma_code_image(a, m.code_seq()[d].code@, out.code_seq()[(rank(f, i as int) - out.nimports())].code@, y);
                }
            }
        },
        Item::Global(g) => {
            lemma_code_image(a, m.globals_seq()[g as int].init@, out.globals_seq()[image(a, x)->Global_0 as int].init@, y);
        },
        _ => {},
    }
}

/// The image of a root of `m` is a root of the output.
proof fn lemma_root_image(m: Module, bl: Seq<Seq<char>>, a: Analysis, out: Module, r: Item)
    requires
        a.is_live_sets_of(m, bl),
        m.within_limits(),
        remapped(m, a, out),
        m.roots(bl).contains(r),
    ensures
        out.roots(bl).contains(image(a, r)),
{
    let ir = image(a, r);
    assert(a.live().contains(r));
    lemma_image_resolves(m, a, out, r);
    if m.fixed_roots().contains(r) {
        if exists|k: int| 0 <= k < m.data_seq().len() && #[trigger] data_refs(m.data_seq()[k]).contains(r) {
            let k = choose|k: int| 0 <= k < m.data_seq().len() && #[trigger] data_refs(m.data_seq()[k]).contains(r);
            let x = m.data_seq()[k];
            let y = out.data_seq()[k];
            assert(data_remapped(a, x, y));
            if r != Item::Memory(x.memory) {
                lemma_offset_image(a, x.offset, y.offset, r);
            }
            assert(data_refs(out.data_seq()[k]).contains(ir));
        } else if exists|k: int| 0 <= k < m.elements_seq().len() && #[trigger] element_refs(m.elements_seq()[k]).contains(r) {
            let k = choose|k: int| 0 <= k < m.elements_seq().len() && #[trigger] element_refs(m.elements_seq()[k]).contains(r);
            let x = m.elements_seq()[k];
            let y = out.elements_seq()[k];
            assert(element_remapped(a, x, y));
            if offset_refs(x.offset).contains(r) {
                lemma_offset_image(a, x.offset, y.offset, r);
            } else if r != Item::Table(x.table) {
                let w = choose|w: int| 0 <= w < x.members@.len() && r == Item::Function(#[trigger] x.members@[w]);
                assert(y.members@[w] == ir->Function_0);
            }
            assert(element_refs(out.elements_seq()[k]).contains(ir));
        } else if r is Table && r->Table_0 < m.tables_seq().len() {
            assert(out.resolves(ir));
        } else {
            assert(out.start == Some(ir->Function_0));
        }
        assert(out.fixed_roots().contains(ir));
    } else {
        let e = choose|e: int|
            0 <= e < m.exports_seq().len() && !bl.contains(m.exports_seq()[e].field@)
                && #[trigger] m.export_item(e) == r;
        lemma_roots_preserved(m, bl, a, out, e);
        let j = rank(a.exports@, e) as int;
        assert(out.export_item(j) == ir);
    }
}

/// Every live item of `m`, once renumbered, is reached in the output.
proof fn lemma_images_reached(m: Module, bl: Seq<Seq<char>>, a: Analysis, out: Module, x: Item)
    requires
        a.is_live_sets_of(m, bl),
        m.within_limits(),
        remapped(m, a, out),
        a.live().contains(x),
    ensures
        out.reached(bl, image(a, x)),
{
    assert forall|s2: Set<Item>| #[trigger] out.closed(bl, s2) implies s2.contains(image(a, x)) by {
        let s = Set::new(|y: Item| (a.live().contains(y) && s2.contains(image(a, y))) || !m.resolves(y));
        assert forall|r: Item| #[trigger] m.roots(bl).contains(r) implies s.contains(r) by {
            lemma_root_image(m, bl, a, out, r);
        }
        assert forall|y: Item| #[trigger] s.contains(y) && m.resolves(y) implies m.edges(y).subset_of(s) by {
            assert(a.live().contains(y));
            lemma_image_resolves(m, a, out, y);
            assert forall|z: Item| m.edges(y).contains(z) implies s.contains(z) by {
                lemma_edge_image(m, a, out, y, z);
                assert(out.edges(image(a, y)).subset_of(s2));
            }
        }
        assert(m.closed(bl, s));
        assert(a.live().subset_of(s));
    }
}

/// All flags are set.
pub open spec fn all_set(f: Seq<bool>) -> bool {
    forall|k: int| 0 <= k < f.len() ==> #[trigger] f[k]
}

/// Each index translates to itself.
pub open spec fn identity(f: Seq<bool>) -> bool {
    forall|k: int| 0 <= k < f.len() ==> #[trigger] translated(f, k) == k
}

proof fn lemma_identity(f: Seq<bool>)
    requires
        all_set(f),
        f.len() < u32::MAX,
    ensures
        identity(f),
{
    assert forall|k: int| 0 <= k < f.len() implies #[trigger] translated(f, k) == k by {
        lemma_rank_all_set(f, k);
    }
}

/// Every index of a space below the count of its live items is the image
/// of a live item, so it is reached in the output and live for `a2`.
proof fn lemma_space_full(
    m: Module,
    bl: Seq<Seq<char>>,
    a: Analysis,
    out: Module,
    a2: Analysis,
    f: Seq<bool>,
    f2: Seq<bool>,
    mk: spec_fn(u32) -> Item,
)
    requires
        a.is_live_sets_of(m, bl),
        m.within_limits(),
        remapped(m, a, out),
        a2.is_live_sets_of(out, bl),
        f.len() < u32::MAX,
        f2.len() == count(f),
        forall|i: u32| i < f.len() ==> (#[trigger] a.live().contains(mk(i)) <==> f[i as int]),
        forall|i: u32| i < f.len() ==> #[trigger] image(a, mk(i)) == mk(translated(f, i as int)),
        forall|j: u32| j < f2.len() ==> (#[trigger] a2.live().contains(mk(j)) <==> f2[j as int]),
    ensures
        all_set(f2),
{
    lemma_translation_bijective(f);
    assert forall|j: int| 0 <= j < f2.len() implies #[trigger] f2[j] by {
        assert(reached_by(f, j));
        let i = choose|i: int| 0 <= i < f.len() && f[i] && #[trigger] translated(f, i) == j;
        assert(a.live().contains(mk(i as u32)));
        assert(image(a, mk(i as u32)) == mk(j as u32));
        lemma_images_reached(m, bl, a, out, mk(i as u32));
        assert(out.closed(bl, a2.live()));
        assert(a2.live().contains(mk(j as u32)));
    }
}

/// A second pass with the same blacklist finds nothing to remove: on the
/// output of the pass, every entry of every index space, every import, every
/// code body and every export is live, and every translation is the
/// identity, so the second pass leaves each section as it is.
pub proof fn lemma_second_pass_keeps_everything(
    m: Module,
    bl: Seq<Seq<char>>,
    a: Analysis,
    out: Module,
    a2: Analysis,
)
    requires
        a.is_live_sets_of(m, bl),
        m.within_limits(),
        remapped(m, a, out),
        a2.is_live_sets_of(out, bl),
    ensures
        all_set(a2.functions@),
        all_set(a2.types@),
        all_set(a2.tables@),
        all_set(a2.memories@),
        all_set(a2.globals@),
        all_set(a2.imports@),
        all_set(a2.codes@),
        all_set(a2.exports@),
        identity(a2.functions@),
        identity(a2.types@),
        identity(a2.tables@),
        identity(a2.memories@),
        identity(a2.globals@),
{
    lemma_function_counts(m, a, out);
    lemma_section_len(m.types, a.types@, out.types, |x, y| y == x);
    lemma_section_len(m.tables, a.tables@, out.tables, |x, y| y == x);
    lemma_section_len(m.memories, a.memories@, out.memories, |x, y| y == x);
    lemma_section_len(m.globals, a.globals@, out.globals, |x: Global, y: Global| global_remapped(a, x, y));
    lemma_space_full(m, bl, a, out, a2, a.functions@, a2.functions@, |i: u32| Item::Function(i));
    lemma_space_full(m, bl, a, out, a2, a.types@, a2.types@, |i: u32| Item::Type(i));
    lemma_space_full(m, bl, a, out, a2, a.tables@, a2.tables@, |i: u32| Item::Table(i));
    lemma_space_full(m, bl, a, out, a2, a.memories@, a2.memories@, |i: u32| Item::Memory(i));
    lemma_space_full(m, bl, a, out, a2, a.globals@, a2.globals@, |i: u32| Item::Global(i));
    assert(all_set(a2.imports@)) by {
        assert forall|k: int| 0 <= k < a2.imports@.len() implies #[trigger] a2.imports@[k] by {
            if out.imports_seq()[k].desc is Function {
                lemma_import_index(out.imports_seq(), k);
                assert(a2.functions@[import_index(out.imports_seq(), k)]);
            }
        }
    }
    assert(all_set(a2.codes@)) by {
        assert forall|k: int| 0 <= k < a2.codes@.len() implies #[trigger] a2.codes@[k] by {
            assert(a2.functions@[out.nimports() + k]);
        }
    }
    assert(all_set(a2.exports@)) by {
        let ke = keep(m.exports_seq(), a.exports@);
        lemma_keep_all(m.exports_seq(), a.exports@, |e: Export| !bl.contains(e.field@));
        lemma_section_len(m.exports, a.exports@, out.exports, |x: Export, y: Export| export_remapped(a, x, y));
        assert forall|k: int| 0 <= k < a2.exports@.len() implies #[trigger] a2.exports@[k] by {
            lemma_section_entry(m.exports, a.exports@, out.exports, |x: Export, y: Export| export_remapped(a, x, y), k);
            assert(!bl.contains(ke[k].field@));
        }
    }
    lemma_rank_bounds(a.functions@, a.functions@.len() as int, a.functions@.len() as int);
    lemma_rank_bounds(a.types@, a.types@.len() as int, a.types@.len() as int);
    lemma_rank_bounds(a.tables@, a.tables@.len() as int, a.tables@.len() as int);
    lemma_rank_bounds(a.memories@, a.memories@.len() as int, a.memories@.len() as int);
    lemma_rank_bounds(a.globals@, a.globals@.len() as int, a.globals@.len() as int);
    lemma_identity(a2.functions@);
    lemma_identity(a2.types@);
    lemma_identity(a2.tables@);
    lemma_identity(a2.memories@);
    lemma_identity(a2.globals@);
}

/// Both sections are present or both absent, and entry for entry they
/// stand in `same`.
pub open spec fn section_same<T>(x: Option<Vec<T>>, y: Option<Vec<T>>, same: spec_fn(T, T) -> bool) -> bool {
    &&& (x is Some <==> y is Some)
    &&& seq_or_empty(x).len() == seq_or_empty(y).len()
    &&& forall|k: int| 0 <= k < seq_or_empty(x).len() ==> #[trigger] same(seq_or_empty(x)[k], seq_or_empty(y)[k])
}

pub open spec fn offset_same(x: Option<Vec<Instr>>, y: Option<Vec<Instr>>) -> bool {
    (x is Some <==> y is Some) && (x is Some ==> x->0@ == y->0@)
}

pub open spec fn elements_same(p: ElementSegment, q: ElementSegment) -> bool {
    p.table == q.table && offset_same(p.offset, q.offset) && p.members@ == q.members@
}

pub open spec fn data_same(p: DataSegment, q: DataSegment) -> bool {
    p.memory == q.memory && offset_same(p.offset, q.offset) && p.value@ == q.value@
}

/// `x` and `y` hold the same sections with the same entries.
pub open spec fn same_module(x: Module, y: Module) -> bool {
    &&& section_same(x.types, y.types, |p, q| p == q)
    &&& section_same(x.imports, y.imports, |p, q| p == q)
    &&& section_same(x.functions, y.functions, |p, q| p == q)
    &&& section_same(x.tables, y.tables, |p, q| p == q)
    &&& section_same(x.memories, y.memories, |p, q| p == q)
    &&& section_same(x.globals, y.globals, |p: Global, q: Global| p.ty == q.ty && p.init@ == q.init@)
    &&& section_same(x.exports, y.exports, |p, q| p == q)
    &&& x.start == y.start
    &&& section_same(x.elements, y.elements, |p: ElementSegment, q: ElementSegment| elements_same(p, q))
    &&& section_same(x.code, y.code, |p: Body, q: Body| p.locals@ == q.locals@ && p.code@ == q.code@)
    &&& section_same(x.data, y.data, |p: DataSegment, q: DataSegment| data_same(p, q))
}

/// A list section the pass produced is absent or not empty, and with all
/// flags set the second pass keeps it entry for entry.
proof fn lemma_section_fixed<T>(
    first: Option<Vec<T>>,
    f0: Seq<bool>,
    x: Option<Vec<T>>,
    rel0: spec_fn(T, T) -> bool,
    f: Seq<bool>,
    y: Option<Vec<T>>,
    rel: spec_fn(T, T) -> bool,
    same: spec_fn(T, T) -> bool,
)
    requires
        section_remapped(first, f0, x, rel0),
        section_remapped(x, f, y, rel),
        seq_or_empty(x).len() == f.len(),
        all_set(f),
        forall|k: int|
            0 <= k < seq_or_empty(x).len() && rel(seq_or_empty(x)[k], seq_or_empty(y)[k]) ==> #[trigger] same(
                seq_or_empty(x)[k],
                seq_or_empty(y)[k],
            ),
    ensures
        section_same(x, y, same),
{
    let s = seq_or_empty(x);
    lemma_keep(s, f);
    lemma_rank_all_set(f, f.len() as int);
    assert forall|i: int| 0 <= i < s.len() implies #[trigger] keep(s, f)[i] == s[i] by {
        lemma_rank_all_set(f, i);
    }
    assert(keep(s, f) =~= s);
    assert forall|k: int| 0 <= k < s.len() implies #[trigger] same(s[k], seq_or_empty(y)[k]) by {
        lemma_section_entry(x, f, y, rel, k);
    }
}

proof fn lemma_code_fixed(a2: Analysis, out: Module, x: Seq<Instr>, y: Seq<Instr>)
    requires
        code_remapped(a2, x, y),
        identity(a2.functions@),
        identity(a2.types@),
        identity(a2.globals@),
        a2.functions@.len() == out.nfunctions(),
        a2.types@.len() == out.types_seq().len(),
        a2.globals@.len() == out.globals_seq().len(),
        forall|it: Item| #[trigger] expr_refs(x).contains(it) ==> out.resolves(it),
    ensures
        y == x,
{
    assert forall|k: int| 0 <= k < x.len() implies y[k] == x[k] by {
        assert(instr_remapped(a2, x[k], y[k]));
        if let Some(it) = instr_ref(x[k]) {
            assert(expr_refs(x).contains(it));
            assert(out.resolves(it));
        }
    }
    assert(y =~= x);
}

proof fn lemma_offset_fixed(a2: Analysis, out: Module, x: Option<Vec<Instr>>, y: Option<Vec<Instr>>)
    requires
        offset_remapped(a2, x, y),
        identity(a2.functions@),
        identity(a2.types@),
        identity(a2.globals@),
        a2.functions@.len() == out.nfunctions(),
        a2.types@.len() == out.types_seq().len(),
        a2.globals@.len() == out.globals_seq().len(),
        forall|it: Item| #[trigger] offset_refs(x).contains(it) ==> out.resolves(it),
    ensures
        offset_same(x, y),
{
    if let Some(c) = x {
        assert(offset_refs(x) == expr_refs(c@));
        lemma_code_fixed(a2, out, c@, y->0@);
    }
}

/// Running the pass twice with the same blacklist gives what running it
/// once gave: the second pass keeps every section, entry and index as the
/// first pass left it.
pub proof fn lemma_idempotent(
    m: Module,
    bl: Seq<Seq<char>>,
    a: Analysis,
    out: Module,
    a2: Analysis,
    out2: Module,
)
    requires
        a.is_live_sets_of(m, bl),
        m.within_limits(),
        remapped(m, a, out),
        a2.is_live_sets_of(out, bl),
        remapped(out, a2, out2),
    ensures
        same_module(out, out2),
{
    lemma_second_pass_keeps_everything(m, bl, a, out, a2);
    lemma_no_dangling(m, a, out);
    let ni = out.nimports();
    let f2 = a2.functions@.subrange(ni, out.nfunctions());
    assert(all_set(f2));
    lemma_section_fixed(m.types, a.types@, out.types, |x, y| y == x, a2.types@, out2.types, |x, y| y == x, |p, q| p == q);
    lemma_section_fixed(m.tables, a.tables@, out.tables, |x, y| y == x, a2.tables@, out2.tables, |x, y| y == x, |p, q| p == q);
    lemma_section_fixed(m.memories, a.memories@, out.memories, |x, y| y == x, a2.memories@, out2.memories, |x, y| y == x, |p, q| p == q);
    assert forall|k: int|
        0 <= k < out.imports_seq().len() && import_remapped(a2, out.imports_seq()[k], seq_or_empty(out2.imports)[k])
            implies out.imports_seq()[k] == seq_or_empty(out2.imports)[k] by {
        let p = out.imports_seq()[k];
        if p.desc is Function {
            assert(out.resolves(Item::Type(p.desc->Function_0)));
        }
    }
    lemma_section_fixed(
        m.imports, a.imports@, out.imports, |x: Import, y: Import| import_remapped(a, x, y),
        a2.imports@, out2.imports, |x: Import, y: Import| import_remapped(a2, x, y), |p: Import, q: Import| p == q,
    );
    assert forall|k: int|
        0 <= k < out.functions_seq().len() && seq_or_empty(out2.functions)[k] == tr(a2.types@, out.functions_seq()[k])
            implies out.functions_seq()[k] == seq_or_empty(out2.functions)[k] by {
        assert(out.resolves(Item::Type(out.functions_seq()[k])));
    }
    lemma_section_fixed(
        m.functions, a.functions@.subrange(m.nimports(), m.nfunctions()), out.functions, |x: u32, y: u32| y == tr(a.types@, x),
        f2, out2.functions, |x: u32, y: u32| y == tr(a2.types@, x), |p: u32, q: u32| p == q,
    );
    assert forall|k: int|
        0 <= k < out.globals_seq().len() && global_remapped(a2, out.globals_seq()[k], seq_or_empty(out2.globals)[k])
            implies out.globals_seq()[k].ty == seq_or_empty(out2.globals)[k].ty && out.globals_seq()[k].init@ == seq_or_empty(out2.globals)[k].init@ by {
        lemma_code_fixed(a2, out, out.globals_seq()[k].init@, seq_or_empty(out2.globals)[k].init@);
    }
    lemma_section_fixed(
        m.globals, a.globals@, out.globals, |x: Global, y: Global| global_remapped(a, x, y),
        a2.globals@, out2.globals, |x: Global, y: Global| global_remapped(a2, x, y),
        |p: Global, q: Global| p.ty == q.ty && p.init@ == q.init@,
    );
    assert forall|k: int|
        0 <= k < out.exports_seq().len() && export_remapped(a2, out.exports_seq()[k], seq_or_empty(out2.exports)[k])
            implies out.exports_seq()[k] == seq_or_empty(out2.exports)[k] by {
        assert(out.resolves(out.export_item(k)));
    }
    lemma_section_fixed(
        m.exports, a.exports@, out.exports, |x: Export, y: Export| export_remapped(a, x, y),
        a2.exports@, out2.exports, |x: Export, y: Export| export_remapped(a2, x, y), |p: Export, q: Export| p == q,
    );
    assert forall|k: int|
        0 <= k < out.code_seq().len() && body_remapped(a2, out.code_seq()[k], seq_or_empty(out2.code)[k])
            implies out.code_seq()[k].locals@ == seq_or_empty(out2.code)[k].locals@ && out.code_seq()[k].code@ == seq_or_empty(out2.code)[k].code@ by {
        lemma_code_fixed(a2, out, out.code_seq()[k].code@, seq_or_empty(out2.code)[k].code@);
    }
    lemma_section_fixed(
        m.code, a.codes@, out.code, |x: Body, y: Body| body_remapped(a, x, y),
        a2.codes@, out2.code, |x: Body, y: Body| body_remapped(a2, x, y),
        |p: Body, q: Body| p.locals@ == q.locals@ && p.code@ == q.code@,
    );
    if let Some(f) = out.start {
        assert(out.fixed_roots().contains(Item::Function(f)));
    }
    assert forall|k: int| 0 <= k < out.elements_seq().len() implies #[trigger] elements_same(out.elements_seq()[k], seq_or_empty(out2.elements)[k]) by {
        let x = out.elements_seq()[k];
        let y = seq_or_empty(out2.elements)[k];
        assert(element_remapped(a2, x, y));
        assert forall|it: Item| element_refs(x).contains(it) implies out.resolves(it) by {
            assert(out.fixed_roots().contains(it));
        }
        assert(out.resolves(Item::Table(x.table)));
        lemma_offset_fixed(a2, out, x.offset, y.offset);
        assert forall|w: int| 0 <= w < x.members@.len() implies y.members@[w] == x.members@[w] by {
            let f = x.members@[w];
            assert(element_refs(x).contains(Item::Function(f)));
            assert(out.resolves(Item::Function(f)));
            assert(translated(a2.functions@, f as int) == f);
            assert(y.members@[w] == tr(a2.functions@, f));
        }
        assert(y.members@ =~= x.members@);
    }
    assert forall|k: int| 0 <= k < out.data_seq().len() implies #[trigger] data_same(out.data_seq()[k], seq_or_empty(out2.data)[k]) by {
        let x = out.data_seq()[k];
        let y = seq_or_empty(out2.data)[k];
        assert(data_remapped(a2, x, y));
        assert forall|it: Item| data_refs(x).contains(it) implies out.resolves(it) by {
            assert(out.fixed_roots().contains(it));
        }
        assert(out.resolves(Item::Memory(x.memory)));
        lemma_offset_fixed(a2, out, x.offset, y.offset);
    }
}

} // verus!
