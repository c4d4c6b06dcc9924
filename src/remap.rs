//! The remapper: removes the entries that the analysis left dead and
//! rewrites every surviving index through the translation of its space.
use vstd::prelude::*;
use crate::analyze::Analysis;
use crate::imports::{function_import_types, lemma_import_index};
use crate::model::{
    data_refs, element_refs, expr_refs, import_index, instr_ref, offset_refs, seq_or_empty, target_item, Body, DataSegment,
    ElementSegment, Export, ExportTarget, Global, Import, ImportDesc, Instr, Item, Module,
};
use crate::numbering::{keep, lemma_keep_all, retain_flagged, translated, translation, DEAD};

verus! {

/// The new index of `i` in the space whose live flags are `f`.
pub open spec fn tr(f: Seq<bool>, i: u32) -> u32 {
    translated(f, i as int)
}

/// `y` is `x` with the entity it names renumbered.
pub open spec fn instr_remapped(a: Analysis, x: Instr, y: Instr) -> bool {
    match x {
        Instr::Call(f) => y == Instr::Call(tr(a.functions@, f)),
        Instr::CallIndirect(t, r) => y == Instr::CallIndirect(tr(a.types@, t), r),
        Instr::GetGlobal(g) => y == Instr::GetGlobal(tr(a.globals@, g)),
        Instr::SetGlobal(g) => y == Instr::SetGlobal(tr(a.globals@, g)),
        Instr::Plain(_) => y == x,
    }
}

pub open spec fn code_remapped(a: Analysis, x: Seq<Instr>, y: Seq<Instr>) -> bool {
    &&& x.len() == y.len()
    &&& forall|k: int| 0 <= k < x.len() ==> #[trigger] instr_remapped(a, x[k], y[k])
}

/// The section that remains of `old` once the entries whose flag in `f` is
/// unset are gone: each survivor, in order, stands in `rel` to its new
/// entry, and a section left empty is absent.
pub open spec fn section_remapped<T>(
    old: Option<Vec<T>>,
    f: Seq<bool>,
    new: Option<Vec<T>>,
    rel: spec_fn(T, T) -> bool,
) -> bool {
    let k = keep(seq_or_empty(old), f);
    if k.len() == 0 {
        new is None
    } else {
        &&& new is Some
        &&& new->0@.len() == k.len()
        &&& forall|j: int| 0 <= j < k.len() ==> #[trigger] rel(k[j], new->0@[j])
    }
}

pub open spec fn import_remapped(a: Analysis, x: Import, y: Import) -> bool {
    &&& y.module == x.module
    &&& y.field == x.field
    &&& match x.desc {
        ImportDesc::Function(t) => y.desc == ImportDesc::Function(tr(a.types@, t)),
        _ => y.desc == x.desc,
    }
}

pub open spec fn global_remapped(a: Analysis, x: Global, y: Global) -> bool {
    &&& y.ty == x.ty
    &&& code_remapped(a, x.init@, y.init@)
}

pub open spec fn target_remapped(a: Analysis, x: ExportTarget) -> ExportTarget {
    match x {
        ExportTarget::Function(i) => ExportTarget::Function(tr(a.functions@, i)),
        ExportTarget::Table(i) => ExportTarget::Table(tr(a.tables@, i)),
        ExportTarget::Memory(i) => ExportTarget::Memory(tr(a.memories@, i)),
        ExportTarget::Global(i) => ExportTarget::Global(tr(a.globals@, i)),
    }
}

pub open spec fn export_remapped(a: Analysis, x: Export, y: Export) -> bool {
    &&& y.field == x.field
    &&& y.target == target_remapped(a, x.target)
}

pub open spec fn body_remapped(a: Analysis, x: Body, y: Body) -> bool {
    &&& y.locals == x.locals
    &&& code_remapped(a, x.code@, y.code@)
}

pub open spec fn offset_remapped(a: Analysis, x: Option<Vec<Instr>>, y: Option<Vec<Instr>>) -> bool {
    match x {
        Some(c) => y is Some && code_remapped(a, c@, y->0@),
        None => y is None,
    }
}

pub open spec fn element_remapped(a: Analysis, x: ElementSegment, y: ElementSegment) -> bool {
    &&& y.table == tr(a.tables@, x.table)
    &&& offset_remapped(a, x.offset, y.offset)
    &&& y.members@.len() == x.members@.len()
    &&& forall|k: int| 0 <= k < x.members@.len() ==> #[trigger] y.members@[k] == tr(a.functions@, x.members@[k])
}

pub open spec fn data_remapped(a: Analysis, x: DataSegment, y: DataSegment) -> bool {
    &&& y.memory == tr(a.memories@, x.memory)
    &&& offset_remapped(a, x.offset, y.offset)
    &&& y.value == x.value
}

/// A section holding what is left of `v`, or none where nothing is.
fn nonempty<T>(v: Vec<T>) -> (r: Option<Vec<T>>)
    ensures
        v@.len() == 0 ==> r is None,
        v@.len() > 0 ==> r == Some(v),
{
    if v.len() == 0 {
        None
    } else {
        Some(v)
    }
}

/// The translation vectors of the five index spaces.
pub struct Renumbering {
    pub functions: Vec<u32>,
    pub types: Vec<u32>,
    pub tables: Vec<u32>,
    pub memories: Vec<u32>,
    pub globals: Vec<u32>,
}

pub open spec fn translates(t: Seq<u32>, f: Seq<bool>) -> bool {
    &&& t.len() == f.len()
    &&& forall|i: int| 0 <= i < f.len() ==> #[trigger] t[i] == translated(f, i)
}

impl Renumbering {
    pub open spec fn of(&self, a: Analysis) -> bool {
        &&& translates(self.functions@, a.functions@)
        &&& translates(self.types@, a.types@)
        &&& translates(self.tables@, a.tables@)
        &&& translates(self.memories@, a.memories@)
        &&& translates(self.globals@, a.globals@)
    }

    /// Builds the translation vector of each index space.
    pub fn new(a: &Analysis) -> (r: Renumbering)
        requires
            a.functions@.len() < DEAD,
            a.types@.len() < DEAD,
            a.tables@.len() < DEAD,
            a.memories@.len() < DEAD,
            a.globals@.len() < DEAD,
        ensures
            r.of(*a),
    {
        Renumbering {
            functions: translation(&a.functions),
            types: translation(&a.types),
            tables: translation(&a.tables),
            memories: translation(&a.memories),
            globals: translation(&a.globals),
        }
    }

    /// Renumbers the entities named by an instruction sequence.
    fn remap_code(&self, code: &mut Vec<Instr>, Ghost(a): Ghost<Analysis>)
        requires
            self.of(a),
            forall|it: Item| #[trigger] expr_refs(old(code)@).contains(it) ==> a.live().contains(it),
        ensures
            code_remapped(a, old(code)@, final(code)@),
    {
        let ghost start = code@;
        let mut k: usize = 0;
        while k < code.len()
            invariant
                self.of(a),
                forall|it: Item| #[trigger] expr_refs(start).contains(it) ==> a.live().contains(it),
                k <= code@.len() == start.len(),
                forall|j: int| 0 <= j < k ==> #[trigger] instr_remapped(a, start[j], code@[j]),
                forall|j: int| k <= j < code@.len() ==> #[trigger] code@[j] == start[j],
            decreases code@.len() - k,
        {
            proof {
                if let Some(it) = instr_ref(start[k as int]) {
                    assert(expr_refs(start).contains(it));
                }
            }
            let y = match &code[k] {
                Instr::Call(f) => Some(Instr::Call(self.functions[*f as usize])),
                Instr::CallIndirect(t, r) => Some(Instr::CallIndirect(self.types[*t as usize], *r)),
                Instr::GetGlobal(g) => Some(Instr::GetGlobal(self.globals[*g as usize])),
                Instr::SetGlobal(g) => Some(Instr::SetGlobal(self.globals[*g as usize])),
                Instr::Plain(_) => None,
            };
            match y {
                Some(y) => {
                    code[k] = y;
                },
                None => {},
            }
            k = k + 1;
        }
    }

    /// Drops the entries whose flag is unset; nothing in them is an index.
    fn keep_section<T>(&self, s: Option<Vec<T>>, flags: &Vec<bool>) -> (r: Option<Vec<T>>)
        requires
            seq_or_empty(s).len() == flags@.len(),
        ensures
            section_remapped(s, flags@, r, |x: T, y: T| y == x),
    {
        match s {
            Some(mut v) => {
                let ghost old_v = v@;
                retain_flagged(&mut v, flags, 0);
                assert(flags@.subrange(0, old_v.len() as int) =~= flags@);
                nonempty(v)
            },
            None => None,
        }
    }

    /// Drops the dead imports and renumbers the signatures of the others.
    fn remap_imports(&self, s: Option<Vec<Import>>, a: &Analysis) -> (r: Option<Vec<Import>>)
        requires
            self.of(*a),
            seq_or_empty(s).len() == a.imports@.len(),
            forall|i: int|
                0 <= i < a.imports@.len() && #[trigger] a.imports@[i] ==> (seq_or_empty(s)[i].desc is Function
                    ==> a.live().contains(Item::Type(seq_or_empty(s)[i].desc->Function_0))),
        ensures
            section_remapped(s, a.imports@, r, |x: Import, y: Import| import_remapped(*a, x, y)),
    {
        match s {
            Some(mut v) => {
                let ghost old_v = v@;
                retain_flagged(&mut v, &a.imports, 0);
                proof {
                    assert(a.imports@.subrange(0, old_v.len() as int) =~= a.imports@);
                    lemma_keep_all(old_v, a.imports@, |e: Import| e.desc is Function ==> a.live().contains(Item::Type(e.desc->Function_0)));
                }
                let ghost kept = v@;
                let mut k: usize = 0;
                while k < v.len()
                    invariant
                        self.of(*a),
                        kept == keep(old_v, a.imports@),
                        v@.len() == kept.len(),
                        k <= v@.len(),
                        forall|j: int| 0 <= j < kept.len() ==> (#[trigger] kept[j]).desc is Function ==> a.live().contains(Item::Type(kept[j].desc->Function_0)),
                        forall|j: int| 0 <= j < k ==> #[trigger] import_remapped(*a, kept[j], v@[j]),
                        forall|j: int| k <= j < v@.len() ==> #[trigger] v@[j] == kept[j],
                    decreases v@.len() - k,
                {
                    let t = match &v[k].desc {
                        ImportDesc::Function(t) => Some(*t),
                        _ => None,
                    };
                    match t {
                        Some(t) => {
                            assert(kept[k as int].desc is Function);
                            v[k].desc = ImportDesc::Function(self.types[t as usize]);
                        },
                        None => {},
                    }
                    k = k + 1;
                }
                nonempty(v)
            },
            None => None,
        }
    }

    /// Drops the dead defined functions and renumbers the signatures of the
    /// others; entry `d` stands for function `nimports + d`.
    fn remap_functions(&self, s: Option<Vec<u32>>, a: &Analysis, nimports: usize) -> (r: Option<Vec<u32>>)
        requires
            self.of(*a),
            nimports + seq_or_empty(s).len() == a.functions@.len(),
            forall|d: int|
                0 <= d < seq_or_empty(s).len() && #[trigger] a.functions@[nimports + d] ==> a.live().contains(Item::Type(seq_or_empty(s)[d])),
        ensures
            section_remapped(s, a.functions@.subrange(nimports as int, a.functions@.len() as int), r, |x: u32, y: u32| y == tr(a.types@, x)),
    {
        match s {
            Some(mut v) => {
                let ghost old_v = v@;
                let ghost f = a.functions@.subrange(nimports as int, a.functions@.len() as int);
                retain_flagged(&mut v, &a.functions, nimports);
                proof {
                    assert forall|d: int| 0 <= d < old_v.len() && f[d] implies a.live().contains(Item::Type(#[trigger] old_v[d])) by {
                        assert(a.functions@[nimports + d]);
                    }
                    lemma_keep_all(old_v, f, |t: u32| a.live().contains(Item::Type(t)));
                }
                let ghost kept = v@;
                let mut k: usize = 0;
                while k < v.len()
                    invariant
                        self.of(*a),
                        kept == keep(old_v, f),
                        v@.len() == kept.len(),
                        k <= v@.len(),
                        forall|j: int| 0 <= j < kept.len() ==> a.live().contains(Item::Type(#[trigger] kept[j])),
                        forall|j: int| 0 <= j < k ==> #[trigger] v@[j] == tr(a.types@, kept[j]),
                        forall|j: int| k <= j < v@.len() ==> #[trigger] v@[j] == kept[j],
                    decreases v@.len() - k,
                {
                    assert(a.live().contains(Item::Type(kept[k as int])));
                    let t = v[k];
                    v[k] = self.types[t as usize];
                    k = k + 1;
                }
                nonempty(v)
            },
            None => None,
        }
    }

    /// Drops the dead globals and renumbers what the others' initializers name.
    fn remap_globals(&self, s: Option<Vec<Global>>, a: &Analysis) -> (r: Option<Vec<Global>>)
        requires
            self.of(*a),
            seq_or_empty(s).len() == a.globals@.len(),
            forall|g: int|
                0 <= g < a.globals@.len() && #[trigger] a.globals@[g] ==> expr_refs(seq_or_empty(s)[g].init@).subset_of(a.live()),
        ensures
            section_remapped(s, a.globals@, r, |x: Global, y: Global| global_remapped(*a, x, y)),
    {
        match s {
            Some(mut v) => {
                let ghost old_v = v@;
                retain_flagged(&mut v, &a.globals, 0);
                proof {
                    assert(a.globals@.subrange(0, old_v.len() as int) =~= a.globals@);
                    lemma_keep_all(old_v, a.globals@, |e: Global| expr_refs(e.init@).subset_of(a.live()));
                }
                let ghost kept = v@;
                let mut k: usize = 0;
                while k < v.len()
                    invariant
                        self.of(*a),
                        kept == keep(old_v, a.globals@),
                        v@.len() == kept.len(),
                        k <= v@.len(),
                        forall|j: int| 0 <= j < kept.len() ==> expr_refs((#[trigger] kept[j]).init@).subset_of(a.live()),
                        forall|j: int| 0 <= j < k ==> #[trigger] global_remapped(*a, kept[j], v@[j]),
                        forall|j: int| k <= j < v@.len() ==> #[trigger] v@[j] == kept[j],
                    decreases v@.len() - k,
                {
                    assert(expr_refs(kept[k as int].init@).subset_of(a.live()));
                    self.remap_code(&mut v[k].init, Ghost(*a));
                    k = k + 1;
                }
                nonempty(v)
            },
            None => None,
        }
    }

    fn remap_offset(&self, offset: &mut Option<Vec<Instr>>, Ghost(a): Ghost<Analysis>)
        requires
            self.of(a),
            offset_refs(*old(offset)).subset_of(a.live()),
        ensures
            offset_remapped(a, *old(offset), *final(offset)),
    {
        match offset {
            Some(code) => {
                self.remap_code(code, Ghost(a));
            },
            None => {},
        }
    }

    /// Drops the exports that are not roots and renumbers the others' targets.
    fn remap_exports(&self, s: Option<Vec<Export>>, a: &Analysis) -> (r: Option<Vec<Export>>)
        requires
            self.of(*a),
            seq_or_empty(s).len() == a.exports@.len(),
            forall|e: int|
                0 <= e < a.exports@.len() && #[trigger] a.exports@[e] ==> a.live().contains(target_item(seq_or_empty(s)[e].target)),
        ensures
            section_remapped(s, a.exports@, r, |x: Export, y: Export| export_remapped(*a, x, y)),
    {
        match s {
            Some(mut v) => {
                let ghost old_v = v@;
                retain_flagged(&mut v, &a.exports, 0);
                proof {
                    assert(a.exports@.subrange(0, old_v.len() as int) =~= a.exports@);
                    lemma_keep_all(old_v, a.exports@, |e: Export| a.live().contains(target_item(e.target)));
                }
                let ghost kept = v@;
                let mut k: usize = 0;
                while k < v.len()
                    invariant
                        self.of(*a),
                        kept == keep(old_v, a.exports@),
                        v@.len() == kept.len(),
                        k <= v@.len(),
                        forall|j: int| 0 <= j < kept.len() ==> a.live().contains(target_item((#[trigger] kept[j]).target)),
                        forall|j: int| 0 <= j < k ==> #[trigger] export_remapped(*a, kept[j], v@[j]),
                        forall|j: int| k <= j < v@.len() ==> #[trigger] v@[j] == kept[j],
                    decreases v@.len() - k,
                {
                    assert(a.live().contains(target_item(kept[k as int].target)));
                    let t = match v[k].target {
                        ExportTarget::Function(i) => ExportTarget::Function(self.functions[i as usize]),
                        ExportTarget::Table(i) => ExportTarget::Table(self.tables[i as usize]),
                        ExportTarget::Memory(i) => ExportTarget::Memory(self.memories[i as usize]),
                        ExportTarget::Global(i) => ExportTarget::Global(self.globals[i as usize]),
                    };
                    v[k].target = t;
                    k = k + 1;
                }
                nonempty(v)
            },
            None => None,
        }
    }

    /// Drops the bodies of dead functions and renumbers what the others name.
    fn remap_bodies(&self, s: Option<Vec<Body>>, a: &Analysis) -> (r: Option<Vec<Body>>)
        requires
            self.of(*a),
            seq_or_empty(s).len() == a.codes@.len(),
            forall|d: int|
                0 <= d < a.codes@.len() && #[trigger] a.codes@[d] ==> expr_refs(seq_or_empty(s)[d].code@).subset_of(a.live()),
        ensures
            section_remapped(s, a.codes@, r, |x: Body, y: Body| body_remapped(*a, x, y)),
    {
        match s {
            Some(mut v) => {
                let ghost old_v = v@;
                retain_flagged(&mut v, &a.codes, 0);
                proof {
                    assert(a.codes@.subrange(0, old_v.len() as int) =~= a.codes@);
                    lemma_keep_all(old_v, a.codes@, |e: Body| expr_refs(e.code@).subset_of(a.live()));
                }
                let ghost kept = v@;
                let mut k: usize = 0;
                while k < v.len()
                    invariant
                        self.of(*a),
                        kept == keep(old_v, a.codes@),
                        v@.len() == kept.len(),
                        k <= v@.len(),
                        forall|j: int| 0 <= j < kept.len() ==> expr_refs((#[trigger] kept[j]).code@).subset_of(a.live()),
                        forall|j: int| 0 <= j < k ==> #[trigger] body_remapped(*a, kept[j], v@[j]),
                        forall|j: int| k <= j < v@.len() ==> #[trigger] v@[j] == kept[j],
                    decreases v@.len() - k,
                {
                    assert(expr_refs(kept[k as int].code@).subset_of(a.live()));
                    self.remap_code(&mut v[k].code, Ghost(*a));
                    k = k + 1;
                }
                nonempty(v)
            },
            None => None,
        }
    }

    /// Renumbers the table, offset and functions of every element segment.
    fn remap_elements(&self, v: &mut Vec<ElementSegment>, Ghost(a): Ghost<Analysis>)
        requires
            self.of(a),
            forall|k: int| 0 <= k < old(v)@.len() ==> element_refs(#[trigger] old(v)@[k]).subset_of(a.live()),
        ensures
            final(v)@.len() == old(v)@.len(),
            forall|k: int| 0 <= k < old(v)@.len() ==> #[trigger] element_remapped(a, old(v)@[k], final(v)@[k]),
    {
        let ghost start = v@;
        let mut k: usize = 0;
        while k < v.len()
            invariant
                self.of(a),
                forall|j: int| 0 <= j < start.len() ==> element_refs(#[trigger] start[j]).subset_of(a.live()),
                v@.len() == start.len(),
                k <= v@.len(),
                forall|j: int| 0 <= j < k ==> #[trigger] element_remapped(a, start[j], v@[j]),
                forall|j: int| k <= j < v@.len() ==> #[trigger] v@[j] == start[j],
            decreases v@.len() - k,
        {
            let ghost seg = start[k as int];
            assert(element_refs(seg).subset_of(a.live()));
            assert(element_refs(seg).contains(Item::Table(seg.table)));
            assert(offset_refs(seg.offset).subset_of(element_refs(seg)));
            let t = self.tables[v[k].table as usize];
            v[k].table = t;
            self.remap_offset(&mut v[k].offset, Ghost(a));
            let mut i: usize = 0;
            while i < v[k].members.len()
                invariant
                    self.of(a),
                    element_refs(seg).subset_of(a.live()),
                    k < v@.len() == start.len(),
                    v@[k as int].members@.len() == seg.members@.len(),
                    i <= seg.members@.len(),
                    v@[k as int].table == tr(a.tables@, seg.table),
                    offset_remapped(a, seg.offset, v@[k as int].offset),
                    forall|j: int| 0 <= j < i ==> #[trigger] v@[k as int].members@[j] == tr(a.functions@, seg.members@[j]),
                    forall|j: int| i <= j < seg.members@.len() ==> #[trigger] v@[k as int].members@[j] == seg.members@[j],
                    forall|j: int| 0 <= j < k ==> #[trigger] element_remapped(a, start[j], v@[j]),
                    forall|j: int| k < j < v@.len() ==> #[trigger] v@[j] == start[j],
                decreases seg.members@.len() - i,
            {
                assert(element_refs(seg).contains(Item::Function(seg.members@[i as int])));
                let f = v[k].members[i];
                v[k].members[i] = self.functions[f as usize];
                i = i + 1;
            }
            k = k + 1;
        }
    }

    /// Renumbers the memory and offset of every data segment.
    fn remap_data(&self, v: &mut Vec<DataSegment>, Ghost(a): Ghost<Analysis>)
        requires
            self.of(a),
            forall|k: int| 0 <= k < old(v)@.len() ==> data_refs(#[trigger] old(v)@[k]).subset_of(a.live()),
        ensures
            final(v)@.len() == old(v)@.len(),
            forall|k: int| 0 <= k < old(v)@.len() ==> #[trigger] data_remapped(a, old(v)@[k], final(v)@[k]),
    {
        let ghost start = v@;
        let mut k: usize = 0;
        while k < v.len()
            invariant
                self.of(a),
                forall|j: int| 0 <= j < start.len() ==> data_refs(#[trigger] start[j]).subset_of(a.live()),
                v@.len() == start.len(),
                k <= v@.len(),
                forall|j: int| 0 <= j < k ==> #[trigger] data_remapped(a, start[j], v@[j]),
                forall|j: int| k <= j < v@.len() ==> #[trigger] v@[j] == start[j],
            decreases v@.len() - k,
        {
            let ghost seg = start[k as int];
            assert(data_refs(seg).subset_of(a.live()));
            assert(data_refs(seg).contains(Item::Memory(seg.memory)));
            assert(offset_refs(seg.offset).subset_of(data_refs(seg)));
            let mem = self.memories[v[k].memory as usize];
            v[k].memory = mem;
            self.remap_offset(&mut v[k].offset, Ghost(a));
            k = k + 1;
        }
    }
}

/// `out` is `m` with every entry that `a` leaves dead removed, every
/// surviving index renumbered, and every list section left empty dropped.
pub open spec fn remapped(m: Module, a: Analysis, out: Module) -> bool {
    &&& section_remapped(m.types, a.types@, out.types, |x, y| y == x)
    &&& section_remapped(m.imports, a.imports@, out.imports, |x: Import, y: Import| import_remapped(a, x, y))
    &&& section_remapped(
        m.functions,
        a.functions@.subrange(m.nimports(), m.nfunctions()),
        out.functions,
        |x: u32, y: u32| y == tr(a.types@, x),
    )
    &&& section_remapped(m.tables, a.tables@, out.tables, |x, y| y == x)
    &&& section_remapped(m.memories, a.memories@, out.memories, |x, y| y == x)
    &&& section_remapped(m.globals, a.globals@, out.globals, |x: Global, y: Global| global_remapped(a, x, y))
    &&& section_remapped(m.exports, a.exports@, out.exports, |x: Export, y: Export| export_remapped(a, x, y))
    &&& out.start == match m.start {
        Some(f) => Some(tr(a.functions@, f)),
        None => None,
    }
    &&& match m.elements {
        Some(v) => out.elements is Some && out.elements->0@.len() == v@.len() && forall|k: int|
            0 <= k < v@.len() ==> #[trigger] element_remapped(a, v@[k], out.elements->0@[k]),
        None => out.elements is None,
    }
    &&& section_remapped(m.code, a.codes@, out.code, |x: Body, y: Body| body_remapped(a, x, y))
    &&& match m.data {
        Some(v) => out.data is Some && out.data->0@.len() == v@.len() && forall|k: int|
            0 <= k < v@.len() ==> #[trigger] data_remapped(a, v@[k], out.data->0@[k]),
        None => out.data is None,
    }
}

/// What a sound analysis says of each live entry: the indices it holds are live.
pub proof fn lemma_live_entries(m: Module, a: Analysis)
    requires
        a.sound(m),
        m.within_limits(),
    ensures
        forall|i: int|
            0 <= i < a.imports@.len() && #[trigger] a.imports@[i] ==> (m.imports_seq()[i].desc is Function
                ==> a.live().contains(Item::Type(m.imports_seq()[i].desc->Function_0))),
        forall|d: int|
            0 <= d < m.functions_seq().len() && #[trigger] a.functions@[m.nimports() + d] ==> a.live().contains(
                Item::Type(m.functions_seq()[d]),
            ),
        forall|g: int|
            0 <= g < a.globals@.len() && #[trigger] a.globals@[g] ==> expr_refs(m.globals_seq()[g].init@).subset_of(
                a.live(),
            ),
        forall|e: int|
            0 <= e < a.exports@.len() && #[trigger] a.exports@[e] ==> a.live().contains(
                target_item(m.exports_seq()[e].target),
            ),
        forall|d: int|
            0 <= d < a.codes@.len() && #[trigger] a.codes@[d] ==> expr_refs(m.code_seq()[d].code@).subset_of(
                a.live(),
            ),
{
    assert forall|i: int|
        0 <= i < a.imports@.len() && #[trigger] a.imports@[i] && m.imports_seq()[i].desc is Function
            implies a.live().contains(Item::Type(m.imports_seq()[i].desc->Function_0)) by {
        lemma_import_index(m.imports_seq(), i);
        let f = import_index(m.imports_seq(), i) as u32;
        assert(a.live().contains(Item::Function(f)));
        assert(m.edges(Item::Function(f)).contains(Item::Type(m.imports_seq()[i].desc->Function_0)));
    }
    assert forall|d: int|
        0 <= d < m.functions_seq().len() && #[trigger] a.functions@[m.nimports() + d] implies a.live().contains(Item::Type(m.functions_seq()[d])) by {
        assert(a.live().contains(Item::Function((m.nimports() + d) as u32)));
        assert(m.edges(Item::Function((m.nimports() + d) as u32)).contains(Item::Type(m.functions_seq()[d])));
    }
    assert forall|g: int|
        0 <= g < a.globals@.len() && #[trigger] a.globals@[g] implies expr_refs(m.globals_seq()[g].init@).subset_of(a.live()) by {
        assert(a.live().contains(Item::Global(g as u32)));
        assert(m.edges(Item::Global(g as u32)) == expr_refs(m.globals_seq()[g].init@));
    }
    assert forall|e: int|
        0 <= e < a.exports@.len() && #[trigger] a.exports@[e] implies a.live().contains(target_item(m.exports_seq()[e].target)) by {
        assert(m.export_item(e) == target_item(m.exports_seq()[e].target));
    }
    assert forall|d: int|
        0 <= d < a.codes@.len() && #[trigger] a.codes@[d] implies expr_refs(m.code_seq()[d].code@).subset_of(a.live()) by {
        let i = (m.nimports() + d) as u32;
        assert(a.live().contains(Item::Function(i)));
        assert(expr_refs(m.code_seq()[d].code@).subset_of(m.edges(Item::Function(i))));
    }
}

/// Removes every entry that `a` leaves dead and renumbers every index that
/// survives, in every section, through the translation of its space.
pub fn remap(m: &mut Module, a: &Analysis)
    requires
        a.sound(*old(m)),
        old(m).within_limits(),
    ensures
        remapped(*old(m), *a, *final(m)),
{
    let ghost m0 = *m;
    let r = Renumbering::new(a);
    let nimports = function_import_types(&m.imports).len();
    assert(nimports == m0.nimports());
    proof {
        lemma_live_entries(m0, *a);
    }
    let types = m.types.take();
    m.types = r.keep_section(types, &a.types);
    let imports = m.imports.take();
    m.imports = r.remap_imports(imports, a);
    let functions = m.functions.take();
    m.functions = r.remap_functions(functions, a, nimports);
    let tables = m.tables.take();
    m.tables = r.keep_section(tables, &a.tables);
    let memories = m.memories.take();
    m.memories = r.keep_section(memories, &a.memories);
    let globals = m.globals.take();
    m.globals = r.remap_globals(globals, a);
    let exports = m.exports.take();
    m.exports = r.remap_exports(exports, a);
    match m.start {
        Some(f) => {
            assert(m0.fixed_roots().contains(Item::Function(f)));
            m.start = Some(r.functions[f as usize]);
        },
        None => {},
    }
    match &mut m.elements {
        Some(v) => {
            proof {
                assert forall|k: int| 0 <= k < v@.len() implies element_refs(#[trigger] v@[k]).subset_of(a.live()) by {
                    assert forall|it: Item| element_refs(v@[k]).contains(it) implies a.live().contains(it) by {
                        assert(element_refs(m0.elements_seq()[k]).contains(it));
                        assert(m0.fixed_roots().contains(it));
                    }
                }
            }
            r.remap_elements(v, Ghost(*a));
        },
        None => {},
    }
    let code = m.code.take();
    m.code = r.remap_bodies(code, a);
    match &mut m.data {
        Some(v) => {
            proof {
                assert forall|k: int| 0 <= k < v@.len() implies data_refs(#[trigger] v@[k]).subset_of(a.live()) by {
                    assert forall|it: Item| data_refs(v@[k]).contains(it) implies a.live().contains(it) by {
                        assert(data_refs(m0.data_seq()[k]).contains(it));
                        assert(m0.fixed_roots().contains(it));
                    }
                }
            }
            r.remap_data(v, Ghost(*a));
        },
        None => {},
    }
}

} // verus!
