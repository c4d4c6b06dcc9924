//! The live-set analyzer: a worklist walk from the roots over the references
//! between entries, recording the live indices of each index space.
use vstd::prelude::*;
use vstd::string::StrSliceExecFns;
use crate::model::{
    data_refs, element_refs, expr_refs, instr_ref, offset_refs, seq_or_empty, DataSegment,
    ElementSegment, ExportTarget, Instr, Item, Module,
};
use crate::imports::{function_import_types, import_flags, import_live};
use crate::numbering::{count, lemma_count_set, lemma_rank_bounds, lemma_rank_prefix, rank};

verus! {

/// The live flags of each index space, and of the imports, code bodies and
/// exports by position.
pub struct Analysis {
    pub functions: Vec<bool>,
    pub types: Vec<bool>,
    pub tables: Vec<bool>,
    pub memories: Vec<bool>,
    pub globals: Vec<bool>,
    pub imports: Vec<bool>,
    pub codes: Vec<bool>,
    pub exports: Vec<bool>,
}

pub open spec fn flag(f: Seq<bool>, i: u32) -> bool {
    i < f.len() && f[i as int]
}

pub open spec fn live_of(
    functions: Seq<bool>,
    types: Seq<bool>,
    tables: Seq<bool>,
    memories: Seq<bool>,
    globals: Seq<bool>,
) -> Set<Item> {
    Set::new(
        |it: Item|
            match it {
                Item::Function(i) => flag(functions, i),
                Item::Type(i) => flag(types, i),
                Item::Table(i) => flag(tables, i),
                Item::Memory(i) => flag(memories, i),
                Item::Global(i) => flag(globals, i),
            },
    )
}

pub open spec fn blacklist_view(blacklist: Seq<String>) -> Seq<Seq<char>> {
    blacklist.map_values(|s: String| s@)
}

impl Analysis {
    /// The live items of the five index spaces.
    pub open spec fn live(&self) -> Set<Item> {
        live_of(self.functions@, self.types@, self.tables@, self.memories@, self.globals@)
    }

    /// These are the live sets of `m` for the blacklist: the least closed
    /// set, with the exports flagged by whether their field name is allowed.
    pub open spec fn is_live_sets_of(&self, m: Module, blacklist: Seq<Seq<char>>) -> bool {
        &&& self.sound(m)
        &&& m.closed(blacklist, self.live())
        &&& forall|s: Set<Item>| #[trigger] m.closed(blacklist, s) ==> self.live().subset_of(s)
        &&& forall|e: int|
            0 <= e < m.exports_seq().len() ==> #[trigger] self.exports@[e] == !blacklist.contains(
                m.exports_seq()[e].field@,
            )
    }

    /// The flags have the sizes of the module's sections, and the import and
    /// code flags are those of the functions they stand for (an import that
    /// is not a function import is always kept).
    pub open spec fn fits(&self, m: Module) -> bool {
        &&& self.functions@.len() == m.nfunctions()
        &&& self.types@.len() == m.types_seq().len()
        &&& self.tables@.len() == m.tables_seq().len()
        &&& self.memories@.len() == m.memories_seq().len()
        &&& self.globals@.len() == m.globals_seq().len()
        &&& self.imports@.len() == m.imports_seq().len()
        &&& self.codes@.len() == m.code_seq().len()
        &&& self.exports@.len() == m.exports_seq().len()
        &&& forall|p: int|
            0 <= p < m.imports_seq().len() ==> #[trigger] self.imports@[p] == import_live(
                m.imports_seq(),
                self.functions@,
                p,
            )
        &&& forall|d: int|
            0 <= d < m.code_seq().len() ==> #[trigger] self.codes@[d] == (m.nimports() + d
                < m.nfunctions() && self.functions@[m.nimports() + d])
    }

    /// The live set is one that removing everything else leaves consistent:
    /// all of it resolves, it holds what it reaches, the fixed roots and the
    /// targets of the live exports.
    pub open spec fn sound(&self, m: Module) -> bool {
        &&& self.fits(m)
        &&& forall|it: Item| #[trigger] self.live().contains(it) ==> m.resolves(it)
        &&& forall|it: Item| #[trigger]
            self.live().contains(it) ==> m.edges(it).subset_of(self.live())
        &&& m.fixed_roots().subset_of(self.live())
        &&& forall|e: int|
            0 <= e < m.exports_seq().len() && #[trigger] self.exports@[e] ==> self.live().contains(
                m.export_item(e),
            )
    }
}

/// Whether two strings hold the same characters.
pub fn same_text(a: &str, b: &str) -> (r: bool)
    ensures
        r == (a@ == b@),
{
    let n = a.unicode_len();
    if n != b.unicode_len() {
        return false;
    }
    let mut i: usize = 0;
    while i < n
        invariant
            n == a@.len() == b@.len(),
            i <= n,
            forall|k: int| 0 <= k < i ==> a@[k] == b@[k],
        decreases n - i,
    {
        if a.get_char(i) != b.get_char(i) {
            return false;
        }
        i = i + 1;
    }
    assert(a@ =~= b@);
    true
}

/// Whether `name` is one of the blacklisted field names.
pub fn is_blacklisted(blacklist: &Vec<String>, name: &str) -> (r: bool)
    ensures
        r == blacklist_view(blacklist@).contains(name@),
{
    let mut i: usize = 0;
    while i < blacklist.len()
        invariant
            i <= blacklist@.len(),
            forall|k: int| 0 <= k < i ==> blacklist@[k]@ != name@,
        decreases blacklist@.len() - i,
    {
        if same_text(blacklist[i].as_str(), name) {
            assert(blacklist_view(blacklist@)[i as int] == name@);
            return true;
        }
        i = i + 1;
    }
    false
}

/// `b` is `a` followed by members of `allowed`.
pub open spec fn extends(a: Seq<Item>, b: Seq<Item>, allowed: Set<Item>) -> bool {
    &&& a.len() <= b.len()
    &&& b.subrange(0, a.len() as int) == a
    &&& forall|k: int| a.len() <= k < b.len() ==> allowed.contains(#[trigger] b[k])
}

proof fn lemma_extends(a: Seq<Item>, b: Seq<Item>, allowed: Set<Item>, wider: Set<Item>)
    requires
        extends(a, b, allowed),
        allowed.subset_of(wider),
    ensures
        extends(a, b, wider),
        forall|x: Item| a.contains(x) ==> #[trigger] b.contains(x),
{
    assert forall|x: Item| a.contains(x) implies #[trigger] b.contains(x) by {
        let w = choose|w: int| 0 <= w < a.len() && a[w] == x;
        assert(b.subrange(0, a.len() as int)[w] == x);
    }
}

proof fn lemma_extends_trans(a: Seq<Item>, b: Seq<Item>, c: Seq<Item>, allowed: Set<Item>)
    requires
        extends(a, b, allowed),
        extends(b, c, allowed),
    ensures
        extends(a, c, allowed),
{
    assert(c.subrange(0, a.len() as int) =~= a) by {
        assert forall|k: int| 0 <= k < a.len() implies c[k] == a[k] by {
            assert(c.subrange(0, b.len() as int)[k] == b[k]);
            assert(b.subrange(0, a.len() as int)[k] == a[k]);
        }
    }
    assert forall|k: int| a.len() <= k < c.len() implies allowed.contains(#[trigger] c[k]) by {
        if k < b.len() {
            assert(c.subrange(0, b.len() as int)[k] == b[k]);
        }
    }
}

/// Pushes every entity an instruction sequence names.
fn push_refs(code: &Vec<Instr>, stack: &mut Vec<Item>)
    ensures
        extends(old(stack)@, final(stack)@, expr_refs(code@)),
        forall|it: Item| expr_refs(code@).contains(it) ==> #[trigger] final(stack)@.contains(it),
{
    let ghost start = stack@;
    let mut i: usize = 0;
    while i < code.len()
        invariant
            i <= code@.len(),
            stack@.len() >= start.len(),
            stack@.subrange(0, start.len() as int) == start,
            forall|k: int|
                start.len() <= k < stack@.len() ==> expr_refs(code@).contains(#[trigger] stack@[k]),
            forall|j: int|
                0 <= j < i && instr_ref(#[trigger] code@[j]) is Some ==> stack@.contains(
                    instr_ref(code@[j])->0,
                ),
        decreases code@.len() - i,
    {
        let ghost before = stack@;
        let r = match &code[i] {
            Instr::Call(f) => Some(Item::Function(*f)),
            Instr::CallIndirect(t, _) => Some(Item::Type(*t)),
            Instr::GetGlobal(g) => Some(Item::Global(*g)),
            Instr::SetGlobal(g) => Some(Item::Global(*g)),
            Instr::Plain(_) => None,
        };
        if let Some(it) = r {
            stack.push(it);
            assert(expr_refs(code@).contains(it)) by {
                assert(instr_ref(code@[i as int]) == Some(it));
            }
            assert forall|j: int|
                0 <= j <= i && instr_ref(#[trigger] code@[j]) is Some implies stack@.contains(
                instr_ref(code@[j])->0,
            ) by {
                if j < i {
                    let x = instr_ref(code@[j])->0;
                    let w = choose|w: int| 0 <= w < before.len() && before[w] == x;
                    assert(stack@[w] == x);
                } else {
                    assert(stack@[stack@.len() - 1] == it);
                }
            }
        }
        assert(stack@.subrange(0, start.len() as int) =~= start) by {
            assert(stack@.subrange(0, before.len() as int) =~= before);
        }
        i = i + 1;
    }
    assert forall|it: Item| expr_refs(code@).contains(it) implies #[trigger] stack@.contains(it) by {
        let j = choose|j: int| 0 <= j < code@.len() && #[trigger] instr_ref(code@[j]) == Some(it);
    }
}

fn push_offset(offset: &Option<Vec<Instr>>, stack: &mut Vec<Item>)
    ensures
        extends(old(stack)@, final(stack)@, offset_refs(*offset)),
        forall|it: Item| offset_refs(*offset).contains(it) ==> #[trigger] final(stack)@.contains(it),
{
    match offset {
        Some(code) => push_refs(code, stack),
        None => {
            assert(stack@.subrange(0, stack@.len() as int) =~= stack@);
        },
    }
}

pub fn section_len<T>(s: &Option<Vec<T>>) -> (n: usize)
    ensures
        n == seq_or_empty(*s).len(),
{
    match s {
        Some(v) => v.len(),
        None => 0,
    }
}

/// Pushes what each data segment refers to.
fn push_data_roots(ds: &Vec<DataSegment>, stack: &mut Vec<Item>, Ghost(fr): Ghost<Set<Item>>)
    requires
        forall|k: int| 0 <= k < ds@.len() ==> #[trigger] data_refs(ds@[k]).subset_of(fr),
    ensures
        extends(old(stack)@, final(stack)@, fr),
        forall|k: int, y: Item|
            0 <= k < ds@.len() && #[trigger] data_refs(ds@[k]).contains(y) ==> #[trigger] final(stack)@.contains(y),
{
    let ghost start = stack@;
    assert(stack@.subrange(0, stack@.len() as int) =~= stack@);
    let mut i: usize = 0;
    while i < ds.len()
        invariant
            i <= ds@.len(),
            forall|k: int| 0 <= k < ds@.len() ==> #[trigger] data_refs(ds@[k]).subset_of(fr),
            extends(start, stack@, fr),
            forall|k: int, y: Item|
                0 <= k < i && #[trigger] data_refs(ds@[k]).contains(y) ==> #[trigger] stack@.contains(y),
        decreases ds@.len() - i,
    {
        let ghost before = stack@;
        let seg = &ds[i];
        assert(data_refs(ds@[i as int]).subset_of(fr));
        stack.push(Item::Memory(seg.memory));
        let ghost mid = stack@;
        assert(data_refs(*seg).contains(Item::Memory(seg.memory)));
        assert(extends(before, mid, fr)) by {
            assert(mid.subrange(0, before.len() as int) =~= before);
        }
        push_offset(&seg.offset, stack);
        proof {
            assert(offset_refs(seg.offset).subset_of(data_refs(*seg)));
            lemma_extends(mid, stack@, offset_refs(seg.offset), fr);
            lemma_extends(before, mid, fr, fr);
            lemma_extends_trans(before, mid, stack@, fr);
            lemma_extends_trans(start, before, stack@, fr);
            lemma_extends(before, stack@, fr, fr);
            assert(mid[mid.len() - 1] == Item::Memory(seg.memory));
            assert forall|k: int, y: Item|
                0 <= k <= i && #[trigger] data_refs(ds@[k]).contains(y) implies #[trigger] stack@.contains(y) by {
                if k == i {
                    if y != Item::Memory(seg.memory) {
                        assert(offset_refs(seg.offset).contains(y));
                    }
                }
            }
        }
        i = i + 1;
    }
}

pub open spec fn member_refs(members: Seq<u32>) -> Set<Item> {
    Set::new(|it: Item| exists|k: int| 0 <= k < members.len() && it == Item::Function(#[trigger] members[k]))
}

fn push_members(members: &Vec<u32>, stack: &mut Vec<Item>)
    ensures
        extends(old(stack)@, final(stack)@, member_refs(members@)),
        forall|it: Item| member_refs(members@).contains(it) ==> #[trigger] final(stack)@.contains(it),
{
    let ghost start = stack@;
    let ghost allowed = member_refs(members@);
    assert(stack@.subrange(0, stack@.len() as int) =~= stack@);
    let mut i: usize = 0;
    while i < members.len()
        invariant
            i <= members@.len(),
            allowed == member_refs(members@),
            extends(start, stack@, allowed),
            forall|k: int| 0 <= k < i ==> stack@.contains(Item::Function(#[trigger] members@[k])),
        decreases members@.len() - i,
    {
        let ghost before = stack@;
        stack.push(Item::Function(members[i]));
        proof {
            assert(allowed.contains(Item::Function(members@[i as int])));
            assert(extends(before, stack@, allowed)) by {
                assert(stack@.subrange(0, before.len() as int) =~= before);
            }
            lemma_extends(before, stack@, allowed, allowed);
            lemma_extends_trans(start, before, stack@, allowed);
            assert(stack@[stack@.len() - 1] == Item::Function(members@[i as int]));
        }
        i = i + 1;
    }
}

/// Pushes what each element segment refers to.
fn push_element_roots(es: &Vec<ElementSegment>, stack: &mut Vec<Item>, Ghost(fr): Ghost<Set<Item>>)
    requires
        forall|k: int| 0 <= k < es@.len() ==> #[trigger] element_refs(es@[k]).subset_of(fr),
    ensures
        extends(old(stack)@, final(stack)@, fr),
        forall|k: int, y: Item|
            0 <= k < es@.len() && #[trigger] element_refs(es@[k]).contains(y) ==> #[trigger] final(stack)@.contains(y),
{
    let ghost start = stack@;
    assert(stack@.subrange(0, stack@.len() as int) =~= stack@);
    let mut i: usize = 0;
    while i < es.len()
        invariant
            i <= es@.len(),
            forall|k: int| 0 <= k < es@.len() ==> #[trigger] element_refs(es@[k]).subset_of(fr),
            extends(start, stack@, fr),
            forall|k: int, y: Item|
                0 <= k < i && #[trigger] element_refs(es@[k]).contains(y) ==> #[trigger] stack@.contains(y),
        decreases es@.len() - i,
    {
        let ghost before = stack@;
        let seg = &es[i];
        assert(element_refs(es@[i as int]).subset_of(fr));
        stack.push(Item::Table(seg.table));
        let ghost mid = stack@;
        assert(element_refs(*seg).contains(Item::Table(seg.table)));
        assert(extends(before, mid, fr)) by {
            assert(mid.subrange(0, before.len() as int) =~= before);
        }
        push_offset(&seg.offset, stack);
        let ghost mid2 = stack@;
        push_members(&seg.members, stack);
        proof {
            assert(offset_refs(seg.offset).subset_of(element_refs(*seg)));
            assert(member_refs(seg.members@).subset_of(element_refs(*seg))) by {
                assert forall|it: Item| member_refs(seg.members@).contains(it) implies element_refs(*seg).contains(it) by {
                    let k = choose|k: int| 0 <= k < seg.members@.len() && it == Item::Function(#[trigger] seg.members@[k]);
                }
            }
            lemma_extends(mid, mid2, offset_refs(seg.offset), fr);
            lemma_extends(mid2, stack@, member_refs(seg.members@), fr);
            lemma_extends(before, mid, fr, fr);
            lemma_extends_trans(before, mid, mid2, fr);
            lemma_extends_trans(before, mid2, stack@, fr);
            lemma_extends_trans(start, before, stack@, fr);
            lemma_extends(before, stack@, fr, fr);
            lemma_extends(mid, mid2, fr, fr);
            lemma_extends(mid2, stack@, fr, fr);
            assert(mid[mid.len() - 1] == Item::Table(seg.table));
            assert forall|k: int, y: Item|
                0 <= k <= i && #[trigger] element_refs(es@[k]).contains(y) implies #[trigger] stack@.contains(y) by {
                if k == i {
                    if y != Item::Table(seg.table) && !offset_refs(seg.offset).contains(y) {
                        let w = choose|w: int| 0 <= w < seg.members@.len() && y == Item::Function(#[trigger] seg.members@[w]);
                        assert(member_refs(seg.members@).contains(y));
                    }
                }
            }
        }
        i = i + 1;
    }
}

/// Pushes the roots that no blacklist prunes: what the data segments and
/// the element segments refer to, every table, and the start function.
fn push_fixed_roots(m: &Module, stack: &mut Vec<Item>)
    requires
        m.within_limits(),
    ensures
        extends(old(stack)@, final(stack)@, m.fixed_roots()),
        forall|it: Item| m.fixed_roots().contains(it) ==> #[trigger] final(stack)@.contains(it),
{
    let ghost fr = m.fixed_roots();
    let ghost s0 = stack@;
    assert(stack@.subrange(0, stack@.len() as int) =~= stack@);
    match &m.data {
        Some(ds) => {
            assert forall|k: int| 0 <= k < ds@.len() implies #[trigger] data_refs(ds@[k]).subset_of(fr) by {
                assert forall|it: Item| data_refs(ds@[k]).contains(it) implies fr.contains(it) by {
                    assert(data_refs(m.data_seq()[k]).contains(it));
                }
            }
            push_data_roots(ds, stack, Ghost(fr));
        },
        None => {},
    }
    let ghost s1 = stack@;
    assert(stack@.subrange(0, s1.len() as int) =~= s1);
    let ntables = section_len(&m.tables);
    let mut t: usize = 0;
    while t < ntables
        invariant
            ntables < u32::MAX,
            fr == m.fixed_roots(),
            t <= ntables,
            ntables == m.tables_seq().len(),
            extends(s1, stack@, fr),
            forall|k: u32| k < t ==> #[trigger] stack@.contains(Item::Table(k)),
        decreases ntables - t,
    {
        let ghost before = stack@;
        stack.push(Item::Table(t as u32));
        proof {
            assert(fr.contains(Item::Table(t as u32)));
            assert(extends(before, stack@, fr)) by {
                assert(stack@.subrange(0, before.len() as int) =~= before);
            }
            lemma_extends(before, stack@, fr, fr);
            lemma_extends_trans(s1, before, stack@, fr);
            assert(stack@[stack@.len() - 1] == Item::Table(t as u32));
        }
        t = t + 1;
    }
    let ghost s2 = stack@;
    assert(stack@.subrange(0, s2.len() as int) =~= s2);
    match &m.elements {
        Some(es) => {
            assert forall|k: int| 0 <= k < es@.len() implies #[trigger] element_refs(es@[k]).subset_of(fr) by {
                assert forall|it: Item| element_refs(es@[k]).contains(it) implies fr.contains(it) by {
                    assert(element_refs(m.elements_seq()[k]).contains(it));
                }
            }
            push_element_roots(es, stack, Ghost(fr));
        },
        None => {},
    }
    let ghost s3 = stack@;
    if let Some(f) = m.start {
        stack.push(Item::Function(f));
        assert(fr.contains(Item::Function(f)));
        assert(stack@.subrange(0, s3.len() as int) =~= s3);
        assert(stack@[stack@.len() - 1] == Item::Function(f));
    } else {
        assert(stack@.subrange(0, s3.len() as int) =~= s3);
    }
    proof {
        lemma_extends(s0, s1, fr, fr);
        lemma_extends(s1, s2, fr, fr);
        lemma_extends(s2, s3, fr, fr);
        lemma_extends(s3, stack@, fr, fr);
        lemma_extends_trans(s0, s1, s2, fr);
        lemma_extends_trans(s0, s2, s3, fr);
        lemma_extends_trans(s0, s3, stack@, fr);
        assert forall|it: Item| fr.contains(it) implies #[trigger] stack@.contains(it) by {
            if exists|k: int| 0 <= k < m.data_seq().len() && #[trigger] data_refs(m.data_seq()[k]).contains(it) {
                let k = choose|k: int| 0 <= k < m.data_seq().len() && #[trigger] data_refs(m.data_seq()[k]).contains(it);
                assert(s1.contains(it));
            } else if exists|k: int| 0 <= k < m.elements_seq().len() && #[trigger] element_refs(m.elements_seq()[k]).contains(it) {
                let k = choose|k: int| 0 <= k < m.elements_seq().len() && #[trigger] element_refs(m.elements_seq()[k]).contains(it);
                assert(s3.contains(it));
            } else if it is Table && it->Table_0 < m.tables_seq().len() {
                assert(s2.contains(Item::Table(it->Table_0)));
            } else {
                assert(stack@[stack@.len() - 1] == it);
            }
        }
    }
}

proof fn lemma_push(a: Seq<Item>, x: Item, allowed: Set<Item>)
    requires
        allowed.contains(x),
    ensures
        extends(a, a.push(x), allowed),
        a.push(x).contains(x),
        forall|y: Item| a.contains(y) ==> #[trigger] a.push(x).contains(y),
{
    assert(a.push(x).subrange(0, a.len() as int) =~= a);
    assert(a.push(x)[a.len() as int] == x);
    lemma_extends(a, a.push(x), allowed, allowed);
}

/// What a reached item that resolves refers to is reached too.
proof fn lemma_edges_reached(m: Module, bl: Seq<Seq<char>>, x: Item)
    requires
        m.reached(bl, x),
        m.resolves(x),
    ensures
        forall|y: Item| #[trigger] m.edges(x).contains(y) ==> m.reached(bl, y),
{
    assert forall|y: Item| #[trigger] m.edges(x).contains(y) implies m.reached(bl, y) by {
        assert forall|s: Set<Item>| #[trigger] m.closed(bl, s) implies s.contains(y) by {
            assert(s.contains(x));
        }
    }
}

proof fn lemma_roots_reached(m: Module, bl: Seq<Seq<char>>)
    ensures
        forall|y: Item| #[trigger] m.roots(bl).contains(y) ==> m.reached(bl, y),
{
    assert forall|y: Item| #[trigger] m.roots(bl).contains(y) implies m.reached(bl, y) by {
        assert forall|s: Set<Item>| #[trigger] m.closed(bl, s) implies s.contains(y) by {}
    }
}

/// A vector of `n` unset flags.
fn falses(n: usize) -> (v: Vec<bool>)
    ensures
        v@.len() == n,
        forall|i: int| 0 <= i < n ==> !#[trigger] v@[i],
        count(v@) == 0,
{
    let mut v: Vec<bool> = Vec::new();
    let mut i: usize = 0;
    while i < n
        invariant
            i <= n,
            v@.len() == i,
            forall|k: int| 0 <= k < i ==> !#[trigger] v@[k],
            rank(v@, i as int) == 0,
        decreases n - i,
    {
        proof {
            lemma_rank_prefix(v@, v@.push(false), i as int);
        }
        v.push(false);
        i = i + 1;
    }
    v
}

/// Flags each export whose field name is not blacklisted and pushes its target.
fn push_exports(m: &Module, blacklist: &Vec<String>, stack: &mut Vec<Item>) -> (flags: Vec<bool>)
    ensures
        extends(old(stack)@, final(stack)@, m.roots(blacklist_view(blacklist@))),
        flags@.len() == m.exports_seq().len(),
        forall|e: int|
            0 <= e < flags@.len() ==> #[trigger] flags@[e] == !blacklist_view(blacklist@).contains(
                m.exports_seq()[e].field@,
            ),
        forall|e: int|
            0 <= e < flags@.len() && #[trigger] flags@[e] ==> final(stack)@.contains(m.export_item(e)),
{
    let ghost bl = blacklist_view(blacklist@);
    let ghost start = stack@;
    let ghost roots = m.roots(bl);
    let mut flags: Vec<bool> = Vec::new();
    assert(stack@.subrange(0, stack@.len() as int) =~= stack@);
    match &m.exports {
        Some(es) => {
            let mut e: usize = 0;
            while e < es.len()
                invariant
                    e <= es@.len(),
                    es@ == m.exports_seq(),
                    bl == blacklist_view(blacklist@),
                    roots == m.roots(bl),
                    flags@.len() == e,
                    extends(start, stack@, roots),
                    forall|k: int| 0 <= k < e ==> #[trigger] flags@[k] == !bl.contains(es@[k].field@),
                    forall|k: int| 0 <= k < e && #[trigger] flags@[k] ==> stack@.contains(m.export_item(k)),
                decreases es@.len() - e,
            {
                let ghost before = stack@;
                let b = is_blacklisted(blacklist, es[e].field.as_str());
                flags.push(!b);
                if !b {
                    let it = match es[e].target {
                        ExportTarget::Function(i) => Item::Function(i),
                        ExportTarget::Table(i) => Item::Table(i),
                        ExportTarget::Memory(i) => Item::Memory(i),
                        ExportTarget::Global(i) => Item::Global(i),
                    };
                    proof {
                        assert(m.export_item(e as int) == it);
                        assert(roots.contains(it));
                        lemma_push(before, it, roots);
                        lemma_extends_trans(start, before, before.push(it), roots);
                    }
                    stack.push(it);
                }
                assert forall|k: int| 0 <= k <= e && #[trigger] flags@[k] implies stack@.contains(m.export_item(k)) by {
                    if k < e {
                        assert(before.contains(m.export_item(k)));
                    }
                }
                e = e + 1;
            }
        },
        None => {},
    }
    flags
}

pub open spec fn unmarked(
    functions: Seq<bool>,
    types: Seq<bool>,
    tables: Seq<bool>,
    memories: Seq<bool>,
    globals: Seq<bool>,
) -> int {
    (functions.len() - count(functions)) + (types.len() - count(types)) + (tables.len() - count(
        tables,
    )) + (memories.len() - count(memories)) + (globals.len() - count(globals))
}

/// Computes the live flags of `m`: the least set of items that holds the
/// roots (the targets of the exports whose field name is not in `blacklist`,
/// the references of the data and element segments, every table and the
/// start function) and everything its members refer to.
/// Fails with an item that every such set holds but that does not resolve.
pub fn analyze(m: &Module, blacklist: &Vec<String>) -> (r: Result<Analysis, Item>)
    requires
        m.within_limits(),
    ensures
        match r {
            Ok(a) => a.is_live_sets_of(*m, blacklist_view(blacklist@)),
            Err(it) => m.reached(blacklist_view(blacklist@), it) && !m.resolves(it),
        },
{
    let ghost bl = blacklist_view(blacklist@);
    let ghost roots = m.roots(bl);
    let mut stack: Vec<Item> = Vec::new();
    let exports = push_exports(m, blacklist, &mut stack);
    let ghost s1 = stack@;
    push_fixed_roots(m, &mut stack);
    proof {
        lemma_extends(s1, stack@, m.fixed_roots(), roots);
        lemma_extends_trans(Seq::empty(), s1, stack@, roots);
        lemma_roots_reached(*m, bl);
        assert forall|y: Item| #[trigger] roots.contains(y) implies stack@.contains(y) by {
            if !m.fixed_roots().contains(y) {
                let e = choose|e: int|
                    0 <= e < m.exports_seq().len() && !bl.contains(m.exports_seq()[e].field@)
                        && #[trigger] m.export_item(e) == y;
                assert(exports@[e]);
                assert(s1.contains(y));
            }
        }
    }
    let import_types = function_import_types(&m.imports);
    let nimports = import_types.len();
    let nfunctions = nimports + section_len(&m.functions);
    let ncode = section_len(&m.code);
    let mut functions = falses(nfunctions);
    let mut types = falses(section_len(&m.types));
    let mut tables = falses(section_len(&m.tables));
    let mut memories = falses(section_len(&m.memories));
    let mut globals = falses(section_len(&m.globals));
    let mut codes = falses(ncode);
    while stack.len() > 0
        invariant
            m.within_limits(),
            bl == blacklist_view(blacklist@),
            roots == m.roots(bl),
            nimports == m.nimports(),
            import_types@ == m.function_import_types(),
            nfunctions == m.nfunctions(),
            ncode == m.code_seq().len(),
            exports@.len() == m.exports_seq().len(),
            forall|e: int|
                0 <= e < m.exports_seq().len() ==> #[trigger] exports@[e] == !bl.contains(
                    m.exports_seq()[e].field@,
                ),
            forall|e: int|
                0 <= e < m.exports_seq().len() && #[trigger] exports@[e] ==> roots.contains(
                    m.export_item(e),
                ),
            functions@.len() == m.nfunctions(),
            types@.len() == m.types_seq().len(),
            tables@.len() == m.tables_seq().len(),
            memories@.len() == m.memories_seq().len(),
            globals@.len() == m.globals_seq().len(),
            codes@.len() == m.code_seq().len(),
            forall|d: int|
                0 <= d < m.code_seq().len() ==> #[trigger] codes@[d] == (m.nimports() + d
                    < m.nfunctions() && functions@[m.nimports() + d]),
            forall|x: Item| #[trigger]
                live_of(functions@, types@, tables@, memories@, globals@).contains(x)
                    ==> m.resolves(x) && m.reached(bl, x),
            forall|k: int| 0 <= k < stack@.len() ==> m.reached(bl, #[trigger] stack@[k]),
            forall|x: Item, y: Item|
                #[trigger] live_of(functions@, types@, tables@, memories@, globals@).contains(x)
                    && #[trigger] m.edges(x).contains(y) ==> live_of(
                    functions@,
                    types@,
                    tables@,
                    memories@,
                    globals@,
                ).contains(y) || stack@.contains(y),
            forall|y: Item| #[trigger]
                roots.contains(y) ==> live_of(
                    functions@,
                    types@,
                    tables@,
                    memories@,
                    globals@,
                ).contains(y) || stack@.contains(y),
        decreases unmarked(functions@, types@, tables@, memories@, globals@), stack@.len(),
    {
        let ghost live0 = live_of(functions@, types@, tables@, memories@, globals@);
        let ghost full = stack@;
        let it = stack.pop().unwrap();
        let ghost rest = stack@;
        proof {
            assert(full == rest.push(it));
            assert(m.reached(bl, it));
            assert forall|y: Item| full.contains(y) && y != it implies #[trigger] rest.contains(y) by {
                let w = choose|w: int| 0 <= w < full.len() && full[w] == y;
                assert(rest[w] == y);
            }
            lemma_rank_bounds(functions@, functions@.len() as int, functions@.len() as int);
            lemma_rank_bounds(types@, types@.len() as int, types@.len() as int);
            lemma_rank_bounds(tables@, tables@.len() as int, tables@.len() as int);
            lemma_rank_bounds(memories@, memories@.len() as int, memories@.len() as int);
            lemma_rank_bounds(globals@, globals@.len() as int, globals@.len() as int);
        }
        let resolves = match it {
            Item::Function(i) => (i as usize) < nfunctions && ((i as usize) < nimports || (i as usize)
                - nimports < ncode),
            Item::Type(i) => (i as usize) < types.len(),
            Item::Table(i) => (i as usize) < tables.len(),
            Item::Memory(i) => (i as usize) < memories.len(),
            Item::Global(i) => (i as usize) < globals.len(),
        };
        if !resolves {
            return Err(it);
        }
        let already = match it {
            Item::Function(i) => functions[i as usize],
            Item::Type(i) => types[i as usize],
            Item::Table(i) => tables[i as usize],
            Item::Memory(i) => memories[i as usize],
            Item::Global(i) => globals[i as usize],
        };
        if already {
            assert(live0.contains(it));
            continue;
        }
        assert(!live0.contains(it));
        let ghost f0 = functions@;
        let ghost t0 = types@;
        let ghost tb0 = tables@;
        let ghost mm0 = memories@;
        let ghost g0 = globals@;
        match it {
            Item::Function(i) => {
                let iu = i as usize;
                proof { lemma_count_set(f0, iu as int); }
                functions[iu] = true;
                if iu < nimports {
                    let t = import_types[iu];
                    proof { lemma_push(rest, Item::Type(t), m.edges(it)); }
                    stack.push(Item::Type(t));
                    assert forall|y: Item| #[trigger] m.edges(it).contains(y) implies stack@.contains(y) by {
                        assert(y == Item::Type(t));
                    }
                } else {
                    let d = iu - nimports;
                    codes[d] = true;
                    match (&m.functions, &m.code) {
                        (Some(fs), Some(cs)) => {
                            let t = fs[d];
                            proof { lemma_push(rest, Item::Type(t), m.edges(it)); }
                            stack.push(Item::Type(t));
                            let ghost mid = stack@;
                            push_refs(&cs[d].code, &mut stack);
                            proof {
                                lemma_extends(mid, stack@, expr_refs(cs@[d as int].code@), m.edges(it));
                                lemma_extends_trans(rest, mid, stack@, m.edges(it));
                                assert(stack@.contains(Item::Type(t)));
                                assert forall|y: Item| #[trigger] m.edges(it).contains(y) implies stack@.contains(y) by {
                                    if y != Item::Type(t) {
                                        assert(expr_refs(cs@[d as int].code@).contains(y));
                                    }
                                }
                            }
                        },
                        _ => {
                            return Err(it);
                        },
                    }
                }
                proof {
                    assert(live_of(functions@, types@, tables@, memories@, globals@) =~= live0.insert(it));
                }
            },
            Item::Type(i) => {
                proof { lemma_count_set(t0, i as int); }
                types[i as usize] = true;
                assert(stack@.subrange(0, rest.len() as int) =~= rest);
                assert(live_of(functions@, types@, tables@, memories@, globals@) =~= live0.insert(it));
            },
            Item::Table(i) => {
                proof { lemma_count_set(tb0, i as int); }
                tables[i as usize] = true;
                assert(stack@.subrange(0, rest.len() as int) =~= rest);
                assert(live_of(functions@, types@, tables@, memories@, globals@) =~= live0.insert(it));
            },
            Item::Memory(i) => {
                proof { lemma_count_set(mm0, i as int); }
                memories[i as usize] = true;
                assert(stack@.subrange(0, rest.len() as int) =~= rest);
                assert(live_of(functions@, types@, tables@, memories@, globals@) =~= live0.insert(it));
            },
            Item::Global(i) => {
                proof { lemma_count_set(g0, i as int); }
                globals[i as usize] = true;
                match &m.globals {
                    Some(gs) => {
                        push_refs(&gs[i as usize].init, &mut stack);
                    },
                    None => {
                        return Err(it);
                    },
                }
                assert(live_of(functions@, types@, tables@, memories@, globals@) =~= live0.insert(it));
            },
        }
        proof {
            let live1 = live_of(functions@, types@, tables@, memories@, globals@);
            lemma_extends(rest, stack@, m.edges(it), m.edges(it));
            lemma_edges_reached(*m, bl, it);
            assert forall|x: Item, y: Item|
                #[trigger] live1.contains(x) && #[trigger] m.edges(x).contains(y) implies live1.contains(y)
                    || stack@.contains(y) by {
                if x != it && y != it && !live0.contains(y) {
                    assert(full.contains(y));
                    assert(rest.contains(y));
                }
            }
            assert forall|k: int| 0 <= k < stack@.len() implies m.reached(bl, #[trigger] stack@[k]) by {
                if k < rest.len() {
                    assert(stack@.subrange(0, rest.len() as int)[k] == rest[k]);
                    assert(rest[k] == full[k]);
                } else {
                    assert(m.edges(it).contains(stack@[k]));
                }
            }
            assert forall|y: Item| #[trigger] roots.contains(y) implies live1.contains(y) || stack@.contains(y) by {
                if y != it && !live0.contains(y) {
                    assert(rest.contains(y));
                }
            }
        }
    }
    let imports = import_flags(&m.imports, &functions);
    let a = Analysis { functions, types, tables, memories, globals, imports, codes, exports };
    proof {
        let live = a.live();
        assert(stack@.len() == 0);
        assert forall|x: Item| #[trigger] live.contains(x) implies m.edges(x).subset_of(live) by {
            assert forall|y: Item| m.edges(x).contains(y) implies live.contains(y) by {
                if !live.contains(y) {
                    assert(stack@.contains(y));
                }
            }
        }
        assert forall|y: Item| #[trigger] roots.contains(y) implies live.contains(y) by {
            if !live.contains(y) {
                assert(stack@.contains(y));
            }
        }
        assert(m.fixed_roots().subset_of(live)) by {
            assert forall|y: Item| m.fixed_roots().contains(y) implies live.contains(y) by {
                assert(roots.contains(y));
            }
        }
        assert(m.closed(bl, live));
        assert forall|s: Set<Item>| #[trigger] m.closed(bl, s) implies live.subset_of(s) by {
            assert forall|x: Item| live.contains(x) implies s.contains(x) by {
                assert(m.reached(bl, x));
            }
        }
    }
    Ok(a)
}

} // verus!
