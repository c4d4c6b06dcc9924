//! The in-memory shape of a module as the pass sees it: every index that
//! crosses sections is a plain integer, and everything the pass never looks
//! into is carried through as an opaque value of the module-format library.
use vstd::prelude::*;
use parity_wasm::elements::{GlobalType, Instruction, Local, MemoryType, TableType, Type};

verus! {

/// Carried through untouched: a function signature.
#[verifier::external_type_specification]
#[verifier::external_body]
pub struct ExType(Type);

/// Carried through untouched: the limits of a table.
#[verifier::external_type_specification]
#[verifier::external_body]
pub struct ExTableType(TableType);

/// Carried through untouched: the limits of a linear memory.
#[verifier::external_type_specification]
#[verifier::external_body]
pub struct ExMemoryType(MemoryType);

/// Carried through untouched: the value type and mutability of a global.
#[verifier::external_type_specification]
#[verifier::external_body]
pub struct ExGlobalType(GlobalType);

/// Carried through untouched: a run of locals of one value type.
#[verifier::external_type_specification]
#[verifier::external_body]
pub struct ExLocal(Local);

/// Carried through untouched: an instruction that names no other entity.
#[verifier::external_type_specification]
#[verifier::external_body]
pub struct ExInstruction(Instruction);

/// One instruction. Only the four kinds that name another entity are
/// spelled out; every other instruction rides along as `Plain`.
#[derive(Debug, PartialEq)]
pub enum Instr {
    Call(u32),
    CallIndirect(u32, u8),
    GetGlobal(u32),
    SetGlobal(u32),
    Plain(Instruction),
}

#[derive(Debug, PartialEq)]
pub enum ImportDesc {
    /// A function import, with its index into the type section.
    Function(u32),
    Table(TableType),
    Memory(MemoryType),
    Global(GlobalType),
}

#[derive(Debug, PartialEq)]
pub struct Import {
    pub module: String,
    pub field: String,
    pub desc: ImportDesc,
}

#[derive(Clone, Copy, Debug, PartialEq, Eq)]
pub enum ExportTarget {
    Function(u32),
    Table(u32),
    Memory(u32),
    Global(u32),
}

#[derive(Debug, PartialEq)]
pub struct Export {
    pub field: String,
    pub target: ExportTarget,
}

#[derive(Debug, PartialEq)]
pub struct Global {
    pub ty: GlobalType,
    pub init: Vec<Instr>,
}

#[derive(Debug, PartialEq)]
pub struct Body {
    pub locals: Vec<Local>,
    pub code: Vec<Instr>,
}

#[derive(Debug, PartialEq)]
pub struct ElementSegment {
    pub table: u32,
    pub offset: Option<Vec<Instr>>,
    pub members: Vec<u32>,
}

#[derive(Debug, PartialEq)]
pub struct DataSegment {
    pub memory: u32,
    pub offset: Option<Vec<Instr>>,
    pub value: Vec<u8>,
}

/// The known sections of a module; `None` is an absent section.
/// The function index space is the function imports, in import order,
/// followed by the entries of `functions`; table, memory and global imports
/// take no function index. Entry `d` of `functions` holds the type index of
/// the function whose body is entry `d` of `code`.
#[derive(Debug, PartialEq)]
pub struct Module {
    pub types: Option<Vec<Type>>,
    pub imports: Option<Vec<Import>>,
    pub functions: Option<Vec<u32>>,
    pub tables: Option<Vec<TableType>>,
    pub memories: Option<Vec<MemoryType>>,
    pub globals: Option<Vec<Global>>,
    pub exports: Option<Vec<Export>>,
    pub start: Option<u32>,
    pub elements: Option<Vec<ElementSegment>>,
    pub code: Option<Vec<Body>>,
    pub data: Option<Vec<DataSegment>>,
}

/// An entity of one of the five index spaces.
#[derive(Clone, Copy, Debug, PartialEq, Eq)]
pub enum Item {
    Function(u32),
    Type(u32),
    Table(u32),
    Memory(u32),
    Global(u32),
}

pub open spec fn seq_or_empty<T>(s: Option<Vec<T>>) -> Seq<T> {
    match s {
        Some(v) => v@,
        None => Seq::empty(),
    }
}

impl Module {
    pub open spec fn types_seq(&self) -> Seq<Type> { seq_or_empty(self.types) }
    pub open spec fn imports_seq(&self) -> Seq<Import> { seq_or_empty(self.imports) }
    pub open spec fn functions_seq(&self) -> Seq<u32> { seq_or_empty(self.functions) }
    pub open spec fn tables_seq(&self) -> Seq<TableType> { seq_or_empty(self.tables) }
    pub open spec fn memories_seq(&self) -> Seq<MemoryType> { seq_or_empty(self.memories) }
    pub open spec fn globals_seq(&self) -> Seq<Global> { seq_or_empty(self.globals) }
    pub open spec fn exports_seq(&self) -> Seq<Export> { seq_or_empty(self.exports) }
    pub open spec fn elements_seq(&self) -> Seq<ElementSegment> { seq_or_empty(self.elements) }
    pub open spec fn code_seq(&self) -> Seq<Body> { seq_or_empty(self.code) }
    pub open spec fn data_seq(&self) -> Seq<DataSegment> { seq_or_empty(self.data) }

    /// The type indices of the function imports, in import order: the
    /// function import with function index `i` has type `function_import_types()[i]`.
    pub open spec fn function_import_types(&self) -> Seq<u32> {
        func_import_types(self.imports_seq())
    }

    /// How many function imports there are: table, memory and global
    /// imports take no place in the function index space.
    pub open spec fn nimports(&self) -> int { self.function_import_types().len() as int }

    /// Size of the function index space: function imports, then defined
    /// functions.
    pub open spec fn nfunctions(&self) -> int {
        (self.function_import_types().len() + self.functions_seq().len()) as int
    }

    /// Every section and every index space is short enough that no index of
    /// it, and no new index, is `u32::MAX`.
    pub open spec fn within_limits(&self) -> bool {
        &&& self.nfunctions() < u32::MAX
        &&& self.types_seq().len() < u32::MAX
        &&& self.tables_seq().len() < u32::MAX
        &&& self.memories_seq().len() < u32::MAX
        &&& self.globals_seq().len() < u32::MAX
        &&& self.exports_seq().len() < u32::MAX
        &&& self.code_seq().len() < u32::MAX
    }

    /// The item names an entry that is present in the module.
    pub open spec fn resolves(&self, it: Item) -> bool {
        match it {
            Item::Function(i) => i < self.nfunctions() && (i >= self.nimports() ==> i
                - self.nimports() < self.code_seq().len()),
            Item::Type(i) => i < self.types_seq().len(),
            Item::Table(i) => i < self.tables_seq().len(),
            Item::Memory(i) => i < self.memories_seq().len(),
            Item::Global(i) => i < self.globals_seq().len(),
        }
    }

    /// The references that marking a resolving item follows.
    pub open spec fn edges(&self, it: Item) -> Set<Item> {
        match it {
            Item::Function(i) => if i < self.nimports() {
                set![Item::Type(self.function_import_types()[i as int])]
            } else {
                let d = i - self.nimports();
                set![Item::Type(self.functions_seq()[d])].union(
                    expr_refs(self.code_seq()[d].code@),
                )
            },
            Item::Global(g) => expr_refs(self.globals_seq()[g as int].init@),
            _ => Set::empty(),
        }
    }

    /// What the export at position `e` points to.
    pub open spec fn export_item(&self, e: int) -> Item {
        target_item(self.exports_seq()[e].target)
    }

    /// The references held by data segments, element segments and the start
    /// function: these are live whatever the exports are.
    pub open spec fn fixed_roots(&self) -> Set<Item> {
        Set::new(
            |it: Item|
                {
                    ||| exists|k: int|
                        0 <= k < self.data_seq().len() && #[trigger] data_refs(
                            self.data_seq()[k],
                        ).contains(it)
                    ||| exists|k: int|
                        0 <= k < self.elements_seq().len() && #[trigger] element_refs(
                            self.elements_seq()[k],
                        ).contains(it)
                    ||| (match it {
                        Item::Table(t) => t < self.tables_seq().len(),
                        _ => false,
                    })
                    ||| self.start == Some(it->Function_0) && it is Function
                },
        )
    }

    /// The roots of the walk: the fixed roots and the targets of the exports
    /// whose field name is not blacklisted.
    pub open spec fn roots(&self, blacklist: Seq<Seq<char>>) -> Set<Item> {
        self.fixed_roots().union(
            Set::new(
                |it: Item|
                    exists|e: int|
                        0 <= e < self.exports_seq().len() && !blacklist.contains(
                            self.exports_seq()[e].field@,
                        ) && #[trigger] self.export_item(e) == it,
            ),
        )
    }

    /// `s` holds the roots and everything that its resolving members reach.
    pub open spec fn closed(&self, blacklist: Seq<Seq<char>>, s: Set<Item>) -> bool {
        &&& self.roots(blacklist).subset_of(s)
        &&& forall|it: Item| #[trigger]
            s.contains(it) && self.resolves(it) ==> self.edges(it).subset_of(s)
    }

    /// Every index that any entry holds names an entry that is present.
    pub open spec fn refs_resolve(&self) -> bool {
        &&& forall|i: int|
            0 <= i < self.imports_seq().len() && (#[trigger] self.imports_seq()[i]).desc is Function
                ==> self.resolves(Item::Type(self.imports_seq()[i].desc->Function_0))
        &&& forall|d: int|
            0 <= d < self.functions_seq().len() ==> self.resolves(
                Item::Type(#[trigger] self.functions_seq()[d]),
            )
        &&& forall|g: int, it: Item|
            0 <= g < self.globals_seq().len() && #[trigger] expr_refs(
                self.globals_seq()[g].init@,
            ).contains(it) ==> self.resolves(it)
        &&& forall|e: int|
            0 <= e < self.exports_seq().len() ==> self.resolves(#[trigger] self.export_item(e))
        &&& forall|it: Item| #[trigger] self.fixed_roots().contains(it) ==> self.resolves(it)
        &&& forall|d: int, it: Item|
            0 <= d < self.code_seq().len() && #[trigger] expr_refs(
                self.code_seq()[d].code@,
            ).contains(it) ==> self.resolves(it)
    }

    /// `it` lies in every closed set: the walk cannot avoid it.
    pub open spec fn reached(&self, blacklist: Seq<Seq<char>>, it: Item) -> bool {
        forall|s: Set<Item>| #[trigger] self.closed(blacklist, s) ==> s.contains(it)
    }
}

/// The type indices of the function imports among `s`, in order.
pub open spec fn func_import_types(s: Seq<Import>) -> Seq<u32>
    decreases s.len(),
{
    if s.len() == 0 {
        Seq::empty()
    } else {
        let rest = func_import_types(s.drop_last());
        match s.last().desc {
            ImportDesc::Function(t) => rest.push(t),
            _ => rest,
        }
    }
}

/// The function index of the import at position `p`, if it is a function
/// import: how many function imports stand before it.
pub open spec fn import_index(s: Seq<Import>, p: int) -> int {
    func_import_types(s.subrange(0, p)).len() as int
}

pub open spec fn target_item(t: ExportTarget) -> Item {
    match t {
        ExportTarget::Function(i) => Item::Function(i),
        ExportTarget::Table(i) => Item::Table(i),
        ExportTarget::Memory(i) => Item::Memory(i),
        ExportTarget::Global(i) => Item::Global(i),
    }
}

/// The entity an instruction names, if any.
pub open spec fn instr_ref(i: Instr) -> Option<Item> {
    match i {
        Instr::Call(f) => Some(Item::Function(f)),
        Instr::CallIndirect(t, _) => Some(Item::Type(t)),
        Instr::GetGlobal(g) => Some(Item::Global(g)),
        Instr::SetGlobal(g) => Some(Item::Global(g)),
        Instr::Plain(_) => None,
    }
}

/// Every entity named by an instruction sequence.
pub open spec fn expr_refs(code: Seq<Instr>) -> Set<Item> {
    Set::new(
        |it: Item| exists|k: int| 0 <= k < code.len() && #[trigger] instr_ref(code[k]) == Some(it),
    )
}

pub open spec fn offset_refs(offset: Option<Vec<Instr>>) -> Set<Item> {
    match offset {
        Some(code) => expr_refs(code@),
        None => Set::empty(),
    }
}

pub open spec fn data_refs(d: DataSegment) -> Set<Item> {
    set![Item::Memory(d.memory)].union(offset_refs(d.offset))
}

pub open spec fn element_refs(e: ElementSegment) -> Set<Item> {
    set![Item::Table(e.table)].union(offset_refs(e.offset)).union(
        Set::new(|it: Item| exists|k: int| 0 <= k < e.members@.len() && it == Item::Function(#[trigger] e.members@[k])),
    )
}

} // verus!
