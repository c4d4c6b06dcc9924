use parity_wasm::elements::{
    FunctionType, GlobalType, Instruction, Local, MemoryType, TableType, Type, ValueType,
};
use wasm_gc::analyze::{analyze, is_blacklisted, same_text};
use wasm_gc::model::{
    Body, DataSegment, ElementSegment, Export, ExportTarget, Global, Import, ImportDesc, Instr,
    Item, Module,
};
use wasm_gc::numbering::{translation, DEAD};
use wasm_gc::shrink::{shrink, within_limits, ShrinkError};

fn empty_module() -> Module {
    Module {
        types: None,
        imports: None,
        functions: None,
        tables: None,
        memories: None,
        globals: None,
        exports: None,
        start: None,
        elements: None,
        code: None,
        data: None,
    }
}

fn sig(params: Vec<ValueType>, results: Vec<ValueType>) -> Type {
    Type::Function(FunctionType::new(params, results))
}

fn body(code: Vec<Instr>) -> Body {
    Body { locals: Vec::new(), code }
}

fn plain(i: Instruction) -> Instr {
    Instr::Plain(i)
}

fn export(name: &str, target: ExportTarget) -> Export {
    Export { field: name.to_string(), target }
}

fn unused_helper() -> Module {
    let mut m = empty_module();
    m.types = Some(vec![sig(vec![], vec![ValueType::I32])]);
    m.functions = Some(vec![0, 0]);
    m.code = Some(vec![
        body(vec![plain(Instruction::I32Const(7)), plain(Instruction::End)]),
        body(vec![plain(Instruction::I32Const(42)), plain(Instruction::End)]),
    ]);
    m.exports = Some(vec![export("run", ExportTarget::Function(0))]);
    m
}

fn indirect_call() -> Module {
    let mut m = empty_module();
    m.types = Some(vec![
        sig(vec![], vec![ValueType::I32]),
        sig(vec![ValueType::I32], vec![ValueType::I32]),
    ]);
    m.functions = Some(vec![0]);
    m.tables = Some(vec![TableType::new(1, None)]);
    m.exports = Some(vec![export("e", ExportTarget::Function(0))]);
    m.elements = Some(vec![ElementSegment {
        table: 0,
        offset: Some(vec![plain(Instruction::I32Const(0)), plain(Instruction::End)]),
        members: vec![],
    }]);
    m.code = Some(vec![body(vec![
        plain(Instruction::I32Const(0)),
        Instr::CallIndirect(1, 0),
        plain(Instruction::End),
    ])]);
    m
}

fn global_chain() -> Module {
    let mut m = empty_module();
    m.types = Some(vec![sig(vec![], vec![])]);
    m.functions = Some(vec![0]);
    m.globals = Some(vec![
        Global {
            ty: GlobalType::new(ValueType::I32, false),
            init: vec![plain(Instruction::I32Const(0)), plain(Instruction::End)],
        },
        Global {
            ty: GlobalType::new(ValueType::I32, false),
            init: vec![Instr::GetGlobal(0), plain(Instruction::End)],
        },
    ]);
    m.exports = Some(vec![export("e", ExportTarget::Function(0))]);
    m.code = Some(vec![body(vec![
        Instr::GetGlobal(1),
        plain(Instruction::Drop),
        plain(Instruction::End),
    ])]);
    m
}

fn element_root() -> Module {
    let mut m = empty_module();
    m.types = Some(vec![sig(vec![], vec![])]);
    m.functions = Some(vec![0, 0]);
    m.tables = Some(vec![TableType::new(1, None)]);
    m.exports = Some(vec![export("e", ExportTarget::Function(1))]);
    m.elements = Some(vec![ElementSegment {
        table: 0,
        offset: Some(vec![plain(Instruction::I32Const(0)), plain(Instruction::End)]),
        members: vec![0],
    }]);
    m.code = Some(vec![
        body(vec![plain(Instruction::End)]),
        body(vec![plain(Instruction::End)]),
    ]);
    m
}

/// An import, a dead function in front, and a live chain behind it.
fn shifted() -> Module {
    let mut m = empty_module();
    m.types = Some(vec![sig(vec![ValueType::I64], vec![]), sig(vec![], vec![])]);
    m.imports = Some(vec![
        Import {
            module: "env".to_string(),
            field: "log".to_string(),
            desc: ImportDesc::Function(1),
        },
        Import {
            module: "env".to_string(),
            field: "unused".to_string(),
            desc: ImportDesc::Function(0),
        },
    ]);
    m.functions = Some(vec![0, 1, 1]);
    m.memories = Some(vec![MemoryType::new(1, None), MemoryType::new(2, None)]);
    m.globals = Some(vec![
        Global {
            ty: GlobalType::new(ValueType::I32, true),
            init: vec![plain(Instruction::I32Const(1)), plain(Instruction::End)],
        },
        Global {
            ty: GlobalType::new(ValueType::I32, true),
            init: vec![plain(Instruction::I32Const(2)), plain(Instruction::End)],
        },
    ]);
    m.exports = Some(vec![
        export("go", ExportTarget::Function(3)),
        export("mem", ExportTarget::Memory(1)),
        export("memcpy", ExportTarget::Function(2)),
        export("g", ExportTarget::Global(1)),
    ]);
    m.code = Some(vec![
        body(vec![Instr::Call(0), plain(Instruction::End)]),
        body(vec![Instr::Call(4), Instr::SetGlobal(1), plain(Instruction::End)]),
        Body {
            locals: vec![Local::new(1, ValueType::I32)],
            code: vec![Instr::Call(0), plain(Instruction::End)],
        },
    ]);
    m
}

fn names(v: &[&str]) -> Vec<String> {
    v.iter().map(|s| s.to_string()).collect()
}

#[test]
fn unused_helper_is_removed() {
    let mut m = unused_helper();
    assert!(shrink(&mut m, &Vec::new()).is_ok());
    assert_eq!(m.functions, Some(vec![0]));
    assert_eq!(m.types, Some(vec![sig(vec![], vec![ValueType::I32])]));
    assert_eq!(
        m.code,
        Some(vec![body(vec![plain(Instruction::I32Const(7)), plain(Instruction::End)])])
    );
    assert_eq!(m.exports, Some(vec![export("run", ExportTarget::Function(0))]));
}

#[test]
fn blacklisted_root_empties_the_module() {
    let mut m = unused_helper();
    assert!(shrink(&mut m, &names(&["run"])).is_ok());
    assert_eq!(m, empty_module());
}

#[test]
fn indirect_call_keeps_its_type() {
    let mut m = indirect_call();
    assert!(shrink(&mut m, &Vec::new()).is_ok());
    assert_eq!(m, indirect_call());
}

#[test]
fn global_chain_survives_in_order() {
    let mut m = global_chain();
    assert!(shrink(&mut m, &Vec::new()).is_ok());
    assert_eq!(m, global_chain());
    let globals = m.globals.unwrap();
    assert_eq!(globals.len(), 2);
    assert_eq!(globals[1].init[0], Instr::GetGlobal(0));
}

#[test]
fn element_segment_is_a_root() {
    let mut m = element_root();
    assert!(shrink(&mut m, &Vec::new()).is_ok());
    assert_eq!(m, element_root());
    assert_eq!(m.elements.unwrap()[0].members, vec![0]);
}

#[test]
fn second_run_changes_nothing() {
    let builders: Vec<fn() -> Module> =
        vec![unused_helper, indirect_call, global_chain, element_root, shifted];
    for build in builders {
        for blacklist in [Vec::new(), names(&["run", "memcpy"])] {
            let mut once = build();
            shrink(&mut once, &blacklist).unwrap();
            let mut twice = build();
            shrink(&mut twice, &blacklist).unwrap();
            shrink(&mut twice, &blacklist).unwrap();
            assert_eq!(once, twice);
        }
    }
}

#[test]
fn survivors_are_renumbered() {
    let mut m = shifted();
    let a = shrink(&mut m, &names(&["memcpy"])).unwrap();
    // function space: import 0 (log), import 1 (unused), 2, 3, 4
    assert_eq!(a.functions, vec![true, false, false, true, true]);
    assert_eq!(a.imports, vec![true, false]);
    assert_eq!(a.codes, vec![false, true, true]);
    assert_eq!(a.exports, vec![true, true, false, true]);
    assert_eq!(m.types, Some(vec![sig(vec![], vec![])]));
    assert_eq!(
        m.imports,
        Some(vec![Import {
            module: "env".to_string(),
            field: "log".to_string(),
            desc: ImportDesc::Function(0),
        }])
    );
    assert_eq!(m.functions, Some(vec![0, 0]));
    assert_eq!(m.memories, Some(vec![MemoryType::new(2, None)]));
    assert_eq!(
        m.globals,
        Some(vec![Global {
            ty: GlobalType::new(ValueType::I32, true),
            init: vec![plain(Instruction::I32Const(2)), plain(Instruction::End)],
        }])
    );
    assert_eq!(
        m.exports,
        Some(vec![
            export("go", ExportTarget::Function(1)),
            export("mem", ExportTarget::Memory(0)),
            export("g", ExportTarget::Global(0)),
        ])
    );
    assert_eq!(
        m.code,
        Some(vec![
            body(vec![Instr::Call(2), Instr::SetGlobal(0), plain(Instruction::End)]),
            Body {
                locals: vec![Local::new(1, ValueType::I32)],
                code: vec![Instr::Call(0), plain(Instruction::End)],
            },
        ])
    );
}

#[test]
fn start_and_data_are_roots() {
    let mut m = shifted();
    m.exports = None;
    m.start = Some(4);
    m.data = Some(vec![DataSegment {
        memory: 1,
        offset: Some(vec![Instr::GetGlobal(1), plain(Instruction::End)]),
        value: vec![1, 2, 3],
    }]);
    shrink(&mut m, &Vec::new()).unwrap();
    assert_eq!(m.start, Some(1));
    assert_eq!(m.functions, Some(vec![0]));
    assert_eq!(m.memories, Some(vec![MemoryType::new(2, None)]));
    assert_eq!(
        m.data,
        Some(vec![DataSegment {
            memory: 0,
            offset: Some(vec![Instr::GetGlobal(0), plain(Instruction::End)]),
            value: vec![1, 2, 3],
        }])
    );
    assert_eq!(m.globals.map(|g| g.len()), Some(1));
    assert_eq!(m.exports, None);
}

#[test]
fn all_roots_blacklisted_leaves_no_list_section() {
    let mut m = shifted();
    shrink(&mut m, &names(&["go", "mem", "memcpy", "g"])).unwrap();
    assert_eq!(m, empty_module());
}

#[test]
fn blacklisted_entity_reached_otherwise_survives() {
    let mut m = element_root();
    m.exports = Some(vec![
        export("e", ExportTarget::Function(1)),
        export("main", ExportTarget::Function(0)),
    ]);
    shrink(&mut m, &names(&["main"])).unwrap();
    assert_eq!(m.functions, Some(vec![0, 0]));
    assert_eq!(m.exports, Some(vec![export("e", ExportTarget::Function(1))]));
}

#[test]
fn unresolved_call_fails_and_leaves_module() {
    let mut m = unused_helper();
    m.code = Some(vec![
        body(vec![Instr::Call(9), plain(Instruction::End)]),
        body(vec![plain(Instruction::End)]),
    ]);
    let r = shrink(&mut m, &Vec::new());
    assert_eq!(r.err(), Some(ShrinkError::Unresolved(Item::Function(9))));
    assert_eq!(m.functions, Some(vec![0, 0]));
}

#[test]
fn missing_body_is_unresolved() {
    let mut m = unused_helper();
    m.code = None;
    assert_eq!(
        shrink(&mut m, &Vec::new()).err(),
        Some(ShrinkError::Unresolved(Item::Function(0)))
    );
}

#[test]
fn unresolved_export_target() {
    let mut m = empty_module();
    m.exports = Some(vec![export("g", ExportTarget::Global(0))]);
    let r = analyze(&m, &Vec::new());
    assert_eq!(r.err(), Some(Item::Global(0)));
}

#[test]
fn translation_skips_dead_entries() {
    assert_eq!(translation(&vec![true, false, true, true, false]), vec![0, DEAD, 1, 2, DEAD]);
    assert_eq!(translation(&vec![]), Vec::<u32>::new());
    assert_eq!(translation(&vec![false, false]), vec![DEAD, DEAD]);
}

#[test]
fn text_comparison() {
    assert!(same_text("memcpy", "memcpy"));
    assert!(!same_text("memcpy", "memmove"));
    assert!(!same_text("main", "mai"));
    assert!(same_text("", ""));
    assert!(is_blacklisted(&names(&["a", "main"]), "main"));
    assert!(!is_blacklisted(&names(&["a", "main"]), "Main"));
    assert!(!is_blacklisted(&Vec::new(), "main"));
}

#[test]
fn limits_of_an_ordinary_module() {
    assert!(within_limits(&shifted()));
    assert!(within_limits(&empty_module()));
}

fn len<T>(s: &Option<Vec<T>>) -> usize {
    s.as_ref().map_or(0, |v| v.len())
}

/// Every index held anywhere in `m` names an entry of `m`.
fn all_indices_resolve(m: &Module) -> bool {
    let nfunc = m
        .imports
        .iter()
        .flatten()
        .filter(|i| matches!(i.desc, ImportDesc::Function(_)))
        .count()
        + len(&m.functions);
    let ok_instr = |i: &Instr| match *i {
        Instr::Call(f) => (f as usize) < nfunc,
        Instr::CallIndirect(t, _) => (t as usize) < len(&m.types),
        Instr::GetGlobal(g) | Instr::SetGlobal(g) => (g as usize) < len(&m.globals),
        Instr::Plain(_) => true,
    };
    let ok_offset = |o: &Option<Vec<Instr>>| o.as_ref().map_or(true, |c| c.iter().all(ok_instr));
    m.imports.iter().flatten().all(|i| match i.desc {
        ImportDesc::Function(t) => (t as usize) < len(&m.types),
        _ => true,
    }) && m.functions.iter().flatten().all(|t| (*t as usize) < len(&m.types))
        && m.globals.iter().flatten().all(|g| g.init.iter().all(ok_instr))
        && m.exports.iter().flatten().all(|e| match e.target {
            ExportTarget::Function(i) => (i as usize) < nfunc,
            ExportTarget::Table(i) => (i as usize) < len(&m.tables),
            ExportTarget::Memory(i) => (i as usize) < len(&m.memories),
            ExportTarget::Global(i) => (i as usize) < len(&m.globals),
        })
        && m.start.map_or(true, |f| (f as usize) < nfunc)
        && m.elements.iter().flatten().all(|e| {
            (e.table as usize) < len(&m.tables)
                && ok_offset(&e.offset)
                && e.members.iter().all(|f| (*f as usize) < nfunc)
        })
        && m.code.iter().flatten().all(|b| b.code.iter().all(ok_instr))
        && m.data.iter().flatten().all(|d| (d.memory as usize) < len(&m.memories) && ok_offset(&d.offset))
}

#[test]
fn no_index_dangles_after_shrink() {
    let builders: Vec<fn() -> Module> =
        vec![unused_helper, indirect_call, global_chain, element_root, shifted];
    for build in builders {
        for blacklist in [Vec::new(), names(&["run", "memcpy", "go"])] {
            let mut m = build();
            shrink(&mut m, &blacklist).unwrap();
            assert!(all_indices_resolve(&m));
        }
    }
}

#[test]
fn live_code_names_only_live_entities() {
    let m = shifted();
    let a = analyze(&m, &names(&["memcpy"])).unwrap();
    // both imports of this module are function imports
    let nimports = 2;
    for (d, b) in m.code.as_ref().unwrap().iter().enumerate() {
        if !a.functions[nimports + d] {
            continue;
        }
        assert!(a.codes[d]);
        for i in &b.code {
            match *i {
                Instr::Call(f) => assert!(a.functions[f as usize]),
                Instr::CallIndirect(t, _) => assert!(a.types[t as usize]),
                Instr::GetGlobal(g) | Instr::SetGlobal(g) => assert!(a.globals[g as usize]),
                Instr::Plain(_) => {}
            }
        }
    }
    // the blacklisted export's function is reached from nowhere else
    assert!(!a.functions[2]);
    assert!(!a.codes[0]);
    // every table is a root
    let mut t = indirect_call();
    t.exports = None;
    t.elements = None;
    let a = analyze(&t, &Vec::new()).unwrap();
    assert_eq!(a.tables, vec![true]);
    assert_eq!(a.functions, vec![false]);
}

#[test]
fn exported_entities_are_the_same_after_shrink() {
    let before = shifted();
    let mut m = shifted();
    shrink(&mut m, &names(&["memcpy"])).unwrap();
    let exports = m.exports.as_ref().unwrap();
    for e in before.exports.as_ref().unwrap() {
        if e.field == "memcpy" {
            assert!(exports.iter().all(|x| x.field != "memcpy"));
            continue;
        }
        let kept = exports.iter().find(|x| x.field == e.field).unwrap();
        match (e.target, kept.target) {
            (ExportTarget::Global(old), ExportTarget::Global(new)) => {
                let g0 = &before.globals.as_ref().unwrap()[old as usize];
                let g1 = &m.globals.as_ref().unwrap()[new as usize];
                assert_eq!(g0.ty, g1.ty);
                assert_eq!(g0.init, g1.init);
            }
            (ExportTarget::Memory(old), ExportTarget::Memory(new)) => {
                assert_eq!(
                    before.memories.as_ref().unwrap()[old as usize],
                    m.memories.as_ref().unwrap()[new as usize]
                );
            }
            (ExportTarget::Function(old), ExportTarget::Function(new)) => {
                let d0 = old as usize - 2;
                let d1 = new as usize - 1;
                assert_eq!(
                    before.code.as_ref().unwrap()[d0].locals,
                    m.code.as_ref().unwrap()[d1].locals
                );
                assert_eq!(m.code.as_ref().unwrap()[d1].code.len(), before.code.as_ref().unwrap()[d0].code.len());
            }
            _ => panic!("export changed kind"),
        }
    }
}

fn import(field: &str, desc: ImportDesc) -> Import {
    Import { module: "env".to_string(), field: field.to_string(), desc }
}

/// A memory and a global import stand before two function imports.
fn mixed_imports() -> Module {
    let mut m = empty_module();
    m.types = Some(vec![sig(vec![ValueType::I32], vec![]), sig(vec![], vec![])]);
    m.imports = Some(vec![
        import("mem", ImportDesc::Memory(MemoryType::new(1, None))),
        import("g", ImportDesc::Global(GlobalType::new(ValueType::I32, false))),
        import("f", ImportDesc::Function(0)),
        import("h", ImportDesc::Function(0)),
    ]);
    m.functions = Some(vec![1]);
    m.exports = Some(vec![export("go", ExportTarget::Function(2))]);
    m.code = Some(vec![body(vec![
        plain(Instruction::I32Const(3)),
        Instr::Call(1),
        plain(Instruction::End),
    ])]);
    m
}

#[test]
fn non_function_imports_take_no_function_index() {
    let m = mixed_imports();
    let a = analyze(&m, &Vec::new()).unwrap();
    // function space: f (0), h (1), the defined function (2)
    assert_eq!(a.functions, vec![false, true, true]);
    assert_eq!(a.imports, vec![true, true, false, true]);
    assert_eq!(a.codes, vec![true]);
    assert_eq!(a.types, vec![true, true]);

    let mut m = mixed_imports();
    shrink(&mut m, &Vec::new()).unwrap();
    assert_eq!(
        m.imports,
        Some(vec![
            import("mem", ImportDesc::Memory(MemoryType::new(1, None))),
            import("g", ImportDesc::Global(GlobalType::new(ValueType::I32, false))),
            import("h", ImportDesc::Function(0)),
        ])
    );
    assert_eq!(m.functions, Some(vec![1]));
    assert_eq!(
        m.code,
        Some(vec![body(vec![
            plain(Instruction::I32Const(3)),
            Instr::Call(0),
            plain(Instruction::End),
        ])])
    );
    assert_eq!(m.exports, Some(vec![export("go", ExportTarget::Function(1))]));
    assert!(all_indices_resolve(&m));

    let mut twice = mixed_imports();
    shrink(&mut twice, &Vec::new()).unwrap();
    shrink(&mut twice, &Vec::new()).unwrap();
    assert_eq!(m, twice);
}

#[test]
fn global_import_alone_has_no_function_index() {
    let mut m = empty_module();
    m.imports = Some(vec![import("g", ImportDesc::Global(GlobalType::new(ValueType::I32, false)))]);
    let a = analyze(&m, &Vec::new()).unwrap();
    assert_eq!(a.functions, Vec::<bool>::new());
    assert_eq!(a.imports, vec![true]);
    let r = wasm_gc::remap::Renumbering::new(&a);
    assert_eq!(r.functions.len(), 0);
    // a call to function 0 names nothing here
    m.start = Some(0);
    assert_eq!(
        shrink(&mut m, &Vec::new()).err(),
        Some(ShrinkError::Unresolved(Item::Function(0)))
    );
}
