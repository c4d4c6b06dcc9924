//! Where function imports stand: the function index space counts only the
//! imports of functions, so an import's function index is the number of
//! function imports before it.
use vstd::prelude::*;
use crate::model::{func_import_types, import_index, seq_or_empty, Import, ImportDesc};
use crate::numbering::keep;

verus! {

/// Whether the import at position `p` is kept, given the live flags of the
/// function index space: a function import is kept when its function is
/// live; table, memory and global imports are always kept.
pub open spec fn import_live(s: Seq<Import>, functions: Seq<bool>, p: int) -> bool {
    if s[p].desc is Function {
        functions[import_index(s, p)]
    } else {
        true
    }
}

/// The function imports of a prefix are a prefix of the function imports.
pub proof fn lemma_import_types_prefix(s: Seq<Import>, k: int)
    requires
        0 <= k <= s.len(),
    ensures
        func_import_types(s.subrange(0, k)).len() <= func_import_types(s).len(),
        forall|j: int|
            0 <= j < func_import_types(s.subrange(0, k)).len() ==> #[trigger] func_import_types(s)[j]
                == func_import_types(s.subrange(0, k))[j],
    decreases s.len(),
{
    if k < s.len() {
        assert(s.drop_last().subrange(0, k) =~= s.subrange(0, k));
        lemma_import_types_prefix(s.drop_last(), k);
    } else {
        assert(s.subrange(0, k) =~= s);
    }
}

/// One more import adds its type when it is a function import.
pub proof fn lemma_import_types_step(s: Seq<Import>, p: int)
    requires
        0 <= p < s.len(),
    ensures
        func_import_types(s.subrange(0, p + 1)) == match s[p].desc {
            ImportDesc::Function(t) => func_import_types(s.subrange(0, p)).push(t),
            _ => func_import_types(s.subrange(0, p)),
        },
{
    assert(s.subrange(0, p + 1).drop_last() =~= s.subrange(0, p));
    assert(s.subrange(0, p + 1).last() == s[p]);
}

/// A function import at `p` has function index `import_index(s, p)`.
pub proof fn lemma_import_index(s: Seq<Import>, p: int)
    requires
        0 <= p < s.len(),
        s[p].desc is Function,
    ensures
        import_index(s, p) < func_import_types(s).len(),
        func_import_types(s)[import_index(s, p)] == s[p].desc->Function_0,
{
    lemma_import_types_step(s, p);
    lemma_import_types_prefix(s, p + 1);
}

/// Removing imports by `g`, where a function import is kept exactly when
/// its flag in `ff` is set, removes the same function imports.
pub proof fn lemma_import_types_keep(s: Seq<Import>, g: Seq<bool>, ff: Seq<bool>)
    requires
        s.len() == g.len(),
        ff.len() == func_import_types(s).len(),
        forall|p: int| 0 <= p < s.len() && (#[trigger] s[p]).desc is Function ==> g[p] == ff[import_index(s, p)],
    ensures
        func_import_types(keep(s, g)) == keep(func_import_types(s), ff),
    decreases s.len(),
{
    if s.len() == 0 {
        assert(keep(func_import_types(s), ff) =~= Seq::<u32>::empty());
    } else {
        let n = s.len() - 1;
        let s1 = s.drop_last();
        let g1 = g.subrange(0, n);
        let fs = func_import_types(s);
        let fs1 = func_import_types(s1);
        assert(s.subrange(0, n) =~= s1);
        assert forall|p: int| 0 <= p < n implies import_index(s1, p) == import_index(s, p) by {
            assert(s1.subrange(0, p) =~= s.subrange(0, p));
        }
        let r = keep(s1, g1);
        if s[n].desc is Function {
            let ff1 = ff.subrange(0, fs.len() - 1);
            assert forall|p: int| 0 <= p < s1.len() && (#[trigger] s1[p]).desc is Function implies g1[p]
                == ff1[import_index(s1, p)] by {
                assert(s[p] == s1[p]);
                lemma_import_index(s1, p);
            }
            lemma_import_types_keep(s1, g1, ff1);
            assert(fs.drop_last() =~= fs1);
            if g[n] {
                assert(keep(s, g) == r.push(s[n]));
                assert(r.push(s[n]).drop_last() =~= r);
            }
        } else {
            assert forall|p: int| 0 <= p < s1.len() && (#[trigger] s1[p]).desc is Function implies g1[p]
                == ff[import_index(s1, p)] by {
                assert(s[p] == s1[p]);
            }
            lemma_import_types_keep(s1, g1, ff);
            if g[n] {
                assert(keep(s, g) == r.push(s[n]));
                assert(r.push(s[n]).drop_last() =~= r);
            }
        }
    }
}

/// The type indices of the function imports, in order.
pub fn function_import_types(imports: &Option<Vec<Import>>) -> (r: Vec<u32>)
    ensures
        r@ == func_import_types(seq_or_empty(*imports)),
{
    let mut r: Vec<u32> = Vec::new();
    match imports {
        Some(v) => {
            let mut i: usize = 0;
            assert(v@.subrange(0, 0) =~= Seq::<Import>::empty());
            while i < v.len()
                invariant
                    i <= v@.len(),
                    r@ == func_import_types(v@.subrange(0, i as int)),
                decreases v@.len() - i,
            {
                proof {
                    lemma_import_types_step(v@, i as int);
                }
                match &v[i].desc {
                    ImportDesc::Function(t) => r.push(*t),
                    _ => {},
                }
                i = i + 1;
            }
            assert(v@.subrange(0, v@.len() as int) =~= v@);
        },
        None => {},
    }
    r
}

/// The import flags that go with the function flags `functions`.
pub fn import_flags(imports: &Option<Vec<Import>>, functions: &Vec<bool>) -> (r: Vec<bool>)
    requires
        func_import_types(seq_or_empty(*imports)).len() <= functions@.len(),
    ensures
        r@.len() == seq_or_empty(*imports).len(),
        forall|p: int|
            0 <= p < r@.len() ==> #[trigger] r@[p] == import_live(seq_or_empty(*imports), functions@, p),
{
    let ghost s = seq_or_empty(*imports);
    let mut r: Vec<bool> = Vec::new();
    match imports {
        Some(v) => {
            let mut i: usize = 0;
            let mut c: usize = 0;
            let nf: usize = functions.len();
            assert(v@.subrange(0, 0) =~= Seq::<Import>::empty());
            while i < v.len()
                invariant
                    s == v@,
                    func_import_types(s).len() <= functions@.len(),
                    nf == functions@.len(),
                    i <= v@.len(),
                    r@.len() == i,
                    c == import_index(s, i as int),
                    forall|p: int| 0 <= p < i ==> #[trigger] r@[p] == import_live(s, functions@, p),
                decreases v@.len() - i,
            {
                proof {
                    lemma_import_types_step(s, i as int);
                    lemma_import_types_prefix(s, i as int + 1);
                }
                match &v[i].desc {
                    ImportDesc::Function(_) => {
                        proof {
                            lemma_import_index(s, i as int);
                        }
                        r.push(functions[c]);
                        c = c + 1;
                    },
                    _ => {
                        r.push(true);
                    },
                }
                i = i + 1;
            }
        },
        None => {},
    }
    r
}

} // verus!
