//! Old-to-new numbering of one index space: a survivor keeps its place
//! among the survivors, and a removed entry maps to `DEAD`.
use vstd::prelude::*;

verus! {

/// The translation of an index whose entry was removed.
pub const DEAD: u32 = 0xffff_ffff;

/// How many of the first `i` flags are set: the new index of a survivor `i`.
pub open spec fn rank(f: Seq<bool>, i: int) -> nat
    decreases i,
{
    if i <= 0 {
        0
    } else {
        rank(f, i - 1) + if f[i - 1] { 1nat } else { 0nat }
    }
}

/// How many flags are set.
pub open spec fn count(f: Seq<bool>) -> nat {
    rank(f, f.len() as int)
}

/// The entries of `s` whose flag is set, in their order.
pub open spec fn keep<T>(s: Seq<T>, f: Seq<bool>) -> Seq<T>
    decreases s.len(),
{
    if s.len() == 0 {
        Seq::empty()
    } else {
        let rest = keep(s.drop_last(), f.subrange(0, s.len() - 1));
        if f[s.len() - 1] {
            rest.push(s.last())
        } else {
            rest
        }
    }
}

/// The translation of index `i` for the flags `f`.
pub open spec fn translated(f: Seq<bool>, i: int) -> u32 {
    if f[i] {
        rank(f, i) as u32
    } else {
        DEAD
    }
}

pub proof fn lemma_rank_bounds(f: Seq<bool>, i: int, j: int)
    requires
        0 <= i <= j <= f.len(),
    ensures
        rank(f, i) <= rank(f, j),
        rank(f, j) - rank(f, i) <= j - i,
        rank(f, i) <= i,
    decreases j,
{
    if j > i {
        lemma_rank_bounds(f, i, j - 1);
    }
    if i > 0 {
        lemma_rank_bounds(f, i - 1, i - 1);
    }
}

pub proof fn lemma_rank_prefix(f: Seq<bool>, g: Seq<bool>, i: int)
    requires
        0 <= i <= f.len(),
        i <= g.len(),
        forall|k: int| 0 <= k < i ==> f[k] == g[k],
    ensures
        rank(f, i) == rank(g, i),
    decreases i,
{
    if i > 0 {
        lemma_rank_prefix(f, g, i - 1);
    }
}

/// Setting one unset flag raises the rank of every later index by one.
pub proof fn lemma_rank_set(f: Seq<bool>, i: int, j: int)
    requires
        0 <= i < f.len(),
        0 <= j <= f.len(),
        !f[i],
    ensures
        rank(f.update(i, true), j) == rank(f, j) + if j > i { 1nat } else { 0nat },
    decreases j,
{
    if j > 0 {
        lemma_rank_set(f, i, j - 1);
    }
}

pub proof fn lemma_count_set(f: Seq<bool>, i: int)
    requires
        0 <= i < f.len(),
        !f[i],
    ensures
        count(f.update(i, true)) == count(f) + 1,
        count(f) < f.len(),
{
    lemma_rank_set(f, i, f.len() as int);
    lemma_rank_bounds(f.update(i, true), f.len() as int, f.len() as int);
}

/// A survivor at `i` stands at `rank(f, i)` among the kept entries.
pub proof fn lemma_keep<T>(s: Seq<T>, f: Seq<bool>)
    requires
        s.len() == f.len(),
    ensures
        keep(s, f).len() == count(f),
        forall|i: int| 0 <= i < s.len() && f[i] ==> #[trigger] keep(s, f)[rank(f, i) as int] == s[i],
    decreases s.len(),
{
    if s.len() > 0 {
        let n = s.len() - 1;
        let g = f.subrange(0, n);
        lemma_keep(s.drop_last(), g);
        lemma_rank_prefix(f, g, n);
        assert forall|i: int| 0 <= i < s.len() && f[i] implies #[trigger] keep(s, f)[rank(f, i) as int] == s[i] by {
            if i < n {
                lemma_rank_prefix(f, g, i);
                lemma_rank_bounds(g, i + 1, n);
                assert(keep(s.drop_last(), g)[rank(g, i) as int] == s.drop_last()[i]);
            }
        }
    }
}

/// Every new index below the count of survivors is the rank of a survivor.
pub proof fn lemma_rank_onto(f: Seq<bool>, j: int, n: int)
    requires
        0 <= j <= f.len(),
        0 <= n < rank(f, j),
    ensures
        exists|i: int| 0 <= i < j && f[i] && rank(f, i) == n,
    decreases j,
{
    if n < rank(f, j - 1) {
        lemma_rank_onto(f, j - 1, n);
    } else {
        assert(f[j - 1] && rank(f, j - 1) == n);
    }
}

/// Some survivor translates to `n`.
pub open spec fn reached_by(f: Seq<bool>, n: int) -> bool {
    exists|i: int| 0 <= i < f.len() && f[i] && #[trigger] translated(f, i) == n
}

/// Survivors keep their relative order under the translation.
pub proof fn lemma_translation_ordered(f: Seq<bool>, i: int, j: int)
    requires
        0 <= i < j < f.len(),
        f[i],
        f[j],
        f.len() < DEAD,
    ensures
        translated(f, i) < translated(f, j),
{
    lemma_rank_bounds(f, i + 1, j);
    lemma_rank_bounds(f, j, j);
}

/// Restricted to the survivors, the translation is a strictly increasing
/// bijection onto `0..count(f)`, and it never yields `DEAD` for them.
pub proof fn lemma_translation_bijective(f: Seq<bool>)
    requires
        f.len() < DEAD,
    ensures
        forall|i: int, j: int|
            0 <= i < j < f.len() && f[i] && f[j] ==> #[trigger] translated(f, i) < #[trigger] translated(f, j),
        forall|i: int| 0 <= i < f.len() && f[i] ==> #[trigger] translated(f, i) < count(f),
        forall|n: int| 0 <= n < count(f) ==> #[trigger] reached_by(f, n),
{
    assert forall|i: int, j: int|
        0 <= i < j < f.len() && f[i] && f[j] implies #[trigger] translated(f, i) < #[trigger] translated(f, j) by {
        lemma_translation_ordered(f, i, j);
    }
    assert forall|i: int| 0 <= i < f.len() && f[i] implies #[trigger] translated(f, i) < count(f) by {
        lemma_rank_bounds(f, i + 1, f.len() as int);
        lemma_rank_bounds(f, i, i);
    }
    assert forall|n: int| 0 <= n < count(f) implies #[trigger] reached_by(f, n) by {
        lemma_rank_onto(f, f.len() as int, n);
        let i = choose|i: int| 0 <= i < f.len() && f[i] && rank(f, i) == n;
        lemma_rank_bounds(f, i, i);
        assert(translated(f, i) == n);
    }
}

/// Builds the translation vector of one index space from its live flags.
pub fn translation(live: &Vec<bool>) -> (t: Vec<u32>)
    requires
        live@.len() < DEAD,
    ensures
        t@.len() == live@.len(),
        forall|i: int| 0 <= i < live@.len() ==> #[trigger] t@[i] == translated(live@, i),
{
    let mut t: Vec<u32> = Vec::new();
    let mut next: u32 = 0;
    let mut i: usize = 0;
    while i < live.len()
        invariant
            i <= live@.len() < DEAD,
            t@.len() == i,
            next == rank(live@, i as int),
            forall|k: int| 0 <= k < i ==> #[trigger] t@[k] == translated(live@, k),
        decreases live@.len() - i,
    {
        proof {
            lemma_rank_bounds(live@, i as int, i as int);
        }
        if live[i] {
            t.push(next);
            next = next + 1;
        } else {
            t.push(DEAD);
        }
        i = i + 1;
    }
    t
}

/// `keep` read from the front.
pub proof fn lemma_keep_front<T>(s: Seq<T>, f: Seq<bool>)
    requires
        s.len() == f.len(),
        s.len() > 0,
    ensures
        keep(s, f) == (if f[0] { seq![s[0]] } else { Seq::<T>::empty() }) + keep(s.drop_first(), f.drop_first()),
    decreases s.len(),
{
    if s.len() == 1 {
        assert(s.drop_first() =~= Seq::<T>::empty());
        assert(keep(s.drop_last(), f.subrange(0, 0)) =~= Seq::<T>::empty());
        if f[0] {
            assert(keep(s, f) =~= seq![s[0]]);
        }
        assert(keep(s.drop_first(), f.drop_first()) =~= Seq::<T>::empty());
        assert(keep(s, f) =~= (if f[0] { seq![s[0]] } else { Seq::<T>::empty() }) + keep(s.drop_first(), f.drop_first()));
    } else {
        let n = s.len() - 1;
        lemma_keep_front(s.drop_last(), f.subrange(0, n));
        assert(s.drop_last().drop_first() =~= s.drop_first().drop_last());
        assert(f.subrange(0, n).drop_first() =~= f.drop_first().subrange(0, n - 1));
        assert(s.drop_first().last() == s.last());
        assert(keep(s, f) =~= (if f[0] { seq![s[0]] } else { Seq::<T>::empty() }) + keep(s.drop_first(), f.drop_first()));
    }
}

/// Removes, in place, every entry whose flag (at `offset` + its position)
/// is unset; the survivors keep their order.
pub fn retain_flagged<T>(v: &mut Vec<T>, flags: &Vec<bool>, offset: usize)
    requires
        offset + old(v)@.len() <= flags@.len(),
    ensures
        final(v)@ == keep(old(v)@, flags@.subrange(offset as int, offset + old(v)@.len())),
{
    let ghost s = v@;
    let ghost f = flags@.subrange(offset as int, offset + v@.len());
    let mut i: usize = v.len();
    let nf: usize = flags.len();
    assert(s.subrange(i as int, s.len() as int) =~= Seq::<T>::empty());
    assert(keep(s.subrange(i as int, s.len() as int), f.subrange(i as int, s.len() as int)) =~= Seq::<T>::empty());
    assert(s.subrange(0, i as int) =~= s);
    while i > 0
        invariant
            i <= s.len(),
            f.len() == s.len(),
            offset + s.len() <= flags@.len(),
            nf == flags@.len(),
            f == flags@.subrange(offset as int, offset + s.len()),
            v@ == s.subrange(0, i as int) + keep(s.subrange(i as int, s.len() as int), f.subrange(i as int, s.len() as int)),
        decreases i,
    {
        let j = i - 1;
        proof {
            lemma_keep_front(s.subrange(j as int, s.len() as int), f.subrange(j as int, s.len() as int));
            assert(s.subrange(j as int, s.len() as int).drop_first() =~= s.subrange(i as int, s.len() as int));
            assert(f.subrange(j as int, s.len() as int).drop_first() =~= f.subrange(i as int, s.len() as int));
        }
        if !flags[offset + j] {
            v.remove(j);
            assert(v@ =~= s.subrange(0, j as int) + keep(s.subrange(j as int, s.len() as int), f.subrange(j as int, s.len() as int)));
        } else {
            assert(v@ =~= s.subrange(0, j as int) + keep(s.subrange(j as int, s.len() as int), f.subrange(j as int, s.len() as int)));
        }
        i = j;
    }
    assert(s.subrange(0, 0) =~= Seq::<T>::empty());
    assert(s.subrange(0, s.len() as int) =~= s);
    assert(f.subrange(0, s.len() as int) =~= f);
    assert(v@ =~= keep(s, f));
}

/// What holds of every flagged entry holds of every kept one.
pub proof fn lemma_keep_all<T>(s: Seq<T>, f: Seq<bool>, p: spec_fn(T) -> bool)
    requires
        s.len() == f.len(),
        forall|i: int| 0 <= i < s.len() && f[i] ==> p(#[trigger] s[i]),
    ensures
        forall|j: int| 0 <= j < keep(s, f).len() ==> p(#[trigger] keep(s, f)[j]),
    decreases s.len(),
{
    if s.len() > 0 {
        let n = s.len() - 1;
        let g = f.subrange(0, n);
        assert forall|i: int| 0 <= i < n && g[i] implies p(#[trigger] s.drop_last()[i]) by {
            assert(s.drop_last()[i] == s[i]);
        }
        lemma_keep_all(s.drop_last(), g, p);
        let rest = keep(s.drop_last(), g);
        assert forall|j: int| 0 <= j < keep(s, f).len() implies p(#[trigger] keep(s, f)[j]) by {
            if j < rest.len() {
                assert(keep(s, f)[j] == rest[j]);
            } else {
                assert(keep(s, f)[j] == s[n]);
            }
        }
    }
}

/// Ranks split at `a`: the part after `a` counts within the suffix.
pub proof fn lemma_rank_split(f: Seq<bool>, a: int, i: int)
    requires
        0 <= a,
        0 <= i,
        a + i <= f.len(),
    ensures
        rank(f, a + i) == rank(f, a) + rank(f.subrange(a, f.len() as int), i),
    decreases i,
{
    if i > 0 {
        lemma_rank_split(f, a, i - 1);
    }
}

/// A set flag adds one to every later rank.
pub proof fn lemma_rank_strict(f: Seq<bool>, i: int, j: int)
    requires
        0 <= i < j <= f.len(),
        f[i],
    ensures
        rank(f, i) < rank(f, j),
{
    lemma_rank_bounds(f, i + 1, j);
}

/// With every flag set, each index is its own rank.
pub proof fn lemma_rank_all_set(f: Seq<bool>, i: int)
    requires
        0 <= i <= f.len(),
        forall|k: int| 0 <= k < f.len() ==> #[trigger] f[k],
    ensures
        rank(f, i) == i,
    decreases i,
{
    if i > 0 {
        lemma_rank_all_set(f, i - 1);
    }
}

/// Flags unset from `j` on add nothing to the count.
pub proof fn lemma_rank_tail_unset(f: Seq<bool>, j: int)
    requires
        0 <= j <= f.len(),
        forall|k: int| j <= k < f.len() ==> !#[trigger] f[k],
    ensures
        rank(f, j) == count(f),
    decreases f.len() - j,
{
    if j < f.len() {
        lemma_rank_tail_unset(f, j + 1);
    }
}

/// Two flag sequences that set the same indices have the same count.
pub proof fn lemma_count_same(f: Seq<bool>, g: Seq<bool>)
    requires
        forall|k: int| 0 <= k < f.len() && #[trigger] f[k] ==> k < g.len() && g[k],
        forall|k: int| 0 <= k < g.len() && #[trigger] g[k] ==> k < f.len() && f[k],
    ensures
        count(f) == count(g),
{
    let n = if f.len() < g.len() { f.len() as int } else { g.len() as int };
    assert forall|k: int| n <= k < f.len() implies !#[trigger] f[k] by {}
    assert forall|k: int| n <= k < g.len() implies !#[trigger] g[k] by {}
    lemma_rank_tail_unset(f, n);
    lemma_rank_tail_unset(g, n);
    assert forall|k: int| 0 <= k < n implies f[k] == g[k] by {}
    lemma_rank_prefix(f, g, n);
}

} // verus!
