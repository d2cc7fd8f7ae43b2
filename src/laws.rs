use vstd::prelude::*;
use crate::names::{erased, is_global, occ};
use crate::sanitize::{san, san_args, size, size_args, SError, SanState};
use crate::table::count_of;
use crate::term::STerm;

verus! {

/// Terms built from variables, applications, constructors, operators and
/// constants only: no binder changes the scope inside them.
pub open spec fn binder_free(t: STerm) -> bool
    decreases t,
{
    match t {
        STerm::Var { .. } => true,
        STerm::App { func, argm } => binder_free(*func) && binder_free(*argm),
        STerm::Ctr { args, .. } => args_binder_free(args),
        STerm::U32 { .. } => true,
        STerm::Op2 { val0, val1, .. } => binder_free(*val0) && binder_free(*val1),
        _ => false,
    }
}

pub open spec fn args_binder_free(args: Seq<STerm>) -> bool
    decreases args,
{
    args.len() == 0 || (args_binder_free(args.drop_last()) && binder_free(args.last()))
}

/// The variable occurrences of a binder-free term, from left to right.
pub open spec fn occurrences(t: STerm) -> Seq<Seq<char>>
    decreases t,
{
    match t {
        STerm::Var { name } => seq![name],
        STerm::App { func, argm } => occurrences(*func) + occurrences(*argm),
        STerm::Ctr { args, .. } => args_occurrences(args),
        STerm::Op2 { val0, val1, .. } => occurrences(*val0) + occurrences(*val1),
        _ => Seq::empty(),
    }
}

pub open spec fn args_occurrences(args: Seq<STerm>) -> Seq<Seq<char>>
    decreases args,
{
    if args.len() == 0 {
        Seq::empty()
    } else {
        args_occurrences(args.drop_last()) + occurrences(args.last())
    }
}

/// How many times `g` occurs in `s`.
pub open spec fn count_in(s: Seq<Seq<char>>, g: Seq<char>) -> nat
    decreases s.len(),
{
    if s.len() == 0 {
        0
    } else {
        count_in(s.drop_last(), g) + if s.last() == g { 1nat } else { 0nat }
    }
}

/// The `i`-th entry `g` of `gs` becomes `<g>.<n>`, where `n` counts the
/// uses of `g` recorded in `uses` and those of `g` before position `i`.
pub open spec fn numbered(gs: Seq<Seq<char>>, uses: Map<Seq<char>, nat>) -> Seq<Seq<char>>
    decreases gs.len(),
{
    if gs.len() == 0 {
        Seq::empty()
    } else {
        let g = gs.last();
        numbered(gs.drop_last(), uses).push(occ(g, count_of(uses, g) + count_in(gs.drop_last(), g)))
    }
}

/// The generated names that `tbl` gives to the names `xs`.
pub open spec fn gens(xs: Seq<Seq<char>>, tbl: Map<Seq<char>, Seq<char>>) -> Seq<Seq<char>> {
    xs.map_values(|x: Seq<char>| tbl[x])
}

/// Every name of `xs` is an ordinary name bound in `tbl`.
pub open spec fn all_bound(xs: Seq<Seq<char>>, tbl: Map<Seq<char>, Seq<char>>) -> bool {
    forall|i: int| 0 <= i < xs.len() ==> !is_global(#[trigger] xs[i]) && tbl.contains_key(xs[i])
}

/// `b` holds the counts of `a` plus the occurrences in `gs`.
pub open spec fn counted(a: Map<Seq<char>, nat>, b: Map<Seq<char>, nat>, gs: Seq<Seq<char>>) -> bool {
    forall|g: Seq<char>| #[trigger] count_of(b, g) == count_of(a, g) + count_in(gs, g)
}

proof fn lemma_count_concat(a: Seq<Seq<char>>, b: Seq<Seq<char>>, g: Seq<char>)
    ensures
        count_in(a + b, g) == count_in(a, g) + count_in(b, g),
    decreases b.len(),
{
    if b.len() > 0 {
        assert((a + b).drop_last() =~= a + b.drop_last());
        lemma_count_concat(a, b.drop_last(), g);
    } else {
        assert(a + b =~= a);
    }
}

proof fn lemma_numbered_concat(a: Seq<Seq<char>>, b: Seq<Seq<char>>, u: Map<Seq<char>, nat>, u1: Map<Seq<char>, nat>)
    requires
        counted(u, u1, a),
    ensures
        numbered(a + b, u) == numbered(a, u) + numbered(b, u1),
    decreases b.len(),
{
    if b.len() == 0 {
        assert(a + b =~= a);
        assert(numbered(a, u) + numbered(b, u1) =~= numbered(a, u));
    } else {
        let x = b.last();
        assert((a + b).drop_last() =~= a + b.drop_last());
        assert((a + b).last() == x);
        lemma_numbered_concat(a, b.drop_last(), u, u1);
        lemma_count_concat(a, b.drop_last(), x);
        assert(count_of(u1, x) == count_of(u, x) + count_in(a, x));
        assert(numbered(a + b, u) =~= numbered(a, u) + numbered(b, u1));
    }
}

proof fn lemma_gens_concat(a: Seq<Seq<char>>, b: Seq<Seq<char>>, tbl: Map<Seq<char>, Seq<char>>)
    ensures
        gens(a + b, tbl) == gens(a, tbl) + gens(b, tbl),
{
    assert(gens(a + b, tbl) =~= gens(a, tbl) + gens(b, tbl));
}

proof fn lemma_counted_trans(
    u0: Map<Seq<char>, nat>,
    u1: Map<Seq<char>, nat>,
    u2: Map<Seq<char>, nat>,
    a: Seq<Seq<char>>,
    b: Seq<Seq<char>>,
)
    requires
        counted(u0, u1, a),
        counted(u1, u2, b),
    ensures
        counted(u0, u2, a + b),
{
    assert forall|g: Seq<char>| #[trigger] count_of(u2, g) == count_of(u0, g) + count_in(a + b, g) by {
        lemma_count_concat(a, b, g);
        assert(count_of(u1, g) == count_of(u0, g) + count_in(a, g));
        assert(count_of(u2, g) == count_of(u1, g) + count_in(b, g));
    }
}

proof fn lemma_all_bound_split(a: Seq<Seq<char>>, b: Seq<Seq<char>>, tbl: Map<Seq<char>, Seq<char>>)
    requires
        all_bound(a + b, tbl),
    ensures
        all_bound(a, tbl),
        all_bound(b, tbl),
{
    assert forall|i: int| 0 <= i < a.len() implies !is_global(#[trigger] a[i]) && tbl.contains_key(a[i]) by {
        assert((a + b)[i] == a[i]);
    }
    assert forall|i: int| 0 <= i < b.len() implies !is_global(#[trigger] b[i]) && tbl.contains_key(b[i]) by {
        assert((a + b)[a.len() + i] == b[i]);
    }
}

/// What sanitizing a binder-free replacement term whose names are all bound
/// gives: success, the occurrences numbered in order, the counts raised by
/// the occurrences, the table and the name supply untouched.
pub open spec fn numbered_outcome(t: STerm, st: SanState) -> bool {
    let (r, st2) = san(t, false, st);
    let gs = gens(occurrences(t), st.tbl);
    &&& r is Ok
    &&& binder_free(r->Ok_0)
    &&& occurrences(r->Ok_0) == numbered(gs, st.uses)
    &&& counted(st.uses, st2.uses, gs)
    &&& st2.tbl == st.tbl
    &&& st2.next == st.next
}

pub open spec fn numbered_args_outcome(args: Seq<STerm>, st: SanState) -> bool {
    let (r, st2) = san_args(args, false, st);
    let gs = gens(args_occurrences(args), st.tbl);
    &&& r is Ok
    &&& args_binder_free(r->Ok_0)
    &&& args_occurrences(r->Ok_0) == numbered(gs, st.uses)
    &&& counted(st.uses, st2.uses, gs)
    &&& st2.tbl == st.tbl
    &&& st2.next == st.next
}

proof fn lemma_pair_numbered(x: STerm, y: STerm, st: SanState)
    requires
        numbered_outcome(x, st),
        numbered_outcome(y, san(x, false, st).1),
    ensures
        ({
            let (rx, st1) = san(x, false, st);
            let (ry, st2) = san(y, false, st1);
            let gs = gens(occurrences(x) + occurrences(y), st.tbl);
            &&& occurrences(rx->Ok_0) + occurrences(ry->Ok_0) == numbered(gs, st.uses)
            &&& counted(st.uses, st2.uses, gs)
        }),
{
    let (rx, st1) = san(x, false, st);
    let (ry, st2) = san(y, false, st1);
    let a = gens(occurrences(x), st.tbl);
    let b = gens(occurrences(y), st.tbl);
    lemma_gens_concat(occurrences(x), occurrences(y), st.tbl);
    lemma_numbered_concat(a, b, st.uses, st1.uses);
    lemma_counted_trans(st.uses, st1.uses, st2.uses, a, b);
}

/// Sanitizing a binder-free replacement term whose variables are all bound
/// ordinary names numbers the uses of each generated name `g` from left to
/// right, counting on from the uses of `g` already recorded, and raises the
/// count of `g` by its number of occurrences. Starting from no recorded
/// uses, the `i`-th occurrence of `g` becomes `<g>.<i>` and the count of `g`
/// ends at its number of occurrences.
pub proof fn lemma_occurrences_numbered(t: STerm, st: SanState)
    requires
        binder_free(t),
        all_bound(occurrences(t), st.tbl),
    ensures
        numbered_outcome(t, st),
    decreases t,
{
    match t {
        STerm::Var { name } => {
            let g = st.tbl[name];
            assert(occurrences(t)[0] == name);
            let gs = gens(occurrences(t), st.tbl);
            assert(gs =~= seq![g]);
            assert(gs.drop_last() =~= Seq::<Seq<char>>::empty());
            assert(!is_global(name) && st.tbl.contains_key(name));
            let c = count_of(st.uses, g);
            let (r, st2) = san(t, false, st);
            assert(r == Ok::<STerm, SError>(STerm::Var { name: occ(g, c) }));
            assert(st2.uses == st.uses.insert(g, c + 1));
            assert(count_in(gs.drop_last(), g) == 0);
            assert(numbered(gs.drop_last(), st.uses) =~= Seq::<Seq<char>>::empty());
            assert(occurrences(r->Ok_0) =~= numbered(gs, st.uses));
            assert forall|h: Seq<char>| #[trigger] count_of(st2.uses, h) == count_of(st.uses, h) + count_in(gs, h) by {
                assert(count_in(gs.drop_last(), h) == 0);
            }
        },
        STerm::App { func, argm } => {
            lemma_all_bound_split(occurrences(*func), occurrences(*argm), st.tbl);
            lemma_occurrences_numbered(*func, st);
            lemma_occurrences_numbered(*argm, san(*func, false, st).1);
            lemma_pair_numbered(*func, *argm, st);
        },
        STerm::Op2 { val0, val1, .. } => {
            lemma_all_bound_split(occurrences(*val0), occurrences(*val1), st.tbl);
            lemma_occurrences_numbered(*val0, st);
            lemma_occurrences_numbered(*val1, san(*val0, false, st).1);
            lemma_pair_numbered(*val0, *val1, st);
        },
        STerm::Ctr { args, .. } => {
            lemma_args_numbered(args, st);
        },
        STerm::U32 { .. } => {
            assert(gens(occurrences(t), st.tbl) =~= Seq::<Seq<char>>::empty());
            assert(numbered(Seq::<Seq<char>>::empty(), st.uses) =~= Seq::<Seq<char>>::empty());
        },
        _ => {},
    }
}

pub proof fn lemma_args_numbered(args: Seq<STerm>, st: SanState)
    requires
        args_binder_free(args),
        all_bound(args_occurrences(args), st.tbl),
    ensures
        numbered_args_outcome(args, st),
    decreases args,
{
    if args.len() == 0 {
        assert(gens(args_occurrences(args), st.tbl) =~= Seq::<Seq<char>>::empty());
    } else {
        let init = args.drop_last();
        let x = args.last();
        lemma_all_bound_split(args_occurrences(init), occurrences(x), st.tbl);
        lemma_args_numbered(init, st);
        let (rs, st1) = san_args(init, false, st);
        lemma_occurrences_numbered(x, st1);
        let (rx, st2) = san(x, false, st1);
        let a = gens(args_occurrences(init), st.tbl);
        let b = gens(occurrences(x), st.tbl);
        lemma_gens_concat(args_occurrences(init), occurrences(x), st.tbl);
        lemma_numbered_concat(a, b, st.uses, st1.uses);
        lemma_counted_trans(st.uses, st1.uses, st2.uses, a, b);
        let done = rs->Ok_0.push(rx->Ok_0);
        assert(done.drop_last() =~= rs->Ok_0);
        assert(done.last() == rx->Ok_0);
    }
}

/// No name of `xs` is global.
pub open spec fn no_globals(xs: Seq<Seq<char>>) -> bool {
    forall|i: int| 0 <= i < xs.len() ==> !is_global(#[trigger] xs[i])
}

/// Some name of `xs` is not bound in `tbl`.
pub open spec fn has_unbound(xs: Seq<Seq<char>>, tbl: Map<Seq<char>, Seq<char>>) -> bool {
    exists|i: int| 0 <= i < xs.len() && !tbl.contains_key(#[trigger] xs[i])
}

/// The outcome is a report of a name that `tbl` does not bind.
pub open spec fn reports_unbound<T>(r: Result<T, SError>, tbl: Map<Seq<char>, Seq<char>>) -> bool {
    match r {
        Err(SError::UnboundVariable(x)) => !tbl.contains_key(x),
        _ => false,
    }
}

proof fn lemma_split_unbound(a: Seq<Seq<char>>, b: Seq<Seq<char>>, tbl: Map<Seq<char>, Seq<char>>)
    requires
        no_globals(a + b),
        has_unbound(a + b, tbl),
    ensures
        no_globals(a),
        no_globals(b),
        has_unbound(a, tbl) || (all_bound(a, tbl) && has_unbound(b, tbl)),
{
    assert forall|i: int| 0 <= i < a.len() implies !is_global(#[trigger] a[i]) by {
        assert((a + b)[i] == a[i]);
    }
    assert forall|i: int| 0 <= i < b.len() implies !is_global(#[trigger] b[i]) by {
        assert((a + b)[a.len() + i] == b[i]);
    }
    if !has_unbound(a, tbl) {
        let i = choose|i: int| 0 <= i < (a + b).len() && !tbl.contains_key(#[trigger] (a + b)[i]);
        if i < a.len() {
            assert((a + b)[i] == a[i]);
        } else {
            assert((a + b)[i] == b[i - a.len()]);
        }
    }
}

/// Sanitizing a binder-free replacement term without global names, one of
/// whose variables the table does not bind, fails with `UnboundVariable`,
/// naming an unbound variable.
pub proof fn lemma_unbound_reported(t: STerm, st: SanState)
    requires
        binder_free(t),
        no_globals(occurrences(t)),
        has_unbound(occurrences(t), st.tbl),
    ensures
        reports_unbound(san(t, false, st).0, st.tbl),
    decreases t,
{
    match t {
        STerm::Var { name } => {
            assert(occurrences(t)[0] == name);
        },
        STerm::App { func, argm } => {
            lemma_split_unbound(occurrences(*func), occurrences(*argm), st.tbl);
            if has_unbound(occurrences(*func), st.tbl) {
                lemma_unbound_reported(*func, st);
            } else {
                lemma_occurrences_numbered(*func, st);
                lemma_unbound_reported(*argm, san(*func, false, st).1);
            }
        },
        STerm::Op2 { val0, val1, .. } => {
            lemma_split_unbound(occurrences(*val0), occurrences(*val1), st.tbl);
            if has_unbound(occurrences(*val0), st.tbl) {
                lemma_unbound_reported(*val0, st);
            } else {
                lemma_occurrences_numbered(*val0, st);
                lemma_unbound_reported(*val1, san(*val0, false, st).1);
            }
        },
        STerm::Ctr { args, .. } => {
            lemma_args_unbound_reported(args, st);
        },
        _ => {},
    }
}

pub proof fn lemma_args_unbound_reported(args: Seq<STerm>, st: SanState)
    requires
        args_binder_free(args),
        no_globals(args_occurrences(args)),
        has_unbound(args_occurrences(args), st.tbl),
    ensures
        reports_unbound(san_args(args, false, st).0, st.tbl),
    decreases args,
{
    if args.len() > 0 {
        let init = args.drop_last();
        let x = args.last();
        lemma_split_unbound(args_occurrences(init), occurrences(x), st.tbl);
        if has_unbound(args_occurrences(init), st.tbl) {
            lemma_args_unbound_reported(init, st);
        } else {
            lemma_args_numbered(init, st);
            lemma_unbound_reported(x, san_args(init, false, st).1);
        }
    }
}

/// On the pattern side a variable is renamed through the table (or kept
/// when the table does not bind it); the name is then replaced by the
/// erasure marker when it is not global and has no recorded use, and kept
/// when it has at least one. The state is left as it was.
pub proof fn lemma_pattern_erasure(x: Seq<char>, st: SanState)
    ensures
        ({
            let n = if st.tbl.contains_key(x) { st.tbl[x] } else { x };
            let (r, st2) = san(STerm::Var { name: x }, true, st);
            &&& r is Ok
            &&& st2 == st
            &&& !is_global(n) && count_of(st.uses, n) == 0 ==> r->Ok_0 == (STerm::Var { name: erased() })
            &&& count_of(st.uses, n) >= 1 ==> r->Ok_0 == (STerm::Var { name: n })
        }),
{
}

/// Every ordinary name of `xs` is bound in `tbl`.
pub open spec fn ordinary_bound(xs: Seq<Seq<char>>, tbl: Map<Seq<char>, Seq<char>>) -> bool {
    forall|i: int| 0 <= i < xs.len() && !is_global(#[trigger] xs[i]) ==> tbl.contains_key(xs[i])
}

/// Some global name of `xs` is already in `tbl`.
pub open spec fn global_seen(xs: Seq<Seq<char>>, tbl: Map<Seq<char>, Seq<char>>) -> bool {
    exists|i: int| 0 <= i < xs.len() && is_global(#[trigger] xs[i]) && tbl.contains_key(xs[i])
}

/// Every key of `a` is a key of `b`.
pub open spec fn keeps(a: Map<Seq<char>, Seq<char>>, b: Map<Seq<char>, Seq<char>>) -> bool {
    forall|k: Seq<char>| #[trigger] a.contains_key(k) ==> b.contains_key(k)
}

pub open spec fn dup_or_ok<T>(r: Result<T, SError>) -> bool {
    r is Ok || r->Err_0 is DuplicateGlobalUse
}

/// What holds of a binder-free replacement term whose ordinary names are
/// all bound: it fails only on a global name seen twice, and when some global
/// name is already in the table it fails; when it succeeds, the table keeps
/// its keys and gains the term's global names.
pub open spec fn global_outcome(xs: Seq<Seq<char>>, r: Result<STerm, SError>, st: SanState, st2: SanState) -> bool {
    &&& dup_or_ok(r)
    &&& r is Ok ==> keeps(st.tbl, st2.tbl)
    &&& r is Ok ==> forall|i: int| 0 <= i < xs.len() && is_global(#[trigger] xs[i]) ==> st2.tbl.contains_key(xs[i])
    &&& global_seen(xs, st.tbl) ==> r is Err
}

pub open spec fn global_args_outcome(xs: Seq<Seq<char>>, r: Result<Seq<STerm>, SError>, st: SanState, st2: SanState) -> bool {
    &&& dup_or_ok(r)
    &&& r is Ok ==> keeps(st.tbl, st2.tbl)
    &&& r is Ok ==> forall|i: int| 0 <= i < xs.len() && is_global(#[trigger] xs[i]) ==> st2.tbl.contains_key(xs[i])
    &&& global_seen(xs, st.tbl) ==> r is Err
}

proof fn lemma_ordinary_bound_split(a: Seq<Seq<char>>, b: Seq<Seq<char>>, tbl: Map<Seq<char>, Seq<char>>, tbl1: Map<Seq<char>, Seq<char>>)
    requires
        ordinary_bound(a + b, tbl),
        keeps(tbl, tbl1),
    ensures
        ordinary_bound(a, tbl),
        ordinary_bound(b, tbl1),
{
    assert forall|i: int| 0 <= i < a.len() && !is_global(#[trigger] a[i]) implies tbl.contains_key(a[i]) by {
        assert((a + b)[i] == a[i]);
    }
    assert forall|i: int| 0 <= i < b.len() && !is_global(#[trigger] b[i]) implies tbl1.contains_key(b[i]) by {
        assert((a + b)[a.len() + i] == b[i]);
    }
}

/// Combines the facts of two parts sanitized one after the other.
proof fn lemma_global_join(
    a: Seq<Seq<char>>,
    b: Seq<Seq<char>>,
    ra_ok: bool,
    rb_ok: bool,
    st: SanState,
    st1: SanState,
    st2: SanState,
)
    requires
        ra_ok ==> keeps(st.tbl, st1.tbl),
        ra_ok ==> forall|i: int| 0 <= i < a.len() && is_global(#[trigger] a[i]) ==> st1.tbl.contains_key(a[i]),
        global_seen(a, st.tbl) ==> !ra_ok,
        ra_ok && rb_ok ==> keeps(st1.tbl, st2.tbl),
        ra_ok && rb_ok ==> forall|i: int| 0 <= i < b.len() && is_global(#[trigger] b[i]) ==> st2.tbl.contains_key(b[i]),
        ra_ok && global_seen(b, st1.tbl) ==> !rb_ok,
    ensures
        ra_ok && rb_ok ==> keeps(st.tbl, st2.tbl),
        ra_ok && rb_ok ==> forall|i: int| 0 <= i < (a + b).len() && is_global(#[trigger] (a + b)[i]) ==> st2.tbl.contains_key((a + b)[i]),
        global_seen(a + b, st.tbl) ==> !(ra_ok && rb_ok),
{
    if ra_ok && rb_ok {
        assert forall|i: int| 0 <= i < (a + b).len() && is_global(#[trigger] (a + b)[i]) implies st2.tbl.contains_key((a + b)[i]) by {
            if i < a.len() {
                assert((a + b)[i] == a[i]);
                assert(st1.tbl.contains_key(a[i]));
            } else {
                assert((a + b)[i] == b[i - a.len()]);
            }
        }
        if global_seen(a + b, st.tbl) {
            let i = choose|i: int| 0 <= i < (a + b).len() && is_global(#[trigger] (a + b)[i]) && st.tbl.contains_key((a + b)[i]);
            if i < a.len() {
                assert((a + b)[i] == a[i]);
            } else {
                assert((a + b)[i] == b[i - a.len()]);
                assert(st1.tbl.contains_key(b[i - a.len()]));
            }
        }
    }
}

proof fn lemma_global_facts(t: STerm, st: SanState)
    requires
        binder_free(t),
        ordinary_bound(occurrences(t), st.tbl),
    ensures
        global_outcome(occurrences(t), san(t, false, st).0, st, san(t, false, st).1),
    decreases size(t), 1nat,
{
    match t {
        STerm::Var { name } => {
            assert(occurrences(t)[0] == name);
        },
        STerm::App { func, argm } => {
            lemma_global_pair(*func, *argm, st);
        },
        STerm::Op2 { val0, val1, .. } => {
            lemma_global_pair(*val0, *val1, st);
        },
        STerm::Ctr { args, .. } => {
            lemma_global_args_facts(args, st);
        },
        _ => {},
    }
}

proof fn lemma_global_pair(x: STerm, y: STerm, st: SanState)
    requires
        binder_free(x),
        binder_free(y),
        ordinary_bound(occurrences(x) + occurrences(y), st.tbl),
    ensures
        ({
            let (rx, st1) = san(x, false, st);
            let (ry, st2) = san(y, false, st1);
            &&& dup_or_ok(rx)
            &&& rx is Ok ==> dup_or_ok(ry)
            &&& rx is Ok && ry is Ok ==> keeps(st.tbl, st2.tbl)
            &&& rx is Ok && ry is Ok ==> forall|i: int|
                0 <= i < (occurrences(x) + occurrences(y)).len() && is_global(#[trigger] (occurrences(x) + occurrences(y))[i])
                    ==> st2.tbl.contains_key((occurrences(x) + occurrences(y))[i])
            &&& global_seen(occurrences(x) + occurrences(y), st.tbl) ==> !(rx is Ok && ry is Ok)
        }),
    decreases size(x) + size(y), 0nat,
{
    let (rx, st1) = san(x, false, st);
    let (ry, st2) = san(y, false, st1);
    lemma_ordinary_bound_split(occurrences(x), occurrences(y), st.tbl, st.tbl);
    assert(keeps(st.tbl, st.tbl));
    lemma_global_facts(x, st);
    if rx is Ok {
        lemma_ordinary_bound_split(occurrences(x), occurrences(y), st.tbl, st1.tbl);
        lemma_global_facts(y, st1);
    }
    lemma_global_join(occurrences(x), occurrences(y), rx is Ok, rx is Ok && ry is Ok, st, st1, st2);
}

proof fn lemma_global_args_facts(args: Seq<STerm>, st: SanState)
    requires
        args_binder_free(args),
        ordinary_bound(args_occurrences(args), st.tbl),
    ensures
        global_args_outcome(args_occurrences(args), san_args(args, false, st).0, st, san_args(args, false, st).1),
    decreases size_args(args), 2nat,
{
    if args.len() == 0 {
        assert(keeps(st.tbl, st.tbl));
    } else {
        let init = args.drop_last();
        let x = args.last();
        let (rs, st1) = san_args(init, false, st);
        let (rx, st2) = san(x, false, st1);
        lemma_ordinary_bound_split(args_occurrences(init), occurrences(x), st.tbl, st.tbl);
        assert(keeps(st.tbl, st.tbl));
        crate::binders::lemma_size_pos(x);
        lemma_global_args_facts(init, st);
        if rs is Ok {
            lemma_ordinary_bound_split(args_occurrences(init), occurrences(x), st.tbl, st1.tbl);
            lemma_global_facts(x, st1);
        }
        lemma_global_join(args_occurrences(init), occurrences(x), rs is Ok, rs is Ok && rx is Ok, st, st1, st2);
    }
}

/// `g` occurs at two positions of `xs`.
pub open spec fn occurs_twice(xs: Seq<Seq<char>>, g: Seq<char>) -> bool {
    exists|i: int, j: int| 0 <= i < j < xs.len() && #[trigger] xs[i] == g && #[trigger] xs[j] == g
}

proof fn lemma_twice_split(a: Seq<Seq<char>>, b: Seq<Seq<char>>, g: Seq<char>)
    requires
        occurs_twice(a + b, g),
    ensures
        occurs_twice(a, g) || occurs_twice(b, g) || ((exists|i: int| 0 <= i < a.len() && #[trigger] a[i] == g) && (exists|j: int| 0 <= j < b.len() && #[trigger] b[j] == g)),
{
    let (i, j) = choose|i: int, j: int| 0 <= i < j < (a + b).len() && #[trigger] (a + b)[i] == g && #[trigger] (a + b)[j] == g;
    if j < a.len() {
        assert(a[i] == g && a[j] == g);
    } else if i >= a.len() {
        assert(b[i - a.len()] == g && b[j - a.len()] == g);
    } else {
        assert(a[i] == g);
        assert(b[j - a.len()] == g);
    }
}

/// A global name referenced twice in a binder-free replacement term whose
/// ordinary names are all bound makes sanitizing fail with
/// `DuplicateGlobalUse`.
pub proof fn lemma_global_twice(t: STerm, g: Seq<char>, st: SanState)
    requires
        binder_free(t),
        ordinary_bound(occurrences(t), st.tbl),
        is_global(g),
        occurs_twice(occurrences(t), g),
    ensures
        san(t, false, st).0 is Err,
        san(t, false, st).0->Err_0 is DuplicateGlobalUse,
    decreases size(t), 1nat,
{
    lemma_global_facts(t, st);
    match t {
        STerm::Var { name } => {},
        STerm::App { func, argm } => {
            lemma_global_twice_pair(*func, *argm, g, st);
        },
        STerm::Op2 { val0, val1, .. } => {
            lemma_global_twice_pair(*val0, *val1, g, st);
        },
        STerm::Ctr { args, .. } => {
            lemma_global_twice_args(args, g, st);
        },
        _ => {},
    }
}

proof fn lemma_global_twice_pair(x: STerm, y: STerm, g: Seq<char>, st: SanState)
    requires
        binder_free(x),
        binder_free(y),
        ordinary_bound(occurrences(x) + occurrences(y), st.tbl),
        is_global(g),
        occurs_twice(occurrences(x) + occurrences(y), g),
    ensures
        !(san(x, false, st).0 is Ok && san(y, false, san(x, false, st).1).0 is Ok),
    decreases size(x) + size(y), 0nat,
{
    let (rx, st1) = san(x, false, st);
    lemma_ordinary_bound_split(occurrences(x), occurrences(y), st.tbl, st.tbl);
    lemma_global_facts(x, st);
    lemma_twice_split(occurrences(x), occurrences(y), g);
    if rx is Ok {
        lemma_ordinary_bound_split(occurrences(x), occurrences(y), st.tbl, st1.tbl);
        if occurs_twice(occurrences(x), g) {
            lemma_global_twice(x, g, st);
        } else if occurs_twice(occurrences(y), g) {
            lemma_global_twice(y, g, st1);
        } else {
            let i = choose|i: int| 0 <= i < occurrences(x).len() && #[trigger] occurrences(x)[i] == g;
            let j = choose|j: int| 0 <= j < occurrences(y).len() && #[trigger] occurrences(y)[j] == g;
            assert(st1.tbl.contains_key(occurrences(x)[i]));
            assert(global_seen(occurrences(y), st1.tbl));
            lemma_global_facts(y, st1);
        }
    }
}

proof fn lemma_global_twice_args(args: Seq<STerm>, g: Seq<char>, st: SanState)
    requires
        args_binder_free(args),
        ordinary_bound(args_occurrences(args), st.tbl),
        is_global(g),
        occurs_twice(args_occurrences(args), g),
    ensures
        san_args(args, false, st).0 is Err,
    decreases size_args(args), 2nat,
{
    if args.len() == 0 {
        assert(args_occurrences(args).len() == 0);
    } else {
        let init = args.drop_last();
        let x = args.last();
        let (rs, st1) = san_args(init, false, st);
        lemma_ordinary_bound_split(args_occurrences(init), occurrences(x), st.tbl, st.tbl);
        crate::binders::lemma_size_pos(x);
        lemma_global_args_facts(init, st);
        lemma_twice_split(args_occurrences(init), occurrences(x), g);
        if rs is Ok {
            lemma_ordinary_bound_split(args_occurrences(init), occurrences(x), st.tbl, st1.tbl);
            if occurs_twice(args_occurrences(init), g) {
                lemma_global_twice_args(init, g, st);
            } else if occurs_twice(occurrences(x), g) {
                lemma_global_twice(x, g, st1);
            } else {
                let i = choose|i: int| 0 <= i < args_occurrences(init).len() && #[trigger] args_occurrences(init)[i] == g;
                let j = choose|j: int| 0 <= j < occurrences(x).len() && #[trigger] occurrences(x)[j] == g;
                assert(st1.tbl.contains_key(args_occurrences(init)[i]));
                assert(global_seen(occurrences(x), st1.tbl));
                lemma_global_facts(x, st1);
            }
        }
    }
}

} // verus!
