use vstd::prelude::*;
use crate::dup::{bind_uses, duplicator};
use crate::fresh::{fresh_name, NewStringGenerator};
use crate::names::{erased, erased_name, is_global, is_global_name, occ, occ_name};
use crate::table::{count_of, NameTable, UsesMap};
use crate::term::{views_of, STerm, Term};

verus! {


/// Why a rule could not be sanitized.
#[derive(Debug)]
pub enum SanitizeError {
    /// The pattern is not a constructor over variables, constants and
    /// constructors of variables.
    InvalidPattern,
    /// A replacement refers to a name that nothing binds.
    UnboundVariable { name: String },
    /// A replacement refers to a global name twice.
    DuplicateGlobalUse { name: String },
}

/// The mathematical value of a [`SanitizeError`].
pub enum SError {
    InvalidPattern,
    UnboundVariable(Seq<char>),
    DuplicateGlobalUse(Seq<char>),
}

impl SanitizeError {
    pub open spec fn view(&self) -> SError {
        match self {
            SanitizeError::InvalidPattern => SError::InvalidPattern,
            SanitizeError::UnboundVariable { name } => SError::UnboundVariable(name@),
            SanitizeError::DuplicateGlobalUse { name } => SError::DuplicateGlobalUse(name@),
        }
    }
}

/// What sanitizing a rule's terms reads and changes: the scope table, the
/// use counts and the position of the fresh name supply.
pub struct SanState {
    pub tbl: Map<Seq<char>, Seq<char>>,
    pub uses: Map<Seq<char>, nat>,
    pub next: nat,
}

/// The outcome of sanitizing: the result and the state after it.
pub type Outcome<T> = (Result<T, SError>, SanState);

/// `name`, or the erasure marker where it is not global and never used.
pub open spec fn erase_unused(name: Seq<char>, uses: Map<Seq<char>, nat>) -> Seq<char> {
    if !is_global(name) && count_of(uses, name) == 0 {
        erased()
    } else {
        name
    }
}

/// The binding of `k` in `tbl` put back as it was in `before`.
pub open spec fn restore(
    tbl: Map<Seq<char>, Seq<char>>,
    before: Map<Seq<char>, Seq<char>>,
    k: Seq<char>,
) -> Map<Seq<char>, Seq<char>> {
    if before.contains_key(k) {
        tbl.insert(k, before[k])
    } else {
        tbl.remove(k)
    }
}

pub open spec fn with_tbl(st: SanState, tbl: Map<Seq<char>, Seq<char>>) -> SanState {
    SanState { tbl, ..st }
}

/// A number of nodes that bounds the fresh names and uses a term consumes.
pub open spec fn size(t: STerm) -> nat
    decreases t,
{
    match t {
        STerm::Var { .. } => 1,
        STerm::Dup { expr, body, .. } => 2 + size(*expr) + size(*body),
        STerm::Let { expr, body, .. } => 1 + size(*expr) + size(*body),
        STerm::Lam { body, .. } => 1 + size(*body),
        STerm::App { func, argm } => 1 + size(*func) + size(*argm),
        STerm::Ctr { args, .. } => 1 + size_args(args),
        STerm::U32 { .. } => 1,
        STerm::Op2 { val0, val1, .. } => 1 + size(*val0) + size(*val1),
    }
}

pub open spec fn size_args(args: Seq<STerm>) -> nat
    decreases args,
{
    if args.len() == 0 {
        0
    } else {
        size_args(args.drop_last()) + size(args.last())
    }
}

/// `n`, or `u64::MAX` where `n` is larger.
pub open spec fn capped(n: nat) -> nat {
    if n > u64::MAX { u64::MAX as nat } else { n }
}

fn add_capped(a: u64, b: u64) -> (r: u64)
    ensures
        r == capped((a + b) as nat),
{
    if a > u64::MAX - b {
        u64::MAX
    } else {
        a + b
    }
}

/// The size of a term, capped at `u64::MAX`: what callers compare with the
/// room left in the name supply before sanitizing.
pub fn term_size(term: &Term) -> (r: u64)
    ensures
        r == capped(size(term@)),
    decreases size(term@),
{
    match term {
        Term::Var { .. } => 1,
        Term::U32 { .. } => 1,
        Term::Dup { expr, body, .. } => add_capped(2, add_capped(term_size(expr), term_size(body))),
        Term::Let { expr, body, .. } => add_capped(1, add_capped(term_size(expr), term_size(body))),
        Term::Lam { body, .. } => add_capped(1, term_size(body)),
        Term::App { func, argm } => add_capped(1, add_capped(term_size(func), term_size(argm))),
        Term::Op2 { val0, val1, .. } => add_capped(1, add_capped(term_size(val0), term_size(val1))),
        Term::Ctr { args, .. } => {
            let ghost sargs = views_of(args@);
            proof {
                lemma_views_of(args@);
                assert(sargs.take(0) =~= Seq::<STerm>::empty());
            }
            let mut total: u64 = 0;
            let mut i: usize = 0;
            while i < args.len()
                invariant
                    i <= args.len() == sargs.len(),
                    sargs == views_of(args@),
                    forall|j: int| 0 <= j < args.len() ==> #[trigger] sargs[j] == (*args[j])@,
                    term@ == (STerm::Ctr { name: term@->Ctr_name, args: sargs }),
                    total == capped(size_args(sargs.take(i as int))),
                decreases args.len() - i,
            {
                proof {
                    lemma_size_args_take(sargs, i as int);
                }
                total = add_capped(total, term_size(&args[i]));
                i = i + 1;
            }
            proof {
                assert(sargs.take(i as int) =~= sargs);
            }
            add_capped(1, total)
        },
    }
}

/// Sanitizes a variable occurrence.
pub open spec fn san_var(x: Seq<char>, lhs: bool, st: SanState) -> Outcome<STerm> {
    if lhs {
        let n = if st.tbl.contains_key(x) { st.tbl[x] } else { x };
        (Ok(STerm::Var { name: erase_unused(n, st.uses) }), st)
    } else if is_global(x) {
        if st.tbl.contains_key(x) {
            (Err(SError::DuplicateGlobalUse(x)), st)
        } else {
            (Ok(STerm::Var { name: x }), with_tbl(st, st.tbl.insert(x, Seq::empty())))
        }
    } else if st.tbl.contains_key(x) {
        let g = st.tbl[x];
        let c = count_of(st.uses, g);
        (Ok(STerm::Var { name: occ(g, c) }), SanState { uses: st.uses.insert(g, c + 1), ..st })
    } else {
        (Err(SError::UnboundVariable(x)), st)
    }
}

/// Sanitizes `t`, on the pattern side when `lhs` holds, else on the
/// replacement side.
pub open spec fn san(t: STerm, lhs: bool, st: SanState) -> Outcome<STerm>
    decreases t,
{
    match t {
        STerm::Var { name } => san_var(name, lhs, st),
        STerm::Dup { nam0, nam1, expr, body } => {
            let f0 = fresh_name(st.next);
            let f1 = fresh_name(st.next + 1);
            let (re, st2) = san(*expr, lhs, SanState { next: st.next + 2, ..st });
            match re {
                Err(e) => (Err(e), st2),
                Ok(e2) => {
                    let (rb, st4) = san(*body, lhs, with_tbl(st2, st2.tbl.insert(nam0, f0).insert(nam1, f1)));
                    match rb {
                        Err(e) => (Err(e), st4),
                        Ok(b2) => (
                            Ok(STerm::Dup {
                                nam0: occ(f0, 0),
                                nam1: occ(f1, 0),
                                expr: Box::new(e2),
                                body: Box::new(b2),
                            }),
                            with_tbl(st4, restore(restore(st4.tbl, st2.tbl, nam1), st2.tbl, nam0)),
                        ),
                    }
                },
            }
        },
        STerm::Let { name, expr, body } => {
            let f = fresh_name(st.next);
            let (re, st2) = san(*expr, lhs, SanState { next: st.next + 1, ..st });
            match re {
                Err(e) => (Err(e), st2),
                Ok(e2) => {
                    let (rb, st4) = san(*body, lhs, with_tbl(st2, st2.tbl.insert(name, f)));
                    match rb {
                        Err(e) => (Err(e), st4),
                        Ok(b2) => (
                            Ok(bind_uses(f, e2, b2, st4.uses)),
                            with_tbl(st4, restore(st4.tbl, st2.tbl, name)),
                        ),
                    }
                },
            }
        },
        STerm::Lam { name, body } => {
            let f = if is_global(name) { name } else { fresh_name(st.next) };
            let next = if is_global(name) { st.next } else { st.next + 1 };
            let (rb, st4) = san(*body, lhs, SanState { tbl: st.tbl.insert(name, f), next, ..st });
            match rb {
                Err(e) => (Err(e), st4),
                Ok(b2) => (
                    Ok(STerm::Lam {
                        name: erase_unused(f, st4.uses),
                        body: Box::new(bind_uses(f, STerm::Var { name: f }, b2, st4.uses)),
                    }),
                    with_tbl(st4, restore(st4.tbl, st.tbl, name)),
                ),
            }
        },
        STerm::App { func, argm } => {
            let (rf, st2) = san(*func, lhs, st);
            match rf {
                Err(e) => (Err(e), st2),
                Ok(f2) => {
                    let (ra, st3) = san(*argm, lhs, st2);
                    match ra {
                        Err(e) => (Err(e), st3),
                        Ok(a2) => (Ok(STerm::App { func: Box::new(f2), argm: Box::new(a2) }), st3),
                    }
                },
            }
        },
        STerm::Ctr { name, args } => {
            let (ra, st2) = san_args(args, lhs, st);
            match ra {
                Err(e) => (Err(e), st2),
                Ok(a2) => (Ok(STerm::Ctr { name, args: a2 }), st2),
            }
        },
        STerm::U32 { numb } => (Ok(STerm::U32 { numb }), st),
        STerm::Op2 { oper, val0, val1 } => {
            let (r0, st2) = san(*val0, lhs, st);
            match r0 {
                Err(e) => (Err(e), st2),
                Ok(v0) => {
                    let (r1, st3) = san(*val1, lhs, st2);
                    match r1 {
                        Err(e) => (Err(e), st3),
                        Ok(v1) => (Ok(STerm::Op2 { oper, val0: Box::new(v0), val1: Box::new(v1) }), st3),
                    }
                },
            }
        },
    }
}

/// Sanitizes a constructor's arguments from left to right, stopping at the
/// first failure.
pub open spec fn san_args(args: Seq<STerm>, lhs: bool, st: SanState) -> Outcome<Seq<STerm>>
    decreases args,
{
    if args.len() == 0 {
        (Ok(Seq::empty()), st)
    } else {
        let (rs, st2) = san_args(args.drop_last(), lhs, st);
        match rs {
            Err(e) => (Err(e), st2),
            Ok(done) => {
                let (r, st3) = san(args.last(), lhs, st2);
                match r {
                    Err(e) => (Err(e), st3),
                    Ok(t2) => (Ok(done.push(t2)), st3),
                }
            },
        }
    }
}

/// What the sanitizer carries from node to node, besides the scope table.
pub struct CtxSanitizeTerm {
    pub uses: UsesMap,
    pub fresh: NewStringGenerator,
}

pub open spec fn state_of(tbl: NameTable, ctx: CtxSanitizeTerm) -> SanState {
    SanState { tbl: tbl@, uses: ctx.uses@, next: ctx.fresh.next() }
}

pub open spec fn res_view(r: Result<Box<Term>, SanitizeError>) -> Result<STerm, SError> {
    match r {
        Ok(t) => Ok((*t)@),
        Err(e) => Err(e.view()),
    }
}

/// There is room in the counters for `n` more fresh names and uses.
pub open spec fn room(st: SanState, n: nat) -> bool {
    &&& st.next + n <= u64::MAX
    &&& forall|k: Seq<char>| #[trigger] count_of(st.uses, k) + n <= u64::MAX
}

/// From `a` to `b`, at most `n` fresh names and `n` uses of each name were
/// consumed.
pub open spec fn grown(a: SanState, b: SanState, n: nat) -> bool {
    &&& a.next <= b.next <= a.next + n
    &&& forall|k: Seq<char>| #[trigger] count_of(b.uses, k) <= count_of(a.uses, k) + n
}

proof fn lemma_room_after(st0: SanState, st1: SanState, used: nat, more: nat, total: nat)
    requires
        room(st0, total),
        grown(st0, st1, used),
        used + more <= total,
    ensures
        room(st1, more),
{
    assert forall|k: Seq<char>| #[trigger] count_of(st1.uses, k) + more <= u64::MAX by {
        assert(count_of(st1.uses, k) <= count_of(st0.uses, k) + used);
        assert(count_of(st0.uses, k) + total <= u64::MAX);
    }
}

proof fn lemma_grown_trans(a: SanState, b: SanState, c: SanState, n: nat, m: nat, total: nat)
    requires
        grown(a, b, n),
        grown(b, c, m),
        n + m <= total,
    ensures
        grown(a, c, total),
{
    assert forall|k: Seq<char>| #[trigger] count_of(c.uses, k) <= count_of(a.uses, k) + total by {
        assert(count_of(c.uses, k) <= count_of(b.uses, k) + m);
        assert(count_of(b.uses, k) <= count_of(a.uses, k) + n);
    }
}

pub proof fn lemma_size_args_take(s: Seq<STerm>, i: int)
    requires
        0 <= i < s.len(),
    ensures
        size_args(s.take(i + 1)) == size_args(s.take(i)) + size(s[i]),
        size_args(s.take(i + 1)) <= size_args(s),
    decreases s.len(),
{
    assert(s.take(i + 1).drop_last() =~= s.take(i));
    if i + 1 == s.len() {
        assert(s.take(i + 1) =~= s);
    } else {
        assert(s.drop_last().take(i + 1) =~= s.take(i + 1));
        lemma_size_args_take(s.drop_last(), i);
    }
}

proof fn lemma_san_args_err_prefix(s: Seq<STerm>, j: int, lhs: bool, st: SanState)
    requires
        0 <= j <= s.len(),
        san_args(s.take(j), lhs, st).0 is Err,
    ensures
        san_args(s, lhs, st) == san_args(s.take(j), lhs, st),
    decreases s.len(),
{
    if j == s.len() {
        assert(s.take(j) =~= s);
    } else {
        assert(s.drop_last().take(j) =~= s.take(j));
        lemma_san_args_err_prefix(s.drop_last(), j, lhs, st);
    }
}

pub proof fn lemma_views_of(args: Seq<Box<Term>>)
    ensures
        views_of(args).len() == args.len(),
        forall|i: int| 0 <= i < args.len() ==> #[trigger] views_of(args)[i] == (*args[i])@,
    decreases args.len(),
{
    if args.len() > 0 {
        lemma_views_of(args.drop_last());
        assert(views_of(args) == views_of(args.drop_last()).push((*args.last())@));
        assert(views_of(args).len() == args.len());
        assert(views_of(args)[args.len() - 1] == (*args.last())@);
        assert forall|i: int| 0 <= i < args.len() implies #[trigger] views_of(args)[i] == (*args[i])@ by {
            if i < args.len() - 1 {
                assert(args.drop_last()[i] == args[i]);
            }
        }
    }
}

fn erase_if_unused(name: String, uses: &UsesMap) -> (r: String)
    requires
        uses.wf(),
    ensures
        r@ == erase_unused(name@, uses@),
{
    if is_global_name(&name) {
        return name;
    }
    match uses.get(&name) {
        Some(k) => if k == 0 {
            erased_name()
        } else {
            name
        },
        None => erased_name(),
    }
}

fn restore_binding(tbl: &mut NameTable, k: &String, saved: Option<String>)
    requires
        old(tbl).wf(),
    ensures
        final(tbl).wf(),
        final(tbl)@ == match saved {
            Some(v) => old(tbl)@.insert(k@, v@),
            None => old(tbl)@.remove(k@),
        },
{
    match saved {
        Some(v) => tbl.insert(k.clone(), v),
        None => {
            tbl.remove(k);
        },
    }
}

fn saved_binding(tbl: &NameTable, k: &String) -> (r: Option<String>)
    requires
        tbl.wf(),
    ensures
        r is Some <==> tbl@.contains_key(k@),
        r is Some ==> r->0@ == tbl@[k@],
{
    match tbl.get(k) {
        Some(v) => Some(v.clone()),
        None => None,
    }
}

fn fresh_of(ctx: &mut CtxSanitizeTerm) -> (r: String)
    requires
        old(ctx).fresh.next() < u64::MAX,
    ensures
        r@ == fresh_name(old(ctx).fresh.next()),
        final(ctx).fresh.next() == old(ctx).fresh.next() + 1,
        final(ctx).uses == old(ctx).uses,
{
    ctx.fresh.new_string()
}

/// A variable occurrence: renamed through the table, counted, or erased.
fn sanitize_var(term: &Term, lhs: bool, tbl: &mut NameTable, ctx: &mut CtxSanitizeTerm) -> (r: Result<Box<Term>, SanitizeError>)
    requires
        old(tbl).wf(),
        old(ctx).uses.wf(),
        room(state_of(*old(tbl), *old(ctx)), size(term@)),
        term is Var,
    ensures
        final(tbl).wf(),
        final(ctx).uses.wf(),
        grown(state_of(*old(tbl), *old(ctx)), state_of(*final(tbl), *final(ctx)), size(term@)),
        res_view(r) == san(term@, lhs, state_of(*old(tbl), *old(ctx))).0,
        state_of(*final(tbl), *final(ctx)) == san(term@, lhs, state_of(*old(tbl), *old(ctx))).1,
    decreases size(term@), 0nat,
{
    let ghost st0 = state_of(*tbl, *ctx);
    match term {
        Term::Var { name } => {
            if lhs {
                let n = match tbl.get(name) {
                    Some(g) => g.clone(),
                    None => name.clone(),
                };
                Ok(Box::new(Term::Var { name: erase_if_unused(n, &ctx.uses) }))
            } else if is_global_name(name) {
                if tbl.get(name).is_some() {
                    Err(SanitizeError::DuplicateGlobalUse { name: name.clone() })
                } else {
                    tbl.insert(name.clone(), String::new());
                    Ok(Box::new(Term::Var { name: name.clone() }))
                }
            } else {
                match tbl.get(name) {
                    Some(g) => {
                        let g = g.clone();
                        let used = ctx.uses.increment(&g);
                        proof {
                            assert forall|k: Seq<char>| #[trigger] count_of(ctx.uses@, k) <= count_of(st0.uses, k) + 1 by {
                            }
                        }
                        Ok(Box::new(Term::Var { name: occ_name(&g, used - 1) }))
                    },
                    None => Err(SanitizeError::UnboundVariable { name: name.clone() }),
                }
            }
        },
        _ => {
            proof {
                assert(false);
            }
            Err(SanitizeError::InvalidPattern)
        },
    }
}

/// A duplication: both binders get fresh names within the body only.
fn sanitize_dup(term: &Term, lhs: bool, tbl: &mut NameTable, ctx: &mut CtxSanitizeTerm) -> (r: Result<Box<Term>, SanitizeError>)
    requires
        old(tbl).wf(),
        old(ctx).uses.wf(),
        room(state_of(*old(tbl), *old(ctx)), size(term@)),
        term is Dup,
    ensures
        final(tbl).wf(),
        final(ctx).uses.wf(),
        grown(state_of(*old(tbl), *old(ctx)), state_of(*final(tbl), *final(ctx)), size(term@)),
        res_view(r) == san(term@, lhs, state_of(*old(tbl), *old(ctx))).0,
        state_of(*final(tbl), *final(ctx)) == san(term@, lhs, state_of(*old(tbl), *old(ctx))).1,
    decreases size(term@), 0nat,
{
    let ghost st0 = state_of(*tbl, *ctx);
    match term {
        Term::Dup { nam0, nam1, expr, body } => {
            let new_nam0 = fresh_of(ctx);
            let new_nam1 = fresh_of(ctx);
            let ghost st1 = state_of(*tbl, *ctx);
            proof {
                lemma_room_after(st0, st1, 2, size((**expr)@), size(term@));
            }
            let expr2 = match sanitize_term(expr, lhs, tbl, ctx) {
                Ok(e) => e,
                Err(e) => {
                    proof { lemma_grown_trans(st0, st1, state_of(*tbl, *ctx), 2, size((**expr)@), size(term@)); }
                    return Err(e);
                },
            };
            let ghost st2 = state_of(*tbl, *ctx);
            proof { lemma_grown_trans(st0, st1, st2, 2, size((**expr)@), 2 + size((**expr)@)); }
            let got0 = saved_binding(tbl, nam0);
            let got1 = saved_binding(tbl, nam1);
            tbl.insert(nam0.clone(), new_nam0.clone());
            tbl.insert(nam1.clone(), new_nam1.clone());
            let ghost st3 = state_of(*tbl, *ctx);
            proof {
                lemma_room_after(st0, st3, 2 + size((**expr)@), size((**body)@), size(term@));
            }
            let body2 = match sanitize_term(body, lhs, tbl, ctx) {
                Ok(b) => b,
                Err(e) => {
                    proof { lemma_grown_trans(st0, st3, state_of(*tbl, *ctx), 2 + size((**expr)@), size((**body)@), size(term@)); }
                    return Err(e);
                },
            };
            proof { lemma_grown_trans(st0, st3, state_of(*tbl, *ctx), 2 + size((**expr)@), size((**body)@), size(term@)); }
            restore_binding(tbl, nam1, got1);
            restore_binding(tbl, nam0, got0);
            let n0 = occ_name(&new_nam0, 0);
            let n1 = occ_name(&new_nam1, 0);
            Ok(Box::new(Term::Dup { nam0: n0, nam1: n1, expr: expr2, body: body2 }))
        },
        _ => {
            proof {
                assert(false);
            }
            Err(SanitizeError::InvalidPattern)
        },
    }
}

/// A let: the binder gets a fresh name within the body, then its uses are bound.
fn sanitize_let(term: &Term, lhs: bool, tbl: &mut NameTable, ctx: &mut CtxSanitizeTerm) -> (r: Result<Box<Term>, SanitizeError>)
    requires
        old(tbl).wf(),
        old(ctx).uses.wf(),
        room(state_of(*old(tbl), *old(ctx)), size(term@)),
        term is Let,
    ensures
        final(tbl).wf(),
        final(ctx).uses.wf(),
        grown(state_of(*old(tbl), *old(ctx)), state_of(*final(tbl), *final(ctx)), size(term@)),
        res_view(r) == san(term@, lhs, state_of(*old(tbl), *old(ctx))).0,
        state_of(*final(tbl), *final(ctx)) == san(term@, lhs, state_of(*old(tbl), *old(ctx))).1,
    decreases size(term@), 0nat,
{
    let ghost st0 = state_of(*tbl, *ctx);
    match term {
        Term::Let { name, expr, body } => {
            let new_name = fresh_of(ctx);
            let ghost st1 = state_of(*tbl, *ctx);
            proof {
                lemma_room_after(st0, st1, 1, size((**expr)@), size(term@));
            }
            let expr2 = match sanitize_term(expr, lhs, tbl, ctx) {
                Ok(e) => e,
                Err(e) => {
                    proof { lemma_grown_trans(st0, st1, state_of(*tbl, *ctx), 1, size((**expr)@), size(term@)); }
                    return Err(e);
                },
            };
            let ghost st2 = state_of(*tbl, *ctx);
            proof { lemma_grown_trans(st0, st1, st2, 1, size((**expr)@), 1 + size((**expr)@)); }
            let got = saved_binding(tbl, name);
            tbl.insert(name.clone(), new_name.clone());
            let ghost st3 = state_of(*tbl, *ctx);
            proof {
                lemma_room_after(st0, st3, 1 + size((**expr)@), size((**body)@), size(term@));
            }
            let body2 = match sanitize_term(body, lhs, tbl, ctx) {
                Ok(b) => b,
                Err(e) => {
                    proof { lemma_grown_trans(st0, st3, state_of(*tbl, *ctx), 1 + size((**expr)@), size((**body)@), size(term@)); }
                    return Err(e);
                },
            };
            proof { lemma_grown_trans(st0, st3, state_of(*tbl, *ctx), 1 + size((**expr)@), size((**body)@), size(term@)); }
            restore_binding(tbl, name, got);
            Ok(duplicator(&new_name, expr2, body2, &ctx.uses))
        },
        _ => {
            proof {
                assert(false);
            }
            Err(SanitizeError::InvalidPattern)
        },
    }
}

/// A lambda: the binder gets a fresh name unless global, then its uses are bound.
fn sanitize_lam(term: &Term, lhs: bool, tbl: &mut NameTable, ctx: &mut CtxSanitizeTerm) -> (r: Result<Box<Term>, SanitizeError>)
    requires
        old(tbl).wf(),
        old(ctx).uses.wf(),
        room(state_of(*old(tbl), *old(ctx)), size(term@)),
        term is Lam,
    ensures
        final(tbl).wf(),
        final(ctx).uses.wf(),
        grown(state_of(*old(tbl), *old(ctx)), state_of(*final(tbl), *final(ctx)), size(term@)),
        res_view(r) == san(term@, lhs, state_of(*old(tbl), *old(ctx))).0,
        state_of(*final(tbl), *final(ctx)) == san(term@, lhs, state_of(*old(tbl), *old(ctx))).1,
    decreases size(term@), 0nat,
{
    let ghost st0 = state_of(*tbl, *ctx);
    match term {
        Term::Lam { name, body } => {
            let new_name = if is_global_name(name) {
                name.clone()
            } else {
                fresh_of(ctx)
            };
            let got = saved_binding(tbl, name);
            tbl.insert(name.clone(), new_name.clone());
            let ghost st3 = state_of(*tbl, *ctx);
            proof {
                lemma_room_after(st0, st3, 1, size((**body)@), size(term@));
            }
            let body2 = match sanitize_term(body, lhs, tbl, ctx) {
                Ok(b) => b,
                Err(e) => {
                    proof { lemma_grown_trans(st0, st3, state_of(*tbl, *ctx), 1, size((**body)@), size(term@)); }
                    return Err(e);
                },
            };
            proof { lemma_grown_trans(st0, st3, state_of(*tbl, *ctx), 1, size((**body)@), size(term@)); }
            restore_binding(tbl, name, got);
            let expr = Box::new(Term::Var { name: new_name.clone() });
            let body3 = duplicator(&new_name, expr, body2, &ctx.uses);
            let bound = erase_if_unused(new_name, &ctx.uses);
            Ok(Box::new(Term::Lam { name: bound, body: body3 }))
        },
        _ => {
            proof {
                assert(false);
            }
            Err(SanitizeError::InvalidPattern)
        },
    }
}

/// An application: the function, then the argument.
fn sanitize_app(term: &Term, lhs: bool, tbl: &mut NameTable, ctx: &mut CtxSanitizeTerm) -> (r: Result<Box<Term>, SanitizeError>)
    requires
        old(tbl).wf(),
        old(ctx).uses.wf(),
        room(state_of(*old(tbl), *old(ctx)), size(term@)),
        term is App,
    ensures
        final(tbl).wf(),
        final(ctx).uses.wf(),
        grown(state_of(*old(tbl), *old(ctx)), state_of(*final(tbl), *final(ctx)), size(term@)),
        res_view(r) == san(term@, lhs, state_of(*old(tbl), *old(ctx))).0,
        state_of(*final(tbl), *final(ctx)) == san(term@, lhs, state_of(*old(tbl), *old(ctx))).1,
    decreases size(term@), 0nat,
{
    let ghost st0 = state_of(*tbl, *ctx);
    match term {
        Term::App { func, argm } => {
            let func2 = match sanitize_term(func, lhs, tbl, ctx) {
                Ok(f) => f,
                Err(e) => {
                    return Err(e);
                },
            };
            let ghost st2 = state_of(*tbl, *ctx);
            proof {
                lemma_room_after(st0, st2, size((**func)@), size((**argm)@), size(term@));
            }
            let argm2 = match sanitize_term(argm, lhs, tbl, ctx) {
                Ok(a) => a,
                Err(e) => {
                    proof { lemma_grown_trans(st0, st2, state_of(*tbl, *ctx), size((**func)@), size((**argm)@), size(term@)); }
                    return Err(e);
                },
            };
            proof { lemma_grown_trans(st0, st2, state_of(*tbl, *ctx), size((**func)@), size((**argm)@), size(term@)); }
            Ok(Box::new(Term::App { func: func2, argm: argm2 }))
        },
        _ => {
            proof {
                assert(false);
            }
            Err(SanitizeError::InvalidPattern)
        },
    }
}

/// A binary operation: the left operand, then the right one.
fn sanitize_op2(term: &Term, lhs: bool, tbl: &mut NameTable, ctx: &mut CtxSanitizeTerm) -> (r: Result<Box<Term>, SanitizeError>)
    requires
        old(tbl).wf(),
        old(ctx).uses.wf(),
        room(state_of(*old(tbl), *old(ctx)), size(term@)),
        term is Op2,
    ensures
        final(tbl).wf(),
        final(ctx).uses.wf(),
        grown(state_of(*old(tbl), *old(ctx)), state_of(*final(tbl), *final(ctx)), size(term@)),
        res_view(r) == san(term@, lhs, state_of(*old(tbl), *old(ctx))).0,
        state_of(*final(tbl), *final(ctx)) == san(term@, lhs, state_of(*old(tbl), *old(ctx))).1,
    decreases size(term@), 0nat,
{
    let ghost st0 = state_of(*tbl, *ctx);
    match term {
        Term::Op2 { oper, val0, val1 } => {
            let v0 = match sanitize_term(val0, lhs, tbl, ctx) {
                Ok(v) => v,
                Err(e) => {
                    return Err(e);
                },
            };
            let ghost st2 = state_of(*tbl, *ctx);
            proof {
                lemma_room_after(st0, st2, size((**val0)@), size((**val1)@), size(term@));
            }
            let v1 = match sanitize_term(val1, lhs, tbl, ctx) {
                Ok(v) => v,
                Err(e) => {
                    proof { lemma_grown_trans(st0, st2, state_of(*tbl, *ctx), size((**val0)@), size((**val1)@), size(term@)); }
                    return Err(e);
                },
            };
            proof { lemma_grown_trans(st0, st2, state_of(*tbl, *ctx), size((**val0)@), size((**val1)@), size(term@)); }
            Ok(Box::new(Term::Op2 { oper: *oper, val0: v0, val1: v1 }))
        },
        _ => {
            proof {
                assert(false);
            }
            Err(SanitizeError::InvalidPattern)
        },
    }
}

/// A constructor: its arguments from left to right.
fn sanitize_ctr(term: &Term, lhs: bool, tbl: &mut NameTable, ctx: &mut CtxSanitizeTerm) -> (r: Result<Box<Term>, SanitizeError>)
    requires
        old(tbl).wf(),
        old(ctx).uses.wf(),
        room(state_of(*old(tbl), *old(ctx)), size(term@)),
        term is Ctr,
    ensures
        final(tbl).wf(),
        final(ctx).uses.wf(),
        grown(state_of(*old(tbl), *old(ctx)), state_of(*final(tbl), *final(ctx)), size(term@)),
        res_view(r) == san(term@, lhs, state_of(*old(tbl), *old(ctx))).0,
        state_of(*final(tbl), *final(ctx)) == san(term@, lhs, state_of(*old(tbl), *old(ctx))).1,
    decreases size(term@), 0nat,
{
    let ghost st0 = state_of(*tbl, *ctx);
    match term {
        Term::Ctr { name, args } => {
            let ghost sargs = views_of(args@);
            proof {
                lemma_views_of(args@);
            }
            assert(term@ == STerm::Ctr { name: name@, args: sargs });
            let mut n_args: Vec<Box<Term>> = Vec::new();
            let mut i: usize = 0;
            assert(sargs.take(0) =~= Seq::<STerm>::empty());
            assert(views_of(n_args@) =~= Seq::<STerm>::empty());
            while i < args.len()
                invariant
                    i <= args.len() == sargs.len(),
                    sargs == views_of(args@),
                    forall|j: int| 0 <= j < args.len() ==> #[trigger] sargs[j] == (*args[j])@,
                    term@ == (STerm::Ctr { name: name@, args: sargs }),
                    st0 == state_of(*old(tbl), *old(ctx)),
                    room(st0, size(term@)),
                    tbl.wf(),
                    ctx.uses.wf(),
                    size_args(sargs.take(i as int)) <= size_args(sargs),
                    grown(st0, state_of(*tbl, *ctx), size_args(sargs.take(i as int))),
                    san_args(sargs.take(i as int), lhs, st0).0 == Ok::<Seq<STerm>, SError>(views_of(n_args@)),
                    san_args(sargs.take(i as int), lhs, st0).1 == state_of(*tbl, *ctx),
                decreases args.len() - i,
            {
                let ghost sti = state_of(*tbl, *ctx);
                proof {
                    lemma_size_args_take(sargs, i as int);
                    lemma_room_after(st0, sti, size_args(sargs.take(i as int)), size(sargs[i as int]), size(term@));
                    assert(sargs.take(i + 1).drop_last() =~= sargs.take(i as int));
                    assert(sargs.take(i + 1).last() == sargs[i as int]);
                }
                let arg = match sanitize_term(&args[i], lhs, tbl, ctx) {
                    Ok(a) => a,
                    Err(e) => {
                        proof {
                            lemma_grown_trans(st0, sti, state_of(*tbl, *ctx), size_args(sargs.take(i as int)), size(sargs[i as int]), size(term@));
                            lemma_san_args_err_prefix(sargs, i + 1, lhs, st0);
                        }
                        return Err(e);
                    },
                };
                proof {
                    lemma_grown_trans(st0, sti, state_of(*tbl, *ctx), size_args(sargs.take(i as int)), size(sargs[i as int]), size_args(sargs.take(i + 1)));
                }
                let ghost before = n_args@;
                n_args.push(arg);
                assert(n_args@.drop_last() =~= before);
                i = i + 1;
            }
            assert(sargs.take(i as int) =~= sargs);
            Ok(Box::new(Term::Ctr { name: name.clone(), args: n_args }))
        },
        _ => {
            proof {
                assert(false);
            }
            Err(SanitizeError::InvalidPattern)
        },
    }
}

/// Sanitizes `term` under the scope table `tbl`: on the pattern side when
/// `lhs` holds, on the replacement side otherwise. The replacement of a rule
/// is sanitized before its pattern, whose erasures read the use counts.
/// Each node draws at most one fresh name and one use (two names for a
/// duplication), so the name supply and every use count must have room for
/// [`term_size`] more.
pub fn sanitize_term(term: &Term, lhs: bool, tbl: &mut NameTable, ctx: &mut CtxSanitizeTerm) -> (r: Result<Box<Term>, SanitizeError>)
    requires
        old(tbl).wf(),
        old(ctx).uses.wf(),
        room(state_of(*old(tbl), *old(ctx)), size(term@)),
    ensures
        final(tbl).wf(),
        final(ctx).uses.wf(),
        grown(state_of(*old(tbl), *old(ctx)), state_of(*final(tbl), *final(ctx)), size(term@)),
        res_view(r) == san(term@, lhs, state_of(*old(tbl), *old(ctx))).0,
        state_of(*final(tbl), *final(ctx)) == san(term@, lhs, state_of(*old(tbl), *old(ctx))).1,
    decreases size(term@), 1nat,
{
    match term {
        Term::Var { .. } => sanitize_var(term, lhs, tbl, ctx),
        Term::Dup { .. } => sanitize_dup(term, lhs, tbl, ctx),
        Term::Let { .. } => sanitize_let(term, lhs, tbl, ctx),
        Term::Lam { .. } => sanitize_lam(term, lhs, tbl, ctx),
        Term::App { .. } => sanitize_app(term, lhs, tbl, ctx),
        Term::Op2 { .. } => sanitize_op2(term, lhs, tbl, ctx),
        Term::Ctr { .. } => sanitize_ctr(term, lhs, tbl, ctx),
        Term::U32 { numb } => Ok(Box::new(Term::U32 { numb: *numb })),
    }
}

} // verus!
