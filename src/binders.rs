use vstd::prelude::*;
use crate::fresh::{fresh_name, NewStringGenerator};
use crate::sanitize::{size, size_args, SError, SanitizeError};
use crate::table::NameTable;
use crate::term::{views_of, Rule, STerm, Term};

verus! {

/// A pattern argument may be a variable, a constructor or a constant.
pub open spec fn arg_is_valid(a: STerm) -> bool {
    a is Var || a is Ctr || a is U32
}

/// A pattern is a constructor whose arguments are all valid.
pub open spec fn valid_pattern(t: STerm) -> bool {
    match t {
        STerm::Ctr { args, .. } => forall|i: int| 0 <= i < args.len() ==> arg_is_valid(#[trigger] args[i]),
        _ => false,
    }
}

/// The names of the variables among `args`, in order.
pub open spec fn var_names(args: Seq<STerm>) -> Seq<Seq<char>>
    decreases args.len(),
{
    if args.len() == 0 {
        Seq::empty()
    } else {
        var_names(args.drop_last()) + match args.last() {
            STerm::Var { name } => seq![name],
            _ => Seq::empty(),
        }
    }
}

/// The names that one pattern argument binds.
pub open spec fn arg_binders(a: STerm) -> Seq<Seq<char>> {
    match a {
        STerm::Var { name } => seq![name],
        STerm::Ctr { args, .. } => var_names(args),
        _ => Seq::empty(),
    }
}

/// The names that the pattern arguments `args` bind, in order.
pub open spec fn binders(args: Seq<STerm>) -> Seq<Seq<char>>
    decreases args.len(),
{
    if args.len() == 0 {
        Seq::empty()
    } else {
        binders(args.drop_last()) + arg_binders(args.last())
    }
}

/// The names that a pattern binds.
pub open spec fn pattern_binders(t: STerm) -> Seq<Seq<char>> {
    match t {
        STerm::Ctr { args, .. } => binders(args),
        _ => Seq::empty(),
    }
}

/// Binds `names[i]` to the fresh name `_<start + i>`, a later binding of a
/// name replacing an earlier one.
pub open spec fn fresh_table(names: Seq<Seq<char>>, start: nat) -> Map<Seq<char>, Seq<char>>
    decreases names.len(),
{
    if names.len() == 0 {
        Map::empty()
    } else {
        fresh_table(names.drop_last(), start).insert(names.last(), fresh_name((start + names.len() - 1) as nat))
    }
}

pub proof fn lemma_size_pos(t: STerm)
    ensures
        size(t) >= 1,
{
}

proof fn lemma_var_names_len(s: Seq<STerm>)
    ensures
        var_names(s).len() <= size_args(s),
    decreases s.len(),
{
    if s.len() > 0 {
        lemma_var_names_len(s.drop_last());
        lemma_size_pos(s.last());
    }
}

proof fn lemma_binders_len(s: Seq<STerm>)
    ensures
        binders(s).len() <= size_args(s),
    decreases s.len(),
{
    if s.len() > 0 {
        lemma_binders_len(s.drop_last());
        match s.last() {
            STerm::Ctr { args, .. } => lemma_var_names_len(args),
            _ => {},
        }
        assert(arg_binders(s.last()).len() <= size(s.last()));
    }
}

proof fn lemma_take_step(s: Seq<STerm>, i: int)
    requires
        0 <= i < s.len(),
    ensures
        s.take(i + 1).drop_last() == s.take(i),
        s.take(i + 1).last() == s[i],
{
    assert(s.take(i + 1).drop_last() =~= s.take(i));
}

proof fn lemma_fresh_table_push(names: Seq<Seq<char>>, x: Seq<char>, start: nat)
    ensures
        fresh_table(names.push(x), start) == fresh_table(names, start).insert(x, fresh_name(start + names.len())),
{
    assert(names.push(x).drop_last() =~= names);
}

fn check_pattern_args(args: &Vec<Box<Term>>) -> (r: bool)
    ensures
        r == forall|i: int| 0 <= i < args.len() ==> arg_is_valid(#[trigger] views_of(args@)[i]),
{
    proof {
        crate::sanitize::lemma_views_of(args@);
    }
    let mut i: usize = 0;
    while i < args.len()
        invariant
            i <= args.len(),
            views_of(args@).len() == args.len(),
            forall|j: int| 0 <= j < args.len() ==> #[trigger] views_of(args@)[j] == (*args[j])@,
            forall|j: int| 0 <= j < i ==> arg_is_valid(#[trigger] views_of(args@)[j]),
        decreases args.len() - i,
    {
        match &*args[i] {
            Term::Var { .. } => {},
            Term::Ctr { .. } => {},
            Term::U32 { .. } => {},
            _ => {
                assert(!arg_is_valid(views_of(args@)[i as int]));
                return false;
            },
        }
        i = i + 1;
    }
    true
}

/// Builds the scope table of a rule's pattern: each variable argument of the
/// top constructor, and each variable argument of a constructor nested in
/// it, is bound to a fresh name, in order. Fails with `InvalidPattern` unless
/// the pattern is a constructor whose arguments are variables, constructors
/// or constants.
pub fn create_fresh(rule: &Rule, fresh: &mut NewStringGenerator) -> (r: Result<NameTable, SanitizeError>)
    requires
        old(fresh).next() + size((*rule.lhs)@) <= u64::MAX,
    ensures
        r is Ok <==> valid_pattern((*rule.lhs)@),
        r is Ok ==> {
            &&& r->Ok_0.wf()
            &&& r->Ok_0@ == fresh_table(pattern_binders((*rule.lhs)@), old(fresh).next())
            &&& r->Ok_0@.dom() == pattern_vars((*rule.lhs)@)
            &&& final(fresh).next() == old(fresh).next() + pattern_binders((*rule.lhs)@).len()
        },
        r is Err ==> r->Err_0.view() == SError::InvalidPattern && final(fresh).next() == old(fresh).next(),
{
    let ghost start = fresh.next();
    match &*rule.lhs {
        Term::Ctr { name: top, args } => {
            assert((*rule.lhs)@ == STerm::Ctr { name: top@, args: views_of(args@) });
            if !check_pattern_args(args) {
                proof {
                    crate::sanitize::lemma_views_of(args@);
                    let i = choose|i: int| 0 <= i < args.len() && !arg_is_valid(#[trigger] views_of(args@)[i]);
                    assert(!arg_is_valid(views_of(args@)[i]));
                }
                return Err(SanitizeError::InvalidPattern);
            }
            let ghost sargs = views_of(args@);
            proof {
                crate::sanitize::lemma_views_of(args@);
                lemma_binders_len(sargs);
            }
            let mut table = NameTable::new();
            let mut i: usize = 0;
            assert(sargs.take(0) =~= Seq::<STerm>::empty());
            while i < args.len()
                invariant
                    i <= args.len() == sargs.len(),
                    sargs == views_of(args@),
                    forall|j: int| 0 <= j < args.len() ==> #[trigger] sargs[j] == (*args[j])@,
                    forall|j: int| 0 <= j < args.len() ==> arg_is_valid(#[trigger] sargs[j]),
                    start + size_args(sargs) <= u64::MAX,
                    binders(sargs.take(i as int)).len() <= size_args(sargs.take(i as int)) <= size_args(sargs),
                    table.wf(),
                    table@ == fresh_table(binders(sargs.take(i as int)), start),
                    fresh.next() == start + binders(sargs.take(i as int)).len(),
                decreases args.len() - i,
            {
                proof {
                    lemma_take_step(sargs, i as int);
                    crate::sanitize::lemma_size_args_take(sargs, i as int);
                    lemma_binders_len(sargs.take(i + 1));
                }
                let ghost done = binders(sargs.take(i as int));
                match &*args[i] {
                    Term::Var { name } => {
                        proof {
                            lemma_fresh_table_push(done, name@, start);
                            assert(arg_binders(sargs[i as int]) =~= seq![name@]);
                            assert(done + seq![name@] =~= done.push(name@));
                        }
                        let n = fresh.new_string();
                        table.insert(name.clone(), n);
                    },
                    Term::Ctr { args: inner, .. } => {
                        let ghost sinner = views_of(inner@);
                        proof {
                            crate::sanitize::lemma_views_of(inner@);
                            assert(sinner.take(0) =~= Seq::<STerm>::empty());
                            assert(done + var_names(sinner.take(0)) =~= done);
                            lemma_var_names_len(sinner);
                        }
                        let mut j: usize = 0;
                        while j < inner.len()
                            invariant
                                j <= inner.len() == sinner.len(),
                                sinner == views_of(inner@),
                                forall|m: int| 0 <= m < inner.len() ==> #[trigger] sinner[m] == (*inner[m])@,
                                start + done.len() + var_names(sinner).len() <= u64::MAX,
                                var_names(sinner.take(j as int)).len() <= var_names(sinner).len(),
                                table.wf(),
                                table@ == fresh_table(done + var_names(sinner.take(j as int)), start),
                                fresh.next() == start + done.len() + var_names(sinner.take(j as int)).len(),
                            decreases inner.len() - j,
                        {
                            proof {
                                lemma_take_step(sinner, j as int);
                                lemma_var_names_prefix(sinner, j as int + 1);
                            }
                            match &*inner[j] {
                                Term::Var { name } => {
                                    proof {
                                        let before = done + var_names(sinner.take(j as int));
                                        lemma_fresh_table_push(before, name@, start);
                                        assert(done + var_names(sinner.take(j + 1)) =~= before.push(name@));
                                    }
                                    let n = fresh.new_string();
                                    table.insert(name.clone(), n);
                                },
                                _ => {
                                    proof {
                                        assert(var_names(sinner.take(j + 1)) =~= var_names(sinner.take(j as int)));
                                    }
                                },
                            }
                            j = j + 1;
                        }
                        proof {
                            assert(sinner.take(j as int) =~= sinner);
                        }
                    },
                    _ => {
                        proof {
                            assert(done + arg_binders(sargs[i as int]) =~= done);
                        }
                    },
                }
                i = i + 1;
            }
            proof {
                assert(sargs.take(i as int) =~= sargs);
                lemma_table_keys((*rule.lhs)@, start);
            }
            Ok(table)
        },
        _ => Err(SanitizeError::InvalidPattern),
    }
}

proof fn lemma_var_names_prefix(s: Seq<STerm>, j: int)
    requires
        0 <= j <= s.len(),
    ensures
        var_names(s.take(j)).len() <= var_names(s).len(),
    decreases s.len(),
{
    if j < s.len() {
        assert(s.drop_last().take(j) =~= s.take(j));
        lemma_var_names_prefix(s.drop_last(), j);
    } else {
        assert(s.take(j) =~= s);
    }
}

/// Pattern argument `a` is the variable `x`, or a constructor with the
/// variable `x` among its arguments.
pub open spec fn arg_has_var(a: STerm, x: Seq<char>) -> bool {
    match a {
        STerm::Var { name } => name == x,
        STerm::Ctr { args, .. } => exists|j: int| 0 <= j < args.len() && #[trigger] args[j] == (STerm::Var { name: x }),
        _ => false,
    }
}

/// The variable names that appear in a pattern of the restricted shape.
pub open spec fn pattern_vars(t: STerm) -> Set<Seq<char>> {
    match t {
        STerm::Ctr { args, .. } => Set::new(|x: Seq<char>| exists|i: int| 0 <= i < args.len() && arg_has_var(#[trigger] args[i], x)),
        _ => Set::empty(),
    }
}

proof fn lemma_fresh_table_dom(names: Seq<Seq<char>>, start: nat)
    ensures
        fresh_table(names, start).dom() == names.to_set(),
    decreases names.len(),
{
    if names.len() == 0 {
        assert(names.to_set() =~= Set::<Seq<char>>::empty());
    } else {
        lemma_fresh_table_dom(names.drop_last(), start);
        assert(names =~= names.drop_last().push(names.last()));
        names.drop_last().lemma_push_to_set_commute(names.last());
        assert(fresh_table(names, start).dom() =~= names.to_set());
    }
}

proof fn lemma_var_names_contains(s: Seq<STerm>, x: Seq<char>)
    ensures
        var_names(s).contains(x) <==> exists|j: int| 0 <= j < s.len() && #[trigger] s[j] == (STerm::Var { name: x }),
    decreases s.len(),
{
    if s.len() > 0 {
        let init = s.drop_last();
        lemma_var_names_contains(init, x);
        let tail: Seq<Seq<char>> = match s.last() {
            STerm::Var { name } => seq![name],
            _ => Seq::empty(),
        };
        assert(var_names(s) == var_names(init) + tail);
        if var_names(s).contains(x) {
            let k = choose|k: int| 0 <= k < var_names(s).len() && var_names(s)[k] == x;
            if k < var_names(init).len() {
                assert(var_names(init)[k] == x);
                let j = choose|j: int| 0 <= j < init.len() && #[trigger] init[j] == (STerm::Var { name: x });
                assert(s[j] == init[j]);
            } else {
                assert(tail[k - var_names(init).len()] == x);
                assert(s[s.len() - 1] == (STerm::Var { name: x }));
            }
        }
        if exists|j: int| 0 <= j < s.len() && #[trigger] s[j] == (STerm::Var { name: x }) {
            let j = choose|j: int| 0 <= j < s.len() && #[trigger] s[j] == (STerm::Var { name: x });
            if j < s.len() - 1 {
                assert(init[j] == s[j]);
                let k = choose|k: int| 0 <= k < var_names(init).len() && var_names(init)[k] == x;
                assert(var_names(s)[k] == x);
            } else {
                assert(var_names(s)[var_names(init).len() as int] == x);
            }
        }
    }
}

proof fn lemma_binders_contains(s: Seq<STerm>, x: Seq<char>)
    ensures
        binders(s).contains(x) <==> exists|i: int| 0 <= i < s.len() && arg_has_var(#[trigger] s[i], x),
    decreases s.len(),
{
    if s.len() > 0 {
        let init = s.drop_last();
        let a = s.last();
        lemma_binders_contains(init, x);
        match a {
            STerm::Ctr { args, .. } => lemma_var_names_contains(args, x),
            _ => {},
        }
        assert(arg_binders(a).contains(x) <==> arg_has_var(a, x)) by {
            match a {
                STerm::Var { name } => {
                    if name == x {
                        assert(arg_binders(a)[0] == x);
                    }
                },
                _ => {},
            }
        }
        assert(binders(s) == binders(init) + arg_binders(a));
        if binders(s).contains(x) {
            let k = choose|k: int| 0 <= k < binders(s).len() && binders(s)[k] == x;
            if k < binders(init).len() {
                assert(binders(init)[k] == x);
                let i = choose|i: int| 0 <= i < init.len() && arg_has_var(#[trigger] init[i], x);
                assert(s[i] == init[i]);
            } else {
                assert(arg_binders(a)[k - binders(init).len()] == x);
                assert(arg_has_var(s[s.len() - 1], x));
            }
        }
        if exists|i: int| 0 <= i < s.len() && arg_has_var(#[trigger] s[i], x) {
            let i = choose|i: int| 0 <= i < s.len() && arg_has_var(#[trigger] s[i], x);
            if i < s.len() - 1 {
                assert(init[i] == s[i]);
                let k = choose|k: int| 0 <= k < binders(init).len() && binders(init)[k] == x;
                assert(binders(s)[k] == x);
            } else {
                let k = choose|k: int| 0 <= k < arg_binders(a).len() && arg_binders(a)[k] == x;
                assert(binders(s)[binders(init).len() + k] == x);
            }
        }
    }
}

/// The table that the binder extractor builds for a pattern of the
/// restricted shape has as keys exactly the variable names that appear in
/// the pattern, at the top or inside a nested constructor.
pub proof fn lemma_table_keys(t: STerm, start: nat)
    requires
        valid_pattern(t),
    ensures
        fresh_table(pattern_binders(t), start).dom() == pattern_vars(t),
{
    lemma_fresh_table_dom(pattern_binders(t), start);
    match t {
        STerm::Ctr { args, .. } => {
            assert forall|x: Seq<char>| pattern_binders(t).to_set().contains(x) <==> pattern_vars(t).contains(x) by {
                lemma_binders_contains(args, x);
            }
            assert(pattern_binders(t).to_set() =~= pattern_vars(t));
        },
        _ => {},
    }
}

pub proof fn lemma_pattern_binders_len(t: STerm)
    ensures
        pattern_binders(t).len() <= size(t),
{
    match t {
        STerm::Ctr { args, .. } => lemma_binders_len(args),
        _ => {},
    }
}

} // verus!
