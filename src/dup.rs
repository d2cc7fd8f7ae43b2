use vstd::prelude::*;
use crate::names::{link, link_name, occ, occ_name};
use crate::table::{count_of, UsesMap};
use crate::term::{STerm, Term};

verus! {

/// Duplications `j .. k-2` of a chain that hands the copies
/// `<g>.j .. <g>.(k-1)` of `src` to `body`: each node keeps one copy and
/// passes the other on through `<g>.c<j>`; the last one keeps both.
pub open spec fn dup_chain(g: Seq<char>, j: nat, k: nat, src: STerm, body: STerm) -> STerm
    decreases k - j,
{
    if j + 2 >= k {
        STerm::Dup {
            nam0: occ(g, j),
            nam1: occ(g, j + 1),
            expr: Box::new(src),
            body: Box::new(body),
        }
    } else {
        STerm::Dup {
            nam0: occ(g, j),
            nam1: link(g, j),
            expr: Box::new(src),
            body: Box::new(dup_chain(g, j + 1, k, STerm::Var { name: link(g, j) }, body)),
        }
    }
}

/// What binding `g` to `expr` over `body` becomes, given that `body` already
/// names the uses of `g` as `<g>.0 .. <g>.(k-1)`, `k` being the use count of
/// `g`: the body alone when `k` is zero, a let of `<g>.0` when it is one, and
/// a chain of `k - 1` duplications when it is more.
pub open spec fn bind_uses(g: Seq<char>, expr: STerm, body: STerm, uses: Map<Seq<char>, nat>) -> STerm {
    let k = count_of(uses, g);
    if k == 0 {
        body
    } else if k == 1 {
        STerm::Let { name: occ(g, 0), expr: Box::new(expr), body: Box::new(body) }
    } else {
        dup_chain(g, 0, k, expr, body)
    }
}

fn build_chain(g: &String, j: u64, k: u64, src: Box<Term>, body: Box<Term>) -> (r: Box<Term>)
    requires
        j + 2 <= k,
    ensures
        (*r)@ == dup_chain(g@, j as nat, k as nat, (*src)@, (*body)@),
    decreases k - j,
{
    if j + 2 >= k {
        Box::new(Term::Dup { nam0: occ_name(g, j), nam1: occ_name(g, j + 1), expr: src, body })
    } else {
        let next = Box::new(Term::Var { name: link_name(g, j) });
        let rest = build_chain(g, j + 1, k, next, body);
        Box::new(Term::Dup { nam0: occ_name(g, j), nam1: link_name(g, j), expr: src, body: rest })
    }
}

/// Binds the generated name `name` to `expr` over `body`, by its use count.
pub fn duplicator(name: &String, expr: Box<Term>, body: Box<Term>, uses: &UsesMap) -> (r: Box<Term>)
    requires
        uses.wf(),
    ensures
        (*r)@ == bind_uses(name@, (*expr)@, (*body)@, uses@),
{
    match uses.get(name) {
        None => body,
        Some(k) => {
            if k == 0 {
                body
            } else if k == 1 {
                Box::new(Term::Let { name: occ_name(name, 0), expr, body })
            } else {
                build_chain(name, 0, k, expr, body)
            }
        },
    }
}

} // verus!
