use vstd::prelude::*;
use crate::fresh::{decimal, push_decimal};

verus! {

/// A name that the surrounding language treats as shared across rules.
pub open spec fn is_global(name: Seq<char>) -> bool {
    name.len() > 0 && name[0] == '$'
}

/// The name that tells the runtime a binding is never read.
pub open spec fn erased() -> Seq<char> {
    seq!['*']
}

/// The name of the `i`-th use of the generated name `g`: `<g>.<i>`.
pub open spec fn occ(g: Seq<char>, i: nat) -> Seq<char> {
    g + seq!['.'] + decimal(i)
}

/// An intermediate copy in a chain of duplications of `g`: `<g>.c<j>`.
pub open spec fn link(g: Seq<char>, j: nat) -> Seq<char> {
    g + seq!['.', 'c'] + decimal(j)
}

/// Tells whether `name` is a global name: it starts with `$`.
pub fn is_global_name(name: &String) -> (r: bool)
    ensures
        r == is_global(name@),
{
    let s = name.as_str();
    s.unicode_len() > 0 && s.get_char(0) == '$'
}

/// The erasure marker `*`.
pub fn erased_name() -> (r: String)
    ensures
        r@ == erased(),
{
    proof {
        reveal_strlit("*");
    }
    String::from_str("*")
}

/// Builds `<g>.<i>`.
pub fn occ_name(g: &String, i: u64) -> (r: String)
    ensures
        r@ == occ(g@, i as nat),
{
    let mut r = g.clone();
    proof {
        reveal_strlit(".");
    }
    r.append(".");
    push_decimal(&mut r, i);
    r
}

/// Builds `<g>.c<j>`.
pub fn link_name(g: &String, j: u64) -> (r: String)
    ensures
        r@ == link(g@, j as nat),
{
    let mut r = g.clone();
    proof {
        reveal_strlit(".c");
    }
    r.append(".c");
    push_decimal(&mut r, j);
    assert(r@ =~= link(g@, j as nat));
    r
}

} // verus!
