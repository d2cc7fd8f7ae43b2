use vstd::prelude::*;

verus! {

/// The binary operators of the term language.
#[derive(Clone, Copy, Debug, PartialEq, Eq, Structural)]
pub enum Oper {
    Add,
    Sub,
    Mul,
    Div,
    Mod,
    And,
    Or,
    Xor,
    Shl,
    Shr,
    Lte,
    Ltn,
    Eql,
    Gte,
    Gtn,
    Neq,
}

/// A term as the parser hands it over, and as sanitization rebuilds it.
#[derive(Debug)]
pub enum Term {
    Var { name: String },
    Dup { nam0: String, nam1: String, expr: Box<Term>, body: Box<Term> },
    Let { name: String, expr: Box<Term>, body: Box<Term> },
    Lam { name: String, body: Box<Term> },
    App { func: Box<Term>, argm: Box<Term> },
    Ctr { name: String, args: Vec<Box<Term>> },
    U32 { numb: u32 },
    Op2 { oper: Oper, val0: Box<Term>, val1: Box<Term> },
}

/// A rewrite rule: the pattern on the left, the replacement on the right.
#[derive(Debug)]
pub struct Rule {
    pub lhs: Box<Term>,
    pub rhs: Box<Term>,
}

/// The mathematical value of a term: names are character sequences.
pub enum STerm {
    Var { name: Seq<char> },
    Dup { nam0: Seq<char>, nam1: Seq<char>, expr: Box<STerm>, body: Box<STerm> },
    Let { name: Seq<char>, expr: Box<STerm>, body: Box<STerm> },
    Lam { name: Seq<char>, body: Box<STerm> },
    App { func: Box<STerm>, argm: Box<STerm> },
    Ctr { name: Seq<char>, args: Seq<STerm> },
    U32 { numb: u32 },
    Op2 { oper: Oper, val0: Box<STerm>, val1: Box<STerm> },
}

impl View for Term {
    type V = STerm;

    open spec fn view(&self) -> STerm
        decreases self,
    {
        match self {
            Term::Var { name } => STerm::Var { name: name@ },
            Term::Dup { nam0, nam1, expr, body } => STerm::Dup {
                nam0: nam0@,
                nam1: nam1@,
                expr: Box::new((**expr).view()),
                body: Box::new((**body).view()),
            },
            Term::Let { name, expr, body } => STerm::Let {
                name: name@,
                expr: Box::new((**expr).view()),
                body: Box::new((**body).view()),
            },
            Term::Lam { name, body } => STerm::Lam { name: name@, body: Box::new((**body).view()) },
            Term::App { func, argm } => STerm::App {
                func: Box::new((**func).view()),
                argm: Box::new((**argm).view()),
            },
            Term::Ctr { name, args } => STerm::Ctr { name: name@, args: views_of(args@) },
            Term::U32 { numb } => STerm::U32 { numb: *numb },
            Term::Op2 { oper, val0, val1 } => STerm::Op2 {
                oper: *oper,
                val0: Box::new((**val0).view()),
                val1: Box::new((**val1).view()),
            },
        }
    }
}

/// The views of a sequence of boxed terms.
pub open spec fn views_of(args: Seq<Box<Term>>) -> Seq<STerm>
    decreases args,
{
    if args.len() == 0 {
        Seq::empty()
    } else {
        views_of(args.drop_last()).push((*args.last()).view())
    }
}

} // verus!
