//! The tree representations: the untyped tree that the structural parser
//! builds (`RawAST`) and the typed tree that the elaborator produces (`AST`),
//! together with their mathematical models (`RawTerm`, `Term`).

use vstd::prelude::*;

verus! {

/// Mathematical model of an untyped tree node: the view of `RawAST`.
pub enum RawTerm {
    Sym(Seq<char>),
    LamArgs(Seq<RawTerm>),
    LamFull(Seq<RawTerm>, Seq<RawTerm>),
    App(Seq<RawTerm>),
}

/// Mathematical model of a typed tree node: the view of `AST`.
pub enum Term {
    Sym(Seq<char>),
    Lam(Seq<char>, Box<Term>),
    App(Box<Term>, Box<Term>),
}

/// A lambda node as the parser builds it: first collecting its parameters,
/// then holding parameters plus a body under construction.
#[derive(Debug, PartialEq, Eq)]
pub enum RawLambda {
    Args(Vec<RawAST>),
    Full(Vec<RawAST>, Vec<RawAST>),
}

/// An untyped tree node, owned by the parser's working stack until the parse
/// completes.
#[derive(Debug, PartialEq, Eq)]
pub enum RawAST {
    Sym(String),
    Lam(RawLambda),
    App(Vec<RawAST>),
}

/// A typed tree: exactly one parameter per lambda and one argument per
/// application. Every rewrite rule consumes and produces values of this type.
#[derive(Debug, PartialEq, Eq)]
pub enum AST {
    Sym(String),
    Lam(String, Box<AST>),
    App(Box<AST>, Box<AST>),
}

/// A reserved index-tagged tree carrying a numeric tag per symbol and an
/// optional embedded substitution slot: an extension point for a future
/// execution component. Nothing here produces or consumes it.
#[derive(Debug, PartialEq, Eq)]
pub enum MachineAST {
    Sym(u64, Option<Box<MachineAST>>),
    Lam(u64, Box<MachineAST>),
    App(Box<MachineAST>, Box<MachineAST>),
}

pub open spec fn raw_term_of(t: RawAST) -> RawTerm
    decreases t,
{
    match t {
        RawAST::Sym(s) => RawTerm::Sym(s@),
        RawAST::Lam(l) => match l {
            RawLambda::Args(args) => RawTerm::LamArgs(raw_terms_of(args@)),
            RawLambda::Full(args, body) => RawTerm::LamFull(
                raw_terms_of(args@),
                raw_terms_of(body@),
            ),
        },
        RawAST::App(items) => RawTerm::App(raw_terms_of(items@)),
    }
}

pub open spec fn raw_terms_of(s: Seq<RawAST>) -> Seq<RawTerm>
    decreases s,
{
    if s.len() == 0 {
        Seq::empty()
    } else {
        seq![raw_term_of(s[0])] + raw_terms_of(s.drop_first())
    }
}

impl View for RawAST {
    type V = RawTerm;

    open spec fn view(&self) -> RawTerm {
        raw_term_of(*self)
    }
}

pub open spec fn term_of(t: AST) -> Term
    decreases t,
{
    match t {
        AST::Sym(s) => Term::Sym(s@),
        AST::Lam(p, body) => Term::Lam(p@, Box::new(term_of(*body))),
        AST::App(f, a) => Term::App(Box::new(term_of(*f)), Box::new(term_of(*a))),
    }
}

impl View for AST {
    type V = Term;

    open spec fn view(&self) -> Term {
        term_of(*self)
    }
}

impl Clone for AST {
    /// A deep copy: every rewrite rule returns a brand-new tree, so unchanged
    /// subtrees are copied rather than shared.
    fn clone(&self) -> (res: Self)
        ensures
            res == *self,
        decreases *self,
    {
        match self {
            AST::Sym(s) => AST::Sym(s.clone()),
            AST::Lam(p, body) => AST::Lam(p.clone(), Box::new((**body).clone())),
            AST::App(f, a) => AST::App(Box::new((**f).clone()), Box::new((**a).clone())),
        }
    }
}

/// Height of an untyped tree, used as a termination measure by the
/// elaborator's mutual recursion.
pub open spec fn term_height(t: RawTerm) -> nat
    decreases t,
{
    match t {
        RawTerm::Sym(_) => 0,
        RawTerm::LamArgs(items) => 1 + terms_height(items),
        RawTerm::LamFull(args, body) => 1 + terms_height(args) + terms_height(body),
        RawTerm::App(items) => 1 + terms_height(items),
    }
}

pub open spec fn terms_height(s: Seq<RawTerm>) -> nat
    decreases s,
{
    if s.len() == 0 {
        0
    } else {
        1 + term_height(s[0]) + terms_height(s.drop_first())
    }
}

pub proof fn lemma_terms_height_elem(s: Seq<RawTerm>, i: int)
    requires
        0 <= i < s.len(),
    ensures
        term_height(s[i]) < terms_height(s),
    decreases s.len(),
{
    if i > 0 {
        lemma_terms_height_elem(s.drop_first(), i - 1);
        assert(s.drop_first()[i - 1] == s[i]);
    }
}

pub proof fn lemma_raw_terms_of(s: Seq<RawAST>)
    ensures
        raw_terms_of(s).len() == s.len(),
        forall|i: int| 0 <= i < s.len() ==> #[trigger] raw_terms_of(s)[i] == raw_term_of(s[i]),
    decreases s,
{
    if s.len() > 0 {
        lemma_raw_terms_of(s.drop_first());
    }
}

pub proof fn lemma_raw_terms_of_push(s: Seq<RawAST>, x: RawAST)
    ensures
        raw_terms_of(s.push(x)) == raw_terms_of(s).push(raw_term_of(x)),
{
    lemma_raw_terms_of(s.push(x));
    lemma_raw_terms_of(s);
    assert(raw_terms_of(s.push(x)) =~= raw_terms_of(s).push(raw_term_of(x)));
}

/// What `RawAST::push` does to a node: lambdas and applications gain a child,
/// a bare symbol is left unchanged.
pub open spec fn raw_pushed(t: RawTerm, elem: RawTerm) -> RawTerm {
    match t {
        RawTerm::LamArgs(items) => RawTerm::LamArgs(items.push(elem)),
        RawTerm::LamFull(args, items) => RawTerm::LamFull(args, items.push(elem)),
        RawTerm::App(items) => RawTerm::App(items.push(elem)),
        RawTerm::Sym(_) => t,
    }
}

impl RawAST {
    /// Appends a child to a lambda's or an application's list of children.
    /// Appending to a bare symbol is a no-op: a correct parse never reaches
    /// that case, the arm is defensive only.
    pub fn push(&mut self, elem: RawAST)
        ensures
            final(self)@ == raw_pushed(old(self)@, elem@),
    {
        match self {
            RawAST::Lam(RawLambda::Args(vec)) => {
                proof {
                    lemma_raw_terms_of_push(vec@, elem);
                }
                vec.push(elem);
            },
            RawAST::Lam(RawLambda::Full(_args, vec)) => {
                proof {
                    lemma_raw_terms_of_push(vec@, elem);
                }
                vec.push(elem);
            },
            RawAST::App(vec) => {
                proof {
                    lemma_raw_terms_of_push(vec@, elem);
                }
                vec.push(elem);
            },
            _ => (),
        }
    }
}

} // verus!
