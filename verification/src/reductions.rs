//! The three single-step rewrite rules over typed trees: alpha-renaming,
//! beta-substitution, and a restricted eta-collapse. Each rule is a pure
//! function; an absent result means the rule does not apply to the given
//! tree, which is a normal outcome rather than an error.

use vstd::prelude::*;
use crate::internal_representation::{AST, Term};

verus! {

/// Renaming of the free occurrences of `from` to `to`, as `name_change`
/// performs it: occurrences under a lambda that rebinds `from` stay untouched,
/// and the whole renaming is refused (`None`) when a lambda binding `to` is
/// reached, since renaming below it would corrupt that inner binding.
pub open spec fn renamed(t: Term, from: Seq<char>, to: Seq<char>) -> Option<Term>
    decreases t,
{
    match t {
        Term::Sym(name) => if name == from {
            Some(Term::Sym(to))
        } else {
            Some(t)
        },
        Term::Lam(arg, body) => {
            if arg == from {
                Some(t)
            } else if arg == to {
                None
            } else {
                match renamed(*body, from, to) {
                    Some(b) => Some(Term::Lam(arg, Box::new(b))),
                    None => None,
                }
            }
        },
        Term::App(func, args) => {
            match (renamed(*func, from, to), renamed(*args, from, to)) {
                (Some(f), Some(a)) => Some(Term::App(Box::new(f), Box::new(a))),
                _ => None,
            }
        },
    }
}

/// Substitution of `value` for the free occurrences of `variable`, as
/// `variable_change` performs it: subtrees under a lambda that rebinds
/// `variable` stay untouched. Deliberately not capture-avoiding: avoiding
/// capture of the free names of `value` is the caller's obligation.
pub open spec fn substituted(t: Term, variable: Seq<char>, value: Term) -> Term
    decreases t,
{
    match t {
        Term::Sym(name) => if name == variable {
            value
        } else {
            t
        },
        Term::Lam(arg, body) => if arg == variable {
            t
        } else {
            Term::Lam(arg, Box::new(substituted(*body, variable, value)))
        },
        Term::App(func, args) => Term::App(
            Box::new(substituted(*func, variable, value)),
            Box::new(substituted(*args, variable, value)),
        ),
    }
}

/// What `alpha_reduction` returns: on a lambda, the same lambda with its
/// parameter renamed to `to`; on any other tree, or when the body binds `to`,
/// an absent result.
pub open spec fn alpha_renamed(t: Term, to: Seq<char>) -> Option<Term> {
    match t {
        Term::Lam(arg, body) => match renamed(*body, arg, to) {
            Some(b) => Some(Term::Lam(to, Box::new(b))),
            None => None,
        },
        _ => None,
    }
}

/// What `beta_reduction` returns: on a lambda, its body with `value`
/// substituted for the parameter; on any other tree, an absent result.
pub open spec fn beta_substituted(t: Term, value: Term) -> Option<Term> {
    match t {
        Term::Lam(arg, body) => Some(substituted(*body, arg, value)),
        _ => None,
    }
}

/// What `gamma_reduction` returns: `Lam(x, App(f, x))` collapses to `f`; the
/// check is purely structural on that exact shape.
pub open spec fn eta_collapsed(t: Term) -> Option<Term> {
    match t {
        Term::Lam(arg, body) => match *body {
            Term::App(func, args) => match *args {
                Term::Sym(name) => if arg == name {
                    Some(*func)
                } else {
                    None
                },
                _ => None,
            },
            _ => None,
        },
        _ => None,
    }
}

/// The model of an optional tree.
pub open spec fn opt_term(r: Option<AST>) -> Option<Term> {
    match r {
        Some(t) => Some(t@),
        None => None,
    }
}

/// Rewrites every free occurrence of `old_name` in `tree` to `new_name`,
/// refusing the rewrite when a nested lambda binds `new_name`.
pub fn name_change(tree: &AST, old_name: &String, new_name: &String) -> (r: Option<AST>)
    ensures
        opt_term(r) == renamed(tree@, old_name@, new_name@),
    decreases *tree,
{
    match tree {
        AST::Sym(name) => {
            if *name == *old_name {
                Some(AST::Sym(new_name.clone()))
            } else {
                Some(tree.clone())
            }
        },
        AST::Lam(arg, body) => {
            if *arg == *old_name {
                Some(tree.clone())
            } else if *arg == *new_name {
                None
            } else {
                match name_change(&**body, old_name, new_name) {
                    Some(b) => Some(AST::Lam(arg.clone(), Box::new(b))),
                    None => None,
                }
            }
        },
        AST::App(func, args) => {
            match name_change(&**func, old_name, new_name) {
                Some(f) => match name_change(&**args, old_name, new_name) {
                    Some(a) => Some(AST::App(Box::new(f), Box::new(a))),
                    None => None,
                },
                None => None,
            }
        },
    }
}

/// Alpha-renaming: applicable only to a lambda; renames the bound parameter
/// to `new_name` and rewrites its free occurrences in the body, refusing when
/// a nested lambda already binds `new_name`.
pub fn alpha_reduction(tree: &AST, new_name: &String) -> (r: Option<AST>)
    ensures
        opt_term(r) == alpha_renamed(tree@, new_name@),
{
    match tree {
        AST::Lam(arg, body) => match name_change(&**body, arg, new_name) {
            Some(b) => Some(AST::Lam(new_name.clone(), Box::new(b))),
            None => None,
        },
        _ => None,
    }
}

/// Substitutes `value` for every free occurrence of `variable` in `tree`,
/// leaving subtrees under a lambda that rebinds `variable` untouched.
pub fn variable_change(tree: &AST, variable: &String, value: &AST) -> (r: AST)
    ensures
        r@ == substituted(tree@, variable@, value@),
    decreases *tree,
{
    match tree {
        AST::Sym(name) => {
            if *name == *variable {
                value.clone()
            } else {
                tree.clone()
            }
        },
        AST::Lam(arg, body) => {
            if *arg == *variable {
                tree.clone()
            } else {
                AST::Lam(arg.clone(), Box::new(variable_change(&**body, variable, value)))
            }
        },
        AST::App(func, args) => AST::App(
            Box::new(variable_change(&**func, variable, value)),
            Box::new(variable_change(&**args, variable, value)),
        ),
    }
}

/// Beta-substitution: applicable only to a lambda; returns its body with
/// `value` substituted for the parameter. Not capture-avoiding: see
/// `substituted`.
pub fn beta_reduction(tree: &AST, value: &AST) -> (r: Option<AST>)
    ensures
        opt_term(r) == beta_substituted(tree@, value@),
{
    match tree {
        AST::Lam(arg, body) => Some(variable_change(&**body, arg, value)),
        _ => None,
    }
}

/// Restricted eta-collapse: `Lam(x, App(f, x))` collapses to `f`; any other
/// shape gives an absent result.
pub fn gamma_reduction(tree: &AST) -> (r: Option<AST>)
    ensures
        opt_term(r) == eta_collapsed(tree@),
{
    match tree {
        AST::Lam(arg, body) => match &**body {
            AST::App(func, args) => match &**args {
                AST::Sym(name) => {
                    proof {
                        assert((**body)@ is App);
                        assert((**args)@ is Sym);
                        if arg@ == name@ {
                            assert(eta_collapsed(tree@) == Some((**func)@));
                        } else {
                            assert(eta_collapsed(tree@) is None);
                        }
                    }
                    if *arg == *name {
                        Some((**func).clone())
                    } else {
                        None
                    }
                },
                _ => None,
            },
            _ => None,
        },
        _ => None,
    }
}

/// Whether `name` occurs anywhere in `t`, as a symbol or as a lambda's
/// parameter.
pub open spec fn occurs_in(t: Term, name: Seq<char>) -> bool
    decreases t,
{
    match t {
        Term::Sym(s) => s == name,
        Term::Lam(arg, body) => arg == name || occurs_in(*body, name),
        Term::App(func, args) => occurs_in(*func, name) || occurs_in(*args, name),
    }
}

/// Renaming to a name that occurs nowhere in the tree never fails.
pub proof fn lemma_renamed_fresh_some(t: Term, from: Seq<char>, to: Seq<char>)
    requires
        !occurs_in(t, to),
    ensures
        renamed(t, from, to) is Some,
    decreases t,
{
    match t {
        Term::Sym(_) => {},
        Term::Lam(arg, body) => {
            if arg != from && arg != to {
                lemma_renamed_fresh_some(*body, from, to);
            }
        },
        Term::App(func, args) => {
            lemma_renamed_fresh_some(*func, from, to);
            lemma_renamed_fresh_some(*args, from, to);
        },
    }
}

/// Substituting for a name that occurs nowhere in the tree changes nothing.
pub proof fn lemma_substituted_absent(t: Term, variable: Seq<char>, value: Term)
    requires
        !occurs_in(t, variable),
    ensures
        substituted(t, variable, value) == t,
    decreases t,
{
    match t {
        Term::Sym(_) => {},
        Term::Lam(arg, body) => {
            lemma_substituted_absent(*body, variable, value);
        },
        Term::App(func, args) => {
            lemma_substituted_absent(*func, variable, value);
            lemma_substituted_absent(*args, variable, value);
        },
    }
}

proof fn lemma_rename_subst_commutes(t: Term, from: Seq<char>, to: Seq<char>, value: Term)
    requires
        !occurs_in(t, to),
    ensures
        renamed(t, from, to) is Some,
        substituted(renamed(t, from, to)->Some_0, to, value) == substituted(t, from, value),
    decreases t,
{
    lemma_renamed_fresh_some(t, from, to);
    match t {
        Term::Sym(_) => {},
        Term::Lam(arg, body) => {
            if arg == from {
                lemma_substituted_absent(*body, to, value);
            } else {
                lemma_rename_subst_commutes(*body, from, to, value);
            }
        },
        Term::App(func, args) => {
            lemma_rename_subst_commutes(*func, from, to, value);
            lemma_rename_subst_commutes(*args, from, to, value);
        },
    }
}

/// Alpha-renaming to a fresh name commutes with beta-substitution: renaming a
/// lambda's parameter to a name that occurs nowhere in its body and then
/// beta-substituting a value yields exactly the tree that beta-substituting
/// into the original lambda yields.
pub proof fn lemma_alpha_then_beta(param: Seq<char>, body: Term, fresh: Seq<char>, value: Term)
    requires
        !occurs_in(body, fresh),
    ensures
        ({
            let lam = Term::Lam(param, Box::new(body));
            &&& alpha_renamed(lam, fresh) is Some
            &&& beta_substituted(alpha_renamed(lam, fresh)->Some_0, value) == beta_substituted(
                lam,
                value,
            )
        }),
{
    lemma_rename_subst_commutes(body, param, fresh, value);
}

} // verus!
