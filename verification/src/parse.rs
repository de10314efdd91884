//! Tokenizer, structural parser and scope-checking elaborator.
//!
//! Text is split into tokens, a stack machine folds the tokens into an
//! untyped tree, and the elaborator validates scoping while desugaring
//! multi-parameter lambdas and multi-term applications into the strictly
//! binary typed tree.

use vstd::prelude::*;
use vstd::string::StrSliceExecFns;
use crate::internal_representation::{AST, RawAST, RawLambda, RawTerm, Term};
use crate::internal_representation::{raw_terms_of, raw_pushed, term_height, terms_height};
use crate::internal_representation::{lemma_raw_terms_of, lemma_terms_height_elem};

verus! {

/// Mathematical model of a token: the view of `Token`.
pub enum TokenV {
    Sym(Seq<char>),
    BeginLamArgs,
    BeginLamBody,
    EndLam,
    BeginApp,
    EndApp,
}

/// A structural marker or an opaque symbol name.
#[derive(Debug, PartialEq, Eq)]
pub enum Token {
    Sym(String),
    BeginLamArgs,
    BeginLamBody,
    EndLam,
    BeginApp,
    EndApp,
}

impl View for Token {
    type V = TokenV;

    open spec fn view(&self) -> TokenV {
        match *self {
            Token::Sym(s) => TokenV::Sym(s@),
            Token::BeginLamArgs => TokenV::BeginLamArgs,
            Token::BeginLamBody => TokenV::BeginLamBody,
            Token::EndLam => TokenV::EndLam,
            Token::BeginApp => TokenV::BeginApp,
            Token::EndApp => TokenV::EndApp,
        }
    }
}

/// The five reserved structural characters.
pub open spec fn is_structural_char(c: char) -> bool {
    c == '{' || c == '~' || c == '}' || c == '[' || c == ']'
}

/// The Unicode whitespace characters: the set that separates fragments.
pub open spec fn is_space_char(c: char) -> bool {
    let u: u32 = c as u32;
    u == 0x20 || u == 0x9 || u == 0xa || u == 0xb || u == 0xc || u == 0xd || u == 0x85
        || u == 0xa0 || u == 0x1680 || (0x2000 <= u && u <= 0x200a) || u == 0x2028
        || u == 0x2029 || u == 0x202f || u == 0x205f || u == 0x3000
}

/// The marker token of a structural character.
pub open spec fn marker_token(c: char) -> TokenV {
    if c == '{' {
        TokenV::BeginLamArgs
    } else if c == '~' {
        TokenV::BeginLamBody
    } else if c == '}' {
        TokenV::EndLam
    } else if c == '[' {
        TokenV::BeginApp
    } else {
        TokenV::EndApp
    }
}

/// Classification of one whitespace-free fragment: exactly a reserved
/// character gives its marker; anything else is an opaque symbol name.
pub open spec fn token_of_fragment(s: Seq<char>) -> TokenV {
    if s == seq!['{'] {
        TokenV::BeginLamArgs
    } else if s == seq!['~'] {
        TokenV::BeginLamBody
    } else if s == seq!['}'] {
        TokenV::EndLam
    } else if s == seq!['['] {
        TokenV::BeginApp
    } else if s == seq![']'] {
        TokenV::EndApp
    } else {
        TokenV::Sym(s)
    }
}

pub open spec fn flush_fragment(frag: Seq<char>) -> Seq<TokenV> {
    if frag.len() == 0 {
        Seq::empty()
    } else {
        seq![token_of_fragment(frag)]
    }
}

pub open spec fn tokens_from(s: Seq<char>, frag: Seq<char>) -> Seq<TokenV>
    decreases s.len(),
{
    if s.len() == 0 {
        flush_fragment(frag)
    } else if is_structural_char(s[0]) {
        flush_fragment(frag) + seq![marker_token(s[0])] + tokens_from(
            s.drop_first(),
            Seq::empty(),
        )
    } else if is_space_char(s[0]) {
        flush_fragment(frag) + tokens_from(s.drop_first(), Seq::empty())
    } else {
        tokens_from(s.drop_first(), frag.push(s[0]))
    }
}

/// The token sequence of a source text: each structural character is a token
/// of its own, and the maximal runs between whitespace and structural
/// characters are classified by `token_of_fragment`.
pub open spec fn tokens_of(s: Seq<char>) -> Seq<TokenV> {
    tokens_from(s, Seq::empty())
}

pub open spec fn token_views(ts: Seq<Token>) -> Seq<TokenV> {
    ts.map_values(|t: Token| t@)
}

fn is_structural(c: char) -> (b: bool)
    ensures
        b == is_structural_char(c),
{
    c == '{' || c == '~' || c == '}' || c == '[' || c == ']'
}

fn is_space(c: char) -> (b: bool)
    ensures
        b == is_space_char(c),
{
    let u: u32 = c as u32;
    u == 0x20 || u == 0x9 || u == 0xa || u == 0xb || u == 0xc || u == 0xd || u == 0x85
        || u == 0xa0 || u == 0x1680 || (0x2000 <= u && u <= 0x200a) || u == 0x2028
        || u == 0x2029 || u == 0x202f || u == 0x205f || u == 0x3000
}

impl Token {
    /// Classifies one whitespace-free fragment: exactly `{`, `~`, `}`, `[`
    /// or `]` gives the marker, anything else an opaque symbol.
    pub fn from_str(token: &str) -> (t: Token)
        ensures
            t@ == token_of_fragment(token@),
    {
        if token.unicode_len() == 1 {
            let c = token.get_char(0);
            proof {
                assert(token@ =~= seq![token@[0]]);
            }
            if c == '{' {
                Token::BeginLamArgs
            } else if c == '~' {
                Token::BeginLamBody
            } else if c == '}' {
                Token::EndLam
            } else if c == '[' {
                Token::BeginApp
            } else if c == ']' {
                Token::EndApp
            } else {
                Token::Sym(token.to_owned())
            }
        } else {
            Token::Sym(token.to_owned())
        }
    }
}

/// Appends the token of the fragment `s[start..end]`, if it is non-empty.
fn flush_token(toks: &mut Vec<Token>, s: &str, start: usize, end: usize)
    requires
        start <= end <= s@.len(),
    ensures
        token_views(final(toks)@) == token_views(old(toks)@) + flush_fragment(
            s@.subrange(start as int, end as int),
        ),
{
    let ghost frag = s@.subrange(start as int, end as int);
    if start < end {
        let t = Token::from_str(s.substring_char(start, end));
        toks.push(t);
        proof {
            assert(token_views(toks@) =~= token_views(old(toks)@) + flush_fragment(frag));
        }
    } else {
        proof {
            assert(frag.len() == 0);
            assert(token_views(toks@) =~= token_views(old(toks)@) + flush_fragment(frag));
        }
    }
}

/// Splits source text into tokens. Tokenizing never fails: any fragment that
/// is not exactly a reserved character is an opaque symbol name, and a
/// reserved character splits a fragment around it even inside a name the
/// user intended as one symbol.
pub fn tokenize(program: String) -> (r: Vec<Token>)
    ensures
        token_views(r@) == tokens_of(program@),
{
    let s: &str = program.as_str();
    let n: usize = s.unicode_len();
    let mut toks: Vec<Token> = Vec::new();
    let mut start: usize = 0;
    let mut i: usize = 0;
    proof {
        assert(s@.subrange(0, n as int) =~= s@);
        assert(s@.subrange(0, 0) =~= Seq::<char>::empty());
        assert(token_views(toks@) + tokens_from(s@, Seq::empty()) =~= tokens_of(program@));
    }
    while i < n
        invariant
            i <= n,
            start <= i,
            n == s@.len(),
            s@ == program@,
            tokens_of(program@) == token_views(toks@) + tokens_from(
                s@.subrange(i as int, n as int),
                s@.subrange(start as int, i as int),
            ),
        decreases n - i,
    {
        let ghost rest = s@.subrange(i as int, n as int);
        let ghost frag = s@.subrange(start as int, i as int);
        let ghost toks0 = toks@;
        let c = s.get_char(i);
        proof {
            assert(rest[0] == c);
            assert(rest.drop_first() =~= s@.subrange(i + 1, n as int));
        }
        if is_structural(c) {
            flush_token(&mut toks, s, start, i);
            let m = if c == '{' {
                Token::BeginLamArgs
            } else if c == '~' {
                Token::BeginLamBody
            } else if c == '}' {
                Token::EndLam
            } else if c == '[' {
                Token::BeginApp
            } else {
                Token::EndApp
            };
            proof {
                assert(m@ == marker_token(c));
            }
            toks.push(m);
            start = i + 1;
            proof {
                assert(s@.subrange(i + 1, i + 1) =~= Seq::<char>::empty());
                assert(token_views(toks@) =~= (token_views(toks0) + flush_fragment(frag)).push(
                    marker_token(c),
                ));
                assert(token_views(toks@) + tokens_from(rest.drop_first(), Seq::empty())
                    =~= token_views(toks0) + tokens_from(rest, frag));
            }
        } else if is_space(c) {
            flush_token(&mut toks, s, start, i);
            start = i + 1;
            proof {
                assert(s@.subrange(i + 1, i + 1) =~= Seq::<char>::empty());
                assert(token_views(toks@) =~= token_views(toks0) + flush_fragment(frag));
                assert(token_views(toks@) + tokens_from(rest.drop_first(), Seq::empty())
                    =~= token_views(toks0) + tokens_from(rest, frag));
            }
        } else {
            proof {
                assert(s@.subrange(start as int, i + 1) =~= frag.push(c));
            }
        }
        i = i + 1;
    }
    proof {
        assert(s@.subrange(i as int, n as int) =~= Seq::<char>::empty());
        assert(tokens_from(s@.subrange(i as int, n as int), s@.subrange(start as int, n as int))
            == flush_fragment(s@.subrange(start as int, n as int)));
    }
    let ghost toks1 = toks@;
    flush_token(&mut toks, s, start, n);
    proof {
        assert(token_views(toks@) =~= token_views(toks1) + flush_fragment(
            s@.subrange(start as int, n as int),
        ));
        assert(token_views(toks@) =~= tokens_of(program@));
    }
    toks
}


/// The tagged errors of parsing and elaboration.
#[derive(Debug, PartialEq, Eq, Structural, Clone, Copy)]
pub enum ParseErr {
    IncorectBracketSeq,
    ProgramCantStartWithSymbol,
    WrongLambdaBody,
    NoLambdaArgs,
    NoLambdaBody,
    UnexpectedSymbol,
    NoArgsInApplication,
    OnlySymbolAllowedInLambdaArgs,
}

/// Whether a closing token matches the shape of the node on top of the
/// parser's stack.
pub open spec fn end_matches(t: RawTerm, tok: TokenV) -> bool {
    match t {
        RawTerm::LamArgs(_) => tok is BeginLamBody,
        RawTerm::LamFull(_, _) => tok is EndLam,
        RawTerm::App(_) => tok is EndApp,
        RawTerm::Sym(_) => false,
    }
}

/// One transition of the parser's stack machine.
pub open spec fn parse_step(stack: Seq<RawTerm>, tok: TokenV) -> Result<Seq<RawTerm>, ParseErr> {
    match tok {
        TokenV::Sym(name) => {
            if stack.len() == 0 {
                Err(ParseErr::ProgramCantStartWithSymbol)
            } else {
                Ok(
                    stack.update(
                        stack.len() - 1,
                        raw_pushed(stack.last(), RawTerm::Sym(name)),
                    ),
                )
            }
        },
        TokenV::BeginLamArgs => Ok(stack.push(RawTerm::LamArgs(Seq::empty()))),
        TokenV::BeginApp => Ok(stack.push(RawTerm::App(Seq::empty()))),
        TokenV::BeginLamBody => {
            if stack.len() > 0 && end_matches(stack.last(), tok) {
                Ok(
                    stack.drop_last().push(
                        RawTerm::LamFull(stack.last()->LamArgs_0, Seq::empty()),
                    ),
                )
            } else {
                Err(ParseErr::IncorectBracketSeq)
            }
        },
        TokenV::EndLam => parse_close(stack, tok),
        TokenV::EndApp => parse_close(stack, tok),
    }
}

/// Closing a lambda or an application: the finished node leaves the stack and
/// joins the node below it, or stays as the sole element.
pub open spec fn parse_close(stack: Seq<RawTerm>, tok: TokenV) -> Result<Seq<RawTerm>, ParseErr> {
    if stack.len() > 0 && end_matches(stack.last(), tok) {
        let rest = stack.drop_last();
        if rest.len() == 0 {
            Ok(seq![stack.last()])
        } else {
            Ok(rest.update(rest.len() - 1, raw_pushed(rest.last(), stack.last())))
        }
    } else {
        Err(ParseErr::IncorectBracketSeq)
    }
}

pub open spec fn parse_run(stack: Seq<RawTerm>, ts: Seq<TokenV>) -> Result<Seq<RawTerm>, ParseErr>
    decreases ts.len(),
{
    if ts.len() == 0 {
        Ok(stack)
    } else {
        match parse_step(stack, ts[0]) {
            Ok(next) => parse_run(next, ts.drop_first()),
            Err(e) => Err(e),
        }
    }
}

/// The untyped tree of a token sequence: the stack machine, started empty,
/// must end with exactly one node.
pub open spec fn raw_parsed(ts: Seq<TokenV>) -> Result<RawTerm, ParseErr> {
    match parse_run(Seq::empty(), ts) {
        Ok(stack) => if stack.len() == 1 {
            Ok(stack[0])
        } else {
            Err(ParseErr::IncorectBracketSeq)
        },
        Err(e) => Err(e),
    }
}

pub open spec fn raw_result_view(r: Result<RawAST, ParseErr>) -> Result<RawTerm, ParseErr> {
    match r {
        Ok(t) => Ok(t@),
        Err(e) => Err(e),
    }
}

/// Pops the top of the stack when the closing token matches its shape; any
/// mismatch, or an empty stack, is an incorrect bracket sequence. The top is
/// popped even on a mismatch; only an empty stack stays as it was.
pub fn get_top_elem(stack: &mut Vec<RawAST>, end_token: &Token) -> (r: Result<RawAST, ParseErr>)
    ensures
        match r {
            Ok(top) => old(stack)@.len() > 0 && top@ == raw_terms_of(old(stack)@).last()
                && end_matches(top@, end_token@) && final(stack)@ == old(stack)@.drop_last()
                && raw_terms_of(final(stack)@) == raw_terms_of(old(stack)@).drop_last(),
            Err(e) => e == ParseErr::IncorectBracketSeq && !(old(stack)@.len() > 0
                && end_matches(raw_terms_of(old(stack)@).last(), end_token@)) && final(stack)@
                == (if old(stack)@.len() > 0 {
                old(stack)@.drop_last()
            } else {
                old(stack)@
            }),
        },
{
    proof {
        lemma_raw_terms_of(stack@);
        if stack@.len() > 0 {
            lemma_raw_terms_of(stack@.drop_last());
            assert(raw_terms_of(stack@.drop_last()) =~= raw_terms_of(stack@).drop_last());
            assert(stack@.subrange(0, stack@.len() - 1) =~= stack@.drop_last());
        }
    }
    match stack.pop() {
        Some(top) => {
            let matches_shape = match (&top, end_token) {
                (RawAST::Lam(RawLambda::Args(_)), Token::BeginLamBody) => true,
                (RawAST::Lam(RawLambda::Full(_, _)), Token::EndLam) => true,
                (RawAST::App(_), Token::EndApp) => true,
                _ => false,
            };
            if matches_shape {
                Ok(top)
            } else {
                Err(ParseErr::IncorectBracketSeq)
            }
        },
        None => Err(ParseErr::IncorectBracketSeq),
    }
}


/// Runs the stack machine over the whole token sequence: the untyped tree,
/// or the first structural error.
pub fn raw_parse(program: Vec<Token>) -> (r: Result<RawAST, ParseErr>)
    ensures
        raw_result_view(r) == raw_parsed(token_views(program@)),
{
    let ghost all = token_views(program@);
    let mut stack: Vec<RawAST> = Vec::new();
    let n: usize = program.len();
    let mut idx: usize = 0;
    proof {
        assert(all.subrange(0, n as int) =~= all);
        assert(raw_terms_of(stack@) =~= Seq::<RawTerm>::empty());
    }
    while idx < n
        invariant
            idx <= n,
            n == program@.len(),
            all == token_views(program@),
            parse_run(Seq::empty(), all) == parse_run(
                raw_terms_of(stack@),
                all.subrange(idx as int, n as int),
            ),
        decreases n - idx,
    {
        let ghost stack0 = raw_terms_of(stack@);
        let ghost rest = all.subrange(idx as int, n as int);
        let tok = &program[idx];
        proof {
            assert(rest[0] == tok@);
            assert(rest.drop_first() =~= all.subrange(idx + 1, n as int));
        }
        match tok {
            Token::Sym(sym) => {
                let ghost pre = stack@;
                match stack.pop() {
                    Some(top) => {
                        let mut top = top;
                        top.push(RawAST::Sym(sym.clone()));
                        stack.push(top);
                        proof {
                            lemma_raw_terms_of(pre);
                            lemma_raw_terms_of(stack@);
                            assert(pre.subrange(0, pre.len() - 1) =~= pre.drop_last());
                            assert(raw_terms_of(stack@) =~= stack0.update(
                                stack0.len() - 1,
                                raw_pushed(stack0.last(), RawTerm::Sym(sym@)),
                            ));
                        }
                    },
                    None => {
                        proof {
                            assert(parse_run(stack0, rest) == Err::<
                                Seq<RawTerm>,
                                ParseErr,
                            >(ParseErr::ProgramCantStartWithSymbol));
                        }
                        return Err(ParseErr::ProgramCantStartWithSymbol);
                    },
                }
            },
            Token::BeginLamArgs => {
                let ghost pre = stack@;
                stack.push(RawAST::Lam(RawLambda::Args(Vec::new())));
                proof {
                    lemma_raw_terms_of(pre);
                    lemma_raw_terms_of(stack@);
                    assert(raw_terms_of(stack@) =~= stack0.push(RawTerm::LamArgs(Seq::empty())));
                }
            },
            Token::BeginApp => {
                let ghost pre = stack@;
                stack.push(RawAST::App(Vec::new()));
                proof {
                    lemma_raw_terms_of(pre);
                    lemma_raw_terms_of(stack@);
                    assert(raw_terms_of(stack@) =~= stack0.push(RawTerm::App(Seq::empty())));
                }
            },
            Token::BeginLamBody => {
                match get_top_elem(&mut stack, tok) {
                    Ok(args) => match args {
                        RawAST::Lam(RawLambda::Args(vec)) => {
                            let ghost mid = stack@;
                            stack.push(RawAST::Lam(RawLambda::Full(vec, Vec::new())));
                            proof {
                                lemma_raw_terms_of(mid);
                                lemma_raw_terms_of(stack@);
                                assert(raw_terms_of(stack@) =~= stack0.drop_last().push(
                                    RawTerm::LamFull(stack0.last()->LamArgs_0, Seq::empty()),
                                ));
                            }
                        },
                        _ => {
                            proof {
                                assert(false);
                            }
                            return Err(ParseErr::NoLambdaArgs);
                        },
                    },
                    Err(e) => {
                        proof {
                            assert(parse_run(stack0, rest) == Err::<Seq<RawTerm>, ParseErr>(e));
                        }
                        return Err(e);
                    },
                }
            },
            _ => {
                match get_top_elem(&mut stack, tok) {
                    Ok(top) => {
                        let ghost mid = stack@;
                        match stack.pop() {
                            Some(new_top) => {
                                let mut new_top = new_top;
                                new_top.push(top);
                                stack.push(new_top);
                                proof {
                                    lemma_raw_terms_of(mid);
                                    lemma_raw_terms_of(stack@);
                                    assert(mid.subrange(0, mid.len() - 1) =~= mid.drop_last());
                                    let rest0 = stack0.drop_last();
                                    assert(raw_terms_of(stack@) =~= rest0.update(
                                        rest0.len() - 1,
                                        raw_pushed(rest0.last(), stack0.last()),
                                    ));
                                }
                            },
                            None => {
                                stack.push(top);
                                proof {
                                    lemma_raw_terms_of(stack@);
                                    assert(raw_terms_of(stack@) =~= seq![stack0.last()]);
                                }
                            },
                        }
                    },
                    Err(e) => {
                        proof {
                            assert(parse_run(stack0, rest) == Err::<Seq<RawTerm>, ParseErr>(e));
                        }
                        return Err(e);
                    },
                }
            },
        }
        idx = idx + 1;
    }
    proof {
        assert(all.subrange(n as int, n as int).len() == 0);
        lemma_raw_terms_of(stack@);
    }
    if stack.len() == 1 {
        match stack.pop() {
            Some(top) => Ok(top),
            None => Err(ParseErr::IncorectBracketSeq),
        }
    } else {
        Err(ParseErr::IncorectBracketSeq)
    }
}


/// The set of names that a scope stack holds.
pub open spec fn scope_set(names: Seq<String>) -> Set<Seq<char>> {
    Set::new(
        |n: Seq<char>| exists|i: int| 0 <= i < names.len() && #[trigger] names[i]@ == n,
    )
}

pub open spec fn ast_result_view(r: Result<AST, ParseErr>) -> Result<Term, ParseErr> {
    match r {
        Ok(t) => Ok(t@),
        Err(e) => Err(e),
    }
}

/// The typed tree of an untyped tree under a set of bound names, or the
/// first violation found in a left-to-right walk.
pub open spec fn elaborated(t: RawTerm, scope: Set<Seq<char>>) -> Result<Term, ParseErr>
    decreases term_height(t), 0int,
{
    match t {
        RawTerm::Sym(name) => if scope.contains(name) {
            Ok(Term::Sym(name))
        } else {
            Err(ParseErr::UnexpectedSymbol)
        },
        RawTerm::LamArgs(_) => Err(ParseErr::NoLambdaBody),
        RawTerm::LamFull(args, body) => if args.len() == 0 {
            Err(ParseErr::NoLambdaArgs)
        } else {
            elab_lambda(args, body, scope)
        },
        RawTerm::App(items) => elab_app(items, scope),
    }
}

/// Desugaring of a lambda's parameter list by right-folding: each parameter
/// becomes one binder around the elaboration of the rest, bound names
/// accumulating in the scope.
pub open spec fn elab_lambda(
    args: Seq<RawTerm>,
    body: Seq<RawTerm>,
    scope: Set<Seq<char>>,
) -> Result<Term, ParseErr>
    decreases terms_height(args) + terms_height(body), 1int,
{
    if args.len() == 0 {
        elab_app(body, scope)
    } else {
        match args[0] {
            RawTerm::Sym(name) => match elab_lambda(
                args.drop_first(),
                body,
                scope.insert(name),
            ) {
                Ok(inner) => Ok(Term::Lam(name, Box::new(inner))),
                Err(e) => Err(e),
            },
            _ => Err(ParseErr::OnlySymbolAllowedInLambdaArgs),
        }
    }
}

/// Left-folding of an application's children into a binary chain.
pub open spec fn elab_app(items: Seq<RawTerm>, scope: Set<Seq<char>>) -> Result<Term, ParseErr>
    decreases terms_height(items), 0int,
{
    if items.len() == 0 {
        Err(ParseErr::NoArgsInApplication)
    } else {
        match elaborated(items[0], scope) {
            Ok(first) => elab_app_rest(first, items.drop_first(), scope),
            Err(e) => Err(e),
        }
    }
}

pub open spec fn elab_app_rest(
    acc: Term,
    rest: Seq<RawTerm>,
    scope: Set<Seq<char>>,
) -> Result<Term, ParseErr>
    decreases terms_height(rest), 0int,
{
    if rest.len() == 0 {
        Ok(acc)
    } else {
        match elaborated(rest[0], scope) {
            Ok(arg) => elab_app_rest(
                Term::App(Box::new(acc), Box::new(arg)),
                rest.drop_first(),
                scope,
            ),
            Err(e) => Err(e),
        }
    }
}

/// The whole pipeline on a source text: tokenize, run the stack machine,
/// elaborate with no name in scope.
pub open spec fn parsed(s: Seq<char>) -> Result<Term, ParseErr> {
    match raw_parsed(tokens_of(s)) {
        Ok(t) => elaborated(t, Set::empty()),
        Err(e) => Err(e),
    }
}

/// Whether `name` is one of the names on the scope stack.
fn contains_name(store: &Vec<String>, name: &String) -> (b: bool)
    ensures
        b == scope_set(store@).contains(name@),
{
    let n: usize = store.len();
    let mut i: usize = 0;
    while i < n
        invariant
            i <= n,
            n == store@.len(),
            forall|j: int| 0 <= j < i ==> #[trigger] store@[j]@ != name@,
        decreases n - i,
    {
        let entry = &store[i];
        if *entry == *name {
            proof {
                assert(store@[i as int]@ == name@);
            }
            return true;
        }
        i = i + 1;
    }
    false
}

/// Elaborates one untyped node under the scope stack `store`: every symbol
/// must be bound, and lambdas and applications desugar to the binary typed
/// form. On success the scope stack is returned as it was; on an error, as
/// with the fail-fast early returns throughout the elaborator, names pushed
/// below may remain, but the old contents always stay a prefix, and a bare
/// symbol node never touches the stack.
#[allow(non_snake_case)]
pub fn parse_AST(program: &RawAST, store: &mut Vec<String>) -> (r: Result<AST, ParseErr>)
    ensures
        ast_result_view(r) == elaborated(program@, scope_set(old(store)@)),
        r is Ok ==> final(store)@ == old(store)@,
        program@ is Sym ==> final(store)@ == old(store)@,
        old(store)@.is_prefix_of(final(store)@),
    decreases term_height(program@), 0int,
{
    match program {
        RawAST::Sym(sym) => {
            if contains_name(store, sym) {
                Ok(AST::Sym(sym.clone()))
            } else {
                Err(ParseErr::UnexpectedSymbol)
            }
        },
        RawAST::Lam(l) => match l {
            RawLambda::Args(_) => Err(ParseErr::NoLambdaBody),
            RawLambda::Full(args, body) => {
                proof {
                    lemma_raw_terms_of(args@);
                }
                if args.len() == 0 {
                    Err(ParseErr::NoLambdaArgs)
                } else {
                    parse_lambda(args.as_slice(), body.as_slice(), store)
                }
            },
        },
        RawAST::App(items) => parse_application(items.as_slice(), store),
    }
}

/// Desugars a lambda by right-folding its parameters: each parameter wraps
/// the elaboration of the remaining parameters and body. A parameter already
/// in scope shadows the outer binding and the scope stack is left untouched
/// for it; a fresh parameter is pushed for the recursive call and popped
/// afterwards, so that the outer scope is restored.
pub fn parse_lambda(args: &[RawAST], body: &[RawAST], store: &mut Vec<String>) -> (r: Result<
    AST,
    ParseErr,
>)
    ensures
        ast_result_view(r) == elab_lambda(
            raw_terms_of(args@),
            raw_terms_of(body@),
            scope_set(old(store)@),
        ),
        r is Ok ==> final(store)@ == old(store)@,
        old(store)@.is_prefix_of(final(store)@),
    decreases terms_height(raw_terms_of(args@)) + terms_height(raw_terms_of(body@)), 1int,
{
    let n: usize = args.len();
    proof {
        lemma_raw_terms_of(args@);
    }
    if n == 0 {
        parse_application(body, store)
    } else {
        let head = vstd::slice::slice_index_get(args, 0);
        match head {
            RawAST::Sym(sym) => {
                let tail = vstd::slice::slice_subrange(args, 1, n);
                proof {
                    lemma_raw_terms_of(tail@);
                    assert(tail@ =~= args@.drop_first());
                    assert(raw_terms_of(tail@) =~= raw_terms_of(args@).drop_first());
                    assert(raw_terms_of(args@)[0] == RawTerm::Sym(sym@));
                }
                let present = contains_name(store, sym);
                if present {
                    proof {
                        assert(scope_set(store@).insert(sym@) =~= scope_set(store@));
                    }
                    match parse_lambda(tail, body, store) {
                        Ok(inner) => Ok(AST::Lam(sym.clone(), Box::new(inner))),
                        Err(e) => Err(e),
                    }
                } else {
                    let ghost pre = store@;
                    store.push(sym.clone());
                    proof {
                        assert forall|x: Seq<char>|
                            scope_set(store@).contains(x)
                                == scope_set(pre).insert(sym@).contains(x) by {
                            if scope_set(pre).insert(sym@).contains(x) {
                                if x == sym@ {
                                    assert(store@[pre.len() as int]@ == sym@);
                                } else {
                                    let i = choose|i: int|
                                        0 <= i < pre.len() && #[trigger] pre[i]@ == x;
                                    assert(store@[i]@ == x);
                                }
                            }
                            if scope_set(store@).contains(x) {
                                let i = choose|i: int|
                                    0 <= i < store@.len() && #[trigger] store@[i]@ == x;
                                if i < pre.len() {
                                    assert(pre[i]@ == x);
                                }
                            }
                        }
                        assert(scope_set(store@) =~= scope_set(pre).insert(sym@));
                    }
                    match parse_lambda(tail, body, store) {
                        Ok(inner) => {
                            let _ = store.pop();
                            proof {
                                assert(store@ =~= pre);
                            }
                            Ok(AST::Lam(sym.clone(), Box::new(inner)))
                        },
                        Err(e) => Err(e),
                    }
                }
            },
            _ => Err(ParseErr::OnlySymbolAllowedInLambdaArgs),
        }
    }
}

/// Left-folds an application's children into a chain of binary applications,
/// elaborating them left to right; the first violation aborts the fold. An
/// empty child list is rejected with the scope stack untouched.
pub fn parse_application(args: &[RawAST], store: &mut Vec<String>) -> (r: Result<AST, ParseErr>)
    ensures
        ast_result_view(r) == elab_app(raw_terms_of(args@), scope_set(old(store)@)),
        r is Ok ==> final(store)@ == old(store)@,
        raw_terms_of(args@).len() == 0 ==> final(store)@ == old(store)@,
        old(store)@.is_prefix_of(final(store)@),
    decreases terms_height(raw_terms_of(args@)), 0int,
{
    let n: usize = args.len();
    proof {
        lemma_raw_terms_of(args@);
    }
    if n == 0 {
        return Err(ParseErr::NoArgsInApplication);
    }
    let head = vstd::slice::slice_index_get(args, 0);
    proof {
        lemma_terms_height_elem(raw_terms_of(args@), 0);
    }
    let mut result = match parse_AST(head, store) {
        Ok(t) => t,
        Err(e) => {
            return Err(e);
        },
    };
    let mut i: usize = 1;
    proof {
        assert(raw_terms_of(args@).subrange(1, n as int) =~= raw_terms_of(args@).drop_first());
    }
    while i < n
        invariant
            1 <= i <= n,
            n == args@.len(),
            store@ == old(store)@,
            elab_app(raw_terms_of(args@), scope_set(old(store)@)) == elab_app_rest(
                result@,
                raw_terms_of(args@).subrange(i as int, n as int),
                scope_set(old(store)@),
            ),
        decreases n - i,
    {
        let ghost rest = raw_terms_of(args@).subrange(i as int, n as int);
        let item = vstd::slice::slice_index_get(args, i);
        proof {
            lemma_raw_terms_of(args@);
            lemma_terms_height_elem(raw_terms_of(args@), i as int);
            assert(rest[0] == item@);
            assert(rest.drop_first() =~= raw_terms_of(args@).subrange(i + 1, n as int));
        }
        match parse_AST(item, store) {
            Ok(arg) => {
                result = AST::App(Box::new(result), Box::new(arg));
            },
            Err(e) => {
                return Err(e);
            },
        }
        i = i + 1;
    }
    proof {
        assert(raw_terms_of(args@).subrange(n as int, n as int).len() == 0);
    }
    Ok(result)
}

/// The whole pipeline on a source text: tokenizes it, builds the untyped
/// tree, and elaborates it with no name in scope.
pub fn parse(program: String) -> (r: Result<AST, ParseErr>)
    ensures
        ast_result_view(r) == parsed(program@),
{
    let mut store: Vec<String> = Vec::new();
    let toks = tokenize(program);
    match raw_parse(toks) {
        Ok(raw) => {
            proof {
                assert(scope_set(store@) =~= Set::<Seq<char>>::empty());
            }
            parse_AST(&raw, &mut store)
        },
        Err(e) => Err(e),
    }
}

/// A structural error: one of the two errors that the parser itself can
/// produce, as opposed to the scope and shape errors of elaboration.
pub open spec fn is_structural_err(e: ParseErr) -> bool {
    e == ParseErr::IncorectBracketSeq || e == ParseErr::ProgramCantStartWithSymbol
}

proof fn lemma_parse_run_structural(stack: Seq<RawTerm>, ts: Seq<TokenV>)
    ensures
        parse_run(stack, ts) matches Err(e) ==> is_structural_err(e),
    decreases ts.len(),
{
    if ts.len() > 0 {
        match parse_step(stack, ts[0]) {
            Ok(next) => lemma_parse_run_structural(next, ts.drop_first()),
            Err(_) => {},
        }
    }
}

/// Whenever the structural parser fails, on mismatched bracket kinds or any
/// other ill-formed token sequence, the error is a structural one: never a
/// scope or shape error.
pub proof fn lemma_parser_errors_structural(ts: Seq<TokenV>)
    ensures
        raw_parsed(ts) matches Err(e) ==> is_structural_err(e),
{
    lemma_parse_run_structural(Seq::empty(), ts);
}

/// Over a whole source text: when the structural parser fails, the pipeline
/// reports exactly that failure, and it is structural, never a scope or
/// shape error.
pub proof fn lemma_text_parser_errors_structural(s: Seq<char>)
    ensures
        raw_parsed(tokens_of(s)) matches Err(e) ==> parsed(s) == Err::<Term, ParseErr>(e)
            && is_structural_err(e),
{
    lemma_parser_errors_structural(tokens_of(s));
}

/// A structurally valid untyped tree whose every symbol is bound: lambdas
/// carry at least one parameter, each parameter is a bare symbol, bodies and
/// applications are non-empty, and every symbol is in scope, with a lambda's
/// parameters in scope for its body.
pub open spec fn raw_well_formed(t: RawTerm, scope: Set<Seq<char>>) -> bool
    decreases term_height(t), 0int,
{
    match t {
        RawTerm::Sym(name) => scope.contains(name),
        RawTerm::LamArgs(_) => false,
        RawTerm::LamFull(args, body) => args.len() > 0 && raw_lambda_well_formed(
            args,
            body,
            scope,
        ),
        RawTerm::App(items) => items.len() > 0 && raw_items_well_formed(items, scope),
    }
}

pub open spec fn raw_lambda_well_formed(
    args: Seq<RawTerm>,
    body: Seq<RawTerm>,
    scope: Set<Seq<char>>,
) -> bool
    decreases terms_height(args) + terms_height(body), 1int,
{
    if args.len() == 0 {
        body.len() > 0 && raw_items_well_formed(body, scope)
    } else {
        match args[0] {
            RawTerm::Sym(name) => raw_lambda_well_formed(
                args.drop_first(),
                body,
                scope.insert(name),
            ),
            _ => false,
        }
    }
}

pub open spec fn raw_items_well_formed(items: Seq<RawTerm>, scope: Set<Seq<char>>) -> bool
    decreases terms_height(items), 0int,
{
    if items.len() == 0 {
        true
    } else {
        raw_well_formed(items[0], scope) && raw_items_well_formed(items.drop_first(), scope)
    }
}

/// A typed tree in which every symbol is bound by an enclosing lambda or by
/// the given ambient scope.
pub open spec fn well_scoped(t: Term, scope: Set<Seq<char>>) -> bool
    decreases t,
{
    match t {
        Term::Sym(name) => scope.contains(name),
        Term::Lam(arg, body) => well_scoped(*body, scope.insert(arg)),
        Term::App(func, args) => well_scoped(*func, scope) && well_scoped(*args, scope),
    }
}

/// Elaboration of a structurally valid untyped tree whose every symbol is
/// bound succeeds, and the typed tree it produces has no unbound symbol.
pub proof fn lemma_elaboration_succeeds(t: RawTerm, scope: Set<Seq<char>>)
    requires
        raw_well_formed(t, scope),
    ensures
        elaborated(t, scope) matches Ok(term) && well_scoped(term, scope),
    decreases term_height(t), 0int,
{
    match t {
        RawTerm::Sym(_) => {},
        RawTerm::LamArgs(_) => {},
        RawTerm::LamFull(args, body) => {
            lemma_elab_lambda_ok(args, body, scope);
        },
        RawTerm::App(items) => {
            lemma_elab_app_ok(items, scope);
        },
    }
}

proof fn lemma_elab_lambda_ok(args: Seq<RawTerm>, body: Seq<RawTerm>, scope: Set<Seq<char>>)
    requires
        raw_lambda_well_formed(args, body, scope),
    ensures
        elab_lambda(args, body, scope) matches Ok(term) && well_scoped(term, scope),
    decreases terms_height(args) + terms_height(body), 1int,
{
    if args.len() == 0 {
        lemma_elab_app_ok(body, scope);
    } else {
        match args[0] {
            RawTerm::Sym(name) => {
                lemma_elab_lambda_ok(args.drop_first(), body, scope.insert(name));
            },
            _ => {},
        }
    }
}

proof fn lemma_elab_app_ok(items: Seq<RawTerm>, scope: Set<Seq<char>>)
    requires
        items.len() > 0,
        raw_items_well_formed(items, scope),
    ensures
        elab_app(items, scope) matches Ok(term) && well_scoped(term, scope),
    decreases terms_height(items), 0int,
{
    lemma_elaboration_succeeds(items[0], scope);
    lemma_elab_app_rest_ok(elaborated(items[0], scope)->Ok_0, items.drop_first(), scope);
}

proof fn lemma_elab_app_rest_ok(acc: Term, rest: Seq<RawTerm>, scope: Set<Seq<char>>)
    requires
        well_scoped(acc, scope),
        raw_items_well_formed(rest, scope),
    ensures
        elab_app_rest(acc, rest, scope) matches Ok(term) && well_scoped(term, scope),
    decreases terms_height(rest), 0int,
{
    if rest.len() > 0 {
        lemma_elaboration_succeeds(rest[0], scope);
        lemma_elab_app_rest_ok(
            Term::App(Box::new(acc), Box::new(elaborated(rest[0], scope)->Ok_0)),
            rest.drop_first(),
            scope,
        );
    }
}

/// The same, stated over a whole source text: a text whose tokens parse into
/// a structurally valid tree with every symbol bound elaborates successfully
/// into a tree with no unbound symbol.
pub proof fn lemma_pipeline_succeeds(s: Seq<char>)
    requires
        raw_parsed(tokens_of(s)) is Ok,
        raw_well_formed(raw_parsed(tokens_of(s))->Ok_0, Set::empty()),
    ensures
        parsed(s) is Ok,
        well_scoped(parsed(s)->Ok_0, Set::empty()),
{
    lemma_elaboration_succeeds(raw_parsed(tokens_of(s))->Ok_0, Set::empty());
}

/// The untyped image of a typed tree: the tree that a faithful textual
/// rendering of the typed tree parses back into, one parameter per lambda
/// and two children per application.
pub open spec fn raw_image(t: Term) -> RawTerm
    decreases t,
{
    match t {
        Term::Sym(name) => RawTerm::Sym(name),
        Term::Lam(arg, body) => RawTerm::LamFull(
            seq![RawTerm::Sym(arg)],
            seq![raw_image(*body)],
        ),
        Term::App(func, args) => RawTerm::App(seq![raw_image(*func), raw_image(*args)]),
    }
}

/// Elaboration is idempotent at the tree level: elaborating the untyped
/// image of an already-typed, well-scoped tree reproduces exactly that tree.
pub proof fn lemma_elaboration_idempotent(t: Term, scope: Set<Seq<char>>)
    requires
        well_scoped(t, scope),
    ensures
        elaborated(raw_image(t), scope) == Ok::<Term, ParseErr>(t),
    decreases t,
{
    match t {
        Term::Sym(_) => {},
        Term::Lam(arg, body) => {
            lemma_elaboration_idempotent(*body, scope.insert(arg));
            let args = seq![RawTerm::Sym(arg)];
            let bodies = seq![raw_image(*body)];
            assert(args.drop_first() =~= Seq::<RawTerm>::empty());
            assert(bodies.drop_first() =~= Seq::<RawTerm>::empty());
            assert(elab_app_rest(*body, bodies.drop_first(), scope.insert(arg))
                == Ok::<Term, ParseErr>(*body));
            assert(elab_app(bodies, scope.insert(arg)) == Ok::<Term, ParseErr>(*body));
            assert(elab_lambda(Seq::<RawTerm>::empty(), bodies, scope.insert(arg))
                == Ok::<Term, ParseErr>(*body));
            assert(elab_lambda(args, bodies, scope) == Ok::<Term, ParseErr>(t));
            assert(raw_image(t) == RawTerm::LamFull(args, bodies));
        },
        Term::App(func, args) => {
            lemma_elaboration_idempotent(*func, scope);
            lemma_elaboration_idempotent(*args, scope);
            let items = seq![raw_image(*func), raw_image(*args)];
            assert(items.drop_first() =~= seq![raw_image(*args)]);
            assert(items.drop_first().drop_first() =~= Seq::<RawTerm>::empty());
            assert(elab_app_rest(
                Term::App(Box::new(*func), Box::new(*args)),
                items.drop_first().drop_first(),
                scope,
            ) == Ok::<Term, ParseErr>(t));
            assert(elab_app_rest(*func, items.drop_first(), scope) == Ok::<Term, ParseErr>(t));
            assert(elab_app(items, scope) == Ok::<Term, ParseErr>(t));
            assert(raw_image(t) == RawTerm::App(items));
        },
    }
}
} // verus!