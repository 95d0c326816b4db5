use vstd::prelude::*;

use crate::ast::{
    distinct_names, lemma_bind_law, slot_of, spec_bind, spec_bind_slot, Expr, ExprV, Function,
    FunctionV, Ident, IdentTable, Statement, StatementV, SysArg, SysArgV,
};
use crate::error::CompileError;
use crate::token::{Token, TokenV};

verus! {

/// The token variants that open a binary operator node.
pub open spec fn is_op_token(t: TokenV) -> bool {
    t == TokenV::Add || t == TokenV::Sub || t == TokenV::Mul || t == TokenV::Div
}

/// The operator node an operator token builds over two operands.
pub open spec fn op_node(t: TokenV, l: ExprV, r: ExprV) -> ExprV {
    if t == TokenV::Add {
        ExprV::Add(Box::new(l), Box::new(r))
    } else if t == TokenV::Sub {
        ExprV::Sub(Box::new(l), Box::new(r))
    } else if t == TokenV::Mul {
        ExprV::Mul(Box::new(l), Box::new(r))
    } else {
        ExprV::Div(Box::new(l), Box::new(r))
    }
}

/// Read exactly one expression starting at `i`: one token, and when that
/// token is an operator, two further expressions as its operands (prefix
/// notation, no precedence, no parentheses). Identifiers resolve against
/// the table `t`; an unknown name is a fatal error, as is running out of
/// tokens. The result carries the position just past the expression.
pub open spec fn spec_parse_expr(ts: Seq<TokenV>, i: int, t: Seq<Seq<char>>) -> Result<
    (ExprV, int),
    CompileError,
>
    decreases ts.len() - i
        when 0 <= i <= ts.len()
{
    if i >= ts.len() {
        Err(CompileError::UnexpectedEnd)
    } else {
        match ts[i] {
            TokenV::Ident(name) => {
                let k = slot_of(t, name);
                if k >= 0 {
                    Ok((ExprV::Ident(k), i + 1))
                } else {
                    Err(CompileError::UndeclaredIdentifier)
                }
            },
            TokenV::Int(n) => Ok((ExprV::Int(n), i + 1)),
            TokenV::Add | TokenV::Sub | TokenV::Mul | TokenV::Div => {
                match spec_parse_expr(ts, i + 1, t) {
                    Err(e) => Err(e),
                    Ok((l, j)) => {
                        // a successful read always advances, so this test never
                        // fails; it keeps the recursion visibly bounded
                        if i + 1 <= j && j <= ts.len() {
                            match spec_parse_expr(ts, j, t) {
                                Err(e) => Err(e),
                                Ok((r, k)) => Ok((op_node(ts[i], l, r), k)),
                            }
                        } else {
                            Err(CompileError::UnexpectedEnd)
                        }
                    },
                }
            },
            _ => Err(CompileError::UnexpectedToken),
        }
    }
}

/// A successful expression read consumes at least one token and never
/// runs past the end.
pub proof fn lemma_parse_expr_bounds(ts: Seq<TokenV>, i: int, t: Seq<Seq<char>>)
    requires
        0 <= i <= ts.len(),
    ensures
        spec_parse_expr(ts, i, t) matches Ok(p) ==> i + 1 <= p.1 <= ts.len(),
    decreases ts.len() - i,
{
    if i < ts.len() {
        match ts[i] {
            TokenV::Add | TokenV::Sub | TokenV::Mul | TokenV::Div => {
                lemma_parse_expr_bounds(ts, i + 1, t);
                match spec_parse_expr(ts, i + 1, t) {
                    Ok(p) => {
                        if i + 1 <= p.1 <= ts.len() {
                            lemma_parse_expr_bounds(ts, p.1, t);
                        }
                    },
                    Err(_) => {},
                }
            },
            _ => {},
        }
    }
}

/// The position of the first statement terminator at or after `i`, or
/// the end of the tokens when none remains.
pub open spec fn eot_end(ts: Seq<TokenV>, i: int) -> int
    decreases ts.len() - i
        when 0 <= i <= ts.len()
{
    if i < ts.len() {
        if ts[i] == TokenV::Eot {
            i
        } else {
            eot_end(ts, i + 1)
        }
    } else {
        i
    }
}

pub proof fn lemma_eot_end_bounds(ts: Seq<TokenV>, i: int)
    requires
        0 <= i <= ts.len(),
    ensures
        i <= eot_end(ts, i) <= ts.len(),
    decreases ts.len() - i,
{
    if i < ts.len() && ts[i] != TokenV::Eot {
        lemma_eot_end_bounds(ts, i + 1);
    }
}

/// Where parsing resumes after a terminator-delimited run: just past the
/// terminator, or the end of the tokens when the run ran to the end.
pub open spec fn past_eot(ts: Seq<TokenV>, end: int) -> int {
    if end < ts.len() {
        end + 1
    } else {
        end
    }
}

/// The parameter names of a declaration: every token before the next
/// terminator must be an identifier, collected in order.
pub open spec fn param_names(ts: Seq<TokenV>, i: int, end: int) -> Result<
    Seq<Seq<char>>,
    CompileError,
>
    decreases end - i
        when i <= end
{
    if i >= end {
        Ok(Seq::empty())
    } else {
        match ts[i] {
            TokenV::Ident(name) => match param_names(ts, i + 1, end) {
                Ok(rest) => Ok(seq![name] + rest),
                Err(e) => Err(e),
            },
            _ => Err(CompileError::UnexpectedToken),
        }
    }
}

/// The argument list of a system call: literals are kept as written,
/// identifiers are resolved against the table `t`, and anything else is
/// a fatal error.
pub open spec fn spec_args(ts: Seq<TokenV>, i: int, end: int, t: Seq<Seq<char>>) -> Result<
    Seq<SysArgV>,
    CompileError,
>
    decreases end - i
        when i <= end
{
    if i >= end {
        Ok(Seq::empty())
    } else {
        let arg: Result<SysArgV, CompileError> = match ts[i] {
            TokenV::Int(n) => Ok(SysArgV::Int(n)),
            TokenV::Ident(name) => {
                let k = slot_of(t, name);
                if k >= 0 {
                    Ok(SysArgV::Ident(k))
                } else {
                    Err(CompileError::UndeclaredIdentifier)
                }
            },
            _ => Err(CompileError::UnexpectedToken),
        };
        match arg {
            Err(e) => Err(e),
            Ok(a) => match spec_args(ts, i + 1, end, t) {
                Ok(rest) => Ok(seq![a] + rest),
                Err(e) => Err(e),
            },
        }
    }
}

/// The identifier table a function starts with: its parameters bound in
/// declaration order, so the first parameter takes the first slot. A
/// repeated parameter name keeps its first slot.
pub open spec fn seed_table(params: Seq<Seq<char>>) -> Seq<Seq<char>>
    decreases params.len(),
{
    if params.len() == 0 {
        Seq::empty()
    } else {
        spec_bind(seed_table(params.drop_last()), params.last())
    }
}

/// A freshly declared function, before any statement is parsed.
pub open spec fn new_function(name: Seq<char>, params: Seq<Seq<char>>) -> FunctionV {
    FunctionV { name, params, idents: seed_table(params), statements: Seq::empty() }
}

/// The function under construction, extended by one statement.
pub open spec fn with_statement(f: FunctionV, st: StatementV) -> FunctionV {
    FunctionV { name: f.name, params: f.params, idents: f.idents, statements: f.statements.push(st) }
}

/// The function under construction, with `target` bound and an
/// assignment of `e` to its slot appended.
pub open spec fn with_assign(f: FunctionV, target: Seq<char>, e: ExprV) -> FunctionV {
    FunctionV {
        name: f.name,
        params: f.params,
        idents: spec_bind(f.idents, target),
        statements: f.statements.push(StatementV::Assign(spec_bind_slot(f.idents, target), e)),
    }
}

/// The completed program: the function under construction, if any,
/// follows the finished ones.
pub open spec fn flush(done: Seq<FunctionV>, cur: Option<FunctionV>) -> Seq<FunctionV> {
    match cur {
        Some(f) => done.push(f),
        None => done,
    }
}

/// Parse statements and declarations from position `i` on, given the
/// finished functions `done` and the function under construction `cur`.
/// A declaration finishes `cur` and opens a new function; the three
/// statement forms append to `cur`, and a statement token with no
/// declaration before it is a fatal error. The run's functions are the
/// finished ones followed by the last one under construction.
pub open spec fn spec_parse_from(
    ts: Seq<TokenV>,
    i: int,
    done: Seq<FunctionV>,
    cur: Option<FunctionV>,
) -> Result<Seq<FunctionV>, CompileError>
    decreases ts.len() - i
        when 0 <= i <= ts.len()
{
    if i >= ts.len() {
        Ok(flush(done, cur))
    } else {
        match ts[i] {
            TokenV::Func => {
                if i + 1 >= ts.len() {
                    Err(CompileError::UnexpectedEnd)
                } else {
                    match ts[i + 1] {
                        TokenV::Ident(fname) => {
                            proof {
                                lemma_eot_end_bounds(ts, i + 2);
                            }
                            let end = eot_end(ts, i + 2);
                            match param_names(ts, i + 2, end) {
                                Err(e) => Err(e),
                                Ok(params) => spec_parse_from(
                                    ts,
                                    past_eot(ts, end),
                                    flush(done, cur),
                                    Some(new_function(fname, params)),
                                ),
                            }
                        },
                        _ => Err(CompileError::UnexpectedToken),
                    }
                }
            },
            TokenV::FuncCall(callee) => match cur {
                None => Err(CompileError::UnexpectedToken),
                Some(f) => spec_parse_from(
                    ts,
                    i + 1,
                    done,
                    Some(with_statement(f, StatementV::Call(callee))),
                ),
            },
            TokenV::SysCall => match cur {
                None => Err(CompileError::UnexpectedToken),
                Some(f) => {
                    if i + 1 >= ts.len() {
                        Err(CompileError::UnexpectedEnd)
                    } else {
                        match ts[i + 1] {
                            TokenV::Int(num) => {
                                proof {
                                    lemma_eot_end_bounds(ts, i + 2);
                                }
                                let end = eot_end(ts, i + 2);
                                match spec_args(ts, i + 2, end, f.idents) {
                                    Err(e) => Err(e),
                                    Ok(args) => spec_parse_from(
                                        ts,
                                        past_eot(ts, end),
                                        done,
                                        Some(with_statement(f, StatementV::SysCall(num, args))),
                                    ),
                                }
                            },
                            _ => Err(CompileError::UnexpectedToken),
                        }
                    }
                },
            },
            TokenV::Type(_) => match cur {
                None => Err(CompileError::UnexpectedToken),
                Some(f) => {
                    if i + 1 >= ts.len() {
                        Err(CompileError::UnexpectedEnd)
                    } else {
                        match ts[i + 1] {
                            TokenV::Ident(target) => {
                                if i + 2 >= ts.len() {
                                    Err(CompileError::UnexpectedEnd)
                                } else if ts[i + 2] != TokenV::Assign {
                                    Err(CompileError::UnexpectedToken)
                                } else {
                                    proof {
                                        lemma_parse_expr_bounds(ts, i + 3, f.idents);
                                    }
                                    match spec_parse_expr(ts, i + 3, f.idents) {
                                        Err(e) => Err(e),
                                        Ok((e, j)) => {
                                            if j >= ts.len() {
                                                Err(CompileError::UnexpectedEnd)
                                            } else if ts[j] != TokenV::Eot {
                                                Err(CompileError::UnexpectedToken)
                                            } else {
                                                spec_parse_from(
                                                    ts,
                                                    j + 1,
                                                    done,
                                                    Some(with_assign(f, target, e)),
                                                )
                                            }
                                        },
                                    }
                                }
                            },
                            _ => Err(CompileError::UnexpectedToken),
                        }
                    }
                },
            },
            _ => Err(CompileError::UnexpectedToken),
        }
    }
}

/// The functions of a token sequence, or the first structural or
/// semantic error. An error yields no functions at all: no partial
/// output survives a failed run.
pub open spec fn spec_parse(ts: Seq<TokenV>) -> Result<Seq<FunctionV>, CompileError> {
    spec_parse_from(ts, 0, Seq::empty(), None)
}

/// The mathematical image of the parser's result.
pub open spec fn parse_output(r: Result<Vec<Function>, CompileError>) -> Result<
    Seq<FunctionV>,
    CompileError,
> {
    match r {
        Ok(v) => Ok(v.deep_view()),
        Err(e) => Err(e),
    }
}

proof fn lemma_cons_shift<A>(done: Seq<A>, x: A, rest: Seq<A>)
    ensures
        done.push(x) + rest == done + (seq![x] + rest),
{
    assert(done.push(x) + rest =~= done + (seq![x] + rest));
}

/// Whether a token is the statement terminator.
fn is_eot(t: &Token) -> (r: bool)
    ensures
        r == (t.deep_view() == TokenV::Eot),
{
    match t {
        Token::Eot => true,
        _ => false,
    }
}

/// Read one expression in prefix form starting at position `i` of the
/// token sequence, resolving identifiers against `idents`. On success
/// the expression and the position just past it come back; the outcome
/// is exactly what `spec_parse_expr` says for this position.
pub fn expr(tokens: &Vec<Token>, i: usize, idents: &IdentTable) -> (r: Result<
    (Expr, usize),
    CompileError,
>)
    requires
        i as int <= tokens@.len(),
    ensures
        match r {
            Ok(p) => spec_parse_expr(tokens.deep_view(), i as int, idents@) == Ok::<
                _,
                CompileError,
            >((p.0.deep_view(), p.1 as int)) && i < p.1 <= tokens@.len(),
            Err(err) => spec_parse_expr(tokens.deep_view(), i as int, idents@) == Err::<
                (ExprV, int),
                CompileError,
            >(err),
        },
    decreases tokens@.len() - i,
{
    let ghost ts = tokens.deep_view();
    if i >= tokens.len() {
        return Err(CompileError::UnexpectedEnd);
    }
    proof {
        assert(ts[i as int] == tokens@[i as int].deep_view());
    }
    let tok = &tokens[i];
    match tok {
        Token::Ident(name) => match idents.lookup(name) {
            Some(id) => Ok((Expr::Ident(id), i + 1)),
            None => Err(CompileError::UndeclaredIdentifier),
        },
        Token::Int(n) => Ok((Expr::Int(*n), i + 1)),
        Token::Add | Token::Sub | Token::Mul | Token::Div => {
            let (lexp, j) = match expr(tokens, i + 1, idents) {
                Ok(p) => p,
                Err(err) => {
                    return Err(err);
                },
            };
            let (rexp, k) = match expr(tokens, j, idents) {
                Ok(p) => p,
                Err(err) => {
                    return Err(err);
                },
            };
            let node = match tok {
                Token::Add => Expr::Add(Box::new(lexp), Box::new(rexp)),
                Token::Sub => Expr::Sub(Box::new(lexp), Box::new(rexp)),
                Token::Mul => Expr::Mul(Box::new(lexp), Box::new(rexp)),
                _ => Expr::Div(Box::new(lexp), Box::new(rexp)),
            };
            Ok((node, k))
        },
        _ => Err(CompileError::UnexpectedToken),
    }
}

/// Parse the whole token sequence into the program's functions: a single
/// forward pass driven by the token that starts each statement or
/// declaration, resolving identifiers to slots as it goes. The result is
/// exactly `spec_parse` of the tokens; on the first violation the run
/// aborts with that error and yields no functions.
#[verifier::loop_isolation(false)]
pub fn parse(tokens: Vec<Token>) -> (r: Result<Vec<Function>, CompileError>)
    ensures
        parse_output(r) == spec_parse(tokens.deep_view()),
{
    let ghost ts = tokens.deep_view();
    let n = tokens.len();
    let mut done: Vec<Function> = Vec::new();
    let mut cur: Option<Function> = None;
    let mut i: usize = 0;
    proof {
        assert(done.deep_view() =~= Seq::<FunctionV>::empty());
    }
    while i < n
        invariant
            i <= n,
            n == ts.len(),
            ts == tokens.deep_view(),
            spec_parse(ts) == spec_parse_from(ts, i as int, done.deep_view(), cur.deep_view()),
        decreases n - i,
    {
        let ghost done0 = done.deep_view();
        let ghost cur0 = cur.deep_view();
        proof {
            assert(ts[i as int] == tokens@[i as int].deep_view());
        }
        match &tokens[i] {
            Token::Func => {
                if i + 1 >= n {
                    return Err(CompileError::UnexpectedEnd);
                }
                proof {
                    assert(ts[i as int + 1] == tokens@[i as int + 1].deep_view());
                }
                let fname: String = match &tokens[i + 1] {
                    Token::Ident(s) => s.clone(),
                    _ => {
                        return Err(CompileError::UnexpectedToken);
                    },
                };
                let ghost end = eot_end(ts, i as int + 2);
                proof {
                    lemma_eot_end_bounds(ts, i as int + 2);
                }
                let mut params: Vec<String> = Vec::new();
                let mut j = i + 2;
                proof {
                    assert(params.deep_view() =~= Seq::<Seq<char>>::empty());
                }
                while j < n && !is_eot(&tokens[j])
                    invariant
                        i + 2 <= j,
                        j as int <= end,
                        end <= n as int,
                        end == eot_end(ts, j as int),
                        param_names(ts, i as int + 2, end) == (match param_names(
                            ts,
                            j as int,
                            end,
                        ) {
                            Ok(rest) => Ok::<Seq<Seq<char>>, CompileError>(
                                params.deep_view() + rest,
                            ),
                            Err(e) => Err(e),
                        }),
                    decreases n - j,
                {
                    proof {
                        assert(ts[j as int] == tokens@[j as int].deep_view());
                    }
                    match &tokens[j] {
                        Token::Ident(s) => {
                            let ghost p0 = params.deep_view();
                            params.push(s.clone());
                            proof {
                                lemma_eot_end_bounds(ts, j as int + 1);
                                assert(params.deep_view() =~= p0.push(s@));
                                match param_names(ts, j as int + 1, end) {
                                    Ok(rest) => {
                                        lemma_cons_shift(p0, s@, rest);
                                    },
                                    Err(_) => {},
                                }
                            }
                            j += 1;
                        },
                        _ => {
                            proof {
                                lemma_eot_end_bounds(ts, j as int + 1);
                                assert((j as int) < end);
                                assert(param_names(ts, j as int, end) == Err::<
                                    Seq<Seq<char>>,
                                    CompileError,
                                >(CompileError::UnexpectedToken));
                            }
                            return Err(CompileError::UnexpectedToken);
                        },
                    }
                }
                proof {
                    assert(j as int == end);
                    assert(params.deep_view() + Seq::<Seq<char>>::empty() =~= params.deep_view());
                    assert(param_names(ts, i as int + 2, end) == Ok::<Seq<Seq<char>>, CompileError>(
                        params.deep_view(),
                    ));
                }
                // seed the new function's table with its parameters
                let ghost fnamev = fname@;
                let ghost paramsv = params.deep_view();
                let mut f = Function {
                    name: fname,
                    params,
                    idents: IdentTable::new(),
                    statements: Vec::new(),
                };
                let m = f.params.len();
                let mut k: usize = 0;
                proof {
                    assert(f.params.deep_view().subrange(0, 0) =~= Seq::<Seq<char>>::empty());
                    assert(f.statements.deep_view() =~= Seq::<StatementV>::empty());
                }
                while k < m
                    invariant
                        k <= m,
                        m == f.params.deep_view().len(),
                        f.name@ == fnamev,
                        f.params.deep_view() == paramsv,
                        f.statements.deep_view() == Seq::<StatementV>::empty(),
                        f.idents@ == seed_table(f.params.deep_view().subrange(0, k as int)),
                    decreases m - k,
                {
                    let ghost t0 = f.idents@;
                    f.idents.bind(&f.params[k]);
                    proof {
                        let pre = f.params.deep_view().subrange(0, k as int);
                        let ext = f.params.deep_view().subrange(0, k as int + 1);
                        assert(ext.drop_last() =~= pre);
                        assert(ext.last() == f.params.deep_view()[k as int]);
                        assert(f.params.deep_view()[k as int] == f.params@[k as int].deep_view());
                    }
                    k += 1;
                }
                proof {
                    assert(f.params.deep_view().subrange(0, m as int) =~= f.params.deep_view());
                }
                match cur {
                    Some(pf) => {
                        done.push(pf);
                        proof {
                            assert(done.deep_view() =~= flush(done0, cur0));
                        }
                    },
                    None => {},
                }
                let ghost fv = f.deep_view();
                cur = Some(f);
                proof {
                    assert(fv == new_function(fnamev, paramsv));
                }
                if j < n {
                    i = j + 1;
                } else {
                    i = j;
                }
            },
            Token::FuncCall(name) => {
                if cur.is_none() {
                    return Err(CompileError::UnexpectedToken);
                }
                let mut f = cur.unwrap();
                let ghost f0 = f.deep_view();
                let ghost s0 = f.statements.deep_view();
                f.statements.push(Statement::Call(name.clone()));
                proof {
                    assert(f.statements.deep_view() =~= s0.push(StatementV::Call(name@)));
                }
                cur = Some(f);
                i += 1;
            },
            Token::SysCall => {
                if cur.is_none() {
                    return Err(CompileError::UnexpectedToken);
                }
                if i + 1 >= n {
                    return Err(CompileError::UnexpectedEnd);
                }
                proof {
                    assert(ts[i as int + 1] == tokens@[i as int + 1].deep_view());
                }
                let num: u32 = match &tokens[i + 1] {
                    Token::Int(v) => *v,
                    _ => {
                        return Err(CompileError::UnexpectedToken);
                    },
                };
                let mut f = cur.unwrap();
                let ghost f0 = f.deep_view();
                let ghost end = eot_end(ts, i as int + 2);
                proof {
                    lemma_eot_end_bounds(ts, i as int + 2);
                }
                let mut args: Vec<SysArg> = Vec::new();
                let mut j = i + 2;
                proof {
                    assert(args.deep_view() =~= Seq::<SysArgV>::empty());
                }
                while j < n && !is_eot(&tokens[j])
                    invariant
                        i + 2 <= j,
                        j as int <= end,
                        end <= n as int,
                        end == eot_end(ts, j as int),
                        f.idents@ == f0.idents,
                        spec_args(ts, i as int + 2, end, f0.idents) == (match spec_args(
                            ts,
                            j as int,
                            end,
                            f0.idents,
                        ) {
                            Ok(rest) => Ok::<Seq<SysArgV>, CompileError>(args.deep_view() + rest),
                            Err(e) => Err(e),
                        }),
                    decreases n - j,
                {
                    proof {
                        assert(ts[j as int] == tokens@[j as int].deep_view());
                    }
                    match &tokens[j] {
                        Token::Int(v) => {
                            let ghost a0 = args.deep_view();
                            args.push(SysArg::Int(*v));
                            proof {
                                lemma_eot_end_bounds(ts, j as int + 1);
                                assert(args.deep_view() =~= a0.push(SysArgV::Int(*v)));
                                match spec_args(ts, j as int + 1, end, f0.idents) {
                                    Ok(rest) => {
                                        lemma_cons_shift(a0, SysArgV::Int(*v), rest);
                                    },
                                    Err(_) => {},
                                }
                            }
                            j += 1;
                        },
                        Token::Ident(s) => {
                            let id = match f.idents.lookup(s) {
                                Some(id) => id,
                                None => {
                                    proof {
                                        lemma_eot_end_bounds(ts, j as int + 1);
                                        assert((j as int) < end);
                                        assert(spec_args(ts, j as int, end, f0.idents) == Err::<
                                            Seq<SysArgV>,
                                            CompileError,
                                        >(CompileError::UndeclaredIdentifier));
                                    }
                                    return Err(CompileError::UndeclaredIdentifier);
                                },
                            };
                            let ghost a0 = args.deep_view();
                            args.push(SysArg::Ident(id));
                            proof {
                                lemma_eot_end_bounds(ts, j as int + 1);
                                assert(args.deep_view() =~= a0.push(SysArgV::Ident(id.index as int)));
                                match spec_args(ts, j as int + 1, end, f0.idents) {
                                    Ok(rest) => {
                                        lemma_cons_shift(a0, SysArgV::Ident(id.index as int), rest);
                                    },
                                    Err(_) => {},
                                }
                            }
                            j += 1;
                        },
                        _ => {
                            proof {
                                lemma_eot_end_bounds(ts, j as int + 1);
                                assert((j as int) < end);
                                assert(spec_args(ts, j as int, end, f0.idents) == Err::<
                                    Seq<SysArgV>,
                                    CompileError,
                                >(CompileError::UnexpectedToken));
                            }
                            return Err(CompileError::UnexpectedToken);
                        },
                    }
                }
                proof {
                    assert(j as int == end);
                    assert(args.deep_view() + Seq::<SysArgV>::empty() =~= args.deep_view());
                    assert(spec_args(ts, i as int + 2, end, f0.idents) == Ok::<
                        Seq<SysArgV>,
                        CompileError,
                    >(args.deep_view()));
                }
                let ghost s0 = f.statements.deep_view();
                let ghost argsv = args.deep_view();
                f.statements.push(Statement::SysCall(num, args));
                proof {
                    assert(f.statements.deep_view() =~= s0.push(StatementV::SysCall(num, argsv)));
                }
                cur = Some(f);
                if j < n {
                    i = j + 1;
                } else {
                    i = j;
                }
            },
            Token::Type(_) => {
                if cur.is_none() {
                    return Err(CompileError::UnexpectedToken);
                }
                if i + 1 >= n {
                    return Err(CompileError::UnexpectedEnd);
                }
                proof {
                    assert(ts[i as int + 1] == tokens@[i as int + 1].deep_view());
                }
                let target: String = match &tokens[i + 1] {
                    Token::Ident(s) => s.clone(),
                    _ => {
                        return Err(CompileError::UnexpectedToken);
                    },
                };
                if i + 2 >= n {
                    return Err(CompileError::UnexpectedEnd);
                }
                proof {
                    assert(ts[i as int + 2] == tokens@[i as int + 2].deep_view());
                }
                match &tokens[i + 2] {
                    Token::Assign => {},
                    _ => {
                        return Err(CompileError::UnexpectedToken);
                    },
                }
                let mut f = cur.unwrap();
                let ghost f0 = f.deep_view();
                let (eexp, j) = match expr(&tokens, i + 3, &f.idents) {
                    Ok(p) => p,
                    Err(err) => {
                        return Err(err);
                    },
                };
                if j >= n {
                    return Err(CompileError::UnexpectedEnd);
                }
                proof {
                    assert(ts[j as int] == tokens@[j as int].deep_view());
                }
                match &tokens[j] {
                    Token::Eot => {},
                    _ => {
                        return Err(CompileError::UnexpectedToken);
                    },
                }
                let id = f.idents.bind(&target);
                let ghost s0 = f.statements.deep_view();
                f.statements.push(Statement::Assign(id, eexp));
                proof {
                    assert(f.statements.deep_view() =~= s0.push(
                        StatementV::Assign(id.index as int, eexp.deep_view()),
                    ));
                }
                cur = Some(f);
                i = j + 1;
            },
            _ => {
                return Err(CompileError::UnexpectedToken);
            },
        }
    }
    match cur {
        Some(f) => {
            let ghost done0 = done.deep_view();
            let ghost fv = f.deep_view();
            done.push(f);
            proof {
                assert(done.deep_view() =~= done0.push(fv));
            }
        },
        None => {},
    }
    Ok(done)
}

/// Whether a statement assigns to a variable.
pub open spec fn is_assign(st: StatementV) -> bool {
    st matches StatementV::Assign(_, _)
}

/// No statement of the run assigns to a variable.
pub open spec fn no_assign(stmts: Seq<StatementV>) -> bool {
    forall|k: int| 0 <= k < stmts.len() ==> !is_assign(#[trigger] stmts[k])
}

/// The per-function guarantee of a parse: a function whose statements
/// never assign keeps exactly its seeded parameter table.
pub open spec fn params_table_ok(f: FunctionV) -> bool {
    no_assign(f.statements) ==> f.idents == seed_table(f.params)
}

proof fn lemma_params_table_push(f: FunctionV, st: StatementV)
    requires
        params_table_ok(f),
        !is_assign(st),
    ensures
        params_table_ok(with_statement(f, st)),
{
    let f2 = with_statement(f, st);
    if no_assign(f2.statements) {
        assert forall|k: int| 0 <= k < f.statements.len() implies !is_assign(
            #[trigger] f.statements[k],
        ) by {
            assert(f.statements[k] == f2.statements[k]);
        }
    }
}

proof fn lemma_parse_from_params(
    ts: Seq<TokenV>,
    i: int,
    done: Seq<FunctionV>,
    cur: Option<FunctionV>,
    funcs: Seq<FunctionV>,
)
    requires
        0 <= i <= ts.len(),
        spec_parse_from(ts, i, done, cur) == Ok::<Seq<FunctionV>, CompileError>(funcs),
        forall|k: int| 0 <= k < done.len() ==> params_table_ok(#[trigger] done[k]),
        cur matches Some(f) ==> params_table_ok(f),
    ensures
        forall|k: int| 0 <= k < funcs.len() ==> params_table_ok(#[trigger] funcs[k]),
    decreases ts.len() - i,
{
    if i >= ts.len() {
        match cur {
            Some(f) => {
                assert(funcs == done.push(f));
            },
            None => {},
        }
    } else {
        match ts[i] {
            TokenV::Func => {
                match ts[i + 1] {
                    TokenV::Ident(fname) => {
                        let end = eot_end(ts, i + 2);
                        lemma_eot_end_bounds(ts, i + 2);
                        match param_names(ts, i + 2, end) {
                            Err(_) => {},
                            Ok(params) => {
                                let done2 = flush(done, cur);
                                assert forall|k: int| 0 <= k < done2.len() implies params_table_ok(
                                    #[trigger] done2[k],
                                ) by {
                                    if k < done.len() {
                                        assert(done2[k] == done[k]);
                                    }
                                }
                                lemma_parse_from_params(
                                    ts,
                                    past_eot(ts, end),
                                    done2,
                                    Some(new_function(fname, params)),
                                    funcs,
                                );
                            },
                        }
                    },
                    _ => {},
                }
            },
            TokenV::FuncCall(callee) => {
                match cur {
                    None => {},
                    Some(f) => {
                        lemma_params_table_push(f, StatementV::Call(callee));
                        lemma_parse_from_params(
                            ts,
                            i + 1,
                            done,
                            Some(with_statement(f, StatementV::Call(callee))),
                            funcs,
                        );
                    },
                }
            },
            TokenV::SysCall => {
                match cur {
                    None => {},
                    Some(f) => {
                        if i + 1 < ts.len() {
                            match ts[i + 1] {
                                TokenV::Int(num) => {
                                    let end = eot_end(ts, i + 2);
                                    lemma_eot_end_bounds(ts, i + 2);
                                    match spec_args(ts, i + 2, end, f.idents) {
                                        Err(_) => {},
                                        Ok(args) => {
                                            lemma_params_table_push(
                                                f,
                                                StatementV::SysCall(num, args),
                                            );
                                            lemma_parse_from_params(
                                                ts,
                                                past_eot(ts, end),
                                                done,
                                                Some(
                                                    with_statement(
                                                        f,
                                                        StatementV::SysCall(num, args),
                                                    ),
                                                ),
                                                funcs,
                                            );
                                        },
                                    }
                                },
                                _ => {},
                            }
                        }
                    },
                }
            },
            TokenV::Type(_) => {
                match cur {
                    None => {},
                    Some(f) => {
                        if i + 2 < ts.len() {
                            match ts[i + 1] {
                                TokenV::Ident(target) => {
                                    if ts[i + 2] == TokenV::Assign {
                                        lemma_parse_expr_bounds(ts, i + 3, f.idents);
                                        match spec_parse_expr(ts, i + 3, f.idents) {
                                            Err(_) => {},
                                            Ok((e, j)) => {
                                                if j < ts.len() && ts[j] == TokenV::Eot {
                                                    let f2 = with_assign(f, target, e);
                                                    assert(!no_assign(f2.statements)) by {
                                                        assert(is_assign(
                                                            f2.statements[f.statements.len() as int],
                                                        ));
                                                    }
                                                    lemma_parse_from_params(
                                                        ts,
                                                        j + 1,
                                                        done,
                                                        Some(f2),
                                                        funcs,
                                                    );
                                                }
                                            },
                                        }
                                    }
                                },
                                _ => {},
                            }
                        }
                    },
                }
            },
            _ => {},
        }
    }
}

/// A function parsed from a program with no assignment statements keeps
/// exactly its seeded parameter table: the declared parameters, bound in
/// declaration order.
pub proof fn lemma_params_only(ts: Seq<TokenV>, funcs: Seq<FunctionV>, k: int)
    requires
        spec_parse(ts) == Ok::<Seq<FunctionV>, CompileError>(funcs),
        0 <= k < funcs.len(),
        no_assign(funcs[k].statements),
    ensures
        funcs[k].idents == seed_table(funcs[k].params),
{
    lemma_parse_from_params(ts, 0, Seq::empty(), None, funcs);
}

/// Distinct parameter names seed the table verbatim: the table of a
/// function with `N` distinct parameters and no assignments holds
/// exactly those parameters.
pub proof fn lemma_seed_distinct(params: Seq<Seq<char>>)
    requires
        forall|a: int, b: int| 0 <= a < b < params.len() ==> params[a] != params[b],
    ensures
        seed_table(params) == params,
    decreases params.len(),
{
    if params.len() > 0 {
        let pre = params.drop_last();
        assert forall|a: int, b: int| 0 <= a < b < pre.len() implies pre[a] != pre[b] by {
            assert(pre[a] == params[a] && pre[b] == params[b]);
        }
        lemma_seed_distinct(pre);
        crate::ast::lemma_slot_of_spec(pre, params.last());
        if slot_of(pre, params.last()) >= 0 {
            assert(pre[slot_of(pre, params.last())] == params[slot_of(pre, params.last())]);
        }
        assert(slot_of(pre, params.last()) == -1);
        assert(pre.push(params.last()) =~= params);
    }
}

/// Parameter `p` of such a function resolves to slot `p`: indices run
/// from zero in declaration order.
pub proof fn lemma_params_indexed(ts: Seq<TokenV>, funcs: Seq<FunctionV>, k: int, p: int)
    requires
        spec_parse(ts) == Ok::<Seq<FunctionV>, CompileError>(funcs),
        0 <= k < funcs.len(),
        no_assign(funcs[k].statements),
        forall|a: int, b: int|
            0 <= a < b < funcs[k].params.len() ==> funcs[k].params[a] != funcs[k].params[b],
        0 <= p < funcs[k].params.len(),
    ensures
        funcs[k].idents == funcs[k].params,
        slot_of(funcs[k].idents, funcs[k].params[p]) == p,
{
    lemma_params_only(ts, funcs, k);
    lemma_seed_distinct(funcs[k].params);
    crate::ast::lemma_slot_of_first(funcs[k].params, funcs[k].params[p], p);
}

proof fn lemma_parse_expr_errors(ts: Seq<TokenV>, i: int, t: Seq<Seq<char>>)
    requires
        0 <= i <= ts.len(),
    ensures
        spec_parse_expr(ts, i, t) != Err::<(ExprV, int), CompileError>(
            CompileError::TooManyArguments,
        ),
    decreases ts.len() - i,
{
    if i < ts.len() {
        match ts[i] {
            TokenV::Add | TokenV::Sub | TokenV::Mul | TokenV::Div => {
                lemma_parse_expr_errors(ts, i + 1, t);
                lemma_parse_expr_bounds(ts, i + 1, t);
                match spec_parse_expr(ts, i + 1, t) {
                    Ok(p) => {
                        lemma_parse_expr_errors(ts, p.1, t);
                    },
                    Err(_) => {},
                }
            },
            _ => {},
        }
    }
}

proof fn lemma_param_names_errors(ts: Seq<TokenV>, i: int, end: int)
    requires
        i <= end,
    ensures
        param_names(ts, i, end) != Err::<Seq<Seq<char>>, CompileError>(
            CompileError::TooManyArguments,
        ),
    decreases end - i,
{
    if i < end {
        lemma_param_names_errors(ts, i + 1, end);
    }
}

proof fn lemma_spec_args_errors(ts: Seq<TokenV>, i: int, end: int, t: Seq<Seq<char>>)
    requires
        i <= end,
    ensures
        spec_args(ts, i, end, t) != Err::<Seq<SysArgV>, CompileError>(
            CompileError::TooManyArguments,
        ),
    decreases end - i,
{
    if i < end {
        lemma_spec_args_errors(ts, i + 1, end, t);
    }
}

proof fn lemma_parse_from_errors(
    ts: Seq<TokenV>,
    i: int,
    done: Seq<FunctionV>,
    cur: Option<FunctionV>,
)
    requires
        0 <= i <= ts.len(),
    ensures
        spec_parse_from(ts, i, done, cur) != Err::<Seq<FunctionV>, CompileError>(
            CompileError::TooManyArguments,
        ),
    decreases ts.len() - i,
{
    if i < ts.len() {
        match ts[i] {
            TokenV::Func => {
                if i + 1 < ts.len() {
                    match ts[i + 1] {
                        TokenV::Ident(fname) => {
                            let end = eot_end(ts, i + 2);
                            lemma_eot_end_bounds(ts, i + 2);
                            lemma_param_names_errors(ts, i + 2, end);
                            match param_names(ts, i + 2, end) {
                                Err(_) => {},
                                Ok(params) => {
                                    lemma_parse_from_errors(
                                        ts,
                                        past_eot(ts, end),
                                        flush(done, cur),
                                        Some(new_function(fname, params)),
                                    );
                                },
                            }
                        },
                        _ => {},
                    }
                }
            },
            TokenV::FuncCall(callee) => {
                match cur {
                    None => {},
                    Some(f) => {
                        lemma_parse_from_errors(
                            ts,
                            i + 1,
                            done,
                            Some(with_statement(f, StatementV::Call(callee))),
                        );
                    },
                }
            },
            TokenV::SysCall => {
                match cur {
                    None => {},
                    Some(f) => {
                        if i + 1 < ts.len() {
                            match ts[i + 1] {
                                TokenV::Int(num) => {
                                    let end = eot_end(ts, i + 2);
                                    lemma_eot_end_bounds(ts, i + 2);
                                    lemma_spec_args_errors(ts, i + 2, end, f.idents);
                                    match spec_args(ts, i + 2, end, f.idents) {
                                        Err(_) => {},
                                        Ok(args) => {
                                            lemma_parse_from_errors(
                                                ts,
                                                past_eot(ts, end),
                                                done,
                                                Some(
                                                    with_statement(
                                                        f,
                                                        StatementV::SysCall(num, args),
                                                    ),
                                                ),
                                            );
                                        },
                                    }
                                },
                                _ => {},
                            }
                        }
                    },
                }
            },
            TokenV::Type(_) => {
                match cur {
                    None => {},
                    Some(f) => {
                        if i + 2 < ts.len() {
                            match ts[i + 1] {
                                TokenV::Ident(_) => {
                                    if ts[i + 2] == TokenV::Assign {
                                        lemma_parse_expr_bounds(ts, i + 3, f.idents);
                                        lemma_parse_expr_errors(ts, i + 3, f.idents);
                                        match spec_parse_expr(ts, i + 3, f.idents) {
                                            Err(_) => {},
                                            Ok((e, j)) => {
                                                if j < ts.len() && ts[j] == TokenV::Eot {
                                                    lemma_parse_from_errors(
                                                        ts,
                                                        j + 1,
                                                        done,
                                                        Some(
                                                            with_assign(
                                                                f,
                                                                ts[i + 1]->Ident_0,
                                                                e,
                                                            ),
                                                        ),
                                                    );
                                                }
                                            },
                                        }
                                    }
                                },
                                _ => {},
                            }
                        }
                    },
                }
            },
            _ => {},
        }
    }
}

/// Parsing never rejects a program for a system call's argument count:
/// an oversized argument list passes the parser and fails only during
/// emission.
pub proof fn lemma_parse_not_arg_count(ts: Seq<TokenV>)
    ensures
        spec_parse(ts) != Err::<Seq<FunctionV>, CompileError>(CompileError::TooManyArguments),
{
    lemma_parse_from_errors(ts, 0, Seq::empty(), None);
}

/// The number of operator nodes in an expression tree.
pub open spec fn expr_ops(e: ExprV) -> nat
    decreases e,
{
    match e {
        ExprV::Ident(_) => 0,
        ExprV::Int(_) => 0,
        ExprV::Add(l, r) => 1 + expr_ops(*l) + expr_ops(*r),
        ExprV::Sub(l, r) => 1 + expr_ops(*l) + expr_ops(*r),
        ExprV::Mul(l, r) => 1 + expr_ops(*l) + expr_ops(*r),
        ExprV::Div(l, r) => 1 + expr_ops(*l) + expr_ops(*r),
    }
}

/// How many operator tokens a token run holds.
pub open spec fn op_count(ts: Seq<TokenV>) -> nat
    decreases ts.len(),
{
    if ts.len() == 0 {
        0
    } else {
        op_count(ts.drop_last()) + (if is_op_token(ts.last()) {
            1nat
        } else {
            0nat
        })
    }
}

proof fn lemma_op_count_concat(a: Seq<TokenV>, b: Seq<TokenV>)
    ensures
        op_count(a + b) == op_count(a) + op_count(b),
    decreases b.len(),
{
    if b.len() == 0 {
        assert(a + b =~= a);
    } else {
        lemma_op_count_concat(a, b.drop_last());
        assert((a + b).drop_last() =~= a + b.drop_last());
        assert((a + b).last() == b.last());
    }
}

proof fn lemma_op_count_single(t: TokenV)
    ensures
        op_count(seq![t]) == if is_op_token(t) {
            1nat
        } else {
            0nat
        },
{
    assert(seq![t].drop_last() =~= Seq::<TokenV>::empty());
    assert(op_count(Seq::<TokenV>::empty()) == 0);
    assert(seq![t].last() == t);
}

/// Reading one expression consumes exactly the tokens that form one
/// complete prefix tree and leaves the remaining tokens untouched: the
/// outcome is the same over any token sequence that agrees on the
/// consumed run, and a run holding `K` operator tokens has length
/// exactly `2 * K + 1`.
pub proof fn lemma_expr_parse_exact(
    ts1: Seq<TokenV>,
    ts2: Seq<TokenV>,
    i: int,
    t: Seq<Seq<char>>,
    e: ExprV,
    j: int,
)
    requires
        0 <= i <= ts1.len(),
        j <= ts2.len(),
        spec_parse_expr(ts1, i, t) == Ok::<(ExprV, int), CompileError>((e, j)),
        ts2.subrange(i, j) == ts1.subrange(i, j),
    ensures
        spec_parse_expr(ts2, i, t) == Ok::<(ExprV, int), CompileError>((e, j)),
        j - i == 2 * op_count(ts1.subrange(i, j)) + 1,
        op_count(ts1.subrange(i, j)) == expr_ops(e),
    decreases ts1.len() - i,
{
    lemma_parse_expr_bounds(ts1, i, t);
    let run = ts1.subrange(i, j);
    assert(ts2[i] == ts1[i]) by {
        assert(run[0] == ts1[i]);
        assert(ts2.subrange(i, j)[0] == ts2[i]);
    }
    match ts1[i] {
        TokenV::Ident(name) => {
            assert(run =~= seq![ts1[i]]);
            lemma_op_count_single(ts1[i]);
        },
        TokenV::Int(n) => {
            assert(run =~= seq![ts1[i]]);
            lemma_op_count_single(ts1[i]);
        },
        TokenV::Add | TokenV::Sub | TokenV::Mul | TokenV::Div => {
            match spec_parse_expr(ts1, i + 1, t) {
                Ok((l, j1)) => {
                    lemma_parse_expr_bounds(ts1, i + 1, t);
                    lemma_parse_expr_bounds(ts1, j1, t);
                    match spec_parse_expr(ts1, j1, t) {
                        Ok((r2, j2)) => {
                            assert(j2 == j && e == op_node(ts1[i], l, r2));
                            assert(ts2.subrange(i + 1, j1) =~= ts1.subrange(i + 1, j1)) by {
                                assert forall|q: int| 0 <= q < j1 - (i + 1) implies #[trigger] ts2.subrange(
                                    i + 1,
                                    j1,
                                )[q] == ts1.subrange(i + 1, j1)[q] by {
                                    assert(ts1.subrange(i, j)[q + 1] == ts1[i + 1 + q]);
                                    assert(ts2.subrange(i, j)[q + 1] == ts2[i + 1 + q]);
                                }
                            }
                            lemma_expr_parse_exact(ts1, ts2, i + 1, t, l, j1);
                            assert(ts2.subrange(j1, j2) =~= ts1.subrange(j1, j2)) by {
                                assert forall|q: int| 0 <= q < j2 - j1 implies #[trigger] ts2.subrange(
                                    j1,
                                    j2,
                                )[q] == ts1.subrange(j1, j2)[q] by {
                                    assert(ts1.subrange(i, j)[q + j1 - i] == ts1[j1 + q]);
                                    assert(ts2.subrange(i, j)[q + j1 - i] == ts2[j1 + q]);
                                }
                            }
                            lemma_expr_parse_exact(ts1, ts2, j1, t, r2, j2);
                            assert(spec_parse_expr(ts2, i, t) == Ok::<
                                (ExprV, int),
                                CompileError,
                            >((e, j)));
                            assert(run =~= seq![ts1[i]] + ts1.subrange(i + 1, j1) + ts1.subrange(
                                j1,
                                j2,
                            ));
                            lemma_op_count_concat(
                                seq![ts1[i]] + ts1.subrange(i + 1, j1),
                                ts1.subrange(j1, j2),
                            );
                            lemma_op_count_concat(seq![ts1[i]], ts1.subrange(i + 1, j1));
                            lemma_op_count_single(ts1[i]);
                            assert(expr_ops(e) == 1 + expr_ops(l) + expr_ops(r2));
                        },
                        Err(_) => {
                            assert(false);
                        },
                    }
                },
                Err(_) => {
                    assert(false);
                },
            }
        },
        _ => {
            assert(false);
        },
    }
}


proof fn lemma_seed_distinct_names(params: Seq<Seq<char>>)
    ensures
        distinct_names(seed_table(params)),
    decreases params.len(),
{
    if params.len() == 0 {
        assert(distinct_names(Seq::<Seq<char>>::empty()));
    } else {
        lemma_seed_distinct_names(params.drop_last());
        lemma_bind_law(seed_table(params.drop_last()), params.last());
    }
}

proof fn lemma_parse_from_distinct(
    ts: Seq<TokenV>,
    i: int,
    done: Seq<FunctionV>,
    cur: Option<FunctionV>,
    funcs: Seq<FunctionV>,
)
    requires
        0 <= i <= ts.len(),
        spec_parse_from(ts, i, done, cur) == Ok::<Seq<FunctionV>, CompileError>(funcs),
        forall|k: int| 0 <= k < done.len() ==> distinct_names(#[trigger] done[k].idents),
        cur matches Some(f) ==> distinct_names(f.idents),
    ensures
        forall|k: int| 0 <= k < funcs.len() ==> distinct_names(#[trigger] funcs[k].idents),
    decreases ts.len() - i,
{
    if i >= ts.len() {
        match cur {
            Some(f) => {
                assert(funcs == done.push(f));
            },
            None => {},
        }
    } else {
        match ts[i] {
            TokenV::Func => {
                match ts[i + 1] {
                    TokenV::Ident(fname) => {
                        let end = eot_end(ts, i + 2);
                        lemma_eot_end_bounds(ts, i + 2);
                        match param_names(ts, i + 2, end) {
                            Err(_) => {},
                            Ok(params) => {
                                let done2 = flush(done, cur);
                                assert forall|k: int| 0 <= k < done2.len() implies distinct_names(
                                    #[trigger] done2[k].idents,
                                ) by {
                                    if k < done.len() {
                                        assert(done2[k] == done[k]);
                                    }
                                }
                                lemma_seed_distinct_names(params);
                                lemma_parse_from_distinct(
                                    ts,
                                    past_eot(ts, end),
                                    done2,
                                    Some(new_function(fname, params)),
                                    funcs,
                                );
                            },
                        }
                    },
                    _ => {},
                }
            },
            TokenV::FuncCall(callee) => {
                match cur {
                    None => {},
                    Some(f) => {
                        lemma_parse_from_distinct(
                            ts,
                            i + 1,
                            done,
                            Some(with_statement(f, StatementV::Call(callee))),
                            funcs,
                        );
                    },
                }
            },
            TokenV::SysCall => {
                match cur {
                    None => {},
                    Some(f) => {
                        if i + 1 < ts.len() {
                            match ts[i + 1] {
                                TokenV::Int(num) => {
                                    let end = eot_end(ts, i + 2);
                                    lemma_eot_end_bounds(ts, i + 2);
                                    match spec_args(ts, i + 2, end, f.idents) {
                                        Err(_) => {},
                                        Ok(args) => {
                                            lemma_parse_from_distinct(
                                                ts,
                                                past_eot(ts, end),
                                                done,
                                                Some(
                                                    with_statement(
                                                        f,
                                                        StatementV::SysCall(num, args),
                                                    ),
                                                ),
                                                funcs,
                                            );
                                        },
                                    }
                                },
                                _ => {},
                            }
                        }
                    },
                }
            },
            TokenV::Type(_) => {
                match cur {
                    None => {},
                    Some(f) => {
                        if i + 2 < ts.len() {
                            match ts[i + 1] {
                                TokenV::Ident(target) => {
                                    if ts[i + 2] == TokenV::Assign {
                                        lemma_parse_expr_bounds(ts, i + 3, f.idents);
                                        match spec_parse_expr(ts, i + 3, f.idents) {
                                            Err(_) => {},
                                            Ok((e, j)) => {
                                                if j < ts.len() && ts[j] == TokenV::Eot {
                                                    lemma_bind_law(f.idents, target);
                                                    lemma_parse_from_distinct(
                                                        ts,
                                                        j + 1,
                                                        done,
                                                        Some(with_assign(f, target, e)),
                                                        funcs,
                                                    );
                                                }
                                            },
                                        }
                                    }
                                },
                                _ => {},
                            }
                        }
                    },
                }
            },
            _ => {},
        }
    }
}

/// Every function of a parsed program has a well-formed identifier
/// table: no name appears twice, so slots form a dense range from zero
/// with one slot per name.
pub proof fn lemma_tables_distinct(ts: Seq<TokenV>, funcs: Seq<FunctionV>, k: int)
    requires
        spec_parse(ts) == Ok::<Seq<FunctionV>, CompileError>(funcs),
        0 <= k < funcs.len(),
    ensures
        distinct_names(funcs[k].idents),
{
    lemma_parse_from_distinct(ts, 0, Seq::empty(), None, funcs);
}

} // verus!
