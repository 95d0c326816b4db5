use vstd::prelude::*;

use crate::ast::{Expr, ExprV, Function, FunctionV, Statement, StatementV, SysArg, SysArgV};
use crate::error::CompileError;

verus! {

/// The character of one decimal digit value.
pub open spec fn dec_digit(d: nat) -> char {
    if d == 0 {
        '0'
    } else if d == 1 {
        '1'
    } else if d == 2 {
        '2'
    } else if d == 3 {
        '3'
    } else if d == 4 {
        '4'
    } else if d == 5 {
        '5'
    } else if d == 6 {
        '6'
    } else if d == 7 {
        '7'
    } else if d == 8 {
        '8'
    } else {
        '9'
    }
}

/// The decimal digits of `n`, most significant first.
pub open spec fn dec(n: nat) -> Seq<char>
    decreases n,
{
    if n < 10 {
        seq![dec_digit(n)]
    } else {
        dec(n / 10).push(dec_digit(n % 10))
    }
}

fn digit_str(d: u64) -> (r: &'static str)
    requires
        d < 10,
    ensures
        r@ == seq![dec_digit(d as nat)],
{
    let r: &'static str = match d {
        0 => "0",
        1 => "1",
        2 => "2",
        3 => "3",
        4 => "4",
        5 => "5",
        6 => "6",
        7 => "7",
        8 => "8",
        _ => "9",
    };
    proof {
        reveal_strlit("0");
        reveal_strlit("1");
        reveal_strlit("2");
        reveal_strlit("3");
        reveal_strlit("4");
        reveal_strlit("5");
        reveal_strlit("6");
        reveal_strlit("7");
        reveal_strlit("8");
        reveal_strlit("9");
        assert(r@ =~= seq![dec_digit(d as nat)]);
    }
    r
}

/// Append the decimal text of `n`.
fn push_dec(out: &mut String, n: u64)
    ensures
        final(out)@ == old(out)@ + dec(n as nat),
    decreases n,
{
    if n >= 10 {
        push_dec(out, n / 10);
        out.append(digit_str(n % 10));
        proof {
            assert(out@ =~= old(out)@ + dec(n as nat));
        }
    } else {
        out.append(digit_str(n));
        proof {
            assert(out@ =~= old(out)@ + dec(n as nat));
        }
    }
}

/// The operand addressing slot `k`: a fixed offset from the frame
/// pointer, scaled by the slot index and the word size. This is the only
/// addressing mode the target uses for local storage.
pub open spec fn ident_text(k: int) -> Seq<char> {
    "[rbp-"@ + dec(k as nat) + "*8]"@
}

/// Append the frame-relative operand of slot `k`.
fn push_slot(out: &mut String, k: usize)
    ensures
        final(out)@ == old(out)@ + ident_text(k as int),
{
    out.append("[rbp-");
    push_dec(out, k as u64);
    out.append("*8]");
    proof {
        assert(out@ =~= old(out)@ + ident_text(k as int));
    }
}

/// The instruction text of an expression. A bare slot or literal is just
/// its operand text, used inline by the caller; an operator node moves
/// its left operand's text into the accumulator and applies its mnemonic
/// to the accumulator with its right operand's text.
pub open spec fn expr_text(e: ExprV) -> Seq<char>
    decreases e,
{
    match e {
        ExprV::Ident(k) => ident_text(k),
        ExprV::Int(n) => dec(n as nat),
        ExprV::Add(l, r) => "mov rax, "@ + expr_text(*l) + "\nadd rax, "@ + expr_text(*r),
        ExprV::Sub(l, r) => "mov rax, "@ + expr_text(*l) + "\nsub rax, "@ + expr_text(*r),
        ExprV::Mul(l, r) => "mov rax, "@ + expr_text(*l) + "\nmul rax, "@ + expr_text(*r),
        ExprV::Div(l, r) => "mov rax, "@ + expr_text(*l) + "\ndiv rax, "@ + expr_text(*r),
    }
}

impl Expr {
    fn emit_into(&self, out: &mut String)
        ensures
            final(out)@ == old(out)@ + expr_text(self.deep_view()),
        decreases self,
    {
        match self {
            Expr::Ident(id) => {
                push_slot(out, id.index);
            },
            Expr::Int(n) => {
                push_dec(out, *n as u64);
            },
            Expr::Add(l, r) => {
                out.append("mov rax, ");
                l.emit_into(out);
                out.append("\nadd rax, ");
                r.emit_into(out);
                proof {
                    assert(out@ =~= old(out)@ + expr_text(self.deep_view()));
                }
            },
            Expr::Sub(l, r) => {
                out.append("mov rax, ");
                l.emit_into(out);
                out.append("\nsub rax, ");
                r.emit_into(out);
                proof {
                    assert(out@ =~= old(out)@ + expr_text(self.deep_view()));
                }
            },
            Expr::Mul(l, r) => {
                out.append("mov rax, ");
                l.emit_into(out);
                out.append("\nmul rax, ");
                r.emit_into(out);
                proof {
                    assert(out@ =~= old(out)@ + expr_text(self.deep_view()));
                }
            },
            Expr::Div(l, r) => {
                out.append("mov rax, ");
                l.emit_into(out);
                out.append("\ndiv rax, ");
                r.emit_into(out);
                proof {
                    assert(out@ =~= old(out)@ + expr_text(self.deep_view()));
                }
            },
        }
    }

    /// The instruction text of this expression, exactly `expr_text` of
    /// its mathematical image.
    pub fn emit(&self) -> (out: String)
        ensures
            out@ == expr_text(self.deep_view()),
    {
        let mut out = String::new();
        self.emit_into(&mut out);
        proof {
            assert(Seq::<char>::empty() + expr_text(self.deep_view()) =~= expr_text(
                self.deep_view(),
            ));
        }
        out
    }
}

/// The text of an assignment into `slot`: a bare slot or literal moves
/// directly into the slot's storage; an operator expression computes
/// into the accumulator, which is then moved into the slot.
pub open spec fn assign_text(slot: int, e: ExprV) -> Seq<char> {
    match e {
        ExprV::Ident(k) => "mov "@ + ident_text(slot) + ", "@ + ident_text(k),
        ExprV::Int(n) => "mov qword"@ + ident_text(slot) + ", "@ + dec(n as nat),
        _ => expr_text(e) + "\nmov "@ + ident_text(slot) + ", rax"@,
    }
}

/// The six registers that carry system-call arguments, in order.
pub open spec fn reg_name(k: int) -> Seq<char> {
    if k == 0 {
        "rdi"@
    } else if k == 1 {
        "rsi"@
    } else if k == 2 {
        "rdx"@
    } else if k == 3 {
        "r10"@
    } else if k == 4 {
        "r8"@
    } else {
        "r9"@
    }
}

fn reg_str(k: usize) -> (r: &'static str)
    requires
        k < 6,
    ensures
        r@ == reg_name(k as int),
{
    match k {
        0 => "rdi",
        1 => "rsi",
        2 => "rdx",
        3 => "r10",
        4 => "r8",
        _ => "r9",
    }
}

/// The operand text of one system-call argument: a literal's digits, or
/// a slot's frame-relative address.
pub open spec fn arg_text(a: SysArgV) -> Seq<char> {
    match a {
        SysArgV::Int(n) => dec(n as nat),
        SysArgV::Ident(k) => ident_text(k),
    }
}

/// The moves that load the system-call arguments into their registers,
/// from the `k`-th argument on.
pub open spec fn args_text(args: Seq<SysArgV>, k: int) -> Seq<char>
    decreases args.len() - k
        when 0 <= k <= args.len()
{
    if k >= args.len() {
        Seq::empty()
    } else {
        "mov "@ + reg_name(k) + ", "@ + arg_text(args[k]) + "\n"@ + args_text(args, k + 1)
    }
}

/// The instruction text of one statement. A system call moves its number
/// into the accumulator and each argument into the next argument
/// register; more arguments than registers is the one error found during
/// emission.
pub open spec fn statement_text(st: StatementV) -> Result<Seq<char>, CompileError> {
    match st {
        StatementV::Assign(slot, e) => Ok(assign_text(slot, e)),
        StatementV::Call(name) => Ok("call "@ + name),
        StatementV::SysCall(num, args) => if args.len() > 6 {
            Err(CompileError::TooManyArguments)
        } else {
            Ok("mov rax, "@ + dec(num as nat) + "\n"@ + args_text(args, 0) + "syscall"@)
        },
    }
}

impl Statement {
    /// The instruction text of this statement, exactly `statement_text`
    /// of its mathematical image.
    #[verifier::loop_isolation(false)]
    pub fn emit(&self) -> (r: Result<String, CompileError>)
        ensures
            match r {
                Ok(s) => statement_text(self.deep_view()) == Ok::<_, CompileError>(s@),
                Err(e) => statement_text(self.deep_view()) == Err::<Seq<char>, _>(e),
            },
    {
        match self {
            Statement::Assign(id, e) => {
                let mut out = String::new();
                match e {
                    Expr::Ident(src) => {
                        out.append("mov ");
                        push_slot(&mut out, id.index);
                        out.append(", ");
                        push_slot(&mut out, src.index);
                    },
                    Expr::Int(n) => {
                        out.append("mov qword");
                        push_slot(&mut out, id.index);
                        out.append(", ");
                        push_dec(&mut out, *n as u64);
                    },
                    _ => {
                        e.emit_into(&mut out);
                        out.append("\nmov ");
                        push_slot(&mut out, id.index);
                        out.append(", rax");
                    },
                }
                proof {
                    assert(out@ =~= assign_text(id.index as int, e.deep_view()));
                }
                Ok(out)
            },
            Statement::Call(name) => {
                let mut out = String::new();
                out.append("call ");
                out.append(name.as_str());
                proof {
                    assert(out@ =~= "call "@ + name@);
                }
                Ok(out)
            },
            Statement::SysCall(num, args) => {
                let ghost av = args.deep_view();
                if args.len() > 6 {
                    return Err(CompileError::TooManyArguments);
                }
                let mut out = String::new();
                out.append("mov rax, ");
                push_dec(&mut out, *num as u64);
                out.append("\n");
                let ghost pre = out@;
                let m = args.len();
                let mut k: usize = 0;
                while k < m
                    invariant
                        k <= m,
                        pre + args_text(av, 0) == out@ + args_text(av, k as int),
                    decreases m - k,
                {
                    let ghost out0 = out@;
                    out.append("mov ");
                    out.append(reg_str(k));
                    out.append(", ");
                    match &args[k] {
                        SysArg::Int(v) => {
                            push_dec(&mut out, *v as u64);
                        },
                        SysArg::Ident(id) => {
                            push_slot(&mut out, id.index);
                        },
                    }
                    out.append("\n");
                    proof {
                        assert(av[k as int] == args@[k as int].deep_view());
                        assert(out@ =~= out0 + ("mov "@ + reg_name(k as int) + ", "@ + arg_text(
                            av[k as int],
                        ) + "\n"@));
                        assert(pre + args_text(av, 0) =~= out@ + args_text(av, k as int + 1));
                    }
                    k += 1;
                }
                out.append("syscall");
                proof {
                    assert(args_text(av, m as int) == Seq::<char>::empty());
                    assert(out@ =~= "mov rax, "@ + dec(*num as nat) + "\n"@ + args_text(av, 0)
                        + "syscall"@);
                }
                Ok(out)
            },
        }
    }
}

/// The body lines of a function: the text of each statement from the
/// `k`-th on, one line per statement, or the first emission error.
pub open spec fn stmts_text(stmts: Seq<StatementV>, k: int) -> Result<Seq<char>, CompileError>
    decreases stmts.len() - k
        when 0 <= k <= stmts.len()
{
    if k >= stmts.len() {
        Ok(Seq::empty())
    } else {
        match statement_text(stmts[k]) {
            Err(e) => Err(e),
            Ok(line) => match stmts_text(stmts, k + 1) {
                Err(e) => Err(e),
                Ok(rest) => Ok(line + "\n"@ + rest),
            },
        }
    }
}

/// The assembly text of one function: its name, verbatim, as a label,
/// a fixed frame-setup prologue, its statements in order, and a fixed
/// frame-teardown epilogue with the return.
pub open spec fn function_text(f: FunctionV) -> Result<Seq<char>, CompileError> {
    match stmts_text(f.statements, 0) {
        Err(e) => Err(e),
        Ok(body) => Ok(
            f.name + ":\n"@ + "push rbp\nmov rbp, rsp\n"@ + body
                + "\nmov rsp, rbp\npop rbp\nret\n"@,
        ),
    }
}

/// The assembly of the functions from the `k`-th on, in declaration
/// order.
pub open spec fn funcs_text(funcs: Seq<FunctionV>, k: int) -> Result<Seq<char>, CompileError>
    decreases funcs.len() - k
        when 0 <= k <= funcs.len()
{
    if k >= funcs.len() {
        Ok(Seq::empty())
    } else {
        match function_text(funcs[k]) {
            Err(e) => Err(e),
            Ok(head) => match funcs_text(funcs, k + 1) {
                Err(e) => Err(e),
                Ok(rest) => Ok(head + rest),
            },
        }
    }
}

/// The assembly text of a whole program: a fixed two-line header naming
/// the entry symbol and the code section, then each function.
pub open spec fn program_text(funcs: Seq<FunctionV>) -> Result<Seq<char>, CompileError> {
    match funcs_text(funcs, 0) {
        Err(e) => Err(e),
        Ok(body) => Ok("global _start\nsection .text\n"@ + body),
    }
}

/// The mathematical image of the emitter's result.
pub open spec fn emit_output(r: Result<String, CompileError>) -> Result<Seq<char>, CompileError> {
    match r {
        Ok(s) => Ok(s@),
        Err(e) => Err(e),
    }
}

/// Append one function's assembly to `out`. On an error `out` is
/// abandoned by the caller.
#[verifier::loop_isolation(false)]
fn emit_function(f: &Function, out: &mut String) -> (r: Result<(), CompileError>)
    ensures
        match r {
            Ok(_) => function_text(f.deep_view()) matches Ok(t) && final(out)@ == old(out)@ + t,
            Err(e) => function_text(f.deep_view()) == Err::<Seq<char>, _>(e),
        },
{
    let ghost sv = f.statements.deep_view();
    out.append(f.name.as_str());
    out.append(":\n");
    out.append("push rbp\nmov rbp, rsp\n");
    let ghost pre = out@;
    let ghost mut built: Seq<char> = Seq::empty();
    let n = f.statements.len();
    let mut k: usize = 0;
    proof {
        assert(pre + built =~= pre);
    }
    while k < n
        invariant
            k <= n,
            out@ == pre + built,
            stmts_text(sv, 0) == (match stmts_text(sv, k as int) {
                Ok(rest) => Ok::<Seq<char>, CompileError>(built + rest),
                Err(e) => Err(e),
            }),
        decreases n - k,
    {
        proof {
            assert(sv[k as int] == f.statements@[k as int].deep_view());
        }
        let line = match f.statements[k].emit() {
            Ok(l) => l,
            Err(e) => {
                return Err(e);
            },
        };
        out.append(line.as_str());
        out.append("\n");
        proof {
            let chunk = line@ + "\n"@;
            match stmts_text(sv, k as int + 1) {
                Ok(rest) => {
                    assert(built + (chunk + rest) =~= (built + chunk) + rest);
                },
                Err(_) => {},
            }
            built = built + chunk;
            assert(out@ =~= pre + built);
        }
        k += 1;
    }
    out.append("\nmov rsp, rbp\npop rbp\nret\n");
    proof {
        assert(stmts_text(sv, n as int) == Ok::<Seq<char>, CompileError>(Seq::empty()));
        assert(built + Seq::<char>::empty() =~= built);
        assert(out@ =~= old(out)@ + (f.deep_view().name + ":\n"@ + "push rbp\nmov rbp, rsp\n"@
            + built + "\nmov rsp, rbp\npop rbp\nret\n"@));
    }
    Ok(())
}

/// Code generation: walk the parsed functions in order and produce the
/// program's assembly text, or the argument-count error. The result is
/// exactly `program_text` of the functions; parsing never rejects an
/// oversized argument list, only this stage does.
#[verifier::loop_isolation(false)]
pub fn emit(functions: &Vec<Function>) -> (r: Result<String, CompileError>)
    ensures
        emit_output(r) == program_text(functions.deep_view()),
{
    let ghost fv = functions.deep_view();
    let mut out = String::new();
    out.append("global _start\nsection .text\n");
    proof {
        assert(out@ =~= "global _start\nsection .text\n"@);
    }
    let n = functions.len();
    let mut k: usize = 0;
    while k < n
        invariant
            k <= n,
            program_text(fv) == (match funcs_text(fv, k as int) {
                Ok(rest) => Ok::<Seq<char>, CompileError>(out@ + rest),
                Err(e) => Err(e),
            }),
        decreases n - k,
    {
        proof {
            assert(fv[k as int] == functions@[k as int].deep_view());
        }
        let ghost out0 = out@;
        match emit_function(&functions[k], &mut out) {
            Ok(_) => {
                proof {
                    match function_text(fv[k as int]) {
                        Ok(head) => {
                            match funcs_text(fv, k as int + 1) {
                                Ok(rest) => {
                                    assert(out0 + (head + rest) =~= (out0 + head) + rest);
                                },
                                Err(_) => {},
                            }
                        },
                        Err(_) => {},
                    }
                }
            },
            Err(e) => {
                return Err(e);
            },
        }
        k += 1;
    }
    proof {
        assert(funcs_text(fv, n as int) == Ok::<Seq<char>, CompileError>(Seq::empty()));
        assert(out@ + Seq::<char>::empty() =~= out@);
    }
    Ok(out)
}

/// A system-call statement with more arguments than there are argument
/// registers.
pub open spec fn oversized(st: StatementV) -> bool {
    match st {
        StatementV::SysCall(_, args) => args.len() > 6,
        _ => false,
    }
}

/// Some statement from the `k`-th on is an oversized system call.
pub open spec fn has_oversized_from(stmts: Seq<StatementV>, k: int) -> bool {
    exists|b: int| k <= b < stmts.len() && oversized(#[trigger] stmts[b])
}

/// Some function of the program holds an oversized system call.
pub open spec fn program_has_oversized(funcs: Seq<FunctionV>) -> bool {
    exists|a: int| 0 <= a < funcs.len() && has_oversized_from(#[trigger] funcs[a].statements, 0)
}

proof fn lemma_stmts_arg_limit(stmts: Seq<StatementV>, k: int)
    requires
        0 <= k <= stmts.len(),
    ensures
        (stmts_text(stmts, k) is Err) <==> has_oversized_from(stmts, k),
        stmts_text(stmts, k) matches Err(e) ==> e == CompileError::TooManyArguments,
    decreases stmts.len() - k,
{
    if k < stmts.len() {
        lemma_stmts_arg_limit(stmts, k + 1);
        if oversized(stmts[k]) {
            assert(has_oversized_from(stmts, k));
        } else {
            if has_oversized_from(stmts, k) {
                let b = choose|b: int| k <= b < stmts.len() && oversized(#[trigger] stmts[b]);
                assert(b >= k + 1);
                assert(has_oversized_from(stmts, k + 1));
            }
        }
    }
}

proof fn lemma_funcs_arg_limit(funcs: Seq<FunctionV>, k: int)
    requires
        0 <= k <= funcs.len(),
    ensures
        (funcs_text(funcs, k) is Err) <==> exists|a: int|
            k <= a < funcs.len() && has_oversized_from(#[trigger] funcs[a].statements, 0),
        funcs_text(funcs, k) matches Err(e) ==> e == CompileError::TooManyArguments,
    decreases funcs.len() - k,
{
    if k < funcs.len() {
        lemma_funcs_arg_limit(funcs, k + 1);
        lemma_stmts_arg_limit(funcs[k].statements, 0);
        if funcs_text(funcs, k) is Err {
            if function_text(funcs[k]) is Err {
                assert(has_oversized_from(funcs[k].statements, 0));
            }
        } else {
            if exists|a: int|
                k <= a < funcs.len() && has_oversized_from(#[trigger] funcs[a].statements, 0) {
                let a = choose|a: int|
                    k <= a < funcs.len() && has_oversized_from(#[trigger] funcs[a].statements, 0);
                if a == k {
                    assert(function_text(funcs[k]) is Err);
                } else {
                    assert(funcs_text(funcs, k + 1) is Err);
                }
                assert(false);
            }
        }
    }
}

/// Emission fails exactly when some function holds a system call with
/// more than six arguments, and then always with the argument-count
/// error; every other program emits successfully. Together with the
/// parser, which never rejects an argument list for its length, an
/// oversized system call always gets through parsing and fails here.
pub proof fn lemma_emit_arg_limit(funcs: Seq<FunctionV>)
    ensures
        (program_text(funcs) is Err) <==> program_has_oversized(funcs),
        program_text(funcs) matches Err(e) ==> e == CompileError::TooManyArguments,
{
    lemma_funcs_arg_limit(funcs, 0);
}

} // verus!

