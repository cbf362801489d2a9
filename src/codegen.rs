use crate::ast::{Expr, Expression, Module, Statement, Stmt};
use crate::text::{decimal, push_decimal, push_signed_decimal, signed_decimal};
use vstd::prelude::*;

verus! {

/// Why a module cannot be turned into assembly.
#[derive(Clone, Copy, Debug, PartialEq, Eq, Structural)]
pub enum CodegenError {
    /// An operand or initializer that is not a constant or a variable.
    NonAtomicOperand,
    /// A variable that no earlier statement declares.
    UnknownVariable,
    /// A call with other than one argument.
    UnsupportedArgumentCount,
    /// An expression statement that is neither a call nor an atom.
    UnsupportedExpression,
    /// More variables than a frame can address.
    FrameTooLarge,
}

/// The largest number of variables a frame holds.
pub const MAX_SLOTS: u64 = 0x0fff_ffff_ffff_ffff;

/// The names declared by `m`, in order; the `i`-th lives at `rbp - 4(i+1)`.
pub open spec fn declared_names(m: Seq<Stmt>) -> Seq<Seq<char>>
    decreases m.len(),
{
    if m.len() == 0 {
        Seq::empty()
    } else {
        match m.last() {
            Stmt::Decl(name, _) => declared_names(m.drop_last()).push(name),
            Stmt::Expr(_) => declared_names(m.drop_last()),
        }
    }
}

/// The offset below `rbp` of the latest slot named `name`.
pub open spec fn slot_of(env: Seq<Seq<char>>, name: Seq<char>) -> Option<nat>
    decreases env.len(),
{
    if env.len() == 0 {
        None
    } else if env.last() == name {
        Some(4 * env.len())
    } else {
        slot_of(env.drop_last(), name)
    }
}

/// The bytes reserved for `n` slots of four bytes, rounded up to a multiple
/// of sixteen.
pub open spec fn frame_bytes(n: nat) -> nat {
    ((4 * n + 15) / 16 * 16) as nat
}

pub open spec fn prologue() -> Seq<Seq<char>> {
    seq![
        "global main"@,
        "extern print_int"@,
        "section .text"@,
        "main:"@,
        "push rbp"@,
        "mov rbp, rsp"@,
    ]
}

pub open spec fn epilogue() -> Seq<Seq<char>> {
    seq!["mov rsp, rbp"@, "pop rbp"@, "xor rax, rax"@, "ret"@]
}

pub open spec fn reserve_line(bytes: nat) -> Seq<char> {
    "sub rsp, "@ + decimal(bytes)
}

pub open spec fn reservation(n: nat) -> Seq<Seq<char>> {
    if n == 0 {
        Seq::empty()
    } else {
        seq![reserve_line(frame_bytes(n))]
    }
}

pub open spec fn store_constant_line(offset: nat, v: i64) -> Seq<char> {
    "mov dword [rbp - "@ + decimal(offset) + "], "@ + signed_decimal(v as int)
}

pub open spec fn load_rax_line(offset: nat) -> Seq<char> {
    "mov dword rax, [rbp - "@ + decimal(offset) + "]"@
}

pub open spec fn store_rax_line(offset: nat) -> Seq<char> {
    "mov dword [rbp - "@ + decimal(offset) + "], rax"@
}

pub open spec fn pass_constant_line(v: i64) -> Seq<char> {
    "mov dword rdi, "@ + signed_decimal(v as int)
}

pub open spec fn pass_rax_line() -> Seq<char> {
    "mov dword rdi, rax"@
}

pub open spec fn call_line(name: Seq<char>) -> Seq<char> {
    "call "@ + name
}

/// The code of a call of `name` on `args` in environment `env`: the
/// argument goes in `rdi`.
pub open spec fn call_code(env: Seq<Seq<char>>, name: Seq<char>, args: Seq<Expr>) -> Result<
    Seq<Seq<char>>,
    CodegenError,
> {
    if args.len() != 1 {
        Err(CodegenError::UnsupportedArgumentCount)
    } else {
        match args[0] {
            Expr::Constant(v) => Ok(seq![pass_constant_line(v), call_line(name)]),
            Expr::Var(m) => match slot_of(env, m) {
                Some(off) => Ok(seq![load_rax_line(off), pass_rax_line(), call_line(name)]),
                None => Err(CodegenError::UnknownVariable),
            },
            _ => Err(CodegenError::NonAtomicOperand),
        }
    }
}

/// The code of statement `s`, where `env` holds the names declared before
/// it.
pub open spec fn statement_code(env: Seq<Seq<char>>, s: Stmt) -> Result<
    Seq<Seq<char>>,
    CodegenError,
> {
    match s {
        Stmt::Decl(_, e) => {
            let off = 4 * (env.len() + 1);
            match e {
                Expr::Constant(v) => Ok(seq![store_constant_line(off, v)]),
                Expr::Var(m) => match slot_of(env, m) {
                    Some(src) => Ok(seq![load_rax_line(src), store_rax_line(off)]),
                    None => Err(CodegenError::UnknownVariable),
                },
                Expr::Call(name, args) => match call_code(env, name, args) {
                    Ok(code) => Ok(code.push(store_rax_line(off))),
                    Err(err) => Err(err),
                },
                _ => Err(CodegenError::NonAtomicOperand),
            }
        },
        Stmt::Expr(e) => match e {
            Expr::Call(name, args) => call_code(env, name, args),
            Expr::Constant(_) => Ok(Seq::empty()),
            Expr::Var(m) => match slot_of(env, m) {
                Some(_) => Ok(Seq::empty()),
                None => Err(CodegenError::UnknownVariable),
            },
            _ => Err(CodegenError::UnsupportedExpression),
        },
    }
}

/// The code of the statements of `m`, in order.
pub open spec fn body_code(m: Seq<Stmt>) -> Result<Seq<Seq<char>>, CodegenError>
    decreases m.len(),
{
    if m.len() == 0 {
        Ok(Seq::empty())
    } else {
        match body_code(m.drop_last()) {
            Err(err) => Err(err),
            Ok(code) => match statement_code(declared_names(m.drop_last()), m.last()) {
                Err(err) => Err(err),
                Ok(more) => Ok(code + more),
            },
        }
    }
}

/// The assembly listing of `m`: prologue, stack reservation, statements,
/// epilogue.
pub open spec fn codegen_module(m: Seq<Stmt>) -> Result<Seq<Seq<char>>, CodegenError> {
    let n = declared_names(m).len();
    if n > MAX_SLOTS {
        Err(CodegenError::FrameTooLarge)
    } else {
        match body_code(m) {
            Err(err) => Err(err),
            Ok(body) => Ok(prologue() + reservation(n) + body + epilogue()),
        }
    }
}

/// The texts of `lines`, in order.
pub open spec fn line_texts(lines: Seq<String>) -> Seq<Seq<char>> {
    lines.map_values(|s: String| s@)
}

} // verus!

verus! {

proof fn lemma_declared_prefix(m: Seq<Stmt>, i: int)
    requires
        0 <= i <= m.len(),
    ensures
        declared_names(m.subrange(0, i)).len() <= declared_names(m).len(),
    decreases m.len() - i,
{
    if i < m.len() {
        lemma_declared_prefix(m, i + 1);
        assert(m.subrange(0, i + 1).drop_last() =~= m.subrange(0, i));
    } else {
        assert(m.subrange(0, i) =~= m);
    }
}

proof fn lemma_body_code_error(m: Seq<Stmt>, i: int)
    requires
        0 <= i <= m.len(),
        body_code(m.subrange(0, i)) is Err,
    ensures
        body_code(m) == body_code(m.subrange(0, i)),
    decreases m.len() - i,
{
    if i < m.len() {
        assert(m.subrange(0, i + 1).drop_last() =~= m.subrange(0, i));
        lemma_body_code_error(m, i + 1);
    } else {
        assert(m.subrange(0, i) =~= m);
    }
}

/// The stack slots of the variables declared so far.
struct Environment {
    allocated_variables: Vec<String>,
}

impl Environment {
    spec fn view(&self) -> Seq<Seq<char>> {
        line_texts(self.allocated_variables@)
    }

    fn allocate_variable(&mut self, name: &String)
        ensures
            final(self)@ == old(self)@.push(name@),
    {
        self.allocated_variables.push(name.clone());
        assert(final(self)@ =~= old(self)@.push(name@));
    }

    /// The offset below `rbp` of the latest slot named `name`.
    fn get_variable_stack_offset(&self, name: &String) -> (r: Option<u64>)
        requires
            self@.len() <= MAX_SLOTS,
        ensures
            r matches Some(off) ==> slot_of(self@, name@) == Some(off as nat),
            r is None ==> slot_of(self@, name@) is None,
    {
        let ghost env = self@;
        let mut i: usize = self.allocated_variables.len();
        assert(env.subrange(0, i as int) =~= env);
        while i > 0
            invariant
                i <= self.allocated_variables@.len() == env.len() <= MAX_SLOTS,
                env == self@,
                slot_of(env, name@) == slot_of(env.subrange(0, i as int), name@),
            decreases i,
        {
            let ghost prefix = env.subrange(0, i as int);
            assert(prefix.drop_last() =~= env.subrange(0, i - 1));
            assert(prefix.last() == self.allocated_variables@[i - 1]@);
            if self.allocated_variables[i - 1] == *name {
                return Some(4 * (i as u64));
            }
            i = i - 1;
        }
        None
    }
}

fn text(s: &str) -> (r: String)
    ensures
        r@ == s@,
{
    s.to_owned()
}

/// `prefix`, then `n` in decimal, then `suffix`.
fn slot_text(prefix: &str, n: u64, suffix: &str) -> (r: String)
    ensures
        r@ == prefix@ + decimal(n as nat) + suffix@,
{
    let mut r = text(prefix);
    push_decimal(&mut r, n);
    r.append(suffix);
    r
}

fn emit_prelude() -> (r: Vec<String>)
    ensures
        line_texts(r@) == prologue(),
{
    let r = vec![
        text("global main"),
        text("extern print_int"),
        text("section .text"),
        text("main:"),
        text("push rbp"),
        text("mov rbp, rsp"),
    ];
    assert(line_texts(r@) =~= prologue());
    r
}

fn emit_epilogue() -> (r: Vec<String>)
    ensures
        line_texts(r@) == epilogue(),
{
    let r = vec![text("mov rsp, rbp"), text("pop rbp"), text("xor rax, rax"), text("ret")];
    assert(line_texts(r@) =~= epilogue());
    r
}

/// Reserves four bytes for each of `n` variables, keeping `rsp` aligned to
/// sixteen bytes; nothing when there are none.
fn emit_stack_space_allocation(n: u64) -> (r: Vec<String>)
    requires
        n <= MAX_SLOTS,
    ensures
        line_texts(r@) == reservation(n as nat),
{
    if n == 0 {
        let r: Vec<String> = Vec::new();
        assert(line_texts(r@) =~= reservation(0));
        r
    } else {
        let bytes_needed = 4 * n;
        let aligned_space = (bytes_needed + 15) / 16 * 16;
        let mut line = text("sub rsp, ");
        push_decimal(&mut line, aligned_space);
        let r = vec![line];
        assert(line_texts(r@) =~= reservation(n as nat));
        r
    }
}

/// Passes the single argument in `rdi` and calls `name`.
fn emit_function_call(env: &Environment, name: &String, args: &Vec<Expression>) -> (r: Result<
    Vec<String>,
    CodegenError,
>)
    requires
        env@.len() <= MAX_SLOTS,
    ensures
        match call_code(env@, name@, crate::ast::view_args(args@)) {
            Ok(code) => r matches Ok(v) && line_texts(v@) == code,
            Err(err) => r == Err::<Vec<String>, CodegenError>(err),
        },
{
    proof {
        crate::ast::lemma_view_args(args@);
    }
    if args.len() != 1 {
        return Err(CodegenError::UnsupportedArgumentCount);
    }
    let mut instructions: Vec<String> = Vec::new();
    match &args[0] {
        Expression::Constant { value } => {
            let mut line = text("mov dword rdi, ");
            push_signed_decimal(&mut line, *value);
            instructions.push(line);
        },
        Expression::VariableAccess { name: variable } => {
            match env.get_variable_stack_offset(variable) {
                Some(offset) => {
                    instructions.push(slot_text("mov dword rax, [rbp - ", offset, "]"));
                    instructions.push(text("mov dword rdi, rax"));
                },
                None => {
                    return Err(CodegenError::UnknownVariable);
                },
            }
        },
        _ => {
            return Err(CodegenError::NonAtomicOperand);
        },
    }
    let mut call = text("call ");
    call.append(name.as_str());
    instructions.push(call);
    assert(line_texts(instructions@) =~= call_code(env@, name@, crate::ast::view_args(args@))->Ok_0);
    Ok(instructions)
}

/// Gives `name` a new slot and stores the value of `initializer` in it.
fn emit_variable_declaration(env: &mut Environment, name: &String, initializer: &Expression) -> (r:
    Result<Vec<String>, CodegenError>)
    requires
        old(env)@.len() < MAX_SLOTS,
    ensures
        final(env)@ == old(env)@.push(name@),
        match statement_code(old(env)@, Stmt::Decl(name@, initializer@)) {
            Ok(code) => r matches Ok(v) && line_texts(v@) == code,
            Err(err) => r == Err::<Vec<String>, CodegenError>(err),
        },
{
    let offset: u64 = 4 * (env.allocated_variables.len() as u64 + 1);
    let r = match initializer {
        Expression::Constant { value } => {
            let mut line = slot_text("mov dword [rbp - ", offset, "], ");
            push_signed_decimal(&mut line, *value);
            let v = vec![line];
            assert(line_texts(v@) =~= seq![store_constant_line(offset as nat, *value)]);
            Ok(v)
        },
        Expression::VariableAccess { name: source } => match env.get_variable_stack_offset(source) {
            Some(source_offset) => {
                let v = vec![
                    slot_text("mov dword rax, [rbp - ", source_offset, "]"),
                    slot_text("mov dword [rbp - ", offset, "], rax"),
                ];
                assert(line_texts(v@) =~= seq![load_rax_line(source_offset as nat), store_rax_line(offset as nat)]);
                Ok(v)
            },
            None => Err(CodegenError::UnknownVariable),
        },
        Expression::Call { name: target, args } => match emit_function_call(env, target, args) {
            Ok(mut v) => {
                let ghost code = line_texts(v@);
                v.push(slot_text("mov dword [rbp - ", offset, "], rax"));
                assert(line_texts(v@) =~= code.push(store_rax_line(offset as nat)));
                Ok(v)
            },
            Err(err) => Err(err),
        },
        _ => Err(CodegenError::NonAtomicOperand),
    };
    env.allocate_variable(name);
    r
}

fn emit_statement(env: &mut Environment, statement: &Statement) -> (r: Result<Vec<String>, CodegenError>)
    requires
        old(env)@.len() <= MAX_SLOTS,
        statement@ is Decl ==> old(env)@.len() < MAX_SLOTS,
    ensures
        final(env)@ == match statement@ {
            Stmt::Decl(name, _) => old(env)@.push(name),
            Stmt::Expr(_) => old(env)@,
        },
        match statement_code(old(env)@, statement@) {
            Ok(code) => r matches Ok(v) && line_texts(v@) == code,
            Err(err) => r == Err::<Vec<String>, CodegenError>(err),
        },
{
    match statement {
        Statement::Expression(expression) => match expression {
            Expression::Call { name, args } => emit_function_call(env, name, args),
            Expression::Constant { .. } => {
                let v: Vec<String> = Vec::new();
                assert(line_texts(v@) =~= Seq::<Seq<char>>::empty());
                Ok(v)
            },
            Expression::VariableAccess { name } => match env.get_variable_stack_offset(name) {
                Some(_) => {
                    let v: Vec<String> = Vec::new();
                    assert(line_texts(v@) =~= Seq::<Seq<char>>::empty());
                    Ok(v)
                },
                None => Err(CodegenError::UnknownVariable),
            },
            _ => Err(CodegenError::UnsupportedExpression),
        },
        Statement::VariableDeclaration { name, value } => emit_variable_declaration(env, name, value),
    }
}

fn count_declarations(statements: &Vec<Statement>) -> (r: usize)
    ensures
        r == declared_names(crate::ast::view_statements(statements@)).len(),
{
    let ghost m = crate::ast::view_statements(statements@);
    let mut count: usize = 0;
    let mut i: usize = 0;
    while i < statements.len()
        invariant
            m == crate::ast::view_statements(statements@),
            i <= statements@.len(),
            count == declared_names(m.subrange(0, i as int)).len(),
            count <= i,
        decreases statements@.len() - i,
    {
        assert(m.subrange(0, i + 1).drop_last() =~= m.subrange(0, i as int));
        if let Statement::VariableDeclaration { .. } = &statements[i] {
            count = count + 1;
        }
        i = i + 1;
    }
    assert(m.subrange(0, i as int) =~= m);
    count
}

/// Lowers a module in A-normal form to an x86-64 assembly listing.
pub struct X86AssemblyCodegen {
    program: Module,
    environment: Environment,
}

impl X86AssemblyCodegen {
    /// The module to lower.
    pub closed spec fn input(&self) -> Seq<Stmt> {
        self.program@
    }

    pub fn new(program: Module) -> (r: X86AssemblyCodegen)
        ensures
            r.input() == program@,
    {
        X86AssemblyCodegen { program, environment: Environment { allocated_variables: Vec::new() } }
    }

    /// The listing of the module, or the first statement that cannot be
    /// lowered.
    pub fn generate(&mut self) -> (r: Result<Vec<String>, CodegenError>)
        ensures
            final(self).input() == old(self).input(),
            match codegen_module(old(self).input()) {
                Ok(lines) => r matches Ok(v) && line_texts(v@) == lines,
                Err(err) => r == Err::<Vec<String>, CodegenError>(err),
            },
    {
        let ghost m = self.program@;
        self.environment = Environment { allocated_variables: Vec::new() };
        assert(self.environment@ =~= Seq::<Seq<char>>::empty());
        let n = count_declarations(&self.program.statements);
        if n as u64 > MAX_SLOTS {
            return Err(CodegenError::FrameTooLarge);
        }
        let mut lines = emit_prelude();
        let mut reserve = emit_stack_space_allocation(n as u64);
        lines.append(&mut reserve);
        let ghost head = prologue() + reservation(n as nat);
        assert(line_texts(lines@) =~= head);
        let mut i: usize = 0;
        while i < self.program.statements.len()
            invariant
                m == self.program@,
                m == old(self).program@,
                i <= self.program.statements@.len(),
                n == declared_names(m).len() <= MAX_SLOTS,
                self.environment@ == declared_names(m.subrange(0, i as int)),
                body_code(m.subrange(0, i as int)) matches Ok(body) && line_texts(lines@) == head + body,
            decreases self.program.statements@.len() - i,
        {
            let ghost prefix = m.subrange(0, i as int);
            let ghost next = m.subrange(0, i + 1);
            let ghost body = body_code(prefix)->Ok_0;
            proof {
                assert(next.drop_last() =~= prefix);
                assert(next.last() == self.program.statements@[i as int]@);
                lemma_declared_prefix(m, i + 1);
            }
            match emit_statement(&mut self.environment, &self.program.statements[i]) {
                Ok(mut more) => {
                    let ghost before = line_texts(lines@);
                    let ghost more_texts = line_texts(more@);
                    lines.append(&mut more);
                    assert(line_texts(lines@) =~= before + more_texts);
                    assert(head + body + more_texts =~= head + (body + more_texts));
                },
                Err(err) => {
                    proof {
                        lemma_body_code_error(m, i + 1);
                    }
                    return Err(err);
                },
            }
            i = i + 1;
        }
        assert(m.subrange(0, i as int) =~= m);
        let ghost body = body_code(m)->Ok_0;
        let ghost before = line_texts(lines@);
        let mut tail = emit_epilogue();
        lines.append(&mut tail);
        assert(line_texts(lines@) =~= before + epilogue());
        Ok(lines)
    }
}

} // verus!

verus! {

/// The stack reservation keeps `rsp` aligned: the listing of a module that
/// declares `N > 0` variables reserves, right after the prologue, `A`
/// bytes, where `A` is a multiple of sixteen, at least `4 N`, and less than
/// `4 N + 16`; with no variables it reserves nothing.
pub proof fn lemma_frame_alignment(m: Seq<Stmt>)
    ensures
        ({
            let n = declared_names(m).len();
            let a = frame_bytes(n);
            &&& a % 16 == 0
            &&& 4 * n <= a < 4 * n + 16
            &&& codegen_module(m) matches Ok(lines) ==> lines == prologue() + reservation(n)
                + body_code(m)->Ok_0 + epilogue()
            &&& n > 0 ==> reservation(n) == seq![reserve_line(a)]
            &&& n == 0 ==> reservation(n).len() == 0
        }),
{
    let n = declared_names(m).len();
    let a = frame_bytes(n);
    assert(a % 16 == 0 && 4 * n <= a < 4 * n + 16) by (nonlinear_arith)
        requires
            a == (4 * n + 15) / 16 * 16,
    ;
}

} // verus!
