use vstd::prelude::*;
use crate::number::{is_nan_bits, is_zero_bits, is_neg_bits, trunc_of, trunc, EXP_MASK, FRAC_MASK, ABS_MASK};

verus! {

/// A number on the evaluation stack. A double is held as its IEEE-754 bit
/// pattern (`f64::to_bits`).
#[derive(Debug, Clone, Copy, PartialEq, Eq, Structural)]
pub enum Value {
    Float(u64),
    Int(i64),
}

/// The binary arithmetic operations.
#[derive(Debug, Clone, Copy, PartialEq, Eq, Structural)]
pub enum ArithOp {
    Add,
    Sub,
    Mul,
    Div,
    Pow,
    Mod,
}

/// One decoded instruction; jump operands are absolute instruction indices.
#[derive(Debug, Clone, PartialEq)]
pub enum Instruction {
    LoadConstFloat(u64),
    LoadConstInt(i64),
    LoadVar(String),
    StoreVar(String),
    Add,
    Sub,
    Mul,
    Div,
    Pow,
    Mod,
    Print,
    Read,
    Jmp(usize),
    JmpEq(usize),
    JmpNe(usize),
    JmpGe(usize),
    JmpGt(usize),
    JmpLt(usize),
    JmpLe(usize),
}

/// An instruction as a mathematical value: names are character sequences.
pub enum Op {
    LoadConstFloat(u64),
    LoadConstInt(i64),
    LoadVar(Seq<char>),
    StoreVar(Seq<char>),
    Add,
    Sub,
    Mul,
    Div,
    Pow,
    Mod,
    Print,
    Read,
    Jmp(usize),
    JmpEq(usize),
    JmpNe(usize),
    JmpGe(usize),
    JmpGt(usize),
    JmpLt(usize),
    JmpLe(usize),
}

impl View for Instruction {
    type V = Op;

    open spec fn view(&self) -> Op {
        match self {
            Instruction::LoadConstFloat(b) => Op::LoadConstFloat(*b),
            Instruction::LoadConstInt(i) => Op::LoadConstInt(*i),
            Instruction::LoadVar(n) => Op::LoadVar(n@),
            Instruction::StoreVar(n) => Op::StoreVar(n@),
            Instruction::Add => Op::Add,
            Instruction::Sub => Op::Sub,
            Instruction::Mul => Op::Mul,
            Instruction::Div => Op::Div,
            Instruction::Pow => Op::Pow,
            Instruction::Mod => Op::Mod,
            Instruction::Print => Op::Print,
            Instruction::Read => Op::Read,
            Instruction::Jmp(t) => Op::Jmp(*t),
            Instruction::JmpEq(t) => Op::JmpEq(*t),
            Instruction::JmpNe(t) => Op::JmpNe(*t),
            Instruction::JmpGe(t) => Op::JmpGe(*t),
            Instruction::JmpGt(t) => Op::JmpGt(*t),
            Instruction::JmpLt(t) => Op::JmpLt(*t),
            Instruction::JmpLe(t) => Op::JmpLe(*t),
        }
    }
}

/// Work that a step leaves to the caller.
#[derive(Debug, Clone, Copy, PartialEq, Eq, Structural)]
pub enum Request {
    /// Show this value; nothing is to be handed back.
    Print(Value),
    /// Read one line; hand back what it parses to with `provide_input`.
    Read,
    /// Apply the operation to `lhs` and `rhs` as doubles (an `Int` widened to
    /// a double) and hand back the bits of the result with `provide_result`.
    Compute(ArithOp, Value, Value),
}

/// What the machine waits for before it can step again.
#[derive(Debug, Clone, Copy, PartialEq, Eq, Structural)]
pub enum Pending {
    Nothing,
    Input,
    /// A result of arithmetic; `true` when both operands were `Int`.
    Result(bool),
}

/// How a run came to a stop without error.
#[derive(Debug, Clone, Copy, PartialEq, Eq, Structural)]
pub enum Outcome {
    /// The instruction pointer ran past the end of the program.
    Finished,
    /// A step asked the caller for work.
    Request(Request),
    /// The step budget ran out first.
    Suspended,
}

/// The fatal conditions of execution.
#[derive(Debug, Clone, PartialEq)]
pub enum VmError {
    StackUnderflow,
    VariableNotFound(String),
    InvalidInput,
    NoInstruction,
}

/// How a value compares with zero: `Some(-1)`, `Some(0)`, `Some(1)`, or `None`
/// for a NaN, which is unordered.
pub open spec fn sign_of(v: Value) -> Option<int> {
    match v {
        Value::Int(i) => Some(if i < 0 { -1int } else if i == 0 { 0int } else { 1int }),
        Value::Float(b) => if is_nan_bits(b) {
            None
        } else if is_zero_bits(b) {
            Some(0int)
        } else if is_neg_bits(b) {
            Some(-1int)
        } else {
            Some(1int)
        },
    }
}

/// Computes [`sign_of`].
pub fn compare_zero(v: Value) -> (r: Option<i8>)
    ensures
        match sign_of(v) {
            Some(s) => r == Some(s as i8),
            None => r is None,
        },
{
    match v {
        Value::Int(i) => Some(if i < 0 { -1i8 } else if i == 0 { 0i8 } else { 1i8 }),
        Value::Float(b) => if b & EXP_MASK == EXP_MASK && b & FRAC_MASK != 0 {
            None
        } else if b & ABS_MASK == 0 {
            Some(0i8)
        } else if b >> 63u64 == 1 {
            Some(-1i8)
        } else {
            Some(1i8)
        },
    }
}

/// The target of a jump instruction, if `i` is one.
pub open spec fn jump_target(i: Instruction) -> Option<usize> {
    match i {
        Instruction::Jmp(t) => Some(t),
        Instruction::JmpEq(t) => Some(t),
        Instruction::JmpNe(t) => Some(t),
        Instruction::JmpGe(t) => Some(t),
        Instruction::JmpGt(t) => Some(t),
        Instruction::JmpLt(t) => Some(t),
        Instruction::JmpLe(t) => Some(t),
        _ => None,
    }
}

/// Whether a conditional jump `i` is taken on the condition `v`, which is
/// compared with zero by the jump's relation (a NaN is unequal to zero and
/// satisfies no other relation).
pub open spec fn cond_holds(i: Instruction, v: Value) -> bool {
    match i {
        Instruction::JmpEq(_) => sign_of(v) == Some(0int),
        Instruction::JmpNe(_) => sign_of(v) != Some(0int),
        Instruction::JmpGe(_) => sign_of(v) == Some(0int) || sign_of(v) == Some(1int),
        Instruction::JmpGt(_) => sign_of(v) == Some(1int),
        Instruction::JmpLt(_) => sign_of(v) == Some(-1int),
        Instruction::JmpLe(_) => sign_of(v) == Some(0int) || sign_of(v) == Some(-1int),
        _ => false,
    }
}

/// The arithmetic operation of `i`, if it is one.
pub open spec fn arith_of(i: Instruction) -> Option<ArithOp> {
    match i {
        Instruction::Add => Some(ArithOp::Add),
        Instruction::Sub => Some(ArithOp::Sub),
        Instruction::Mul => Some(ArithOp::Mul),
        Instruction::Div => Some(ArithOp::Div),
        Instruction::Pow => Some(ArithOp::Pow),
        Instruction::Mod => Some(ArithOp::Mod),
        _ => None,
    }
}

/// The value that an arithmetic result with bits `bits` becomes: an `Int`
/// truncated from the double when both operands were `Int`, else the double.
pub open spec fn coerce(both_int: bool, bits: u64) -> Value {
    if both_int {
        Value::Int(trunc_of(bits))
    } else {
        Value::Float(bits)
    }
}

/// The variable store that a list of bindings stands for; a later binding of
/// a name hides an earlier one.
pub open spec fn map_of(s: Seq<(String, Value)>) -> Map<Seq<char>, Value>
    decreases s.len(),
{
    if s.len() == 0 {
        Map::empty()
    } else {
        map_of(s.drop_last()).insert(s.last().0@, s.last().1)
    }
}

/// No name is bound twice.
pub open spec fn names_unique(s: Seq<(String, Value)>) -> bool {
    forall|i: int, j: int| 0 <= i < j < s.len() ==> s[i].0@ != s[j].0@
}

/// One step of the machine on the state (`stack`, `vars`, `ip`) with the
/// instruction `instr` at `ip`: the new stack, store and instruction pointer,
/// what is then awaited, and the work asked of the caller. `Read` and the
/// arithmetic leave `ip` in place until the caller hands the value back.
pub open spec fn next(stack: Seq<Value>, vars: Map<Seq<char>, Value>, ip: int, instr: Instruction)
    -> Result<(Seq<Value>, Map<Seq<char>, Value>, int, Pending, Option<Request>), VmError> {
    let n = stack.len();
    match instr {
        Instruction::LoadConstFloat(b) => Ok(
            (stack.push(Value::Float(b)), vars, ip + 1, Pending::Nothing, None),
        ),
        Instruction::LoadConstInt(i) => Ok(
            (stack.push(Value::Int(i)), vars, ip + 1, Pending::Nothing, None),
        ),
        Instruction::LoadVar(name) => if vars.contains_key(name@) {
            Ok((stack.push(vars[name@]), vars, ip + 1, Pending::Nothing, None))
        } else {
            Err(VmError::VariableNotFound(name))
        },
        Instruction::StoreVar(name) => if n >= 1 {
            Ok(
                (
                    stack.drop_last(),
                    vars.insert(name@, stack.last()),
                    ip + 1,
                    Pending::Nothing,
                    None,
                ),
            )
        } else {
            Err(VmError::StackUnderflow)
        },
        Instruction::Print => if n >= 1 {
            Ok((stack.drop_last(), vars, ip + 1, Pending::Nothing, Some(Request::Print(stack.last()))))
        } else {
            Err(VmError::StackUnderflow)
        },
        Instruction::Read => Ok((stack, vars, ip, Pending::Input, Some(Request::Read))),
        Instruction::Jmp(t) => Ok((stack, vars, t as int, Pending::Nothing, None)),
        _ => if arith_of(instr) is Some {
            if n >= 2 {
                let a = stack[n - 2];
                let b = stack[n - 1];
                Ok(
                    (
                        stack.subrange(0, n - 2),
                        vars,
                        ip,
                        Pending::Result(a is Int && b is Int),
                        Some(Request::Compute(arith_of(instr)->0, a, b)),
                    ),
                )
            } else {
                Err(VmError::StackUnderflow)
            }
        } else {
            // a conditional jump
            if n >= 1 {
                let ip2 = if cond_holds(instr, stack.last()) {
                    jump_target(instr)->0 as int
                } else {
                    ip + 1
                };
                Ok((stack.drop_last(), vars, ip2, Pending::Nothing, None))
            } else {
                Err(VmError::StackUnderflow)
            }
        },
    }
}

proof fn lemma_map_of_found(s: Seq<(String, Value)>, i: int)
    requires
        names_unique(s),
        0 <= i < s.len(),
    ensures
        map_of(s).contains_key(s[i].0@),
        map_of(s)[s[i].0@] == s[i].1,
    decreases s.len(),
{
    if i < s.len() - 1 {
        lemma_map_of_found(s.drop_last(), i);
    }
}

proof fn lemma_map_of_absent(s: Seq<(String, Value)>, k: Seq<char>)
    requires
        forall|i: int| 0 <= i < s.len() ==> s[i].0@ != k,
    ensures
        !map_of(s).contains_key(k),
    decreases s.len(),
{
    if s.len() > 0 {
        lemma_map_of_absent(s.drop_last(), k);
    }
}

proof fn lemma_map_of_update(s: Seq<(String, Value)>, i: int, e: (String, Value))
    requires
        names_unique(s),
        0 <= i < s.len(),
        s[i].0@ == e.0@,
    ensures
        map_of(s.update(i, e)) == map_of(s).insert(e.0@, e.1),
    decreases s.len(),
{
    let t = s.update(i, e);
    if i == s.len() - 1 {
        assert(t.drop_last() =~= s.drop_last());
        assert(map_of(t) =~= map_of(s).insert(e.0@, e.1));
    } else {
        assert(t.drop_last() =~= s.drop_last().update(i, e));
        lemma_map_of_update(s.drop_last(), i, e);
        assert(map_of(t) =~= map_of(s).insert(e.0@, e.1));
    }
}

/// The machine: an evaluation stack, a variable store, the program, and the
/// index of the instruction to execute next.
pub struct VM {
    stack: Vec<Value>,
    vars: Vec<(String, Value)>,
    instructions: Vec<Instruction>,
    ip: usize,
    pending: Pending,
}

impl VM {
    /// The evaluation stack, bottom first.
    pub closed spec fn stack_view(&self) -> Seq<Value> {
        self.stack@
    }

    /// The variable store.
    pub closed spec fn vars_view(&self) -> Map<Seq<char>, Value> {
        map_of(self.vars@)
    }

    /// The program.
    pub closed spec fn program(&self) -> Seq<Instruction> {
        self.instructions@
    }

    /// The index of the next instruction.
    pub closed spec fn ip_view(&self) -> int {
        self.ip as int
    }

    /// What the machine waits for.
    pub closed spec fn pending_view(&self) -> Pending {
        self.pending
    }

    pub closed spec fn wf(&self) -> bool {
        &&& names_unique(self.vars@)
        &&& self.pending != Pending::Nothing ==> self.ip < self.instructions@.len()
    }

    /// A machine at the start of `instructions`, with an empty stack and store.
    pub fn new(instructions: Vec<Instruction>) -> (r: VM)
        ensures
            r.wf(),
            r.stack_view() == Seq::<Value>::empty(),
            r.vars_view() == Map::<Seq<char>, Value>::empty(),
            r.program() == instructions@,
            r.ip_view() == 0,
            r.pending_view() == Pending::Nothing,
    {
        VM { stack: Vec::new(), vars: Vec::new(), instructions, ip: 0, pending: Pending::Nothing }
    }

    /// The index of the next instruction.
    pub fn ip(&self) -> (r: usize)
        ensures
            r == self.ip_view(),
    {
        self.ip
    }

    /// What the machine waits for before it can step again.
    pub fn pending(&self) -> (r: Pending)
        ensures
            r == self.pending_view(),
    {
        self.pending
    }

    /// A copy of the evaluation stack, bottom first. The machine is not
    /// changed, so copies taken between two steps are equal.
    pub fn snapshot_stack(&self) -> (r: Vec<Value>)
        ensures
            r@ == self.stack_view(),
    {
        let mut out: Vec<Value> = Vec::new();
        let mut i: usize = 0;
        while i < self.stack.len()
            invariant
                i <= self.stack@.len(),
                out@ == self.stack@.subrange(0, i as int),
            decreases self.stack@.len() - i,
        {
            out.push(self.stack[i]);
            i = i + 1;
            proof {
                assert(out@ =~= self.stack@.subrange(0, i as int));
            }
        }
        proof {
            assert(out@ =~= self.stack@);
        }
        out
    }

    /// The bindings of the variable store, in the order in which the names
    /// were first bound.
    pub closed spec fn bindings(&self) -> Seq<(String, Value)> {
        self.vars@
    }

    /// A copy of the variable store's bindings, each name once. The machine
    /// is not changed, so copies taken between two steps are equal.
    pub fn snapshot_vars(&self) -> (r: Vec<(String, Value)>)
        requires
            self.wf(),
        ensures
            r@ == self.bindings(),
            names_unique(r@),
            map_of(r@) == self.vars_view(),
    {
        let mut out: Vec<(String, Value)> = Vec::new();
        let mut i: usize = 0;
        while i < self.vars.len()
            invariant
                i <= self.vars@.len(),
                out@ == self.vars@.subrange(0, i as int),
            decreases self.vars@.len() - i,
        {
            let name = self.vars[i].0.clone();
            out.push((name, self.vars[i].1));
            i = i + 1;
            proof {
                assert(out@ =~= self.vars@.subrange(0, i as int));
            }
        }
        proof {
            assert(out@ =~= self.vars@);
        }
        out
    }

    /// The number of instructions in the program.
    pub fn program_len(&self) -> (r: usize)
        ensures
            r == self.program().len(),
    {
        self.instructions.len()
    }

    /// The instruction at the instruction pointer, if it is in range.
    pub fn current_instruction(&self) -> (r: Option<&Instruction>)
        ensures
            self.ip_view() < self.program().len() ==> r == Some(&self.program()[self.ip_view()]),
            self.ip_view() >= self.program().len() ==> r is None,
    {
        if self.ip < self.instructions.len() {
            Some(&self.instructions[self.ip])
        } else {
            None
        }
    }
}


/// Runs a machine from (`stack`, `vars`, `ip`) on `prog` for at most `fuel`
/// steps: it stops when `ip` leaves the program, when a step asks the caller
/// for work, on an error, or when the fuel is spent.
pub open spec fn run_spec(
    stack: Seq<Value>,
    vars: Map<Seq<char>, Value>,
    ip: int,
    prog: Seq<Instruction>,
    fuel: nat,
) -> Result<(Seq<Value>, Map<Seq<char>, Value>, int, Pending, Outcome), VmError>
    decreases fuel,
{
    if !(0 <= ip < prog.len()) {
        Ok((stack, vars, ip, Pending::Nothing, Outcome::Finished))
    } else if fuel == 0 {
        Ok((stack, vars, ip, Pending::Nothing, Outcome::Suspended))
    } else {
        match next(stack, vars, ip, prog[ip]) {
            Err(e) => Err(e),
            Ok((s, v, i, p, Some(q))) => Ok((s, v, i, p, Outcome::Request(q))),
            Ok((s, v, i, p, None)) => run_spec(s, v, i, prog, (fuel - 1) as nat),
        }
    }
}

/// Whether `i` is a conditional jump taken on `v`.
fn cond_taken(i: &Instruction, v: Value) -> (r: bool)
    ensures
        r == cond_holds(*i, v),
{
    let c = compare_zero(v);
    match i {
        Instruction::JmpEq(_) => c == Some(0i8),
        Instruction::JmpNe(_) => c != Some(0i8),
        Instruction::JmpGe(_) => c == Some(0i8) || c == Some(1i8),
        Instruction::JmpGt(_) => c == Some(1i8),
        Instruction::JmpLt(_) => c == Some(-1i8),
        Instruction::JmpLe(_) => c == Some(0i8) || c == Some(-1i8),
        _ => false,
    }
}

/// The arithmetic operation of `i`, if it is one.
fn arith_op(i: &Instruction) -> (r: Option<ArithOp>)
    ensures
        r == arith_of(*i),
{
    match i {
        Instruction::Add => Some(ArithOp::Add),
        Instruction::Sub => Some(ArithOp::Sub),
        Instruction::Mul => Some(ArithOp::Mul),
        Instruction::Div => Some(ArithOp::Div),
        Instruction::Pow => Some(ArithOp::Pow),
        Instruction::Mod => Some(ArithOp::Mod),
        _ => None,
    }
}

impl VM {
    /// The position of the binding of `name`, if there is one.
    fn find_var(&self, name: &String) -> (r: Option<usize>)
        ensures
            match r {
                Some(i) => i < self.vars@.len() && self.vars@[i as int].0@ == name@,
                None => forall|i: int| 0 <= i < self.vars@.len() ==> self.vars@[i].0@ != name@,
            },
    {
        let mut i: usize = 0;
        while i < self.vars.len()
            invariant
                i <= self.vars@.len(),
                forall|j: int| 0 <= j < i ==> self.vars@[j].0@ != name@,
            decreases self.vars@.len() - i,
        {
            if self.vars[i].0 == *name {
                return Some(i);
            }
            i = i + 1;
        }
        None
    }

    /// Binds `name` to `v`, replacing an earlier binding.
    fn bind(&mut self, name: String, v: Value)
        requires
            names_unique(old(self).vars@),
        ensures
            names_unique(final(self).vars@),
            map_of(final(self).vars@) == map_of(old(self).vars@).insert(name@, v),
            final(self).stack == old(self).stack,
            final(self).instructions == old(self).instructions,
            final(self).ip == old(self).ip,
            final(self).pending == old(self).pending,
    {
        match self.find_var(&name) {
            Some(i) => {
                proof {
                    lemma_map_of_update(self.vars@, i as int, (name, v));
                }
                self.vars.set(i, (name, v));
            },
            None => {
                self.vars.push((name, v));
                proof {
                    assert(self.vars@.drop_last() =~= old(self).vars@);
                }
            },
        }
    }

    /// Executes the instruction at the instruction pointer. On an error the
    /// machine is left as it was, the pointer at the failing instruction.
    pub fn step(&mut self) -> (r: Result<Option<Request>, VmError>)
        requires
            old(self).wf(),
            old(self).pending_view() == Pending::Nothing,
        ensures
            final(self).wf(),
            final(self).program() == old(self).program(),
            !(old(self).ip_view() < old(self).program().len()) ==> r == Err::<
                Option<Request>,
                VmError,
            >(VmError::NoInstruction) && *final(self) == *old(self),
            old(self).ip_view() < old(self).program().len() ==> match next(
                old(self).stack_view(),
                old(self).vars_view(),
                old(self).ip_view(),
                old(self).program()[old(self).ip_view()],
            ) {
                Ok((s, v, ip, p, q)) => r == Ok::<Option<Request>, VmError>(q)
                    && final(self).stack_view() == s && final(self).vars_view() == v
                    && final(self).ip_view() == ip && final(self).pending_view() == p,
                Err(e) => r == Err::<Option<Request>, VmError>(e) && *final(self) == *old(self),
            },
    {
        if self.ip >= self.instructions.len() {
            return Err(VmError::NoInstruction);
        }
        let ip = self.ip;
        let instr = &self.instructions[ip];
        match instr {
            Instruction::LoadConstFloat(b) => {
                self.stack.push(Value::Float(*b));
                self.ip = ip + 1;
                Ok(None)
            },
            Instruction::LoadConstInt(i) => {
                self.stack.push(Value::Int(*i));
                self.ip = ip + 1;
                Ok(None)
            },
            Instruction::LoadVar(name) => match self.find_var(name) {
                Some(k) => {
                    proof {
                        lemma_map_of_found(self.vars@, k as int);
                    }
                    let v = self.vars[k].1;
                    self.stack.push(v);
                    self.ip = ip + 1;
                    Ok(None)
                },
                None => {
                    proof {
                        lemma_map_of_absent(self.vars@, name@);
                    }
                    Err(VmError::VariableNotFound(name.clone()))
                },
            },
            Instruction::StoreVar(name) => {
                if self.stack.len() == 0 {
                    return Err(VmError::StackUnderflow);
                }
                let name = name.clone();
                let v = self.stack.pop().unwrap();
                self.bind(name, v);
                self.ip = ip + 1;
                Ok(None)
            },
            Instruction::Print => {
                if self.stack.len() == 0 {
                    return Err(VmError::StackUnderflow);
                }
                let v = self.stack.pop().unwrap();
                self.ip = ip + 1;
                Ok(Some(Request::Print(v)))
            },
            Instruction::Read => {
                self.pending = Pending::Input;
                Ok(Some(Request::Read))
            },
            Instruction::Jmp(t) => {
                self.ip = *t;
                Ok(None)
            },
            Instruction::JmpEq(t) | Instruction::JmpNe(t) | Instruction::JmpGe(t)
            | Instruction::JmpGt(t) | Instruction::JmpLt(t) | Instruction::JmpLe(t) => {
                if self.stack.len() == 0 {
                    return Err(VmError::StackUnderflow);
                }
                let t = *t;
                let v = self.stack[self.stack.len() - 1];
                let taken = cond_taken(instr, v);
                self.stack.pop();
                self.ip = if taken {
                    t
                } else {
                    ip + 1
                };
                Ok(None)
            },
            _ => {
                let op = arith_op(instr).unwrap();
                let n = self.stack.len();
                if n < 2 {
                    return Err(VmError::StackUnderflow);
                }
                let b = self.stack.pop().unwrap();
                let a = self.stack.pop().unwrap();
                proof {
                    assert(self.stack@ =~= old(self).stack@.subrange(0, n - 2));
                }
                let both_int = match (a, b) {
                    (Value::Int(_), Value::Int(_)) => true,
                    _ => false,
                };
                self.pending = Pending::Result(both_int);
                Ok(Some(Request::Compute(op, a, b)))
            },
        }
    }

    /// Hands back the bits of the double that a `Compute` request asked for;
    /// the result is pushed, as an `Int` truncated from it when both operands
    /// were `Int`, and the machine moves past the instruction.
    pub fn provide_result(&mut self, bits: u64)
        requires
            old(self).wf(),
            old(self).pending_view() is Result,
        ensures
            final(self).wf(),
            final(self).program() == old(self).program(),
            final(self).stack_view() == old(self).stack_view().push(
                coerce(old(self).pending_view()->Result_0, bits),
            ),
            final(self).vars_view() == old(self).vars_view(),
            final(self).ip_view() == old(self).ip_view() + 1,
            final(self).pending_view() == Pending::Nothing,
    {
        let v = match self.pending {
            Pending::Result(true) => Value::Int(trunc(bits)),
            _ => Value::Float(bits),
        };
        let _n = self.instructions.len();
        self.stack.push(v);
        self.ip = self.ip + 1;
        self.pending = Pending::Nothing;
    }

    /// Hands back what the line asked for by a `Read` request parsed to, the
    /// bits of a double, or `None` when it was no number.
    pub fn provide_input(&mut self, input: Option<u64>) -> (r: Result<(), VmError>)
        requires
            old(self).wf(),
            old(self).pending_view() == Pending::Input,
        ensures
            final(self).wf(),
            final(self).program() == old(self).program(),
            final(self).vars_view() == old(self).vars_view(),
            match input {
                Some(b) => r is Ok && final(self).stack_view() == old(self).stack_view().push(
                    Value::Float(b),
                ) && final(self).ip_view() == old(self).ip_view() + 1
                    && final(self).pending_view() == Pending::Nothing,
                None => r == Err::<(), VmError>(VmError::InvalidInput) && *final(self) == *old(
                    self,
                ),
            },
    {
        match input {
            Some(b) => {
                let _n = self.instructions.len();
                self.stack.push(Value::Float(b));
                self.ip = self.ip + 1;
                self.pending = Pending::Nothing;
                Ok(())
            },
            None => Err(VmError::InvalidInput),
        }
    }

    /// Steps until the instruction pointer leaves the program, a step asks
    /// the caller for work, an error occurs, or `budget` steps were taken.
    pub fn run(&mut self, budget: usize) -> (r: Result<Outcome, VmError>)
        requires
            old(self).wf(),
            old(self).pending_view() == Pending::Nothing,
        ensures
            final(self).wf(),
            final(self).program() == old(self).program(),
            match run_spec(
                old(self).stack_view(),
                old(self).vars_view(),
                old(self).ip_view(),
                old(self).program(),
                budget as nat,
            ) {
                Ok((s, v, ip, p, o)) => r == Ok::<Outcome, VmError>(o) && final(self).stack_view()
                    == s && final(self).vars_view() == v && final(self).ip_view() == ip
                    && final(self).pending_view() == p,
                Err(e) => r == Err::<Outcome, VmError>(e),
            },
    {
        let mut k: usize = 0;
        while k < budget
            invariant
                self.wf(),
                self.program() == old(self).program(),
                self.pending_view() == Pending::Nothing,
                k <= budget,
                run_spec(
                    old(self).stack_view(),
                    old(self).vars_view(),
                    old(self).ip_view(),
                    old(self).program(),
                    budget as nat,
                ) == run_spec(
                    self.stack_view(),
                    self.vars_view(),
                    self.ip_view(),
                    self.program(),
                    (budget - k) as nat,
                ),
            decreases budget - k,
        {
            if self.ip >= self.instructions.len() {
                return Ok(Outcome::Finished);
            }
            match self.step() {
                Err(e) => {
                    return Err(e);
                },
                Ok(Some(q)) => {
                    return Ok(Outcome::Request(q));
                },
                Ok(None) => {},
            }
            k = k + 1;
        }
        if self.ip >= self.instructions.len() {
            Ok(Outcome::Finished)
        } else {
            Ok(Outcome::Suspended)
        }
    }
}


/// One step of a literal load on a fresh machine leaves exactly the literal
/// on the stack: an `Int` when the load's double has no fractional part, else
/// that double.
pub proof fn lemma_load_const_step(i: Instruction, b: u64, vars: Map<Seq<char>, Value>)
    requires
        i@ == crate::parse::literal_op(b),
    ensures
        next(Seq::<Value>::empty(), vars, 0, i) matches Ok((s, _, ip, _, q)) && ip == 1 && q is None
            && s.len() == 1 && (s[0] is Int <==> crate::number::is_integral_bits(b)) && (s[0] is Int
            ==> s[0] == Value::Int(trunc_of(b))) && (s[0] is Float ==> s[0] == Value::Float(b)),
{
}

} // verus!
