use vainilla_machine::number::{is_integral, trunc};
use vainilla_machine::parse::{literal_instruction, AsmError, AsmErrorKind, Parser};
use vainilla_machine::vm::{ArithOp, Instruction, Outcome, Pending, Request, Value, VmError, VM};

fn assemble(src: &str) -> Result<Vec<Instruction>, AsmError> {
    let mut p = Parser::new();
    let numbers: Vec<Option<u64>> = p
        .numerals(src)
        .iter()
        .map(|t| t.as_ref().and_then(|t| t.parse::<f64>().ok()).map(f64::to_bits))
        .collect();
    p.parse_file(src, &numbers)
}

fn widen(v: Value) -> f64 {
    match v {
        Value::Int(i) => i as f64,
        Value::Float(b) => f64::from_bits(b),
    }
}

fn compute(op: ArithOp, a: Value, b: Value) -> u64 {
    let (x, y) = (widen(a), widen(b));
    let r = match op {
        ArithOp::Add => x + y,
        ArithOp::Sub => x - y,
        ArithOp::Mul => x * y,
        ArithOp::Div => x / y,
        ArithOp::Pow => x.powf(y),
        ArithOp::Mod => x % y,
    };
    r.to_bits()
}

/// Runs to the end, answering requests; returns what was printed.
fn run_all(vm: &mut VM, inputs: &[&str]) -> Result<Vec<Value>, VmError> {
    let mut printed = Vec::new();
    let mut next_input = 0;
    loop {
        match vm.run(10_000)? {
            Outcome::Finished => return Ok(printed),
            Outcome::Suspended => panic!("program did not finish"),
            Outcome::Request(Request::Print(v)) => printed.push(v),
            Outcome::Request(Request::Read) => {
                let line = inputs[next_input];
                next_input += 1;
                vm.provide_input(line.trim().parse::<f64>().ok().map(f64::to_bits))?;
            }
            Outcome::Request(Request::Compute(op, a, b)) => vm.provide_result(compute(op, a, b)),
        }
    }
}

fn eval(src: &str) -> VM {
    let mut vm = VM::new(assemble(src).unwrap());
    run_all(&mut vm, &[]).unwrap();
    vm
}

#[test]
fn load_const_integral_becomes_int() {
    let prog = assemble("LOAD_CONST 5.0").unwrap();
    assert_eq!(prog, vec![Instruction::LoadConstInt(5)]);
    let mut vm = VM::new(prog);
    assert_eq!(vm.step(), Ok(None));
    assert_eq!(vm.snapshot_stack(), vec![Value::Int(5)]);
}

#[test]
fn load_const_fraction_stays_float() {
    let prog = assemble("LOAD_CONST 2.5").unwrap();
    assert_eq!(prog, vec![Instruction::LoadConstFloat(2.5f64.to_bits())]);
    let mut vm = VM::new(prog);
    assert_eq!(vm.step(), Ok(None));
    assert_eq!(vm.snapshot_stack(), vec![Value::Float(2.5f64.to_bits())]);
}

#[test]
fn load_const_negative_and_exponent() {
    let prog = assemble("LOAD_CONST -3\nLOAD_CONST 1e3\nLOAD_CONST -0.25").unwrap();
    assert_eq!(
        prog,
        vec![
            Instruction::LoadConstInt(-3),
            Instruction::LoadConstInt(1000),
            Instruction::LoadConstFloat((-0.25f64).to_bits()),
        ]
    );
}

#[test]
fn labels_resolve_to_instruction_count() {
    let src = "start:\nLOAD_CONST 1\n\n; a comment line\nloop:   ; trailing comment\n  LOAD_CONST 2\nJMP loop\nJMPEQ start\nJMPNE loop";
    let prog = assemble(src).unwrap();
    assert_eq!(
        prog,
        vec![
            Instruction::LoadConstInt(1),
            Instruction::LoadConstInt(2),
            Instruction::Jmp(1),
            Instruction::JmpEq(0),
            Instruction::JmpNe(1),
        ]
    );
}

#[test]
fn jumps_keep_control_flow() {
    let src = "LOAD_CONST 3\nSTORE_VAR n\ntop:\nLOAD_VAR n\nJMPLE end\nLOAD_VAR n\nPRINT\nLOAD_VAR n\nLOAD_CONST 1\nSUB\nSTORE_VAR n\nJMP top\nend:";
    let prog = assemble(src).unwrap();
    assert_eq!(prog.len(), 11);
    assert_eq!(prog[3], Instruction::JmpLe(11));
    assert_eq!(prog[10], Instruction::Jmp(2));
    let mut vm = VM::new(prog);
    let printed = run_all(&mut vm, &[]).unwrap();
    assert_eq!(printed, vec![Value::Int(3), Value::Int(2), Value::Int(1)]);
}

#[test]
fn all_opcodes_decode() {
    let src = "l:\nLOAD_VAR x\nSTORE_VAR y\nADD\nSUB\nMUL\nDIV\nPOW\nMOD\nPRINT\nREAD\nJMP l\nJMPEQ l\nJMPNE l\nJMPGT l\nJMPLT l\nJMPGE l\nJMPLE l";
    let prog = assemble(src).unwrap();
    assert_eq!(
        prog,
        vec![
            Instruction::LoadVar("x".to_string()),
            Instruction::StoreVar("y".to_string()),
            Instruction::Add,
            Instruction::Sub,
            Instruction::Mul,
            Instruction::Div,
            Instruction::Pow,
            Instruction::Mod,
            Instruction::Print,
            Instruction::Read,
            Instruction::Jmp(0),
            Instruction::JmpEq(0),
            Instruction::JmpNe(0),
            Instruction::JmpGt(0),
            Instruction::JmpLt(0),
            Instruction::JmpGe(0),
            Instruction::JmpLe(0),
        ]
    );
}

#[test]
fn snapshots_do_not_change_state() {
    let mut vm = VM::new(assemble("LOAD_CONST 1\nSTORE_VAR a\nLOAD_CONST 2\nLOAD_CONST 7\nSTORE_VAR a").unwrap());
    for _ in 0..3 {
        vm.step().unwrap();
    }
    let s1 = vm.snapshot_stack();
    let v1 = vm.snapshot_vars();
    assert_eq!(s1, vm.snapshot_stack());
    assert_eq!(v1, vm.snapshot_vars());
    assert_eq!(vm.ip(), 3);
    assert_eq!(s1, vec![Value::Int(2)]);
    assert_eq!(v1, vec![("a".to_string(), Value::Int(1))]);
    vm.step().unwrap();
    vm.step().unwrap();
    assert_eq!(vm.snapshot_vars(), vec![("a".to_string(), Value::Int(7))]);
}

#[test]
fn int_int_div_stays_int() {
    let vm = eval("LOAD_CONST 4\nLOAD_CONST 2\nDIV");
    assert_eq!(vm.snapshot_stack(), vec![Value::Int(2)]);
}

#[test]
fn int_float_div_gives_float() {
    let mut vm = VM::new(vec![
        Instruction::LoadConstInt(4),
        Instruction::LoadConstFloat(2.0f64.to_bits()),
        Instruction::Div,
    ]);
    run_all(&mut vm, &[]).unwrap();
    assert_eq!(vm.snapshot_stack(), vec![Value::Float(2.0f64.to_bits())]);
}

#[test]
fn float_float_mod_gives_float() {
    let mut vm = VM::new(vec![
        Instruction::LoadConstFloat(5.0f64.to_bits()),
        Instruction::LoadConstFloat(2.0f64.to_bits()),
        Instruction::Mod,
    ]);
    run_all(&mut vm, &[]).unwrap();
    assert_eq!(vm.snapshot_stack(), vec![Value::Float(1.0f64.to_bits())]);
}

#[test]
fn int_division_truncates() {
    let vm = eval("LOAD_CONST 7\nLOAD_CONST 2\nDIV\nLOAD_CONST -7\nLOAD_CONST 2\nDIV\nLOAD_CONST 2\nLOAD_CONST 10\nPOW");
    assert_eq!(vm.snapshot_stack(), vec![Value::Int(3), Value::Int(-3), Value::Int(1024)]);
}

#[test]
fn subtraction_pops_right_operand_first() {
    let mut vm = VM::new(assemble("LOAD_CONST 10\nLOAD_CONST 3\nSUB").unwrap());
    vm.step().unwrap();
    vm.step().unwrap();
    let r = vm.step().unwrap();
    assert_eq!(r, Some(Request::Compute(ArithOp::Sub, Value::Int(10), Value::Int(3))));
    assert_eq!(vm.pending(), Pending::Result(true));
    assert_eq!(vm.ip(), 2);
    vm.provide_result(7.0f64.to_bits());
    assert_eq!(vm.snapshot_stack(), vec![Value::Int(7)]);
    assert_eq!(vm.ip(), 3);
}

#[test]
fn jmpeq_on_zero_skips_print() {
    let mut vm = VM::new(assemble("LOAD_CONST 0\nJMPEQ done\nLOAD_CONST 99\nPRINT\ndone:").unwrap());
    let printed = run_all(&mut vm, &[]).unwrap();
    assert!(printed.is_empty());
    assert!(vm.snapshot_stack().is_empty());
    assert_eq!(vm.ip(), 4);
}

#[test]
fn jmpeq_on_nonzero_falls_through() {
    let mut vm = VM::new(assemble("LOAD_CONST 5\nJMPEQ done\nLOAD_CONST 99\nPRINT\ndone:").unwrap());
    let printed = run_all(&mut vm, &[]).unwrap();
    assert_eq!(printed, vec![Value::Int(99)]);
}

#[test]
fn conditional_jumps_compare_with_zero() {
    let cases: [(&str, f64, bool); 10] = [
        ("JMPGT", 1.5, true),
        ("JMPGT", -0.0, false),
        ("JMPLT", -2.0, true),
        ("JMPGE", 0.0, true),
        ("JMPLE", -0.0, true),
        ("JMPNE", -0.0, false),
        ("JMPNE", f64::NAN, true),
        ("JMPEQ", f64::NAN, false),
        ("JMPGE", f64::NAN, false),
        ("JMPLT", f64::NEG_INFINITY, true),
    ];
    for (op, x, taken) in cases {
        let src = format!("{} t\nt:", op);
        let mut prog = vec![Instruction::LoadConstFloat(x.to_bits())];
        let body = assemble(&src).unwrap();
        prog.push(match body[0] {
            Instruction::JmpEq(_) => Instruction::JmpEq(5),
            Instruction::JmpNe(_) => Instruction::JmpNe(5),
            Instruction::JmpGt(_) => Instruction::JmpGt(5),
            Instruction::JmpLt(_) => Instruction::JmpLt(5),
            Instruction::JmpGe(_) => Instruction::JmpGe(5),
            Instruction::JmpLe(_) => Instruction::JmpLe(5),
            ref other => panic!("unexpected {:?}", other),
        });
        let mut vm = VM::new(prog);
        vm.step().unwrap();
        vm.step().unwrap();
        assert_eq!(vm.ip(), if taken { 5 } else { 2 }, "{} {}", op, x);
    }
}

#[test]
fn add_alone_underflows_without_effect() {
    let mut vm = VM::new(assemble("ADD").unwrap());
    assert_eq!(vm.step(), Err(VmError::StackUnderflow));
    assert!(vm.snapshot_stack().is_empty());
    assert!(vm.snapshot_vars().is_empty());
    assert_eq!(vm.ip(), 0);
    assert_eq!(vm.run(10), Err(VmError::StackUnderflow));
}

#[test]
fn underflow_on_store_print_and_jump() {
    for src in ["STORE_VAR x", "PRINT", "l:\nJMPGT l", "LOAD_CONST 1\nMUL"] {
        let mut vm = VM::new(assemble(src).unwrap());
        assert_eq!(run_all(&mut vm, &[]), Err(VmError::StackUnderflow), "{}", src);
    }
}

#[test]
fn duplicate_label_is_rejected() {
    let err = assemble("loop:\nLOAD_CONST 1\nloop:\nJMP loop").unwrap_err();
    assert_eq!(err.kind, AsmErrorKind::DuplicateLabel);
    assert_eq!(err.text, "loop");
}

#[test]
fn assembly_errors() {
    let e = assemble("LOAD_CONST 1\nFOO 3").unwrap_err();
    assert_eq!((e.kind, e.text.as_str()), (AsmErrorKind::UnknownInstruction, "FOO"));
    let e = assemble("LOAD_CONST").unwrap_err();
    assert_eq!((e.kind, e.text.as_str()), (AsmErrorKind::MissingOperand, "LOAD_CONST"));
    let e = assemble("JMP nowhere").unwrap_err();
    assert_eq!((e.kind, e.text.as_str()), (AsmErrorKind::LabelNotFound, "nowhere"));
    let e = assemble("LOAD_CONST abc").unwrap_err();
    assert_eq!((e.kind, e.text.as_str()), (AsmErrorKind::InvalidNumber, "abc"));
    let e = assemble("STORE_VAR ; no name").unwrap_err();
    assert_eq!((e.kind, e.text.as_str()), (AsmErrorKind::MissingOperand, "STORE_VAR"));
}

#[test]
fn numerals_are_listed_per_line() {
    let p = Parser::new();
    let n = p.numerals("x:\n  LOAD_CONST  4.5  ; c\n\nADD\nLOAD_CONST");
    assert_eq!(n, vec![None, Some("4.5".to_string()), None, None]);
}

#[test]
fn variables_store_and_load() {
    let vm = eval("LOAD_CONST 2\nSTORE_VAR x\nLOAD_VAR x\nLOAD_VAR x\nMUL\nSTORE_VAR y\nLOAD_VAR y");
    assert_eq!(vm.snapshot_stack(), vec![Value::Int(4)]);
    assert_eq!(
        vm.snapshot_vars(),
        vec![("x".to_string(), Value::Int(2)), ("y".to_string(), Value::Int(4))]
    );
}

#[test]
fn missing_variable_is_an_error() {
    let mut vm = VM::new(assemble("LOAD_VAR q").unwrap());
    assert_eq!(vm.step(), Err(VmError::VariableNotFound("q".to_string())));
    assert_eq!(vm.ip(), 0);
}

#[test]
fn read_pushes_a_float() {
    let mut vm = VM::new(assemble("READ\nREAD\nADD\nPRINT").unwrap());
    let printed = run_all(&mut vm, &["3", "0.5"]).unwrap();
    assert_eq!(printed, vec![Value::Float(3.5f64.to_bits())]);
}

#[test]
fn read_rejects_bad_input() {
    let mut vm = VM::new(assemble("READ").unwrap());
    assert_eq!(vm.step(), Ok(Some(Request::Read)));
    assert_eq!(vm.pending(), Pending::Input);
    assert_eq!(vm.provide_input(None), Err(VmError::InvalidInput));
    assert_eq!(vm.ip(), 0);
    assert_eq!(vm.provide_input(Some(2.0f64.to_bits())), Ok(()));
    assert_eq!(vm.snapshot_stack(), vec![Value::Float(2.0f64.to_bits())]);
    assert_eq!(vm.ip(), 1);
}

#[test]
fn run_stops_on_budget_and_past_end() {
    let mut vm = VM::new(assemble("l:\nJMP l").unwrap());
    assert_eq!(vm.run(50), Ok(Outcome::Suspended));
    let mut vm = VM::new(Vec::new());
    assert_eq!(vm.run(0), Ok(Outcome::Finished));
    assert_eq!(vm.step(), Err(VmError::NoInstruction));
    assert_eq!(vm.current_instruction(), None);
}

#[test]
fn current_instruction_follows_ip() {
    let mut vm = VM::new(assemble("LOAD_CONST 1\nPRINT").unwrap());
    assert_eq!(vm.current_instruction(), Some(&Instruction::LoadConstInt(1)));
    vm.step().unwrap();
    assert_eq!(vm.current_instruction(), Some(&Instruction::Print));
    assert_eq!(vm.step(), Ok(Some(Request::Print(Value::Int(1)))));
    assert_eq!(vm.current_instruction(), None);
}

#[test]
fn double_bits_classification() {
    assert!(is_integral(0.0f64.to_bits()));
    assert!(is_integral((-0.0f64).to_bits()));
    assert!(is_integral(1e300f64.to_bits()));
    assert!(!is_integral(0.5f64.to_bits()));
    assert!(!is_integral(f64::INFINITY.to_bits()));
    assert!(!is_integral(f64::NAN.to_bits()));
    assert!(!is_integral(5e-324f64.to_bits()));
    assert_eq!(trunc((-2.7f64).to_bits()), -2);
    assert_eq!(trunc(2.7f64.to_bits()), 2);
    assert_eq!(trunc(1e300f64.to_bits()), i64::MAX);
    assert_eq!(trunc((-1e300f64).to_bits()), i64::MIN);
    assert_eq!(trunc(f64::NAN.to_bits()), 0);
    assert_eq!(trunc(9007199254740993.0f64.to_bits()), 9007199254740992);
    assert_eq!(trunc((-9223372036854775808.0f64).to_bits()), i64::MIN);
    assert_eq!(literal_instruction(42.0f64.to_bits()), Instruction::LoadConstInt(42));
}

#[test]
fn unicode_whitespace_and_crlf() {
    let prog = assemble("LOAD_CONST\u{3000}7\r\nPRINT\r\n").unwrap();
    assert_eq!(prog, vec![Instruction::LoadConstInt(7), Instruction::Print]);
}
