use bfc::dce::dead_code_elimination;
use bfc::ir::{combine, token_from_byte, tokenize, Instruction, Jump, Token, UNRESOLVED};
use bfc::link::{link, LinkError};
use bfc::loops::{arithmetic_loop_pass, arithmetic_pass, zero_loop_pass, Config, LoopOutcome};
use bfc::machine::{run_program, Action, Machine};
use bfc::pipeline::{optimize, parse};

const HELLO: &str = "++++++++[>++++[>++>+++>+++>+<<<<-]>+>+>->>+[<]<-]>>.>---.+++++++..+++.>>.<-.<.+++.------.--------.>>+.>++.";

fn all_on() -> Config {
    Config {
        verbose: 0,
        optimize: true,
        o_zeros: true,
        o_arithmetic: true,
        o_jumps: true,
        o_dead_code: true,
    }
}

fn all_off() -> Config {
    Config {
        verbose: 0,
        optimize: false,
        o_zeros: false,
        o_arithmetic: false,
        o_jumps: false,
        o_dead_code: false,
    }
}

fn compile(src: &str, cfg: &Config) -> (Vec<Instruction>, Vec<(usize, usize)>) {
    let mut code = parse(src.as_bytes());
    let warnings = optimize(cfg, &mut code);
    link(&mut code).expect("balanced brackets");
    (code, warnings)
}

fn has_bracket(code: &[Instruction]) -> bool {
    code.iter().any(|i| matches!(i, Instruction::JumpZ(_) | Instruction::JumpNz(_)))
}

/// Runs linked code from a tape whose first cells are given, to completion.
fn run_from(code: &[Instruction], cells: &[u8]) -> Machine {
    let mut m = Machine::new();
    for (k, c) in cells.iter().enumerate() {
        m.registers[k] = *c;
    }
    for _ in 0..100_000 {
        match m.step(code) {
            Action::Halt => return m,
            Action::Continue => {}
            a => panic!("unexpected action {:?}", a),
        }
    }
    panic!("did not halt");
}

#[test]
fn tokenizer_drops_comments() {
    let t = tokenize(b"a+b-<c>.,[]x");
    assert_eq!(
        t,
        vec![
            Token::Inc,
            Token::Dec,
            Token::Shl,
            Token::Shr,
            Token::Output,
            Token::Input,
            Token::LSquare,
            Token::RSquare
        ]
    );
    assert_eq!(token_from_byte(b'x'), None);
    assert!(tokenize(b"").is_empty());
}

#[test]
fn combinable_tokens() {
    assert!(Token::Shl.is_combinable());
    assert!(Token::Dec.is_combinable());
    assert!(!Token::Output.is_combinable());
    assert!(!Token::LSquare.is_combinable());
}

#[test]
fn redundant_jump_query() {
    assert!(Jump::Redundant.is_redundant());
    assert!(!Jump::Location(3).is_redundant());
}

#[test]
fn combiner_collapses_runs() {
    let code = combine(&tokenize(b"+++>>--<.,[]"));
    assert_eq!(
        code,
        vec![
            Instruction::Inc(3),
            Instruction::Shr(2),
            Instruction::Dec(2),
            Instruction::Shl(1),
            Instruction::Output,
            Instruction::Input,
            Instruction::JumpZ(Jump::Location(UNRESOLVED)),
            Instruction::JumpNz(Jump::Location(UNRESOLVED)),
        ]
    );
}

#[test]
fn combiner_no_adjacent_same_kind() {
    let code = parse(b"++--++>><<..");
    for w in code.windows(2) {
        let same = matches!(
            (w[0], w[1]),
            (Instruction::Inc(_), Instruction::Inc(_))
                | (Instruction::Dec(_), Instruction::Dec(_))
                | (Instruction::Shl(_), Instruction::Shl(_))
                | (Instruction::Shr(_), Instruction::Shr(_))
        );
        assert!(!same);
    }
}

#[test]
fn combiner_splits_long_run() {
    let src = "+".repeat(256);
    assert_eq!(parse(src.as_bytes()), vec![Instruction::Inc(255), Instruction::Inc(1)]);
    let src = ">".repeat(70000);
    assert_eq!(parse(src.as_bytes()), vec![Instruction::Shr(65535), Instruction::Shr(4465)]);
}

#[test]
fn linker_pairs_brackets() {
    let mut code = parse(b"[[]+]");
    assert_eq!(link(&mut code), Ok(()));
    assert_eq!(code[0], Instruction::JumpZ(Jump::Location(5)));
    assert_eq!(code[1], Instruction::JumpZ(Jump::Location(3)));
    assert_eq!(code[2], Instruction::JumpNz(Jump::Location(2)));
    assert_eq!(code[4], Instruction::JumpNz(Jump::Location(1)));
}

#[test]
fn linker_keeps_redundant_targets() {
    let mut code = vec![
        Instruction::JumpZ(Jump::Location(UNRESOLVED)),
        Instruction::Zero(1),
        Instruction::JumpNz(Jump::Redundant),
    ];
    assert_eq!(link(&mut code), Ok(()));
    assert_eq!(code[0], Instruction::JumpZ(Jump::Location(3)));
    assert_eq!(code[2], Instruction::JumpNz(Jump::Redundant));
}

#[test]
fn linker_rejects_mismatched_brackets() {
    let mut open = parse(b"[+");
    assert_eq!(link(&mut open), Err(LinkError::MismatchedBrackets));
    let mut close = parse(b"+]");
    assert_eq!(link(&mut close), Err(LinkError::MismatchedBrackets));
    let mut crossed = parse(b"][");
    assert_eq!(link(&mut crossed), Err(LinkError::MismatchedBrackets));
}

#[test]
fn hello_world() {
    assert_eq!(HELLO.len(), 106);
    let (code, warnings) = compile(HELLO, &all_on());
    assert!(warnings.is_empty());
    let (out, last) = run_program(&code, b"", 100_000);
    assert_eq!(last, Action::Halt);
    assert_eq!(out, b"Hello World!\n".to_vec());
    let (plain, _) = compile(HELLO, &all_off());
    let (out, last) = run_program(&plain, b"", 100_000);
    assert_eq!(last, Action::Halt);
    assert_eq!(out, b"Hello World!\n".to_vec());
}

#[test]
fn echo() {
    let (code, _) = compile(",[.,]", &all_on());
    let (out, last) = run_program(&code, b"abc", 10_000);
    assert_eq!(last, Action::Halt);
    assert_eq!(out, b"abc".to_vec());
}

#[test]
fn clear_then_set() {
    let (code, _) = compile("++++[-]+++", &all_on());
    assert_eq!(code, vec![Instruction::Inc(4), Instruction::Zero(0), Instruction::Inc(3)]);
    assert!(!has_bracket(&code));
}

#[test]
fn zero_loop_pass_replaces_pattern() {
    let mut code = parse(b"+[-]>[-]");
    zero_loop_pass(&mut code);
    assert_eq!(
        code,
        vec![Instruction::Inc(1), Instruction::Zero(0), Instruction::Shr(1), Instruction::Zero(0)]
    );
}

#[test]
fn copy_loop() {
    let (code, _) = compile("[->+<]", &all_on());
    assert_eq!(code, vec![Instruction::Add(1), Instruction::Zero(0)]);
    let m = run_from(&code, &[5, 0]);
    assert_eq!(m.registers[0], 0);
    assert_eq!(m.registers[1], 5);
    let (plain, _) = compile("[->+<]", &all_off());
    let m = run_from(&plain, &[5, 0]);
    assert_eq!((m.registers[0], m.registers[1]), (0, 5));
}

#[test]
fn multiply_loop() {
    let (code, _) = compile("[->+++<]", &all_on());
    assert_eq!(code, vec![Instruction::AddMul(1, 3), Instruction::Zero(0)]);
    let m = run_from(&code, &[4, 0]);
    assert_eq!((m.registers[0], m.registers[1]), (0, 12));
}

#[test]
fn multiply_wraps() {
    let (code, _) = compile("[->+++<]", &all_on());
    let m = run_from(&code, &[100, 7]);
    assert_eq!(m.registers[1], ((7 + 300) % 256) as u8);
    let (code, _) = compile("[->---<]", &all_on());
    assert_eq!(code, vec![Instruction::SubMul(1, 3), Instruction::Zero(0)]);
    let m = run_from(&code, &[100, 7]);
    assert_eq!(m.registers[1], ((7i32 - 300).rem_euclid(256)) as u8);
}

#[test]
fn addmul_equals_repeated_add() {
    let mul = vec![Instruction::AddMul(2, 3)];
    let adds = vec![Instruction::Add(2), Instruction::Add(2), Instruction::Add(2)];
    let a = run_from(&mul, &[90, 0, 250]);
    let b = run_from(&adds, &[90, 0, 250]);
    assert_eq!(a.registers[2], b.registers[2]);
    assert_eq!(a.registers[2], ((250 + 270) % 256) as u8);
}

#[test]
fn loop_pass_rewrites_guarded_zero() {
    let cfg = all_on();
    let mut code = parse(b"[->[-]<]");
    zero_loop_pass(&mut code);
    assert_eq!(arithmetic_loop_pass(&cfg, &mut code, 0), LoopOutcome::Rewritten(4));
    assert_eq!(
        code,
        vec![
            Instruction::JumpZ(Jump::Location(UNRESOLVED)),
            Instruction::Zero(1),
            Instruction::JumpNz(Jump::Redundant),
            Instruction::Zero(0),
        ]
    );
}

#[test]
fn loop_pass_marks_redundant_jump() {
    let cfg = all_on();
    let mut code = parse(b"[[-]]");
    zero_loop_pass(&mut code);
    assert_eq!(arithmetic_loop_pass(&cfg, &mut code, 0), LoopOutcome::MarkedRedundant(2));
    assert_eq!(code[2], Instruction::JumpNz(Jump::Redundant));
    let off = Config { o_jumps: false, ..cfg };
    let mut code = parse(b"[[-]]");
    zero_loop_pass(&mut code);
    assert_eq!(arithmetic_loop_pass(&off, &mut code, 0), LoopOutcome::Skipped);
}

#[test]
fn loop_pass_skips_other_loops() {
    let cfg = all_on();
    let mut code = parse(b"[->+<.]");
    assert_eq!(arithmetic_loop_pass(&cfg, &mut code, 0), LoopOutcome::Skipped);
    let mut code = parse(b"[-->+<]");
    assert_eq!(arithmetic_loop_pass(&cfg, &mut code, 0), LoopOutcome::Skipped);
    let mut code = parse(b"[->+]");
    assert_eq!(arithmetic_loop_pass(&cfg, &mut code, 0), LoopOutcome::Skipped);
    let mut code = parse(b"[[->+<]]");
    assert_eq!(arithmetic_loop_pass(&cfg, &mut code, 0), LoopOutcome::Skipped);
    assert_eq!(arithmetic_loop_pass(&cfg, &mut code, 1), LoopOutcome::Rewritten(2));
}

#[test]
fn infinite_loop_warning() {
    let cfg = all_on();
    let mut code = parse(b"+[]");
    assert_eq!(arithmetic_pass(&cfg, &mut code), vec![(1, 2)]);
    let mut code = parse(b"+[>+<]");
    assert_eq!(arithmetic_pass(&cfg, &mut code), vec![(1, 5)]);
    let mut code = parse(b"+[[-]+]");
    zero_loop_pass(&mut code);
    assert_eq!(arithmetic_pass(&cfg, &mut code), vec![(1, 4)]);
}

#[test]
fn infinite_loop_warning_suppressed_when_redundant() {
    let cfg = all_on();
    let mut code = vec![
        Instruction::JumpZ(Jump::Location(UNRESOLVED)),
        Instruction::Zero(1),
        Instruction::JumpNz(Jump::Redundant),
    ];
    assert!(arithmetic_pass(&cfg, &mut code).is_empty());
}

#[test]
fn dead_code_removes_unentered_loops() {
    let mut code = parse(b"[.[,]]+[-]>.");
    dead_code_elimination(&mut code);
    assert_eq!(code, parse(b"+[-]>."));
    let mut code = parse(b"+[.]");
    dead_code_elimination(&mut code);
    assert_eq!(code, parse(b"+[.]"));
    let mut code = parse(b",[.]");
    dead_code_elimination(&mut code);
    assert_eq!(code, parse(b",[.]"));
}

#[test]
fn dead_code_stops_off_tape() {
    let mut code = parse(b"<[.]");
    dead_code_elimination(&mut code);
    assert_eq!(code, parse(b"<[.]"));
}

#[test]
fn optimize_respects_master_switch() {
    let mut code = parse(b"[-]");
    let before = code.clone();
    assert!(optimize(&all_off(), &mut code).is_empty());
    assert_eq!(code, before);
}

#[test]
fn interpreter_faults_off_tape() {
    let (code, _) = compile("<", &all_off());
    let (out, last) = run_program(&code, b"", 10);
    assert!(out.is_empty());
    assert_eq!(last, Action::Fault);
}

#[test]
fn interpreter_out_of_fuel() {
    let (code, _) = compile("+[]", &all_off());
    let (_, last) = run_program(&code, b"", 50);
    assert_eq!(last, Action::Continue);
}

#[test]
fn interpreter_input_and_eof() {
    let (code, _) = compile(",.,.", &all_off());
    let (out, last) = run_program(&code, b"z", 100);
    assert_eq!(last, Action::Halt);
    assert_eq!(out, vec![b'z', 0]);
}

#[test]
fn wrapping_increment_loop_terminates() {
    let (code, warnings) = compile("+[+]", &all_on());
    assert!(warnings.is_empty());
    let (out, last) = run_program(&code, b"", 10_000);
    assert!(out.is_empty());
    assert_eq!(last, Action::Halt);
}

#[test]
fn empty_program() {
    let (code, warnings) = compile("", &all_on());
    assert!(code.is_empty());
    assert!(warnings.is_empty());
    let (out, last) = run_program(&code, b"", 10);
    assert!(out.is_empty());
    assert_eq!(last, Action::Halt);
    let mut nothing: Vec<Instruction> = Vec::new();
    assert_eq!(link(&mut nothing), Ok(()));
}

#[test]
fn optimization_keeps_output() {
    let programs: [(&str, &[u8]); 4] = [
        ("++++++[->++++++++<]>+.", b""),
        (",[->+>+<<]>>.<.", b"\x07"),
        ("+++[>+++[>++<-]<-]>>.", b""),
        (",>,<[->>+<<]>[->+<]>.", b"\x05\x09"),
    ];
    for (src, input) in programs {
        let (fast, _) = compile(src, &all_on());
        let (slow, _) = compile(src, &all_off());
        let a = run_program(&fast, input, 100_000);
        let b = run_program(&slow, input, 100_000);
        assert_eq!(a.1, Action::Halt);
        assert_eq!(a, b);
    }
    let (fast, _) = compile("++++++[->++++++++<]>+.", &all_on());
    assert_eq!(run_program(&fast, b"", 1000).0, vec![49]);
}

#[test]
fn clear_then_add_loop_is_not_rewritten() {
    let cfg = all_on();
    let mut code = parse(b"[->[-]+<]");
    zero_loop_pass(&mut code);
    let before = code.clone();
    assert_eq!(arithmetic_loop_pass(&cfg, &mut code, 0), LoopOutcome::Skipped);
    assert_eq!(code, before);
    let from_any_tape = Config { o_dead_code: false, ..all_on() };
    let (fast, _) = compile("[->[-]+<]", &from_any_tape);
    let (slow, _) = compile("[->[-]+<]", &all_off());
    let a = run_from(&fast, &[2, 7]);
    let b = run_from(&slow, &[2, 7]);
    assert_eq!((a.registers[0], a.registers[1]), (0, 1));
    assert_eq!((b.registers[0], b.registers[1]), (0, 1));
    let (fast, _) = compile("++>+++++++<[->[-]+<]>.", &all_on());
    let (slow, _) = compile("++>+++++++<[->[-]+<]>.", &all_off());
    assert_eq!(run_program(&fast, b"", 10_000), (vec![1], Action::Halt));
    assert_eq!(run_program(&slow, b"", 10_000), (vec![1], Action::Halt));
}

#[test]
fn add_before_clear_is_rewritten() {
    let from_any_tape = Config { o_dead_code: false, ..all_on() };
    let (code, _) = compile("[->+[-]<]", &from_any_tape);
    assert!(code.contains(&Instruction::Zero(0)));
    let m = run_from(&code, &[3, 9]);
    let (slow, _) = compile("[->+[-]<]", &all_off());
    let n = run_from(&slow, &[3, 9]);
    assert_eq!((m.registers[0], m.registers[1]), (n.registers[0], n.registers[1]));
}
