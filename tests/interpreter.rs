use bf_engine::{
    is_balanced, parse_1, parse_2, Executor, Fault, Instruction, OpCode, Streams, TAPE_LEN,
};

const FUEL: u64 = 1_000_000;

fn structure(src: &str) -> Vec<Instruction> {
    let ops = parse_1(src.to_string());
    assert!(is_balanced(&ops));
    parse_2(ops)
}

fn run_program(src: &str, input: &[u8], fuel: u64) -> (Executor, Streams, Result<(), Fault>) {
    let program = structure(src);
    let mut exec = Executor::new();
    let mut io = Streams::new(input.to_vec());
    let r = exec.run(&program, &mut io, fuel);
    (exec, io, r)
}

fn render(prog: &[Instruction]) -> String {
    let mut s = String::new();
    for ins in prog {
        match ins {
            Instruction::Forward => s.push('>'),
            Instruction::Backward => s.push('<'),
            Instruction::Increase => s.push('+'),
            Instruction::Decrease => s.push('-'),
            Instruction::Write => s.push('.'),
            Instruction::Read => s.push(','),
            Instruction::Loop(body) => {
                s.push('[');
                s.push_str(&render(body));
                s.push(']');
            }
        }
    }
    s
}

#[test]
fn tokenize_drops_other_characters() {
    assert_eq!(
        parse_1("a+b-".to_string()),
        vec![OpCode::Increase, OpCode::Decrease]
    );
}

#[test]
fn tokenize_every_symbol_in_order() {
    assert_eq!(
        parse_1("x><+-.,[]é".to_string()),
        vec![
            OpCode::Forward,
            OpCode::Backward,
            OpCode::Increase,
            OpCode::Decrease,
            OpCode::Write,
            OpCode::Read,
            OpCode::BeginLoop,
            OpCode::EndLoop,
        ]
    );
}

#[test]
fn tokenize_text_without_symbols() {
    assert_eq!(parse_1(String::new()), vec![]);
    assert_eq!(parse_1("hello world".to_string()), vec![]);
}

#[test]
fn structure_loop_between_instructions() {
    assert_eq!(
        structure("++[-]+"),
        vec![
            Instruction::Increase,
            Instruction::Increase,
            Instruction::Loop(vec![Instruction::Decrease]),
            Instruction::Increase,
        ]
    );
}

#[test]
fn structure_nested_loops() {
    assert_eq!(
        structure("[>[<]]."),
        vec![
            Instruction::Loop(vec![
                Instruction::Forward,
                Instruction::Loop(vec![Instruction::Backward]),
            ]),
            Instruction::Write,
        ]
    );
    assert_eq!(structure("[]"), vec![Instruction::Loop(vec![])]);
    assert_eq!(structure(""), vec![]);
}

#[test]
fn restructure_rendered_tree() {
    let src = "+[->[,.]<]x>>[-]";
    let first = structure(src);
    let text = render(&first);
    assert_eq!(text, "+[->[,.]<]>>[-]");
    assert_eq!(structure(&text), first);
}

#[test]
fn balance_of_loop_markers() {
    assert!(is_balanced(&parse_1("[[]][]".to_string())));
    assert!(is_balanced(&parse_1("".to_string())));
    assert!(!is_balanced(&parse_1("][".to_string())));
    assert!(!is_balanced(&parse_1("[".to_string())));
    assert!(!is_balanced(&parse_1("[]]".to_string())));
}

#[test]
fn write_emits_one_byte() {
    let (exec, io, r) = run_program("+++.", &[], FUEL);
    assert_eq!(r, Ok(()));
    assert_eq!(io.output, vec![3u8]);
    assert_eq!(exec.cell(0), 3);
}

#[test]
fn loop_runs_once_and_ends() {
    let (exec, io, r) = run_program("+[-]", &[], FUEL);
    assert_eq!(r, Ok(()));
    assert_eq!(exec.cursor(), 0);
    assert_eq!(exec.cell(0), 0);
    assert!(io.output.is_empty());
}

#[test]
fn increment_wraps_to_zero() {
    let (exec, _, r) = run_program(",+", &[255], FUEL);
    assert_eq!(r, Ok(()));
    assert_eq!(exec.cell(0), 0);
}

#[test]
fn decrement_wraps_to_255() {
    let (exec, _, r) = run_program("-", &[], FUEL);
    assert_eq!(r, Ok(()));
    assert_eq!(exec.cell(0), 255);
}

#[test]
fn cat_copies_until_zero() {
    let (_, io, r) = run_program(",[.,]", b"AB\0", FUEL);
    assert_eq!(r, Ok(()));
    assert_eq!(io.output, b"AB".to_vec());
    assert_eq!(io.consumed, 3);
}

#[test]
fn move_left_of_first_cell_fails() {
    let (exec, io, r) = run_program("+.<.", &[], FUEL);
    assert_eq!(r, Err(Fault::CursorOutOfBounds));
    assert_eq!(exec.cursor(), 0);
    assert_eq!(io.output, vec![1u8]);
}

#[test]
fn move_right_of_last_cell_fails() {
    let last = ">".repeat(TAPE_LEN - 1);
    let (exec, _, r) = run_program(&last, &[], FUEL);
    assert_eq!(r, Ok(()));
    assert_eq!(exec.cursor(), TAPE_LEN - 1);
    let past = ">".repeat(TAPE_LEN);
    let (exec, _, r) = run_program(&past, &[], FUEL);
    assert_eq!(r, Err(Fault::CursorOutOfBounds));
    assert_eq!(exec.cursor(), TAPE_LEN - 1);
}

#[test]
fn read_without_input_fails() {
    let (_, io, r) = run_program(",,", b"A", FUEL);
    assert_eq!(r, Err(Fault::InputExhausted));
    assert_eq!(io.consumed, 1);
}

#[test]
fn endless_loop_hits_step_limit() {
    let (exec, _, r) = run_program("+[]", &[], 5);
    assert_eq!(r, Err(Fault::StepLimit));
    assert_eq!(exec.cell(0), 1);
}

#[test]
fn hello_world_program() {
    let src = "++++++++[>++++[>++>+++>+++>+<<<<-]>+>+>->>+[<]<-]>>.>---.+++++++..+++.>>.<-.<.+++.------.--------.>>+.>++.";
    let (_, io, r) = run_program(src, &[], FUEL);
    assert_eq!(r, Ok(()));
    assert_eq!(io.output, b"Hello World!\n".to_vec());
}
