use bfc::ast::parse;
use bfc::codegen::{BlockKind, Generator, Label, Op, TAPE_CELLS};
use bfc::config::{CellSize, Config, OptimisationLevel};
use bfc::optimiser::{run, transform, CommandFolded};

fn config(level: OptimisationLevel) -> Config {
    Config {
        input_file: "hello.bf".to_string(),
        output_file: "a.out".to_string(),
        optimisation_level: level,
        cell_size: CellSize::U8,
    }
}

fn label(kind: BlockKind, index: usize) -> Label {
    Label { kind, index }
}

/// Runs generated operations on an 8-bit tape and returns what they print.
fn execute(ops: &[Op], input: &[u8]) -> Vec<u8> {
    let mut tape: Vec<u8> = Vec::new();
    let mut ptr: isize = 0;
    let mut out = Vec::new();
    let mut input = input.iter();
    let mut pc = 0;
    let find = |l: Label| ops.iter().position(|o| *o == Op::Enter(l)).unwrap();
    while pc < ops.len() {
        let at = |p: isize| p as usize;
        match ops[pc] {
            Op::Allocate(n) => tape = vec![0; n as usize],
            Op::AddCell(d) => tape[at(ptr)] = tape[at(ptr)].wrapping_add(d as u8),
            Op::MovePointer(d) => ptr += d,
            Op::StoreZero => tape[at(ptr)] = 0,
            Op::MulAddAt { offset, multiplier } => {
                let v = tape[at(ptr)].wrapping_mul(multiplier as u8);
                let t = at(ptr + offset);
                tape[t] = tape[t].wrapping_add(v);
            }
            Op::ReadCell => tape[at(ptr)] = input.next().copied().unwrap_or(255),
            Op::PrintCell => out.push(tape[at(ptr)]),
            Op::Jump(l) => {
                pc = find(l);
                continue;
            }
            Op::Enter(_) => {}
            Op::BranchNonZero { nonzero, zero } => {
                pc = if tape[at(ptr)] != 0 { find(nonzero) } else { find(zero) };
                continue;
            }
            Op::Release => tape.clear(),
            Op::ReturnZero => break,
        }
        pc += 1;
    }
    out
}

const HELLO: &str = "++++++++[>++++[>++>+++>+++>+<<<<-]>+>+>->>+[<]<-]>>.>---.+++++++..+++.>>.<-.<.+++.------.--------.>>+.>++.";

#[test]
fn straight_line_program_lowers_node_by_node() {
    let mut g = Generator::new(&config(OptimisationLevel::Max));
    g.generate(&[
        CommandFolded::Add(3),
        CommandFolded::Move(-1),
        CommandFolded::SetZero,
        CommandFolded::MoveValue { pos_rel: 2, mul: 5 },
        CommandFolded::Read,
        CommandFolded::Print,
    ]);
    assert_eq!(
        g.ops,
        vec![
            Op::Allocate(TAPE_CELLS),
            Op::AddCell(3),
            Op::MovePointer(-1),
            Op::StoreZero,
            Op::MulAddAt { offset: 2, multiplier: 5 },
            Op::StoreZero,
            Op::ReadCell,
            Op::PrintCell,
            Op::Release,
            Op::ReturnZero,
        ]
    );
    assert_eq!(g.label_count, 0);
    assert_eq!(g.cell_size, CellSize::U8);
}

#[test]
fn loops_lower_to_three_blocks_with_unique_numbers() {
    let mut g = Generator::new(&config(OptimisationLevel::Off));
    g.generate(&[
        CommandFolded::Loop(vec![CommandFolded::Loop(vec![CommandFolded::Add(1)])]),
        CommandFolded::Loop(vec![CommandFolded::Print]),
    ]);
    let h = |i| label(BlockKind::Header, i);
    let b = |i| label(BlockKind::Body, i);
    let e = |i| label(BlockKind::Exit, i);
    assert_eq!(
        g.ops,
        vec![
            Op::Allocate(TAPE_CELLS),
            Op::Jump(h(0)),
            Op::Enter(h(0)),
            Op::BranchNonZero { nonzero: b(0), zero: e(0) },
            Op::Enter(b(0)),
            Op::Jump(h(1)),
            Op::Enter(h(1)),
            Op::BranchNonZero { nonzero: b(1), zero: e(1) },
            Op::Enter(b(1)),
            Op::AddCell(1),
            Op::Jump(h(1)),
            Op::Enter(e(1)),
            Op::Jump(h(0)),
            Op::Enter(e(0)),
            Op::Jump(h(2)),
            Op::Enter(h(2)),
            Op::BranchNonZero { nonzero: b(2), zero: e(2) },
            Op::Enter(b(2)),
            Op::PrintCell,
            Op::Jump(h(2)),
            Op::Enter(e(2)),
            Op::Release,
            Op::ReturnZero,
        ]
    );
    assert_eq!(g.label_count, 3);
}

#[test]
fn hello_world_prints_h_first() {
    for level in [OptimisationLevel::Off, OptimisationLevel::Normal, OptimisationLevel::Max] {
        let ast = parse(&config(level), HELLO.as_bytes()).unwrap();
        let folded = if level == OptimisationLevel::Max { run(&ast) } else { transform(&ast) };
        let mut g = Generator::new(&config(level));
        g.generate(&folded);
        let out = execute(&g.ops, b"");
        assert_eq!(out[0], b'H');
        assert_eq!(out, b"Hello World!\n".to_vec());
    }
}

#[test]
fn optimised_and_plain_code_agree() {
    let source = ",[>+++<-]>[>++<-]>.[-]+.";
    let c = config(OptimisationLevel::Max);
    let ast = parse(&c, source.as_bytes()).unwrap();
    let mut plain = Generator::new(&c);
    plain.generate(&transform(&ast));
    let mut optimised = Generator::new(&c);
    optimised.generate(&run(&ast));
    assert!(optimised.ops.len() < plain.ops.len());
    for byte in [0u8, 1, 7, 200] {
        assert_eq!(execute(&plain.ops, &[byte]), execute(&optimised.ops, &[byte]));
    }
    assert_eq!(execute(&optimised.ops, &[7]), vec![42, 1]);
}
