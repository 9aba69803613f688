use bfc::ast::{parse, Command};
use bfc::config::{CellSize, Config, OptimisationLevel};
use bfc::optimiser::{optimize_all, run, transform, CommandFolded};

fn parsed(source: &str) -> Vec<Command> {
    let config = Config {
        input_file: "input.bf".to_string(),
        output_file: "a.out".to_string(),
        optimisation_level: OptimisationLevel::Max,
        cell_size: CellSize::U8,
    };
    parse(&config, source.as_bytes()).unwrap()
}

fn show(p: &[CommandFolded]) -> String {
    format!("{:?}", p)
}

#[test]
fn transform_uses_signed_deltas() {
    let p = transform(&[
        Command::Add(2),
        Command::Sub(3),
        Command::Left(4),
        Command::Right(5),
        Command::Loop(vec![Command::Read, Command::Print]),
    ]);
    assert_eq!(show(&p), "[Add(2), Add(-3), Move(-4), Move(5), Loop([Read, Print])]");
}

#[test]
fn decrement_loops_fold_to_set_zero() {
    assert_eq!(show(&run(&parsed("[-]"))), "[SetZero]");
    assert_eq!(show(&run(&parsed("[---]"))), "[SetZero]");
}

#[test]
fn increment_loop_does_not_fold() {
    assert_eq!(show(&run(&parsed("[+]"))), "[Loop([Add(1)])]");
}

#[test]
fn copy_loop_folds_to_move_value() {
    let p = vec![CommandFolded::Loop(vec![
        CommandFolded::Move(2),
        CommandFolded::Add(3),
        CommandFolded::Move(-2),
        CommandFolded::Add(-1),
    ])];
    assert_eq!(show(&optimize_all(&p)), "[MoveValue { pos_rel: 2, mul: 3 }]");
}

#[test]
fn mismatched_return_offset_does_not_fold() {
    let p = vec![CommandFolded::Loop(vec![
        CommandFolded::Move(2),
        CommandFolded::Add(3),
        CommandFolded::Move(-3),
        CommandFolded::Add(-1),
    ])];
    assert_eq!(show(&optimize_all(&p)), "[Loop([Move(2), Add(3), Move(-3), Add(-1)])]");
}

#[test]
fn copy_loop_needs_single_decrement() {
    assert_eq!(show(&run(&parsed("[>+<--]"))), "[Loop([Move(1), Add(1), Move(-1), Add(-2)])]");
}

#[test]
fn inner_loops_are_optimised_first() {
    assert_eq!(show(&run(&parsed("[>[-]<[>+<-]-]"))), "[Loop([Move(1), SetZero, Move(-1), MoveValue { pos_rel: 1, mul: 1 }, Add(-1)])]");
    assert_eq!(show(&run(&parsed("+[[-]-]"))), "[Add(1), Loop([SetZero, Add(-1)])]");
}

#[test]
fn optimiser_is_idempotent() {
    let once = run(&parsed("++[>+++<-]>[-]<[[->>++<<]+]."));
    let twice = optimize_all(&once);
    assert_eq!(show(&once), show(&twice));
}
