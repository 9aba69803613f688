use bfc::ast::{parse, to_text, Command, ParseError};
use bfc::config::{CellSize, Config, OptimisationLevel};

fn config(level: OptimisationLevel) -> Config {
    Config {
        input_file: "input.bf".to_string(),
        output_file: "a.out".to_string(),
        optimisation_level: level,
        cell_size: CellSize::I64,
    }
}

fn parse_str(level: OptimisationLevel, source: &str) -> Result<Vec<Command>, ParseError> {
    parse(&config(level), source.as_bytes())
}

#[test]
fn unterminated_loop_is_rejected() {
    assert_eq!(parse_str(OptimisationLevel::Normal, "[+").unwrap_err(), ParseError::UnmatchedOpen);
}

#[test]
fn stray_close_is_rejected() {
    assert_eq!(parse_str(OptimisationLevel::Normal, "+]").unwrap_err(), ParseError::UnmatchedClose);
}

#[test]
fn empty_source_is_rejected() {
    assert_eq!(parse_str(OptimisationLevel::Normal, "").unwrap_err(), ParseError::Empty);
    assert_eq!(parse_str(OptimisationLevel::Off, "only comments here").unwrap_err(), ParseError::Empty);
}

#[test]
fn empty_loop_is_rejected() {
    assert_eq!(parse_str(OptimisationLevel::Normal, "+[]").unwrap_err(), ParseError::EmptyLoop);
}

#[test]
fn verbatim_parse_keeps_one_node_per_character() {
    let p = parse_str(OptimisationLevel::Off, "++ -\n.").unwrap();
    assert_eq!(format!("{:?}", p), "[Add(1), Add(1), Sub(1), Print]");
}

#[test]
fn run_length_parse_coalesces_runs() {
    let p = parse_str(OptimisationLevel::Normal, "+++ comment -->>><,.[<<-]").unwrap();
    assert_eq!(
        format!("{:?}", p),
        "[Add(3), Sub(2), Right(3), Left(1), Read, Print, Loop([Left(2), Sub(1)])]"
    );
}

#[test]
fn runs_do_not_cross_loop_boundaries() {
    let p = parse_str(OptimisationLevel::Max, "+[+]+").unwrap();
    assert_eq!(format!("{:?}", p), "[Add(1), Loop([Add(1)]), Add(1)]");
}

#[test]
fn parse_then_text_round_trips() {
    let source = "Hello ++[>+++<-]>. world ,[-]<<";
    let filtered: Vec<u8> = source.bytes().filter(|b| b"+-<>[].,".contains(b)).collect();
    for level in [OptimisationLevel::Off, OptimisationLevel::Normal, OptimisationLevel::Max] {
        let p = parse_str(level, source).unwrap();
        assert_eq!(to_text(&p), filtered);
    }
}

#[test]
fn nested_loops_parse() {
    let p = parse_str(OptimisationLevel::Normal, "[[-]>]").unwrap();
    assert_eq!(format!("{:?}", p), "[Loop([Loop([Sub(1)]), Right(1)])]");
}
