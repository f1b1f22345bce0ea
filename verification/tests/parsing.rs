use bf_interpreter::command::{command_chars, is_command_char, BfCommand};
use bf_interpreter::parser::{BfCommands, ParseError};

fn parse(source: &str) -> Vec<BfCommand> {
    BfCommands::from_str(source).unwrap().as_slice().to_vec()
}

#[test]
fn empty_source_is_the_empty_program() {
    assert_eq!(parse(""), vec![]);
    assert_eq!(BfCommands::from_str("").unwrap().len(), 0);
}

#[test]
fn source_without_commands_is_the_empty_program() {
    assert_eq!(parse("hello world!\n\t42"), vec![]);
}

#[test]
fn each_character_maps_to_its_command() {
    assert_eq!(
        parse("><+-.,"),
        vec![
            BfCommand::IncreaseDataPointer,
            BfCommand::DecreaseDataPointer,
            BfCommand::IncreaseData,
            BfCommand::DecreaseData,
            BfCommand::Output,
            BfCommand::Input,
        ]
    );
}

#[test]
fn simple_loop_is_paired() {
    assert_eq!(
        parse("[-]"),
        vec![
            BfCommand::BeginLoop { end_ptr: 2 },
            BfCommand::DecreaseData,
            BfCommand::EndLoop { begin_ptr: 0 },
        ]
    );
}

#[test]
fn nested_loops_are_paired_by_stack_discipline() {
    assert_eq!(
        parse("[[]]"),
        vec![
            BfCommand::BeginLoop { end_ptr: 3 },
            BfCommand::BeginLoop { end_ptr: 2 },
            BfCommand::EndLoop { begin_ptr: 1 },
            BfCommand::EndLoop { begin_ptr: 0 },
        ]
    );
}

#[test]
fn adjacent_loops_are_paired_separately() {
    assert_eq!(
        parse("[][]"),
        vec![
            BfCommand::BeginLoop { end_ptr: 1 },
            BfCommand::EndLoop { begin_ptr: 0 },
            BfCommand::BeginLoop { end_ptr: 3 },
            BfCommand::EndLoop { begin_ptr: 2 },
        ]
    );
}

#[test]
fn mixed_nesting_is_resolved() {
    assert_eq!(
        parse("+[>[-]<[+]]."),
        vec![
            BfCommand::IncreaseData,
            BfCommand::BeginLoop { end_ptr: 10 },
            BfCommand::IncreaseDataPointer,
            BfCommand::BeginLoop { end_ptr: 5 },
            BfCommand::DecreaseData,
            BfCommand::EndLoop { begin_ptr: 3 },
            BfCommand::DecreaseDataPointer,
            BfCommand::BeginLoop { end_ptr: 9 },
            BfCommand::IncreaseData,
            BfCommand::EndLoop { begin_ptr: 7 },
            BfCommand::EndLoop { begin_ptr: 1 },
            BfCommand::Output,
        ]
    );
}

#[test]
fn jump_targets_count_commands_not_characters() {
    assert_eq!(
        parse("a b [ c - d ] e"),
        vec![
            BfCommand::BeginLoop { end_ptr: 2 },
            BfCommand::DecreaseData,
            BfCommand::EndLoop { begin_ptr: 0 },
        ]
    );
}

#[test]
fn other_characters_do_not_change_the_program() {
    let plain = parse("++[>+<-]>.");
    assert_eq!(parse("+ +\n[ > + < - ]\t> ."), plain);
    assert_eq!(parse("add two: ++ loop: [>+<-] print: >. done"), plain);
    assert_eq!(parse("é++[>λ+<-]>.∎"), plain);
}

#[test]
fn parsing_twice_gives_the_same_program() {
    let source = "++[>+[-]<-]>.";
    assert_eq!(parse(source), parse(source));
}

#[test]
fn lone_open_bracket_is_unmatched_open() {
    assert_eq!(BfCommands::from_str("[").unwrap_err(), ParseError::UnmatchedOpenBracket);
}

#[test]
fn lone_close_bracket_is_unmatched_close() {
    assert_eq!(BfCommands::from_str("]").unwrap_err(), ParseError::UnmatchedCloseBracket);
}

#[test]
fn unclosed_nested_loop_is_unmatched_open() {
    assert_eq!(BfCommands::from_str("[[]").unwrap_err(), ParseError::UnmatchedOpenBracket);
    assert_eq!(BfCommands::from_str("+[>[-]").unwrap_err(), ParseError::UnmatchedOpenBracket);
}

#[test]
fn extra_close_is_unmatched_close() {
    assert_eq!(BfCommands::from_str("[]]").unwrap_err(), ParseError::UnmatchedCloseBracket);
    assert_eq!(BfCommands::from_str("+]-[").unwrap_err(), ParseError::UnmatchedCloseBracket);
}

#[test]
fn early_close_wins_over_later_open() {
    assert_eq!(BfCommands::from_str("][").unwrap_err(), ParseError::UnmatchedCloseBracket);
    assert_eq!(BfCommands::from_str("[]][[").unwrap_err(), ParseError::UnmatchedCloseBracket);
}

#[test]
fn command_chars_keeps_only_the_alphabet() {
    assert_eq!(command_chars("a+b-c>d<e.f,g[h]i"), vec!['+', '-', '>', '<', '.', ',', '[', ']']);
    assert_eq!(command_chars(""), Vec::<char>::new());
    assert_eq!(command_chars("no commands here"), Vec::<char>::new());
}

#[test]
fn alphabet_has_exactly_eight_characters() {
    let members: Vec<char> = (0u8..=127).map(|b| b as char).filter(|c| is_command_char(*c)).collect();
    assert_eq!(members, vec!['+', ',', '-', '.', '<', '>', '[', ']']);
    assert!(!is_command_char('é'));
}

#[test]
fn deeply_nested_loops_are_resolved() {
    let depth = 10_000;
    let source = "[".repeat(depth) + &"]".repeat(depth);
    let cmds = parse(&source);
    assert_eq!(cmds.len(), 2 * depth);
    for i in 0..depth {
        assert_eq!(cmds[i], BfCommand::BeginLoop { end_ptr: 2 * depth - 1 - i });
        assert_eq!(cmds[2 * depth - 1 - i], BfCommand::EndLoop { begin_ptr: i });
    }
}
