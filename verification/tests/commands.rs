//! The interactive command grammar and its word spans.

use numbat::command::{
    get_word_boundaries, parse_command, span_from_boundary, Command, ListItems,
};
use numbat::resolver::Resolver;

fn parse(input: &str) -> Option<Result<Command, numbat::command::ParseError>> {
    let mut resolver = Resolver::new();
    parse_command(input, &mut resolver)
}

#[test]
fn word_boundaries_are_byte_ranges() {
    assert_eq!(get_word_boundaries("list units"), vec![(0, 4), (5, 10)]);
    assert_eq!(get_word_boundaries("  a  bc "), vec![(2, 3), (5, 7)]);
    assert_eq!(get_word_boundaries(""), vec![]);
    assert_eq!(get_word_boundaries("   "), vec![]);
    // multi-byte characters count in bytes
    assert_eq!(get_word_boundaries("é a"), vec![(0, 2), (3, 4)]);
}

#[test]
fn simple_commands_parse() {
    assert_eq!(parse("help"), Some(Ok(Command::Help)));
    assert_eq!(parse("clear"), Some(Ok(Command::Clear)));
    assert_eq!(parse("quit"), Some(Ok(Command::Quit)));
    assert_eq!(parse("exit"), Some(Ok(Command::Quit)));
}

#[test]
fn simple_commands_take_no_arguments() {
    assert!(matches!(parse("help me"), Some(Err(_))));
    assert!(matches!(parse("quit now please"), Some(Err(_))));
}

#[test]
fn list_accepts_an_optional_known_argument() {
    assert_eq!(parse("list"), Some(Ok(Command::List { items: None })));
    assert_eq!(
        parse("ls functions"),
        Some(Ok(Command::List { items: Some(ListItems::Functions) }))
    );
    assert_eq!(
        parse("list dimensions"),
        Some(Ok(Command::List { items: Some(ListItems::Dimensions) }))
    );
    assert_eq!(
        parse("list variables"),
        Some(Ok(Command::List { items: Some(ListItems::Variables) }))
    );
    assert_eq!(
        parse("list units"),
        Some(Ok(Command::List { items: Some(ListItems::Units) }))
    );
    assert!(matches!(parse("list foobar"), Some(Err(_))));
    assert!(matches!(parse("list units units"), Some(Err(_))));
}

#[test]
fn save_requires_exactly_one_argument() {
    assert_eq!(
        parse("save session.nbt"),
        Some(Ok(Command::Save { dst: "session.nbt".to_owned() }))
    );
    assert!(matches!(parse("save"), Some(Err(_))));
    assert!(matches!(parse("save a b"), Some(Err(_))));
}

#[test]
fn non_commands_are_not_parsed() {
    assert_eq!(parse("3 meter + 2 meter"), None);
    assert_eq!(parse("helpful"), None);
}

#[test]
fn empty_input_is_an_invalid_command() {
    assert!(matches!(parse(""), Some(Err(_))));
    assert!(matches!(parse("   "), Some(Err(_))));
}

#[test]
fn parsing_registers_the_input_as_a_code_source() {
    let mut resolver = Resolver::new();
    let id0 = {
        parse_command("help", &mut resolver);
        resolver.code_sources.len() - 1
    };
    parse_command("quit", &mut resolver);
    assert_eq!(resolver.code_sources.len(), id0 + 2);
    assert_eq!(resolver.code_sources[id0].1, "help");
}

#[test]
fn spans_carry_the_word_boundaries() {
    let span = span_from_boundary((5, 10), 3);
    assert_eq!(span.start.byte, 5);
    assert_eq!(span.start.line, 1);
    assert_eq!(span.start.position, 5);
    assert_eq!(span.end.byte, 10);
    assert_eq!(span.code_source_id, 3);
    // an arity error points at the offending words
    let mut resolver = Resolver::new();
    let r = parse_command("help me", &mut resolver);
    match r {
        Some(Err(pe)) => {
            assert_eq!(pe.span.start.byte, 5);
            assert_eq!(pe.span.end.byte, 7);
        }
        other => panic!("expected an error, got {:?}", other),
    }
}

fn error_of(input: &str) -> numbat::command::ParseError {
    match parse(input) {
        Some(Err(pe)) => pe,
        other => panic!("expected an error, got {:?}", other),
    }
}

fn message_of(pe: &numbat::command::ParseError) -> &'static str {
    let numbat::command::ParseErrorKind::InvalidCommand(msg) = pe.kind;
    msg
}

#[test]
fn zero_argument_commands_report_their_own_message() {
    let pe = error_of("help me");
    assert_eq!(
        message_of(&pe),
        "`help` takes 0 arguments; use `info <item>` for information about an item"
    );
    let pe = error_of("quit now please");
    assert_eq!(message_of(&pe), "`quit` takes 0 arguments");
    // the span runs from the second word through the last
    assert_eq!(pe.span.start.byte, 5);
    assert_eq!(pe.span.end.byte, 15);
    let pe = error_of("clear x");
    assert_eq!(message_of(&pe), "`clear` takes 0 arguments");
    let pe = error_of("exit x");
    assert_eq!(message_of(&pe), "`exit` takes 0 arguments");
}

#[test]
fn unknown_list_argument_is_reported_with_its_span() {
    let pe = error_of("list foobar");
    assert_eq!(
        message_of(&pe),
        "if provided, the argument to `list` or `ls` must be one of: functions, dimensions, variables, units"
    );
    assert_eq!(pe.span.start.byte, 5);
    assert_eq!(pe.span.end.byte, 11);
    assert_eq!(pe.span.start.line, 1);
    let pe = error_of("list units units");
    assert_eq!(message_of(&pe), "`list` takes at most one argument");
    assert_eq!(pe.span.start.byte, 11);
    assert_eq!(pe.span.end.byte, 16);
}

#[test]
fn save_errors_point_at_the_command_or_the_extra_words() {
    let pe = error_of("save");
    assert_eq!(
        message_of(&pe),
        "`save` requires exactly one argument, the destination"
    );
    assert_eq!(pe.span.start.byte, 0);
    assert_eq!(pe.span.end.byte, 4);
    let pe = error_of("save a b");
    assert_eq!(
        message_of(&pe),
        "`save` requires exactly one argument, the destination"
    );
    assert_eq!(pe.span.start.byte, 7);
    assert_eq!(pe.span.end.byte, 8);
}

#[test]
fn empty_command_spans_the_whole_input() {
    let pe = error_of("   ");
    assert_eq!(message_of(&pe), "invalid empty command");
    assert_eq!(pe.span.start.byte, 0);
    assert_eq!(pe.span.end.byte, 3);
}

#[test]
fn every_error_span_carries_the_minted_code_source() {
    let mut resolver = Resolver::new();
    parse_command("help", &mut resolver);
    let r = parse_command("list wrong", &mut resolver);
    match r {
        Some(Err(pe)) => {
            assert_eq!(pe.span.code_source_id, 1);
            assert!(matches!(
                resolver.code_sources[1].0,
                numbat::resolver::CodeSource::Text
            ));
        }
        other => panic!("expected an error, got {:?}", other),
    }
}
