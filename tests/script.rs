use sprite::instruct::{Action, Instruct};
use sprite::interpreter::{ErrorCategory, ErrorKind, Interpreter, ParseError};
use sprite::text::{chars_of, parse_i32, parse_usize, tokens};

fn parse(lines: &[&str]) -> Result<Interpreter, ParseError> {
    let mut interpreter = Interpreter::new();
    let owned: Vec<String> = lines.iter().map(|l| l.to_string()).collect();
    interpreter.parse_lines(&owned)?;
    Ok(interpreter)
}

fn err(lines: &[&str]) -> ParseError {
    match parse(lines) {
        Ok(_) => panic!("script was accepted"),
        Err(e) => e,
    }
}

fn word(s: &str) -> Vec<char> {
    s.chars().collect()
}

#[test]
fn pos_then_move_by_name() {
    let i = parse(&["pos home 100 200", "move home"]).unwrap();
    assert_eq!(i.instructs, vec![Instruct::Move(100, 200)]);
}

#[test]
fn move_with_coordinates() {
    let i = parse(&["move 5 10"]).unwrap();
    assert_eq!(i.instructs, vec![Instruct::Move(5, 10)]);
}

#[test]
fn move_undefined_variable() {
    let e = err(&["move 1 1", "move x"]);
    assert_eq!(e, ParseError { line: 2, kind: ErrorKind::UndefinedVariable });
    assert_eq!(e.kind.category(), ErrorCategory::Value);
}

#[test]
fn mouse_default_count() {
    let i = parse(&["mouse left"]).unwrap();
    assert_eq!(i.instructs, vec![Instruct::Mouse("left".to_string(), 1)]);
}

#[test]
fn mouse_with_count() {
    let i = parse(&["mouse right 3"]).unwrap();
    assert_eq!(i.instructs, vec![Instruct::Mouse("right".to_string(), 3)]);
}

#[test]
fn mouse_bad_count() {
    let e = err(&["mouse left abc"]);
    assert_eq!(e, ParseError { line: 1, kind: ErrorKind::NotAnInteger });
    assert_eq!(e.kind.category(), ErrorCategory::Value);
}

#[test]
fn mouse_without_button() {
    assert_eq!(err(&["mouse"]).kind, ErrorKind::WrongArgCount);
    assert_eq!(err(&["mouse left 1 2"]).kind, ErrorKind::WrongArgCount);
}

#[test]
fn sleep_duration() {
    let i = parse(&["sleep 500"]).unwrap();
    assert_eq!(i.instructs, vec![Instruct::Sleep(500)]);
}

#[test]
fn sleep_without_argument() {
    let e = err(&["sleep"]);
    assert_eq!(e, ParseError { line: 1, kind: ErrorKind::WrongArgCount });
    assert_eq!(e.kind.category(), ErrorCategory::Syntax);
}

#[test]
fn sleep_not_integer() {
    assert_eq!(err(&["sleep soon"]).kind, ErrorKind::NotAnInteger);
    assert_eq!(err(&["sleep -1"]).kind, ErrorKind::NotAnInteger);
}

#[test]
fn loop_captures_leaf() {
    let i = parse(&["loop-start 2", "move 1 1", "loop-end"]).unwrap();
    assert_eq!(i.instructs, vec![Instruct::Loop(2, vec![Instruct::Move(1, 1)])]);
    let actions = i.execute();
    assert_eq!(actions, vec![Action::MovePointer(1, 1), Action::MovePointer(1, 1)]);
}

#[test]
fn nested_empty_loops() {
    let i = parse(&["loop-start 2", "loop-start 3", "loop-end", "loop-end"]).unwrap();
    assert_eq!(i.instructs, vec![Instruct::Loop(2, vec![Instruct::Loop(3, vec![])])]);
    assert_eq!(i.execute(), vec![]);
}

#[test]
fn nested_loops_with_leaves() {
    let i = parse(&[
        "loop-start 2",
        "mouse left",
        "loop-start 2",
        "sleep 10",
        "loop-end",
        "loop-end",
        "move 0 0",
    ])
    .unwrap();
    assert_eq!(
        i.instructs,
        vec![
            Instruct::Loop(
                2,
                vec![
                    Instruct::Mouse("left".to_string(), 1),
                    Instruct::Loop(2, vec![Instruct::Sleep(10)]),
                ]
            ),
            Instruct::Move(0, 0),
        ]
    );
    assert_eq!(
        i.execute(),
        vec![
            Action::Click("left".to_string(), 1),
            Action::Pause(10),
            Action::Pause(10),
            Action::Click("left".to_string(), 1),
            Action::Pause(10),
            Action::Pause(10),
            Action::MovePointer(0, 0),
        ]
    );
}

#[test]
fn unterminated_loop() {
    let e = err(&["loop-start 1", "move 1 1"]);
    assert_eq!(e, ParseError { line: 2, kind: ErrorKind::MissingLoopEnd });
    assert_eq!(e.kind.category(), ErrorCategory::Syntax);
}

#[test]
fn unmatched_loop_end() {
    let e = err(&["loop-end", "move x"]);
    assert_eq!(e, ParseError { line: 1, kind: ErrorKind::UnmatchedLoopEnd });
    assert_eq!(e.kind.category(), ErrorCategory::Syntax);
}

#[test]
fn loop_end_with_argument() {
    assert_eq!(err(&["loop-start 1", "loop-end 1"]).kind, ErrorKind::WrongArgCount);
}

#[test]
fn loop_start_arguments() {
    assert_eq!(err(&["loop-start"]).kind, ErrorKind::WrongArgCount);
    assert_eq!(err(&["loop-start x"]).kind, ErrorKind::NotAnInteger);
}

#[test]
fn comment_and_blank_lines() {
    let i = parse(&["** comment", "", "   \t ", "  ** indented comment"]).unwrap();
    assert_eq!(i.instructs, vec![]);
}

#[test]
fn trailing_comment() {
    let a = parse(&["move 1 1 ** trailing note"]).unwrap();
    let b = parse(&["move 1 1"]).unwrap();
    assert_eq!(a.instructs, b.instructs);
    assert_eq!(a.instructs, vec![Instruct::Move(1, 1)]);
    let c = parse(&["sleep 7**note"]).unwrap();
    assert_eq!(c.instructs, vec![Instruct::Sleep(7)]);
}

#[test]
fn loop_execution_repeats() {
    let body = vec![Instruct::Move(1, 2), Instruct::Sleep(3)];
    let mut sink = Vec::new();
    Instruct::Loop(3, body).execute(&mut sink);
    let once = vec![Action::MovePointer(1, 2), Action::Pause(3)];
    assert_eq!(sink.len(), 6);
    for k in 0..3 {
        assert_eq!(&sink[2 * k..2 * k + 2], &once[..]);
    }
}

#[test]
fn loop_zero_or_empty() {
    let mut sink = Vec::new();
    Instruct::Loop(0, vec![Instruct::Move(1, 2)]).execute(&mut sink);
    Instruct::Loop(5, vec![]).execute(&mut sink);
    assert!(sink.is_empty());
}

#[test]
fn execute_appends_to_sink() {
    let mut sink = vec![Action::Pause(1)];
    Instruct::Mouse("middle".to_string(), 2).execute(&mut sink);
    assert_eq!(sink, vec![Action::Pause(1), Action::Click("middle".to_string(), 2)]);
}

#[test]
fn unknown_instruct() {
    let e = err(&["move 1 1", "jump 3"]);
    assert_eq!(e, ParseError { line: 2, kind: ErrorKind::UnknownInstruct });
    assert_eq!(e.kind.category(), ErrorCategory::Syntax);
}

#[test]
fn first_error_is_reported() {
    let e = err(&["move 1 2 3", "jump"]);
    assert_eq!(e, ParseError { line: 1, kind: ErrorKind::BadMoveArgs });
    assert_eq!(e.kind.category(), ErrorCategory::Value);
}

#[test]
fn move_argument_shapes() {
    assert_eq!(err(&["move"]).kind, ErrorKind::BadMoveArgs);
    assert_eq!(err(&["move 1 2 3"]).kind, ErrorKind::BadMoveArgs);
    assert_eq!(err(&["move 1 y"]).kind, ErrorKind::NotAnInteger);
}

#[test]
fn pos_argument_shapes() {
    assert_eq!(err(&["pos a 1"]).kind, ErrorKind::WrongArgCount);
    assert_eq!(err(&["pos a 1 z"]).kind, ErrorKind::NotAnInteger);
}

#[test]
fn pos_last_write_wins() {
    let i = parse(&["pos p 1 2", "pos q 5 5", "pos p 3 4", "move p", "move q"]).unwrap();
    assert_eq!(i.instructs, vec![Instruct::Move(3, 4), Instruct::Move(5, 5)]);
}

#[test]
fn pos_inside_loop_is_global() {
    let i = parse(&["loop-start 1", "pos a 7 8", "loop-end", "move a"]).unwrap();
    assert_eq!(i.instructs, vec![Instruct::Loop(1, vec![]), Instruct::Move(7, 8)]);
}

#[test]
fn coordinate_range() {
    let i = parse(&["move -2147483648 +2147483647"]).unwrap();
    assert_eq!(i.instructs, vec![Instruct::Move(i32::MIN, i32::MAX)]);
    assert_eq!(err(&["move 2147483648 0"]).kind, ErrorKind::NotAnInteger);
    assert_eq!(err(&["move 0 -2147483649"]).kind, ErrorKind::NotAnInteger);
}

#[test]
fn parse_line_with_stack() {
    let mut i = Interpreter::new();
    let mut stack = Vec::new();
    assert_eq!(i.parse_line("loop-start 4", 1, &mut stack), Ok(()));
    assert_eq!(stack, vec![Instruct::Loop(4, vec![])]);
    assert_eq!(i.parse_line("sleep 9", 2, &mut stack), Ok(()));
    assert_eq!(stack, vec![Instruct::Loop(4, vec![Instruct::Sleep(9)])]);
    assert_eq!(
        i.parse_line("bogus", 3, &mut stack),
        Err(ParseError { line: 3, kind: ErrorKind::UnknownInstruct })
    );
    assert_eq!(i.parse_line("loop-end", 4, &mut stack), Ok(()));
    assert!(stack.is_empty());
    assert_eq!(i.instructs, vec![Instruct::Loop(4, vec![Instruct::Sleep(9)])]);
}

#[test]
fn tokens_split_and_strip() {
    assert_eq!(tokens("  move\t1   2 ** x y"), vec![word("move"), word("1"), word("2")]);
    assert_eq!(tokens("a*b **c"), vec![word("a*b")]);
    assert_eq!(tokens("** all comment"), Vec::<Vec<char>>::new());
    assert_eq!(tokens("x\u{3000}y"), vec![word("x"), word("y")]);
    assert_eq!(chars_of("héllo"), word("héllo"));
}

#[test]
fn integer_literals() {
    assert_eq!(parse_i32(&word("42")), Some(42));
    assert_eq!(parse_i32(&word("-7")), Some(-7));
    assert_eq!(parse_i32(&word("+007")), Some(7));
    assert_eq!(parse_i32(&word("-")), None);
    assert_eq!(parse_i32(&word("+")), None);
    assert_eq!(parse_i32(&word("")), None);
    assert_eq!(parse_i32(&word("1x")), None);
    assert_eq!(parse_i32(&word("+-1")), None);
    assert_eq!(parse_usize(&word("18446744073709551615")), Some(usize::MAX));
    assert_eq!(parse_usize(&word("18446744073709551616")), None);
    assert_eq!(parse_usize(&word("-0")), None);
    assert_eq!(parse_usize(&word("+12")), Some(12));
    assert_eq!(parse_usize(&word("0000000000000000000000000005")), Some(5));
}

#[test]
fn error_messages() {
    let e = ParseError { line: 12, kind: ErrorKind::UnknownInstruct };
    assert_eq!(e.message(), "line 12 - SyntaxError: unknown instruct");
    let e = ParseError { line: 0, kind: ErrorKind::NotAnInteger };
    assert_eq!(e.message(), "line 0 - ValueError: argument must be int");
    let e = err(&["", "", "", "", "", "", "", "", "", "move where"]);
    assert_eq!(e.message(), "line 10 - ValueError: variable not defined");
    let e = ParseError { line: 105, kind: ErrorKind::MissingLoopEnd };
    assert_eq!(e.message(), "line 105 - SyntaxError: missing [loop-end]");
}
