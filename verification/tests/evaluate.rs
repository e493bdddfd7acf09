use r_st::{feval, parse_input, run, Machine, ParseError, Step};

const STEPS: u64 = 1_000_000;

fn eval(src: &str, input: &str) -> (Result<bool, ParseError>, Vec<u8>) {
    let mut out = Vec::new();
    let res = feval(src, input, &mut out, STEPS);
    (res, out)
}

#[test]
fn three_increments_print_three() {
    let (res, out) = eval("+++.", "");
    assert_eq!(res, Ok(true));
    assert_eq!(out, vec![3u8]);
}

#[test]
fn loop_doubles_into_next_cell() {
    let (res, out) = eval("++[>++<-]>.", "");
    assert_eq!(res, Ok(true));
    assert_eq!(out, vec![4u8]);
}

#[test]
fn loop_leaves_counter_at_zero_and_result_in_cell_one() {
    let program = parse_input("++[>++<-]>.").unwrap();
    let mut out = Vec::new();
    let end = run(&program, "", &mut out, STEPS);
    assert!(end.halted(&program, b""));
    assert_eq!(end.tape(), &vec![0u8, 4u8]);
    assert_eq!(end.dp(), 1);
    assert_eq!(end.ip(), program.commands().len());
}

#[test]
fn input_byte_is_echoed() {
    let (res, out) = eval(",.", "A");
    assert_eq!(res, Ok(true));
    assert_eq!(out, vec![b'A']);
    assert_eq!(out, vec![65u8]);
}

#[test]
fn move_left_at_cell_zero_halts_silently() {
    let (res, out) = eval("<", "");
    assert_eq!(res, Ok(true));
    assert!(out.is_empty());
}

#[test]
fn move_left_at_cell_zero_stops_everything_after_it() {
    let (res, out) = eval("+<.+.", "");
    assert_eq!(res, Ok(true));
    assert!(out.is_empty());
}

#[test]
fn lone_open_bracket_is_refused() {
    let (res, out) = eval("[", "");
    assert_eq!(res, Err(ParseError::UnbalancedLoop));
    assert!(out.is_empty());
}

#[test]
fn net_zero_run_leaves_cell_unchanged() {
    let (res, out) = eval("+-+-.", "");
    assert_eq!(res, Ok(true));
    assert_eq!(out, vec![0u8]);
}

#[test]
fn net_one_run_of_five() {
    let (res, out) = eval("+-+-+.", "");
    assert_eq!(res, Ok(true));
    assert_eq!(out, vec![1u8]);
}

#[test]
fn unbalanced_source_executes_nothing() {
    let mut out = vec![7u8];
    assert_eq!(feval("+++.]", "", &mut out, STEPS), Err(ParseError::UnbalancedLoop));
    assert_eq!(out, vec![7u8]);
    assert_eq!(feval("+++.[", "", &mut out, STEPS), Err(ParseError::UnbalancedLoop));
    assert_eq!(out, vec![7u8]);
    assert_eq!(feval(".][.", "", &mut out, STEPS), Err(ParseError::UnbalancedLoop));
    assert_eq!(out, vec![7u8]);
}

#[test]
fn output_is_appended_to_the_sink() {
    let mut out = vec![9u8, 8u8];
    assert_eq!(feval("+.+.", "", &mut out, STEPS), Ok(true));
    assert_eq!(out, vec![9u8, 8u8, 1u8, 2u8]);
}

#[test]
fn read_without_input_halts_silently() {
    let (res, out) = eval("+.,.", "");
    assert_eq!(res, Ok(true));
    assert_eq!(out, vec![1u8]);
}

#[test]
fn input_is_consumed_in_order() {
    let (res, out) = eval(",.,.,.,.", "abc");
    assert_eq!(res, Ok(true));
    assert_eq!(out, b"abc".to_vec());
}

#[test]
fn cells_wrap_modulo_256() {
    let (_, out) = eval("-.", "");
    assert_eq!(out, vec![255u8]);
    let (_, out) = eval("-++.", "");
    assert_eq!(out, vec![1u8]);
    let (_, out) = eval(",+.", "\u{7f}");
    assert_eq!(out, vec![128u8]);
}

#[test]
fn clear_cell_zeroes_any_value() {
    let (_, out) = eval("+++++[-].", "");
    assert_eq!(out, vec![0u8]);
    let (_, out) = eval("-[-].", "");
    assert_eq!(out, vec![0u8]);
    let (_, out) = eval("[-].", "");
    assert_eq!(out, vec![0u8]);
}

#[test]
fn clear_cell_twice_is_clear_cell_once() {
    let once = parse_input(",[-]").unwrap();
    let twice = parse_input(",[-][-]").unwrap();
    let mut sink = Vec::new();
    let a = run(&once, "x", &mut sink, STEPS);
    let b = run(&twice, "x", &mut sink, STEPS);
    assert_eq!(a.tape(), b.tape());
    assert_eq!(a.dp(), b.dp());
    assert_eq!(a.consumed(), b.consumed());
    assert_eq!(a.tape(), &vec![0u8]);
    assert!(sink.is_empty());
}

#[test]
fn skipped_loop_jumps_past_its_end() {
    let (res, out) = eval("[+.>+.<]+++.", "");
    assert_eq!(res, Ok(true));
    assert_eq!(out, vec![3u8]);
}

#[test]
fn nested_loops_multiply() {
    // 3 * 4 * 5 = 60
    let (res, out) = eval("+++[>++++[>+++++<-]<-]>>.", "");
    assert_eq!(res, Ok(true));
    assert_eq!(out, vec![60u8]);
}

#[test]
fn hello() {
    let src = "++++++++[>++++[>++>+++>+++>+<<<<-]>+>+>->>+[<]<-]>>.>---.+++++++..+++.>>.<-.<.+++.------.--------.>>+.>++.";
    let (res, out) = eval(src, "");
    assert_eq!(res, Ok(true));
    assert_eq!(out, b"Hello World!\n".to_vec());
}

#[test]
fn endless_loop_runs_out_of_steps() {
    let mut out = Vec::new();
    assert_eq!(feval("+[.]", "", &mut out, 9), Ok(false));
    // `+` and `[` take two steps; after that every second step is a `.`.
    assert_eq!(out, vec![1u8, 1u8, 1u8, 1u8]);
}

#[test]
fn step_limit_is_exact() {
    let program = parse_input("+.+.+.").unwrap();
    for (limit, expected) in [(0u64, 0usize), (1, 0), (2, 1), (3, 1), (4, 2), (5, 2), (6, 3), (7, 3)] {
        let mut out = Vec::new();
        let end = run(&program, "", &mut out, limit);
        assert_eq!(out.len(), expected);
        assert_eq!(end.ip() as u64, limit.min(6));
        assert_eq!(end.halted(&program, b""), limit >= 6);
    }
}

#[test]
fn empty_program_has_stopped_at_once() {
    let mut out = Vec::new();
    assert_eq!(feval("", "", &mut out, 0), Ok(true));
    assert_eq!(feval("no instruction here", "", &mut out, 0), Ok(true));
    assert_eq!(feval("+", "", &mut out, 0), Ok(false));
    assert_eq!(feval("+", "", &mut out, 1), Ok(true));
    assert_eq!(feval("<", "", &mut out, 0), Ok(true));
    assert_eq!(feval(",", "", &mut out, 0), Ok(true));
    assert_eq!(feval(",", "x", &mut out, 0), Ok(false));
    assert!(out.is_empty());
}

#[test]
fn tape_grows_to_the_right_with_zero_cells() {
    let program = parse_input("+>>>+<").unwrap();
    let mut out = Vec::new();
    let end = run(&program, "", &mut out, STEPS);
    assert_eq!(end.tape(), &vec![1u8, 0, 0, 1]);
    assert_eq!(end.dp(), 2);
}

#[test]
fn tape_never_shrinks() {
    let program = parse_input(">>>>+<<<<").unwrap();
    let mut out = Vec::new();
    let end = run(&program, "", &mut out, STEPS);
    assert_eq!(end.tape(), &vec![0u8, 0, 0, 0, 1]);
    assert_eq!(end.dp(), 0);
}

#[test]
fn zero_move_is_a_no_op() {
    let program = parse_input("+><.").unwrap();
    let mut out = Vec::new();
    let end = run(&program, "", &mut out, STEPS);
    assert_eq!(out, vec![1u8]);
    assert_eq!(end.tape(), &vec![1u8]);
    assert_eq!(end.dp(), 0);
}

#[test]
fn machine_steps_one_instruction_at_a_time() {
    let program = parse_input("+.<").unwrap();
    let m = Machine::new();
    assert_eq!((m.ip(), m.dp(), m.consumed()), (0, 0, 0));
    assert_eq!(m.tape(), &vec![0u8]);
    let (m, r) = m.step(&program, b"");
    assert_eq!(r, Step::Continue);
    assert_eq!((m.ip(), m.tape()[0]), (1, 1));
    let (m, r) = m.step(&program, b"");
    assert_eq!(r, Step::Output(1));
    assert_eq!(m.ip(), 2);
    let (m, r) = m.step(&program, b"");
    assert_eq!(r, Step::Halt);
    assert_eq!((m.ip(), m.dp()), (2, 0));
    let (m, r) = m.step(&program, b"");
    assert_eq!(r, Step::Halt);
    assert_eq!((m.ip(), m.dp()), (2, 0));
}

#[test]
fn machine_takes_input_bytes_that_are_no_text() {
    let program = parse_input(",.,.").unwrap();
    let input = [0xffu8, 0x80u8];
    let mut m = Machine::new();
    let mut out = Vec::new();
    loop {
        let (next, r) = m.step(&program, &input);
        m = next;
        match r {
            Step::Output(b) => out.push(b),
            Step::Continue => {}
            Step::Halt => break,
        }
    }
    assert_eq!(out, vec![0xffu8, 0x80u8]);
    assert_eq!(m.consumed(), 2);
}

#[test]
fn decrement_loop_written_apart_clears_like_the_fused_one() {
    let fused = parse_input(",[-]>+").unwrap();
    let apart = parse_input(",[ - ]>+").unwrap();
    for input in ["", "\u{0}", "\u{1}", "A", "\u{7f}"] {
        let mut out = Vec::new();
        let a = run(&fused, input, &mut out, STEPS);
        let b = run(&apart, input, &mut out, STEPS);
        assert_eq!(a.tape(), b.tape());
        assert_eq!(a.dp(), b.dp());
        assert_eq!(a.consumed(), b.consumed());
        assert!(a.halted(&fused, input.as_bytes()));
        assert!(b.halted(&apart, input.as_bytes()));
        assert!(out.is_empty());
    }
}

#[test]
fn decrement_loop_takes_two_steps_for_each_unit() {
    // One step to read 65, one for `[`, two for each of the 65 rounds.
    let program = parse_input(",[ - ]").unwrap();
    let mut out = Vec::new();
    let end = run(&program, "A", &mut out, 131);
    assert!(!end.halted(&program, b"A"));
    assert_eq!(end.tape(), &vec![0u8]);
    assert_eq!(end.ip(), 3);
    let end = run(&program, "A", &mut out, 130);
    assert_eq!(end.tape(), &vec![1u8]);
    let end = run(&program, "A", &mut out, 132);
    assert!(end.halted(&program, b"A"));
    assert_eq!(end.ip(), 4);
    assert_eq!(end.tape(), &vec![0u8]);
}
