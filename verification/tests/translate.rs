use r_st::{parse_input, Command, ParseError, ParseResult};

fn commands(src: &str) -> Vec<Command> {
    parse_input(src).unwrap().commands().clone()
}

fn refused(src: &str) -> bool {
    matches!(parse_input(src), Err(ParseError::UnbalancedLoop))
}

fn pairs(program: &ParseResult) -> Vec<(usize, usize)> {
    let mut found = Vec::new();
    for start in 0..program.commands().len() {
        if let Some(end) = program.loop_end(start) {
            found.push((start, end));
        }
    }
    found
}

#[test]
fn empty_source_is_an_empty_program() {
    let program = parse_input("").unwrap();
    assert!(program.commands().is_empty());
    assert_eq!(program.loop_end(0), None);
    assert_eq!(program.loop_start(0), None);
}

#[test]
fn every_instruction_byte_has_its_instruction() {
    assert_eq!(commands("<"), vec![Command::Left(1)]);
    assert_eq!(commands(">"), vec![Command::Right(1)]);
    assert_eq!(commands("+"), vec![Command::Plus(1)]);
    assert_eq!(commands("-"), vec![Command::Minus(1)]);
    assert_eq!(commands("."), vec![Command::Print]);
    assert_eq!(commands(","), vec![Command::Input]);
    assert_eq!(commands("[]"), vec![Command::LoopStart, Command::LoopEnd]);
}

#[test]
fn commentary_is_skipped() {
    assert!(commands("hello, world").len() == 1);
    assert_eq!(commands("hello, world"), vec![Command::Input]);
    assert!(commands("no instruction at all\n\t!").is_empty());
    assert_eq!(commands("a+b.c"), vec![Command::Plus(1), Command::Print]);
}

#[test]
fn bytes_of_other_scripts_are_commentary() {
    assert_eq!(commands("é+ü"), vec![Command::Plus(1)]);
    assert_eq!(commands("日本語.日本語"), vec![Command::Print]);
}

#[test]
fn runs_of_arithmetic_are_folded() {
    assert_eq!(commands("+++"), vec![Command::Plus(3)]);
    assert_eq!(commands("---"), vec![Command::Minus(3)]);
    assert_eq!(commands("++-"), vec![Command::Plus(1)]);
    assert_eq!(commands("+--"), vec![Command::Minus(1)]);
    assert_eq!(commands("-+-+---"), vec![Command::Minus(3)]);
}

#[test]
fn runs_of_movement_are_folded() {
    assert_eq!(commands(">>>"), vec![Command::Right(3)]);
    assert_eq!(commands("<<<"), vec![Command::Left(3)]);
    assert_eq!(commands(">><"), vec![Command::Right(1)]);
    assert_eq!(commands("<><<"), vec![Command::Left(2)]);
}

#[test]
fn net_zero_run_is_kept_as_a_zero_count() {
    assert_eq!(commands("+-"), vec![Command::Plus(0)]);
    assert_eq!(commands("-+"), vec![Command::Plus(0)]);
    assert_eq!(commands("+-+-"), vec![Command::Plus(0)]);
    assert_eq!(commands("<>"), vec![Command::Right(0)]);
    assert_eq!(commands("><"), vec![Command::Right(0)]);
    assert_eq!(commands("+-+-."), vec![Command::Plus(0), Command::Print]);
}

#[test]
fn five_alternating_signs_fold_to_one() {
    assert_eq!(commands("+-+-+"), vec![Command::Plus(1)]);
    assert_eq!(commands("+-+-+."), vec![Command::Plus(1), Command::Print]);
}

#[test]
fn runs_of_different_kinds_do_not_mix() {
    assert_eq!(
        commands("++>>--<<"),
        vec![Command::Plus(2), Command::Right(2), Command::Minus(2), Command::Left(2)]
    );
    assert_eq!(commands("+>+"), vec![Command::Plus(1), Command::Right(1), Command::Plus(1)]);
}

#[test]
fn commentary_ends_a_run() {
    assert_eq!(commands("+ +"), vec![Command::Plus(1), Command::Plus(1)]);
    assert_eq!(commands("+\n-"), vec![Command::Plus(1), Command::Minus(1)]);
    assert_eq!(commands("> >"), vec![Command::Right(1), Command::Right(1)]);
}

#[test]
fn count_is_the_magnitude_modulo_256() {
    assert_eq!(commands(&"+".repeat(255)), vec![Command::Plus(255)]);
    assert_eq!(commands(&"+".repeat(256)), vec![Command::Plus(0)]);
    assert_eq!(commands(&"+".repeat(257)), vec![Command::Plus(1)]);
    assert_eq!(commands(&"-".repeat(255)), vec![Command::Minus(255)]);
    assert_eq!(commands(&"-".repeat(256)), vec![Command::Minus(0)]);
    assert_eq!(commands(&"-".repeat(257)), vec![Command::Minus(1)]);
    assert_eq!(commands(&">".repeat(255)), vec![Command::Right(255)]);
    assert_eq!(commands(&">".repeat(256)), vec![Command::Right(0)]);
    assert_eq!(commands(&">".repeat(300)), vec![Command::Right(44)]);
    assert_eq!(commands(&"<".repeat(256)), vec![Command::Left(0)]);
    assert_eq!(commands(&"<".repeat(513)), vec![Command::Left(1)]);
    assert_eq!(commands(&"+".repeat(100_000)), vec![Command::Plus(160)]);
}

#[test]
fn decrement_loop_is_fused() {
    assert_eq!(commands("[-]"), vec![Command::Zero]);
    assert_eq!(commands("+[-]."), vec![Command::Plus(1), Command::Zero, Command::Print]);
    assert_eq!(commands("[-][-]"), vec![Command::Zero, Command::Zero]);
    assert_eq!(commands("-[-]-"), vec![Command::Minus(1), Command::Zero, Command::Minus(1)]);
}

#[test]
fn fused_loop_has_no_table_entries() {
    let program = parse_input("[-]").unwrap();
    assert_eq!(program.loop_end(0), None);
    assert_eq!(program.loop_start(0), None);
    assert!(pairs(&program).is_empty());
    let program = parse_input("[[-]]").unwrap();
    assert_eq!(
        program.commands(),
        &vec![Command::LoopStart, Command::Zero, Command::LoopEnd]
    );
    assert_eq!(pairs(&program), vec![(0, 2)]);
    assert_eq!(program.loop_end(1), None);
    assert_eq!(program.loop_start(1), None);
}

#[test]
fn only_the_exact_three_bytes_are_fused() {
    let triple = vec![Command::LoopStart, Command::Minus(1), Command::LoopEnd];
    assert_eq!(commands("[ -]"), triple);
    assert_eq!(commands("[- ]"), triple);
    assert_eq!(commands("[ - ]"), triple);
    assert_eq!(
        commands("[--]"),
        vec![Command::LoopStart, Command::Minus(2), Command::LoopEnd]
    );
    assert_eq!(
        commands("[+]"),
        vec![Command::LoopStart, Command::Plus(1), Command::LoopEnd]
    );
    assert_eq!(
        commands("[-+-]"),
        vec![Command::LoopStart, Command::Minus(1), Command::LoopEnd]
    );
    assert_eq!(
        commands("[-[-]]"),
        vec![Command::LoopStart, Command::Minus(1), Command::Zero, Command::LoopEnd]
    );
}

#[test]
fn open_bracket_near_the_end_is_read_within_bounds() {
    assert!(refused("["));
    assert!(refused("[-"));
    assert!(refused("+["));
    assert!(refused("[["));
    assert_eq!(commands("[]"), vec![Command::LoopStart, Command::LoopEnd]);
}

#[test]
fn run_at_the_end_of_the_source_is_read_within_bounds() {
    assert_eq!(commands(".+"), vec![Command::Print, Command::Plus(1)]);
    assert_eq!(commands(".<<"), vec![Command::Print, Command::Left(2)]);
}

#[test]
fn loop_is_linked_in_both_tables() {
    let program = parse_input("++[>++<-]>.").unwrap();
    assert_eq!(
        program.commands(),
        &vec![
            Command::Plus(2),
            Command::LoopStart,
            Command::Right(1),
            Command::Plus(2),
            Command::Left(1),
            Command::Minus(1),
            Command::LoopEnd,
            Command::Right(1),
            Command::Print,
        ]
    );
    assert_eq!(program.loop_end(1), Some(6));
    assert_eq!(program.loop_start(6), Some(1));
    assert_eq!(program.loop_end(6), None);
    assert_eq!(program.loop_start(1), None);
    assert_eq!(program.loop_end(0), None);
    assert_eq!(program.loop_end(9), None);
    assert_eq!(pairs(&program), vec![(1, 6)]);
}

#[test]
fn positions_are_those_of_instructions_not_of_source_bytes() {
    let program = parse_input("comment +++ [ more >>> ] end").unwrap();
    assert_eq!(
        program.commands(),
        &vec![Command::Plus(3), Command::LoopStart, Command::Right(3), Command::LoopEnd]
    );
    assert_eq!(pairs(&program), vec![(1, 3)]);
}

#[test]
fn nested_and_adjacent_loops_are_linked_to_their_own_partners() {
    let program = parse_input("[[][]][]").unwrap();
    assert_eq!(pairs(&program), vec![(0, 5), (1, 2), (3, 4), (6, 7)]);
    let program = parse_input("[[[[.]]]]").unwrap();
    assert_eq!(pairs(&program), vec![(0, 8), (1, 7), (2, 6), (3, 5)]);
}

#[test]
fn tables_are_inverse_and_complete() {
    let sources = [
        "",
        "[]",
        "[[][]][]",
        "++[>++<-]>.",
        "+[[-]>[,.[-]]<[[+]-]]",
        "++++++++[>++++[>++>+++>+++>+<<<<-]>+>+>->>+[<]<-]>>.>---.+++++++..+++.",
    ];
    for src in sources {
        let program = parse_input(src).unwrap();
        let n = program.commands().len();
        for at in 0..n + 2 {
            let end = program.loop_end(at);
            let start = program.loop_start(at);
            let command = program.commands().get(at).copied();
            assert_eq!(end.is_some(), command == Some(Command::LoopStart));
            assert_eq!(start.is_some(), command == Some(Command::LoopEnd));
            if let Some(end) = end {
                assert!(at < end && end < n);
                assert_eq!(program.loop_start(end), Some(at));
            }
            if let Some(start) = start {
                assert!(start < at);
                assert_eq!(program.loop_end(start), Some(at));
            }
        }
    }
}

#[test]
fn unmatched_close_bracket_is_refused() {
    assert!(refused("]"));
    assert!(refused("+]"));
    assert!(refused("[]]"));
    assert!(refused("]["));
    assert!(refused("[-]]"));
    assert!(refused("+++.]+++"));
}

#[test]
fn dangling_open_bracket_is_refused() {
    assert!(refused("["));
    assert!(refused("[[]"));
    assert!(refused("[]["));
    assert!(refused("[-]["));
    assert!(refused("+++[>+++"));
    assert!(refused("[ comment"));
}

#[test]
fn same_number_of_brackets_in_the_wrong_order_is_refused() {
    assert!(refused("]["));
    assert!(refused("[]]["));
    assert!(refused("]-["));
}

#[test]
fn fused_loop_counts_as_balanced() {
    assert!(parse_input("[-]").is_ok());
    assert!(parse_input("[[-]]").is_ok());
    assert!(refused("[[-]"));
    assert!(refused("[-]]"));
}

#[test]
fn clear_loop_is_one_instruction_wherever_it_stands() {
    let parts = ["", "+", "-", "[", "[-", ">", ".", "x", "[-]"];
    for before in parts {
        for after in ["", "+", "-", "]", "-]", "<", ",", "y", "[-]"] {
            let joined = format!("{}[-]{}", before, after);
            let whole = translate_unlinked(&joined);
            let mut expected = translate_unlinked(before);
            expected.push(Command::Zero);
            expected.extend(translate_unlinked(after));
            assert_eq!(whole, expected, "{:?} [-] {:?}", before, after);
        }
    }
}

/// The instructions of `src`, whether or not its brackets balance: `src` is
/// wrapped in enough brackets, set off by blanks, to balance it, and the
/// instructions of the wrapping are cut off again.
fn translate_unlinked(src: &str) -> Vec<Command> {
    let opens = src.bytes().filter(|b| *b == b'[').count();
    let closes = src.bytes().filter(|b| *b == b']').count();
    let padded = format!("{} {} {}", "[ ".repeat(closes), src, " ]".repeat(opens));
    let all = commands(&padded);
    all[closes..all.len() - opens].to_vec()
}
