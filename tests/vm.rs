use fancy_vm::error::Error;
use fancy_vm::utf8::{codepoint_len, codepoint_len_at, prev_codepoint_ix};
use fancy_vm::vm::{run, run_with_limits, trace, Insn, Prog, TraceEvent, MAX_STEPS};
use regex::Regex;

fn lit(s: &str) -> Insn {
    Insn::Lit(s.to_string())
}

fn end_of_input() -> Insn {
    Insn::DelegateSized(Box::new(Regex::new(r"^\z").unwrap()), 0)
}

fn counted(greedy: bool) -> Prog {
    let repeat = if greedy {
        Insn::RepeatGr { lo: 2, hi: 3, next: 5, repeat: 2 }
    } else {
        Insn::RepeatNg { lo: 2, hi: 3, next: 5, repeat: 2 }
    };
    Prog::new(
        vec![
            Insn::Save(0),
            Insn::Save0(2),
            repeat,
            lit("a"),
            Insn::Jmp(2),
            lit("b"),
            Insn::Save(1),
            Insn::End,
        ],
        3,
    )
}

#[test]
fn literal_program() {
    let prog = Prog::new(vec![lit("a"), Insn::End], 0);
    assert_eq!(run(&prog, "a", 0, 0), Ok(Some(vec![])));
    assert_eq!(run(&prog, "b", 0, 0), Ok(None));
}

#[test]
fn literal_program_end_index() {
    let prog = Prog::new(vec![Insn::Save(0), lit("a"), Insn::Save(1), Insn::End], 2);
    let slots = run(&prog, "a", 0, 0).unwrap().unwrap();
    assert_eq!(slots[0], 0);
    assert_eq!(slots[1], 1);
}

#[test]
fn alternation_with_backtrack() {
    let prog = Prog::new(
        vec![Insn::Split(1, 3), lit("ab"), Insn::Jmp(4), lit("ac"), Insn::End],
        0,
    );
    assert_eq!(run(&prog, "ac", 0, 0), Ok(Some(vec![])));
    assert_eq!(run(&prog, "ad", 0, 0), Ok(None));
    let (result, events) = trace(&prog, "ac", 0);
    assert_eq!(result, Ok(Some(vec![])));
    let pushes = events.iter().filter(|e| matches!(e, TraceEvent::Push { .. })).count();
    let pops = events.iter().filter(|e| matches!(e, TraceEvent::Pop { .. })).count();
    assert_eq!(pushes, 1);
    assert_eq!(pops, 1);
}

#[test]
fn greedy_counted_repetition() {
    let prog = counted(true);
    let slots = run(&prog, "aaab", 0, 0).unwrap().unwrap();
    assert_eq!((slots[0], slots[1]), (0, 4));
    let slots = run(&prog, "aab", 0, 0).unwrap().unwrap();
    assert_eq!((slots[0], slots[1]), (0, 3));
    assert_eq!(run(&prog, "ab", 0, 0), Ok(None));
    assert_eq!(run(&prog, "aaaab", 0, 0), Ok(None));
}

#[test]
fn non_greedy_counted_repetition() {
    let prog = counted(false);
    let slots = run(&prog, "aaab", 0, 0).unwrap().unwrap();
    assert_eq!((slots[0], slots[1]), (0, 4));
    let slots = run(&prog, "aab", 0, 0).unwrap().unwrap();
    assert_eq!((slots[0], slots[1]), (0, 3));
    for input in ["ab", "aaaab", "b", ""] {
        let greedy = run(&counted(true), input, 0, 0).unwrap().is_some();
        let lazy = run(&prog, input, 0, 0).unwrap().is_some();
        assert_eq!(greedy, lazy);
    }
}

#[test]
fn back_reference() {
    let prog = Prog::new(
        vec![
            Insn::Save(0),
            Insn::Save(2),
            lit("a"),
            Insn::Split(2, 4),
            Insn::Save(3),
            Insn::Backref(2),
            end_of_input(),
            Insn::Save(1),
            Insn::End,
        ],
        4,
    );
    assert_eq!(run(&prog, "aaaa", 0, 0), Ok(Some(vec![0, 4, 0, 2])));
    assert_eq!(run(&prog, "aaab", 0, 0), Ok(None));
}

#[test]
fn back_reference_to_unset_group_fails() {
    let prog = Prog::new(vec![Insn::Backref(0), Insn::End], 2);
    assert_eq!(run(&prog, "a", 0, 0), Ok(None));
}

#[test]
fn atomic_group_blocks_backtracking() {
    let atomic = Prog::new(
        vec![
            Insn::Save(0),
            Insn::BeginAtomic,
            lit("a"),
            Insn::Split(2, 4),
            Insn::EndAtomic,
            lit("ab"),
            Insn::Save(1),
            Insn::End,
        ],
        2,
    );
    assert_eq!(run(&atomic, "aaab", 0, 0), Ok(None));
    let plain = Prog::new(
        vec![Insn::Save(0), lit("a"), Insn::Split(1, 3), lit("ab"), Insn::Save(1), Insn::End],
        2,
    );
    assert_eq!(run(&plain, "aaab", 0, 0), Ok(Some(vec![0, 4])));
}

#[test]
fn negative_look_ahead() {
    let prog = Prog::new(
        vec![
            lit("a"),
            Insn::Split(2, 4),
            lit("b"),
            Insn::FailNegativeLookAround,
            lit("c"),
            Insn::End,
        ],
        0,
    );
    assert_eq!(run(&prog, "ac", 0, 0), Ok(Some(vec![])));
    assert_eq!(run(&prog, "abc", 0, 0), Ok(None));
    let (result, events) = trace(&prog, "abc", 0);
    assert_eq!(result, Ok(None));
    assert!(events.contains(&TraceEvent::Cut { depth: 0 }));
    assert!(!events.iter().any(|e| matches!(e, TraceEvent::Pop { .. })));
}

#[test]
fn stack_overflow_is_reported() {
    let prog = Prog::new(vec![Insn::Split(1, 1), Insn::Jmp(0)], 0);
    let mut events = Vec::new();
    let r = run_with_limits(&prog, "", 0, 0, 10, MAX_STEPS, &mut events);
    assert_eq!(r, Err(Error::StackOverflow));
    assert!(events.is_empty());
    assert_eq!(run(&prog, "", 0, 0), Err(Error::StackOverflow));
}

#[test]
fn step_budget_is_reported() {
    let prog = Prog::new(vec![Insn::Jmp(0)], 0);
    let mut events = Vec::new();
    let r = run_with_limits(&prog, "", 0, 0, 10, 100, &mut events);
    assert_eq!(r, Err(Error::StepLimitExceeded));
}

#[test]
fn empty_program_does_not_match() {
    let prog = Prog::new(vec![], 0);
    assert_eq!(run(&prog, "a", 0, 0), Ok(None));
}

#[test]
fn any_steps_over_whole_code_points() {
    let prog = Prog::new(vec![Insn::Any, Insn::Save(0), Insn::AnyNoNL, Insn::Save(1), Insn::End], 2);
    let slots = run(&prog, "éx", 0, 0).unwrap().unwrap();
    assert_eq!((slots[0], slots[1]), (2, 3));
    assert_eq!(run(&prog, "é\n", 0, 0), Ok(None));
    assert_eq!(run(&prog, "é", 0, 0), Ok(None));
}

#[test]
fn go_back_and_restore() {
    let prog = Prog::new(
        vec![lit("ab"), Insn::GoBack(1), lit("b"), Insn::Save(0), Insn::GoBack(3), Insn::End],
        1,
    );
    assert_eq!(run(&prog, "ab", 0, 0), Ok(None));
    let prog = Prog::new(
        vec![Insn::Save(0), lit("ab"), Insn::Restore(0), lit("a"), Insn::Save(1), Insn::End],
        2,
    );
    let slots = run(&prog, "ab", 0, 0).unwrap().unwrap();
    assert_eq!((slots[0], slots[1]), (0, 1));
}

#[test]
fn epsilon_repeat_stops_on_empty_iteration() {
    // (?:)* followed by "a": the empty body would loop forever without the guard.
    let prog = Prog::new(
        vec![
            Insn::Save0(0),
            Insn::RepeatEpsilonGr { lo: 0, next: 4, repeat: 0, check: 1 },
            Insn::Jmp(1),
            Insn::End,
            lit("a"),
            Insn::End,
        ],
        2,
    );
    assert!(run(&prog, "a", 0, 0).unwrap().is_some());
    assert_eq!(run(&prog, "b", 0, 0), Ok(None));
}

#[test]
fn delegate_with_captures() {
    let inner = Box::new(Regex::new(r"^(b+)(x)?").unwrap());
    let prog = Prog::new(
        vec![
            lit("a"),
            Insn::Delegate { inner, inner1: None, start_group: 1, end_group: 3 },
            Insn::End,
        ],
        6,
    );
    let slots = run(&prog, "abbc", 0, 0).unwrap().unwrap();
    assert_eq!((slots[2], slots[3]), (1, 3));
    assert_eq!((slots[4], slots[5]), (usize::MAX, usize::MAX));
    assert_eq!(run(&prog, "ac", 0, 0), Ok(None));
}

#[test]
fn delegate_find_and_look_left() {
    let inner = Box::new(Regex::new(r"^\b").unwrap());
    let inner1 = Some(Box::new(Regex::new(r"^(?s:.)\b").unwrap()));
    let prog = Prog::new(
        vec![
            lit("x"),
            Insn::Delegate { inner, inner1, start_group: 0, end_group: 0 },
            Insn::Save(0),
            Insn::End,
        ],
        1,
    );
    assert_eq!(run(&prog, "xy", 0, 0), Ok(None));
    let slots = run(&prog, "x y", 0, 0).unwrap().unwrap();
    assert_eq!(slots[0], 1);
}

#[test]
fn delegate_sized_advances_code_points() {
    let inner = Box::new(Regex::new(r"^[a-zé]{2}").unwrap());
    let prog = Prog::new(vec![Insn::DelegateSized(inner, 2), Insn::Save(0), Insn::End], 1);
    let slots = run(&prog, "éaz", 0, 0).unwrap().unwrap();
    assert_eq!(slots[0], 3);
    assert_eq!(run(&prog, "1a", 0, 0), Ok(None));
}

#[test]
fn run_from_later_start() {
    let prog = Prog::new(vec![Insn::Save(0), lit("b"), Insn::End], 1);
    let slots = run(&prog, "ab", 1, 0).unwrap().unwrap();
    assert_eq!(slots[0], 1);
}

#[test]
fn well_formedness_check() {
    assert!(Prog::new(vec![lit("a"), Insn::End], 0).check());
    assert!(!Prog::new(vec![Insn::Jmp(5)], 0).check());
    assert!(!Prog::new(vec![Insn::Save(2), Insn::End], 2).check());
    assert!(!Prog::new(vec![lit("a")], 0).check());
}

#[test]
fn utf8_helpers() {
    assert_eq!(codepoint_len(b'a'), 1);
    assert_eq!(codepoint_len(0xC3), 2);
    assert_eq!(codepoint_len(0xE2), 3);
    assert_eq!(codepoint_len(0xF0), 4);
    assert_eq!(codepoint_len_at("aé", 1), 2);
    assert_eq!(prev_codepoint_ix("aé", 3), 1);
    assert_eq!(prev_codepoint_ix("aé", 1), 0);
}

#[test]
fn atomic_group_extends_result_with_explicit_stack() {
    let prog = Prog::new(
        vec![Insn::Save(0), Insn::BeginAtomic, lit("a"), Insn::EndAtomic, Insn::Save(1), Insn::End],
        2,
    );
    let slots = run(&prog, "a", 0, 0).unwrap().unwrap();
    assert_eq!(&slots[..2], &[0, 1]);
    assert_eq!(slots.len(), 4);
    assert_eq!(slots[2], 3);
}

#[test]
fn counted_repetition_slot_count() {
    assert_eq!(run(&counted(true), "aab", 0, 0), Ok(Some(vec![0, 3, 3])));
}

#[test]
fn go_back_lands_on_earlier_code_points() {
    let prog = Prog::new(vec![lit("aéb"), Insn::GoBack(2), Insn::Save(0), Insn::End], 1);
    assert_eq!(run(&prog, "aéb", 0, 0), Ok(Some(vec![1])));
}
