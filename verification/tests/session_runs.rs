use guessing_game::parse::decimal_bytes;
use guessing_game::session::{Msg, Outcome, Session, Verdict};

fn script(lines: &[&[u8]]) -> Vec<Vec<u8>> {
    lines.iter().map(|l| l.to_vec()).collect()
}

#[test]
fn every_secret_solved_by_its_literal() {
    for secret in 1u32..=100 {
        let mut session = Session::with_secret(secret);
        let mut lines = script(&[b"abc", b"0"]);
        lines.push(decimal_bytes(secret));
        let (msgs, outcome) = session.run_script(&lines);
        assert_eq!(outcome, Outcome::Solved);
        assert!(session.is_solved());
        assert_eq!(*msgs.last().unwrap(), Msg::Report(Verdict::Solved));
    }
}

#[test]
fn nothing_after_success() {
    let mut session = Session::with_secret(50);
    let lines = script(&[b"50", b"10", b"90"]);
    let (msgs, outcome) = session.run_script(&lines);
    assert_eq!(outcome, Outcome::Solved);
    assert_eq!(
        msgs,
        vec![
            Msg::Banner,
            Msg::Prompt,
            Msg::Echo(50),
            Msg::Report(Verdict::Solved),
        ]
    );
}

#[test]
fn invalid_line_is_discarded_silently() {
    let mut session = Session::with_secret(50);
    let (msgs, outcome) = session.run_script(&script(&[b"abc"]));
    assert_eq!(outcome, Outcome::OutOfInput);
    assert_eq!(msgs, vec![Msg::Banner, Msg::Prompt, Msg::Prompt]);
    assert!(!session.is_solved());
}

#[test]
fn invalid_lines_get_no_verdict() {
    let mut session = Session::with_secret(50);
    for line in [&b"abc"[..], b"", b"12.5"] {
        assert_eq!(session.process_line(line), None);
        assert!(!session.is_solved());
    }
}

#[test]
fn smaller_guess_is_too_small() {
    let mut session = Session::with_secret(50);
    assert_eq!(session.process_line(b"10"), Some((10, Verdict::TooSmall)));
    assert!(!session.is_solved());
}

#[test]
fn larger_guess_is_too_big() {
    let mut session = Session::with_secret(50);
    assert_eq!(session.process_line(b"90"), Some((90, Verdict::TooBig)));
    assert!(!session.is_solved());
}

#[test]
fn exact_guess_solves() {
    let mut session = Session::with_secret(50);
    assert_eq!(session.process_line(b"50"), Some((50, Verdict::Solved)));
    assert!(session.is_solved());
}

#[test]
fn out_of_input_without_valid_guess() {
    let mut session = Session::with_secret(50);
    let (msgs, outcome) = session.run_script(&script(&[b"abc", b"", b"12.5"]));
    assert_eq!(outcome, Outcome::OutOfInput);
    assert!(msgs.iter().skip(1).all(|m| *m == Msg::Prompt));
    assert!(!session.is_solved());
}

#[test]
fn empty_script_runs_out_at_once() {
    let mut session = Session::with_secret(1);
    let (msgs, outcome) = session.run_script(&script(&[]));
    assert_eq!(outcome, Outcome::OutOfInput);
    assert_eq!(msgs, vec![Msg::Banner, Msg::Prompt]);
}

#[test]
fn fixed_secret_and_script_reproduce_the_run() {
    let lines = script(&[b"abc", b"10", b"90", b"", b"50"]);
    let mut first = Session::with_secret(50);
    let mut second = Session::with_secret(50);
    let (msgs_a, out_a) = first.run_script(&lines);
    let (msgs_b, out_b) = second.run_script(&lines);
    assert_eq!(msgs_a, msgs_b);
    assert_eq!(out_a, out_b);
}

#[test]
fn full_transcript_in_order() {
    let mut session = Session::with_secret(50);
    let lines = script(&[b"10", b"oops", b"90", b"50"]);
    let (msgs, outcome) = session.run_script(&lines);
    assert_eq!(outcome, Outcome::Solved);
    assert_eq!(
        msgs,
        vec![
            Msg::Banner,
            Msg::Prompt,
            Msg::Echo(10),
            Msg::Report(Verdict::TooSmall),
            Msg::Prompt,
            Msg::Prompt,
            Msg::Echo(90),
            Msg::Report(Verdict::TooBig),
            Msg::Prompt,
            Msg::Echo(50),
            Msg::Report(Verdict::Solved),
        ]
    );
}

#[test]
fn random_secret_is_in_range_and_solvable() {
    let mut session = Session::new();
    let mut solved = false;
    for guess in 1u32..=100 {
        match session.process_line(&decimal_bytes(guess)) {
            Some((g, Verdict::Solved)) => {
                assert_eq!(g, guess);
                solved = true;
                break;
            }
            Some((g, _)) => assert_eq!(g, guess),
            None => panic!("a decimal literal must parse"),
        }
    }
    assert!(solved);
    assert!(session.is_solved());
}
