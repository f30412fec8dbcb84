//! The guessing session itself: a secret drawn once from [1, 100], a step
//! that judges one line of input, a scripted runner whose transcript is
//! pinned down exactly, and the laws that govern a whole session.

use vstd::prelude::*;

use crate::parse::{parse_guess, parse_u32};
use crate::rng::{draw_in_range, fresh_rng};

verus! {

/// The three-way answer to a valid guess.
#[derive(Clone, Copy, PartialEq, Eq, Structural, Debug)]
pub enum Verdict {
    TooSmall,
    TooBig,
    Solved,
}

/// One line of feedback the session emits: the opening banner, the prompt
/// before each read, the echo of a parsed guess, and the verdict on it.
#[derive(Clone, Copy, PartialEq, Eq, Structural, Debug)]
pub enum Msg {
    Banner,
    Prompt,
    Echo(u32),
    Report(Verdict),
}

/// How a scripted session ends: the secret was hit, or the input ran out
/// first.
#[derive(Clone, Copy, PartialEq, Eq, Structural, Debug)]
pub enum Outcome {
    Solved,
    OutOfInput,
}

/// The verdict owed to a valid guess against a given secret.
pub open spec fn verdict_of(guess: u32, secret: u32) -> Verdict {
    if guess < secret {
        Verdict::TooSmall
    } else if guess > secret {
        Verdict::TooBig
    } else {
        Verdict::Solved
    }
}

/// The feedback emitted while the lines of a script are fed to a session
/// with the given secret: every iteration prompts first; a line that fails
/// to parse is discarded silently; a line that parses is echoed and judged;
/// the session stops right after the first exact match; and a final prompt
/// marks the read on which the script ran out.
pub open spec fn run_msgs(secret: u32, lines: Seq<Seq<u8>>) -> Seq<Msg>
    decreases lines.len(),
{
    if lines.len() == 0 {
        seq![Msg::Prompt]
    } else {
        match parse_u32(lines[0]) {
            None => seq![Msg::Prompt] + run_msgs(secret, lines.drop_first()),
            Some(g) => {
                let head = seq![Msg::Prompt, Msg::Echo(g), Msg::Report(verdict_of(g, secret))];
                if g == secret {
                    head
                } else {
                    head + run_msgs(secret, lines.drop_first())
                }
            },
        }
    }
}

/// How a session with the given secret ends on a script: solved at the
/// first line that parses to the secret, out of input if none does.
pub open spec fn run_outcome(secret: u32, lines: Seq<Seq<u8>>) -> Outcome
    decreases lines.len(),
{
    if lines.len() == 0 {
        Outcome::OutOfInput
    } else {
        match parse_u32(lines[0]) {
            None => run_outcome(secret, lines.drop_first()),
            Some(g) => if g == secret {
                Outcome::Solved
            } else {
                run_outcome(secret, lines.drop_first())
            },
        }
    }
}

/// The views of the lines of a script.
pub open spec fn line_views(lines: Seq<Vec<u8>>) -> Seq<Seq<u8>> {
    Seq::new(lines.len(), |i: int| lines[i]@)
}

/// One guessing session: a secret fixed at construction and a flag that
/// records whether it has been hit. The secret is drawn once and never
/// mutated afterwards.
pub struct Session {
    secret: u32,
    solved: bool,
}

impl Session {
    /// The session's secret target.
    pub closed spec fn secret(&self) -> u32 {
        self.secret
    }

    /// Whether the secret has been guessed.
    pub closed spec fn solved(&self) -> bool {
        self.solved
    }

    /// A well-formed session holds a secret from the drawing range.
    pub open spec fn wf(&self) -> bool {
        1 <= self.secret() <= 100
    }

    /// A session with an injected secret, for scripted and reproducible
    /// runs.
    pub fn with_secret(secret: u32) -> (s: Session)
        requires
            1 <= secret <= 100,
        ensures
            s.secret() == secret,
            !s.solved(),
            s.wf(),
    {
        Session { secret, solved: false }
    }

    /// A session whose secret is drawn uniformly from [1, 100].
    pub fn new() -> (s: Session)
        ensures
            !s.solved(),
            s.wf(),
    {
        let mut rng = fresh_rng();
        let secret = draw_in_range(&mut rng, 1, 101);
        Session { secret, solved: false }
    }

    /// Whether the secret has been guessed, for callers outside the proof.
    pub fn is_solved(&self) -> (r: bool)
        ensures
            r == self.solved(),
    {
        self.solved
    }

    /// Judges one line of input: a line that does not parse is discarded
    /// silently and changes nothing; a line that parses to `g` yields `g`
    /// with its verdict, and the session is solved exactly when `g` hits
    /// the secret.
    pub fn process_line(&mut self, line: &[u8]) -> (r: Option<(u32, Verdict)>)
        requires
            !old(self).solved(),
        ensures
            final(self).secret() == old(self).secret(),
            final(self).wf() == old(self).wf(),
            match parse_u32(line@) {
                None => r is None && !final(self).solved(),
                Some(g) => r == Some((g, verdict_of(g, old(self).secret())))
                    && (final(self).solved() <==> g == old(self).secret()),
            },
    {
        match parse_guess(line) {
            None => None,
            Some(g) => {
                let verdict = if g < self.secret {
                    Verdict::TooSmall
                } else if g > self.secret {
                    Verdict::TooBig
                } else {
                    self.solved = true;
                    Verdict::Solved
                };
                Some((g, verdict))
            },
        }
    }

    /// Runs the whole session against a script of input lines, as a test
    /// harness or a batch caller would: the returned transcript and outcome
    /// are exactly the ones the specification assigns to the secret and the
    /// script, so a fixed secret and a fixed script reproduce the same run.
    pub fn run_script(&mut self, lines: &Vec<Vec<u8>>) -> (r: (Vec<Msg>, Outcome))
        requires
            !old(self).solved(),
        ensures
            final(self).secret() == old(self).secret(),
            final(self).wf() == old(self).wf(),
            r.0@ == seq![Msg::Banner] + run_msgs(old(self).secret(), line_views(lines@)),
            r.1 == run_outcome(old(self).secret(), line_views(lines@)),
            final(self).solved() <==> r.1 is Solved,
    {
        let ghost lv = line_views(lines@);
        let ghost secret = self.secret;
        let mut msgs: Vec<Msg> = Vec::new();
        msgs.push(Msg::Banner);
        let mut outcome = Outcome::OutOfInput;
        let mut idx: usize = 0;
        proof {
            assert(lv.skip(0) =~= lv);
            assert(msgs@.skip(1) =~= Seq::<Msg>::empty());
            assert(msgs@.skip(1) + run_msgs(secret, lv) =~= run_msgs(secret, lv));
        }
        loop
            invariant_except_break
                idx <= lines@.len(),
                self.secret == secret,
                !self.solved,
                lv == line_views(lines@),
                msgs@.len() >= 1,
                msgs@[0] == Msg::Banner,
                run_msgs(secret, lv) == msgs@.skip(1) + run_msgs(secret, lv.skip(idx as int)),
                run_outcome(secret, lv) == run_outcome(secret, lv.skip(idx as int)),
                outcome == Outcome::OutOfInput,
            ensures
                self.secret == secret,
                msgs@ == seq![Msg::Banner] + run_msgs(secret, lv),
                outcome == run_outcome(secret, lv),
                self.solved <==> outcome is Solved,
            decreases lines@.len() - idx,
        {
            let ghost prev = msgs@;
            msgs.push(Msg::Prompt);
            if idx == lines.len() {
                proof {
                    assert(lv.skip(idx as int).len() == 0);
                    assert(run_msgs(secret, lv) == prev.skip(1) + seq![Msg::Prompt]);
                    assert(msgs@ =~= seq![Msg::Banner] + run_msgs(secret, lv));
                }
                break;
            }
            proof {
                assert(lv.skip(idx as int)[0] == lv[idx as int]);
                assert(lv.skip(idx as int).drop_first() =~= lv.skip(idx as int + 1));
                assert(lv[idx as int] == lines@[idx as int]@);
            }
            match self.process_line(lines[idx].as_slice()) {
                None => {
                    proof {
                        let tail = run_msgs(secret, lv.skip(idx as int + 1));
                        assert(run_msgs(secret, lv.skip(idx as int)) == seq![Msg::Prompt]
                            + tail);
                        assert(msgs@.skip(1) =~= prev.skip(1) + seq![Msg::Prompt]);
                        assert((prev.skip(1) + seq![Msg::Prompt]) + tail =~= prev.skip(1) + (
                        seq![Msg::Prompt] + tail));
                    }
                    idx = idx + 1;
                },
                Some((g, verdict)) => {
                    msgs.push(Msg::Echo(g));
                    msgs.push(Msg::Report(verdict));
                    let ghost head = seq![
                        Msg::Prompt,
                        Msg::Echo(g),
                        Msg::Report(verdict_of(g, secret)),
                    ];
                    proof {
                        assert(msgs@.skip(1) =~= prev.skip(1) + head);
                    }
                    match verdict {
                        Verdict::Solved => {
                            proof {
                                assert(g == secret);
                                assert(run_msgs(secret, lv.skip(idx as int)) == head);
                                assert(run_outcome(secret, lv.skip(idx as int))
                                    == Outcome::Solved);
                                assert(msgs@ =~= seq![Msg::Banner] + run_msgs(secret, lv));
                            }
                            outcome = Outcome::Solved;
                            break;
                        },
                        _ => {
                            proof {
                                assert(g != secret);
                                let tail = run_msgs(secret, lv.skip(idx as int + 1));
                                assert(run_msgs(secret, lv.skip(idx as int)) == head + tail);
                                assert((prev.skip(1) + head) + tail =~= prev.skip(1) + (head
                                    + tail));
                            }
                            idx = idx + 1;
                        },
                    }
                },
            }
        }
        (msgs, outcome)
    }
}

/// A script with a line that parses to the secret always solves the
/// session: the run ends in the solved outcome, and the very last message
/// emitted is the success report — nothing follows it.
pub proof fn lemma_matching_line_solves(secret: u32, lines: Seq<Seq<u8>>, i: int)
    requires
        0 <= i < lines.len(),
        parse_u32(lines[i]) == Some(secret),
    ensures
        run_outcome(secret, lines) is Solved,
        run_msgs(secret, lines).len() > 0,
        run_msgs(secret, lines).last() == Msg::Report(Verdict::Solved),
    decreases i,
{
    match parse_u32(lines[0]) {
        None => {
            lemma_matching_line_solves(secret, lines.drop_first(), i - 1);
            let tail = run_msgs(secret, lines.drop_first());
            assert((seq![Msg::Prompt] + tail).last() == tail.last());
        },
        Some(g) => {
            if g == secret {
                assert(run_msgs(secret, lines).last() == Msg::Report(verdict_of(g, secret)));
            } else {
                lemma_matching_line_solves(secret, lines.drop_first(), i - 1);
                let head = seq![Msg::Prompt, Msg::Echo(g), Msg::Report(verdict_of(g, secret))];
                let tail = run_msgs(secret, lines.drop_first());
                assert((head + tail).last() == tail.last());
            }
        },
    }
}

/// When no line of the script parses, no verdict is ever emitted: the
/// transcript is one prompt per line plus the final prompt on which the
/// input runs out, and the run ends with the stream exhausted.
pub proof fn lemma_no_valid_guess(secret: u32, lines: Seq<Seq<u8>>)
    requires
        forall|i: int| 0 <= i < lines.len() ==> parse_u32(lines[i]) is None,
    ensures
        run_outcome(secret, lines) is OutOfInput,
        run_msgs(secret, lines).len() == lines.len() + 1,
        forall|k: int|
            0 <= k < run_msgs(secret, lines).len() ==> run_msgs(secret, lines)[k] == Msg::Prompt,
    decreases lines.len(),
{
    if lines.len() > 0 {
        lemma_no_valid_guess(secret, lines.drop_first());
        let tail = run_msgs(secret, lines.drop_first());
        assert forall|k: int| 0 <= k < run_msgs(secret, lines).len() implies run_msgs(
            secret,
            lines,
        )[k] == Msg::Prompt by {
            if k > 0 {
                assert(run_msgs(secret, lines)[k] == tail[k - 1]);
            }
        }
    }
}

/// One line that fails to parse is discarded silently: it contributes only
/// the prompt that preceded it — no echo, no verdict — and the session goes
/// on with the rest of the script unchanged.
pub proof fn lemma_invalid_line_discarded(secret: u32, lines: Seq<Seq<u8>>)
    requires
        lines.len() > 0,
        parse_u32(lines[0]) is None,
    ensures
        run_msgs(secret, lines) == seq![Msg::Prompt] + run_msgs(secret, lines.drop_first()),
        run_outcome(secret, lines) == run_outcome(secret, lines.drop_first()),
{
}

} // verus!
