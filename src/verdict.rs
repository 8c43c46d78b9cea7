//! Judging an evaluation, and what a participation request asks for.

use vstd::prelude::*;

use crate::text::{strip_ticks, unticked, views};

verus! {

/// The verdict on one evaluation: the score when the result is the expected
/// output, else the lines obtained and the editor's error message, if any.
pub enum Verdict {
    Pass(usize),
    Fail(Vec<String>, Option<String>),
}

/// The editor's error message as it is reported: only when it is not empty.
pub open spec fn reported(engine_error: Option<String>) -> Option<String> {
    match engine_error {
        Some(m) => if m@.len() > 0 {
            Some(m)
        } else {
            None
        },
        None => None,
    }
}

/// Whether two runs of lines are equal, line for line, character for character.
fn same_lines(a: &Vec<String>, b: &Vec<String>) -> (r: bool)
    ensures
        r == (views(a@) == views(b@)),
{
    if a.len() != b.len() {
        assert(views(a@).len() != views(b@).len());
        return false;
    }
    let mut i: usize = 0;
    while i < a.len()
        invariant
            a@.len() == b@.len(),
            i <= a@.len(),
            forall|k: int| 0 <= k < i ==> a@[k]@ == b@[k]@,
        decreases a@.len() - i,
    {
        if a[i] != b[i] {
            assert(views(a@)[i as int] != views(b@)[i as int]);
            return false;
        }
        i = i + 1;
    }
    assert(views(a@) == views(b@));
    true
}

/// Judges an evaluation: it passes with `score` exactly when the resulting
/// lines equal the expected ones, in order and character for character;
/// otherwise it fails with the resulting lines and the editor's error message
/// as it came.
pub fn decide(
    expected: &Vec<String>,
    resulting: Vec<String>,
    score: usize,
    engine_error: Option<String>,
) -> (r: Verdict)
    ensures
        views(expected@) == views(resulting@) ==> r == Verdict::Pass(score),
        views(expected@) != views(resulting@) ==> r == Verdict::Fail(resulting, engine_error),
{
    if same_lines(expected, &resulting) {
        Verdict::Pass(score)
    } else {
        Verdict::Fail(resulting, engine_error)
    }
}

/// The editor's error message as it is shown to the participant: only when
/// it is not empty, since an empty message means the keys ran cleanly.
pub fn reported_error(engine_error: Option<String>) -> (r: Option<String>)
    ensures
        r == reported(engine_error),
{
    match engine_error {
        Some(m) => if m.as_str().unicode_len() > 0 {
            Some(m)
        } else {
            None
        },
        None => None,
    }
}

/// Whether a passing submission is recorded: not on a dry run, and not in a
/// private conversation.
pub fn should_record(verdict: &Verdict, dry_run: bool, private: bool) -> (r: bool)
    ensures
        r == (verdict is Pass && !dry_run && !private),
{
    match verdict {
        Verdict::Pass(_) => !dry_run && !private,
        Verdict::Fail(..) => false,
    }
}

/// What a participation asks for: the challenge (the most recent one when
/// absent), the keys, and whether it is a dry run that records nothing.
pub struct Participation {
    pub challenge: Option<String>,
    pub keys: String,
    pub dry_run: bool,
}

/// The word that marks a dry run.
pub open spec fn try_word() -> Seq<char> {
    seq!['t', 'r', 'y']
}

/// Whether an argument is the dry-run word.
fn is_try(s: &str) -> (r: bool)
    ensures
        r == (s@ == try_word()),
{
    if s.unicode_len() != 3 {
        return false;
    }
    let r = s.get_char(0) == 't' && s.get_char(1) == 'r' && s.get_char(2) == 'y';
    assert(r == (s@ == try_word())) by {
        if r {
            assert(s@ =~= try_word());
        }
    }
    r
}

/// Reads the arguments of a participation: `keys`, `try keys`, `challenge keys`
/// or `try challenge keys`. The keys lose one layer of backticks. Any other
/// shape gives `None`.
pub fn participation(args: &Vec<String>) -> (r: Option<Participation>)
    ensures
        args@.len() == 1 ==> (r matches Some(p) && p.challenge is None && p.keys@ == unticked(
            args@[0]@,
        ) && !p.dry_run),
        args@.len() == 2 && args@[0]@ == try_word() ==> (r matches Some(p) && p.challenge is None
            && p.keys@ == unticked(args@[1]@) && p.dry_run),
        args@.len() == 2 && args@[0]@ != try_word() ==> (r matches Some(p) && p.challenge
            matches Some(c) && c@ == args@[0]@ && p.keys@ == unticked(args@[1]@) && !p.dry_run),
        args@.len() == 3 && args@[0]@ == try_word() ==> (r matches Some(p) && p.challenge
            matches Some(c) && c@ == args@[1]@ && p.keys@ == unticked(args@[2]@) && p.dry_run),
        args@.len() == 3 && args@[0]@ != try_word() ==> r is None,
        args@.len() == 0 || args@.len() > 3 ==> r is None,
{
    let n = args.len();
    if n == 1 {
        Some(Participation { challenge: None, keys: strip_ticks(args[0].as_str()), dry_run: false })
    } else if n == 2 {
        if is_try(args[0].as_str()) {
            Some(
                Participation { challenge: None, keys: strip_ticks(args[1].as_str()), dry_run: true },
            )
        } else {
            Some(
                Participation {
                    challenge: Some(args[0].clone()),
                    keys: strip_ticks(args[1].as_str()),
                    dry_run: false,
                },
            )
        }
    } else if n == 3 && is_try(args[0].as_str()) {
        Some(
            Participation {
                challenge: Some(args[1].clone()),
                keys: strip_ticks(args[2].as_str()),
                dry_run: true,
            },
        )
    } else {
        None
    }
}

} // verus!
