use vim_golf_bot::challenge::Challenge;
use vim_golf_bot::manage::{challenge_id, register, ParseError};
use vim_golf_bot::session::{EngineError, Evaluation, Reply, Request, Session, Stage};
use vim_golf_bot::verdict::{decide, participation, reported_error, should_record, Verdict};

fn strings(v: &[&str]) -> Vec<String> {
    v.iter().map(|s| s.to_string()).collect()
}

/// An editor double: it knows `<Esc>` and `<CR>`, and the commands `dd`
/// (delete the first line) and `x` (delete the first character).
fn run(mut session: Session, errmsg: Option<&str>) -> (Vec<Request>, Option<Result<Evaluation, EngineError>>) {
    let mut buffer: Vec<String> = Vec::new();
    let mut seen = Vec::new();
    while let Some(request) = session.request() {
        let reply = match &request {
            Request::CreateBuffer | Request::ShowBuffer | Request::Quit => Reply::Done,
            Request::DecodeKeys(k) => Reply::Decoded(k.replace("<Esc>", "\u{1b}").replace("<CR>", "\r")),
            Request::SetLines(ls) => {
                buffer = ls.clone();
                Reply::Done
            }
            Request::FeedKeys(k) => {
                for c in k.split('\u{1b}') {
                    if c == "dd" && !buffer.is_empty() {
                        buffer.remove(0);
                    } else if c == "x" && !buffer.is_empty() {
                        buffer[0].remove(0);
                    }
                }
                Reply::Done
            }
            Request::ReadError => Reply::ErrorMessage(errmsg.map(|s| s.to_string())),
            Request::ReadLines => Reply::Lines(buffer.clone()),
        };
        seen.push(request);
        session.advance(reply);
    }
    (seen, session.outcome())
}

#[test]
fn session_follows_the_protocol() {
    let session = Session::new(strings(&["a", "b", "c"]), "dd".to_string());
    let (requests, outcome) = run(session, Some(""));
    let kinds: Vec<&str> = requests
        .iter()
        .map(|r| match r {
            Request::CreateBuffer => "create",
            Request::ShowBuffer => "show",
            Request::DecodeKeys(_) => "decode",
            Request::SetLines(_) => "set",
            Request::FeedKeys(_) => "feed",
            Request::ReadError => "error",
            Request::ReadLines => "lines",
            Request::Quit => "quit",
        })
        .collect();
    assert_eq!(kinds, vec!["create", "show", "decode", "set", "feed", "error", "lines", "quit"]);
    let ev = outcome.unwrap().ok().unwrap();
    assert_eq!(ev.lines, strings(&["b", "c"]));
    assert_eq!(ev.score, 2);
    assert_eq!(ev.engine_error, Some(String::new()));
}

#[test]
fn score_counts_decoded_keys() {
    let session = Session::new(strings(&["a", "b"]), "<Esc>dd".to_string());
    let (_, outcome) = run(session, None);
    let ev = outcome.unwrap().ok().unwrap();
    assert_eq!(ev.score, 3);
    assert_ne!(ev.score, "<Esc>dd".len());
    assert_eq!(ev.lines, strings(&["b"]));
    assert_eq!(ev.engine_error, None);
}

#[test]
fn score_counts_bytes_of_decoded_keys() {
    let session = Session::new(strings(&["a"]), "é<CR>".to_string());
    let (_, outcome) = run(session, None);
    let ev = outcome.unwrap().ok().unwrap();
    assert_eq!(ev.score, 3);
    assert_eq!(ev.lines, strings(&["a"]));
}

#[test]
fn fault_goes_to_quit_then_fails() {
    let mut s = Session::new(strings(&["a"]), "x".to_string());
    s.advance(Reply::Done);
    s.advance(Reply::Fault("broken pipe".to_string()));
    assert_eq!(s.stage, Stage::Quit);
    assert!(matches!(s.request(), Some(Request::Quit)));
    s.advance(Reply::Fault("gone".to_string()));
    assert_eq!(s.stage, Stage::Finished);
    assert!(s.request().is_none());
    match s.outcome() {
        Some(Err(EngineError::Transport(m))) => assert_eq!(m, "broken pipe"),
        _ => panic!("expected a transport error"),
    }
}

#[test]
fn unexpected_reply_fails() {
    let mut s = Session::new(strings(&["a"]), "x".to_string());
    s.advance(Reply::Lines(Vec::new()));
    assert_eq!(s.stage, Stage::Quit);
    s.advance(Reply::Done);
    assert!(matches!(s.outcome(), Some(Err(EngineError::UnexpectedReply))));
}

#[test]
fn unfinished_session_has_no_outcome() {
    let s = Session::new(strings(&["a"]), "x".to_string());
    assert!(s.outcome().is_none());
}

#[test]
fn verdict_equality_is_exact() {
    let expected = strings(&["foo", "bar"]);
    match decide(&expected, strings(&["foo", "bar "]), 4, None) {
        Verdict::Fail(lines, err) => {
            assert_eq!(lines, strings(&["foo", "bar "]));
            assert_eq!(err, None);
        }
        Verdict::Pass(_) => panic!("trailing space must not pass"),
    }
    assert!(matches!(decide(&expected, strings(&["foo", "bar"]), 4, None), Verdict::Pass(4)));
    assert!(matches!(decide(&expected, strings(&["foo"]), 4, None), Verdict::Fail(..)));
}

#[test]
fn failure_carries_the_error_as_it_came() {
    let expected = strings(&["a"]);
    match decide(&expected, strings(&["b"]), 1, Some("E21: Cannot make changes".to_string())) {
        Verdict::Fail(_, err) => assert_eq!(err, Some("E21: Cannot make changes".to_string())),
        Verdict::Pass(_) => panic!(),
    }
    match decide(&expected, strings(&["b"]), 1, Some(String::new())) {
        Verdict::Fail(lines, err) => {
            assert_eq!(lines, strings(&["b"]));
            assert_eq!(err, Some(String::new()));
        }
        Verdict::Pass(_) => panic!(),
    }
    assert!(matches!(decide(&expected, strings(&["a"]), 1, Some("E1".to_string())), Verdict::Pass(1)));
}

#[test]
fn only_a_real_error_is_reported() {
    assert_eq!(reported_error(Some("E21".to_string())), Some("E21".to_string()));
    assert_eq!(reported_error(Some(String::new())), None);
    assert_eq!(reported_error(None), None);
}

#[test]
fn record_policy() {
    let pass = Verdict::Pass(3);
    let fail = Verdict::Fail(Vec::new(), None);
    assert!(should_record(&pass, false, false));
    assert!(!should_record(&pass, true, false));
    assert!(!should_record(&pass, false, true));
    assert!(!should_record(&fail, false, false));
}

#[test]
fn participation_arguments() {
    let p = participation(&strings(&["`dd`"])).unwrap();
    assert_eq!((p.challenge, p.keys.as_str(), p.dry_run), (None, "dd", false));
    let p = participation(&strings(&["try", "dd"])).unwrap();
    assert_eq!((p.challenge, p.keys.as_str(), p.dry_run), (None, "dd", true));
    let p = participation(&strings(&["`1f23cd`", "dd"])).unwrap();
    assert_eq!((p.challenge, p.keys.as_str(), p.dry_run), (Some("`1f23cd`".to_string()), "dd", false));
    let p = participation(&strings(&["try", "1f23cd", "`x`"])).unwrap();
    assert_eq!((p.challenge, p.keys.as_str(), p.dry_run), (Some("1f23cd".to_string()), "x", true));
    assert!(participation(&strings(&["1f23cd", "dd", "x"])).is_none());
    assert!(participation(&Vec::new()).is_none());
    assert!(participation(&strings(&["a", "b", "c", "d"])).is_none());
}

#[test]
fn identity_from_digest() {
    assert_eq!(challenge_id(&vec![0x1f, 0x23, 0xcd, 0x31]), "1f23cd");
    assert_eq!(challenge_id(&vec![0x00, 0x0a, 0xff]), "000aff");
}

const DEFINITION: &str = "register\n\n# Delete first line\n\nInput:\n```\na\nb\nc\n```\nOutput:\n```\nb\nc\n```";

#[test]
fn register_derives_identity_from_sha1() {
    let c = register(DEFINITION, "alice", "2021-03-04T05:06:07Z", 1614834367).ok().unwrap();
    assert_eq!(c.id, "1f23cd");
    assert_eq!(c.id.len(), 6);
    assert_eq!(Challenge::resolve_id(&c.id).ok(), Some("1f23cd".to_string()));
    assert_eq!(c.title, "Delete first line");
    assert_eq!(c.description, Some("Input:".to_string()));
    assert_eq!(c.timestamp, 1614834367);
    assert!(c.scores.is_empty());
    assert_eq!(register("register\n", "alice", "now", 0).err(), Some(ParseError::MissingTitle));
}

#[test]
fn end_to_end() {
    let mut c = register(DEFINITION, "alice", "2021-03-04T05:06:07Z", 1614834367).ok().unwrap();
    assert_eq!(c.input.content, strings(&["a", "b", "c"]));
    assert_eq!(c.output.content, strings(&["b", "c"]));

    let p = participation(&strings(&["`dd`"])).unwrap();
    let session = Session::new(c.input.content.clone(), p.keys.clone());
    let (_, outcome) = run(session, Some(""));
    let ev = outcome.unwrap().ok().unwrap();
    let verdict = decide(&c.output.content, ev.lines, ev.score, ev.engine_error);
    assert!(matches!(verdict, Verdict::Pass(2)));
    assert!(should_record(&verdict, p.dry_run, false));
    if let Verdict::Pass(score) = verdict {
        c.add_submission("bob".to_string(), p.keys.clone(), score);
    }
    let stored = Challenge::last(vec![Ok(c)]).unwrap();
    let mut listed = stored;
    listed.sort_by_score();
    assert_eq!(listed.scores.len(), 1);
    assert_eq!(listed.scores[0].author, "bob");
    assert_eq!(listed.scores[0].keys, "dd");
    assert_eq!(listed.scores[0].score, 2);
}
