//! One evaluation session with a text editor: the requests it makes, in order,
//! and what it concludes from the replies. Whoever runs the editor performs
//! each request and hands the reply back.

use vstd::prelude::*;
use vstd::utf8::encode_utf8;

use crate::text::views;

verus! {

/// A request of the session to the editor.
pub enum Request {
    /// Create a scratch buffer that no file backs.
    CreateBuffer,
    /// Make that buffer the one of the editor's current window.
    ShowBuffer,
    /// Translate keys from their `<Esc>`-style notation into the editor's input encoding.
    DecodeKeys(String),
    /// Replace all lines of the buffer with these.
    SetLines(Vec<String>),
    /// Feed these decoded keys as typed, in normal, insert and visual mode,
    /// returning only once all of them are consumed.
    FeedKeys(String),
    /// Read the editor's last error message.
    ReadError,
    /// Read all lines of the buffer.
    ReadLines,
    /// Quit the editor without saving.
    Quit,
}

/// The editor's answer to the last request.
pub enum Reply {
    /// The request was carried out and gives nothing back.
    Done,
    /// The decoded keys.
    Decoded(String),
    /// The error message, when the editor holds one as a string.
    ErrorMessage(Option<String>),
    /// The lines of the buffer.
    Lines(Vec<String>),
    /// The request failed in transport.
    Fault(String),
}

/// Which request a session waits on.
#[derive(Clone, Copy, Debug, PartialEq, Eq, Structural)]
pub enum Stage {
    CreateBuffer,
    ShowBuffer,
    DecodeKeys,
    SetLines,
    FeedKeys,
    ReadError,
    ReadLines,
    Quit,
    Finished,
}

/// Why an evaluation could not be carried out.
pub enum EngineError {
    /// The editor could not be started.
    Spawn(String),
    /// A request failed in transport.
    Transport(String),
    /// A reply did not fit the request.
    UnexpectedReply,
    /// The editor did not finish in time.
    Timeout,
}

/// What one evaluation gives: the buffer's lines after the keys, the score,
/// and the editor's error message if it holds one.
pub struct Evaluation {
    pub lines: Vec<String>,
    pub score: usize,
    pub engine_error: Option<String>,
}

/// The score of decoded keys: their length in the editor's encoding, in bytes.
pub open spec fn score_of(decoded: Seq<char>) -> nat {
    encode_utf8(decoded).len()
}

/// The stage after `s` when its request succeeds.
pub open spec fn next_stage(s: Stage) -> Stage {
    match s {
        Stage::CreateBuffer => Stage::ShowBuffer,
        Stage::ShowBuffer => Stage::DecodeKeys,
        Stage::DecodeKeys => Stage::SetLines,
        Stage::SetLines => Stage::FeedKeys,
        Stage::FeedKeys => Stage::ReadError,
        Stage::ReadError => Stage::ReadLines,
        Stage::ReadLines => Stage::Quit,
        Stage::Quit => Stage::Finished,
        Stage::Finished => Stage::Finished,
    }
}

/// How many requests a session at stage `s` still makes.
pub open spec fn requests_left(s: Stage) -> nat {
    match s {
        Stage::CreateBuffer => 8,
        Stage::ShowBuffer => 7,
        Stage::DecodeKeys => 6,
        Stage::SetLines => 5,
        Stage::FeedKeys => 4,
        Stage::ReadError => 3,
        Stage::ReadLines => 2,
        Stage::Quit => 1,
        Stage::Finished => 0,
    }
}

/// An evaluation session: the input lines and raw keys it was given, and what
/// the replies so far brought.
pub struct Session {
    pub stage: Stage,
    pub input: Vec<String>,
    pub keys: String,
    pub decoded: String,
    pub engine_error: Option<String>,
    pub lines: Vec<String>,
    pub fault: Option<EngineError>,
}

/// The session after `reply` to its request. A fault or a reply that does not
/// fit ends the work and goes to quitting; whatever answers the quit request,
/// the session is then finished.
pub open spec fn step(s: Session, reply: Reply) -> Session {
    match s.stage {
        Stage::Finished => s,
        Stage::Quit => Session { stage: Stage::Finished, ..s },
        _ => match reply {
            Reply::Fault(m) => Session {
                stage: Stage::Quit,
                fault: Some(EngineError::Transport(m)),
                ..s
            },
            Reply::Decoded(d) => if s.stage == Stage::DecodeKeys {
                Session { stage: Stage::SetLines, decoded: d, ..s }
            } else {
                Session { stage: Stage::Quit, fault: Some(EngineError::UnexpectedReply), ..s }
            },
            Reply::ErrorMessage(e) => if s.stage == Stage::ReadError {
                Session { stage: Stage::ReadLines, engine_error: e, ..s }
            } else {
                Session { stage: Stage::Quit, fault: Some(EngineError::UnexpectedReply), ..s }
            },
            Reply::Lines(ls) => if s.stage == Stage::ReadLines {
                Session { stage: Stage::Quit, lines: ls, ..s }
            } else {
                Session { stage: Stage::Quit, fault: Some(EngineError::UnexpectedReply), ..s }
            },
            Reply::Done => if s.stage == Stage::CreateBuffer || s.stage == Stage::ShowBuffer
                || s.stage == Stage::SetLines || s.stage == Stage::FeedKeys {
                Session { stage: next_stage(s.stage), ..s }
            } else {
                Session { stage: Stage::Quit, fault: Some(EngineError::UnexpectedReply), ..s }
            },
        },
    }
}

impl Session {
    /// A session that will apply `keys` to a buffer holding `input`.
    pub fn new(input: Vec<String>, keys: String) -> (r: Self)
        ensures
            r.stage == Stage::CreateBuffer,
            r.input == input,
            r.keys == keys,
            r.decoded@.len() == 0,
            r.engine_error is None,
            r.lines@.len() == 0,
            r.fault is None,
    {
        Session {
            stage: Stage::CreateBuffer,
            input,
            keys,
            decoded: String::new(),
            engine_error: None,
            lines: Vec::new(),
            fault: None,
        }
    }

    /// The request to perform next; `None` once the session is finished.
    pub fn request(&self) -> (r: Option<Request>)
        ensures
            match self.stage {
                Stage::CreateBuffer => r matches Some(Request::CreateBuffer),
                Stage::ShowBuffer => r matches Some(Request::ShowBuffer),
                Stage::DecodeKeys => r matches Some(Request::DecodeKeys(k)) && k@ == self.keys@,
                Stage::SetLines => r matches Some(Request::SetLines(ls)) && views(ls@) == views(
                    self.input@,
                ),
                Stage::FeedKeys => r matches Some(Request::FeedKeys(k)) && k@ == self.decoded@,
                Stage::ReadError => r matches Some(Request::ReadError),
                Stage::ReadLines => r matches Some(Request::ReadLines),
                Stage::Quit => r matches Some(Request::Quit),
                Stage::Finished => r is None,
            },
    {
        match self.stage {
            Stage::CreateBuffer => Some(Request::CreateBuffer),
            Stage::ShowBuffer => Some(Request::ShowBuffer),
            Stage::DecodeKeys => Some(Request::DecodeKeys(self.keys.clone())),
            Stage::SetLines => {
                let lines = clone_lines(&self.input);
                Some(Request::SetLines(lines))
            },
            Stage::FeedKeys => Some(Request::FeedKeys(self.decoded.clone())),
            Stage::ReadError => Some(Request::ReadError),
            Stage::ReadLines => Some(Request::ReadLines),
            Stage::Quit => Some(Request::Quit),
            Stage::Finished => None,
        }
    }

    /// Takes the editor's reply to the current request (see `step`).
    pub fn advance(&mut self, reply: Reply)
        ensures
            *final(self) == step(*old(self), reply),
    {
        match self.stage {
            Stage::Finished => {},
            Stage::Quit => {
                self.stage = Stage::Finished;
            },
            _ => match reply {
                Reply::Fault(m) => {
                    self.stage = Stage::Quit;
                    self.fault = Some(EngineError::Transport(m));
                },
                Reply::Decoded(d) => {
                    if self.stage == Stage::DecodeKeys {
                        self.stage = Stage::SetLines;
                        self.decoded = d;
                    } else {
                        self.stage = Stage::Quit;
                        self.fault = Some(EngineError::UnexpectedReply);
                    }
                },
                Reply::ErrorMessage(e) => {
                    if self.stage == Stage::ReadError {
                        self.stage = Stage::ReadLines;
                        self.engine_error = e;
                    } else {
                        self.stage = Stage::Quit;
                        self.fault = Some(EngineError::UnexpectedReply);
                    }
                },
                Reply::Lines(ls) => {
                    if self.stage == Stage::ReadLines {
                        self.stage = Stage::Quit;
                        self.lines = ls;
                    } else {
                        self.stage = Stage::Quit;
                        self.fault = Some(EngineError::UnexpectedReply);
                    }
                },
                Reply::Done => {
                    if self.stage == Stage::CreateBuffer {
                        self.stage = Stage::ShowBuffer;
                    } else if self.stage == Stage::ShowBuffer {
                        self.stage = Stage::DecodeKeys;
                    } else if self.stage == Stage::SetLines {
                        self.stage = Stage::FeedKeys;
                    } else if self.stage == Stage::FeedKeys {
                        self.stage = Stage::ReadError;
                    } else {
                        self.stage = Stage::Quit;
                        self.fault = Some(EngineError::UnexpectedReply);
                    }
                },
            },
        }
    }

    /// What the session concluded, once it is finished: the fault that ended
    /// it, or the lines read back, the score of the decoded keys and the error
    /// message read back.
    pub fn outcome(self) -> (r: Option<Result<Evaluation, EngineError>>)
        ensures
            self.stage != Stage::Finished ==> r is None,
            self.stage == Stage::Finished ==> match self.fault {
                Some(e) => r == Some(Err::<Evaluation, EngineError>(e)),
                None => r matches Some(Ok(ev)) && ev.lines == self.lines && ev.score
                    == score_of(self.decoded@) && ev.engine_error == self.engine_error,
            },
    {
        if self.stage != Stage::Finished {
            return None;
        }
        match self.fault {
            Some(e) => Some(Err(e)),
            None => {
                let score = self.decoded.as_str().as_bytes().len();
                Some(Ok(Evaluation { lines: self.lines, score, engine_error: self.engine_error }))
            },
        }
    }
}

/// A copy of lines.
fn clone_lines(v: &Vec<String>) -> (r: Vec<String>)
    ensures
        views(r@) == views(v@),
{
    let mut r: Vec<String> = Vec::new();
    let mut i: usize = 0;
    while i < v.len()
        invariant
            i <= v@.len(),
            views(r@) == views(v@).take(i as int),
        decreases v@.len() - i,
    {
        let ghost before = r@;
        r.push(v[i].clone());
        assert(views(r@) == views(before).push(v@[i as int]@));
        assert(views(v@).take(i + 1) == views(v@).take(i as int).push(v@[i as int]@));
        i = i + 1;
    }
    assert(views(v@).take(v@.len() as int) == views(v@));
    r
}

/// Each reply moves an unfinished session one stage on at least, so a session
/// makes at most eight requests; a session that has not quit yet still asks to quit.
pub proof fn lemma_session_progress(s: Session, reply: Reply)
    ensures
        s.stage != Stage::Finished ==> requests_left(step(s, reply).stage) < requests_left(
            s.stage,
        ),
        s.stage != Stage::Finished && s.stage != Stage::Quit ==> step(s, reply).stage
            != Stage::Finished,
{
}

/// A fault in any request before quitting ends the work: the next request is
/// to quit, and the outcome will be that fault.
pub proof fn lemma_fault_then_quit(s: Session, m: String)
    requires
        s.stage != Stage::Finished,
        s.stage != Stage::Quit,
    ensures
        step(s, Reply::Fault(m)).stage == Stage::Quit,
        step(s, Reply::Fault(m)).fault == Some(EngineError::Transport(m)),
        step(step(s, Reply::Fault(m)), Reply::Done).stage == Stage::Finished,
        step(step(s, Reply::Fault(m)), Reply::Done).fault == Some(EngineError::Transport(m)),
{
}

} // verus!
