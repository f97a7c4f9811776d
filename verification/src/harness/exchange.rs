//! A message from the user and all that comes of it: the model's reply, the
//! calls it makes, and what it is told of them, until it replies with text
//! alone.
use vstd::prelude::*;

use super::agent::{Round, REPEATED};
use crate::chat::json::json_text;
use crate::chat::ToolCall;
use crate::text::{own, texts};

verus! {

/// What an exchange waits for.
#[derive(Debug)]
pub enum Stage {
    /// The model's reply.
    Replying,
    /// The call at hand, read.
    Reading,
    /// Whether to go on, once the call has been shown.
    Announced(ToolCall),
    /// What the tool returns.
    Running,
    /// Whether to go on, once the output has been shown.
    Showing(String),
    /// Nothing: it is over.
    Over,
}

/// What is heard of the world outside.
#[derive(Debug)]
pub enum Heard {
    /// The reply has ended, with these calls.
    Replied(Vec<String>),
    /// The call as read, or what the model gets back where it cannot be.
    Read(Result<ToolCall, String>),
    /// Whether to go on after what was shown.
    Shown(bool),
    /// What the tool returned.
    Ran(String),
}

/// What is to be done next.
#[derive(Debug)]
pub enum Next {
    /// Read a call as the model wrote it.
    Read(String),
    /// Show the call that is about to run.
    Announce,
    /// Run a call.
    Run(ToolCall),
    /// Show what the model gets back for a call.
    Show(String),
    /// Give the model what it gets back, and have it reply.
    Respond(Vec<String>),
    /// Nothing: the exchange is over.
    Over,
}

/// What an exchange waits for, with texts for strings.
pub enum Phase {
    Replying,
    Reading,
    Announced(ToolCall),
    Running,
    Showing(Seq<char>),
    Over,
}

/// What is to be done next, with texts for strings.
pub enum Task {
    Read(Seq<char>),
    Announce,
    Run(ToolCall),
    Show(Seq<char>),
    Respond(Seq<Seq<char>>),
    Over,
}

/// What is heard, with texts for strings.
pub enum News {
    Replied(Seq<Seq<char>>),
    Read(Result<ToolCall, Seq<char>>),
    Shown(bool),
    Ran(Seq<char>),
}

/// Where an exchange stands: the calls of the last reply, what the model gets
/// back for the first of them, and the last call run, as its name and
/// arguments.
pub struct Standing {
    pub phase: Phase,
    pub calls: Seq<Seq<char>>,
    pub outputs: Seq<Seq<char>>,
    pub ran: Option<(Seq<char>, Seq<char>)>,
}

/// A call as its name and arguments.
pub open spec fn key(call: ToolCall) -> (Seq<char>, Seq<char>) {
    (call.name@, json_text(call.arguments))
}

/// Whether an exchange waits for what is heard.
pub open spec fn awaited(phase: Phase, news: News) -> bool {
    match (phase, news) {
        (Phase::Replying, News::Replied(_)) => true,
        (Phase::Reading, News::Read(_)) => true,
        (Phase::Announced(_), News::Shown(_)) => true,
        (Phase::Running, News::Ran(_)) => true,
        (Phase::Showing(_), News::Shown(_)) => true,
        _ => false,
    }
}

/// Where an exchange stands once it hears something, and what is to be done
/// next.
pub open spec fn advanced(s: Standing, news: News) -> (Standing, Task) {
    match (s.phase, news) {
        (Phase::Replying, News::Replied(calls)) => if calls.len() == 0 {
            (Standing { phase: Phase::Over, calls, outputs: Seq::empty(), ..s }, Task::Over)
        } else {
            (
                Standing { phase: Phase::Reading, calls, outputs: Seq::empty(), ..s },
                Task::Read(calls[0]),
            )
        },
        (Phase::Reading, News::Read(Ok(call))) => (
            Standing { phase: Phase::Announced(call), ..s },
            Task::Announce,
        ),
        (Phase::Reading, News::Read(Err(m))) => (
            Standing { phase: Phase::Showing(m), ..s },
            Task::Show(m),
        ),
        (Phase::Announced(call), News::Shown(true)) => if s.ran == Some(key(call)) {
            (Standing { phase: Phase::Showing(REPEATED@), ..s }, Task::Show(REPEATED@))
        } else {
            (Standing { phase: Phase::Running, ran: Some(key(call)), ..s }, Task::Run(call))
        },
        (Phase::Running, News::Ran(out)) => (
            Standing { phase: Phase::Showing(out), ..s },
            Task::Show(out),
        ),
        (Phase::Showing(out), News::Shown(true)) => {
            let outputs = s.outputs.push(out);
            if outputs.len() >= s.calls.len() {
                (Standing { phase: Phase::Replying, outputs, ..s }, Task::Respond(outputs))
            } else {
                (
                    Standing { phase: Phase::Reading, outputs, ..s },
                    Task::Read(s.calls[outputs.len() as int]),
                )
            }
        },
        _ => (Standing { phase: Phase::Over, ..s }, Task::Over),
    }
}

/// An exchange under way.
#[derive(Debug)]
pub struct Exchange {
    pub stage: Stage,
    pub calls: Vec<String>,
    pub outputs: Vec<String>,
    pub round: Round,
}

impl Stage {
    /// What is waited for.
    pub open spec fn view(&self) -> Phase {
        match self {
            Stage::Replying => Phase::Replying,
            Stage::Reading => Phase::Reading,
            Stage::Announced(call) => Phase::Announced(*call),
            Stage::Running => Phase::Running,
            Stage::Showing(s) => Phase::Showing(s@),
            Stage::Over => Phase::Over,
        }
    }
}

impl Heard {
    /// What is heard.
    pub open spec fn view(&self) -> News {
        match self {
            Heard::Replied(calls) => News::Replied(texts(calls@)),
            Heard::Read(Ok(call)) => News::Read(Ok(*call)),
            Heard::Read(Err(m)) => News::Read(Err(m@)),
            Heard::Shown(on) => News::Shown(*on),
            Heard::Ran(out) => News::Ran(out@),
        }
    }
}

impl Next {
    /// What is to be done.
    pub open spec fn view(&self) -> Task {
        match self {
            Next::Read(text) => Task::Read(text@),
            Next::Announce => Task::Announce,
            Next::Run(call) => Task::Run(*call),
            Next::Show(text) => Task::Show(text@),
            Next::Respond(outputs) => Task::Respond(texts(outputs@)),
            Next::Over => Task::Over,
        }
    }
}

impl Exchange {
    /// Where the exchange stands.
    pub open spec fn view(&self) -> Standing {
        Standing {
            phase: self.stage@,
            calls: texts(self.calls@),
            outputs: texts(self.outputs@),
            ran: self.round.ran(),
        }
    }

    /// An exchange whose message the model is about to reply to.
    pub fn new() -> (e: Self)
        ensures
            e@ == (Standing {
                phase: Phase::Replying,
                calls: Seq::empty(),
                outputs: Seq::empty(),
                ran: None,
            }),
    {
        let e = Exchange {
            stage: Stage::Replying,
            calls: Vec::new(),
            outputs: Vec::new(),
            round: Round::new(),
        };
        assert(texts(e.calls@) =~= Seq::<Seq<char>>::empty());
        assert(texts(e.outputs@) =~= Seq::<Seq<char>>::empty());
        e
    }

    /// The call that is about to run, where one has been announced.
    pub fn call(&self) -> (r: Option<&ToolCall>)
        ensures
            match self.stage {
                Stage::Announced(call) => r == Some(&call),
                _ => r is None,
            },
    {
        match &self.stage {
            Stage::Announced(call) => Some(call),
            _ => None,
        }
    }

    /// Hears what came of the last step, and says what is to be done next: the
    /// calls of a reply are read, shown and run in turn, unless one cannot be
    /// read or is the same as the last one run, and what each returned is
    /// shown, and given to the model together at the end.
    pub fn step(self, heard: Heard) -> (r: (Self, Next))
        requires
            awaited(self@.phase, heard@),
        ensures
            (r.0@, r.1@) == advanced(self@, heard@),
    {
        let Exchange { stage, calls, outputs, mut round } = self;
        match (stage, heard) {
            (Stage::Replying, Heard::Replied(calls)) => {
                let outputs: Vec<String> = Vec::new();
                assert(texts(outputs@) =~= Seq::<Seq<char>>::empty());
                if calls.len() == 0 {
                    return (Exchange { stage: Stage::Over, calls, outputs, round }, Next::Over);
                }
                let first = own(calls[0].as_str());
                (Exchange { stage: Stage::Reading, calls, outputs, round }, Next::Read(first))
            },
            (Stage::Reading, Heard::Read(Ok(call))) => (
                Exchange { stage: Stage::Announced(call), calls, outputs, round },
                Next::Announce,
            ),
            (Stage::Reading, Heard::Read(Err(m))) => {
                let shown = own(m.as_str());
                (Exchange { stage: Stage::Showing(m), calls, outputs, round }, Next::Show(shown))
            },
            (Stage::Announced(call), Heard::Shown(true)) => match round.consider(&call) {
                Some(m) => {
                    let shown = own(m.as_str());
                    (
                        Exchange { stage: Stage::Showing(m), calls, outputs, round },
                        Next::Show(shown),
                    )
                },
                None => (
                    Exchange { stage: Stage::Running, calls, outputs, round },
                    Next::Run(call),
                ),
            },
            (Stage::Running, Heard::Ran(out)) => {
                let shown = own(out.as_str());
                (Exchange { stage: Stage::Showing(out), calls, outputs, round }, Next::Show(shown))
            },
            (Stage::Showing(out), Heard::Shown(true)) => {
                let ghost before = outputs@;
                let ghost last = out@;
                let mut outputs = outputs;
                outputs.push(out);
                assert(texts(outputs@) =~= texts(before).push(last));
                let n: usize = outputs.len();
                if n >= calls.len() {
                    let given = copies(outputs.as_slice());
                    (
                        Exchange { stage: Stage::Replying, calls, outputs, round },
                        Next::Respond(given),
                    )
                } else {
                    let text = own(calls[n].as_str());
                    (Exchange { stage: Stage::Reading, calls, outputs, round }, Next::Read(text))
                }
            },
            (_, _) => (Exchange { stage: Stage::Over, calls, outputs, round }, Next::Over),
        }
    }
}

/// The same texts again.
fn copies(list: &[String]) -> (out: Vec<String>)
    ensures
        texts(out@) == texts(list@),
{
    let mut out: Vec<String> = Vec::new();
    let n: usize = list.len();
    for i in 0..n
        invariant
            n == list@.len(),
            out@.len() == i,
            forall|k: int| 0 <= k < i ==> (#[trigger] out@[k])@ == list@[k]@,
    {
        out.push(own(list[i].as_str()));
    }
    assert(texts(out@) =~= texts(list@));
    out
}

/// Where an exchange stands once it has heard some things in order.
pub open spec fn heard_all(s: Standing, news: Seq<News>) -> Standing
    decreases news.len(),
{
    if news.len() == 0 {
        s
    } else {
        advanced(heard_all(s, news.drop_last()), news.last()).0
    }
}

/// What is to be done after the last of some things heard in order.
pub open spec fn told(s: Standing, news: Seq<News>) -> Task {
    advanced(heard_all(s, news.drop_last()), news.last()).1
}

/// No call runs right after one of the same name and arguments: between two
/// calls that run, with none run between them, something differs.
pub proof fn law_no_call_runs_twice_in_a_row(
    s: Standing,
    news: Seq<News>,
    i: int,
    j: int,
    a: ToolCall,
    b: ToolCall,
)
    requires
        0 < i < j <= news.len(),
        told(s, news.take(i)) == Task::Run(a),
        told(s, news.take(j)) == Task::Run(b),
        forall|k: int| i < k < j ==> !(#[trigger] told(s, news.take(k)) is Run),
    ensures
        key(a) != key(b),
{
    lemma_last_run_stays(s, news, i, j - 1, a);
    assert(news.take(j).drop_last() =~= news.take(j - 1));
}

/// The last call run is remembered until another one runs.
proof fn lemma_last_run_stays(s: Standing, news: Seq<News>, i: int, j: int, a: ToolCall)
    requires
        0 < i <= j <= news.len(),
        told(s, news.take(i)) == Task::Run(a),
        forall|k: int| i < k <= j ==> !(#[trigger] told(s, news.take(k)) is Run),
    ensures
        heard_all(s, news.take(j)).ran == Some(key(a)),
    decreases j - i,
{
    assert(news.take(j).drop_last() =~= news.take(j - 1));
    if i < j {
        lemma_last_run_stays(s, news, i, j - 1, a);
        assert(!(told(s, news.take(j)) is Run));
    }
}

/// Whether what the model gets back so far belongs to calls of its last reply,
/// with one of them still at hand while it is read, shown or run.
pub open spec fn orderly(s: Standing) -> bool {
    match s.phase {
        Phase::Replying => true,
        Phase::Over => true,
        _ => s.outputs.len() < s.calls.len(),
    }
}

/// Every call of a reply is answered: what the model is given to respond to
/// holds one output for each of its calls, in their order, and the outputs
/// are those that were shown.
pub proof fn law_every_call_is_answered(s: Standing, news: News)
    requires
        orderly(s),
        awaited(s.phase, news),
    ensures
        orderly(advanced(s, news).0),
        advanced(s, news).1 matches Task::Respond(outputs) ==> outputs.len() == s.calls.len()
            && s.phase == Phase::Showing(outputs.last()) && outputs.drop_last() == s.outputs,
        advanced(s, news).1 matches Task::Show(out) ==> advanced(s, news).0.phase
            == Phase::Showing(out),
{
    if let Phase::Showing(out) = s.phase {
        assert(s.outputs.push(out).drop_last() =~= s.outputs);
    }
}

/// An exchange in which every step says to go on ends only with a reply that
/// makes no calls.
pub proof fn law_ends_with_text_alone(s: Standing, news: News)
    requires
        awaited(s.phase, news),
        news != News::Shown(false),
    ensures
        advanced(s, news).1 is Over <==> news == News::Replied(Seq::empty()),
{
    if let News::Replied(calls) = news {
        if calls.len() == 0 {
            assert(calls =~= Seq::empty());
        }
    }
}

} // verus!
