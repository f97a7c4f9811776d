//! Which of the calls that the model makes are run.
use vstd::prelude::*;

use super::report::Stats;
use crate::chat::call::{block, holds, starts};
use crate::chat::json::{json_text, write_value};
use crate::chat::{capped, Chat, Chunk, ToolCall};
use crate::model::LanguageModel;
use crate::sampler::Sample;
use crate::text::{own, same_text, trim};

verus! {

/// What the model gets back when it makes the same call twice in a row,
/// instead of running it again: nothing ran in between to change its output,
/// and small models otherwise tend to repeat a call over and over.
pub const REPEATED: &'static str =
    "error: you just ran this, and its output is above. Don't run it again: use that output, run something else, or reply to the user.";

/// What happens during a turn, as it happens.
pub enum Event<'a> {
    /// Part of the model's thought, before it replies.
    Thought(&'a str),
    /// Text of the reply.
    Text(&'a str),
    /// A tool is about to run: its name and how it was called.
    Call { name: &'a str, detail: &'a str },
    /// What the tool returned, as the model sees it.
    Output(&'a str),
}

/// The event for a piece of the model's reply.
pub fn event<'a>(chunk: Chunk<'a>) -> (e: Event<'a>)
    ensures
        e == match chunk {
            Chunk::Thought(text) => Event::Thought(text),
            Chunk::Text(text) => Event::Text(text),
        },
{
    match chunk {
        Chunk::Thought(text) => Event::Thought(text),
        Chunk::Text(text) => Event::Text(text),
    }
}

/// The loop around a [`Chat`] that runs the tools the model calls and feeds
/// the results back, until the model replies with text alone.
pub struct Harness<M: LanguageModel, S: Sample> {
    pub chat: Chat<M, S>,
    pub calls: usize,
    pub tool_nanos: u64,
}

/// The calls of a turn so far: the last one run, as its name and arguments.
#[derive(Debug)]
pub struct Round {
    pub last: Option<(String, String)>,
}

impl Round {
    /// The last call run.
    pub open spec fn ran(self) -> Option<(Seq<char>, Seq<char>)> {
        match self.last {
            Some(call) => Some((call.0@, call.1@)),
            None => None,
        }
    }

    /// A turn in which no call has been run.
    pub fn new() -> (r: Self)
        ensures
            r.ran() is None,
    {
        Round { last: None }
    }

    /// Reads a call as the model wrote it. One that cannot be read is not run:
    /// what the model gets back says what is wrong with it.
    pub fn read(text: &str, json: impl FnOnce(&str) -> Result<ToolCall, String>) -> (r: Result<
        ToolCall,
        String,
    >)
        requires
            forall|s: &str| s@ == trim(text@) ==> #[trigger] call_requires(json, (s,)),
        ensures
            if starts(trim(text@), "{"@) {
                exists|s: &str, out: Result<ToolCall, String>|
                    s@ == trim(text@) && #[trigger] call_ensures(json, (s,), out) && match out {
                        Ok(call) => r == Ok::<ToolCall, String>(call),
                        Err(e) => r matches Err(m) && m@ == "error: malformed tool call: "@ + e@,
                    }
            } else {
                match block(trim(text@)) {
                    Ok((name, pairs)) => r matches Ok(call) && call.name@ == name && holds(
                        call.arguments,
                        pairs,
                    ),
                    Err(e) => r matches Err(m) && m@ == "error: malformed tool call: "@ + e.text(),
                }
            },
    {
        match ToolCall::parse(text, json) {
            Ok(call) => Ok(call),
            Err(e) => {
                let mut m = own("error: malformed tool call: ");
                m.append(&e.message());
                Err(m)
            },
        }
    }

    /// Whether a call is to be run, and notes it if so: unless it is the same
    /// as the last one run, and then what the model gets back instead.
    pub fn consider(&mut self, call: &ToolCall) -> (r: Option<String>)
        ensures
            ({
                let this = (call.name@, json_text(call.arguments));
                if old(self).ran() == Some(this) {
                    final(self).ran() == old(self).ran() && (r matches Some(s) && s@ == REPEATED@)
                } else {
                    final(self).ran() == Some(this) && r is None
                }
            }),
    {
        let arguments = write_value(&call.arguments);
        let same = match &self.last {
            Some(last) => same_text(&last.0, &call.name) && same_text(&last.1, &arguments),
            None => false,
        };
        if same {
            Some(own(REPEATED))
        } else {
            self.last = Some((own(call.name.as_str()), arguments));
            None
        }
    }
}

impl<M: LanguageModel, S: Sample> Harness<M, S> {
    /// A harness round a conversation, in which no tool has run.
    pub fn new(chat: Chat<M, S>) -> (h: Self)
        ensures
            h.chat == chat,
            h.calls == 0,
            h.tool_nanos == 0,
    {
        Harness { chat, calls: 0, tool_nanos: 0 }
    }

    /// Where the conversation's time has gone so far.
    pub fn stats(&self) -> (s: Stats)
        ensures
            s == (Stats {
                model: self.chat.stats,
                calls: self.calls,
                tool_nanos: self.tool_nanos,
            }),
    {
        Stats { model: self.chat.stats(), calls: self.calls, tool_nanos: self.tool_nanos }
    }

    /// Number of tokens in the conversation so far.
    pub fn tokens(&self) -> (n: usize)
        ensures
            n == self.chat.len,
    {
        self.chat.tokens()
    }

    /// Counts a call that has been run, and the time it took.
    pub fn count(&mut self, nanos: u64)
        ensures
            final(self).chat == old(self).chat,
            final(self).calls == capped(old(self).calls + 1),
            final(self).tool_nanos == if old(self).tool_nanos + nanos > u64::MAX {
                u64::MAX as int
            } else {
                old(self).tool_nanos + nanos
            },
    {
        self.calls = self.calls.saturating_add(1);
        self.tool_nanos = self.tool_nanos.saturating_add(nanos);
    }
}

} // verus!
