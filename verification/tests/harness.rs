//! The agent around the model.
use std::ops::ControlFlow;

use dwim::chat::{Chat, Chunk, Stats as ModelStats, Tally, ToolCall};
use dwim::harness::calendar::civil;
use dwim::harness::{
    date, environment, event, files, system_prompt, tools, truncate, Event, Exchange, Harness, Heard,
    Next, Rates, Round, Seconds, Stats, CALLING, INSTRUCTIONS, REPEATED,
};
use dwim::read::SIGNATURE;
use dwim::sampler::Greedy;
use dwim::testing::Scripted;
use dwim::tokenizer::Tokenizer;

/// A tally of so many tokens in so many seconds.
fn tally(tokens: usize, seconds: f64) -> Tally {
    Tally { tokens, nanos: (seconds * 1e9) as u64 }
}

#[test]
fn reports_where_the_time_went() {
    let stats = Stats {
        model: ModelStats {
            cached: tally(1500, 0.5),
            prompt: tally(1200, 15.0),
            thought: tally(900, 30.0),
            answer: tally(300, 10.0),
            drafted: 200,
            accepted: 120,
        },
        calls: 2,
        tool_nanos: 500_000_000,
    };
    let shown = |seconds: f64| format!("{seconds:.1}");
    let took = |t: Tally| shown(t.nanos as f64 / 1e9);
    let rate = |t: Tally| format!("{:.0}", t.tokens as f64 / (t.nanos as f64 / 1e9));
    let m = stats.model;
    let seconds = Seconds {
        loading: shown(2.5),
        cached: took(m.cached),
        prompt: took(m.prompt),
        thought: took(m.thought),
        answer: took(m.answer),
        drafted: shown(0.0),
        tools: shown(stats.tool_nanos as f64 / 1e9),
        other: shown(stats.other(2_500_000_000, 60_000_000_000) as f64 / 1e9),
        total: shown(60.0),
    };
    let rates = Rates { prompt: rate(m.prompt), thought: rate(m.thought), answer: rate(m.answer) };
    let lines = stats.report(&seconds, &rates);
    assert_eq!(lines[0], "loading                   2.5 s");
    assert_eq!(lines[1], "cached    1500 tokens     0.5 s");
    assert_eq!(lines[2], "prompt    1200 tokens    15.0 s   80 tok/s");
    assert_eq!(lines[3], "thought    900 tokens    30.0 s   30 tok/s");
    assert_eq!(lines[4], "answer     300 tokens    10.0 s   30 tok/s");
    assert_eq!(lines[5], "drafted    200 tokens     0.0 s  120 taken");
    assert_eq!(lines[6], "tools         2 calls     0.5 s");
    assert_eq!(lines[7], "other                     1.5 s");
    assert_eq!(lines[8], "total                    60.0 s");
    assert_eq!(stats.other(2_500_000_000, 58_500_000_001), 1);
    assert_eq!(stats.other(2_500_000_000, 58_500_000_000), 0);
    assert_eq!(stats.other(u64::MAX, 60_000_000_000), 0);
}

#[test]
fn dates() {
    assert_eq!(date(0), "1970-01-01");
    assert_eq!(date(11016), "2000-02-29");
    assert_eq!(date(19782), "2024-02-29");
    assert_eq!(date(20711), "2026-09-15");
}

#[test]
fn dates_far_off() {
    assert_eq!(date(-1), "1969-12-31");
    assert_eq!(date(-719468), "0000-03-01");
    assert_eq!(date(-719528), "0000-01-01");
    assert_eq!(date(-719529), "-001-12-31");
    assert_eq!(date(2932896), "9999-12-31");
    assert_eq!(date(2932897), "10000-01-01");
    // One day after another, over a leap year that a hundred does not make.
    let mut before = civil(-25568);
    for day in -25567..-25567 + 3 * 366 {
        let (y, m, d) = civil(day);
        let next = if d == 1 {
            if m == 1 { before.0 + 1 == y && before.1 == 12 } else { before.0 == y && before.1 + 1 == m }
        } else {
            (before.0, before.1, before.2 + 1) == (y, m, d)
        };
        assert!(next, "{before:?} then {:?}", (y, m, d));
        before = (y, m, d);
    }
}

#[test]
fn describes_the_project() {
    let bash = r#"{"type": "function", "function": {"name": "bash"}}"#;
    let list: Vec<(String, bool)> = [(".git", true), ("harness", true), ("Cargo.toml", false), (".gitignore", false)]
        .iter()
        .map(|(name, dir)| (name.to_string(), *dir))
        .collect();
    let here = environment("/work", &files(&list), &Some("main".to_string()), "linux", 20711);
    let agents = Some("\n# `dwim`\n\nA coding agent.\n".to_string());
    let prompt = system_prompt(&tools(&format!("{bash}\n{SIGNATURE}")), &here, &agents);
    assert!(prompt.starts_with("# Tools\n"));
    assert!(prompt.contains("<tools>\n{\"type\": \"function\", \"function\": {\"name\": \"bash\""));
    assert!(prompt.contains("\n{\"type\": \"function\", \"function\": {\"name\": \"read\""));
    assert!(prompt.contains(CALLING));
    assert!(prompt.contains(INSTRUCTIONS));
    let files = prompt.lines().find_map(|line| line.strip_prefix("Files: ")).unwrap();
    assert!(files.split(' ').any(|file| file == "Cargo.toml"));
    assert!(files.split(' ').any(|file| file == "harness/"));
    assert!(!files.contains(".git"));
    assert!(prompt.contains("From AGENTS.md:\n\n# `dwim`"));
    assert!(prompt.ends_with("A coding agent."));
    assert!(here.ends_with("\nFiles: Cargo.toml harness/\nGit repository: yes, on branch main\nPlatform: Linux\nDate: 2026-09-15"), "{here}");
    let plain = system_prompt("T", "E", &None);
    assert_eq!(plain, format!("T\n\n{INSTRUCTIONS}\n\nE"));
}

#[test]
fn tells_of_repositories_and_platforms() {
    let here = |branch: Option<&str>, os: &str| environment("d", "", &branch.map(str::to_string), os, 0);
    assert!(here(Some(""), "macos").contains("\nGit repository: yes\nPlatform: macOS\n"));
    assert!(here(None, "plan9").contains("\nGit repository: no\nPlatform: plan9\n"));
}

#[test]
fn lists_no_more_than_it_should() {
    let list: Vec<(String, bool)> = (0..60).rev().map(|i| (format!("f{i:02}"), false)).collect();
    let shown = files(&list);
    let names: Vec<&str> = shown.split(' ').collect();
    assert_eq!(names.len(), 51);
    assert_eq!((names[0], names[49], names[50]), ("f00", "f49", "\u{2026}"));
    assert_eq!(files(&[]), "");
}

#[test]
fn truncates_between_characters() {
    assert_eq!(truncate("abc", 3), "abc");
    assert_eq!(truncate("abc", 2), "ab\u{2026}");
    assert_eq!(truncate("\u{e4}\u{e4}", 3), "\u{e4}\u{2026}");
    assert_eq!(truncate("\u{e4}", 0), "\u{2026}");
}

/// A call of a tool with one argument.
fn call(name: &str, value: &str) -> ToolCall {
    let text = format!("<function={name}><parameter=command>{value}</parameter></function>");
    Round::read(&text, |_| Err(String::new())).unwrap()
}

#[test]
fn does_not_run_a_call_twice_in_a_row() {
    let mut round = Round::new();
    assert_eq!(round.consider(&call("bash", "ls")), None);
    assert_eq!(round.consider(&call("bash", "ls")), Some(REPEATED.to_string()));
    assert_eq!(round.consider(&call("bash", "date")), None);
    assert_eq!(round.consider(&call("read", "date")), None);
    assert_eq!(round.consider(&call("bash", "ls")), None);
}

#[test]
fn says_what_is_wrong_with_a_call() {
    let said = Round::read("hello", |_| Err(String::new())).unwrap_err();
    assert_eq!(said, "error: malformed tool call: a tool call is a JSON object or a <function=...> block");
    let said = Round::read("{", |_| Err("EOF".to_string())).unwrap_err();
    assert_eq!(said, "error: malformed tool call: EOF");
}

/// Runs an exchange to its end, and returns what was shown and run, with
/// `stop` things shown at most.
fn exchange(scripts: &[&str], stop: usize) -> (Vec<String>, Harness<Scripted, Greedy>) {
    let tokenizer = Tokenizer::tiny().unwrap();
    let model = Scripted::new(&tokenizer, scripts, 1 << 16).unwrap();
    let mut harness = Harness::new(Chat::new(model, tokenizer, Greedy {}).unwrap());
    let mut seen = Vec::new();
    let mut shown = 0;
    let calls = harness.chat.send("go", |_| ControlFlow::Continue(())).unwrap();
    let (mut turn, mut next) = Exchange::new().step(Heard::Replied(calls));
    loop {
        let heard = match next {
            Next::Over => return (seen, harness),
            Next::Read(text) => Heard::Read(Round::read(&text, |_| Err("no JSON".to_string()))),
            Next::Announce => {
                seen.push(format!("call {}", turn.call().unwrap().name));
                shown += 1;
                Heard::Shown(shown < stop)
            }
            Next::Run(call) => {
                harness.count(1_000);
                seen.push(format!("run {}", call.name));
                Heard::Ran(format!("{} ran", call.name))
            }
            Next::Show(text) => {
                seen.push(text);
                shown += 1;
                Heard::Shown(shown < stop)
            }
            Next::Respond(outputs) => {
                let calls = harness.chat.respond(&outputs, |_| ControlFlow::Continue(())).unwrap();
                Heard::Replied(calls)
            }
        };
        (turn, next) = turn.step(heard);
    }
}

fn written(name: &str) -> String {
    format!("<tool_call>\n<function={name}>\n</function>\n</tool_call>")
}

#[test]
fn runs_calls_until_the_reply_is_text() {
    let both = format!("</think>\n\n{}{}", written("a"), written("b"));
    let again = format!("</think>\n\n{}", written("b"));
    let broken = "</think>\n\n<tool_call>\nwhat\n</tool_call>";
    let (seen, harness) = exchange(&[&both, &again, broken, "</think>\n\nDone."], usize::MAX);
    assert_eq!(
        seen,
        [
            "call a",
            "run a",
            "a ran",
            "call b",
            "run b",
            "b ran",
            "call b",
            REPEATED,
            "error: malformed tool call: a tool call is a JSON object or a <function=...> block",
        ]
    );
    let stats = harness.stats();
    assert_eq!((stats.calls, stats.tool_nanos), (2, 2_000));
    assert_eq!(stats.model, harness.chat.stats());
    // The model has been given one result for each call.
    let result = harness.chat.tags.tool_response[0];
    assert_eq!(harness.chat.model.fed.iter().filter(|&&t| t == result).count(), 4);
    assert_eq!(harness.tokens(), harness.chat.model.fed.len());
}

#[test]
fn ends_a_turn_where_it_is_broken_off() {
    let both = format!("</think>\n\n{}{}", written("a"), written("b"));
    let (seen, _) = exchange(&[&both, "</think>\n\nDone."], 1);
    assert_eq!(seen, ["call a"]);
    let (seen, harness) = exchange(&[&both, "</think>\n\nDone."], 2);
    assert_eq!(seen, ["call a", "run a", "a ran"]);
    assert_eq!(harness.stats().calls, 1);
}

#[test]
fn turns_pieces_of_a_reply_into_events() {
    assert!(matches!(event(Chunk::Thought("t")), Event::Thought("t")));
    assert!(matches!(event(Chunk::Text("x")), Event::Text("x")));
}
