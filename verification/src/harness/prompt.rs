//! What the model is told of itself and of the project it works in.
use vstd::prelude::*;

use super::calendar::{date, date_text, day_number, is_date};
use crate::text::{chars, clip, clipped, join3, own, same_text, skip_space, skip_space_back, string, trim};

verus! {

/// Most of a project's `AGENTS.md` that goes into the system prompt.
pub const MAX_INSTRUCTIONS: usize = 4000;

/// How the agent should behave: the start of the system prompt.
pub const INSTRUCTIONS: &'static str =
    r#"You are `dwim`, a coding agent working in the user's project directory at a Unix command line. You have a bash tool that runs shell commands there and a read tool that reads files, and you may use them at any time without asking.

- For anything about the project, its files, its git history, or the system, run commands to find out before you answer. Don't answer from memory when a command can tell you.
- Never say you can't access files or run commands, and never ask the user which command to run: pick one yourself.
- When a request could be a question or a task, treat it as a task and do it.
- To change something, run the commands that change it instead of explaining how.
- To read a file, use read, not cat: it gives you a page of 200 numbered lines and says where the next page starts. Read the next page when you need more, and start from a line to read the middle of a file.
- If a command fails, read the error and try another way. A command's result ends with its exit code, and what it printed to standard error comes after a `[stderr]` line.
- When a command prints more than fits, the result shows the start and the end of its output and names a file that holds all of it, with the line to read it from: use read on that file instead of running the command again.
- Keep going until the request is done, then reply in a few sentences with what you found or did.

For example, for "review commit abc123", run `git show abc123` and point out bugs and risks in the change; for "what files are here?", run `ls`; for "what time is it?", run `date`."#;

/// How the tools are called, declared as the model's chat template puts it,
/// after their signatures.
pub const CALLING: &'static str =
    r#"If you choose to call a function ONLY reply in the following format with NO suffix:

<tool_call>
<function=example_function_name>
<parameter=example_parameter_1>
value_1
</parameter>
<parameter=example_parameter_2>
This is the value for the second parameter
that can span
multiple lines
</parameter>
</function>
</tool_call>

<IMPORTANT>
Reminder:
- Function calls MUST follow the specified format: an inner <function=...></function> block must be nested within <tool_call></tool_call> XML tags
- Required parameters MUST be specified
- You may provide optional reasoning for your function call in natural language BEFORE the function call, but NOT after
- If there is no function call available, answer the question like normal with your current knowledge and do not tell the user about function calls
</IMPORTANT>"#;

/// Cuts `text` down to at most `max` bytes, on a character boundary, marking
/// the cut with an ellipsis.
pub fn truncate(text: &str, max: usize) -> (out: String)
    ensures
        out@ == clipped(text@, max as nat),
{
    clip(text, max)
}

/// The tools, declared as the model's chat template puts them.
pub open spec fn tools_text(signatures: Seq<char>) -> Seq<char> {
    "# Tools\n\nYou have access to the following functions:\n\n<tools>\n"@ + signatures
        + "\n</tools>\n\n"@ + CALLING@
}

/// The tools, declared as the model's chat template puts them: the start of the
/// system prompt, before what the user's system prompt says.
pub fn tools(signatures: &str) -> (out: String)
    ensures
        out@ == tools_text(signatures@),
{
    let mut out = join3(
        "# Tools\n\nYou have access to the following functions:\n\n<tools>\n",
        signatures,
        "\n</tools>\n\n",
    );
    out.append(CALLING);
    out
}

/// Whether a directory is in a git repository, and on which branch, in words.
pub open spec fn git_text(branch: Option<String>) -> Seq<char> {
    match branch {
        Some(b) => if b@.len() > 0 {
            "yes, on branch "@ + b@
        } else {
            "yes"@
        },
        None => "no"@,
    }
}

/// The name of a platform.
pub open spec fn platform(os: Seq<char>) -> Seq<char> {
    if os == "macos"@ {
        "macOS"@
    } else if os == "linux"@ {
        "Linux"@
    } else {
        os
    }
}

/// Where the agent is, in words.
pub open spec fn environment_text(
    dir: Seq<char>,
    files: Seq<char>,
    branch: Option<String>,
    os: Seq<char>,
    date: Seq<char>,
) -> Seq<char> {
    "# Environment\n\nWorking directory: "@ + dir + "\nFiles: "@ + files + "\nGit repository: "@
        + git_text(branch) + "\nPlatform: "@ + platform(os) + "\nDate: "@ + date
}

/// Where the agent is: the working directory and the files in it, whether it
/// is a git repository, the platform, and the date, which is `days` after
/// 1970-01-01.
pub fn environment(
    dir: &str,
    files: &str,
    branch: &Option<String>,
    os: &str,
    days: i64,
) -> (out: String)
    requires
        days <= i64::MAX - 719468,
    ensures
        exists|y: int, m: int, d: int|
            is_date(y, m, d) && day_number(y, m, d) == days && out@ == environment_text(
                dir@,
                files@,
                *branch,
                os@,
                #[trigger] date_text(y, m, d),
            ),
{
    let mut out = join3("# Environment\n\nWorking directory: ", dir, "\nFiles: ");
    out.append(files);
    out.append("\nGit repository: ");
    let git = match branch {
        Some(b) => if b.as_str().unicode_len() > 0 {
            let mut s = own("yes, on branch ");
            s.append(b.as_str());
            s
        } else {
            own("yes")
        },
        None => own("no"),
    };
    out.append(&git);
    out.append("\nPlatform: ");
    if same_text(os, "macos") {
        out.append("macOS");
    } else if same_text(os, "linux") {
        out.append("Linux");
    } else {
        out.append(os);
    }
    out.append("\nDate: ");
    let today = date(days);
    out.append(&today);
    proof {
        let (y, m, d) = choose|y: int, m: int, d: int|
            is_date(y, m, d) && day_number(y, m, d) == days && today@ == #[trigger] date_text(y, m, d);
        assert(out@ == environment_text(dir@, files@, *branch, os@, date_text(y, m, d)));
    }
    out
}

/// A text without the white space round it.
pub fn trimmed(s: &str) -> (out: String)
    ensures
        out@ == trim(s@),
{
    let list = chars(s);
    let n: usize = list.len();
    let from: usize = skip_space(list.as_slice(), 0, n);
    let to: usize = skip_space_back(list.as_slice(), from, n);
    assert(list@.subrange(0, n as int) =~= s@);
    string(vstd::slice::slice_subrange(list.as_slice(), from, to))
}

/// The system prompt for an agent.
pub open spec fn prompt_text(
    tools: Seq<char>,
    environment: Seq<char>,
    instructions: Option<String>,
) -> Seq<char> {
    let start = tools + "\n\n"@ + INSTRUCTIONS@ + "\n\n"@ + environment;
    match instructions {
        Some(s) => start + "\n\n# Project instructions\n\nFrom AGENTS.md:\n\n"@ + clipped(
            trim(s@),
            MAX_INSTRUCTIONS as nat,
        ),
        None => start,
    }
}

/// The system prompt for an agent: the tools, then how to behave, where it is
/// and what the project looks like, and the project's own instructions from
/// its `AGENTS.md` if it has one.
pub fn system_prompt(tools: &str, environment: &str, instructions: &Option<String>) -> (out: String)
    ensures
        out@ == prompt_text(tools@, environment@, *instructions),
{
    let mut out = join3(tools, "\n\n", INSTRUCTIONS);
    out.append("\n\n");
    out.append(environment);
    if let Some(s) = instructions {
        out.append("\n\n# Project instructions\n\nFrom AGENTS.md:\n\n");
        out.append(&truncate(&trimmed(s.as_str()), MAX_INSTRUCTIONS));
    }
    out
}

} // verus!
