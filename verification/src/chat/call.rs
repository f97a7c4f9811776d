//! Calls that the model makes to tools.
use serde_json::Value as Json;
use vstd::prelude::*;

use super::json::{
    fields, insert_member, members, no_members, object_value, string_in, string_value,
};
use crate::gguf::layout::table;
use crate::text::{blank, chars, own, skip_space, skip_space_back, space, string, trim, trim_start};

verus! {

/// A call the model made to a tool, as written in a `<tool_call>` block.
#[derive(Debug)]
pub struct ToolCall {
    pub name: String,
    pub arguments: Json,
}

/// What is wrong with a tool call.
#[derive(Debug, PartialEq, Eq)]
pub enum CallError {
    Form,
    FunctionName,
    TextAfter,
    Expected,
    ParameterName,
    Parameter,
    /// What is wrong with the JSON, in words.
    Json(String),
}

impl CallError {
    /// The error in words.
    pub open spec fn text(self) -> Seq<char> {
        match self {
            CallError::Form => "a tool call is a JSON object or a <function=...> block"@,
            CallError::FunctionName => "unterminated function name"@,
            CallError::TextAfter => "text after </function>"@,
            CallError::Expected => "expected <parameter=...> or </function>"@,
            CallError::ParameterName => "unterminated parameter name"@,
            CallError::Parameter => "unterminated parameter"@,
            CallError::Json(e) => e@,
        }
    }

    /// The error in words.
    pub fn message(&self) -> (s: String)
        ensures
            s@ == self.text(),
    {
        match self {
            CallError::Form => own("a tool call is a JSON object or a <function=...> block"),
            CallError::FunctionName => own("unterminated function name"),
            CallError::TextAfter => own("text after </function>"),
            CallError::Expected => own("expected <parameter=...> or </function>"),
            CallError::ParameterName => own("unterminated parameter name"),
            CallError::Parameter => own("unterminated parameter"),
            CallError::Json(e) => e.clone(),
        }
    }
}

/// Whether a text starts with another.
pub open spec fn starts(s: Seq<char>, p: Seq<char>) -> bool {
    p.len() <= s.len() && s.take(p.len() as int) == p
}

/// Where a text first stands in another, from a position on.
pub open spec fn find_from(s: Seq<char>, p: Seq<char>, from: nat) -> Option<nat>
    decreases s.len() - from,
{
    if from + p.len() > s.len() {
        None
    } else if starts(s.skip(from as int), p) {
        Some(from)
    } else if from == s.len() {
        None
    } else {
        find_from(s, p, from + 1)
    }
}

/// What stands before and behind the first place where a text stands in
/// another.
pub open spec fn split(s: Seq<char>, p: Seq<char>) -> Option<(Seq<char>, Seq<char>)> {
    match find_from(s, p, 0) {
        Some(i) => Some((s.take(i as int), s.skip((i + p.len()) as int))),
        None => None,
    }
}

/// A value without the line breaks between it and its tags.
pub open spec fn inner(s: Seq<char>) -> Seq<char> {
    let s = if s.len() > 0 && s[0] == '\n' {
        s.drop_first()
    } else {
        s
    };
    if s.len() > 0 && s.last() == '\n' {
        s.drop_last()
    } else {
        s
    }
}

/// A text does not grow by what is cut off it.
pub proof fn lemma_trim_start_len(s: Seq<char>)
    ensures
        trim_start(s).len() <= s.len(),
    decreases s.len(),
{
    if s.len() > 0 && space(s[0]) {
        lemma_trim_start_len(s.drop_first());
    }
}

/// Where a text is found, it fits.
pub proof fn lemma_find_from(s: Seq<char>, p: Seq<char>, from: nat)
    ensures
        find_from(s, p, from) matches Some(i) ==> i + p.len() <= s.len(),
    decreases s.len() - from,
{
    if from + p.len() <= s.len() && from != s.len() {
        lemma_find_from(s, p, from + 1);
    }
}

/// The parameters of a `<function=name>` block behind its name: a key and a
/// value each, in order, or what is wrong with them first.
pub open spec fn parameters(rest: Seq<char>) -> Result<Seq<(Seq<char>, Seq<char>)>, CallError>
    decreases rest.len(),
{
    let here = trim_start(rest);
    if starts(here, "</function>"@) {
        if blank(here.skip("</function>"@.len() as int)) {
            Ok(Seq::empty())
        } else {
            Err(CallError::TextAfter)
        }
    } else if !starts(here, "<parameter="@) {
        Err(CallError::Expected)
    } else {
        match split(here.skip("<parameter="@.len() as int), ">"@) {
            None => Err(CallError::ParameterName),
            Some((key, on)) => match split(on, "</parameter>"@) {
                None => Err(CallError::Parameter),
                Some((value, after)) => {
                    proof {
                        reveal_strlit("<parameter=");
                        lemma_trim_start_len(rest);
                        lemma_find_from(here.skip("<parameter="@.len() as int), ">"@, 0);
                        lemma_find_from(on, "</parameter>"@, 0);
                    }
                    match parameters(after) {
                        Err(e) => Err(e),
                        Ok(more) => Ok(seq![(key, inner(value))] + more),
                    }
                },
            },
        }
    }
}

/// A `<function=name>` block: the name and the parameters, or what is wrong
/// with it first.
pub open spec fn block(text: Seq<char>) -> Result<
    (Seq<char>, Seq<(Seq<char>, Seq<char>)>),
    CallError,
> {
    if !starts(text, "<function="@) {
        Err(CallError::Form)
    } else {
        match split(text.skip("<function="@.len() as int), ">"@) {
            None => Err(CallError::FunctionName),
            Some((name, rest)) => match parameters(rest) {
                Err(e) => Err(e),
                Ok(pairs) => Ok((name, pairs)),
            },
        }
    }
}

/// Whether a JSON value is an object of texts: of each key the last that was
/// given.
pub open spec fn holds(v: Json, pairs: Seq<(Seq<char>, Seq<char>)>) -> bool {
    fields(v) matches Some(m) && texts_are(m, table(pairs))
}

/// Whether members are texts.
pub open spec fn texts_are(m: Map<Seq<char>, Json>, t: Map<Seq<char>, Seq<char>>) -> bool {
    &&& m.dom() == t.dom()
    &&& forall|k: Seq<char>| #[trigger] t.contains_key(k) ==> string_in(m[k]) == Some(t[k])
}

/// Whether a text starts with another.
pub fn starts_with(s: &[char], p: &[char]) -> (r: bool)
    ensures
        r == starts(s@, p@),
{
    let n: usize = p.len();
    if n > s.len() {
        return false;
    }
    let mut i: usize = 0;
    while i < n
        invariant
            i <= n == p@.len() <= s@.len(),
            forall|j: int| 0 <= j < i ==> s@[j] == p@[j],
        decreases n - i,
    {
        if s[i] != p[i] {
            assert(s@.take(n as int)[i as int] != p@[i as int]);
            return false;
        }
        i = i + 1;
    }
    assert(s@.take(n as int) =~= p@);
    true
}

/// A copy of a text from a position on.
pub fn behind(s: &[char], at: usize) -> (out: Vec<char>)
    requires
        at <= s@.len(),
    ensures
        out@ == s@.skip(at as int),
{
    let out = crate::bytes::copy_range(s, at, s.len());
    assert(out@ =~= s@.skip(at as int));
    out
}

/// What stands before and behind the first place where a text stands in
/// another.
pub fn split_at(s: &[char], p: &[char]) -> (r: Option<(Vec<char>, Vec<char>)>)
    ensures
        match r {
            Some((a, b)) => split(s@, p@) == Some((a@, b@)),
            None => split(s@, p@) is None,
        },
{
    let n: usize = s.len();
    let k: usize = p.len();
    let mut i: usize = 0;
    while i <= n && k <= n - i
        invariant
            i <= n == s@.len(),
            k == p@.len(),
            find_from(s@, p@, 0) == find_from(s@, p@, i as nat),
        decreases n - i,
    {
        let rest = vstd::slice::slice_subrange(s, i, n);
        assert(rest@ =~= s@.skip(i as int));
        if starts_with(rest, p) {
            let a = crate::bytes::copy_range(s, 0, i);
            assert(a@ =~= s@.take(i as int));
            return Some((a, behind(s, i + k)));
        }
        if i == n {
            return None;
        }
        i = i + 1;
    }
    None
}

/// A value without the line breaks between it and its tags.
fn unwrapped(s: &[char]) -> (out: String)
    ensures
        out@ == inner(s@),
{
    let mut from: usize = 0;
    let mut to: usize = s.len();
    if to > 0 && s[0] == '\n' {
        from = 1;
    }
    if to > from && s[to - 1] == '\n' {
        to = to - 1;
    }
    let out = string(vstd::slice::slice_subrange(s, from, to));
    assert(out@ =~= inner(s@));
    out
}

/// Texts with one more in front.
proof fn lemma_table_concat(a: Seq<(Seq<char>, Seq<char>)>, b: (Seq<char>, Seq<char>))
    ensures
        table(a.push(b)) == table(a).insert(b.0, b.1),
{
    assert(a.push(b).drop_last() =~= a);
}

/// Reads the parameters of a `<function=name>` block.
fn read_parameters(list: Vec<char>) -> (r: Result<Json, CallError>)
    ensures
        match (r, parameters(list@)) {
            (Ok(v), Ok(pairs)) => holds(v, pairs),
            (Err(e), Err(f)) => e == f,
            _ => false,
        },
{
    let close = chars("</function>");
    let open_ = chars("<parameter=");
    let end = chars("</parameter>");
    let angle = chars(">");
    let ghost whole = list@;
    let ghost mut pairs: Seq<(Seq<char>, Seq<char>)> = Seq::empty();
    let mut m = no_members();
    let mut rest = list;
    proof {
        assert(table(pairs) =~= Map::empty());
        assert(members(m).dom() =~= table(pairs).dom());
        assert(parameters(whole) == match parameters(rest@) {
            Err(e) => Err(e),
            Ok(more) => Ok(pairs + more),
        }) by {
            if parameters(rest@) is Ok {
                assert(pairs + parameters(rest@)->Ok_0 =~= parameters(rest@)->Ok_0);
            }
        }
    }
    loop
        invariant
            close@ == "</function>"@,
            open_@ == "<parameter="@,
            end@ == "</parameter>"@,
            angle@ == ">"@,
            whole == list@,
            texts_are(members(m), table(pairs)),
            parameters(whole) == match parameters(rest@) {
                Err(e) => Err(e),
                Ok(more) => Ok::<Seq<(Seq<char>, Seq<char>)>, CallError>(pairs + more),
            },
        decreases rest@.len(),
    {
        let n: usize = rest.len();
        let at: usize = skip_space(rest.as_slice(), 0, n);
        let here = behind(rest.as_slice(), at);
        proof {
            assert(rest@.subrange(0, n as int) =~= rest@);
            assert(rest@.subrange(at as int, n as int) =~= rest@.skip(at as int));
            assert(here@ == trim_start(rest@));
        }
        if starts_with(here.as_slice(), close.as_slice()) {
            let after = behind(here.as_slice(), close.len());
            let stop: usize = skip_space(after.as_slice(), 0, after.len());
            proof {
                lemma_blank(after@);
                assert(after@.subrange(0, after@.len() as int) =~= after@);
                assert(trim_start(after@).len() == after@.len() - stop);
            }
            if stop != after.len() {
                return Err(CallError::TextAfter);
            }
            proof {
                assert(pairs + Seq::empty() =~= pairs);
            }
            return Ok(object_value(m));
        }
        if !starts_with(here.as_slice(), open_.as_slice()) {
            return Err(CallError::Expected);
        }
        let param = behind(here.as_slice(), open_.len());
        let (key, value_on) = match split_at(param.as_slice(), angle.as_slice()) {
            Some(parts) => parts,
            None => {
                return Err(CallError::ParameterName);
            },
        };
        let (value, after) = match split_at(value_on.as_slice(), end.as_slice()) {
            Some(parts) => parts,
            None => {
                return Err(CallError::Parameter);
            },
        };
        let key = string(key.as_slice());
        let value = unwrapped(value.as_slice());
        proof {
            reveal_strlit("<parameter=");
            lemma_trim_start_len(rest@);
            lemma_find_from(param@, ">"@, 0);
            lemma_find_from(value_on@, "</parameter>"@, 0);
            let pair = (key@, value@);
            lemma_table_concat(pairs, pair);
            if parameters(after@) is Ok {
                let more = parameters(after@)->Ok_0;
                assert(pairs + (seq![pair] + more) =~= pairs.push(pair) + more);
            }
        }
        let ghost before = members(m);
        let ghost k = key@;
        let ghost t = value@;
        let v = string_value(value);
        insert_member(&mut m, key, v);
        proof {
            assert(members(m).dom() =~= table(pairs).insert(k, t).dom());
            pairs = pairs.push((k, t));
        }
        rest = after;
    }
}

/// A text is white space throughout exactly if nothing is left of it.
proof fn lemma_blank(s: Seq<char>)
    ensures
        blank(s) <==> trim_start(s).len() == 0,
    decreases s.len(),
{
    if s.len() > 0 {
        if space(s[0]) {
            lemma_blank(s.drop_first());
            if blank(s.drop_first()) {
                assert forall|i: int| 0 <= i < s.len() implies space(#[trigger] s[i]) by {
                    if i > 0 {
                        assert(s[i] == s.drop_first()[i - 1]);
                    }
                }
            }
            if blank(s) {
                assert forall|i: int| 0 <= i < s.drop_first().len() implies space(
                    #[trigger] s.drop_first()[i],
                ) by {
                    assert(s.drop_first()[i] == s[i + 1]);
                }
            }
        }
    }
}

impl ToolCall {
    /// Parses the body of a `<tool_call>` block: either a JSON object with
    /// the name and the arguments, as Qwen3 writes it, which is left to
    /// `json`; or a `<function=name>` block of `<parameter=name>` values, as
    /// Qwen3-Coder writes it, whose values are all strings.
    pub fn parse(text: &str, json: impl FnOnce(&str) -> Result<ToolCall, String>) -> (r: Result<
        ToolCall,
        CallError,
    >)
        requires
            forall|s: &str| s@ == trim(text@) ==> #[trigger] call_requires(json, (s,)),
        ensures
            if starts(trim(text@), "{"@) {
                exists|s: &str, out: Result<ToolCall, String>|
                    s@ == trim(text@) && #[trigger] call_ensures(json, (s,), out) && match out {
                        Ok(call) => r == Ok::<ToolCall, CallError>(call),
                        Err(e) => r == Err::<ToolCall, CallError>(CallError::Json(e)),
                    }
            } else {
                match (r, block(trim(text@))) {
                    (Ok(call), Ok((name, pairs))) => call.name@ == name && holds(
                        call.arguments,
                        pairs,
                    ),
                    (Err(e), Err(f)) => e == f,
                    _ => false,
                }
            },
    {
        let list = chars(text);
        let n: usize = list.len();
        let from: usize = skip_space(list.as_slice(), 0, n);
        let to: usize = skip_space_back(list.as_slice(), from, n);
        let body = crate::bytes::copy_range(list.as_slice(), from, to);
        proof {
            assert(list@.subrange(0, n as int) =~= text@);
            assert(body@ == trim(text@));
        }
        let brace = chars("{");
        if starts_with(body.as_slice(), brace.as_slice()) {
            let s = string(body.as_slice());
            return match json(s.as_str()) {
                Ok(call) => Ok(call),
                Err(e) => Err(CallError::Json(e)),
            };
        }
        let function = chars("<function=");
        if !starts_with(body.as_slice(), function.as_slice()) {
            return Err(CallError::Form);
        }
        let named = behind(body.as_slice(), function.len());
        let angle = chars(">");
        match split_at(named.as_slice(), angle.as_slice()) {
            Some((name, rest)) => match read_parameters(rest) {
                Ok(arguments) => Ok(ToolCall { name: string(name.as_slice()), arguments }),
                Err(e) => Err(e),
            },
            None => Err(CallError::FunctionName),
        }
    }
}

} // verus!
