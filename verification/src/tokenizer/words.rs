//! Splitting text into words, by a regular expression of `fancy_regex`.
use fancy_regex::Regex;
use vstd::prelude::*;

use super::coder::occurs;
use crate::text::texts;

verus! {

/// The regular expression Qwen's tokenizers split text into words with.
pub const QWEN_PATTERN: &'static str =
    r"(?i:'s|'t|'re|'ve|'m|'ll|'d)|[^\r\n\p{L}\p{N}]?[\p{L}\p{M}]+|\p{N}| ?[^\s\p{L}\p{M}\p{N}]+[\r\n]*|\s*[\r\n]+|\s+(?!\S)|\s+";

/// Declares `fancy_regex::Regex`, a regular expression that has been compiled.
#[verifier::external_type_specification]
#[verifier::external_body]
pub struct ExRegex(Regex);

/// What `fancy_regex::Regex::new` has against a pattern, in words, or `None`
/// where it compiles.
pub uninterp spec fn objection(pattern: Seq<char>) -> Option<Seq<char>>;

/// The pattern that `fancy_regex::Regex::new` compiled a regular expression
/// from, which has the options that go without saying; `None` of one that was
/// built in another way.
pub uninterp spec fn compiled_from(re: Regex) -> Option<Seq<char>>;

/// The matches that `fancy_regex::Regex::find_iter` finds of a pattern in a
/// text, or what it says where a search fails, in words.
pub uninterp spec fn found(pattern: Seq<char>, text: Seq<char>) -> Result<
    Seq<Seq<char>>,
    Seq<char>,
>;

/// Wraps `fancy_regex::Regex::new`: whether it compiles a pattern, and what it
/// says if not, is a matter of the pattern alone, and what it compiles keeps
/// the pattern.
#[verifier::external_body]
pub(crate) fn compile(pattern: &str) -> (r: Result<Regex, String>)
    ensures
        match r {
            Ok(re) => objection(pattern@) is None && compiled_from(re) == Some(pattern@),
            Err(e) => objection(pattern@) == Some(e@),
        },
{
    Regex::new(pattern).map_err(|e| e.to_string())
}

/// Wraps `fancy_regex::Regex::find_iter`: what a regular expression that
/// `Regex::new` compiled finds, and what it says where a search fails, is a
/// matter of the pattern and the text alone, and what any finds stands in the
/// text.
#[verifier::external_body]
pub(crate) fn find_words(re: &Regex, text: &str) -> (r: Result<Vec<String>, String>)
    ensures
        compiled_from(*re) matches Some(pattern) ==> match r {
            Ok(words) => found(pattern, text@) == Ok::<Seq<Seq<char>>, Seq<char>>(texts(words@)),
            Err(e) => found(pattern, text@) == Err::<Seq<Seq<char>>, Seq<char>>(e@),
        },
        r matches Ok(words) ==> forall|i: int|
            0 <= i < words@.len() ==> exists|at: int| #[trigger]
                occurs(text@, (#[trigger] words@[i])@, at),
{
    let words: Result<Vec<String>, fancy_regex::Error> = re.find_iter(text)
        .map(|word| word.map(|m| m.as_str().to_string()))
        .collect();
    words.map_err(|e| e.to_string())
}

} // verus!
