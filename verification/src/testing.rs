//! A model for tests: one that says what it is told to.
use vstd::prelude::*;

use crate::bytes::push_all;
use crate::model::LanguageModel;
use crate::text::own;
use crate::tokenizer::coder::{cut, encode_segs, unsplit};
use crate::tokenizer::{Error, Tokenizer};

verus! {

/// The bits of the floating-point number one.
pub const ONE: u32 = 0x3f80_0000;

/// A model that says what it is told to: it records every token fed to it,
/// and each time the chat template opens a reply for it, it says the next of
/// its scripts, then ends the reply. Once its scripts run out, it ends every
/// reply at once.
pub struct Scripted {
    /// Every token fed so far, in order.
    pub fed: Vec<u32>,
    pub scripts: Vec<Vec<u32>>,
    /// How many of the scripts have been begun.
    pub begun: usize,
    /// The reply being said, and how much of it has been.
    pub saying: Vec<u32>,
    pub said: usize,
    pub vocab: usize,
    /// How the chat template opens a reply, with the thought open or with an
    /// empty one when the reply is to be made without thinking.
    pub opening: Vec<u32>,
    pub unthinking: Vec<u32>,
    pub end: u32,
    pub max_len: usize,
}

/// The tokens of a text with special tokens in it.
pub open spec fn script(t: &Tokenizer, text: Seq<char>) -> Option<Seq<u32>> {
    encode_segs(t.vocab(), cut(t.vocab().special, text))
}

/// Whether a sequence ends with another.
pub open spec fn ends(s: Seq<u32>, e: Seq<u32>) -> bool {
    e.len() <= s.len() && s.skip(s.len() - e.len()) == e
}

/// Whether a sequence ends with another.
fn ends_with(s: &[u32], e: &[u32]) -> (r: bool)
    ensures
        r == ends(s@, e@),
{
    let n: usize = s.len();
    let k: usize = e.len();
    if k > n {
        return false;
    }
    let mut i: usize = 0;
    while i < k
        invariant
            i <= k == e@.len() <= n == s@.len(),
            forall|j: int| 0 <= j < i ==> s@[n - k + j] == e@[j],
        decreases k - i,
    {
        if s[n - k + i] != e[i] {
            assert(s@.skip(n - k)[i as int] != e@[i as int]);
            return false;
        }
        i = i + 1;
    }
    assert(s@.skip(n - k) =~= e@);
    true
}

impl Scripted {
    /// A model over `tokenizer`'s vocabulary that says `scripts` in turn,
    /// each given as text with the chat format's tags in it, and has room for
    /// `max_len` tokens.
    pub fn new(tokenizer: &Tokenizer, scripts: &[&str], max_len: usize) -> (r: Result<
        Scripted,
        Error,
    >)
        requires
            tokenizer.wf(),
            !tokenizer.vocab().special.contains_key(Seq::empty()),
        ensures
            match r {
                Ok(m) => {
                    &&& m.fed@ == Seq::<u32>::empty()
                    &&& m.scripts@.len() == scripts@.len()
                    &&& forall|i: int|
                        0 <= i < scripts@.len() ==> script(tokenizer, #[trigger] scripts@[i]@)
                            == Some(m.scripts@[i]@)
                    &&& m.begun == 0
                    &&& m.saying@ == Seq::<u32>::empty()
                    &&& m.said == 0
                    &&& m.vocab == tokenizer.vocab().tokens.len()
                    &&& script(tokenizer, "<|im_start|>assistant\n<think>\n"@) == Some(m.opening@)
                    &&& script(tokenizer, "<|im_start|>assistant\n<think>\n\n</think>\n\n"@)
                        == Some(m.unthinking@)
                    &&& tokenizer.vocab().special.contains_key("<|im_end|>"@)
                    &&& m.end == tokenizer.vocab().special["<|im_end|>"@]
                    &&& m.max_len == max_len
                },
                Err(e) => {
                    ||| unsplit(e) && exists|i: int|
                        0 <= i < scripts@.len() && script(tokenizer, #[trigger] scripts@[i]@)
                            is None
                    ||| unsplit(e) && script(
                        tokenizer,
                        "<|im_start|>assistant\n<think>\n"@,
                    ) is None
                    ||| unsplit(e) && script(
                        tokenizer,
                        "<|im_start|>assistant\n<think>\n\n</think>\n\n"@,
                    ) is None
                    ||| !tokenizer.vocab().special.contains_key("<|im_end|>"@) && (
                    e matches Error::MissingSpecial(c) && c@ == "<|im_end|>"@)
                },
            },
    {
        let mut list: Vec<Vec<u32>> = Vec::new();
        let mut i: usize = 0;
        while i < scripts.len()
            invariant
                i <= scripts@.len(),
                tokenizer.wf(),
                !tokenizer.vocab().special.contains_key(Seq::empty()),
                list@.len() == i,
                forall|j: int|
                    0 <= j < i ==> script(tokenizer, #[trigger] scripts@[j]@) == Some(list@[j]@),
            decreases scripts@.len() - i,
        {
            match tokenizer.encode_with_special(scripts[i]) {
                Ok(tokens) => list.push(tokens),
                Err(e) => {
                    assert(script(tokenizer, scripts@[i as int]@) is None);
                    return Err(e);
                },
            }
            i = i + 1;
        }
        let opening = match tokenizer.encode_with_special("<|im_start|>assistant\n<think>\n") {
            Ok(tokens) => tokens,
            Err(e) => {
                return Err(e);
            },
        };
        let unthinking = match tokenizer.encode_with_special(
            "<|im_start|>assistant\n<think>\n\n</think>\n\n",
        ) {
            Ok(tokens) => tokens,
            Err(e) => {
                return Err(e);
            },
        };
        let end: u32 = match tokenizer.special("<|im_end|>") {
            Ok(id) => id,
            Err(e) => {
                return Err(e);
            },
        };
        Ok(
            Scripted {
                fed: Vec::new(),
                scripts: list,
                begun: 0,
                saying: Vec::new(),
                said: 0,
                vocab: tokenizer.vocab_size(),
                opening,
                unthinking,
                end,
                max_len,
            },
        )
    }

    /// Where the script is.
    pub open spec fn script(&self) -> Script {
        Script {
            scripts: self.scripts@,
            begun: self.begun as int,
            left: if self.said > self.saying@.len() {
                Seq::empty()
            } else {
                self.saying@.skip(self.said as int)
            },
            fed: self.fed@,
            opening: self.opening@,
            unthinking: self.unthinking@,
            end: self.end,
            vocab: self.vocab as nat,
        }
    }
}

/// What a scripted model says next: its scripts, how many of them have been
/// begun, what is left of the reply being said, and the tokens fed so far.
#[verifier::ext_equal]
pub ghost struct Script {
    pub scripts: Seq<Vec<u32>>,
    pub begun: int,
    pub left: Seq<u32>,
    pub fed: Seq<u32>,
    pub opening: Seq<u32>,
    pub unthinking: Seq<u32>,
    pub end: u32,
    pub vocab: nat,
}

impl Script {
    /// Whether tokens that have just been fed open a reply: a reply's prompt
    /// ends with the template's opening of one; a sampled token comes alone.
    pub open spec fn opens(self, tokens: Seq<u32>) -> bool {
        let fed = self.fed + tokens;
        tokens.len() > 1 && (ends(fed, self.opening) || ends(fed, self.unthinking))
    }

    /// What is left to say once tokens have been fed.
    pub open spec fn rest(self, tokens: Seq<u32>) -> Seq<u32> {
        if self.opens(tokens) {
            if self.begun < self.scripts.len() {
                self.scripts[self.begun]@
            } else {
                Seq::empty()
            }
        } else if tokens.len() != 1 {
            Seq::empty()
        } else {
            self.left
        }
    }

    /// The token said once tokens have been fed.
    pub open spec fn next(self, tokens: Seq<u32>) -> u32 {
        if self.rest(tokens).len() > 0 {
            self.rest(tokens)[0]
        } else {
            self.end
        }
    }

    /// The logits once tokens have been fed: one for what is said, and zero
    /// for the rest.
    pub open spec fn logits(self, tokens: Seq<u32>) -> Seq<u32> {
        Seq::new(
            self.vocab,
            |i: int|
                if i == self.next(tokens) {
                    ONE
                } else {
                    0
                },
        )
    }

    /// Where the script is once tokens have been fed.
    pub open spec fn after(self, tokens: Seq<u32>) -> Self {
        Script {
            begun: if self.opens(tokens) && self.begun < self.scripts.len() {
                self.begun + 1
            } else {
                self.begun
            },
            left: if self.rest(tokens).len() > 0 {
                self.rest(tokens).drop_first()
            } else {
                Seq::empty()
            },
            fed: self.fed + tokens,
            ..self
        }
    }

    /// Where the script is once the tokens fed so far are forgotten: what has
    /// been said of it stays said.
    pub open spec fn forgotten(self) -> Self {
        Script { left: Seq::empty(), fed: Seq::empty(), ..self }
    }

    /// The logits after the last of some runs of tokens.
    pub open spec fn says(self, runs: Seq<Seq<u32>>) -> Seq<u32>
        decreases runs.len(),
    {
        if runs.len() == 0 {
            Seq::empty()
        } else if runs.len() == 1 {
            self.logits(runs[0])
        } else {
            self.after(runs[0]).says(runs.drop_first())
        }
    }
}

impl LanguageModel for Scripted {
    open spec fn ready(&self) -> bool {
        true
    }

    open spec fn fed(&self) -> Seq<u32> {
        self.fed@
    }

    open spec fn draft(&self) -> Seq<u32> {
        Seq::empty()
    }

    open spec fn limit(&self) -> nat {
        self.max_len as nat
    }

    open spec fn size(&self) -> nat {
        self.vocab as nat
    }

    open spec fn saved(&self, len: nat) -> Option<Seq<u8>> {
        None
    }

    open spec fn opened(&self, state: Seq<u8>) -> Result<nat, Seq<char>> {
        Err("this model cannot restore a state"@)
    }

    open spec fn says(&self, runs: Seq<Seq<u32>>) -> Seq<u32> {
        self.script().says(runs)
    }

    /// A script is never taken up from bytes.
    open spec fn says_from(&self, state: Seq<u8>, runs: Seq<Seq<u32>>) -> Seq<u32> {
        Seq::empty()
    }

    open spec fn says_anew(&self, runs: Seq<Seq<u32>>) -> Seq<u32> {
        self.script().forgotten().says(runs)
    }

    /// A script has no draft that could stand.
    open spec fn says_standing(&self, count: nat, runs: Seq<Seq<u32>>) -> Seq<u32> {
        self.says(runs)
    }

    open spec fn tried(&self, tokens: Seq<u32>) -> Option<Seq<u32>> {
        None
    }

    fn save(&self, len: usize) -> (r: Option<Vec<u8>>) {
        None
    }

    fn restore(&mut self, state: &[u8]) -> (r: Result<usize, String>)
        ensures
            *final(self) == *old(self),
    {
        Err(own("this model cannot restore a state"))
    }

    fn forward(&mut self, tokens: &[u32], pos: usize) -> (logits: Vec<u32>)
        ensures
            logits@ == old(self).script().logits(tokens@),
            final(self).script() == old(self).script().after(tokens@),
    {
        let ghost was = self.script();
        push_all(&mut self.fed, tokens);
        if tokens.len() > 1 && (ends_with(self.fed.as_slice(), self.opening.as_slice())
            || ends_with(self.fed.as_slice(), self.unthinking.as_slice())) {
            let mut saying: Vec<u32> = Vec::new();
            if self.begun < self.scripts.len() {
                push_all(&mut saying, self.scripts[self.begun].as_slice());
                self.begun = self.begun + 1;
            }
            self.saying = saying;
            self.said = 0;
        } else if tokens.len() != 1 || self.said > self.saying.len() {
            self.saying = Vec::new();
            self.said = 0;
        }
        let ghost left = was.rest(tokens@);
        assert(self.saying@.skip(self.said as int) =~= left);
        let next: u32 = if self.said < self.saying.len() {
            self.said = self.said + 1;
            assert(self.saying@.skip(self.said as int) =~= left.drop_first());
            self.saying[self.said - 1]
        } else {
            self.end
        };
        assert(self.script() =~= was.after(tokens@));
        let mut logits: Vec<u32> = Vec::new();
        let mut i: usize = 0;
        while i < self.vocab
            invariant
                i <= self.vocab,
                logits@.len() == i,
                forall|j: int|
                    0 <= j < i ==> #[trigger] logits@[j] == if j == next {
                        ONE
                    } else {
                        0
                    },
            decreases self.vocab - i,
        {
            logits.push(
                if i as u64 == next as u64 {
                    ONE
                } else {
                    0
                },
            );
            i = i + 1;
        }
        proof {
            assert(logits@ =~= was.logits(tokens@));
            assert forall|more: Seq<Seq<u32>>| more.len() > 0 implies #[trigger] self.says(more)
                == old(self).says(seq![tokens@] + more) by {
                assert((seq![tokens@] + more).drop_first() =~= more);
            }
        }
        logits
    }

    /// A script verifies no drafts.
    fn verify(&mut self, tokens: &[u32], pos: usize) -> (r: Option<Vec<u32>>)
        ensures
            *final(self) == *old(self),
    {
        None
    }

    /// A script verifies no drafts, so none is left to commit.
    fn commit(&mut self, count: usize)
        ensures
            *final(self) == *old(self),
    {
        assert(self.fed@ + Seq::<u32>::empty().take(0) =~= self.fed@);
    }

    fn reset(&mut self)
        ensures
            final(self).script() == old(self).script().forgotten(),
    {
        self.fed = Vec::new();
        self.saying = Vec::new();
        self.said = 0;
        assert(self.script() =~= old(self).script().forgotten());
    }

    fn max_len(&self) -> (n: usize) {
        self.max_len
    }
}

} // verus!
