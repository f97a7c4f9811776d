//! Models that predict the next token.
use vstd::prelude::*;

verus! {

/// Most tokens a draft verified at once has.
pub const VERIFY: usize = 8;

/// How many tokens there are in runs of them.
pub open spec fn amount(runs: Seq<Seq<u32>>) -> nat
    decreases runs.len(),
{
    if runs.len() == 0 {
        0
    } else {
        runs[0].len() + amount(runs.drop_first())
    }
}

/// A model that predicts the next token, keeping the sequence so far in its
/// own state. Logits are given as the bits of floating-point numbers.
pub trait LanguageModel: Sized {
    /// Whether the state holds together.
    spec fn ready(&self) -> bool;

    /// The tokens whose positions the state holds.
    spec fn fed(&self) -> Seq<u32>;

    /// The draft that was verified last, while nothing has come after it.
    spec fn draft(&self) -> Seq<u32>;

    /// How many positions the state has room for.
    spec fn limit(&self) -> nat;

    /// How many tokens there are.
    spec fn size(&self) -> nat;

    /// The state after the first `len` positions as bytes, if the model can
    /// give it.
    spec fn saved(&self, len: nat) -> Option<Seq<u8>>;

    /// How many positions the model holds once it takes up from bytes, or what
    /// is wrong with them, in words.
    spec fn opened(&self, state: Seq<u8>) -> Result<nat, Seq<char>>;

    /// The logits that the model gives after the last of some tokens, fed to
    /// it one run after another.
    spec fn says(&self, runs: Seq<Seq<u32>>) -> Seq<u32>;

    /// The logits that the model gives after the last of some tokens, once it
    /// has taken up from bytes.
    spec fn says_from(&self, state: Seq<u8>, runs: Seq<Seq<u32>>) -> Seq<u32>;

    /// The logits that the model gives after the last of some tokens, once it
    /// has forgotten the sequence.
    spec fn says_anew(&self, runs: Seq<Seq<u32>>) -> Seq<u32>;

    /// The logits that the model gives after the last of some tokens, once the
    /// first `count` tokens of its draft stand.
    spec fn says_standing(&self, count: nat, runs: Seq<Seq<u32>>) -> Seq<u32>;

    /// The logits after each token of a draft in turn, if the model can verify
    /// drafts.
    spec fn tried(&self, tokens: Seq<u32>) -> Option<Seq<u32>>;

    /// The model's state after the first `len` positions, as bytes for
    /// [`restore`](Self::restore) to take up from, if the model can give it.
    fn save(&self, len: usize) -> (r: Option<Vec<u8>>)
        requires
            self.ready(),
            len <= self.fed().len(),
        ensures
            match r {
                Some(out) => self.saved(len as nat) == Some(out@),
                None => self.saved(len as nat) is None,
            },
    ;

    /// Puts the model in a state [`save`](Self::save) gave, and returns how
    /// many positions it holds.
    fn restore(&mut self, state: &[u8]) -> (r: Result<usize, String>)
        requires
            old(self).ready(),
            old(self).fed().len() <= old(self).limit(),
        ensures
            final(self).ready(),
            final(self).limit() == old(self).limit(),
            final(self).size() == old(self).size(),
            match r {
                Ok(n) => old(self).opened(state@) == Ok::<nat, Seq<char>>(n as nat)
                    && final(self).fed().len() == n <= final(self).limit() && forall|
                    more: Seq<Seq<u32>>,
                | more.len() > 0 ==> #[trigger] final(self).says(more) == old(self).says_from(
                    state@,
                    more,
                ),
                Err(e) => old(self).opened(state@) == Err::<nat, Seq<char>>(e@)
                    && final(self).fed() == old(self).fed() && forall|more: Seq<Seq<u32>>|
                    more.len() > 0 ==> #[trigger] final(self).says(more) == old(self).says(more),
            },
    ;

    /// Runs a draft of up to [`VERIFY`] tokens, the first at position `pos`,
    /// and returns the logits after each of them in turn, without committing
    /// the model's state to them: [`commit`](Self::commit) then says how many
    /// of them stand. A model that cannot returns nothing.
    fn verify(&mut self, tokens: &[u32], pos: usize) -> (r: Option<Vec<u32>>)
        requires
            old(self).ready(),
            pos == old(self).fed().len(),
            0 < tokens@.len() <= VERIFY,
            pos + tokens@.len() <= old(self).limit(),
            forall|i: int| 0 <= i < tokens@.len() ==> #[trigger] tokens@[i] < old(self).size(),
        ensures
            final(self).ready(),
            final(self).limit() == old(self).limit(),
            final(self).size() == old(self).size(),
            final(self).fed() == old(self).fed(),
            forall|more: Seq<Seq<u32>>|
                more.len() > 0 && pos + amount(more) <= old(self).limit()
                    ==> #[trigger] final(self).says(more) == old(self).says(more),
            match r {
                Some(logits) => old(self).tried(tokens@) == Some(logits@) && logits@.len()
                    == tokens@.len() * old(self).size() && final(self).draft() == tokens@,
                None => old(self).tried(tokens@) is None && final(self).draft() == old(
                    self,
                ).draft(),
            },
    ;

    /// Commits the state to the first `count` tokens of the last draft
    /// verified, as if they had been run through [`forward`](Self::forward).
    fn commit(&mut self, count: usize)
        requires
            old(self).ready(),
            count <= old(self).draft().len(),
        ensures
            final(self).ready(),
            final(self).limit() == old(self).limit(),
            final(self).size() == old(self).size(),
            final(self).fed() == old(self).fed() + old(self).draft().take(count as int),
            final(self).draft() == Seq::<u32>::empty(),
            forall|more: Seq<Seq<u32>>|
                more.len() > 0 ==> #[trigger] final(self).says(more) == old(self).says_standing(
                    count as nat,
                    more,
                ),
            count == 0 ==> forall|more: Seq<Seq<u32>>|
                more.len() > 0 ==> #[trigger] final(self).says(more) == old(self).says(more),
    ;

    /// Runs `tokens`, the first at position `pos`, through the model, and
    /// returns the logits for the token that follows the last of them.
    fn forward(&mut self, tokens: &[u32], pos: usize) -> (logits: Vec<u32>)
        requires
            old(self).ready(),
            pos == old(self).fed().len(),
            0 < tokens@.len(),
            pos + tokens@.len() <= old(self).limit(),
            forall|i: int| 0 <= i < tokens@.len() ==> #[trigger] tokens@[i] < old(self).size(),
        ensures
            final(self).ready(),
            final(self).limit() == old(self).limit(),
            final(self).size() == old(self).size(),
            final(self).fed() == old(self).fed() + tokens@,
            logits@.len() == old(self).size(),
            logits@ == old(self).says(seq![tokens@]),
            forall|more: Seq<Seq<u32>>|
                more.len() > 0 ==> #[trigger] final(self).says(more) == old(self).says(
                    seq![tokens@] + more,
                ),
    ;

    /// Forgets the sequence.
    fn reset(&mut self)
        requires
            old(self).ready(),
        ensures
            final(self).ready(),
            final(self).limit() == old(self).limit(),
            final(self).size() == old(self).size(),
            final(self).fed() == Seq::<u32>::empty(),
            forall|more: Seq<Seq<u32>>|
                more.len() > 0 ==> #[trigger] final(self).says(more) == old(self).says_anew(more),
    ;

    /// Longest sequence the state has room for.
    fn max_len(&self) -> (n: usize)
        ensures
            n == self.limit(),
    ;
}

/// Whether a model goes on from where another is once it has been fed some
/// runs of tokens.
pub open spec fn goes_on<M: LanguageModel>(after: &M, before: &M, runs: Seq<Seq<u32>>) -> bool {
    forall|more: Seq<Seq<u32>>|
        more.len() > 0 ==> #[trigger] after.says(more) == before.says(runs + more)
}

/// Whether a model goes on from where another is.
pub open spec fn stays<M: LanguageModel>(after: &M, before: &M) -> bool {
    forall|more: Seq<Seq<u32>>|
        more.len() > 0 ==> #[trigger] after.says(more) == before.says(more)
}

/// A model that goes on from where another is, which goes on from where a
/// third is, goes on from there.
pub proof fn lemma_goes_on<M: LanguageModel>(
    last: &M,
    mid: &M,
    first: &M,
    runs: Seq<Seq<u32>>,
    more: Seq<Seq<u32>>,
)
    requires
        goes_on(mid, first, runs),
        goes_on(last, mid, more),
    ensures
        goes_on(last, first, runs + more),
{
    assert forall|rest: Seq<Seq<u32>>| rest.len() > 0 implies #[trigger] last.says(rest)
        == first.says(runs + more + rest) by {
        assert(last.says(rest) == mid.says(more + rest));
        assert(runs + (more + rest) =~= runs + more + rest);
    }
}

/// A model that goes on from where another is, goes on from wherever the
/// other does.
pub proof fn lemma_stayed<M: LanguageModel>(last: &M, mid: &M, first: &M, runs: Seq<Seq<u32>>)
    requires
        goes_on(mid, first, runs),
        stays(last, mid),
    ensures
        goes_on(last, first, runs),
{
    assert forall|rest: Seq<Seq<u32>>| rest.len() > 0 implies #[trigger] last.says(rest)
        == first.says(runs + rest) by {
        assert(last.says(rest) == mid.says(rest));
    }
}

impl<M: LanguageModel> LanguageModel for Box<M> {
    open spec fn ready(&self) -> bool {
        (**self).ready()
    }

    open spec fn fed(&self) -> Seq<u32> {
        (**self).fed()
    }

    open spec fn draft(&self) -> Seq<u32> {
        (**self).draft()
    }

    open spec fn limit(&self) -> nat {
        (**self).limit()
    }

    open spec fn size(&self) -> nat {
        (**self).size()
    }

    open spec fn saved(&self, len: nat) -> Option<Seq<u8>> {
        (**self).saved(len)
    }

    open spec fn opened(&self, state: Seq<u8>) -> Result<nat, Seq<char>> {
        (**self).opened(state)
    }

    open spec fn says(&self, runs: Seq<Seq<u32>>) -> Seq<u32> {
        (**self).says(runs)
    }

    open spec fn says_from(&self, state: Seq<u8>, runs: Seq<Seq<u32>>) -> Seq<u32> {
        (**self).says_from(state, runs)
    }

    open spec fn says_anew(&self, runs: Seq<Seq<u32>>) -> Seq<u32> {
        (**self).says_anew(runs)
    }

    open spec fn says_standing(&self, count: nat, runs: Seq<Seq<u32>>) -> Seq<u32> {
        (**self).says_standing(count, runs)
    }

    open spec fn tried(&self, tokens: Seq<u32>) -> Option<Seq<u32>> {
        (**self).tried(tokens)
    }

    fn save(&self, len: usize) -> (r: Option<Vec<u8>>) {
        (**self).save(len)
    }

    fn restore(&mut self, state: &[u8]) -> (r: Result<usize, String>) {
        (**self).restore(state)
    }

    fn verify(&mut self, tokens: &[u32], pos: usize) -> (r: Option<Vec<u32>>) {
        (**self).verify(tokens, pos)
    }

    fn commit(&mut self, count: usize) {
        (**self).commit(count)
    }

    fn forward(&mut self, tokens: &[u32], pos: usize) -> (logits: Vec<u32>) {
        (**self).forward(tokens, pos)
    }

    fn reset(&mut self) {
        (**self).reset()
    }

    fn max_len(&self) -> (n: usize) {
        (**self).max_len()
    }
}

} // verus!
