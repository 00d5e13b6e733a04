//! The decisions of autoregressive generation. The caller runs the model on
//! `tokens()`, samples the next id from the logits in `next_logits_range`, and
//! hands it to `accept`, until `accept` or `is_done` says to stop.
use vstd::prelude::*;

verus! {

/// A generation in progress: the tokens so far, and how many may still be added.
pub struct Generation {
    tokens: Vec<u32>,
    remaining: usize,
    eos_id: usize,
    stopped: bool,
}

impl View for Generation {
    type V = (Seq<u32>, nat, usize, bool);

    closed spec fn view(&self) -> Self::V {
        (self.tokens@, self.remaining as nat, self.eos_id, self.stopped)
    }
}

/// The prompt's ids as the model takes them.
pub open spec fn prompt_tokens(prompt: Seq<usize>) -> Seq<u32> {
    prompt.map_values(|id: usize| id as u32)
}

impl Generation {
    pub closed spec fn spec_tokens(self) -> Seq<u32> {
        self.tokens@
    }

    pub closed spec fn spec_remaining(self) -> nat {
        self.remaining as nat
    }

    pub closed spec fn spec_eos_id(self) -> usize {
        self.eos_id
    }

    pub closed spec fn spec_stopped(self) -> bool {
        self.stopped
    }

    /// Starts from the prompt's ids, allowing `max_new_tokens` more, stopping at `eos_id`.
    pub fn new(prompt: &[usize], max_new_tokens: usize, eos_id: usize) -> (g: Self)
        ensures
            g.spec_tokens() == prompt_tokens(prompt@),
            g.spec_remaining() == max_new_tokens,
            g.spec_eos_id() == eos_id,
            !g.spec_stopped(),
    {
        let mut tokens: Vec<u32> = Vec::new();
        let mut i: usize = 0;
        while i < prompt.len()
            invariant
                i <= prompt@.len(),
                tokens@ == prompt_tokens(prompt@.take(i as int)),
            decreases prompt@.len() - i,
        {
            tokens.push(prompt[i] as u32);
            proof {
                assert(prompt_tokens(prompt@.take(i + 1)) =~= prompt_tokens(prompt@.take(i as int)).push(prompt@[i as int] as u32));
            }
            i = i + 1;
        }
        assert(prompt@.take(i as int) =~= prompt@);
        Generation { tokens, remaining: max_new_tokens, eos_id, stopped: false }
    }

    /// The tokens so far.
    pub fn tokens(&self) -> (t: &Vec<u32>)
        ensures
            t@ == self.spec_tokens(),
    {
        &self.tokens
    }

    /// No further token will be added.
    pub fn is_done(&self) -> (d: bool)
        ensures
            d == (self.spec_stopped() || self.spec_remaining() == 0),
    {
        self.stopped || self.remaining == 0
    }

    /// Where the logits of the last position lie in the model's output of
    /// `tokens().len()` rows of `vocab_size` logits.
    pub fn next_logits_range(&self, vocab_size: usize) -> (r: (usize, usize))
        requires
            self.spec_tokens().len() >= 1,
            self.spec_tokens().len() * vocab_size <= usize::MAX,
        ensures
            r.0 == (self.spec_tokens().len() - 1) * vocab_size,
            r.1 == self.spec_tokens().len() * vocab_size,
    {
        let seq: usize = self.tokens.len();
        proof {
            assert((seq - 1) * vocab_size <= seq * vocab_size) by (nonlinear_arith)
                requires
                    seq >= 1,
            ;
        }
        ((seq - 1) * vocab_size, seq * vocab_size)
    }

    /// Takes the sampled id: the end-of-sequence id stops the generation,
    /// any other is appended.
    pub fn accept(&mut self, next_id: usize) -> (appended: bool)
        requires
            !old(self).spec_stopped(),
            old(self).spec_remaining() > 0,
        ensures
            appended == (next_id != old(self).spec_eos_id()),
            final(self).spec_eos_id() == old(self).spec_eos_id(),
            appended ==> final(self).spec_tokens() == old(self).spec_tokens().push(next_id as u32)
                && final(self).spec_remaining() == old(self).spec_remaining() - 1
                && !final(self).spec_stopped(),
            !appended ==> final(self).spec_tokens() == old(self).spec_tokens()
                && final(self).spec_remaining() == old(self).spec_remaining()
                && final(self).spec_stopped(),
    {
        if next_id == self.eos_id {
            self.stopped = true;
            false
        } else {
            self.tokens.push(next_id as u32);
            self.remaining = self.remaining - 1;
            true
        }
    }

    /// The ids of the finished text, as the tokenizer decodes them.
    pub fn output_ids(&self) -> (ids: Vec<usize>)
        ensures
            ids@ == self.spec_tokens().map_values(|t: u32| t as usize),
    {
        let mut ids: Vec<usize> = Vec::new();
        let mut i: usize = 0;
        while i < self.tokens.len()
            invariant
                i <= self.tokens@.len(),
                ids@ == self.tokens@.take(i as int).map_values(|t: u32| t as usize),
            decreases self.tokens@.len() - i,
        {
            ids.push(self.tokens[i] as usize);
            proof {
                assert(self.tokens@.take(i + 1).map_values(|t: u32| t as usize)
                    =~= self.tokens@.take(i as int).map_values(|t: u32| t as usize).push(self.tokens@[i as int] as usize));
            }
            i = i + 1;
        }
        assert(self.tokens@.take(i as int) =~= self.tokens@);
        ids
    }
}

} // verus!
