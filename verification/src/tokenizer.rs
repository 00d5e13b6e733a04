use vstd::prelude::*;
use crate::char_tokenizer::{CharTokenizer, vocab_wf, chars_increasing};

verus! {

/// Which tokenizer a checkpoint or training run uses.
#[derive(Clone, Copy, Debug, PartialEq, Eq, Structural)]
pub enum TokenizerKind {
    Char,
    CharBpe,
}

/// A tag read from a checkpoint that names no known tokenizer.
#[derive(Clone, Copy, Debug, PartialEq, Eq, Structural)]
pub struct UnknownTokenizerKind {
    pub tag: u64,
}

/// The numeric tag under which each tokenizer kind is stored.
pub open spec fn kind_tag(kind: TokenizerKind) -> u64 {
    match kind {
        TokenizerKind::Char => 2,
        TokenizerKind::CharBpe => 3,
    }
}

impl TokenizerKind {
    pub fn as_u64(&self) -> (tag: u64)
        ensures
            tag == kind_tag(*self),
    {
        match self {
            TokenizerKind::Char => 2,
            TokenizerKind::CharBpe => 3,
        }
    }

    pub fn from_u64(v: u64) -> (res: Result<Self, UnknownTokenizerKind>)
        ensures
            v == 2 ==> res == Ok::<Self, UnknownTokenizerKind>(TokenizerKind::Char),
            v == 3 ==> res == Ok::<Self, UnknownTokenizerKind>(TokenizerKind::CharBpe),
            v != 2 && v != 3 ==> res == Err::<Self, UnknownTokenizerKind>(UnknownTokenizerKind { tag: v }),
    {
        match v {
            2 => Ok(TokenizerKind::Char),
            3 => Ok(TokenizerKind::CharBpe),
            other => Err(UnknownTokenizerKind { tag: other }),
        }
    }
}

/// What training and inference need of a tokenizer.
pub trait Tokenizer: Send {
    fn vocab_size(&self) -> usize;

    fn pad_id(&self) -> usize;

    /// The id that stops generation; `usize::MAX` for tokenizers without EOS.
    fn eos_id(&self) -> usize;

    /// Encodes a whole corpus once.
    fn encode_long(&self, text: &str) -> Vec<usize>;

    /// Encodes an inference prompt.
    fn encode_prompt(&self, text: &str) -> Vec<usize>;

    fn decode(&self, ids: &[usize]) -> String;

    fn kind(&self) -> TokenizerKind;
}

/// Trains a tokenizer of the given kind on `text`. A character tokenizer takes
/// every distinct character of `text`; the merge-based kind is not provided by
/// this library, and asking for it gives `None`.
pub fn train_tokenizer(kind: TokenizerKind, text: &str, vocab_size: usize) -> (r: Option<CharTokenizer>)
    ensures
        (kind == TokenizerKind::CharBpe) == (r is None),
        r matches Some(t) ==> {
            &&& vocab_wf(t@)
            &&& t@.len() >= 1
            &&& t@[0] == '\0'
            &&& chars_increasing(t@.drop_first())
            &&& forall|c: char| t@.drop_first().contains(c) <==> text@.contains(c)
        },
{
    match kind {
        TokenizerKind::Char => Some(CharTokenizer::train(text)),
        TokenizerKind::CharBpe => None,
    }
}

/// Reading back the tag of a kind gives that kind.
pub proof fn lemma_kind_tag_roundtrip(kind: TokenizerKind)
    ensures
        kind_tag(kind) == 2 || kind_tag(kind) == 3,
        kind_tag(kind) == 2 ==> kind == TokenizerKind::Char,
        kind_tag(kind) == 3 ==> kind == TokenizerKind::CharBpe,
{
}

} // verus!
