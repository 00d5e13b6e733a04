//! Token streams split into a training part and a validation part, and the
//! windows drawn from them.
use vstd::prelude::*;
use rand::rngs::StdRng;
use rand::RngExt;
use vstd::utf8::encode_utf8;

verus! {

/// `rand::rngs::StdRng`, the seeded generator that windows are drawn with; opaque here.
#[verifier::external_type_specification]
#[verifier::external_body]
pub struct ExStdRng(StdRng);

/// `rand::RngExt::random_range` on `0..=max`: a random offset, never above `max`.
#[verifier::external_body]
fn random_offset(rng: &mut StdRng, max: usize) -> (r: usize)
    ensures
        r <= max,
{
    rng.random_range(0..=max)
}

/// Which part of a dataset to draw from.
#[derive(Clone, Copy, Debug, PartialEq, Eq, Structural)]
pub enum Split {
    Train,
    Val,
}

/// Token ids for training and for validation.
pub struct Dataset {
    pub train: Vec<u32>,
    pub val: Vec<u32>,
    pub val_text_len_chars: usize,
}

/// Each byte of `s` widened to `u32`.
pub open spec fn widened(s: Seq<u8>) -> Seq<u32> {
    Seq::new(s.len(), |i: int| s[i] as u32)
}

impl Dataset {
    /// The tokens of the given part.
    pub open spec fn part(&self, split: Split) -> Seq<u32> {
        match split {
            Split::Train => self.train@,
            Split::Val => self.val@,
        }
    }

    /// Splits the bytes of `text` (one token per byte): the first `train_len`
    /// bytes train, the rest validate.
    pub fn from_str_at(text: &str, train_len: usize) -> (d: Self)
        requires
            train_len < encode_utf8(text@).len(),
        ensures
            d.train@ == widened(encode_utf8(text@)).take(train_len as int),
            d.val@ == widened(encode_utf8(text@)).skip(train_len as int),
            d.val_text_len_chars == d.val@.len(),
    {
        let bytes = text.as_bytes();
        let n = bytes.len();
        let mut train: Vec<u32> = Vec::new();
        let mut val: Vec<u32> = Vec::new();
        let ghost all = widened(bytes@);
        let mut i: usize = 0;
        while i < n
            invariant
                n == bytes@.len(),
                all == widened(bytes@),
                train_len < n,
                i <= n,
                i <= train_len ==> train@ == all.take(i as int) && val@.len() == 0,
                i > train_len ==> train@ == all.take(train_len as int) && val@ == all.subrange(train_len as int, i as int),
            decreases n - i,
        {
            let b = bytes[i] as u32;
            if i < train_len {
                train.push(b);
                assert(train@ =~= all.take(i + 1));
            } else {
                val.push(b);
                assert(val@ =~= all.subrange(train_len as int, i + 1));
            }
            i = i + 1;
        }
        assert(all.subrange(train_len as int, n as int) =~= all.skip(train_len as int));
        let val_text_len_chars = val.len();
        Dataset { train, val, val_text_len_chars }
    }

    /// Splits a token stream: the last `val_len` tokens validate, the rest train.
    pub fn from_tokens_at(tokens: Vec<u32>, val_len: usize, val_text_len_chars: usize) -> (d: Self)
        requires
            0 < val_len < tokens@.len(),
        ensures
            d.train@ == tokens@.take(tokens@.len() - val_len),
            d.val@ == tokens@.skip(tokens@.len() - val_len),
            d.val_text_len_chars == val_text_len_chars,
    {
        let mut train = tokens;
        let train_len = train.len() - val_len;
        let val = train.split_off(train_len);
        Dataset { train, val, val_text_len_chars }
    }

    /// The `seq_len + 1` tokens of the given part that start at `offset`.
    pub fn window_at(&self, split: Split, seq_len: usize, offset: usize) -> (w: Vec<u32>)
        requires
            offset + seq_len + 1 <= self.part(split).len(),
        ensures
            w@ == self.part(split).subrange(offset as int, offset + seq_len + 1),
    {
        let data = match split {
            Split::Train => &self.train,
            Split::Val => &self.val,
        };
        let n = data.len();
        assert(n == data@.len());
        let end = offset + seq_len + 1;
        let mut w: Vec<u32> = Vec::new();
        let mut i = offset;
        while i < end
            invariant
                data@ == self.part(split),
                offset <= i <= end,
                end <= data@.len(),
                w@ == data@.subrange(offset as int, i as int),
            decreases end - i,
        {
            w.push(data[i]);
            i = i + 1;
            assert(w@ =~= data@.subrange(offset as int, i as int));
        }
        w
    }

    /// The largest offset at which a window of `seq_len + 1` tokens of the
    /// given part still fits; windows are drawn from offsets `0 ..= max_offset`.
    pub fn max_offset(&self, split: Split, seq_len: usize) -> (r: usize)
        requires
            seq_len + 1 <= self.part(split).len(),
        ensures
            r == self.part(split).len() - (seq_len + 1),
    {
        let len: usize = match split {
            Split::Train => self.train.len(),
            Split::Val => self.val.len(),
        };
        len - seq_len - 1
    }

    /// A random window of `seq_len + 1` consecutive tokens of the given part,
    /// starting at an offset drawn from `0 ..= max_offset(split, seq_len)`.
    pub fn sample_window(&self, split: Split, seq_len: usize, rng: &mut StdRng) -> (w: Vec<u32>)
        requires
            seq_len + 1 <= self.part(split).len(),
        ensures
            exists|offset: int|
                0 <= offset <= self.part(split).len() - (seq_len + 1)
                && w@ == #[trigger] self.part(split).subrange(offset, offset + seq_len + 1),
    {
        let max_off = self.max_offset(split, seq_len);
        let offset = random_offset(rng, max_off);
        let w = self.window_at(split, seq_len, offset);
        assert(w@ == self.part(split).subrange(offset as int, offset + seq_len + 1));
        w
    }
}

} // verus!
