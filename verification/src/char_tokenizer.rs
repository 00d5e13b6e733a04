//! Character-level tokenizer.
//!
//! Id 0 is UNK, the fallback for characters that did not occur in the training
//! text; ids 1.. are the distinct characters of the training text in increasing
//! order. There is no BOS/EOS/PAD: `eos_id` is `usize::MAX` so that it never
//! matches a generated id, and `pad_id` is the UNK id 0.
use vstd::prelude::*;
use crate::tokenizer::{Tokenizer, TokenizerKind};

verus! {

/// Characters in strictly increasing code point order.
pub open spec fn chars_increasing(s: Seq<char>) -> bool {
    forall|i: int, j: int| 0 <= i < j < s.len() ==> (#[trigger] s[i] as int) < (#[trigger] s[j] as int)
}

/// The layout of a vocabulary: empty, or the UNK sentinel `'\0'` followed by
/// distinct characters in increasing order.
pub open spec fn vocab_wf(t: Seq<char>) -> bool {
    t.len() == 0 || (t[0] == '\0' && chars_increasing(t.drop_first()))
}

/// The characters that have an id of their own.
pub open spec fn known(t: Seq<char>, c: char) -> bool {
    exists|j: int| 1 <= j < t.len() && t[j] == c
}

/// `id` is the token of `c`: its position among the known characters, or 0.
pub open spec fn is_token_of(t: Seq<char>, c: char, id: usize) -> bool {
    if known(t, c) {
        1 <= id < t.len() && t[id as int] == c
    } else {
        id == 0
    }
}

/// The ids of a text, character by character.
pub open spec fn encodes(t: Seq<char>, text: Seq<char>, ids: Seq<usize>) -> bool {
    ids.len() == text.len() && forall|i: int| 0 <= i < text.len() ==> is_token_of(t, text[i], #[trigger] ids[i])
}

/// The text of a sequence of ids: UNK and ids outside the vocabulary give nothing.
pub open spec fn decode_ids(t: Seq<char>, ids: Seq<usize>) -> Seq<char>
    decreases ids.len(),
{
    if ids.len() == 0 {
        seq![]
    } else {
        let rest = decode_ids(t, ids.drop_last());
        let id = ids.last();
        if id != 0 && id < t.len() {
            rest.push(t[id as int])
        } else {
            rest
        }
    }
}

/// Decoding the ids of a text gives back the text without its unknown characters.
pub proof fn lemma_decode_encode(t: Seq<char>, text: Seq<char>, ids: Seq<usize>)
    requires
        vocab_wf(t),
        encodes(t, text, ids),
    ensures
        decode_ids(t, ids) == text.filter(|c: char| known(t, c)),
    decreases text.len(),
{
    reveal_with_fuel(Seq::filter, 1);
    if text.len() > 0 {
        let n = text.len() - 1;
        assert(encodes(t, text.drop_last(), ids.drop_last())) by {
            assert forall|i: int| 0 <= i < text.drop_last().len() implies is_token_of(t, text.drop_last()[i], #[trigger] ids.drop_last()[i]) by {
                assert(is_token_of(t, text[i], ids[i]));
            }
        }
        lemma_decode_encode(t, text.drop_last(), ids.drop_last());
        assert(is_token_of(t, text[n], ids[n]));
    } else {
        assert(text.filter(|c: char| known(t, c)) =~= seq![]);
    }
}

/// A text whose characters all have ids decodes back to itself.
pub proof fn lemma_decode_encode_known(t: Seq<char>, text: Seq<char>, ids: Seq<usize>)
    requires
        vocab_wf(t),
        encodes(t, text, ids),
        forall|i: int| 0 <= i < text.len() ==> known(t, #[trigger] text[i]),
    ensures
        decode_ids(t, ids) == text,
{
    lemma_decode_encode(t, text, ids);
    lemma_filter_all(text, |c: char| known(t, c));
}

/// A tokenizer trained on a text is lossless on that text: decoding its ids
/// gives the text back.
pub proof fn lemma_trained_roundtrip(t: Seq<char>, text: Seq<char>, ids: Seq<usize>)
    requires
        vocab_wf(t),
        t.len() >= 1,
        forall|c: char| t.drop_first().contains(c) <==> text.contains(c),
        encodes(t, text, ids),
    ensures
        decode_ids(t, ids) == text,
{
    assert forall|i: int| 0 <= i < text.len() implies known(t, #[trigger] text[i]) by {
        assert(text.contains(text[i]));
        assert(t.drop_first().contains(text[i]));
        let j = choose|j: int| 0 <= j < t.drop_first().len() && t.drop_first()[j] == text[i];
        assert(t[j + 1] == text[i]);
    }
    lemma_decode_encode_known(t, text, ids);
}

proof fn lemma_filter_all(s: Seq<char>, p: spec_fn(char) -> bool)
    requires
        forall|i: int| 0 <= i < s.len() ==> p(#[trigger] s[i]),
    ensures
        s.filter(p) == s,
    decreases s.len(),
{
    reveal_with_fuel(Seq::filter, 1);
    if s.len() > 0 {
        lemma_filter_all(s.drop_last(), p);
        assert(p(s[s.len() - 1]));
        assert(s.drop_last().push(s.last()) =~= s);
    } else {
        assert(s.filter(p) =~= s);
    }
}

/// Position of `c` in the increasing range `v[lo..]`, or where it would go.
fn search(v: &Vec<char>, lo: usize, c: char) -> (r: (usize, bool))
    requires
        lo <= v@.len(),
        chars_increasing(v@.skip(lo as int)),
    ensures
        lo <= r.0 <= v@.len(),
        forall|j: int| lo <= j < r.0 ==> (#[trigger] v@[j] as int) < (c as int),
        forall|j: int| r.0 <= j < v@.len() ==> (c as int) <= (#[trigger] v@[j] as int),
        r.1 == (r.0 < v@.len() && v@[r.0 as int] == c),
{
    let mut a = lo;
    let mut b = v.len();
    while a < b
        invariant
            lo <= a <= b <= v@.len(),
            chars_increasing(v@.skip(lo as int)),
            forall|j: int| lo <= j < a ==> (#[trigger] v@[j] as int) < (c as int),
            forall|j: int| b <= j < v@.len() ==> (c as int) <= (#[trigger] v@[j] as int),
        decreases b - a,
    {
        let mid = a + (b - a) / 2;
        if v[mid] < c {
            proof {
                assert forall|j: int| lo <= j < mid + 1 implies (#[trigger] v@[j] as int) < (c as int) by {
                    if j < mid {
                        assert(v@.skip(lo as int)[j - lo] == v@[j]);
                        assert(v@.skip(lo as int)[mid - lo] == v@[mid as int]);
                    }
                }
            }
            a = mid + 1;
        } else {
            proof {
                assert forall|j: int| mid <= j < v@.len() implies (c as int) <= (#[trigger] v@[j] as int) by {
                    if j > mid {
                        assert(v@.skip(lo as int)[j - lo] == v@[j]);
                        assert(v@.skip(lo as int)[mid - lo] == v@[mid as int]);
                    }
                }
            }
            b = mid;
        }
    }
    let found = a < v.len() && v[a] == c;
    proof {
        if a < v@.len() && v@[a as int] != c {
            assert((c as int) != (v@[a as int] as int));
        }
    }
    (a, found)
}

/// `std::string::String::push`: appends one character.
#[verifier::external_body]
pub(crate) fn push_char(s: &mut String, c: char)
    ensures
        final(s)@ == old(s)@.push(c),
{
    s.push(c);
}

/// Character-level tokenizer: id 0 is UNK, ids 1.. the training characters.
pub struct CharTokenizer {
    id_to_char: Vec<char>,
}

impl View for CharTokenizer {
    type V = Seq<char>;

    closed spec fn view(&self) -> Seq<char> {
        self.id_to_char@
    }
}

impl CharTokenizer {
    #[verifier::type_invariant]
    spec fn layout_inv(self) -> bool {
        vocab_wf(self.id_to_char@)
    }

    /// The vocabulary of a text: UNK, then its distinct characters in increasing order.
    pub fn train(text: &str) -> (t: Self)
        ensures
            vocab_wf(t@),
            t@.len() >= 1,
            t@[0] == '\0',
            chars_increasing(t@.drop_first()),
            forall|c: char| t@.drop_first().contains(c) <==> text@.contains(c),
    {
        let mut chars: Vec<char> = Vec::new();
        for c in it: text.chars()
            invariant
                it.seq() == text@,
                chars_increasing(chars@),
                forall|x: char| chars@.contains(x) <==> it.seq().take(it.index() as int).contains(x),
        {
            let ghost before = chars@;
            let ghost i = it.index() as int;
            proof {
                assert(chars@.skip(0) =~= chars@);
            }
            let (pos, found) = search(&chars, 0, c);
            if !found {
                chars.insert(pos, c);
                proof {
                    assert forall|a: int, b: int| 0 <= a < b < chars@.len() implies (#[trigger] chars@[a] as int) < (#[trigger] chars@[b] as int) by {
                        if b < pos {
                        } else if b == pos {
                        } else if a == pos {
                            assert(chars@[b] == before[b - 1]);
                        } else if a < pos {
                            assert(chars@[b] == before[b - 1]);
                        } else {
                            assert(chars@[a] == before[a - 1]);
                            assert(chars@[b] == before[b - 1]);
                        }
                    }
                }
            }
            proof {
                let seen = it.seq().take(i + 1);
                assert(seen =~= it.seq().take(i).push(c));
                assert forall|x: char| chars@.contains(x) <==> seen.contains(x) by {
                    if chars@.contains(x) {
                        let k = choose|k: int| 0 <= k < chars@.len() && chars@[k] == x;
                        if x != c {
                            if !found {
                                assert(k != pos);
                                let k0 = if k < pos { k } else { k - 1 };
                                assert(before[k0] == x);
                            } else {
                                assert(before[k] == x);
                            }
                            assert(before.contains(x));
                            let m = choose|m: int| 0 <= m < it.seq().take(i).len() && it.seq().take(i)[m] == x;
                            assert(seen[m] == x);
                        } else {
                            assert(seen[i] == c);
                        }
                    }
                    if seen.contains(x) {
                        let m = choose|m: int| 0 <= m < seen.len() && seen[m] == x;
                        if x == c {
                            if found {
                                assert(chars@[pos as int] == c);
                            } else {
                                assert(chars@[pos as int] == c);
                            }
                        } else {
                            assert(m < i);
                            assert(it.seq().take(i)[m] == x);
                            assert(before.contains(x));
                            let k = choose|k: int| 0 <= k < before.len() && before[k] == x;
                            if found {
                                assert(chars@[k] == x);
                            } else {
                                let k1 = if k < pos { k } else { k + 1 };
                                assert(chars@[k1] == x);
                            }
                        }
                    }
                }
            }
        }
        let mut id_to_char: Vec<char> = Vec::new();
        id_to_char.push('\0');
        let n = chars.len();
        let mut i: usize = 0;
        while i < n
            invariant
                n == chars@.len(),
                i <= n,
                id_to_char@ == seq!['\0'] + chars@.take(i as int),
            decreases n - i,
        {
            id_to_char.push(chars[i]);
            i = i + 1;
            assert(id_to_char@ =~= seq!['\0'] + chars@.take(i as int));
        }
        proof {
            assert(chars@.take(n as int) =~= chars@);
            assert(id_to_char@.drop_first() =~= chars@);
            assert(text@.take(text@.len() as int) =~= text@);
        }
        CharTokenizer { id_to_char }
    }

    /// A tokenizer with no vocabulary at all.
    pub fn empty() -> (t: Self)
        ensures
            t@ == Seq::<char>::empty(),
            vocab_wf(t@),
    {
        CharTokenizer { id_to_char: Vec::new() }
    }

    fn unk_id(&self) -> (id: usize)
        ensures
            id == 0,
    {
        0
    }

    /// The id of each character; characters outside the vocabulary get UNK.
    fn encode_chars(&self, text: &str) -> (ids: Vec<usize>)
        ensures
            encodes(self@, text@, ids@),
    {
        proof {
            use_type_invariant(self);
        }
        let unk = self.unk_id();
        let mut ids: Vec<usize> = Vec::new();
        let v = &self.id_to_char;
        for c in it: text.chars()
            invariant
                it.seq() == text@,
                vocab_wf(v@),
                v@ == self@,
                ids@.len() == it.index(),
                unk == 0,
                forall|i: int| 0 <= i < ids@.len() ==> is_token_of(v@, text@[i], #[trigger] ids@[i]),
        {
            let ghost i = it.index() as int;
            let id = if v.len() == 0 {
                unk
            } else {
                proof {
                    assert(v@.skip(1) =~= v@.drop_first());
                }
                let (pos, found) = search(v, 1, c);
                if found {
                    pos
                } else {
                    proof {
                        if known(v@, c) {
                            let j = choose|j: int| 1 <= j < v@.len() && v@[j] == c;
                            assert((v@[j] as int) != (c as int) || v@[j] == c);
                            if j < pos {
                            } else if j > pos {
                                assert(v@.drop_first()[pos - 1] == v@[pos as int]);
                                assert(v@.drop_first()[j - 1] == v@[j]);
                            }
                        }
                    }
                    unk
                }
            };
            ids.push(id);
            assert(text@[i] == c);
        }
        ids
    }
}

impl Tokenizer for CharTokenizer {
    fn vocab_size(&self) -> (n: usize)
        ensures
            n == self@.len(),
    {
        self.id_to_char.len()
    }

    fn pad_id(&self) -> (id: usize)
        ensures
            id == 0,
    {
        0
    }

    fn eos_id(&self) -> (id: usize)
        ensures
            id == usize::MAX,
    {
        usize::MAX
    }

    fn encode_long(&self, text: &str) -> (ids: Vec<usize>)
        ensures
            encodes(self@, text@, ids@),
    {
        self.encode_chars(text)
    }

    fn encode_prompt(&self, text: &str) -> (ids: Vec<usize>)
        ensures
            encodes(self@, text@, ids@),
    {
        self.encode_chars(text)
    }

    fn decode(&self, ids: &[usize]) -> (s: String)
        ensures
            s@ == decode_ids(self@, ids@),
    {
        let unk = self.unk_id();
        let mut out = String::new();
        let n = ids.len();
        let mut i: usize = 0;
        while i < n
            invariant
                n == ids@.len(),
                i <= n,
                unk == 0,
                out@ == decode_ids(self@, ids@.take(i as int)),
            decreases n - i,
        {
            let id = ids[i];
            proof {
                assert(ids@.take(i + 1).drop_last() =~= ids@.take(i as int));
            }
            if id != unk && id < self.id_to_char.len() {
                push_char(&mut out, self.id_to_char[id]);
            }
            i = i + 1;
        }
        assert(ids@.take(n as int) =~= ids@);
        out
    }

    fn kind(&self) -> (k: TokenizerKind)
        ensures
            k == TokenizerKind::Char,
    {
        TokenizerKind::Char
    }
}

} // verus!
