//! Sentence vectors by averaging word vectors.
//!
//! A sentence is lower-cased, stripped of non-alphanumeric characters at both
//! ends, split on whitespace, and each token is stripped the same way. Every
//! token the provider knows contributes its vector to a component-wise sum;
//! the sum, divided component by component by the number of matching tokens,
//! is the sentence's vector. A sentence with no matching token has none.

use vstd::prelude::*;
use vstd::pervasive::VecAdditionalExecFns;

use crate::bits::{add_bits, div_bits, usize_bits, f32_add, f32_div, f32_from_usize};
use crate::text::{chars_of, lower_of, lowercase, split_chars, split_ws, string_from_chars, trim_chars, trim_spec};
use crate::word2vec::{Word2VecTrait, WordVec, cosine_bits};

verus! {

/// The tokens a sentence yields: lower-case it, trim non-alphanumeric
/// characters from both ends, split on whitespace, trim each token the same
/// way.
pub open spec fn sentence_tokens(s: Seq<char>) -> Seq<Seq<char>> {
    split_ws(trim_spec(lower_of(s))).map_values(|t: Seq<char>| trim_spec(t))
}

/// One token's contribution: if the provider knows it, add its vector to the
/// running sums, component by component (a too-short vector leaves the upper
/// components alone), and count the match.
pub open spec fn accumulate(acc: Seq<u32>, w: Seq<u32>) -> Seq<u32> {
    Seq::new(
        acc.len(),
        |i: int|
            if i < w.len() {
                add_bits(acc[i], w[i])
            } else {
                acc[i]
            },
    )
}

/// The running sums and the match count after the first `n` tokens, starting
/// from all-zero bit patterns.
pub open spec fn sum_tokens<T: Word2VecTrait>(
    p: &T,
    toks: Seq<Seq<char>>,
    dim: nat,
    n: int,
) -> (Seq<u32>, nat)
    decreases n,
{
    if n <= 0 {
        (Seq::new(dim, |i: int| 0u32), 0)
    } else {
        let (acc, count) = sum_tokens(p, toks, dim, n - 1);
        match p.lookup(toks[n - 1]) {
            Some(w) => (accumulate(acc, w), count + 1),
            None => (acc, count),
        }
    }
}

/// What the averager answers for a sentence: `None` when no token matched,
/// otherwise the sums divided by the match count (the count converted to its
/// binary32 bit pattern).
pub open spec fn spec_sentence_vec<T: Word2VecTrait>(p: &T, s: Seq<char>, dim: nat) -> Option<
    Seq<u32>,
> {
    let toks = sentence_tokens(s);
    let (acc, count) = sum_tokens(p, toks, dim, toks.len() as int);
    if count == 0 {
        None
    } else {
        Some(Seq::new(dim, |i: int| div_bits(acc[i], usize_bits(count as usize))))
    }
}

/// The sentence averager: a provider of word vectors plus the dimension the
/// sentence vectors have.
pub struct Sentence2Vec<T: Word2VecTrait> {
    word2vec: T,
    dim: usize,
}

impl<T: Word2VecTrait> Sentence2Vec<T> {
    /// The provider this averager asks.
    pub closed spec fn provider(&self) -> &T {
        &self.word2vec
    }

    /// The dimension of the vectors this averager returns.
    pub closed spec fn spec_dim(&self) -> nat {
        self.dim as nat
    }

    /// Wrap a provider; sentence vectors will have `dim` components.
    pub fn new(word2vec: T, dim: usize) -> (r: Sentence2Vec<T>)
        ensures
            r.provider() == word2vec,
            r.spec_dim() == dim,
    {
        Sentence2Vec { word2vec, dim }
    }

    /// The sentence's vector: the arithmetic mean of the vectors of its
    /// recognized words; `None` when no word of the sentence is known to the
    /// provider, and always `None` for the empty sentence.
    pub fn get_vec(&self, sentence: &str) -> (r: Option<WordVec>)
        ensures
            match r {
                Some(wv) => spec_sentence_vec(self.provider(), sentence@, self.spec_dim())
                    == Some(wv@),
                None => spec_sentence_vec(self.provider(), sentence@, self.spec_dim()) is None,
            },
            sentence@.len() == 0 ==> r is None,
    {
        let low = lowercase(sentence);
        let cs = chars_of(low.as_str());
        let trimmed = trim_chars(&cs);
        let toks = split_chars(&trimmed);
        let ghost stoks = sentence_tokens(sentence@);
        proof {
            assert(stoks =~= toks.deep_view().map_values(|t: Seq<char>| trim_spec(t)));
            assert forall|j: int| 0 <= j < toks@.len() implies stoks[j] == trim_spec(
                (#[trigger] toks@[j])@,
            ) by {
                assert(toks.deep_view()[j] == toks@[j].deep_view());
                assert(toks@[j].deep_view() =~= toks@[j]@);
            }
        }
        let dim = self.dim;
        let mut acc: Vec<u32> = Vec::new();
        let mut i: usize = 0;
        while i < dim
            invariant
                i <= dim,
                acc@ =~= Seq::new(i as nat, |j: int| 0u32),
            decreases dim - i,
        {
            acc.push(0);
            proof {
                assert(acc@ =~= Seq::new((i + 1) as nat, |j: int| 0u32));
            }
            i = i + 1;
        }
        let mut count: usize = 0;
        let mut t: usize = 0;
        proof {
            assert((acc@, count as nat) == sum_tokens(
                self.provider(),
                stoks,
                dim as nat,
                0int,
            ));
        }
        while t < toks.len()
            invariant
                t <= toks.len(),
                dim == self.dim,
                stoks == sentence_tokens(sentence@),
                stoks.len() == toks.len(),
                forall|j: int| 0 <= j < toks@.len() ==> stoks[j] == trim_spec(
                    (#[trigger] toks@[j])@,
                ),
                toks@.len() == toks.len(),
                count <= t,
                acc@.len() == dim,
                (acc@, count as nat) == sum_tokens(
                    self.provider(),
                    stoks,
                    dim as nat,
                    t as int,
                ),
            decreases toks.len() - t,
        {
            let tok = trim_chars(&toks[t]);
            let word = string_from_chars(&tok);
            proof {
                assert(word@ == trim_spec(toks@[t as int]@));
                assert(word@ == stoks[t as int]);
            }
            match self.word2vec.get_vec(word.as_str()) {
                Some(wv) => {
                    let w = wv.get_vec();
                    let ghost accb = acc@;
                    let m = w.len();
                    let mut j: usize = 0;
                    while j < dim
                        invariant
                            j <= dim,
                            acc@.len() == dim,
                            m == w@.len(),
                            accb.len() == dim,
                            forall|x: int| 0 <= x < j ==> acc@[x] == accumulate(accb, w@)[x],
                            forall|x: int| j <= x < dim ==> #[trigger] acc@[x] == accb[x],
                        decreases dim - j,
                    {
                        if j < m {
                            let sum = f32_add(acc[j], w[j]);
                            acc.set(j, sum);
                        }
                        j = j + 1;
                    }
                    proof {
                        assert(acc@ =~= accumulate(accb, w@));
                    }
                    count = count + 1;
                },
                None => {},
            }
            t = t + 1;
        }
        if count == 0 {
            return None;
        }
        proof {
            if sentence@.len() == 0 {
                assert(low@.len() == 0);
                assert(cs@ =~= Seq::<char>::empty());
                assert(trimmed@ =~= Seq::<char>::empty());
                assert(toks.deep_view().len() == 0);
                assert(false);
            }
        }
        let divisor = f32_from_usize(count);
        let ghost sums = acc@;
        let mut j: usize = 0;
        while j < dim
            invariant
                j <= dim,
                acc@.len() == dim,
                sums.len() == dim,
                divisor == usize_bits(count),
                forall|x: int| 0 <= x < j ==> acc@[x] == div_bits(sums[x], divisor),
                forall|x: int| j <= x < dim ==> #[trigger] acc@[x] == sums[x],
            decreases dim - j,
        {
            let q = f32_div(acc[j], divisor);
            acc.set(j, q);
            j = j + 1;
        }
        proof {
            assert(acc@ =~= Seq::new(dim as nat, |x: int| div_bits(sums[x], usize_bits(count))));
        }
        Some(WordVec::new(acc))
    }

    /// The squared-cosine similarity of two sentences' vectors; `None` when
    /// either sentence has no vector.
    pub fn cosine(&self, sentence1: &str, sentence2: &str) -> (r: Option<u32>)
        ensures
            r == match (
                spec_sentence_vec(self.provider(), sentence1@, self.spec_dim()),
                spec_sentence_vec(self.provider(), sentence2@, self.spec_dim()),
            ) {
                (Some(a), Some(b)) => Some(cosine_bits(a, b)),
                _ => None::<u32>,
            },
    {
        let vec1 = match self.get_vec(sentence1) {
            Some(v) => v,
            None => {
                return None;
            },
        };
        let vec2 = match self.get_vec(sentence2) {
            Some(v) => v,
            None => {
                return None;
            },
        };
        Some(vec1.cosine(&vec2))
    }
}

} // verus!
