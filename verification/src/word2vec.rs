//! The word-vector store.
//!
//! A [`WordVec`] is one word's embedding: a fixed-length vector whose
//! components are IEEE 754 binary32 bit patterns (see [`crate::bits`]). A
//! [`Word2Vec`] maps words to such vectors; it keeps its entries sorted by
//! word, with unique keys, and every record of one store has the store's
//! dimension.

use vstd::prelude::*;

use crate::bits::{MAX_NUMBER_TOKEN_LEN, add_bits, div_bits, mul_bits, parse_bits, f32_add, f32_div, f32_mul, f32_parse};
use crate::order::{lex_lt, lemma_lex_irrefl, lemma_lex_total, lemma_lex_trans, str_lt};
use crate::text::{chars_of, split_chars, split_ws, string_from_chars};

verus! {

/// One word's vector: the components are IEEE 754 binary32 bit patterns.
pub struct WordVec {
    vec: Vec<u32>,
}

impl View for WordVec {
    type V = Seq<u32>;

    closed spec fn view(&self) -> Seq<u32> {
        self.vec@
    }
}

impl DeepView for WordVec {
    type V = Seq<u32>;

    open spec fn deep_view(&self) -> Seq<u32> {
        self.view()
    }
}

impl Clone for WordVec {
    fn clone(&self) -> (r: Self)
        ensures
            r@ == self@,
    {
        let mut v: Vec<u32> = Vec::new();
        let mut i: usize = 0;
        while i < self.vec.len()
            invariant
                i <= self.vec.len(),
                v@ =~= self.vec@.take(i as int),
            decreases self.vec.len() - i,
        {
            v.push(self.vec[i]);
            proof {
                assert(v@ =~= self.vec@.take(i + 1));
            }
            i = i + 1;
        }
        proof {
            assert(self.vec@.take(self.vec@.len() as int) =~= self.vec@);
        }
        WordVec { vec: v }
    }
}

/// The running sum, as bit patterns, of the products of the first `n`
/// components of `a` and `b`: the dot product's accumulator.
pub open spec fn dot_upto(a: Seq<u32>, b: Seq<u32>, n: int) -> u32
    decreases n,
{
    if n <= 0 {
        0u32
    } else {
        add_bits(dot_upto(a, b, n - 1), mul_bits(a[n - 1], b[n - 1]))
    }
}

/// The running sum, as bit patterns, of the squares of the first `n`
/// components of `a`: the squared norm's accumulator.
pub open spec fn norm_sq_upto(a: Seq<u32>, n: int) -> u32
    decreases n,
{
    if n <= 0 {
        0u32
    } else {
        add_bits(norm_sq_upto(a, n - 1), mul_bits(a[n - 1], a[n - 1]))
    }
}

pub open spec fn min_len(a: Seq<u32>, b: Seq<u32>) -> int {
    if a.len() <= b.len() {
        a.len() as int
    } else {
        b.len() as int
    }
}

/// The similarity this store implements: `dot(a,b)^2 / (|a|^2 * |b|^2)`, the
/// square of the standard cosine similarity. The squaring discards the sign,
/// so opposite vectors score like identical ones; the formula is kept as the
/// store has always computed it. When either norm is zero the division is
/// 0/0, which is IEEE NaN: a degenerate result, not an error.
pub open spec fn cosine_bits(a: Seq<u32>, b: Seq<u32>) -> u32 {
    let n = min_len(a, b);
    let d = dot_upto(a, b, n);
    div_bits(mul_bits(d, d), mul_bits(norm_sq_upto(a, n), norm_sq_upto(b, n)))
}

impl WordVec {
    /// Create a new WordVec from a vector of component bit patterns.
    pub fn new(vec: Vec<u32>) -> (r: WordVec)
        ensures
            r@ == vec@,
    {
        WordVec { vec }
    }

    /// The components, as bit patterns.
    pub fn get_vec(&self) -> (r: &Vec<u32>)
        ensures
            r@ == self@,
    {
        &self.vec
    }

    /// The number of components.
    pub fn len(&self) -> (n: usize)
        ensures
            n == self@.len(),
    {
        self.vec.len()
    }

    /// The squared-cosine similarity of two vectors, as a bit pattern
    /// (see [`cosine_bits`]). Vectors of unequal length are compared over
    /// their common prefix.
    pub fn cosine(&self, vec: &WordVec) -> (r: u32)
        ensures
            r == cosine_bits(self@, vec@),
    {
        let n = if self.vec.len() <= vec.vec.len() {
            self.vec.len()
        } else {
            vec.vec.len()
        };
        let mut dot: u32 = 0;
        let mut norm1: u32 = 0;
        let mut norm2: u32 = 0;
        let mut i: usize = 0;
        while i < n
            invariant
                i <= n,
                n == min_len(self@, vec@),
                n <= self.vec@.len(),
                n <= vec.vec@.len(),
                dot == dot_upto(self@, vec@, i as int),
                norm1 == norm_sq_upto(self@, i as int),
                norm2 == norm_sq_upto(vec@, i as int),
            decreases n - i,
        {
            dot = f32_add(dot, f32_mul(self.vec[i], vec.vec[i]));
            norm1 = f32_add(norm1, f32_mul(self.vec[i], self.vec[i]));
            norm2 = f32_add(norm2, f32_mul(vec.vec[i], vec.vec[i]));
            i = i + 1;
        }
        f32_div(f32_mul(dot, dot), f32_mul(norm1, norm2))
    }
}

/// Against itself, a vector's dot product accumulates exactly as its squared
/// norm does, bit for bit.
pub proof fn lemma_dot_self_is_norm_sq(a: Seq<u32>, n: int)
    ensures
        dot_upto(a, a, n) == norm_sq_upto(a, n),
    decreases n,
{
    if n > 0 {
        lemma_dot_self_is_norm_sq(a, n - 1);
    }
}

/// A vector compared with itself: the squared dot product and the product of
/// the squared norms are the same bit pattern, so the similarity is an IEEE
/// quotient of a value by itself — 1.0 whenever the squared norm is finite
/// and nonzero, and NaN (0/0) when the norm is zero.
pub proof fn lemma_cosine_self(a: Seq<u32>)
    ensures
        ({
            let d = dot_upto(a, a, a.len() as int);
            cosine_bits(a, a) == div_bits(mul_bits(d, d), mul_bits(d, d))
        }),
{
    lemma_dot_self_is_norm_sq(a, a.len() as int);
}

/// The mathematical model of a store: its entries in order, each a word (as a
/// character sequence) with its vector (as component bit patterns).
pub type StoreModel = Seq<(Seq<char>, Seq<u32>)>;

/// The entries are strictly ascending by word, so every key is unique.
pub open spec fn sorted_model(v: StoreModel) -> bool {
    forall|i: int, j: int| 0 <= i < j < v.len() ==> lex_lt(#[trigger] v[i].0, #[trigger] v[j].0)
}

/// Every record has the store's dimension.
pub open spec fn all_dim(v: StoreModel, dim: nat) -> bool {
    forall|i: int| 0 <= i < v.len() ==> (#[trigger] v[i].1).len() == dim
}

pub open spec fn valid_model(v: StoreModel, dim: nat) -> bool {
    sorted_model(v) && all_dim(v, dim)
}

/// Whether some entry holds the word `u`.
pub open spec fn has_word(v: StoreModel, u: Seq<char>) -> bool {
    exists|i: int| 0 <= i < v.len() && (#[trigger] v[i]).0 == u
}

/// The vector stored under the word `u`, if any.
pub open spec fn spec_get(v: StoreModel, u: Seq<char>) -> Option<Seq<u32>> {
    if has_word(v, u) {
        Some(v[choose|i: int| 0 <= i < v.len() && (#[trigger] v[i]).0 == u].1)
    } else {
        None
    }
}

/// In a sorted store no word occurs twice.
pub proof fn lemma_sorted_unique(v: StoreModel, i: int, j: int)
    requires
        sorted_model(v),
        0 <= i < v.len(),
        0 <= j < v.len(),
        v[i].0 == v[j].0,
    ensures
        i == j,
{
    if i < j {
        lemma_lex_irrefl(v[i].0);
    }
    if j < i {
        lemma_lex_irrefl(v[i].0);
    }
}

/// What looking a word up in a plain (possibly unsorted, possibly repeating)
/// list of entries yields: the record of the last entry holding the word, as
/// inserting the list into a map front to back would leave it.
pub open spec fn list_get(l: StoreModel, u: Seq<char>) -> Option<Seq<u32>>
    decreases l.len(),
{
    if l.len() == 0 {
        None
    } else if l.last().0 == u {
        Some(l.last().1)
    } else {
        list_get(l.drop_last(), u)
    }
}

/// What a token contributes as a component: its parsed value, where a token
/// short enough to be a number at all (see [`MAX_NUMBER_TOKEN_LEN`]) parses
/// as one, and nothing otherwise.
pub open spec fn token_value(t: Seq<char>) -> Option<u32> {
    if t.len() <= MAX_NUMBER_TOKEN_LEN {
        parse_bits(t)
    } else {
        None
    }
}

/// The component bit patterns that the numeric tokens of a line yield, in
/// order; tokens that do not parse as numbers are dropped.
pub open spec fn parsed_comps(toks: Seq<Seq<char>>) -> Seq<u32>
    decreases toks.len(),
{
    if toks.len() == 0 {
        Seq::empty()
    } else {
        parsed_comps(toks.drop_last()) + match token_value(toks.last()) {
            Some(v) => seq![v],
            None => Seq::empty(),
        }
    }
}

/// What one corpus line yields: the first whitespace-separated token is the
/// word, the `dim` further tokens are the record's components. A line is
/// accepted exactly when it has `dim + 1` tokens and every component token
/// parses as a number; any other line — blank, too short, too long, or with
/// an unparseable component — yields nothing and is skipped.
pub open spec fn parse_line(line: Seq<char>, dim: nat) -> Option<(Seq<char>, Seq<u32>)> {
    let toks = split_ws(line);
    if toks.len() != dim + 1 {
        None
    } else {
        let comps = parsed_comps(toks.drop_first());
        if comps.len() == dim {
            Some((toks[0], comps))
        } else {
            None
        }
    }
}

/// What loading the given corpus lines stores under the word `u`: the record
/// of the last well-formed line for that word; malformed lines are skipped
/// and change nothing.
pub open spec fn lines_get(ls: Seq<Seq<char>>, dim: nat, u: Seq<char>) -> Option<Seq<u32>>
    decreases ls.len(),
{
    if ls.len() == 0 {
        None
    } else {
        match parse_line(ls.last(), dim) {
            Some(e) => if e.0 == u {
                Some(e.1)
            } else {
                lines_get(ls.drop_last(), dim, u)
            },
            None => lines_get(ls.drop_last(), dim, u),
        }
    }
}

/// A sequence without its first element; the empty sequence stays empty.
pub open spec fn tail_of<T>(s: Seq<T>) -> Seq<T> {
    if s.len() == 0 {
        s
    } else {
        s.drop_first()
    }
}

/// In a valid store every record a lookup can answer has the store's
/// dimension.
pub proof fn lemma_get_dim(v: StoreModel, dim: nat, u: Seq<char>)
    requires
        valid_model(v, dim),
        spec_get(v, u) is Some,
    ensures
        spec_get(v, u)->Some_0.len() == dim,
{
    let j = choose|i: int| 0 <= i < v.len() && (#[trigger] v[i]).0 == u;
    assert(v[j].1.len() == dim);
}

/// In a sorted store, `spec_get` returns exactly the entry at any witness
/// index.
pub proof fn lemma_spec_get_at(v: StoreModel, i: int)
    requires
        sorted_model(v),
        0 <= i < v.len(),
    ensures
        spec_get(v, v[i].0) == Some(v[i].1),
{
    assert(has_word(v, v[i].0));
    let j = choose|j: int| 0 <= j < v.len() && (#[trigger] v[j]).0 == v[i].0;
    lemma_sorted_unique(v, i, j);
}

/// In a sorted store, dropping the first entry changes no other word's
/// lookup, and the dropped word is gone.
proof fn lemma_spec_get_drop_first(v: StoreModel, u: Seq<char>)
    requires
        sorted_model(v),
        v.len() > 0,
    ensures
        u != v[0].0 ==> spec_get(v.drop_first(), u) == spec_get(v, u),
        spec_get(v.drop_first(), v[0].0) is None,
{
    let t = v.drop_first();
    assert forall|i: int, j: int| 0 <= i < j < t.len() implies lex_lt(
        (#[trigger] t[i]).0,
        (#[trigger] t[j]).0,
    ) by {
        assert(t[i] == v[i + 1]);
        assert(t[j] == v[j + 1]);
    }
    if has_word(t, v[0].0) {
        let i = choose|i: int| 0 <= i < t.len() && (#[trigger] t[i]).0 == v[0].0;
        assert(t[i] == v[i + 1]);
        lemma_sorted_unique(v, 0, i + 1);
    }
    if u != v[0].0 {
        if has_word(v, u) {
            let i = choose|i: int| 0 <= i < v.len() && (#[trigger] v[i]).0 == u;
            lemma_spec_get_at(v, i);
            assert(t[i - 1] == v[i]);
            lemma_spec_get_at(t, i - 1);
        } else {
            if has_word(t, u) {
                let i = choose|i: int| 0 <= i < t.len() && (#[trigger] t[i]).0 == u;
                assert(t[i] == v[i + 1]);
                assert(has_word(v, u));
            }
        }
    }
}

/// In a sorted store a plain front-to-back list lookup and the map lookup
/// agree: sorted unique entries hold each word once.
pub proof fn lemma_list_get_sorted(v: StoreModel, u: Seq<char>)
    requires
        sorted_model(v),
    ensures
        list_get(v, u) == spec_get(v, u),
    decreases v.len(),
{
    if v.len() == 0 {
    } else if v.last().0 == u {
        lemma_spec_get_at(v, v.len() - 1);
    } else {
        let t = v.drop_last();
        assert forall|i: int, j: int| 0 <= i < j < t.len() implies lex_lt(
            (#[trigger] t[i]).0,
            (#[trigger] t[j]).0,
        ) by {
            assert(t[i] == v[i]);
            assert(t[j] == v[j]);
        }
        lemma_list_get_sorted(t, u);
        if has_word(v, u) {
            let i = choose|i: int| 0 <= i < v.len() && (#[trigger] v[i]).0 == u;
            assert(i < v.len() - 1);
            lemma_spec_get_at(v, i);
            assert(t[i] == v[i]);
            lemma_spec_get_at(t, i);
        } else {
            if has_word(t, u) {
                let i = choose|i: int| 0 <= i < t.len() && (#[trigger] t[i]).0 == u;
                assert(t[i] == v[i]);
                assert(has_word(v, u));
            }
        }
    }
}

/// A sorted store is determined by its lookups: two sorted runs of entries
/// that answer every word alike are the same run.
pub proof fn lemma_valid_model_canonical(v1: StoreModel, v2: StoreModel)
    requires
        sorted_model(v1),
        sorted_model(v2),
        forall|u: Seq<char>| #[trigger] spec_get(v1, u) == spec_get(v2, u),
    ensures
        v1 == v2,
    decreases v1.len(),
{
    if v1.len() == 0 {
        if v2.len() > 0 {
            lemma_spec_get_at(v2, 0);
            assert(spec_get(v1, v2[0].0) is None);
        }
        assert(v1 =~= v2);
    } else if v2.len() == 0 {
        lemma_spec_get_at(v1, 0);
        assert(spec_get(v2, v1[0].0) is None);
    } else {
        let a = v1[0].0;
        let b = v2[0].0;
        lemma_spec_get_at(v1, 0);
        lemma_spec_get_at(v2, 0);
        assert(has_word(v2, a));
        assert(has_word(v1, b));
        let j = choose|j: int| 0 <= j < v2.len() && (#[trigger] v2[j]).0 == a;
        let k = choose|k: int| 0 <= k < v1.len() && (#[trigger] v1[k]).0 == b;
        if a != b {
            assert(j != 0);
            assert(k != 0);
            assert(lex_lt(v2[0].0, v2[j].0));
            assert(lex_lt(v1[0].0, v1[k].0));
            lemma_lex_trans(a, b, a);
            lemma_lex_irrefl(a);
        }
        assert(a == b);
        lemma_sorted_unique(v2, 0, j);
        assert(spec_get(v2, a) == Some(v2[0].1));
        assert(v1[0].1 == v2[0].1);
        assert(v1[0] == v2[0]);
        let t1 = v1.drop_first();
        let t2 = v2.drop_first();
        assert forall|i2: int, j2: int| 0 <= i2 < j2 < t1.len() implies lex_lt(
            (#[trigger] t1[i2]).0,
            (#[trigger] t1[j2]).0,
        ) by {
            assert(t1[i2] == v1[i2 + 1]);
            assert(t1[j2] == v1[j2 + 1]);
        }
        assert forall|i2: int, j2: int| 0 <= i2 < j2 < t2.len() implies lex_lt(
            (#[trigger] t2[i2]).0,
            (#[trigger] t2[j2]).0,
        ) by {
            assert(t2[i2] == v2[i2 + 1]);
            assert(t2[j2] == v2[j2 + 1]);
        }
        assert forall|u: Seq<char>| #[trigger] spec_get(t1, u) == spec_get(t2, u) by {
            lemma_spec_get_drop_first(v1, u);
            lemma_spec_get_drop_first(v2, u);
        }
        lemma_valid_model_canonical(t1, t2);
        assert forall|i2: int| 0 <= i2 < v1.len() implies v1[i2] == v2[i2] by {
            if i2 >= 1 {
                assert(v1[i2] == t1[i2 - 1]);
                assert(v2[i2] == t2[i2 - 1]);
            }
        }
        assert(v1 =~= v2);
    }
}

/// Insert a word with its record into a run of entries kept strictly sorted
/// by word, replacing the record when the word is already present.
fn insert_sorted(
    entries: &mut Vec<(String, WordVec)>,
    word: String,
    rec: WordVec,
    dim: Ghost<nat>,
)
    requires
        sorted_model(old(entries).deep_view()),
        all_dim(old(entries).deep_view(), dim@),
        rec@.len() == dim@,
    ensures
        sorted_model(final(entries).deep_view()),
        all_dim(final(entries).deep_view(), dim@),
        forall|u: Seq<char>| #[trigger] spec_get(final(entries).deep_view(), u) == (if u == word@ {
            Some(rec@)
        } else {
            spec_get(old(entries).deep_view(), u)
        }),
{
    let ghost m0 = entries.deep_view();
    let n = entries.len();
    proof {
        assert(m0.len() == n);
    }
    let mut idx: usize = 0;
    loop
        invariant
            idx <= n,
            n == entries@.len(),
            entries.deep_view() == m0,
            *entries == *old(entries),
            forall|j: int| 0 <= j < idx ==> lex_lt((#[trigger] m0[j]).0, word@),
        ensures
            idx <= n,
            *entries == *old(entries),
            forall|j: int| 0 <= j < idx ==> lex_lt((#[trigger] m0[j]).0, word@),
            idx < n ==> !lex_lt(m0[idx as int].0, word@),
        decreases n - idx,
    {
        if idx == n {
            break;
        }
        proof {
            assert(m0[idx as int] == entries@[idx as int].deep_view());
        }
        if !str_lt(entries[idx].0.as_str(), word.as_str()) {
            break;
        }
        idx = idx + 1;
    }
    let ghost w = word@;
    let ghost rv = rec@;
    let replace: bool = if idx < entries.len() {
        proof {
            assert(m0[idx as int] == entries@[idx as int].deep_view());
        }
        let same = !str_lt(word.as_str(), entries[idx].0.as_str());
        proof {
            if same {
                lemma_lex_total(m0[idx as int].0, w);
            }
        }
        same
    } else {
        false
    };
    if replace {
        let _old_entry = entries.remove(idx);
        entries.insert(idx, (word, rec));
        let ghost m1 = entries.deep_view();
        proof {
            assert forall|k: int| 0 <= k < m1.len() implies m1[k] == (if k == idx {
                (w, rv)
            } else {
                m0[k]
            }) by {
                assert(m1[k] == entries@[k].deep_view());
                if k != idx {
                    assert(entries@[k] == old(entries)@[k]);
                    assert(m0[k] == old(entries)@[k].deep_view());
                }
            }
            assert(m1.len() == m0.len());
            assert forall|i: int, j: int| 0 <= i < j < m1.len() implies lex_lt(
                (#[trigger] m1[i]).0,
                (#[trigger] m1[j]).0,
            ) by {
                assert(m1[i].0 == m0[i].0);
                assert(m1[j].0 == m0[j].0);
            }
            assert forall|u: Seq<char>| #[trigger] spec_get(m1, u) == (if u == w {
                Some(rv)
            } else {
                spec_get(m0, u)
            }) by {
                lemma_get_after_update(m0, m1, idx as int, u);
            }
        }
    } else {
        entries.insert(idx, (word, rec));
        let ghost m1 = entries.deep_view();
        proof {
            assert forall|k: int| 0 <= k < m1.len() implies m1[k] == (if k < idx {
                m0[k]
            } else if k == idx {
                (w, rv)
            } else {
                m0[k - 1]
            }) by {
                assert(m1[k] == entries@[k].deep_view());
                if k < idx {
                    assert(entries@[k] == old(entries)@[k]);
                    assert(m0[k] == old(entries)@[k].deep_view());
                } else if k > idx {
                    assert(entries@[k] == old(entries)@[k - 1]);
                    assert(m0[k - 1] == old(entries)@[k - 1].deep_view());
                }
            }
            assert(m1.len() == m0.len() + 1);
            if idx < m0.len() {
                lemma_lex_total(m0[idx as int].0, w);
                assert(lex_lt(w, m0[idx as int].0));
            }
            assert forall|j: int| 0 <= j < m0.len() implies (#[trigger] m0[j]).0 != w by {
                if j < idx {
                    if m0[j].0 == w {
                        lemma_lex_irrefl(w);
                    }
                } else if j == idx {
                    if m0[j].0 == w {
                        lemma_lex_irrefl(w);
                    }
                } else {
                    if m0[j].0 == w {
                        lemma_lex_trans(w, m0[idx as int].0, m0[j].0);
                        lemma_lex_irrefl(w);
                    }
                }
            }
            assert(!has_word(m0, w));
            assert forall|i: int, j: int| 0 <= i < j < m1.len() implies lex_lt(
                (#[trigger] m1[i]).0,
                (#[trigger] m1[j]).0,
            ) by {
                if i < idx && j == idx {
                    assert(lex_lt(m0[i].0, w));
                } else if i == idx && j > idx {
                    assert(lex_lt(w, m0[idx as int].0));
                    if j - 1 > idx {
                        lemma_lex_trans(w, m0[idx as int].0, m0[j - 1].0);
                    }
                } else if i < idx && j > idx {
                    if i == j - 1 {
                        assert(false);
                    }
                    assert(lex_lt(m0[i].0, m0[j - 1].0));
                }
            }
            assert forall|u: Seq<char>| #[trigger] spec_get(m1, u) == (if u == w {
                Some(rv)
            } else {
                spec_get(m0, u)
            }) by {
                lemma_get_after_insert(m0, m1, idx as int, u);
            }
        }
    }
}

/// After replacing the entry at `idx` of a sorted run with a new record under
/// the same position's new word, lookups answer the new record for that word
/// and are otherwise unchanged.
proof fn lemma_get_after_update(m0: StoreModel, m1: StoreModel, idx: int, u: Seq<char>)
    requires
        sorted_model(m0),
        sorted_model(m1),
        m1.len() == m0.len(),
        0 <= idx < m1.len(),
        forall|k: int| 0 <= k < m1.len() && k != idx ==> #[trigger] m1[k] == m0[k],
        m0[idx].0 == m1[idx].0,
    ensures
        spec_get(m1, u) == (if u == m1[idx].0 {
            Some(m1[idx].1)
        } else {
            spec_get(m0, u)
        }),
{
    if u == m1[idx].0 {
        lemma_spec_get_at(m1, idx);
    } else {
        if has_word(m0, u) {
            let i = choose|i: int| 0 <= i < m0.len() && (#[trigger] m0[i]).0 == u;
            lemma_spec_get_at(m0, i);
            assert(i != idx);
            assert(m1[i] == m0[i]);
            lemma_spec_get_at(m1, i);
        } else {
            assert forall|j: int| 0 <= j < m1.len() implies (#[trigger] m1[j]).0 != u by {
                if j != idx {
                    assert(m1[j] == m0[j]);
                }
            }
            assert(!has_word(m1, u));
        }
    }
}

/// After inserting a fresh entry at `idx` of a sorted run, lookups answer the
/// new record for the new word and are otherwise unchanged.
proof fn lemma_get_after_insert(m0: StoreModel, m1: StoreModel, idx: int, u: Seq<char>)
    requires
        sorted_model(m0),
        sorted_model(m1),
        m1.len() == m0.len() + 1,
        0 <= idx < m1.len(),
        forall|k: int| 0 <= k < idx ==> #[trigger] m1[k] == m0[k],
        forall|k: int| idx < k < m1.len() ==> #[trigger] m1[k] == m0[k - 1],
        !has_word(m0, m1[idx].0),
    ensures
        spec_get(m1, u) == (if u == m1[idx].0 {
            Some(m1[idx].1)
        } else {
            spec_get(m0, u)
        }),
{
    if u == m1[idx].0 {
        lemma_spec_get_at(m1, idx);
    } else {
        if has_word(m0, u) {
            let i = choose|i: int| 0 <= i < m0.len() && (#[trigger] m0[i]).0 == u;
            lemma_spec_get_at(m0, i);
            let i1 = if i < idx {
                i
            } else {
                i + 1
            };
            assert(m1[i1] == m0[i]);
            lemma_spec_get_at(m1, i1);
        } else {
            assert forall|j: int| 0 <= j < m1.len() implies (#[trigger] m1[j]).0 != u by {
                if j < idx {
                    assert(m1[j] == m0[j]);
                } else if j > idx {
                    assert(m1[j] == m0[j - 1]);
                }
            }
            assert(!has_word(m1, u));
        }
    }
}

/// A provider of word vectors: anything that can answer "which vector, if
/// any, stands under this word". The store implements it; any other backing
/// source may as well.
pub trait Word2VecTrait {
    /// The model of this provider's answers.
    spec fn lookup(&self, w: Seq<char>) -> Option<Seq<u32>>;

    /// Get the vector of a word.
    fn get_vec(&self, word: &str) -> (r: Option<&WordVec>)
        ensures
            match r {
                Some(v) => self.lookup(word@) == Some(v@),
                None => self.lookup(word@) is None,
            },
    ;
}

/// The word-vector store: a mapping from word to vector, held sorted by word.
pub struct Word2Vec {
    dim: usize,
    entries: Vec<(String, WordVec)>,
}

impl View for Word2Vec {
    type V = StoreModel;

    closed spec fn view(&self) -> StoreModel {
        self.entries.deep_view()
    }
}

impl Word2Vec {
    /// The dimension every record of this store has.
    pub closed spec fn spec_dim(&self) -> nat {
        self.dim as nat
    }

    #[verifier::type_invariant]
    spec fn inv(self) -> bool {
        valid_model(self@, self.spec_dim())
    }

    /// The store's dimension.
    pub fn dim(&self) -> (d: usize)
        ensures
            d == self.spec_dim(),
    {
        self.dim
    }

    /// How many words the store holds.
    pub fn len(&self) -> (n: usize)
        ensures
            n == self@.len(),
    {
        self.entries.len()
    }

    /// Wrap a run of entries that is already sorted, with the right
    /// dimension, as a store.
    pub(crate) fn from_sorted_entries(entries: Vec<(String, WordVec)>, dim: usize) -> (r: Word2Vec)
        requires
            valid_model(entries.deep_view(), dim as nat),
        ensures
            r.spec_dim() == dim,
            r@ == entries.deep_view(),
    {
        Word2Vec { dim, entries }
    }

    /// The entries themselves, sorted by word.
    pub(crate) fn entries_ref(&self) -> (r: &Vec<(String, WordVec)>)
        ensures
            r.deep_view() == self@,
            valid_model(self@, self.spec_dim()),
    {
        proof {
            use_type_invariant(self);
        }
        &self.entries
    }

    /// Create a store of the given dimension from a list of words with their
    /// records. A word listed twice keeps the record it is listed with last.
    pub fn from_word_vecs(word_vecs: Vec<(String, WordVec)>, dim: usize) -> (r: Word2Vec)
        requires
            all_dim(word_vecs.deep_view(), dim as nat),
        ensures
            r.spec_dim() == dim,
            valid_model(r@, dim as nat),
            forall|u: Seq<char>| #[trigger] spec_get(r@, u) == list_get(word_vecs.deep_view(), u),
    {
        let ghost dv = word_vecs.deep_view();
        let mut entries: Vec<(String, WordVec)> = Vec::new();
        let mut i: usize = 0;
        proof {
            assert(entries.deep_view() =~= Seq::<(Seq<char>, Seq<u32>)>::empty());
        }
        while i < word_vecs.len()
            invariant
                i <= word_vecs.len(),
                dv == word_vecs.deep_view(),
                dv.len() == word_vecs.len(),
                sorted_model(entries.deep_view()),
                all_dim(entries.deep_view(), dim as nat),
                all_dim(dv, dim as nat),
                forall|u: Seq<char>| #[trigger] spec_get(entries.deep_view(), u) == list_get(
                    dv.take(i as int),
                    u,
                ),
            decreases word_vecs.len() - i,
        {
            let word = word_vecs[i].0.clone();
            let rec = word_vecs[i].1.clone();
            proof {
                assert(dv[i as int] == word_vecs@[i as int].deep_view());
                assert(word@ == dv[i as int].0);
                assert(rec@ == dv[i as int].1);
            }
            let ghost before = entries.deep_view();
            insert_sorted(&mut entries, word, rec, Ghost(dim as nat));
            proof {
                assert(dv.take(i + 1).drop_last() =~= dv.take(i as int));
                assert(dv.take(i + 1).last() == dv[i as int]);
                assert forall|u: Seq<char>| #[trigger] spec_get(entries.deep_view(), u) == list_get(
                    dv.take(i + 1),
                    u,
                ) by {
                    if u == dv[i as int].0 {
                        assert(spec_get(entries.deep_view(), u) == Some(dv[i as int].1));
                    } else {
                        assert(spec_get(entries.deep_view(), u) == spec_get(before, u));
                        assert(list_get(dv.take(i + 1), u) == list_get(dv.take(i as int), u));
                    }
                }
            }
            i = i + 1;
        }
        proof {
            assert(dv.take(dv.len() as int) =~= dv);
        }
        Word2Vec { dim, entries }
    }

    /// Load a store from the lines of a corpus in text form. The first line
    /// is a header and is discarded; each further line is a word followed by
    /// the record's `dim` components, all whitespace-separated. A line whose
    /// token count is not `dim + 1`, or with a component that does not parse
    /// as a number, is skipped, with no effect on its neighbours; so is a
    /// blank line. A word on two lines keeps the record of the later one.
    pub fn load_from_txt(lines: &Vec<String>, dim: usize) -> (r: Word2Vec)
        ensures
            r.spec_dim() == dim,
            valid_model(r@, dim as nat),
            forall|u: Seq<char>| #[trigger] spec_get(r@, u) == lines_get(
                tail_of(lines.deep_view()),
                dim as nat,
                u,
            ),
    {
        let ghost ldv = lines.deep_view();
        let ghost data = tail_of(ldv);
        let mut entries: Vec<(String, WordVec)> = Vec::new();
        let mut i: usize = 1;
        proof {
            assert(entries.deep_view() =~= Seq::<(Seq<char>, Seq<u32>)>::empty());
        }
        while i < lines.len()
            invariant
                1 <= i,
                lines.len() >= 1 ==> i <= lines.len(),
                lines.len() == 0 ==> i == 1,
                ldv == lines.deep_view(),
                ldv.len() == lines.len(),
                data == tail_of(ldv),
                sorted_model(entries.deep_view()),
                all_dim(entries.deep_view(), dim as nat),
                forall|u: Seq<char>| #[trigger] spec_get(entries.deep_view(), u) == lines_get(
                    data.take(i - 1),
                    dim as nat,
                    u,
                ),
            decreases lines.len() - i,
        {
            proof {
                assert(ldv[i as int] == lines@[i as int].deep_view());
                assert(data[i - 1] == ldv[i as int]);
                assert(data.take(i as int).drop_last() =~= data.take(i - 1));
                assert(data.take(i as int).last() == data[i - 1]);
            }
            let ghost before = entries.deep_view();
            match Self::parse_line_exec(&lines[i], dim) {
                Some(e) => {
                    let (word, rec) = e;
                    proof {
                        assert(parse_line(data[i - 1], dim as nat) == Some((word@, rec@)));
                        assert(rec@.len() == dim);
                    }
                    insert_sorted(&mut entries, word, rec, Ghost(dim as nat));
                },
                None => {},
            }
            proof {
                assert forall|u: Seq<char>| #[trigger] spec_get(entries.deep_view(), u)
                    == lines_get(data.take(i as int), dim as nat, u) by {
                    match parse_line(data[i - 1], dim as nat) {
                        Some(e) => {
                            if u == e.0 {
                                assert(spec_get(entries.deep_view(), u) == Some(e.1));
                            } else {
                                assert(spec_get(entries.deep_view(), u) == spec_get(before, u));
                            }
                        },
                        None => {
                            assert(spec_get(entries.deep_view(), u) == spec_get(before, u));
                        },
                    }
                }
            }
            i = i + 1;
        }
        proof {
            assert(data.take(i - 1) =~= data);
        }
        let ghost fin = entries.deep_view();
        let r = Word2Vec { dim, entries };
        proof {
            assert(r@ == fin);
            assert forall|u: Seq<char>| #[trigger] spec_get(r@, u) == lines_get(
                tail_of(lines.deep_view()),
                dim as nat,
                u,
            ) by {
                assert(spec_get(fin, u) == lines_get(data.take(i - 1), dim as nat, u));
            }
        }
        r
    }

    /// Parse one corpus line: the first token is the word, the remaining
    /// tokens are the components; `None` unless the line has exactly
    /// `dim + 1` tokens and every component token parses as a number.
    fn parse_line_exec(line: &String, dim: usize) -> (r: Option<(String, WordVec)>)
        ensures
            match r {
                Some(e) => parse_line(line@, dim as nat) == Some((e.0@, e.1@)) && e.1@.len()
                    == dim,
                None => parse_line(line@, dim as nat) is None,
            },
    {
        let cs = chars_of(line.as_str());
        let toks = split_chars(&cs);
        let ghost tdv = toks.deep_view();
        proof {
            assert(tdv == split_ws(line@));
        }
        if toks.len() == 0 || toks.len() - 1 != dim {
            return None;
        }
        let ghost rest = tdv.drop_first();
        let word = string_from_chars(&toks[0]);
        proof {
            assert(word@ == tdv[0]);
        }
        let mut comps: Vec<u32> = Vec::new();
        let mut i: usize = 1;
        proof {
            assert(rest.take(0) =~= Seq::<Seq<char>>::empty());
            assert(comps@ =~= parsed_comps(rest.take(0)));
        }
        while i < toks.len()
            invariant
                1 <= i <= toks.len(),
                tdv == toks.deep_view(),
                tdv.len() == toks.len(),
                tdv.len() >= 1,
                rest == tdv.drop_first(),
                comps@ == parsed_comps(rest.take(i - 1)),
            decreases toks.len() - i,
        {
            proof {
                assert(tdv[i as int] == toks@[i as int].deep_view());
                assert(rest[i - 1] == tdv[i as int]);
                assert(rest.take(i as int).drop_last() =~= rest.take(i - 1));
                assert(rest.take(i as int).last() == rest[i - 1]);
            }
            let ghost cbefore = comps@;
            proof {
                assert(toks@[i as int]@ =~= rest[i - 1]);
            }
            if toks[i].len() <= MAX_NUMBER_TOKEN_LEN {
                let t = string_from_chars(&toks[i]);
                proof {
                    assert(t@ =~= rest[i - 1]);
                }
                match f32_parse(t.as_str()) {
                    Some(v) => {
                        comps.push(v);
                        proof {
                            assert(comps@ =~= cbefore + seq![v]);
                        }
                    },
                    None => {},
                }
            }
            proof {
                assert(comps@ =~= parsed_comps(rest.take(i as int)));
            }
            i = i + 1;
        }
        proof {
            assert(rest.take(i - 1) =~= rest);
        }
        if comps.len() == dim {
            Some((word, WordVec::new(comps)))
        } else {
            None
        }
    }

    /// The squared-cosine similarity of two words' vectors; `None` when either
    /// word is absent from the store.
    pub fn cosine(&self, word1: &str, word2: &str) -> (r: Option<u32>)
        ensures
            r == match (spec_get(self@, word1@), spec_get(self@, word2@)) {
                (Some(a), Some(b)) => Some(cosine_bits(a, b)),
                _ => None::<u32>,
            },
    {
        let vec1 = match self.get_vec(word1) {
            Some(v) => v,
            None => {
                return None;
            },
        };
        let vec2 = match self.get_vec(word2) {
            Some(v) => v,
            None => {
                return None;
            },
        };
        Some(vec1.cosine(vec2))
    }

    /// The sub-store holding exactly the listed words that this store knows,
    /// with their records; unknown words in the list are dropped silently, and
    /// duplicates in the list make no difference.
    pub fn get_subset(&self, words: &[String]) -> (r: Word2Vec)
        ensures
            r.spec_dim() == self.spec_dim(),
            valid_model(r@, r.spec_dim()),
            forall|u: Seq<char>| #[trigger] spec_get(r@, u) == (if words.deep_view().contains(u) {
                spec_get(self@, u)
            } else {
                None
            }),
    {
        proof {
            use_type_invariant(self);
        }
        let ghost wdv = words.deep_view();
        let mut entries: Vec<(String, WordVec)> = Vec::new();
        let mut i: usize = 0;
        proof {
            assert(entries.deep_view() =~= Seq::<(Seq<char>, Seq<u32>)>::empty());
        }
        while i < words.len()
            invariant
                i <= words.len(),
                wdv == words.deep_view(),
                wdv.len() == words.len(),
                valid_model(self@, self.spec_dim()),
                sorted_model(entries.deep_view()),
                all_dim(entries.deep_view(), self.spec_dim()),
                forall|u: Seq<char>| #[trigger] spec_get(entries.deep_view(), u) == (if wdv.take(
                    i as int,
                ).contains(u) {
                    spec_get(self@, u)
                } else {
                    None
                }),
            decreases words.len() - i,
        {
            proof {
                assert(wdv[i as int] == words@[i as int].deep_view());
                assert(wdv.take(i + 1) =~= wdv.take(i as int).push(wdv[i as int]));
            }
            let ghost before = entries.deep_view();
            match self.get_vec(words[i].as_str()) {
                Some(v) => {
                    let word = words[i].clone();
                    let rec = v.clone();
                    proof {
                        lemma_get_dim(self@, self.spec_dim(), wdv[i as int]);
                    }
                    insert_sorted(&mut entries, word, rec, Ghost(self.spec_dim()));
                },
                None => {},
            }
            proof {
                assert forall|u: Seq<char>| #[trigger] spec_get(entries.deep_view(), u) == (if wdv
                    .take(i + 1).contains(u) {
                    spec_get(self@, u)
                } else {
                    None
                }) by {
                    if wdv.take(i + 1).contains(u) {
                        let k = choose|k: int| 0 <= k < i + 1 && #[trigger] wdv.take(i + 1)[k] == u;
                        if k < i {
                            assert(wdv.take(i as int)[k] == u);
                            assert(wdv.take(i as int).contains(u));
                        }
                    }
                    if wdv.take(i as int).contains(u) {
                        let k = choose|k: int| 0 <= k < i && #[trigger] wdv.take(i as int)[k] == u;
                        assert(wdv.take(i + 1)[k] == u);
                        assert(wdv.take(i + 1).contains(u));
                    }
                    if u == wdv[i as int] {
                        assert(wdv.take(i + 1)[i as int] == u);
                        assert(wdv.take(i + 1).contains(u));
                    }
                }
            }
            i = i + 1;
        }
        proof {
            assert(wdv.take(wdv.len() as int) =~= wdv);
        }
        Word2Vec { dim: self.dim, entries }
    }

    /// The sub-store for a word list read line by line from an external text
    /// source; one line is one word. Unknown words are dropped silently.
    pub fn get_subset_from_wordlist(&self, words: &Vec<String>) -> (r: Word2Vec)
        ensures
            r.spec_dim() == self.spec_dim(),
            valid_model(r@, r.spec_dim()),
            forall|u: Seq<char>| #[trigger] spec_get(r@, u) == (if words.deep_view().contains(u) {
                spec_get(self@, u)
            } else {
                None
            }),
    {
        let ws = words.as_slice();
        let r = self.get_subset(ws);
        proof {
            assert(ws.deep_view() =~= words.deep_view());
        }
        r
    }
}

impl Word2VecTrait for Word2Vec {
    open spec fn lookup(&self, w: Seq<char>) -> Option<Seq<u32>> {
        spec_get(self@, w)
    }

    /// Get the vector of a word; `None` when the word is absent. A binary
    /// search over the sorted entries.
    fn get_vec(&self, word: &str) -> (r: Option<&WordVec>)
        ensures
            match r {
                Some(v) => self.lookup(word@) == Some(v@),
                None => self.lookup(word@) is None,
            },
    {
        proof {
            use_type_invariant(self);
        }
        let mut lo: usize = 0;
        let mut hi: usize = self.entries.len();
        while lo < hi
            invariant
                lo <= hi <= self.entries.len(),
                self.entries@.len() == self@.len(),
                valid_model(self@, self.spec_dim()),
                forall|j: int| 0 <= j < lo ==> lex_lt((#[trigger] self@[j]).0, word@),
                forall|j: int| hi <= j < self@.len() ==> lex_lt(word@, (#[trigger] self@[j]).0),
            decreases hi - lo,
        {
            let mid = lo + (hi - lo) / 2;
            proof {
                assert(self@[mid as int] == self.entries@[mid as int].deep_view());
            }
            if str_lt(self.entries[mid].0.as_str(), word) {
                proof {
                    assert forall|j: int| 0 <= j < mid + 1 implies lex_lt(
                        (#[trigger] self@[j]).0,
                        word@,
                    ) by {
                        if j < mid {
                            lemma_lex_trans(self@[j].0, self@[mid as int].0, word@);
                        }
                    }
                }
                lo = mid + 1;
            } else if str_lt(word, self.entries[mid].0.as_str()) {
                proof {
                    assert forall|j: int| mid <= j < self@.len() implies lex_lt(
                        word@,
                        (#[trigger] self@[j]).0,
                    ) by {
                        if j > mid {
                            lemma_lex_trans(word@, self@[mid as int].0, self@[j].0);
                        }
                    }
                }
                hi = mid;
            } else {
                proof {
                    lemma_lex_total(self@[mid as int].0, word@);
                    assert(self@[mid as int].0 == word@);
                    lemma_spec_get_at(self@, mid as int);
                }
                return Some(&self.entries[mid].1);
            }
        }
        proof {
            assert forall|j: int| 0 <= j < self@.len() implies (#[trigger] self@[j]).0
                != word@ by {
                if self@[j].0 == word@ {
                    lemma_lex_irrefl(word@);
                }
            }
            assert(!has_word(self@, word@));
        }
        None
    }
}

} // verus!
