//! Text preparation: characters, trimming and whitespace splitting.
//!
//! The corpus loader and the sentence averager both break text into
//! whitespace-separated tokens; the sentence averager also lower-cases its
//! input and strips non-alphanumeric characters from the ends of the sentence
//! and of every token. Which characters count as whitespace or alphanumeric
//! is Unicode's business and stays behind named trusted wrappers; the
//! trimming and splitting themselves are verified here.

use vstd::prelude::*;
use vstd::std_specs::iter::IteratorSpec;

verus! {

broadcast use vstd::string::axiom_spec_iter, vstd::string::next_postcondition;

/// Whether Unicode classes the character as alphanumeric.
pub uninterp spec fn is_alnum_char(c: char) -> bool;

/// Whether Unicode classes the character as whitespace.
pub uninterp spec fn is_space_char(c: char) -> bool;

/// What lower-casing a string yields (Unicode lower-casing of every
/// character).
pub uninterp spec fn lower_of(s: Seq<char>) -> Seq<char>;

/// Relies on `char::is_alphanumeric` (Unicode `Alphabetic` or numeric): the
/// answer depends on the character alone.
#[verifier::external_body]
pub(crate) fn char_is_alnum(c: char) -> (r: bool)
    ensures
        r == is_alnum_char(c),
{
    c.is_alphanumeric()
}

/// Relies on `char::is_whitespace` (Unicode `White_Space`): the answer
/// depends on the character alone.
#[verifier::external_body]
pub(crate) fn char_is_space(c: char) -> (r: bool)
    ensures
        r == is_space_char(c),
{
    c.is_whitespace()
}

/// Relies on `str::to_lowercase` (Unicode lower-casing): the result depends
/// on the characters alone, and the empty string stays empty.
#[verifier::external_body]
pub(crate) fn lowercase(s: &str) -> (r: String)
    ensures
        r@ == lower_of(s@),
        s@.len() == 0 ==> r@.len() == 0,
{
    s.to_lowercase()
}

/// Relies on `String`'s `FromIterator<char>`, which collects exactly the
/// characters handed to it, in order.
#[verifier::external_body]
pub(crate) fn string_from_chars(v: &Vec<char>) -> (r: String)
    ensures
        r@ == v@,
{
    v.iter().collect()
}

/// The characters of a string, as a vector.
pub(crate) fn chars_of(s: &str) -> (r: Vec<char>)
    ensures
        r@ == s@,
{
    let mut it = s.chars();
    let mut r: Vec<char> = Vec::new();
    loop
        invariant
            it.obeys_prophetic_iter_laws(),
            it.decrease() is Some,
            r@ + it.remaining() =~= s@,
        ensures
            r@ =~= s@,
        decreases it.decrease()->0,
    {
        match it.next() {
            Some(c) => {
                r.push(c);
            },
            None => {
                break;
            },
        }
    }
    r
}

/// The sequence without its leading non-alphanumeric characters.
pub open spec fn trim_front(s: Seq<char>) -> Seq<char>
    decreases s.len(),
{
    if s.len() == 0 {
        s
    } else if is_alnum_char(s[0]) {
        s
    } else {
        trim_front(s.drop_first())
    }
}

/// The sequence without its trailing non-alphanumeric characters.
pub open spec fn trim_back(s: Seq<char>) -> Seq<char>
    decreases s.len(),
{
    if s.len() == 0 {
        s
    } else if is_alnum_char(s.last()) {
        s
    } else {
        trim_back(s.drop_last())
    }
}

/// The sequence without leading and trailing non-alphanumeric characters:
/// what trimming a token keeps.
pub open spec fn trim_spec(s: Seq<char>) -> Seq<char> {
    trim_back(trim_front(s))
}

/// The length of the leading run of non-whitespace characters.
pub open spec fn token_len(s: Seq<char>) -> int
    decreases s.len(),
{
    if s.len() == 0 {
        0
    } else if is_space_char(s[0]) {
        0
    } else {
        1 + token_len(s.drop_first())
    }
}

pub proof fn lemma_token_len_bounds(s: Seq<char>)
    ensures
        0 <= token_len(s) <= s.len(),
    decreases s.len(),
{
    if s.len() > 0 && !is_space_char(s[0]) {
        lemma_token_len_bounds(s.drop_first());
    }
}

/// The whitespace-separated tokens of the sequence, in order: the maximal
/// runs of non-whitespace characters, each nonempty.
pub open spec fn split_ws(s: Seq<char>) -> Seq<Seq<char>>
    decreases s.len(),
    via split_ws_dec
{
    if s.len() == 0 {
        Seq::empty()
    } else if is_space_char(s[0]) {
        split_ws(s.drop_first())
    } else {
        seq![s.take(token_len(s))] + split_ws(s.skip(token_len(s)))
    }
}

#[via_fn]
proof fn split_ws_dec(s: Seq<char>) {
    if s.len() > 0 && !is_space_char(s[0]) {
        lemma_token_len_bounds(s.drop_first());
        assert(token_len(s) >= 1);
    }
}

/// `token_len` is exactly the index of the first whitespace character.
proof fn lemma_token_len_at(s: Seq<char>, t: int)
    requires
        0 <= t <= s.len(),
        forall|k: int| 0 <= k < t ==> !is_space_char(#[trigger] s[k]),
        t < s.len() ==> is_space_char(s[t]),
    ensures
        token_len(s) == t,
    decreases t,
{
    if t == 0 {
    } else {
        assert(!is_space_char(s[0]));
        lemma_token_len_at(s.drop_first(), t - 1);
    }
}

/// `trim_front` is exactly the suffix from the first alphanumeric character.
proof fn lemma_trim_front_at(s: Seq<char>, lo: int)
    requires
        0 <= lo <= s.len(),
        forall|k: int| 0 <= k < lo ==> !is_alnum_char(#[trigger] s[k]),
        lo < s.len() ==> is_alnum_char(s[lo]),
    ensures
        trim_front(s) == s.skip(lo),
    decreases lo,
{
    if lo == 0 {
        assert(s.skip(0) =~= s);
    } else {
        lemma_trim_front_at(s.drop_first(), lo - 1);
        assert(s.drop_first().skip(lo - 1) =~= s.skip(lo));
    }
}

/// `trim_back` is exactly the prefix through the last alphanumeric character.
proof fn lemma_trim_back_at(s: Seq<char>, hi: int)
    requires
        0 <= hi <= s.len(),
        forall|k: int| hi <= k < s.len() ==> !is_alnum_char(#[trigger] s[k]),
        hi > 0 ==> is_alnum_char(s[hi - 1]),
    ensures
        trim_back(s) == s.take(hi),
    decreases s.len(),
{
    if hi == s.len() {
        assert(s.take(hi) =~= s);
    } else {
        assert(!is_alnum_char(s.last()));
        lemma_trim_back_at(s.drop_last(), hi);
        assert(s.drop_last().take(hi) =~= s.take(hi));
    }
}

/// Strip leading and trailing non-alphanumeric characters from a run of
/// characters.
pub(crate) fn trim_chars(v: &Vec<char>) -> (r: Vec<char>)
    ensures
        r@ == trim_spec(v@),
{
    let n = v.len();
    let mut lo: usize = 0;
    loop
        invariant
            lo <= n,
            n == v@.len(),
            forall|k: int| 0 <= k < lo ==> !is_alnum_char(#[trigger] v@[k]),
        ensures
            lo <= n,
            forall|k: int| 0 <= k < lo ==> !is_alnum_char(#[trigger] v@[k]),
            lo < n ==> is_alnum_char(v@[lo as int]),
        decreases n - lo,
    {
        if lo == n {
            break;
        }
        if char_is_alnum(v[lo]) {
            break;
        }
        lo = lo + 1;
    }
    proof {
        lemma_trim_front_at(v@, lo as int);
    }
    if lo == n {
        let r: Vec<char> = Vec::new();
        proof {
            assert(v@.skip(n as int) =~= Seq::<char>::empty());
            assert(r@ =~= trim_spec(v@));
        }
        return r;
    }
    let mut hi: usize = n;
    loop
        invariant
            lo < hi <= n || hi == lo,
            lo < n,
            n == v@.len(),
            is_alnum_char(v@[lo as int]),
            forall|k: int| hi <= k < n ==> !is_alnum_char(#[trigger] v@[k]),
        ensures
            lo < hi <= n,
            forall|k: int| hi <= k < n ==> !is_alnum_char(#[trigger] v@[k]),
            is_alnum_char(v@[hi - 1]),
        decreases hi,
    {
        if char_is_alnum(v[hi - 1]) {
            break;
        }
        hi = hi - 1;
    }
    let mut r: Vec<char> = Vec::new();
    let mut i: usize = lo;
    while i < hi
        invariant
            lo <= i <= hi <= n,
            n == v@.len(),
            r@ =~= v@.subrange(lo as int, i as int),
        decreases hi - i,
    {
        r.push(v[i]);
        proof {
            assert(r@ =~= v@.subrange(lo as int, i + 1));
        }
        i = i + 1;
    }
    proof {
        let f = v@.skip(lo as int);
        lemma_trim_back_at(f, hi - lo);
        assert(f.take(hi - lo) =~= v@.subrange(lo as int, hi as int));
        assert(r@ =~= trim_spec(v@));
    }
    r
}

/// Split a run of characters into its whitespace-separated tokens.
pub(crate) fn split_chars(v: &Vec<char>) -> (r: Vec<Vec<char>>)
    ensures
        r.deep_view() == split_ws(v@),
{
    let n = v.len();
    let mut r: Vec<Vec<char>> = Vec::new();
    let mut i: usize = 0;
    proof {
        assert(v@.skip(0) =~= v@);
        assert(r.deep_view() =~= Seq::<Seq<char>>::empty());
    }
    while i < n
        invariant
            i <= n,
            n == v@.len(),
            split_ws(v@) == r.deep_view() + split_ws(v@.skip(i as int)),
        decreases n - i,
    {
        if char_is_space(v[i]) {
            proof {
                assert(v@.skip(i as int).drop_first() =~= v@.skip(i + 1));
            }
            i = i + 1;
        } else {
            let mut j: usize = i + 1;
            loop
                invariant
                    i < j <= n,
                    n == v@.len(),
                    forall|k: int| i <= k < j ==> !is_space_char(#[trigger] v@[k]),
                ensures
                    i < j <= n,
                    forall|k: int| i <= k < j ==> !is_space_char(#[trigger] v@[k]),
                    j < n ==> is_space_char(v@[j as int]),
                decreases n - j,
            {
                if j == n {
                    break;
                }
                if char_is_space(v[j]) {
                    break;
                }
                j = j + 1;
            }
            let mut tok: Vec<char> = Vec::new();
            let mut k: usize = i;
            while k < j
                invariant
                    i <= k <= j <= n,
                    n == v@.len(),
                    tok@ =~= v@.subrange(i as int, k as int),
                decreases j - k,
            {
                tok.push(v[k]);
                proof {
                    assert(tok@ =~= v@.subrange(i as int, k + 1));
                }
                k = k + 1;
            }
            proof {
                let rest = v@.skip(i as int);
                assert forall|m: int| 0 <= m < j - i implies !is_space_char(
                    #[trigger] rest[m],
                ) by {
                    assert(rest[m] == v@[i + m]);
                }
                if j < n {
                    assert(rest[j - i] == v@[j as int]);
                }
                lemma_token_len_at(rest, j - i);
                assert(rest.take(j - i) =~= v@.subrange(i as int, j as int));
                assert(rest.skip(j - i) =~= v@.skip(j as int));
                assert(split_ws(rest) == seq![v@.subrange(i as int, j as int)] + split_ws(
                    v@.skip(j as int),
                ));
            }
            let ghost before = r.deep_view();
            let ghost brs = r@;
            r.push(tok);
            proof {
                assert forall|k2: int| 0 <= k2 < r.deep_view().len() implies #[trigger] r.deep_view()[k2]
                    == before.push(v@.subrange(i as int, j as int))[k2] by {
                    assert(r.deep_view()[k2] == r@[k2].deep_view());
                    if k2 < before.len() {
                        assert(r@[k2] == brs[k2]);
                        assert(before[k2] == brs[k2].deep_view());
                    }
                }
                assert(r.deep_view() =~= before.push(v@.subrange(i as int, j as int)));
                assert(r.deep_view() + split_ws(v@.skip(j as int)) =~= before + (seq![
                    v@.subrange(i as int, j as int),
                ] + split_ws(v@.skip(j as int))));
            }
            i = j;
        }
    }
    proof {
        assert(v@.skip(n as int) =~= Seq::<char>::empty());
        assert(r.deep_view() + split_ws(v@.skip(n as int)) =~= r.deep_view());
    }
    r
}

} // verus!
