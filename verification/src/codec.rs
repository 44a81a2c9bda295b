//! The store's binary form.
//!
//! A store is serialized as a length-prefixed map: an eight-byte
//! little-endian entry count, then per entry — in the store's sorted word
//! order — the word's UTF-8 byte length (eight bytes little-endian), the
//! word's UTF-8 bytes, the record's component count (eight bytes
//! little-endian), and each component's bit pattern as four little-endian
//! bytes. Decoding accepts exactly the bytes this encoding produces for some
//! list of entries of the expected dimension — in any order, a repeated word
//! keeping its later record, as rebuilding a map from the stream leaves it —
//! and rejects everything else: truncated or corrupt bytes, records of
//! another dimension, trailing garbage. A load after a save gives the store
//! back exactly.

use vstd::prelude::*;

use vstd::bytes::{
    lemma_auto_spec_u32_to_from_le_bytes, lemma_auto_spec_u64_to_from_le_bytes,
    spec_u32_from_le_bytes, spec_u32_to_le_bytes, spec_u64_from_le_bytes, spec_u64_to_le_bytes,
    u32_from_le_bytes, u32_to_le_bytes, u64_from_le_bytes, u64_to_le_bytes,
};
use vstd::slice::slice_to_vec;
use vstd::string::StrSliceExecFns;
use vstd::utf8::{encode_utf8, encode_utf8_decode_utf8, encode_utf8_valid_utf8, valid_utf8};

use crate::word2vec::{
    StoreModel, Word2Vec, WordVec, all_dim, lemma_list_get_sorted, lemma_valid_model_canonical,
    list_get, spec_get, valid_model,
};

verus! {

/// The components of one record, each as four little-endian bytes, in order.
pub open spec fn encode_comps(c: Seq<u32>) -> Seq<u8>
    decreases c.len(),
{
    if c.len() == 0 {
        Seq::empty()
    } else {
        encode_comps(c.drop_last()) + spec_u32_to_le_bytes(c.last())
    }
}

/// One entry: the word's UTF-8 byte length, its UTF-8 bytes, the component
/// count, the components.
pub open spec fn encode_entry(e: (Seq<char>, Seq<u32>)) -> Seq<u8> {
    let wb = encode_utf8(e.0);
    spec_u64_to_le_bytes(wb.len() as u64) + wb + spec_u64_to_le_bytes(e.1.len() as u64)
        + encode_comps(e.1)
}

/// All entries, in order.
pub open spec fn encode_entries(v: StoreModel) -> Seq<u8>
    decreases v.len(),
{
    if v.len() == 0 {
        Seq::empty()
    } else {
        encode_entries(v.drop_last()) + encode_entry(v.last())
    }
}

/// The whole store: the entry count, then the entries.
pub open spec fn spec_encode(v: StoreModel) -> Seq<u8> {
    spec_u64_to_le_bytes(v.len() as u64) + encode_entries(v)
}

pub proof fn lemma_encode_comps_len(c: Seq<u32>)
    ensures
        encode_comps(c).len() == 4 * c.len(),
    decreases c.len(),
{
    lemma_auto_spec_u32_to_from_le_bytes();
    if c.len() > 0 {
        lemma_encode_comps_len(c.drop_last());
    }
}

/// Equal component encodings come from equal components.
pub proof fn lemma_encode_comps_inj(a: Seq<u32>, b: Seq<u32>)
    requires
        encode_comps(a) == encode_comps(b),
    ensures
        a == b,
    decreases a.len(),
{
    lemma_auto_spec_u32_to_from_le_bytes();
    lemma_encode_comps_len(a);
    lemma_encode_comps_len(b);
    if a.len() == 0 {
        assert(a =~= b);
    } else {
        let ea = encode_comps(a);
        let pa = encode_comps(a.drop_last());
        let pb = encode_comps(b.drop_last());
        lemma_encode_comps_len(a.drop_last());
        lemma_encode_comps_len(b.drop_last());
        assert(pa =~= ea.subrange(0, pa.len() as int));
        assert(pb =~= ea.subrange(0, pa.len() as int));
        lemma_encode_comps_inj(a.drop_last(), b.drop_last());
        assert(spec_u32_to_le_bytes(a.last()) =~= ea.subrange(pa.len() as int, ea.len() as int));
        assert(spec_u32_to_le_bytes(b.last()) =~= ea.subrange(pa.len() as int, ea.len() as int));
        assert(spec_u32_from_le_bytes(spec_u32_to_le_bytes(a.last())) == a.last());
        assert(spec_u32_from_le_bytes(spec_u32_to_le_bytes(b.last())) == b.last());
        assert(a.last() == b.last());
        assert forall|i: int| 0 <= i < a.len() implies a[i] == b[i] by {
            if i < a.len() - 1 {
                assert(a[i] == a.drop_last()[i]);
                assert(b[i] == b.drop_last()[i]);
            } else {
                assert(a[i] == a.last());
                assert(b[i] == b.last());
            }
        }
        assert(a =~= b);
    }
}

/// Appending one component extends its encoding by the component's bytes.
pub proof fn lemma_encode_comps_push(c: Seq<u32>, x: u32)
    ensures
        encode_comps(c.push(x)) == encode_comps(c) + spec_u32_to_le_bytes(x),
{
    assert(c.push(x).drop_last() =~= c);
    assert(c.push(x).last() == x);
}

/// Appending one entry extends the entries' encoding by that entry's bytes.
pub proof fn lemma_encode_entries_push(v: StoreModel, e: (Seq<char>, Seq<u32>))
    ensures
        encode_entries(v.push(e)) == encode_entries(v) + encode_entry(e),
{
    assert(v.push(e).drop_last() =~= v);
    assert(v.push(e).last() == e);
}

/// Each entry's encoding is at least sixteen bytes, so the entries' encoding
/// bounds how many entries there can be.
pub proof fn lemma_encode_entries_len(v: StoreModel)
    ensures
        encode_entries(v).len() >= 16 * v.len(),
    decreases v.len(),
{
    lemma_auto_spec_u64_to_from_le_bytes();
    if v.len() > 0 {
        lemma_encode_entries_len(v.drop_last());
        lemma_encode_comps_len(v.last().1);
    }
}

/// The entries' encoding from position `k` on starts with entry `k`'s bytes.
pub proof fn lemma_encode_entries_split(v: StoreModel, k: int)
    requires
        0 <= k < v.len(),
    ensures
        encode_entries(v) == encode_entries(v.take(k)) + encode_entry(v[k]) + encode_entries(
            v.skip(k + 1),
        ),
    decreases v.len(),
{
    if k == v.len() - 1 {
        assert(v.take(k) =~= v.drop_last());
        assert(v.skip(k + 1) =~= Seq::<(Seq<char>, Seq<u32>)>::empty());
        assert(encode_entries(v.take(k)) + encode_entry(v[k]) + encode_entries(v.skip(k + 1)) =~=
        encode_entries(v.drop_last()) + encode_entry(v.last()));
    } else {
        lemma_encode_entries_split(v.drop_last(), k);
        assert(v.drop_last().take(k) =~= v.take(k));
        assert(v.drop_last()[k] == v[k]);
        assert(v.drop_last().skip(k + 1) =~= v.skip(k + 1).drop_last());
        lemma_encode_entries_push(v.skip(k + 1).drop_last(), v.last());
        assert(v.skip(k + 1).drop_last().push(v.last()) =~= v.skip(k + 1));
        assert(encode_entries(v) =~= encode_entries(v.take(k)) + encode_entry(v[k])
            + encode_entries(v.skip(k + 1)));
    }
}

/// Relies on `String::from_utf8`: the returned string's UTF-8 encoding is
/// exactly the given bytes, and the call fails exactly when the bytes are not
/// valid UTF-8.
#[verifier::external_body]
fn string_from_utf8(bytes: Vec<u8>) -> (r: Option<String>)
    ensures
        match r {
            Some(s) => encode_utf8(s@) == bytes@ && valid_utf8(bytes@),
            None => !valid_utf8(bytes@),
        },
{
    match String::from_utf8(bytes) {
        Ok(s) => Some(s),
        Err(_) => None,
    }
}

/// Inside the encoding of an entry list whose records have the right
/// dimension, the bytes from the end of entry `k - 1` on start with entry
/// `k`'s four fields, and there is room for all of them.
proof fn lemma_entry_shape(b: Seq<u8>, v: StoreModel, dim: nat, k: int, pos: int)
    requires
        all_dim(v, dim),
        b == spec_encode(v),
        0 <= k < v.len(),
        pos == 8 + encode_entries(v.take(k)).len(),
    ensures
        ({
            let wb = encode_utf8(v[k].0);
            let wlen = wb.len() as int;
            &&& pos + 16 + wlen + 4 * dim <= b.len()
            &&& b.subrange(pos, pos + 8) == spec_u64_to_le_bytes(wlen as u64)
            &&& b.subrange(pos + 8, pos + 8 + wlen as int) == wb
            &&& b.subrange(pos + 8 + wlen, pos + 16 + wlen) == spec_u64_to_le_bytes(
                dim as u64,
            )
            &&& b.subrange(pos + 16 + wlen, pos + 16 + wlen + 4 * dim) == encode_comps(
                v[k].1,
            )
            &&& v[k].1.len() == dim
        }),
{
    lemma_auto_spec_u64_to_from_le_bytes();
    lemma_encode_entries_split(v, k);
    lemma_encode_comps_len(v[k].1);
    let wb = encode_utf8(v[k].0);
    let wlen = wb.len() as int;
    let ce = encode_entry(v[k]);
    assert(v[k].1.len() == dim);
    assert(ce.len() == 16 + wlen + 4 * dim);
    let head = spec_u64_to_le_bytes(v.len() as u64);
    let pre = encode_entries(v.take(k));
    let post = encode_entries(v.skip(k + 1));
    assert(b == head + pre + ce + post);
    assert(pos == 8 + pre.len());
    assert(b.len() == 8 + pre.len() + ce.len() + post.len());
    assert(ce =~= b.subrange(pos, pos + ce.len()));
    assert(b.subrange(pos, pos + 8) =~= ce.subrange(0, 8));
    assert(ce.subrange(0, 8) =~= spec_u64_to_le_bytes(wlen as u64));
    assert(b.subrange(pos + 8, pos + 8 + wlen as int) =~= ce.subrange(8, 8 + wlen));
    assert(ce.subrange(8, 8 + wlen) =~= wb);
    assert(b.subrange(pos + 8 + wlen, pos + 16 + wlen) =~= ce.subrange(
        8 + wlen,
        16 + wlen,
    ));
    assert(ce.subrange(8 + wlen, 16 + wlen) =~= spec_u64_to_le_bytes(
        v[k].1.len() as u64,
    ));
    assert(b.subrange(pos + 16 + wlen, pos + 16 + wlen + 4 * dim) =~= ce.subrange(
        16 + wlen,
        ce.len() as int,
    ));
    assert(ce.subrange(16 + wlen, ce.len() as int) =~= encode_comps(v[k].1));
}

impl Word2Vec {
    /// Serialize the store into its binary form (see the module description).
    pub fn save_to_bytes(&self) -> (r: Vec<u8>)
        ensures
            r@ == spec_encode(self@),
    {
        let entries = self.entries_ref();
        let ghost v = self@;
        let mut out: Vec<u8> = Vec::new();
        let mut head = u64_to_le_bytes(entries.len() as u64);
        out.append(&mut head);
        proof {
            assert(out@ =~= spec_u64_to_le_bytes(v.len() as u64) + encode_entries(v.take(0)));
        }
        let n = entries.len();
        let mut i: usize = 0;
        while i < n
            invariant
                i <= n,
                n == v.len(),
                v == self@,
                entries.deep_view() == v,
                entries@.len() == n,
                out@ == spec_u64_to_le_bytes(v.len() as u64) + encode_entries(v.take(i as int)),
            decreases n - i,
        {
            proof {
                assert(v[i as int] == entries@[i as int].deep_view());
            }
            let ghost before = out@;
            let word: &String = &entries[i].0;
            let rec: &WordVec = &entries[i].1;
            let mut wb = word.as_str().as_bytes_vec();
            proof {
                assert(word@ =~= v[i as int].0);
                assert(wb@ == encode_utf8(v[i as int].0));
            }
            let mut wlen = u64_to_le_bytes(wb.len() as u64);
            out.append(&mut wlen);
            out.append(&mut wb);
            let comps = rec.get_vec();
            let mut clen = u64_to_le_bytes(comps.len() as u64);
            out.append(&mut clen);
            let ghost cstart = out@;
            let m = comps.len();
            let mut j: usize = 0;
            proof {
                assert(comps@.take(0) =~= Seq::<u32>::empty());
                assert(cstart + encode_comps(comps@.take(0)) =~= cstart);
            }
            while j < m
                invariant
                    j <= m,
                    m == comps@.len(),
                    out@ == cstart + encode_comps(comps@.take(j as int)),
                decreases m - j,
            {
                let mut cb = u32_to_le_bytes(comps[j]);
                out.append(&mut cb);
                proof {
                    assert(comps@.take(j + 1).drop_last() =~= comps@.take(j as int));
                    assert(comps@.take(j + 1).last() == comps@[j as int]);
                    assert(out@ =~= cstart + encode_comps(comps@.take(j + 1)));
                }
                j = j + 1;
            }
            proof {
                assert(comps@.take(m as int) =~= comps@);
                assert(comps@ == v[i as int].1);
                assert(out@ =~= before + encode_entry(v[i as int]));
                assert(v.take(i + 1).drop_last() =~= v.take(i as int));
                assert(v.take(i + 1).last() == v[i as int]);
                assert(out@ =~= spec_u64_to_le_bytes(v.len() as u64) + encode_entries(
                    v.take(i + 1),
                ));
            }
            i = i + 1;
        }
        proof {
            assert(v.take(n as int) =~= v);
        }
        out
    }

    /// Deserialize a store of the given dimension from its binary form. The
    /// bytes are accepted exactly when they encode a list of entries whose
    /// records all have that dimension; the entries may come in any order,
    /// and a word listed twice keeps its later record, as rebuilding a map
    /// from the stream leaves it. In particular
    /// `load_from_bytes(store.save_to_bytes(), dim)` gives the store back
    /// exactly, and anything that is no such encoding — truncated, corrupt,
    /// wrongly sized records, trailing garbage — is `None`.
    #[verifier::rlimit(60)]
    pub fn load_from_bytes(bytes: &Vec<u8>, dim: usize) -> (r: Option<Word2Vec>)
        ensures
            r matches Some(s) ==> s.spec_dim() == dim && valid_model(s@, dim as nat),
            r matches Some(s) ==> exists|el: StoreModel|
                all_dim(el, dim as nat) && bytes@ == #[trigger] spec_encode(el) && (forall|
                    u: Seq<char>,
                |
                    #[trigger] spec_get(s@, u) == list_get(el, u)),
            forall|el: StoreModel|
                all_dim(el, dim as nat) && bytes@ == #[trigger] spec_encode(el) ==> r is Some && (
                forall|u: Seq<char>| #[trigger] spec_get(r->Some_0@, u) == list_get(el, u)),
            forall|v: StoreModel|
                valid_model(v, dim as nat) && bytes@ == #[trigger] spec_encode(v) ==> r is Some
                    && r->Some_0@ == v,
    {
        let ghost b = bytes@;
        proof {
            lemma_auto_spec_u64_to_from_le_bytes();
            lemma_auto_spec_u32_to_from_le_bytes();
        }
        let s = bytes.as_slice();
        let nbytes = s.len();
        if nbytes < 8 {
            proof {
                assert forall|v: StoreModel|
                    all_dim(v, dim as nat) && b == #[trigger] spec_encode(v) implies false by {
                    assert(b.len() >= 8);
                }
            }
            return None;
        }
        let count64 = u64_from_le_bytes(&s[0..8]);
        let mut entries: Vec<(String, WordVec)> = Vec::new();
        proof {
            assert forall|v: StoreModel|
                all_dim(v, dim as nat) && b == #[trigger] spec_encode(v) implies v.len()
                == count64 as int && v.take(0) == entries.deep_view() by {
                lemma_encode_entries_len(v);
                assert(b.subrange(0, 8) =~= spec_u64_to_le_bytes(v.len() as u64));
                assert(16 * v.len() <= b.len());
                assert(v.len() < 0x1_0000_0000_0000_0000);
                assert(count64 == spec_u64_from_le_bytes(spec_u64_to_le_bytes(v.len() as u64)));
                assert(v.take(0) =~= entries.deep_view());
            }
        }
        let mut pos: usize = 8;
        let mut k: u64 = 0;
        proof {
            assert(entries.deep_view() =~= Seq::<(Seq<char>, Seq<u32>)>::empty());
            assert(b.take(8) =~= spec_u64_to_le_bytes(count64) + encode_entries(
                entries.deep_view(),
            ));
        }
        while k < count64
            invariant
                8 <= pos <= nbytes,
                nbytes == b.len(),
                s@ == b,
                b == bytes@,
                k <= count64,
                entries.deep_view().len() == k as int,
                entries@.len() == k as int,
                all_dim(entries.deep_view(), dim as nat),
                b.take(pos as int) == spec_u64_to_le_bytes(count64) + encode_entries(
                    entries.deep_view(),
                ),
                forall|v: StoreModel|
                    all_dim(v, dim as nat) && b == #[trigger] spec_encode(v) ==> v.len()
                        == count64 as int && v.take(k as int) == entries.deep_view(),
            decreases count64 - k,
        {
            let ghost em = entries.deep_view();
            proof {
                lemma_auto_spec_u64_to_from_le_bytes();
                lemma_auto_spec_u32_to_from_le_bytes();
                assert forall|v: StoreModel|
                    all_dim(v, dim as nat) && b == #[trigger] spec_encode(v) implies v.take(
                    k as int,
                ) == em && pos == 8 + encode_entries(v.take(k as int)).len() by {
                    assert(b.take(pos as int).len() == pos);
                }
            }
            // the word's byte length
            if nbytes - pos < 8 {
                proof {
                    assert forall|v: StoreModel|
                        all_dim(v, dim as nat) && b == #[trigger] spec_encode(v) implies false by {
                        lemma_auto_spec_u64_to_from_le_bytes();
                        lemma_entry_shape(b, v, dim as nat, k as int, pos as int);
                    }
                }
                return None;
            }
            let wlen64 = u64_from_le_bytes(&s[pos..pos + 8]);
            if wlen64 > (nbytes - (pos + 8)) as u64 {
                proof {
                    assert forall|v: StoreModel|
                        all_dim(v, dim as nat) && b == #[trigger] spec_encode(v) implies false by {
                        lemma_auto_spec_u64_to_from_le_bytes();
                        lemma_entry_shape(b, v, dim as nat, k as int, pos as int);
                        let wb = encode_utf8(v[k as int].0);
                        assert(b.subrange(pos as int, pos + 8) == spec_u64_to_le_bytes(
                            wb.len() as u64,
                        ));
                        assert(wb.len() < 0x1_0000_0000_0000_0000);
                        assert(wlen64 == wb.len() as u64);
                    }
                }
                return None;
            }
            let wlen = wlen64 as usize;
            let wbv = slice_to_vec(&s[pos + 8..pos + 8 + wlen]);
            let ghost wchunk = b.subrange(pos + 8, pos + 8 + wlen as int);
            let word = match string_from_utf8(wbv) {
                Some(w) => w,
                None => {
                    proof {
                        assert forall|v: StoreModel|
                            all_dim(v, dim as nat) && b == #[trigger] spec_encode(
                                v,
                            ) implies false by {
                            lemma_auto_spec_u64_to_from_le_bytes();
                            lemma_entry_shape(b, v, dim as nat, k as int, pos as int);
                            let wb = encode_utf8(v[k as int].0);
                            assert(wb.len() < 0x1_0000_0000_0000_0000);
                            assert(wlen64 == wb.len() as u64);
                            assert(wchunk == wb);
                            encode_utf8_valid_utf8(v[k as int].0);
                        }
                    }
                    return None;
                },
            };
            proof {
                assert(encode_utf8(word@) == wchunk);
            }
            let pos2 = pos + 8 + wlen;
            // the record's component count, which must be the dimension
            if nbytes - pos2 < 8 {
                proof {
                    assert forall|v: StoreModel|
                        all_dim(v, dim as nat) && b == #[trigger] spec_encode(v) implies false by {
                        lemma_auto_spec_u64_to_from_le_bytes();
                        lemma_entry_shape(b, v, dim as nat, k as int, pos as int);
                        let wb = encode_utf8(v[k as int].0);
                        assert(wb.len() < 0x1_0000_0000_0000_0000);
                        assert(wlen64 == wb.len() as u64);
                    }
                }
                return None;
            }
            let clen64 = u64_from_le_bytes(&s[pos2..pos2 + 8]);
            if clen64 != dim as u64 {
                proof {
                    assert forall|v: StoreModel|
                        all_dim(v, dim as nat) && b == #[trigger] spec_encode(v) implies false by {
                        lemma_auto_spec_u64_to_from_le_bytes();
                        lemma_entry_shape(b, v, dim as nat, k as int, pos as int);
                        let wb = encode_utf8(v[k as int].0);
                        assert(wb.len() < 0x1_0000_0000_0000_0000);
                        assert(wlen64 == wb.len() as u64);
                        assert(b.subrange(pos2 as int, pos2 + 8) == spec_u64_to_le_bytes(
                            dim as u64,
                        ));
                        assert(clen64 == dim as u64);
                    }
                }
                return None;
            }
            let pos3 = pos2 + 8;
            // the components: four bytes each
            if (nbytes - pos3) / 4 < dim {
                proof {
                    assert forall|v: StoreModel|
                        all_dim(v, dim as nat) && b == #[trigger] spec_encode(v) implies false by {
                        lemma_auto_spec_u64_to_from_le_bytes();
                        lemma_entry_shape(b, v, dim as nat, k as int, pos as int);
                        let wb = encode_utf8(v[k as int].0);
                        assert(wb.len() < 0x1_0000_0000_0000_0000);
                        assert(wlen64 == wb.len() as u64);
                        assert(pos3 + 4 * dim <= nbytes);
                    }
                }
                return None;
            }
            let mut comps: Vec<u32> = Vec::new();
            let mut j: usize = 0;
            proof {
                assert(comps@.len() == 0);
                assert(encode_comps(comps@) =~= b.subrange(pos3 as int, pos3 as int));
            }
            while j < dim
                invariant
                    j <= dim,
                    comps@.len() == j,
                    nbytes == b.len(),
                    s@ == b,
                    pos3 + 4 * (dim as int) <= nbytes,
                    encode_comps(comps@) == b.subrange(pos3 as int, pos3 + 4 * (j as int)),
                decreases dim - j,
            {
                let x = u32_from_le_bytes(&s[pos3 + 4 * j..pos3 + 4 * j + 4]);
                proof {
                    lemma_auto_spec_u32_to_from_le_bytes();
                    lemma_encode_comps_push(comps@, x);
                    assert(spec_u32_to_le_bytes(x) == b.subrange(
                        pos3 + 4 * (j as int),
                        pos3 + 4 * (j as int) + 4,
                    ));
                    assert(encode_comps(comps@.push(x)) =~= b.subrange(
                        pos3 as int,
                        pos3 + 4 * (j as int) + 4,
                    ));
                }
                comps.push(x);
                j = j + 1;
            }
            let pos4 = pos3 + 4 * dim;
            let ghost e = (word@, comps@);
            proof {
                // the bytes walked over are exactly this entry's encoding
                lemma_auto_spec_u64_to_from_le_bytes();
                assert(b.subrange(pos as int, pos + 8) == spec_u64_to_le_bytes(wlen64));
                assert(wlen64 == wchunk.len() as u64);
                assert(b.subrange(pos2 as int, pos2 + 8) == spec_u64_to_le_bytes(clen64));
                assert(comps@.len() == dim);
                assert(encode_entry(e) == spec_u64_to_le_bytes(wchunk.len() as u64) + wchunk
                    + spec_u64_to_le_bytes(dim as u64) + encode_comps(comps@));
                assert(b.subrange(pos as int, pos4 as int) =~= b.subrange(pos as int, pos + 8)
                    + b.subrange(pos + 8, pos2 as int) + b.subrange(pos2 as int, pos2 + 8)
                    + b.subrange(pos3 as int, pos4 as int));
                assert(b.subrange(pos as int, pos4 as int) == encode_entry(e));
                // which keeps the parsed prefix an exact encoding
                lemma_encode_entries_push(em, e);
                assert(b.take(pos4 as int) =~= b.take(pos as int) + b.subrange(
                    pos as int,
                    pos4 as int,
                ));
            }
            let ghost eshallow = entries@;
            entries.push((word, WordVec::new(comps)));
            proof {
                assert forall|k2: int| 0 <= k2 < entries.deep_view().len() implies #[trigger]
                entries.deep_view()[k2] == em.push(e)[k2] by {
                    assert(entries.deep_view()[k2] == entries@[k2].deep_view());
                    if k2 < em.len() {
                        assert(entries@[k2] == eshallow[k2]);
                        assert(em[k2] == eshallow[k2].deep_view());
                    }
                }
                assert(entries.deep_view() =~= em.push(e));
                assert(all_dim(entries.deep_view(), dim as nat));
                assert(b.take(pos4 as int) == spec_u64_to_le_bytes(count64) + encode_entries(
                    entries.deep_view(),
                ));
                assert forall|v: StoreModel|
                    all_dim(v, dim as nat) && b == #[trigger] spec_encode(v) implies v.take(
                    k as int + 1,
                ) == entries.deep_view() by {
                    lemma_auto_spec_u64_to_from_le_bytes();
                    lemma_auto_spec_u32_to_from_le_bytes();
                    lemma_entry_shape(b, v, dim as nat, k as int, pos as int);
                    let wb = encode_utf8(v[k as int].0);
                    assert(wb.len() < 0x1_0000_0000_0000_0000);
                    assert(wlen64 == wb.len() as u64);
                    assert(wchunk == wb);
                    encode_utf8_decode_utf8(word@);
                    encode_utf8_decode_utf8(v[k as int].0);
                    assert(word@ == v[k as int].0);
                    assert(b.subrange(pos3 as int, pos4 as int) == encode_comps(v[k as int].1));
                    lemma_encode_comps_inj(comps@, v[k as int].1);
                    assert(e == v[k as int]);
                    assert(v.take(k as int + 1) =~= v.take(k as int).push(v[k as int]));
                }
            }
            pos = pos4;
            k = k + 1;
        }
        if pos != nbytes {
            proof {
                assert forall|v: StoreModel|
                    all_dim(v, dim as nat) && b == #[trigger] spec_encode(v) implies false by {
                    lemma_auto_spec_u64_to_from_le_bytes();
                    assert(v.take(k as int) =~= v);
                    assert(b.take(pos as int) == spec_u64_to_le_bytes(count64) + encode_entries(
                        v,
                    ));
                    assert(b.take(pos as int).len() == b.len());
                }
            }
            return None;
        }
        let ghost raw = entries.deep_view();
        proof {
            assert(b.take(pos as int) =~= b);
            assert(raw.len() as u64 == count64);
            assert(b == spec_encode(raw));
        }
        let store = Word2Vec::from_word_vecs(entries, dim);
        proof {
            // the bytes determine the decoded entry list
            assert forall|el: StoreModel|
                all_dim(el, dim as nat) && b == #[trigger] spec_encode(el) implies el == raw by {
                assert(el.take(k as int) =~= el);
            }
            // a store's own canonical encoding comes back as that very store
            assert forall|v: StoreModel|
                valid_model(v, dim as nat) && b == #[trigger] spec_encode(v) implies store@
                == v by {
                assert(v == raw);
                assert forall|u: Seq<char>| #[trigger] spec_get(store@, u) == spec_get(v, u) by {
                    lemma_list_get_sorted(v, u);
                    assert(spec_get(store@, u) == list_get(raw, u));
                }
                lemma_valid_model_canonical(store@, v);
            }
        }
        Some(store)
    }
}

} // verus!
