//! Deterministic sharding of a store into folders and files.
//!
//! The store's words, already sorted, are walked in order. Every
//! `words_per_folder` words a new folder starts, named after the word that
//! starts it; the walked entries accumulate into a shard that is flushed to a
//! file — named after the word at the flush — every `words_per_file` words and
//! at the last word. Both group sizes are the word count divided by the
//! requested count, truncating, and never below one; the remainder is
//! absorbed by the final group. The result is a plan: which folders to
//! create, and which shard goes to which file in which folder. Writing the
//! plan to disk is the host program's part.

use vstd::prelude::*;

use crate::W2vError;
use crate::word2vec::{StoreModel, Word2Vec, WordVec, all_dim, sorted_model, valid_model};

verus! {

/// One output file of a partition: a sub-store, the file's name (without
/// extension) and the folder it goes in.
pub struct Shard {
    pub folder: String,
    pub name: String,
    pub store: Word2Vec,
}

/// The model of one shard: folder name, file name, contents.
pub type ShardModel = (Seq<char>, Seq<char>, StoreModel);

/// A partition plan: the folders to create, in order, and the shards to
/// write.
pub struct PartitionPlan {
    pub folders: Vec<String>,
    pub shards: Vec<Shard>,
}

impl PartitionPlan {
    /// The folder names, in the order the walk starts them.
    pub open spec fn folders_model(&self) -> Seq<Seq<char>> {
        self.folders.deep_view()
    }

    /// The shards, in the order the walk flushes them.
    pub open spec fn shards_model(&self) -> Seq<ShardModel> {
        Seq::new(
            self.shards@.len(),
            |j: int| (self.shards@[j].folder@, self.shards@[j].name@, self.shards@[j].store@),
        )
    }
}

/// The group size for splitting `total` words into `k` groups: `total / k`,
/// truncating, but at least one.
pub open spec fn words_per(total: nat, k: nat) -> int {
    if total / k >= 1 {
        (total / k) as int
    } else {
        1
    }
}

/// Whenever a store has at least as many words as requested groups, the group
/// size is exactly the truncating quotient, so folder and file boundaries
/// fall at multiples of `total / k`; only a store smaller than the requested
/// count — where that quotient is zero and walking in steps of it is
/// meaningless — clamps the step to one.
pub proof fn lemma_words_per_exact(total: nat, k: nat)
    requires
        1 <= k <= total,
    ensures
        words_per(total, k) == total / k,
{
    assert(total / k >= 1) by (nonlinear_arith)
        requires
            1 <= k <= total,
    ;
}

/// The words, in sorted order, that start a folder: those at indices that are
/// multiples of `wpd`, from position `i` on.
pub open spec fn folder_starts(v: StoreModel, wpd: int, i: int) -> Seq<Seq<char>>
    decreases v.len() - i,
{
    if i < 0 || i >= v.len() {
        Seq::empty()
    } else if i % wpd == 0 {
        seq![v[i].0] + folder_starts(v, wpd, i + 1)
    } else {
        folder_starts(v, wpd, i + 1)
    }
}

/// The walk from position `i` with the current folder name and the entries
/// accumulated since the last flush: every entry joins the shard in progress,
/// a new folder starts at each multiple of `wpd`, and the shard flushes at
/// each multiple of `wpf` and at the last entry.
pub open spec fn plan_rec(
    v: StoreModel,
    wpf: int,
    wpd: int,
    i: int,
    folder: Seq<char>,
    cur: StoreModel,
) -> Seq<ShardModel>
    decreases v.len() - i,
{
    if i < 0 || i >= v.len() {
        Seq::empty()
    } else {
        let folder2 = if i % wpd == 0 {
            v[i].0
        } else {
            folder
        };
        let cur2 = cur.push(v[i]);
        if i % wpf == 0 || i == v.len() - 1 {
            seq![(folder2, v[i].0, cur2)] + plan_rec(v, wpf, wpd, i + 1, folder2, Seq::empty())
        } else {
            plan_rec(v, wpf, wpd, i + 1, folder2, cur2)
        }
    }
}

/// The whole plan for a sorted store: the walk from the start.
pub open spec fn spec_plan(v: StoreModel, wpf: int, wpd: int) -> Seq<ShardModel> {
    plan_rec(v, wpf, wpd, 0, Seq::empty(), Seq::empty())
}

/// All entries of all shards of a plan, in order.
pub open spec fn shards_concat(p: Seq<ShardModel>) -> StoreModel
    decreases p.len(),
{
    if p.len() == 0 {
        Seq::empty()
    } else {
        p[0].2 + shards_concat(p.drop_first())
    }
}

/// The walk loses nothing and invents nothing: concatenating the shards it
/// flushes from position `i` on yields exactly the pending entries followed
/// by the rest of the store. In particular every word of the store lands in
/// exactly one shard, in order.
pub proof fn lemma_plan_covers(
    v: StoreModel,
    wpf: int,
    wpd: int,
    i: int,
    folder: Seq<char>,
    cur: StoreModel,
)
    requires
        0 <= i,
    ensures
        shards_concat(plan_rec(v, wpf, wpd, i, folder, cur)) == if i < v.len() {
            cur + v.skip(i)
        } else {
            Seq::<(Seq<char>, Seq<u32>)>::empty()
        },
    decreases v.len() - i,
{
    if i < v.len() {
        let folder2 = if i % wpd == 0 {
            v[i].0
        } else {
            folder
        };
        let cur2 = cur.push(v[i]);
        if i % wpf == 0 || i == v.len() - 1 {
            let rest = plan_rec(v, wpf, wpd, i + 1, folder2, Seq::empty());
            lemma_plan_covers(v, wpf, wpd, i + 1, folder2, Seq::empty());
            let whole = seq![(folder2, v[i].0, cur2)] + rest;
            assert(whole.drop_first() =~= rest);
            assert(whole[0] == (folder2, v[i].0, cur2));
            if i + 1 < v.len() {
                assert(cur2 + (Seq::<(Seq<char>, Seq<u32>)>::empty() + v.skip(i + 1)) =~= cur
                    + v.skip(i));
            } else {
                assert(cur2 + Seq::<(Seq<char>, Seq<u32>)>::empty() =~= cur + v.skip(i));
            }
        } else {
            lemma_plan_covers(v, wpf, wpd, i + 1, folder2, cur2);
            assert(cur2 + v.skip(i + 1) =~= cur + v.skip(i));
        }
    }
}

/// Every word of the store stands in exactly one shard of its plan: the
/// shards' contents, concatenated in order, are the store's entries.
pub proof fn lemma_partition_covers(v: StoreModel, wpf: int, wpd: int)
    ensures
        shards_concat(spec_plan(v, wpf, wpd)) == v,
{
    lemma_plan_covers(v, wpf, wpd, 0, Seq::empty(), Seq::empty());
    if v.len() > 0 {
        assert(Seq::<(Seq<char>, Seq<u32>)>::empty() + v.skip(0) =~= v);
    } else {
        assert(v =~= Seq::<(Seq<char>, Seq<u32>)>::empty());
    }
}

impl Word2Vec {
    /// Plan the split of this store into `f` folders holding `n` files in
    /// all. A zero count is rejected before anything else happens. The walk
    /// is the one described at [`plan_rec`]; the first flush comes right at
    /// the first word, and the final, possibly undersized group absorbs the
    /// remainder.
    pub fn partition(&self, n: usize, f: usize) -> (r: Result<PartitionPlan, W2vError>)
        ensures
            (n == 0 || f == 0) <==> r == Err::<PartitionPlan, W2vError>(W2vError::InvalidArgument),
            n > 0 && f > 0 ==> r is Ok,
            r matches Ok(p) ==> {
                let wpf = words_per(self@.len(), n as nat);
                let wpd = words_per(self@.len(), f as nat);
                &&& p.shards_model() == spec_plan(self@, wpf, wpd)
                &&& p.folders_model() == folder_starts(self@, wpd, 0)
                &&& shards_concat(p.shards_model()) == self@
                &&& forall|j: int| 0 <= j < p.shards@.len() ==> (
                #[trigger] p.shards@[j].store).spec_dim() == self.spec_dim()
            },
    {
        if n == 0 || f == 0 {
            return Err(W2vError::InvalidArgument);
        }
        let entries = self.entries_ref();
        let dim = self.dim();
        let total = entries.len();
        let ghost v = self@;
        let q1 = total / n;
        let wpf = if q1 == 0 {
            1
        } else {
            q1
        };
        let q2 = total / f;
        let wpd = if q2 == 0 {
            1
        } else {
            q2
        };
        proof {
            assert(wpf as int == words_per(v.len(), n as nat));
            assert(wpd as int == words_per(v.len(), f as nat));
        }
        let mut folders: Vec<String> = Vec::new();
        let mut shards: Vec<Shard> = Vec::new();
        let mut cur: Vec<(String, WordVec)> = Vec::new();
        let mut cur_folder: String = String::new();
        let mut i: usize = 0;
        proof {
            assert(folders.deep_view() =~= Seq::<Seq<char>>::empty());
            assert(cur.deep_view() =~= Seq::<(Seq<char>, Seq<u32>)>::empty());
            assert(Seq::new(
                shards@.len(),
                |j: int| (shards@[j].folder@, shards@[j].name@, shards@[j].store@),
            ) =~= Seq::<ShardModel>::empty());
        }
        while i < total
            invariant
                i <= total,
                total == v.len(),
                v == self@,
                valid_model(v, dim as nat),
                dim == self.spec_dim(),
                wpf >= 1,
                wpd >= 1,
                entries.deep_view() == v,
                entries@.len() == total,
                cur.deep_view().len() <= i,
                cur.deep_view() =~= v.subrange(i - cur.deep_view().len(), i as int),
                folder_starts(v, wpd as int, 0) == folders.deep_view() + folder_starts(
                    v,
                    wpd as int,
                    i as int,
                ),
                spec_plan(v, wpf as int, wpd as int) == Seq::new(
                    shards@.len(),
                    |j: int| (shards@[j].folder@, shards@[j].name@, shards@[j].store@),
                ) + plan_rec(v, wpf as int, wpd as int, i as int, cur_folder@, cur.deep_view()),
                forall|j: int| 0 <= j < shards@.len() ==> (
                #[trigger] shards@[j].store).spec_dim() == dim,
            decreases total - i,
        {
            proof {
                assert(v[i as int] == entries@[i as int].deep_view());
            }
            let ghost folders_before = folders.deep_view();
            let ghost fshallow = folders@;
            if i % wpd == 0 {
                cur_folder = entries[i].0.clone();
                folders.push(entries[i].0.clone());
                proof {
                    assert forall|k: int| 0 <= k < folders.deep_view().len() implies #[trigger]
                    folders.deep_view()[k] == folders_before.push(v[i as int].0)[k] by {
                        assert(folders.deep_view()[k] == folders@[k].deep_view());
                        if k < folders_before.len() {
                            assert(folders@[k] == fshallow[k]);
                            assert(folders_before[k] == fshallow[k].deep_view());
                        }
                    }
                    assert(folders.deep_view() =~= folders_before.push(v[i as int].0));
                    assert(folders_before.push(v[i as int].0) + folder_starts(
                        v,
                        wpd as int,
                        i + 1,
                    ) =~= folders_before + (seq![v[i as int].0] + folder_starts(
                        v,
                        wpd as int,
                        i + 1,
                    )));
                }
            }
            let ghost curm = cur.deep_view();
            let ghost cshallow = cur@;
            cur.push((entries[i].0.clone(), entries[i].1.clone()));
            proof {
                assert forall|k: int| 0 <= k < cur.deep_view().len() implies #[trigger] cur
                    .deep_view()[k] == curm.push(v[i as int])[k] by {
                    assert(cur.deep_view()[k] == cur@[k].deep_view());
                    if k < curm.len() {
                        assert(cur@[k] == cshallow[k]);
                        assert(curm[k] == cshallow[k].deep_view());
                    }
                }
                assert(cur.deep_view() =~= curm.push(v[i as int]));
                assert(cur.deep_view() =~= v.subrange(i + 1 - cur.deep_view().len(), i + 1));
            }
            if i % wpf == 0 || i == total - 1 {
                let flushed = cur;
                cur = Vec::new();
                proof {
                    assert(sorted_model(flushed.deep_view()));
                    assert(all_dim(flushed.deep_view(), dim as nat));
                }
                let store = Word2Vec::from_sorted_entries(flushed, dim);
                let ghost smodel_before = Seq::new(
                    shards@.len(),
                    |j: int| (shards@[j].folder@, shards@[j].name@, shards@[j].store@),
                );
                let ghost sshallow = shards@;
                shards.push(
                    Shard { folder: cur_folder.clone(), name: entries[i].0.clone(), store },
                );
                proof {
                    let smodel = Seq::new(
                        shards@.len(),
                        |j: int| (shards@[j].folder@, shards@[j].name@, shards@[j].store@),
                    );
                    assert forall|k: int| 0 <= k < smodel.len() implies #[trigger] smodel[k]
                        == smodel_before.push(
                        (cur_folder@, v[i as int].0, curm.push(v[i as int])),
                    )[k] by {
                        if k < smodel_before.len() {
                            assert(shards@[k] == sshallow[k]);
                        }
                    }
                    assert(smodel =~= smodel_before.push(
                        (cur_folder@, v[i as int].0, curm.push(v[i as int])),
                    ));
                    assert(smodel_before.push((cur_folder@, v[i as int].0, curm.push(v[i as int])))
                        + plan_rec(v, wpf as int, wpd as int, i + 1, cur_folder@, Seq::empty())
                        =~= smodel_before + (seq![
                        (cur_folder@, v[i as int].0, curm.push(v[i as int])),
                    ] + plan_rec(v, wpf as int, wpd as int, i + 1, cur_folder@, Seq::empty())));
                    assert(cur.deep_view() =~= Seq::<(Seq<char>, Seq<u32>)>::empty());
                }
            }
            i = i + 1;
        }
        let plan = PartitionPlan { folders, shards };
        proof {
            lemma_partition_covers(v, wpf as int, wpd as int);
        }
        Ok(plan)
    }
}

} // verus!
