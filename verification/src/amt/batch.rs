//! Writes and deletes in batches.

use crate::amt::{AmtImpl, TrieModel};
use crate::error::{Error, Fault, reports};
use crate::limits::{DEFAULT_BIT_WIDTH, MAX_INDEX};
use crate::root::Version;
use crate::node::flush::{extends, flushed};
use crate::node::read::found;
use crate::store::{content_id, ContentId, store_blocks};
use fvm_ipld_blockstore::MemoryBlockstore;
use vstd::multiset::Multiset;
use vstd::prelude::*;

verus! {

/// `itertools::sorted`, collected: the same indices, each as often as it was given, in
/// ascending order.
#[verifier::external_body]
fn sorted_indices(indices: Vec<u64>) -> (sorted: Vec<u64>)
    ensures
        sorted@.to_multiset() == indices@.to_multiset(),
        forall|a: int, b: int| 0 <= a <= b < sorted.len() ==> sorted[a] <= sorted[b],
{
    itertools::sorted(indices).collect()
}

/// How often `j` is among `indices`.
pub open spec fn times(indices: Seq<u64>, j: u64) -> nat {
    indices.to_multiset().count(j)
}

impl TrieModel {
    /// Whether a strict batch over `indices` finds nothing to take at index `j`: the index
    /// is not populated, or it is asked for more than once.
    pub open spec fn wanting(self, indices: Seq<u64>, j: u64) -> bool {
        indices.contains(j) && (!(self.lookup(j as nat) matches Ok(Some(_))) || times(indices, j)
            >= 2)
    }

    /// Whether the trie holds the values at the indices `0, 1, 2, ...`, in their order, and
    /// nothing else.
    pub open spec fn holds_first(self, vals: Seq<Vec<u8>>) -> bool {
        &&& forall|k: int|
            0 <= k < vals.len() ==> #[trigger] self.lookup(k as nat) == Ok::<
                Option<Seq<u8>>,
                Fault,
            >(Some(vals[k]@))
        &&& forall|j: nat|
            j >= vals.len() ==> #[trigger] self.lookup(j) == Ok::<Option<Seq<u8>>, Fault>(None)
    }

    /// Whether the trie holds nothing at each of `indices` that is below `bound`.
    pub open spec fn cleared(self, indices: Seq<u64>, bound: nat) -> bool {
        forall|j: u64|
            indices.contains(j) && j < bound ==> #[trigger] self.lookup(j as nat) == Ok::<
                Option<Seq<u8>>,
                Fault,
            >(None)
    }

    /// Whether the trie holds at each index above `bound`, and at each that is not among
    /// `indices`, what `before` held there.
    pub open spec fn kept(self, before: TrieModel, indices: Seq<u64>, bound: nat) -> bool {
        forall|j: nat|
            j > bound || !(j <= u64::MAX && indices.contains(j as u64)) ==> #[trigger] self.lookup(
                j,
            ) == before.lookup(j)
    }
}

impl AmtImpl {
    /// Puts the values at the indices `0, 1, 2, ...` in their order, one `set` after the
    /// other. Stops at the first `set` that fails, with its error; the values before it
    /// stay in the trie, and the indices after it hold what they held. On a trie as the
    /// operations on a new trie leave it, no `set` fails.
    #[verifier::loop_isolation(false)]
    pub fn batch_set(&mut self, vals: Vec<Vec<u8>>) -> (res: Result<(), Error>)
        requires
            old(self)@.wf(),
        ensures
            final(self)@.wf(),
            final(self)@.same_frame(old(self)@),
            forall|j: nat|
                j >= vals.len() ==> #[trigger] final(self)@.lookup(j) == old(self)@.lookup(j),
            res is Ok ==> forall|k: int|
                0 <= k < vals.len() ==> #[trigger] final(self)@.lookup(k as nat) == Ok::<
                    Option<Seq<u8>>,
                    Fault,
                >(Some(vals[k]@)),
            (forall|k: nat| k < vals.len() ==> #[trigger] old(self)@.lookup(k) is Ok) && old(
                self,
            )@.count <= u64::MAX - vals.len() ==> res is Ok,
            old(self)@.sound() ==> res is Ok,
            old(self)@.sound() ==> final(self)@.sound(),
            res matches Err(e) ==> exists|k: int, mid: TrieModel|
                {
                    &&& 0 <= k < vals.len()
                    &&& mid.wf()
                    &&& old(self)@.sound() ==> mid.sound()
                    &&& mid.lookup(k as nat) == old(self)@.lookup(k as nat)
                    &&& #[trigger] mid.sets_to(final(self)@, k as u64, vals[k]@, Err::<(), Error>(e))
                    &&& forall|m: int|
                        0 <= m < k ==> #[trigger] final(self)@.lookup(m as nat) == Ok::<
                            Option<Seq<u8>>,
                            Fault,
                        >(Some(vals[m]@))
                    &&& forall|j: nat| j > k ==> #[trigger] final(self)@.lookup(j) == old(self)@.lookup(j)
                },
    {
        let ghost before = self@;
        let mut k: usize = 0;
        while k < vals.len()
            invariant
                k <= vals.len(),
                self@.wf(),
                self@.same_frame(before),
                self@.count <= before.count + k,
                before.sound() ==> self@.sound(),
                forall|j: nat| j >= k ==> #[trigger] self@.lookup(j) == before.lookup(j),
                forall|m: int|
                    0 <= m < k ==> #[trigger] self@.lookup(m as nat) == Ok::<Option<Seq<u8>>, Fault>(
                        Some(vals[m]@),
                    ),
            decreases vals.len() - k,
        {
            let ghost here = self@;
            assert(here.lookup(k as nat) == before.lookup(k as nat));
            let put = self.set(k as u64, vals[k].clone());
            proof {
                if before.sound() {
                    crate::node::dense::lemma_dense_is_readable(
                        here.node,
                        here.blocks,
                        here.bit_width,
                        here.height as nat,
                        k as nat,
                    );
                    crate::laws::lemma_set_keeps_count(here, self@, k as u64, vals[k as int]@, put);
                }
                assert forall|j: nat| j >= k + 1 implies #[trigger] self@.lookup(j) == before.lookup(
                    j,
                ) by {
                    assert(self@.lookup(j) == here.lookup(j));
                }
                assert forall|m: int| 0 <= m < k implies #[trigger] self@.lookup(m as nat) == Ok::<
                    Option<Seq<u8>>,
                    Fault,
                >(Some(vals[m]@)) by {
                    assert(self@.lookup(m as nat) == here.lookup(m as nat));
                }
            }
            match put {
                Err(e) => {
                    proof {
                        assert forall|j: nat| j >= vals.len() implies #[trigger] self@.lookup(j)
                            == before.lookup(j) by {
                            assert(self@.lookup(j) == here.lookup(j));
                        }
                        assert(here.sets_to(self@, k as u64, vals[k as int]@, Err::<(), Error>(e)));
                    }
                    return Err(e);
                },
                Ok(()) => {},
            }
            k += 1;
        }
        Ok(())
    }

    /// Takes the values at `indices` out of the trie, in ascending order of the indices,
    /// one `delete` after the other, and says whether any was taken. Where `strict`
    /// holds, the first index that holds nothing, be it because it is asked for a second
    /// time, ends the batch with `NoSuchIndex`. A `delete` that fails ends the batch with
    /// its error. Either way the values taken before stay taken, and those at the indices
    /// after stay in the trie.
    ///
    /// On a trie as the operations on a new trie leave it, the batch goes well when no
    /// index is above the greatest and, where `strict` holds, each index is populated and
    /// asked for once. A strict batch fails when an index is not populated or asked for
    /// twice. Where the batch fails, it does so at one of its indices: every index of
    /// the batch below that one holds nothing, and was populated and asked for once if
    /// `strict` holds; every other index holds what it held; and the error is
    /// `NoSuchIndex` for an index that held nothing or is asked for twice, or else what
    /// `delete` hands back for that index on the trie as the batch had left it.
    #[verifier::loop_isolation(false)]
    #[verifier::rlimit(60)]
    pub fn batch_delete(&mut self, indices: Vec<u64>, strict: bool) -> (res: Result<bool, Error>)
        requires
            old(self)@.wf(),
        ensures
            final(self)@.wf(),
            final(self)@.same_frame(old(self)@),
            old(self)@.sound() ==> final(self)@.sound(),
            old(self)@.sound() && (forall|j: u64| indices@.contains(j) ==> j <= MAX_INDEX) && (!strict
                || (indices@.no_duplicates() && forall|j: u64|
                indices@.contains(j) ==> old(self)@.lookup(j as nat) matches Ok(Some(_))))
                ==> res is Ok,
            strict && (exists|j: u64| old(self)@.wanting(indices@, j)) ==> res is Err,
            old(self)@.sound() ==> (res matches Err(e) ==> e is NoSuchIndex || e is OutOfRange),
            match res {
                Ok(modified) => {
                    &&& final(self)@.cleared(indices@, 0x1_0000_0000_0000_0000)
                    &&& final(self)@.kept(old(self)@, indices@, 0x1_0000_0000_0000_0000)
                    &&& modified == (exists|j: u64|
                        indices@.contains(j) && (#[trigger] old(self)@.lookup(j as nat) matches Ok(
                            Some(_),
                        )))
                    &&& forall|j: u64| indices@.contains(j) ==> j <= MAX_INDEX
                    &&& strict ==> forall|j: u64| !old(self)@.wanting(indices@, j)
                },
                Err(e) => exists|i: u64|
                    {
                        &&& indices@.contains(i)
                        &&& #[trigger] final(self)@.cleared(indices@, i as nat)
                        &&& final(self)@.kept(old(self)@, indices@, i as nat)
                        &&& strict ==> forall|j: u64| j < i ==> !old(self)@.wanting(indices@, j)
                        &&& match e {
                            Error::NoSuchIndex(n) => {
                                &&& strict
                                &&& n == i
                                &&& old(self)@.wanting(indices@, i)
                                &&& final(self)@.lookup(i as nat) == Ok::<Option<Seq<u8>>, Fault>(
                                    None,
                                )
                            },
                            _ => exists|mid: TrieModel|
                                {
                                    &&& mid.wf()
                                    &&& old(self)@.sound() ==> mid.sound()
                                    &&& mid.lookup(i as nat) == old(self)@.lookup(i as nat)
                                    &&& #[trigger] mid.deletes_to(
                                        final(self)@,
                                        i,
                                        Err::<Option<Vec<u8>>, Error>(e),
                                    )
                                },
                        }
                    },
            },
    {
        let ghost before = self@;
        let ghost asked = indices@;
        let sorted = sorted_indices(indices);
        let ghost s = sorted@;
        proof {
            s.to_multiset_ensures();
            asked.to_multiset_ensures();
            assert forall|j: u64| s.contains(j) == asked.contains(j) by {
                assert(s.contains(j) <==> s.to_multiset().count(j) > 0);
                assert(asked.contains(j) <==> asked.to_multiset().count(j) > 0);
            }
        }
        let mut modified = false;
        let mut k: usize = 0;
        while k < sorted.len()
            invariant
                k <= sorted.len(),
                self@.wf(),
                self@.same_frame(before),
                before.sound() ==> self@.sound(),
                forall|m: int| 0 <= m < k ==> (#[trigger] s[m]) <= MAX_INDEX,
                strict ==> forall|m: int|
                    0 <= m < k ==> before.lookup((#[trigger] s[m]) as nat) matches Ok(Some(_)),
                strict ==> forall|a: int, b: int| 0 <= a < b < k ==> s[a] < s[b],
                forall|m: int|
                    0 <= m < k ==> #[trigger] self@.lookup(s[m] as nat) == Ok::<
                        Option<Seq<u8>>,
                        Fault,
                    >(None),
                forall|j: nat|
                    !(exists|m: int| 0 <= m < k && s[m] == j) ==> #[trigger] self@.lookup(j)
                        == before.lookup(j),
                modified == exists|m: int|
                    0 <= m < k && #[trigger] before.lookup(s[m] as nat) matches Ok(Some(_)),
            decreases sorted.len() - k,
        {
            let ghost here = self@;
            let i = sorted[k];
            assert(s.contains(i));
            let ghost seen = exists|m: int| 0 <= m < k && s[m] == i;
            let taken = self.delete(i);
            proof {
                if seen && i > MAX_INDEX {
                    let m = choose|m: int| 0 <= m < k && s[m] == i;
                    assert(s[m] <= MAX_INDEX);
                }
                if seen {
                    let m = choose|m: int| 0 <= m < k && s[m] == i;
                    assert(here.lookup(s[m] as nat) == Ok::<Option<Seq<u8>>, Fault>(None));
                    lemma_twice(s, m, k as int);
                } else {
                    assert(here.lookup(i as nat) == before.lookup(i as nat));
                }
                assert forall|m: int| 0 <= m < k implies #[trigger] self@.lookup(s[m] as nat)
                    == Ok::<Option<Seq<u8>>, Fault>(None) by {
                    if s[m] != i {
                        assert(self@.lookup(s[m] as nat) == here.lookup(s[m] as nat));
                    }
                }
                assert forall|j: nat| !(exists|m: int| 0 <= m < k + 1 && s[m] == j) implies #[trigger] self@.lookup(
                    j,
                ) == before.lookup(j) by {
                    assert(!(exists|m: int| 0 <= m < k && s[m] == j));
                    assert(s[k as int] != j);
                    assert(self@.lookup(j) == here.lookup(j));
                }
                if before.sound() {
                    crate::node::dense::lemma_dense_is_readable(
                        here.node,
                        here.blocks,
                        here.bit_width,
                        here.height as nat,
                        i as nat,
                    );
                    crate::laws::lemma_delete_keeps_count(here, self@, i, taken);
                }
            }
            let found = match taken {
                Err(e) => {
                    proof {
                        assert(!(e is NoSuchIndex)) by {
                            if i <= MAX_INDEX && here.lookup(i as nat) is Err {
                                assert(reports(e, here.lookup(i as nat)->Err_0));
                            }
                        }
                        assert(!seen);
                        lemma_batch_stops(before, self@, asked, s, k as int, false);
                        lemma_below_in_order(before, asked, s, k as int, strict);
                        assert(here.deletes_to(self@, i, Err::<Option<Vec<u8>>, Error>(e)));
                        assert(self@.cleared(asked, i as nat));
                        if strict && before.lookup(i as nat) matches Ok(Some(_)) {
                        } else if strict {
                            assert(before.wanting(asked, i));
                        }
                    }
                    return Err(e);
                },
                Ok(taken) => taken.is_some(),
            };
            if strict && !found {
                proof {
                    lemma_batch_stops(before, self@, asked, s, k as int, true);
                    lemma_below_in_order(before, asked, s, k as int, strict);
                    assert(self@.cleared(asked, i as nat));
                    assert(before.wanting(asked, i)) by {
                        if seen {
                            assert(times(s, i) >= 2);
                        }
                    }
                    if asked.no_duplicates() {
                        asked.lemma_multiset_has_no_duplicates();
                    }
                }
                return Err(Error::NoSuchIndex(i));
            }
            proof {
                if found {
                    assert(!seen);
                    assert(before.lookup(i as nat) matches Ok(Some(_)));
                } else {
                    if before.lookup(i as nat) matches Ok(Some(_)) {
                        assert(seen);
                        let m = choose|m: int| 0 <= m < k && s[m] == i;
                        assert(before.lookup(s[m] as nat) matches Ok(Some(_)));
                    }
                }
                if strict {
                    assert forall|a: int, b: int| 0 <= a < b < k + 1 implies s[a] < s[b] by {
                        if b == k {
                            assert(s[a] <= s[k as int]);
                            if s[a] == s[k as int] {
                                assert(seen);
                            }
                        }
                    }
                }
            }
            modified = modified || found;
            k += 1;
        }
        proof {
            lemma_batch_done(before, self@, asked, s);
            assert forall|j: u64| asked.contains(j) implies j <= MAX_INDEX by {
                assert(s.contains(j));
                let m = choose|m: int| 0 <= m < s.len() && s[m] == j;
                assert(s[m] <= MAX_INDEX);
            }
            if strict {
                assert forall|j: u64| !before.wanting(asked, j) by {
                    if asked.contains(j) {
                        assert(s.contains(j));
                        let m = choose|m: int| 0 <= m < s.len() && s[m] == j;
                        assert(before.lookup(s[m] as nat) matches Ok(Some(_)));
                        if times(asked, j) >= 2 {
                            lemma_twice_somewhere(s, j);
                        }
                    }
                }
            }
        }
        Ok(modified)
    }

    /// A trie over `block_store` with the values at the indices `0, 1, 2, ...`, flushed.
    /// Hands back the store, and the content hash of the root: that of the block of the
    /// root of the trie that holds these values and nothing else, with nothing pending.
    /// Fails with `Codec`, exactly when a node or the root of that trie has no encoding.
    pub fn new_from_iter(block_store: MemoryBlockstore, vals: Vec<Vec<u8>>) -> (res: (
        MemoryBlockstore,
        Result<ContentId, Error>,
    ))
        ensures
            extends(store_blocks(block_store), store_blocks(res.0)),
            exists|built: TrieModel|
                {
                    &&& #[trigger] built.holds_first(vals@)
                    &&& built.sound()
                    &&& built.version == Version::V3
                    &&& built.bit_width == DEFAULT_BIT_WIDTH
                    &&& built.blocks == store_blocks(block_store)
                    &&& res.1 is Ok <==> built.flushed() is Some
                    &&& res.1 matches Err(e) ==> e is Codec
                    &&& res.1 matches Ok(id) ==> {
                        &&& id@ == content_id(built.flushed().unwrap().root_block().unwrap())
                        &&& store_blocks(res.0).dom().contains(id@)
                    }
                },
    {
        let mut t = Self::new(block_store);
        proof {
            assert forall|k: nat| #[trigger] t@.lookup(k) == Ok::<Option<Seq<u8>>, Fault>(None) by {
                crate::laws::lemma_empty_holds_nothing(t@, k);
            }
        }
        let put = t.batch_set(vals);
        let ghost built = t@;
        assert(built.holds_first(vals@));
        match put {
            Err(e) => {
                return (t.into_store(), Err(e));
            },
            Ok(()) => {},
        }
        let flushed = t.flush();
        proof {
            if flushed is Ok {
                assert(t@.root_block() == built.flushed().unwrap().root_block());
            }
        }
        (t.into_store(), flushed)
    }
}

/// Where a batch stops at the `k`th of the sorted indices, every index below it that was
/// asked for holds nothing, and so does that index itself if `at` holds; every index
/// above it, and every index that was not asked for, holds what it held.
pub proof fn lemma_batch_stops(
    before: TrieModel,
    after: TrieModel,
    indices: Seq<u64>,
    sorted: Seq<u64>,
    k: int,
    at: bool,
)
    requires
        0 <= k < sorted.len(),
        forall|a: int, b: int| 0 <= a <= b < sorted.len() ==> sorted[a] <= sorted[b],
        forall|j: u64| sorted.contains(j) == indices.contains(j),
        forall|m: int|
            0 <= m < k ==> #[trigger] after.lookup(sorted[m] as nat) == Ok::<Option<Seq<u8>>, Fault>(
                None,
            ),
        at ==> after.lookup(sorted[k] as nat) == Ok::<Option<Seq<u8>>, Fault>(None),
        forall|j: nat|
            !(exists|m: int| 0 <= m < k + 1 && sorted[m] == j) ==> #[trigger] after.lookup(j)
                == before.lookup(j),
    ensures
        indices.contains(sorted[k]),
        after.cleared(indices, sorted[k] as nat),
        at ==> after.cleared(indices, (sorted[k] + 1) as nat),
        after.kept(before, indices, sorted[k] as nat),
{
    let i = sorted[k];
    assert(sorted.contains(i));
    assert forall|j: u64| indices.contains(j) && j < (if at {
        i + 1
    } else {
        i as int
    }) implies #[trigger] after.lookup(j as nat) == Ok::<Option<Seq<u8>>, Fault>(None) by {
        assert(sorted.contains(j));
        let m = choose|m: int| 0 <= m < sorted.len() && sorted[m] == j;
        if m >= k {
            assert(sorted[k] <= sorted[m]);
        }
        if m < k {
            assert(after.lookup(sorted[m] as nat) == Ok::<Option<Seq<u8>>, Fault>(None));
        }
    }
    assert forall|j: nat|
        j > i || !(j <= u64::MAX && indices.contains(j as u64)) implies #[trigger] after.lookup(j)
        == before.lookup(j) by {
        if exists|m: int| 0 <= m < k + 1 && sorted[m] == j {
            let m = choose|m: int| 0 <= m < k + 1 && sorted[m] == j;
            assert(sorted[m] <= sorted[k]);
            assert(sorted.contains(sorted[m]));
        }
    }
}

/// Where a batch has gone through all the sorted indices, every index that was asked for
/// holds nothing, and every other index holds what it held.
pub proof fn lemma_batch_done(before: TrieModel, after: TrieModel, indices: Seq<u64>, sorted: Seq<u64>)
    requires
        forall|j: u64| sorted.contains(j) == indices.contains(j),
        forall|m: int|
            0 <= m < sorted.len() ==> #[trigger] after.lookup(sorted[m] as nat) == Ok::<
                Option<Seq<u8>>,
                Fault,
            >(None),
        forall|j: nat|
            !(exists|m: int| 0 <= m < sorted.len() && sorted[m] == j) ==> #[trigger] after.lookup(j)
                == before.lookup(j),
    ensures
        after.cleared(indices, 0x1_0000_0000_0000_0000),
        after.kept(before, indices, 0x1_0000_0000_0000_0000),
        (exists|j: u64| indices.contains(j) && #[trigger] before.lookup(j as nat) matches Ok(Some(_)))
            == (exists|m: int|
            0 <= m < sorted.len() && #[trigger] before.lookup(sorted[m] as nat) matches Ok(Some(_))),
{
    assert forall|j: u64| indices.contains(j) implies #[trigger] after.lookup(j as nat) == Ok::<
        Option<Seq<u8>>,
        Fault,
    >(None) by {
        assert(sorted.contains(j));
        let m = choose|m: int| 0 <= m < sorted.len() && sorted[m] == j;
        assert(after.lookup(sorted[m] as nat) == Ok::<Option<Seq<u8>>, Fault>(None));
    }
    assert forall|j: nat|
        j > 0x1_0000_0000_0000_0000 || !(j <= u64::MAX && indices.contains(j as u64)) implies #[trigger] after.lookup(
        j,
    ) == before.lookup(j) by {
        if exists|m: int| 0 <= m < sorted.len() && sorted[m] == j {
            let m = choose|m: int| 0 <= m < sorted.len() && sorted[m] == j;
            assert(sorted.contains(sorted[m]));
        }
    }
    if exists|j: u64| indices.contains(j) && #[trigger] before.lookup(j as nat) matches Ok(Some(_)) {
        let j = choose|j: u64|
            indices.contains(j) && #[trigger] before.lookup(j as nat) matches Ok(Some(_));
        assert(sorted.contains(j));
        let m = choose|m: int| 0 <= m < sorted.len() && sorted[m] == j;
        assert(before.lookup(sorted[m] as nat) matches Ok(Some(_)));
    }
    if exists|m: int|
        0 <= m < sorted.len() && #[trigger] before.lookup(sorted[m] as nat) matches Ok(Some(_)) {
        let m = choose|m: int|
            0 <= m < sorted.len() && #[trigger] before.lookup(sorted[m] as nat) matches Ok(Some(_));
        assert(sorted.contains(sorted[m]));
    }
}

/// An index at two places of a sequence is in it twice at the least.
pub proof fn lemma_twice(s: Seq<u64>, a: int, b: int)
    requires
        0 <= a < b < s.len(),
        s[a] == s[b],
    ensures
        times(s, s[a]) >= 2,
{
    broadcast use vstd::multiset::group_multiset_axioms;

    let r = s.remove(a);
    s.to_multiset_ensures();
    r.to_multiset_ensures();
    assert(r[b - 1] == s[b]);
    assert(r.contains(s[a]));
    let j = s[a];
    let all = s.to_multiset();
    assert(r.to_multiset() =~= all.remove(j));
    assert(r.to_multiset().count(j) > 0);
    assert(Multiset::singleton(j).count(j) == 1);
    assert(all.sub(Multiset::singleton(j)).count(j) == if all.count(j) >= 1 {
        all.count(j) - 1
    } else {
        0
    });
}

/// An index that is in a sequence twice is at two places of it.
pub proof fn lemma_twice_somewhere(s: Seq<u64>, j: u64)
    requires
        times(s, j) >= 2,
    ensures
        exists|a: int, b: int| 0 <= a < b < s.len() && s[a] == j && s[b] == j,
{
    broadcast use vstd::multiset::group_multiset_axioms;

    s.to_multiset_ensures();
    assert(s.contains(j));
    let a = choose|a: int| 0 <= a < s.len() && s[a] == j;
    let r = s.remove(a);
    r.to_multiset_ensures();
    let all = s.to_multiset();
    assert(r.to_multiset() =~= all.remove(j));
    assert(Multiset::singleton(j).count(j) == 1);
    assert(all.sub(Multiset::singleton(j)).count(j) == all.count(j) - 1);
    assert(r.to_multiset().count(j) > 0);
    assert(r.contains(j));
    let c = choose|c: int| 0 <= c < r.len() && r[c] == j;
    if c < a {
        assert(s[c] == j);
        assert(0 <= c < a < s.len() && s[c] == j && s[a] == j);
    } else {
        assert(s[c + 1] == j);
        assert(0 <= a < c + 1 < s.len() && s[a] == j && s[c + 1] == j);
    }
}

/// Where a strict batch has taken a value at each of the first `k` of its sorted indices,
/// which go up, every index of the batch below the next was populated and asked for
/// once.
pub proof fn lemma_below_in_order(
    before: TrieModel,
    indices: Seq<u64>,
    s: Seq<u64>,
    k: int,
    strict: bool,
)
    requires
        0 <= k < s.len(),
        s.to_multiset() == indices.to_multiset(),
        forall|a: int, b: int| 0 <= a <= b < s.len() ==> s[a] <= s[b],
        forall|j: u64| s.contains(j) == indices.contains(j),
        strict ==> forall|m: int|
            0 <= m < k ==> before.lookup((#[trigger] s[m]) as nat) matches Ok(Some(_)),
        strict ==> forall|a: int, b: int| 0 <= a < b < k ==> s[a] < s[b],
    ensures
        strict ==> forall|j: u64| j < s[k] ==> !before.wanting(indices, j),
{
    if strict {
        assert forall|j: u64| j < s[k] implies !before.wanting(indices, j) by {
            if indices.contains(j) {
                assert(s.contains(j));
                let m = choose|m: int| 0 <= m < s.len() && s[m] == j;
                if m >= k {
                    assert(s[k] <= s[m]);
                }
                assert(before.lookup(s[m] as nat) matches Ok(Some(_)));
                if times(indices, j) >= 2 {
                    lemma_twice_somewhere(s, j);
                    let (a, b) = choose|a: int, b: int|
                        0 <= a < b < s.len() && s[a] == j && s[b] == j;
                    if b >= k {
                        assert(s[k] <= s[b]);
                    }
                    assert(s[a] < s[b]);
                }
            }
        }
    }
}

} // verus!
