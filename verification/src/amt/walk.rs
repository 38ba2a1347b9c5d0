//! Walking a trie up by index, with or without changing the values on the way.

use crate::amt::{AmtImpl, TrieModel};
use crate::error::{Error, Fault, reports};
use crate::limits::{lemma_reach_grows, MAX_INDEX};
use crate::node::{lemma_beyond_reach, lookup};
use crate::node::read::{first_met, nothing_in};
use crate::limits::lemma_max_height_fits;
use crate::node::walk::{answered, halted_at, lemma_stop, passed_in, went, within, Answer};
use vstd::prelude::*;

verus! {

/// A value handed to a callback that may change it. It keeps track of whether it was
/// changed.
pub struct ValueMut {
    value: Vec<u8>,
    changed: bool,
}

impl ValueMut {
    /// The bytes of the value.
    pub closed spec fn bytes(&self) -> Seq<u8> {
        self.value@
    }

    /// Whether the value was put anew since it was handed out or last marked unchanged.
    pub closed spec fn is_changed(&self) -> bool {
        self.changed
    }

    /// Wraps a value, unchanged.
    pub fn new(value: Vec<u8>) -> (v: ValueMut)
        ensures
            v.bytes() == value@,
            !v.is_changed(),
    {
        ValueMut { value, changed: false }
    }

    /// The value.
    pub fn get(&self) -> (value: &Vec<u8>)
        ensures
            value@ == self.bytes(),
    {
        &self.value
    }

    /// Puts a new value in place of the old, and marks the value changed.
    pub fn set(&mut self, value: Vec<u8>)
        ensures
            final(self).bytes() == value@,
            final(self).is_changed(),
    {
        self.value = value;
        self.changed = true;
    }

    /// Whether the value was put anew.
    pub fn value_changed(&self) -> (b: bool)
        ensures
            b == self.is_changed(),
    {
        self.changed
    }

    /// Marks the value unchanged, keeping it.
    pub fn mark_unchanged(&mut self)
        ensures
            final(self).bytes() == old(self).bytes(),
            !final(self).is_changed(),
    {
        self.changed = false;
    }

    /// Gives up the wrapper for the value.
    pub fn into_inner(self) -> (value: Vec<u8>)
        ensures
            value@ == self.bytes(),
    {
        self.value
    }
}

impl TrieModel {
    /// Whether the trie holds nothing at the indices from `from` up to, and without, `to`.
    pub open spec fn nothing_in(self, from: nat, to: nat) -> bool {
        nothing_in(self.node, self.blocks, self.bit_width, self.height as nat, from, to)
    }
}

/// Whether the callback was handed every populated index below `upto`, none of which the
/// way to fails, and handed back `go_on` for each.
pub open spec fn passed<R, F: FnMut(u64, &Vec<u8>) -> Result<R, String>>(
    trie: TrieModel,
    f: F,
    upto: nat,
    go_on: R,
) -> bool {
    forall|j: u64|
        j < upto ==> match #[trigger] trie.lookup(j as nat) {
            Ok(Some(bytes)) => answered(f, j, bytes, Ok(go_on)),
            Ok(None) => true,
            Err(_) => false,
        }
}

/// Whether `res` is the outcome of walking the trie up by index, handing each populated
/// index with its value to the callback for as long as it hands back `go_on`: there is a
/// place where the walk ended, below which the callback was handed every populated index
/// and handed back `go_on`. The walk ended well past the last index, or at a populated
/// index for which the callback handed back `halt`; it failed at an index that cannot be
/// read, or at a populated index for which the callback failed.
pub open spec fn walked<R, F: FnMut(u64, &Vec<u8>) -> Result<R, String>>(
    trie: TrieModel,
    f: F,
    go_on: R,
    halt: Option<R>,
    res: Result<(), Error>,
) -> bool {
    exists|stop: nat|
        {
            &&& stop <= 0x1_0000_0000_0000_0000
            &&& #[trigger] passed(trie, f, stop, go_on)
            &&& match res {
                Ok(()) => stop == 0x1_0000_0000_0000_0000 || {
                    &&& halt matches Some(h)
                    &&& trie.lookup(stop) matches Ok(Some(bytes))
                    &&& answered(f, stop as u64, bytes, Ok(h))
                },
                Err(Error::Callback(text)) => {
                    &&& stop < 0x1_0000_0000_0000_0000
                    &&& trie.lookup(stop) matches Ok(Some(bytes))
                    &&& answered(f, stop as u64, bytes, Err(text))
                },
                Err(e) => {
                    &&& stop < 0x1_0000_0000_0000_0000
                    &&& trie.lookup(stop) matches Err(fault)
                    &&& reports(e, fault)
                },
            }
        }
}

impl AmtImpl {
    /// The first populated index at or after `from`, with its value, going up by index;
    /// `None` where there is none. Fails, with the report of the fault, where an index
    /// that cannot be read from the store comes first.
    pub fn first_from(&self, from: u64) -> (res: Result<Option<(u64, Vec<u8>)>, Error>)
        requires
            self@.wf(),
        ensures
            first_met(
                res,
                self@.node,
                self@.blocks,
                self@.bit_width,
                self@.height as nat,
                from as nat,
            ),
    {
        if self.beyond(from) {
            proof {
                assert forall|k: nat| from <= k implies #[trigger] lookup(
                    self@.node,
                    self@.blocks,
                    self@.bit_width,
                    self@.height as nat,
                    k,
                ) == Ok::<Option<Seq<u8>>, Fault>(None) by {
                    lemma_beyond_reach(
                        self@.node,
                        self@.blocks,
                        self@.bit_width,
                        self@.height as nat,
                        k,
                    );
                }
            }
            return Ok(None);
        }
        self.root.node.first_from(&self.block_store, self.root.height, self.root.bit_width, from)
    }

    /// Walks the trie up by index and hands each populated index with its value to `f`,
    /// for as long as `f` hands back `true`. The walk halts at once when `f` hands back
    /// `false` or fails, and when an index cannot be read from the store. Each stored
    /// subtree that is not held in memory is read from the store once.
    pub fn for_each_while<F>(&self, mut f: F) -> (res: Result<(), Error>) where
        F: FnMut(u64, &Vec<u8>) -> Result<bool, String>,

        requires
            self@.wf(),
            forall|j: u64, v: Vec<u8>| call_requires(f, (j, &v)),
        ensures
            walked(self@, f, true, Some(false), res),
    {
        let ghost f0 = f;
        proof {
            lemma_max_height_fits(self@.bit_width, self@.height as nat);
        }
        let outcome = self.root.node.for_each_while(
            &self.block_store,
            self.root.height,
            self.root.bit_width,
            0,
            &mut f,
        );
        let res = match outcome {
            Ok(_) => Ok(()),
            Err(e) => Err(e),
        };
        proof {
            lemma_went_is_walked(self@, f0, true, Some(false), outcome, res);
        }
        res
    }

    /// Walks the trie up by index and hands each populated index with its value to `f`.
    /// The walk halts at once when `f` fails, and when an index cannot be read from the
    /// store. Each stored subtree that is not held in memory is read from the store once.
    pub fn for_each<F>(&self, mut f: F) -> (res: Result<(), Error>) where
        F: FnMut(u64, &Vec<u8>) -> Result<(), String>,

        requires
            self@.wf(),
            forall|j: u64, v: Vec<u8>| call_requires(f, (j, &v)),
        ensures
            walked(self@, f, (), None, res),
    {
        let ghost f0 = f;
        proof {
            lemma_max_height_fits(self@.bit_width, self@.height as nat);
        }
        let outcome = self.root.node.for_each_while(
            &self.block_store,
            self.root.height,
            self.root.bit_width,
            0,
            &mut f,
        );
        let res = match outcome {
            Ok(_) => Ok(()),
            Err(e) => Err(e),
        };
        proof {
            lemma_went_is_walked(self@, f0, (), None, outcome, res);
        }
        res
    }
}

/// The outcome of walking the topmost node of a trie from index zero is the outcome of
/// walking the trie.
pub proof fn lemma_went_is_walked<R: Answer, F: FnMut(u64, &Vec<u8>) -> Result<R, String>>(
    trie: TrieModel,
    f: F,
    go_on: R,
    halt: Option<R>,
    outcome: Result<bool, Error>,
    res: Result<(), Error>,
)
    requires
        trie.wf(),
        went::<R, F>(outcome, trie.node, trie.blocks, trie.bit_width, trie.height as nat, 0, f),
        forall|r: R| r.goes_on() <==> r == go_on,
        forall|r: R| !r.goes_on() ==> halt == Some(r),
        res == match outcome {
            Ok(_) => Ok::<(), Error>(()),
            Err(e) => Err::<(), Error>(e),
        },
    ensures
        walked(trie, f, go_on, halt, res),
{
    let bit_width = trie.bit_width;
    let height = trie.height as nat;
    let top = within(bit_width, height, 0);
    match outcome {
        Ok(true) => {
            assert(passed(trie, f, 0x1_0000_0000_0000_0000, go_on)) by {
                assert forall|j: u64| j < 0x1_0000_0000_0000_0000 implies match #[trigger] trie.lookup(
                    j as nat,
                ) {
                    Ok(Some(bytes)) => answered(f, j, bytes, Ok(go_on)),
                    Ok(None) => true,
                    Err(_) => false,
                } by {
                    lemma_passed_at(trie, f, go_on, top, j);
                }
            }
        },
        Ok(false) => {
            let stop = choose|stop: nat|
                {
                    &&& stop < top
                    &&& #[trigger] passed_in::<R, F>(
                        trie.node,
                        trie.blocks,
                        bit_width,
                        height,
                        0,
                        f,
                        stop,
                    )
                    &&& lookup(trie.node, trie.blocks, bit_width, height, stop) matches Ok(Some(bytes))
                    &&& halted_at::<R, F>(f, (0 + stop) as u64, bytes)
                };
            assert(passed(trie, f, stop, go_on)) by {
                assert forall|j: u64| j < stop implies match #[trigger] trie.lookup(j as nat) {
                    Ok(Some(bytes)) => answered(f, j, bytes, Ok(go_on)),
                    Ok(None) => true,
                    Err(_) => false,
                } by {
                    lemma_passed_at(trie, f, go_on, stop, j);
                }
            }
            let bytes = trie.lookup(stop)->Ok_0->Some_0;
            let r = choose|r: R| !r.goes_on() && #[trigger] answered(f, stop as u64, bytes, Ok::<R, String>(r));
            assert(halt == Some(r));
        },
        Err(e) => {
            let stop = lemma_stop::<R, F>(e, trie.node, trie.blocks, bit_width, height, 0, f);
            assert(passed(trie, f, stop, go_on)) by {
                assert forall|j: u64| j < stop implies match #[trigger] trie.lookup(j as nat) {
                    Ok(Some(bytes)) => answered(f, j, bytes, Ok(go_on)),
                    Ok(None) => true,
                    Err(_) => false,
                } by {
                    lemma_passed_at(trie, f, go_on, stop, j);
                }
            }
            assert(trie.lookup(stop) == lookup(trie.node, trie.blocks, bit_width, height, stop));
        },
    }
}

/// Below the place up to which the topmost node of a trie was passed, and past what it
/// addresses, each populated index was handed to the callback, which handed back the
/// answer after which a walk goes on.
pub proof fn lemma_passed_at<R: Answer, F: FnMut(u64, &Vec<u8>) -> Result<R, String>>(
    trie: TrieModel,
    f: F,
    go_on: R,
    upto: nat,
    j: u64,
)
    requires
        trie.wf(),
        passed_in::<R, F>(trie.node, trie.blocks, trie.bit_width, trie.height as nat, 0, f, upto),
        forall|r: R| r.goes_on() <==> r == go_on,
        j < upto || upto == within(trie.bit_width, trie.height as nat, 0),
    ensures
        match trie.lookup(j as nat) {
            Ok(Some(bytes)) => answered(f, j, bytes, Ok(go_on)),
            Ok(None) => true,
            Err(_) => false,
        },
{
    if j < upto {
        match lookup(trie.node, trie.blocks, trie.bit_width, trie.height as nat, j as nat) {
            Ok(Some(bytes)) => {
                let r = choose|r: R| r.goes_on() && #[trigger] answered(f, j, bytes, Ok::<R, String>(r));
                assert(r == go_on);
            },
            _ => {},
        }
    } else {
        lemma_beyond_reach(trie.node, trie.blocks, trie.bit_width, trie.height as nat, j as nat);
    }
}

impl TrieModel {
    /// Whether `after` is populated at the indices at which this trie is, holds nothing
    /// where this trie holds nothing, and cannot be read where this trie cannot.
    pub open spec fn same_indices(self, after: TrieModel) -> bool {
        forall|j: nat|
            match #[trigger] self.lookup(j) {
                Ok(Some(_)) => after.lookup(j) matches Ok(Some(_)),
                other => after.lookup(j) == other,
            }
    }
}

/// Whether a callback was called for the index that it was to be called for, and handed
/// back what it was to hand back.
pub open spec fn told<R>(at: u64, index: nat, answer: Result<R, String>, expected: Result<R, String>)
    -> bool {
    at == index && answer == expected
}

/// Whether a value of `before` bytes was handed to a callback as `handed`, unchanged, and
/// `after` is what the index then holds: the bytes of `back`, as the callback handed the
/// value back, where it changed the value and the change was `applied`; else the bytes
/// from before.
pub open spec fn turned(
    before: Seq<u8>,
    handed: ValueMut,
    back: ValueMut,
    applied: bool,
    after: Result<Option<Seq<u8>>, Fault>,
) -> bool {
    &&& handed.bytes() == before
    &&& !handed.is_changed()
    &&& after == Ok::<Option<Seq<u8>>, Fault>(
        Some(
            if applied && back.is_changed() {
                back.bytes()
            } else {
                before
            },
        ),
    )
}

/// Whether a value of `before` bytes was handed to a callback as `handed`, unchanged, and
/// `change` is the change that the callback made: the bytes of `back`, as the callback
/// handed the value back, where it changed the value.
pub open spec fn noted(before: Seq<u8>, handed: ValueMut, back: ValueMut, change: Option<Seq<u8>>)
    -> bool {
    &&& handed.bytes() == before
    &&& !handed.is_changed()
    &&& change == if back.is_changed() {
        Some(back.bytes())
    } else {
        None::<Seq<u8>>
    }
}

/// Whether the changes that the callback made before a walk ended with `res` are in the
/// trie: all of them where the walk went well, or ended because the last index cannot
/// be written to; else those of a walk that puts each change in at once, and none of a
/// walk that holds them back.
pub open spec fn applies(res: Result<(), Error>, deferred: bool) -> bool {
    match res {
        Ok(()) => true,
        Err(Error::OutOfRange(_)) => true,
        Err(_) => !deferred,
    }
}

/// The change noted for index `j`, if there is one.
pub open spec fn change_at(news: Map<u64, Seq<u8>>, j: u64) -> Option<Seq<u8>> {
    if news.contains_key(j) {
        Some(news[j])
    } else {
        None
    }
}

/// What a trie holds at index `j` once the changes noted are put into it.
pub open spec fn overlaid(trie: TrieModel, news: Map<u64, Seq<u8>>, j: nat) -> Result<
    Option<Seq<u8>>,
    Fault,
> {
    if j <= u64::MAX && news.contains_key(j as u64) {
        Ok(Some(news[j as u64]))
    } else {
        trie.lookup(j)
    }
}

/// Whether the changes held back are the changes noted: one for each, at populated
/// indices, in ascending order of the indices.
pub open spec fn held_back(held: Seq<(u64, Vec<u8>)>, news: Map<u64, Seq<u8>>, before: TrieModel)
    -> bool {
    &&& forall|m: int|
        0 <= m < held.len() ==> {
            &&& news.contains_key((#[trigger] held[m]).0)
            &&& news[held[m].0] == held[m].1@
            &&& before.lookup(held[m].0 as nat) matches Ok(Some(_))
        }
    &&& forall|a: int, b: int|
        0 <= a < b < held.len() ==> (#[trigger] held[a]).0 < (#[trigger] held[b]).0
    &&& forall|k: u64|
        #[trigger] news.contains_key(k) ==> exists|m: int|
            0 <= m < held.len() && (#[trigger] held[m]).0 == k
}

/// Whether the change held back for index `j` is among the first `k` of them.
pub open spec fn put_in(held: Seq<(u64, Vec<u8>)>, k: int, j: nat) -> bool {
    exists|m: int| 0 <= m < k && (#[trigger] held[m]).0 == j
}

impl TrieModel {
    /// Whether the trie holds at every index above `stop` what `before` held there.
    pub open spec fn same_above(self, before: TrieModel, stop: nat) -> bool {
        forall|j: nat| j > stop ==> #[trigger] self.lookup(j) == before.lookup(j)
    }
}

/// Putting a value at a populated index leaves the height of a trie as it is.
pub proof fn lemma_set_in_place(before: TrieModel, after: TrieModel, i: nat)
    requires
        before.wf(),
        before.lookup(i) matches Ok(Some(_)),
        after.bit_width == before.bit_width,
        after.grown_for(before.height, i),
    ensures
        after.height == before.height,
{
    if i >= before.reach() {
        lemma_beyond_reach(before.node, before.blocks, before.bit_width, before.height as nat, i);
    }
    if after.height > before.height {
        lemma_reach_grows(before.bit_width, before.height as nat, (after.height - 1) as nat);
    }
}

impl AmtImpl {
    /// Walks the trie up by index and hands each populated index with its value to `f`,
    /// which may put a new value in its place, for as long as `f` hands back `true`. A
    /// value that `f` has changed is put into the trie as soon as `f` hands it back, and
    /// only then is the way to it made pending. The walk halts at once when `f` hands
    /// back `false` or fails, and when an index cannot be read from the store; a change
    /// by a call of `f` that fails is dropped.
    ///
    /// There is a place where the walk ended. Below it, `f` was handed every populated
    /// index with its value, unchanged, and handed back `true`. Above it the trie holds
    /// what it held. The walk ended well past the last index, or at a populated index
    /// for which `f` handed back `false`. It failed at an index that cannot be read, with
    /// the report of the fault; at a populated index for which `f` failed, with what `f`
    /// reported; or at the last index, which cannot be written to, with `OutOfRange`,
    /// where `f` changed its value. An index at which the walk failed holds what it held.
    /// Where `f` changed no value, the trie is as it was, with nothing more pending.
    /// Every index below that place holds what `f` put, or what it held where `f` put
    /// nothing; so does an index at which `f` handed back `false`.
    pub fn for_each_while_mut<F>(&mut self, f: F) -> (res: Result<(), Error>) where
        F: FnMut(u64, &mut ValueMut) -> Result<bool, String>,

        requires
            old(self)@.wf(),
            forall|j: u64, v: &mut ValueMut| call_requires(f, (j, v)),
        ensures
            final(self)@.wf(),
            final(self)@.same_frame(old(self)@),
            final(self)@.height == old(self)@.height,
            final(self)@.count == old(self)@.count,
            old(self)@.same_indices(final(self)@),
            old(self)@.sound() ==> final(self)@.sound(),
            final(self)@ == old(self)@ ||
                exists|at: u64, slot: &mut ValueMut, answer: Result<bool, String>| #[trigger]
                    call_ensures(f, (at, slot), answer)
                        && !slot.is_changed()
                        && final(slot).is_changed(),
            exists|stop: nat|
                {
                    &&& stop <= 0x1_0000_0000_0000_0000
                    &&& #[trigger] final(self)@.same_above(old(self)@, stop)
                    &&& forall|j: u64| j < stop ==> match #[trigger] old(self)@.lookup(j as nat) {
                        Ok(Some(x)) =>
                            exists|at: u64, slot: &mut ValueMut, answer: Result<bool, String>| #[trigger]
                            call_ensures(f, (at, slot), answer)
                                && told(at, j as nat, answer, Ok::<bool, String>(true))
                                && turned(
                                    x,
                                    *slot,
                                    *final(slot),
                                    applies(res, false),
                                    final(self)@.lookup(j as nat),
                                ),
                        Ok(None) => true,
                        Err(_) => false,
                    }
                    &&& match res {
                        Ok(()) => stop == 0x1_0000_0000_0000_0000 || {
                            &&& old(self)@.lookup(stop) matches Ok(Some(x))
                            &&&
                                exists|at: u64, slot: &mut ValueMut, answer: Result<bool, String>| #[trigger]
                                call_ensures(f, (at, slot), answer)
                                    && told(at, stop, answer, Ok::<bool, String>(false))
                                    && turned(
                                        x,
                                        *slot,
                                        *final(slot),
                                        true,
                                        final(self)@.lookup(stop),
                                    )
                        },
                        Err(Error::Callback(text)) => {
                            &&& stop < 0x1_0000_0000_0000_0000
                            &&& old(self)@.lookup(stop) matches Ok(Some(x))
                            &&&
                                exists|at: u64, slot: &mut ValueMut, answer: Result<bool, String>| #[trigger]
                                call_ensures(f, (at, slot), answer)
                                    && told(at, stop, answer, Err::<bool, String>(text))
                                    && turned(
                                        x,
                                        *slot,
                                        *final(slot),
                                        false,
                                        final(self)@.lookup(stop),
                                    )
                        },
                        Err(Error::OutOfRange(i)) => {
                            &&& stop == i
                            &&& i == u64::MAX
                            &&& old(self)@.lookup(stop) matches Ok(Some(x))
                            &&&
                                exists|at: u64, slot: &mut ValueMut, answer: Result<bool, String>| #[trigger]
                                call_ensures(f, (at, slot), answer)
                                    && at == stop
                                    && answer is Ok
                                    && final(slot).is_changed()
                                    && turned(
                                        x,
                                        *slot,
                                        *final(slot),
                                        false,
                                        final(self)@.lookup(stop),
                                    )
                        },
                        Err(e) => {
                            &&& stop < 0x1_0000_0000_0000_0000
                            &&& old(self)@.lookup(stop) matches Err(fault)
                            &&& reports(e, fault)
                            &&& final(self)@.lookup(stop) == old(self)@.lookup(stop)
                        },
                    }
                },
    {
        self.walk_mut(f, false)
    }

    /// As [`AmtImpl::for_each_while_mut`], but the changes are held back and put into the
    /// trie, by ordinary writes in the order of the indices, once the walk is over; where
    /// the walk fails, none is. The trie is thus not written to while it is walked, at the
    /// price of the guarantee that a change is in the trie before the next index is read.
    /// It is for callers that need the store read before it is written.
    ///
    /// There is a place where the walk ended. Below it, `f` was handed every populated
    /// index with its value, unchanged, and handed back `true`. Above it the trie holds
    /// what it held. The walk ended well past the last index, or at a populated index
    /// for which `f` handed back `false`. It failed at an index that cannot be read, with
    /// the report of the fault; at a populated index for which `f` failed, with what `f`
    /// reported; or at the last index, which cannot be written to, with `OutOfRange`,
    /// where `f` changed its value. An index at which the walk failed holds what it held.
    /// Where `f` changed no value, the trie is as it was, with nothing more pending.
    /// Where the walk went well, or failed at the last index, every index below that
    /// place holds what `f` put, or what it held where `f` put nothing, and so does an
    /// index at which `f` handed back `false`; where the walk failed elsewhere, the trie
    /// holds what it held.
    pub fn for_each_while_mut_deferred<F>(&mut self, f: F) -> (res: Result<(), Error>) where
        F: FnMut(u64, &mut ValueMut) -> Result<bool, String>,

        requires
            old(self)@.wf(),
            forall|j: u64, v: &mut ValueMut| call_requires(f, (j, v)),
        ensures
            final(self)@.wf(),
            final(self)@.same_frame(old(self)@),
            final(self)@.height == old(self)@.height,
            final(self)@.count == old(self)@.count,
            old(self)@.same_indices(final(self)@),
            old(self)@.sound() ==> final(self)@.sound(),
            final(self)@ == old(self)@ ||
                exists|at: u64, slot: &mut ValueMut, answer: Result<bool, String>| #[trigger]
                    call_ensures(f, (at, slot), answer)
                        && !slot.is_changed()
                        && final(slot).is_changed(),
            exists|stop: nat|
                {
                    &&& stop <= 0x1_0000_0000_0000_0000
                    &&& #[trigger] final(self)@.same_above(old(self)@, stop)
                    &&& forall|j: u64| j < stop ==> match #[trigger] old(self)@.lookup(j as nat) {
                        Ok(Some(x)) =>
                            exists|at: u64, slot: &mut ValueMut, answer: Result<bool, String>| #[trigger]
                            call_ensures(f, (at, slot), answer)
                                && told(at, j as nat, answer, Ok::<bool, String>(true))
                                && turned(
                                    x,
                                    *slot,
                                    *final(slot),
                                    applies(res, true),
                                    final(self)@.lookup(j as nat),
                                ),
                        Ok(None) => true,
                        Err(_) => false,
                    }
                    &&& match res {
                        Ok(()) => stop == 0x1_0000_0000_0000_0000 || {
                            &&& old(self)@.lookup(stop) matches Ok(Some(x))
                            &&&
                                exists|at: u64, slot: &mut ValueMut, answer: Result<bool, String>| #[trigger]
                                call_ensures(f, (at, slot), answer)
                                    && told(at, stop, answer, Ok::<bool, String>(false))
                                    && turned(
                                        x,
                                        *slot,
                                        *final(slot),
                                        true,
                                        final(self)@.lookup(stop),
                                    )
                        },
                        Err(Error::Callback(text)) => {
                            &&& stop < 0x1_0000_0000_0000_0000
                            &&& old(self)@.lookup(stop) matches Ok(Some(x))
                            &&&
                                exists|at: u64, slot: &mut ValueMut, answer: Result<bool, String>| #[trigger]
                                call_ensures(f, (at, slot), answer)
                                    && told(at, stop, answer, Err::<bool, String>(text))
                                    && turned(
                                        x,
                                        *slot,
                                        *final(slot),
                                        false,
                                        final(self)@.lookup(stop),
                                    )
                        },
                        Err(Error::OutOfRange(i)) => {
                            &&& stop == i
                            &&& i == u64::MAX
                            &&& old(self)@.lookup(stop) matches Ok(Some(x))
                            &&&
                                exists|at: u64, slot: &mut ValueMut, answer: Result<bool, String>| #[trigger]
                                call_ensures(f, (at, slot), answer)
                                    && at == stop
                                    && answer is Ok
                                    && final(slot).is_changed()
                                    && turned(
                                        x,
                                        *slot,
                                        *final(slot),
                                        false,
                                        final(self)@.lookup(stop),
                                    )
                        },
                        Err(e) => {
                            &&& stop < 0x1_0000_0000_0000_0000
                            &&& old(self)@.lookup(stop) matches Err(fault)
                            &&& reports(e, fault)
                            &&& final(self)@.lookup(stop) == old(self)@.lookup(stop)
                        },
                    }
                },
    {
        self.walk_mut(f, true)
    }

    /// Walks the trie as [`AmtImpl::for_each_while_mut`] does, or, where `deferred` holds,
    /// as [`AmtImpl::for_each_while_mut_deferred`] does.
    #[verifier::loop_isolation(false)]
    fn walk_mut<F>(&mut self, mut f: F, deferred: bool) -> (res: Result<(), Error>) where
        F: FnMut(u64, &mut ValueMut) -> Result<bool, String>,

        requires
            old(self)@.wf(),
            forall|j: u64, v: &mut ValueMut| call_requires(f, (j, v)),
        ensures
            final(self)@.wf(),
            final(self)@.same_frame(old(self)@),
            final(self)@.height == old(self)@.height,
            final(self)@.count == old(self)@.count,
            old(self)@.same_indices(final(self)@),
            old(self)@.sound() ==> final(self)@.sound(),
            final(self)@ == old(self)@ ||
                exists|at: u64, slot: &mut ValueMut, answer: Result<bool, String>| #[trigger]
                    call_ensures(f, (at, slot), answer)
                        && !slot.is_changed()
                        && final(slot).is_changed(),
            exists|stop: nat|
                {
                    &&& stop <= 0x1_0000_0000_0000_0000
                    &&& #[trigger] final(self)@.same_above(old(self)@, stop)
                    &&& forall|j: u64| j < stop ==> match #[trigger] old(self)@.lookup(j as nat) {
                        Ok(Some(x)) =>
                            exists|at: u64, slot: &mut ValueMut, answer: Result<bool, String>| #[trigger]
                            call_ensures(f, (at, slot), answer)
                                && told(at, j as nat, answer, Ok::<bool, String>(true))
                                && turned(
                                    x,
                                    *slot,
                                    *final(slot),
                                    applies(res, deferred),
                                    final(self)@.lookup(j as nat),
                                ),
                        Ok(None) => true,
                        Err(_) => false,
                    }
                    &&& match res {
                        Ok(()) => stop == 0x1_0000_0000_0000_0000 || {
                            &&& old(self)@.lookup(stop) matches Ok(Some(x))
                            &&&
                                exists|at: u64, slot: &mut ValueMut, answer: Result<bool, String>| #[trigger]
                                call_ensures(f, (at, slot), answer)
                                    && told(at, stop, answer, Ok::<bool, String>(false))
                                    && turned(
                                        x,
                                        *slot,
                                        *final(slot),
                                        true,
                                        final(self)@.lookup(stop),
                                    )
                        },
                        Err(Error::Callback(text)) => {
                            &&& stop < 0x1_0000_0000_0000_0000
                            &&& old(self)@.lookup(stop) matches Ok(Some(x))
                            &&&
                                exists|at: u64, slot: &mut ValueMut, answer: Result<bool, String>| #[trigger]
                                call_ensures(f, (at, slot), answer)
                                    && told(at, stop, answer, Err::<bool, String>(text))
                                    && turned(
                                        x,
                                        *slot,
                                        *final(slot),
                                        false,
                                        final(self)@.lookup(stop),
                                    )
                        },
                        Err(Error::OutOfRange(i)) => {
                            &&& stop == i
                            &&& i == u64::MAX
                            &&& old(self)@.lookup(stop) matches Ok(Some(x))
                            &&&
                                exists|at: u64, slot: &mut ValueMut, answer: Result<bool, String>| #[trigger]
                                call_ensures(f, (at, slot), answer)
                                    && at == stop
                                    && answer is Ok
                                    && final(slot).is_changed()
                                    && turned(
                                        x,
                                        *slot,
                                        *final(slot),
                                        false,
                                        final(self)@.lookup(stop),
                                    )
                        },
                        Err(e) => {
                            &&& stop < 0x1_0000_0000_0000_0000
                            &&& old(self)@.lookup(stop) matches Err(fault)
                            &&& reports(e, fault)
                            &&& final(self)@.lookup(stop) == old(self)@.lookup(stop)
                        },
                    }
                },
    {
        let ghost before = self@;
        let ghost f0 = f;
        let ghost mut news: Map<u64, Seq<u8>> = Map::empty();
        let ghost mut end: nat = 0x1_0000_0000_0000_0000;
        let mut held: Vec<(u64, Vec<u8>)> = Vec::new();
        let mut from: u64 = 0;
        let mut walking = true;
        while walking
            invariant
                self@.wf(),
                self@.same_frame(before),
                self@.height == before.height,
                self@.count == before.count,
                before.same_indices(self@),
                before.sound() ==> self@.sound(),
                f == f0,
                forall|j: u64, v: &mut ValueMut| call_requires(f, (j, v)),
                (self@ == before && held.len() == 0) ||
                    exists|at: u64, slot: &mut ValueMut, answer: Result<bool, String>| #[trigger]
                        call_ensures(f0, (at, slot), answer)
                            && !slot.is_changed()
                            && final(slot).is_changed(),
                end <= 0x1_0000_0000_0000_0000,
                deferred ==> self@.same_content(before),
                !deferred ==>
                    forall|j: nat| #[trigger] self@.lookup(j) == overlaid(before, news, j),
                !deferred ==> held.len() == 0,
                deferred ==> held_back(held@, news, before),
                walking ==> forall|k: u64| #[trigger] news.contains_key(k) ==> k < from,
                !walking ==> forall|k: u64| #[trigger] news.contains_key(k) ==> k <= end,
                walking ==> forall|j: u64| j < from ==> match #[trigger] before.lookup(j as nat) {
                    Ok(Some(x)) =>
                        exists|at: u64, slot: &mut ValueMut, answer: Result<bool, String>| #[trigger]
                        call_ensures(f0, (at, slot), answer)
                            && told(at, j as nat, answer, Ok::<bool, String>(true))
                            && noted(x, *slot, *final(slot), change_at(news, j)),
                    Ok(None) => true,
                    Err(_) => false,
                },
                !walking ==> forall|j: u64| j < end ==> match #[trigger] before.lookup(j as nat) {
                    Ok(Some(x)) =>
                        exists|at: u64, slot: &mut ValueMut, answer: Result<bool, String>| #[trigger]
                        call_ensures(f0, (at, slot), answer)
                            && told(at, j as nat, answer, Ok::<bool, String>(true))
                            && noted(x, *slot, *final(slot), change_at(news, j)),
                    Ok(None) => true,
                    Err(_) => false,
                },
                !walking ==> end == 0x1_0000_0000_0000_0000 || {
                    &&& before.lookup(end) matches Ok(Some(x))
                    &&&
                        exists|at: u64, slot: &mut ValueMut, answer: Result<bool, String>| #[trigger]
                        call_ensures(f0, (at, slot), answer)
                            && told(at, end, answer, Ok::<bool, String>(false))
                            && noted(x, *slot, *final(slot), change_at(news, end as u64))
                },
            decreases
                    (if walking {
                        1nat
                    } else {
                        0nat
                    }),
                    u64::MAX - from,
        {
            let ghost here = self@;
            assert forall|k: nat| k >= from implies
                #[trigger] here.lookup(k) == before.lookup(k) by {}
            let (j, v) = match self.first_from(from) {
                Err(e) => {
                    proof {
                        let stop = choose|j: nat|
    {
        &&& from <= j <= u64::MAX
        &&& (#[trigger] lookup(
            here.node,
            here.blocks,
            here.bit_width,
            here.height as nat,
            j)) matches Err(fault) && reports(e, fault,
        )
        &&& here.nothing_in(from as nat, j)
    };
assert(here.lookup(stop) == before.lookup(stop));
                        assert forall|k: u64| k < stop implies
                            match #[trigger] before.lookup(k as nat) {
                            Ok(Some(x)) =>
                                exists|at: u64, slot: &mut ValueMut, answer: Result<bool, String>| #[trigger]
                                call_ensures(f0, (at, slot), answer)
                                    && told(at, k as nat, answer, Ok::<bool, String>(true))
                                    && turned(
                                        x,
                                        *slot,
                                        *final(slot),
                                        !deferred,
                                        self@.lookup(k as nat),
                                    ),
                            Ok(None) => true,
                            Err(_) => false,
                        } by {
if k >= from {
    assert(here.lookup(k as nat) == before.lookup(k as nat));
    assert(lookup(here.node, here.blocks, here.bit_width, here.height as nat, k as nat) == Ok::<Option<Seq<u8>>, Fault>(None));
}
                        }
                        assert(self@.same_above(before, stop));
                    }
                    return Err(e);
                },
                Ok(None) => {
                    proof {
                        end = 0x1_0000_0000_0000_0000;
                        assert forall|k: u64| k < end implies
                            match #[trigger] before.lookup(k as nat) {
                            Ok(Some(x)) =>
                                exists|at: u64, slot: &mut ValueMut, answer: Result<bool, String>| #[trigger]
                                call_ensures(f0, (at, slot), answer)
                                    && told(at, k as nat, answer, Ok::<bool, String>(true))
                                    && noted(x, *slot, *final(slot), change_at(news, k)),
                            Ok(None) => true,
                            Err(_) => false,
                        } by {
if k >= from {
    assert(here.lookup(k as nat) == before.lookup(k as nat));
    assert(lookup(here.node, here.blocks, here.bit_width, here.height as nat, k as nat) == Ok::<Option<Seq<u8>>, Fault>(None));
}
}
                    }
                    walking = false;
                    continue ;
                },
                Ok(Some(met)) => met,
            };
            let ghost x = v@;
            proof {
                assert(here.lookup(j as nat) == before.lookup(j as nat));
assert(before.lookup(j as nat) == Ok::<Option<Seq<u8>>, Fault>(Some(x)));
assert forall|k: u64| from <= k < j implies
    before.lookup(k as nat) == Ok::<Option<Seq<u8>>, Fault>(None) by {
    assert(here.lookup(k as nat) == before.lookup(k as nat));
    assert(lookup(here.node, here.blocks, here.bit_width, here.height as nat, k as nat) == Ok::<Option<Seq<u8>>, Fault>(None));
}
            }
            let mut slot = ValueMut::new(v);
            let ghost handed = slot;
            let answer = f(j, &mut slot);
            let ghost back = slot;
            assert(exists|s: &mut ValueMut| #[trigger]
                call_ensures(f0, (j, s), answer) && *s == handed && *final(s) == back);
            let go_on = match answer {
                Err(text) => {
                    proof {
                        assert(
                            exists|at: u64, slot: &mut ValueMut, answer: Result<bool, String>| #[trigger]
                            call_ensures(f0, (at, slot), answer)
                                && told(at, j as nat, answer, Err::<bool, String>(text))
                                && turned(x, *slot, *final(slot), false, self@.lookup(j as nat)));
                        assert forall|k: u64| k < j implies
                            match #[trigger] before.lookup(k as nat) {
                            Ok(Some(x)) =>
                                exists|at: u64, slot: &mut ValueMut, answer: Result<bool, String>| #[trigger]
                                call_ensures(f0, (at, slot), answer)
                                    && told(at, k as nat, answer, Ok::<bool, String>(true))
                                    && turned(
                                        x,
                                        *slot,
                                        *final(slot),
                                        !deferred,
                                        self@.lookup(k as nat),
                                    ),
                            Ok(None) => true,
                            Err(_) => false,
                        } by {

                        }
                        assert(self@.same_above(before, j as nat));
                    }
                    return Err(Error::Callback(text));
                },
                Ok(go_on) => go_on,
            };
            let ghost olds = news;
            if slot.value_changed() {
                assert(exists|at: u64, slot: &mut ValueMut, answer: Result<bool, String>| #[trigger]
                    call_ensures(f0, (at, slot), answer)
                        && !slot.is_changed()
                        && final(slot).is_changed());
                let bytes = slot.into_inner();
                proof {
                    news = olds.insert(j, bytes@);
                }
                if deferred {
                    let ghost held_before = held@;
                    held.push((j, bytes));
                    proof {
                        assert forall|m: int| 0 <= m < held.len() implies {
                            &&& news.contains_key((#[trigger] held@[m]).0)
                            &&& news[held@[m].0] == held@[m].1@
                            &&& before.lookup(held@[m].0 as nat) matches Ok(Some(_))
                        } by {
                            if m < held_before.len() {
                                assert(held@[m] == held_before[m]);
                                assert(olds.contains_key(held_before[m].0));
                            }
                        }
                        assert forall|a: int, b: int| 0 <= a < b < held.len() implies
                            (#[trigger] held@[a]).0 < (#[trigger] held@[b]).0 by {
                            assert(held@[a] == held_before[a]);
                            assert(olds.contains_key(held_before[a].0));
                            if b < held_before.len() {
                                assert(held@[b] == held_before[b]);
                            }
                        }
                        assert forall|k: u64| #[trigger] news.contains_key(k) implies
                            exists|m: int| 0 <= m < held.len() && (#[trigger] held@[m]).0 == k by {
                            if k == j {
                                assert(held@[held.len() - 1].0 == j);
                            } else {
                                assert(olds.contains_key(k));
                                let m = choose|m: int|
                                    0 <= m < held_before.len() && (#[trigger] held_before[m]).0 == k;
                                assert(held@[m] == held_before[m]);
                            }
                        }
                    }
                } else {
                    let put = self.set(j, bytes);
                    proof {
                        if j <= MAX_INDEX {
    lemma_set_in_place(here, self@, j as nat);
}
assert forall|k: nat| true implies match #[trigger] before.lookup(k) {
    Ok(Some(_)) => self@.lookup(k) matches Ok(Some(_)),
    other => self@.lookup(k) == other,
} by {
    if k != j {
        assert(self@.lookup(k) == here.lookup(k));
    }
}
                    }
                    match put {
                        Err(e) => {
                            proof {
                                assert(j == u64::MAX);
                                assert(self@ == here);
                                assert(
                                    exists|at: u64, slot: &mut ValueMut, answer: Result<bool, String>| #[trigger]
                                    call_ensures(f0, (at, slot), answer)
                                        && at == j
                                        && answer is Ok
                                        && final(slot).is_changed()
                                        && turned(
                                            x,
                                            *slot,
                                            *final(slot),
                                            false,
                                            self@.lookup(j as nat),
                                        ));
                                assert forall|k: nat| true implies
                                    #[trigger] self@.lookup(k) == overlaid(before, olds, k) by {}
                                assert forall|k: u64| k < j implies
                                    match #[trigger] before.lookup(k as nat) {
                                    Ok(Some(x)) =>
                                        exists|at: u64, slot: &mut ValueMut, answer: Result<bool, String>| #[trigger]
                                        call_ensures(f0, (at, slot), answer)
                                            && told(at, k as nat, answer, Ok::<bool, String>(true))
                                            && turned(
                                                x,
                                                *slot,
                                                *final(slot),
                                                true,
                                                self@.lookup(k as nat),
                                            ),
                                    Ok(None) => true,
                                    Err(_) => false,
                                } by {
assert(self@.lookup(k as nat) == overlaid(before, olds, k as nat));
assert(change_at(olds, k) == change_at(news, k));
                        }
                                assert(self@.same_above(before, j as nat));
                            }
                            return Err(e);
                        },
                        Ok(()) => {},
                    }
                    proof {
                        assert forall|k: nat| true implies
                            #[trigger] self@.lookup(k) == overlaid(before, news, k) by {
                            if k != j {
                                assert(self@.lookup(k) == here.lookup(k));
                                assert(here.lookup(k) == overlaid(before, olds, k));
                            }
                        }
                    }
                }
            }
            proof {
                assert forall|k: u64| k < j implies match #[trigger] before.lookup(k as nat) {
                    Ok(Some(x)) =>
                        exists|at: u64, slot: &mut ValueMut, answer: Result<bool, String>| #[trigger]
                        call_ensures(f0, (at, slot), answer)
                            && told(at, k as nat, answer, Ok::<bool, String>(true))
                            && noted(x, *slot, *final(slot), change_at(news, k)),
                    Ok(None) => true,
                    Err(_) => false,
                } by {
if k < from { assert(change_at(news, k) == change_at(olds, k)); }
}
                assert(noted(x, handed, back, change_at(news, j)));
            }
            if !go_on {
                proof {
                    end = j as nat;
                    assert(
                        exists|at: u64, slot: &mut ValueMut, answer: Result<bool, String>| #[trigger]
                        call_ensures(f0, (at, slot), answer)
                            && told(at, end, answer, Ok::<bool, String>(false))
                            && noted(x, *slot, *final(slot), change_at(news, end as u64)));
                }
                walking = false;
            } else if j == u64::MAX {
                proof {
                    end = 0x1_0000_0000_0000_0000;
                    assert(
                        exists|at: u64, slot: &mut ValueMut, answer: Result<bool, String>| #[trigger]
                        call_ensures(f0, (at, slot), answer)
                            && told(at, j as nat, answer, Ok::<bool, String>(true))
                            && noted(x, *slot, *final(slot), change_at(news, j)));
                    assert forall|k: u64| k < end implies match #[trigger] before.lookup(k as nat) {
                        Ok(Some(x)) =>
                            exists|at: u64, slot: &mut ValueMut, answer: Result<bool, String>| #[trigger]
                            call_ensures(f0, (at, slot), answer)
                                && told(at, k as nat, answer, Ok::<bool, String>(true))
                                && noted(x, *slot, *final(slot), change_at(news, k)),
                        Ok(None) => true,
                        Err(_) => false,
                    } by {
if k == j { } 
}
                }
                walking = false;
            } else {
                proof {
                    assert(
                        exists|at: u64, slot: &mut ValueMut, answer: Result<bool, String>| #[trigger]
                        call_ensures(f0, (at, slot), answer)
                            && told(at, j as nat, answer, Ok::<bool, String>(true))
                            && noted(x, *slot, *final(slot), change_at(news, j)));
                    assert forall|k: u64| k < j + 1 implies
                        match #[trigger] before.lookup(k as nat) {
                        Ok(Some(x)) =>
                            exists|at: u64, slot: &mut ValueMut, answer: Result<bool, String>| #[trigger]
                            call_ensures(f0, (at, slot), answer)
                                && told(at, k as nat, answer, Ok::<bool, String>(true))
                                && noted(x, *slot, *final(slot), change_at(news, k)),
                        Ok(None) => true,
                        Err(_) => false,
                    } by {
if k == j { }
}
                }
                from = j + 1;
            }
        }
        let mut k: usize = 0;
        while k < held.len()
            invariant
                self@.wf(),
                self@.same_frame(before),
                self@.height == before.height,
                self@.count == before.count,
                before.same_indices(self@),
                before.sound() ==> self@.sound(),
                f == f0,
                forall|j: u64, v: &mut ValueMut| call_requires(f, (j, v)),
                (self@ == before && held.len() == 0) ||
                    exists|at: u64, slot: &mut ValueMut, answer: Result<bool, String>| #[trigger]
                        call_ensures(f0, (at, slot), answer)
                            && !slot.is_changed()
                            && final(slot).is_changed(),
                k <= held.len(),
                end <= 0x1_0000_0000_0000_0000,
                !deferred ==> held.len() == 0,
                !deferred ==>
                    forall|j: nat| #[trigger] self@.lookup(j) == overlaid(before, news, j),
                deferred ==> held_back(held@, news, before),
                deferred ==>
                    forall|j: nat| #[trigger] self@.lookup(j) == if put_in(held@, k as int, j) {
                    overlaid(before, news, j)
                } else {
                    before.lookup(j)
                },
                forall|k: u64| #[trigger] news.contains_key(k) ==> k <= end,
                forall|j: u64| j < end ==> match #[trigger] before.lookup(j as nat) {
                    Ok(Some(x)) =>
                        exists|at: u64, slot: &mut ValueMut, answer: Result<bool, String>| #[trigger]
                        call_ensures(f0, (at, slot), answer)
                            && told(at, j as nat, answer, Ok::<bool, String>(true))
                            && noted(x, *slot, *final(slot), change_at(news, j)),
                    Ok(None) => true,
                    Err(_) => false,
                },
                end == 0x1_0000_0000_0000_0000 || {
                    &&& before.lookup(end) matches Ok(Some(x))
                    &&&
                        exists|at: u64, slot: &mut ValueMut, answer: Result<bool, String>| #[trigger]
                        call_ensures(f0, (at, slot), answer)
                            && told(at, end, answer, Ok::<bool, String>(false))
                            && noted(x, *slot, *final(slot), change_at(news, end as u64))
                },
            decreases held.len() - k,
        {
            let ghost here = self@;
            let j = held[k].0;
            proof {
                assert(news.contains_key(held@[k as int].0));
                assert(before.lookup(held@[k as int].0 as nat) matches Ok(Some(_)));
                assert(!put_in(held@, k as int, j as nat)) by {
                    if put_in(held@, k as int, j as nat) {
                        let m = choose|m: int| 0 <= m < k && (#[trigger] held@[m]).0 == j;
                        assert(held@[m].0 < held@[k as int].0);
                    }
                }
                assert(here.lookup(j as nat) == before.lookup(j as nat));
            }
            let put = self.set(j, held[k].1.clone());
            proof {
                if j <= MAX_INDEX {
    lemma_set_in_place(here, self@, j as nat);
}
assert forall|k: nat| true implies match #[trigger] before.lookup(k) {
    Ok(Some(_)) => self@.lookup(k) matches Ok(Some(_)),
    other => self@.lookup(k) == other,
} by {
    if k != j {
        assert(self@.lookup(k) == here.lookup(k));
    }
}
            }
            match put {
                Err(e) => {
                    proof {
                        assert(j == u64::MAX);
                        assert(self@ == here);
                        let x = before.lookup(j as nat)->Ok_0->Some_0;
                        assert(j <= end);
                        if end == 0x1_0000_0000_0000_0000 {
                            assert(before.lookup(j as nat) matches Ok(Some(_)));
                            assert(
                                exists|at: u64, slot: &mut ValueMut, answer: Result<bool, String>| #[trigger]
                                call_ensures(f0, (at, slot), answer)
                                    && told(at, j as nat, answer, Ok::<bool, String>(true))
                                    && noted(x, *slot, *final(slot), change_at(news, j)));
                        } else {
                            assert(end == j);
                        }
                        assert(
                            exists|at: u64, slot: &mut ValueMut, answer: Result<bool, String>| #[trigger]
                            call_ensures(f0, (at, slot), answer)
                                && at == j
                                && answer is Ok
                                && final(slot).is_changed()
                                && turned(x, *slot, *final(slot), false, self@.lookup(j as nat)));
                        let k_at = k as int;
assert forall|k: u64| k < j implies match #[trigger] before.lookup(k as nat) {
    Ok(Some(x)) => exists|at: u64, slot: &mut ValueMut, answer: Result<bool, String>| #[trigger]
        call_ensures(f0, (at, slot), answer)
            && told(at, k as nat, answer, Ok::<bool, String>(true))
            && turned(x, *slot, *final(slot), true, self@.lookup(k as nat)),
    Ok(None) => true,
    Err(_) => false,
} by {
if news.contains_key(k) {
    let m = choose|m: int| 0 <= m < held.len() && (#[trigger] held@[m]).0 == k;
    if m > k_at {
        assert(held@[k_at].0 < held@[m].0);
    }
    assert(put_in(held@, k_at, k as nat));
} else {
    assert(!put_in(held@, k_at, k as nat)) by {
        if put_in(held@, k_at, k as nat) {
            let m = choose|m: int| 0 <= m < k_at && (#[trigger] held@[m]).0 == k;
            assert(news.contains_key(held@[m].0));
        }
    }
}
                        }
                        assert forall|n: nat| n > j implies
                            #[trigger] self@.lookup(n) == before.lookup(n) by {
                            assert(!put_in(held@, k_at, n));
                        }
                        assert(self@.same_above(before, j as nat));
                    }
                    return Err(e);
                },
                Ok(()) => {},
            }
            proof {
                assert forall|n: nat| true implies
                    #[trigger] self@.lookup(n) == if put_in(held@, k + 1, n) {
                    overlaid(before, news, n)
                } else {
                    before.lookup(n)
                } by {
                    if n == j {
                        assert(held@[k as int].0 == n);
                        assert(put_in(held@, k + 1, n));
                    } else {
                        assert(self@.lookup(n) == here.lookup(n));
                        if put_in(held@, k + 1, n) {
                            let m = choose|m: int| 0 <= m < k + 1 && (#[trigger] held@[m]).0 == n;
                            assert(m < k);
                            assert(put_in(held@, k as int, n));
                        } else {
                            assert(!put_in(held@, k as int, n)) by {
                                if put_in(held@, k as int, n) {
                                    let m = choose|m: int|
                                        0 <= m < k && (#[trigger] held@[m]).0 == n;
                                    assert(put_in(held@, k + 1, n));
                                }
                            }
                        }
                    }
                }
            }
            k += 1;
        }
        proof {
            assert forall|n: nat| true implies
                #[trigger] self@.lookup(n) == overlaid(before, news, n) by {
                if deferred {
                    if n <= u64::MAX && news.contains_key(n as u64) {
                        let m = choose|m: int|
                            0 <= m < held.len() && (#[trigger] held@[m]).0 == n as u64;
                        assert(put_in(held@, held.len() as int, n));
                    } else {
                        assert(!put_in(held@, held.len() as int, n)) by {
                            if put_in(held@, held.len() as int, n) {
                                let m = choose|m: int|
                                    0 <= m < held.len() && (#[trigger] held@[m]).0 == n;
                                assert(news.contains_key(held@[m].0));
                            }
                        }
                    }
                }
            }
            assert forall|k: u64| k < end implies match #[trigger] before.lookup(k as nat) {
                Ok(Some(x)) =>
                    exists|at: u64, slot: &mut ValueMut, answer: Result<bool, String>| #[trigger]
                    call_ensures(f0, (at, slot), answer)
                        && told(at, k as nat, answer, Ok::<bool, String>(true))
                        && turned(x, *slot, *final(slot), true, self@.lookup(k as nat)),
                Ok(None) => true,
                Err(_) => false,
            } by {
assert(self@.lookup(k as nat) == overlaid(before, news, k as nat));
                        }
            if end < 0x1_0000_0000_0000_0000 {
                let x = before.lookup(end)->Ok_0->Some_0;
                assert(self@.lookup(end) == overlaid(before, news, end));
                assert(exists|at: u64, slot: &mut ValueMut, answer: Result<bool, String>| #[trigger]
                    call_ensures(f0, (at, slot), answer)
                        && told(at, end, answer, Ok::<bool, String>(false))
                        && turned(x, *slot, *final(slot), true, self@.lookup(end)));
            }
            assert forall|n: nat| n > end implies
                #[trigger] self@.lookup(n) == before.lookup(n) by {
                assert(self@.lookup(n) == overlaid(before, news, n));
            }
            assert(self@.same_above(before, end));
        }
        Ok(())
    }

    /// Walks the trie up by index and hands each populated index with its value to `f`,
    /// which may put a new value in its place. A value that `f` has changed is put into
    /// the trie as soon as `f` hands it back. The walk halts at once when `f` fails, and
    /// when an index cannot be read from the store; a change by a call of `f` that fails
    /// is dropped.
    ///
    /// There is a place where the walk ended. Below it, `f` was handed every populated
    /// index with its value, unchanged, and went well; the index then holds what `f`
    /// put, or what it held where `f` put nothing. Above it the trie holds what it held.
    /// The walk ended well past the last index. It failed at an index that cannot be
    /// read, with the report of the fault; at a populated index for which `f` failed,
    /// with what `f` reported; or at the last index, which cannot be written to, with
    /// `OutOfRange`, where `f` changed its value. An index at which the walk failed
    /// holds what it held. Where `f` changed no value, the trie is as it was, with
    /// nothing more pending.
    #[verifier::loop_isolation(false)]
    pub fn for_each_mut<F>(&mut self, mut f: F) -> (res: Result<(), Error>) where
        F: FnMut(u64, &mut ValueMut) -> Result<(), String>,

        requires
            old(self)@.wf(),
            forall|j: u64, v: &mut ValueMut| call_requires(f, (j, v)),
        ensures
            final(self)@.wf(),
            final(self)@.same_frame(old(self)@),
            final(self)@.height == old(self)@.height,
            final(self)@.count == old(self)@.count,
            old(self)@.same_indices(final(self)@),
            old(self)@.sound() ==> final(self)@.sound(),
            final(self)@ == old(self)@ ||
                exists|at: u64, slot: &mut ValueMut, answer: Result<(), String>| #[trigger]
                    call_ensures(f, (at, slot), answer)
                        && !slot.is_changed()
                        && final(slot).is_changed(),
            exists|stop: nat|
                {
                    &&& stop <= 0x1_0000_0000_0000_0000
                    &&& #[trigger] final(self)@.same_above(old(self)@, stop)
                    &&& forall|j: u64| j < stop ==> match #[trigger] old(self)@.lookup(j as nat) {
                        Ok(Some(x)) =>
                            exists|at: u64, slot: &mut ValueMut, answer: Result<(), String>| #[trigger]
                            call_ensures(f, (at, slot), answer)
                                && told(at, j as nat, answer, Ok::<(), String>(()))
                                && turned(
                                    x,
                                    *slot,
                                    *final(slot),
                                    true,
                                    final(self)@.lookup(j as nat),
                                ),
                        Ok(None) => true,
                        Err(_) => false,
                    }
                    &&& match res {
                        Ok(()) => stop == 0x1_0000_0000_0000_0000,
                        Err(Error::Callback(text)) => {
                            &&& stop < 0x1_0000_0000_0000_0000
                            &&& old(self)@.lookup(stop) matches Ok(Some(x))
                            &&&
                                exists|at: u64, slot: &mut ValueMut, answer: Result<(), String>| #[trigger]
                                call_ensures(f, (at, slot), answer)
                                    && told(at, stop, answer, Err::<(), String>(text))
                                    && turned(
                                        x,
                                        *slot,
                                        *final(slot),
                                        false,
                                        final(self)@.lookup(stop),
                                    )
                        },
                        Err(Error::OutOfRange(i)) => {
                            &&& stop == i
                            &&& i == u64::MAX
                            &&& old(self)@.lookup(stop) matches Ok(Some(x))
                            &&&
                                exists|at: u64, slot: &mut ValueMut, answer: Result<(), String>| #[trigger]
                                call_ensures(f, (at, slot), answer)
                                    && at == stop
                                    && answer is Ok
                                    && final(slot).is_changed()
                                    && turned(
                                        x,
                                        *slot,
                                        *final(slot),
                                        false,
                                        final(self)@.lookup(stop),
                                    )
                        },
                        Err(e) => {
                            &&& stop < 0x1_0000_0000_0000_0000
                            &&& old(self)@.lookup(stop) matches Err(fault)
                            &&& reports(e, fault)
                            &&& final(self)@.lookup(stop) == old(self)@.lookup(stop)
                        },
                    }
                },
    {
        let ghost before = self@;
        let ghost f0 = f;
        let mut from: u64 = 0;
        loop
            invariant
                self@.wf(),
                self@.same_frame(before),
                self@.height == before.height,
                self@.count == before.count,
                before.same_indices(self@),
                before.sound() ==> self@.sound(),
                f == f0,
                forall|j: u64, v: &mut ValueMut| call_requires(f, (j, v)),
                forall|j: nat| j >= from ==> #[trigger] self@.lookup(j) == before.lookup(j),
                self@ == before || exists|at: u64, slot: &mut ValueMut, answer: Result<(), String>| #[trigger]
                    call_ensures(f0, (at, slot), answer)
                        && !slot.is_changed()
                        && final(slot).is_changed(),
                forall|j: u64| j < from ==> match #[trigger] before.lookup(j as nat) {
                    Ok(Some(x)) =>
                        exists|at: u64, slot: &mut ValueMut, answer: Result<(), String>| #[trigger]
                        call_ensures(f0, (at, slot), answer)
                            && told(at, j as nat, answer, Ok::<(), String>(()))
                            && turned(x, *slot, *final(slot), true, self@.lookup(j as nat)),
                    Ok(None) => true,
                    Err(_) => false,
                },
            decreases u64::MAX - from,
        {
            let ghost here = self@;
            let (j, v) = match self.first_from(from) {
                Err(e) => {
                    proof {
                        let stop = choose|j: nat|
    {
        &&& from <= j <= u64::MAX
        &&& (#[trigger] lookup(
            here.node,
            here.blocks,
            here.bit_width,
            here.height as nat,
            j)) matches Err(fault) && reports(e, fault,
        )
        &&& here.nothing_in(from as nat, j)
    };
assert(here.lookup(stop) == before.lookup(stop));
                        assert forall|k: u64| k < stop implies
                            match #[trigger] before.lookup(k as nat) {
                            Ok(Some(x)) =>
                                exists|at: u64, slot: &mut ValueMut, answer: Result<(), String>| #[trigger]
                                call_ensures(f0, (at, slot), answer)
                                    && told(at, k as nat, answer, Ok::<(), String>(()))
                                    && turned(x, *slot, *final(slot), true, self@.lookup(k as nat)),
                            Ok(None) => true,
                            Err(_) => false,
                        } by {
if k >= from {
    assert(here.lookup(k as nat) == before.lookup(k as nat));
    assert(lookup(here.node, here.blocks, here.bit_width, here.height as nat, k as nat) == Ok::<Option<Seq<u8>>, Fault>(None));
}
                        }
                        assert(self@.same_above(before, stop));
                    }
                    return Err(e);
                },
                Ok(None) => {
                    proof {
                        let stop: nat = 0x1_0000_0000_0000_0000;
                        assert forall|k: u64| k < stop implies
                            match #[trigger] before.lookup(k as nat) {
                            Ok(Some(x)) =>
                                exists|at: u64, slot: &mut ValueMut, answer: Result<(), String>| #[trigger]
                                call_ensures(f0, (at, slot), answer)
                                    && told(at, k as nat, answer, Ok::<(), String>(()))
                                    && turned(x, *slot, *final(slot), true, self@.lookup(k as nat)),
                            Ok(None) => true,
                            Err(_) => false,
                        } by {
if k >= from {
    assert(here.lookup(k as nat) == before.lookup(k as nat));
    assert(lookup(here.node, here.blocks, here.bit_width, here.height as nat, k as nat) == Ok::<Option<Seq<u8>>, Fault>(None));
}
                        }
                        assert(self@.same_above(before, stop));
                    }
                    return Ok(());
                },
                Ok(Some(met)) => met,
            };
            let ghost x = v@;
            proof {
                assert(here.lookup(j as nat) == before.lookup(j as nat));
assert(before.lookup(j as nat) == Ok::<Option<Seq<u8>>, Fault>(Some(x)));
assert forall|k: u64| from <= k < j implies
    before.lookup(k as nat) == Ok::<Option<Seq<u8>>, Fault>(None) by {
    assert(here.lookup(k as nat) == before.lookup(k as nat));
    assert(lookup(here.node, here.blocks, here.bit_width, here.height as nat, k as nat) == Ok::<Option<Seq<u8>>, Fault>(None));
}
            }
            let mut slot = ValueMut::new(v);
            let ghost handed = slot;
            let answer = f(j, &mut slot);
            let ghost back = slot;
            assert(exists|s: &mut ValueMut| #[trigger]
                call_ensures(f0, (j, s), answer) && *s == handed && *final(s) == back);
            match answer {
                Err(text) => {
                    proof {
                        assert(
                            exists|at: u64, slot: &mut ValueMut, answer: Result<(), String>| #[trigger]
                            call_ensures(f0, (at, slot), answer)
                                && told(at, j as nat, answer, Err::<(), String>(text))
                                && turned(x, *slot, *final(slot), false, self@.lookup(j as nat)));
                        assert forall|k: u64| k < j implies
                            match #[trigger] before.lookup(k as nat) {
                            Ok(Some(x)) =>
                                exists|at: u64, slot: &mut ValueMut, answer: Result<(), String>| #[trigger]
                                call_ensures(f0, (at, slot), answer)
                                    && told(at, k as nat, answer, Ok::<(), String>(()))
                                    && turned(x, *slot, *final(slot), true, self@.lookup(k as nat)),
                            Ok(None) => true,
                            Err(_) => false,
                        } by {

                        }
                        assert(self@.same_above(before, j as nat));
                    }
                    return Err(Error::Callback(text));
                },
                Ok(unit) => {
                    assert(unit == ());
                },
            }
            if slot.value_changed() {
                assert(exists|at: u64, slot: &mut ValueMut, answer: Result<(), String>| #[trigger]
                    call_ensures(f0, (at, slot), answer)
                        && !slot.is_changed()
                        && final(slot).is_changed());
                let put = self.set(j, slot.into_inner());
                proof {
                    if j <= MAX_INDEX {
    lemma_set_in_place(here, self@, j as nat);
}
assert forall|k: nat| true implies match #[trigger] before.lookup(k) {
    Ok(Some(_)) => self@.lookup(k) matches Ok(Some(_)),
    other => self@.lookup(k) == other,
} by {
    if k != j {
        assert(self@.lookup(k) == here.lookup(k));
    }
}
                    assert forall|k: nat| k > j implies
                        #[trigger] self@.lookup(k) == before.lookup(k) by {
                        assert(self@.lookup(k) == here.lookup(k));
                    }
                    assert forall|k: u64| k < j implies match #[trigger] before.lookup(k as nat) {
                        Ok(Some(x)) =>
                            exists|at: u64, slot: &mut ValueMut, answer: Result<(), String>| #[trigger]
                            call_ensures(f0, (at, slot), answer)
                                && told(at, k as nat, answer, Ok::<(), String>(()))
                                && turned(x, *slot, *final(slot), true, self@.lookup(k as nat)),
                        Ok(None) => true,
                        Err(_) => false,
                    } by {
assert(self@.lookup(k as nat) == here.lookup(k as nat));
                        }
                }
                match put {
                    Err(e) => {
                        proof {
                            assert(j == u64::MAX);
                            assert(self@ == here);
                            assert(
                                exists|at: u64, slot: &mut ValueMut, answer: Result<(), String>| #[trigger]
                                call_ensures(f0, (at, slot), answer)
                                    && at == j
                                    && answer is Ok
                                    && final(slot).is_changed()
                                    && turned(
                                        x,
                                        *slot,
                                        *final(slot),
                                        false,
                                        self@.lookup(j as nat),
                                    ));
                            assert(self@.same_above(before, j as nat));
                        }
                        return Err(e);
                    },
                    Ok(()) => {},
                }
            } else {
                proof {
                    assert forall|k: u64| k < j implies match #[trigger] before.lookup(k as nat) {
                        Ok(Some(x)) =>
                            exists|at: u64, slot: &mut ValueMut, answer: Result<(), String>| #[trigger]
                            call_ensures(f0, (at, slot), answer)
                                && told(at, k as nat, answer, Ok::<(), String>(()))
                                && turned(x, *slot, *final(slot), true, self@.lookup(k as nat)),
                        Ok(None) => true,
                        Err(_) => false,
                    } by {

                        }
                }
            }
            proof {
                assert(exists|at: u64, slot: &mut ValueMut, answer: Result<(), String>| #[trigger]
                    call_ensures(f0, (at, slot), answer)
                        && told(at, j as nat, answer, Ok::<(), String>(()))
                        && turned(x, *slot, *final(slot), true, self@.lookup(j as nat)));
            }
            if j == u64::MAX {
                proof {
                    assert(self@.same_above(before, 0x1_0000_0000_0000_0000));
                }
                return Ok(());
            }
            from = j + 1;
        }
    }
}

} // verus!
