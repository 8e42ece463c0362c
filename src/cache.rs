//! A reader's cache of open log files, by generation.
//!
//! Each reader handle keeps the files it has opened, so that a read of a log
//! it has seen before needs no new open. After a compaction the handles of
//! the logs below the safe point are dropped.
use vstd::prelude::*;

verus! {

/// Open handles of type `H`, one per generation, kept in ascending order of
/// generation.
pub struct HandleCache<H> {
    entries: Vec<(u64, H)>,
}

impl<H> View for HandleCache<H> {
    type V = Map<u64, H>;

    closed spec fn view(&self) -> Map<u64, H> {
        Map::new(
            |g: u64| exists|i: int| 0 <= i < self.entries@.len() && self.entries@[i].0 == g,
            |g: u64|
                self.entries@[choose|i: int| 0 <= i < self.entries@.len() && self.entries@[i].0 == g].1,
        )
    }
}

impl<H> HandleCache<H> {
    /// The invariant: the generations ascend strictly.
    pub closed spec fn wf(&self) -> bool {
        forall|i: int, j: int|
            0 <= i < j < self.entries@.len() ==> self.entries@[i].0 < self.entries@[j].0
    }

    proof fn lemma_view_at(&self, i: int)
        requires
            self.wf(),
            0 <= i < self.entries@.len(),
        ensures
            self@.contains_key(self.entries@[i].0),
            self@[self.entries@[i].0] == self.entries@[i].1,
    {
        let g = self.entries@[i].0;
        assert(exists|k: int| 0 <= k < self.entries@.len() && self.entries@[k].0 == g);
        let k = choose|k: int| 0 <= k < self.entries@.len() && self.entries@[k].0 == g;
        if k != i {
            assert(self.entries@[k].0 != self.entries@[i].0);
        }
    }

    /// An empty cache.
    pub fn new() -> (r: HandleCache<H>)
        ensures
            r.wf(),
            r@ == Map::<u64, H>::empty(),
    {
        let r = HandleCache { entries: Vec::new() };
        assert(r@ =~= Map::<u64, H>::empty());
        r
    }

    /// The place of `gen` among the entries: the first entry whose
    /// generation is not below it.
    fn position(&self, gen: u64) -> (r: usize)
        requires
            self.wf(),
        ensures
            r <= self.entries@.len(),
            forall|i: int| 0 <= i < r ==> self.entries@[i].0 < gen,
            forall|i: int| r <= i < self.entries@.len() ==> self.entries@[i].0 >= gen,
    {
        let mut p: usize = 0;
        while p < self.entries.len() && self.entries[p].0 < gen
            invariant
                self.wf(),
                p <= self.entries@.len(),
                forall|i: int| 0 <= i < p ==> self.entries@[i].0 < gen,
            decreases self.entries@.len() - p,
        {
            p = p + 1;
        }
        proof {
            assert forall|i: int| p <= i < self.entries@.len() implies self.entries@[i].0 >= gen by {
                if p < i {
                    assert(self.entries@[p as int].0 < self.entries@[i].0);
                }
            }
        }
        p
    }

    /// Whether a handle of generation `gen` is cached.
    pub fn contains(&self, gen: u64) -> (r: bool)
        requires
            self.wf(),
        ensures
            r == self@.contains_key(gen),
    {
        let p = self.position(gen);
        let r = p < self.entries.len() && self.entries[p].0 == gen;
        proof {
            if r {
                self.lemma_view_at(p as int);
            }
        }
        r
    }

    /// Caches `handle` for generation `gen`, in place of any handle it had.
    pub fn insert(&mut self, gen: u64, handle: H)
        requires
            old(self).wf(),
        ensures
            final(self).wf(),
            final(self)@ == old(self)@.insert(gen, handle),
    {
        let p = self.position(gen);
        let ghost old_e = self.entries@;
        if p < self.entries.len() && self.entries[p].0 == gen {
            self.entries.set(p, (gen, handle));
        } else {
            self.entries.insert(p, (gen, handle));
        }
        proof {
            assert forall|i: int, j: int| 0 <= i < j < self.entries@.len() implies self.entries@[i].0
                < self.entries@[j].0 by {
                if self.entries@.len() > old_e.len() {
                    if j < p {
                    } else if j == p {
                    } else if i < p {
                        assert(self.entries@[j] == old_e[j - 1]);
                        assert(old_e[p as int].0 <= old_e[j - 1].0) by {
                            if p < j - 1 {
                                assert(old_e[p as int].0 < old_e[j - 1].0);
                            }
                        }
                    } else if i == p {
                        assert(self.entries@[j] == old_e[j - 1]);
                        assert(old_e[p as int].0 <= old_e[j - 1].0) by {
                            if p < j - 1 {
                                assert(old_e[p as int].0 < old_e[j - 1].0);
                            }
                        }
                    } else {
                        assert(self.entries@[i] == old_e[i - 1]);
                        assert(self.entries@[j] == old_e[j - 1]);
                    }
                }
            }
            let grown = self.entries.len() > old_e.len();
            assert forall|g: u64| #[trigger] self@.contains_key(g) == old(self)@.insert(gen, handle).contains_key(g)
                && (self@.contains_key(g) ==> self@[g] == old(self)@.insert(gen, handle)[g]) by {
                if self@.contains_key(g) {
                    let i = choose|i: int| 0 <= i < self.entries@.len() && self.entries@[i].0 == g;
                    self.lemma_view_at(i);
                    if g != gen {
                        let oi = if grown && i > p { i - 1 } else { i };
                        assert(old_e[oi] == self.entries@[i]);
                        old(self).lemma_view_at(oi);
                    }
                }
                if old(self)@.insert(gen, handle).contains_key(g) {
                    if g == gen {
                        self.lemma_view_at(p as int);
                    } else {
                        let oi = choose|oi: int| 0 <= oi < old_e.len() && old_e[oi].0 == g;
                        let i = if grown && oi >= p { oi + 1 } else { oi };
                        assert(self.entries@[i] == old_e[oi]);
                        self.lemma_view_at(i);
                    }
                }
            }
            assert(self@ =~= old(self)@.insert(gen, handle));
        }
    }

    /// Takes the handle of generation `gen` out of the cache, if it is there.
    pub fn take(&mut self, gen: u64) -> (r: Option<H>)
        requires
            old(self).wf(),
        ensures
            final(self).wf(),
            final(self)@ == old(self)@.remove(gen),
            r == (if old(self)@.contains_key(gen) { Some(old(self)@[gen]) } else { None::<H> }),
    {
        let p = self.position(gen);
        if p < self.entries.len() && self.entries[p].0 == gen {
            proof {
                self.lemma_view_at(p as int);
            }
            let ghost old_e = self.entries@;
            let (_, h) = self.entries.remove(p);
            proof {
                assert forall|g: u64| #[trigger] self@.contains_key(g) == old(self)@.remove(gen).contains_key(g)
                    && (self@.contains_key(g) ==> self@[g] == old(self)@[g]) by {
                    if self@.contains_key(g) {
                        let i = choose|i: int| 0 <= i < self.entries@.len() && self.entries@[i].0 == g;
                        self.lemma_view_at(i);
                        let oi = if i >= p { i + 1 } else { i };
                        assert(old_e[oi] == self.entries@[i]);
                        old(self).lemma_view_at(oi);
                        if oi > p {
                            assert(old_e[p as int].0 < old_e[oi].0);
                        }
                    }
                    if old(self)@.remove(gen).contains_key(g) {
                        let oi = choose|oi: int| 0 <= oi < old_e.len() && old_e[oi].0 == g;
                        assert(oi != p);
                        let i = if oi > p { oi - 1 } else { oi };
                        assert(self.entries@[i] == old_e[oi]);
                        self.lemma_view_at(i);
                    }
                }
                assert(self@ =~= old(self)@.remove(gen));
            }
            Some(h)
        } else {
            proof {
                assert(!self@.contains_key(gen));
                assert(self@ =~= old(self)@.remove(gen));
            }
            None
        }
    }

    /// Drops the handles of every generation below `safe_point`: their logs
    /// are compacted and may be deleted.
    pub fn close_stale_handles(&mut self, safe_point: u64)
        requires
            old(self).wf(),
        ensures
            final(self).wf(),
            final(self)@ == old(self)@.restrict(old(self)@.dom().filter(|g: u64| g >= safe_point)),
    {
        let ghost old_e = self.entries@;
        let ghost mut dropped: int = 0;
        while 0 < self.entries.len() && self.entries[0].0 < safe_point
            invariant
                self.wf(),
                0 <= dropped <= old_e.len(),
                self.entries@ == old_e.subrange(dropped, old_e.len() as int),
                forall|i: int| 0 <= i < dropped ==> old_e[i].0 < safe_point,
            decreases self.entries@.len(),
        {
            self.entries.remove(0);
            proof {
                dropped = dropped + 1;
            }
        }
        proof {
            let kept = old(self)@.dom().filter(|g: u64| g >= safe_point);
            assert(forall|i: int| dropped <= i < old_e.len() ==> old_e[i].0 >= safe_point) by {
                assert forall|i: int| dropped <= i < old_e.len() implies old_e[i].0 >= safe_point by {
                    if dropped < i {
                        assert(old_e[dropped].0 < old_e[i].0);
                    }
                    assert(self.entries@[0] == old_e[dropped]);
                }
            }
            assert forall|g: u64| #[trigger] self@.contains_key(g) == old(self)@.restrict(kept).contains_key(g)
                && (self@.contains_key(g) ==> self@[g] == old(self)@[g]) by {
                if self@.contains_key(g) {
                    let i = choose|i: int| 0 <= i < self.entries@.len() && self.entries@[i].0 == g;
                    self.lemma_view_at(i);
                    assert(old_e[i + dropped] == self.entries@[i]);
                    old(self).lemma_view_at(i + dropped);
                }
                if old(self)@.restrict(kept).contains_key(g) {
                    let oi = choose|oi: int| 0 <= oi < old_e.len() && old_e[oi].0 == g;
                    old(self).lemma_view_at(oi);
                    assert(oi >= dropped);
                    assert(self.entries@[oi - dropped] == old_e[oi]);
                    self.lemma_view_at(oi - dropped);
                }
            }
            assert(self@ =~= old(self)@.restrict(kept));
        }
    }
}

} // verus!
