//! The cleaner of table files: which gens wait to be deleted, and when
//! their turn comes.

use vstd::prelude::*;

verus! {

/// A message to the cleaner.
#[derive(Debug, PartialEq, Eq)]
pub enum CleanTag {
    /// The version with this number is no longer in use.
    Clean(u64),
    /// The version with this number no longer refers to the tables with
    /// these gens.
    Add { version: u64, gens: Vec<i64> },
}

/// The gens that wait under a version number, in the order in which they
/// were added.
pub open spec fn pending_in(buckets: Seq<(u64, Seq<i64>)>, version: u64) -> Seq<i64>
    decreases buckets.len(),
{
    if buckets.len() == 0 {
        Seq::empty()
    } else if buckets.last().0 == version {
        pending_in(buckets.drop_last(), version) + buckets.last().1
    } else {
        pending_in(buckets.drop_last(), version)
    }
}

/// All gens that wait, in the order in which they were added.
pub open spec fn all_pending(buckets: Seq<(u64, Seq<i64>)>) -> Seq<i64>
    decreases buckets.len(),
{
    if buckets.len() == 0 {
        Seq::empty()
    } else {
        all_pending(buckets.drop_last()) + buckets.last().1
    }
}

/// The version before this one, under which the gens wait that go when
/// this one is retired.
pub open spec fn predecessor(version: u64) -> Option<u64> {
    if version == 0 {
        None
    } else {
        Some((version - 1) as u64)
    }
}

/// The number under which the gens wait that go when the version with this
/// number is retired: the number before it, if there is one.
pub fn bucket_of(version: u64) -> (r: Option<u64>)
    ensures
        r == predecessor(version),
{
    if version == 0 {
        None
    } else {
        Some(version - 1)
    }
}

/// The cleaner of table files. A version that is applied hands in the gens
/// that it no longer refers to; readers of the version before it may still
/// use those tables. So the gens wait under the number of the version that
/// handed them in, and go when the version after it is retired.
#[derive(Debug)]
pub struct Cleaner {
    del_gens: Vec<(u64, Vec<i64>)>,
}

impl Cleaner {
    /// The buckets as a mathematical value.
    pub closed spec fn buckets(&self) -> Seq<(u64, Seq<i64>)> {
        Seq::new(self.del_gens@.len(), |i: int| (self.del_gens@[i].0, self.del_gens@[i].1@))
    }

    /// The gens that wait under a version number.
    pub open spec fn pending(&self, version: u64) -> Seq<i64> {
        pending_in(self.buckets(), version)
    }

    /// A cleaner for which nothing waits.
    pub fn new() -> (r: Cleaner)
        ensures
            r.buckets() == Seq::<(u64, Seq<i64>)>::empty(),
            forall|version: u64| r.pending(version) == Seq::<i64>::empty(),
            all_pending(r.buckets()) == Seq::<i64>::empty(),
    {
        let r = Cleaner { del_gens: Vec::new() };
        assert(r.buckets() =~= Seq::empty());
        r
    }

    /// Lets the gens wait under the version number.
    pub fn add(&mut self, version: u64, gens: Vec<i64>)
        ensures
            forall|other: u64|
                final(self).pending(other) == if other == version {
                    old(self).pending(version) + gens@
                } else {
                    old(self).pending(other)
                },
            all_pending(final(self).buckets()) == all_pending(old(self).buckets()) + gens@,
    {
        let ghost before = self.buckets();
        let ghost added = gens@;
        self.del_gens.push((version, gens));
        proof {
            assert(self.buckets() =~= before.push((version, added)));
            assert(self.buckets().drop_last() =~= before);
        }
    }

    /// Retires a version: the gens that wait under the version before it
    /// are handed out, to be deleted, and wait no longer.
    pub fn clean(&mut self, version: u64) -> (r: Vec<i64>)
        ensures
            r@ == match predecessor(version) {
                Some(before) => old(self).pending(before),
                None => Seq::empty(),
            },
            forall|other: u64|
                final(self).pending(other) == if Some(other) == predecessor(version) {
                    Seq::empty()
                } else {
                    old(self).pending(other)
                },
    {
        let mut gone: Vec<i64> = Vec::new();
        if version == 0 {
            return gone;
        }
        let target = version - 1;
        let ghost before = self.buckets();
        let mut kept: Vec<(u64, Vec<i64>)> = Vec::new();
        let mut all: Vec<(u64, Vec<i64>)> = Vec::new();
        std::mem::swap(&mut self.del_gens, &mut all);
        let ghost kept_view: Seq<(u64, Seq<i64>)> = Seq::empty();
        let mut i: usize = 0;
        assert(before.take(0) =~= Seq::empty());
        while i < all.len()
            invariant
                i <= all.len(),
                before == Seq::new(all@.len(), |k: int| (all@[k].0, all@[k].1@)),
                kept_view == Seq::new(kept@.len(), |k: int| (kept@[k].0, kept@[k].1@)),
                gone@ == pending_in(before.take(i as int), target),
                pending_in(kept_view, target) == Seq::<i64>::empty(),
                forall|other: u64|
                    other != target ==> pending_in(kept_view, other) == pending_in(
                        before.take(i as int),
                        other,
                    ),
            decreases all.len() - i,
        {
            let ghost old_kept = kept_view;
            proof {
                assert(before.take(i + 1).drop_last() =~= before.take(i as int));
                assert(before.take(i + 1).last() == (all@[i as int].0, all@[i as int].1@));
            }
            if all[i].0 == target {
                let ghost start = gone@;
                let gens = &all[i].1;
                let mut k: usize = 0;
                while k < gens.len()
                    invariant
                        k <= gens.len(),
                        gone@ == start + gens@.take(k as int),
                    decreases gens.len() - k,
                {
                    gone.push(gens[k]);
                    assert(gens@.take(k + 1) =~= gens@.take(k as int).push(gens@[k as int]));
                    k += 1;
                }
                assert(gens@.take(k as int) =~= gens@);
                assert forall|other: u64| other != target implies pending_in(kept_view, other)
                    == pending_in(before.take(i + 1), other) by {
                    assert(pending_in(old_kept, other) == pending_in(before.take(i as int), other));
                }
            } else {
                kept.push((all[i].0, all[i].1.clone()));
                proof {
                    kept_view = old_kept.push((all@[i as int].0, all@[i as int].1@));
                    assert(kept_view =~= Seq::new(kept@.len(), |k: int| (kept@[k].0, kept@[k].1@)));
                    assert(kept_view.drop_last() =~= old_kept);
                    assert(kept_view.last() == before.take(i + 1).last());
                    assert forall|other: u64| other != target implies pending_in(kept_view, other)
                        == pending_in(before.take(i + 1), other) by {
                        assert(pending_in(old_kept, other) == pending_in(
                            before.take(i as int),
                            other,
                        ));
                    }
                }
            }
            i += 1;
        }
        assert(before.take(i as int) =~= before);
        self.del_gens = kept;
        assert(self.buckets() =~= kept_view);
        gone
    }

    /// Takes in a message: gens that are handed in wait, and a retired
    /// version hands out the gens that are to be deleted now.
    pub fn on_tag(&mut self, tag: CleanTag) -> (r: Vec<i64>)
        ensures
            match tag {
                CleanTag::Add { version, gens } => {
                    &&& r@ == Seq::<i64>::empty()
                    &&& forall|other: u64|
                        final(self).pending(other) == if other == version {
                            old(self).pending(version) + gens@
                        } else {
                            old(self).pending(other)
                        }
                },
                CleanTag::Clean(version) => {
                    &&& r@ == match predecessor(version) {
                        Some(before) => old(self).pending(before),
                        None => Seq::empty(),
                    }
                    &&& forall|other: u64|
                        final(self).pending(other) == if Some(other) == predecessor(version) {
                            Seq::empty()
                        } else {
                            old(self).pending(other)
                        }
                },
            },
    {
        match tag {
            CleanTag::Add { version, gens } => {
                self.add(version, gens);
                Vec::new()
            },
            CleanTag::Clean(version) => self.clean(version),
        }
    }

    /// Hands out every gen that still waits, when the store shuts down.
    pub fn drain(&mut self) -> (r: Vec<i64>)
        ensures
            r@ == all_pending(old(self).buckets()),
            final(self).buckets() == Seq::<(u64, Seq<i64>)>::empty(),
    {
        let ghost before = self.buckets();
        let mut all: Vec<(u64, Vec<i64>)> = Vec::new();
        std::mem::swap(&mut self.del_gens, &mut all);
        assert(self.buckets() =~= Seq::empty());
        let mut gone: Vec<i64> = Vec::new();
        let mut i: usize = 0;
        assert(before.take(0) =~= Seq::empty());
        while i < all.len()
            invariant
                i <= all.len(),
                before == Seq::new(all@.len(), |k: int| (all@[k].0, all@[k].1@)),
                gone@ == all_pending(before.take(i as int)),
            decreases all.len() - i,
        {
            proof {
                assert(before.take(i + 1).drop_last() =~= before.take(i as int));
                assert(before.take(i + 1).last() == (all@[i as int].0, all@[i as int].1@));
            }
            let ghost start = gone@;
            let gens = &all[i].1;
            let mut k: usize = 0;
            while k < gens.len()
                invariant
                    k <= gens.len(),
                    gone@ == start + gens@.take(k as int),
                decreases gens.len() - k,
            {
                gone.push(gens[k]);
                assert(gens@.take(k + 1) =~= gens@.take(k as int).push(gens@[k as int]));
                k += 1;
            }
            assert(gens@.take(k as int) =~= gens@);
            i += 1;
        }
        assert(before.take(i as int) =~= before);
        gone
    }
}

} // verus!
