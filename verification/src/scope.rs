//! The key range of a table, and the order of ranges within a level.

use vstd::prelude::*;
use crate::keys::{key_le, key_lt, key_order, KeyOrder};
use crate::keys::{lemma_key_le_iff_not_gt, lemma_key_le_transitive, lemma_key_lt_asymmetric};

verus! {

/// The closed key interval `[start, end]` of the table named by `gen`.
#[derive(Debug)]
pub struct Scope {
    pub start: Vec<u8>,
    pub end: Vec<u8>,
    pub gen: i64,
}

/// A scope as a mathematical value.
pub struct ScopeView {
    pub start: Seq<u8>,
    pub end: Seq<u8>,
    pub gen: i64,
}

impl ScopeView {
    /// The interval is not empty: `start` is at or before `end`.
    pub open spec fn is_range(self) -> bool {
        key_le(self.start, self.end)
    }

    /// `key` lies within the interval.
    pub open spec fn holds(self, key: Seq<u8>) -> bool {
        key_le(self.start, key) && key_le(key, self.end)
    }

    /// The two intervals share at least one possible key.
    pub open spec fn meets(self, other: ScopeView) -> bool {
        key_le(self.start, other.end) && key_le(other.start, self.end)
    }
}

impl View for Scope {
    type V = ScopeView;

    open spec fn view(&self) -> ScopeView {
        ScopeView { start: self.start@, end: self.end@, gen: self.gen }
    }
}

impl DeepView for Scope {
    type V = ScopeView;

    open spec fn deep_view(&self) -> ScopeView {
        self@
    }
}

impl Clone for Scope {
    fn clone(&self) -> (r: Self)
        ensures
            r@ == self@,
    {
        Scope { start: self.start.clone(), end: self.end.clone(), gen: self.gen }
    }
}

/// The smallest start key among the scopes, of which there is at least one.
pub open spec fn lowest_start(scopes: Seq<ScopeView>) -> Seq<u8>
    decreases scopes.len(),
{
    if scopes.len() <= 1 {
        scopes[0].start
    } else {
        let rest = lowest_start(scopes.drop_last());
        if key_lt(scopes.last().start, rest) {
            scopes.last().start
        } else {
            rest
        }
    }
}

/// The largest end key among the scopes, of which there is at least one.
pub open spec fn highest_end(scopes: Seq<ScopeView>) -> Seq<u8>
    decreases scopes.len(),
{
    if scopes.len() <= 1 {
        scopes[0].end
    } else {
        let rest = highest_end(scopes.drop_last());
        if key_lt(rest, scopes.last().end) {
            scopes.last().end
        } else {
            rest
        }
    }
}

/// The smallest range that covers all the scopes, of which there is at
/// least one. It names no table: its gen is 0.
pub open spec fn fusion_of(scopes: Seq<ScopeView>) -> ScopeView {
    ScopeView { start: lowest_start(scopes), end: highest_end(scopes), gen: 0 }
}

/// The fusion of scopes covers each of them.
pub proof fn lemma_fusion_covers(scopes: Seq<ScopeView>, i: int)
    requires
        0 <= i < scopes.len(),
    ensures
        key_le(fusion_of(scopes).start, scopes[i].start),
        key_le(scopes[i].end, fusion_of(scopes).end),
    decreases scopes.len(),
{
    if scopes.len() > 1 {
        let front = scopes.drop_last();
        let low = lowest_start(front);
        let high = highest_end(front);
        lemma_key_le_iff_not_gt(low, scopes.last().start);
        lemma_key_le_iff_not_gt(scopes.last().end, high);
        if i < scopes.len() - 1 {
            lemma_fusion_covers(front, i);
            assert(front[i] == scopes[i]);
            if key_lt(scopes.last().start, low) {
                lemma_key_le_transitive(scopes.last().start, low, scopes[i].start);
            }
            if key_lt(high, scopes.last().end) {
                lemma_key_le_transitive(scopes[i].end, high, scopes.last().end);
            }
        }
    }
}

/// The scopes of a level at depth one or more: each is a range, and each ends
/// strictly before the next one starts.
pub open spec fn level_ordered(level: Seq<ScopeView>) -> bool {
    &&& forall|i: int| 0 <= i < level.len() ==> (#[trigger] level[i]).is_range()
    &&& forall|i: int, j: int|
        0 <= i < j < level.len() ==> key_lt(#[trigger] level[i].end, #[trigger] level[j].start)
}

/// In an ordered level the start keys increase strictly and no two scopes
/// share a key.
pub proof fn lemma_ordered_level_is_disjoint(level: Seq<ScopeView>, i: int, j: int)
    requires
        level_ordered(level),
        0 <= i < j < level.len(),
    ensures
        key_lt(level[i].start, level[j].start),
        !level[i].meets(level[j]),
        !level[j].meets(level[i]),
        forall|key: Seq<u8>| !(level[i].holds(key) && level[j].holds(key)),
{
    let a = level[i];
    let b = level[j];
    assert(a.is_range());
    assert(b.is_range());
    assert(key_lt(a.end, b.start));
    lemma_key_le_transitive(a.start, a.end, b.start);
    lemma_key_le_iff_not_gt(b.start, a.end);
    assert forall|key: Seq<u8>| !(a.holds(key) && b.holds(key)) by {
        if a.holds(key) && b.holds(key) {
            lemma_key_le_transitive(b.start, key, a.end);
        }
    }
}

impl Scope {
    /// A scope from its two bounds and the gen of its table.
    pub fn from_range(gen: i64, start: Vec<u8>, end: Vec<u8>) -> (r: Scope)
        ensures
            r@ == (ScopeView { start: start@, end: end@, gen }),
    {
        Scope { start, end, gen }
    }

    /// The gen of the table that this scope describes.
    pub fn get_gen(&self) -> (r: i64)
        ensures
            r == self@.gen,
    {
        self.gen
    }

    /// The smallest key of the table.
    pub fn start(&self) -> (r: &[u8])
        ensures
            r@ == self@.start,
    {
        self.start.as_slice()
    }

    /// The largest key of the table.
    pub fn end(&self) -> (r: &[u8])
        ensures
            r@ == self@.end,
    {
        self.end.as_slice()
    }

    /// Whether `key` lies within the scope.
    pub fn meet_by_key(&self, key: &[u8]) -> (r: bool)
        ensures
            r == self@.holds(key@),
    {
        proof {
            lemma_key_le_iff_not_gt(self@.start, key@);
            lemma_key_le_iff_not_gt(key@, self@.end);
        }
        match key_order(self.start.as_slice(), key) {
            KeyOrder::Greater => false,
            _ => match key_order(key, self.end.as_slice()) {
                KeyOrder::Greater => false,
                _ => true,
            },
        }
    }

    /// The smallest range that covers all the scopes; none where there is
    /// no scope.
    pub fn fusion(scopes: &Vec<Scope>) -> (r: Option<Scope>)
        ensures
            match r {
                Some(scope) => scopes.len() > 0 && scope@ == fusion_of(scopes.deep_view()),
                None => scopes.len() == 0,
            },
    {
        if scopes.len() == 0 {
            return None;
        }
        let ghost views = scopes.deep_view();
        let mut low: usize = 0;
        let mut high: usize = 0;
        let mut i: usize = 1;
        assert(views[0] == scopes[0]@);
        while i < scopes.len()
            invariant
                1 <= i <= scopes.len(),
                low < i,
                high < i,
                views == scopes.deep_view(),
                views[low as int].start == lowest_start(views.take(i as int)),
                views[high as int].end == highest_end(views.take(i as int)),
            decreases scopes.len() - i,
        {
            proof {
                assert(views.take(i + 1).drop_last() =~= views.take(i as int));
                assert(views.take(i + 1).last() == scopes[i as int]@);
                assert(views[low as int] == scopes[low as int]@);
                assert(views[high as int] == scopes[high as int]@);
            }
            match key_order(scopes[i].start.as_slice(), scopes[low].start.as_slice()) {
                KeyOrder::Less => {
                    low = i;
                },
                _ => {},
            }
            match key_order(scopes[high].end.as_slice(), scopes[i].end.as_slice()) {
                KeyOrder::Less => {
                    high = i;
                },
                _ => {},
            }
            i += 1;
        }
        assert(views.take(i as int) =~= views);
        assert(views[low as int] == scopes[low as int]@);
        assert(views[high as int] == scopes[high as int]@);
        Some(Scope::from_range(0, scopes[low].start.clone(), scopes[high].end.clone()))
    }

    /// Whether the two scopes overlap.
    pub fn meet(&self, target: &Scope) -> (r: bool)
        ensures
            r == self@.meets(target@),
    {
        proof {
            lemma_key_le_iff_not_gt(self@.start, target@.end);
            lemma_key_le_iff_not_gt(target@.start, self@.end);
        }
        match key_order(self.start.as_slice(), target.end.as_slice()) {
            KeyOrder::Greater => false,
            _ => match key_order(target.start.as_slice(), self.end.as_slice()) {
                KeyOrder::Greater => false,
                _ => true,
            },
        }
    }
}

/// Whether the scopes, taken as a level at depth one or more, are in order.
pub fn is_level_ordered(level: &Vec<Scope>) -> (r: bool)
    ensures
        r == level_ordered(level.deep_view()),
{
    let ghost views = level.deep_view();
    let mut i: usize = 0;
    while i < level.len()
        invariant
            i <= level.len(),
            views == level.deep_view(),
            level_ordered(views.take(i as int)),
        decreases level.len() - i,
    {
        let scope = &level[i];
        assert(views[i as int] == scope@);
        match key_order(scope.start.as_slice(), scope.end.as_slice()) {
            KeyOrder::Greater => {
                proof {
                    lemma_key_le_iff_not_gt(scope@.start, scope@.end);
                    assert(!views[i as int].is_range());
                }
                return false;
            },
            _ => {},
        }
        proof {
            lemma_key_le_iff_not_gt(scope@.start, scope@.end);
        }
        if i > 0 {
            let before = &level[i - 1];
            assert(views[i - 1] == before@);
            match key_order(before.end.as_slice(), scope.start.as_slice()) {
                KeyOrder::Less => {},
                _ => {
                    proof {
                        if key_lt(before@.end, scope@.start) {
                            lemma_key_lt_asymmetric(before@.end, scope@.start);
                        }
                        assert(!key_lt(views[i - 1].end, views[i as int].start));
                    }
                    return false;
                },
            }
        }
        proof {
            let next = views.take(i + 1);
            assert forall|a: int, b: int| 0 <= a < b < next.len() implies key_lt(
                #[trigger] next[a].end,
                #[trigger] next[b].start,
            ) by {
                if b < i {
                    assert(key_lt(views.take(i as int)[a].end, views.take(i as int)[b].start));
                } else if a < i - 1 {
                    let last = views.take(i as int)[i - 1];
                    assert(key_lt(views.take(i as int)[a].end, last.start));
                    assert(last.is_range());
                    lemma_key_le_transitive(next[a].end, last.start, last.end);
                    lemma_key_le_transitive(next[a].end, last.end, next[b].start);
                }
            }
            assert forall|a: int| 0 <= a < next.len() implies (#[trigger] next[a]).is_range() by {
                if a < i {
                    assert(views.take(i as int)[a].is_range());
                }
            }
        }
        i += 1;
    }
    assert(views.take(i as int) =~= views);
    true
}

} // verus!
