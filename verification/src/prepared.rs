//! Prepared queries: queries that remember which archetypes they match.

use crate::entity::Entity;
use crate::frame::Frame;
use crate::query::item_views;
use crate::query::results;
use crate::query::rows_of;
use crate::query::type_set;
use crate::query::Fetch;
use crate::query::Item;
use crate::query::ItemView;
use vstd::prelude::*;

verus! {

/// The archetypes among the first `upto` of `frame` that the pattern `fetch`
/// matches, in the order in which they were made.
pub open spec fn matching_upto(frame: &Frame, fetch: Fetch, upto: int) -> Seq<usize>
    decreases upto,
{
    if upto <= 0 {
        Seq::empty()
    } else if fetch.matches(type_set(frame.archetype_seq()[upto - 1].signature())) {
        matching_upto(frame, fetch, upto - 1).push((upto - 1) as usize)
    } else {
        matching_upto(frame, fetch, upto - 1)
    }
}

/// What a query with the pattern `fetch` yields from the archetypes `indices`
/// of `frame`, one after the other.
pub open spec fn rows_over(frame: &Frame, fetch: Fetch, indices: Seq<usize>) -> Seq<
    (Entity, ItemView),
>
    decreases indices.len(),
{
    if indices.len() == 0 {
        Seq::empty()
    } else {
        rows_over(frame, fetch, indices.drop_last()) + rows_of(frame, fetch, indices.last() as int)
    }
}

/// The archetypes that a pattern matches are archetypes of the store, and a
/// query yields the rows of exactly those.
pub proof fn lemma_matching(frame: &Frame, fetch: Fetch, upto: int)
    requires
        0 <= upto <= frame.archetype_seq().len(),
        frame.archetype_seq().len() <= usize::MAX,
    ensures
        rows_over(frame, fetch, matching_upto(frame, fetch, upto)) == results(frame, fetch, upto),
        forall|k: int|
            0 <= k < matching_upto(frame, fetch, upto).len() ==> (#[trigger] matching_upto(
                frame,
                fetch,
                upto,
            )[k]) < upto && fetch.matches(
                type_set(frame.archetype_seq()[matching_upto(frame, fetch, upto)[k] as int].signature()),
            ),
    decreases upto,
{
    if upto > 0 {
        lemma_matching(frame, fetch, upto - 1);
        let before = matching_upto(frame, fetch, upto - 1);
        if fetch.matches(type_set(frame.archetype_seq()[upto - 1].signature())) {
            let now = before.push((upto - 1) as usize);
            assert(now.drop_last() =~= before);
        }
    }
}

/// The archetypes that a pattern matches among the first archetypes are the
/// first of those that it matches among more of them.
pub proof fn lemma_matching_prefix(frame: &Frame, fetch: Fetch, upto: int, more: int)
    requires
        0 <= upto <= more,
    ensures
        matching_upto(frame, fetch, upto).len() <= matching_upto(frame, fetch, more).len(),
        matching_upto(frame, fetch, more).take(matching_upto(frame, fetch, upto).len() as int)
            == matching_upto(frame, fetch, upto),
    decreases more - upto,
{
    let short = matching_upto(frame, fetch, upto);
    if upto < more {
        lemma_matching_prefix(frame, fetch, upto, more - 1);
        let before = matching_upto(frame, fetch, more - 1);
        assert(matching_upto(frame, fetch, more).take(short.len() as int) =~= before.take(
            short.len() as int,
        ));
    } else {
        assert(short.take(short.len() as int) =~= short);
    }
}

/// The archetypes that a pattern matches stay the same where the store keeps
/// its archetypes.
pub proof fn lemma_matching_kept(before: &Frame, after: &Frame, fetch: Fetch, upto: int)
    requires
        0 <= upto <= before.archetype_seq().len(),
        after.keeps_archetypes(before),
    ensures
        matching_upto(after, fetch, upto) == matching_upto(before, fetch, upto),
    decreases upto,
{
    if upto > 0 {
        lemma_matching_kept(before, after, fetch, upto - 1);
    }
}

/// A query that remembers which archetypes its pattern matches.
///
/// It looks only at the archetypes that were made since it last ran. Spawning,
/// despawning and changing entities leave what it remembers valid: archetypes
/// are never removed or changed.
pub struct PreparedQuery {
    fetch: Fetch,
    seen: usize,
    matching: Vec<usize>,
}

impl PreparedQuery {
    /// The pattern of the query.
    pub closed spec fn pattern(&self) -> Fetch {
        self.fetch
    }

    /// The number of archetypes that the query has looked at.
    pub closed spec fn seen(&self) -> nat {
        self.seen as nat
    }

    /// The archetypes that the query remembers as matching.
    pub closed spec fn cached(&self) -> Seq<usize> {
        self.matching@
    }

    /// What the query remembers is true of `frame`.
    pub open spec fn valid_for(&self, frame: &Frame) -> bool {
        &&& self.seen() <= frame.archetype_seq().len()
        &&& self.cached() == matching_upto(frame, self.pattern(), self.seen() as int)
    }

    /// A query with the pattern `fetch` that has looked at no archetype yet.
    pub fn new(fetch: Fetch) -> (query: PreparedQuery)
        ensures
            query.pattern() == fetch,
            query.seen() == 0,
            query.cached() == Seq::<usize>::empty(),
            forall|frame: &Frame| query.valid_for(frame),
    {
        let query = PreparedQuery { fetch, seen: 0, matching: Vec::new() };
        assert(query.cached() =~= Seq::<usize>::empty());
        query
    }


    /// Whether what the query remembers is true of `frame`, so that the query
    /// can run on it as it is. A query that last ran on another store is reset
    /// first.
    pub fn is_valid_for(&self, frame: &Frame) -> (b: bool)
        requires
            frame.wf(),
        ensures
            b == self.valid_for(frame),
    {
        let archetypes = frame.archetypes();
        if self.seen > archetypes.len() {
            return false;
        }
        let ghost all = matching_upto(frame, self.fetch, self.seen as int);
        let mut a: usize = 0;
        let mut j: usize = 0;
        proof {
            assert(self.matching@.take(0) =~= matching_upto(frame, self.fetch, 0));
        }
        while a < self.seen
            invariant
                a <= self.seen <= archetypes@.len(),
                archetypes@ == frame.archetype_seq(),
                frame.wf(),
                j <= self.matching@.len(),
                all == matching_upto(frame, self.fetch, self.seen as int),
                self.matching@.take(j as int) == matching_upto(frame, self.fetch, a as int),
            decreases self.seen - a,
        {
            proof {
                frame.lemma_wf();
                assert(frame.archetype_seq()[a as int].wf());
                lemma_matching_prefix(frame, self.fetch, a + 1, self.seen as int);
            }
            if self.fetch.matches_archetype(&archetypes[a]) {
                let ghost next = matching_upto(frame, self.fetch, a + 1);
                proof {
                    assert(next == self.matching@.take(j as int).push(a));
                    assert(next.len() == j + 1);
                    assert(all.take(j + 1) == next);
                    assert(all[j as int] == all.take(j + 1)[j as int]);
                    assert(all[j as int] == a);
                }
                if j >= self.matching.len() || self.matching[j] != a {
                    return false;
                }
                proof {
                    assert(self.matching@.take(j + 1) =~= self.matching@.take(j as int).push(a));
                }
                j = j + 1;
            }
            a = a + 1;
        }
        proof {
            if j == self.matching@.len() {
                assert(self.matching@.take(j as int) =~= self.matching@);
            }
        }
        j == self.matching.len()
    }

    /// Forgets what the query remembers, so that it can run on another store.
    pub fn reset(&mut self)
        ensures
            final(self).pattern() == old(self).pattern(),
            final(self).seen() == 0,
            forall|frame: &Frame| final(self).valid_for(frame),
    {
        self.seen = 0;
        self.matching.clear();
    }

    fn update(&mut self, frame: &Frame)
        requires
            old(self).valid_for(frame),
            frame.wf(),
        ensures
            final(self).valid_for(frame),
            final(self).pattern() == old(self).pattern(),
            final(self).seen() == frame.archetype_seq().len(),
    {
        let archetypes = frame.archetypes();
        while self.seen < archetypes.len()
            invariant
                archetypes@ == frame.archetype_seq(),
                frame.wf(),
                self.valid_for(frame),
                self.fetch == old(self).fetch,
            decreases archetypes@.len() - self.seen,
        {
            proof {
                frame.lemma_wf();
                assert(frame.archetype_seq()[self.seen as int].wf());
            }
            if self.fetch.matches_archetype(&archetypes[self.seen]) {
                self.matching.push(self.seen);
            }
            self.seen = self.seen + 1;
        }
    }

    /// The entities that the pattern matches, as `Frame::query` yields them.
    pub fn query(&mut self, frame: &Frame) -> (out: Vec<(Entity, Item)>)
        requires
            old(self).valid_for(frame),
            frame.wf(),
            !old(self).pattern().violates(),
            frame.borrowable(old(self).pattern()),
        ensures
            final(self).valid_for(frame),
            final(self).pattern() == old(self).pattern(),
            final(self).seen() == frame.archetype_seq().len(),
            item_views(out@) == results(frame, old(self).pattern(), frame.archetype_seq().len() as int),
    {
        self.run(frame)
    }

    fn run(&mut self, frame: &Frame) -> (out: Vec<(Entity, Item)>)
        requires
            old(self).valid_for(frame),
            frame.wf(),
        ensures
            final(self).valid_for(frame),
            final(self).pattern() == old(self).pattern(),
            final(self).seen() == frame.archetype_seq().len(),
            item_views(out@) == results(frame, old(self).pattern(), frame.archetype_seq().len() as int),
    {
        self.update(frame);
        let archetypes = frame.archetypes();
        let mut out: Vec<(Entity, Item)> = Vec::new();
        let mut j: usize = 0;
        proof {
            lemma_matching(frame, self.fetch, self.seen as int);
            assert(self.matching@.take(0) =~= Seq::<usize>::empty());
            assert(item_views(out@) =~= rows_over(frame, self.fetch, self.matching@.take(0)));
        }
        while j < self.matching.len()
            invariant
                j <= self.matching@.len(),
                archetypes@ == frame.archetype_seq(),
                frame.wf(),
                self.valid_for(frame),
                self.seen == frame.archetype_seq().len(),
                self.fetch == old(self).fetch,
                forall|k: int|
                    0 <= k < self.matching@.len() ==> (#[trigger] self.matching@[k])
                        < frame.archetype_seq().len() && self.fetch.matches(
                        type_set(frame.archetype_seq()[self.matching@[k] as int].signature()),
                    ),
                item_views(out@) == rows_over(frame, self.fetch, self.matching@.take(j as int)),
            decreases self.matching@.len() - j,
        {
            let a = self.matching[j];
            let n = archetypes[a].len();
            let ghost done = rows_over(frame, self.fetch, self.matching@.take(j as int));
            let ghost rows = rows_of(frame, self.fetch, a as int);
            let mut r: usize = 0;
            proof {
                frame.lemma_wf();
                assert(frame.archetype_seq()[a as int].wf());
                assert(item_views(out@) =~= done + rows.take(0));
            }
            while r < n
                invariant
                    r <= n,
                    a < archetypes@.len(),
                    archetypes@ == frame.archetype_seq(),
                    archetypes@[a as int].wf(),
                    n == archetypes@[a as int].rows(),
                    frame.wf(),
                    self.fetch.matches(type_set(archetypes@[a as int].signature())),
                    rows == rows_of(frame, self.fetch, a as int),
                    item_views(out@) == done + rows.take(r as int),
                decreases n - r,
            {
                let e = frame.entity_at(a, r);
                let item = self.fetch.fetch(&archetypes[a], r);
                let ghost before = out@;
                out.push((e, item));
                proof {
                    assert(rows.take(r + 1) =~= rows.take(r as int).push(rows[r as int]));
                    assert(item_views(out@) =~= item_views(before).push((e, item@)));
                    assert(item_views(out@) =~= done + rows.take(r + 1));
                }
                r = r + 1;
            }
            proof {
                assert(rows.take(n as int) =~= rows);
                assert(self.matching@.take(j + 1).drop_last() =~= self.matching@.take(j as int));
                assert(self.matching@.take(j + 1).last() == a);
            }
            j = j + 1;
        }
        proof {
            assert(self.matching@.take(j as int) =~= self.matching@);
        }
        out
    }

    /// As `query`. The store is held exclusively, so no borrow can be in the
    /// way.
    pub fn query_mut(&mut self, frame: &mut Frame) -> (out: Vec<(Entity, Item)>)
        requires
            old(self).valid_for(old(frame)),
            old(frame).wf(),
            old(frame).unborrowed(),
            !old(self).pattern().violates(),
        ensures
            *final(frame) == *old(frame),
            final(self).valid_for(old(frame)),
            final(self).pattern() == old(self).pattern(),
            final(self).seen() == old(frame).archetype_seq().len(),
            item_views(out@) == results(
                old(frame),
                old(self).pattern(),
                old(frame).archetype_seq().len() as int,
            ),
    {
        self.run(frame)
    }
}

} // verus!
