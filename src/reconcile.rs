//! The desired tag set, the map of applied tags, and the merge walk that
//! reconciles one against the other.

use std::cmp::Ordering;

use vstd::prelude::*;

use crate::tag::{lemma_tag_lt, tag_lt, Tag, TagView};

verus! {

/// Strictly increasing under the tag order, hence free of duplicates.
pub open spec fn ascending(s: Seq<TagView>) -> bool {
    forall|a: int, b: int| 0 <= a < b < s.len() ==> tag_lt(#[trigger] s[a], #[trigger] s[b])
}

pub open spec fn entry_view<H>(e: (Tag, Option<H>)) -> (TagView, Option<H>) {
    (e.0@, e.1)
}

/// The tags of a sequence of entries, in order.
pub open spec fn keys_of<H>(s: Seq<(TagView, Option<H>)>) -> Seq<TagView> {
    s.map_values(|e: (TagView, Option<H>)| e.0)
}

/// Holds of a desired tag that has no entry among `previous`.
pub open spec fn fresh<H>(previous: Seq<(TagView, Option<H>)>) -> spec_fn(TagView) -> bool {
    |t: TagView| !keys_of(previous).contains(t)
}

/// Holds of a previous entry whose tag is no longer desired.
pub open spec fn stale<H>(desired: Seq<TagView>) -> spec_fn((TagView, Option<H>)) -> bool {
    |e: (TagView, Option<H>)| !desired.contains(e.0)
}

/// An output entry carries the handle of the previous entry for its tag, if
/// there was one, and otherwise the handle that applying its tag produced.
pub open spec fn handle_kept<H>(
    previous: Seq<(TagView, Option<H>)>,
    applied: Seq<(TagView, Option<H>)>,
    e: (TagView, Option<H>),
) -> bool {
    if keys_of(previous).contains(e.0) {
        previous.contains(e)
    } else {
        applied.contains(e)
    }
}

/// The outcome of one reconciliation of `desired` against `previous`:
/// `applied` lists the tags applied (with the handle each produced),
/// `detached` the previous entries detached, `out` the new map.
pub open spec fn reconciled<H>(
    desired: Seq<TagView>,
    previous: Seq<(TagView, Option<H>)>,
    applied: Seq<(TagView, Option<H>)>,
    detached: Seq<(TagView, Option<H>)>,
    out: Seq<(TagView, Option<H>)>,
) -> bool {
    &&& keys_of(out) == desired
    &&& keys_of(applied) == desired.filter(fresh(previous))
    &&& detached == previous.filter(stale(desired))
    &&& forall|k: int| 0 <= k < out.len() ==> handle_kept(previous, applied, #[trigger] out[k])
}

/// The tags wanted in one cycle, kept in ascending order without duplicates.
pub struct DesiredSet {
    tags: Vec<Tag>,
}

impl View for DesiredSet {
    type V = Seq<TagView>;

    closed spec fn view(&self) -> Seq<TagView> {
        self.tags@.map_values(|t: Tag| t@)
    }
}

impl DesiredSet {
    pub open spec fn wf(&self) -> bool {
        ascending(self@)
    }

    pub fn new() -> (s: DesiredSet)
        ensures
            s.wf(),
            s@ == Seq::<TagView>::empty(),
    {
        let s = DesiredSet { tags: Vec::new() };
        assert(s@ =~= Seq::<TagView>::empty());
        s
    }

    pub fn len(&self) -> (n: usize)
        ensures
            n == self@.len(),
    {
        self.tags.len()
    }

    pub fn get(&self, i: usize) -> (t: &Tag)
        requires
            i < self@.len(),
        ensures
            t@ == self@[i as int],
    {
        &self.tags[i]
    }

    /// Adds a tag; a tag equal to one already held is dropped.
    pub fn insert(&mut self, tag: Tag)
        requires
            old(self).wf(),
        ensures
            final(self).wf(),
            forall|t: TagView| #[trigger] final(self)@.contains(t) <==> (old(self)@.contains(t) || t == tag@),
    {
        proof {
            lemma_tag_lt();
        }
        let ghost before = self@;
        let n = self.tags.len();
        let mut i: usize = 0;
        while i < n
            invariant
                n == self.tags@.len(),
                before == self@,
                ascending(before),
                i <= n,
                forall|k: int| 0 <= k < i ==> tag_lt(#[trigger] before[k], tag@),
            ensures
                i == n || tag_lt(tag@, before[i as int]),
            decreases n - i,
        {
            match self.tags[i].compare(&tag) {
                Ordering::Less => {},
                Ordering::Equal => {
                    proof {
                        assert(before[i as int] == tag@);
                        assert forall|t: TagView| #[trigger] before.contains(t) <==> (before.contains(t) || t == tag@) by {
                            if t == tag@ {
                                assert(before[i as int] == t);
                            }
                        }
                    }
                    return;
                },
                Ordering::Greater => {
                    break;
                },
            }
            i = i + 1;
        }
        self.tags.insert(i, tag);
        proof {
            assert(self@ =~= before.insert(i as int, tag@));
            assert forall|a: int, b: int| 0 <= a < b < self@.len() implies tag_lt(#[trigger] self@[a], #[trigger] self@[b]) by {
                if b < i {
                } else if a < i && b == i {
                } else if a < i {
                    assert(tag_lt(before[a], tag@));
                    assert(tag_lt(tag@, before[i as int]));
                    if b - 1 > i {
                        assert(tag_lt(before[i as int], before[b - 1]));
                    }
                } else if a == i {
                    assert(tag_lt(tag@, before[i as int]));
                    if b - 1 > i {
                        assert(tag_lt(before[i as int], before[b - 1]));
                    }
                } else {
                    assert(tag_lt(before[a - 1], before[b - 1]));
                }
            }
            assert forall|t: TagView| #[trigger] self@.contains(t) <==> (before.contains(t) || t == tag@) by {
                if self@.contains(t) {
                    let k = choose|k: int| 0 <= k < self@.len() && #[trigger] self@[k] == t;
                    if k < i {
                        assert(before[k] == t);
                    } else if k > i {
                        assert(before[k - 1] == t);
                    }
                }
                if before.contains(t) {
                    let k = choose|k: int| 0 <= k < before.len() && #[trigger] before[k] == t;
                    if k < i {
                        assert(self@[k] == t);
                    } else {
                        assert(self@[k + 1] == t);
                    }
                }
                if t == tag@ {
                    assert(self@[i as int] == t);
                }
            }
        }
    }

    /// Collects tags, in whatever order they come, into a desired set.
    pub fn from_tags(tags: Vec<Tag>) -> (s: DesiredSet)
        ensures
            s.wf(),
            forall|t: TagView| #[trigger] s@.contains(t) <==> tags@.map_values(|x: Tag| x@).contains(t),
    {
        let ghost all = tags@.map_values(|x: Tag| x@);
        let mut rest = tags;
        let mut s = DesiredSet::new();
        assert(all.take(all.len() as int) =~= all);
        while rest.len() > 0
            invariant
                s.wf(),
                rest@.len() <= all.len(),
                forall|k: int| 0 <= k < rest@.len() ==> #[trigger] rest@[k]@ == all[k],
                forall|t: TagView| #[trigger] all.contains(t) <==> (s@.contains(t) || all.take(rest@.len() as int).contains(t)),
            decreases rest@.len(),
        {
            let ghost r = rest@.len() - 1;
            match rest.pop() {
                Some(t) => {
                    proof {
                        assert(t@ == all[r]);
                        assert forall|x: TagView| #[trigger] all.take(r + 1).contains(x) <==> (all.take(r).contains(x) || x == t@) by {
                            if all.take(r + 1).contains(x) {
                                let k = choose|k: int| 0 <= k < r + 1 && #[trigger] all.take(r + 1)[k] == x;
                                if k < r {
                                    assert(all.take(r)[k] == x);
                                }
                            }
                            if all.take(r).contains(x) {
                                let k = choose|k: int| 0 <= k < r && #[trigger] all.take(r)[k] == x;
                                assert(all.take(r + 1)[k] == x);
                            }
                            if x == t@ {
                                assert(all.take(r + 1)[r] == x);
                            }
                        }
                    }
                    s.insert(t);
                },
                None => {},
            }
        }
        proof {
            assert forall|t: TagView| #[trigger] s@.contains(t) <==> all.contains(t) by {
                assert(!all.take(0).contains(t));
            }
        }
        s
    }
}

/// The tags currently applied, each with the handle its application produced,
/// in ascending tag order.
pub struct RenderedMap<H> {
    entries: Vec<(Tag, Option<H>)>,
}

impl<H> View for RenderedMap<H> {
    type V = Seq<(TagView, Option<H>)>;

    closed spec fn view(&self) -> Seq<(TagView, Option<H>)> {
        self.entries@.map_values(|e: (Tag, Option<H>)| entry_view(e))
    }
}

impl<H> RenderedMap<H> {
    pub open spec fn wf(&self) -> bool {
        ascending(keys_of(self@))
    }

    pub fn new() -> (m: RenderedMap<H>)
        ensures
            m.wf(),
            m@ == Seq::<(TagView, Option<H>)>::empty(),
    {
        let m = RenderedMap { entries: Vec::new() };
        assert(m@ =~= Seq::<(TagView, Option<H>)>::empty());
        assert(keys_of(m@) =~= Seq::<TagView>::empty());
        m
    }

    pub fn len(&self) -> (n: usize)
        ensures
            n == self@.len(),
    {
        self.entries.len()
    }

    pub fn tag(&self, i: usize) -> (t: &Tag)
        requires
            i < self@.len(),
        ensures
            t@ == self@[i as int].0,
    {
        &self.entries[i].0
    }

    pub fn handle(&self, i: usize) -> (h: &Option<H>)
        requires
            i < self@.len(),
        ensures
            *h == self@[i as int].1,
    {
        &self.entries[i].1
    }
}

proof fn lemma_filter_step<A>(s: Seq<A>, f: spec_fn(A) -> bool, j: int)
    requires
        0 <= j < s.len(),
    ensures
        s.take(j + 1).filter(f) == (if f(s[j]) {
            s.take(j).filter(f).push(s[j])
        } else {
            s.take(j).filter(f)
        }),
{
    reveal(Seq::filter);
    assert(s.take(j + 1).drop_last() =~= s.take(j));
}

proof fn lemma_filter_empty<A>(s: Seq<A>, f: spec_fn(A) -> bool)
    requires
        s.len() == 0,
    ensures
        s.filter(f) == Seq::<A>::empty(),
{
    reveal(Seq::filter);
    assert(s.filter(f) =~= Seq::<A>::empty());
}

/// What the medium is to do next in a reconciliation.
pub enum Step<H> {
    /// Apply the pending tag (`Reconciler::pending_tag`) and hand the handle
    /// back through `Reconciler::applied`.
    Apply,
    /// Detach this tag, with the handle it was applied with.
    Detach(Tag, Option<H>),
    /// Nothing is left to do: `Reconciler::finish` gives the new map.
    Done,
}

/// One reconciliation in progress: a merge walk over the desired tags and the
/// previous entries, both ascending, that reuses the handle of every tag found
/// in both, applies each new tag once and detaches each stale entry once.
pub struct Reconciler<H> {
    /// Desired tags not yet reached, largest first.
    todo: Vec<Tag>,
    /// Previous entries not yet reached, largest first.
    rest: Vec<(Tag, Option<H>)>,
    /// The tag waiting for its handle from the medium.
    pending: Option<Tag>,
    /// The new map, built in ascending order.
    out: Vec<(Tag, Option<H>)>,
    desired: Ghost<Seq<TagView>>,
    previous: Ghost<Seq<(TagView, Option<H>)>>,
    applied: Ghost<Seq<(TagView, Option<H>)>>,
    detached: Ghost<Seq<(TagView, Option<H>)>>,
}

impl<H> Reconciler<H> {
    /// The desired tags of this reconciliation.
    pub closed spec fn desired(&self) -> Seq<TagView> {
        self.desired@
    }

    /// The entries of the map being replaced.
    pub closed spec fn previous(&self) -> Seq<(TagView, Option<H>)> {
        self.previous@
    }

    /// The tags applied so far, each with the handle the medium gave back.
    pub closed spec fn applied_log(&self) -> Seq<(TagView, Option<H>)> {
        self.applied@
    }

    /// The previous entries handed out for detaching so far.
    pub closed spec fn detached_log(&self) -> Seq<(TagView, Option<H>)> {
        self.detached@
    }

    /// The tag waiting to be applied, if any.
    pub closed spec fn pending(&self) -> Option<TagView> {
        match self.pending {
            Some(t) => Some(t@),
            None => None,
        }
    }

    /// Entries not yet reached on either side.
    pub closed spec fn remaining(&self) -> nat {
        self.todo@.len() + self.rest@.len()
    }

    pub closed spec fn is_done(&self) -> bool {
        &&& self.todo@.len() == 0
        &&& self.rest@.len() == 0
        &&& self.pending is None
    }

    pub closed spec fn out_view(&self) -> Seq<(TagView, Option<H>)> {
        self.out@.map_values(|e: (Tag, Option<H>)| entry_view(e))
    }

    /// Starts reconciling `to_render` against the map applied last time, or
    /// against nothing on the first run.
    pub fn new(to_render: DesiredSet, last: Option<RenderedMap<H>>) -> (r: Reconciler<H>)
        requires
            to_render.wf(),
            last matches Some(m) ==> m.wf(),
        ensures
            r.wf(),
            r.desired() == to_render@,
            r.previous() == (match last {
                Some(m) => m@,
                None => Seq::<(TagView, Option<H>)>::empty(),
            }),
            r.applied_log() == Seq::<(TagView, Option<H>)>::empty(),
            r.detached_log() == Seq::<(TagView, Option<H>)>::empty(),
            r.pending() is None,
            r.remaining() == r.desired().len() + r.previous().len(),
    {
        let ghost d = to_render@;
        let ghost l = match &last {
            Some(m) => m@,
            None => Seq::<(TagView, Option<H>)>::empty(),
        };
        let mut src = to_render.tags;
        let mut todo: Vec<Tag> = Vec::new();
        while src.len() > 0
            invariant
                todo@.len() + src@.len() == d.len(),
                forall|k: int| 0 <= k < src@.len() ==> #[trigger] src@[k]@ == d[k],
                forall|k: int| 0 <= k < todo@.len() ==> #[trigger] todo@[k]@ == d[d.len() - 1 - k],
            decreases src@.len(),
        {
            match src.pop() {
                Some(t) => todo.push(t),
                None => {},
            }
        }
        let mut old_entries = match last {
            Some(m) => m.entries,
            None => Vec::new(),
        };
        assert(old_entries@.map_values(|e: (Tag, Option<H>)| entry_view(e)) =~= l);
        let mut rest: Vec<(Tag, Option<H>)> = Vec::new();
        while old_entries.len() > 0
            invariant
                rest@.len() + old_entries@.len() == l.len(),
                forall|k: int| 0 <= k < old_entries@.len() ==> entry_view(#[trigger] old_entries@[k]) == l[k],
                forall|k: int| 0 <= k < rest@.len() ==> entry_view(#[trigger] rest@[k]) == l[l.len() - 1 - k],
            decreases old_entries@.len(),
        {
            match old_entries.pop() {
                Some(e) => rest.push(e),
                None => {},
            }
        }
        let r = Reconciler {
            todo,
            rest,
            pending: None,
            out: Vec::new(),
            desired: Ghost(d),
            previous: Ghost(l),
            applied: Ghost(Seq::empty()),
            detached: Ghost(Seq::empty()),
        };
        proof {
            lemma_filter_empty(d.take(0), fresh(l));
            lemma_filter_empty(l.take(0), stale::<H>(d));
            assert(r.out_view() =~= Seq::<(TagView, Option<H>)>::empty());
            assert(keys_of(r.out_view()) =~= d.take(0));
            assert(keys_of(r.applied@) =~= d.take(0).filter(fresh(l)));
        }
        r
    }

    /// The tag to apply after `Step::Apply`.
    pub fn pending_tag(&self) -> (t: Option<&Tag>)
        ensures
            match t {
                Some(t) => self.pending() == Some(t@),
                None => self.pending() is None,
            },
    {
        match &self.pending {
            Some(t) => Some(t),
            None => None,
        }
    }

    /// Takes the handle that applying the pending tag produced.
    pub fn applied(&mut self, handle: Option<H>)
        requires
            old(self).wf(),
            old(self).pending() is Some,
        ensures
            final(self).wf(),
            final(self).pending() is None,
            final(self).desired() == old(self).desired(),
            final(self).previous() == old(self).previous(),
            final(self).applied_log() == old(self).applied_log().push((old(self).pending()->0, handle)),
            final(self).detached_log() == old(self).detached_log(),
            final(self).remaining() == old(self).remaining(),
    {
        let ghost d = self.desired@;
        let ghost l = self.previous@;
        let ghost i = self.out@.len() as int;
        let ghost out0 = self.out_view();
        let ghost applied0 = self.applied@;
        match self.pending.take() {
            Some(t) => {
                proof {
                    self.applied@ = self.applied@.push((t@, handle));
                }
                self.out.push((t, handle));
            },
            None => {},
        }
        proof {
            let out = self.out_view();
            assert(out =~= out0.push((d[i], handle)));
            lemma_filter_step(d, fresh(l), i);
            assert(d.take(i + 1).take(i) =~= d.take(i));
            assert(keys_of(out) =~= d.take(i + 1));
            assert(keys_of(self.applied@) =~= keys_of(applied0).push(d[i]));
            assert(d.take(i + 1).filter(fresh(l)) == d.take(i).filter(fresh(l)).push(d[i])) by {
                lemma_filter_step(d.take(d.len() as int), fresh(l), i);
                assert(d.take(d.len() as int) =~= d);
            }
            assert forall|k: int| 0 <= k < i + 1 implies handle_kept(l, self.applied@, #[trigger] out[k]) by {
                if k < i {
                    assert(out[k] == out0[k]);
                    if !keys_of(l).contains(out[k].0) {
                        let a = choose|a: int| 0 <= a < applied0.len() && #[trigger] applied0[a] == out[k];
                        assert(self.applied@[a] == out[k]);
                    }
                } else {
                    assert(self.applied@[applied0.len() as int] == out[k]);
                }
            }
        }
    }

    /// Advances the walk to the next call on the medium. A desired tag equal
    /// to the next previous entry takes that entry's handle on the way, with
    /// no call.
    pub fn step(&mut self) -> (s: Step<H>)
        requires
            old(self).wf(),
            old(self).pending() is None,
        ensures
            final(self).wf(),
            final(self).desired() == old(self).desired(),
            final(self).previous() == old(self).previous(),
            final(self).applied_log() == old(self).applied_log(),
            match s {
                Step::Apply => {
                    &&& final(self).pending() is Some
                    &&& final(self).detached_log() == old(self).detached_log()
                    &&& final(self).remaining() < old(self).remaining()
                },
                Step::Detach(t, h) => {
                    &&& final(self).pending() is None
                    &&& final(self).detached_log() == old(self).detached_log().push((t@, h))
                    &&& final(self).remaining() < old(self).remaining()
                },
                Step::Done => {
                    &&& final(self).is_done()
                    &&& final(self).detached_log() == old(self).detached_log()
                },
            },
    {
        proof {
            lemma_tag_lt();
        }
        let ghost d = self.desired@;
        let ghost l = self.previous@;
        let ghost a0 = self.applied@;
        let ghost det0 = self.detached@;
        let ghost rem0 = self.remaining();
        loop
            invariant
                self.wf(),
                self.pending() is None,
                self.desired@ == d,
                self.previous@ == l,
                self.applied@ == a0,
                self.detached@ == det0,
                self.remaining() <= rem0,
                d == old(self).desired(),
                l == old(self).previous(),
                a0 == old(self).applied_log(),
                det0 == old(self).detached_log(),
                rem0 == old(self).remaining(),
            decreases self.todo@.len() + self.rest@.len(),
        {
            let nt = self.todo.len();
            let nr = self.rest.len();
            if nt == 0 {
                if nr == 0 {
                    return Step::Done;
                }
                return self.take_stale();
            }
            if nr == 0 {
                return self.take_new();
            }
            match self.rest[nr - 1].0.compare(&self.todo[nt - 1]) {
                Ordering::Less => {
                    return self.take_stale();
                },
                Ordering::Greater => {
                    return self.take_new();
                },
                Ordering::Equal => {
                    let ghost n = d.len() as int;
                    let ghost m = l.len() as int;
                    let ghost p = n - nt;
                    let ghost j = m - nr;
                    let ghost out0 = self.out_view();
                    let ghost i = out0.len() as int;
                    match (self.todo.pop(), self.rest.pop()) {
                        (Some(t), Some((_, h))) => {
                            self.out.push((t, h));
                        },
                        _ => {},
                    }
                    proof {
                        let out = self.out_view();
                        assert(self.todo@.len() == nt - 1);
                        assert(self.rest@.len() == nr - 1);
                        assert(d[p] == l[j].0);
                        assert(out =~= out0.push((d[p], l[j].1)));
                        assert(keys_of(out) =~= d.take(i + 1));
                        assert(keys_of(l)[j] == d[p]);
                        assert(keys_of(l).contains(d[p]));
                        assert(d.contains(l[j].0));
                        lemma_filter_step(d, fresh(l), i);
                        lemma_filter_step(l, stale::<H>(d), j);
                        assert forall|k: int| 0 <= k < i + 1 implies handle_kept(l, a0, #[trigger] out[k]) by {
                            if k < i {
                                assert(out[k] == out0[k]);
                            } else {
                                assert(l[j] == out[k]);
                            }
                        }
                        assert forall|a: int, b: int| 0 <= a < j + 1 && p + 1 <= b < n implies tag_lt(#[trigger] l[a].0, #[trigger] d[b]) by {
                            if a == j {
                                assert(tag_lt(d[p], d[b]));
                            } else {
                                assert(tag_lt(l[a].0, d[p + 1]));
                                if b > p + 1 {
                                    assert(tag_lt(d[p + 1], d[b]));
                                }
                            }
                        }
                        assert forall|a: int, b: int| 0 <= a < p + 1 && j + 1 <= b < m implies tag_lt(#[trigger] d[a], #[trigger] l[b].0) by {
                            assert(keys_of(l)[j] == l[j].0);
                            assert(keys_of(l)[b] == l[b].0);
                            if a == p {
                                assert(tag_lt(keys_of(l)[j], keys_of(l)[b]));
                            }
                        }
                    }
                },
            }
        }
    }

    /// The next previous entry is not desired: it is handed out for detaching.
    fn take_stale(&mut self) -> (s: Step<H>)
        requires
            old(self).wf(),
            old(self).pending() is None,
            old(self).rest@.len() > 0,
            old(self).todo@.len() == 0 || tag_lt(old(self).rest@.last().0@, old(self).todo@.last()@),
        ensures
            final(self).wf(),
            final(self).desired() == old(self).desired(),
            final(self).previous() == old(self).previous(),
            final(self).applied_log() == old(self).applied_log(),
            match s {
                Step::Detach(t, h) => {
                    &&& final(self).pending() is None
                    &&& final(self).detached_log() == old(self).detached_log().push((t@, h))
                    &&& final(self).remaining() < old(self).remaining()
                },
                _ => false,
            },
    {
        proof {
            lemma_tag_lt();
        }
        let ghost d = self.desired@;
        let ghost l = self.previous@;
        let ghost n = d.len() as int;
        let ghost m = l.len() as int;
        let ghost p = n - self.todo@.len();
        let ghost j = m - self.rest@.len();
        proof {
            if p < n {
                assert(self.todo@.last()@ == d[p]);
            }
            assert(entry_view(self.rest@.last()) == l[j]);
        }
        match self.rest.pop() {
            Some((t, h)) => {
                proof {
                    assert((t@, h) == l[j]);
                    assert forall|a: int| 0 <= a < n implies d[a] != l[j].0 by {
                        if a < p {
                            assert(tag_lt(d[a], l[j].0));
                        } else {
                            assert(tag_lt(l[j].0, d[p]));
                            if a > p {
                                assert(tag_lt(d[p], d[a]));
                            }
                        }
                    }
                    lemma_filter_step(l, stale::<H>(d), j);
                    self.detached@ = self.detached@.push((t@, h));
                    assert forall|a: int, b: int| 0 <= a < j + 1 && p <= b < n implies tag_lt(#[trigger] l[a].0, #[trigger] d[b]) by {
                        if a == j {
                            assert(tag_lt(l[j].0, d[p]));
                            if b > p {
                                assert(tag_lt(d[p], d[b]));
                            }
                        }
                    }
                }
                Step::Detach(t, h)
            },
            None => Step::Done,
        }
    }

    /// The next desired tag is new: it becomes the pending tag, to be applied.
    fn take_new(&mut self) -> (s: Step<H>)
        requires
            old(self).wf(),
            old(self).pending() is None,
            old(self).todo@.len() > 0,
            old(self).rest@.len() == 0 || tag_lt(old(self).todo@.last()@, old(self).rest@.last().0@),
        ensures
            final(self).wf(),
            final(self).desired() == old(self).desired(),
            final(self).previous() == old(self).previous(),
            final(self).applied_log() == old(self).applied_log(),
            s is Apply,
            final(self).pending() is Some,
            final(self).detached_log() == old(self).detached_log(),
            final(self).remaining() < old(self).remaining(),
    {
        proof {
            lemma_tag_lt();
        }
        let ghost d = self.desired@;
        let ghost l = self.previous@;
        let ghost n = d.len() as int;
        let ghost m = l.len() as int;
        let ghost p = n - self.todo@.len();
        let ghost j = m - self.rest@.len();
        proof {
            assert(self.todo@.last()@ == d[p]);
            if j < m {
                assert(entry_view(self.rest@.last()) == l[j]);
            }
        }
        let t = self.todo.pop();
        self.pending = t;
        proof {
            let i = self.out_view().len() as int;
            assert(i == p);
            assert forall|a: int| 0 <= a < m implies keys_of(l)[a] != d[p] by {
                assert(keys_of(l)[a] == l[a].0);
                if a >= j {
                    assert(tag_lt(d[p], l[j].0));
                    if a > j {
                        assert(keys_of(l)[j] == l[j].0);
                        assert(tag_lt(keys_of(l)[j], keys_of(l)[a]));
                    }
                }
            }
            assert forall|a: int, b: int| 0 <= a < p + 1 && j <= b < m implies tag_lt(#[trigger] d[a], #[trigger] l[b].0) by {
                if a == p {
                    assert(tag_lt(d[p], l[j].0));
                    if b > j {
                        assert(keys_of(l)[j] == l[j].0);
                        assert(keys_of(l)[b] == l[b].0);
                        assert(tag_lt(keys_of(l)[j], keys_of(l)[b]));
                    }
                }
            }
        }
        Step::Apply
    }

    /// Ends the reconciliation, giving the new map.
    pub fn finish(self) -> (m: RenderedMap<H>)
        requires
            self.wf(),
            self.is_done(),
        ensures
            m.wf(),
            reconciled(self.desired(), self.previous(), self.applied_log(), self.detached_log(), m@),
    {
        let m = RenderedMap { entries: self.out };
        proof {
            let d = self.desired@;
            let l = self.previous@;
            assert(d.take(d.len() as int) =~= d);
            assert(l.take(l.len() as int) =~= l);
            assert(m@ == self.out_view());
        }
        m
    }

    pub closed spec fn wf(&self) -> bool {
        let d = self.desired@;
        let l = self.previous@;
        let n = d.len() as int;
        let m = l.len() as int;
        let p = n - self.todo@.len();
        let j = m - self.rest@.len();
        let out = self.out_view();
        let i = out.len() as int;
        &&& ascending(d)
        &&& ascending(keys_of(l))
        &&& self.todo@.len() <= n
        &&& self.rest@.len() <= m
        &&& forall|k: int| 0 <= k < self.todo@.len() ==> #[trigger] self.todo@[k]@ == d[n - 1 - k]
        &&& forall|k: int| 0 <= k < self.rest@.len() ==> entry_view(#[trigger] self.rest@[k]) == l[m - 1 - k]
        &&& match self.pending {
            Some(t) => i + 1 == p && t@ == d[i] && !keys_of(l).contains(d[i]),
            None => i == p,
        }
        &&& keys_of(out) == d.take(i)
        &&& forall|a: int, b: int| 0 <= a < j && p <= b < n ==> tag_lt(#[trigger] l[a].0, #[trigger] d[b])
        &&& forall|a: int, b: int| 0 <= a < p && j <= b < m ==> tag_lt(#[trigger] d[a], #[trigger] l[b].0)
        &&& keys_of(self.applied@) == d.take(i).filter(fresh(l))
        &&& self.detached@ == l.take(j).filter(stale(d))
        &&& forall|k: int| 0 <= k < i ==> handle_kept(l, self.applied@, #[trigger] out[k])
    }
}

} // verus!
