//! Properties of every reconciliation, stated over what `Reconciler::finish`
//! guarantees.

use vstd::prelude::*;

use crate::reconcile::{ascending, fresh, handle_kept, keys_of, reconciled, stale, DesiredSet};
use crate::tag::{lemma_tag_lt, tag_lt, TagView};

verus! {

proof fn lemma_filter_none<A>(s: Seq<A>, f: spec_fn(A) -> bool)
    requires
        forall|k: int| 0 <= k < s.len() ==> !f(#[trigger] s[k]),
    ensures
        s.filter(f).len() == 0,
    decreases s.len(),
{
    reveal(Seq::filter);
    if s.len() > 0 {
        lemma_filter_none(s.drop_last(), f);
    }
}

proof fn lemma_filter_all<A>(s: Seq<A>, f: spec_fn(A) -> bool)
    requires
        forall|k: int| 0 <= k < s.len() ==> f(#[trigger] s[k]),
    ensures
        s.filter(f) == s,
    decreases s.len(),
{
    reveal(Seq::filter);
    if s.len() > 0 {
        lemma_filter_all(s.drop_last(), f);
        assert(s.drop_last().push(s.last()) =~= s);
    } else {
        assert(s.filter(f) =~= s);
    }
}

proof fn lemma_filter_within<A>(s: Seq<A>, f: spec_fn(A) -> bool)
    ensures
        forall|k: int| 0 <= k < s.filter(f).len() ==> s.contains(#[trigger] s.filter(f)[k]),
    decreases s.len(),
{
    reveal(Seq::filter);
    if s.len() > 0 {
        let t = s.drop_last();
        lemma_filter_within(t, f);
        assert forall|k: int| 0 <= k < s.filter(f).len() implies s.contains(#[trigger] s.filter(f)[k]) by {
            if k < t.filter(f).len() {
                let x = t.filter(f)[k];
                assert(t.contains(x));
                let a = choose|a: int| 0 <= a < t.len() && #[trigger] t[a] == x;
                assert(s[a] == x);
            } else {
                assert(s[s.len() - 1] == s.filter(f)[k]);
            }
        }
    }
}

/// Keeping some entries of a map keeps its tags ascending.
proof fn lemma_filter_ascending<H>(s: Seq<(TagView, Option<H>)>, f: spec_fn((TagView, Option<H>)) -> bool)
    requires
        ascending(keys_of(s)),
    ensures
        ascending(keys_of(s.filter(f))),
    decreases s.len(),
{
    reveal(Seq::filter);
    lemma_tag_lt();
    if s.len() > 0 {
        let t = s.drop_last();
        assert forall|a: int, b: int| 0 <= a < b < t.len() implies tag_lt(#[trigger] keys_of(t)[a], #[trigger] keys_of(t)[b]) by {
            assert(keys_of(t)[a] == keys_of(s)[a]);
            assert(keys_of(t)[b] == keys_of(s)[b]);
        }
        lemma_filter_ascending(t, f);
        lemma_filter_within(t, f);
        let r = s.filter(f);
        let q = t.filter(f);
        assert forall|a: int, b: int| 0 <= a < b < r.len() implies tag_lt(#[trigger] keys_of(r)[a], #[trigger] keys_of(r)[b]) by {
            if b < q.len() {
                assert(keys_of(r)[a] == keys_of(q)[a]);
                assert(keys_of(r)[b] == keys_of(q)[b]);
            } else {
                let x = q[a];
                assert(t.contains(x));
                let c = choose|c: int| 0 <= c < t.len() && #[trigger] t[c] == x;
                assert(keys_of(s)[c] == x.0);
                assert(keys_of(s)[s.len() - 1] == s.last().0);
                assert(keys_of(r)[b] == s.last().0);
            }
        }
    }
}

/// In a map with ascending tags an entry is found by its tag alone.
proof fn lemma_entry_by_tag<H>(s: Seq<(TagView, Option<H>)>, a: int, b: int)
    requires
        ascending(keys_of(s)),
        0 <= a < s.len(),
        0 <= b < s.len(),
        s[a].0 == s[b].0,
    ensures
        a == b,
{
    lemma_tag_lt();
    assert(keys_of(s)[a] == s[a].0);
    assert(keys_of(s)[b] == s[b].0);
    if a < b {
        assert(tag_lt(keys_of(s)[a], keys_of(s)[b]));
    } else if b < a {
        assert(tag_lt(keys_of(s)[b], keys_of(s)[a]));
    }
}

/// Idempotence: reconciling a desired set against the map that already holds
/// exactly its tags applies nothing, detaches nothing, and keeps every entry,
/// handle included, as it was.
pub proof fn lemma_stable_tags_untouched<H>(
    desired: Seq<TagView>,
    previous: Seq<(TagView, Option<H>)>,
    applied: Seq<(TagView, Option<H>)>,
    detached: Seq<(TagView, Option<H>)>,
    out: Seq<(TagView, Option<H>)>,
)
    requires
        ascending(desired),
        keys_of(previous) == desired,
        reconciled(desired, previous, applied, detached, out),
    ensures
        applied.len() == 0,
        detached.len() == 0,
        out == previous,
{
    assert forall|k: int| 0 <= k < desired.len() implies !#[trigger] fresh(previous)(desired[k]) by {
        assert(keys_of(previous)[k] == desired[k]);
    }
    lemma_filter_none(desired, fresh(previous));
    assert(keys_of(applied).len() == 0);
    assert forall|k: int| 0 <= k < previous.len() implies !#[trigger] stale::<H>(desired)(previous[k]) by {
        assert(keys_of(previous)[k] == previous[k].0);
    }
    lemma_filter_none(previous, stale::<H>(desired));
    assert(out.len() == previous.len()) by {
        assert(keys_of(out).len() == keys_of(previous).len());
    }
    assert forall|k: int| 0 <= k < out.len() implies out[k] == previous[k] by {
        assert(keys_of(out)[k] == out[k].0);
        assert(keys_of(previous)[k] == previous[k].0);
        assert(keys_of(previous).contains(out[k].0));
        assert(handle_kept(previous, applied, out[k]));
        let a = choose|a: int| 0 <= a < previous.len() && #[trigger] previous[a] == out[k];
        lemma_entry_by_tag(previous, a, k);
    }
    assert(out =~= previous);
}

/// Completeness: the new map holds exactly the desired tags.
pub proof fn lemma_complete<H>(
    desired: Seq<TagView>,
    previous: Seq<(TagView, Option<H>)>,
    applied: Seq<(TagView, Option<H>)>,
    detached: Seq<(TagView, Option<H>)>,
    out: Seq<(TagView, Option<H>)>,
)
    requires
        reconciled(desired, previous, applied, detached, out),
    ensures
        keys_of(out).to_set() == desired.to_set(),
        out.len() == desired.len(),
{
    assert(keys_of(out).len() == out.len());
}

/// No dangling handles: every previous entry whose tag is no longer desired is
/// detached, no tag is detached twice, and no detached tag is in the new map.
pub proof fn lemma_stale_detached_once<H>(
    desired: Seq<TagView>,
    previous: Seq<(TagView, Option<H>)>,
    applied: Seq<(TagView, Option<H>)>,
    detached: Seq<(TagView, Option<H>)>,
    out: Seq<(TagView, Option<H>)>,
)
    requires
        ascending(keys_of(previous)),
        reconciled(desired, previous, applied, detached, out),
    ensures
        forall|e: (TagView, Option<H>)| #[trigger] previous.contains(e) && !desired.contains(e.0)
            ==> detached.contains(e) && !keys_of(out).contains(e.0),
        forall|a: int, b: int| 0 <= a < b < detached.len() ==> detached[a].0 != detached[b].0,
        forall|k: int| 0 <= k < detached.len() ==> !keys_of(out).contains(#[trigger] detached[k].0),
{
    lemma_tag_lt();
    assert forall|e: (TagView, Option<H>)| #[trigger] previous.contains(e) && !desired.contains(e.0)
        implies detached.contains(e) && !keys_of(out).contains(e.0) by {
        let a = choose|a: int| 0 <= a < previous.len() && #[trigger] previous[a] == e;
        previous.lemma_filter_contains(stale::<H>(desired), a);
    }
    lemma_filter_ascending(previous, stale::<H>(desired));
    assert forall|a: int, b: int| 0 <= a < b < detached.len() implies detached[a].0 != detached[b].0 by {
        assert(keys_of(detached)[a] == detached[a].0);
        assert(keys_of(detached)[b] == detached[b].0);
        assert(tag_lt(keys_of(detached)[a], keys_of(detached)[b]));
    }
    assert forall|k: int| 0 <= k < detached.len() implies !keys_of(out).contains(#[trigger] detached[k].0) by {
        previous.lemma_filter_pred(stale::<H>(desired), k);
    }
}

/// No duplicate apply: a tag that was applied before and is still desired is
/// not applied again, and its entry, handle included, is carried over.
pub proof fn lemma_kept_not_reapplied<H>(
    desired: Seq<TagView>,
    previous: Seq<(TagView, Option<H>)>,
    applied: Seq<(TagView, Option<H>)>,
    detached: Seq<(TagView, Option<H>)>,
    out: Seq<(TagView, Option<H>)>,
    e: (TagView, Option<H>),
)
    requires
        ascending(keys_of(previous)),
        reconciled(desired, previous, applied, detached, out),
        previous.contains(e),
        desired.contains(e.0),
    ensures
        !keys_of(applied).contains(e.0),
        out.contains(e),
        !detached.contains(e),
{
    let b = choose|b: int| 0 <= b < previous.len() && #[trigger] previous[b] == e;
    assert(keys_of(previous)[b] == e.0);
    if keys_of(applied).contains(e.0) {
        let i = choose|i: int| 0 <= i < keys_of(applied).len() && #[trigger] keys_of(applied)[i] == e.0;
        desired.lemma_filter_pred(fresh(previous), i);
    }
    let k = choose|k: int| 0 <= k < desired.len() && #[trigger] desired[k] == e.0;
    assert(keys_of(out)[k] == out[k].0);
    assert(handle_kept(previous, applied, out[k]));
    let a = choose|a: int| 0 <= a < previous.len() && #[trigger] previous[a] == out[k];
    lemma_entry_by_tag(previous, a, b);
    if detached.contains(e) {
        let i = choose|i: int| 0 <= i < detached.len() && #[trigger] detached[i] == e;
        previous.lemma_filter_pred(stale::<H>(desired), i);
    }
}

/// Two ascending sequences with the same tags are the same sequence.
pub proof fn lemma_ascending_unique(a: Seq<TagView>, b: Seq<TagView>)
    requires
        ascending(a),
        ascending(b),
        forall|t: TagView| a.contains(t) <==> b.contains(t),
    ensures
        a == b,
    decreases a.len(),
{
    lemma_tag_lt();
    if a.len() == 0 {
        if b.len() > 0 {
            assert(b.contains(b[0]));
        }
        assert(a =~= b);
    } else if b.len() == 0 {
        assert(a.contains(a[0]));
    } else {
        assert(a.contains(a[0]));
        assert(b.contains(b[0]));
        let x = choose|x: int| 0 <= x < b.len() && #[trigger] b[x] == a[0];
        let y = choose|y: int| 0 <= y < a.len() && #[trigger] a[y] == b[0];
        if x > 0 {
            assert(tag_lt(b[0], b[x]));
            if y > 0 {
                assert(tag_lt(a[0], a[y]));
            }
        }
        assert(a[0] == b[0]);
        let a1 = a.drop_first();
        let b1 = b.drop_first();
        assert forall|t: TagView| a1.contains(t) <==> b1.contains(t) by {
            if a1.contains(t) {
                let i = choose|i: int| 0 <= i < a1.len() && #[trigger] a1[i] == t;
                assert(tag_lt(a[0], a[i + 1]));
                assert(a.contains(t));
                let j = choose|j: int| 0 <= j < b.len() && #[trigger] b[j] == t;
                assert(j != 0);
                assert(b1[j - 1] == t);
            }
            if b1.contains(t) {
                let i = choose|i: int| 0 <= i < b1.len() && #[trigger] b1[i] == t;
                assert(tag_lt(b[0], b[i + 1]));
                assert(b.contains(t));
                let j = choose|j: int| 0 <= j < a.len() && #[trigger] a[j] == t;
                assert(j != 0);
                assert(a1[j - 1] == t);
            }
        }
        assert forall|i: int, j: int| 0 <= i < j < a1.len() implies tag_lt(#[trigger] a1[i], #[trigger] a1[j]) by {
            assert(tag_lt(a[i + 1], a[j + 1]));
        }
        assert forall|i: int, j: int| 0 <= i < j < b1.len() implies tag_lt(#[trigger] b1[i], #[trigger] b1[j]) by {
            assert(tag_lt(b[i + 1], b[j + 1]));
        }
        lemma_ascending_unique(a1, b1);
        assert(a =~= seq![a[0]] + a1);
        assert(b =~= seq![b[0]] + b1);
    }
}

/// Keeping some tags of an ascending sequence keeps it ascending.
proof fn lemma_filter_ascending_tags(s: Seq<TagView>, f: spec_fn(TagView) -> bool)
    requires
        ascending(s),
    ensures
        ascending(s.filter(f)),
    decreases s.len(),
{
    reveal(Seq::filter);
    lemma_tag_lt();
    if s.len() > 0 {
        let t = s.drop_last();
        lemma_filter_ascending_tags(t, f);
        lemma_filter_within(t, f);
        let r = s.filter(f);
        let q = t.filter(f);
        assert forall|a: int, b: int| 0 <= a < b < r.len() implies tag_lt(#[trigger] r[a], #[trigger] r[b]) by {
            if b < q.len() {
                assert(r[a] == q[a]);
                assert(r[b] == q[b]);
            } else {
                let x = q[a];
                assert(t.contains(x));
                let c = choose|c: int| 0 <= c < t.len() && #[trigger] t[c] == x;
                assert(tag_lt(s[c], s[s.len() - 1]));
            }
        }
    }
}

/// Handles are conserved: each previous entry is either carried into the new
/// map or detached, never both; each applied tag's entry is in the new map;
/// and the new map holds nothing else. Over a run of cycles ending in
/// teardown, every handle applied and not yet detached is therefore detached
/// exactly once.
pub proof fn lemma_handles_conserved<H>(
    desired: Seq<TagView>,
    previous: Seq<(TagView, Option<H>)>,
    applied: Seq<(TagView, Option<H>)>,
    detached: Seq<(TagView, Option<H>)>,
    out: Seq<(TagView, Option<H>)>,
)
    requires
        ascending(desired),
        ascending(keys_of(previous)),
        reconciled(desired, previous, applied, detached, out),
    ensures
        forall|e: (TagView, Option<H>)| #[trigger] previous.contains(e) ==> detached.contains(e) != out.contains(e),
        forall|e: (TagView, Option<H>)| #[trigger] applied.contains(e) ==> out.contains(e),
        forall|e: (TagView, Option<H>)| #[trigger] out.contains(e) ==> previous.contains(e) || applied.contains(e),
{
    lemma_tag_lt();
    lemma_stale_detached_once(desired, previous, applied, detached, out);
    assert forall|e: (TagView, Option<H>)| #[trigger] previous.contains(e) implies detached.contains(e) != out.contains(e) by {
        if desired.contains(e.0) {
            lemma_kept_not_reapplied(desired, previous, applied, detached, out, e);
        } else {
            if out.contains(e) {
                let k = choose|k: int| 0 <= k < out.len() && #[trigger] out[k] == e;
                assert(keys_of(out)[k] == e.0);
            }
        }
    }
    lemma_filter_ascending_tags(desired, fresh(previous));
    lemma_filter_within(desired, fresh(previous));
    assert forall|e: (TagView, Option<H>)| #[trigger] applied.contains(e) implies out.contains(e) by {
        let i = choose|i: int| 0 <= i < applied.len() && #[trigger] applied[i] == e;
        let ka = keys_of(applied);
        assert(ka[i] == e.0);
        desired.lemma_filter_pred(fresh(previous), i);
        assert(desired.contains(ka[i]));
        let k = choose|k: int| 0 <= k < desired.len() && #[trigger] desired[k] == e.0;
        assert(keys_of(out)[k] == out[k].0);
        assert(handle_kept(previous, applied, out[k]));
        let i2 = choose|i2: int| 0 <= i2 < applied.len() && #[trigger] applied[i2] == out[k];
        assert(ka[i2] == e.0);
        if i < i2 {
            assert(tag_lt(ka[i], ka[i2]));
        } else if i2 < i {
            assert(tag_lt(ka[i2], ka[i]));
        }
        assert(out[k] == e);
    }
    assert forall|e: (TagView, Option<H>)| #[trigger] out.contains(e) implies previous.contains(e) || applied.contains(e) by {
        let k = choose|k: int| 0 <= k < out.len() && #[trigger] out[k] == e;
        assert(handle_kept(previous, applied, out[k]));
    }
}

/// Ordering invariance: two desired sets that hold the same tags, however
/// they were built, are the same sequence of tags.
pub proof fn lemma_desired_order_invariant(x: DesiredSet, y: DesiredSet)
    requires
        x.wf(),
        y.wf(),
        forall|t: TagView| x@.contains(t) <==> y@.contains(t),
    ensures
        x@ == y@,
{
    lemma_ascending_unique(x@, y@);
}

/// Teardown: reconciling against an empty desired set detaches every entry of
/// the map, applies nothing, and leaves the map empty.
pub proof fn lemma_teardown_drains<H>(
    previous: Seq<(TagView, Option<H>)>,
    applied: Seq<(TagView, Option<H>)>,
    detached: Seq<(TagView, Option<H>)>,
    out: Seq<(TagView, Option<H>)>,
)
    requires
        reconciled(Seq::<TagView>::empty(), previous, applied, detached, out),
    ensures
        detached == previous,
        applied.len() == 0,
        out.len() == 0,
{
    let d = Seq::<TagView>::empty();
    assert forall|k: int| 0 <= k < previous.len() implies #[trigger] stale::<H>(d)(previous[k]) by {}
    lemma_filter_all(previous, stale::<H>(d));
    lemma_filter_none(d, fresh(previous));
    assert(keys_of(applied).len() == 0);
    assert(keys_of(out).len() == 0);
}

} // verus!
