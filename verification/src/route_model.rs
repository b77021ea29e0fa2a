//! The mathematical model of the routing trie: which subscription patterns
//! have a node, which subscribers stand at each pattern's node, and which
//! subscribers a published topic reaches.

use vstd::prelude::*;
use crate::router::{RouteNode, SubView, Subscriber};
use crate::segment::{SegView, pattern_matches_topic, seg_matches};

verus! {

pub open spec fn subs_view(subs: Seq<Subscriber>) -> Seq<SubView> {
    subs.map_values(|s: Subscriber| s@)
}

/// Some subscriber with this identity is in the list.
pub open spec fn contains_id(subs: Seq<SubView>, id: Seq<char>) -> bool {
    exists|k: int| 0 <= k < subs.len() && subs[k].subscriber_id == id
}

/// No two subscribers in the list share an identity.
pub open spec fn unique_ids(subs: Seq<SubView>) -> bool {
    forall|k1: int, k2: int|
        0 <= k1 < k2 < subs.len() ==> subs[k1].subscriber_id != subs[k2].subscriber_id
}

/// How many subscribers in the list carry this identity.
pub open spec fn count_id(subs: Seq<SubView>, id: Seq<char>) -> int
    decreases subs.len(),
{
    if subs.len() == 0 {
        0
    } else {
        (if subs.last().subscriber_id == id {
            1int
        } else {
            0int
        }) + count_id(subs.drop_last(), id)
    }
}

/// Registering a subscriber at a node: appended unless the identity is
/// already present.
pub open spec fn add_sub(subs: Seq<SubView>, v: SubView) -> Seq<SubView> {
    if contains_id(subs, v.subscriber_id) {
        subs
    } else {
        subs.push(v)
    }
}

/// Removing an identity from a node, keeping the order of the rest.
pub open spec fn remove_id(subs: Seq<SubView>, id: Seq<char>) -> Seq<SubView>
    decreases subs.len(),
{
    if subs.len() == 0 {
        subs
    } else if subs.last().subscriber_id == id {
        remove_id(subs.drop_last(), id)
    } else {
        remove_id(subs.drop_last(), id).push(subs.last())
    }
}

/// Some sibling carries this segment.
pub open spec fn has_seg(nodes: Seq<RouteNode>, g: SegView) -> bool {
    exists|i: int| 0 <= i < nodes.len() && nodes[i].segment@ == g
}

/// The index of the sibling carrying this segment; meaningful under
/// `distinct_segs` and `has_seg`.
pub open spec fn seg_index(nodes: Seq<RouteNode>, g: SegView) -> int {
    choose|i: int| 0 <= i < nodes.len() && nodes[i].segment@ == g
}

/// No two siblings carry the same segment.
pub open spec fn distinct_segs(nodes: Seq<RouteNode>) -> bool {
    forall|i: int, j: int| 0 <= i < j < nodes.len() ==> nodes[i].segment@ != nodes[j].segment@
}

/// Well-formedness of a whole forest: distinct sibling segments and unique
/// subscriber identities, at every level.
pub open spec fn wf_nodes(nodes: Seq<RouteNode>) -> bool
    decreases nodes,
{
    &&& distinct_segs(nodes)
    &&& forall|i: int|
        0 <= i < nodes.len() ==> unique_ids(subs_view((#[trigger] nodes[i]).subscribers@))
    &&& forall|i: int| 0 <= i < nodes.len() ==> wf_nodes((#[trigger] nodes[i]).children@)
}

/// The trie holds a node for this exact pattern.
pub open spec fn has_route(nodes: Seq<RouteNode>, p: Seq<SegView>) -> bool
    decreases p.len(),
{
    &&& p.len() > 0
    &&& has_seg(nodes, p[0])
    &&& (p.len() == 1 || has_route(nodes[seg_index(nodes, p[0])].children@, p.skip(1)))
}

/// The subscribers registered at this exact pattern's node; empty where the
/// trie holds no such node.
pub open spec fn subs_at(nodes: Seq<RouteNode>, p: Seq<SegView>) -> Seq<SubView>
    decreases p.len(),
{
    if p.len() == 0 || !has_seg(nodes, p[0]) {
        Seq::empty()
    } else if p.len() == 1 {
        subs_view(nodes[seg_index(nodes, p[0])].subscribers@)
    } else {
        subs_at(nodes[seg_index(nodes, p[0])].children@, p.skip(1))
    }
}

/// The topic reaches this subscriber through some registered pattern.
pub open spec fn matched_sub(nodes: Seq<RouteNode>, t: Seq<Seq<char>>, v: SubView) -> bool {
    exists|p: Seq<SegView>| #[trigger] pattern_matches_topic(p, t) && subs_at(nodes, p).contains(v)
}

/// The topic reaches some subscriber with this identity.
pub open spec fn matched_id(nodes: Seq<RouteNode>, t: Seq<Seq<char>>, id: Seq<char>) -> bool {
    exists|p: Seq<SegView>| #[trigger] pattern_matches_topic(p, t) && contains_id(
        subs_at(nodes, p),
        id,
    )
}

/// The structural mirror of the publish-time traversal: a node accepts the
/// head token; `>` collects its own subscribers at once, other segments
/// collect their own subscribers at the final token and otherwise hand the
/// remaining tokens to their children.
pub open spec fn node_collects(n: RouteNode, t: Seq<Seq<char>>, v: SubView) -> bool
    decreases t.len(),
{
    &&& t.len() > 0
    &&& match n.segment@ {
        SegView::Greater => subs_view(n.subscribers@).contains(v),
        _ => seg_matches(n.segment@, t[0]) && (if t.len() == 1 {
            subs_view(n.subscribers@).contains(v)
        } else {
            exists|j: int|
                0 <= j < n.children@.len() && node_collects(
                    (#[trigger] n.children@[j]),
                    t.skip(1),
                    v,
                )
        }),
    }
}

pub open spec fn nodes_collect(nodes: Seq<RouteNode>, t: Seq<Seq<char>>, v: SubView) -> bool {
    exists|j: int| 0 <= j < nodes.len() && node_collects((#[trigger] nodes[j]), t, v)
}

pub open spec fn collects_id(nodes: Seq<RouteNode>, t: Seq<Seq<char>>, id: Seq<char>) -> bool {
    exists|v: SubView| #[trigger] nodes_collect(nodes, t, v) && v.subscriber_id == id
}

/// `q` is a non-empty prefix of `p`.
pub open spec fn is_nonempty_prefix(q: Seq<SegView>, p: Seq<SegView>) -> bool {
    1 <= q.len() <= p.len() && q == p.take(q.len() as int)
}

pub proof fn lemma_seg_index_of(nodes: Seq<RouteNode>, i: int)
    requires
        distinct_segs(nodes),
        0 <= i < nodes.len(),
    ensures
        has_seg(nodes, nodes[i].segment@),
        seg_index(nodes, nodes[i].segment@) == i,
{
    assert(has_seg(nodes, nodes[i].segment@));
    let j = seg_index(nodes, nodes[i].segment@);
    assert(0 <= j < nodes.len() && nodes[j].segment@ == nodes[i].segment@);
}

/// Replacing one sibling by a node with the same segment leaves every route
/// that starts with a different segment untouched.
pub proof fn lemma_update_frame(nodes: Seq<RouteNode>, j: int, n2: RouteNode, q: Seq<SegView>)
    requires
        distinct_segs(nodes),
        0 <= j < nodes.len(),
        n2.segment@ == nodes[j].segment@,
        q.len() == 0 || q[0] != nodes[j].segment@,
    ensures
        subs_at(nodes.update(j, n2), q) == subs_at(nodes, q),
        has_route(nodes.update(j, n2), q) == has_route(nodes, q),
{
    let nodes2 = nodes.update(j, n2);
    assert(forall|i: int| 0 <= i < nodes.len() ==> (#[trigger] nodes2[i]).segment@
        == nodes[i].segment@);
    if q.len() == 0 {
        assert(subs_at(nodes2, q) == subs_at(nodes, q));
        assert(!has_route(nodes2, q) && !has_route(nodes, q));
    } else {
        if has_seg(nodes, q[0]) {
            let i1 = seg_index(nodes, q[0]);
            assert(0 <= i1 < nodes.len() && nodes[i1].segment@ == q[0]);
            assert(nodes2[i1].segment@ == q[0]);
            assert(has_seg(nodes2, q[0]));
        }
        if has_seg(nodes2, q[0]) {
            let i2 = seg_index(nodes2, q[0]);
            assert(0 <= i2 < nodes2.len() && nodes2[i2].segment@ == q[0]);
            assert(nodes[i2].segment@ == q[0]);
            assert(has_seg(nodes, q[0]));
        }
        if !has_seg(nodes, q[0]) {
            assert(subs_at(nodes2, q) == subs_at(nodes, q));
            assert(!has_route(nodes2, q) && !has_route(nodes, q));
        } else {
            let i1 = seg_index(nodes, q[0]);
            let i2 = seg_index(nodes2, q[0]);
            assert(0 <= i1 < nodes.len() && nodes[i1].segment@ == q[0]);
            assert(0 <= i2 < nodes2.len() && nodes2[i2].segment@ == q[0]);
            assert(nodes[i2].segment@ == q[0]);
            assert(i1 == i2);
            assert(i1 != j);
            assert(nodes2[i1] == nodes[i1]);
            assert(subs_at(nodes2, q) == subs_at(nodes, q));
            assert(has_route(nodes2, q) == has_route(nodes, q));
        }
    }
}

/// Replacing one sibling by a node with the same segment: how routes that
/// start with that segment read, before and after.
pub proof fn lemma_update_descend(nodes: Seq<RouteNode>, j: int, n2: RouteNode, q: Seq<SegView>)
    requires
        distinct_segs(nodes),
        0 <= j < nodes.len(),
        n2.segment@ == nodes[j].segment@,
        q.len() > 0,
        q[0] == nodes[j].segment@,
    ensures
        subs_at(nodes.update(j, n2), q) == (if q.len() == 1 {
            subs_view(n2.subscribers@)
        } else {
            subs_at(n2.children@, q.skip(1))
        }),
        subs_at(nodes, q) == (if q.len() == 1 {
            subs_view(nodes[j].subscribers@)
        } else {
            subs_at(nodes[j].children@, q.skip(1))
        }),
        has_route(nodes.update(j, n2), q) == (q.len() == 1 || has_route(
            n2.children@,
            q.skip(1),
        )),
        has_route(nodes, q) == (q.len() == 1 || has_route(nodes[j].children@, q.skip(1))),
{
    let nodes2 = nodes.update(j, n2);
    assert(forall|i: int| 0 <= i < nodes.len() ==> (#[trigger] nodes2[i]).segment@
        == nodes[i].segment@);
    assert(distinct_segs(nodes2));
    lemma_seg_index_of(nodes, j);
    lemma_seg_index_of(nodes2, j);
    assert(nodes2[j] == n2);
}

/// Appending a sibling with a fresh segment leaves every route that starts
/// with a different segment untouched.
pub proof fn lemma_push_frame(nodes: Seq<RouteNode>, n: RouteNode, q: Seq<SegView>)
    requires
        distinct_segs(nodes),
        !has_seg(nodes, n.segment@),
        q.len() == 0 || q[0] != n.segment@,
    ensures
        subs_at(nodes.push(n), q) == subs_at(nodes, q),
        has_route(nodes.push(n), q) == has_route(nodes, q),
{
    let nodes2 = nodes.push(n);
    assert(forall|i: int| 0 <= i < nodes.len() ==> nodes2[i] == nodes[i]);
    if q.len() == 0 {
        assert(subs_at(nodes2, q) == subs_at(nodes, q));
        assert(!has_route(nodes2, q) && !has_route(nodes, q));
    } else {
        if has_seg(nodes, q[0]) {
            let i1 = seg_index(nodes, q[0]);
            assert(0 <= i1 < nodes.len() && nodes[i1].segment@ == q[0]);
            assert(nodes2[i1].segment@ == q[0]);
            assert(has_seg(nodes2, q[0]));
        }
        if has_seg(nodes2, q[0]) {
            let i2 = seg_index(nodes2, q[0]);
            assert(0 <= i2 < nodes2.len() && nodes2[i2].segment@ == q[0]);
            assert(i2 < nodes.len());
            assert(has_seg(nodes, q[0]));
        }
        if !has_seg(nodes, q[0]) {
            assert(subs_at(nodes2, q) == subs_at(nodes, q));
            assert(!has_route(nodes2, q) && !has_route(nodes, q));
        } else {
            let i1 = seg_index(nodes, q[0]);
            let i2 = seg_index(nodes2, q[0]);
            assert(0 <= i1 < nodes.len() && nodes[i1].segment@ == q[0]);
            assert(0 <= i2 < nodes2.len() && nodes2[i2].segment@ == q[0]);
            assert(i2 < nodes.len());
            assert(i1 == i2);
            assert(nodes2[i1] == nodes[i1]);
            assert(subs_at(nodes2, q) == subs_at(nodes, q));
            assert(has_route(nodes2, q) == has_route(nodes, q));
        }
    }
}

/// Appending a sibling with a fresh segment: routes that start with that
/// segment read from the new node, and read as absent before.
pub proof fn lemma_push_descend(nodes: Seq<RouteNode>, n: RouteNode, q: Seq<SegView>)
    requires
        distinct_segs(nodes),
        !has_seg(nodes, n.segment@),
        q.len() > 0,
        q[0] == n.segment@,
    ensures
        subs_at(nodes.push(n), q) == (if q.len() == 1 {
            subs_view(n.subscribers@)
        } else {
            subs_at(n.children@, q.skip(1))
        }),
        has_route(nodes.push(n), q) == (q.len() == 1 || has_route(n.children@, q.skip(1))),
        subs_at(nodes, q) == Seq::<SubView>::empty(),
        !has_route(nodes, q),
{
    let nodes2 = nodes.push(n);
    let m = nodes.len() as int;
    assert(nodes2[m] == n);
    assert(has_seg(nodes2, q[0]));
    let i2 = seg_index(nodes2, q[0]);
    assert(0 <= i2 < nodes2.len() && nodes2[i2].segment@ == q[0]);
    assert(i2 == m) by {
        if i2 < m {
            assert(nodes[i2].segment@ == q[0]);
            assert(has_seg(nodes, n.segment@));
        }
    }
}

/// Membership of an identity steps through the last element.
pub proof fn lemma_contains_id_last(s: Seq<SubView>, id: Seq<char>)
    requires
        s.len() > 0,
    ensures
        contains_id(s, id) == (contains_id(s.drop_last(), id) || s.last().subscriber_id == id),
{
    if contains_id(s, id) {
        let k = choose|k: int| 0 <= k < s.len() && s[k].subscriber_id == id;
        if k < s.len() - 1 {
            assert(s.drop_last()[k] == s[k]);
            assert(contains_id(s.drop_last(), id));
        }
    }
    if contains_id(s.drop_last(), id) {
        let k = choose|k: int| 0 <= k < s.drop_last().len() && s.drop_last()[k].subscriber_id
            == id;
        assert(s[k].subscriber_id == id);
    }
    if s.last().subscriber_id == id {
        assert(s[s.len() - 1].subscriber_id == id);
    }
}

/// Removing an identity removes exactly that identity, keeps every other,
/// and preserves uniqueness.
pub proof fn lemma_remove_id_props(s: Seq<SubView>, id: Seq<char>)
    ensures
        !contains_id(remove_id(s, id), id),
        forall|id2: Seq<char>|
            id2 != id ==> (contains_id(#[trigger] remove_id(s, id), id2) <==> contains_id(
                s,
                id2,
            )),
        unique_ids(s) ==> unique_ids(remove_id(s, id)),
    decreases s.len(),
{
    if s.len() == 0 {
        assert(!contains_id(remove_id(s, id), id));
    } else {
        let r0 = remove_id(s.drop_last(), id);
        lemma_remove_id_props(s.drop_last(), id);
        assert(unique_ids(s) ==> unique_ids(s.drop_last()));
        lemma_contains_id_last(s, id);
        if s.last().subscriber_id == id {
            assert(remove_id(s, id) == r0);
            assert forall|id2: Seq<char>| id2 != id implies (contains_id(
                #[trigger] remove_id(s, id),
                id2,
            ) <==> contains_id(s, id2)) by {
                lemma_contains_id_last(s, id2);
            }
        } else {
            let r = r0.push(s.last());
            assert(remove_id(s, id) == r);
            assert forall|id2: Seq<char>| contains_id(r, id2) == (contains_id(r0, id2)
                || s.last().subscriber_id == id2) by {
                assert(r.drop_last() =~= r0);
                assert(r.last() == s.last());
                lemma_contains_id_last(r, id2);
            }
            assert(!contains_id(r, id));
            assert forall|id2: Seq<char>| id2 != id implies (contains_id(
                #[trigger] remove_id(s, id),
                id2,
            ) <==> contains_id(s, id2)) by {
                lemma_contains_id_last(s, id2);
            }
            if unique_ids(s) {
                assert(!contains_id(s.drop_last(), s.last().subscriber_id)) by {
                    if contains_id(s.drop_last(), s.last().subscriber_id) {
                        let k = choose|k: int|
                            0 <= k < s.drop_last().len() && s.drop_last()[k].subscriber_id
                                == s.last().subscriber_id;
                        assert(s[k].subscriber_id == s[s.len() - 1].subscriber_id);
                    }
                }
                assert(!contains_id(r0, s.last().subscriber_id));
                assert(unique_ids(r)) by {
                    assert(unique_ids(r0));
                    assert forall|k1: int, k2: int| 0 <= k1 < k2 < r.len() implies r[k1].subscriber_id
                        != r[k2].subscriber_id by {
                        if k2 == r.len() - 1 {
                            assert(r[k1] == r0[k1]);
                            if r0[k1].subscriber_id == s.last().subscriber_id {
                                assert(contains_id(r0, s.last().subscriber_id));
                            }
                        }
                    }
                }
            }
        }
    }
}

/// How routes read in a forest of a single node.
pub proof fn lemma_singleton_at(n: RouteNode, q: Seq<SegView>)
    requires
        q.len() > 0,
        q[0] == n.segment@,
    ensures
        subs_at(seq![n], q) == (if q.len() == 1 {
            subs_view(n.subscribers@)
        } else {
            subs_at(n.children@, q.skip(1))
        }),
        has_route(seq![n], q) == (q.len() == 1 || has_route(n.children@, q.skip(1))),
{
    let nodes = seq![n];
    assert(nodes[0] == n);
    assert(has_seg(nodes, q[0]));
    let i = seg_index(nodes, q[0]);
    assert(0 <= i < 1 && nodes[i].segment@ == q[0]);
}

/// A forest of a single node answers for no other segment.
pub proof fn lemma_singleton_off(n: RouteNode, q: Seq<SegView>)
    requires
        q.len() == 0 || q[0] != n.segment@,
    ensures
        subs_at(seq![n], q) == Seq::<SubView>::empty(),
        !has_route(seq![n], q),
{
    if q.len() > 0 {
        assert(!has_seg(seq![n], q[0])) by {
            if has_seg(seq![n], q[0]) {
                let i = choose|i: int| 0 <= i < seq![n].len() && seq![n][i].segment@ == q[0];
                assert(seq![n][i] == n);
            }
        }
    }
}

/// Being a non-empty prefix steps through equal heads.
pub proof fn lemma_prefix_decompose(q: Seq<SegView>, p: Seq<SegView>)
    requires
        q.len() >= 2,
        p.len() >= 1,
        q[0] == p[0],
    ensures
        is_nonempty_prefix(q, p) <==> is_nonempty_prefix(q.skip(1), p.skip(1)),
{
    if is_nonempty_prefix(q, p) {
        assert(q.skip(1) =~= p.skip(1).take(q.len() - 1));
    }
    if is_nonempty_prefix(q.skip(1), p.skip(1)) {
        assert(q.len() <= p.len());
        assert forall|k: int| 0 <= k < q.len() implies q[k] == p.take(q.len() as int)[k] by {
            if k > 0 {
                assert(q[k] == q.skip(1)[k - 1]);
                assert(q.skip(1)[k - 1] == p.skip(1).take(q.len() - 1)[k - 1]);
                assert(p.skip(1).take(q.len() - 1)[k - 1] == p.skip(1)[k - 1]);
                assert(p.skip(1)[k - 1] == p[k]);
            }
        }
        assert(q =~= p.take(q.len() as int));
    }
}

/// Heads and tails determine sequence equality.
pub proof fn lemma_head_tail_eq(q: Seq<SegView>, p: Seq<SegView>)
    requires
        q.len() >= 1,
        p.len() >= 1,
        q[0] == p[0],
    ensures
        (q == p) <==> (q.skip(1) == p.skip(1)),
{
    if q.skip(1) == p.skip(1) {
        assert(q.skip(1).len() == q.len() - 1);
        assert(p.skip(1).len() == p.len() - 1);
        assert(q.len() == p.len());
        assert forall|k: int| 0 <= k < q.len() implies q[k] == p[k] by {
            if k > 0 {
                assert(q[k] == q.skip(1)[k - 1]);
                assert(p[k] == p.skip(1)[k - 1]);
            }
        }
        assert(q =~= p);
    }
    if q == p {
        assert(q.skip(1) =~= p.skip(1));
    }
}

/// The publish-time traversal collects exactly the subscribers that some
/// registered pattern matching the topic carries.
pub proof fn lemma_collect_iff_matched(nodes: Seq<RouteNode>, t: Seq<Seq<char>>, v: SubView)
    requires
        wf_nodes(nodes),
        t.len() > 0,
    ensures
        nodes_collect(nodes, t, v) <==> matched_sub(nodes, t, v),
    decreases t.len(),
{
    if nodes_collect(nodes, t, v) {
        let j = choose|j: int| 0 <= j < nodes.len() && node_collects((#[trigger] nodes[j]), t, v);
        let n = nodes[j];
        lemma_seg_index_of(nodes, j);
        match n.segment@ {
            SegView::Greater => {
                let p = seq![SegView::Greater];
                assert(pattern_matches_topic(p, t));
                assert(subs_at(nodes, p) == subs_view(n.subscribers@));
                assert(subs_at(nodes, p).contains(v));
                assert(matched_sub(nodes, t, v));
            },
            _ => {
                if t.len() == 1 {
                    let p = seq![n.segment@];
                    assert(p.skip(1) =~= Seq::<SegView>::empty());
                    assert(t.skip(1) =~= Seq::<Seq<char>>::empty());
                    assert(pattern_matches_topic(p.skip(1), t.skip(1)));
                    assert(pattern_matches_topic(p, t));
                    assert(subs_at(nodes, p) == subs_view(n.subscribers@));
                    assert(matched_sub(nodes, t, v));
                } else {
                    assert(wf_nodes(n.children@));
                    assert(nodes_collect(n.children@, t.skip(1), v)) by {
                        let jc = choose|jc: int|
                            0 <= jc < n.children@.len() && node_collects(
                                (#[trigger] n.children@[jc]),
                                t.skip(1),
                                v,
                            );
                        assert(0 <= jc < n.children@.len() && node_collects(
                            n.children@[jc],
                            t.skip(1),
                            v,
                        ));
                    }
                    lemma_collect_iff_matched(n.children@, t.skip(1), v);
                    let p1 = choose|p1: Seq<SegView>|
                        #[trigger] pattern_matches_topic(p1, t.skip(1)) && subs_at(
                            n.children@,
                            p1,
                        ).contains(v);
                    let p = seq![n.segment@] + p1;
                    assert(p[0] == n.segment@);
                    assert(p.skip(1) =~= p1);
                    assert(p1.len() > 0);
                    assert(pattern_matches_topic(p, t));
                    assert(subs_at(nodes, p) == subs_at(n.children@, p1));
                    assert(subs_at(nodes, p).contains(v));
                    assert(matched_sub(nodes, t, v));
                }
            },
        }
    }
    if matched_sub(nodes, t, v) {
        let p = choose|p: Seq<SegView>|
            #[trigger] pattern_matches_topic(p, t) && subs_at(nodes, p).contains(v);
        assert(p.len() > 0);
        assert(has_seg(nodes, p[0])) by {
            if !has_seg(nodes, p[0]) {
                assert(subs_at(nodes, p) =~= Seq::<SubView>::empty());
            }
        }
        let j = seg_index(nodes, p[0]);
        assert(0 <= j < nodes.len() && nodes[j].segment@ == p[0]);
        let n = nodes[j];
        match p[0] {
            SegView::Greater => {
                assert(p.len() == 1);
                assert(subs_view(n.subscribers@).contains(v));
                assert(node_collects(n, t, v));
                assert(nodes_collect(nodes, t, v));
            },
            _ => {
                assert(seg_matches(p[0], t[0]));
                if p.len() == 1 {
                    assert(pattern_matches_topic(p.skip(1), t.skip(1)));
                    assert(t.skip(1).len() == 0);
                    assert(t.len() == 1);
                    assert(subs_view(n.subscribers@).contains(v));
                    assert(node_collects(n, t, v));
                    assert(nodes_collect(nodes, t, v));
                } else {
                    assert(pattern_matches_topic(p.skip(1), t.skip(1)));
                    assert(t.skip(1).len() >= 1) by {
                        if t.skip(1).len() == 0 {
                            assert(p.skip(1).len() > 0);
                            assert(!pattern_matches_topic(p.skip(1), t.skip(1)));
                        }
                    }
                    assert(t.len() > 1);
                    assert(subs_at(n.children@, p.skip(1)).contains(v));
                    assert(wf_nodes(n.children@));
                    lemma_collect_iff_matched(n.children@, t.skip(1), v);
                    assert(matched_sub(n.children@, t.skip(1), v));
                    assert(nodes_collect(n.children@, t.skip(1), v));
                    assert(node_collects(n, t, v)) by {
                        let jc = choose|jc: int|
                            0 <= jc < n.children@.len() && node_collects(
                                (#[trigger] n.children@[jc]),
                                t.skip(1),
                                v,
                            );
                        assert(0 <= jc < n.children@.len() && node_collects(
                            n.children@[jc],
                            t.skip(1),
                            v,
                        ));
                    }
                    assert(nodes_collect(nodes, t, v));
                }
            },
        }
    }
}

/// The same statement at the level of identities.
pub proof fn lemma_collects_id_iff_matched_id(nodes: Seq<RouteNode>, t: Seq<Seq<char>>, id: Seq<
    char,
>)
    requires
        wf_nodes(nodes),
        t.len() > 0,
    ensures
        collects_id(nodes, t, id) <==> matched_id(nodes, t, id),
{
    if collects_id(nodes, t, id) {
        let v = choose|v: SubView| #[trigger] nodes_collect(nodes, t, v) && v.subscriber_id == id;
        lemma_collect_iff_matched(nodes, t, v);
        let p = choose|p: Seq<SegView>|
            #[trigger] pattern_matches_topic(p, t) && subs_at(nodes, p).contains(v);
        let k = choose|k: int| 0 <= k < subs_at(nodes, p).len() && subs_at(nodes, p)[k] == v;
        assert(contains_id(subs_at(nodes, p), id));
        assert(matched_id(nodes, t, id));
    }
    if matched_id(nodes, t, id) {
        let p = choose|p: Seq<SegView>|
            #[trigger] pattern_matches_topic(p, t) && contains_id(subs_at(nodes, p), id);
        let k = choose|k: int|
            0 <= k < subs_at(nodes, p).len() && subs_at(nodes, p)[k].subscriber_id == id;
        let v = subs_at(nodes, p)[k];
        assert(subs_at(nodes, p).contains(v));
        assert(matched_sub(nodes, t, v));
        lemma_collect_iff_matched(nodes, t, v);
        assert(nodes_collect(nodes, t, v) && v.subscriber_id == id);
        assert(collects_id(nodes, t, id));
    }
}

} // verus!
