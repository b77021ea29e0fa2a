//! The routing trie and its operations: registering subscribers under
//! wildcard patterns, removing them, and resolving a published topic to the
//! set of subscribers it reaches.

use vstd::prelude::*;
use crate::dispatch::Delivery;
use crate::segment::{
    Segment, SegView, convert_segments, seg_matches, is_greater_token, is_star_token, pattern_of, seg_of_token,
    segs_view, split_channel, split_on_dot, tokens_nonempty, tokens_view, valid_pattern,
    valid_topic,
};
use crate::route_model::{
    add_sub, collects_id, contains_id, distinct_segs, lemma_contains_id_last, has_route, has_seg, is_nonempty_prefix,
    lemma_head_tail_eq, lemma_prefix_decompose, lemma_push_descend, lemma_push_frame,
    lemma_remove_id_props, lemma_seg_index_of, lemma_singleton_at, lemma_singleton_off,
    lemma_collect_iff_matched, lemma_collects_id_iff_matched_id, lemma_update_descend,
    lemma_update_frame, matched_id, matched_sub, node_collects,
    nodes_collect, remove_id, seg_index, subs_at,
    subs_view, unique_ids, wf_nodes,
};

verus! {

/// Why a subscribe, unsubscribe or publish call was rejected.
#[derive(Debug, PartialEq, Eq, Structural)]
pub enum RouteError {
    /// An empty token, or a wildcard token in a published topic.
    InvalidTopic,
    /// A `>` anywhere but in the final position of a subscription pattern.
    InvalidPattern,
    /// A lookup-only traversal found no node for a pattern.
    RouteNotFound,
}

/// A subscriber identity together with the channel pattern it registered.
#[derive(Debug)]
pub struct Subscriber {
    pub channel_name: String,
    pub subscriber_id: String,
}

/// The mathematical value of a `Subscriber`.
pub struct SubView {
    pub channel_name: Seq<char>,
    pub subscriber_id: Seq<char>,
}

impl View for Subscriber {
    type V = SubView;

    open spec fn view(&self) -> SubView {
        SubView { channel_name: self.channel_name@, subscriber_id: self.subscriber_id@ }
    }
}

impl Subscriber {
    pub fn new(channel_name: String, subscriber_id: String) -> (s: Subscriber)
        ensures
            s@.channel_name == channel_name@,
            s@.subscriber_id == subscriber_id@,
    {
        Subscriber { channel_name, subscriber_id }
    }

    /// An explicit copy whose view is known to be preserved.
    pub fn dup(&self) -> (s: Subscriber)
        ensures
            s@ == self@,
    {
        Subscriber {
            channel_name: self.channel_name.clone(),
            subscriber_id: self.subscriber_id.clone(),
        }
    }
}

/// One level of the routing trie: the segment this node answers for, the
/// subscribers registered exactly here, and the children one level deeper.
pub struct RouteNode {
    pub segment: Segment,
    pub subscribers: Vec<Subscriber>,
    pub children: Vec<RouteNode>,
}

impl RouteNode {
    pub fn new(segment: Segment) -> (n: RouteNode)
        ensures
            n.segment@ == segment@,
            n.subscribers@.len() == 0,
            n.children@.len() == 0,
    {
        RouteNode { segment, subscribers: Vec::new(), children: Vec::new() }
    }
}

/// The virtual root of the trie: it owns the top-level children and has no
/// segment of its own.
pub struct Router {
    pub children: Vec<RouteNode>,
}

impl Router {
    pub open spec fn wf(&self) -> bool {
        wf_nodes(self.children@)
    }

    pub fn new() -> (r: Router)
        ensures
            r.wf(),
            r.children@.len() == 0,
    {
        Router { children: Vec::new() }
    }
}

/// Whether some subscriber in the list carries this identity.
fn contains_sub_id(subs: &Vec<Subscriber>, id: &String) -> (r: bool)
    ensures
        r == contains_id(subs_view(subs@), id@),
{
    let mut k: usize = 0;
    while k < subs.len()
        invariant
            k <= subs@.len(),
            forall|m: int| 0 <= m < k ==> subs_view(subs@)[m].subscriber_id != id@,
        decreases subs@.len() - k,
    {
        if subs[k].subscriber_id == *id {
            proof {
                assert(subs_view(subs@)[k as int].subscriber_id == id@);
            }
            return true;
        }
        k = k + 1;
    }
    false
}

/// The index of the sibling carrying this segment, if any.
fn find_seg(nodes: &Vec<RouteNode>, seg: &Segment) -> (r: Option<usize>)
    ensures
        match r {
            Some(j) => j < nodes@.len() && nodes@[j as int].segment@ == seg@,
            None => !has_seg(nodes@, seg@),
        },
{
    let mut j: usize = 0;
    while j < nodes.len()
        invariant
            j <= nodes@.len(),
            forall|m: int| 0 <= m < j ==> nodes@[m].segment@ != seg@,
        decreases nodes@.len() - j,
    {
        if nodes[j].segment == *seg {
            return Some(j);
        }
        j = j + 1;
    }
    None
}

/// Builds the chain of fresh nodes for the pattern's remaining segments,
/// with the subscriber registered at the final node.
fn make_chain(pattern: &Vec<Segment>, i: usize, sub: &Subscriber) -> (n: RouteNode)
    requires
        i < pattern@.len(),
    ensures
        n.segment@ == pattern@[i as int]@,
        wf_nodes(seq![n]),
        forall|q: Seq<SegView>| #[trigger] subs_at(seq![n], q) == (if q == segs_view(
            pattern@,
        ).skip(i as int) {
            seq![sub@]
        } else {
            Seq::<SubView>::empty()
        }),
        forall|q: Seq<SegView>| #[trigger] has_route(seq![n], q) <==> is_nonempty_prefix(
            q,
            segs_view(pattern@).skip(i as int),
        ),
    decreases pattern@.len() - i,
{
    let ghost rest = segs_view(pattern@).skip(i as int);
    let len = pattern.len();
    proof {
        assert(rest[0] == pattern@[i as int]@);
        assert(rest.len() == pattern@.len() - i);
    }
    if i + 1 == len {
        let mut subscribers: Vec<Subscriber> = Vec::new();
        subscribers.push(sub.dup());
        let n = RouteNode { segment: pattern[i].dup(), subscribers, children: Vec::new() };
        proof {
            assert(rest =~= seq![n.segment@]);
            assert(subs_view(n.subscribers@) =~= seq![sub@]);
            assert(distinct_segs(seq![n]));
            assert(wf_nodes(n.children@));
            assert(unique_ids(subs_view(n.subscribers@)));
            assert(wf_nodes(seq![n]));
            assert forall|q: Seq<SegView>|
                #![trigger subs_at(seq![n], q)]
                #![trigger has_route(seq![n], q)]
                subs_at(seq![n], q) == (if q == rest {
                seq![sub@]
            } else {
                Seq::<SubView>::empty()
            }) && (has_route(seq![n], q) <==> is_nonempty_prefix(q, rest)) by {
                if q.len() == 0 || q[0] != n.segment@ {
                    lemma_singleton_off(n, q);
                    assert(q != rest);
                    assert(!is_nonempty_prefix(q, rest)) by {
                        if is_nonempty_prefix(q, rest) {
                            assert(q[0] == rest.take(q.len() as int)[0]);
                        }
                    }
                } else {
                    lemma_singleton_at(n, q);
                    if q.len() == 1 {
                        assert(q =~= rest);
                        assert(is_nonempty_prefix(q, rest)) by {
                            assert(q =~= rest.take(1));
                        }
                    } else {
                        assert(q != rest);
                        assert(subs_at(n.children@, q.skip(1)) =~= Seq::<SubView>::empty());
                        assert(!has_route(n.children@, q.skip(1)));
                        assert(!is_nonempty_prefix(q, rest));
                    }
                }
            }
        }
        n
    } else {
        let child = make_chain(pattern, i + 1, sub);
        let mut children: Vec<RouteNode> = Vec::new();
        children.push(child);
        let n = RouteNode { segment: pattern[i].dup(), subscribers: Vec::new(), children };
        proof {
            let rest1 = segs_view(pattern@).skip(i + 1);
            assert(rest.skip(1) =~= rest1);
            assert(rest.len() >= 2);
            assert(n.children@ =~= seq![child]);
            assert(subs_view(n.subscribers@) =~= Seq::<SubView>::empty());
            assert(unique_ids(subs_view(n.subscribers@)));
            assert(distinct_segs(seq![n]));
            assert(wf_nodes(seq![child]));
            assert(wf_nodes(n.children@)) by {
                assert(forall|k: int| 0 <= k < seq![child].len() ==> seq![child][k] == child);
            }
            assert(wf_nodes(seq![n]));
            assert forall|q: Seq<SegView>|
                #![trigger subs_at(seq![n], q)]
                #![trigger has_route(seq![n], q)]
                subs_at(seq![n], q) == (if q == rest {
                seq![sub@]
            } else {
                Seq::<SubView>::empty()
            }) && (has_route(seq![n], q) <==> is_nonempty_prefix(q, rest)) by {
                if q.len() == 0 || q[0] != n.segment@ {
                    lemma_singleton_off(n, q);
                    assert(q != rest);
                    assert(!is_nonempty_prefix(q, rest)) by {
                        if is_nonempty_prefix(q, rest) {
                            assert(q[0] == rest.take(q.len() as int)[0]);
                        }
                    }
                } else {
                    lemma_singleton_at(n, q);
                    if q.len() == 1 {
                        assert(q != rest);
                        assert(subs_at(seq![n], q) =~= Seq::<SubView>::empty());
                        assert(has_route(seq![n], q));
                        assert(is_nonempty_prefix(q, rest)) by {
                            assert(q =~= rest.take(1));
                        }
                    } else {
                        assert(subs_at(seq![n], q) == subs_at(seq![child], q.skip(1)));
                        assert(subs_at(seq![child], q.skip(1)) == (if q.skip(1) == rest1 {
                            seq![sub@]
                        } else {
                            Seq::<SubView>::empty()
                        }));
                        lemma_head_tail_eq(q, rest);
                        assert((q == rest) == (q.skip(1) == rest1));
                        assert(has_route(seq![n], q) == has_route(seq![child], q.skip(1)));
                        assert(has_route(seq![child], q.skip(1)) == is_nonempty_prefix(
                            q.skip(1),
                            rest1,
                        ));
                        lemma_prefix_decompose(q, rest);
                    }
                }
            }
        }
        n
    }
}

/// Walks the trie along the pattern's remaining segments, creating nodes on
/// demand, and registers the subscriber at the final node unless its
/// identity is already there.
fn add_into(nodes: &mut Vec<RouteNode>, pattern: &Vec<Segment>, i: usize, sub: &Subscriber)
    requires
        wf_nodes(old(nodes)@),
        i < pattern@.len(),
    ensures
        wf_nodes(final(nodes)@),
        subs_at(final(nodes)@, segs_view(pattern@).skip(i as int)) == add_sub(
            subs_at(old(nodes)@, segs_view(pattern@).skip(i as int)),
            sub@,
        ),
        forall|q: Seq<SegView>|
            q != segs_view(pattern@).skip(i as int) ==> #[trigger] subs_at(final(nodes)@, q)
                == subs_at(old(nodes)@, q),
        forall|q: Seq<SegView>| #[trigger]
            has_route(final(nodes)@, q) <==> has_route(old(nodes)@, q) || is_nonempty_prefix(
                q,
                segs_view(pattern@).skip(i as int),
            ),
    decreases pattern@.len() - i,
{
    let ghost rest = segs_view(pattern@).skip(i as int);
    let ghost nodes0 = nodes@;
    let len = pattern.len();
    proof {
        assert(rest[0] == pattern@[i as int]@);
        assert(rest.len() == pattern@.len() - i);
    }
    let seg = &pattern[i];
    match find_seg(nodes, seg) {
        Some(j) => {
            proof {
                lemma_seg_index_of(nodes0, j as int);
            }
            if i + 1 == len {
                let already = contains_sub_id(&nodes[j].subscribers, &sub.subscriber_id);
                if !already {
                    let node = &mut nodes[j];
                    node.subscribers.push(sub.dup());
                }
                proof {
                    let n2 = nodes@[j as int];
                    assert(nodes@ =~= nodes0.update(j as int, n2));
                    assert(n2.segment@ == nodes0[j as int].segment@);
                    assert(n2.children@ == nodes0[j as int].children@);
                    if already {
                        assert(subs_view(n2.subscribers@) == subs_view(
                            nodes0[j as int].subscribers@,
                        ));
                    } else {
                        assert(subs_view(n2.subscribers@) =~= subs_view(
                            nodes0[j as int].subscribers@,
                        ).push(sub@));
                    }
                    assert(wf_nodes(nodes@)) by {
                        assert(distinct_segs(nodes@));
                        assert(unique_ids(subs_view(n2.subscribers@)));
                        assert(wf_nodes(n2.children@));
                        assert(forall|m: int|
                            0 <= m < nodes@.len() && m != j ==> nodes@[m] == nodes0[m]);
                    }
                    lemma_update_descend(nodes0, j as int, n2, rest);
                    assert(rest.len() == 1);
                    assert(subs_at(nodes@, rest) == add_sub(subs_at(nodes0, rest), sub@));
                    assert forall|q: Seq<SegView>| q != rest implies #[trigger] subs_at(nodes@, q)
                        == subs_at(nodes0, q) by {
                        if q.len() == 0 {
                            assert(subs_at(nodes@, q) == subs_at(nodes0, q));
                        } else if q[0] != rest[0] {
                            lemma_update_frame(nodes0, j as int, n2, q);
                        } else {
                            lemma_update_descend(nodes0, j as int, n2, q);
                            if q.len() == 1 {
                                assert(q =~= rest);
                            }
                        }
                    }
                    assert forall|q: Seq<SegView>| #[trigger]
                        has_route(nodes@, q) <==> has_route(nodes0, q) || is_nonempty_prefix(
                            q,
                            rest,
                        ) by {
                        if q.len() == 0 {
                            assert(!has_route(nodes@, q) && !has_route(nodes0, q));
                            assert(!is_nonempty_prefix(q, rest));
                        } else if q[0] != rest[0] {
                            lemma_update_frame(nodes0, j as int, n2, q);
                            assert(!is_nonempty_prefix(q, rest)) by {
                                if is_nonempty_prefix(q, rest) {
                                    assert(q[0] == rest.take(q.len() as int)[0]);
                                }
                            }
                        } else {
                            lemma_update_descend(nodes0, j as int, n2, q);
                            if q.len() == 1 {
                                assert(q =~= rest);
                                assert(has_route(nodes0, q));
                                assert(is_nonempty_prefix(q, rest)) by {
                                    assert(q =~= rest.take(1));
                                }
                            } else {
                                assert(!is_nonempty_prefix(q, rest));
                            }
                        }
                    }
                }
            } else {
                let node = &mut nodes[j];
                add_into(&mut node.children, pattern, i + 1, sub);
                proof {
                    let rest1 = segs_view(pattern@).skip(i + 1);
                    assert(rest.skip(1) =~= rest1);
                    assert(rest.len() >= 2);
                    let n2 = nodes@[j as int];
                    assert(nodes@ =~= nodes0.update(j as int, n2));
                    assert(n2.segment@ == nodes0[j as int].segment@);
                    assert(n2.subscribers@ == nodes0[j as int].subscribers@);
                    assert(wf_nodes(nodes@)) by {
                        assert(distinct_segs(nodes@));
                        assert(unique_ids(subs_view(n2.subscribers@)));
                        assert(wf_nodes(n2.children@));
                        assert(forall|m: int|
                            0 <= m < nodes@.len() && m != j ==> nodes@[m] == nodes0[m]);
                    }
                    lemma_update_descend(nodes0, j as int, n2, rest);
                    assert(subs_at(nodes@, rest) == subs_at(n2.children@, rest1));
                    assert(subs_at(nodes0, rest) == subs_at(nodes0[j as int].children@, rest1));
                    assert(subs_at(nodes@, rest) == add_sub(subs_at(nodes0, rest), sub@));
                    assert forall|q: Seq<SegView>| q != rest implies #[trigger] subs_at(nodes@, q)
                        == subs_at(nodes0, q) by {
                        if q.len() == 0 {
                            assert(subs_at(nodes@, q) == subs_at(nodes0, q));
                        } else if q[0] != rest[0] {
                            lemma_update_frame(nodes0, j as int, n2, q);
                        } else {
                            lemma_update_descend(nodes0, j as int, n2, q);
                            lemma_head_tail_eq(q, rest);
                            if q.len() == 1 {
                                assert(subs_at(nodes@, q) == subs_view(n2.subscribers@));
                                assert(subs_at(nodes0, q) == subs_view(
                                    nodes0[j as int].subscribers@,
                                ));
                            } else {
                                assert(q.skip(1) != rest1);
                                assert(subs_at(n2.children@, q.skip(1)) == subs_at(
                                    nodes0[j as int].children@,
                                    q.skip(1),
                                ));
                            }
                        }
                    }
                    assert forall|q: Seq<SegView>| #[trigger]
                        has_route(nodes@, q) <==> has_route(nodes0, q) || is_nonempty_prefix(
                            q,
                            rest,
                        ) by {
                        if q.len() == 0 {
                            assert(!has_route(nodes@, q) && !has_route(nodes0, q));
                            assert(!is_nonempty_prefix(q, rest));
                        } else if q[0] != rest[0] {
                            lemma_update_frame(nodes0, j as int, n2, q);
                            assert(!is_nonempty_prefix(q, rest)) by {
                                if is_nonempty_prefix(q, rest) {
                                    assert(q[0] == rest.take(q.len() as int)[0]);
                                }
                            }
                        } else {
                            lemma_update_descend(nodes0, j as int, n2, q);
                            if q.len() == 1 {
                                assert(has_route(nodes@, q) && has_route(nodes0, q));
                                assert(is_nonempty_prefix(q, rest)) by {
                                    assert(q =~= rest.take(1));
                                }
                            } else {
                                lemma_prefix_decompose(q, rest);
                                assert(has_route(nodes@, q) == has_route(
                                    n2.children@,
                                    q.skip(1),
                                ));
                                assert(has_route(nodes0, q) == has_route(
                                    nodes0[j as int].children@,
                                    q.skip(1),
                                ));
                            }
                        }
                    }
                }
            }
        },
        None => {
            let chain = make_chain(pattern, i, sub);
            proof {
                assert(chain.segment@ == rest[0]);
                assert(!has_seg(nodes0, chain.segment@));
            }
            nodes.push(chain);
            proof {
                assert(nodes@ =~= nodes0.push(chain));
                assert(wf_nodes(nodes@)) by {
                    assert(forall|m: int| 0 <= m < nodes0.len() ==> nodes@[m] == nodes0[m]);
                    assert(nodes@[nodes0.len() as int] == chain);
                    assert(wf_nodes(seq![chain]));
                    assert(seq![chain][0] == chain);
                    assert(unique_ids(subs_view(chain.subscribers@)));
                    assert(wf_nodes(chain.children@));
                    assert(distinct_segs(nodes@)) by {
                        assert forall|a: int, b: int| 0 <= a < b < nodes@.len() implies nodes@[a].segment@
                            != nodes@[b].segment@ by {
                            if b == nodes0.len() {
                                assert(nodes@[a] == nodes0[a]);
                                if nodes0[a].segment@ == chain.segment@ {
                                    assert(has_seg(nodes0, chain.segment@));
                                }
                            }
                        }
                    }
                }
                assert forall|q: Seq<SegView>|
                    #![trigger subs_at(nodes@, q)]
                    #![trigger has_route(nodes@, q)]
                    (q != rest ==> subs_at(nodes@, q) == subs_at(nodes0, q)) && (q == rest
                        ==> subs_at(nodes@, q) == add_sub(subs_at(nodes0, q), sub@)) && (has_route(
                        nodes@,
                        q,
                    ) <==> has_route(nodes0, q) || is_nonempty_prefix(q, rest)) by {
                    if q.len() == 0 {
                        assert(subs_at(nodes@, q) == subs_at(nodes0, q));
                        assert(!has_route(nodes@, q) && !has_route(nodes0, q));
                        assert(!is_nonempty_prefix(q, rest));
                    } else if q[0] != rest[0] {
                        lemma_push_frame(nodes0, chain, q);
                        assert(q != rest);
                        assert(!is_nonempty_prefix(q, rest)) by {
                            if is_nonempty_prefix(q, rest) {
                                assert(q[0] == rest.take(q.len() as int)[0]);
                            }
                        }
                    } else {
                        lemma_push_descend(nodes0, chain, q);
                        lemma_singleton_at(chain, q);
                        assert(subs_at(nodes@, q) == subs_at(seq![chain], q));
                        assert(has_route(nodes@, q) == has_route(seq![chain], q));
                        assert(subs_at(seq![chain], q) == (if q == rest {
                            seq![sub@]
                        } else {
                            Seq::<SubView>::empty()
                        }));
                        assert(has_route(seq![chain], q) <==> is_nonempty_prefix(q, rest));
                        if q == rest {
                            assert(subs_at(nodes0, q) == Seq::<SubView>::empty());
                            assert(!contains_id(subs_at(nodes0, q), sub@.subscriber_id));
                            assert(add_sub(subs_at(nodes0, q), sub@) =~= seq![sub@]);
                        }
                    }
                }
            }
        },
    }
}

/// The subscribers that stay after dropping every one with this identity,
/// keeping the order of the rest.
fn remove_sub_id(subs: &Vec<Subscriber>, id: &String) -> (out: Vec<Subscriber>)
    ensures
        subs_view(out@) == remove_id(subs_view(subs@), id@),
{
    let mut out: Vec<Subscriber> = Vec::new();
    let mut k: usize = 0;
    proof {
        assert(subs_view(subs@).take(0) =~= Seq::<SubView>::empty());
        assert(subs_view(out@) =~= Seq::<SubView>::empty());
    }
    while k < subs.len()
        invariant
            k <= subs@.len(),
            subs_view(out@) == remove_id(subs_view(subs@).take(k as int), id@),
        decreases subs@.len() - k,
    {
        let ghost sv = subs_view(subs@);
        proof {
            assert(sv.take(k + 1).drop_last() =~= sv.take(k as int));
            assert(sv.take(k + 1).last() == sv[k as int]);
            assert(sv[k as int] == subs@[k as int]@);
        }
        if subs[k].subscriber_id == *id {
        } else {
            let d = subs[k].dup();
            proof {
                assert(subs_view(out@.push(d)) =~= subs_view(out@).push(subs@[k as int]@));
            }
            out.push(d);
        }
        k = k + 1;
    }
    proof {
        assert(subs_view(subs@).take(subs@.len() as int) =~= subs_view(subs@));
    }
    out
}

/// Walks the trie along the pattern's remaining segments without creating
/// anything; where the full path exists, drops the identity from the final
/// node's subscribers.
fn remove_from(nodes: &mut Vec<RouteNode>, pattern: &Vec<Segment>, i: usize, id: &String) -> (found:
    bool)
    requires
        wf_nodes(old(nodes)@),
        i < pattern@.len(),
    ensures
        wf_nodes(final(nodes)@),
        found == has_route(old(nodes)@, segs_view(pattern@).skip(i as int)),
        subs_at(final(nodes)@, segs_view(pattern@).skip(i as int)) == (if found {
            remove_id(subs_at(old(nodes)@, segs_view(pattern@).skip(i as int)), id@)
        } else {
            subs_at(old(nodes)@, segs_view(pattern@).skip(i as int))
        }),
        forall|q: Seq<SegView>|
            q != segs_view(pattern@).skip(i as int) ==> #[trigger] subs_at(final(nodes)@, q)
                == subs_at(old(nodes)@, q),
        forall|q: Seq<SegView>| #[trigger]
            has_route(final(nodes)@, q) == has_route(old(nodes)@, q),
    decreases pattern@.len() - i,
{
    let ghost rest = segs_view(pattern@).skip(i as int);
    let ghost nodes0 = nodes@;
    let len = pattern.len();
    proof {
        assert(rest[0] == pattern@[i as int]@);
        assert(rest.len() == pattern@.len() - i);
    }
    let seg = &pattern[i];
    match find_seg(nodes, seg) {
        None => {
            proof {
                assert(!has_route(nodes0, rest));
            }
            false
        },
        Some(j) => {
            proof {
                lemma_seg_index_of(nodes0, j as int);
            }
            if i + 1 == len {
                let filtered = remove_sub_id(&nodes[j].subscribers, id);
                let node = &mut nodes[j];
                node.subscribers = filtered;
                proof {
                    let n2 = nodes@[j as int];
                    assert(nodes@ =~= nodes0.update(j as int, n2));
                    assert(n2.segment@ == nodes0[j as int].segment@);
                    assert(n2.children@ == nodes0[j as int].children@);
                    assert(subs_view(n2.subscribers@) == remove_id(
                        subs_view(nodes0[j as int].subscribers@),
                        id@,
                    ));
                    lemma_remove_id_props(subs_view(nodes0[j as int].subscribers@), id@);
                    assert(wf_nodes(nodes@)) by {
                        assert(distinct_segs(nodes@));
                        assert(unique_ids(subs_view(n2.subscribers@)));
                        assert(wf_nodes(n2.children@));
                        assert(forall|m: int|
                            0 <= m < nodes@.len() && m != j ==> nodes@[m] == nodes0[m]);
                    }
                    lemma_update_descend(nodes0, j as int, n2, rest);
                    assert(has_route(nodes0, rest));
                    assert(subs_at(nodes@, rest) == remove_id(subs_at(nodes0, rest), id@));
                    assert forall|q: Seq<SegView>| q != rest implies #[trigger] subs_at(nodes@, q)
                        == subs_at(nodes0, q) by {
                        if q.len() == 0 {
                            assert(subs_at(nodes@, q) == subs_at(nodes0, q));
                        } else if q[0] != rest[0] {
                            lemma_update_frame(nodes0, j as int, n2, q);
                        } else {
                            lemma_update_descend(nodes0, j as int, n2, q);
                            if q.len() == 1 {
                                assert(q =~= rest);
                            }
                        }
                    }
                    assert forall|q: Seq<SegView>| #[trigger]
                        has_route(nodes@, q) == has_route(nodes0, q) by {
                        if q.len() == 0 {
                            assert(!has_route(nodes@, q) && !has_route(nodes0, q));
                        } else if q[0] != rest[0] {
                            lemma_update_frame(nodes0, j as int, n2, q);
                        } else {
                            lemma_update_descend(nodes0, j as int, n2, q);
                        }
                    }
                }
                true
            } else {
                let node = &mut nodes[j];
                let found = remove_from(&mut node.children, pattern, i + 1, id);
                proof {
                    let rest1 = segs_view(pattern@).skip(i + 1);
                    assert(rest.skip(1) =~= rest1);
                    assert(rest.len() >= 2);
                    let n2 = nodes@[j as int];
                    assert(nodes@ =~= nodes0.update(j as int, n2));
                    assert(n2.segment@ == nodes0[j as int].segment@);
                    assert(n2.subscribers@ == nodes0[j as int].subscribers@);
                    lemma_update_descend(nodes0, j as int, n2, rest);
                    assert(found == has_route(nodes0, rest));
                    assert(wf_nodes(nodes@)) by {
                        assert(distinct_segs(nodes@));
                        assert(unique_ids(subs_view(n2.subscribers@)));
                        assert(wf_nodes(n2.children@));
                        assert(forall|m: int|
                            0 <= m < nodes@.len() && m != j ==> nodes@[m] == nodes0[m]);
                    }
                    assert(subs_at(nodes@, rest) == (if found {
                        remove_id(subs_at(nodes0, rest), id@)
                    } else {
                        subs_at(nodes0, rest)
                    }));
                    assert forall|q: Seq<SegView>| q != rest implies #[trigger] subs_at(
                        nodes@,
                        q,
                    ) == subs_at(nodes0, q) by {
                        if q.len() == 0 {
                            assert(subs_at(nodes@, q) == subs_at(nodes0, q));
                        } else if q[0] != rest[0] {
                            lemma_update_frame(nodes0, j as int, n2, q);
                        } else {
                            lemma_update_descend(nodes0, j as int, n2, q);
                            lemma_head_tail_eq(q, rest);
                            if q.len() == 1 {
                                assert(subs_at(nodes@, q) == subs_view(n2.subscribers@));
                            } else {
                                assert(q.skip(1) != rest1);
                            }
                        }
                    }
                    assert forall|q: Seq<SegView>| #[trigger]
                        has_route(nodes@, q) == has_route(nodes0, q) by {
                        if q.len() == 0 {
                            assert(!has_route(nodes@, q) && !has_route(nodes0, q));
                        } else if q[0] != rest[0] {
                            lemma_update_frame(nodes0, j as int, n2, q);
                        } else {
                            lemma_update_descend(nodes0, j as int, n2, q);
                        }
                    }
                }
                found
            }
        },
    }
}

/// Appends every subscriber of `subs` whose identity is not yet in `out`.
fn push_all_new(out: &mut Vec<Subscriber>, subs: &Vec<Subscriber>)
    requires
        unique_ids(subs_view(old(out)@)),
    ensures
        unique_ids(subs_view(final(out)@)),
        old(out)@.len() <= final(out)@.len(),
        forall|k: int| 0 <= k < old(out)@.len() ==> final(out)@[k] == old(out)@[k],
        forall|k: int|
            old(out)@.len() <= k < final(out)@.len() ==> subs_view(subs@).contains(
                (#[trigger] final(out)@[k])@,
            ),
        forall|id: Seq<char>| #[trigger]
            contains_id(subs_view(final(out)@), id) <==> contains_id(subs_view(old(out)@), id)
                || contains_id(subs_view(subs@), id),
{
    let ghost out0 = out@;
    let n = subs.len();
    let mut k: usize = 0;
    proof {
        assert(subs_view(subs@).take(0) =~= Seq::<SubView>::empty());
    }
    while k < n
        invariant
            n == subs@.len(),
            k <= n,
            unique_ids(subs_view(out@)),
            out0.len() <= out@.len(),
            forall|m: int| 0 <= m < out0.len() ==> out@[m] == out0[m],
            forall|m: int|
                out0.len() <= m < out@.len() ==> subs_view(subs@).contains((#[trigger] out@[m])@),
            forall|id: Seq<char>| #[trigger]
                contains_id(subs_view(out@), id) <==> contains_id(subs_view(out0), id)
                    || contains_id(subs_view(subs@).take(k as int), id),
        decreases n - k,
    {
        let ghost sv = subs_view(subs@);
        let ghost cur = out@;
        proof {
            assert(sv.take(k + 1).drop_last() =~= sv.take(k as int));
            assert(sv.take(k + 1).last() == sv[k as int]);
            assert(sv[k as int] == subs@[k as int]@);
        }
        let present = contains_sub_id(out, &subs[k].subscriber_id);
        if !present {
            let d = subs[k].dup();
            proof {
                assert(subs_view(out@.push(d)) =~= subs_view(out@).push(subs@[k as int]@));
                assert(sv.contains(subs@[k as int]@)) by {
                    assert(sv[k as int] == subs@[k as int]@);
                }
            }
            out.push(d);
            proof {
                assert(unique_ids(subs_view(out@))) by {
                    assert(subs_view(out@).drop_last() =~= subs_view(cur));
                    assert forall|k1: int, k2: int|
                        0 <= k1 < k2 < subs_view(out@).len() implies subs_view(
                        out@,
                    )[k1].subscriber_id != subs_view(out@)[k2].subscriber_id by {
                        if k2 == subs_view(out@).len() - 1 {
                            if subs_view(cur)[k1].subscriber_id == subs@[k as int]@.subscriber_id {
                                assert(contains_id(
                                    subs_view(cur),
                                    subs@[k as int]@.subscriber_id,
                                ));
                            }
                        }
                    }
                }
            }
        }
        proof {
            assert forall|id: Seq<char>| #[trigger]
                contains_id(subs_view(out@), id) <==> contains_id(subs_view(out0), id)
                    || contains_id(sv.take(k + 1), id) by {
                lemma_contains_id_last(sv.take(k + 1), id);
                if !present {
                    assert(subs_view(out@).drop_last() =~= subs_view(cur));
                    lemma_contains_id_last(subs_view(out@), id);
                } else {
                    if sv[k as int].subscriber_id == id {
                        assert(contains_id(subs_view(out@), id));
                    }
                }
            }
        }
        k = k + 1;
    }
    proof {
        assert(subs_view(subs@).take(n as int) =~= subs_view(subs@));
    }
}

/// The publish-time traversal: appends, without duplicating identities, the
/// subscribers of every node that the topic's tokens from position `i` on
/// reach.
fn collect_matches(nodes: &Vec<RouteNode>, topic: &Vec<String>, i: usize, out: &mut Vec<Subscriber>)
    requires
        wf_nodes(nodes@),
        i < topic@.len(),
        unique_ids(subs_view(old(out)@)),
    ensures
        unique_ids(subs_view(final(out)@)),
        old(out)@.len() <= final(out)@.len(),
        forall|k: int| 0 <= k < old(out)@.len() ==> final(out)@[k] == old(out)@[k],
        forall|k: int|
            old(out)@.len() <= k < final(out)@.len() ==> nodes_collect(
                nodes@,
                tokens_view(topic@).skip(i as int),
                (#[trigger] final(out)@[k])@,
            ),
        forall|id: Seq<char>| #[trigger]
            contains_id(subs_view(final(out)@), id) <==> contains_id(subs_view(old(out)@), id)
                || collects_id(nodes@, tokens_view(topic@).skip(i as int), id),
    decreases topic@.len() - i,
{
    let ghost t = tokens_view(topic@).skip(i as int);
    let ghost out0 = out@;
    proof {
        assert(t[0] == topic@[i as int]@);
        assert(t.len() == topic@.len() - i);
    }
    let n_len = nodes.len();
    let topic_len = topic.len();
    let mut j: usize = 0;
    while j < n_len
        invariant
            n_len == nodes@.len(),
            topic_len == topic@.len(),
            i < topic@.len(),
            t == tokens_view(topic@).skip(i as int),
            t.len() == topic@.len() - i,
            wf_nodes(nodes@),
            j <= n_len,
            unique_ids(subs_view(out@)),
            out0.len() <= out@.len(),
            forall|m: int| 0 <= m < out0.len() ==> out@[m] == out0[m],
            forall|m: int|
                out0.len() <= m < out@.len() ==> nodes_collect(nodes@, t, (#[trigger] out@[m])@),
            forall|id: Seq<char>| #[trigger]
                contains_id(subs_view(out@), id) <==> contains_id(subs_view(out0), id) || (exists|
                    j2: int,
                    v: SubView,
                |
                    0 <= j2 < j && #[trigger] node_collects(nodes@[j2], t, v) && v.subscriber_id
                        == id),
        decreases n_len - j,
    {
        let ghost cur = out@;
        let node = &nodes[j];
        proof {
            assert(nodes@[j as int] == *node);
            assert(wf_nodes(node.children@));
        }
        match &node.segment {
            Segment::Greater => {
                push_all_new(out, &node.subscribers);
                proof {
                    assert forall|v: SubView| #[trigger]
                        node_collects(nodes@[j as int], t, v) == subs_view(
                        node.subscribers@,
                    ).contains(v) by {}
                    assert forall|id: Seq<char>|
                        contains_id(subs_view(node.subscribers@), id) <==> (exists|v: SubView| #[trigger]
                        node_collects(nodes@[j as int], t, v) && v.subscriber_id == id) by {
                        if contains_id(subs_view(node.subscribers@), id) {
                            let m = choose|m: int|
                                0 <= m < subs_view(node.subscribers@).len() && subs_view(
                                    node.subscribers@,
                                )[m].subscriber_id == id;
                            let v = subs_view(node.subscribers@)[m];
                            assert(subs_view(node.subscribers@).contains(v));
                            assert(node_collects(nodes@[j as int], t, v));
                        }
                        if exists|v: SubView| #[trigger] node_collects(nodes@[j as int], t, v)
                            && v.subscriber_id == id {
                            let v = choose|v: SubView| #[trigger]
                                node_collects(nodes@[j as int], t, v) && v.subscriber_id == id;
                            let m = choose|m: int|
                                0 <= m < subs_view(node.subscribers@).len() && subs_view(
                                    node.subscribers@,
                                )[m] == v;
                            assert(contains_id(subs_view(node.subscribers@), id));
                        }
                    }
                }
            },
            Segment::Asterisk => {
                if i + 1 == topic_len {
                    push_all_new(out, &node.subscribers);
                    proof {
                        assert(t.len() == 1);
                        assert(seg_matches(nodes@[j as int].segment@, t[0]));
                        assert forall|v: SubView| #[trigger]
                            node_collects(nodes@[j as int], t, v) == subs_view(
                            node.subscribers@,
                        ).contains(v) by {}
                        assert forall|id: Seq<char>|
                            contains_id(subs_view(node.subscribers@), id) <==> (exists|v: SubView| #[trigger]
                            node_collects(nodes@[j as int], t, v) && v.subscriber_id == id) by {
                            if contains_id(subs_view(node.subscribers@), id) {
                                let m = choose|m: int|
                                    0 <= m < subs_view(node.subscribers@).len() && subs_view(
                                        node.subscribers@,
                                    )[m].subscriber_id == id;
                                let v = subs_view(node.subscribers@)[m];
                                assert(subs_view(node.subscribers@).contains(v));
                                assert(node_collects(nodes@[j as int], t, v));
                            }
                            if exists|v: SubView| #[trigger] node_collects(nodes@[j as int], t, v)
                                && v.subscriber_id == id {
                                let v = choose|v: SubView| #[trigger]
                                    node_collects(nodes@[j as int], t, v) && v.subscriber_id
                                        == id;
                                let m = choose|m: int|
                                    0 <= m < subs_view(node.subscribers@).len() && subs_view(
                                        node.subscribers@,
                                    )[m] == v;
                                assert(contains_id(subs_view(node.subscribers@), id));
                            }
                        }
                    }
                } else {
                    collect_matches(&node.children, topic, i + 1, out);
                    proof {
                        assert(tokens_view(topic@).skip(i + 1) =~= t.skip(1));
                        assert(t.len() > 1);
                        assert forall|v: SubView| #[trigger]
                            node_collects(nodes@[j as int], t, v) == nodes_collect(
                            node.children@,
                            t.skip(1),
                            v,
                        ) by {
                            assert(seg_matches(nodes@[j as int].segment@, t[0]));
                        }
                        assert forall|id: Seq<char>|
                            collects_id(node.children@, t.skip(1), id) <==> (exists|v: SubView| #[trigger]
                            node_collects(nodes@[j as int], t, v) && v.subscriber_id == id) by {
                            if collects_id(node.children@, t.skip(1), id) {
                                let v = choose|v: SubView| #[trigger]
                                    nodes_collect(node.children@, t.skip(1), v)
                                        && v.subscriber_id == id;
                                assert(node_collects(nodes@[j as int], t, v));
                            }
                            if exists|v: SubView| #[trigger] node_collects(nodes@[j as int], t, v)
                                && v.subscriber_id == id {
                                let v = choose|v: SubView| #[trigger]
                                    node_collects(nodes@[j as int], t, v) && v.subscriber_id
                                        == id;
                                assert(nodes_collect(node.children@, t.skip(1), v));
                                assert(collects_id(node.children@, t.skip(1), id));
                            }
                        }
                    }
                }
            },
            Segment::Normal(tok) => {
                let matches_here = *tok == topic[i];
                if matches_here {
                    proof {
                        assert(seg_matches(nodes@[j as int].segment@, t[0]));
                    }
                    if i + 1 == topic_len {
                        push_all_new(out, &node.subscribers);
                        proof {
                            assert(t.len() == 1);
                            assert forall|v: SubView| #[trigger]
                                node_collects(nodes@[j as int], t, v) == subs_view(
                                node.subscribers@,
                            ).contains(v) by {}
                            assert forall|id: Seq<char>|
                                contains_id(subs_view(node.subscribers@), id) <==> (exists|
                                v: SubView,
                            | #[trigger]
                                node_collects(nodes@[j as int], t, v) && v.subscriber_id
                                    == id) by {
                                if contains_id(subs_view(node.subscribers@), id) {
                                    let m = choose|m: int|
                                        0 <= m < subs_view(node.subscribers@).len() && subs_view(
                                            node.subscribers@,
                                        )[m].subscriber_id == id;
                                    let v = subs_view(node.subscribers@)[m];
                                    assert(subs_view(node.subscribers@).contains(v));
                                    assert(node_collects(nodes@[j as int], t, v));
                                }
                                if exists|v: SubView| #[trigger]
                                    node_collects(nodes@[j as int], t, v) && v.subscriber_id
                                        == id {
                                    let v = choose|v: SubView| #[trigger]
                                        node_collects(nodes@[j as int], t, v) && v.subscriber_id
                                            == id;
                                    let m = choose|m: int|
                                        0 <= m < subs_view(node.subscribers@).len() && subs_view(
                                            node.subscribers@,
                                        )[m] == v;
                                    assert(contains_id(subs_view(node.subscribers@), id));
                                }
                            }
                        }
                    } else {
                        collect_matches(&node.children, topic, i + 1, out);
                        proof {
                            assert(tokens_view(topic@).skip(i + 1) =~= t.skip(1));
                            assert(t.len() > 1);
                            assert forall|v: SubView| #[trigger]
                                node_collects(nodes@[j as int], t, v) == nodes_collect(
                                node.children@,
                                t.skip(1),
                                v,
                            ) by {}
                            assert forall|id: Seq<char>|
                                collects_id(node.children@, t.skip(1), id) <==> (exists|
                                v: SubView,
                            | #[trigger]
                                node_collects(nodes@[j as int], t, v) && v.subscriber_id
                                    == id) by {
                                if collects_id(node.children@, t.skip(1), id) {
                                    let v = choose|v: SubView| #[trigger]
                                        nodes_collect(node.children@, t.skip(1), v)
                                            && v.subscriber_id == id;
                                    assert(node_collects(nodes@[j as int], t, v));
                                }
                                if exists|v: SubView| #[trigger]
                                    node_collects(nodes@[j as int], t, v) && v.subscriber_id
                                        == id {
                                    let v = choose|v: SubView| #[trigger]
                                        node_collects(nodes@[j as int], t, v) && v.subscriber_id
                                            == id;
                                    assert(nodes_collect(node.children@, t.skip(1), v));
                                    assert(collects_id(node.children@, t.skip(1), id));
                                }
                            }
                        }
                    }
                } else {
                    proof {
                        assert(tok@ != t[0]);
                        assert(forall|v: SubView| !node_collects(nodes@[j as int], t, v));
                    }
                }
            },
        }
        proof {
            assert forall|id2: Seq<char>| contains_id(subs_view(cur), id2) implies contains_id(
                subs_view(out@),
                id2,
            ) by {
                let m = choose|m: int|
                    0 <= m < subs_view(cur).len() && subs_view(cur)[m].subscriber_id == id2;
                assert(out@[m] == cur[m]);
                assert(subs_view(out@)[m].subscriber_id == id2);
            }
            assert forall|id: Seq<char>| #[trigger]
                contains_id(subs_view(out@), id) <==> contains_id(subs_view(out0), id) || (exists|
                    j2: int,
                    v: SubView,
                |
                    0 <= j2 < j + 1 && #[trigger] node_collects(nodes@[j2], t, v)
                        && v.subscriber_id == id) by {
                if contains_id(subs_view(out@), id) {
                    if contains_id(subs_view(cur), id) {
                        if !contains_id(subs_view(out0), id) {
                            let (j2, v) = choose|j2: int, v: SubView|
                                0 <= j2 < j && #[trigger] node_collects(nodes@[j2], t, v)
                                    && v.subscriber_id == id;
                            assert(0 <= j2 < j + 1 && node_collects(nodes@[j2], t, v)
                                && v.subscriber_id == id);
                        }
                    } else {
                        assert(exists|v: SubView| #[trigger] node_collects(nodes@[j as int], t, v)
                            && v.subscriber_id == id);
                        let v = choose|v: SubView| #[trigger]
                            node_collects(nodes@[j as int], t, v) && v.subscriber_id == id;
                        assert(0 <= (j as int) < j + 1 && node_collects(nodes@[j as int], t, v)
                            && v.subscriber_id == id);
                    }
                }
                if exists|j2: int, v: SubView|
                    0 <= j2 < j + 1 && #[trigger] node_collects(nodes@[j2], t, v)
                        && v.subscriber_id == id {
                    let (j2, v) = choose|j2: int, v: SubView|
                        0 <= j2 < j + 1 && #[trigger] node_collects(nodes@[j2], t, v)
                            && v.subscriber_id == id;
                    if j2 < j {
                        assert(0 <= j2 < j && node_collects(nodes@[j2], t, v) && v.subscriber_id
                            == id);
                        assert(contains_id(subs_view(cur), id) || contains_id(
                            subs_view(out0),
                            id,
                        ));
                        assert(contains_id(subs_view(out@), id));
                    } else {
                        assert(node_collects(nodes@[j as int], t, v));
                        assert(exists|v2: SubView| #[trigger]
                            node_collects(nodes@[j as int], t, v2) && v2.subscriber_id == id);
                        assert(contains_id(subs_view(out@), id));
                    }
                }
            }
            assert forall|m: int|
                out0.len() <= m < out@.len() implies nodes_collect(
                nodes@,
                t,
                (#[trigger] out@[m])@,
            ) by {
                if m < cur.len() {
                    assert(out@[m] == cur[m]);
                } else {
                    assert(node_collects(nodes@[j as int], t, out@[m]@));
                    assert(0 <= (j as int) < nodes@.len() && node_collects(
                        nodes@[j as int],
                        t,
                        out@[m]@,
                    ));
                }
            }
        }
        j = j + 1;
    }
    proof {
        assert forall|id: Seq<char>| #[trigger]
            contains_id(subs_view(out@), id) <==> contains_id(subs_view(out0), id)
                || collects_id(nodes@, t, id) by {
            if contains_id(subs_view(out@), id) && !contains_id(subs_view(out0), id) {
                let (j2, v) = choose|j2: int, v: SubView|
                    0 <= j2 < n_len && #[trigger] node_collects(nodes@[j2], t, v)
                        && v.subscriber_id == id;
                assert(nodes_collect(nodes@, t, v));
                assert(collects_id(nodes@, t, id));
            }
            if collects_id(nodes@, t, id) {
                let v = choose|v: SubView| #[trigger] nodes_collect(nodes@, t, v)
                    && v.subscriber_id == id;
                let j2 = choose|j2: int|
                    0 <= j2 < nodes@.len() && node_collects((#[trigger] nodes@[j2]), t, v);
                assert(0 <= j2 < n_len && node_collects(nodes@[j2], t, v) && v.subscriber_id
                    == id);
                assert(contains_id(subs_view(out@), id));
            }
        }
    }
}

/// Splits and classifies a subscription pattern, rejecting empty tokens and
/// a `>` anywhere but last.
pub fn parse_pattern(channel_name: &str) -> (r: Result<Vec<Segment>, RouteError>)
    ensures
        r is Ok <==> valid_pattern(channel_name@),
        match r {
            Ok(segs) => {
                &&& segs_view(segs@) == pattern_of(channel_name@)
                &&& segs@.len() >= 1
            },
            Err(e) => {
                &&& (e == RouteError::InvalidTopic <==> !tokens_nonempty(
                    split_on_dot(channel_name@),
                ))
                &&& (e == RouteError::InvalidPattern || e == RouteError::InvalidTopic)
            },
        },
{
    let ghost parts = split_on_dot(channel_name@);
    let segs = convert_segments(channel_name);
    let n = segs.len();
    let mut k: usize = 0;
    while k < n
        invariant
            n == segs@.len(),
            k <= n,
            segs_view(segs@) == pattern_of(channel_name@),
            segs@.len() == split_on_dot(channel_name@).len(),
            forall|m: int| 0 <= m < k ==> #[trigger] split_on_dot(channel_name@)[m].len() > 0,
        decreases n - k,
    {
        proof {
            assert(segs_view(segs@)[k as int] == seg_of_token(
                split_on_dot(channel_name@)[k as int],
            ));
        }
        let empty = match &segs[k] {
            Segment::Normal(t) => t.as_str().unicode_len() == 0,
            _ => false,
        };
        if empty {
            proof {
                let tok = split_on_dot(channel_name@)[k as int];
                assert(seg_of_token(tok) is Normal);
                assert(tok.len() == 0) by {
                    assert(seg_of_token(tok) == SegView::Normal(tok));
                }
                assert(!tokens_nonempty(split_on_dot(channel_name@)));
            }
            return Err(RouteError::InvalidTopic);
        }
        proof {
            let tok = split_on_dot(channel_name@)[k as int];
            assert(tok.len() > 0) by {
                if seg_of_token(tok) is Normal {
                    assert(seg_of_token(tok) == SegView::Normal(tok));
                } else {
                    assert(tok == seq!['*'] || tok == seq!['>']);
                }
            }
        }
        k = k + 1;
    }
    let mut k2: usize = 0;
    while k2 < n
        invariant
            n == segs@.len(),
            k2 <= n,
            segs_view(segs@) == pattern_of(channel_name@),
            segs@.len() == split_on_dot(channel_name@).len(),
            tokens_nonempty(split_on_dot(channel_name@)),
            forall|m: int|
                0 <= m < k2 && m < segs@.len() - 1 ==> seg_of_token(
                    #[trigger] split_on_dot(channel_name@)[m],
                ) != SegView::Greater,
        decreases n - k2,
    {
        proof {
            assert(segs_view(segs@)[k2 as int] == seg_of_token(
                split_on_dot(channel_name@)[k2 as int],
            ));
        }
        let is_gt = match &segs[k2] {
            Segment::Greater => true,
            _ => false,
        };
        if is_gt && k2 + 1 != n {
            proof {
                assert(seg_of_token(split_on_dot(channel_name@)[k2 as int])
                    == SegView::Greater);
                assert(!valid_pattern(channel_name@));
            }
            return Err(RouteError::InvalidPattern);
        }
        k2 = k2 + 1;
    }
    Ok(segs)
}

/// Splits a published topic, rejecting empty tokens and any wildcard token.
pub fn parse_topic(channel_name: &str) -> (r: Result<Vec<String>, RouteError>)
    ensures
        r is Ok <==> valid_topic(channel_name@),
        match r {
            Ok(tokens) => {
                &&& tokens_view(tokens@) == split_on_dot(channel_name@)
                &&& tokens@.len() >= 1
            },
            Err(e) => e == RouteError::InvalidTopic,
        },
{
    let tokens = split_channel(channel_name);
    let n = tokens.len();
    let mut k: usize = 0;
    while k < n
        invariant
            n == tokens@.len(),
            k <= n,
            tokens_view(tokens@) == split_on_dot(channel_name@),
            forall|m: int|
                0 <= m < k ==> (#[trigger] split_on_dot(channel_name@)[m]).len() > 0
                    && seg_of_token(split_on_dot(channel_name@)[m]) is Normal,
        decreases n - k,
    {
        proof {
            assert(tokens_view(tokens@)[k as int] == tokens@[k as int]@);
        }
        let token = &tokens[k];
        if token.as_str().unicode_len() == 0 || is_star_token(token) || is_greater_token(token) {
            proof {
                let tok = split_on_dot(channel_name@)[k as int];
                assert(tok == token@);
                assert(!valid_topic(channel_name@)) by {
                    if tok.len() == 0 {
                        assert(!tokens_nonempty(split_on_dot(channel_name@)));
                    } else {
                        assert(!(seg_of_token(tok) is Normal));
                    }
                }
            }
            return Err(RouteError::InvalidTopic);
        }
        k = k + 1;
    }
    Ok(tokens)
}

impl Router {
    /// Registers the subscriber under its channel pattern, creating trie
    /// nodes on demand; a second registration of the same identity under the
    /// same pattern is a no-op.
    pub fn add_subscriber(&mut self, subscriber: Subscriber) -> (r: Result<(), RouteError>)
        requires
            old(self).wf(),
        ensures
            final(self).wf(),
            r is Ok <==> valid_pattern(subscriber.channel_name@),
            match r {
                Ok(()) => {
                    let p = pattern_of(subscriber.channel_name@);
                    &&& subs_at(final(self).children@, p) == add_sub(
                        subs_at(old(self).children@, p),
                        subscriber@,
                    )
                    &&& forall|q: Seq<SegView>|
                        q != p ==> #[trigger] subs_at(final(self).children@, q) == subs_at(
                            old(self).children@,
                            q,
                        )
                    &&& forall|q: Seq<SegView>| #[trigger]
                        has_route(final(self).children@, q) <==> has_route(
                            old(self).children@,
                            q,
                        ) || is_nonempty_prefix(q, p)
                },
                Err(e) => {
                    &&& *final(self) == *old(self)
                    &&& (e == RouteError::InvalidTopic <==> !tokens_nonempty(
                        split_on_dot(subscriber.channel_name@),
                    ))
                    &&& (e == RouteError::InvalidPattern || e == RouteError::InvalidTopic)
                },
            },
    {
        let pattern = match parse_pattern(subscriber.channel_name.as_str()) {
            Ok(segs) => segs,
            Err(e) => {
                return Err(e);
            },
        };
        add_into(&mut self.children, &pattern, 0, &subscriber);
        proof {
            assert(segs_view(pattern@).skip(0) =~= segs_view(pattern@));
        }
        Ok(())
    }

    /// Removes the identity from the node of the given pattern; the absence
    /// of the identity there is a no-op, the absence of the node itself is
    /// `RouteNotFound`.
    pub fn remove_subscriber(&mut self, channel_name: &str, subscriber_id: &String) -> (r: Result<
        (),
        RouteError,
    >)
        requires
            old(self).wf(),
        ensures
            final(self).wf(),
            r is Ok <==> valid_pattern(channel_name@) && has_route(
                old(self).children@,
                pattern_of(channel_name@),
            ),
            match r {
                Ok(()) => {
                    let p = pattern_of(channel_name@);
                    &&& subs_at(final(self).children@, p) == remove_id(
                        subs_at(old(self).children@, p),
                        subscriber_id@,
                    )
                    &&& forall|q: Seq<SegView>|
                        q != p ==> #[trigger] subs_at(final(self).children@, q) == subs_at(
                            old(self).children@,
                            q,
                        )
                    &&& forall|q: Seq<SegView>| #[trigger]
                        has_route(final(self).children@, q) == has_route(old(self).children@, q)
                },
                Err(e) => {
                    &&& forall|q: Seq<SegView>| #[trigger]
                        subs_at(final(self).children@, q) == subs_at(old(self).children@, q)
                    &&& forall|q: Seq<SegView>| #[trigger]
                        has_route(final(self).children@, q) == has_route(old(self).children@, q)
                    &&& (e == RouteError::InvalidTopic <==> !tokens_nonempty(
                        split_on_dot(channel_name@),
                    ))
                    &&& (e == RouteError::RouteNotFound <==> valid_pattern(channel_name@)
                        && !has_route(old(self).children@, pattern_of(channel_name@)))
                },
            },
    {
        let pattern = match parse_pattern(channel_name) {
            Ok(segs) => segs,
            Err(e) => {
                return Err(e);
            },
        };
        let found = remove_from(&mut self.children, &pattern, 0, subscriber_id);
        proof {
            assert(segs_view(pattern@).skip(0) =~= segs_view(pattern@));
        }
        if found {
            Ok(())
        } else {
            Err(RouteError::RouteNotFound)
        }
    }

    /// Resolves a published topic to the subscribers it reaches: exactly
    /// those that some registered pattern matching the topic carries, each
    /// identity once. An empty result is a normal outcome, not an error.
    pub fn match_subscribers(&self, channel_name: &str) -> (r: Result<Vec<Subscriber>, RouteError>)
        requires
            self.wf(),
        ensures
            r is Ok <==> valid_topic(channel_name@),
            match r {
                Ok(subs) => {
                    &&& unique_ids(subs_view(subs@))
                    &&& forall|k: int|
                        0 <= k < subs@.len() ==> matched_sub(
                            self.children@,
                            split_on_dot(channel_name@),
                            (#[trigger] subs@[k])@,
                        )
                    &&& forall|id: Seq<char>| #[trigger]
                        contains_id(subs_view(subs@), id) <==> matched_id(
                            self.children@,
                            split_on_dot(channel_name@),
                            id,
                        )
                },
                Err(e) => e == RouteError::InvalidTopic,
            },
    {
        let tokens = match parse_topic(channel_name) {
            Ok(t) => t,
            Err(e) => {
                return Err(e);
            },
        };
        let mut result: Vec<Subscriber> = Vec::new();
        proof {
            assert(subs_view(result@) =~= Seq::<SubView>::empty());
            assert(unique_ids(subs_view(result@)));
        }
        collect_matches(&self.children, &tokens, 0, &mut result);
        proof {
            let t = split_on_dot(channel_name@);
            assert(tokens_view(tokens@).skip(0) =~= tokens_view(tokens@));
            assert(t.len() >= 1);
            assert forall|k: int| 0 <= k < result@.len() implies matched_sub(
                self.children@,
                t,
                (#[trigger] result@[k])@,
            ) by {
                assert(nodes_collect(self.children@, t, result@[k]@));
                lemma_collect_iff_matched(self.children@, t, result@[k]@);
            }
            assert forall|id: Seq<char>| #[trigger]
                contains_id(subs_view(result@), id) <==> matched_id(self.children@, t, id) by {
                lemma_collects_id_iff_matched_id(self.children@, t, id);
                assert(!contains_id(Seq::<SubView>::empty(), id));
            }
        }
        Ok(result)
    }

    /// Publishes a payload on a literal topic: one delivery per matched
    /// subscriber identity, each carrying the topic and the payload.
    pub fn publish(&self, channel_name: &str, payload: &String) -> (r: Result<
        Vec<Delivery>,
        RouteError,
    >)
        requires
            self.wf(),
        ensures
            r is Ok <==> valid_topic(channel_name@),
            match r {
                Ok(ds) => {
                    &&& forall|k: int|
                        0 <= k < ds@.len() ==> (#[trigger] ds@[k])@.topic == channel_name@
                            && ds@[k]@.message == payload@
                    &&& forall|k1: int, k2: int|
                        0 <= k1 < k2 < ds@.len() ==> ds@[k1]@.subscriber_id
                            != ds@[k2]@.subscriber_id
                    &&& forall|id: Seq<char>| #[trigger]
                        matched_id(self.children@, split_on_dot(channel_name@), id) <==> exists|
                            k: int,
                        | 0 <= k < ds@.len() && (#[trigger] ds@[k])@.subscriber_id == id
                },
                Err(e) => e == RouteError::InvalidTopic,
            },
    {
        let subscribers = match self.match_subscribers(channel_name) {
            Ok(s) => s,
            Err(e) => {
                return Err(e);
            },
        };
        let topic_owned = channel_name.to_owned();
        let mut ds: Vec<Delivery> = Vec::new();
        let mut k: usize = 0;
        while k < subscribers.len()
            invariant
                k <= subscribers@.len(),
                ds@.len() == k,
                topic_owned@ == channel_name@,
                forall|m: int|
                    0 <= m < k ==> (#[trigger] ds@[m])@.subscriber_id
                        == subs_view(subscribers@)[m].subscriber_id && ds@[m]@.topic
                        == channel_name@ && ds@[m]@.message == payload@,
            decreases subscribers@.len() - k,
        {
            let d = Delivery::new(
                subscribers[k].subscriber_id.clone(),
                topic_owned.clone(),
                payload.clone(),
            );
            ds.push(d);
            k = k + 1;
        }
        proof {
            let sv = subs_view(subscribers@);
            let t = split_on_dot(channel_name@);
            assert(unique_ids(sv));
            assert forall|k1: int, k2: int| 0 <= k1 < k2 < ds@.len() implies ds@[k1]@.subscriber_id
                != ds@[k2]@.subscriber_id by {
                assert(ds@[k1]@.subscriber_id == sv[k1].subscriber_id);
                assert(ds@[k2]@.subscriber_id == sv[k2].subscriber_id);
            }
            assert forall|id: Seq<char>| #[trigger]
                matched_id(self.children@, t, id) <==> exists|k2: int|
                    0 <= k2 < ds@.len() && (#[trigger] ds@[k2])@.subscriber_id == id by {
                if matched_id(self.children@, t, id) {
                    assert(contains_id(sv, id));
                    let m = choose|m: int| 0 <= m < sv.len() && sv[m].subscriber_id == id;
                    assert(ds@[m]@.subscriber_id == id);
                }
                if exists|k2: int| 0 <= k2 < ds@.len() && (#[trigger] ds@[k2])@.subscriber_id
                    == id {
                    let m = choose|k2: int|
                        0 <= k2 < ds@.len() && (#[trigger] ds@[k2])@.subscriber_id == id;
                    assert(sv[m].subscriber_id == id);
                    assert(contains_id(sv, id));
                }
            }
        }
        Ok(ds)
    }
}

} // verus!
