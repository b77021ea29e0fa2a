//! The general guarantees of the routing engine, stated and proved over the
//! model that the `Router` contracts speak of.

use vstd::prelude::*;
use crate::router::{RouteNode, SubView};
use crate::segment::{SegView, pattern_matches_topic, seg_matches};
use crate::route_model::{
    add_sub, contains_id, count_id, lemma_contains_id_last, lemma_remove_id_props, matched_id,
    remove_id, subs_at, unique_ids,
};

verus! {

/// The literal pattern spelled exactly as a topic: every token taken as is.
pub open spec fn exact_pattern(t: Seq<Seq<char>>) -> Seq<SegView> {
    t.map_values(|tok: Seq<char>| SegView::Normal(tok))
}

pub proof fn lemma_exact_pattern_matches(t: Seq<Seq<char>>)
    ensures
        pattern_matches_topic(exact_pattern(t), t),
    decreases t.len(),
{
    let p = exact_pattern(t);
    if t.len() == 0 {
        assert(p.len() == 0);
    } else {
        assert(p[0] == SegView::Normal(t[0]));
        assert(seg_matches(p[0], t[0]));
        assert(p.skip(1) =~= exact_pattern(t.skip(1)));
        lemma_exact_pattern_matches(t.skip(1));
    }
}

/// A topic always reaches a subscriber registered under the literal pattern
/// spelled exactly as that topic.
pub proof fn law_self_topic_matches(nodes: Seq<RouteNode>, topic: Seq<Seq<char>>, id: Seq<char>)
    requires
        contains_id(subs_at(nodes, exact_pattern(topic)), id),
    ensures
        matched_id(nodes, topic, id),
{
    lemma_exact_pattern_matches(topic);
    assert(pattern_matches_topic(exact_pattern(topic), topic) && contains_id(
        subs_at(nodes, exact_pattern(topic)),
        id,
    ));
}

/// A pattern with `*` at some depth is insensitive to the topic's token at
/// that depth: two topics that differ only there match it alike.
pub proof fn law_single_wildcard_insensitive(
    p: Seq<SegView>,
    t1: Seq<Seq<char>>,
    t2: Seq<Seq<char>>,
    d: int,
)
    requires
        0 <= d < p.len(),
        p[d] == SegView::Asterisk,
        t1.len() == t2.len(),
        forall|k: int| 0 <= k < t1.len() && k != d ==> t1[k] == t2[k],
    ensures
        pattern_matches_topic(p, t1) <==> pattern_matches_topic(p, t2),
    decreases p.len(),
{
    if t1.len() == 0 {
        assert(!pattern_matches_topic(p, t1));
        assert(!pattern_matches_topic(p, t2));
    } else if d == 0 {
        assert(p[0] == SegView::Asterisk);
        assert(t1.skip(1) =~= t2.skip(1));
    } else {
        assert(t1[0] == t2[0]);
        match p[0] {
            SegView::Greater => {
                assert(p.len() >= 2);
                assert(!pattern_matches_topic(p, t1));
                assert(!pattern_matches_topic(p, t2));
            },
            _ => {
                assert(p.skip(1)[d - 1] == p[d]);
                assert(t1.skip(1).len() == t2.skip(1).len());
                assert forall|k: int| 0 <= k < t1.skip(1).len() && k != d - 1 implies t1.skip(1)[k]
                    == t2.skip(1)[k] by {
                    assert(t1.skip(1)[k] == t1[k + 1]);
                    assert(t2.skip(1)[k] == t2[k + 1]);
                }
                law_single_wildcard_insensitive(p.skip(1), t1.skip(1), t2.skip(1), d - 1);
                assert(seg_matches(p[0], t1[0]) == seg_matches(p[0], t2[0]));
            },
        }
    }
}

/// A pattern ending in `>` matches every topic that carries at least one
/// more token than the pattern's literal prefix and agrees with that prefix.
pub proof fn law_multi_wildcard_matches(q: Seq<SegView>, t: Seq<Seq<char>>)
    requires
        t.len() > q.len(),
        forall|k: int|
            0 <= k < q.len() ==> seg_matches(#[trigger] q[k], t[k]) && q[k] != SegView::Greater,
    ensures
        pattern_matches_topic(q.push(SegView::Greater), t),
    decreases q.len(),
{
    let p = q.push(SegView::Greater);
    if q.len() == 0 {
        assert(p[0] == SegView::Greater);
        assert(p.len() == 1 && t.len() >= 1);
    } else {
        assert(p[0] == q[0]);
        assert(seg_matches(q[0], t[0]));
        assert(p.skip(1) =~= q.skip(1).push(SegView::Greater));
        assert forall|k: int| 0 <= k < q.skip(1).len() implies seg_matches(
            #[trigger] q.skip(1)[k],
            t.skip(1)[k],
        ) && q.skip(1)[k] != SegView::Greater by {
            assert(q.skip(1)[k] == q[k + 1]);
            assert(t.skip(1)[k] == t[k + 1]);
        }
        law_multi_wildcard_matches(q.skip(1), t.skip(1));
    }
}

/// After removing an identity from the one pattern through which a topic
/// reached it, the topic no longer reaches that identity.
pub proof fn law_unsubscribe_stops_matching(
    nodes1: Seq<RouteNode>,
    nodes2: Seq<RouteNode>,
    p: Seq<SegView>,
    t: Seq<Seq<char>>,
    id: Seq<char>,
)
    requires
        subs_at(nodes2, p) == remove_id(subs_at(nodes1, p), id),
        forall|q: Seq<SegView>| q != p ==> #[trigger] subs_at(nodes2, q) == subs_at(nodes1, q),
        forall|q: Seq<SegView>|
            pattern_matches_topic(q, t) && q != p ==> !contains_id(
                #[trigger] subs_at(nodes1, q),
                id,
            ),
    ensures
        !matched_id(nodes2, t, id),
{
    if matched_id(nodes2, t, id) {
        let q = choose|q: Seq<SegView>|
            #[trigger] pattern_matches_topic(q, t) && contains_id(subs_at(nodes2, q), id);
        if q == p {
            lemma_remove_id_props(subs_at(nodes1, p), id);
            assert(false);
        } else {
            assert(subs_at(nodes2, q) == subs_at(nodes1, q));
            assert(false);
        }
    }
}

pub proof fn lemma_count_id_bounds(s: Seq<SubView>, id: Seq<char>)
    ensures
        count_id(s, id) >= 0,
        contains_id(s, id) <==> count_id(s, id) > 0,
        unique_ids(s) ==> count_id(s, id) <= 1,
    decreases s.len(),
{
    if s.len() > 0 {
        lemma_count_id_bounds(s.drop_last(), id);
        lemma_contains_id_last(s, id);
        assert(unique_ids(s) ==> unique_ids(s.drop_last()));
        if unique_ids(s) && s.last().subscriber_id == id {
            assert(!contains_id(s.drop_last(), id)) by {
                if contains_id(s.drop_last(), id) {
                    let k = choose|k: int|
                        0 <= k < s.drop_last().len() && s.drop_last()[k].subscriber_id == id;
                    assert(s[k].subscriber_id == s[s.len() - 1].subscriber_id);
                }
            }
        }
    }
}

/// Subscribing an identity at a node a second time changes nothing, and a
/// node with unique identities holds exactly one entry for it afterwards.
pub proof fn law_subscribe_idempotent(subs: Seq<SubView>, v: SubView)
    ensures
        add_sub(add_sub(subs, v), v) == add_sub(subs, v),
        unique_ids(subs) ==> count_id(add_sub(subs, v), v.subscriber_id) == 1,
{
    let s1 = add_sub(subs, v);
    assert(contains_id(s1, v.subscriber_id)) by {
        if contains_id(subs, v.subscriber_id) {
        } else {
            assert(s1 == subs.push(v));
            assert(s1[s1.len() - 1].subscriber_id == v.subscriber_id);
        }
    }
    assert(add_sub(s1, v) == s1);
    if unique_ids(subs) {
        lemma_count_id_bounds(subs, v.subscriber_id);
        if contains_id(subs, v.subscriber_id) {
            lemma_count_id_bounds(s1, v.subscriber_id);
        } else {
            assert(s1 == subs.push(v));
            assert(s1.last() == v);
            assert(s1.drop_last() =~= subs);
            assert(count_id(s1, v.subscriber_id) == 1 + count_id(subs, v.subscriber_id));
            assert(count_id(subs, v.subscriber_id) == 0);
        }
    }
}

} // verus!
