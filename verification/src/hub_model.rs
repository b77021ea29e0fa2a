//! The mathematical model of the topic tree: which literal topic paths have
//! a node, which subscriber identities stand at each node, and what a
//! pattern query yields.

use vstd::prelude::*;
use crate::hub::{TopicChild, TopicNode};
use crate::dispatch::DeliveryView;
use crate::segment::tokens_view;

verus! {

/// No two identities in the list are equal.
pub open spec fn unique_toks(ids: Seq<Seq<char>>) -> bool {
    forall|k1: int, k2: int| 0 <= k1 < k2 < ids.len() ==> ids[k1] != ids[k2]
}

/// Registering an identity at a node: appended unless already present.
pub open spec fn add_tok(ids: Seq<Seq<char>>, id: Seq<char>) -> Seq<Seq<char>> {
    if ids.contains(id) {
        ids
    } else {
        ids.push(id)
    }
}

/// Removing an identity from a node, keeping the order of the rest.
pub open spec fn remove_tok(ids: Seq<Seq<char>>, id: Seq<char>) -> Seq<Seq<char>>
    decreases ids.len(),
{
    if ids.len() == 0 {
        ids
    } else if ids.last() == id {
        remove_tok(ids.drop_last(), id)
    } else {
        remove_tok(ids.drop_last(), id).push(ids.last())
    }
}

pub open spec fn children_of(n: TopicNode) -> Seq<TopicChild> {
    match n {
        TopicNode::Root(c) => c@,
        TopicNode::Leaf(_, _, c) => c@,
    }
}

pub open spec fn subs_of(n: TopicNode) -> Seq<Seq<char>> {
    match n {
        TopicNode::Root(_) => Seq::empty(),
        TopicNode::Leaf(_, s, _) => tokens_view(s@),
    }
}

pub open spec fn name_of(n: TopicNode) -> Seq<char> {
    match n {
        TopicNode::Root(_) => Seq::empty(),
        TopicNode::Leaf(nm, _, _) => nm@,
    }
}

/// Some child answers for this token.
pub open spec fn has_key(cs: Seq<TopicChild>, k: Seq<char>) -> bool {
    exists|i: int| 0 <= i < cs.len() && cs[i].key@ == k
}

/// The index of the child answering for this token; meaningful under
/// `distinct_keys` and `has_key`.
pub open spec fn key_index(cs: Seq<TopicChild>, k: Seq<char>) -> int {
    choose|i: int| 0 <= i < cs.len() && cs[i].key@ == k
}

pub open spec fn distinct_keys(cs: Seq<TopicChild>) -> bool {
    forall|i: int, j: int| 0 <= i < j < cs.len() ==> cs[i].key@ != cs[j].key@
}

/// Well-formedness of the tree below one node: distinct sibling keys, every
/// child a leaf, and unique subscriber identities, at every level.
pub open spec fn wf_children(cs: Seq<TopicChild>) -> bool
    decreases cs,
{
    &&& distinct_keys(cs)
    &&& forall|i: int| 0 <= i < cs.len() ==> (#[trigger] cs[i]).node is Leaf
    &&& forall|i: int| 0 <= i < cs.len() ==> unique_toks(subs_of((#[trigger] cs[i]).node))
    &&& forall|i: int| 0 <= i < cs.len() ==> wf_children(children_of((#[trigger] cs[i]).node))
}

/// The tree holds a node for this exact token path.
pub open spec fn has_path(cs: Seq<TopicChild>, path: Seq<Seq<char>>) -> bool
    decreases path.len(),
{
    &&& path.len() > 0
    &&& has_key(cs, path[0])
    &&& (path.len() == 1 || has_path(children_of(cs[key_index(cs, path[0])].node), path.skip(1)))
}

/// The identities registered at this exact path's node; empty where the tree
/// holds no such node.
pub open spec fn subs_at_path(cs: Seq<TopicChild>, path: Seq<Seq<char>>) -> Seq<Seq<char>>
    decreases path.len(),
{
    if path.len() == 0 || !has_key(cs, path[0]) {
        Seq::empty()
    } else if path.len() == 1 {
        subs_of(cs[key_index(cs, path[0])].node)
    } else {
        subs_at_path(children_of(cs[key_index(cs, path[0])].node), path.skip(1))
    }
}

/// The stored name of this exact path's node; empty where the tree holds no
/// such node.
pub open spec fn name_at_path(cs: Seq<TopicChild>, path: Seq<Seq<char>>) -> Seq<char>
    decreases path.len(),
{
    if path.len() == 0 || !has_key(cs, path[0]) {
        Seq::empty()
    } else if path.len() == 1 {
        name_of(cs[key_index(cs, path[0])].node)
    } else {
        name_at_path(children_of(cs[key_index(cs, path[0])].node), path.skip(1))
    }
}

/// `q` is a non-empty prefix of `p`.
pub open spec fn tok_prefix(q: Seq<Seq<char>>, p: Seq<Seq<char>>) -> bool {
    1 <= q.len() <= p.len() && q == p.take(q.len() as int)
}

/// The tokens joined with `.` between them.
pub open spec fn join_dots(path: Seq<Seq<char>>) -> Seq<char>
    decreases path.len(),
{
    if path.len() == 0 {
        Seq::empty()
    } else if path.len() == 1 {
        path[0]
    } else {
        join_dots(path.drop_last()) + seq!['.'] + path.last()
    }
}

/// The names of the nodes a pattern query reaches, in traversal order: `*`
/// stands for any one token, every other token must equal a child's key, and
/// only nodes at exactly the pattern's depth answer.
pub open spec fn find_names(cs: Seq<TopicChild>, pat: Seq<Seq<char>>) -> Seq<Seq<char>>
    decreases pat.len(), cs.len(),
{
    if pat.len() == 0 {
        Seq::empty()
    } else if pat[0] == seq!['*'] {
        if cs.len() == 0 {
            Seq::empty()
        } else {
            (if pat.len() == 1 {
                seq![name_of(cs[0].node)]
            } else {
                find_names(children_of(cs[0].node), pat.skip(1))
            }) + find_names(cs.skip(1), pat)
        }
    } else if !has_key(cs, pat[0]) {
        Seq::empty()
    } else if pat.len() == 1 {
        seq![name_of(cs[key_index(cs, pat[0])].node)]
    } else {
        find_names(children_of(cs[key_index(cs, pat[0])].node), pat.skip(1))
    }
}

/// One delivery per identity, in order, on one topic name.
pub open spec fn leaf_deliveries(name: Seq<char>, ids: Seq<Seq<char>>, msg: Seq<char>) -> Seq<
    DeliveryView,
> {
    ids.map_values(|id: Seq<char>| DeliveryView { subscriber_id: id, topic: name, message: msg })
}

/// The deliveries one node owes for a message: one per registered identity,
/// in registration order, on the node's own topic name.
pub open spec fn deliveries_of(n: TopicNode, msg: Seq<char>) -> Seq<DeliveryView> {
    leaf_deliveries(name_of(n), subs_of(n), msg)
}

/// The deliveries a pattern query triggers, in traversal order.
pub open spec fn find_deliveries(cs: Seq<TopicChild>, pat: Seq<Seq<char>>, msg: Seq<char>) -> Seq<
    DeliveryView,
>
    decreases pat.len(), cs.len(),
{
    if pat.len() == 0 {
        Seq::empty()
    } else if pat[0] == seq!['*'] {
        if cs.len() == 0 {
            Seq::empty()
        } else {
            (if pat.len() == 1 {
                deliveries_of(cs[0].node, msg)
            } else {
                find_deliveries(children_of(cs[0].node), pat.skip(1), msg)
            }) + find_deliveries(cs.skip(1), pat, msg)
        }
    } else if !has_key(cs, pat[0]) {
        Seq::empty()
    } else if pat.len() == 1 {
        deliveries_of(cs[key_index(cs, pat[0])].node, msg)
    } else {
        find_deliveries(children_of(cs[key_index(cs, pat[0])].node), pat.skip(1), msg)
    }
}

/// A pattern token accepts a path token when it is `*` or equal to it; a
/// whole pattern accepts a whole path position by position, at equal depth.
pub open spec fn path_matches_pattern(pat: Seq<Seq<char>>, path: Seq<Seq<char>>) -> bool {
    &&& pat.len() == path.len()
    &&& forall|k: int| 0 <= k < pat.len() ==> pat[k] == seq!['*'] || #[trigger] pat[k] == path[k]
}

/// Dropping the first child leaves every path that starts with another
/// token reading the same.
pub proof fn lemma_key_skip_one(cs: Seq<TopicChild>, q: Seq<Seq<char>>)
    requires
        distinct_keys(cs),
        cs.len() >= 1,
        q.len() > 0,
        q[0] != cs[0].key@,
    ensures
        has_path(cs.skip(1), q) == has_path(cs, q),
        subs_at_path(cs.skip(1), q) == subs_at_path(cs, q),
        name_at_path(cs.skip(1), q) == name_at_path(cs, q),
{
    let cs1 = cs.skip(1);
    assert(forall|i: int| 0 <= i < cs1.len() ==> cs1[i] == cs[i + 1]);
    if has_key(cs, q[0]) {
        let i = key_index(cs, q[0]);
        assert(0 <= i < cs.len() && cs[i].key@ == q[0]);
        assert(i >= 1);
        assert(cs1[i - 1].key@ == q[0]);
        assert(has_key(cs1, q[0]));
    }
    if has_key(cs1, q[0]) {
        let i = key_index(cs1, q[0]);
        assert(0 <= i < cs1.len() && cs1[i].key@ == q[0]);
        assert(cs[i + 1].key@ == q[0]);
        assert(has_key(cs, q[0]));
    }
    if !has_key(cs, q[0]) {
        assert(has_path(cs1, q) == has_path(cs, q));
        assert(subs_at_path(cs1, q) == subs_at_path(cs, q));
        assert(name_at_path(cs1, q) == name_at_path(cs, q));
    } else {
        let i0 = key_index(cs, q[0]);
        let i1 = key_index(cs1, q[0]);
        assert(0 <= i0 < cs.len() && cs[i0].key@ == q[0]);
        assert(0 <= i1 < cs1.len() && cs1[i1].key@ == q[0]);
        assert(cs[i1 + 1].key@ == q[0]);
        assert(i0 == i1 + 1);
        assert(cs1[i1] == cs[i0]);
    }
}

/// The pattern query yields exactly the names of the nodes whose declared
/// path it accepts.
pub proof fn lemma_find_names_iff_matched(cs: Seq<TopicChild>, pat: Seq<Seq<char>>, nm: Seq<char>)
    requires
        wf_children(cs),
        pat.len() > 0,
    ensures
        find_names(cs, pat).contains(nm) <==> exists|path: Seq<Seq<char>>|
            #[trigger] has_path(cs, path) && path_matches_pattern(pat, path) && name_at_path(
                cs,
                path,
            ) == nm,
    decreases pat.len(), cs.len(),
{
    if find_names(cs, pat).contains(nm) {
        lemma_find_names_member(cs, pat, nm);
    }
    if exists|path: Seq<Seq<char>>|
        #[trigger] has_path(cs, path) && path_matches_pattern(pat, path) && name_at_path(cs, path)
            == nm {
        let path = choose|path: Seq<Seq<char>>|
            #[trigger] has_path(cs, path) && path_matches_pattern(pat, path) && name_at_path(
                cs,
                path,
            ) == nm;
        lemma_find_names_complete(cs, pat, path);
    }
}

/// Every name the query yields belongs to a node whose path the pattern
/// accepts.
proof fn lemma_find_names_member(cs: Seq<TopicChild>, pat: Seq<Seq<char>>, nm: Seq<char>)
    requires
        wf_children(cs),
        pat.len() > 0,
        find_names(cs, pat).contains(nm),
    ensures
        exists|path: Seq<Seq<char>>|
            #[trigger] has_path(cs, path) && path_matches_pattern(pat, path) && name_at_path(
                cs,
                path,
            ) == nm,
    decreases pat.len(), cs.len(),
{
    if pat[0] == seq!['*'] {
        assert(cs.len() > 0);
        let first = if pat.len() == 1 {
            seq![name_of(cs[0].node)]
        } else {
            find_names(children_of(cs[0].node), pat.skip(1))
        };
        let others = find_names(cs.skip(1), pat);
        assert(find_names(cs, pat) == first + others);
        let k = choose|k: int| 0 <= k < find_names(cs, pat).len() && find_names(cs, pat)[k] == nm;
        if k < first.len() {
            assert(first.contains(nm)) by {
                assert(first[k] == (first + others)[k]);
            }
            lemma_key_index_of(cs, 0);
            if pat.len() == 1 {
                let path = seq![cs[0].key@];
                assert(nm == name_of(cs[0].node));
                assert(has_path(cs, path) && path_matches_pattern(pat, path) && name_at_path(
                    cs,
                    path,
                ) == nm);
            } else {
                assert(wf_children(children_of(cs[0].node)));
                lemma_find_names_member(children_of(cs[0].node), pat.skip(1), nm);
                let sub_path = choose|path: Seq<Seq<char>>|
                    #[trigger] has_path(children_of(cs[0].node), path) && path_matches_pattern(
                        pat.skip(1),
                        path,
                    ) && name_at_path(children_of(cs[0].node), path) == nm;
                let path = seq![cs[0].key@] + sub_path;
                assert(path[0] == cs[0].key@);
                assert(path.skip(1) =~= sub_path);
                assert(sub_path.len() > 0);
                assert(has_path(cs, path));
                assert(name_at_path(cs, path) == nm);
                assert(path_matches_pattern(pat, path)) by {
                    assert forall|m: int|
                        0 <= m < pat.len() implies pat[m] == seq!['*'] || #[trigger] pat[m]
                        == path[m] by {
                        if m > 0 {
                            assert(pat[m] == pat.skip(1)[m - 1]);
                            assert(path[m] == sub_path[m - 1]);
                        }
                    }
                }
                assert(has_path(cs, path) && path_matches_pattern(pat, path) && name_at_path(
                    cs,
                    path,
                ) == nm);
            }
        } else {
            assert(others.contains(nm)) by {
                assert(others[k - first.len()] == (first + others)[k]);
            }
            assert(wf_children(cs.skip(1))) by {
                assert(forall|i: int| 0 <= i < cs.skip(1).len() ==> cs.skip(1)[i] == cs[i + 1]);
            }
            lemma_find_names_member(cs.skip(1), pat, nm);
            let path = choose|path: Seq<Seq<char>>|
                #[trigger] has_path(cs.skip(1), path) && path_matches_pattern(pat, path)
                    && name_at_path(cs.skip(1), path) == nm;
            assert(path[0] != cs[0].key@) by {
                assert(has_key(cs.skip(1), path[0]));
                let i = key_index(cs.skip(1), path[0]);
                assert(0 <= i < cs.skip(1).len() && cs.skip(1)[i].key@ == path[0]);
                assert(cs[i + 1].key@ == path[0]);
                if path[0] == cs[0].key@ {
                    assert(cs[0].key@ == cs[i + 1].key@);
                }
            }
            lemma_key_skip_one(cs, path);
            assert(has_path(cs, path) && path_matches_pattern(pat, path) && name_at_path(cs, path)
                == nm);
        }
    } else {
        assert(has_key(cs, pat[0]));
        let j = key_index(cs, pat[0]);
        assert(0 <= j < cs.len() && cs[j].key@ == pat[0]);
        if pat.len() == 1 {
            assert(find_names(cs, pat) == seq![name_of(cs[j].node)]);
            assert(nm == name_of(cs[j].node)) by {
                let k = choose|k: int|
                    0 <= k < find_names(cs, pat).len() && find_names(cs, pat)[k] == nm;
            }
            let path = seq![cs[j].key@];
            assert(has_path(cs, path) && path_matches_pattern(pat, path) && name_at_path(
                cs,
                path,
            ) == nm);
        } else {
            assert(wf_children(children_of(cs[j].node)));
            lemma_find_names_member(children_of(cs[j].node), pat.skip(1), nm);
            let sub_path = choose|path: Seq<Seq<char>>|
                #[trigger] has_path(children_of(cs[j].node), path) && path_matches_pattern(
                    pat.skip(1),
                    path,
                ) && name_at_path(children_of(cs[j].node), path) == nm;
            let path = seq![cs[j].key@] + sub_path;
            assert(path[0] == cs[j].key@);
            assert(path.skip(1) =~= sub_path);
            assert(sub_path.len() > 0);
            assert(has_path(cs, path));
            assert(name_at_path(cs, path) == nm);
            assert(path_matches_pattern(pat, path)) by {
                assert forall|m: int|
                    0 <= m < pat.len() implies pat[m] == seq!['*'] || #[trigger] pat[m]
                    == path[m] by {
                    if m > 0 {
                        assert(pat[m] == pat.skip(1)[m - 1]);
                        assert(path[m] == sub_path[m - 1]);
                    }
                }
            }
            assert(has_path(cs, path) && path_matches_pattern(pat, path) && name_at_path(
                cs,
                path,
            ) == nm);
        }
    }
}

/// The query yields the name of every node whose path the pattern accepts.
proof fn lemma_find_names_complete(cs: Seq<TopicChild>, pat: Seq<Seq<char>>, path: Seq<Seq<char>>)
    requires
        wf_children(cs),
        pat.len() > 0,
        has_path(cs, path),
        path_matches_pattern(pat, path),
    ensures
        find_names(cs, pat).contains(name_at_path(cs, path)),
    decreases pat.len(), cs.len(),
{
    let nm = name_at_path(cs, path);
    assert(path.len() == pat.len());
    let j = key_index(cs, path[0]);
    assert(0 <= j < cs.len() && cs[j].key@ == path[0]);
    if pat[0] == seq!['*'] {
        assert(cs.len() > 0);
        let first = if pat.len() == 1 {
            seq![name_of(cs[0].node)]
        } else {
            find_names(children_of(cs[0].node), pat.skip(1))
        };
        let others = find_names(cs.skip(1), pat);
        assert(find_names(cs, pat) == first + others);
        if j == 0 {
            if pat.len() == 1 {
                assert(nm == name_of(cs[0].node));
                assert((first + others)[0] == nm);
                assert(find_names(cs, pat).contains(nm));
            } else {
                assert(wf_children(children_of(cs[0].node)));
                assert(path.skip(1).len() > 0);
                assert(has_path(children_of(cs[0].node), path.skip(1)));
                assert(name_at_path(children_of(cs[0].node), path.skip(1)) == nm);
                assert(path_matches_pattern(pat.skip(1), path.skip(1))) by {
                    assert forall|m: int|
                        0 <= m < pat.skip(1).len() implies pat.skip(1)[m] == seq!['*']
                        || #[trigger] pat.skip(1)[m] == path.skip(1)[m] by {
                        assert(pat.skip(1)[m] == pat[m + 1]);
                        assert(path.skip(1)[m] == path[m + 1]);
                    }
                }
                lemma_find_names_complete(children_of(cs[0].node), pat.skip(1), path.skip(1));
                let k = choose|k: int| 0 <= k < first.len() && first[k] == nm;
                assert((first + others)[k] == nm);
                assert(find_names(cs, pat).contains(nm));
            }
        } else {
            assert(path[0] != cs[0].key@);
            lemma_key_skip_one(cs, path);
            assert(wf_children(cs.skip(1))) by {
                assert(forall|i: int| 0 <= i < cs.skip(1).len() ==> cs.skip(1)[i] == cs[i + 1]);
            }
            lemma_find_names_complete(cs.skip(1), pat, path);
            assert(others.contains(nm));
            let k = choose|k: int| 0 <= k < others.len() && others[k] == nm;
            assert((first + others)[first.len() + k] == nm);
            assert(find_names(cs, pat).contains(nm));
        }
    } else {
        assert(pat[0] == path[0]);
        assert(has_key(cs, pat[0]));
        if pat.len() == 1 {
            assert(nm == name_of(cs[j].node));
            assert(find_names(cs, pat) == seq![name_of(cs[j].node)]);
            assert(find_names(cs, pat)[0] == nm);
            assert(find_names(cs, pat).contains(nm));
        } else {
            assert(wf_children(children_of(cs[j].node)));
            assert(path.skip(1).len() > 0);
            assert(has_path(children_of(cs[j].node), path.skip(1)));
            assert(name_at_path(children_of(cs[j].node), path.skip(1)) == nm);
            assert(path_matches_pattern(pat.skip(1), path.skip(1))) by {
                assert forall|m: int|
                    0 <= m < pat.skip(1).len() implies pat.skip(1)[m] == seq!['*'] || #[trigger] pat.skip(
                        1,
                    )[m] == path.skip(1)[m] by {
                    assert(pat.skip(1)[m] == pat[m + 1]);
                    assert(path.skip(1)[m] == path[m + 1]);
                }
            }
            lemma_find_names_complete(children_of(cs[j].node), pat.skip(1), path.skip(1));
            assert(find_names(cs, pat) == find_names(children_of(cs[j].node), pat.skip(1)));
        }
    }
}

pub proof fn lemma_leaf_deliveries_contains(
    nm: Seq<char>,
    ids: Seq<Seq<char>>,
    msg: Seq<char>,
    d: DeliveryView,
)
    ensures
        leaf_deliveries(nm, ids, msg).contains(d) <==> ids.contains(d.subscriber_id) && d.topic
            == nm && d.message == msg,
{
    let ds = leaf_deliveries(nm, ids, msg);
    if ds.contains(d) {
        let k = choose|k: int| 0 <= k < ds.len() && ds[k] == d;
        assert(ids[k] == d.subscriber_id);
        assert(ids.contains(d.subscriber_id));
    }
    if ids.contains(d.subscriber_id) && d.topic == nm && d.message == msg {
        let k = choose|k: int| 0 <= k < ids.len() && ids[k] == d.subscriber_id;
        assert(ds[k] == d);
        assert(ds.contains(d));
    }
}

/// A delivery is owed exactly where the pattern accepts a declared path
/// whose node carries the delivery's identity, topic name and message.
pub proof fn lemma_find_deliveries_iff_matched(
    cs: Seq<TopicChild>,
    pat: Seq<Seq<char>>,
    msg: Seq<char>,
    d: DeliveryView,
)
    requires
        wf_children(cs),
        pat.len() > 0,
    ensures
        find_deliveries(cs, pat, msg).contains(d) <==> exists|path: Seq<Seq<char>>|
            #[trigger] has_path(cs, path) && path_matches_pattern(pat, path) && subs_at_path(
                cs,
                path,
            ).contains(d.subscriber_id) && d.topic == name_at_path(cs, path) && d.message == msg,
    decreases pat.len(), cs.len(),
{
    let found = find_deliveries(cs, pat, msg);
    if pat[0] == seq!['*'] {
        if cs.len() == 0 {
            assert(!found.contains(d)) by {
                if found.contains(d) {
                    let k = choose|k: int| 0 <= k < found.len() && found[k] == d;
                }
            }
            assert forall|path: Seq<Seq<char>>| !(#[trigger] has_path(cs, path)
                && path_matches_pattern(pat, path) && subs_at_path(cs, path).contains(
                d.subscriber_id,
            ) && d.topic == name_at_path(cs, path) && d.message == msg) by {
                if has_path(cs, path) {
                    assert(has_key(cs, path[0]));
                    let i = key_index(cs, path[0]);
                }
            }
        } else {
            let first = if pat.len() == 1 {
                deliveries_of(cs[0].node, msg)
            } else {
                find_deliveries(children_of(cs[0].node), pat.skip(1), msg)
            };
            let others = find_deliveries(cs.skip(1), pat, msg);
            assert(found == first + others);
            assert(wf_children(cs.skip(1))) by {
                assert(forall|i: int| 0 <= i < cs.skip(1).len() ==> cs.skip(1)[i] == cs[i + 1]);
            }
            lemma_key_index_of(cs, 0);
            if pat.len() > 1 {
                assert(wf_children(children_of(cs[0].node)));
                lemma_find_deliveries_iff_matched(children_of(cs[0].node), pat.skip(1), msg, d);
            }
            lemma_find_deliveries_iff_matched(cs.skip(1), pat, msg, d);
            if found.contains(d) {
                let k = choose|k: int| 0 <= k < found.len() && found[k] == d;
                if k < first.len() {
                    assert(first.contains(d)) by {
                        assert(first[k] == (first + others)[k]);
                    }
                    if pat.len() == 1 {
                        lemma_leaf_deliveries_contains(
                            name_of(cs[0].node),
                            subs_of(cs[0].node),
                            msg,
                            d,
                        );
                        let path = seq![cs[0].key@];
                        assert(has_path(cs, path) && path_matches_pattern(pat, path)
                            && subs_at_path(cs, path).contains(d.subscriber_id) && d.topic
                            == name_at_path(cs, path) && d.message == msg);
                    } else {
                        let sub_path = choose|path: Seq<Seq<char>>|
                            #[trigger] has_path(children_of(cs[0].node), path)
                                && path_matches_pattern(pat.skip(1), path) && subs_at_path(
                                children_of(cs[0].node),
                                path,
                            ).contains(d.subscriber_id) && d.topic == name_at_path(
                                children_of(cs[0].node),
                                path,
                            ) && d.message == msg;
                        let path = seq![cs[0].key@] + sub_path;
                        assert(path[0] == cs[0].key@);
                        assert(path.skip(1) =~= sub_path);
                        assert(sub_path.len() > 0);
                        assert(has_path(cs, path));
                        assert(subs_at_path(cs, path) == subs_at_path(
                            children_of(cs[0].node),
                            sub_path,
                        ));
                        assert(name_at_path(cs, path) == name_at_path(
                            children_of(cs[0].node),
                            sub_path,
                        ));
                        assert(path_matches_pattern(pat, path)) by {
                            assert forall|m: int|
                                0 <= m < pat.len() implies pat[m] == seq!['*'] || #[trigger] pat[m]
                                == path[m] by {
                                if m > 0 {
                                    assert(pat[m] == pat.skip(1)[m - 1]);
                                    assert(path[m] == sub_path[m - 1]);
                                }
                            }
                        }
                        assert(has_path(cs, path) && path_matches_pattern(pat, path)
                            && subs_at_path(cs, path).contains(d.subscriber_id) && d.topic
                            == name_at_path(cs, path) && d.message == msg);
                    }
                } else {
                    assert(others.contains(d)) by {
                        assert(others[k - first.len()] == (first + others)[k]);
                    }
                    let path = choose|path: Seq<Seq<char>>|
                        #[trigger] has_path(cs.skip(1), path) && path_matches_pattern(pat, path)
                            && subs_at_path(cs.skip(1), path).contains(d.subscriber_id) && d.topic
                            == name_at_path(cs.skip(1), path) && d.message == msg;
                    assert(path[0] != cs[0].key@) by {
                        assert(has_key(cs.skip(1), path[0]));
                        let i = key_index(cs.skip(1), path[0]);
                        assert(0 <= i < cs.skip(1).len() && cs.skip(1)[i].key@ == path[0]);
                        assert(cs[i + 1].key@ == path[0]);
                        if path[0] == cs[0].key@ {
                            assert(cs[0].key@ == cs[i + 1].key@);
                        }
                    }
                    lemma_key_skip_one(cs, path);
                    assert(has_path(cs, path) && path_matches_pattern(pat, path) && subs_at_path(
                        cs,
                        path,
                    ).contains(d.subscriber_id) && d.topic == name_at_path(cs, path) && d.message
                        == msg);
                }
            }
            if exists|path: Seq<Seq<char>>|
                #[trigger] has_path(cs, path) && path_matches_pattern(pat, path) && subs_at_path(
                    cs,
                    path,
                ).contains(d.subscriber_id) && d.topic == name_at_path(cs, path) && d.message
                    == msg {
                let path = choose|path: Seq<Seq<char>>|
                    #[trigger] has_path(cs, path) && path_matches_pattern(pat, path)
                        && subs_at_path(cs, path).contains(d.subscriber_id) && d.topic
                        == name_at_path(cs, path) && d.message == msg;
                let j = key_index(cs, path[0]);
                assert(0 <= j < cs.len() && cs[j].key@ == path[0]);
                if j == 0 {
                    if pat.len() == 1 {
                        assert(path.len() == 1);
                        lemma_leaf_deliveries_contains(
                            name_of(cs[0].node),
                            subs_of(cs[0].node),
                            msg,
                            d,
                        );
                        assert(first.contains(d));
                        let k = choose|k: int| 0 <= k < first.len() && first[k] == d;
                        assert((first + others)[k] == d);
                        assert(found.contains(d));
                    } else {
                        assert(path.skip(1).len() > 0);
                        assert(has_path(children_of(cs[0].node), path.skip(1)));
                        assert(subs_at_path(children_of(cs[0].node), path.skip(1)).contains(
                            d.subscriber_id,
                        ));
                        assert(name_at_path(children_of(cs[0].node), path.skip(1)) == d.topic);
                        assert(path_matches_pattern(pat.skip(1), path.skip(1))) by {
                            assert forall|m: int|
                                0 <= m < pat.skip(1).len() implies pat.skip(1)[m] == seq!['*']
                                || #[trigger] pat.skip(1)[m] == path.skip(1)[m] by {
                                assert(pat.skip(1)[m] == pat[m + 1]);
                                assert(path.skip(1)[m] == path[m + 1]);
                            }
                        }
                        assert(first.contains(d));
                        let k = choose|k: int| 0 <= k < first.len() && first[k] == d;
                        assert((first + others)[k] == d);
                        assert(found.contains(d));
                    }
                } else {
                    assert(path[0] != cs[0].key@);
                    lemma_key_skip_one(cs, path);
                    assert(others.contains(d));
                    let k = choose|k: int| 0 <= k < others.len() && others[k] == d;
                    assert((first + others)[first.len() + k] == d);
                    assert(found.contains(d));
                }
            }
        }
    } else {
        if !has_key(cs, pat[0]) {
            assert(!found.contains(d)) by {
                if found.contains(d) {
                    let k = choose|k: int| 0 <= k < found.len() && found[k] == d;
                }
            }
            assert forall|path: Seq<Seq<char>>| !(#[trigger] has_path(cs, path)
                && path_matches_pattern(pat, path) && subs_at_path(cs, path).contains(
                d.subscriber_id,
            ) && d.topic == name_at_path(cs, path) && d.message == msg) by {
                if has_path(cs, path) && path_matches_pattern(pat, path) {
                    assert(path[0] == pat[0]);
                }
            }
        } else {
            let j = key_index(cs, pat[0]);
            assert(0 <= j < cs.len() && cs[j].key@ == pat[0]);
            if pat.len() == 1 {
                assert(found == deliveries_of(cs[j].node, msg));
                lemma_leaf_deliveries_contains(name_of(cs[j].node), subs_of(cs[j].node), msg, d);
                if found.contains(d) {
                    let path = seq![cs[j].key@];
                    assert(has_path(cs, path) && path_matches_pattern(pat, path) && subs_at_path(
                        cs,
                        path,
                    ).contains(d.subscriber_id) && d.topic == name_at_path(cs, path) && d.message
                        == msg);
                }
                if exists|path: Seq<Seq<char>>|
                    #[trigger] has_path(cs, path) && path_matches_pattern(pat, path)
                        && subs_at_path(cs, path).contains(d.subscriber_id) && d.topic
                        == name_at_path(cs, path) && d.message == msg {
                    let path = choose|path: Seq<Seq<char>>|
                        #[trigger] has_path(cs, path) && path_matches_pattern(pat, path)
                            && subs_at_path(cs, path).contains(d.subscriber_id) && d.topic
                            == name_at_path(cs, path) && d.message == msg;
                    assert(path[0] == pat[0]);
                    assert(path.len() == 1);
                    assert(found.contains(d));
                }
            } else {
                assert(found == find_deliveries(children_of(cs[j].node), pat.skip(1), msg));
                assert(wf_children(children_of(cs[j].node)));
                lemma_find_deliveries_iff_matched(children_of(cs[j].node), pat.skip(1), msg, d);
                if found.contains(d) {
                    let sub_path = choose|path: Seq<Seq<char>>|
                        #[trigger] has_path(children_of(cs[j].node), path) && path_matches_pattern(
                            pat.skip(1),
                            path,
                        ) && subs_at_path(children_of(cs[j].node), path).contains(d.subscriber_id)
                            && d.topic == name_at_path(children_of(cs[j].node), path) && d.message
                            == msg;
                    let path = seq![cs[j].key@] + sub_path;
                    assert(path[0] == cs[j].key@);
                    assert(path.skip(1) =~= sub_path);
                    assert(sub_path.len() > 0);
                    assert(has_path(cs, path));
                    assert(path_matches_pattern(pat, path)) by {
                        assert forall|m: int|
                            0 <= m < pat.len() implies pat[m] == seq!['*'] || #[trigger] pat[m]
                            == path[m] by {
                            if m > 0 {
                                assert(pat[m] == pat.skip(1)[m - 1]);
                                assert(path[m] == sub_path[m - 1]);
                            }
                        }
                    }
                    assert(has_path(cs, path) && path_matches_pattern(pat, path) && subs_at_path(
                        cs,
                        path,
                    ).contains(d.subscriber_id) && d.topic == name_at_path(cs, path) && d.message
                        == msg);
                }
                if exists|path: Seq<Seq<char>>|
                    #[trigger] has_path(cs, path) && path_matches_pattern(pat, path)
                        && subs_at_path(cs, path).contains(d.subscriber_id) && d.topic
                        == name_at_path(cs, path) && d.message == msg {
                    let path = choose|path: Seq<Seq<char>>|
                        #[trigger] has_path(cs, path) && path_matches_pattern(pat, path)
                            && subs_at_path(cs, path).contains(d.subscriber_id) && d.topic
                            == name_at_path(cs, path) && d.message == msg;
                    assert(path[0] == pat[0]);
                    assert(path.skip(1).len() > 0);
                    assert(has_path(children_of(cs[j].node), path.skip(1)));
                    assert(path_matches_pattern(pat.skip(1), path.skip(1))) by {
                        assert forall|m: int|
                            0 <= m < pat.skip(1).len() implies pat.skip(1)[m] == seq!['*']
                            || #[trigger] pat.skip(1)[m] == path.skip(1)[m] by {
                            assert(pat.skip(1)[m] == pat[m + 1]);
                            assert(path.skip(1)[m] == path[m + 1]);
                        }
                    }
                    assert(found.contains(d));
                }
            }
        }
    }
}

pub proof fn lemma_key_index_of(cs: Seq<TopicChild>, i: int)
    requires
        distinct_keys(cs),
        0 <= i < cs.len(),
    ensures
        has_key(cs, cs[i].key@),
        key_index(cs, cs[i].key@) == i,
{
    assert(has_key(cs, cs[i].key@));
    let j = key_index(cs, cs[i].key@);
    assert(0 <= j < cs.len() && cs[j].key@ == cs[i].key@);
}

/// Replacing one child by one with the same key leaves every path that
/// starts with a different token untouched.
pub proof fn lemma_key_update_frame(cs: Seq<TopicChild>, j: int, c2: TopicChild, q: Seq<Seq<char>>)
    requires
        distinct_keys(cs),
        0 <= j < cs.len(),
        c2.key@ == cs[j].key@,
        q.len() == 0 || q[0] != cs[j].key@,
    ensures
        subs_at_path(cs.update(j, c2), q) == subs_at_path(cs, q),
        name_at_path(cs.update(j, c2), q) == name_at_path(cs, q),
        has_path(cs.update(j, c2), q) == has_path(cs, q),
{
    let cs2 = cs.update(j, c2);
    assert(forall|i: int| 0 <= i < cs.len() ==> (#[trigger] cs2[i]).key@ == cs[i].key@);
    if q.len() == 0 {
        assert(subs_at_path(cs2, q) == subs_at_path(cs, q));
        assert(name_at_path(cs2, q) == name_at_path(cs, q));
        assert(!has_path(cs2, q) && !has_path(cs, q));
    } else {
        if has_key(cs, q[0]) {
            let i1 = key_index(cs, q[0]);
            assert(0 <= i1 < cs.len() && cs[i1].key@ == q[0]);
            assert(cs2[i1].key@ == q[0]);
            assert(has_key(cs2, q[0]));
        }
        if has_key(cs2, q[0]) {
            let i2 = key_index(cs2, q[0]);
            assert(0 <= i2 < cs2.len() && cs2[i2].key@ == q[0]);
            assert(cs[i2].key@ == q[0]);
            assert(has_key(cs, q[0]));
        }
        if !has_key(cs, q[0]) {
            assert(subs_at_path(cs2, q) == subs_at_path(cs, q));
            assert(name_at_path(cs2, q) == name_at_path(cs, q));
            assert(!has_path(cs2, q) && !has_path(cs, q));
        } else {
            let i1 = key_index(cs, q[0]);
            let i2 = key_index(cs2, q[0]);
            assert(0 <= i1 < cs.len() && cs[i1].key@ == q[0]);
            assert(0 <= i2 < cs2.len() && cs2[i2].key@ == q[0]);
            assert(cs[i2].key@ == q[0]);
            assert(i1 == i2);
            assert(i1 != j);
            assert(cs2[i1] == cs[i1]);
            assert(subs_at_path(cs2, q) == subs_at_path(cs, q));
            assert(name_at_path(cs2, q) == name_at_path(cs, q));
            assert(has_path(cs2, q) == has_path(cs, q));
        }
    }
}

/// Replacing one child by one with the same key: how paths that start with
/// that token read, before and after.
pub proof fn lemma_key_update_descend(
    cs: Seq<TopicChild>,
    j: int,
    c2: TopicChild,
    q: Seq<Seq<char>>,
)
    requires
        distinct_keys(cs),
        0 <= j < cs.len(),
        c2.key@ == cs[j].key@,
        q.len() > 0,
        q[0] == cs[j].key@,
    ensures
        subs_at_path(cs.update(j, c2), q) == (if q.len() == 1 {
            subs_of(c2.node)
        } else {
            subs_at_path(children_of(c2.node), q.skip(1))
        }),
        subs_at_path(cs, q) == (if q.len() == 1 {
            subs_of(cs[j].node)
        } else {
            subs_at_path(children_of(cs[j].node), q.skip(1))
        }),
        name_at_path(cs.update(j, c2), q) == (if q.len() == 1 {
            name_of(c2.node)
        } else {
            name_at_path(children_of(c2.node), q.skip(1))
        }),
        name_at_path(cs, q) == (if q.len() == 1 {
            name_of(cs[j].node)
        } else {
            name_at_path(children_of(cs[j].node), q.skip(1))
        }),
        has_path(cs.update(j, c2), q) == (q.len() == 1 || has_path(
            children_of(c2.node),
            q.skip(1),
        )),
        has_path(cs, q) == (q.len() == 1 || has_path(children_of(cs[j].node), q.skip(1))),
{
    let cs2 = cs.update(j, c2);
    assert(forall|i: int| 0 <= i < cs.len() ==> (#[trigger] cs2[i]).key@ == cs[i].key@);
    assert(distinct_keys(cs2));
    lemma_key_index_of(cs, j);
    lemma_key_index_of(cs2, j);
    assert(cs2[j] == c2);
}

/// Appending a child with a fresh key leaves every path that starts with a
/// different token untouched.
pub proof fn lemma_key_push_frame(cs: Seq<TopicChild>, c: TopicChild, q: Seq<Seq<char>>)
    requires
        distinct_keys(cs),
        !has_key(cs, c.key@),
        q.len() == 0 || q[0] != c.key@,
    ensures
        subs_at_path(cs.push(c), q) == subs_at_path(cs, q),
        name_at_path(cs.push(c), q) == name_at_path(cs, q),
        has_path(cs.push(c), q) == has_path(cs, q),
{
    let cs2 = cs.push(c);
    assert(forall|i: int| 0 <= i < cs.len() ==> cs2[i] == cs[i]);
    if q.len() == 0 {
        assert(subs_at_path(cs2, q) == subs_at_path(cs, q));
        assert(name_at_path(cs2, q) == name_at_path(cs, q));
        assert(!has_path(cs2, q) && !has_path(cs, q));
    } else {
        if has_key(cs, q[0]) {
            let i1 = key_index(cs, q[0]);
            assert(0 <= i1 < cs.len() && cs[i1].key@ == q[0]);
            assert(cs2[i1].key@ == q[0]);
            assert(has_key(cs2, q[0]));
        }
        if has_key(cs2, q[0]) {
            let i2 = key_index(cs2, q[0]);
            assert(0 <= i2 < cs2.len() && cs2[i2].key@ == q[0]);
            assert(i2 < cs.len());
            assert(has_key(cs, q[0]));
        }
        if !has_key(cs, q[0]) {
            assert(subs_at_path(cs2, q) == subs_at_path(cs, q));
            assert(name_at_path(cs2, q) == name_at_path(cs, q));
            assert(!has_path(cs2, q) && !has_path(cs, q));
        } else {
            let i1 = key_index(cs, q[0]);
            let i2 = key_index(cs2, q[0]);
            assert(0 <= i1 < cs.len() && cs[i1].key@ == q[0]);
            assert(0 <= i2 < cs2.len() && cs2[i2].key@ == q[0]);
            assert(i2 < cs.len());
            assert(i1 == i2);
            assert(cs2[i1] == cs[i1]);
            assert(subs_at_path(cs2, q) == subs_at_path(cs, q));
            assert(name_at_path(cs2, q) == name_at_path(cs, q));
            assert(has_path(cs2, q) == has_path(cs, q));
        }
    }
}

/// Appending a child with a fresh key: paths that start with that token read
/// from the new child, and read as absent before.
pub proof fn lemma_key_push_descend(cs: Seq<TopicChild>, c: TopicChild, q: Seq<Seq<char>>)
    requires
        distinct_keys(cs),
        !has_key(cs, c.key@),
        q.len() > 0,
        q[0] == c.key@,
    ensures
        subs_at_path(cs.push(c), q) == (if q.len() == 1 {
            subs_of(c.node)
        } else {
            subs_at_path(children_of(c.node), q.skip(1))
        }),
        name_at_path(cs.push(c), q) == (if q.len() == 1 {
            name_of(c.node)
        } else {
            name_at_path(children_of(c.node), q.skip(1))
        }),
        has_path(cs.push(c), q) == (q.len() == 1 || has_path(children_of(c.node), q.skip(1))),
        subs_at_path(cs, q) == Seq::<Seq<char>>::empty(),
        !has_path(cs, q),
{
    let cs2 = cs.push(c);
    let m = cs.len() as int;
    assert(cs2[m] == c);
    assert(has_key(cs2, q[0]));
    let i2 = key_index(cs2, q[0]);
    assert(0 <= i2 < cs2.len() && cs2[i2].key@ == q[0]);
    assert(i2 == m) by {
        if i2 < m {
            assert(cs[i2].key@ == q[0]);
            assert(has_key(cs, c.key@));
        }
    }
}

/// How paths read below a single fresh child.
pub proof fn lemma_key_singleton_at(c: TopicChild, q: Seq<Seq<char>>)
    requires
        q.len() > 0,
        q[0] == c.key@,
    ensures
        subs_at_path(seq![c], q) == (if q.len() == 1 {
            subs_of(c.node)
        } else {
            subs_at_path(children_of(c.node), q.skip(1))
        }),
        name_at_path(seq![c], q) == (if q.len() == 1 {
            name_of(c.node)
        } else {
            name_at_path(children_of(c.node), q.skip(1))
        }),
        has_path(seq![c], q) == (q.len() == 1 || has_path(children_of(c.node), q.skip(1))),
{
    let cs = seq![c];
    assert(cs[0] == c);
    assert(has_key(cs, q[0]));
    let i = key_index(cs, q[0]);
    assert(0 <= i < 1 && cs[i].key@ == q[0]);
}

/// A single child answers for no other token.
pub proof fn lemma_key_singleton_off(c: TopicChild, q: Seq<Seq<char>>)
    requires
        q.len() == 0 || q[0] != c.key@,
    ensures
        subs_at_path(seq![c], q) == Seq::<Seq<char>>::empty(),
        name_at_path(seq![c], q) == Seq::<char>::empty(),
        !has_path(seq![c], q),
{
    if q.len() > 0 {
        assert(!has_key(seq![c], q[0])) by {
            if has_key(seq![c], q[0]) {
                let i = choose|i: int| 0 <= i < seq![c].len() && seq![c][i].key@ == q[0];
                assert(seq![c][i] == c);
            }
        }
    }
}

/// Being a non-empty prefix steps through equal heads.
pub proof fn lemma_tok_prefix_decompose(q: Seq<Seq<char>>, p: Seq<Seq<char>>)
    requires
        q.len() >= 2,
        p.len() >= 1,
        q[0] == p[0],
    ensures
        tok_prefix(q, p) <==> tok_prefix(q.skip(1), p.skip(1)),
{
    if tok_prefix(q, p) {
        assert(q.skip(1) =~= p.skip(1).take(q.len() - 1));
    }
    if tok_prefix(q.skip(1), p.skip(1)) {
        assert(q.len() <= p.len());
        assert forall|k: int| 0 <= k < q.len() implies q[k] == p.take(q.len() as int)[k] by {
            if k > 0 {
                assert(q[k] == q.skip(1)[k - 1]);
                assert(q.skip(1)[k - 1] == p.skip(1).take(q.len() - 1)[k - 1]);
                assert(p.skip(1).take(q.len() - 1)[k - 1] == p.skip(1)[k - 1]);
                assert(p.skip(1)[k - 1] == p[k]);
            }
        }
        assert(q =~= p.take(q.len() as int));
    }
}

/// Heads and tails determine sequence equality.
pub proof fn lemma_tok_head_tail_eq(q: Seq<Seq<char>>, p: Seq<Seq<char>>)
    requires
        q.len() >= 1,
        p.len() >= 1,
        q[0] == p[0],
    ensures
        (q == p) <==> (q.skip(1) == p.skip(1)),
{
    if q.skip(1) == p.skip(1) {
        assert(q.skip(1).len() == q.len() - 1);
        assert(p.skip(1).len() == p.len() - 1);
        assert(q.len() == p.len());
        assert forall|k: int| 0 <= k < q.len() implies q[k] == p[k] by {
            if k > 0 {
                assert(q[k] == q.skip(1)[k - 1]);
                assert(p[k] == p.skip(1)[k - 1]);
            }
        }
        assert(q =~= p);
    }
    if q == p {
        assert(q.skip(1) =~= p.skip(1));
    }
}

/// Removing an identity removes exactly it, keeps every other, and
/// preserves uniqueness.
pub proof fn lemma_remove_tok_props(s: Seq<Seq<char>>, id: Seq<char>)
    ensures
        !remove_tok(s, id).contains(id),
        forall|id2: Seq<char>|
            id2 != id ==> (#[trigger] remove_tok(s, id).contains(id2) <==> s.contains(id2)),
        unique_toks(s) ==> unique_toks(remove_tok(s, id)),
    decreases s.len(),
{
    if s.len() == 0 {
        assert(!remove_tok(s, id).contains(id)) by {
            if remove_tok(s, id).contains(id) {
                let k = choose|k: int|
                    0 <= k < remove_tok(s, id).len() && remove_tok(s, id)[k] == id;
            }
        }
        assert forall|id2: Seq<char>| id2 != id implies (#[trigger] remove_tok(s, id).contains(id2)
            <==> s.contains(id2)) by {}
    } else {
        let r0 = remove_tok(s.drop_last(), id);
        lemma_remove_tok_props(s.drop_last(), id);
        assert(unique_toks(s) ==> unique_toks(s.drop_last()));
        assert forall|id2: Seq<char>| s.contains(id2) == (s.drop_last().contains(id2) || s.last()
            == id2) by {
            if s.contains(id2) {
                let k = choose|k: int| 0 <= k < s.len() && s[k] == id2;
                if k < s.len() - 1 {
                    assert(s.drop_last()[k] == s[k]);
                }
            }
            if s.drop_last().contains(id2) {
                let k = choose|k: int| 0 <= k < s.drop_last().len() && s.drop_last()[k] == id2;
                assert(s[k] == id2);
            }
            if s.last() == id2 {
                assert(s[s.len() - 1] == id2);
            }
        }
        if s.last() == id {
            assert(remove_tok(s, id) == r0);
        } else {
            let r = r0.push(s.last());
            assert(remove_tok(s, id) == r);
            assert forall|id2: Seq<char>| r.contains(id2) == (r0.contains(id2) || s.last()
                == id2) by {
                if r.contains(id2) {
                    let k = choose|k: int| 0 <= k < r.len() && r[k] == id2;
                    if k < r.len() - 1 {
                        assert(r0[k] == r[k]);
                    }
                }
                if r0.contains(id2) {
                    let k = choose|k: int| 0 <= k < r0.len() && r0[k] == id2;
                    assert(r[k] == id2);
                }
                if s.last() == id2 {
                    assert(r[r.len() - 1] == id2);
                }
            }
            if unique_toks(s) {
                assert(!s.drop_last().contains(s.last())) by {
                    if s.drop_last().contains(s.last()) {
                        let k = choose|k: int|
                            0 <= k < s.drop_last().len() && s.drop_last()[k] == s.last();
                        assert(s[k] == s[s.len() - 1]);
                    }
                }
                assert(!r0.contains(s.last()));
                assert(unique_toks(r)) by {
                    assert forall|k1: int, k2: int| 0 <= k1 < k2 < r.len() implies r[k1]
                        != r[k2] by {
                        if k2 == r.len() - 1 {
                            assert(r[k1] == r0[k1]);
                            if r0[k1] == s.last() {
                                assert(r0.contains(s.last()));
                            }
                        }
                    }
                }
            }
        }
    }
}

} // verus!
