//! The topic tree of the hub: literal topics declared as a trie of named
//! nodes, subscriptions held per node, and pattern queries with `*` for one
//! level.

use vstd::prelude::*;
use vstd::string::*;
use crate::dispatch::{Delivery, DeliveryView, deliveries_view};
use crate::hub_model::{
    add_tok, children_of, deliveries_of, distinct_keys, find_deliveries, find_names, has_key,
    has_path, join_dots, key_index, lemma_key_index_of, lemma_key_push_descend,
    lemma_key_push_frame, lemma_key_singleton_at, lemma_key_singleton_off,
    lemma_key_update_descend, lemma_key_update_frame, lemma_remove_tok_props,
    leaf_deliveries, lemma_tok_head_tail_eq, lemma_tok_prefix_decompose, name_at_path, name_of,
    remove_tok,
    subs_at_path, subs_of, tok_prefix, unique_toks, wf_children,
};
use crate::router::{RouteError, parse_topic};
use crate::segment::{is_star_token, split_channel, split_on_dot, tokens_view, valid_topic};

verus! {

/// A command handed to the topic tree: register an identity, drop it, or
/// send a message to everyone registered at the matched nodes.
pub enum ProcessAction {
    Subscribe(String),
    UnSubscribe(String),
    SendMessage(String),
}

impl Clone for ProcessAction {
    fn clone(&self) -> (r: Self)
        ensures
            r == *self,
    {
        match self {
            ProcessAction::Subscribe(subscriber_id) => ProcessAction::Subscribe(
                subscriber_id.clone(),
            ),
            ProcessAction::UnSubscribe(subscriber_id) => ProcessAction::UnSubscribe(
                subscriber_id.clone(),
            ),
            ProcessAction::SendMessage(message) => ProcessAction::SendMessage(message.clone()),
        }
    }
}

/// One node of the topic tree: the virtual root, or a named topic with its
/// registered subscriber identities; both hold children keyed by token.
pub enum TopicNode {
    Root(Vec<TopicChild>),
    Leaf(String, Vec<String>, Vec<TopicChild>),
}

/// One child edge: the token it answers for and the node below it.
pub struct TopicChild {
    pub key: String,
    pub node: TopicNode,
}

impl TopicNode {
    /// Well-formedness: distinct sibling keys, unique identities at each
    /// node, every child a named topic node.
    pub open spec fn wf(&self) -> bool {
        &&& unique_toks(subs_of(*self))
        &&& wf_children(children_of(*self))
    }

    /// A fresh named topic node with no subscribers and no children.
    pub fn new(topic_name: String) -> (n: TopicNode)
        ensures
            n is Leaf,
            name_of(n) == topic_name@,
            subs_of(n) == Seq::<Seq<char>>::empty(),
            children_of(n) == Seq::<TopicChild>::empty(),
            n.wf(),
    {
        let n = TopicNode::Leaf(topic_name, Vec::new(), Vec::new());
        proof {
            assert(subs_of(n) =~= Seq::<Seq<char>>::empty());
            assert(children_of(n) =~= Seq::<TopicChild>::empty());
        }
        n
    }
}

/// Whether the list holds this identity.
fn contains_str(ids: &Vec<String>, id: &String) -> (r: bool)
    ensures
        r == tokens_view(ids@).contains(id@),
{
    let mut k: usize = 0;
    while k < ids.len()
        invariant
            k <= ids@.len(),
            forall|m: int| 0 <= m < k ==> tokens_view(ids@)[m] != id@,
        decreases ids@.len() - k,
    {
        if ids[k] == *id {
            proof {
                assert(tokens_view(ids@)[k as int] == id@);
            }
            return true;
        }
        k = k + 1;
    }
    proof {
        if tokens_view(ids@).contains(id@) {
            let m = choose|m: int|
                0 <= m < tokens_view(ids@).len() && tokens_view(ids@)[m] == id@;
        }
    }
    false
}

/// The identities that stay after dropping every copy of `id`, in order.
fn remove_str_vec(ids: &Vec<String>, id: &String) -> (out: Vec<String>)
    ensures
        tokens_view(out@) == remove_tok(tokens_view(ids@), id@),
{
    let mut out: Vec<String> = Vec::new();
    let mut k: usize = 0;
    proof {
        assert(tokens_view(ids@).take(0) =~= Seq::<Seq<char>>::empty());
        assert(tokens_view(out@) =~= Seq::<Seq<char>>::empty());
    }
    while k < ids.len()
        invariant
            k <= ids@.len(),
            tokens_view(out@) == remove_tok(tokens_view(ids@).take(k as int), id@),
        decreases ids@.len() - k,
    {
        let ghost sv = tokens_view(ids@);
        proof {
            assert(sv.take(k + 1).drop_last() =~= sv.take(k as int));
            assert(sv.take(k + 1).last() == sv[k as int]);
            assert(sv[k as int] == ids@[k as int]@);
        }
        if ids[k] == *id {
        } else {
            let d = ids[k].clone();
            proof {
                assert(tokens_view(out@.push(d)) =~= tokens_view(out@).push(ids@[k as int]@));
            }
            out.push(d);
        }
        k = k + 1;
    }
    proof {
        assert(tokens_view(ids@).take(ids@.len() as int) =~= tokens_view(ids@));
    }
    out
}

/// The stored name of a node; the virtual root has none.
fn node_name(n: &TopicNode) -> (s: String)
    ensures
        s@ == name_of(*n),
{
    match n {
        TopicNode::Root(_) => String::new(),
        TopicNode::Leaf(nm, _, _) => nm.clone(),
    }
}

/// The index of the child answering for this token, if any.
fn find_key(children: &Vec<TopicChild>, key: &String) -> (r: Option<usize>)
    ensures
        match r {
            Some(j) => j < children@.len() && children@[j as int].key@ == key@,
            None => !has_key(children@, key@),
        },
{
    let mut j: usize = 0;
    while j < children.len()
        invariant
            j <= children@.len(),
            forall|m: int| 0 <= m < j ==> children@[m].key@ != key@,
        decreases children@.len() - j,
    {
        if children[j].key == *key {
            return Some(j);
        }
        j = j + 1;
    }
    None
}

/// Builds the chain of fresh nodes for the topic's remaining tokens; each
/// node is named by the whole path that reaches it.
fn make_topic_chain(topic_paths: &Vec<String>, i: usize, joined: String) -> (c: TopicChild)
    requires
        i < topic_paths@.len(),
        joined@ == join_dots(tokens_view(topic_paths@).take(i + 1)),
    ensures
        c.key@ == tokens_view(topic_paths@)[i as int],
        wf_children(seq![c]),
        forall|q: Seq<Seq<char>>| #[trigger]
            has_path(seq![c], q) <==> tok_prefix(q, tokens_view(topic_paths@).skip(i as int)),
        forall|q: Seq<Seq<char>>| #[trigger] subs_at_path(seq![c], q) == Seq::<Seq<char>>::empty(),
        forall|q: Seq<Seq<char>>|
            tok_prefix(q, tokens_view(topic_paths@).skip(i as int)) ==> #[trigger] name_at_path(
                seq![c],
                q,
            ) == join_dots(tokens_view(topic_paths@).take(i + q.len())),
    decreases topic_paths@.len() - i,
{
    let ghost tv = tokens_view(topic_paths@);
    let ghost rest = tv.skip(i as int);
    let len = topic_paths.len();
    proof {
        assert(rest[0] == tv[i as int]);
        assert(rest.len() == tv.len() - i);
    }
    if i + 1 == len {
        let c = TopicChild {
            key: topic_paths[i].clone(),
            node: TopicNode::Leaf(joined, Vec::new(), Vec::new()),
        };
        proof {
            assert(rest =~= seq![c.key@]);
            assert(subs_of(c.node) =~= Seq::<Seq<char>>::empty());
            assert(children_of(c.node) =~= Seq::<TopicChild>::empty());
            assert(unique_toks(subs_of(c.node)));
            assert(wf_children(children_of(c.node)));
            assert(distinct_keys(seq![c]));
            assert(seq![c][0] == c);
            assert(wf_children(seq![c]));
            assert forall|q: Seq<Seq<char>>|
                #![trigger has_path(seq![c], q)]
                #![trigger subs_at_path(seq![c], q)]
                #![trigger name_at_path(seq![c], q)]
                (has_path(seq![c], q) <==> tok_prefix(q, rest)) && subs_at_path(seq![c], q)
                    == Seq::<Seq<char>>::empty() && (tok_prefix(q, rest) ==> name_at_path(
                seq![c],
                q,
            ) == join_dots(tv.take(i + q.len()))) by {
                if q.len() == 0 || q[0] != c.key@ {
                    lemma_key_singleton_off(c, q);
                    assert(!tok_prefix(q, rest)) by {
                        if tok_prefix(q, rest) {
                            assert(q[0] == rest.take(q.len() as int)[0]);
                        }
                    }
                } else {
                    lemma_key_singleton_at(c, q);
                    if q.len() == 1 {
                        assert(q =~= rest);
                        assert(tok_prefix(q, rest)) by {
                            assert(q =~= rest.take(1));
                        }
                        assert(name_at_path(seq![c], q) == joined@);
                        assert(tv.take(i + q.len()) =~= tv.take(i + 1));
                        assert(subs_at_path(seq![c], q) =~= Seq::<Seq<char>>::empty());
                    } else {
                        assert(subs_at_path(children_of(c.node), q.skip(1)) =~= Seq::<
                            Seq<char>,
                        >::empty());
                        assert(!has_path(children_of(c.node), q.skip(1)));
                        assert(!tok_prefix(q, rest));
                    }
                }
            }
        }
        c
    } else {
        let mut next_joined = joined.clone();
        next_joined.append(".");
        next_joined.append(topic_paths[i + 1].as_str());
        proof {
            reveal_strlit(".");
            assert("."@ =~= seq!['.']);
            assert(tv.take(i + 2).drop_last() =~= tv.take(i + 1));
            assert(tv.take(i + 2).last() == tv[i + 1]);
            assert(tv.take(i + 2).len() >= 2);
            assert(next_joined@ =~= join_dots(tv.take(i + 2)));
        }
        let child = make_topic_chain(topic_paths, i + 1, next_joined);
        let mut grandchildren: Vec<TopicChild> = Vec::new();
        grandchildren.push(child);
        let c = TopicChild {
            key: topic_paths[i].clone(),
            node: TopicNode::Leaf(joined, Vec::new(), grandchildren),
        };
        proof {
            let rest1 = tv.skip(i + 1);
            assert(rest.skip(1) =~= rest1);
            assert(rest.len() >= 2);
            assert(children_of(c.node) =~= seq![child]);
            assert(subs_of(c.node) =~= Seq::<Seq<char>>::empty());
            assert(unique_toks(subs_of(c.node)));
            assert(distinct_keys(seq![c]));
            assert(seq![c][0] == c);
            assert(seq![child][0] == child);
            assert(wf_children(children_of(c.node)));
            assert(wf_children(seq![c]));
            assert forall|q: Seq<Seq<char>>|
                #![trigger has_path(seq![c], q)]
                #![trigger subs_at_path(seq![c], q)]
                #![trigger name_at_path(seq![c], q)]
                (has_path(seq![c], q) <==> tok_prefix(q, rest)) && subs_at_path(seq![c], q)
                    == Seq::<Seq<char>>::empty() && (tok_prefix(q, rest) ==> name_at_path(
                seq![c],
                q,
            ) == join_dots(tv.take(i + q.len()))) by {
                if q.len() == 0 || q[0] != c.key@ {
                    lemma_key_singleton_off(c, q);
                    assert(!tok_prefix(q, rest)) by {
                        if tok_prefix(q, rest) {
                            assert(q[0] == rest.take(q.len() as int)[0]);
                        }
                    }
                } else {
                    lemma_key_singleton_at(c, q);
                    if q.len() == 1 {
                        assert(q != rest);
                        assert(tok_prefix(q, rest)) by {
                            assert(q =~= rest.take(1));
                        }
                        assert(has_path(seq![c], q));
                        assert(name_at_path(seq![c], q) == joined@);
                        assert(tv.take(i + q.len()) =~= tv.take(i + 1));
                        assert(subs_at_path(seq![c], q) =~= Seq::<Seq<char>>::empty());
                    } else {
                        assert(subs_at_path(seq![c], q) == subs_at_path(
                            seq![child],
                            q.skip(1),
                        ));
                        assert(has_path(seq![c], q) == has_path(seq![child], q.skip(1)));
                        lemma_tok_prefix_decompose(q, rest);
                        if tok_prefix(q, rest) {
                            assert(tok_prefix(q.skip(1), rest1));
                            assert(name_at_path(seq![c], q) == name_at_path(
                                seq![child],
                                q.skip(1),
                            ));
                            assert(name_at_path(seq![child], q.skip(1)) == join_dots(
                                tv.take(i + 1 + q.skip(1).len()),
                            ));
                            assert(tv.take(i + 1 + q.skip(1).len()) =~= tv.take(i + q.len()));
                        }
                    }
                }
            }
        }
        c
    }
}

/// Walks the tree along the topic's remaining tokens, creating named nodes
/// on demand; an existing full path is left as it is.
fn add_topic_by_path(
    children: &mut Vec<TopicChild>,
    topic_paths: &Vec<String>,
    path_index: usize,
    joined: String,
)
    requires
        wf_children(old(children)@),
        path_index < topic_paths@.len(),
        joined@ == join_dots(tokens_view(topic_paths@).take(path_index + 1)),
    ensures
        wf_children(final(children)@),
        forall|q: Seq<Seq<char>>| #[trigger]
            has_path(final(children)@, q) <==> has_path(old(children)@, q) || tok_prefix(
                q,
                tokens_view(topic_paths@).skip(path_index as int),
            ),
        forall|q: Seq<Seq<char>>| #[trigger]
            subs_at_path(final(children)@, q) == subs_at_path(old(children)@, q),
        forall|q: Seq<Seq<char>>|
            has_path(old(children)@, q) ==> #[trigger] name_at_path(final(children)@, q)
                == name_at_path(old(children)@, q),
        forall|q: Seq<Seq<char>>|
            !has_path(old(children)@, q) && tok_prefix(
                q,
                tokens_view(topic_paths@).skip(path_index as int),
            ) ==> #[trigger] name_at_path(final(children)@, q) == join_dots(
                tokens_view(topic_paths@).take(path_index + q.len()),
            ),
    decreases topic_paths@.len() - path_index,
{
    let ghost tv = tokens_view(topic_paths@);
    let ghost rest = tv.skip(path_index as int);
    let ghost cs0 = children@;
    let len = topic_paths.len();
    proof {
        assert(rest[0] == tv[path_index as int]);
        assert(rest.len() == tv.len() - path_index);
    }
    let key = &topic_paths[path_index];
    match find_key(children, key) {
        Some(j) => {
            proof {
                lemma_key_index_of(cs0, j as int);
            }
            if path_index + 1 == len {
                proof {
                    assert(has_path(cs0, rest));
                    assert forall|q: Seq<Seq<char>>| #[trigger]
                        has_path(children@, q) <==> has_path(cs0, q) || tok_prefix(
                            q,
                            rest,
                        ) by {
                        if tok_prefix(q, rest) {
                            assert(q =~= rest);
                        }
                    }
                }
            } else {
                let mut next_joined = joined.clone();
                next_joined.append(".");
                next_joined.append(topic_paths[path_index + 1].as_str());
                proof {
                    reveal_strlit(".");
                    assert("."@ =~= seq!['.']);
                    assert(tv.take(path_index + 2).drop_last() =~= tv.take(path_index + 1));
                    assert(tv.take(path_index + 2).last() == tv[path_index + 1]);
                    assert(tv.take(path_index + 2).len() >= 2);
                    assert(next_joined@ =~= join_dots(tv.take(path_index + 2)));
                }
                let c = &mut children[j];
                match &mut c.node {
                    TopicNode::Root(grandchildren) => {
                        add_topic_by_path(grandchildren, topic_paths, path_index + 1, next_joined);
                    },
                    TopicNode::Leaf(_, _, grandchildren) => {
                        add_topic_by_path(grandchildren, topic_paths, path_index + 1, next_joined);
                    },
                }
                proof {
                    let rest1 = tv.skip(path_index + 1);
                    assert(rest.skip(1) =~= rest1);
                    assert(rest.len() >= 2);
                    let c2 = children@[j as int];
                    assert(children@ =~= cs0.update(j as int, c2));
                    assert(c2.key@ == cs0[j as int].key@);
                    assert(c2.node is Leaf <==> cs0[j as int].node is Leaf);
                    assert(subs_of(c2.node) == subs_of(cs0[j as int].node));
                    assert(name_of(c2.node) == name_of(cs0[j as int].node));
                    assert(wf_children(children_of(c2.node)));
                    assert(wf_children(children@)) by {
                        assert(distinct_keys(children@));
                        assert(forall|m: int|
                            0 <= m < children@.len() && m != j ==> children@[m] == cs0[m]);
                    }
                    lemma_key_update_descend(cs0, j as int, c2, rest);
                    assert forall|q: Seq<Seq<char>>| #[trigger]
                        has_path(children@, q) <==> has_path(cs0, q) || tok_prefix(
                            q,
                            rest,
                        ) by {
                        if q.len() == 0 {
                            assert(!has_path(children@, q) && !has_path(cs0, q));
                            assert(!tok_prefix(q, rest));
                        } else if q[0] != rest[0] {
                            lemma_key_update_frame(cs0, j as int, c2, q);
                            assert(!tok_prefix(q, rest)) by {
                                if tok_prefix(q, rest) {
                                    assert(q[0] == rest.take(q.len() as int)[0]);
                                }
                            }
                        } else {
                            lemma_key_update_descend(cs0, j as int, c2, q);
                            if q.len() == 1 {
                                assert(has_path(children@, q) && has_path(cs0, q));
                                assert(tok_prefix(q, rest)) by {
                                    assert(q =~= rest.take(1));
                                }
                            } else {
                                lemma_tok_prefix_decompose(q, rest);
                            }
                        }
                    }
                    assert forall|q: Seq<Seq<char>>| #[trigger]
                        subs_at_path(children@, q) == subs_at_path(cs0, q) by {
                        if q.len() == 0 {
                            assert(subs_at_path(children@, q) == subs_at_path(cs0, q));
                        } else if q[0] != rest[0] {
                            lemma_key_update_frame(cs0, j as int, c2, q);
                        } else {
                            lemma_key_update_descend(cs0, j as int, c2, q);
                        }
                    }
                    assert forall|q: Seq<Seq<char>>| has_path(cs0, q) implies #[trigger]
                    name_at_path(children@, q) == name_at_path(cs0, q) by {
                        if q.len() == 0 {
                            assert(name_at_path(children@, q) == name_at_path(cs0, q));
                        } else if q[0] != rest[0] {
                            lemma_key_update_frame(cs0, j as int, c2, q);
                        } else {
                            lemma_key_update_descend(cs0, j as int, c2, q);
                            if q.len() > 1 {
                                assert(has_path(children_of(cs0[j as int].node), q.skip(1)));
                            }
                        }
                    }
                    assert forall|q: Seq<Seq<char>>|
                        !has_path(cs0, q) && tok_prefix(q, rest) implies #[trigger] name_at_path(
                        children@,
                        q,
                    ) == join_dots(tv.take(path_index + q.len())) by {
                        assert(q[0] == rest.take(q.len() as int)[0]);
                        assert(q[0] == rest[0]);
                        lemma_key_update_descend(cs0, j as int, c2, q);
                        if q.len() == 1 {
                            assert(q =~= rest.take(1));
                            assert(has_path(cs0, q));
                        } else {
                            lemma_tok_prefix_decompose(q, rest);
                            assert(!has_path(children_of(cs0[j as int].node), q.skip(1)));
                            assert(name_at_path(children@, q) == name_at_path(
                                children_of(c2.node),
                                q.skip(1),
                            ));
                            assert(name_at_path(children_of(c2.node), q.skip(1)) == join_dots(
                                tv.take(path_index + 1 + q.skip(1).len()),
                            ));
                            assert(tv.take(path_index + 1 + q.skip(1).len()) =~= tv.take(
                                path_index + q.len(),
                            ));
                        }
                    }
                }
            }
        },
        None => {
            let chain = make_topic_chain(topic_paths, path_index, joined);
            proof {
                assert(chain.key@ == rest[0]);
                assert(!has_key(cs0, chain.key@));
            }
            children.push(chain);
            proof {
                assert(children@ =~= cs0.push(chain));
                assert(wf_children(children@)) by {
                    assert(forall|m: int| 0 <= m < cs0.len() ==> children@[m] == cs0[m]);
                    assert(children@[cs0.len() as int] == chain);
                    assert(wf_children(seq![chain]));
                    assert(seq![chain][0] == chain);
                    assert(distinct_keys(children@)) by {
                        assert forall|a: int, b: int|
                            0 <= a < b < children@.len() implies children@[a].key@
                            != children@[b].key@ by {
                            if b == cs0.len() {
                                assert(children@[a] == cs0[a]);
                                if cs0[a].key@ == chain.key@ {
                                    assert(has_key(cs0, chain.key@));
                                }
                            }
                        }
                    }
                }
                assert forall|q: Seq<Seq<char>>|
                    #![trigger has_path(children@, q)]
                    #![trigger subs_at_path(children@, q)]
                    #![trigger name_at_path(children@, q)]
                    (has_path(children@, q) <==> has_path(cs0, q) || tok_prefix(q, rest)) && (
                subs_at_path(children@, q) == subs_at_path(cs0, q)) && (has_path(cs0, q)
                    ==> name_at_path(children@, q) == name_at_path(cs0, q)) && (!has_path(cs0, q)
                    && tok_prefix(q, rest) ==> name_at_path(children@, q) == join_dots(
                    tv.take(path_index + q.len()),
                )) by {
                    if q.len() == 0 {
                        assert(subs_at_path(children@, q) == subs_at_path(cs0, q));
                        assert(!has_path(children@, q) && !has_path(cs0, q));
                        assert(!tok_prefix(q, rest));
                    } else if q[0] != rest[0] {
                        lemma_key_push_frame(cs0, chain, q);
                        assert(!tok_prefix(q, rest)) by {
                            if tok_prefix(q, rest) {
                                assert(q[0] == rest.take(q.len() as int)[0]);
                            }
                        }
                    } else {
                        lemma_key_push_descend(cs0, chain, q);
                        lemma_key_singleton_at(chain, q);
                        assert(subs_at_path(children@, q) == subs_at_path(seq![chain], q));
                        assert(has_path(children@, q) == has_path(seq![chain], q));
                        assert(name_at_path(children@, q) == name_at_path(seq![chain], q));
                        assert(subs_at_path(seq![chain], q) == Seq::<Seq<char>>::empty());
                        assert(has_path(seq![chain], q) <==> tok_prefix(q, rest));
                        assert(subs_at_path(cs0, q) == Seq::<Seq<char>>::empty());
                    }
                }
            }
        },
    }
}

impl TopicNode {
    /// Declares a literal topic, creating its path of named nodes; existing
    /// nodes, their names and their subscribers are untouched. A topic with
    /// an empty or wildcard token is rejected as `InvalidTopic`.
    pub fn add_topic(&mut self, topic_name: &str) -> (r: Result<(), RouteError>)
        requires
            old(self).wf(),
        ensures
            final(self).wf(),
            r is Ok <==> valid_topic(topic_name@),
            name_of(*final(self)) == name_of(*old(self)),
            subs_of(*final(self)) == subs_of(*old(self)),
            *final(self) is Leaf <==> *old(self) is Leaf,
            match r {
                Ok(()) => {
                    &&& forall|q: Seq<Seq<char>>| #[trigger]
                        has_path(children_of(*final(self)), q) <==> has_path(
                            children_of(*old(self)),
                            q,
                        ) || tok_prefix(q, split_on_dot(topic_name@))
                    &&& forall|q: Seq<Seq<char>>| #[trigger]
                        subs_at_path(children_of(*final(self)), q) == subs_at_path(
                            children_of(*old(self)),
                            q,
                        )
                    &&& forall|q: Seq<Seq<char>>|
                        has_path(children_of(*old(self)), q) ==> #[trigger] name_at_path(
                            children_of(*final(self)),
                            q,
                        ) == name_at_path(children_of(*old(self)), q)
                    &&& forall|q: Seq<Seq<char>>|
                        !has_path(children_of(*old(self)), q) && tok_prefix(
                            q,
                            split_on_dot(topic_name@),
                        ) ==> #[trigger] name_at_path(children_of(*final(self)), q) == join_dots(
                            q,
                        )
                },
                Err(e) => e == RouteError::InvalidTopic && *final(self) == *old(self),
            },
    {
        let tokens = match parse_topic(topic_name) {
            Ok(t) => t,
            Err(e) => {
                return Err(e);
            },
        };
        let ghost tv = tokens_view(tokens@);
        let joined0 = tokens[0].clone();
        proof {
            assert(tv.take(1) =~= seq![tv[0]]);
            assert(join_dots(tv.take(1)) == tv[0]);
            assert(joined0@ == join_dots(tv.take(1)));
        }
        match self {
            TopicNode::Root(children) => {
                add_topic_by_path(children, &tokens, 0, joined0);
            },
            TopicNode::Leaf(_, _, children) => {
                add_topic_by_path(children, &tokens, 0, joined0);
            },
        }
        proof {
            assert(tv.skip(0) =~= tv);
            assert forall|q: Seq<Seq<char>>|
                !has_path(children_of(*old(self)), q) && tok_prefix(
                    q,
                    split_on_dot(topic_name@),
                ) implies #[trigger] name_at_path(children_of(*final(self)), q) == join_dots(
                q,
            ) by {
                assert(q == tv.take(q.len() as int));
                assert(tv.take(0 + q.len() as int) == q);
            }
        }
        Ok(())
    }
}

/// The publish-pattern walk: collects, in traversal order, the names of the
/// nodes at exactly the pattern's depth, with `*` standing for any one
/// token.
fn find_topics_by_path(children: &Vec<TopicChild>, topic_paths: &Vec<String>, path_index: usize) -> (v:
    Vec<String>)
    requires
        wf_children(children@),
        path_index < topic_paths@.len(),
    ensures
        tokens_view(v@) == find_names(children@, tokens_view(topic_paths@).skip(path_index as int)),
    decreases topic_paths@.len() - path_index,
{
    let ghost pat = tokens_view(topic_paths@).skip(path_index as int);
    proof {
        assert(pat[0] == tokens_view(topic_paths@)[path_index as int]);
        assert(pat.len() == topic_paths@.len() - path_index);
    }
    let len = topic_paths.len();
    let last = path_index + 1 == len;
    if is_star_token(&topic_paths[path_index]) {
        let mut out: Vec<String> = Vec::new();
        let mut j: usize = 0;
        proof {
            assert(children@.skip(0) =~= children@);
            assert(tokens_view(out@) =~= Seq::<Seq<char>>::empty());
        }
        while j < children.len()
            invariant
                wf_children(children@),
                j <= children@.len(),
                len == topic_paths@.len(),
                path_index < topic_paths@.len(),
                pat == tokens_view(topic_paths@).skip(path_index as int),
                pat.len() == topic_paths@.len() - path_index,
                pat[0] == seq!['*'],
                last == (path_index + 1 == topic_paths@.len()),
                tokens_view(out@) + find_names(children@.skip(j as int), pat) == find_names(
                    children@,
                    pat,
                ),
            decreases children@.len() - j,
        {
            let ghost csj = children@.skip(j as int);
            proof {
                assert(csj[0] == children@[j as int]);
                assert(csj.skip(1) =~= children@.skip(j + 1));
                assert(wf_children(children_of(children@[j as int].node)));
            }
            if last {
                let nm = node_name(&children[j].node);
                proof {
                    assert(tokens_view(out@.push(nm)) =~= tokens_view(out@).push(nm@));
                    assert(find_names(csj, pat) == seq![name_of(csj[0].node)] + find_names(
                        csj.skip(1),
                        pat,
                    ));
                    assert(tokens_view(out@).push(nm@) + find_names(children@.skip(j + 1), pat)
                        =~= tokens_view(out@) + (seq![name_of(csj[0].node)] + find_names(
                        csj.skip(1),
                        pat,
                    )));
                }
                out.push(nm);
            } else {
                let ghost pat1 = pat.skip(1);
                proof {
                    assert(tokens_view(topic_paths@).skip(path_index + 1) =~= pat1);
                }
                let mut sub = match &children[j].node {
                    TopicNode::Root(gc) => find_topics_by_path(gc, topic_paths, path_index + 1),
                    TopicNode::Leaf(_, _, gc) => find_topics_by_path(
                        gc,
                        topic_paths,
                        path_index + 1,
                    ),
                };
                proof {
                    assert(tokens_view(sub@) == find_names(
                        children_of(children@[j as int].node),
                        pat1,
                    ));
                    assert(find_names(csj, pat) == find_names(
                        children_of(csj[0].node),
                        pat.skip(1),
                    ) + find_names(csj.skip(1), pat));
                    assert(tokens_view(out@ + sub@) =~= tokens_view(out@) + tokens_view(sub@));
                    assert(tokens_view(out@) + tokens_view(sub@) + find_names(
                        children@.skip(j + 1),
                        pat,
                    ) =~= tokens_view(out@) + (tokens_view(sub@) + find_names(
                        children@.skip(j + 1),
                        pat,
                    )));
                }
                out.append(&mut sub);
            }
            j = j + 1;
        }
        proof {
            assert(children@.skip(children@.len() as int) =~= Seq::<TopicChild>::empty());
            assert(find_names(Seq::<TopicChild>::empty(), pat) =~= Seq::<Seq<char>>::empty());
            assert(tokens_view(out@) =~= tokens_view(out@) + Seq::<Seq<char>>::empty());
        }
        out
    } else {
        proof {
            assert(pat[0] != seq!['*']);
        }
        match find_key(children, &topic_paths[path_index]) {
            None => {
                let out: Vec<String> = Vec::new();
                proof {
                    assert(tokens_view(out@) =~= Seq::<Seq<char>>::empty());
                }
                out
            },
            Some(j) => {
                proof {
                    lemma_key_index_of(children@, j as int);
                }
                if last {
                    let nm = node_name(&children[j].node);
                    let mut out: Vec<String> = Vec::new();
                    proof {
                        assert(tokens_view(out@.push(nm)) =~= seq![nm@]);
                    }
                    out.push(nm);
                    out
                } else {
                    let ghost pat1 = pat.skip(1);
                    proof {
                        assert(tokens_view(topic_paths@).skip(path_index + 1) =~= pat1);
                        assert(wf_children(children_of(children@[j as int].node)));
                    }
                    match &children[j].node {
                        TopicNode::Root(gc) => find_topics_by_path(gc, topic_paths, path_index + 1),
                        TopicNode::Leaf(_, _, gc) => find_topics_by_path(
                            gc,
                            topic_paths,
                            path_index + 1,
                        ),
                    }
                }
            },
        }
    }
}

/// Walks the tree along the topic's remaining tokens without creating
/// anything; where the full path exists, registers the identity at the final
/// node unless it is already there.
fn subscribe_at(children: &mut Vec<TopicChild>, topic_paths: &Vec<String>, i: usize, id: &String) -> (found:
    bool)
    requires
        wf_children(old(children)@),
        i < topic_paths@.len(),
    ensures
        wf_children(final(children)@),
        found == has_path(old(children)@, tokens_view(topic_paths@).skip(i as int)),
        subs_at_path(final(children)@, tokens_view(topic_paths@).skip(i as int)) == (if found {
            add_tok(subs_at_path(old(children)@, tokens_view(topic_paths@).skip(i as int)), id@)
        } else {
            subs_at_path(old(children)@, tokens_view(topic_paths@).skip(i as int))
        }),
        forall|q: Seq<Seq<char>>|
            q != tokens_view(topic_paths@).skip(i as int) ==> #[trigger] subs_at_path(
                final(children)@,
                q,
            ) == subs_at_path(old(children)@, q),
        forall|q: Seq<Seq<char>>| #[trigger]
            has_path(final(children)@, q) == has_path(old(children)@, q),
        forall|q: Seq<Seq<char>>| #[trigger]
            name_at_path(final(children)@, q) == name_at_path(old(children)@, q),
    decreases topic_paths@.len() - i,
{
    let ghost tv = tokens_view(topic_paths@);
    let ghost rest = tv.skip(i as int);
    let ghost cs0 = children@;
    let len = topic_paths.len();
    proof {
        assert(rest[0] == tv[i as int]);
        assert(rest.len() == tv.len() - i);
    }
    let key = &topic_paths[i];
    match find_key(children, key) {
        None => {
            proof {
                assert(!has_path(cs0, rest));
            }
            false
        },
        Some(j) => {
            proof {
                lemma_key_index_of(cs0, j as int);
            }
            if i + 1 == len {
                let c = &mut children[j];
                match &mut c.node {
                    TopicNode::Leaf(_, subs, _) => {
                        if !contains_str(subs, id) {
                            subs.push(id.clone());
                        }
                    },
                    TopicNode::Root(_) => {},
                }
                proof {
                    let c2 = children@[j as int];
                    assert(children@ =~= cs0.update(j as int, c2));
                    assert(c2.key@ == cs0[j as int].key@);
                    assert(cs0[j as int].node is Leaf);
                    assert(c2.node is Leaf);
                    assert(children_of(c2.node) == children_of(cs0[j as int].node));
                    assert(name_of(c2.node) == name_of(cs0[j as int].node));
                    assert(subs_of(c2.node) == add_tok(subs_of(cs0[j as int].node), id@)) by {
                        if subs_of(cs0[j as int].node).contains(id@) {
                            assert(subs_of(c2.node) == subs_of(cs0[j as int].node));
                        } else {
                            assert(subs_of(c2.node) =~= subs_of(cs0[j as int].node).push(id@));
                        }
                    }
                    assert(unique_toks(subs_of(c2.node))) by {
                        let s0 = subs_of(cs0[j as int].node);
                        if !s0.contains(id@) {
                            let s1 = subs_of(c2.node);
                            assert(s1 =~= s0.push(id@));
                            assert forall|k1: int, k2: int| 0 <= k1 < k2 < s1.len() implies s1[k1]
                                != s1[k2] by {
                                if k2 == s1.len() - 1 {
                                    if s0[k1] == id@ {
                                        assert(s0.contains(id@));
                                    }
                                }
                            }
                        }
                    }
                    assert(wf_children(children@)) by {
                        assert(distinct_keys(children@));
                        assert(wf_children(children_of(c2.node)));
                        assert(forall|m: int|
                            0 <= m < children@.len() && m != j ==> children@[m] == cs0[m]);
                    }
                    lemma_key_update_descend(cs0, j as int, c2, rest);
                    assert(has_path(cs0, rest));
                    assert forall|q: Seq<Seq<char>>| q != rest implies #[trigger] subs_at_path(
                        children@,
                        q,
                    ) == subs_at_path(cs0, q) by {
                        if q.len() == 0 {
                            assert(subs_at_path(children@, q) == subs_at_path(cs0, q));
                        } else if q[0] != rest[0] {
                            lemma_key_update_frame(cs0, j as int, c2, q);
                        } else {
                            lemma_key_update_descend(cs0, j as int, c2, q);
                            if q.len() == 1 {
                                assert(q =~= rest);
                            }
                        }
                    }
                    assert forall|q: Seq<Seq<char>>|
                        #![trigger has_path(children@, q)]
                        #![trigger name_at_path(children@, q)]
                        has_path(children@, q) == has_path(cs0, q) && name_at_path(
                        children@,
                        q,
                    ) == name_at_path(cs0, q) by {
                        if q.len() == 0 {
                            assert(has_path(children@, q) == has_path(cs0, q));
                            assert(name_at_path(children@, q) == name_at_path(cs0, q));
                        } else if q[0] != rest[0] {
                            lemma_key_update_frame(cs0, j as int, c2, q);
                        } else {
                            lemma_key_update_descend(cs0, j as int, c2, q);
                        }
                    }
                }
                true
            } else {
                let c = &mut children[j];
                let found = match &mut c.node {
                    TopicNode::Root(gc) => subscribe_at(gc, topic_paths, i + 1, id),
                    TopicNode::Leaf(_, _, gc) => subscribe_at(gc, topic_paths, i + 1, id),
                };
                proof {
                    let rest1 = tv.skip(i + 1);
                    assert(rest.skip(1) =~= rest1);
                    assert(rest.len() >= 2);
                    let c2 = children@[j as int];
                    assert(children@ =~= cs0.update(j as int, c2));
                    assert(c2.key@ == cs0[j as int].key@);
                    assert(c2.node is Leaf <==> cs0[j as int].node is Leaf);
                    assert(subs_of(c2.node) == subs_of(cs0[j as int].node));
                    assert(name_of(c2.node) == name_of(cs0[j as int].node));
                    assert(wf_children(children@)) by {
                        assert(distinct_keys(children@));
                        assert(wf_children(children_of(c2.node)));
                        assert(forall|m: int|
                            0 <= m < children@.len() && m != j ==> children@[m] == cs0[m]);
                    }
                    lemma_key_update_descend(cs0, j as int, c2, rest);
                    assert(found == has_path(cs0, rest));
                    assert forall|q: Seq<Seq<char>>| q != rest implies #[trigger] subs_at_path(
                        children@,
                        q,
                    ) == subs_at_path(cs0, q) by {
                        if q.len() == 0 {
                            assert(subs_at_path(children@, q) == subs_at_path(cs0, q));
                        } else if q[0] != rest[0] {
                            lemma_key_update_frame(cs0, j as int, c2, q);
                        } else {
                            lemma_key_update_descend(cs0, j as int, c2, q);
                            lemma_tok_head_tail_eq(q, rest);
                            if q.len() == 1 {
                                assert(subs_at_path(children@, q) == subs_of(c2.node));
                            } else {
                                assert(q.skip(1) != rest1);
                            }
                        }
                    }
                    assert forall|q: Seq<Seq<char>>|
                        #![trigger has_path(children@, q)]
                        #![trigger name_at_path(children@, q)]
                        has_path(children@, q) == has_path(cs0, q) && name_at_path(
                        children@,
                        q,
                    ) == name_at_path(cs0, q) by {
                        if q.len() == 0 {
                            assert(has_path(children@, q) == has_path(cs0, q));
                            assert(name_at_path(children@, q) == name_at_path(cs0, q));
                        } else if q[0] != rest[0] {
                            lemma_key_update_frame(cs0, j as int, c2, q);
                        } else {
                            lemma_key_update_descend(cs0, j as int, c2, q);
                        }
                    }
                }
                found
            }
        },
    }
}

/// As `subscribe_at`, but dropping the identity from the final node.
fn unsubscribe_at(children: &mut Vec<TopicChild>, topic_paths: &Vec<String>, i: usize, id: &String) -> (found:
    bool)
    requires
        wf_children(old(children)@),
        i < topic_paths@.len(),
    ensures
        wf_children(final(children)@),
        found == has_path(old(children)@, tokens_view(topic_paths@).skip(i as int)),
        subs_at_path(final(children)@, tokens_view(topic_paths@).skip(i as int)) == (if found {
            remove_tok(subs_at_path(old(children)@, tokens_view(topic_paths@).skip(i as int)), id@)
        } else {
            subs_at_path(old(children)@, tokens_view(topic_paths@).skip(i as int))
        }),
        forall|q: Seq<Seq<char>>|
            q != tokens_view(topic_paths@).skip(i as int) ==> #[trigger] subs_at_path(
                final(children)@,
                q,
            ) == subs_at_path(old(children)@, q),
        forall|q: Seq<Seq<char>>| #[trigger]
            has_path(final(children)@, q) == has_path(old(children)@, q),
        forall|q: Seq<Seq<char>>| #[trigger]
            name_at_path(final(children)@, q) == name_at_path(old(children)@, q),
    decreases topic_paths@.len() - i,
{
    let ghost tv = tokens_view(topic_paths@);
    let ghost rest = tv.skip(i as int);
    let ghost cs0 = children@;
    let len = topic_paths.len();
    proof {
        assert(rest[0] == tv[i as int]);
        assert(rest.len() == tv.len() - i);
    }
    let key = &topic_paths[i];
    match find_key(children, key) {
        None => {
            proof {
                assert(!has_path(cs0, rest));
            }
            false
        },
        Some(j) => {
            proof {
                lemma_key_index_of(cs0, j as int);
            }
            if i + 1 == len {
                let c = &mut children[j];
                match &mut c.node {
                    TopicNode::Leaf(_, subs, _) => {
                        let filtered = remove_str_vec(subs, id);
                        *subs = filtered;
                    },
                    TopicNode::Root(_) => {},
                }
                proof {
                    let c2 = children@[j as int];
                    assert(children@ =~= cs0.update(j as int, c2));
                    assert(c2.key@ == cs0[j as int].key@);
                    assert(cs0[j as int].node is Leaf);
                    assert(c2.node is Leaf);
                    assert(children_of(c2.node) == children_of(cs0[j as int].node));
                    assert(name_of(c2.node) == name_of(cs0[j as int].node));
                    assert(subs_of(c2.node) == remove_tok(subs_of(cs0[j as int].node), id@));
                    lemma_remove_tok_props(subs_of(cs0[j as int].node), id@);
                    assert(wf_children(children@)) by {
                        assert(distinct_keys(children@));
                        assert(unique_toks(subs_of(c2.node)));
                        assert(wf_children(children_of(c2.node)));
                        assert(forall|m: int|
                            0 <= m < children@.len() && m != j ==> children@[m] == cs0[m]);
                    }
                    lemma_key_update_descend(cs0, j as int, c2, rest);
                    assert(has_path(cs0, rest));
                    assert forall|q: Seq<Seq<char>>| q != rest implies #[trigger] subs_at_path(
                        children@,
                        q,
                    ) == subs_at_path(cs0, q) by {
                        if q.len() == 0 {
                            assert(subs_at_path(children@, q) == subs_at_path(cs0, q));
                        } else if q[0] != rest[0] {
                            lemma_key_update_frame(cs0, j as int, c2, q);
                        } else {
                            lemma_key_update_descend(cs0, j as int, c2, q);
                            if q.len() == 1 {
                                assert(q =~= rest);
                            }
                        }
                    }
                    assert forall|q: Seq<Seq<char>>|
                        #![trigger has_path(children@, q)]
                        #![trigger name_at_path(children@, q)]
                        has_path(children@, q) == has_path(cs0, q) && name_at_path(
                        children@,
                        q,
                    ) == name_at_path(cs0, q) by {
                        if q.len() == 0 {
                            assert(has_path(children@, q) == has_path(cs0, q));
                            assert(name_at_path(children@, q) == name_at_path(cs0, q));
                        } else if q[0] != rest[0] {
                            lemma_key_update_frame(cs0, j as int, c2, q);
                        } else {
                            lemma_key_update_descend(cs0, j as int, c2, q);
                        }
                    }
                }
                true
            } else {
                let c = &mut children[j];
                let found = match &mut c.node {
                    TopicNode::Root(gc) => unsubscribe_at(gc, topic_paths, i + 1, id),
                    TopicNode::Leaf(_, _, gc) => unsubscribe_at(gc, topic_paths, i + 1, id),
                };
                proof {
                    let rest1 = tv.skip(i + 1);
                    assert(rest.skip(1) =~= rest1);
                    assert(rest.len() >= 2);
                    let c2 = children@[j as int];
                    assert(children@ =~= cs0.update(j as int, c2));
                    assert(c2.key@ == cs0[j as int].key@);
                    assert(c2.node is Leaf <==> cs0[j as int].node is Leaf);
                    assert(subs_of(c2.node) == subs_of(cs0[j as int].node));
                    assert(name_of(c2.node) == name_of(cs0[j as int].node));
                    assert(wf_children(children@)) by {
                        assert(distinct_keys(children@));
                        assert(wf_children(children_of(c2.node)));
                        assert(forall|m: int|
                            0 <= m < children@.len() && m != j ==> children@[m] == cs0[m]);
                    }
                    lemma_key_update_descend(cs0, j as int, c2, rest);
                    assert(found == has_path(cs0, rest));
                    assert forall|q: Seq<Seq<char>>| q != rest implies #[trigger] subs_at_path(
                        children@,
                        q,
                    ) == subs_at_path(cs0, q) by {
                        if q.len() == 0 {
                            assert(subs_at_path(children@, q) == subs_at_path(cs0, q));
                        } else if q[0] != rest[0] {
                            lemma_key_update_frame(cs0, j as int, c2, q);
                        } else {
                            lemma_key_update_descend(cs0, j as int, c2, q);
                            lemma_tok_head_tail_eq(q, rest);
                            if q.len() == 1 {
                                assert(subs_at_path(children@, q) == subs_of(c2.node));
                            } else {
                                assert(q.skip(1) != rest1);
                            }
                        }
                    }
                    assert forall|q: Seq<Seq<char>>|
                        #![trigger has_path(children@, q)]
                        #![trigger name_at_path(children@, q)]
                        has_path(children@, q) == has_path(cs0, q) && name_at_path(
                        children@,
                        q,
                    ) == name_at_path(cs0, q) by {
                        if q.len() == 0 {
                            assert(has_path(children@, q) == has_path(cs0, q));
                            assert(name_at_path(children@, q) == name_at_path(cs0, q));
                        } else if q[0] != rest[0] {
                            lemma_key_update_frame(cs0, j as int, c2, q);
                        } else {
                            lemma_key_update_descend(cs0, j as int, c2, q);
                        }
                    }
                }
                found
            }
        },
    }
}

/// Appends one delivery per identity on one topic name, in order.
fn push_leaf_deliveries(nm: &String, subs: &Vec<String>, msg: &String, out: &mut Vec<Delivery>)
    ensures
        deliveries_view(final(out)@) == deliveries_view(old(out)@) + leaf_deliveries(
            nm@,
            tokens_view(subs@),
            msg@,
        ),
{
    let ghost out0 = out@;
    let ghost full = leaf_deliveries(nm@, tokens_view(subs@), msg@);
    let mut k: usize = 0;
    proof {
        assert(deliveries_view(out@) =~= deliveries_view(out0) + full.take(0));
    }
    while k < subs.len()
        invariant
            k <= subs@.len(),
            full == leaf_deliveries(nm@, tokens_view(subs@), msg@),
            full.len() == subs@.len(),
            deliveries_view(out@) == deliveries_view(out0) + full.take(k as int),
        decreases subs@.len() - k,
    {
        let d = Delivery::new(subs[k].clone(), nm.clone(), msg.clone());
        proof {
            assert(d@ == full[k as int]);
            assert(deliveries_view(out@.push(d)) =~= deliveries_view(out@).push(d@));
            assert(deliveries_view(out0) + full.take(k as int) + seq![full[k as int]] =~= deliveries_view(
                out0,
            ) + full.take(k + 1));
            assert(deliveries_view(out@).push(d@) =~= deliveries_view(out@) + seq![d@]);
        }
        out.push(d);
        k = k + 1;
    }
    proof {
        assert(full.take(subs@.len() as int) =~= full);
    }
}

/// Appends the deliveries one node owes for a message.
fn push_node_deliveries(n: &TopicNode, msg: &String, out: &mut Vec<Delivery>)
    ensures
        deliveries_view(final(out)@) == deliveries_view(old(out)@) + deliveries_of(*n, msg@),
{
    match n {
        TopicNode::Root(_) => {
            proof {
                assert(deliveries_of(*n, msg@) =~= Seq::<DeliveryView>::empty());
                assert(deliveries_view(out@) =~= deliveries_view(out@) + deliveries_of(*n, msg@));
            }
        },
        TopicNode::Leaf(nm, subs, _) => {
            push_leaf_deliveries(nm, subs, msg, out);
        },
    }
}

/// The publish-pattern walk, collecting the deliveries of every matched
/// node in traversal order.
fn collect_deliveries(
    children: &Vec<TopicChild>,
    topic_paths: &Vec<String>,
    path_index: usize,
    msg: &String,
    out: &mut Vec<Delivery>,
)
    requires
        wf_children(children@),
        path_index < topic_paths@.len(),
    ensures
        deliveries_view(final(out)@) == deliveries_view(old(out)@) + find_deliveries(
            children@,
            tokens_view(topic_paths@).skip(path_index as int),
            msg@,
        ),
    decreases topic_paths@.len() - path_index,
{
    let ghost pat = tokens_view(topic_paths@).skip(path_index as int);
    let ghost out0 = out@;
    proof {
        assert(pat[0] == tokens_view(topic_paths@)[path_index as int]);
        assert(pat.len() == topic_paths@.len() - path_index);
    }
    let len = topic_paths.len();
    let last = path_index + 1 == len;
    if is_star_token(&topic_paths[path_index]) {
        let mut j: usize = 0;
        proof {
            assert(children@.skip(0) =~= children@);
            assert(deliveries_view(out@) =~= deliveries_view(out0) + Seq::<DeliveryView>::empty());
            assert(deliveries_view(out0) + Seq::<DeliveryView>::empty() + find_deliveries(
                children@,
                pat,
                msg@,
            ) =~= deliveries_view(out0) + find_deliveries(children@, pat, msg@));
        }
        while j < children.len()
            invariant
                wf_children(children@),
                j <= children@.len(),
                len == topic_paths@.len(),
                path_index < topic_paths@.len(),
                pat == tokens_view(topic_paths@).skip(path_index as int),
                pat.len() == topic_paths@.len() - path_index,
                pat[0] == seq!['*'],
                last == (path_index + 1 == topic_paths@.len()),
                deliveries_view(out@) + find_deliveries(children@.skip(j as int), pat, msg@)
                    == deliveries_view(out0) + find_deliveries(children@, pat, msg@),
            decreases children@.len() - j,
        {
            let ghost csj = children@.skip(j as int);
            let ghost cur = out@;
            proof {
                assert(csj[0] == children@[j as int]);
                assert(csj.skip(1) =~= children@.skip(j + 1));
                assert(wf_children(children_of(children@[j as int].node)));
            }
            if last {
                push_node_deliveries(&children[j].node, msg, out);
                proof {
                    assert(find_deliveries(csj, pat, msg@) == deliveries_of(csj[0].node, msg@)
                        + find_deliveries(csj.skip(1), pat, msg@));
                    assert(deliveries_view(out@) + find_deliveries(children@.skip(j + 1), pat, msg@)
                        =~= deliveries_view(cur) + (deliveries_of(csj[0].node, msg@)
                        + find_deliveries(csj.skip(1), pat, msg@)));
                }
            } else {
                let ghost pat1 = pat.skip(1);
                proof {
                    assert(tokens_view(topic_paths@).skip(path_index + 1) =~= pat1);
                }
                match &children[j].node {
                    TopicNode::Root(gc) => collect_deliveries(gc, topic_paths, path_index + 1, msg, out),
                    TopicNode::Leaf(_, _, gc) => collect_deliveries(
                        gc,
                        topic_paths,
                        path_index + 1,
                        msg,
                        out,
                    ),
                }
                proof {
                    assert(find_deliveries(csj, pat, msg@) == find_deliveries(
                        children_of(csj[0].node),
                        pat.skip(1),
                        msg@,
                    ) + find_deliveries(csj.skip(1), pat, msg@));
                    assert(deliveries_view(out@) + find_deliveries(children@.skip(j + 1), pat, msg@)
                        =~= deliveries_view(cur) + (find_deliveries(
                        children_of(csj[0].node),
                        pat1,
                        msg@,
                    ) + find_deliveries(csj.skip(1), pat, msg@)));
                }
            }
            j = j + 1;
        }
        proof {
            assert(children@.skip(children@.len() as int) =~= Seq::<TopicChild>::empty());
            assert(find_deliveries(Seq::<TopicChild>::empty(), pat, msg@) =~= Seq::<
                DeliveryView,
            >::empty());
            assert(deliveries_view(out@) =~= deliveries_view(out@) + Seq::<DeliveryView>::empty());
        }
    } else {
        proof {
            assert(pat[0] != seq!['*']);
        }
        match find_key(children, &topic_paths[path_index]) {
            None => {
                proof {
                    assert(find_deliveries(children@, pat, msg@) =~= Seq::<DeliveryView>::empty());
                    assert(deliveries_view(out@) =~= deliveries_view(out0) + Seq::<
                        DeliveryView,
                    >::empty());
                }
            },
            Some(j) => {
                proof {
                    lemma_key_index_of(children@, j as int);
                }
                if last {
                    push_node_deliveries(&children[j].node, msg, out);
                } else {
                    let ghost pat1 = pat.skip(1);
                    proof {
                        assert(tokens_view(topic_paths@).skip(path_index + 1) =~= pat1);
                        assert(wf_children(children_of(children@[j as int].node)));
                    }
                    match &children[j].node {
                        TopicNode::Root(gc) => collect_deliveries(
                            gc,
                            topic_paths,
                            path_index + 1,
                            msg,
                            out,
                        ),
                        TopicNode::Leaf(_, _, gc) => collect_deliveries(
                            gc,
                            topic_paths,
                            path_index + 1,
                            msg,
                            out,
                        ),
                    }
                }
            },
        }
    }
}

impl TopicNode {
    /// The names of the declared topics a pattern reaches, in traversal
    /// order; `*` stands for any one token at its position.
    pub fn find_topics(&self, topic_pattern: &str) -> (v: Vec<String>)
        requires
            self.wf(),
        ensures
            tokens_view(v@) == find_names(children_of(*self), split_on_dot(topic_pattern@)),
    {
        let tokens = split_channel(topic_pattern);
        proof {
            assert(tokens_view(tokens@).skip(0) =~= split_on_dot(topic_pattern@));
        }
        match self {
            TopicNode::Root(children) => find_topics_by_path(children, &tokens, 0),
            TopicNode::Leaf(_, _, children) => find_topics_by_path(children, &tokens, 0),
        }
    }

    /// Applies one command. At the virtual root, `Subscribe` and
    /// `UnSubscribe` act on the node of the given literal topic and
    /// `SendMessage` fans out along the pattern; a named node applies the
    /// command to itself, as its own mailbox would. The deliveries owed are
    /// returned for the caller to perform.
    pub fn process_action(&mut self, topic_pattern: &str, action: ProcessAction) -> (r: Result<
        Vec<Delivery>,
        RouteError,
    >)
        requires
            old(self).wf(),
        ensures
            final(self).wf(),
            name_of(*final(self)) == name_of(*old(self)),
            *final(self) is Leaf <==> *old(self) is Leaf,
            match action {
                ProcessAction::Subscribe(id) => match r {
                    Ok(ds) => {
                        &&& ds@.len() == 0
                        &&& valid_topic(topic_pattern@)
                        &&& if *old(self) is Root {
                            let path = split_on_dot(topic_pattern@);
                            &&& subs_of(*final(self)) == subs_of(*old(self))
                            &&& has_path(children_of(*old(self)), path)
                            &&& subs_at_path(children_of(*final(self)), path) == add_tok(
                                subs_at_path(children_of(*old(self)), path),
                                id@,
                            )
                            &&& forall|q: Seq<Seq<char>>|
                                q != path ==> #[trigger] subs_at_path(
                                    children_of(*final(self)),
                                    q,
                                ) == subs_at_path(children_of(*old(self)), q)
                            &&& forall|q: Seq<Seq<char>>| #[trigger]
                                has_path(children_of(*final(self)), q) == has_path(
                                    children_of(*old(self)),
                                    q,
                                )
                        } else {
                            &&& subs_of(*final(self)) == add_tok(subs_of(*old(self)), id@)
                            &&& children_of(*final(self)) == children_of(*old(self))
                        }
                    },
                    Err(e) => {
                        &&& subs_of(*final(self)) == subs_of(*old(self))
                        &&& forall|q: Seq<Seq<char>>| #[trigger]
                            subs_at_path(children_of(*final(self)), q) == subs_at_path(
                                children_of(*old(self)),
                                q,
                            )
                        &&& forall|q: Seq<Seq<char>>| #[trigger]
                            has_path(children_of(*final(self)), q) == has_path(
                                children_of(*old(self)),
                                q,
                            )
                        &&& (e == RouteError::InvalidTopic <==> !valid_topic(topic_pattern@))
                        &&& (e == RouteError::RouteNotFound <==> valid_topic(topic_pattern@)
                            && *old(self) is Root && !has_path(
                            children_of(*old(self)),
                            split_on_dot(topic_pattern@),
                        ))
                    },
                },
                ProcessAction::UnSubscribe(id) => match r {
                    Ok(ds) => {
                        &&& ds@.len() == 0
                        &&& valid_topic(topic_pattern@)
                        &&& if *old(self) is Root {
                            let path = split_on_dot(topic_pattern@);
                            &&& subs_of(*final(self)) == subs_of(*old(self))
                            &&& has_path(children_of(*old(self)), path)
                            &&& subs_at_path(children_of(*final(self)), path) == remove_tok(
                                subs_at_path(children_of(*old(self)), path),
                                id@,
                            )
                            &&& forall|q: Seq<Seq<char>>|
                                q != path ==> #[trigger] subs_at_path(
                                    children_of(*final(self)),
                                    q,
                                ) == subs_at_path(children_of(*old(self)), q)
                            &&& forall|q: Seq<Seq<char>>| #[trigger]
                                has_path(children_of(*final(self)), q) == has_path(
                                    children_of(*old(self)),
                                    q,
                                )
                        } else {
                            &&& subs_of(*final(self)) == remove_tok(subs_of(*old(self)), id@)
                            &&& children_of(*final(self)) == children_of(*old(self))
                        }
                    },
                    Err(e) => {
                        &&& subs_of(*final(self)) == subs_of(*old(self))
                        &&& forall|q: Seq<Seq<char>>| #[trigger]
                            subs_at_path(children_of(*final(self)), q) == subs_at_path(
                                children_of(*old(self)),
                                q,
                            )
                        &&& forall|q: Seq<Seq<char>>| #[trigger]
                            has_path(children_of(*final(self)), q) == has_path(
                                children_of(*old(self)),
                                q,
                            )
                        &&& (e == RouteError::InvalidTopic <==> !valid_topic(topic_pattern@))
                        &&& (e == RouteError::RouteNotFound <==> valid_topic(topic_pattern@)
                            && *old(self) is Root && !has_path(
                            children_of(*old(self)),
                            split_on_dot(topic_pattern@),
                        ))
                    },
                },
                ProcessAction::SendMessage(msg) => {
                    &&& *final(self) == *old(self)
                    &&& match r {
                        Ok(ds) => deliveries_view(ds@) == (if *old(self) is Root {
                            find_deliveries(
                                children_of(*old(self)),
                                split_on_dot(topic_pattern@),
                                msg@,
                            )
                        } else {
                            deliveries_of(*old(self), msg@)
                        }),
                        Err(_) => false,
                    }
                },
            },
    {
        match action {
            ProcessAction::Subscribe(id) => {
                let tokens = match parse_topic(topic_pattern) {
                    Ok(t) => t,
                    Err(e) => {
                        return Err(e);
                    },
                };
                match self {
                    TopicNode::Root(children) => {
                        let found = subscribe_at(children, &tokens, 0, &id);
                        proof {
                            assert(tokens_view(tokens@).skip(0) =~= split_on_dot(topic_pattern@));
                        }
                        if found {
                            Ok(Vec::new())
                        } else {
                            Err(RouteError::RouteNotFound)
                        }
                    },
                    TopicNode::Leaf(_, subs, _) => {
                        if !contains_str(subs, &id) {
                            subs.push(id);
                        }
                        proof {
                            if subs_of(*old(self)).contains(id@) {
                                assert(subs_of(*self) == subs_of(*old(self)));
                            } else {
                                assert(subs_of(*self) =~= subs_of(*old(self)).push(id@));
                            }
                            assert(unique_toks(subs_of(*self))) by {
                                let s0 = subs_of(*old(self));
                                if !s0.contains(id@) {
                                    let s1 = subs_of(*self);
                                    assert(s1 =~= s0.push(id@));
                                    assert forall|k1: int, k2: int|
                                        0 <= k1 < k2 < s1.len() implies s1[k1] != s1[k2] by {
                                        if k2 == s1.len() - 1 {
                                            if s0[k1] == id@ {
                                                assert(s0.contains(id@));
                                            }
                                        }
                                    }
                                }
                            }
                        }
                        Ok(Vec::new())
                    },
                }
            },
            ProcessAction::UnSubscribe(id) => {
                let tokens = match parse_topic(topic_pattern) {
                    Ok(t) => t,
                    Err(e) => {
                        return Err(e);
                    },
                };
                match self {
                    TopicNode::Root(children) => {
                        let found = unsubscribe_at(children, &tokens, 0, &id);
                        proof {
                            assert(tokens_view(tokens@).skip(0) =~= split_on_dot(topic_pattern@));
                        }
                        if found {
                            Ok(Vec::new())
                        } else {
                            Err(RouteError::RouteNotFound)
                        }
                    },
                    TopicNode::Leaf(_, subs, _) => {
                        let filtered = remove_str_vec(subs, &id);
                        *subs = filtered;
                        proof {
                            lemma_remove_tok_props(subs_of(*old(self)), id@);
                        }
                        Ok(Vec::new())
                    },
                }
            },
            ProcessAction::SendMessage(msg) => {
                let tokens = split_channel(topic_pattern);
                let mut out: Vec<Delivery> = Vec::new();
                proof {
                    assert(deliveries_view(out@) =~= Seq::<DeliveryView>::empty());
                }
                match self {
                    TopicNode::Root(children) => {
                        collect_deliveries(children, &tokens, 0, &msg, &mut out);
                        proof {
                            assert(tokens_view(tokens@).skip(0) =~= split_on_dot(topic_pattern@));
                            assert(deliveries_view(out@) =~= find_deliveries(
                                children_of(*old(self)),
                                split_on_dot(topic_pattern@),
                                msg@,
                            ));
                        }
                    },
                    TopicNode::Leaf(nm, subs, _) => {
                        push_leaf_deliveries(nm, subs, &msg, &mut out);
                        proof {
                            assert(deliveries_view(out@) =~= deliveries_of(*old(self), msg@));
                        }
                    },
                }
                Ok(out)
            },
        }
    }
}

} // verus!
