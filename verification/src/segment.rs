//! Segments of a dot-delimited channel path, and the matching semantics of
//! wildcard patterns against literal topic paths.

use vstd::prelude::*;
use vstd::string::*;

verus! {

/// One level of a dot-delimited channel path: the single-level wildcard `*`,
/// the trailing multi-level wildcard `>`, or a literal token.
pub enum Segment {
    Asterisk,
    Greater,
    Normal(String),
}

/// The mathematical value of a `Segment`; a literal token is a sequence of
/// characters.
pub enum SegView {
    Asterisk,
    Greater,
    Normal(Seq<char>),
}

impl View for Segment {
    type V = SegView;

    open spec fn view(&self) -> SegView {
        match self {
            Segment::Asterisk => SegView::Asterisk,
            Segment::Greater => SegView::Greater,
            Segment::Normal(t) => SegView::Normal(t@),
        }
    }
}

impl PartialEq for Segment {
    fn eq(&self, other: &Segment) -> (r: bool) {
        match (self, other) {
            (Segment::Asterisk, Segment::Asterisk) => true,
            (Segment::Greater, Segment::Greater) => true,
            (Segment::Normal(a), Segment::Normal(b)) => {
                let r = *a == *b;
                proof {
                    assert((self@ == other@) == (a@ == b@));
                }
                r
            },
            _ => {
                proof {
                    assert(self@ != other@);
                }
                false
            },
        }
    }
}

impl vstd::std_specs::cmp::PartialEqSpecImpl for Segment {
    open spec fn obeys_eq_spec() -> bool {
        true
    }

    open spec fn eq_spec(&self, other: &Segment) -> bool {
        self@ == other@
    }
}

/// Whether a trie node whose segment is `g` accepts the published token
/// `token` at its own level: a literal accepts only an equal token, while
/// both wildcards accept any token.
pub open spec fn seg_matches(g: SegView, token: Seq<char>) -> bool {
    match g {
        SegView::Asterisk => true,
        SegView::Greater => true,
        SegView::Normal(t) => t == token,
    }
}

impl Segment {
    /// An explicit copy whose view is known to be preserved.
    pub fn dup(&self) -> (s: Segment)
        ensures
            s@ == self@,
    {
        match self {
            Segment::Asterisk => Segment::Asterisk,
            Segment::Greater => Segment::Greater,
            Segment::Normal(t) => Segment::Normal(t.clone()),
        }
    }

    /// Whether this segment accepts the published token `token`.
    pub fn matched(&self, token: &String) -> (r: bool)
        ensures
            r == seg_matches(self@, token@),
    {
        match self {
            Segment::Asterisk => true,
            Segment::Greater => true,
            Segment::Normal(t) => *t == *token,
        }
    }
}

/// A whole subscription pattern matches a whole literal topic path:
/// positionally segment by segment, where `>` must stand last and absorbs the
/// one-or-more remaining topic tokens.
pub open spec fn pattern_matches_topic(p: Seq<SegView>, t: Seq<Seq<char>>) -> bool
    decreases p.len(),
{
    if p.len() == 0 {
        t.len() == 0
    } else {
        match p[0] {
            SegView::Greater => p.len() == 1 && t.len() >= 1,
            _ => t.len() >= 1 && seg_matches(p[0], t[0]) && pattern_matches_topic(
                p.skip(1),
                t.skip(1),
            ),
        }
    }
}

/// The tokens of `s` split on `.`, exactly as `str::split('.')` yields them:
/// an empty string holds one empty token, and every `.` opens a new token.
pub open spec fn split_on_dot(s: Seq<char>) -> Seq<Seq<char>>
    decreases s.len(),
{
    if s.len() == 0 {
        seq![Seq::<char>::empty()]
    } else if s.last() == '.' {
        split_on_dot(s.drop_last()).push(Seq::<char>::empty())
    } else {
        let parts = split_on_dot(s.drop_last());
        parts.update(parts.len() - 1, parts.last().push(s.last()))
    }
}

pub proof fn lemma_split_len(s: Seq<char>)
    ensures
        split_on_dot(s).len() >= 1,
    decreases s.len(),
{
    if s.len() > 0 {
        lemma_split_len(s.drop_last());
    }
}

/// The classification of one token: `*` and `>` become the wildcard
/// segments, everything else is literal.
pub open spec fn seg_of_token(t: Seq<char>) -> SegView {
    if t == seq!['*'] {
        SegView::Asterisk
    } else if t == seq!['>'] {
        SegView::Greater
    } else {
        SegView::Normal(t)
    }
}

pub open spec fn tokens_view(ts: Seq<String>) -> Seq<Seq<char>> {
    ts.map_values(|t: String| t@)
}

pub open spec fn segs_view(gs: Seq<Segment>) -> Seq<SegView> {
    gs.map_values(|g: Segment| g@)
}

pub open spec fn segs_of_tokens(parts: Seq<Seq<char>>) -> Seq<SegView> {
    parts.map_values(|t: Seq<char>| seg_of_token(t))
}

/// The pattern denoted by a channel name: its tokens, classified.
pub open spec fn pattern_of(s: Seq<char>) -> Seq<SegView> {
    segs_of_tokens(split_on_dot(s))
}

/// Every token is non-empty.
pub open spec fn tokens_nonempty(parts: Seq<Seq<char>>) -> bool {
    forall|k: int| 0 <= k < parts.len() ==> parts[k].len() > 0
}

/// A well-formed subscription pattern: non-empty tokens, and `>` nowhere but
/// in the final position.
pub open spec fn valid_pattern(s: Seq<char>) -> bool {
    &&& tokens_nonempty(split_on_dot(s))
    &&& forall|k: int|
        0 <= k < split_on_dot(s).len() - 1 ==> seg_of_token(#[trigger] split_on_dot(s)[k])
            != SegView::Greater
}

/// A well-formed published topic: non-empty tokens, none of them a wildcard.
pub open spec fn valid_topic(s: Seq<char>) -> bool {
    &&& tokens_nonempty(split_on_dot(s))
    &&& forall|k: int|
        0 <= k < split_on_dot(s).len() ==> seg_of_token(#[trigger] split_on_dot(s)[k]) is Normal
}

/// Splits a channel name on `.`, keeping empty tokens, as the model
/// `split_on_dot` describes.
pub fn split_channel(s: &str) -> (tokens: Vec<String>)
    ensures
        tokens_view(tokens@) == split_on_dot(s@),
        tokens@.len() >= 1,
{
    let n = s.unicode_len();
    let mut tokens: Vec<String> = Vec::new();
    let mut start: usize = 0;
    let mut i: usize = 0;
    proof {
        assert(s@.take(0) =~= Seq::<char>::empty());
        assert(split_on_dot(s@.take(0)).last() =~= s@.subrange(0, 0));
        assert(tokens_view(tokens@) =~= split_on_dot(s@.take(0)).drop_last());
    }
    while i < n
        invariant
            n == s@.len(),
            start <= i <= n,
            tokens_view(tokens@) == split_on_dot(s@.take(i as int)).drop_last(),
            split_on_dot(s@.take(i as int)).last() == s@.subrange(start as int, i as int),
        decreases n - i,
    {
        let ghost pre = s@.take(i as int);
        let ghost post = s@.take(i + 1);
        proof {
            lemma_split_len(pre);
            assert(post.len() == i + 1);
            assert(post.drop_last() =~= pre);
            assert(post.last() == s@[i as int]);
        }
        let c = s.get_char(i);
        if c == '.' {
            let tk = s.substring_char(start, i).to_owned();
            proof {
                assert(tk@ == split_on_dot(pre).last());
                assert(tokens_view(tokens@.push(tk)) =~= tokens_view(tokens@).push(tk@));
                assert(split_on_dot(post) == split_on_dot(pre).push(Seq::<char>::empty()));
                assert(split_on_dot(post).drop_last() =~= split_on_dot(pre));
                assert(split_on_dot(pre).drop_last().push(split_on_dot(pre).last()) =~= split_on_dot(
                    pre,
                ));
                assert(split_on_dot(post).last() =~= s@.subrange(i + 1, i + 1));
            }
            tokens.push(tk);
            start = i + 1;
        } else {
            proof {
                let parts = split_on_dot(pre);
                assert(split_on_dot(post) == parts.update(
                    parts.len() - 1,
                    parts.last().push(s@[i as int]),
                ));
                assert(split_on_dot(post).drop_last() =~= parts.drop_last());
                assert(split_on_dot(post).last() == parts.last().push(s@[i as int]));
                assert(parts.last().push(s@[i as int]) =~= s@.subrange(start as int, i + 1));
            }
        }
        i = i + 1;
    }
    proof {
        assert(s@.take(n as int) =~= s@);
        lemma_split_len(s@);
    }
    let tk = s.substring_char(start, n).to_owned();
    proof {
        assert(tk@ == split_on_dot(s@).last());
        assert(tokens_view(tokens@.push(tk)) =~= tokens_view(tokens@).push(tk@));
        assert(split_on_dot(s@).drop_last().push(split_on_dot(s@).last()) =~= split_on_dot(s@));
    }
    tokens.push(tk);
    tokens
}

/// Whether the token is exactly `*`.
pub fn is_star_token(token: &String) -> (r: bool)
    ensures
        r == (token@ == seq!['*']),
{
    let r = token.as_str().unicode_len() == 1 && token.as_str().get_char(0) == '*';
    proof {
        if r {
            assert(token@ =~= seq!['*']);
        } else {
            if token@ == seq!['*'] {
                assert(token@.len() == 1);
                assert(token@[0] == '*');
            }
        }
    }
    r
}

/// Whether the token is exactly `>`.
pub fn is_greater_token(token: &String) -> (r: bool)
    ensures
        r == (token@ == seq!['>']),
{
    let r = token.as_str().unicode_len() == 1 && token.as_str().get_char(0) == '>';
    proof {
        if r {
            assert(token@ =~= seq!['>']);
        } else {
            if token@ == seq!['>'] {
                assert(token@.len() == 1);
                assert(token@[0] == '>');
            }
        }
    }
    r
}

/// Classifies one token as the segment it denotes.
pub fn classify_token(token: &String) -> (seg: Segment)
    ensures
        seg@ == seg_of_token(token@),
{
    if is_star_token(token) {
        Segment::Asterisk
    } else if is_greater_token(token) {
        Segment::Greater
    } else {
        Segment::Normal(token.clone())
    }
}

/// Splits a channel name and classifies each token.
pub fn convert_segments(channel_name: &str) -> (segs: Vec<Segment>)
    ensures
        segs_view(segs@) == pattern_of(channel_name@),
        segs@.len() >= 1,
        segs@.len() == split_on_dot(channel_name@).len(),
{
    let tokens = split_channel(channel_name);
    let mut segs: Vec<Segment> = Vec::new();
    let mut k: usize = 0;
    proof {
        assert(segs_view(segs@) =~= segs_of_tokens(tokens_view(tokens@).take(0)));
    }
    while k < tokens.len()
        invariant
            tokens_view(tokens@) == split_on_dot(channel_name@),
            k <= tokens@.len(),
            segs_view(segs@) == segs_of_tokens(tokens_view(tokens@).take(k as int)),
        decreases tokens@.len() - k,
    {
        let seg = classify_token(&tokens[k]);
        proof {
            assert(segs_view(segs@.push(seg)) =~= segs_view(segs@).push(seg@));
            assert(segs_of_tokens(tokens_view(tokens@).take(k + 1)) =~= segs_of_tokens(
                tokens_view(tokens@).take(k as int),
            ).push(seg_of_token(tokens_view(tokens@)[k as int])));
        }
        segs.push(seg);
        k = k + 1;
    }
    proof {
        assert(tokens_view(tokens@).take(tokens@.len() as int) =~= tokens_view(tokens@));
    }
    segs
}

} // verus!
