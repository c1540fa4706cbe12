//! The broker's bookkeeping of its clients: which topics each client
//! subscribed to, the topic tree that finds the subscribers of a topic, and
//! the last will each client declared.
//! The network side (sockets, channels, logging) drives it from outside.
use crate::frame::Frame;
use crate::protocol::{parse_message, spec_parse_message, Message, MessageView, ProtocolResult};
use crate::topic_tree::{
    lemma_len_counts_subscriptions, path_view, spec_insert, spec_remove, subscription_pairs, TopicTree,
};
use std::hash::Hash;
use vstd::laws_eq::obeys_concrete_eq;
use vstd::prelude::*;
use vstd::string::StrSliceExecFns;

verus! {

/// The segments of a topic, split at every `/` (an empty topic, or one that
/// starts or ends with `/`, has empty segments).
pub open spec fn split_topic_spec(s: Seq<char>) -> Seq<Seq<char>>
    decreases s.len(),
{
    if s.len() == 0 {
        seq![Seq::empty()]
    } else {
        let rest = split_topic_spec(s.drop_last());
        if s.last() == '/' {
            rest.push(Seq::empty())
        } else {
            rest.update(rest.len() - 1, rest.last().push(s.last()))
        }
    }
}

/// The segments joined again with `/` between them.
pub open spec fn join_topic_spec(segments: Seq<Seq<char>>) -> Seq<char>
    decreases segments.len(),
{
    if segments.len() <= 1 {
        if segments.len() == 0 {
            Seq::empty()
        } else {
            segments[0]
        }
    } else {
        join_topic_spec(segments.drop_last()) + seq!['/'] + segments.last()
    }
}

/// Splitting always gives at least one segment, and no segment holds a `/`.
pub proof fn lemma_split_topic_shape(s: Seq<char>)
    ensures
        split_topic_spec(s).len() >= 1,
        forall|i: int, j: int|
            0 <= i < split_topic_spec(s).len() && 0 <= j < split_topic_spec(s)[i].len()
                ==> split_topic_spec(s)[i][j] != '/',
    decreases s.len(),
{
    if s.len() > 0 {
        lemma_split_topic_shape(s.drop_last());
    }
}

/// Joining the segments of a topic gives the topic back.
pub proof fn lemma_join_split_topic(s: Seq<char>)
    ensures
        join_topic_spec(split_topic_spec(s)) == s,
    decreases s.len(),
{
    if s.len() > 0 {
        let rest = split_topic_spec(s.drop_last());
        lemma_join_split_topic(s.drop_last());
        lemma_split_topic_shape(s.drop_last());
        if s.last() == '/' {
            assert(rest.push(Seq::empty()).drop_last() =~= rest);
            assert(s =~= s.drop_last() + seq!['/'] + Seq::<char>::empty());
        } else {
            let up = rest.update(rest.len() - 1, rest.last().push(s.last()));
            if rest.len() == 1 {
                assert(s =~= rest[0].push(s.last()));
            } else {
                assert(up.drop_last() =~= rest.drop_last());
                assert(up.last() == rest.last().push(s.last()));
                assert(join_topic_spec(rest) == join_topic_spec(rest.drop_last()) + seq!['/'] + rest.last());
                let j = join_topic_spec(rest.drop_last());
                assert(s =~= s.drop_last().push(s.last()));
                assert((j + seq!['/'] + rest.last()).push(s.last()) =~= j + seq!['/'] + rest.last().push(s.last()));
                assert(join_topic_spec(up) == join_topic_spec(up.drop_last()) + seq!['/'] + up.last());
            }
        }
    }
}

/// Different topics have different segments.
pub proof fn lemma_split_topic_injective(s: Seq<char>, t: Seq<char>)
    ensures
        split_topic_spec(s) == split_topic_spec(t) ==> s == t,
{
    lemma_join_split_topic(s);
    lemma_join_split_topic(t);
}

/// Splits a topic into its path segments at every `/`.
pub fn split_topic(topic: &str) -> (segments: Vec<String>)
    ensures
        path_view(segments@) == split_topic_spec(topic@),
{
    let n: usize = topic.unicode_len();
    let mut segments: Vec<String> = Vec::new();
    let mut start: usize = 0;
    let mut i: usize = 0;
    proof {
        assert(topic@.subrange(0, 0) =~= Seq::<char>::empty());
        assert(path_view(segments@).push(topic@.subrange(0, 0)) =~= seq![Seq::<char>::empty()]);
    }
    while i < n
        invariant
            n == topic@.len(),
            start <= i <= n,
            path_view(segments@).push(topic@.subrange(start as int, i as int)) == split_topic_spec(
                topic@.subrange(0, i as int),
            ),
        decreases n - i,
    {
        let c: char = topic.get_char(i);
        let ghost prefix = topic@.subrange(0, i + 1);
        proof {
            assert(prefix.drop_last() =~= topic@.subrange(0, i as int));
            assert(prefix.last() == c);
        }
        if c == '/' {
            let segment: String = topic.substring_char(start, i).to_owned();
            let ghost before = segments@;
            segments.push(segment);
            start = i + 1;
            proof {
                assert(topic@.subrange(start as int, i + 1) =~= Seq::<char>::empty());
                assert(path_view(segments@) =~= path_view(before).push(segment@));
            }
        } else {
            proof {
                assert(topic@.subrange(start as int, i + 1) =~= topic@.subrange(start as int, i as int).push(c));
            }
        }
        i = i + 1;
    }
    let last: String = topic.substring_char(start, n).to_owned();
    segments.push(last);
    proof {
        assert(topic@.subrange(0, n as int) =~= topic@);
    }
    segments
}

/// One client and the topics it subscribed to, in the order it subscribed.
struct ClientTopics<C> {
    client: C,
    topics: Vec<String>,
}

/// A client's last will: the topic and payload to publish when the client
/// disconnects.
struct Will<C> {
    client: C,
    topic: String,
    payload: Vec<u8>,
}

/// The broker's clients, their subscriptions and their last wills.
pub struct ClientRegistry<C> where C: Copy + PartialEq + Eq + Hash {
    clients: Vec<ClientTopics<C>>,
    subscriptions: TopicTree<C>,
    wills: Vec<Will<C>>,
}

/// Each client has at most one will.
spec fn distinct_will_clients<C>(ws: Seq<Will<C>>) -> bool {
    forall|i: int, j: int| 0 <= i < j < ws.len() ==> #[trigger] ws[i].client != #[trigger] ws[j].client
}

/// The position of the will of client `c`, if any.
spec fn will_index<C>(ws: Seq<Will<C>>, c: C) -> Option<int> {
    if exists|i: int| 0 <= i < ws.len() && #[trigger] ws[i].client == c {
        Some(choose|i: int| 0 <= i < ws.len() && #[trigger] ws[i].client == c)
    } else {
        None
    }
}

/// The topic and payload of a will, as characters and bytes.
spec fn will_view<C>(w: Will<C>) -> (Seq<char>, Seq<u8>) {
    (w.topic@, w.payload@)
}

/// The wills as a map from client to topic and payload.
spec fn will_map<C>(ws: Seq<Will<C>>) -> Map<C, (Seq<char>, Seq<u8>)> {
    Map::new(|c: C| will_index(ws, c) is Some, |c: C| will_view(ws[will_index(ws, c)->Some_0]))
}

proof fn lemma_will_index_unique<C>(ws: Seq<Will<C>>, c: C, i: int)
    requires
        distinct_will_clients(ws),
        0 <= i < ws.len(),
        ws[i].client == c,
    ensures
        will_index(ws, c) == Some(i),
{
    let k = choose|k: int| 0 <= k < ws.len() && #[trigger] ws[k].client == c;
    if k < i {
        assert(ws[k].client != ws[i].client);
    } else if i < k {
        assert(ws[i].client != ws[k].client);
    }
}

/// Adding the will of a client without one.
proof fn lemma_will_map_push<C>(ws: Seq<Will<C>>, w: Will<C>)
    requires
        distinct_will_clients(ws),
        will_index(ws, w.client) is None,
    ensures
        distinct_will_clients(ws.push(w)),
        will_map(ws.push(w)) == will_map(ws).insert(w.client, will_view(w)),
{
    let w2 = ws.push(w);
    assert forall|a: int, b: int| 0 <= a < b < w2.len() implies #[trigger] w2[a].client != #[trigger] w2[b].client by {
        if b == ws.len() {
            assert(ws[a].client != w.client);
        } else {
            assert(ws[a].client != ws[b].client);
        }
    }
    assert forall|c: C| #[trigger] will_index(w2, c) == if c == w.client {
        Some(ws.len() as int)
    } else {
        will_index(ws, c)
    } by {
        if c == w.client {
            lemma_will_index_unique(w2, c, ws.len() as int);
        } else if will_index(ws, c) is Some {
            let j = will_index(ws, c)->Some_0;
            lemma_will_index_unique(w2, c, j);
        } else if will_index(w2, c) is Some {
            let j = will_index(w2, c)->Some_0;
            assert(ws[j].client == c);
        }
    }
    assert forall|c: C| #[trigger] will_map(w2).contains_key(c) implies will_map(w2)[c] == will_map(ws).insert(w.client, will_view(w))[c] by {
        if c != w.client {
            let j = will_index(ws, c)->Some_0;
            assert(w2[j] == ws[j]);
        }
    }
    assert(will_map(w2) =~= will_map(ws).insert(w.client, will_view(w)));
}

/// Taking out the will at `i`.
proof fn lemma_will_map_remove<C>(ws: Seq<Will<C>>, i: int)
    requires
        distinct_will_clients(ws),
        0 <= i < ws.len(),
    ensures
        distinct_will_clients(ws.remove(i)),
        will_index(ws.remove(i), ws[i].client) is None,
        will_map(ws.remove(i)) == will_map(ws).remove(ws[i].client),
{
    let w2 = ws.remove(i);
    assert forall|a: int, b: int| 0 <= a < b < w2.len() implies #[trigger] w2[a].client != #[trigger] w2[b].client by {
        let a1 = if a < i { a } else { a + 1 };
        let b1 = if b < i { b } else { b + 1 };
        assert(w2[a] == ws[a1]);
        assert(w2[b] == ws[b1]);
    }
    assert forall|c: C| c != ws[i].client implies #[trigger] will_index(w2, c) is Some == will_index(ws, c) is Some && (will_index(ws, c) is Some ==> w2[will_index(w2, c)->Some_0] == ws[will_index(ws, c)->Some_0]) by {
        if will_index(ws, c) is Some {
            let j = will_index(ws, c)->Some_0;
            let j2 = if j < i { j } else { j - 1 };
            assert(w2[j2] == ws[j]);
            lemma_will_index_unique(w2, c, j2);
        } else if will_index(w2, c) is Some {
            let j = will_index(w2, c)->Some_0;
            let j1 = if j < i { j } else { j + 1 };
            assert(w2[j] == ws[j1]);
        }
    }
    if will_index(w2, ws[i].client) is Some {
        let j = will_index(w2, ws[i].client)->Some_0;
        let j1 = if j < i { j } else { j + 1 };
        assert(w2[j] == ws[j1]);
        assert(ws[j1].client != ws[i].client);
    }
    assert(will_map(w2) =~= will_map(ws).remove(ws[i].client));
}

/// The position of the will of `c`, if there is one.
fn will_position<C>(ws: &Vec<Will<C>>, c: &C) -> (pos: Option<usize>) where
    C: Copy + PartialEq + Eq + Hash,

    requires
        obeys_concrete_eq::<C>(),
        distinct_will_clients(ws@),
    ensures
        match pos {
            Some(i) => will_index(ws@, *c) == Some(i as int),
            None => will_index(ws@, *c) is None,
        },
{
    let n: usize = ws.len();
    let mut i: usize = 0;
    while i < n
        invariant
            n == ws@.len(),
            i <= n,
            obeys_concrete_eq::<C>(),
            distinct_will_clients(ws@),
            forall|j: int| 0 <= j < i ==> #[trigger] ws@[j].client != *c,
        decreases n - i,
    {
        proof {
            reveal(obeys_concrete_eq);
        }
        if ws[i].client == *c {
            proof {
                lemma_will_index_unique(ws@, *c, i as int);
            }
            return Some(i);
        }
        i = i + 1;
    }
    None
}

/// The topics of an entry, as characters.
spec fn entry_topics<C>(entry: ClientTopics<C>) -> Seq<Seq<char>> {
    entry.topics@.map_values(|s: String| s@)
}

/// Each client appears in at most one entry.
spec fn distinct_clients<C>(entries: Seq<ClientTopics<C>>) -> bool {
    forall|i: int, j: int| 0 <= i < j < entries.len() ==> #[trigger] entries[i].client != #[trigger] entries[j].client
}

/// The position of the entry of client `c`, if any.
spec fn entry_index<C>(entries: Seq<ClientTopics<C>>, c: C) -> Option<int> {
    if exists|i: int| 0 <= i < entries.len() && #[trigger] entries[i].client == c {
        Some(choose|i: int| 0 <= i < entries.len() && #[trigger] entries[i].client == c)
    } else {
        None
    }
}

/// The sequence without `t` (it holds `t` at most once).
pub open spec fn remove_topic(s: Seq<Seq<char>>, t: Seq<char>) -> Seq<Seq<char>> {
    if s.contains(t) {
        s.remove(s.index_of(t))
    } else {
        s
    }
}

/// The topics of each client after `c` subscribes to `t`.
pub open spec fn spec_subscribe_topics<C>(m: Map<C, Seq<Seq<char>>>, c: C, t: Seq<char>) -> Map<
    C,
    Seq<Seq<char>>,
> {
    if m.contains_key(c) {
        if m[c].contains(t) {
            m
        } else {
            m.insert(c, m[c].push(t))
        }
    } else {
        m.insert(c, seq![t])
    }
}

/// The topics of each client after `c` unsubscribes from `t`: a client left
/// with no topics is forgotten.
pub open spec fn spec_unsubscribe_topics<C>(m: Map<C, Seq<Seq<char>>>, c: C, t: Seq<char>) -> Map<
    C,
    Seq<Seq<char>>,
> {
    if m.contains_key(c) {
        if remove_topic(m[c], t).len() == 0 {
            m.remove(c)
        } else {
            m.insert(c, remove_topic(m[c], t))
        }
    } else {
        m
    }
}

/// The subscription tree after `c` leaves each topic of `topics`, in order.
pub open spec fn spec_remove_topics<C>(
    tree: Map<Seq<Seq<char>>, Set<C>>,
    topics: Seq<Seq<char>>,
    c: C,
) -> Map<Seq<Seq<char>>, Set<C>>
    decreases topics.len(),
{
    if topics.len() == 0 {
        tree
    } else {
        spec_remove_topics(spec_remove(tree, split_topic_spec(topics[0]), c), topics.drop_first(), c)
    }
}

proof fn lemma_entry_index_unique<C>(entries: Seq<ClientTopics<C>>, c: C, i: int)
    requires
        distinct_clients(entries),
        0 <= i < entries.len(),
        entries[i].client == c,
    ensures
        entry_index(entries, c) == Some(i),
{
    let k = choose|k: int| 0 <= k < entries.len() && #[trigger] entries[k].client == c;
    if k < i {
        assert(entries[k].client != entries[i].client);
    } else if i < k {
        assert(entries[i].client != entries[k].client);
    }
}

proof fn lemma_entry_index_some<C>(entries: Seq<ClientTopics<C>>, c: C)
    requires
        entry_index(entries, c) is Some,
    ensures
        0 <= entry_index(entries, c)->Some_0 < entries.len(),
        entries[entry_index(entries, c)->Some_0].client == c,
{
}

/// Changing the topics of entry `i` changes the topics of its client only.
proof fn lemma_entry_index_update<C>(e1: Seq<ClientTopics<C>>, e2: Seq<ClientTopics<C>>, i: int)
    requires
        distinct_clients(e1),
        e2.len() == e1.len(),
        0 <= i < e1.len(),
        e2[i].client == e1[i].client,
        forall|j: int| 0 <= j < e1.len() && j != i ==> e2[j] == e1[j],
    ensures
        distinct_clients(e2),
        forall|c: C| #[trigger] entry_index(e2, c) == entry_index(e1, c),
{
    assert forall|a: int, b: int| 0 <= a < b < e2.len() implies #[trigger] e2[a].client != #[trigger] e2[b].client by {
        assert(e1[a].client != e1[b].client);
    }
    assert forall|c: C| #[trigger] entry_index(e2, c) == entry_index(e1, c) by {
        if entry_index(e1, c) is Some {
            let j = entry_index(e1, c)->Some_0;
            lemma_entry_index_unique(e2, c, j);
        } else if entry_index(e2, c) is Some {
            let j = entry_index(e2, c)->Some_0;
            assert(e1[j].client == c);
        }
    }
}

/// Adding an entry for a new client.
proof fn lemma_entry_index_push<C>(e1: Seq<ClientTopics<C>>, x: ClientTopics<C>)
    requires
        distinct_clients(e1),
        entry_index(e1, x.client) is None,
    ensures
        distinct_clients(e1.push(x)),
        forall|c: C| #[trigger] entry_index(e1.push(x), c) == if c == x.client {
            Some(e1.len() as int)
        } else {
            entry_index(e1, c)
        },
{
    let e2 = e1.push(x);
    assert forall|a: int, b: int| 0 <= a < b < e2.len() implies #[trigger] e2[a].client != #[trigger] e2[b].client by {
        if b == e1.len() {
            assert(e1[a].client != x.client);
        } else {
            assert(e1[a].client != e1[b].client);
        }
    }
    assert forall|c: C| #[trigger] entry_index(e2, c) == if c == x.client {
        Some(e1.len() as int)
    } else {
        entry_index(e1, c)
    } by {
        if c == x.client {
            lemma_entry_index_unique(e2, c, e1.len() as int);
        } else if entry_index(e1, c) is Some {
            let j = entry_index(e1, c)->Some_0;
            lemma_entry_index_unique(e2, c, j);
        } else if entry_index(e2, c) is Some {
            let j = entry_index(e2, c)->Some_0;
            assert(e1[j].client == c);
        }
    }
}

/// Taking out the entry at `i`.
proof fn lemma_entry_index_remove<C>(e1: Seq<ClientTopics<C>>, i: int)
    requires
        distinct_clients(e1),
        0 <= i < e1.len(),
    ensures
        distinct_clients(e1.remove(i)),
        forall|c: C| c != e1[i].client ==> #[trigger] entry_index(e1.remove(i), c) is Some == entry_index(e1, c) is Some,
        forall|c: C| c != e1[i].client && entry_index(e1, c) is Some ==> #[trigger] e1.remove(i)[entry_index(e1.remove(i), c)->Some_0] == e1[entry_index(e1, c)->Some_0],
        entry_index(e1.remove(i), e1[i].client) is None,
{
    let e2 = e1.remove(i);
    assert forall|a: int, b: int| 0 <= a < b < e2.len() implies #[trigger] e2[a].client != #[trigger] e2[b].client by {
        let a1 = if a < i { a } else { a + 1 };
        let b1 = if b < i { b } else { b + 1 };
        assert(e2[a] == e1[a1]);
        assert(e2[b] == e1[b1]);
    }
    assert forall|c: C| c != e1[i].client implies #[trigger] entry_index(e2, c) is Some == entry_index(e1, c) is Some && (entry_index(e1, c) is Some ==> e2[entry_index(e2, c)->Some_0] == e1[entry_index(e1, c)->Some_0]) by {
        if entry_index(e1, c) is Some {
            let j = entry_index(e1, c)->Some_0;
            let j2 = if j < i { j } else { j - 1 };
            assert(e2[j2] == e1[j]);
            lemma_entry_index_unique(e2, c, j2);
        } else if entry_index(e2, c) is Some {
            let j = entry_index(e2, c)->Some_0;
            let j1 = if j < i { j } else { j + 1 };
            assert(e2[j] == e1[j1]);
        }
    }
    if entry_index(e2, e1[i].client) is Some {
        let j = entry_index(e2, e1[i].client)->Some_0;
        let j1 = if j < i { j } else { j + 1 };
        assert(e2[j] == e1[j1]);
        assert(e1[j1].client != e1[i].client);
    }
}

/// The position of the entry of `c`, if there is one.
fn entry_position<C>(clients: &Vec<ClientTopics<C>>, c: &C) -> (pos: Option<usize>) where
    C: Copy + PartialEq + Eq + Hash,

    requires
        obeys_concrete_eq::<C>(),
        distinct_clients(clients@),
    ensures
        match pos {
            Some(i) => entry_index(clients@, *c) == Some(i as int),
            None => entry_index(clients@, *c) is None,
        },
{
    let n: usize = clients.len();
    let mut i: usize = 0;
    while i < n
        invariant
            n == clients@.len(),
            i <= n,
            obeys_concrete_eq::<C>(),
            distinct_clients(clients@),
            forall|j: int| 0 <= j < i ==> #[trigger] clients@[j].client != *c,
        decreases n - i,
    {
        proof {
            reveal(obeys_concrete_eq);
        }
        if clients[i].client == *c {
            proof {
                lemma_entry_index_unique(clients@, *c, i as int);
            }
            return Some(i);
        }
        i = i + 1;
    }
    None
}

/// The position of topic `t` in `topics`, if it is there.
fn topic_position(topics: &Vec<String>, t: &String) -> (pos: Option<usize>)
    ensures
        match pos {
            Some(i) => i < topics@.len() && topics@[i as int]@ == t@,
            None => !topics@.map_values(|s: String| s@).contains(t@),
        },
{
    let n: usize = topics.len();
    let mut i: usize = 0;
    while i < n
        invariant
            n == topics@.len(),
            i <= n,
            forall|j: int| 0 <= j < i ==> #[trigger] topics@[j]@ != t@,
        decreases n - i,
    {
        if topics[i] == *t {
            return Some(i);
        }
        i = i + 1;
    }
    proof {
        let v = topics@.map_values(|s: String| s@);
        if v.contains(t@) {
            let j = choose|j: int| 0 <= j < v.len() && v[j] == t@;
            assert(topics@[j]@ == t@);
        }
    }
    None
}

/// `c` is subscribed to path `p` in the tree.
pub open spec fn subscribed<C>(tree: Map<Seq<Seq<char>>, Set<C>>, p: Seq<Seq<char>>, c: C) -> bool {
    tree.contains_key(p) && tree[p].contains(c)
}

/// The record of each client's topics and the subscription tree agree: a
/// client is subscribed to a path exactly when it subscribed to a topic with
/// that path.
pub open spec fn consistent<C>(topics: Map<C, Seq<Seq<char>>>, tree: Map<Seq<Seq<char>>, Set<C>>) -> bool {
    &&& forall|c: C, t: Seq<char>|
        topics.contains_key(c) && #[trigger] topics[c].contains(t) ==> subscribed(
            tree,
            split_topic_spec(t),
            c,
        )
    &&& forall|c: C, p: Seq<Seq<char>>|
        #[trigger] subscribed(tree, p, c) ==> topics.contains_key(c) && exists|t: Seq<char>|
            #[trigger] topics[c].contains(t) && split_topic_spec(t) == p
}

/// No client lists a topic twice.
pub open spec fn topics_distinct<C>(topics: Map<C, Seq<Seq<char>>>) -> bool {
    forall|c: C| #[trigger] topics.contains_key(c) ==> topics[c].no_duplicates()
}

/// Client `c` holds topic `t` in the record of topics.
pub open spec fn has_topic<C>(topics: Map<C, Seq<Seq<char>>>, c: C, t: Seq<char>) -> bool {
    topics.contains_key(c) && topics[c].contains(t)
}

/// The (client, topic) pairs of the record of topics.
pub open spec fn topic_pairs<C>(topics: Map<C, Seq<Seq<char>>>) -> Set<(C, Seq<char>)> {
    Set::new(|ct: (C, Seq<char>)| has_topic(topics, ct.0, ct.1))
}

/// When the record of topics and the tree agree, a client is subscribed to
/// the path of a topic exactly when it holds that topic.
proof fn lemma_subscribed_iff_has_topic<C>(
    topics: Map<C, Seq<Seq<char>>>,
    tree: Map<Seq<Seq<char>>, Set<C>>,
    c: C,
    t: Seq<char>,
)
    requires
        consistent(topics, tree),
    ensures
        subscribed(tree, split_topic_spec(t), c) == has_topic(topics, c, t),
{
    if has_topic(topics, c, t) {
        assert(topics[c].contains(t));
    }
    if subscribed(tree, split_topic_spec(t), c) {
        let u = choose|u: Seq<char>| #[trigger] topics[c].contains(u) && split_topic_spec(u) == split_topic_spec(t);
        lemma_split_topic_injective(u, t);
    }
}

/// When the record of topics and the tree agree, the (path, client) pairs
/// of the tree and the (client, topic) pairs of the record are as many.
proof fn lemma_pairs_correspond<C>(topics: Map<C, Seq<Seq<char>>>, tree: Map<Seq<Seq<char>>, Set<C>>)
    requires
        consistent(topics, tree),
        subscription_pairs(tree).finite(),
    ensures
        topic_pairs(topics).finite(),
        topic_pairs(topics).len() == subscription_pairs(tree).len(),
{
    let pairs = subscription_pairs(tree);
    let g = |pc: (Seq<Seq<char>>, C)| (pc.1, join_topic_spec(pc.0));
    assert forall|pc: (Seq<Seq<char>>, C)| #[trigger] pairs.contains(pc) implies has_topic(topics, pc.1, join_topic_spec(pc.0)) && split_topic_spec(join_topic_spec(pc.0)) == pc.0 by {
        assert(subscribed(tree, pc.0, pc.1));
        let u = choose|u: Seq<char>| #[trigger] topics[pc.1].contains(u) && split_topic_spec(u) == pc.0;
        lemma_join_split_topic(u);
    }
    assert forall|a: (Seq<Seq<char>>, C), b: (Seq<Seq<char>>, C)| pairs.contains(a) && pairs.contains(b) && #[trigger] g(a) == #[trigger] g(b) implies a == b by {
        assert(split_topic_spec(join_topic_spec(a.0)) == a.0);
        assert(split_topic_spec(join_topic_spec(b.0)) == b.0);
    }
    assert forall|ct: (C, Seq<char>)| topic_pairs(topics).contains(ct) implies #[trigger] pairs.map(g).contains(ct) by {
        let pc = (split_topic_spec(ct.1), ct.0);
        assert(topics[ct.0].contains(ct.1));
        assert(pairs.contains(pc));
        lemma_join_split_topic(ct.1);
        assert(g(pc) == ct);
    }
    assert(pairs.map(g) =~= topic_pairs(topics));
    vstd::set_lib::lemma_map_size(pairs, topic_pairs(topics), g);
}

/// Subscribing adds exactly the one subscription.
pub proof fn lemma_subscribed_after_insert<C>(
    tree: Map<Seq<Seq<char>>, Set<C>>,
    q: Seq<Seq<char>>,
    c: C,
    p: Seq<Seq<char>>,
    d: C,
)
    ensures
        subscribed(spec_insert(tree, q, c), p, d) == (subscribed(tree, p, d) || (p == q && d == c)),
{
    if p == q {
        assert(p =~= q.subrange(0, p.len() as int));
    }
}

/// Unsubscribing takes away exactly the one subscription.
pub proof fn lemma_subscribed_after_remove<C>(
    tree: Map<Seq<Seq<char>>, Set<C>>,
    q: Seq<Seq<char>>,
    c: C,
    p: Seq<Seq<char>>,
    d: C,
)
    ensures
        subscribed(spec_remove(tree, q, c), p, d) == (subscribed(tree, p, d) && !(p == q && d == c)),
{
    if tree.contains_key(q) && p == q && d != c && tree[q].contains(d) {
        assert(tree[q].remove(c).contains(d));
    }
}

/// Leaving a list of topics takes away exactly the subscriptions of `c` to
/// their paths.
pub proof fn lemma_subscribed_after_remove_topics<C>(
    tree: Map<Seq<Seq<char>>, Set<C>>,
    ts: Seq<Seq<char>>,
    c: C,
    p: Seq<Seq<char>>,
    d: C,
)
    ensures
        subscribed(spec_remove_topics(tree, ts, c), p, d) == (subscribed(tree, p, d) && !(d == c
            && exists|i: int| 0 <= i < ts.len() && #[trigger] split_topic_spec(ts[i]) == p)),
    decreases ts.len(),
{
    if ts.len() > 0 {
        let t1 = spec_remove(tree, split_topic_spec(ts[0]), c);
        lemma_subscribed_after_remove(tree, split_topic_spec(ts[0]), c, p, d);
        lemma_subscribed_after_remove_topics(t1, ts.drop_first(), c, p, d);
        if d == c && exists|i: int| 0 <= i < ts.len() && #[trigger] split_topic_spec(ts[i]) == p {
            let i = choose|i: int| 0 <= i < ts.len() && #[trigger] split_topic_spec(ts[i]) == p;
            if i > 0 {
                assert(split_topic_spec(ts.drop_first()[i - 1]) == p);
            }
        }
        if d == c && exists|i: int| 0 <= i < ts.drop_first().len() && #[trigger] split_topic_spec(ts.drop_first()[i]) == p {
            let i = choose|i: int| 0 <= i < ts.drop_first().len() && #[trigger] split_topic_spec(ts.drop_first()[i]) == p;
            assert(split_topic_spec(ts[i + 1]) == p);
        }
    }
}

/// Subscribing keeps the record of topics and the tree in agreement.
pub proof fn lemma_subscribe_consistent<C>(
    topics: Map<C, Seq<Seq<char>>>,
    tree: Map<Seq<Seq<char>>, Set<C>>,
    c: C,
    t: Seq<char>,
)
    requires
        consistent(topics, tree),
    ensures
        consistent(
            spec_subscribe_topics(topics, c, t),
            if topics.contains_key(c) && topics[c].contains(t) {
                tree
            } else {
                spec_insert(tree, split_topic_spec(t), c)
            },
        ),
{
    let added = !(topics.contains_key(c) && topics[c].contains(t));
    let topics2 = spec_subscribe_topics(topics, c, t);
    let tree2 = if added {
        spec_insert(tree, split_topic_spec(t), c)
    } else {
        tree
    };
    assert forall|d: C, u: Seq<char>| topics2.contains_key(d) && #[trigger] topics2[d].contains(u) implies subscribed(tree2, split_topic_spec(u), d) by {
        if added {
            lemma_subscribed_after_insert(tree, split_topic_spec(t), c, split_topic_spec(u), d);
        }
        if !(added && d == c && u == t) {
            assert(topics.contains_key(d) && topics[d].contains(u)) by {
                if added && d == c {
                    let k = choose|k: int| 0 <= k < topics2[d].len() && topics2[d][k] == u;
                    if topics.contains_key(c) {
                        assert(topics2[d] == topics[c].push(t));
                        assert(k < topics[c].len());
                        assert(topics[c][k] == u);
                    } else {
                        assert(topics2[d] == seq![t]);
                    }
                }
            }
            assert(subscribed(tree, split_topic_spec(u), d));
        }
    }
    assert forall|d: C, p: Seq<Seq<char>>| #[trigger] subscribed(tree2, p, d) implies topics2.contains_key(d) && exists|u: Seq<char>| #[trigger] topics2[d].contains(u) && split_topic_spec(u) == p by {
        if added {
            lemma_subscribed_after_insert(tree, split_topic_spec(t), c, p, d);
        }
        if added && p == split_topic_spec(t) && d == c {
            if topics.contains_key(c) {
                assert(topics2[d] == topics[c].push(t));
                assert(topics2[d][topics[c].len() as int] == t);
            } else {
                assert(topics2[d] == seq![t]);
                assert(topics2[d][0] == t);
            }
            assert(topics2[d].contains(t));
        } else {
            assert(subscribed(tree, p, d));
            let u = choose|u: Seq<char>| #[trigger] topics[d].contains(u) && split_topic_spec(u) == p;
            let k = choose|k: int| 0 <= k < topics[d].len() && topics[d][k] == u;
            if d == c && added {
                assert(topics2[d] == topics[c].push(t));
            }
            assert(topics2[d][k] == u);
            assert(topics2[d].contains(u));
        }
    }
}

/// Unsubscribing keeps the record of topics and the tree in agreement.
pub proof fn lemma_unsubscribe_consistent<C>(
    topics: Map<C, Seq<Seq<char>>>,
    tree: Map<Seq<Seq<char>>, Set<C>>,
    c: C,
    t: Seq<char>,
)
    requires
        consistent(topics, tree),
        topics_distinct(topics),
    ensures
        consistent(
            spec_unsubscribe_topics(topics, c, t),
            spec_remove(tree, split_topic_spec(t), c),
        ),
{
    let topics2 = spec_unsubscribe_topics(topics, c, t);
    let tree2 = spec_remove(tree, split_topic_spec(t), c);
    assert forall|d: C, u: Seq<char>| topics2.contains_key(d) && #[trigger] topics2[d].contains(u) implies subscribed(tree2, split_topic_spec(u), d) by {
        lemma_subscribed_after_remove(tree, split_topic_spec(t), c, split_topic_spec(u), d);
        if d == c {
            let s = topics[c];
            let r = remove_topic(s, t);
            let k = choose|k: int| 0 <= k < r.len() && r[k] == u;
            if s.contains(t) {
                let x = s.index_of(t);
                let k1 = if k < x { k } else { k + 1 };
                assert(s[k1] == u);
                assert(k1 != x);
                assert(s[k1] != s[x]);
                assert(s.contains(u));
            } else {
                assert(s.contains(u));
            }
            lemma_split_topic_injective(u, t);
        }
    }
    assert forall|d: C, p: Seq<Seq<char>>| #[trigger] subscribed(tree2, p, d) implies topics2.contains_key(d) && exists|u: Seq<char>| #[trigger] topics2[d].contains(u) && split_topic_spec(u) == p by {
        lemma_subscribed_after_remove(tree, split_topic_spec(t), c, p, d);
        assert(subscribed(tree, p, d));
        let u = choose|u: Seq<char>| #[trigger] topics[d].contains(u) && split_topic_spec(u) == p;
        if d == c {
            let s = topics[c];
            let k = choose|k: int| 0 <= k < s.len() && s[k] == u;
            assert(u != t);
            let r = remove_topic(s, t);
            if s.contains(t) {
                let x = s.index_of(t);
                assert(k != x);
                let k2 = if k < x { k } else { k - 1 };
                assert(r[k2] == u);
            } else {
                assert(r[k] == u);
            }
            assert(r.contains(u));
            assert(r.len() > 0);
            assert(topics2[d] == r);
            assert(topics2[d].contains(u));
        } else {
            assert(topics2[d] == topics[d]);
            assert(topics2[d].contains(u));
        }
    }
}

/// Forgetting a client keeps the record of topics and the tree in agreement.
pub proof fn lemma_remove_client_consistent<C>(
    topics: Map<C, Seq<Seq<char>>>,
    tree: Map<Seq<Seq<char>>, Set<C>>,
    c: C,
)
    requires
        consistent(topics, tree),
    ensures
        consistent(
            topics.remove(c),
            if topics.contains_key(c) {
                spec_remove_topics(tree, topics[c], c)
            } else {
                tree
            },
        ),
{
    let topics2 = topics.remove(c);
    let tree2 = if topics.contains_key(c) {
        spec_remove_topics(tree, topics[c], c)
    } else {
        tree
    };
    assert forall|d: C, u: Seq<char>| topics2.contains_key(d) && #[trigger] topics2[d].contains(u) implies subscribed(tree2, split_topic_spec(u), d) by {
        if topics.contains_key(c) {
            lemma_subscribed_after_remove_topics(tree, topics[c], c, split_topic_spec(u), d);
        }
    }
    assert forall|d: C, p: Seq<Seq<char>>| #[trigger] subscribed(tree2, p, d) implies topics2.contains_key(d) && exists|u: Seq<char>| #[trigger] topics2[d].contains(u) && split_topic_spec(u) == p by {
        if topics.contains_key(c) {
            lemma_subscribed_after_remove_topics(tree, topics[c], c, p, d);
        }
        assert(subscribed(tree, p, d));
        let u = choose|u: Seq<char>| #[trigger] topics[d].contains(u) && split_topic_spec(u) == p;
        let k = choose|k: int| 0 <= k < topics[d].len() && topics[d][k] == u;
        if d == c {
            assert(split_topic_spec(topics[c][k]) == p);
        } else {
            assert(topics2[d] == topics[d]);
            assert(topics2[d].contains(u));
        }
    }
}

impl<C> ClientRegistry<C> where C: Copy + PartialEq + Eq + Hash {
    /// The topics of each known client, in the order it subscribed to them.
    pub closed spec fn topics(&self) -> Map<C, Seq<Seq<char>>> {
        Map::new(
            |c: C| entry_index(self.clients@, c) is Some,
            |c: C| entry_topics(self.clients@[entry_index(self.clients@, c)->Some_0]),
        )
    }

    /// The subscription tree: the clients subscribed to each topic path.
    pub closed spec fn subscriptions(&self) -> Map<Seq<Seq<char>>, Set<C>> {
        self.subscriptions@
    }

    /// The number of subscriptions in the tree.
    pub closed spec fn subscription_count(&self) -> usize {
        self.subscriptions.spec_len()
    }

    /// The last will of each client that declared one: its topic and
    /// payload.
    pub closed spec fn wills(&self) -> Map<C, (Seq<char>, Seq<u8>)> {
        will_map(self.wills@)
    }

    /// Every client has one entry with at least one topic, each topic once,
    /// and at most one will, and the tree is well formed.
    pub closed spec fn wf(&self) -> bool {
        &&& self.subscriptions.wf()
        &&& distinct_clients(self.clients@)
        &&& forall|i: int|
            0 <= i < self.clients@.len() ==> {
                &&& (#[trigger] entry_topics(self.clients@[i])).no_duplicates()
                &&& entry_topics(self.clients@[i]).len() > 0
            }
        &&& consistent(self.topics(), self.subscriptions())
        &&& distinct_will_clients(self.wills@)
    }

    proof fn lemma_topics_distinct(&self)
        requires
            distinct_clients(self.clients@),
            forall|i: int|
                0 <= i < self.clients@.len() ==> (#[trigger] entry_topics(
                    self.clients@[i],
                )).no_duplicates(),
        ensures
            topics_distinct(self.topics()),
    {
        assert forall|c: C| #[trigger] self.topics().contains_key(c) implies self.topics()[c].no_duplicates() by {
            lemma_entry_index_some(self.clients@, c);
        }
    }
}

/// In every well-formed registry the record of each client's topics and the
/// subscription tree agree.
pub proof fn lemma_registry_consistent<C>(r: ClientRegistry<C>) where
    C: Copy + PartialEq + Eq + Hash,

    requires
        r.wf(),
    ensures
        consistent(r.topics(), r.subscriptions()),
        topics_distinct(r.topics()),
{
    r.lemma_topics_distinct();
}

/// In every well-formed registry the subscription count is the number of
/// (path, client) pairs of the subscription tree, and also the number of
/// (client, topic) pairs of the record of topics.
pub proof fn lemma_count_matches_topics<C>(r: ClientRegistry<C>) where
    C: Copy + PartialEq + Eq + Hash,

    requires
        r.wf(),
    ensures
        subscription_pairs(r.subscriptions()).finite(),
        r.subscription_count() == subscription_pairs(r.subscriptions()).len(),
        topic_pairs(r.topics()).finite(),
        r.subscription_count() == topic_pairs(r.topics()).len(),
{
    lemma_len_counts_subscriptions(r.subscriptions);
    lemma_pairs_correspond(r.topics(), r.subscriptions());
}

impl<C> ClientRegistry<C> where C: Copy + PartialEq + Eq + Hash {
    /// A registry with no clients and an empty subscription tree.
    pub fn new() -> (registry: ClientRegistry<C>)
        ensures
            registry.wf(),
            registry.topics() == Map::<C, Seq<Seq<char>>>::empty(),
            registry.subscriptions() == Map::<Seq<Seq<char>>, Set<C>>::empty().insert(
                Seq::empty(),
                Set::empty(),
            ),
            registry.subscription_count() == 0,
            registry.wills() == Map::<C, (Seq<char>, Seq<u8>)>::empty(),
    {
        let registry = ClientRegistry {
            clients: Vec::new(),
            subscriptions: TopicTree::new(),
            wills: Vec::new(),
        };
        proof {
            assert(registry.topics() =~= Map::<C, Seq<Seq<char>>>::empty());
            assert(registry.wills() =~= Map::<C, (Seq<char>, Seq<u8>)>::empty());
            assert forall|c: C, p: Seq<Seq<char>>| #[trigger] subscribed(registry.subscriptions(), p, c) implies false by {
                if p == Seq::<Seq<char>>::empty() {
                    assert(registry.subscriptions()[p] == Set::<C>::empty());
                }
            }
        }
        registry
    }

    /// The number of subscriptions in the tree.
    pub fn subscriptions_len(&self) -> (n: usize)
        ensures
            n == self.subscription_count(),
    {
        self.subscriptions.len()
    }

    /// Subscribes `client` to `topic`. The subscription tree changes only
    /// when the client had not subscribed to that topic yet.
    pub fn subscribe(&mut self, client: C, topic: String)
        requires
            old(self).wf(),
            old(self).subscription_count() < usize::MAX,
            obeys_concrete_eq::<C>(),
        ensures
            final(self).wf(),
            final(self).wills() == old(self).wills(),
            final(self).topics() == spec_subscribe_topics(old(self).topics(), client, topic@),
            final(self).subscriptions() == if old(self).topics().contains_key(client) && old(
                self,
            ).topics()[client].contains(topic@) {
                old(self).subscriptions()
            } else {
                spec_insert(old(self).subscriptions(), split_topic_spec(topic@), client)
            },
            final(self).subscription_count() == old(self).subscription_count() + if has_topic(
                old(self).topics(),
                client,
                topic@,
            ) {
                0int
            } else {
                1int
            },
    {
        let ghost old_topics = self.topics();
        let ghost old_tree = self.subscriptions();
        proof {
            lemma_subscribe_consistent(old_topics, self.subscriptions(), client, topic@);
            lemma_subscribed_iff_has_topic(old_topics, old_tree, client, topic@);
        }
        let added: bool = match entry_position(&self.clients, &client) {
            Some(i) => {
                match topic_position(&self.clients[i].topics, &topic) {
                    Some(_) => {
                        proof {
                            let v = entry_topics(self.clients@[i as int]);
                            let j = choose|j: int| 0 <= j < self.clients@[i as int].topics@.len() && self.clients@[i as int].topics@[j]@ == topic@;
                            assert(v[j] == topic@);
                        }
                        false
                    },
                    None => {
                        let ghost before = self.clients@;
                        self.clients[i].topics.push(topic.clone());
                        proof {
                            let e = self.clients@[i as int];
                            let old_v = entry_topics(before[i as int]);
                            assert(entry_topics(e) =~= old_v.push(topic@));
                            lemma_entry_index_update(before, self.clients@, i as int);
                            assert forall|k: int| 0 <= k < self.clients@.len() implies {
                                &&& (#[trigger] entry_topics(self.clients@[k])).no_duplicates()
                                &&& entry_topics(self.clients@[k]).len() > 0
                            } by {
                                if k == i {
                                    assert forall|a: int, b: int| 0 <= a < entry_topics(e).len() && 0 <= b < entry_topics(e).len() && a != b
                                        implies entry_topics(e)[a] != entry_topics(e)[b] by {
                                        if a < old_v.len() && b < old_v.len() {
                                            assert(old_v[a] != old_v[b]);
                                        } else if a < old_v.len() {
                                            assert(old_v.contains(old_v[a]));
                                        } else {
                                            assert(old_v.contains(old_v[b]));
                                        }
                                    }
                                } else {
                                    assert(self.clients@[k] == before[k]);
                                }
                            }
                            assert(self.topics() =~= spec_subscribe_topics(old_topics, client, topic@));
                        }
                        true
                    },
                }
            },
            None => {
                let mut topics: Vec<String> = Vec::new();
                topics.push(topic.clone());
                let ghost before = self.clients@;
                let entry = ClientTopics { client, topics };
                self.clients.push(entry);
                proof {
                    lemma_entry_index_push(before, entry);
                    assert(entry_topics(entry) =~= seq![topic@]);
                    assert forall|k: int| 0 <= k < self.clients@.len() implies {
                        &&& (#[trigger] entry_topics(self.clients@[k])).no_duplicates()
                        &&& entry_topics(self.clients@[k]).len() > 0
                    } by {
                        if k < before.len() {
                            assert(self.clients@[k] == before[k]);
                        }
                    }
                    assert(self.topics() =~= spec_subscribe_topics(old_topics, client, topic@));
                }
                true
            },
        };
        assert(added == !has_topic(old_topics, client, topic@));
        if added {
            let path = split_topic(topic.as_str());
            self.subscriptions.insert_client(&path, client);
        }
    }

    /// Unsubscribes `client` from `topic`; a client left with no topics is
    /// forgotten. The client also leaves the topic in the subscription tree.
    pub fn unsubscribe(&mut self, client: C, topic: String)
        requires
            old(self).wf(),
            obeys_concrete_eq::<C>(),
        ensures
            final(self).wf(),
            final(self).wills() == old(self).wills(),
            final(self).topics() == spec_unsubscribe_topics(old(self).topics(), client, topic@),
            final(self).subscriptions() == spec_remove(
                old(self).subscriptions(),
                split_topic_spec(topic@),
                client,
            ),
            final(self).subscription_count() == old(self).subscription_count() - if has_topic(
                old(self).topics(),
                client,
                topic@,
            ) {
                1int
            } else {
                0int
            },
    {
        let ghost old_topics = self.topics();
        proof {
            lemma_subscribed_iff_has_topic(old_topics, self.subscriptions(), client, topic@);
            self.lemma_topics_distinct();
            lemma_unsubscribe_consistent(old_topics, self.subscriptions(), client, topic@);
        }
        match entry_position(&self.clients, &client) {
            Some(i) => {
                let ghost before = self.clients@;
                let ghost old_v = entry_topics(before[i as int]);
                match topic_position(&self.clients[i].topics, &topic) {
                    Some(j) => {
                        self.clients[i].topics.remove(j);
                        proof {
                            assert(old_v[j as int] == topic@);
                            assert(old_v.contains(topic@));
                            let k = old_v.index_of(topic@);
                            if k != j {
                                assert(old_v[k] == old_v[j as int]);
                            }
                            assert(entry_topics(self.clients@[i as int]) =~= old_v.remove(j as int));
                        }
                    },
                    None => {},
                }
                let ghost mid = self.clients@;
                proof {
                    assert(entry_topics(mid[i as int]) == remove_topic(old_v, topic@));
                    lemma_entry_index_update(before, mid, i as int);
                    let nv = entry_topics(mid[i as int]);
                    assert forall|a: int, b: int| 0 <= a < nv.len() && 0 <= b < nv.len() && a != b implies nv[a] != nv[b] by {
                        if old_v.contains(topic@) {
                            let k = old_v.index_of(topic@);
                            let a1 = if a < k { a } else { a + 1 };
                            let b1 = if b < k { b } else { b + 1 };
                            assert(nv[a] == old_v[a1]);
                            assert(nv[b] == old_v[b1]);
                        }
                    }
                }
                if self.clients[i].topics.len() == 0 {
                    self.clients.remove(i);
                    proof {
                        lemma_entry_index_remove(mid, i as int);
                        assert forall|k: int| 0 <= k < self.clients@.len() implies {
                            &&& (#[trigger] entry_topics(self.clients@[k])).no_duplicates()
                            &&& entry_topics(self.clients@[k]).len() > 0
                        } by {
                            let k1 = if k < i { k } else { k + 1 };
                            assert(self.clients@[k] == mid[k1]);
                        }
                        assert(self.topics() =~= spec_unsubscribe_topics(old_topics, client, topic@));
                    }
                } else {
                    proof {
                        assert forall|k: int| 0 <= k < self.clients@.len() implies {
                            &&& (#[trigger] entry_topics(self.clients@[k])).no_duplicates()
                            &&& entry_topics(self.clients@[k]).len() > 0
                        } by {
                            if k != i {
                                assert(self.clients@[k] == before[k]);
                            }
                        }
                        assert(self.topics() =~= spec_unsubscribe_topics(old_topics, client, topic@));
                    }
                }
            },
            None => {
                proof {
                    assert(self.topics() =~= spec_unsubscribe_topics(old_topics, client, topic@));
                }
            },
        }
        let path = split_topic(topic.as_str());
        self.subscriptions.remove_client(&path, &client);
    }

    /// Forgets `client`: it leaves every topic it subscribed to, in the
    /// order it subscribed. Its last will stays until it is sent.
    pub fn remove_client(&mut self, client: C)
        requires
            old(self).wf(),
            obeys_concrete_eq::<C>(),
        ensures
            final(self).wf(),
            final(self).wills() == old(self).wills(),
            final(self).topics() == old(self).topics().remove(client),
            final(self).subscriptions() == if old(self).topics().contains_key(client) {
                spec_remove_topics(old(self).subscriptions(), old(self).topics()[client], client)
            } else {
                old(self).subscriptions()
            },
            final(self).subscription_count() == old(self).subscription_count() - if old(
                self,
            ).topics().contains_key(client) {
                old(self).topics()[client].len() as int
            } else {
                0int
            },
    {
        let ghost old_topics = self.topics();
        let ghost old_tree = self.subscriptions();
        proof {
            lemma_remove_client_consistent(old_topics, self.subscriptions(), client);
        }
        match entry_position(&self.clients, &client) {
            Some(i) => {
                let ghost before = self.clients@;
                let entry = self.clients.remove(i);
                proof {
                    lemma_entry_index_remove(before, i as int);
                    assert forall|k: int| 0 <= k < self.clients@.len() implies {
                        &&& (#[trigger] entry_topics(self.clients@[k])).no_duplicates()
                        &&& entry_topics(self.clients@[k]).len() > 0
                    } by {
                        let k1 = if k < i { k } else { k + 1 };
                        assert(self.clients@[k] == before[k1]);
                    }
                    assert(self.topics() =~= old_topics.remove(client));
                }
                let ghost all = entry_topics(entry);
                let ghost start = self.subscriptions@;
                let ghost start_len = self.subscriptions.spec_len();
                let ghost after_clients = self.clients@;
                let n: usize = entry.topics.len();
                let mut k: usize = 0;
                proof {
                    assert(all.skip(0) =~= all);
                    assert(old_topics[client] == all);
                    assert(all.no_duplicates());
                    assert forall|j: int| 0 <= j < n implies #[trigger] subscribed(start, split_topic_spec(all[j]), client) by {
                        assert(old_topics[client].contains(all[j]));
                    }
                }
                while k < n
                    invariant
                        n == entry.topics@.len(),
                        all == entry_topics(entry),
                        k <= n,
                        self.subscriptions.wf(),
                        obeys_concrete_eq::<C>(),
                        self.clients@ == after_clients,
                        self.wills@ == old(self).wills@,
                        distinct_will_clients(self.wills@),
                        distinct_clients(after_clients),
                        forall|k: int|
                            0 <= k < after_clients.len() ==> {
                                &&& (#[trigger] entry_topics(after_clients[k])).no_duplicates()
                                &&& entry_topics(after_clients[k]).len() > 0
                            },
                        self.topics() == old_topics.remove(client),
                        spec_remove_topics(start, all, client) == spec_remove_topics(
                            self.subscriptions@,
                            all.skip(k as int),
                            client,
                        ),
                        all.no_duplicates(),
                        self.subscriptions.spec_len() == start_len - k,
                        forall|j: int| k <= j < n ==> #[trigger] subscribed(self.subscriptions@, split_topic_spec(all[j]), client),
                    decreases n - k,
                {
                    let path = split_topic(entry.topics[k].as_str());
                    let ghost tree = self.subscriptions@;
                    proof {
                        assert(all.skip(k as int)[0] == entry.topics@[k as int]@);
                        assert(all.skip(k as int).drop_first() =~= all.skip(k + 1));
                        assert(subscribed(tree, split_topic_spec(all[k as int]), client));
                    }
                    self.subscriptions.remove_client(&path, &client);
                    proof {
                        assert forall|j: int| k + 1 <= j < n implies #[trigger] subscribed(self.subscriptions@, split_topic_spec(all[j]), client) by {
                            assert(subscribed(tree, split_topic_spec(all[j]), client));
                            lemma_subscribed_after_remove(tree, split_topic_spec(all[k as int]), client, split_topic_spec(all[j]), client);
                            lemma_split_topic_injective(all[j], all[k as int]);
                        }
                    }
                    k = k + 1;
                }
                proof {
                    assert(all.skip(n as int) =~= Seq::<Seq<char>>::empty());
                }
            },
            None => {
                proof {
                    assert(self.topics() =~= old_topics.remove(client));
                }
            },
        }
    }

    /// The clients subscribed to exactly the path of `topic`.
    pub fn matching_clients(&self, topic: &str) -> (clients: Vec<C>)
        requires
            self.wf(),
        ensures
            clients@.no_duplicates(),
            clients@.to_set() == if self.subscriptions().contains_key(split_topic_spec(topic@)) {
                self.subscriptions()[split_topic_spec(topic@)]
            } else {
                Set::empty()
            },
    {
        let path = split_topic(topic);
        let mut out: Vec<C> = Vec::new();
        match self.subscriptions.get_clients_at_path(&path) {
            Some(found) => {
                let n: usize = found.len();
                let mut i: usize = 0;
                while i < n
                    invariant
                        n == found@.len(),
                        i <= n,
                        out@ == found@.subrange(0, i as int),
                    decreases n - i,
                {
                    out.push(found[i]);
                    i = i + 1;
                    proof {
                        assert(out@ =~= found@.subrange(0, i as int));
                    }
                }
                proof {
                    assert(out@ =~= found@);
                }
            },
            None => {
                proof {
                    assert(out@.to_set() =~= Set::<C>::empty());
                }
            },
        }
        out
    }

    /// The clients subscribed to exactly the path of `topic`, but for
    /// `sender`.
    fn subscribers_except(&self, topic: &str, sender: C) -> (clients: Vec<C>)
        requires
            self.wf(),
            obeys_concrete_eq::<C>(),
        ensures
            clients@.no_duplicates(),
            clients@.to_set() == spec_subscribers(self.subscriptions(), topic@).remove(sender),
    {
        let all = self.matching_clients(topic);
        let mut out: Vec<C> = Vec::new();
        let n: usize = all.len();
        let mut i: usize = 0;
        while i < n
            invariant
                n == all@.len(),
                i <= n,
                obeys_concrete_eq::<C>(),
                all@.no_duplicates(),
                out@.no_duplicates(),
                out@.to_set() == all@.subrange(0, i as int).to_set().remove(sender),
                forall|x: C| #[trigger] out@.contains(x) ==> all@.subrange(0, i as int).contains(x),
            decreases n - i,
        {
            let x = all[i];
            proof {
                reveal(obeys_concrete_eq);
                assert(all@.subrange(0, i + 1) =~= all@.subrange(0, i as int).push(x));
                assert(!all@.subrange(0, i as int).contains(x)) by {
                    if all@.subrange(0, i as int).contains(x) {
                        let k = choose|k: int| 0 <= k < i && all@.subrange(0, i as int)[k] == x;
                        assert(all@[k] == all@[i as int]);
                    }
                }
            }
            if x != sender {
                let ghost before = out@;
                out.push(x);
                proof {
                    assert forall|a: int, b: int| 0 <= a < b < out@.len() implies out@[a] != out@[b] by {
                        if b == before.len() {
                            assert(before.contains(before[a]));
                        } else {
                            assert(before[a] != before[b]);
                        }
                    }
                    assert forall|y: C| #[trigger] out@.contains(y) implies all@.subrange(0, i + 1).contains(y) by {
                        if y != x {
                            let k = choose|k: int| 0 <= k < out@.len() && out@[k] == y;
                            assert(before[k] == y);
                            assert(before.contains(y));
                            let k2 = choose|k2: int| 0 <= k2 < i && all@.subrange(0, i as int)[k2] == y;
                            assert(all@.subrange(0, i + 1)[k2] == y);
                        } else {
                            assert(all@.subrange(0, i + 1)[i as int] == y);
                        }
                    }
                    before.lemma_push_to_set_commute(x);
                    assert(out@ == before.push(x));
                    assert(out@.to_set() =~= before.to_set().insert(x));
                    assert(out@.to_set() =~= all@.subrange(0, i + 1).to_set().remove(sender));
                }
            } else {
                proof {
                    assert forall|y: C| #[trigger] out@.contains(y) implies all@.subrange(0, i + 1).contains(y) by {
                        let k2 = choose|k2: int| 0 <= k2 < i && all@.subrange(0, i as int)[k2] == y;
                        assert(all@.subrange(0, i + 1)[k2] == y);
                    }
                    assert(out@.to_set() =~= all@.subrange(0, i + 1).to_set().remove(sender));
                }
            }
            i = i + 1;
        }
        proof {
            assert(all@.subrange(0, n as int) =~= all@);
        }
        out
    }
}

/// A message to forward: the clients to send it to, and the message.
#[derive(Debug)]
pub struct Delivery<C> {
    pub recipients: Vec<C>,
    pub message: Message,
}

/// The topics of each client after `c` sent message `m`.
pub open spec fn spec_next_topics<C>(topics: Map<C, Seq<Seq<char>>>, m: MessageView, c: C) -> Map<
    C,
    Seq<Seq<char>>,
> {
    match m {
        MessageView::Subscribe(t) => spec_subscribe_topics(topics, c, t),
        MessageView::Unsubscribe(t) => spec_unsubscribe_topics(topics, c, t),
        _ => topics,
    }
}

/// The subscription tree after `c` sent message `m`.
pub open spec fn spec_next_subscriptions<C>(
    topics: Map<C, Seq<Seq<char>>>,
    tree: Map<Seq<Seq<char>>, Set<C>>,
    m: MessageView,
    c: C,
) -> Map<Seq<Seq<char>>, Set<C>> {
    match m {
        MessageView::Subscribe(t) => if topics.contains_key(c) && topics[c].contains(t) {
            tree
        } else {
            spec_insert(tree, split_topic_spec(t), c)
        },
        MessageView::Unsubscribe(t) => spec_remove(tree, split_topic_spec(t), c),
        _ => tree,
    }
}

/// The number of subscriptions after `c` sent message `m`, when there were
/// `count` before.
pub open spec fn spec_next_count<C>(
    topics: Map<C, Seq<Seq<char>>>,
    m: MessageView,
    c: C,
    count: int,
) -> int {
    match m {
        MessageView::Subscribe(t) => if has_topic(topics, c, t) {
            count
        } else {
            count + 1
        },
        MessageView::Unsubscribe(t) => if has_topic(topics, c, t) {
            count - 1
        } else {
            count
        },
        _ => count,
    }
}

/// The clients subscribed to exactly the path of topic `t`.
pub open spec fn spec_subscribers<C>(tree: Map<Seq<Seq<char>>, Set<C>>, t: Seq<char>) -> Set<C> {
    if tree.contains_key(split_topic_spec(t)) {
        tree[split_topic_spec(t)]
    } else {
        Set::empty()
    }
}

/// What a message from `c` asks to forward: a publication goes, unchanged,
/// to the other subscribers of its topic; nothing else is forwarded.
pub open spec fn spec_delivery<C>(
    tree: Map<Seq<Seq<char>>, Set<C>>,
    m: MessageView,
    c: C,
    d: Option<Delivery<C>>,
) -> bool {
    match m {
        MessageView::Publish(t, _) => d matches Some(del) && del.message@ == m
            && del.recipients@.no_duplicates() && del.recipients@.to_set() == spec_subscribers(
            tree,
            t,
        ).remove(c),
        _ => d is None,
    }
}

/// The last wills after `c` sent message `m`: a last will replaces the one
/// `c` declared before.
pub open spec fn spec_next_wills<C>(
    wills: Map<C, (Seq<char>, Seq<u8>)>,
    m: MessageView,
    c: C,
) -> Map<C, (Seq<char>, Seq<u8>)> {
    match m {
        MessageView::LastWill(t, p) => wills.insert(c, (t, p)),
        _ => wills,
    }
}

/// What the disconnect of `c` asks to forward: its last will, if it
/// declared one, goes as a last-will message to the other subscribers of the
/// will's topic.
pub open spec fn spec_will_delivery<C>(
    tree: Map<Seq<Seq<char>>, Set<C>>,
    wills: Map<C, (Seq<char>, Seq<u8>)>,
    c: C,
    d: Option<Delivery<C>>,
) -> bool {
    if wills.contains_key(c) {
        d matches Some(del) && del.message@ == MessageView::LastWill(wills[c].0, wills[c].1)
            && del.recipients@.no_duplicates() && del.recipients@.to_set() == spec_subscribers(
            tree,
            wills[c].0,
        ).remove(c)
    } else {
        d is None
    }
}

/// The broker forwards only publications, as they were published, and last
/// wills: never a subscription or an unsubscription.
pub proof fn lemma_forwards_only_publications_and_wills<C>(
    tree: Map<Seq<Seq<char>>, Set<C>>,
    wills: Map<C, (Seq<char>, Seq<u8>)>,
    m: MessageView,
    c: C,
    d: Option<Delivery<C>>,
    w: Option<Delivery<C>>,
)
    requires
        spec_delivery(tree, m, c, d),
        spec_will_delivery(tree, wills, c, w),
    ensures
        d matches Some(del) ==> del.message@ is Publish && del.message@ == m,
        w matches Some(del) ==> del.message@ is LastWill,
{
}

/// A publication never goes back to its publisher, nor a last will to the
/// client that left it.
pub proof fn lemma_sender_not_a_recipient<C>(
    tree: Map<Seq<Seq<char>>, Set<C>>,
    wills: Map<C, (Seq<char>, Seq<u8>)>,
    m: MessageView,
    c: C,
    d: Option<Delivery<C>>,
    w: Option<Delivery<C>>,
)
    requires
        spec_delivery(tree, m, c, d),
        spec_will_delivery(tree, wills, c, w),
    ensures
        d matches Some(del) ==> !del.recipients@.contains(c),
        w matches Some(del) ==> !del.recipients@.contains(c),
{
    if d is Some {
        let del = d->Some_0;
        if del.recipients@.contains(c) {
            assert(del.recipients@.to_set().contains(c));
        }
    }
    if w is Some {
        let del = w->Some_0;
        if del.recipients@.contains(c) {
            assert(del.recipients@.to_set().contains(c));
        }
    }
}

/// A client that unsubscribed from a topic, or that left all its topics,
/// gets no further publication to that topic until it subscribes again.
pub proof fn lemma_no_delivery_after_leaving<C>(
    tree: Map<Seq<Seq<char>>, Set<C>>,
    topics: Seq<Seq<char>>,
    c: C,
    t: Seq<char>,
)
    ensures
        !spec_subscribers(spec_remove(tree, split_topic_spec(t), c), t).contains(c),
        topics.contains(t) ==> !spec_subscribers(spec_remove_topics(tree, topics, c), t).contains(
            c,
        ),
{
    lemma_subscribed_after_remove(tree, split_topic_spec(t), c, split_topic_spec(t), c);
    lemma_subscribed_after_remove_topics(tree, topics, c, split_topic_spec(t), c);
    if topics.contains(t) {
        let i = choose|i: int| 0 <= i < topics.len() && topics[i] == t;
        assert(split_topic_spec(topics[i]) == split_topic_spec(t));
    }
}

/// The will sent when a client disconnects is the last one it declared, and
/// it goes to the other subscribers of its topic.
pub proof fn lemma_last_will_sent<C>(
    tree: Map<Seq<Seq<char>>, Set<C>>,
    wills: Map<C, (Seq<char>, Seq<u8>)>,
    c: C,
    t: Seq<char>,
    p: Seq<u8>,
    w: Option<Delivery<C>>,
)
    requires
        spec_will_delivery(tree, spec_next_wills(wills, MessageView::LastWill(t, p), c), c, w),
    ensures
        w matches Some(del) && del.message@ == MessageView::LastWill(t, p)
            && del.recipients@.to_set() == spec_subscribers(tree, t).remove(c),
{
}

impl<C> ClientRegistry<C> where C: Copy + PartialEq + Eq + Hash {
    /// Records the last will of `client`, replacing any it declared before.
    pub fn register_last_will(&mut self, client: C, topic: String, payload: Vec<u8>)
        requires
            old(self).wf(),
            obeys_concrete_eq::<C>(),
        ensures
            final(self).wf(),
            final(self).topics() == old(self).topics(),
            final(self).subscriptions() == old(self).subscriptions(),
            final(self).subscription_count() == old(self).subscription_count(),
            final(self).wills() == old(self).wills().insert(client, (topic@, payload@)),
    {
        let ghost start = self.wills@;
        match will_position(&self.wills, &client) {
            Some(i) => {
                self.wills.remove(i);
                proof {
                    lemma_will_map_remove(start, i as int);
                }
            },
            None => {
                proof {
                    assert(will_map(start).remove(client) =~= will_map(start));
                }
            },
        }
        let ghost mid = self.wills@;
        let w = Will { client, topic, payload };
        self.wills.push(w);
        proof {
            lemma_will_map_push(mid, w);
            assert(will_map(mid).insert(client, will_view(w)) =~= will_map(start).insert(
                client,
                will_view(w),
            ));
        }
    }

    /// Takes the last will of `client`, if it declared one, and hands it
    /// back, as a last-will message, with the other subscribers of its topic.
    pub fn send_last_will(&mut self, client: C) -> (delivery: Option<Delivery<C>>)
        requires
            old(self).wf(),
            obeys_concrete_eq::<C>(),
        ensures
            final(self).wf(),
            final(self).topics() == old(self).topics(),
            final(self).subscriptions() == old(self).subscriptions(),
            final(self).subscription_count() == old(self).subscription_count(),
            final(self).wills() == old(self).wills().remove(client),
            spec_will_delivery(old(self).subscriptions(), old(self).wills(), client, delivery),
    {
        let ghost start = self.wills@;
        match will_position(&self.wills, &client) {
            Some(i) => {
                let w = self.wills.remove(i);
                proof {
                    lemma_will_map_remove(start, i as int);
                }
                let recipients = self.subscribers_except(w.topic.as_str(), client);
                Some(Delivery { recipients, message: Message::LastWill(w.topic, w.payload) })
            },
            None => {
                proof {
                    assert(will_map(start).remove(client) =~= will_map(start));
                }
                None
            },
        }
    }

    /// Acts on a message from `client`: a subscription, unsubscription or
    /// last will changes the registry, a publication is handed back with the
    /// other subscribers of its topic as recipients.
    pub fn process_message(&mut self, msg: Message, client: C) -> (delivery: Option<Delivery<C>>)
        requires
            old(self).wf(),
            old(self).subscription_count() < usize::MAX,
            obeys_concrete_eq::<C>(),
        ensures
            final(self).wf(),
            final(self).topics() == spec_next_topics(old(self).topics(), msg@, client),
            final(self).subscriptions() == spec_next_subscriptions(
                old(self).topics(),
                old(self).subscriptions(),
                msg@,
                client,
            ),
            final(self).subscription_count() == spec_next_count(
                old(self).topics(),
                msg@,
                client,
                old(self).subscription_count() as int,
            ),
            final(self).wills() == spec_next_wills(old(self).wills(), msg@, client),
            spec_delivery(old(self).subscriptions(), msg@, client, delivery),
    {
        match msg {
            Message::Publish(topic, payload) => {
                let recipients = self.subscribers_except(topic.as_str(), client);
                Some(Delivery { recipients, message: Message::Publish(topic, payload) })
            },
            Message::Subscribe(topic) => {
                self.subscribe(client, topic);
                None
            },
            Message::Unsubscribe(topic) => {
                self.unsubscribe(client, topic);
                None
            },
            Message::LastWill(topic, payload) => {
                self.register_last_will(client, topic, payload);
                None
            },
        }
    }

    /// Acts on a binary WebSocket message from `client`: decodes it and acts
    /// on the message, or hands back the decoding error.
    pub fn process_binary_message(&mut self, buffer: &[u8], client: C) -> (res: ProtocolResult<
        Option<Delivery<C>>,
    >)
        requires
            old(self).wf(),
            old(self).subscription_count() < usize::MAX,
            obeys_concrete_eq::<C>(),
            buffer@.len() >= 2,
        ensures
            final(self).wf(),
            match spec_parse_message(buffer@) {
                Ok(m) => res matches Ok(delivery) && final(self).topics() == spec_next_topics(
                    old(self).topics(),
                    m,
                    client,
                ) && final(self).subscriptions() == spec_next_subscriptions(
                    old(self).topics(),
                    old(self).subscriptions(),
                    m,
                    client,
                ) && final(self).subscription_count() == spec_next_count(
                    old(self).topics(),
                    m,
                    client,
                    old(self).subscription_count() as int,
                ) && final(self).wills() == spec_next_wills(old(self).wills(), m, client)
                    && spec_delivery(old(self).subscriptions(), m, client, delivery),
                Err(text) => res matches Err(e) && e@ == text && final(self).topics() == old(
                    self,
                ).topics() && final(self).subscriptions() == old(self).subscriptions()
                    && final(self).subscription_count() == old(self).subscription_count()
                    && final(self).wills() == old(self).wills(),
            },
    {
        match parse_message(buffer) {
            Ok(msg) => Ok(self.process_message(msg, client)),
            Err(e) => Err(e),
        }
    }

    /// Acts on a WebSocket message from `client`: a binary message as a
    /// broker message, a close message by forgetting the client's
    /// subscriptions; any other message is not acted on.
    pub fn process_raw_message(&mut self, frame: Frame, client: C) -> (res: ProtocolResult<
        Option<Delivery<C>>,
    >)
        requires
            old(self).wf(),
            old(self).subscription_count() < usize::MAX,
            obeys_concrete_eq::<C>(),
            frame matches Frame::Binary(data) ==> data@.len() >= 2,
        ensures
            final(self).wf(),
            match frame {
                Frame::Binary(data) => match spec_parse_message(data@) {
                    Ok(m) => res matches Ok(delivery) && final(self).topics() == spec_next_topics(
                        old(self).topics(),
                        m,
                        client,
                    ) && final(self).subscriptions() == spec_next_subscriptions(
                        old(self).topics(),
                        old(self).subscriptions(),
                        m,
                        client,
                    ) && final(self).subscription_count() == spec_next_count(
                        old(self).topics(),
                        m,
                        client,
                        old(self).subscription_count() as int,
                    ) && final(self).wills() == spec_next_wills(old(self).wills(), m, client)
                        && spec_delivery(old(self).subscriptions(), m, client, delivery),
                    Err(text) => res matches Err(e) && e@ == text && final(self).topics() == old(
                        self,
                    ).topics() && final(self).subscriptions() == old(self).subscriptions()
                        && final(self).subscription_count() == old(self).subscription_count()
                        && final(self).wills() == old(self).wills(),
                },
                Frame::Close => res matches Ok(None) && final(self).topics() == old(
                    self,
                ).topics().remove(client) && final(self).subscriptions() == if old(
                    self,
                ).topics().contains_key(client) {
                    spec_remove_topics(old(self).subscriptions(), old(self).topics()[client], client)
                } else {
                    old(self).subscriptions()
                } && final(self).subscription_count() == old(self).subscription_count() - if old(
                    self,
                ).topics().contains_key(client) {
                    old(self).topics()[client].len() as int
                } else {
                    0int
                } && final(self).wills() == old(self).wills(),
                _ => res matches Ok(None) && final(self).topics() == old(self).topics()
                    && final(self).subscriptions() == old(self).subscriptions()
                    && final(self).subscription_count() == old(self).subscription_count()
                    && final(self).wills() == old(self).wills(),
            },
    {
        match frame {
            Frame::Binary(data) => self.process_binary_message(data.as_slice(), client),
            Frame::Close => {
                self.remove_client(client);
                Ok(None)
            },
            _ => Ok(None),
        }
    }
}

impl<C> Default for ClientRegistry<C> where C: Copy + PartialEq + Eq + Hash {
    fn default() -> (registry: Self)
        ensures
            registry.wf(),
            registry.topics() == Map::<C, Seq<Seq<char>>>::empty(),
            registry.subscriptions() == Map::<Seq<Seq<char>>, Set<C>>::empty().insert(
                Seq::empty(),
                Set::empty(),
            ),
            registry.subscription_count() == 0,
            registry.wills() == Map::<C, (Seq<char>, Seq<u8>)>::empty(),
    {
        ClientRegistry::new()
    }
}

/// The subscribers of a topic are exactly the clients subscribed to its
/// path, whatever the number of its segments.
pub proof fn lemma_subscribers_are_subscribed<C>(tree: Map<Seq<Seq<char>>, Set<C>>, t: Seq<char>, x: C)
    ensures
        spec_subscribers(tree, t).contains(x) <==> tree.contains_key(split_topic_spec(t))
            && tree[split_topic_spec(t)].contains(x),
{
}

/// Every publication, whatever its topic and payload, is handed back
/// unchanged, for exactly the clients subscribed to its topic's path but its
/// sender.
pub proof fn lemma_publication_reaches_other_subscribers<C>(
    tree: Map<Seq<Seq<char>>, Set<C>>,
    t: Seq<char>,
    p: Seq<u8>,
    c: C,
    d: Option<Delivery<C>>,
)
    requires
        spec_delivery(tree, MessageView::Publish(t, p), c, d),
    ensures
        d is Some,
        d->Some_0.message@ == MessageView::Publish(t, p),
        d->Some_0.recipients@.no_duplicates(),
        forall|x: C|
            #[trigger] d->Some_0.recipients@.contains(x) <==> x != c && tree.contains_key(
                split_topic_spec(t),
            ) && tree[split_topic_spec(t)].contains(x),
{
    let del = d->Some_0;
    assert forall|x: C| #[trigger] del.recipients@.contains(x) <==> x != c && tree.contains_key(
        split_topic_spec(t),
    ) && tree[split_topic_spec(t)].contains(x) by {
        assert(del.recipients@.contains(x) == del.recipients@.to_set().contains(x));
    }
}

/// The last will of a disconnecting client that declared one is handed back
/// as a last-will message with its topic and payload, for exactly the
/// clients subscribed to the will's topic path but the client itself.
pub proof fn lemma_will_reaches_other_subscribers<C>(
    tree: Map<Seq<Seq<char>>, Set<C>>,
    wills: Map<C, (Seq<char>, Seq<u8>)>,
    c: C,
    d: Option<Delivery<C>>,
)
    requires
        spec_will_delivery(tree, wills, c, d),
    ensures
        wills.contains_key(c) <==> d is Some,
        wills.contains_key(c) ==> d->Some_0.message@ == MessageView::LastWill(wills[c].0, wills[c].1),
        wills.contains_key(c) ==> forall|x: C|
            #[trigger] d->Some_0.recipients@.contains(x) <==> x != c && tree.contains_key(
                split_topic_spec(wills[c].0),
            ) && tree[split_topic_spec(wills[c].0)].contains(x),
{
    if wills.contains_key(c) {
        let del = d->Some_0;
        assert forall|x: C| #[trigger] del.recipients@.contains(x) <==> x != c && tree.contains_key(
            split_topic_spec(wills[c].0),
        ) && tree[split_topic_spec(wills[c].0)].contains(x) by {
            assert(del.recipients@.contains(x) == del.recipients@.to_set().contains(x));
        }
    }
}

/// What a message from `c` does to the subscription tree: a subscription
/// adds exactly `c` at the path of its topic, an unsubscription takes exactly
/// `c` away from it, and a publication or a last will changes no
/// subscription.
pub proof fn lemma_message_changes_subscriptions<C>(
    topics: Map<C, Seq<Seq<char>>>,
    tree: Map<Seq<Seq<char>>, Set<C>>,
    m: MessageView,
    c: C,
    q: Seq<Seq<char>>,
    x: C,
)
    requires
        consistent(topics, tree),
    ensures
        m matches MessageView::Subscribe(t) ==> ((spec_next_subscriptions(topics, tree, m, c).contains_key(q)
            && spec_next_subscriptions(topics, tree, m, c)[q].contains(x)) <==> (tree.contains_key(q)
            && tree[q].contains(x)) || (q == split_topic_spec(t) && x == c)),
        m matches MessageView::Unsubscribe(t) ==> ((spec_next_subscriptions(topics, tree, m, c).contains_key(q)
            && spec_next_subscriptions(topics, tree, m, c)[q].contains(x)) <==> (tree.contains_key(q)
            && tree[q].contains(x)) && !(q == split_topic_spec(t) && x == c)),
        m is Publish || m is LastWill ==> spec_next_subscriptions(topics, tree, m, c) == tree,
{
    match m {
        MessageView::Subscribe(t) => {
            lemma_subscribed_iff_has_topic(topics, tree, c, t);
            lemma_subscribed_after_insert(tree, split_topic_spec(t), c, q, x);
        },
        MessageView::Unsubscribe(t) => {
            lemma_subscribed_after_remove(tree, split_topic_spec(t), c, q, x);
        },
        _ => {},
    }
}

/// What a message from `c` does to the record of topics: after a
/// subscription `c` holds the topic, after an unsubscription it does not;
/// the other topics of `c` and the topics of every other client stay as they
/// were; a publication or a last will changes no topic.
pub proof fn lemma_message_changes_topics<C>(
    topics: Map<C, Seq<Seq<char>>>,
    m: MessageView,
    c: C,
    d: C,
    u: Seq<char>,
)
    requires
        topics_distinct(topics),
    ensures
        m matches MessageView::Subscribe(t) ==> spec_next_topics(topics, m, c).contains_key(c)
            && spec_next_topics(topics, m, c)[c].contains(t),
        m matches MessageView::Unsubscribe(t) ==> !(spec_next_topics(topics, m, c).contains_key(c)
            && spec_next_topics(topics, m, c)[c].contains(t)),
        (m is Subscribe || m is Unsubscribe) && u != crate::protocol::message_topic(m) ==> ((spec_next_topics(
            topics,
            m,
            c,
        ).contains_key(c) && spec_next_topics(topics, m, c)[c].contains(u)) <==> (
        topics.contains_key(c) && topics[c].contains(u))),
        d != c ==> spec_next_topics(topics, m, c).contains_key(d) == topics.contains_key(d),
        d != c && topics.contains_key(d) ==> spec_next_topics(topics, m, c)[d] == topics[d],
        m is Publish || m is LastWill ==> spec_next_topics(topics, m, c) == topics,
{
    match m {
        MessageView::Subscribe(t) => {
            if topics.contains_key(c) && !topics[c].contains(t) {
                let s = topics[c];
                assert(s.push(t)[s.len() as int] == t);
                if s.contains(u) {
                    let k = choose|k: int| 0 <= k < s.len() && s[k] == u;
                    assert(s.push(t)[k] == u);
                }
                if s.push(t).contains(u) && u != t {
                    let k = choose|k: int| 0 <= k < s.len() + 1 && s.push(t)[k] == u;
                    assert(s[k] == u);
                }
            } else if !topics.contains_key(c) {
                assert(seq![t][0] == t);
            }
        },
        MessageView::Unsubscribe(t) => {
            if topics.contains_key(c) {
                let s = topics[c];
                assert(s.no_duplicates());
                let r = remove_topic(s, t);
                if s.contains(t) {
                    let x = s.index_of(t);
                    if r.contains(t) {
                        let k = choose|k: int| 0 <= k < r.len() && r[k] == t;
                        let k1 = if k < x { k } else { k + 1 };
                        assert(s[k1] == t);
                        assert(s[k1] == s[x]);
                    }
                    if u != t {
                        if s.contains(u) {
                            let k = choose|k: int| 0 <= k < s.len() && s[k] == u;
                            assert(k != x);
                            let k2 = if k < x { k } else { k - 1 };
                            assert(r[k2] == u);
                        }
                        if r.contains(u) {
                            let k = choose|k: int| 0 <= k < r.len() && r[k] == u;
                            let k1 = if k < x { k } else { k + 1 };
                            assert(s[k1] == u);
                        }
                    }
                }
            }
        },
        _ => {},
    }
}

/// How a message from `c` changes the subscription count: up by one for a
/// topic `c` did not hold, down by one for an unsubscription from a topic it
/// held, and not at all otherwise.
pub proof fn lemma_message_changes_count<C>(
    topics: Map<C, Seq<Seq<char>>>,
    m: MessageView,
    c: C,
    n: int,
)
    ensures
        m matches MessageView::Subscribe(t) ==> spec_next_count(topics, m, c, n) == n + if topics.contains_key(c)
            && topics[c].contains(t) {
            0int
        } else {
            1int
        },
        m matches MessageView::Unsubscribe(t) ==> spec_next_count(topics, m, c, n) == n - if topics.contains_key(c)
            && topics[c].contains(t) {
            1int
        } else {
            0int
        },
        m is Publish || m is LastWill ==> spec_next_count(topics, m, c, n) == n,
{
}

/// A last will declared by `c` is the one recorded for it afterwards; no
/// other message changes the wills.
pub proof fn lemma_message_changes_wills<C>(
    wills: Map<C, (Seq<char>, Seq<u8>)>,
    m: MessageView,
    c: C,
)
    ensures
        m matches MessageView::LastWill(t, p) ==> spec_next_wills(wills, m, c).contains_key(c)
            && spec_next_wills(wills, m, c)[c] == (t, p) && spec_next_wills(wills, m, c).remove(c)
            == wills.remove(c),
        !(m is LastWill) ==> spec_next_wills(wills, m, c) == wills,
{
    if m is LastWill {
        assert(spec_next_wills(wills, m, c).remove(c) =~= wills.remove(c));
    }
}

} // verus!
