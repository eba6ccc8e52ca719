//! The hierarchical subscription index: a trie over topic-filter levels.
//! A filter may use the single-level wildcard (one segment) or the final
//! multi-level wildcard (any trailing segments).  Each inserted subscription
//! gets a globally unique sequence number that serves as its removal handle.
//! Segments that begin with the reserved marker byte `$` are never matched
//! by a wildcard, only by the identical literal segment.

use vstd::prelude::*;

use crate::packet::clone_bytes;

verus! {

/// The reserved marker: a topic segment beginning with this byte is kept
/// away from wildcard subscribers.
pub const RESERVED_MARKER: u8 = 36;

/// One level of a topic filter.
#[derive(Debug, Clone, PartialEq, Eq)]
pub enum FilterLevel {
    Concrete(Vec<u8>),
    SingleLevelWildcard,
    MultiLevelWildcard,
}

/// The abstract value of one filter level.
pub ghost enum LevelV {
    Concrete(Seq<u8>),
    Single,
    Multi,
}

impl View for FilterLevel {
    type V = LevelV;

    open spec fn view(&self) -> LevelV {
        match self {
            FilterLevel::Concrete(s) => LevelV::Concrete(s@),
            FilterLevel::SingleLevelWildcard => LevelV::Single,
            FilterLevel::MultiLevelWildcard => LevelV::Multi,
        }
    }
}

/// The abstract value of a whole filter.
pub open spec fn filter_view(f: Seq<FilterLevel>) -> Seq<LevelV> {
    f.map_values(|l: FilterLevel| l@)
}

/// The abstract value of a topic: its concrete segments.
pub open spec fn topic_view(t: Seq<Vec<u8>>) -> Seq<Seq<u8>> {
    t.map_values(|s: Vec<u8>| s@)
}

/// The abstract value of a trie node.
#[verifier::ext_equal]
pub ghost struct NodeV<T> {
    pub subs: Seq<(u64, T)>,
    pub single: Option<Box<NodeV<T>>>,
    pub multi: Seq<(u64, T)>,
    pub children: Seq<(Seq<u8>, NodeV<T>)>,
}

/// A node with nothing in it.
pub open spec fn empty_node<T>() -> NodeV<T> {
    NodeV {
        subs: Seq::empty(),
        single: None,
        multi: Seq::empty(),
        children: Seq::empty(),
    }
}

/// A node that holds no subscriber and no child in any of its four places.
pub open spec fn node_is_empty<T>(v: NodeV<T>) -> bool {
    &&& v.subs.len() == 0
    &&& v.single is None
    &&& v.multi.len() == 0
    &&& v.children.len() == 0
}

/// Whether some concrete child carries this key.
pub open spec fn has_child<T>(children: Seq<(Seq<u8>, NodeV<T>)>, key: Seq<u8>) -> bool {
    exists|i: int| 0 <= i < children.len() && children[i].0 == key
}

/// The index of the concrete child with this key (unique under `node_wf`).
pub open spec fn child_at<T>(children: Seq<(Seq<u8>, NodeV<T>)>, key: Seq<u8>) -> int {
    choose|i: int| 0 <= i < children.len() && children[i].0 == key
}

/// Concrete children carry pairwise distinct keys, at every node.
pub open spec fn node_wf<T>(v: NodeV<T>) -> bool
    decreases v,
{
    &&& forall|i: int, j: int|
        0 <= i < j < v.children.len() ==> v.children[i].0 != v.children[j].0
    &&& forall|i: int|
        0 <= i < v.children.len() ==> node_wf((#[trigger] v.children[i]).1)
    &&& match v.single {
        Some(b) => node_wf(*b),
        None => true,
    }
}

/// The first position in a subscriber list that carries this handle, or -1.
pub open spec fn first_counter_index<T>(s: Seq<(u64, T)>, ctr: u64) -> int
    decreases s.len(),
{
    if s.len() == 0 {
        -1
    } else if s[0].0 == ctr {
        0
    } else {
        let r = first_counter_index(s.drop_first(), ctr);
        if r < 0 {
            -1
        } else {
            r + 1
        }
    }
}

proof fn lemma_first_counter_index<T>(s: Seq<(u64, T)>, ctr: u64)
    ensures
        ({
            let r = first_counter_index(s, ctr);
            &&& r == -1 ==> forall|j: int| 0 <= j < s.len() ==> (#[trigger] s[j]).0 != ctr
            &&& r >= 0 ==> r < s.len() && s[r].0 == ctr && forall|j: int|
                0 <= j < r ==> (#[trigger] s[j]).0 != ctr
        }),
    decreases s.len(),
{
    if s.len() > 0 && s[0].0 != ctr {
        lemma_first_counter_index(s.drop_first(), ctr);
        let r0 = first_counter_index(s.drop_first(), ctr);
        assert forall|j: int| 0 <= j < s.len() && (r0 == -1 || j < r0 + 1) implies (
        #[trigger] s[j]).0 != ctr || !(r0 == -1 || j < r0 + 1) by {
            if j > 0 {
                assert(s.drop_first()[j - 1] == s[j]);
            }
        };
        if r0 >= 0 {
            assert(s.drop_first()[r0] == s[r0 + 1]);
        }
    }
}

/// The node after attaching subscription `(ctr, val)` along filter `f` from
/// level `i` on: walk concrete and single-level-wildcard levels (creating
/// children as needed), attach to the multi-level list at a multi-level
/// wildcard, and to the exact list past the last level.
pub open spec fn insert_model<T>(v: NodeV<T>, f: Seq<LevelV>, i: int, ctr: u64, val: T) -> NodeV<
    T,
>
    decreases f.len() - i,
{
    if i < 0 || i >= f.len() {
        NodeV { subs: v.subs.push((ctr, val)), ..v }
    } else {
        match f[i] {
            LevelV::Multi => NodeV { multi: v.multi.push((ctr, val)), ..v },
            LevelV::Single => {
                let child = match v.single {
                    Some(b) => *b,
                    None => empty_node(),
                };
                NodeV { single: Some(Box::new(insert_model(child, f, i + 1, ctr, val))), ..v }
            },
            LevelV::Concrete(key) => {
                if has_child(v.children, key) {
                    let j = child_at(v.children, key);
                    NodeV {
                        children: v.children.update(
                            j,
                            (key, insert_model(v.children[j].1, f, i + 1, ctr, val)),
                        ),
                        ..v
                    }
                } else {
                    NodeV {
                        children: v.children.push(
                            (key, insert_model(empty_node(), f, i + 1, ctr, val)),
                        ),
                        ..v
                    }
                }
            },
        }
    }
}

/// The node after removing the subscription with handle `ctr` along filter
/// `f` from level `i` on, and the removed value.  A child left empty by the
/// removal is pruned on the way back up.
pub open spec fn remove_model<T>(v: NodeV<T>, f: Seq<LevelV>, i: int, ctr: u64) -> (
    NodeV<T>,
    Option<T>,
)
    decreases f.len() - i,
{
    if i < 0 || i >= f.len() {
        let r = first_counter_index(v.subs, ctr);
        if r < 0 {
            (v, None)
        } else {
            (NodeV { subs: v.subs.remove(r), ..v }, Some(v.subs[r].1))
        }
    } else {
        match f[i] {
            LevelV::Multi => {
                let r = first_counter_index(v.multi, ctr);
                if r < 0 {
                    (v, None)
                } else {
                    (NodeV { multi: v.multi.remove(r), ..v }, Some(v.multi[r].1))
                }
            },
            LevelV::Single => {
                match v.single {
                    None => (v, None),
                    Some(b) => {
                        let rec = remove_model(*b, f, i + 1, ctr);
                        if node_is_empty(rec.0) {
                            (NodeV { single: None, ..v }, rec.1)
                        } else {
                            (NodeV { single: Some(Box::new(rec.0)), ..v }, rec.1)
                        }
                    },
                }
            },
            LevelV::Concrete(key) => {
                if !has_child(v.children, key) {
                    (v, None)
                } else {
                    let j = child_at(v.children, key);
                    let rec = remove_model(v.children[j].1, f, i + 1, ctr);
                    if node_is_empty(rec.0) {
                        (NodeV { children: v.children.remove(j), ..v }, rec.1)
                    } else {
                        (NodeV { children: v.children.update(j, (key, rec.0)), ..v }, rec.1)
                    }
                }
            },
        }
    }
}

/// Whether a topic segment begins with the reserved marker.
pub open spec fn starts_marker(s: Seq<u8>) -> bool {
    s.len() > 0 && s[0] == RESERVED_MARKER
}

/// Whether none of the topic's segments from `i` on begins with the
/// reserved marker.
pub open spec fn no_marker_from(t: Seq<Seq<u8>>, i: int) -> bool {
    forall|j: int| i <= j < t.len() ==> !starts_marker(#[trigger] t[j])
}

/// The values a value list carries, in order.
pub open spec fn values_of<T>(s: Seq<(u64, T)>) -> Seq<T> {
    s.map_values(|p: (u64, T)| p.1)
}

/// The subscribers a topic reaches below node `v`, the topic's segments
/// from `i` on being still to match: the exact list when every segment is
/// consumed, the multi-level list whenever the remaining segments are free
/// of the reserved marker, and whatever the matching concrete child and the
/// single-level-wildcard child (reserved marker kept away from the latter)
/// contribute.
pub open spec fn match_model<T>(v: NodeV<T>, t: Seq<Seq<u8>>, i: int) -> Seq<T>
    decreases t.len() - i,
{
    if i < 0 || i > t.len() {
        Seq::empty()
    } else {
        let exact: Seq<T> = if i == t.len() {
            values_of(v.subs)
        } else {
            Seq::empty()
        };
        let multi: Seq<T> = if no_marker_from(t, i) {
            values_of(v.multi)
        } else {
            Seq::empty()
        };
        let conc: Seq<T> = if i < t.len() && has_child(v.children, t[i]) {
            match_model(v.children[child_at(v.children, t[i])].1, t, i + 1)
        } else {
            Seq::empty()
        };
        let single: Seq<T> = if i < t.len() && !starts_marker(t[i]) {
            match v.single {
                Some(b) => match_model(*b, t, i + 1),
                None => Seq::empty(),
            }
        } else {
            Seq::empty()
        };
        exact + multi + conc + single
    }
}


/// Whether two byte strings are equal.
fn bytes_eq(a: &Vec<u8>, b: &Vec<u8>) -> (r: bool)
    ensures
        r == (a@ == b@),
{
    let n = a.len();
    if n != b.len() {
        return false;
    }
    let mut i: usize = 0;
    while i < n
        invariant
            n == a.len(),
            n == b.len(),
            i <= n,
            forall|j: int| 0 <= j < i ==> a@[j] == b@[j],
        decreases n - i,
    {
        if a[i] != b[i] {
            return false;
        }
        i += 1;
    }
    proof {
        assert(a@ =~= b@);
    }
    true
}

proof fn lemma_insert_model_wf<T>(v: NodeV<T>, f: Seq<LevelV>, i: int, ctr: u64, val: T)
    requires
        node_wf(v),
    ensures
        node_wf(insert_model(v, f, i, ctr, val)),
    decreases f.len() - i,
{
    let v2 = insert_model(v, f, i, ctr, val);
    if 0 <= i < f.len() {
        match f[i] {
            LevelV::Multi => {},
            LevelV::Single => {
                let child = match v.single {
                    Some(b) => *b,
                    None => empty_node(),
                };
                lemma_insert_model_wf(child, f, i + 1, ctr, val);
            },
            LevelV::Concrete(key) => {
                if has_child(v.children, key) {
                    let j = child_at(v.children, key);
                    lemma_insert_model_wf(v.children[j].1, f, i + 1, ctr, val);
                    assert forall|p: int, q: int| 0 <= p < q < v2.children.len() implies v2
                        .children[p].0 != v2.children[q].0 by {
                        assert(v.children[p].0 != v.children[q].0);
                    };
                    assert forall|p: int| 0 <= p < v2.children.len() implies node_wf(
                        (#[trigger] v2.children[p]).1,
                    ) by {
                        if p != j {
                            assert(v2.children[p].1 == v.children[p].1);
                        }
                    };
                } else {
                    lemma_insert_model_wf(empty_node::<T>(), f, i + 1, ctr, val);
                    assert forall|p: int, q: int| 0 <= p < q < v2.children.len() implies v2
                        .children[p].0 != v2.children[q].0 by {
                        if q < v.children.len() {
                            assert(v.children[p].0 != v.children[q].0);
                        } else {
                            if v.children[p].0 == key {
                                assert(has_child(v.children, key));
                            }
                        }
                    };
                    assert forall|p: int| 0 <= p < v2.children.len() implies node_wf(
                        (#[trigger] v2.children[p]).1,
                    ) by {
                        if p < v.children.len() {
                            assert(v2.children[p].1 == v.children[p].1);
                        }
                    };
                }
            },
        }
    }
}


proof fn lemma_remove_model_wf<T>(v: NodeV<T>, f: Seq<LevelV>, i: int, ctr: u64)
    requires
        node_wf(v),
    ensures
        node_wf(remove_model(v, f, i, ctr).0),
    decreases f.len() - i,
{
    let v2 = remove_model(v, f, i, ctr).0;
    if 0 <= i < f.len() {
        match f[i] {
            LevelV::Multi => {},
            LevelV::Single => {
                match v.single {
                    None => {},
                    Some(b) => {
                        lemma_remove_model_wf(*b, f, i + 1, ctr);
                    },
                }
            },
            LevelV::Concrete(key) => {
                if has_child(v.children, key) {
                    let j = child_at(v.children, key);
                    lemma_remove_model_wf(v.children[j].1, f, i + 1, ctr);
                    let rec = remove_model(v.children[j].1, f, i + 1, ctr);
                    if node_is_empty(rec.0) {
                        assert(v2.children == v.children.remove(j));
                        v.children.remove_ensures(j);
                        assert forall|p: int, q: int| 0 <= p < q < v2.children.len() implies v2
                            .children[p].0 != v2.children[q].0 by {
                            let p0: int = if p < j {
                                p
                            } else {
                                p + 1
                            };
                            let q0: int = if q < j {
                                q
                            } else {
                                q + 1
                            };
                            assert(v2.children[p] == v.children[p0]);
                            assert(v2.children[q] == v.children[q0]);
                            assert(v.children[p0].0 != v.children[q0].0);
                        };
                        assert forall|p: int| 0 <= p < v2.children.len() implies node_wf(
                            (#[trigger] v2.children[p]).1,
                        ) by {
                            let p0: int = if p < j {
                                p
                            } else {
                                p + 1
                            };
                            assert(v2.children[p] == v.children[p0]);
                        };
                    } else {
                        assert forall|p: int, q: int| 0 <= p < q < v2.children.len() implies v2
                            .children[p].0 != v2.children[q].0 by {
                            assert(v.children[p].0 != v.children[q].0);
                        };
                        assert forall|p: int| 0 <= p < v2.children.len() implies node_wf(
                            (#[trigger] v2.children[p]).1,
                        ) by {
                            if p != j {
                                assert(v2.children[p].1 == v.children[p].1);
                            }
                        };
                    }
                }
            },
        }
    }
}

/// A trie node: the exact-match subscribers, the single-level-wildcard
/// child, the multi-level-wildcard subscribers, and the concrete children
/// keyed by their segment.
#[derive(Debug)]
pub struct SubscriptionTreeNode<T> {
    subscribers: Vec<(u64, T)>,
    single_level_wildcards: Option<Box<SubscriptionTreeNode<T>>>,
    multi_level_wildcards: Vec<(u64, T)>,
    concrete_topic_levels: Vec<(Vec<u8>, SubscriptionTreeNode<T>)>,
}

/// The abstract value of a trie node.
pub closed spec fn node_view<T>(n: SubscriptionTreeNode<T>) -> NodeV<T>
    decreases n,
{
    NodeV {
        subs: n.subscribers@,
        single: match n.single_level_wildcards {
            None => None,
            Some(b) => Some(Box::new(node_view(*b))),
        },
        multi: n.multi_level_wildcards@,
        children: Seq::new(
            n.concrete_topic_levels@.len(),
            |i: int|
                if 0 <= i < n.concrete_topic_levels@.len() {
                    (n.concrete_topic_levels@[i].0@, node_view(n.concrete_topic_levels@[i].1))
                } else {
                    (Seq::empty(), empty_node())
                },
        ),
    }
}

impl<T> View for SubscriptionTreeNode<T> {
    type V = NodeV<T>;

    closed spec fn view(&self) -> NodeV<T> {
        node_view(*self)
    }
}

/// The wildcard trie, with the counter that hands out subscription handles.
#[derive(Debug)]
pub struct SubscriptionTree<T> {
    root: SubscriptionTreeNode<T>,
    counter: u64,
}

/// The abstract value of the trie.
#[verifier::ext_equal]
pub ghost struct TreeV<T> {
    pub root: NodeV<T>,
    pub counter: u64,
}

impl<T> View for SubscriptionTree<T> {
    type V = TreeV<T>;

    closed spec fn view(&self) -> TreeV<T> {
        TreeV { root: node_view(self.root), counter: self.counter }
    }
}

impl<T: Copy> SubscriptionTreeNode<T> {
    fn new() -> (n: SubscriptionTreeNode<T>)
        ensures
            n@ == empty_node::<T>(),
    {
        let n = SubscriptionTreeNode {
            subscribers: Vec::new(),
            single_level_wildcards: None,
            multi_level_wildcards: Vec::new(),
            concrete_topic_levels: Vec::new(),
        };
        proof {
            assert(n@.subs =~= empty_node::<T>().subs);
            assert(n@.multi =~= empty_node::<T>().multi);
            assert(n@.children =~= empty_node::<T>().children);
            assert(n@.single == empty_node::<T>().single);
            assert(n@ =~= empty_node::<T>());
        }
        n
    }


    /// The position of the concrete child keyed by this segment, if any.
    fn child_index(&self, key: &Vec<u8>) -> (r: Option<usize>)
        requires
            node_wf(self@),
        ensures
            match r {
                Some(j) => j < self@.children.len() && self@.children[j as int].0 == key@
                    && has_child(self@.children, key@) && child_at(self@.children, key@)
                    == j as int,
                None => !has_child(self@.children, key@),
            },
    {
        let n = self.concrete_topic_levels.len();
        let mut i: usize = 0;
        while i < n
            invariant
                node_wf(self@),
                n == self.concrete_topic_levels.len(),
                n == self@.children.len(),
                i <= n,
                forall|j: int| 0 <= j < i ==> self@.children[j].0 != key@,
            decreases n - i,
        {
            proof {
                assert(self@.children[i as int].0 == self.concrete_topic_levels@[i as int].0@);
            }
            if bytes_eq(&self.concrete_topic_levels[i].0, key) {
                proof {
                    assert(has_child(self@.children, key@));
                    let j = choose|j: int|
                        0 <= j < self@.children.len() && self@.children[j].0 == key@;
                    if j < i as int {
                        assert(self@.children[j].0 != self@.children[i as int].0);
                    } else if (i as int) < j {
                        assert(self@.children[i as int].0 != self@.children[j].0);
                    }
                }
                return Some(i);
            }
            i += 1;
        }
        None
    }

    /// Attach subscription `(counter, value)` along the filter's levels from
    /// level `i` on.
    fn insert_at(&mut self, topic_filter: &Vec<FilterLevel>, i: usize, value: T, counter: u64)
        requires
            i <= topic_filter@.len(),
            node_wf(old(self)@),
        ensures
            final(self)@ == insert_model(
                old(self)@,
                filter_view(topic_filter@),
                i as int,
                counter,
                value,
            ),
        decreases topic_filter@.len() - i,
    {
        let ghost f = filter_view(topic_filter@);
        let ghost v0 = self@;
        if i == topic_filter.len() {
            self.subscribers.push((counter, value));
            proof {
                assert(self@ =~= insert_model(v0, f, i as int, counter, value));
            }
            return;
        }
        proof {
            assert(f[i as int] == topic_filter@[i as int]@);
        }
        match &topic_filter[i] {
            FilterLevel::MultiLevelWildcard => {
                self.multi_level_wildcards.push((counter, value));
                proof {
                    assert(self@ =~= insert_model(v0, f, i as int, counter, value));
                }
            },
            FilterLevel::SingleLevelWildcard => {
                if self.single_level_wildcards.is_none() {
                    self.single_level_wildcards = Some(Box::new(SubscriptionTreeNode::new()));
                }
                let ghost child0 = match v0.single {
                    Some(b) => *b,
                    None => empty_node(),
                };
                match &mut self.single_level_wildcards {
                    Some(b) => {
                        proof {
                            assert(b@ == child0);
                        }
                        b.insert_at(topic_filter, i + 1, value, counter);
                    },
                    None => {
                        proof {
                            assert(false);
                        }
                    },
                }
                proof {
                    assert(self@ =~= insert_model(v0, f, i as int, counter, value));
                }
            },
            FilterLevel::Concrete(key) => {
                let idx = self.child_index(key);
                match idx {
                    Some(j) => {
                        let ghost c0 = v0.children;
                        let mut entry = self.concrete_topic_levels.remove(j);
                        entry.1.insert_at(topic_filter, i + 1, value, counter);
                        self.concrete_topic_levels.insert(j, entry);
                        proof {
                            let c2 = self@.children;
                            assert forall|k: int| 0 <= k < c2.len() implies c2[k] == c0.update(
                                j as int,
                                (
                                    key@,
                                    insert_model(
                                        c0[j as int].1,
                                        f,
                                        i + 1,
                                        counter,
                                        value,
                                    ),
                                ),
                            )[k] by {
                                if k < j as int {
                                } else if k == j as int {
                                } else {
                                }
                            };
                            assert(c2 =~= c0.update(
                                j as int,
                                (key@, insert_model(c0[j as int].1, f, i + 1, counter, value)),
                            ));
                            assert(self@ =~= insert_model(v0, f, i as int, counter, value));
                        }
                    },
                    None => {
                        let mut node = SubscriptionTreeNode::new();
                        node.insert_at(topic_filter, i + 1, value, counter);
                        self.concrete_topic_levels.push((clone_bytes(key), node));
                        proof {
                            let c2 = self@.children;
                            assert(c2 =~= v0.children.push(
                                (key@, insert_model(empty_node(), f, i + 1, counter, value)),
                            ));
                            assert(self@ =~= insert_model(v0, f, i as int, counter, value));
                        }
                    },
                }
            },
        }
    }


    /// The position of the entry with this handle, if the list has one.
    fn counter_position(list: &Vec<(u64, T)>, counter: u64) -> (r: Option<usize>)
        ensures
            ({
                let fi = first_counter_index(list@, counter);
                match r {
                    Some(j) => fi == j as int && (j as int) < list@.len(),
                    None => fi == -1,
                }
            }),
    {
        let n = list.len();
        let mut i: usize = 0;
        while i < n
            invariant
                n == list.len(),
                i <= n,
                forall|j: int| 0 <= j < i ==> (#[trigger] list@[j]).0 != counter,
            decreases n - i,
        {
            if list[i].0 == counter {
                proof {
                    lemma_first_counter_index(list@, counter);
                    let fi = first_counter_index(list@, counter);
                    if fi == -1 {
                        assert(list@[i as int].0 != counter);
                    }
                }
                return Some(i);
            }
            i += 1;
        }
        proof {
            lemma_first_counter_index(list@, counter);
            let fi = first_counter_index(list@, counter);
            if fi >= 0 {
                assert(list@[fi].0 != counter);
            }
        }
        None
    }

    /// Remove the subscription with this handle along the filter's levels
    /// from level `i` on, pruning children the removal leaves empty.
    fn remove_at(&mut self, topic_filter: &Vec<FilterLevel>, i: usize, counter: u64) -> (r:
        Option<T>)
        requires
            i <= topic_filter@.len(),
            node_wf(old(self)@),
        ensures
            ({
                let m = remove_model(old(self)@, filter_view(topic_filter@), i as int, counter);
                final(self)@ == m.0 && r == m.1
            }),
        decreases topic_filter@.len() - i,
    {
        let ghost f = filter_view(topic_filter@);
        let ghost v0 = self@;
        if i == topic_filter.len() {
            match Self::counter_position(&self.subscribers, counter) {
                None => None,
                Some(j) => {
                    let e = self.subscribers.remove(j);
                    proof {
                        assert(self@ =~= remove_model(v0, f, i as int, counter).0);
                    }
                    Some(e.1)
                },
            }
        } else {
            proof {
                assert(f[i as int] == topic_filter@[i as int]@);
            }
            match &topic_filter[i] {
                FilterLevel::MultiLevelWildcard => {
                    match Self::counter_position(&self.multi_level_wildcards, counter) {
                        None => None,
                        Some(j) => {
                            let e = self.multi_level_wildcards.remove(j);
                            proof {
                                assert(self@ =~= remove_model(v0, f, i as int, counter).0);
                            }
                            Some(e.1)
                        },
                    }
                },
                FilterLevel::SingleLevelWildcard => {
                    if self.single_level_wildcards.is_some() {
                        let r: Option<T>;
                        let mut empty_now = false;
                        match &mut self.single_level_wildcards {
                            Some(b) => {
                                r = b.remove_at(topic_filter, i + 1, counter);
                                empty_now = b.is_empty();
                            },
                            None => {
                                proof {
                                    assert(false);
                                }
                                r = None;
                            },
                        }
                        if empty_now {
                            self.single_level_wildcards = None;
                        }
                        proof {
                            let m = remove_model(v0, f, i as int, counter);
                            assert(self@ =~= m.0);
                        }
                        r
                    } else {
                        None
                    }
                },
                FilterLevel::Concrete(key) => {
                    let idx = self.child_index(key);
                    match idx {
                        None => None,
                        Some(j) => {
                            let ghost c0 = v0.children;
                            let mut entry = self.concrete_topic_levels.remove(j);
                            let r = entry.1.remove_at(topic_filter, i + 1, counter);
                            let ghost m = remove_model(v0, f, i as int, counter);
                            if entry.1.is_empty() {
                                proof {
                                    let c2 = self@.children;
                                    assert forall|k: int| 0 <= k < c2.len() implies c2[k] == c0
                                        .remove(j as int)[k] by {
                                        c0.remove_ensures(j as int);
                                    };
                                    assert(c2 =~= c0.remove(j as int));
                                    assert(self@ =~= m.0);
                                }
                            } else {
                                self.concrete_topic_levels.insert(j, entry);
                                proof {
                                    let rec = remove_model(c0[j as int].1, f, i + 1, counter);
                                    let c2 = self@.children;
                                    assert forall|k: int| 0 <= k < c2.len() implies c2[k] == c0
                                        .update(j as int, (key@, rec.0))[k] by {
                                        if k < j as int {
                                        } else if k == j as int {
                                        } else {
                                        }
                                    };
                                    assert(c2 =~= c0.update(j as int, (key@, rec.0)));
                                    assert(self@ =~= m.0);
                                }
                            }
                            r
                        },
                    }
                },
            }
        }
    }


    /// Whether this topic segment begins with the reserved marker.
    fn seg_starts_marker(s: &Vec<u8>) -> (r: bool)
        ensures
            r == starts_marker(s@),
    {
        s.len() > 0 && s[0] == RESERVED_MARKER
    }

    /// Whether no topic segment from `i` on begins with the reserved
    /// marker.
    fn no_marker_from_on(topic: &Vec<Vec<u8>>, i: usize) -> (r: bool)
        requires
            i <= topic@.len(),
        ensures
            r == no_marker_from(topic_view(topic@), i as int),
    {
        let n = topic.len();
        let mut j: usize = i;
        while j < n
            invariant
                i <= j <= n,
                n == topic.len(),
                forall|k: int|
                    i <= k < j ==> !starts_marker(#[trigger] topic_view(topic@)[k]),
            decreases n - j,
        {
            proof {
                assert(topic_view(topic@)[j as int] == topic@[j as int]@);
            }
            if Self::seg_starts_marker(&topic[j]) {
                return false;
            }
            j += 1;
        }
        true
    }

    /// Collect into `out` every subscriber the topic reaches below this
    /// node, its segments from `i` on being still to match.
    fn matching_at(&self, topic: &Vec<Vec<u8>>, i: usize, out: &mut Vec<T>)
        requires
            i <= topic@.len(),
            node_wf(self@),
        ensures
            final(out)@ == old(out)@ + match_model(self@, topic_view(topic@), i as int),
        decreases topic@.len() - i,
    {
        let ghost t = topic_view(topic@);
        let ghost v = self@;
        let ghost base = out@;
        let ghost exact: Seq<T> = if i as int == t.len() {
            values_of(v.subs)
        } else {
            Seq::empty()
        };
        if i == topic.len() {
            let n = self.subscribers.len();
            let mut k: usize = 0;
            while k < n
                invariant
                    n == self.subscribers.len(),
                    k <= n,
                    v == self@,
                    out@ == base + values_of(v.subs).subrange(0, k as int),
                decreases n - k,
            {
                out.push(self.subscribers[k].1);
                proof {
                    assert(values_of(v.subs)[k as int] == v.subs[k as int].1);
                    assert(out@ =~= base + values_of(v.subs).subrange(0, k + 1));
                }
                k += 1;
            }
            proof {
                assert(values_of(v.subs).subrange(0, n as int) =~= values_of(v.subs));
            }
        }
        proof {
            assert(out@ == base + exact);
        }
        let ghost base1 = out@;
        let ghost multi: Seq<T> = if no_marker_from(t, i as int) {
            values_of(v.multi)
        } else {
            Seq::empty()
        };
        if Self::no_marker_from_on(topic, i) {
            let n = self.multi_level_wildcards.len();
            let mut k: usize = 0;
            while k < n
                invariant
                    n == self.multi_level_wildcards.len(),
                    k <= n,
                    v == self@,
                    out@ == base1 + values_of(v.multi).subrange(0, k as int),
                decreases n - k,
            {
                out.push(self.multi_level_wildcards[k].1);
                proof {
                    assert(values_of(v.multi)[k as int] == v.multi[k as int].1);
                    assert(out@ =~= base1 + values_of(v.multi).subrange(0, k + 1));
                }
                k += 1;
            }
            proof {
                assert(values_of(v.multi).subrange(0, n as int) =~= values_of(v.multi));
            }
        }
        proof {
            assert(out@ == base1 + multi);
        }
        let ghost base2 = out@;
        let ghost conc: Seq<T> = if (i as int) < t.len() && has_child(v.children, t[i as int]) {
            match_model(v.children[child_at(v.children, t[i as int])].1, t, i as int + 1)
        } else {
            Seq::empty()
        };
        if i < topic.len() {
            proof {
                assert(t[i as int] == topic@[i as int]@);
            }
            match self.child_index(&topic[i]) {
                Some(j) => {
                    proof {
                        assert(self@.children[j as int].1 == node_view(
                            self.concrete_topic_levels@[j as int].1,
                        ));
                    }
                    self.concrete_topic_levels[j].1.matching_at(topic, i + 1, out);
                },
                None => {},
            }
        }
        proof {
            assert(out@ == base2 + conc);
        }
        let ghost base3 = out@;
        let ghost single: Seq<T> = if (i as int) < t.len() && !starts_marker(t[i as int]) {
            match v.single {
                Some(b) => match_model(*b, t, i as int + 1),
                None => Seq::empty(),
            }
        } else {
            Seq::empty()
        };
        if i < topic.len() {
            proof {
                assert(t[i as int] == topic@[i as int]@);
            }
            if !Self::seg_starts_marker(&topic[i]) {
                match &self.single_level_wildcards {
                    Some(b) => {
                        b.matching_at(topic, i + 1, out);
                    },
                    None => {},
                }
            }
        }
        proof {
            assert(out@ == base3 + single);
            assert(out@ == base + exact + multi + conc + single);
            assert(base + exact + multi + conc + single =~= base + (exact + multi + conc
                + single));
            assert(out@ == base + match_model(v, t, i as int));
        }
    }

    fn is_empty(&self) -> (r: bool)
        ensures
            r == node_is_empty(self@),
    {
        self.subscribers.is_empty() && self.single_level_wildcards.is_none()
            && self.multi_level_wildcards.is_empty() && self.concrete_topic_levels.is_empty()
    }
}

impl<T: Copy> SubscriptionTree<T> {
    /// An empty trie; handles count from 0.
    pub fn new() -> (t: SubscriptionTree<T>)
        ensures
            t@.root == empty_node::<T>(),
            t@.counter == 0,
            node_wf(t@.root),
    {
        SubscriptionTree { root: SubscriptionTreeNode::new(), counter: 0 }
    }


    /// Attach a subscription under this filter; the returned handle is
    /// fresh, and serves for later removal.
    pub fn insert(&mut self, topic_filter: &Vec<FilterLevel>, value: T) -> (counter: u64)
        requires
            node_wf(old(self)@.root),
            old(self)@.counter < u64::MAX,
        ensures
            counter == old(self)@.counter,
            final(self)@.counter == old(self)@.counter + 1,
            final(self)@.root == insert_model(
                old(self)@.root,
                filter_view(topic_filter@),
                0,
                counter,
                value,
            ),
            node_wf(final(self)@.root),
    {
        let counter = self.counter;
        self.root.insert_at(topic_filter, 0, value, counter);
        self.counter = self.counter + 1;
        proof {
            lemma_insert_model_wf(old(self)@.root, filter_view(topic_filter@), 0, counter, value);
        }
        counter
    }


    /// Remove the subscription that `insert` handed this handle out for,
    /// re-walking the same filter; children left empty are pruned.
    pub fn remove(&mut self, topic_filter: &Vec<FilterLevel>, counter: u64) -> (r: Option<T>)
        requires
            node_wf(old(self)@.root),
        ensures
            ({
                let m = remove_model(old(self)@.root, filter_view(topic_filter@), 0, counter);
                &&& final(self)@.root == m.0
                &&& r == m.1
            }),
            final(self)@.counter == old(self)@.counter,
            node_wf(final(self)@.root),
    {
        let r = self.root.remove_at(topic_filter, 0, counter);
        proof {
            lemma_remove_model_wf(old(self)@.root, filter_view(topic_filter@), 0, counter);
        }
        r
    }


    /// Every subscriber whose filter matches this topic, in trie walk
    /// order: exact matches before multi-level wildcard matches, concrete
    /// descent before wildcard descent.
    pub fn matching_subscribers(&self, topic: &Vec<Vec<u8>>) -> (r: Vec<T>)
        requires
            node_wf(self@.root),
        ensures
            r@ == match_model(self@.root, topic_view(topic@), 0),
    {
        let mut out: Vec<T> = Vec::new();
        self.root.matching_at(topic, 0, &mut out);
        out
    }

    /// Whether the trie holds no subscription at all.
    pub fn is_empty(&self) -> (r: bool)
        ensures
            r == node_is_empty(self@.root),
    {
        self.root.is_empty()
    }
}

/// The topic separator byte `/`.
pub const SEPARATOR: u8 = 47;

/// The single-level wildcard byte `+`.
pub const SINGLE_WILDCARD: u8 = 43;

/// The multi-level wildcard byte `#`.
pub const MULTI_WILDCARD: u8 = 35;

/// The first position of the separator byte, or -1.
pub open spec fn first_sep(s: Seq<u8>) -> int
    decreases s.len(),
{
    if s.len() == 0 {
        -1
    } else if s[0] == SEPARATOR {
        0
    } else {
        let r = first_sep(s.drop_first());
        if r < 0 {
            -1
        } else {
            r + 1
        }
    }
}

proof fn lemma_first_sep(s: Seq<u8>)
    ensures
        ({
            let r = first_sep(s);
            &&& r == -1 ==> forall|j: int| 0 <= j < s.len() ==> s[j] != SEPARATOR
            &&& r >= 0 ==> r < s.len() && s[r] == SEPARATOR && forall|j: int|
                0 <= j < r ==> s[j] != SEPARATOR
        }),
    decreases s.len(),
{
    if s.len() > 0 && s[0] != SEPARATOR {
        lemma_first_sep(s.drop_first());
        let r0 = first_sep(s.drop_first());
        assert forall|j: int| 1 <= j < s.len() implies s.drop_first()[j - 1] == s[j] by {};
        if r0 >= 0 {
            assert(s.drop_first()[r0] == s[r0 + 1]);
        }
    }
}

/// The segments of a byte string, split on the separator.
pub open spec fn split_segments(s: Seq<u8>) -> Seq<Seq<u8>>
    decreases s.len(),
{
    let i = first_sep(s);
    if i < 0 || i >= s.len() {
        seq![s]
    } else {
        seq![s.subrange(0, i)] + split_segments(s.subrange(i + 1, s.len() as int))
    }
}

/// Whether a segment is free of wildcard bytes.
pub open spec fn seg_wildcard_free(s: Seq<u8>) -> bool {
    forall|i: int| 0 <= i < s.len() ==> s[i] != SINGLE_WILDCARD && s[i] != MULTI_WILDCARD
}

/// The filter level a segment stands for: a lone `+` or `#` is a wildcard,
/// anything else a literal.
pub open spec fn level_of_segment(s: Seq<u8>) -> LevelV {
    if s.len() == 1 && s[0] == SINGLE_WILDCARD {
        LevelV::Single
    } else if s.len() == 1 && s[0] == MULTI_WILDCARD {
        LevelV::Multi
    } else {
        LevelV::Concrete(s)
    }
}

/// A well-formed filter: wildcards stand alone in their level, and the
/// multi-level wildcard only as the last level.
pub open spec fn filter_valid(segs: Seq<Seq<u8>>) -> bool {
    forall|i: int|
        0 <= i < segs.len() ==> ({
            &&& (level_of_segment(#[trigger] segs[i]) is Concrete ==> seg_wildcard_free(segs[i]))
            &&& (level_of_segment(segs[i]) is Multi ==> i == segs.len() - 1)
        })
}

/// A well-formed topic: every segment is free of wildcard bytes.
pub open spec fn topic_valid(segs: Seq<Seq<u8>>) -> bool {
    forall|i: int| 0 <= i < segs.len() ==> seg_wildcard_free(#[trigger] segs[i])
}

/// The segments of the byte string from position `start` on.
fn split_from(bytes: &Vec<u8>, start: usize) -> (segs: Vec<Vec<u8>>)
    requires
        start <= bytes@.len(),
    ensures
        topic_view(segs@) == split_segments(bytes@.subrange(start as int, bytes@.len() as int)),
        segs@.len() > 0,
    decreases bytes@.len() - start,
{
    let ghost s = bytes@.subrange(start as int, bytes@.len() as int);
    let n = bytes.len();
    let mut p = start;
    while p < n && bytes[p] != SEPARATOR
        invariant
            start <= p <= n,
            n == bytes@.len(),
            forall|j: int| start <= j < p ==> bytes@[j] != SEPARATOR,
        decreases n - p,
    {
        p += 1;
    }
    let mut seg: Vec<u8> = Vec::new();
    let mut q = start;
    while q < p
        invariant
            start <= q <= p <= n,
            n == bytes@.len(),
            seg@ == bytes@.subrange(start as int, q as int),
        decreases p - q,
    {
        seg.push(bytes[q]);
        proof {
            assert(seg@ =~= bytes@.subrange(start as int, q + 1));
        }
        q += 1;
    }
    proof {
        lemma_first_sep(s);
        assert forall|j: int| 0 <= j < s.len() implies s[j] == bytes@[start + j] by {};
    }
    if p == n {
        proof {
            if first_sep(s) >= 0 {
                let r = first_sep(s);
                assert(s[r] == SEPARATOR);
                assert(bytes@[start + r] != SEPARATOR);
            }
            assert(seg@ =~= s);
        }
        let mut segs: Vec<Vec<u8>> = Vec::new();
        segs.push(seg);
        proof {
            assert(topic_view(segs@) =~= seq![s]);
        }
        segs
    } else {
        proof {
            assert(bytes@[p as int] == SEPARATOR);
            assert(s[p - start] == SEPARATOR);
            if first_sep(s) < 0 {
                assert(s[p - start] != SEPARATOR);
            }
            let r = first_sep(s);
            if r < p - start {
                assert(bytes@[start + r] != SEPARATOR);
                assert(s[r] == SEPARATOR);
            }
            if p - start < r {
                assert(s[p - start] != SEPARATOR);
            }
            assert(r == p - start);
            assert(seg@ =~= s.subrange(0, p - start));
        }
        let mut segs = split_from(bytes, p + 1);
        proof {
            assert(bytes@.subrange(p + 1, n as int) =~= s.subrange(
                p - start + 1,
                s.len() as int,
            ));
        }
        segs.insert(0, seg);
        proof {
            assert(topic_view(segs@) =~= seq![s.subrange(0, p - start)] + split_segments(
                s.subrange(p - start + 1, s.len() as int),
            ));
        }
        segs
    }
}

/// Whether a segment is free of wildcard bytes.
fn seg_wildcard_free_check(seg: &Vec<u8>) -> (r: bool)
    ensures
        r == seg_wildcard_free(seg@),
{
    let n = seg.len();
    let mut i: usize = 0;
    while i < n
        invariant
            i <= n,
            n == seg@.len(),
            forall|j: int|
                0 <= j < i ==> seg@[j] != SINGLE_WILDCARD && seg@[j] != MULTI_WILDCARD,
        decreases n - i,
    {
        if seg[i] == SINGLE_WILDCARD || seg[i] == MULTI_WILDCARD {
            return false;
        }
        i += 1;
    }
    true
}

/// Parse a topic filter from its wire form: segments split on `/`, a lone
/// `+` a single-level wildcard, a lone `#` (last segment only) the
/// multi-level wildcard.  An empty filter, a wildcard byte inside a longer
/// segment, and a `#` before the end are rejected.
pub fn parse_filter(bytes: &Vec<u8>) -> (r: Option<Vec<FilterLevel>>)
    ensures
        bytes@.len() == 0 ==> r is None,
        bytes@.len() > 0 ==> match r {
            Some(f) => filter_valid(split_segments(bytes@)) && filter_view(f@) == split_segments(
                bytes@,
            ).map_values(|seg: Seq<u8>| level_of_segment(seg)),
            None => !filter_valid(split_segments(bytes@)),
        },
{
    if bytes.len() == 0 {
        return None;
    }
    let segs = split_from(bytes, 0);
    proof {
        assert(bytes@.subrange(0, bytes@.len() as int) =~= bytes@);
    }
    let ghost sv = split_segments(bytes@);
    let n = segs.len();
    let mut out: Vec<FilterLevel> = Vec::new();
    let mut i: usize = 0;
    while i < n
        invariant
            i <= n,
            n == segs@.len(),
            sv == split_segments(bytes@),
            sv == topic_view(segs@),
            out@.len() == i,
            forall|j: int|
                0 <= j < i ==> #[trigger] filter_view(out@)[j] == level_of_segment(sv[j]),
            forall|j: int|
                0 <= j < i ==> (level_of_segment(#[trigger] sv[j]) is Concrete
                    ==> seg_wildcard_free(sv[j])),
            forall|j: int| 0 <= j < i ==> !(level_of_segment(#[trigger] sv[j]) is Multi) || j
                == n - 1,
        decreases n - i,
    {
        proof {
            assert(sv[i as int] == segs@[i as int]@);
        }
        let seg = &segs[i];
        let ghost prev = out@;
        if seg.len() == 1 && seg[0] == SINGLE_WILDCARD {
            out.push(FilterLevel::SingleLevelWildcard);
        } else if seg.len() == 1 && seg[0] == MULTI_WILDCARD {
            if i + 1 != n {
                proof {
                    assert(level_of_segment(sv[i as int]) is Multi);
                    assert(0 <= (i as int) && (i as int) < split_segments(bytes@).len());
                    assert(!filter_valid(split_segments(bytes@)));
                }
                return None;
            }
            out.push(FilterLevel::MultiLevelWildcard);
        } else {
            if !seg_wildcard_free_check(seg) {
                proof {
                    assert(level_of_segment(sv[i as int]) is Concrete);
                    assert(0 <= (i as int) && (i as int) < split_segments(bytes@).len());
                    assert(!filter_valid(split_segments(bytes@)));
                }
                return None;
            }
            out.push(FilterLevel::Concrete(clone_bytes(seg)));
        }
        proof {
            assert forall|j: int| 0 <= j < i + 1 implies #[trigger] filter_view(out@)[j]
                == level_of_segment(sv[j]) by {
                assert(filter_view(out@)[j] == out@[j]@);
                if j < i as int {
                    assert(out@[j] == prev[j]);
                    assert(filter_view(prev)[j] == prev[j]@);
                }
            };
        }
        i += 1;
    }
    proof {
        assert(filter_view(out@) =~= sv.map_values(|seg: Seq<u8>| level_of_segment(seg)));
    }
    Some(out)
}

/// Parse a topic name from its wire form: segments split on `/`.  An empty
/// topic and any wildcard byte are rejected.
pub fn parse_topic(bytes: &Vec<u8>) -> (r: Option<Vec<Vec<u8>>>)
    ensures
        bytes@.len() == 0 ==> r is None,
        bytes@.len() > 0 ==> match r {
            Some(t) => topic_valid(split_segments(bytes@)) && topic_view(t@) == split_segments(
                bytes@,
            ),
            None => !topic_valid(split_segments(bytes@)),
        },
{
    if bytes.len() == 0 {
        return None;
    }
    let segs = split_from(bytes, 0);
    proof {
        assert(bytes@.subrange(0, bytes@.len() as int) =~= bytes@);
    }
    let ghost sv = split_segments(bytes@);
    let n = segs.len();
    let mut i: usize = 0;
    while i < n
        invariant
            i <= n,
            n == segs@.len(),
            sv == split_segments(bytes@),
            sv == topic_view(segs@),
            forall|j: int| 0 <= j < i ==> seg_wildcard_free(#[trigger] sv[j]),
        decreases n - i,
    {
        proof {
            assert(sv[i as int] == segs@[i as int]@);
        }
        if !seg_wildcard_free_check(&segs[i]) {
            proof {
                assert(0 <= (i as int) && (i as int) < split_segments(bytes@).len());
                assert(!topic_valid(split_segments(bytes@)));
            }
            return None;
        }
        i += 1;
    }
    Some(segs)
}

} // verus!
