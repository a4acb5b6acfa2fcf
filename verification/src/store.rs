use std::collections::hash_map::DefaultHasher;
use std::collections::{BTreeSet, HashMap, HashSet};
use std::hash::{Hash, Hasher};
use vstd::prelude::*;
use vstd::std_specs::hash::{DefaultHasherAdditionalSpecFns, into_iter_hash_keys, spec_hash_keys_iter, spec_hash_map_iter};
use vstd::string::StringSliceAdditionalSpecFns;
use vstd::std_specs::iter::IteratorSpec;
use vstd::std_specs::hash::obeys_key_model;
use vstd::laws_cmp::obeys_cmp;
use vstd::std_specs::convert::IntoSpec;

verus! {

broadcast use {vstd::std_specs::hash::group_hash_axioms, vstd::std_specs::btree::group_btree_axioms};

/// A value that can be kept in a [`Store`].
///
/// The store keys each value by the code that `DefaultHasher` computes over
/// the byte strings the value writes when it is hashed.
pub trait StoreValue: Sized + Clone {
    /// The byte strings that hashing this value writes, in order.
    spec fn hash_writes(&self) -> Seq<Seq<u8>>;

    /// Writes this value into `state`, one byte string after another.
    fn write_hash(&self, state: &mut DefaultHasher)
        ensures
            final(state)@ == old(state)@ + self.hash_writes(),
    ;

    /// Returns a copy of this value.
    fn duplicate(&self) -> (r: Self)
        ensures
            r == *self,
    ;
}

impl StoreValue for &'static str {
    open spec fn hash_writes(&self) -> Seq<Seq<u8>> {
        seq![(**self).spec_bytes(), seq![0xffu8]]
    }

    fn write_hash(&self, state: &mut DefaultHasher) {
        state.write(self.as_bytes());
        let end: [u8; 1] = [0xffu8];
        state.write(&end);
        assert(end@ =~= seq![0xffu8]);
        assert(final(state)@ =~= old(state)@ + self.hash_writes());
    }

    fn duplicate(&self) -> (r: Self) {
        *self
    }
}

/// The hash code of `v`: what a fresh `DefaultHasher` finishes with after `v` is written into it.
pub open spec fn code_of<T: StoreValue>(v: T) -> u64 {
    DefaultHasher::spec_finish(v.hash_writes())
}

/// The link code between the nodes keyed `a` and `b`.
pub open spec fn link_code(a: u64, b: u64) -> u64 {
    a ^ b
}

/// Well-formedness of a store graph: every node is keyed by the hash code of its value,
/// no link code is zero, and a link code of a node that leads to another node is held by that
/// node too.
pub open spec fn well_formed<T: StoreValue>(g: Map<u64, (T, Set<u64>)>) -> bool {
    &&& g.dom().finite()
    &&& forall|c: u64| #[trigger] g.contains_key(c) ==> code_of(g[c].0) == c && g[c].1.finite()
    &&& forall|c: u64, l: u64|
        #![trigger g[c].1.contains(l)]
        g.contains_key(c) && g[c].1.contains(l) ==> {
            &&& l != 0
            &&& g.contains_key(c ^ l) ==> g[c ^ l].1.contains(l)
        }
}

/// The link codes declared for the hash code `c`: those its node holds, or, while no node is
/// keyed by `c`, those waiting in `p` for such a node.
pub open spec fn declared<T: StoreValue>(g: Map<u64, (T, Set<u64>)>, p: Map<u64, Set<u64>>, c: u64) -> Set<u64> {
    if g.contains_key(c) {
        g[c].1
    } else if p.contains_key(c) {
        p[c]
    } else {
        Set::empty()
    }
}

/// Well-formedness of the links that wait for their nodes: they wait only under codes that no
/// node is keyed by, none is zero, and every declared link is declared at both of its ends.
pub open spec fn pending_ok<T: StoreValue>(g: Map<u64, (T, Set<u64>)>, p: Map<u64, Set<u64>>) -> bool {
    &&& p.dom().finite()
    &&& forall|c: u64| #[trigger] p.contains_key(c) ==> !g.contains_key(c) && p[c].finite()
    &&& forall|c: u64, l: u64|
        #![trigger declared(g, p, c).contains(l)]
        declared(g, p, c).contains(l) ==> l != 0 && declared(g, p, c ^ l).contains(l)
}

/// The graph after `v` is added: unchanged if a node is already keyed by the hash code of `v`,
/// else with a new node holding `v` and the links declared for its code while it was missing.
pub open spec fn with_node<T: StoreValue>(
    g: Map<u64, (T, Set<u64>)>,
    p: Map<u64, Set<u64>>,
    v: T,
) -> Map<u64, (T, Set<u64>)> {
    if g.contains_key(code_of(v)) {
        g
    } else {
        g.insert(code_of(v), (v, declared(g, p, code_of(v))))
    }
}

/// The links still waiting after `v` is added: those that waited for its code now belong to its node.
pub open spec fn pending_after_node<T: StoreValue>(p: Map<u64, Set<u64>>, v: T) -> Map<u64, Set<u64>> {
    p.remove(code_of(v))
}

/// The graph with the link code `l` added to the node keyed `c`, if there is one.
pub open spec fn link_at<T: StoreValue>(g: Map<u64, (T, Set<u64>)>, c: u64, l: u64) -> Map<
    u64,
    (T, Set<u64>),
> {
    if g.contains_key(c) {
        g.insert(c, (g[c].0, g[c].1.insert(l)))
    } else {
        g
    }
}

/// The waiting links with the link code `l` declared for the code `c`, if no node is keyed by it.
pub open spec fn pend_at<T: StoreValue>(
    g: Map<u64, (T, Set<u64>)>,
    p: Map<u64, Set<u64>>,
    c: u64,
    l: u64,
) -> Map<u64, Set<u64>> {
    if g.contains_key(c) {
        p
    } else {
        p.insert(c, declared(g, p, c).insert(l))
    }
}

/// The graph after `from` and `to` are linked: each of the two nodes that exists gains the link
/// code `code(from) ^ code(to)`, unless that code is zero, in which case nothing changes.
pub open spec fn with_link<T: StoreValue>(g: Map<u64, (T, Set<u64>)>, from: T, to: T) -> Map<
    u64,
    (T, Set<u64>),
> {
    let a = code_of(from);
    let b = code_of(to);
    let l = link_code(a, b);
    if l == 0 {
        g
    } else {
        link_at(link_at(g, a, l), b, l)
    }
}

/// The links waiting after `from` and `to` are linked: the link code waits under each of the two
/// codes that no node is keyed by, until a node for it is added.
pub open spec fn pending_after_link<T: StoreValue>(
    g: Map<u64, (T, Set<u64>)>,
    p: Map<u64, Set<u64>>,
    from: T,
    to: T,
) -> Map<u64, Set<u64>> {
    let a = code_of(from);
    let b = code_of(to);
    let l = link_code(a, b);
    if l == 0 {
        p
    } else {
        pend_at(g, pend_at(g, p, a, l), b, l)
    }
}

/// The pairs that a visit of the node keyed `c` reports when it takes its link codes in the order
/// `codes`: one pair for each code that leads to a node.
pub open spec fn link_pairs<T: StoreValue>(g: Map<u64, (T, Set<u64>)>, c: u64, codes: Seq<u64>) -> Seq<
    (Option<T>, Option<T>),
>
    decreases codes.len(),
{
    if codes.len() == 0 {
        Seq::empty()
    } else {
        let rest = link_pairs(g, c, codes.drop_last());
        let d = c ^ codes.last();
        if g.contains_key(d) {
            rest.push(pair(g, c, d))
        } else {
            rest
        }
    }
}

/// There is a link from the node keyed `a` to the node keyed `b`.
pub open spec fn adjacent<T: StoreValue>(g: Map<u64, (T, Set<u64>)>, a: u64, b: u64) -> bool {
    &&& g.contains_key(a)
    &&& g.contains_key(b)
    &&& g[a].1.contains(a ^ b)
}

/// The pair of values that a traversal reports for the link from node `a` to node `b`.
pub open spec fn pair<T: StoreValue>(g: Map<u64, (T, Set<u64>)>, a: u64, b: u64) -> (
    Option<T>,
    Option<T>,
) {
    (Some(g[a].0), Some(g[b].0))
}

/// The node keyed `id` holds a link that leads to the code `c`.
pub open spec fn refers<T: StoreValue>(g: Map<u64, (T, Set<u64>)>, id: u64, c: u64) -> bool {
    g.contains_key(id) && g[id].1.contains(id ^ c)
}

/// `p` is the pair a traversal reports for a link out of the node keyed `c`.
pub open spec fn is_link_pair<T: StoreValue>(
    g: Map<u64, (T, Set<u64>)>,
    c: u64,
    p: (Option<T>, Option<T>),
) -> bool {
    &&& p.1 is Some
    &&& adjacent(g, c, code_of(p.1->0))
    &&& p == pair(g, c, code_of(p.1->0))
}

/// `r` lists, each once and in some order, the pairs for all links out of the node keyed `c`.
pub open spec fn lists_links<T: StoreValue>(
    g: Map<u64, (T, Set<u64>)>,
    c: u64,
    r: Seq<(Option<T>, Option<T>)>,
) -> bool {
    &&& forall|i: int| 0 <= i < r.len() ==> #[trigger] is_link_pair(g, c, r[i])
    &&& forall|d: u64| #[trigger] adjacent(g, c, d) ==> r.contains(pair(g, c, d))
    &&& r.no_duplicates()
}

/// `r` lists, each once and in some order, the values of all nodes that hold a link leading to `c`.
pub open spec fn lists_references<T: StoreValue>(g: Map<u64, (T, Set<u64>)>, c: u64, r: Seq<T>) -> bool {
    &&& forall|i: int|
        0 <= i < r.len() ==> #[trigger] refers(g, code_of(r[i]), c) && r[i] == g[code_of(r[i])].0
    &&& forall|id: u64| #[trigger] refers(g, id, c) ==> r.contains(g[id].0)
    &&& r.no_duplicates()
}

/// `p` is a path of links: each code is adjacent to the next.
pub open spec fn is_path<T: StoreValue>(g: Map<u64, (T, Set<u64>)>, p: Seq<u64>) -> bool {
    &&& p.len() >= 1
    &&& forall|i: int| 0 <= i < p.len() - 1 ==> #[trigger] adjacent(g, p[i], p[i + 1])
}

/// The code `b` can be reached from the code `a` by following links (every code reaches itself).
pub open spec fn reachable<T: StoreValue>(g: Map<u64, (T, Set<u64>)>, a: u64, b: u64) -> bool {
    exists|p: Seq<u64>| #[trigger] is_path(g, p) && p[0] == a && p.last() == b
}

/// Some value in `s` has the hash code `c`.
pub open spec fn covers<T: StoreValue>(s: Set<T>, c: u64) -> bool {
    exists|y: T| #[trigger] s.contains(y) && code_of(y) == c
}

/// `e` is a link that a traversal recorded: a pair for a link between two stored nodes,
/// whose destination has been seen and whose origin's code is covered by what has been seen.
pub open spec fn recorded_link_ok<T: StoreValue>(
    g: Map<u64, (T, Set<u64>)>,
    seen: Set<T>,
    e: (Option<T>, Option<T>),
) -> bool {
    &&& e.0 is Some
    &&& e.1 is Some
    &&& adjacent(g, code_of(e.0->0), code_of(e.1->0))
    &&& e == pair(g, code_of(e.0->0), code_of(e.1->0))
    &&& seen.contains(e.1->0)
    &&& covers(seen, code_of(e.0->0))
}

/// Every link recorded in `visited` but not in `visited0` is one a traversal could record.
pub open spec fn recorded_links_ok<T: StoreValue>(
    g: Map<u64, (T, Set<u64>)>,
    seen: Set<T>,
    visited: Set<(Option<T>, Option<T>)>,
    visited0: Set<(Option<T>, Option<T>)>,
) -> bool {
    forall|e: (Option<T>, Option<T>)|
        #[trigger] visited.contains(e) && !visited0.contains(e) ==> recorded_link_ok(g, seen, e)
}

/// The link from `a` to `b` has been dealt with: it is recorded in one direction or the other, and
/// either the node keyed `b` has been seen or the link was already recorded in `visited0`.
pub open spec fn link_done<T: StoreValue>(
    g: Map<u64, (T, Set<u64>)>,
    seen: Set<T>,
    visited: Set<(Option<T>, Option<T>)>,
    visited0: Set<(Option<T>, Option<T>)>,
    a: u64,
    b: u64,
) -> bool {
    &&& visited.contains(pair(g, a, b)) || visited.contains(pair(g, b, a))
    &&& covers(seen, b) || visited0.contains(pair(g, a, b)) || visited0.contains(pair(g, b, a))
}

/// Every link out of the node keyed `a` has been dealt with.
pub open spec fn links_done<T: StoreValue>(
    g: Map<u64, (T, Set<u64>)>,
    seen: Set<T>,
    visited: Set<(Option<T>, Option<T>)>,
    visited0: Set<(Option<T>, Option<T>)>,
    a: u64,
) -> bool {
    forall|d: u64| #[trigger] adjacent(g, a, d) ==> link_done(g, seen, visited, visited0, a, d)
}

/// The pair `e` the other way round.
pub open spec fn reversed<T>(e: (Option<T>, Option<T>)) -> (Option<T>, Option<T>) {
    (e.1, e.0)
}

/// No link recorded in `visited` but not in `visited0` is recorded the other way round too.
pub open spec fn one_way<T>(
    visited: Set<(Option<T>, Option<T>)>,
    visited0: Set<(Option<T>, Option<T>)>,
) -> bool {
    forall|e: (Option<T>, Option<T>)|
        #[trigger] visited.contains(e) && !visited0.contains(e) ==> !visited.contains(reversed(e))
}

/// `order` lists the values that a walk from `v` newly saw, each once, in the order it saw them:
/// `v` first, and every later one reached by a link recorded from a value seen before it.
pub open spec fn seen_in_order<T: StoreValue>(
    g: Map<u64, (T, Set<u64>)>,
    v: T,
    seen0: Set<T>,
    seen: Set<T>,
    visited: Set<(Option<T>, Option<T>)>,
    order: Seq<T>,
) -> bool {
    &&& order.no_duplicates()
    &&& order.to_set() == seen.difference(seen0)
    &&& order.len() > 0 ==> order[0] == v
    &&& forall|i: int| 0 < i < order.len() ==> #[trigger] reached_from_earlier(g, visited, order, i)
}

/// The `i`-th value of `order` is reached by a link recorded from an earlier value of `order`.
pub open spec fn reached_from_earlier<T: StoreValue>(
    g: Map<u64, (T, Set<u64>)>,
    visited: Set<(Option<T>, Option<T>)>,
    order: Seq<T>,
    i: int,
) -> bool {
    exists|j: int|
        0 <= j < i && #[trigger] visited.contains(pair(g, code_of(order[j]), code_of(order[i])))
}

/// `x` is either the start `v` of a traversal or the value of a node reachable from it.
pub open spec fn seen_ok<T: StoreValue>(g: Map<u64, (T, Set<u64>)>, v: T, x: T) -> bool {
    x == v || (g.contains_key(code_of(x)) && x == g[code_of(x)].0 && reachable(
        g,
        code_of(v),
        code_of(x),
    ))
}

/// What a walk from `v` does to the sets `seen0` and `visited0`, giving `seen` and `visited`:
/// both only grow and `v` is seen; nothing changes if `v` was already seen; every newly recorded
/// link is a link of the graph, and is not recorded the other way round; every newly seen value
/// is `v` or the value of a node reachable from it; every link out of a newly seen node has
/// been dealt with; and the newly seen values can be listed in the order the walk saw them, each
/// after `v` reached by a link recorded from an earlier one.
pub open spec fn walked<T: StoreValue>(
    g: Map<u64, (T, Set<u64>)>,
    v: T,
    seen0: Set<T>,
    visited0: Set<(Option<T>, Option<T>)>,
    seen: Set<T>,
    visited: Set<(Option<T>, Option<T>)>,
) -> bool {
    &&& seen0.subset_of(seen)
    &&& visited0.subset_of(visited)
    &&& seen.contains(v)
    &&& seen0.contains(v) ==> seen == seen0 && visited == visited0
    &&& recorded_links_ok(g, seen, visited, visited0)
    &&& one_way(visited, visited0)
    &&& exists|order: Seq<T>| seen_in_order(g, v, seen0, seen, visited, order)
    &&& forall|x: T|
        #[trigger] seen.contains(x) && !seen0.contains(x) ==> seen_ok(g, v, x) && links_done(
            g,
            seen,
            visited,
            visited0,
            code_of(x),
        )
}

/// `t` is what `e` converts into, whenever the conversion of `E` into `T` has a specification.
pub open spec fn converts<E: Into<T>, T>(e: E, t: T) -> bool {
    <E as IntoSpec<T>>::obeys_into_spec() ==> t == e.into_spec()
}

/// The number of nodes whose value has not been seen.
pub open spec fn unseen_count<T: StoreValue>(g: Map<u64, (T, Set<u64>)>, seen: Set<T>) -> nat {
    g.dom().filter(|c: u64| !seen.contains(g[c].0)).len()
}

/// Zero when `v` is the value stored at its own hash code, one otherwise.
pub open spec fn unstored<T: StoreValue>(g: Map<u64, (T, Set<u64>)>, v: T) -> nat {
    if g.contains_key(code_of(v)) && g[code_of(v)].0 == v {
        0
    } else {
        1
    }
}

proof fn lemma_covers<T: StoreValue>(s: Set<T>, y: T)
    requires
        s.contains(y),
    ensures
        covers(s, code_of(y)),
{
}

proof fn lemma_covers_mono<T: StoreValue>(s: Set<T>, s2: Set<T>, c: u64)
    requires
        covers(s, c),
        s.subset_of(s2),
    ensures
        covers(s2, c),
{
    let y = choose|y: T| #[trigger] s.contains(y) && code_of(y) == c;
    assert(s2.contains(y));
}

proof fn lemma_link_done_mono<T: StoreValue>(
    g: Map<u64, (T, Set<u64>)>,
    seen: Set<T>,
    visited: Set<(Option<T>, Option<T>)>,
    visited0: Set<(Option<T>, Option<T>)>,
    seen2: Set<T>,
    visited2: Set<(Option<T>, Option<T>)>,
    a: u64,
)
    requires
        links_done(g, seen, visited, visited0, a),
        seen.subset_of(seen2),
        visited.subset_of(visited2),
    ensures
        links_done(g, seen2, visited2, visited0, a),
{
    assert forall|d: u64| #[trigger] adjacent(g, a, d) implies link_done(
        g,
        seen2,
        visited2,
        visited0,
        a,
        d,
    ) by {
        if covers(seen, d) {
            lemma_covers_mono(seen, seen2, d);
        }
    }
}

proof fn lemma_recorded_mono<T: StoreValue>(
    g: Map<u64, (T, Set<u64>)>,
    seen: Set<T>,
    visited: Set<(Option<T>, Option<T>)>,
    visited0: Set<(Option<T>, Option<T>)>,
    seen2: Set<T>,
)
    requires
        recorded_links_ok(g, seen, visited, visited0),
        seen.subset_of(seen2),
    ensures
        recorded_links_ok(g, seen2, visited, visited0),
{
    assert forall|e: (Option<T>, Option<T>)|
        #[trigger] visited.contains(e) && !visited0.contains(e) implies recorded_link_ok(
        g,
        seen2,
        e,
    ) by {
        lemma_covers_mono(seen, seen2, code_of(e.0->0));
    }
}

/// Links dealt with relative to `visited1` are dealt with relative to an earlier `visited0`,
/// when every link recorded between the two is one a traversal could record.
proof fn lemma_links_done_rebase<T: StoreValue>(
    g: Map<u64, (T, Set<u64>)>,
    seen1: Set<T>,
    seen: Set<T>,
    visited: Set<(Option<T>, Option<T>)>,
    visited1: Set<(Option<T>, Option<T>)>,
    visited0: Set<(Option<T>, Option<T>)>,
    a: u64,
)
    requires
        well_formed(g),
        links_done(g, seen, visited, visited1, a),
        recorded_links_ok(g, seen1, visited1, visited0),
        seen1.subset_of(seen),
    ensures
        links_done(g, seen, visited, visited0, a),
{
    assert forall|d: u64| #[trigger] adjacent(g, a, d) implies link_done(
        g,
        seen,
        visited,
        visited0,
        a,
        d,
    ) by {
        if !covers(seen, d) && !visited0.contains(pair(g, a, d)) && !visited0.contains(
            pair(g, d, a),
        ) {
            assert(code_of(g[a].0) == a);
            assert(code_of(g[d].0) == d);
            if visited1.contains(pair(g, a, d)) {
                assert(recorded_link_ok(g, seen1, pair(g, a, d)));
                assert(seen.contains(g[d].0));
                lemma_covers(seen, g[d].0);
            } else {
                assert(recorded_link_ok(g, seen1, pair(g, d, a)));
                lemma_covers_mono(seen1, seen, d);
            }
        }
    }
}

proof fn lemma_reachable_refl<T: StoreValue>(g: Map<u64, (T, Set<u64>)>, a: u64)
    ensures
        reachable(g, a, a),
{
    let p = seq![a];
    assert(is_path(g, p));
}

proof fn lemma_reachable_prepend<T: StoreValue>(g: Map<u64, (T, Set<u64>)>, a: u64, b: u64, c: u64)
    requires
        adjacent(g, a, b),
        reachable(g, b, c),
    ensures
        reachable(g, a, c),
{
    let p = choose|p: Seq<u64>| #[trigger] is_path(g, p) && p[0] == b && p.last() == c;
    let q = seq![a] + p;
    assert forall|i: int| 0 <= i < q.len() - 1 implies #[trigger] adjacent(g, q[i], q[i + 1]) by {
        if i > 0 {
            assert(q[i] == p[i - 1]);
            assert(q[i + 1] == p[i]);
            assert(adjacent(g, p[i - 1], p[i - 1 + 1]));
        }
    }
    assert(is_path(g, q));
    assert(q.last() == p.last());
}

/// Seeing more values leaves fewer nodes unseen; seeing a node's own value leaves strictly fewer.
proof fn lemma_unseen_count<T: StoreValue>(g: Map<u64, (T, Set<u64>)>, s: Set<T>, s2: Set<T>, v: T)
    requires
        g.dom().finite(),
        s.subset_of(s2),
    ensures
        unseen_count(g, s2) <= unseen_count(g, s),
        g.contains_key(code_of(v)) && g[code_of(v)].0 == v && !s.contains(v) && s2.contains(v)
            ==> unseen_count(g, s2) < unseen_count(g, s),
{
    let f1 = g.dom().filter(|c: u64| !s.contains(g[c].0));
    let f2 = g.dom().filter(|c: u64| !s2.contains(g[c].0));
    g.dom().lemma_len_filter(|c: u64| !s.contains(g[c].0));
    assert(f2.subset_of(f1));
    vstd::set_lib::lemma_len_subset(f2, f1);
    if g.contains_key(code_of(v)) && g[code_of(v)].0 == v && !s.contains(v) && s2.contains(v) {
        let c = code_of(v);
        assert(f1.contains(c));
        assert(f2.subset_of(f1.remove(c)));
        vstd::set_lib::lemma_len_subset(f2, f1.remove(c));
    }
}

/// A set in which a traversal records what it has seen.
trait TraversalSet<K>: Sized {
    /// The members of the set.
    spec fn members(&self) -> Set<K>;

    /// Whether sets of this type behave as mathematical sets of `K`.
    spec fn behaves() -> bool;

    /// Adds `k`, returning whether it was new.
    fn add(&mut self, k: K) -> (r: bool)
        ensures
            Self::behaves() ==> final(self).members() == old(self).members().insert(k) && r
                == !old(self).members().contains(k),
    ;

    /// Whether `k` is a member.
    fn has(&self, k: &K) -> (r: bool)
        ensures
            Self::behaves() ==> r == self.members().contains(*k),
    ;
}

impl<K: Eq + Hash> TraversalSet<K> for HashSet<K> {
    spec fn members(&self) -> Set<K> {
        self@
    }

    spec fn behaves() -> bool {
        obeys_key_model::<K>()
    }

    fn add(&mut self, k: K) -> (r: bool) {
        self.insert(k)
    }

    fn has(&self, k: &K) -> (r: bool) {
        self.contains(k)
    }
}

impl<K: Ord> TraversalSet<K> for BTreeSet<K> {
    spec fn members(&self) -> Set<K> {
        self@
    }

    spec fn behaves() -> bool {
        obeys_cmp::<K>()
    }

    fn add(&mut self, k: K) -> (r: bool) {
        self.insert(k)
    }

    fn has(&self, k: &K) -> (r: bool) {
        self.contains(k)
    }
}

proof fn lemma_recorded_trans<T: StoreValue>(
    g: Map<u64, (T, Set<u64>)>,
    seen: Set<T>,
    visited2: Set<(Option<T>, Option<T>)>,
    visited1: Set<(Option<T>, Option<T>)>,
    visited0: Set<(Option<T>, Option<T>)>,
)
    requires
        recorded_links_ok(g, seen, visited2, visited1),
        recorded_links_ok(g, seen, visited1, visited0),
        visited1.subset_of(visited2),
    ensures
        recorded_links_ok(g, seen, visited2, visited0),
{
    assert forall|e: (Option<T>, Option<T>)|
        #[trigger] visited2.contains(e) && !visited0.contains(e) implies recorded_link_ok(
        g,
        seen,
        e,
    ) by {
        if !visited1.contains(e) {
            assert(visited2.contains(e) && !visited1.contains(e));
        }
    }
}

proof fn lemma_seen_in_order_extend<T: StoreValue>(
    g: Map<u64, (T, Set<u64>)>,
    v: T,
    s0: Set<T>,
    s1: Set<T>,
    v1: Set<(Option<T>, Option<T>)>,
    ord: Seq<T>,
    to: T,
    s2: Set<T>,
    v2: Set<(Option<T>, Option<T>)>,
    o: Seq<T>,
)
    requires
        seen_in_order(g, v, s0, s1, v1, ord),
        ord.len() > 0,
        seen_in_order(g, to, s1, s2, v2, o),
        s0.subset_of(s1),
        s1.subset_of(s2),
        v1.subset_of(v2),
        v2.contains(pair(g, code_of(v), code_of(to))),
    ensures
        seen_in_order(g, v, s0, s2, v2, ord + o),
{
    let n = ord + o;
    assert(n[0] == ord[0]);
    assert forall|i: int, k: int| 0 <= i < n.len() && 0 <= k < n.len() && i != k implies n[i] != n[k] by {
        if i < ord.len() && k >= ord.len() {
            assert(ord.to_set().contains(ord[i]));
            assert(o.to_set().contains(o[k - ord.len()]));
        } else if i >= ord.len() && k < ord.len() {
            assert(ord.to_set().contains(ord[k]));
            assert(o.to_set().contains(o[i - ord.len()]));
        }
    }
    assert forall|x: T| n.to_set().contains(x) <==> s2.difference(s0).contains(x) by {
        if n.to_set().contains(x) {
            let i = choose|i: int| 0 <= i < n.len() && n[i] == x;
            if i < ord.len() {
                assert(ord.to_set().contains(ord[i]));
            } else {
                assert(o.to_set().contains(o[i - ord.len()]));
            }
        }
        if s2.difference(s0).contains(x) {
            if s1.contains(x) {
                assert(ord.to_set().contains(x));
                let i = choose|i: int| 0 <= i < ord.len() && ord[i] == x;
                assert(n[i] == x);
            } else {
                assert(o.to_set().contains(x));
                let i = choose|i: int| 0 <= i < o.len() && o[i] == x;
                assert(n[ord.len() + i] == x);
            }
        }
    }
    assert(n.to_set() =~= s2.difference(s0));
    assert(n.no_duplicates());
    assert forall|i: int| 0 < i < n.len() implies #[trigger] reached_from_earlier(g, v2, n, i) by {
        if i < ord.len() {
            assert(ord[i] == n[i]);
            assert(reached_from_earlier(g, v1, ord, i));
            let j = choose|j: int| 0 <= j < i && #[trigger] v1.contains(pair(g, code_of(ord[j]), code_of(ord[i])));
            assert(n[j] == ord[j]);
            assert(v2.contains(pair(g, code_of(n[j]), code_of(n[i]))));
        } else {
            let k = i - ord.len();
            assert(o[k] == n[i]);
            if k == 0 {
                assert(n[0] == v);
                assert(v2.contains(pair(g, code_of(n[0]), code_of(n[i]))));
            } else {
                assert(reached_from_earlier(g, v2, o, k));
                let j = choose|j: int| 0 <= j < k && #[trigger] v2.contains(pair(g, code_of(o[j]), code_of(o[k])));
                assert(n[ord.len() + j] == o[j]);
                assert(v2.contains(pair(g, code_of(n[ord.len() + j]), code_of(n[i]))));
            }
        }
    }
}

proof fn lemma_one_way_trans<T>(
    visited2: Set<(Option<T>, Option<T>)>,
    visited1: Set<(Option<T>, Option<T>)>,
    visited0: Set<(Option<T>, Option<T>)>,
)
    requires
        one_way(visited2, visited1),
        one_way(visited1, visited0),
        visited1.subset_of(visited2),
    ensures
        one_way(visited2, visited0),
{
    assert forall|e: (Option<T>, Option<T>)|
        #[trigger] visited2.contains(e) && !visited0.contains(e) implies !visited2.contains(reversed(e)) by {
        if visited1.contains(e) {
            if visited2.contains(reversed(e)) && !visited1.contains(reversed(e)) {
                assert(reversed(reversed(e)) == e);
            }
        }
    }
}

/// Facts about `^` on link codes.
pub proof fn lemma_xor(a: u64, b: u64)
    ensures
        a ^ b == b ^ a,
        a ^ (a ^ b) == b,
        (a ^ b) ^ b == a,
        b ^ (a ^ b) == a,
        (a ^ b == 0) == (a == b),
        forall|x: u64, y: u64| (a ^ x == a ^ y) ==> x == y,
{
    assert(forall|x: u64, y: u64| (a ^ x == a ^ y) ==> x == y) by (bit_vector);
    assert(b ^ (a ^ b) == a) by (bit_vector);
    assert(a ^ b == b ^ a) by (bit_vector);
    assert(a ^ (a ^ b) == b) by (bit_vector);
    assert((a ^ b) ^ b == a) by (bit_vector);
    assert((a ^ b == 0) == (a == b)) by (bit_vector);
}

/// The graph that a table of nodes holds.
spec fn graph_of<T>(nodes: HashMap<u64, (T, HashSet<u64>)>) -> Map<u64, (T, Set<u64>)> {
    Map::new(|k: u64| nodes@.contains_key(k), |k: u64| (nodes@[k].0, nodes@[k].1@))
}

/// The link codes that a table of waiting links holds.
spec fn links_of(pending: HashMap<u64, HashSet<u64>>) -> Map<u64, Set<u64>> {
    Map::new(|k: u64| pending@.contains_key(k), |k: u64| pending@[k]@)
}

/// `Store` is a graph of nodes that store a value of `T` and the links to `T`.
///
/// Each entry is keyed to the hash code of the value being stored, and holds the value and
/// the set of its link codes. A link between the nodes keyed `from` and `to` is stored in both
/// nodes as the code `from ^ to`, so that the destination of a link `l` out of the node keyed `k`
/// is the node keyed `k ^ l`.
///
/// Links can be declared before their nodes exist: such a link waits under the code of each
/// missing node and takes effect when that node is added.
#[derive(Debug)]
pub struct Store<T: StoreValue> {
    nodes: HashMap<u64, (T, HashSet<u64>)>,
    pending: HashMap<u64, HashSet<u64>>,
}

/// A step of a walk still to be taken: entering a value, or going on with the links that a visit
/// of the node keyed `code` reports, from the `next`-th one.
pub enum WalkFrame<T> {
    Enter(T),
    Links(u64, nat),
}

/// The state of a walk: the steps still to be taken, the last one on top, and what has been seen
/// and recorded so far.
#[verifier::reject_recursive_types(T)]
pub struct WalkState<T> {
    pub frames: Seq<WalkFrame<T>>,
    pub seen: Set<T>,
    pub visited: Set<(Option<T>, Option<T>)>,
}

/// The mathematical model of a [`Store`]: its nodes, each hash code mapped to the value and the
/// link codes of its node, and the links that wait for missing nodes, each code that no node is
/// keyed by mapped to the link codes declared for it.
pub struct StoreModel<T> {
    pub nodes: Map<u64, (T, Set<u64>)>,
    pub pending: Map<u64, Set<u64>>,
}

impl<T: StoreValue> View for Store<T> {
    type V = StoreModel<T>;

    open spec fn view(&self) -> StoreModel<T> {
        StoreModel { nodes: self.graph(), pending: self.pending() }
    }
}

impl<T: StoreValue> Clone for Store<T> {
    fn clone(&self) -> (r: Self)
        ensures
            r@ == self@,
            well_formed(r@.nodes),
            pending_ok(r@.nodes, r@.pending),
    {
        proof {
            use_type_invariant(self);
        }
        let nodes = self.nodes.clone();
        let pending = self.pending.clone();
        assert(graph_of(nodes) =~= graph_of(self.nodes));
        assert(links_of(pending) =~= links_of(self.pending));
        Self { nodes, pending }
    }
}

impl<T: StoreValue> Default for Store<T> {
    /// An empty store.
    fn default() -> (r: Self)
        ensures
            r@.nodes == Map::<u64, (T, Set<u64>)>::empty(),
            r@.pending == Map::<u64, Set<u64>>::empty(),
            well_formed(r@.nodes),
            pending_ok(r@.nodes, r@.pending),
    {
        let nodes = HashMap::new();
        let pending = HashMap::new();
        assert(graph_of(nodes) =~= Map::<u64, (T, Set<u64>)>::empty());
        assert(links_of(pending) =~= Map::<u64, Set<u64>>::empty());
        Self { nodes, pending }
    }
}

impl<T: StoreValue> Store<T> {
    /// The graph this store holds: each hash code mapped to its value and link codes.
    pub closed spec fn graph(&self) -> Map<u64, (T, Set<u64>)> {
        graph_of(self.nodes)
    }

    /// The links that wait for their nodes: each code that no node is keyed by, mapped to the
    /// link codes declared for it.
    pub closed spec fn pending(&self) -> Map<u64, Set<u64>> {
        links_of(self.pending)
    }

    #[verifier::type_invariant]
    closed spec fn inv(&self) -> bool {
        well_formed(self.graph()) && pending_ok(self.graph(), self.pending())
    }

    /// `node` adds a node to the underlying graph for `val`.
    /// If val is already a node, then no changes are made. A new node takes up the links that
    /// were declared for it before it existed.
    pub fn node(&self, val: T) -> (r: Self)
        ensures
            r@.nodes == with_node(self@.nodes, self@.pending, val),
            r@.pending == pending_after_node(self@.pending, val),
            well_formed(r@.nodes),
            pending_ok(r@.nodes, r@.pending),
    {
        proof {
            use_type_invariant(self);
            lemma_node_ok(self@.nodes, self@.pending, val);
        }
        let mut nodes = self.nodes.clone();
        let mut pending = self.pending.clone();
        let hash_code = Self::get_hash_code(val.duplicate());
        if !nodes.contains_key(&hash_code) {
            let links = match pending.remove(&hash_code) {
                Some(waiting) => waiting,
                None => HashSet::new(),
            };
            nodes.insert(hash_code, (val, links));
        }
        assert(graph_of(nodes) =~= with_node(self@.nodes, self@.pending, val));
        assert(links_of(pending) =~= pending_after_node(self@.pending, val));
        Self { nodes, pending }
    }

    /// Declares the link code `l` at the code `c`: in the node keyed `c` if there is one, else
    /// among the links waiting for it.
    fn declare(
        nodes: &mut HashMap<u64, (T, HashSet<u64>)>,
        pending: &mut HashMap<u64, HashSet<u64>>,
        c: u64,
        l: u64,
    )
        ensures
            graph_of(*final(nodes)) == link_at(graph_of(*old(nodes)), c, l),
            links_of(*final(pending)) == pend_at(
                graph_of(*old(nodes)),
                links_of(*old(pending)),
                c,
                l,
            ),
    {
        let ghost g = graph_of(*nodes);
        let ghost p = links_of(*pending);
        let found = match nodes.get(&c) {
            Some(entry) => Some((entry.0.duplicate(), clone_links(&entry.1))),
            None => None,
        };
        match found {
            Some((value, links)) => {
                let mut links = links;
                links.insert(l);
                nodes.insert(c, (value, links));
                assert(graph_of(*nodes) =~= link_at(g, c, l));
                assert(links_of(*pending) =~= pend_at(g, p, c, l));
            },
            None => {
                let mut links = match pending.get(&c) {
                    Some(waiting) => clone_links(waiting),
                    None => HashSet::new(),
                };
                links.insert(l);
                pending.insert(c, links);
                assert(graph_of(*nodes) =~= link_at(g, c, l));
                assert(links_of(*pending) =~= pend_at(g, p, c, l));
            },
        }
    }

    /// `link` creates a link between two nodes in the underlying graph.
    /// The nodes need not exist yet: the link waits for a missing node and takes effect when it
    /// is added. Linking two values with the same hash code changes nothing.
    pub fn link(&self, from: T, to: T) -> (r: Self)
        ensures
            r@.nodes == with_link(self@.nodes, from, to),
            r@.pending == pending_after_link(self@.nodes, self@.pending, from, to),
            well_formed(r@.nodes),
            pending_ok(r@.nodes, r@.pending),
    {
        proof {
            use_type_invariant(self);
            lemma_link_ok(self@.nodes, self@.pending, from, to);
        }
        let from_hash_code = Self::get_hash_code(from);
        let to_hash_code = Self::get_hash_code(to);
        let mut nodes = self.nodes.clone();
        let mut pending = self.pending.clone();
        assert(graph_of(nodes) =~= self@.nodes);
        assert(links_of(pending) =~= self@.pending);
        let link_code = from_hash_code ^ to_hash_code;
        if link_code != 0 {
            Self::declare(&mut nodes, &mut pending, from_hash_code, link_code);
            Self::declare(&mut nodes, &mut pending, to_hash_code, link_code);
            proof {
                lemma_xor(from_hash_code, to_hash_code);
                let a = from_hash_code;
                let b = to_hash_code;
                let l = link_code;
                // declaring at `a` changes neither whether a node is keyed `b` nor what waits for `b`
                assert(link_at(self@.nodes, a, l).contains_key(b) == self@.nodes.contains_key(b));
                assert(pend_at(link_at(self@.nodes, a, l), pend_at(self@.nodes, self@.pending, a, l), b, l)
                    =~= pend_at(self@.nodes, pend_at(self@.nodes, self@.pending, a, l), b, l));
            }
        }
        Self { nodes, pending }
    }

    /// The order in which a visit of the node keyed `c` reports its links: the order in which
    /// its set of link codes is iterated, leaving out the codes that lead to no node.
    pub closed spec fn visit_order(&self, c: u64) -> Seq<(Option<T>, Option<T>)> {
        if self.nodes@.contains_key(c) {
            link_pairs(self.graph(), c, into_iter_hash_keys(spec_hash_keys_iter(&self.nodes@[c].1)))
        } else {
            Seq::empty()
        }
    }

    /// One step of a walk. Entering a value that was seen already does nothing more; entering a
    /// new value sees it and goes on with the links of its code. Going on with a link skips it
    /// when it was recorded either way round, and otherwise records it and enters the value it
    /// leads to, coming back to the next link afterwards. A walk with no steps left is done.
    pub open spec fn walk_step(&self, st: WalkState<T>) -> WalkState<T> {
        if st.frames.len() == 0 {
            st
        } else {
            let rest = st.frames.drop_last();
            match st.frames.last() {
                WalkFrame::Enter(v) => if st.seen.contains(v) {
                    WalkState { frames: rest, seen: st.seen, visited: st.visited }
                } else {
                    WalkState {
                        frames: rest.push(WalkFrame::Links(code_of(v), 0)),
                        seen: st.seen.insert(v),
                        visited: st.visited,
                    }
                },
                WalkFrame::Links(c, i) => {
                    let links = self.visit_order(c);
                    if i >= links.len() {
                        WalkState { frames: rest, seen: st.seen, visited: st.visited }
                    } else {
                        let e = links[i as int];
                        let next = rest.push(WalkFrame::Links(c, (i + 1) as nat));
                        if !(e.0 is Some && e.1 is Some) || st.visited.contains(reversed(e))
                            || st.visited.contains(e) {
                            WalkState { frames: next, seen: st.seen, visited: st.visited }
                        } else {
                            WalkState {
                                frames: next.push(WalkFrame::Enter(e.1->0)),
                                seen: st.seen,
                                visited: st.visited.insert(e),
                            }
                        }
                    }
                },
            }
        }
    }

    /// The state of a walk after `n` steps from `st`.
    pub open spec fn walk_run(&self, st: WalkState<T>, n: nat) -> WalkState<T>
        decreases n,
    {
        if n == 0 {
            st
        } else {
            self.walk_run(self.walk_step(st), (n - 1) as nat)
        }
    }

    /// Some number of steps lead from `st0` to `st1`.
    pub open spec fn walks_to(&self, st0: WalkState<T>, st1: WalkState<T>) -> bool {
        exists|n: nat| self.walk_run(st0, n) == st1
    }

    /// A walk from `v`, with `seen0` seen and `visited0` recorded before it, is done with
    /// `seen` seen and `visited` recorded.
    pub open spec fn walk_result(
        &self,
        v: T,
        seen0: Set<T>,
        visited0: Set<(Option<T>, Option<T>)>,
        seen: Set<T>,
        visited: Set<(Option<T>, Option<T>)>,
    ) -> bool {
        self.walks_to(
            WalkState { frames: Seq::empty().push(WalkFrame::Enter(v)), seen: seen0, visited: visited0 },
            WalkState { frames: Seq::empty(), seen, visited },
        )
    }

    proof fn lemma_run_add(&self, st: WalkState<T>, n: nat, m: nat)
        ensures
            self.walk_run(st, n + m) == self.walk_run(self.walk_run(st, n), m),
        decreases n,
    {
        if n > 0 {
            self.lemma_run_add(self.walk_step(st), (n - 1) as nat, m);
            assert((n + m - 1) as nat == (n - 1) as nat + m);
        }
    }

    proof fn lemma_walks_to_trans(&self, a: WalkState<T>, b: WalkState<T>, c: WalkState<T>)
        requires
            self.walks_to(a, b),
            self.walks_to(b, c),
        ensures
            self.walks_to(a, c),
    {
        let n = choose|n: nat| self.walk_run(a, n) == b;
        let m = choose|m: nat| self.walk_run(b, m) == c;
        self.lemma_run_add(a, n, m);
    }

    proof fn lemma_walks_to_step(&self, a: WalkState<T>, b: WalkState<T>)
        requires
            self.walks_to(a, b),
        ensures
            self.walks_to(a, self.walk_step(b)),
    {
        assert(self.walk_run(b, 1) == self.walk_run(self.walk_step(b), 0));
        self.lemma_walks_to_trans(a, b, self.walk_step(b));
    }

    /// A walk from `v` with `seen0` and `visited0` has come to the `i`-th link of the node keyed
    /// `c`, with `seen` seen and `visited` recorded, whatever steps lie below it.
    spec fn walk_at(
        &self,
        v: T,
        seen0: Set<T>,
        visited0: Set<(Option<T>, Option<T>)>,
        c: u64,
        i: nat,
        seen: Set<T>,
        visited: Set<(Option<T>, Option<T>)>,
    ) -> bool {
        forall|frames: Seq<WalkFrame<T>>|
            #[trigger] self.walks_to(
                WalkState { frames: frames.push(WalkFrame::Enter(v)), seen: seen0, visited: visited0 },
                WalkState { frames: frames.push(WalkFrame::Links(c, i)), seen, visited },
            )
    }

    proof fn lemma_walks_one(&self, a: WalkState<T>)
        ensures
            self.walks_to(a, self.walk_step(a)),
    {
        assert(self.walk_run(a, 0) == a);
        self.lemma_walks_to_step(a, a);
    }

    /// Entering a new value starts on the links of its code.
    proof fn lemma_walk_start(&self, v: T, seen0: Set<T>, visited0: Set<(Option<T>, Option<T>)>)
        requires
            !seen0.contains(v),
        ensures
            self.walk_at(v, seen0, visited0, code_of(v), 0, seen0.insert(v), visited0),
    {
        assert forall|frames: Seq<WalkFrame<T>>|
            #[trigger] self.walks_to(
                WalkState { frames: frames.push(WalkFrame::Enter(v)), seen: seen0, visited: visited0 },
                WalkState {
                    frames: frames.push(WalkFrame::Links(code_of(v), 0)),
                    seen: seen0.insert(v),
                    visited: visited0,
                },
            ) by {
            let a = WalkState { frames: frames.push(WalkFrame::Enter(v)), seen: seen0, visited: visited0 };
            assert(a.frames.drop_last() =~= frames);
            self.lemma_walks_one(a);
        }
    }

    /// Entering a value that was seen already ends at once.
    proof fn lemma_walk_seen(&self, v: T, seen0: Set<T>, visited0: Set<(Option<T>, Option<T>)>)
        requires
            seen0.contains(v),
        ensures
            forall|frames: Seq<WalkFrame<T>>|
                #[trigger] self.walks_to(
                    WalkState { frames: frames.push(WalkFrame::Enter(v)), seen: seen0, visited: visited0 },
                    WalkState { frames, seen: seen0, visited: visited0 },
                ),
    {
        assert forall|frames: Seq<WalkFrame<T>>|
            #[trigger] self.walks_to(
                WalkState { frames: frames.push(WalkFrame::Enter(v)), seen: seen0, visited: visited0 },
                WalkState { frames, seen: seen0, visited: visited0 },
            ) by {
            let a = WalkState { frames: frames.push(WalkFrame::Enter(v)), seen: seen0, visited: visited0 };
            assert(a.frames.drop_last() =~= frames);
            self.lemma_walks_one(a);
        }
    }

    /// A link that was recorded either way round is passed over.
    proof fn lemma_walk_skip(
        &self,
        v: T,
        seen0: Set<T>,
        visited0: Set<(Option<T>, Option<T>)>,
        c: u64,
        i: nat,
        seen: Set<T>,
        visited: Set<(Option<T>, Option<T>)>,
    )
        requires
            self.walk_at(v, seen0, visited0, c, i, seen, visited),
            i < self.visit_order(c).len(),
            ({
                let e = self.visit_order(c)[i as int];
                !(e.0 is Some && e.1 is Some) || visited.contains(reversed(e)) || visited.contains(e)
            }),
        ensures
            self.walk_at(v, seen0, visited0, c, i + 1, seen, visited),
    {
        assert forall|frames: Seq<WalkFrame<T>>|
            #[trigger] self.walks_to(
                WalkState { frames: frames.push(WalkFrame::Enter(v)), seen: seen0, visited: visited0 },
                WalkState { frames: frames.push(WalkFrame::Links(c, i + 1)), seen, visited },
            ) by {
            let a = WalkState { frames: frames.push(WalkFrame::Enter(v)), seen: seen0, visited: visited0 };
            let b = WalkState { frames: frames.push(WalkFrame::Links(c, i)), seen, visited };
            assert(self.walks_to(a, b));
            assert(b.frames.drop_last() =~= frames);
            self.lemma_walks_to_step(a, b);
        }
    }

    /// A link not yet recorded is recorded, and the walk from the value it leads to is taken
    /// before the next link.
    proof fn lemma_walk_enter(
        &self,
        v: T,
        seen0: Set<T>,
        visited0: Set<(Option<T>, Option<T>)>,
        c: u64,
        i: nat,
        seen: Set<T>,
        visited: Set<(Option<T>, Option<T>)>,
        seen2: Set<T>,
        visited2: Set<(Option<T>, Option<T>)>,
    )
        requires
            self.walk_at(v, seen0, visited0, c, i, seen, visited),
            i < self.visit_order(c).len(),
            ({
                let e = self.visit_order(c)[i as int];
                &&& e.0 is Some
                &&& e.1 is Some
                &&& !visited.contains(reversed(e))
                &&& !visited.contains(e)
                &&& forall|frames: Seq<WalkFrame<T>>|
                    #[trigger] self.walks_to(
                        WalkState {
                            frames: frames.push(WalkFrame::Enter(e.1->0)),
                            seen,
                            visited: visited.insert(e),
                        },
                        WalkState { frames, seen: seen2, visited: visited2 },
                    )
            }),
        ensures
            self.walk_at(v, seen0, visited0, c, i + 1, seen2, visited2),
    {
        let e = self.visit_order(c)[i as int];
        assert forall|frames: Seq<WalkFrame<T>>|
            #[trigger] self.walks_to(
                WalkState { frames: frames.push(WalkFrame::Enter(v)), seen: seen0, visited: visited0 },
                WalkState { frames: frames.push(WalkFrame::Links(c, i + 1)), seen: seen2, visited: visited2 },
            ) by {
            let a = WalkState { frames: frames.push(WalkFrame::Enter(v)), seen: seen0, visited: visited0 };
            let b = WalkState { frames: frames.push(WalkFrame::Links(c, i)), seen, visited };
            let below = frames.push(WalkFrame::Links(c, i + 1));
            let m = WalkState { frames: below.push(WalkFrame::Enter(e.1->0)), seen, visited: visited.insert(e) };
            let d = WalkState { frames: below, seen: seen2, visited: visited2 };
            assert(self.walks_to(a, b));
            assert(b.frames.drop_last() =~= frames);
            self.lemma_walks_to_step(a, b);
            assert(self.walk_step(b) == m);
            assert(self.walks_to(m, d));
            self.lemma_walks_to_trans(a, m, d);
        }
    }

    /// After the last link the walk from `v` is done.
    proof fn lemma_walk_finish(
        &self,
        v: T,
        seen0: Set<T>,
        visited0: Set<(Option<T>, Option<T>)>,
        c: u64,
        i: nat,
        seen: Set<T>,
        visited: Set<(Option<T>, Option<T>)>,
    )
        requires
            self.walk_at(v, seen0, visited0, c, i, seen, visited),
            i >= self.visit_order(c).len(),
        ensures
            forall|frames: Seq<WalkFrame<T>>|
                #[trigger] self.walks_to(
                    WalkState { frames: frames.push(WalkFrame::Enter(v)), seen: seen0, visited: visited0 },
                    WalkState { frames, seen, visited },
                ),
    {
        assert forall|frames: Seq<WalkFrame<T>>|
            #[trigger] self.walks_to(
                WalkState { frames: frames.push(WalkFrame::Enter(v)), seen: seen0, visited: visited0 },
                WalkState { frames, seen, visited },
            ) by {
            let a = WalkState { frames: frames.push(WalkFrame::Enter(v)), seen: seen0, visited: visited0 };
            let b = WalkState { frames: frames.push(WalkFrame::Links(c, i)), seen, visited };
            assert(self.walks_to(a, b));
            assert(b.frames.drop_last() =~= frames);
            self.lemma_walks_to_step(a, b);
        }
    }

    proof fn lemma_run_done(&self, st: WalkState<T>, n: nat)
        requires
            st.frames.len() == 0,
        ensures
            self.walk_run(st, n) == st,
        decreases n,
    {
        if n > 0 {
            self.lemma_run_done(st, (n - 1) as nat);
        }
    }

    /// `visit` returns all of the links to the node of `val`.
    pub fn visit(&self, val: T) -> (r: Vec<(Option<T>, Option<T>)>)
        ensures
            lists_links(self@.nodes, code_of(val), r@),
            r@ == self.visit_order(code_of(val)),
            !self@.nodes.contains_key(code_of(val)) ==> r@.len() == 0,
    {
        proof {
            use_type_invariant(self);
        }
        let ghost g = self@.nodes;
        let ghost c = code_of(val);
        let mut visited: Vec<(Option<T>, Option<T>)> = Vec::new();
        let from_code = Self::get_hash_code(val.duplicate());
        match self.nodes.get(&from_code) {
            Some(entry) => {
                let from = &entry.0;
                let links = &entry.1;
                proof {
                    assert(self.nodes@.contains_key(c) && self.nodes@[c] == *entry);
                }
                let ghost mut ks: Seq<int> = Seq::empty();
                let ghost all = spec_hash_keys_iter(links).remaining();
                let ghost mut n: int = 0;
                for link in it: links.iter()
                    invariant
                        g == self@.nodes,
                        it.seq() == all,
                        n == it.index(),
                        self.nodes@.contains_key(c),
                        *links == self.nodes@[c].1,
                        visited@ == link_pairs(g, c, all.unref().take(n)),
                        all.no_duplicates(),
                        all.unref().to_set() == links@,
                        well_formed(g),
                        from_code == c,
                        g.contains_key(c),
                        *from == g[c].0,
                        links@ == g[c].1,
                        it.seq().no_duplicates(),
                        ks.len() == visited@.len(),
                        forall|i: int|
                            0 <= i < ks.len() ==> 0 <= #[trigger] ks[i] < it.index() && visited@[i]
                                == pair(g, c, c ^ *it.seq()[ks[i]]) && adjacent(g, c, c ^ *it.seq()[ks[i]]),
                        forall|i: int, j: int| 0 <= i < j < ks.len() ==> ks[i] < ks[j],
                        forall|j: int|
                            0 <= j < it.index() && #[trigger] g.contains_key(c ^ *it.seq()[j])
                                ==> visited@.contains(pair(g, c, c ^ *it.seq()[j])),
                {
                    let to_code = *link ^ from_code;
                    proof {
                        lemma_xor(from_code, *link);
                    }
                    match self.nodes.get(&to_code) {
                        Some(to_entry) => {
                            let ghost old_visited = visited@;
                            visited.push((Some(from.duplicate()), Some(to_entry.0.duplicate())));
                            proof {
                                ks = ks.push(n);
                                assert forall|j: int|
                                    0 <= j <= n && #[trigger] g.contains_key(c ^ *all[j]) implies visited@.contains(
                                    pair(g, c, c ^ *all[j]),
                                ) by {
                                    if j < n {
                                        let k = choose|k: int|
                                            0 <= k < old_visited.len() && old_visited[k] == pair(
                                                g,
                                                c,
                                                c ^ *all[j],
                                            );
                                        assert(visited@[k] == old_visited[k]);
                                    } else {
                                        assert(visited@[visited@.len() - 1] == pair(g, c, c ^ *all[j]));
                                    }
                                }
                            }
                        },
                        None => {},
                    }
                    proof {
                        assert(all.unref().take(n + 1).drop_last() =~= all.unref().take(n));
                        assert(all.unref().take(n + 1).last() == *all[n]);
                        n = n + 1;
                    }
                }
                proof {
                    assert(all.unref().take(n) =~= all.unref());
                    assert(into_iter_hash_keys(spec_hash_keys_iter(links)) == all.unref());
                    assert forall|i: int| 0 <= i < visited@.len() implies #[trigger] is_link_pair(
                        g,
                        c,
                        visited@[i],
                    ) by {
                        let d = c ^ *all[ks[i]];
                        assert(code_of(g[d].0) == d);
                    }
                    assert forall|d: u64| #[trigger] adjacent(g, c, d) implies visited@.contains(
                        pair(g, c, d),
                    ) by {
                        lemma_xor(c, d);
                        assert(links@.contains(c ^ d));
                        assert(all.unref().to_set().contains(c ^ d));
                        assert(all.unref().contains(c ^ d));
                        let j = choose|j: int| 0 <= j < all.len() && *all[j] == c ^ d;
                        assert(g.contains_key(c ^ *all[j]));
                    }
                    assert forall|i: int, j: int|
                        0 <= i < visited@.len() && 0 <= j < visited@.len() && i != j implies visited@[i]
                        != visited@[j] by {
                        let di = c ^ *all[ks[i]];
                        let dj = c ^ *all[ks[j]];
                        if visited@[i] == visited@[j] {
                            assert(code_of(g[di].0) == di);
                            assert(code_of(g[dj].0) == dj);
                            lemma_xor(c, di);
                            assert(*all[ks[i]] == *all[ks[j]]);
                        }
                    }
                }
            },
            None => {},
        }
        visited
    }

    /// Walks all paths starting from `val`, recording seen values in `seen` and traversed links in `visited`.
    #[verifier::loop_isolation(false)]
    fn walk_from<S1: TraversalSet<T>, S2: TraversalSet<(Option<T>, Option<T>)>>(
        &self,
        val: T,
        seen: &mut S1,
        visited: &mut S2,
    )
        requires
            S1::behaves(),
            S2::behaves(),
        ensures
            walked(
                self@.nodes,
                val,
                old(seen).members(),
                old(visited).members(),
                final(seen).members(),
                final(visited).members(),
            ),
            forall|frames: Seq<WalkFrame<T>>|
                #[trigger] self.walks_to(
                    WalkState {
                        frames: frames.push(WalkFrame::Enter(val)),
                        seen: old(seen).members(),
                        visited: old(visited).members(),
                    },
                    WalkState { frames, seen: final(seen).members(), visited: final(visited).members() },
                ),
        decreases unseen_count(self@.nodes, seen.members()), unstored(self@.nodes, val),
    {
        proof {
            use_type_invariant(self);
        }
        let ghost g = self@.nodes;
        let ghost s0 = seen.members();
        let ghost v0 = visited.members();
        let ghost val0 = val;
        let ghost c0 = code_of(val);
        let start = val.duplicate();
        if seen.add(start) {
            let ghost mut ord: Seq<T> = seq![val0];
            proof {
                assert(ord[0] == val0);
                assert(ord.to_set() =~= seen.members().difference(s0)) by {
                    assert(ord.contains(val0));
                    assert(ord.to_set().contains(val0));
                    assert forall|x: T| ord.to_set().contains(x) implies x == val0 by {
                        assert(ord.contains(x));
                    }
                }
            }
            proof {
                self.lemma_walk_start(val0, s0, v0);
            }
            let links = self.visit(val);
            let mut i: usize = 0;
            while i < links.len()
                invariant
                    g == self@.nodes,
                    well_formed(g),
                    S1::behaves(),
                    S2::behaves(),
                    c0 == code_of(val0),
                    lists_links(g, c0, links@),
                    !g.contains_key(c0) ==> links@.len() == 0,
                    0 <= i <= links@.len(),
                    !s0.contains(val0),
                    s0.insert(val0).subset_of(seen.members()),
                    v0.subset_of(visited.members()),
                    recorded_links_ok(g, seen.members(), visited.members(), v0),
                    one_way(visited.members(), v0),
                    seen_in_order(g, val0, s0, seen.members(), visited.members(), ord),
                    ord.len() > 0,
                    links@ == self.visit_order(c0),
                    self.walk_at(val0, s0, v0, c0, i as nat, seen.members(), visited.members()),
                    forall|x: T|
                        #[trigger] seen.members().contains(x) && !s0.contains(x) && x != val0
                            ==> seen_ok(g, val0, x) && links_done(
                            g,
                            seen.members(),
                            visited.members(),
                            v0,
                            code_of(x),
                        ),
                    forall|j: int|
                        0 <= j < i ==> link_done(
                            g,
                            seen.members(),
                            visited.members(),
                            v0,
                            c0,
                            code_of(#[trigger] links@[j].1->0),
                        ),
                decreases links@.len() - i,
            {
                let ghost s_b = seen.members();
                let ghost v_b = visited.members();
                let entry = &links[i];
                proof {
                    assert(is_link_pair(g, c0, links@[i as int]));
                }
                match entry {
                    (Some(from), Some(to)) => {
                        let ghost d = code_of(*to);
                        proof {
                            assert(code_of(g[c0].0) == c0);
                            assert(code_of(g[d].0) == d);
                            assert(*from == g[c0].0);
                            assert(*to == g[d].0);
                        }
                        let reverse = (Some(to.duplicate()), Some(from.duplicate()));
                        if !visited.has(&reverse) {
                            let forward = (Some(from.duplicate()), Some(to.duplicate()));
                            if visited.add(forward) {
                                let ghost s_m = seen.members();
                                let ghost v_m = visited.members();
                                proof {
                                    lemma_unseen_count(g, s0, s_m, val0);
                                    assert(unstored(g, *to) == 0);
                                }
                                let next = to.duplicate();
                                assert(unseen_count(g, s_m) < unseen_count(g, s0) || (unseen_count(
                                    g,
                                    s_m,
                                ) == unseen_count(g, s0) && unstored(g, val0) > unstored(g, next)));
                                self.walk_from(next, seen, visited);
                                proof {
                                    let s2 = seen.members();
                                    let v2 = visited.members();
                                    let fwd = pair(g, c0, d);
                                    assert(s2.contains(val0));
                                    lemma_covers(s2, val0);
                                    lemma_recorded_mono(g, s_b, v_b, v0, s2);
                                    assert(recorded_link_ok(g, s2, fwd));
                                    assert(recorded_links_ok(g, s2, v_m, v0)) by {
                                        assert forall|e: (Option<T>, Option<T>)|
                                            #[trigger] v_m.contains(e) && !v0.contains(
                                                e,
                                            ) implies recorded_link_ok(g, s2, e) by {
                                            if e != fwd {
                                                assert(v_b.contains(e));
                                            }
                                        }
                                    }
                                    lemma_recorded_trans(g, s2, v2, v_m, v0);
                                    assert(one_way(v_m, v0)) by {
                                        assert(fwd != reversed(fwd)) by {
                                            assert(code_of(g[c0].0) == c0);
                                            assert(code_of(g[d].0) == d);
                                            lemma_xor(c0, d);
                                        }
                                        assert forall|e: (Option<T>, Option<T>)|
                                            #[trigger] v_m.contains(e) && !v0.contains(e) implies !v_m.contains(
                                            reversed(e),
                                        ) by {
                                            if e != fwd {
                                                assert(v_b.contains(e));
                                                if reversed(e) == fwd {
                                                    assert(e == reversed(fwd));
                                                }
                                            }
                                        }
                                    }
                                    lemma_one_way_trans(v2, v_m, v0);
                                    let o = choose|o: Seq<T>| seen_in_order(g, next, s_m, s2, v2, o);
                                    assert(v2.contains(pair(g, code_of(val0), code_of(next))));
                                    lemma_seen_in_order_extend(g, val0, s0, s_m, v_b, ord, next, s2, v2, o);
                                    ord = ord + o;
                                    assert(links@[i as int] == fwd);
                                    self.lemma_walk_enter(val0, s0, v0, c0, i as nat, s_b, v_b, s2, v2);
                                    assert forall|x: T|
                                        #[trigger] s2.contains(x) && !s0.contains(x) && x != val0
                                            implies seen_ok(g, val0, x) && links_done(
                                        g,
                                        s2,
                                        v2,
                                        v0,
                                        code_of(x),
                                    ) by {
                                        if s_b.contains(x) {
                                            lemma_link_done_mono(g, s_b, v_b, v0, s2, v2, code_of(x));
                                        } else {
                                            assert(s2.contains(x) && !s_m.contains(x));
                                            lemma_links_done_rebase(g, s2, s2, v2, v_m, v0, code_of(x));
                                            if x != *to {
                                                lemma_reachable_prepend(g, c0, d, code_of(x));
                                            } else {
                                                lemma_reachable_refl(g, d);
                                                lemma_reachable_prepend(g, c0, d, d);
                                            }
                                        }
                                    }
                                    assert forall|j: int| 0 <= j < i + 1 implies link_done(
                                        g,
                                        s2,
                                        v2,
                                        v0,
                                        c0,
                                        code_of(#[trigger] links@[j].1->0),
                                    ) by {
                                        if j < i {
                                            assert(link_done(
                                                g,
                                                s_b,
                                                v_b,
                                                v0,
                                                c0,
                                                code_of(links@[j].1->0),
                                            ));
                                            let dj = code_of(links@[j].1->0);
                                            if covers(s_b, dj) {
                                                lemma_covers_mono(s_b, s2, dj);
                                            }
                                        } else {
                                            lemma_covers(s2, *to);
                                        }
                                    }
                                }
                            } else {
                                proof {
                                    let fwd = pair(g, c0, d);
                                    assert(visited.members() =~= v_b);
                                    assert(links@[i as int] == forward);
                                    self.lemma_walk_skip(val0, s0, v0, c0, i as nat, s_b, v_b);
                                    if !v0.contains(fwd) {
                                        assert(recorded_link_ok(g, s_b, fwd));
                                        lemma_covers(s_b, *to);
                                    }
                                }
                            }
                        } else {
                            proof {
                                let rev = pair(g, d, c0);
                                assert(reverse == rev);
                                assert(reversed(links@[i as int]) == reverse);
                                self.lemma_walk_skip(val0, s0, v0, c0, i as nat, s_b, v_b);
                                if !v0.contains(rev) {
                                    assert(recorded_link_ok(g, s_b, rev));
                                }
                            }
                        }
                    },
                    _ => {
                        proof {
                            self.lemma_walk_skip(val0, s0, v0, c0, i as nat, s_b, v_b);
                        }
                    },
                }
                i += 1;
            }
            proof {
                let s2 = seen.members();
                let v2 = visited.members();
                self.lemma_walk_finish(val0, s0, v0, c0, i as nat, s2, v2);
                assert forall|d: u64| #[trigger] adjacent(g, c0, d) implies link_done(
                    g,
                    s2,
                    v2,
                    v0,
                    c0,
                    d,
                ) by {
                    assert(links@.contains(pair(g, c0, d)));
                    let j = choose|j: int| 0 <= j < links@.len() && links@[j] == pair(g, c0, d);
                    assert(code_of(g[d].0) == d);
                    assert(code_of(links@[j].1->0) == d);
                }
                assert forall|x: T| #[trigger] s2.contains(x) && !s0.contains(x) implies seen_ok(
                    g,
                    val0,
                    x,
                ) && links_done(g, s2, v2, v0, code_of(x)) by {
                    if x == val0 {
                    }
                }
                assert(seen_in_order(g, val0, s0, s2, v2, ord));
            }
        } else {
            proof {
                assert(seen.members() =~= s0);
                self.lemma_walk_seen(val0, s0, v0);
                let empty = Seq::<T>::empty();
                assert(empty.to_set() =~= seen.members().difference(s0));
                assert(seen_in_order(g, val0, s0, seen.members(), visited.members(), empty));
            }
        }
    }

    /// Walks all paths starting from `val`.
    pub fn walk(&self, val: T, seen: &mut HashSet<T>, visited: &mut HashSet<(Option<T>, Option<T>)>)
        where
            T: Eq + Hash,
        requires
            obeys_key_model::<T>(),
            obeys_key_model::<(Option<T>, Option<T>)>(),
        ensures
            walked(self@.nodes, val, old(seen)@, old(visited)@, final(seen)@, final(visited)@),
            self.walk_result(val, old(seen)@, old(visited)@, final(seen)@, final(visited)@),
    {
        let ghost s0 = seen@;
        let ghost v0 = visited@;
        self.walk_from(val, seen, visited);
        assert(self.walks_to(
            WalkState { frames: Seq::<WalkFrame<T>>::empty().push(WalkFrame::Enter(val)), seen: s0, visited: v0 },
            WalkState { frames: Seq::<WalkFrame<T>>::empty(), seen: seen@, visited: visited@ },
        ));
    }

    /// Walks all paths starting from `val`.
    /// Uses a BTreeSet to sort the values as they are visited.
    pub fn walk_ordered(
        &self,
        val: T,
        seen: &mut BTreeSet<T>,
        visited: &mut BTreeSet<(Option<T>, Option<T>)>,
    )
        where
            T: Ord,
        requires
            obeys_cmp::<T>(),
            obeys_cmp::<(Option<T>, Option<T>)>(),
        ensures
            walked(self@.nodes, val, old(seen)@, old(visited)@, final(seen)@, final(visited)@),
            self.walk_result(val, old(seen)@, old(visited)@, final(seen)@, final(visited)@),
    {
        let ghost s0 = seen@;
        let ghost v0 = visited@;
        self.walk_from(val, seen, visited);
        assert(self.walks_to(
            WalkState { frames: Seq::<WalkFrame<T>>::empty().push(WalkFrame::Enter(val)), seen: s0, visited: v0 },
            WalkState { frames: Seq::<WalkFrame<T>>::empty(), seen: seen@, visited: visited@ },
        ));
    }

    /// `edge_edge` creates a link between two edge nodes, adding both nodes first.
    pub fn edge_edge<E>(&self, from: E, to: E) -> (r: Self)
        where
            E: Into<T> + Clone,
        ensures
            exists|f: T, t: T|
                converts(from, f) && converts(to, t) && ({
                    let g1 = with_node(self@.nodes, self@.pending, f);
                    let p1 = pending_after_node(self@.pending, f);
                    let g2 = with_node(g1, p1, t);
                    let p2 = pending_after_node(p1, t);
                    r@.nodes == with_link(g2, f, t) && r@.pending == pending_after_link(g2, p2, f, t)
                }),
            well_formed(r@.nodes),
            pending_ok(r@.nodes, r@.pending),
    {
        let f: T = from.into();
        let t: T = to.into();
        let r = self.node(f.duplicate()).node(t.duplicate()).link(f.duplicate(), t.duplicate());
        assert(converts(from, f) && converts(to, t));
        r
    }

    /// `edge_node` adds a node that rests at the edge of the graph data;
    /// might be useful as an entrypoint from external data into graph data.
    pub fn edge_node<E>(&self, val: E) -> (r: Self)
        where
            E: Into<T>,
        ensures
            exists|v: T|
                converts(val, v) && r@.nodes == with_node(self@.nodes, self@.pending, v) && r@.pending
                    == pending_after_node(self@.pending, v),
            well_formed(r@.nodes),
            pending_ok(r@.nodes, r@.pending),
    {
        let v: T = val.into();
        let r = self.node(v.duplicate());
        assert(converts(val, v));
        r
    }

    /// `edge_link` creates a link from an edge node to a store node.
    pub fn edge_link<E>(&self, from: E, to: T) -> (r: Self)
        where
            E: Into<T>,
        ensures
            exists|f: T|
                converts(from, f) && r@.nodes == with_link(self@.nodes, f, to) && r@.pending == pending_after_link(
                    self@.nodes,
                    self@.pending,
                    f,
                    to,
                ),
            well_formed(r@.nodes),
            pending_ok(r@.nodes, r@.pending),
    {
        let f: T = from.into();
        let r = self.link(f.duplicate(), to);
        assert(converts(from, f));
        r
    }

    /// `edge_walk_ordered` walks the graph in order, starting from an edge node.
    pub fn edge_walk_ordered<E>(&self, from: E) -> (r: (BTreeSet<T>, BTreeSet<(Option<T>, Option<T>)>))
        where
            E: Into<T>,
            T: Ord,
        requires
            obeys_cmp::<T>(),
            obeys_cmp::<(Option<T>, Option<T>)>(),
        ensures
            exists|v: T|
                converts(from, v) && walked(self@.nodes, v, Set::empty(), Set::empty(), r.0@, r.1@)
                    && self.walk_result(v, Set::empty(), Set::empty(), r.0@, r.1@),
    {
        let mut seen: BTreeSet<T> = BTreeSet::new();
        let mut visited: BTreeSet<(Option<T>, Option<T>)> = BTreeSet::new();
        let v: T = from.into();
        self.walk_ordered(v.duplicate(), &mut seen, &mut visited);
        assert(converts(from, v));
        (seen, visited)
    }

    /// `edge_walk` walks the graph starting from an edge node.
    pub fn edge_walk<E>(&self, from: E) -> (r: (HashSet<T>, HashSet<(Option<T>, Option<T>)>))
        where
            E: Into<T>,
            T: Eq + Hash,
        requires
            obeys_key_model::<T>(),
            obeys_key_model::<(Option<T>, Option<T>)>(),
        ensures
            exists|v: T|
                converts(from, v) && walked(self@.nodes, v, Set::empty(), Set::empty(), r.0@, r.1@)
                    && self.walk_result(v, Set::empty(), Set::empty(), r.0@, r.1@),
    {
        let mut seen: HashSet<T> = HashSet::new();
        let mut visited: HashSet<(Option<T>, Option<T>)> = HashSet::new();
        let v: T = from.into();
        self.walk(v.duplicate(), &mut seen, &mut visited);
        assert(converts(from, v));
        (seen, visited)
    }

    /// `references` returns all nodes whose references contain `val`.
    /// If no nodes reference `val` returns `None`.
    pub fn references(&self, val: T) -> (r: Option<Vec<T>>)
        ensures
            match r {
                Some(v) => v@.len() > 0 && lists_references(self@.nodes, code_of(val), v@),
                None => forall|id: u64| !#[trigger] refers(self@.nodes, id, code_of(val)),
            },
    {
        proof {
            use_type_invariant(self);
        }
        let ghost g = self@.nodes;
        let code = Self::get_hash_code(val);
        let ghost c = code;
        let mut references: Vec<T> = Vec::new();
        let ghost mut ks: Seq<int> = Seq::empty();
        let ghost all = spec_hash_map_iter(&self.nodes).remaining();
        let ghost mut n: int = 0;
        for entry in it: self.nodes.iter()
            invariant
                g == self@.nodes,
                well_formed(g),
                code == c,
                it.seq() == all,
                n == it.index(),
                all.no_duplicates(),
                all.len() == self.nodes@.dom().len(),
                forall|j: int|
                    0 <= j < all.len() ==> #[trigger] self.nodes@.contains_key(*all[j].0)
                        && self.nodes@[*all[j].0] == *all[j].1,
                forall|k: u64| #[trigger]
                    self.nodes@.contains_key(k) ==> all.contains((&k, &self.nodes@[k])),
                ks.len() == references@.len(),
                forall|i: int|
                    0 <= i < ks.len() ==> 0 <= #[trigger] ks[i] < n && references@[i] == g[*all[ks[i]].0].0
                        && refers(g, *all[ks[i]].0, c),
                forall|i: int, j: int| 0 <= i < j < ks.len() ==> ks[i] < ks[j],
                forall|j: int|
                    0 <= j < n && #[trigger] refers(g, *all[j].0, c) ==> references@.contains(
                        g[*all[j].0].0,
                    ),
        {
            let (id, node) = entry;
            let is_ref = node.1.contains(&(*id ^ code));
            if is_ref {
                let ghost old_refs = references@;
                references.push(node.0.duplicate());
                proof {
                    ks = ks.push(n);
                    assert forall|j: int|
                        0 <= j <= n && #[trigger] refers(g, *all[j].0, c) implies references@.contains(
                        g[*all[j].0].0,
                    ) by {
                        if j < n {
                            let k = choose|k: int| 0 <= k < old_refs.len() && old_refs[k] == g[*all[j].0].0;
                            assert(references@[k] == old_refs[k]);
                        } else {
                            assert(references@[references@.len() - 1] == g[*all[j].0].0);
                        }
                    }
                }
            }
            proof {
                n = n + 1;
            }
        }
        proof {
            assert forall|i: int| 0 <= i < references@.len() implies #[trigger] refers(
                g,
                code_of(references@[i]),
                c,
            ) && references@[i] == g[code_of(references@[i])].0 by {
                assert(code_of(g[*all[ks[i]].0].0) == *all[ks[i]].0);
            }
            assert forall|id: u64| #[trigger] refers(g, id, c) implies references@.contains(g[id].0) by {
                assert(all.contains((&id, &self.nodes@[id])));
                let j = choose|j: int| 0 <= j < all.len() && all[j] == (&id, &self.nodes@[id]);
                assert(refers(g, *all[j].0, c));
            }
            assert forall|i: int, j: int|
                0 <= i < references@.len() && 0 <= j < references@.len() && i != j implies references@[i]
                != references@[j] by {
                let ki = *all[ks[i]].0;
                let kj = *all[ks[j]].0;
                if references@[i] == references@[j] {
                    assert(code_of(g[ki].0) == ki);
                    assert(code_of(g[kj].0) == kj);
                    assert(all[ks[i]] == all[ks[j]]);
                }
            }
        }
        if references.len() > 0 {
            Some(references)
        } else {
            proof {
                assert forall|id: u64| !#[trigger] refers(g, id, c) by {
                    if refers(g, id, c) {
                        assert(references@.contains(g[id].0));
                    }
                }
            }
            None
        }
    }

    /// `get` returns the current state of the node of `val`.
    pub fn get(&self, val: T) -> (r: Option<&(T, HashSet<u64>)>)
        ensures
            match r {
                Some(entry) => self@.nodes.contains_key(code_of(val)) && entry.0 == self@.nodes[code_of(
                    val,
                )].0 && entry.1@ == self@.nodes[code_of(val)].1,
                None => !self@.nodes.contains_key(code_of(val)),
            },
    {
        let h = Self::get_hash_code(val);
        self.nodes.get(&h)
    }

    /// Computes the hash code of `val`.
    fn get_hash_code(val: T) -> (r: u64)
        ensures
            r == code_of(val),
    {
        let mut hasher = DefaultHasher::new();
        val.write_hash(&mut hasher);
        assert(hasher@ =~= val.hash_writes());
        hasher.finish()
    }
}

/// Copies a set of link codes, calling `HashSet::clone`; the copy holds the same codes.
#[verifier::external_body]
fn clone_links(links: &HashSet<u64>) -> (r: HashSet<u64>)
    ensures
        r@ == links@,
{
    links.clone()
}

/// A graph whose declared links are well formed is itself well formed.
proof fn lemma_well_formed_from_declared<T: StoreValue>(g: Map<u64, (T, Set<u64>)>, p: Map<u64, Set<u64>>)
    requires
        g.dom().finite(),
        forall|c: u64| #[trigger] g.contains_key(c) ==> code_of(g[c].0) == c && g[c].1.finite(),
        pending_ok(g, p),
    ensures
        well_formed(g),
{
    assert forall|c: u64, l: u64| g.contains_key(c) && #[trigger] g[c].1.contains(l) implies {
        &&& l != 0
        &&& g.contains_key(c ^ l) ==> g[c ^ l].1.contains(l)
    } by {
        assert(declared(g, p, c).contains(l));
        assert(declared(g, p, c ^ l).contains(l));
    }
}

/// Adding a node keeps the store well formed, and keeps the links declared at every code.
proof fn lemma_node_ok<T: StoreValue>(g: Map<u64, (T, Set<u64>)>, p: Map<u64, Set<u64>>, v: T)
    requires
        well_formed(g),
        pending_ok(g, p),
    ensures
        well_formed(with_node(g, p, v)),
        pending_ok(with_node(g, p, v), pending_after_node(p, v)),
        forall|c: u64|
            #[trigger] declared(with_node(g, p, v), pending_after_node(p, v), c) == declared(g, p, c),
{
    let c0 = code_of(v);
    let g2 = with_node(g, p, v);
    let p2 = pending_after_node(p, v);
    assert forall|c: u64| #[trigger] declared(g2, p2, c) == declared(g, p, c) by {
        if g.contains_key(c0) {
            assert(!p.contains_key(c0));
        }
    }
    assert forall|c: u64| #[trigger] p2.contains_key(c) implies !g2.contains_key(c) && p2[c].finite() by {
        assert(p.contains_key(c));
    }
    assert forall|c: u64, l: u64| #[trigger] declared(g2, p2, c).contains(l) implies l != 0 && declared(
        g2,
        p2,
        c ^ l,
    ).contains(l) by {
        assert(declared(g, p, c).contains(l));
        assert(declared(g2, p2, c ^ l) == declared(g, p, c ^ l));
    }
    assert(p2.dom() =~= p.dom().remove(c0));
    assert forall|c: u64| #[trigger] g2.contains_key(c) implies code_of(g2[c].0) == c && g2[c].1.finite() by {
        if c == c0 && !g.contains_key(c0) {
            if p.contains_key(c0) {
                assert(p[c0].finite());
            }
        }
    }
    lemma_well_formed_from_declared(g2, p2);
}

/// Linking keeps the store well formed; it declares the link code at both of its ends and changes
/// nothing else.
proof fn lemma_link_ok<T: StoreValue>(g: Map<u64, (T, Set<u64>)>, p: Map<u64, Set<u64>>, from: T, to: T)
    requires
        well_formed(g),
        pending_ok(g, p),
    ensures
        well_formed(with_link(g, from, to)),
        pending_ok(with_link(g, from, to), pending_after_link(g, p, from, to)),
        forall|c: u64|
            #[trigger] declared(with_link(g, from, to), pending_after_link(g, p, from, to), c) == if link_code(
                code_of(from),
                code_of(to),
            ) != 0 && (c == code_of(from) || c == code_of(to)) {
                declared(g, p, c).insert(link_code(code_of(from), code_of(to)))
            } else {
                declared(g, p, c)
            },
{
    let a = code_of(from);
    let b = code_of(to);
    let l = a ^ b;
    lemma_xor(a, b);
    let g2 = with_link(g, from, to);
    let p2 = pending_after_link(g, p, from, to);
    if l != 0 {
        let g1 = link_at(g, a, l);
        let p1 = pend_at(g, p, a, l);
        assert(g1.contains_key(b) == g.contains_key(b));
        assert(g2 == link_at(g1, b, l));
        assert(p2 == pend_at(g, p1, b, l));
        assert(g2.dom() =~= g.dom());
        assert forall|c: u64| #[trigger] declared(g2, p2, c) == if c == a || c == b {
            declared(g, p, c).insert(l)
        } else {
            declared(g, p, c)
        } by {
            if c == a || c == b {
                assert(declared(g2, p2, c) =~= declared(g, p, c).insert(l));
            }
        }
        assert forall|c: u64| #[trigger] p2.contains_key(c) implies !g2.contains_key(c) && p2[c].finite() by {
            if c != a && c != b {
                assert(p.contains_key(c));
            } else if p.contains_key(c) {
                assert(p[c].finite());
            }
        }
        assert(p2.dom().subset_of(p.dom().insert(a).insert(b)));
        vstd::set_lib::lemma_len_subset(p2.dom(), p.dom().insert(a).insert(b));
        assert forall|c: u64, m: u64| #[trigger] declared(g2, p2, c).contains(m) implies m != 0 && declared(
            g2,
            p2,
            c ^ m,
        ).contains(m) by {
            if declared(g, p, c).contains(m) {
                assert(declared(g, p, c ^ m).contains(m));
                assert(declared(g2, p2, c ^ m) == if c ^ m == a || c ^ m == b {
                    declared(g, p, c ^ m).insert(l)
                } else {
                    declared(g, p, c ^ m)
                });
            } else {
                assert(m == l && (c == a || c == b));
                if c == a {
                    assert(c ^ m == b);
                } else {
                    assert(c ^ m == a);
                }
                assert(declared(g2, p2, c ^ m) == declared(g, p, c ^ m).insert(l));
            }
        }
        assert forall|c: u64| #[trigger] g2.contains_key(c) implies code_of(g2[c].0) == c && g2[c].1.finite() by {
            assert(g.contains_key(c));
        }
        lemma_well_formed_from_declared(g2, p2);
    }
}

} // verus!

verus! {

/// Adding a value that is already a node changes nothing: adding the same value twice is the
/// same as adding it once.
pub proof fn lemma_node_idempotent<T: StoreValue>(g: Map<u64, (T, Set<u64>)>, p: Map<u64, Set<u64>>, v: T)
    ensures
        with_node(with_node(g, p, v), pending_after_node(p, v), v) == with_node(g, p, v),
        pending_after_node(pending_after_node(p, v), v) == pending_after_node(p, v),
{
    assert(pending_after_node(pending_after_node(p, v), v) =~= pending_after_node(p, v));
}

/// After `v` is added, a node is keyed by the hash code of `v`; it holds `v` itself with the
/// links declared for that code, unless a node was already keyed by that code, in which case
/// nothing changed.
pub proof fn lemma_node_then_get<T: StoreValue>(g: Map<u64, (T, Set<u64>)>, p: Map<u64, Set<u64>>, v: T)
    ensures
        with_node(g, p, v).contains_key(code_of(v)),
        !g.contains_key(code_of(v)) ==> with_node(g, p, v)[code_of(v)] == (v, declared(g, p, code_of(v))),
        g.contains_key(code_of(v)) ==> with_node(g, p, v) == g,
        forall|c: u64| c != code_of(v) ==> with_node(g, p, v).contains_key(c) == g.contains_key(c),
{
}

/// Adding a node keeps the links declared at every code: a new node takes up the links that
/// were declared for it while it was missing.
pub proof fn lemma_node_keeps_links<T: StoreValue>(g: Map<u64, (T, Set<u64>)>, p: Map<u64, Set<u64>>, v: T)
    requires
        well_formed(g),
        pending_ok(g, p),
    ensures
        forall|c: u64|
            #[trigger] declared(with_node(g, p, v), pending_after_node(p, v), c) == declared(g, p, c),
{
    lemma_node_ok(g, p, v);
}

/// Linking `from` to `to` gives the same store as linking `to` to `from`.
pub proof fn lemma_link_symmetric<T: StoreValue>(g: Map<u64, (T, Set<u64>)>, p: Map<u64, Set<u64>>, from: T, to: T)
    ensures
        with_link(g, from, to) == with_link(g, to, from),
        pending_after_link(g, p, from, to) == pending_after_link(g, p, to, from),
{
    let a = code_of(from);
    let b = code_of(to);
    lemma_xor(a, b);
    if a ^ b != 0 {
        assert(with_link(g, from, to) =~= with_link(g, to, from));
        assert(pending_after_link(g, p, from, to) =~= pending_after_link(g, p, to, from));
    }
}

/// Linking the same two values twice is the same as linking them once.
pub proof fn lemma_link_idempotent<T: StoreValue>(g: Map<u64, (T, Set<u64>)>, p: Map<u64, Set<u64>>, from: T, to: T)
    ensures
        with_link(with_link(g, from, to), from, to) == with_link(g, from, to),
        pending_after_link(with_link(g, from, to), pending_after_link(g, p, from, to), from, to)
            == pending_after_link(g, p, from, to),
{
    let a = code_of(from);
    let b = code_of(to);
    lemma_xor(a, b);
    let l = a ^ b;
    let h = with_link(g, from, to);
    let q = pending_after_link(g, p, from, to);
    if l != 0 {
        assert(h.dom() =~= g.dom());
        if h.contains_key(a) {
            assert(h[a].1.insert(l) =~= h[a].1);
        }
        if h.contains_key(b) {
            assert(h[b].1.insert(l) =~= h[b].1);
        }
        assert(with_link(h, from, to) =~= h);
        if !g.contains_key(a) {
            assert(q[a].insert(l) =~= q[a]);
        }
        if !g.contains_key(b) {
            assert(q[b].insert(l) =~= q[b]);
        }
        assert(pending_after_link(h, q, from, to) =~= q);
    }
}

/// Linking keeps every node and every value; it only adds link codes.
pub proof fn lemma_link_keeps_nodes<T: StoreValue>(g: Map<u64, (T, Set<u64>)>, from: T, to: T)
    ensures
        with_link(g, from, to).dom() == g.dom(),
        forall|c: u64|
            #[trigger] g.contains_key(c) ==> with_link(g, from, to)[c].0 == g[c].0 && g[c].1.subset_of(
                with_link(g, from, to)[c].1,
            ),
{
    assert(with_link(g, from, to).dom() =~= g.dom());
}

/// Linking two nodes with different hash codes connects them both ways: a traversal from either
/// one reaches the other, and each is a reference of the other.
pub proof fn lemma_link_connects<T: StoreValue>(g: Map<u64, (T, Set<u64>)>, from: T, to: T)
    requires
        g.contains_key(code_of(from)),
        g.contains_key(code_of(to)),
        code_of(from) != code_of(to),
    ensures
        adjacent(with_link(g, from, to), code_of(from), code_of(to)),
        adjacent(with_link(g, from, to), code_of(to), code_of(from)),
        refers(with_link(g, from, to), code_of(from), code_of(to)),
        refers(with_link(g, from, to), code_of(to), code_of(from)),
{
    let a = code_of(from);
    let b = code_of(to);
    lemma_xor(a, b);
}

/// Every link is stored at both of its ends: each link code of a node is nonzero, and the node it
/// leads to either holds the same code or, while that node is missing, the code waits for it. So
/// in a store where no link waits, no link dangles.
pub proof fn lemma_links_at_both_ends<T: StoreValue>(g: Map<u64, (T, Set<u64>)>, p: Map<u64, Set<u64>>)
    requires
        well_formed(g),
        pending_ok(g, p),
    ensures
        forall|k: u64, l: u64|
            #![trigger g[k].1.contains(l)]
            g.contains_key(k) && g[k].1.contains(l) ==> l != 0 && if g.contains_key(k ^ l) {
                g[k ^ l].1.contains(l)
            } else {
                p.contains_key(k ^ l) && p[k ^ l].contains(l)
            },
        p.is_empty() ==> forall|k: u64, l: u64|
            #![trigger g[k].1.contains(l)]
            g.contains_key(k) && g[k].1.contains(l) ==> g.contains_key(k ^ l) && g[k ^ l].1.contains(l),
{
    assert forall|k: u64, l: u64| g.contains_key(k) && #[trigger] g[k].1.contains(l) implies l != 0 && if g.contains_key(k ^ l) {
        g[k ^ l].1.contains(l)
    } else {
        p.contains_key(k ^ l) && p[k ^ l].contains(l)
    } by {
        assert(declared(g, p, k).contains(l));
        assert(declared(g, p, k ^ l).contains(l));
    }
    if p.is_empty() {
        assert forall|k: u64, l: u64| g.contains_key(k) && #[trigger] g[k].1.contains(l) implies g.contains_key(k ^ l)
            && g[k ^ l].1.contains(l) by {
            if !g.contains_key(k ^ l) {
                assert(p.contains_key(k ^ l));
                assert(p.dom().contains(k ^ l));
            }
        }
    }
}

/// A link may be declared before its nodes exist: once both nodes are added, whatever their
/// order, the link connects them both ways.
pub proof fn lemma_link_before_nodes<T: StoreValue>(
    g: Map<u64, (T, Set<u64>)>,
    p: Map<u64, Set<u64>>,
    from: T,
    to: T,
    first: T,
    second: T,
)
    requires
        well_formed(g),
        pending_ok(g, p),
        code_of(from) != code_of(to),
        (first == from && second == to) || (first == to && second == from),
    ensures
        ({
            let g1 = with_link(g, from, to);
            let p1 = pending_after_link(g, p, from, to);
            let g2 = with_node(g1, p1, first);
            let p2 = pending_after_node(p1, first);
            let g3 = with_node(g2, p2, second);
            adjacent(g3, code_of(from), code_of(to)) && adjacent(g3, code_of(to), code_of(from))
        }),
{
    let a = code_of(from);
    let b = code_of(to);
    lemma_xor(a, b);
    let l = a ^ b;
    let g1 = with_link(g, from, to);
    let p1 = pending_after_link(g, p, from, to);
    lemma_link_ok(g, p, from, to);
    let g2 = with_node(g1, p1, first);
    let p2 = pending_after_node(p1, first);
    lemma_node_ok(g1, p1, first);
    let g3 = with_node(g2, p2, second);
    let p3 = pending_after_node(p2, second);
    lemma_node_ok(g2, p2, second);
    assert(declared(g1, p1, a).contains(l));
    assert(declared(g1, p1, b).contains(l));
    assert(declared(g3, p3, a) == declared(g2, p2, a));
    assert(declared(g3, p3, b) == declared(g2, p2, b));
    assert(g3.contains_key(a));
    assert(g3.contains_key(b));
    assert(g3[a].1 == declared(g3, p3, a));
    assert(g3[b].1 == declared(g3, p3, b));
    assert(b ^ a == l);
}

proof fn lemma_path_covered<T: StoreValue>(
    g: Map<u64, (T, Set<u64>)>,
    v: T,
    seen: Set<T>,
    visited: Set<(Option<T>, Option<T>)>,
    p: Seq<u64>,
    i: int,
)
    requires
        walked(g, v, Set::empty(), Set::empty(), seen, visited),
        is_path(g, p),
        p[0] == code_of(v),
        0 <= i < p.len(),
    ensures
        covers(seen, p[i]),
    decreases i,
{
    if i == 0 {
        lemma_covers(seen, v);
    } else {
        lemma_path_covered(g, v, seen, visited, p, i - 1);
        let y = choose|y: T| #[trigger] seen.contains(y) && code_of(y) == p[i - 1];
        assert(!Set::<T>::empty().contains(y));
        assert(adjacent(g, p[i - 1], p[i - 1 + 1]));
        assert(link_done(g, seen, visited, Set::empty(), p[i - 1], p[i]));
    }
}

/// A walk that starts with nothing seen sees every node reachable from its start and nothing else,
/// and records every link out of a reachable node in exactly one direction.
pub proof fn lemma_walk_reaches<T: StoreValue>(
    g: Map<u64, (T, Set<u64>)>,
    v: T,
    seen: Set<T>,
    visited: Set<(Option<T>, Option<T>)>,
)
    requires
        well_formed(g),
        walked(g, v, Set::empty(), Set::empty(), seen, visited),
    ensures
        forall|d: u64| #[trigger] reachable(g, code_of(v), d) ==> covers(seen, d),
        forall|x: T| #[trigger] seen.contains(x) ==> seen_ok(g, v, x),
        forall|a: u64, d: u64|
            #![trigger reachable(g, code_of(v), a), adjacent(g, a, d)]
            reachable(g, code_of(v), a) && adjacent(g, a, d) ==> visited.contains(pair(g, a, d))
                || visited.contains(pair(g, d, a)),
        forall|a: u64, d: u64|
            #![trigger pair(g, a, d), pair(g, d, a)]
            !(visited.contains(pair(g, a, d)) && visited.contains(pair(g, d, a))),
{
    assert forall|a: u64, d: u64|
        !(visited.contains(pair(g, a, d)) && visited.contains(pair(g, d, a))) by {
        assert(reversed(pair(g, a, d)) == pair(g, d, a));
    }
    assert forall|d: u64| #[trigger] reachable(g, code_of(v), d) implies covers(seen, d) by {
        let p = choose|p: Seq<u64>| #[trigger] is_path(g, p) && p[0] == code_of(v) && p.last() == d;
        lemma_path_covered(g, v, seen, visited, p, p.len() - 1);
    }
    assert forall|x: T| #[trigger] seen.contains(x) implies seen_ok(g, v, x) by {
        assert(!Set::<T>::empty().contains(x));
    }
    assert forall|a: u64, d: u64|
        reachable(g, code_of(v), a) && adjacent(g, a, d) implies visited.contains(pair(g, a, d))
        || visited.contains(pair(g, d, a)) by {
        assert(covers(seen, a));
        let y = choose|y: T| #[trigger] seen.contains(y) && code_of(y) == a;
        assert(!Set::<T>::empty().contains(y));
        assert(link_done(g, seen, visited, Set::empty(), a, d));
    }
}

} // verus!

verus! {

/// A walk is determined by the store, its start and what was seen and recorded before it: two
/// walks of the same store from the same start and the same sets end with the same sets. So
/// `walk` and `walk_ordered` started alike see the same values and record the same links.
pub proof fn lemma_walk_result_unique<T: StoreValue>(
    store: Store<T>,
    v: T,
    seen0: Set<T>,
    visited0: Set<(Option<T>, Option<T>)>,
    seen1: Set<T>,
    visited1: Set<(Option<T>, Option<T>)>,
    seen2: Set<T>,
    visited2: Set<(Option<T>, Option<T>)>,
)
    requires
        store.walk_result(v, seen0, visited0, seen1, visited1),
        store.walk_result(v, seen0, visited0, seen2, visited2),
    ensures
        seen1 == seen2,
        visited1 == visited2,
{
    let a = WalkState { frames: Seq::<WalkFrame<T>>::empty().push(WalkFrame::Enter(v)), seen: seen0, visited: visited0 };
    let h1 = WalkState { frames: Seq::<WalkFrame<T>>::empty(), seen: seen1, visited: visited1 };
    let h2 = WalkState { frames: Seq::<WalkFrame<T>>::empty(), seen: seen2, visited: visited2 };
    let n1 = choose|n: nat| store.walk_run(a, n) == h1;
    let n2 = choose|n: nat| store.walk_run(a, n) == h2;
    if n1 <= n2 {
        store.lemma_run_add(a, n1, (n2 - n1) as nat);
        store.lemma_run_done(h1, (n2 - n1) as nat);
    } else {
        store.lemma_run_add(a, n2, (n1 - n2) as nat);
        store.lemma_run_done(h2, (n1 - n2) as nat);
    }
}

/// The walk of the doc example: on an empty store, link `from` to `to`, then add `from` and then
/// `to`; a walk from `from` that starts with nothing seen sees `to` and records the link as
/// `(from, to)`.
pub proof fn lemma_walk_after_link_before_nodes<T: StoreValue>(
    from: T,
    to: T,
    seen: Set<T>,
    visited: Set<(Option<T>, Option<T>)>,
)
    requires
        code_of(from) != code_of(to),
        ({
            let g0 = Map::<u64, (T, Set<u64>)>::empty();
            let p0 = Map::<u64, Set<u64>>::empty();
            let g1 = with_link(g0, from, to);
            let p1 = pending_after_link(g0, p0, from, to);
            let g2 = with_node(g1, p1, from);
            let g3 = with_node(g2, pending_after_node(p1, from), to);
            walked(g3, from, Set::empty(), Set::empty(), seen, visited)
        }),
    ensures
        seen.contains(to),
        visited.contains((Some(from), Some(to))),
{
    let a = code_of(from);
    let b = code_of(to);
    let g0 = Map::<u64, (T, Set<u64>)>::empty();
    let p0 = Map::<u64, Set<u64>>::empty();
    let g1 = with_link(g0, from, to);
    let p1 = pending_after_link(g0, p0, from, to);
    let g2 = with_node(g1, p1, from);
    let p2 = pending_after_node(p1, from);
    let g3 = with_node(g2, p2, to);
    assert(well_formed(g0));
    assert(pending_ok(g0, p0)) by {
        assert forall|c: u64, l: u64| #[trigger] declared(g0, p0, c).contains(l) implies l != 0
            && declared(g0, p0, c ^ l).contains(l) by {
            assert(declared(g0, p0, c) =~= Set::empty());
        }
    }
    lemma_link_before_nodes(g0, p0, from, to, from, to);
    lemma_link_ok(g0, p0, from, to);
    lemma_node_ok(g1, p1, from);
    lemma_node_ok(g2, p2, to);
    assert(g1 =~= g0);
    assert(g3.dom() =~= set![a, b]);
    assert(g3[a].0 == from);
    assert(g3[b].0 == to);
    let path = seq![a, b];
    assert(is_path(g3, path));
    assert(reachable(g3, a, b));
    lemma_walk_reaches(g3, from, seen, visited);
    assert(covers(seen, b));
    let y = choose|y: T| #[trigger] seen.contains(y) && code_of(y) == b;
    assert(seen_ok(g3, from, y));
    assert(y == to);
    let o = choose|o: Seq<T>| seen_in_order(g3, from, Set::empty(), seen, visited, o);
    assert(o.to_set().contains(to)) by {
        assert(seen.difference(Set::<T>::empty()).contains(to));
    }
    let i = choose|i: int| 0 <= i < o.len() && o[i] == to;
    assert(o.len() > 0);
    assert(o[0] == from);
    assert(i != 0);
    assert(reached_from_earlier(g3, visited, o, i));
    let j = choose|j: int| 0 <= j < i && #[trigger] visited.contains(pair(g3, code_of(o[j]), code_of(o[i])));
    assert(o.to_set().contains(o[j]));
    assert(seen.contains(o[j]));
    assert(seen_ok(g3, from, o[j]));
    assert(o[j] != to);
    assert(o[j] == from);
}

} // verus!
