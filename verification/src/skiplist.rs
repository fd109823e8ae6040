//! The skip list itself.

use vstd::prelude::*;
use crate::iter::Iter;
use crate::key::OrderedKey;
use crate::layout::{
    backs_kept_but, contents_kept_but, entries_of, in_arena, inserted, joined, key_after, key_at,
    key_not_after, lemma_insert_done, lemma_level_spliced, lemma_level_unlinked,
    lemma_live_inserted, lemma_live_removed, lemma_other_level_kept, lemma_pred_span,
    lemma_refilled_linked, lemma_remove_done, level_kept_but, level_ok, link_ok, linked, listed,
    live_ok, located, names, off_path, path_ok, pred_ok, refilled, removed, same_but_level,
    same_shell, slot_after, slots_ok, spare_ok, tall, HEAD, TAIL,
};
use crate::level::{clamp_height, clamped, reach, GeoLevelGenerator, LevelGenerator};
use crate::node::Node;
use crate::run::{
    above, as_map, below, count_below, cut, holds_key, law_cut, lemma_absent, lemma_count_below,
    lemma_holder, lemma_map_at, lemma_map_insert, lemma_map_len, lemma_map_remove, lemma_map_update,
    lemma_select_is_stretch, pairs, put, select, strictly_sorted, within, Bound, KVpair, Run,
};

verus! {

/// A sorted map from keys to values, kept as a skip list whose links count
/// the entries they pass.
pub struct SkipList<K, V, G> {
    /// The arena: the head in slot 0, the tail in slot 1, entries and
    /// spare slots behind them.
    nodes: Vec<Node<K, V>>,
    /// The slots that deleted entries have left, to be used again.
    free: Vec<usize>,
    /// The highest level that an entry reaches; 1 in an empty list.
    current_max_level: usize,
    /// The number of levels the list can reach.
    max_level: usize,
    /// The smallest key, if there is an entry.
    min: Option<K>,
    /// The largest key, if there is an entry.
    max: Option<K>,
    /// The number of entries.
    n: usize,
    /// The engine's advisory size.
    max_size: usize,
    /// Where the heights of new nodes come from.
    level_gen: G,
    /// The slots of the head and of the entries, in key order.
    order: Ghost<Seq<usize>>,
}

impl<K: OrderedKey, V, G: LevelGenerator> SkipList<K, V, G> {
    /// The nodes hang together, the counters count them, and the spare
    /// slots are apart from them.
    spec fn body_ok(&self) -> bool {
        &&& self.order@.len() == self.n + 1
        &&& self.n + self.free@.len() + 2 == self.nodes@.len()
        &&& joined(self.nodes@, self.order@, self.max_level as int, self.current_max_level as int)
        &&& spare_ok(self.free@, self.order@, self.nodes@.len() as int)
        &&& live_ok(self.nodes@, self.order@)
    }

    /// The list is sound: its links, spans, counters and cached extremes
    /// all agree with the entries it holds.
    pub closed spec fn wf(&self) -> bool {
        &&& self.body_ok()
        &&& linked(self.nodes@, self.order@, self.max_level as int, self.current_max_level as int)
        &&& self.min == (if self.n == 0 {
            None
        } else {
            Some(key_at(self.nodes@, self.order@, 1))
        })
        &&& self.max == (if self.n == 0 {
            None
        } else {
            Some(key_at(self.nodes@, self.order@, self.n as int))
        })
    }

    /// The entries in key order.
    pub closed spec fn entries(&self) -> Seq<(K, V)> {
        entries_of(self.nodes@, self.order@)
    }

    /// The entries as a map.
    pub closed spec fn view(&self) -> Map<K, V> {
        as_map(self.entries())
    }

    /// The number of levels the list can reach.
    pub closed spec fn level_limit(&self) -> int {
        self.max_level as int
    }

    /// The highest level that an entry reaches; 1 in an empty list.
    pub closed spec fn top_level(&self) -> int {
        self.current_max_level as int
    }

    /// The advisory size that the engine has set.
    pub closed spec fn size_hint(&self) -> int {
        self.max_size as int
    }

    /// The slots of the linked nodes: the head at position 0, then the
    /// entries in key order. A node keeps its slot for as long as it is in
    /// the list.
    pub closed spec fn handles(&self) -> Seq<usize> {
        self.order@
    }

    /// The slot of the node at position `pos`.
    pub open spec fn node_at(&self, pos: int) -> usize {
        self.handles()[pos]
    }

    /// Whether `handle` names the head or an entry of the list.
    pub closed spec fn on_path(&self, handle: usize) -> bool {
        listed(self.order@, handle)
    }

    /// The position of the node that `handle` names: the number of
    /// entries at or before it.
    pub closed spec fn position(&self, handle: usize) -> int {
        choose|pos: int| #[trigger] names(self.order@, pos, handle)
    }

    /// The number of levels that the node `handle` takes part in.
    pub closed spec fn height_of(&self, handle: usize) -> int {
        self.nodes@[handle as int].height as int
    }

    /// The node that `handle` links to at level `l`, if any.
    pub closed spec fn forward_of(&self, handle: usize, l: int) -> Option<usize> {
        self.nodes@[handle as int].forwards@[l]
    }

    /// The span of the level-`l` link of the node `handle`.
    pub closed spec fn span_of(&self, handle: usize, l: int) -> int {
        self.nodes@[handle as int].spans@[l] as int
    }

    /// Whether a walk along level `lvl` from `start` comes to `end`:
    /// `start` must be a node that reaches the level, and `end`, where one
    /// is given, a node at or after `start` that reaches the level too.
    pub open spec fn connected(&self, start: usize, end: Option<usize>, lvl: usize) -> bool {
        &&& self.on_path(start)
        &&& lvl < self.height_of(start)
        &&& match end {
            Some(e) => self.on_path(e) && self.height_of(e) > lvl && self.position(e) >= self.position(start),
            None => true,
        }
    }

    /// The number of entries after `start` up to `end`, or up to the end
    /// of the list where no `end` is given.
    pub open spec fn distance(&self, start: usize, end: Option<usize>) -> int {
        match end {
            Some(e) => self.position(e) - self.position(start),
            None => self.entries().len() - self.position(start),
        }
    }

    /// Each position of a sound list names a node, and that node's
    /// position is that one.
    pub proof fn lemma_position(&self, pos: int)
        requires
            self.wf(),
            0 <= pos <= self.entries().len(),
        ensures
            self.on_path(self.node_at(pos)),
            self.position(self.node_at(pos)) == pos,
    {
        let h = self.order@[pos];
        assert(names(self.order@, pos, h));
        assert(self.on_path(h));
        let q = self.position(h);
        assert(names(self.order@, q, h));
        if q < pos {
            assert(self.order@[q] != self.order@[pos]);
        } else if pos < q {
            assert(self.order@[pos] != self.order@[q]);
        }
    }

    /// A node of a sound list sits at its position, which is in range.
    pub proof fn lemma_on_path(&self, handle: usize)
        requires
            self.wf(),
            self.on_path(handle),
        ensures
            0 <= self.position(handle) <= self.entries().len(),
            self.node_at(self.position(handle)) == handle,
            1 <= self.height_of(handle) <= self.level_limit(),
    {
        let q = self.position(handle);
        assert(names(self.order@, q, handle));
        if q > 0 {
            assert(self.nodes@[self.order@[q] as int].key.is_some());
        }
    }

    /// The entries are sorted by key, strictly.
    proof fn lemma_sorted(&self)
        requires
            self.wf(),
        ensures
            strictly_sorted(self.entries()),
    {
        let e = self.entries();
        assert forall|i: int, j: int| 0 <= i < j < e.len() implies (#[trigger] e[i]).0.ordinal() < (
        #[trigger] e[j]).0.ordinal() by {
            assert(key_at(self.nodes@, self.order@, i + 1).ordinal() < key_at(
                self.nodes@,
                self.order@,
                j + 1,
            ).ordinal());
        }
    }

    /// Order law: in a sound list the entries are sorted by key, strictly,
    /// the map that the list stands for is the map of those entries, and
    /// the counter counts them.
    pub proof fn law_order(&self)
        requires
            self.wf(),
        ensures
            strictly_sorted(self.entries()),
            self@ == as_map(self.entries()),
            self@.dom().finite(),
            self@.len() == self.entries().len(),
            forall|i: int|
                0 <= i < self.entries().len() ==> self@.contains_key((#[trigger] self.entries()[i]).0)
                    && self@[self.entries()[i].0] == self.entries()[i].1,
    {
        self.lemma_sorted();
        let e = self.entries();
        assert forall|i: int| 0 <= i < e.len() implies self@.contains_key((#[trigger] e[i]).0) && self@[e[i].0]
            == e[i].1 by {
            lemma_map_at(e, i);
        }
        lemma_map_len(e);
    }

    /// Height law: no entry reaches above the top level, the top level
    /// is within the list's levels, and above level 1 some entry reaches
    /// it exactly.
    pub proof fn law_top_level(&self)
        requires
            self.wf(),
        ensures
            1 <= self.top_level() <= self.level_limit(),
            self.height_of(self.node_at(0)) == self.level_limit(),
            forall|i: int|
                1 <= i <= self.entries().len() ==> 1 <= self.height_of(#[trigger] self.node_at(i))
                    <= self.top_level(),
            self.top_level() > 1 ==> exists|i: int|
                1 <= i <= self.entries().len() && self.height_of(#[trigger] self.node_at(i))
                    == self.top_level(),
    {
        assert forall|i: int| 1 <= i <= self.entries().len() implies 1 <= self.height_of(
            #[trigger] self.node_at(i),
        ) <= self.top_level() by {
            assert(self.nodes@[self.order@[i] as int].key.is_some());
        }
        let top = self.top_level();
        if top > 1 {
            assert(link_ok(self.nodes@, self.order@, 0, top - 1));
            let s = self.nodes@[HEAD as int].spans@[top - 1] as int;
            assert(tall(self.nodes@, self.order@, s) > top - 1);
            assert(self.nodes@[self.order@[s] as int].key.is_some());
            assert(self.height_of(self.node_at(s)) == top);
        }
    }

    /// Span law: the span of a link is the number of entries from its
    /// source to its target, the target included, and the link passes
    /// over exactly the nodes too short for its level. A link that leads
    /// nowhere spans the entries that are left, and every base-level link
    /// between two nodes has span 1.
    pub proof fn law_spans(&self, handle: usize, l: int)
        requires
            self.wf(),
            self.on_path(handle),
            0 <= l < self.height_of(handle),
        ensures
            match self.forward_of(handle, l) {
                Some(t) => {
                    &&& self.on_path(t)
                    &&& self.height_of(t) > l
                    &&& self.span_of(handle, l) >= 1
                    &&& self.span_of(handle, l) == self.position(t) - self.position(handle)
                    &&& l == 0 ==> self.span_of(handle, l) == 1
                    &&& forall|m: int|
                        self.position(handle) < m < self.position(t) ==> self.height_of(
                            #[trigger] self.node_at(m),
                        ) <= l
                },
                None => {
                    &&& self.span_of(handle, l) == self.entries().len() - self.position(handle)
                    &&& l == 0 ==> self.span_of(handle, l) == 0
                    &&& forall|m: int|
                        self.position(handle) < m <= self.entries().len() ==> self.height_of(
                            #[trigger] self.node_at(m),
                        ) <= l
                },
            },
    {
        self.lemma_on_path(handle);
        let q = self.position(handle);
        let s = self.span_of(handle, l);
        assert(link_ok(self.nodes@, self.order@, q, l));
        match self.forward_of(handle, l) {
            Some(t) => {
                self.lemma_position(q + s);
                assert forall|m: int| q < m < q + s implies self.height_of(#[trigger] self.node_at(m)) <= l by {
                    assert(tall(self.nodes@, self.order@, m) <= l);
                }
            },
            None => {
                assert forall|m: int| q < m <= self.n implies self.height_of(#[trigger] self.node_at(m))
                    <= l by {
                    assert(tall(self.nodes@, self.order@, m) <= l);
                }
            },
        }
        if l == 0 {
            lemma_pred_span(
                self.nodes@,
                self.order@,
                self.max_level as int,
                self.current_max_level as int,
                q,
                q + 1,
                0,
            );
        }
    }

    /// An empty list that can reach `max_level` levels and draws its
    /// heights from `level_gen`. A `max_level` of zero counts as one.
    pub fn new(max_level: usize, level_gen: G) -> (list: Self)
        ensures
            list.wf(),
            list.entries() == Seq::<(K, V)>::empty(),
            list@ == Map::<K, V>::empty(),
            list.level_limit() == (if max_level == 0 {
                1
            } else {
                max_level as int
            }),
            list.top_level() == 1,
            list.size_hint() == 0,
    {
        let cap: usize = if max_level == 0 { 1 } else { max_level };
        let head: Node<K, V> = Node::head(cap);
        let mut tail: Node<K, V> = Node::head(cap);
        tail.back = Some(HEAD);
        let mut nodes: Vec<Node<K, V>> = Vec::new();
        nodes.push(head);
        nodes.push(tail);
        let ghost path: Seq<usize> = Seq::empty().push(HEAD);
        let order: Ghost<Seq<usize>> = Ghost(path);
        let list = SkipList {
            nodes,
            free: Vec::new(),
            current_max_level: 1,
            max_level: cap,
            min: None,
            max: None,
            n: 0,
            max_size: 0,
            level_gen,
            order,
        };
        proof {
            assert(list.entries() =~= Seq::<(K, V)>::empty());
            assert(list@ =~= Map::<K, V>::empty());
        }
        list
    }

    /// The number of entries.
    pub fn num_elements(&self) -> (n: usize)
        requires
            self.wf(),
        ensures
            n == self.entries().len(),
    {
        self.n
    }

    /// Whether the list holds no entry.
    pub fn is_empty(&self) -> (b: bool)
        requires
            self.wf(),
        ensures
            b == (self.entries().len() == 0),
    {
        self.n == 0
    }

    /// The smallest key, if there is an entry.
    pub fn get_min(&self) -> (k: Option<K>)
        requires
            self.wf(),
        ensures
            k == (if self.entries().len() == 0 {
                None
            } else {
                Some(self.entries().first().0)
            }),
    {
        self.min
    }

    /// The largest key, if there is an entry.
    pub fn get_max(&self) -> (k: Option<K>)
        requires
            self.wf(),
        ensures
            k == (if self.entries().len() == 0 {
                None
            } else {
                Some(self.entries().last().0)
            }),
    {
        self.max
    }

    /// The number of levels the list can reach.
    pub fn max_level(&self) -> (l: usize)
        requires
            self.wf(),
        ensures
            l == self.level_limit(),
            l >= 1,
    {
        self.max_level
    }

    /// The highest level that an entry reaches; 1 in an empty list.
    pub fn current_max_level(&self) -> (l: usize)
        requires
            self.wf(),
        ensures
            l == self.top_level(),
            1 <= l <= self.level_limit(),
    {
        self.current_max_level
    }

    /// The advisory size that the engine has set.
    pub fn max_size(&self) -> (s: usize)
        ensures
            s == self.size_hint(),
    {
        self.max_size
    }

    /// Records the engine's advisory size. The entries are untouched.
    pub fn set_size(&mut self, size: usize)
        requires
            old(self).wf(),
        ensures
            final(self).wf(),
            final(self).size_hint() == size,
            final(self).entries() == old(self).entries(),
            final(self)@ == old(self)@,
            final(self).level_limit() == old(self).level_limit(),
            final(self).top_level() == old(self).top_level(),
            final(self).handles() == old(self).handles(),
    {
        self.max_size = size;
    }

    /// Walks down from the top level to the last node before the place of
    /// `key`, and returns that node with its position.
    fn seek(&self, key: &K) -> (r: (usize, usize))
        requires
            self.wf(),
        ensures
            r.1 <= self.n,
            self.order@[r.1 as int] == r.0,
            key_after(self.nodes@, self.order@, r.1 as int, *key),
            key_not_after(self.nodes@, self.order@, r.1 + 1, *key),
    {
        let mut x: usize = HEAD;
        let mut c: usize = 0;
        let mut lvl: usize = self.current_max_level;
        let ghost mut b: int = self.n + 1;
        while lvl > 0
            invariant
                self.wf(),
                lvl <= self.current_max_level,
                c <= self.n,
                c < b <= self.n + 1,
                self.order@[c as int] == x,
                tall(self.nodes@, self.order@, c as int) >= lvl,
                key_after(self.nodes@, self.order@, c as int, *key),
                key_not_after(self.nodes@, self.order@, b, *key),
                b <= self.n ==> tall(self.nodes@, self.order@, b) >= lvl,
                lvl == 0 ==> b == c + 1,
            decreases lvl,
        {
            lvl -= 1;
            loop
                invariant
                    self.wf(),
                    lvl < self.current_max_level,
                    c <= self.n,
                    c < b <= self.n + 1,
                    self.order@[c as int] == x,
                    tall(self.nodes@, self.order@, c as int) > lvl,
                    key_after(self.nodes@, self.order@, c as int, *key),
                    key_not_after(self.nodes@, self.order@, b, *key),
                    b <= self.n ==> tall(self.nodes@, self.order@, b) > lvl,
                ensures
                    lvl == 0 ==> b == c + 1,
                decreases self.n - c,
            {
                assert(link_ok(self.nodes@, self.order@, c as int, lvl as int));
                match self.nodes[x].forwards[lvl] {
                    None => {
                        proof {
                            if lvl == 0 && c < self.n {
                                assert(tall(self.nodes@, self.order@, c + 1) <= 0);
                            }
                        }
                        break ;
                    },
                    Some(t) => {
                        let s: usize = self.nodes[x].spans[lvl];
                        let tk: K = self.nodes[t].key.unwrap();
                        if tk.is_below(key) {
                            c = c + s;
                            x = t;
                        } else {
                            proof {
                                if lvl == 0 && s > 1 {
                                    assert(tall(self.nodes@, self.order@, c + 1) <= 0);
                                }
                                b = c + s;
                            }
                            break ;
                        }
                    },
                }
            }
        }
        (x, c)
    }

    /// The entry that follows position `c`, if it holds `key`: its slot.
    fn probe(&self, u: usize, key: &K, Ghost(c): Ghost<int>) -> (hit: Option<usize>)
        requires
            self.wf(),
            0 <= c <= self.n,
            self.order@[c] == u,
            key_after(self.nodes@, self.order@, c, *key),
            key_not_after(self.nodes@, self.order@, c + 1, *key),
        ensures
            count_below(self.entries(), *key) == c,
            match hit {
                Some(t) => c < self.n && self.order@[c + 1] == t && self.entries()[c].0 == *key,
                None => c < self.n ==> key.ordinal() < key_at(self.nodes@, self.order@, c + 1).ordinal(),
            },
            hit.is_some() == holds_key(self.entries(), *key),
            hit.is_some() == self@.contains_key(*key),
            hit.is_some() ==> self@[*key] == self.entries()[c].1,
    {
        proof {
            self.lemma_sorted();
            let e = self.entries();
            if c > 0 {
                assert(e[c - 1].0 == key_at(self.nodes@, self.order@, c));
            }
            if c < self.n {
                assert(e[c].0 == key_at(self.nodes@, self.order@, c + 1));
            }
            lemma_count_below(e, *key, c);
            if c > 0 {
                assert(2 <= self.order@[c] < self.nodes@.len());
                assert(self.nodes@[self.order@[c] as int].key.is_some());
            }
            lemma_pred_span(
                self.nodes@,
                self.order@,
                self.max_level as int,
                self.current_max_level as int,
                c,
                c + 1,
                0,
            );
        }
        match self.nodes[u].forwards[0] {
            Some(t) => {
                let tk: K = self.nodes[t].key.unwrap();
                if key.is_below(&tk) {
                    proof {
                        lemma_absent(self.entries(), *key, c);
                    }
                    None
                } else {
                    proof {
                        K::ordinal_is_injective(tk, *key);
                        lemma_map_at(self.entries(), c);
                    }
                    Some(t)
                }
            },
            None => {
                proof {
                    lemma_absent(self.entries(), *key, c);
                }
                None
            },
        }
    }

    /// The node that holds `key`, or, where no node does, the last node
    /// before the place of `key`: the entry with the largest key below it,
    /// or the head.
    pub fn find_key(&self, key: &K) -> (h: usize)
        requires
            self.wf(),
        ensures
            self.on_path(h),
            self.position(h) == count_below(self.entries(), *key) + (if self@.contains_key(*key) {
                1int
            } else {
                0int
            }),
            1 <= self.height_of(h) <= self.level_limit(),
    {
        let (u, c) = self.seek(key);
        match self.probe(u, key, Ghost(c as int)) {
            Some(t) => {
                proof {
                    self.lemma_position(c + 1);
                    self.lemma_on_path(t);
                }
                t
            },
            None => {
                proof {
                    self.lemma_position(c as int);
                    self.lemma_on_path(u);
                }
                u
            },
        }
    }

    /// The value bound to `key`, if there is one.
    pub fn lookup(&self, key: &K) -> (r: Option<&V>)
        requires
            self.wf(),
        ensures
            r.is_some() == self@.contains_key(*key),
            r.is_some() ==> *r.unwrap() == self@[*key],
    {
        let (u, c) = self.seek(key);
        match self.probe(u, key, Ghost(c as int)) {
            Some(t) => {
                assert(2 <= self.order@[c + 1] < self.nodes@.len());
                assert(self.nodes@[self.order@[c + 1] as int].value.is_some());
                self.nodes[t].value.as_ref()
            },
            None => None,
        }
    }

    /// Whether the list holds `key`.
    pub fn contains_key(&self, key: &K) -> (b: bool)
        requires
            self.wf(),
        ensures
            b == self@.contains_key(*key),
    {
        let (u, c) = self.seek(key);
        self.probe(u, key, Ghost(c as int)).is_some()
    }

    /// Whether the list holds `key`.
    pub fn elt_in(&self, key: K) -> (b: bool)
        requires
            self.wf(),
        ensures
            b == self@.contains_key(key),
    {
        self.contains_key(&key)
    }

    /// Whether `handle` names the head or an entry of the list. A handle
    /// stops naming a node when its entry is deleted.
    pub fn is_node(&self, handle: usize) -> (b: bool)
        requires
            self.wf(),
        ensures
            b == self.on_path(handle),
    {
        proof {
            if self.on_path(handle) {
                let q = self.position(handle);
                assert(names(self.order@, q, handle));
                if q > 0 {
                    assert(2 <= self.order@[q] < self.nodes@.len());
                    assert(self.nodes@[self.order@[q] as int].key.is_some());
                }
            }
            assert(names(self.order@, 0, HEAD));
        }
        if handle >= self.nodes.len() {
            false
        } else if handle == HEAD {
            true
        } else {
            self.nodes[handle].key.is_some()
        }
    }

    /// The head sentinel, which sits at position 0.
    pub fn head(&self) -> (h: usize)
        requires
            self.wf(),
        ensures
            h == self.node_at(0),
            self.on_path(h),
            self.position(h) == 0,
            self.height_of(h) == self.level_limit(),
    {
        proof {
            self.lemma_position(0);
        }
        HEAD
    }

    /// The last node of the base chain: the entry with the largest key, or
    /// the head of an empty list.
    pub fn get_last(&self) -> (h: usize)
        requires
            self.wf(),
        ensures
            h == self.node_at(self.entries().len() as int),
            self.on_path(h),
            self.position(h) == self.entries().len(),
            1 <= self.height_of(h) <= self.level_limit(),
    {
        proof {
            self.lemma_position(self.n as int);
            self.lemma_on_path(self.order@[self.n as int]);
        }
        self.nodes[TAIL].back.unwrap()
    }

    /// The entry that the node `handle` holds; the head holds none.
    pub fn entry(&self, handle: usize) -> (e: Option<KVpair<K, &V>>)
        requires
            self.wf(),
        ensures
            match e {
                Some(pair) => self.on_path(handle) && self.position(handle) >= 1 && (pair.key, *pair.value)
                    == self.entries()[self.position(handle) - 1],
                None => !self.on_path(handle) || self.position(handle) == 0,
            },
    {
        if !self.is_node(handle) {
            return None;
        }
        proof {
            self.lemma_on_path(handle);
            let q = self.position(handle);
            if q > 0 {
                assert(self.nodes@[self.order@[q] as int].key.is_some());
            }
        }
        match (&self.nodes[handle].key, &self.nodes[handle].value) {
            (Some(k), Some(v)) => Some(KVpair { key: *k, value: v }),
            _ => None,
        }
    }

    /// The node after `handle` on the base chain, if there is one.
    pub fn successor(&self, handle: usize) -> (next: Option<usize>)
        requires
            self.wf(),
        ensures
            match next {
                Some(t) => self.on_path(handle) && self.position(handle) < self.entries().len() && t
                    == self.node_at(self.position(handle) + 1) && self.on_path(t) && self.position(t)
                    == self.position(handle) + 1,
                None => !self.on_path(handle) || self.position(handle) == self.entries().len(),
            },
    {
        if !self.is_node(handle) {
            return None;
        }
        proof {
            self.lemma_on_path(handle);
            let q = self.position(handle);
            lemma_pred_span(
                self.nodes@,
                self.order@,
                self.max_level as int,
                self.current_max_level as int,
                q,
                q + 1,
                0,
            );
            if q < self.n {
                self.lemma_position(q + 1);
            }
        }
        self.nodes[handle].forwards[0]
    }

    /// The number of levels that the node `handle` takes part in; 0 where
    /// `handle` names no node.
    pub fn height(&self, handle: usize) -> (h: usize)
        requires
            self.wf(),
        ensures
            h == (if self.on_path(handle) {
                self.height_of(handle)
            } else {
                0
            }),
            self.on_path(handle) ==> 1 <= h <= self.level_limit(),
            self.on_path(handle) && self.position(handle) >= 1 ==> h <= self.top_level(),
            self.on_path(handle) && self.position(handle) == 0 ==> h == self.level_limit(),
    {
        if !self.is_node(handle) {
            return 0;
        }
        proof {
            self.lemma_on_path(handle);
            let q = self.position(handle);
            if q > 0 {
                assert(self.nodes@[self.order@[q] as int].key.is_some());
            }
        }
        self.nodes[handle].height
    }

    /// The number of entries after `start` up to and including `end`,
    /// summed from the spans of the level-`lvl` links between them; with
    /// no `end`, the number of entries after `start`. Fails where the
    /// walk does not come to `end`.
    pub fn link_length(&self, start: usize, end: Option<usize>, lvl: usize) -> (r: Result<usize, bool>)
        requires
            self.wf(),
        ensures
            match r {
                Ok(d) => self.connected(start, end, lvl) && d == self.distance(start, end),
                Err(flag) => !self.connected(start, end, lvl) && !flag,
            },
    {
        if !self.is_node(start) {
            return Err(false);
        }
        proof {
            self.lemma_on_path(start);
        }
        if lvl >= self.nodes[start].height {
            return Err(false);
        }
        let ghost a = self.position(start);
        let ghost target: int = match end {
            Some(e) => if self.connected(start, end, lvl) {
                self.position(e)
            } else {
                -1
            },
            None => -1,
        };
        proof {
            if target >= 0 {
                self.lemma_on_path(end.unwrap());
            }
        }
        let mut node: usize = start;
        let mut length: usize = 0;
        let ghost mut c: int = a;
        loop
            invariant
                self.wf(),
                0 <= a <= c <= self.n,
                a == self.position(start),
                self.on_path(start),
                lvl < self.height_of(start),
                self.order@[c] == node,
                tall(self.nodes@, self.order@, c) > lvl,
                length == c - a,
                target >= 0 ==> end.is_some() && self.connected(start, end, lvl) && target
                    == self.position(end.unwrap()) && self.order@[target] == end.unwrap() && c <= target
                    <= self.n,
                target < 0 ==> end.is_none() || !self.connected(start, end, lvl),
            decreases self.n - c,
        {
            let at_end: bool = match end {
                Some(e) => e == node,
                None => false,
            };
            if at_end {
                proof {
                    self.lemma_position(c);
                }
                return Ok(length);
            }
            proof {
                assert(link_ok(self.nodes@, self.order@, c, lvl as int));
                if c > 0 {
                    assert(2 <= self.order@[c] < self.nodes@.len());
                }
            }
            let s: usize = self.nodes[node].spans[lvl];
            match self.nodes[node].forwards[lvl] {
                Some(t) => {
                    proof {
                        if target >= 0 && target < c + s {
                            assert(tall(self.nodes@, self.order@, target) <= lvl);
                        }
                        c = c + s;
                    }
                    length = length + s;
                    node = t;
                },
                None => {
                    proof {
                        if target >= 0 {
                            assert(tall(self.nodes@, self.order@, target) <= lvl);
                        }
                    }
                    return match end {
                        Some(e) => Err(false),
                        None => Ok(length + s),
                    };
                },
            }
        }
    }

    /// All entries, in key order.
    pub fn get_all(&self) -> (out: Vec<KVpair<K, &V>>)
        requires
            self.wf(),
        ensures
            pairs(out@) == self.entries(),
    {
        let mut out: Vec<KVpair<K, &V>> = Vec::new();
        let mut x: usize = HEAD;
        let mut c: usize = 0;
        loop
            invariant
                self.wf(),
                c <= self.n,
                self.order@[c as int] == x,
                out@.len() == c,
                pairs(out@) == self.entries().subrange(0, c as int),
            ensures
                c == self.n,
            decreases self.n - c,
        {
            proof {
                if c > 0 {
                    assert(self.nodes@[self.order@[c as int] as int].key.is_some());
                }
                lemma_pred_span(
                    self.nodes@,
                    self.order@,
                    self.max_level as int,
                    self.current_max_level as int,
                    c as int,
                    c + 1,
                    0,
                );
            }
            match self.nodes[x].forwards[0] {
                None => {
                    break ;
                },
                Some(t) => {
                    assert(2 <= self.order@[c + 1] < self.nodes@.len());
                    assert(self.nodes@[self.order@[c + 1] as int].key.is_some());
                    assert(self.nodes@[self.order@[c + 1] as int].value.is_some());
                    let ghost before = out@;
                    match (&self.nodes[t].key, &self.nodes[t].value) {
                        (Some(k), Some(v)) => {
                            out.push(KVpair { key: *k, value: v });
                        },
                        _ => {},
                    }
                    proof {
                        let e = self.entries();
                        assert(pairs(out@) =~= e.subrange(0, c + 1)) by {
                            assert forall|i: int| 0 <= i < c + 1 implies pairs(out@)[i] == e.subrange(
                                0,
                                c + 1,
                            )[i] by {
                                if i < c {
                                    assert(out@[i] == before[i]);
                                    assert(pairs(before)[i] == e.subrange(0, c as int)[i]);
                                }
                            }
                        }
                    }
                    x = t;
                    c = c + 1;
                },
            }
        }
        proof {
            assert(self.entries().subrange(0, c as int) =~= self.entries());
        }
        out
    }

    /// The last node before the entries at or above `lo`, with its
    /// position.
    fn lower_edge(&self, lo: Bound<K>) -> (r: (usize, usize))
        requires
            self.wf(),
        ensures
            r.1 <= self.n,
            self.order@[r.1 as int] == r.0,
            forall|i: int|
                0 <= i < self.entries().len() ==> (above((#[trigger] self.entries()[i]).0, lo) <==> i
                    >= r.1),
    {
        proof {
            self.lemma_sorted();
        }
        let ghost e = self.entries();
        match lo {
            Bound::Unbounded => (HEAD, 0),
            Bound::Included(k) => {
                let (u, c) = self.seek(&k);
                proof {
                    assert forall|i: int| 0 <= i < e.len() implies (above((#[trigger] e[i]).0, lo) <==> i
                        >= c) by {
                        if c > 0 {
                            assert(e[c - 1].0 == key_at(self.nodes@, self.order@, c as int));
                        }
                        if c < self.n {
                            assert(e[c as int].0 == key_at(self.nodes@, self.order@, c + 1));
                        }
                        if i < c - 1 {
                            assert(e[i].0.ordinal() < e[c - 1].0.ordinal());
                        }
                        if i > c {
                            assert(e[c as int].0.ordinal() < e[i].0.ordinal());
                        }
                    }
                }
                (u, c)
            },
            Bound::Excluded(k) => {
                let (u, c) = self.seek(&k);
                let hit: Option<usize> = self.probe(u, &k, Ghost(c as int));
                let (x, d) = match hit {
                    Some(t) => (t, c + 1),
                    None => (u, c),
                };
                proof {
                    assert forall|i: int| 0 <= i < e.len() implies (above((#[trigger] e[i]).0, lo) <==> i
                        >= d) by {
                        if c > 0 {
                            assert(e[c - 1].0 == key_at(self.nodes@, self.order@, c as int));
                        }
                        if c < self.n {
                            assert(e[c as int].0 == key_at(self.nodes@, self.order@, c + 1));
                        }
                        if i < c - 1 {
                            assert(e[i].0.ordinal() < e[c - 1].0.ordinal());
                        }
                        if i > c {
                            assert(e[c as int].0.ordinal() < e[i].0.ordinal());
                        }
                    }
                }
                (x, d)
            },
        }
    }

    /// The last node at or below `hi`, with its position.
    fn upper_edge(&self, hi: Bound<K>) -> (r: (usize, usize))
        requires
            self.wf(),
        ensures
            r.1 <= self.n,
            self.order@[r.1 as int] == r.0,
            forall|i: int|
                0 <= i < self.entries().len() ==> (below((#[trigger] self.entries()[i]).0, hi) <==> i
                    < r.1),
    {
        proof {
            self.lemma_sorted();
        }
        let ghost e = self.entries();
        match hi {
            Bound::Unbounded => (self.nodes[TAIL].back.unwrap(), self.n),
            Bound::Included(k) => {
                let (u, c) = self.seek(&k);
                let hit: Option<usize> = self.probe(u, &k, Ghost(c as int));
                let (x, d) = match hit {
                    Some(t) => (t, c + 1),
                    None => (u, c),
                };
                proof {
                    assert forall|i: int| 0 <= i < e.len() implies (below((#[trigger] e[i]).0, hi) <==> i
                        < d) by {
                        if c > 0 {
                            assert(e[c - 1].0 == key_at(self.nodes@, self.order@, c as int));
                        }
                        if c < self.n {
                            assert(e[c as int].0 == key_at(self.nodes@, self.order@, c + 1));
                        }
                        if i < c - 1 {
                            assert(e[i].0.ordinal() < e[c - 1].0.ordinal());
                        }
                        if i > c {
                            assert(e[c as int].0.ordinal() < e[i].0.ordinal());
                        }
                    }
                }
                (x, d)
            },
            Bound::Excluded(k) => {
                let (u, c) = self.seek(&k);
                let hit: Option<usize> = self.probe(u, &k, Ghost(c as int));
                // An entry that holds the excluded key is stepped back from.
                let x: usize = match hit {
                    Some(t) => {
                        assert(2 <= self.order@[c + 1] < self.nodes@.len());
                        assert(self.nodes@[self.order@[c + 1] as int].back == Some(self.order@[c as int]));
                        self.nodes[t].back.unwrap()
                    },
                    None => u,
                };
                proof {
                    assert forall|i: int| 0 <= i < e.len() implies (below((#[trigger] e[i]).0, hi) <==> i
                        < c) by {
                        if c > 0 {
                            assert(e[c - 1].0 == key_at(self.nodes@, self.order@, c as int));
                        }
                        if c < self.n {
                            assert(e[c as int].0 == key_at(self.nodes@, self.order@, c + 1));
                        }
                        if i < c - 1 {
                            assert(e[i].0.ordinal() < e[c - 1].0.ordinal());
                        }
                        if i > c {
                            assert(e[c as int].0.ordinal() < e[i].0.ordinal());
                        }
                    }
                }
                (x, c)
            },
        }
    }

    /// A cursor over the entries whose keys lie between `min` and `max`,
    /// in key order. Its length is the span distance between the two ends
    /// of the range; a range whose ends do not connect is empty.
    pub fn range(&self, min: Bound<K>, max: Bound<K>) -> (it: Iter<'_, K, V, G>)
        requires
            self.wf(),
        ensures
            it.wf(),
            it.source() == *self,
            it.remaining() == select(self.entries(), min, max),
    {
        let (start, sp) = self.lower_edge(min);
        let (end, ep) = self.upper_edge(max);
        proof {
            self.lemma_position(sp as int);
            self.lemma_position(ep as int);
            self.lemma_on_path(start);
            self.lemma_on_path(end);
            lemma_select_is_stretch(self.entries(), min, max, sp as int, ep as int);
        }
        let hs: usize = self.nodes[start].height;
        let he: usize = self.nodes[end].height;
        let lvl: usize = if hs < he {
            hs - 1
        } else {
            he - 1
        };
        match self.link_length(start, Some(end), lvl) {
            Ok(size) => {
                let it = Iter::begin(self, start, size);
                proof {
                    assert(it.remaining() =~= self.entries().subrange(sp as int, ep as int));
                }
                it
            },
            Err(_) => {
                let it = Iter::begin(self, start, 0);
                proof {
                    assert(it.remaining() =~= Seq::<(K, V)>::empty());
                }
                it
            },
        }
    }

    /// The entries whose keys lie between `key1` and `key2`, both
    /// included, in key order.
    pub fn get_all_in_range(&self, key1: K, key2: K) -> (out: Vec<KVpair<K, &V>>)
        requires
            self.wf(),
        ensures
            pairs(out@) == select(self.entries(), Bound::Included(key1), Bound::Included(key2)),
    {
        self.range(Bound::Included(key1), Bound::Included(key2)).collect()
    }

    /// Finds, level by level, the last node before the place of `key`, and
    /// that node's position.
    fn locate(&self, key: &K) -> (r: (Vec<usize>, Vec<usize>))
        requires
            self.wf(),
        ensures
            located(self.nodes@, self.order@, self.max_level as int, *key, r.0@, r.1@),
            r.1@[0] <= self.n,
    {
        let mut update: Vec<usize> = Vec::new();
        let mut ranks: Vec<usize> = Vec::new();
        let mut l: usize = 0;
        while l < self.max_level
            invariant
                l <= self.max_level,
                update@.len() == l,
                ranks@.len() == l,
                forall|j: int| 0 <= j < l ==> update@[j] == HEAD && ranks@[j] == 0,
            decreases self.max_level - l,
        {
            update.push(HEAD);
            ranks.push(0);
            l += 1;
        }
        let mut x: usize = HEAD;
        let mut c: usize = 0;
        let mut lvl: usize = self.current_max_level;
        let ghost mut b: int = self.n + 1;
        proof {
            assert forall|j: int| lvl <= j < self.max_level implies #[trigger] pred_ok(
                self.nodes@,
                self.order@,
                update@,
                ranks@,
                j,
                b,
            ) by {}
        }
        while lvl > 0
            invariant
                self.wf(),
                lvl <= self.current_max_level,
                update@.len() == self.max_level,
                ranks@.len() == self.max_level,
                c <= self.n,
                c < b <= self.n + 1,
                self.order@[c as int] == x,
                tall(self.nodes@, self.order@, c as int) >= lvl,
                key_after(self.nodes@, self.order@, c as int, *key),
                key_not_after(self.nodes@, self.order@, b, *key),
                b <= self.n ==> tall(self.nodes@, self.order@, b) >= lvl,
                lvl == 0 ==> b == c + 1 && ranks@[0] == c,
                forall|j: int|
                    lvl <= j < self.max_level ==> #[trigger] pred_ok(
                        self.nodes@,
                        self.order@,
                        update@,
                        ranks@,
                        j,
                        b,
                    ),
                forall|j: int| lvl <= j < self.max_level ==> #[trigger] ranks@[j] <= c,
            decreases lvl,
        {
            lvl -= 1;
            let ghost b0 = b;
            loop
                invariant_except_break
                    b == b0,
                invariant
                    self.wf(),
                    lvl < self.current_max_level,
                    update@.len() == self.max_level,
                    ranks@.len() == self.max_level,
                    c <= self.n,
                    c < b <= self.n + 1,
                    self.order@[c as int] == x,
                    tall(self.nodes@, self.order@, c as int) > lvl,
                    key_after(self.nodes@, self.order@, c as int, *key),
                    key_not_after(self.nodes@, self.order@, b, *key),
                    b <= self.n ==> tall(self.nodes@, self.order@, b) > lvl,
                    forall|j: int|
                        lvl < j < self.max_level ==> #[trigger] pred_ok(
                            self.nodes@,
                            self.order@,
                            update@,
                            ranks@,
                            j,
                            b0,
                        ),
                    forall|j: int| lvl < j < self.max_level ==> #[trigger] ranks@[j] <= c,
                ensures
                    b <= b0,
                    lvl == 0 ==> b == c + 1,
                    forall|m: int| c < m < b ==> #[trigger] tall(self.nodes@, self.order@, m) <= lvl,
                decreases self.n - c,
            {
                assert(link_ok(self.nodes@, self.order@, c as int, lvl as int));
                match self.nodes[x].forwards[lvl] {
                    None => {
                        proof {
                            if lvl == 0 && c < self.n {
                                assert(tall(self.nodes@, self.order@, c + 1) <= 0);
                            }
                        }
                        break ;
                    },
                    Some(t) => {
                        let s: usize = self.nodes[x].spans[lvl];
                        let tk: K = self.nodes[t].key.unwrap();
                        if tk.is_below(key) {
                            c = c + s;
                            x = t;
                        } else {
                            proof {
                                if lvl == 0 && s > 1 {
                                    assert(tall(self.nodes@, self.order@, c + 1) <= 0);
                                }
                                b = c + s;
                            }
                            break ;
                        }
                    },
                }
            }
            let ghost update0 = update@;
            let ghost ranks0 = ranks@;
            update.set(lvl, x);
            ranks.set(lvl, c);
            proof {
                assert forall|j: int| lvl <= j < self.max_level implies #[trigger] pred_ok(
                    self.nodes@,
                    self.order@,
                    update@,
                    ranks@,
                    j,
                    b,
                ) by {
                    if j > lvl {
                        assert(pred_ok(self.nodes@, self.order@, update0, ranks0, j, b0));
                        assert(ranks0[j] <= c);
                    }
                }
                assert forall|j: int| lvl <= j < self.max_level implies #[trigger] ranks@[j] <= c by {
                    if j > lvl {
                        assert(ranks0[j] <= c);
                    }
                }
            }
        }
        (update, ranks)
    }

    /// Draws the height of the next node from the generator and brings it
    /// into the range of the list's levels. Nothing else changes.
    fn draw_height(&mut self) -> (h: usize)
        requires
            old(self).wf(),
        ensures
            final(self).wf(),
            1 <= h <= old(self).max_level,
            final(self).nodes == old(self).nodes,
            final(self).free == old(self).free,
            final(self).order == old(self).order,
            final(self).n == old(self).n,
            final(self).current_max_level == old(self).current_max_level,
            final(self).max_level == old(self).max_level,
            final(self).min == old(self).min,
            final(self).max == old(self).max,
            final(self).max_size == old(self).max_size,
    {
        let drawn: usize = self.level_gen.random();
        clamp_height(drawn, self.max_level)
    }

    /// Takes a slot off the path, fills it with a fresh node for `key` and
    /// `value`, and returns its index.
    fn take_slot(&mut self, key: K, value: V, h: usize, back: usize) -> (x: usize)
        requires
            old(self).wf(),
        ensures
            refilled(old(self).nodes@, final(self).nodes@, x as int),
            slots_ok(final(self).nodes@, old(self).max_level as int),
            off_path(old(self).order@, x),
            spare_ok(final(self).free@, old(self).order@, final(self).nodes@.len() as int),
            forall|f: int| 0 <= f < final(self).free@.len() ==> #[trigger] final(self).free@[f] != x,
            old(self).n + final(self).free@.len() + 3 == final(self).nodes@.len(),
            final(self).nodes@.len() <= old(self).nodes@.len() + 1,
            final(self).nodes@.len() == old(self).nodes@.len() + 1 ==> x == old(self).nodes@.len(),
            final(self).nodes@[x as int].key == Some(key),
            final(self).nodes@[x as int].value == Some(value),
            final(self).nodes@[x as int].height == h,
            final(self).nodes@[x as int].back == Some(back),
            final(self).order == old(self).order,
            final(self).n == old(self).n,
            final(self).current_max_level == old(self).current_max_level,
            final(self).max_level == old(self).max_level,
            final(self).min == old(self).min,
            final(self).max == old(self).max,
            final(self).max_size == old(self).max_size,
    {
        let mut node: Node<K, V> = Node::new(key, value, h, self.max_level);
        node.back = Some(back);
        match self.free.pop() {
            Some(x) => {
                proof {
                    let f = old(self).free@.len() - 1;
                    assert(old(self).free@[f] == x);
                    assert forall|m: int| 0 <= m < self.order@.len() implies #[trigger] self.order@[m]
                        != x by {
                        assert(old(self).free@[f] != old(self).order@[m]);
                    }
                }
                self.nodes[x] = node;
                x
            },
            None => {
                let x: usize = self.nodes.len();
                self.nodes.push(node);
                x
            },
        }
    }

    /// Replaces the value of the entry at position `p`, held in slot `t`.
    fn overwrite(&mut self, t: usize, value: V, Ghost(p): Ghost<int>)
        requires
            old(self).wf(),
            1 <= p <= old(self).n,
            old(self).order@[p] == t,
        ensures
            final(self).wf(),
            final(self).entries() == old(self).entries().update(
                p - 1,
                (old(self).entries()[p - 1].0, value),
            ),
            final(self).max_level == old(self).max_level,
            final(self).current_max_level == old(self).current_max_level,
            final(self).max_size == old(self).max_size,
            final(self).order@ == old(self).order@,
            forall|y: int|
                0 <= y < old(self).nodes@.len() ==> (#[trigger] final(self).nodes@[y]).height == old(
                    self,
                ).nodes@[y].height,
    {
        let ghost a = self.nodes@;
        let ghost path = self.order@;
        assert(2 <= path[p] < a.len());
        self.nodes[t].value = Some(value);
        proof {
            let b = self.nodes@;
            let cap = self.max_level as int;
            let top = self.current_max_level as int;
            assert(b.len() == a.len());
            assert forall|y: int| 0 <= y < a.len() implies (#[trigger] b[y]).forwards == a[y].forwards
                && b[y].spans == a[y].spans && b[y].key == a[y].key && b[y].height == a[y].height
                && b[y].back == a[y].back by {
                if y != t {
                    assert(b[y] == a[y]);
                }
            }
            assert(same_but_level(a, b, -1));
            assert forall|k: int| 0 <= k < cap implies #[trigger] level_ok(b, path, k) by {
                assert(level_ok(a, path, k)) by {
                    assert forall|i: int| 0 <= i < path.len() && tall(a, path, i) > k implies #[trigger] link_ok(
                        a,
                        path,
                        i,
                        k,
                    ) by {}
                }
                assert(in_arena(path, a.len() as int)) by {
                    assert forall|m: int| 0 <= m < path.len() implies 0 <= #[trigger] path[m] < a.len() by {
                        if m > 0 {
                            assert(2 <= path[m] < a.len());
                        }
                    }
                }
                lemma_other_level_kept(a, b, path, -1, k);
            }
            assert forall|i: int| 1 <= i < path.len() implies {
                &&& (#[trigger] b[path[i] as int]).key.is_some()
                &&& b[path[i] as int].value.is_some()
                &&& 1 <= b[path[i] as int].height <= top
            } by {
                assert(a[path[i] as int].key.is_some());
            }
            assert forall|i: int| 1 <= i < path.len() implies (#[trigger] b[path[i] as int]).back == Some(
                path[i - 1],
            ) by {
                assert(a[path[i] as int].back == Some(path[i - 1]));
            }
            assert forall|i: int, j: int| 1 <= i < j < path.len() implies (#[trigger] key_at(
                b,
                path,
                i,
            )).ordinal() < (#[trigger] key_at(b, path, j)).ordinal() by {
                assert(key_at(a, path, i).ordinal() < key_at(a, path, j).ordinal());
            }
            assert forall|i: int, l: int| 0 <= i < path.len() && 0 <= l < tall(b, path, i) implies #[trigger] link_ok(
                b,
                path,
                i,
                l,
            ) by {
                assert(b[path[i] as int].height == a[path[i] as int].height);
                if i > 0 {
                    assert(a[path[i] as int].key.is_some());
                }
                assert(level_ok(b, path, l));
            }
            assert(linked(b, path, cap, top));
            let e0 = entries_of(a, path);
            let e1 = entries_of(b, path);
            assert forall|i: int| 0 <= i < e1.len() implies e1[i] == e0.update(p - 1, (e0[p - 1].0, value))[i] by {
                if i + 1 != p {
                    assert(path[i + 1] != path[p]);
                }
            }
            assert(e1 =~= e0.update(p - 1, (e0[p - 1].0, value)));
        }
    }

    /// Relinks level `l` around a new node `x` that goes in `d` places
    /// after its predecessor `u`: where the node reaches the level, the
    /// link of `u` is cut in two at `x`; where it does not, the link of
    /// `u` passes over one more entry.
    fn relink(&mut self, l: usize, u: usize, x: usize, d: usize, reaches: bool)
        requires
            u < old(self).nodes@.len(),
            x < old(self).nodes@.len(),
            u != x,
            l < old(self).nodes@[u as int].forwards@.len(),
            l < old(self).nodes@[u as int].spans@.len(),
            l < old(self).nodes@[x as int].forwards@.len(),
            l < old(self).nodes@[x as int].spans@.len(),
            old(self).nodes@[u as int].spans@[l as int] + 1 >= d,
            old(self).nodes@[u as int].spans@[l as int] < usize::MAX,
        ensures
            same_but_level(old(self).nodes@, final(self).nodes@, l as int),
            level_kept_but(old(self).nodes@, final(self).nodes@, l as int, u as int, x as int),
            same_shell(old(self).nodes@, final(self).nodes@),
            reaches ==> {
                &&& final(self).nodes@[u as int].forwards@[l as int] == Some(x)
                &&& final(self).nodes@[u as int].spans@[l as int] == d
                &&& final(self).nodes@[x as int].forwards@[l as int] == old(self).nodes@[u as int].forwards@[l as int]
                &&& final(self).nodes@[x as int].spans@[l as int] == old(self).nodes@[u as int].spans@[l as int]
                    - d + 1
            },
            !reaches ==> {
                &&& final(self).nodes@[u as int].forwards@[l as int] == old(self).nodes@[u as int].forwards@[l as int]
                &&& final(self).nodes@[u as int].spans@[l as int] == old(self).nodes@[u as int].spans@[l as int]
                    + 1
            },
            final(self).free == old(self).free,
            final(self).order == old(self).order,
            final(self).n == old(self).n,
            final(self).current_max_level == old(self).current_max_level,
            final(self).max_level == old(self).max_level,
            final(self).min == old(self).min,
            final(self).max == old(self).max,
            final(self).max_size == old(self).max_size,
    {
        let s: usize = self.nodes[u].spans[l];
        if reaches {
            let f: Option<usize> = self.nodes[u].forwards[l];
            self.nodes[x].forwards[l] = f;
            self.nodes[x].spans[l] = s + 1 - d;
            self.nodes[u].forwards[l] = Some(x);
            self.nodes[u].spans[l] = d;
        } else {
            self.nodes[u].spans[l] = s + 1;
        }
        proof {
            let na = old(self).nodes@;
            let nc = self.nodes@;
            assert forall|y: int| 0 <= y < na.len() && y != u && y != x implies #[trigger] nc[y] == na[y] by {}
        }
    }

    /// Links a fresh node of height `h` for `key` into every level, behind
    /// the predecessors that `locate` found, and repairs the spans: a link
    /// that now ends at the new node is cut in two, and a link that passes
    /// over it grows by one.
    #[verifier::rlimit(40)]
    #[verifier::spinoff_prover]
    fn splice(&mut self, key: K, value: V, h: usize, update: &Vec<usize>, ranks: &Vec<usize>)
        requires
            old(self).wf(),
            1 <= h <= old(self).max_level,
            located(
                old(self).nodes@,
                old(self).order@,
                old(self).max_level as int,
                key,
                update@,
                ranks@,
            ),
            ranks@[0] <= old(self).n,
            ranks@[0] < old(self).n ==> key.ordinal() < key_at(
                old(self).nodes@,
                old(self).order@,
                ranks@[0] + 1,
            ).ordinal(),
        ensures
            final(self).wf(),
            final(self).entries() == old(self).entries().insert(ranks@[0] as int, (key, value)),
            final(self).max_level == old(self).max_level,
            final(self).current_max_level == (if h > old(self).current_max_level {
                h
            } else {
                old(self).current_max_level
            }),
            final(self).max_size == old(self).max_size,
            final(self).order@ == old(self).order@.insert(
                ranks@[0] + 1,
                final(self).order@[ranks@[0] + 1],
            ),
            final(self).nodes@[final(self).order@[ranks@[0] + 1] as int].height == h,
            forall|i: int|
                0 <= i < old(self).order@.len() ==> final(self).nodes@[#[trigger] old(self).order@[i] as int].height
                    == old(self).nodes@[old(self).order@[i] as int].height,
    {
        let ghost a = self.nodes@;
        let ghost old_path = self.order@;
        let ghost cap = self.max_level as int;
        let ghost top = self.current_max_level as int;
        let ghost n0 = self.n as int;
        let slots: usize = self.nodes.len();
        assert(n0 + 2 <= slots);
        let p: usize = ranks[0] + 1;
        assert(pred_ok(a, old_path, update@, ranks@, 0, p as int));
        let u0: usize = update[0];
        let x: usize = self.take_slot(key, value, h, u0);
        let ghost n1 = self.nodes@;
        proof {
            lemma_refilled_linked(a, n1, old_path, cap, top, x);
            assert(tall(n1, old_path, p - 1) == tall(a, old_path, p - 1)) by {
                if p - 1 > 0 {
                    assert(2 <= old_path[p - 1] < a.len());
                }
                assert(old_path[p - 1] != x);
            }
            lemma_pred_span(n1, old_path, cap, top, p - 1, p as int, 0);
        }
        // The node after the new one, or the tail, now points back at it.
        let z: usize = match self.nodes[u0].forwards[0] {
            Some(t) => t,
            None => TAIL,
        };
        assert(z == slot_after(old_path, p as int));
        assert(z != x);
        self.nodes[z].back = Some(x);
        let ghost nb = self.nodes@;
        let ghost new_path = old_path.insert(p as int, x);
        proof {
            assert(inserted(old_path, new_path, p as int, x));
            assert forall|y: int| 0 <= y < n1.len() implies (#[trigger] nb[y]).forwards == n1[y].forwards
                && nb[y].spans == n1[y].spans && nb[y].key == n1[y].key && nb[y].height == n1[y].height
                && nb[y].value == n1[y].value && (y != z ==> nb[y].back == n1[y].back) by {
                if y != z {
                    assert(nb[y] == n1[y]);
                }
            }
            assert(same_but_level(n1, nb, -1));
            assert(in_arena(old_path, n1.len() as int)) by {
                assert forall|m: int| 0 <= m < old_path.len() implies 0 <= #[trigger] old_path[m] < n1.len() by {
                    if m > 0 {
                        assert(2 <= old_path[m] < n1.len());
                    }
                }
            }
            assert forall|k: int| 0 <= k < cap implies #[trigger] level_ok(nb, old_path, k) by {
                assert(level_ok(n1, old_path, k)) by {
                    assert forall|i: int| 0 <= i < old_path.len() && tall(n1, old_path, i) > k implies #[trigger] link_ok(
                        n1,
                        old_path,
                        i,
                        k,
                    ) by {}
                }
                lemma_other_level_kept(n1, nb, old_path, -1, k);
            }
            assert forall|m: int| 0 <= m < old_path.len() implies #[trigger] tall(nb, old_path, m) == tall(a, old_path, m) by {
                if m > 0 {
                    assert(2 <= old_path[m] < a.len());
                }
                assert(old_path[m] != x);
                assert(nb[old_path[m] as int].height == n1[old_path[m] as int].height);
            }
            assert forall|k: int| 0 <= k < cap implies #[trigger] pred_ok(nb, old_path, update@, ranks@, k, p as int) by {
                assert(pred_ok(a, old_path, update@, ranks@, k, p as int));
                let r = ranks@[k] as int;
                assert(tall(nb, old_path, r) == tall(a, old_path, r));
                assert forall|m: int| r < m < p implies #[trigger] tall(nb, old_path, m) <= k by {
                    assert(tall(a, old_path, m) <= k);
                }
            }
            assert(slots_ok(nb, cap)) by {
                assert forall|y: int| 0 <= y < nb.len() implies (#[trigger] nb[y]).forwards@.len() == cap
                    && nb[y].spans@.len() == cap by {
                    assert(nb[y].forwards == n1[y].forwards);
                }
            }
            assert(nb[x as int].height == h);
        }
        let mut l: usize = 0;
        while l < self.max_level
            invariant
                l <= self.max_level,
                self.max_level == cap,
                update@.len() == cap,
                ranks@.len() == cap,
                self.order@ == old_path,
                self.n == n0,
                n0 + 2 <= usize::MAX,
                old_path.len() == n0 + 1,
                self.current_max_level == top,
                self.min == old(self).min,
                self.max == old(self).max,
                self.max_size == old(self).max_size,
                self.free@.len() + n0 + 3 == self.nodes@.len(),
                spare_ok(self.free@, old_path, self.nodes@.len() as int),
                forall|f: int| 0 <= f < self.free@.len() ==> #[trigger] self.free@[f] != x,
                same_shell(nb, self.nodes@),
                slots_ok(self.nodes@, cap),
                path_ok(old_path, nb.len() as int),
                inserted(old_path, new_path, p as int, x),
                off_path(old_path, x),
                2 <= x < nb.len(),
                nb[x as int].height == h,
                forall|k: int| 0 <= k < cap ==> #[trigger] pred_ok(nb, old_path, update@, ranks@, k, p as int),
                forall|k: int| 0 <= k < l ==> #[trigger] level_ok(self.nodes@, new_path, k),
                forall|k: int| l <= k < cap ==> #[trigger] level_ok(self.nodes@, old_path, k),
                forall|k: int|
                    0 <= k < cap && (nb[HEAD as int].forwards@[k].is_some() || (k < l && k < h && update@[k]
                        == HEAD)) ==> (#[trigger] self.nodes@[HEAD as int].forwards@[k]).is_some(),
            decreases self.max_level - l,
        {
            let ghost na = self.nodes@;
            let u: usize = update[l];
            let r: usize = ranks[l];
            proof {
                assert(pred_ok(nb, old_path, update@, ranks@, l as int, p as int));
                assert forall|m: int| 0 <= m < old_path.len() implies #[trigger] tall(na, old_path, m) == tall(nb, old_path, m) by {
                    if m > 0 {
                        assert(2 <= old_path[m] < nb.len());
                    }
                    assert(na[old_path[m] as int].height == nb[old_path[m] as int].height);
                }
                assert(tall(na, old_path, r as int) > l);
                assert forall|m: int| r < m < p implies #[trigger] tall(na, old_path, m) <= l by {
                    assert(tall(nb, old_path, m) <= l);
                }
                assert(level_ok(na, old_path, l as int));
                assert(link_ok(na, old_path, r as int, l as int));
                let su = na[u as int].spans@[l as int] as int;
                if na[u as int].forwards@[l as int].is_some() && r + su < p {
                    assert(tall(na, old_path, r + su) <= l);
                }
                assert(r + su + 1 >= p);
                assert(r + su <= n0);
                assert(u != x);
                if r > 0 {
                    assert(2 <= old_path[r as int] < nb.len());
                }
                assert(na[u as int].forwards@.len() == cap);
                assert(na[x as int].forwards@.len() == cap);
            }
            self.relink(l, u, x, p - r, l < h);
            proof {
                let nc = self.nodes@;
                assert(na[x as int].height == nb[x as int].height);
                assert(in_arena(old_path, na.len() as int)) by {
                    assert forall|m: int| 0 <= m < old_path.len() implies 0 <= #[trigger] old_path[m] < na.len() by {
                        if m > 0 {
                            assert(2 <= old_path[m] < nb.len());
                        }
                    }
                }
                assert(forall|y: int| 0 <= y < na.len() ==> l < (#[trigger] na[y]).forwards@.len() && l
                    < na[y].spans@.len());
                lemma_level_spliced(
                    na,
                    nc,
                    old_path,
                    new_path,
                    p as int,
                    x,
                    u,
                    r as int,
                    l as int,
                    h as int,
                );
                assert(in_arena(new_path, na.len() as int)) by {
                    assert forall|m: int| 0 <= m < new_path.len() implies 0 <= #[trigger] new_path[m] < na.len() by {
                        if m < p {
                            assert(new_path[m] == old_path[m]);
                            if m > 0 {
                                assert(2 <= old_path[m] < nb.len());
                            }
                        } else if m > p {
                            assert(new_path[m] == old_path[m - 1]);
                            assert(2 <= old_path[m - 1] < nb.len());
                        }
                    }
                }
                assert forall|k: int| 0 <= k < l + 1 implies #[trigger] level_ok(nc, new_path, k) by {
                    if k < l {
                        assert(level_ok(na, new_path, k));
                        assert(forall|y: int| 0 <= y < na.len() ==> k < (#[trigger] na[y]).forwards@.len()
                            && k < na[y].spans@.len());
                        lemma_other_level_kept(na, nc, new_path, l as int, k);
                    }
                }
                assert forall|k: int| l + 1 <= k < cap implies #[trigger] level_ok(nc, old_path, k) by {
                    assert(level_ok(na, old_path, k));
                    assert(forall|y: int| 0 <= y < na.len() ==> k < (#[trigger] na[y]).forwards@.len() && k
                        < na[y].spans@.len());
                    lemma_other_level_kept(na, nc, old_path, l as int, k);
                }
                assert forall|k: int|
                    0 <= k < cap && (nb[HEAD as int].forwards@[k].is_some() || (k < l + 1 && k < h
                        && update@[k] == HEAD)) implies (#[trigger] nc[HEAD as int].forwards@[k]).is_some() by {
                    if k != l {
                        assert(nc[HEAD as int].forwards@[k] == na[HEAD as int].forwards@[k]);
                        assert(na[HEAD as int].forwards@[k].is_some());
                    } else {
                        if u != HEAD {
                            assert(nc[HEAD as int].forwards@[l as int] == na[HEAD as int].forwards@[l as int]);
                            assert(na[HEAD as int].forwards@[k].is_some());
                        } else if l >= h {
                            assert(na[HEAD as int].forwards@[k].is_some());
                        }
                    }
                }
                assert(slots_ok(nc, cap));
            }
            l += 1;
        }
        let ghost nf = self.nodes@;
        let new_top: usize = if h > self.current_max_level {
            h
        } else {
            self.current_max_level
        };
        proof {
            assert(contents_kept_but(a, nf, x as int)) by {
                assert forall|y: int| 0 <= y < a.len() && y != x implies {
                    &&& (#[trigger] nf[y]).key == a[y].key
                    &&& nf[y].value == a[y].value
                    &&& nf[y].height == a[y].height
                } by {
                    assert(n1[y] == a[y]);
                    assert(nb[y].key == n1[y].key);
                }
            }
            assert(backs_kept_but(a, nf, x as int, z as int)) by {
                assert forall|y: int| 0 <= y < a.len() && y != x && y != z implies (#[trigger] nf[y]).back
                    == a[y].back by {
                    assert(n1[y] == a[y]);
                    assert(nb[y].back == n1[y].back);
                }
            }
            assert(nf[x as int].key == Some(key) && nf[x as int].value == Some(value) && nf[x as int].height
                == h) by {
                assert(nb[x as int].key == n1[x as int].key);
            }
            assert(nf[x as int].back == Some(old_path[p - 1])) by {
                assert(nb[x as int].back == n1[x as int].back);
            }
            assert(nf[z as int].back == Some(x));
            if new_top > 1 {
                if h > top {
                    assert(pred_ok(a, old_path, update@, ranks@, h - 1, p as int));
                    let r = ranks@[h - 1] as int;
                    if r > 0 {
                        assert(a[old_path[r] as int].key.is_some());
                    }
                    assert(update@[h - 1] == HEAD);
                } else {
                    assert(a[HEAD as int].forwards@[top - 1].is_some());
                    assert(n1[HEAD as int] == a[HEAD as int]);
                    assert(nb[HEAD as int].forwards == n1[HEAD as int].forwards);
                }
                assert(nf[HEAD as int].forwards@[new_top - 1].is_some());
            }
            assert(nf.len() == n1.len());
            lemma_insert_done(a, nf, old_path, new_path, cap, top, new_top as int, p as int, x, key, value);
            lemma_live_inserted(a, nf, old_path, new_path, p as int, x);
        }
        let was: usize = self.n;
        self.n = was + 1;
        self.current_max_level = new_top;
        if p == 1 {
            self.min = Some(key);
        }
        if p == was + 1 {
            self.max = Some(key);
        }
        proof {
            self.order@ = new_path;
            assert(spare_ok(self.free@, new_path, nf.len() as int)) by {
                assert forall|f: int, i: int| 0 <= f < self.free@.len() && 0 <= i < new_path.len() implies #[trigger] self.free@[f]
                    != #[trigger] new_path[i] by {
                    if i < p {
                        assert(new_path[i] == old_path[i]);
                    } else if i > p {
                        assert(new_path[i] == old_path[i - 1]);
                    }
                }
            }
            let e0 = entries_of(a, old_path);
            let e1 = entries_of(nf, new_path);
            assert(e1 == e0.insert(p - 1, (key, value)));
            assert(e1[0].0 == key_at(nf, new_path, 1));
            assert(e1[was as int].0 == key_at(nf, new_path, was + 1));
            if p != 1 {
                assert(e1[0] == e0[0]);
                assert(e0[0].0 == key_at(a, old_path, 1));
            }
            if p != was + 1 {
                assert(e1[was as int] == e0[was - 1]);
                assert(e0[was - 1].0 == key_at(a, old_path, was as int));
            }
            assert forall|i: int| 0 <= i < old_path.len() implies nf[#[trigger] old_path[i] as int].height == a[old_path[i] as int].height by {
                if i > 0 {
                    assert(2 <= old_path[i] < a.len());
                }
                assert(old_path[i] != x);
            }
        }
    }

    /// Every node of `before` is still a node of `self`, as tall as it
    /// was, where the path of `self` is that of `before` with one slot put
    /// in and the old nodes have kept their heights.
    proof fn lemma_nodes_stay(&self, before: Self, p: int)
        requires
            1 <= p <= before.order@.len(),
            before.order@.len() == before.n + 1,
            self.order@.len() == self.n + 1,
            self.order@ == before.order@.insert(p, self.order@[p]),
            forall|i: int|
                0 <= i < before.order@.len() ==> self.nodes@[#[trigger] before.order@[i] as int].height
                    == before.nodes@[before.order@[i] as int].height,
        ensures
            forall|h: usize| #[trigger]
                before.on_path(h) ==> self.on_path(h) && self.height_of(h) == before.height_of(h),
    {
        assert forall|h: usize| #[trigger] before.on_path(h) implies self.on_path(h) && self.height_of(h)
            == before.height_of(h) by {
            let i = before.position(h);
            assert(names(before.order@, i, h));
            if i < p {
                assert(names(self.order@, i, h));
            } else {
                assert(names(self.order@, i + 1, h));
            }
        }
    }

    /// Binds `key` to `value`. A key that the list holds keeps its node and
    /// gets the new value; a new key gets a node whose height is drawn
    /// from the list's generator.
    pub fn insert_key(&mut self, key: K, value: V)
        requires
            old(self).wf(),
        ensures
            final(self).wf(),
            final(self).entries() == put(old(self).entries(), key, value),
            final(self)@ == old(self)@.insert(key, value),
            final(self).entries().len() == (if old(self)@.contains_key(key) {
                old(self).entries().len()
            } else {
                old(self).entries().len() + 1
            }),
            final(self).level_limit() == old(self).level_limit(),
            final(self).size_hint() == old(self).size_hint(),
            old(self).top_level() <= final(self).top_level(),
            old(self)@.contains_key(key) ==> final(self).top_level() == old(self).top_level(),
            final(self).handles() == (if old(self)@.contains_key(key) {
                old(self).handles()
            } else {
                old(self).handles().insert(
                    count_below(old(self).entries(), key) + 1,
                    final(self).node_at(count_below(old(self).entries(), key) + 1),
                )
            }),
            forall|h: usize| #[trigger]
                old(self).on_path(h) ==> final(self).on_path(h) && final(self).height_of(h) == old(
                    self,
                ).height_of(h),
    {
        let (update, ranks) = self.locate(&key);
        assert(pred_ok(self.nodes@, self.order@, update@, ranks@, 0, ranks@[0] + 1));
        let hit: Option<usize> = self.probe(update[0], &key, Ghost(ranks@[0] as int));
        proof {
            self.lemma_sorted();
        }
        match hit {
            Some(t) => {
                proof {
                    lemma_map_update(self.entries(), ranks@[0] as int, value);
                }
                self.overwrite(t, value, Ghost(ranks@[0] + 1));
            },
            None => {
                let h: usize = self.draw_height();
                proof {
                    assert(self.entries() == old(self).entries());
                    lemma_map_insert(self.entries(), ranks@[0] as int, key, value);
                }
                self.splice(key, value, h, &update, &ranks);
                proof {
                    self.lemma_nodes_stay(*old(self), ranks@[0] + 1);
                }
            },
        }
    }

    /// Binds `key` to `value` as `insert_key` does, with the height of a
    /// new node given by the caller and brought into the list's range.
    pub fn insert_with_height(&mut self, key: K, value: V, height: usize)
        requires
            old(self).wf(),
        ensures
            final(self).wf(),
            final(self).entries() == put(old(self).entries(), key, value),
            final(self)@ == old(self)@.insert(key, value),
            final(self).entries().len() == (if old(self)@.contains_key(key) {
                old(self).entries().len()
            } else {
                old(self).entries().len() + 1
            }),
            final(self).level_limit() == old(self).level_limit(),
            final(self).size_hint() == old(self).size_hint(),
            final(self).top_level() == (if old(self)@.contains_key(key) {
                old(self).top_level()
            } else {
                reach(old(self).top_level(), height as int, old(self).level_limit())
            }),
            final(self).handles() == (if old(self)@.contains_key(key) {
                old(self).handles()
            } else {
                old(self).handles().insert(
                    count_below(old(self).entries(), key) + 1,
                    final(self).node_at(count_below(old(self).entries(), key) + 1),
                )
            }),
            !old(self)@.contains_key(key) ==> final(self).height_of(
                final(self).node_at(count_below(old(self).entries(), key) + 1),
            ) == clamped(height as int, old(self).level_limit()),
            forall|h: usize| #[trigger]
                old(self).on_path(h) ==> final(self).on_path(h) && final(self).height_of(h) == old(
                    self,
                ).height_of(h),
    {
        let (update, ranks) = self.locate(&key);
        assert(pred_ok(self.nodes@, self.order@, update@, ranks@, 0, ranks@[0] + 1));
        let hit: Option<usize> = self.probe(update[0], &key, Ghost(ranks@[0] as int));
        proof {
            self.lemma_sorted();
        }
        match hit {
            Some(t) => {
                proof {
                    lemma_map_update(self.entries(), ranks@[0] as int, value);
                }
                self.overwrite(t, value, Ghost(ranks@[0] + 1));
            },
            None => {
                let h: usize = clamp_height(height, self.max_level);
                proof {
                    lemma_map_insert(self.entries(), ranks@[0] as int, key, value);
                }
                let ghost before = *self;
                self.splice(key, value, h, &update, &ranks);
                proof {
                    self.lemma_nodes_stay(before, ranks@[0] + 1);
                }
            },
        }
    }

    /// Relinks level `l` around a node `x` that leaves the list, behind
    /// its predecessor `u`: where the node reaches the level, `u` takes
    /// over its link and the two spans fold into one; where it does not,
    /// the link of `u` passes over one entry less.
    fn unlink(&mut self, l: usize, u: usize, x: usize, reaches: bool)
        requires
            u < old(self).nodes@.len(),
            x < old(self).nodes@.len(),
            u != x,
            l < old(self).nodes@[u as int].forwards@.len(),
            l < old(self).nodes@[u as int].spans@.len(),
            l < old(self).nodes@[x as int].forwards@.len(),
            l < old(self).nodes@[x as int].spans@.len(),
            old(self).nodes@[u as int].spans@[l as int] >= 1,
            reaches ==> old(self).nodes@[u as int].spans@[l as int] - 1 + old(self).nodes@[x as int].spans@[l as int]
                <= usize::MAX,
        ensures
            same_but_level(old(self).nodes@, final(self).nodes@, l as int),
            level_kept_but(old(self).nodes@, final(self).nodes@, l as int, u as int, x as int),
            same_shell(old(self).nodes@, final(self).nodes@),
            reaches ==> {
                &&& final(self).nodes@[u as int].forwards@[l as int] == old(self).nodes@[x as int].forwards@[l as int]
                &&& final(self).nodes@[u as int].spans@[l as int] == old(self).nodes@[u as int].spans@[l as int]
                    + old(self).nodes@[x as int].spans@[l as int] - 1
            },
            !reaches ==> {
                &&& final(self).nodes@[u as int].forwards@[l as int] == old(self).nodes@[u as int].forwards@[l as int]
                &&& final(self).nodes@[u as int].spans@[l as int] == old(self).nodes@[u as int].spans@[l as int]
                    - 1
            },
            final(self).free == old(self).free,
            final(self).order == old(self).order,
            final(self).n == old(self).n,
            final(self).current_max_level == old(self).current_max_level,
            final(self).max_level == old(self).max_level,
            final(self).min == old(self).min,
            final(self).max == old(self).max,
            final(self).max_size == old(self).max_size,
    {
        let s: usize = self.nodes[u].spans[l];
        if reaches {
            let f: Option<usize> = self.nodes[x].forwards[l];
            let sx: usize = self.nodes[x].spans[l];
            self.nodes[u].forwards[l] = f;
            self.nodes[u].spans[l] = s - 1 + sx;
        } else {
            self.nodes[u].spans[l] = s - 1;
        }
        proof {
            let na = old(self).nodes@;
            let nc = self.nodes@;
            assert forall|y: int| 0 <= y < na.len() && y != u implies #[trigger] nc[y] == na[y] by {}
        }
    }

    /// Takes the entry after position `ranks[0]` off every level, repairs
    /// the spans, frees its slot and returns its value. The top level and
    /// the cached extremes are left for `settle`.
    #[verifier::rlimit(40)]
    #[verifier::spinoff_prover]
    fn unsplice(&mut self, update: &Vec<usize>, ranks: &Vec<usize>, Ghost(key): Ghost<K>) -> (v: V)
        requires
            old(self).wf(),
            located(
                old(self).nodes@,
                old(self).order@,
                old(self).max_level as int,
                key,
                update@,
                ranks@,
            ),
            ranks@[0] < old(self).n,
        ensures
            final(self).body_ok(),
            entries_of(final(self).nodes@, final(self).order@) == old(self).entries().remove(
                ranks@[0] as int,
            ),
            v == old(self).entries()[ranks@[0] as int].1,
            final(self).max_level == old(self).max_level,
            final(self).current_max_level == old(self).current_max_level,
            final(self).max_size == old(self).max_size,
            final(self).order@ == old(self).order@.remove(ranks@[0] + 1),
            forall|i: int|
                0 <= i < old(self).order@.len() ==> final(self).nodes@[#[trigger] old(self).order@[i] as int].height
                    == old(self).nodes@[old(self).order@[i] as int].height,
    {
        let ghost a = self.nodes@;
        let ghost old_path = self.order@;
        let ghost cap = self.max_level as int;
        let ghost top = self.current_max_level as int;
        let ghost n0 = self.n as int;
        let slots: usize = self.nodes.len();
        assert(n0 + 2 <= slots);
        let p: usize = ranks[0] + 1;
        assert(pred_ok(a, old_path, update@, ranks@, 0, p as int));
        let u0: usize = update[0];
        proof {
            lemma_pred_span(a, old_path, cap, top, p - 1, p as int, 0);
        }
        let x: usize = self.nodes[u0].forwards[0].unwrap();
        assert(x == old_path[p as int]);
        assert(2 <= old_path[p as int] < a.len());
        assert(a[old_path[p as int] as int].key.is_some());
        let h: usize = self.nodes[x].height;
        proof {
            lemma_pred_span(a, old_path, cap, top, p as int, p + 1, 0);
        }
        // The node after the one that leaves, or the tail, now points back
        // past it.
        let z: usize = match self.nodes[x].forwards[0] {
            Some(t) => t,
            None => TAIL,
        };
        assert(z == slot_after(old_path, p + 1));
        assert(z != x) by {
            if p + 1 < old_path.len() {
                assert(old_path[p as int] != old_path[p + 1]);
            }
        }
        let xb: Option<usize> = self.nodes[x].back;
        assert(a[old_path[p as int] as int].back == Some(old_path[p - 1]));
        self.nodes[z].back = xb;
        let taken: Option<V> = self.nodes[x].value.take();
        self.nodes[x].key = None;
        let ghost nb = self.nodes@;
        let ghost new_path = old_path.remove(p as int);
        proof {
            assert(removed(old_path, new_path, p as int));
            assert forall|y: int| 0 <= y < a.len() implies (#[trigger] nb[y]).forwards == a[y].forwards
                && nb[y].spans == a[y].spans && nb[y].height == a[y].height && (y != x ==> nb[y].key
                == a[y].key && nb[y].value == a[y].value) && (y != z ==> nb[y].back == a[y].back) by {
                if y != z && y != x {
                    assert(nb[y] == a[y]);
                }
            }
            assert(same_but_level(a, nb, -1));
            assert(in_arena(old_path, a.len() as int)) by {
                assert forall|m: int| 0 <= m < old_path.len() implies 0 <= #[trigger] old_path[m] < a.len() by {
                    if m > 0 {
                        assert(2 <= old_path[m] < a.len());
                    }
                }
            }
            assert forall|k: int| 0 <= k < cap implies #[trigger] level_ok(nb, old_path, k) by {
                assert(level_ok(a, old_path, k)) by {
                    assert forall|i: int| 0 <= i < old_path.len() && tall(a, old_path, i) > k implies #[trigger] link_ok(
                        a,
                        old_path,
                        i,
                        k,
                    ) by {}
                }
                lemma_other_level_kept(a, nb, old_path, -1, k);
            }
            assert forall|m: int| 0 <= m < old_path.len() implies #[trigger] tall(nb, old_path, m) == tall(a, old_path, m) by {
                assert(nb[old_path[m] as int].height == a[old_path[m] as int].height);
            }
            assert forall|k: int| 0 <= k < cap implies #[trigger] pred_ok(nb, old_path, update@, ranks@, k, p as int) by {
                assert(pred_ok(a, old_path, update@, ranks@, k, p as int));
                let r = ranks@[k] as int;
                assert(tall(nb, old_path, r) == tall(a, old_path, r));
                assert forall|m: int| r < m < p implies #[trigger] tall(nb, old_path, m) <= k by {
                    assert(tall(a, old_path, m) <= k);
                }
            }
            assert(slots_ok(nb, cap)) by {
                assert forall|y: int| 0 <= y < nb.len() implies (#[trigger] nb[y]).forwards@.len() == cap
                    && nb[y].spans@.len() == cap by {
                    assert(nb[y].forwards == a[y].forwards);
                }
            }
            assert(nb[x as int].height == h);
        }
        let mut l: usize = 0;
        while l < self.max_level
            invariant
                l <= self.max_level,
                self.max_level == cap,
                update@.len() == cap,
                ranks@.len() == cap,
                self.order@ == old_path,
                self.n == n0,
                n0 + 2 <= usize::MAX,
                old_path.len() == n0 + 1,
                1 <= p <= n0,
                old_path[p as int] == x,
                self.current_max_level == top,
                self.max_size == old(self).max_size,
                self.free == old(self).free,
                same_shell(nb, self.nodes@),
                slots_ok(self.nodes@, cap),
                path_ok(old_path, nb.len() as int),
                removed(old_path, new_path, p as int),
                nb[x as int].height == h,
                forall|k: int| 0 <= k < cap ==> #[trigger] pred_ok(nb, old_path, update@, ranks@, k, p as int),
                forall|k: int| 0 <= k < l ==> #[trigger] level_ok(self.nodes@, new_path, k),
                forall|k: int| l <= k < cap ==> #[trigger] level_ok(self.nodes@, old_path, k),
            decreases self.max_level - l,
        {
            let ghost na = self.nodes@;
            let u: usize = update[l];
            let r: usize = ranks[l];
            proof {
                assert(pred_ok(nb, old_path, update@, ranks@, l as int, p as int));
                assert forall|m: int| 0 <= m < old_path.len() implies #[trigger] tall(na, old_path, m) == tall(nb, old_path, m) by {
                    if m > 0 {
                        assert(2 <= old_path[m] < nb.len());
                    }
                    assert(na[old_path[m] as int].height == nb[old_path[m] as int].height);
                }
                assert(tall(na, old_path, r as int) > l);
                assert forall|m: int| r < m < p implies #[trigger] tall(na, old_path, m) <= l by {
                    assert(tall(nb, old_path, m) <= l);
                }
                assert(level_ok(na, old_path, l as int));
                assert(link_ok(na, old_path, r as int, l as int));
                assert(2 <= old_path[p as int] < nb.len());
                assert(na[x as int].height == nb[x as int].height);
                assert(tall(na, old_path, p as int) == h);
                let su = na[u as int].spans@[l as int] as int;
                if l < h {
                    assert(link_ok(na, old_path, p as int, l as int));
                    if na[u as int].forwards@[l as int].is_none() {
                        assert(tall(na, old_path, p as int) <= l);
                    } else if r + su < p {
                        assert(tall(na, old_path, r + su) <= l);
                    } else if r + su > p {
                        assert(tall(na, old_path, p as int) <= l);
                    }
                    assert(r + su == p);
                } else {
                    if na[u as int].forwards@[l as int].is_some() && r + su < p {
                        assert(tall(na, old_path, r + su) <= l);
                    }
                    assert(r + su >= p);
                }
                assert(u != x) by {
                    assert(old_path[r as int] != old_path[p as int]);
                }
                if r > 0 {
                    assert(2 <= old_path[r as int] < nb.len());
                }
                assert(na[u as int].forwards@.len() == cap);
                assert(na[x as int].forwards@.len() == cap);
            }
            self.unlink(l, u, x, l < h);
            proof {
                let nc = self.nodes@;
                assert(in_arena(old_path, na.len() as int)) by {
                    assert forall|m: int| 0 <= m < old_path.len() implies 0 <= #[trigger] old_path[m] < na.len() by {
                        if m > 0 {
                            assert(2 <= old_path[m] < nb.len());
                        }
                    }
                }
                assert(forall|y: int| 0 <= y < na.len() ==> l < (#[trigger] na[y]).forwards@.len() && l
                    < na[y].spans@.len());
                lemma_level_unlinked(
                    na,
                    nc,
                    old_path,
                    new_path,
                    p as int,
                    x,
                    u,
                    r as int,
                    l as int,
                    h as int,
                );
                assert(in_arena(new_path, na.len() as int)) by {
                    assert forall|m: int| 0 <= m < new_path.len() implies 0 <= #[trigger] new_path[m] < na.len() by {
                        if m < p {
                            assert(new_path[m] == old_path[m]);
                            if m > 0 {
                                assert(2 <= old_path[m] < nb.len());
                            }
                        } else {
                            assert(new_path[m] == old_path[m + 1]);
                            assert(2 <= old_path[m + 1] < nb.len());
                        }
                    }
                }
                assert forall|k: int| 0 <= k < l + 1 implies #[trigger] level_ok(nc, new_path, k) by {
                    if k < l {
                        assert(level_ok(na, new_path, k));
                        assert(forall|y: int| 0 <= y < na.len() ==> k < (#[trigger] na[y]).forwards@.len()
                            && k < na[y].spans@.len());
                        lemma_other_level_kept(na, nc, new_path, l as int, k);
                    }
                }
                assert forall|k: int| l + 1 <= k < cap implies #[trigger] level_ok(nc, old_path, k) by {
                    assert(level_ok(na, old_path, k));
                    assert(forall|y: int| 0 <= y < na.len() ==> k < (#[trigger] na[y]).forwards@.len() && k
                        < na[y].spans@.len());
                    lemma_other_level_kept(na, nc, old_path, l as int, k);
                }
                assert(slots_ok(nc, cap));
            }
            l += 1;
        }
        let ghost nf = self.nodes@;
        proof {
            assert(contents_kept_but(a, nf, x as int)) by {
                assert forall|y: int| 0 <= y < a.len() && y != x implies {
                    &&& (#[trigger] nf[y]).key == a[y].key
                    &&& nf[y].value == a[y].value
                    &&& nf[y].height == a[y].height
                } by {
                    assert(nb[y].key == a[y].key);
                }
            }
            assert(backs_kept_but(a, nf, x as int, z as int)) by {
                assert forall|y: int| 0 <= y < a.len() && y != x && y != z implies (#[trigger] nf[y]).back
                    == a[y].back by {
                    assert(nb[y].back == a[y].back);
                }
            }
            assert(nf[z as int].back == Some(old_path[p - 1])) by {
                assert(nb[z as int].back == Some(old_path[p - 1]));
            }
            assert(nf[x as int].key.is_none()) by {
                assert(nb[x as int].key.is_none());
            }
            lemma_remove_done(a, nf, old_path, new_path, cap, top, p as int, x);
            lemma_live_removed(a, nf, old_path, new_path, p as int, x);
        }
        self.free.push(x);
        self.n = self.n - 1;
        proof {
            self.order@ = new_path;
            assert(spare_ok(self.free@, new_path, nf.len() as int)) by {
                let fr = self.free@;
                let f0 = old(self).free@;
                assert forall|f: int| 0 <= f < fr.len() implies 2 <= #[trigger] fr[f] < nf.len() by {
                    if f < f0.len() {
                        assert(fr[f] == f0[f]);
                    }
                }
                assert forall|f: int, g: int| 0 <= f < g < fr.len() implies #[trigger] fr[f]
                    != #[trigger] fr[g] by {
                    if g < f0.len() {
                        assert(fr[f] == f0[f] && fr[g] == f0[g]);
                    } else {
                        assert(fr[f] == f0[f]);
                        assert(f0[f] != old_path[p as int]);
                    }
                }
                assert forall|f: int, i: int| 0 <= f < fr.len() && 0 <= i < new_path.len() implies #[trigger] fr[f]
                    != #[trigger] new_path[i] by {
                    let oi = if i < p { i } else { i + 1 };
                    assert(new_path[i] == old_path[oi]);
                    if f < f0.len() {
                        assert(fr[f] == f0[f]);
                        assert(f0[f] != old_path[oi]);
                    } else {
                        assert(old_path[oi] != old_path[p as int]);
                    }
                }
            }
            assert(a[x as int].value.is_some());
            assert forall|i: int| 0 <= i < old_path.len() implies nf[#[trigger] old_path[i] as int].height == a[old_path[i] as int].height by {
                assert(nf[old_path[i] as int].height == nb[old_path[i] as int].height);
            }
        }
        taken.unwrap()
    }

    /// Lowers the top level while no entry reaches it, and reads the
    /// smallest and the largest key off the two ends of the base chain.
    fn settle(&mut self)
        requires
            old(self).body_ok(),
        ensures
            final(self).wf(),
            final(self).entries() == old(self).entries(),
            final(self).max_level == old(self).max_level,
            final(self).max_size == old(self).max_size,
            final(self).current_max_level <= old(self).current_max_level,
            final(self).order == old(self).order,
            final(self).nodes == old(self).nodes,
    {
        while self.current_max_level > 1 && self.nodes[HEAD].forwards[self.current_max_level - 1].is_none()
            invariant
                self.body_ok(),
                self.nodes == old(self).nodes,
                self.order == old(self).order,
                self.max_level == old(self).max_level,
                self.max_size == old(self).max_size,
                self.current_max_level <= old(self).current_max_level,
            decreases self.current_max_level,
        {
            proof {
                let top = self.current_max_level as int;
                assert(link_ok(self.nodes@, self.order@, 0, top - 1));
                assert forall|i: int| 1 <= i < self.order@.len() implies {
                    &&& (#[trigger] self.nodes@[self.order@[i] as int]).key.is_some()
                    &&& self.nodes@[self.order@[i] as int].value.is_some()
                    &&& 1 <= self.nodes@[self.order@[i] as int].height <= top - 1
                } by {
                    assert(tall(self.nodes@, self.order@, i) <= top - 1);
                }
            }
            self.current_max_level = self.current_max_level - 1;
        }
        proof {
            lemma_pred_span(
                self.nodes@,
                self.order@,
                self.max_level as int,
                self.current_max_level as int,
                0,
                1,
                0,
            );
        }
        self.min = match self.nodes[HEAD].forwards[0] {
            Some(t) => self.nodes[t].key,
            None => None,
        };
        let last: usize = self.nodes[TAIL].back.unwrap();
        assert(last == self.order@[self.n as int]);
        if self.n > 0 {
            assert(2 <= self.order@[self.n as int] < self.nodes@.len());
            assert(self.nodes@[self.order@[1] as int].key.is_some());
            assert(self.nodes@[self.order@[self.n as int] as int].key.is_some());
        }
        self.max = self.nodes[last].key;
    }

    /// Every node of `self` was a node of `before`, as tall as it is,
    /// where the path of `self` is that of `before` with one slot taken
    /// out and the nodes have kept their heights.
    proof fn lemma_nodes_left(&self, before: Self, p: int)
        requires
            1 <= p < before.order@.len(),
            self.order@ == before.order@.remove(p),
            forall|i: int|
                0 <= i < before.order@.len() ==> self.nodes@[#[trigger] before.order@[i] as int].height
                    == before.nodes@[before.order@[i] as int].height,
        ensures
            forall|h: usize| #[trigger]
                self.on_path(h) ==> before.on_path(h) && self.height_of(h) == before.height_of(h),
    {
        assert forall|h: usize| #[trigger] self.on_path(h) implies before.on_path(h) && self.height_of(h)
            == before.height_of(h) by {
            let i = self.position(h);
            assert(names(self.order@, i, h));
            if i < p {
                assert(names(before.order@, i, h));
            } else {
                assert(names(before.order@, i + 1, h));
            }
        }
    }

    /// Takes the entry for `key` out, if there is one, and returns its
    /// value.
    pub fn delete_key(&mut self, key: &K) -> (r: Option<V>)
        requires
            old(self).wf(),
        ensures
            final(self).wf(),
            r == (if old(self)@.contains_key(*key) {
                Some(old(self)@[*key])
            } else {
                None
            }),
            final(self).entries() == cut(old(self).entries(), *key),
            final(self)@ == old(self)@.remove(*key),
            final(self).entries().len() == (if old(self)@.contains_key(*key) {
                old(self).entries().len() - 1
            } else {
                old(self).entries().len() as int
            }),
            final(self).level_limit() == old(self).level_limit(),
            final(self).size_hint() == old(self).size_hint(),
            final(self).top_level() <= old(self).top_level(),
            final(self).handles() == (if old(self)@.contains_key(*key) {
                old(self).handles().remove(count_below(old(self).entries(), *key) + 1)
            } else {
                old(self).handles()
            }),
            forall|h: usize| #[trigger]
                final(self).on_path(h) ==> old(self).on_path(h) && final(self).height_of(h) == old(
                    self,
                ).height_of(h),
    {
        if self.n == 0 {
            proof {
                assert(old(self)@ =~= old(self)@.remove(*key));
                assert(!holds_key(self.entries(), *key));
            }
            return None;
        }
        let (update, ranks) = self.locate(key);
        assert(pred_ok(self.nodes@, self.order@, update@, ranks@, 0, ranks@[0] + 1));
        let hit: Option<usize> = self.probe(update[0], key, Ghost(ranks@[0] as int));
        proof {
            self.lemma_sorted();
        }
        match hit {
            Some(t) => {
                proof {
                    lemma_map_remove(self.entries(), ranks@[0] as int);
                }
                let v: V = self.unsplice(&update, &ranks, Ghost(*key));
                self.settle();
                proof {
                    self.lemma_nodes_left(*old(self), ranks@[0] + 1);
                }
                Some(v)
            },
            None => {
                proof {
                    assert(old(self)@ =~= old(self)@.remove(*key));
                }
                None
            },
        }
    }
}


impl<K: OrderedKey, V> Default for SkipList<K, V, GeoLevelGenerator> {
    /// An empty list of 16 levels with geometric heights.
    fn default() -> (list: Self)
        ensures
            list.wf(),
            list.entries() == Seq::<(K, V)>::empty(),
            list@ == Map::<K, V>::empty(),
            list.level_limit() == 16,
    {
        SkipList::new(16, GeoLevelGenerator::new(16, 0x5EED_5EED_5EED_5EEDu64))
    }
}

impl<K: OrderedKey, V, G: LevelGenerator> Run<K, V> for SkipList<K, V, G> {
    open spec fn sound(&self) -> bool {
        self.wf()
    }

    open spec fn contents(&self) -> Seq<(K, V)> {
        self.entries()
    }

    open spec fn advised_size(&self) -> int {
        self.size_hint()
    }

    proof fn contents_are_sorted(&self) {
        self.lemma_sorted();
    }

    fn insert_key(&mut self, key: K, value: V) {
        SkipList::insert_key(self, key, value)
    }

    fn delete_key(&mut self, key: &K) -> (r: Option<V>) {
        proof {
            self.law_order();
            law_cut(self.entries(), *key);
            lemma_holder(self.entries(), *key);
        }
        SkipList::delete_key(self, key)
    }

    fn lookup(&self, key: &K) -> (r: Option<&V>) {
        proof {
            self.law_order();
        }
        SkipList::lookup(self, key)
    }

    fn contains_key(&self, key: &K) -> (b: bool) {
        proof {
            self.law_order();
        }
        SkipList::contains_key(self, key)
    }

    fn get_all(&self) -> (out: Vec<KVpair<K, &V>>) {
        SkipList::get_all(self)
    }

    fn get_all_in_range(&self, key1: K, key2: K) -> (out: Vec<KVpair<K, &V>>) {
        SkipList::get_all_in_range(self, key1, key2)
    }

    fn num_elements(&self) -> (n: usize) {
        SkipList::num_elements(self)
    }

    fn is_empty(&self) -> (b: bool) {
        SkipList::is_empty(self)
    }

    fn set_size(&mut self, size: usize) {
        SkipList::set_size(self, size)
    }
}

} // verus!
