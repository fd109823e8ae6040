//! How the nodes of a list hang together: the conditions that tie the
//! arena's links and spans to the order of the entries.
//!
//! The linked nodes are listed by a path: the head at position 0, then the
//! entries in key order. A node's position on the path is the number of
//! entries at or before it, so the span of a link is the difference of two
//! positions.

use vstd::prelude::*;
use crate::key::OrderedKey;
use crate::node::Node;

verus! {

/// The arena index of the head sentinel.
pub const HEAD: usize = 0;

/// The arena index of the tail sentinel.
pub const TAIL: usize = 1;

/// The height of the node at position `m` of the path.
pub open spec fn tall<K, V>(nodes: Seq<Node<K, V>>, path: Seq<usize>, m: int) -> int {
    nodes[path[m] as int].height as int
}

/// The key of the node at position `m` of the path.
pub open spec fn key_at<K, V>(nodes: Seq<Node<K, V>>, path: Seq<usize>, m: int) -> K {
    nodes[path[m] as int].key.unwrap()
}

/// The value of the node at position `m` of the path.
pub open spec fn value_at<K, V>(nodes: Seq<Node<K, V>>, path: Seq<usize>, m: int) -> V {
    nodes[path[m] as int].value.unwrap()
}

/// The entries along the path, in order.
pub open spec fn entries_of<K, V>(nodes: Seq<Node<K, V>>, path: Seq<usize>) -> Seq<(K, V)> {
    Seq::new((path.len() - 1) as nat, |i: int| (key_at(nodes, path, i + 1), value_at(nodes, path, i + 1)))
}

/// The level-`l` link of the node at position `i` is right: it leads to
/// the next node on the path that reaches above level `l`, or nowhere if
/// there is none, and its span is the number of entries it moves past.
pub open spec fn link_ok<K, V>(nodes: Seq<Node<K, V>>, path: Seq<usize>, i: int, l: int) -> bool {
    let node = nodes[path[i] as int];
    let s = node.spans@[l] as int;
    let last = path.len() - 1;
    match node.forwards@[l] {
        Some(t) => {
            &&& s >= 1
            &&& i + s <= last
            &&& t == path[i + s]
            &&& tall(nodes, path, i + s) > l
            &&& forall|m: int| i < m < i + s ==> #[trigger] tall(nodes, path, m) <= l
        },
        None => {
            &&& i + s == last
            &&& forall|m: int| i < m <= last ==> #[trigger] tall(nodes, path, m) <= l
        },
    }
}

/// Every slot of the arena has room for `cap` levels, and both sentinels
/// have a slot.
pub open spec fn slots_ok<K, V>(nodes: Seq<Node<K, V>>, cap: int) -> bool {
    &&& nodes.len() >= 2
    &&& forall|x: int|
        0 <= x < nodes.len() ==> (#[trigger] nodes[x]).forwards@.len() == cap && nodes[x].spans@.len()
            == cap
}

/// The path starts at the head, names slots behind the sentinels' after
/// that, and names no slot twice.
pub open spec fn path_ok(path: Seq<usize>, slots: int) -> bool {
    &&& path.len() >= 1
    &&& path[0] == HEAD
    &&& forall|i: int| 1 <= i < path.len() ==> 2 <= #[trigger] path[i] < slots
    &&& forall|i: int, j: int| 0 <= i < j < path.len() ==> #[trigger] path[i] != #[trigger] path[j]
}

/// The sentinels hold nothing and the head spans all `cap` levels; every
/// entry holds a key and a value and reaches between 1 and `top` levels.
pub open spec fn members_ok<K, V>(nodes: Seq<Node<K, V>>, path: Seq<usize>, cap: int, top: int) -> bool {
    &&& nodes[HEAD as int].key.is_none()
    &&& nodes[HEAD as int].value.is_none()
    &&& nodes[HEAD as int].height == cap
    &&& nodes[TAIL as int].key.is_none()
    &&& nodes[TAIL as int].value.is_none()
    &&& forall|i: int|
        1 <= i < path.len() ==> {
            &&& (#[trigger] nodes[path[i] as int]).key.is_some()
            &&& nodes[path[i] as int].value.is_some()
            &&& 1 <= nodes[path[i] as int].height <= top
        }
}

/// Each entry points back at the node before it, the head at nothing, and
/// the tail at the last node of the path.
pub open spec fn backs_ok<K, V>(nodes: Seq<Node<K, V>>, path: Seq<usize>) -> bool {
    &&& nodes[HEAD as int].back.is_none()
    &&& nodes[TAIL as int].back == Some(path.last())
    &&& forall|i: int| 1 <= i < path.len() ==> (#[trigger] nodes[path[i] as int]).back == Some(path[i - 1])
}

/// The keys grow strictly along the path.
pub open spec fn keys_ok<K: OrderedKey, V>(nodes: Seq<Node<K, V>>, path: Seq<usize>) -> bool {
    forall|i: int, j: int|
        1 <= i < j < path.len() ==> (#[trigger] key_at(nodes, path, i)).ordinal() < (#[trigger] key_at(
            nodes,
            path,
            j,
        )).ordinal()
}

/// Every link of every node on the path is right, at every level the node
/// reaches.
pub open spec fn links_ok<K, V>(nodes: Seq<Node<K, V>>, path: Seq<usize>) -> bool {
    forall|i: int, l: int|
        0 <= i < path.len() && 0 <= l < tall(nodes, path, i) ==> #[trigger] link_ok(nodes, path, i, l)
}

/// The nodes hang together along the path, and no entry reaches above
/// level `top`.
pub open spec fn joined<K: OrderedKey, V>(nodes: Seq<Node<K, V>>, path: Seq<usize>, cap: int, top: int) -> bool {
    &&& cap >= 1
    &&& 1 <= top <= cap
    &&& slots_ok(nodes, cap)
    &&& path_ok(path, nodes.len() as int)
    &&& members_ok(nodes, path, cap, top)
    &&& backs_ok(nodes, path)
    &&& keys_ok(nodes, path)
    &&& links_ok(nodes, path)
}

/// The whole linked structure is sound, and `top` is the highest level
/// that an entry reaches, or 1 where there is none.
pub open spec fn linked<K: OrderedKey, V>(nodes: Seq<Node<K, V>>, path: Seq<usize>, cap: int, top: int) -> bool {
    &&& joined(nodes, path, cap, top)
    &&& top > 1 ==> nodes[HEAD as int].forwards@[top - 1].is_some()
}

/// Position `i` of the path names the slot `y`.
pub open spec fn names(path: Seq<usize>, i: int, y: usize) -> bool {
    0 <= i < path.len() && path[i] == y
}

/// Some position of the path names the slot `y`.
pub open spec fn listed(path: Seq<usize>, y: usize) -> bool {
    exists|i: int| #[trigger] names(path, i, y)
}

/// Every slot that holds a key is on the path.
pub open spec fn live_ok<K, V>(nodes: Seq<Node<K, V>>, path: Seq<usize>) -> bool {
    forall|y: usize| y < nodes.len() && (#[trigger] nodes[y as int]).key.is_some() ==> listed(path, y)
}

/// Putting a node in at position `p` keeps every slot that holds a key on
/// the path.
pub proof fn lemma_live_inserted<K, V>(
    a: Seq<Node<K, V>>,
    b: Seq<Node<K, V>>,
    old_path: Seq<usize>,
    new_path: Seq<usize>,
    p: int,
    x: usize,
)
    requires
        live_ok(a, old_path),
        inserted(old_path, new_path, p, x),
        contents_kept_but(a, b, x as int),
        b.len() <= a.len() + 1,
        b.len() == a.len() + 1 ==> x == a.len(),
    ensures
        live_ok(b, new_path),
{
    assert forall|y: usize| y < b.len() && (#[trigger] b[y as int]).key.is_some() implies listed(
        new_path,
        y,
    ) by {
        if y == x {
            assert(names(new_path, p, y));
        } else {
            assert(b[y as int].key == a[y as int].key);
            assert(listed(old_path, y));
            let i = choose|i: int| #[trigger] names(old_path, i, y);
            if i < p {
                assert(new_path[i] == old_path[i]);
                assert(names(new_path, i, y));
            } else {
                assert(new_path[i + 1] == old_path[i + 1 - 1]);
                assert(names(new_path, i + 1, y));
            }
        }
    }
}

/// Taking the node at position `p` out and clearing its key keeps every
/// slot that holds a key on the path.
pub proof fn lemma_live_removed<K, V>(
    a: Seq<Node<K, V>>,
    b: Seq<Node<K, V>>,
    old_path: Seq<usize>,
    new_path: Seq<usize>,
    p: int,
    x: usize,
)
    requires
        live_ok(a, old_path),
        removed(old_path, new_path, p),
        old_path[p] == x,
        a.len() == b.len(),
        contents_kept_but(a, b, x as int),
        x < b.len(),
        b[x as int].key.is_none(),
    ensures
        live_ok(b, new_path),
{
    assert forall|y: usize| y < b.len() && (#[trigger] b[y as int]).key.is_some() implies listed(
        new_path,
        y,
    ) by {
        assert(y != x);
        assert(b[y as int].key == a[y as int].key);
        assert(listed(old_path, y));
        let i = choose|i: int| #[trigger] names(old_path, i, y);
        if i < p {
            assert(new_path[i] == old_path[i]);
            assert(names(new_path, i, y));
        } else if i > p {
            assert(new_path[i - 1] == old_path[i - 1 + 1]);
            assert(names(new_path, i - 1, y));
        }
    }
}

/// The spare slots lie behind the sentinels, are named once each, and are
/// not on the path.
pub open spec fn spare_ok(free: Seq<usize>, path: Seq<usize>, slots: int) -> bool {
    &&& forall|f: int| 0 <= f < free.len() ==> 2 <= #[trigger] free[f] < slots
    &&& forall|f: int, g: int| 0 <= f < g < free.len() ==> #[trigger] free[f] != #[trigger] free[g]
    &&& forall|f: int, i: int|
        0 <= f < free.len() && 0 <= i < path.len() ==> #[trigger] free[f] != #[trigger] path[i]
}

/// Position `c` is the head or holds a key before `key`.
pub open spec fn key_after<K: OrderedKey, V>(nodes: Seq<Node<K, V>>, path: Seq<usize>, c: int, key: K) -> bool {
    c >= 1 ==> key_at(nodes, path, c).ordinal() < key.ordinal()
}

/// Position `b` is past the path's end or holds a key not before `key`.
pub open spec fn key_not_after<K: OrderedKey, V>(nodes: Seq<Node<K, V>>, path: Seq<usize>, b: int, key: K) -> bool {
    b < path.len() ==> key.ordinal() <= key_at(nodes, path, b).ordinal()
}

/// `update[l]` sits at position `ranks[l]`, reaches above level `l`, and
/// no node between it and position `b` does.
pub open spec fn pred_ok<K, V>(
    nodes: Seq<Node<K, V>>,
    path: Seq<usize>,
    update: Seq<usize>,
    ranks: Seq<usize>,
    l: int,
    b: int,
) -> bool {
    let r = ranks[l] as int;
    &&& 0 <= r < b
    &&& b <= path.len()
    &&& path[r] == update[l]
    &&& tall(nodes, path, r) > l
    &&& forall|m: int| r < m < b ==> #[trigger] tall(nodes, path, m) <= l
}

/// `update` and `ranks` name, level by level, the last node before the
/// place of `key`; at the base level that is the entry just before it.
pub open spec fn located<K: OrderedKey, V>(
    nodes: Seq<Node<K, V>>,
    path: Seq<usize>,
    cap: int,
    key: K,
    update: Seq<usize>,
    ranks: Seq<usize>,
) -> bool {
    &&& update.len() == cap
    &&& ranks.len() == cap
    &&& key_after(nodes, path, ranks[0] as int, key)
    &&& key_not_after(nodes, path, ranks[0] + 1, key)
    &&& forall|l: int| 0 <= l < cap ==> #[trigger] pred_ok(nodes, path, update, ranks, l, ranks[0] + 1)
}

/// `b` has the heights of `a`, and its links and spans at every level but
/// `l`.
pub open spec fn same_but_level<K, V>(a: Seq<Node<K, V>>, b: Seq<Node<K, V>>, l: int) -> bool {
    &&& a.len() == b.len()
    &&& forall|y: int|
        0 <= y < a.len() ==> {
            &&& (#[trigger] b[y]).height == a[y].height
            &&& b[y].forwards@.len() == a[y].forwards@.len()
            &&& b[y].spans@.len() == a[y].spans@.len()
        }
    &&& forall|y: int, k: int|
        0 <= y < a.len() && 0 <= k < a[y].forwards@.len() && k != l ==> #[trigger] b[y].forwards@[k]
            == a[y].forwards@[k]
    &&& forall|y: int, k: int|
        0 <= y < a.len() && 0 <= k < a[y].spans@.len() && k != l ==> #[trigger] b[y].spans@[k]
            == a[y].spans@[k]
}

/// `b` has the level-`l` link and span of `a` in every node but `u` and `x`.
pub open spec fn level_kept_but<K, V>(
    a: Seq<Node<K, V>>,
    b: Seq<Node<K, V>>,
    l: int,
    u: int,
    x: int,
) -> bool {
    forall|y: int|
        0 <= y < a.len() && y != u && y != x ==> (#[trigger] b[y]).forwards@[l] == a[y].forwards@[l]
            && b[y].spans@[l] == a[y].spans@[l]
}

/// Every position of the path names a slot of the arena.
pub open spec fn in_arena(path: Seq<usize>, slots: int) -> bool {
    forall|m: int| 0 <= m < path.len() ==> 0 <= #[trigger] path[m] < slots
}

/// No position of the path names `x`.
pub open spec fn off_path(path: Seq<usize>, x: usize) -> bool {
    forall|m: int| 0 <= m < path.len() ==> #[trigger] path[m] != x
}

/// `new_path` is `old_path` with `x` put in at position `p`.
pub open spec fn inserted(old_path: Seq<usize>, new_path: Seq<usize>, p: int, x: usize) -> bool {
    &&& 1 <= p <= old_path.len()
    &&& new_path.len() == old_path.len() + 1
    &&& new_path[p] == x
    &&& forall|m: int| 0 <= m < p ==> #[trigger] new_path[m] == old_path[m]
    &&& forall|m: int| p < m < new_path.len() ==> #[trigger] new_path[m] == old_path[m - 1]
}

/// `new_path` is `old_path` with position `p` taken out.
pub open spec fn removed(old_path: Seq<usize>, new_path: Seq<usize>, p: int) -> bool {
    &&& 1 <= p < old_path.len()
    &&& new_path.len() == old_path.len() - 1
    &&& forall|m: int| 0 <= m < p ==> #[trigger] new_path[m] == old_path[m]
    &&& forall|m: int| p <= m < new_path.len() ==> #[trigger] new_path[m] == old_path[m + 1]
}

/// At level `l`, every node of the path that reaches above it has a right
/// link.
pub open spec fn level_ok<K, V>(nodes: Seq<Node<K, V>>, path: Seq<usize>, l: int) -> bool {
    forall|i: int| 0 <= i < path.len() && tall(nodes, path, i) > l ==> #[trigger] link_ok(nodes, path, i, l)
}

/// A link that is right stays right when only another level is relinked.
pub proof fn lemma_other_level_kept<K, V>(
    a: Seq<Node<K, V>>,
    b: Seq<Node<K, V>>,
    path: Seq<usize>,
    l: int,
    k: int,
)
    requires
        same_but_level(a, b, l),
        k != l,
        0 <= k,
        in_arena(path, a.len() as int),
        forall|y: int| 0 <= y < a.len() ==> k < (#[trigger] a[y]).forwards@.len() && k < a[y].spans@.len(),
        level_ok(a, path, k),
    ensures
        level_ok(b, path, k),
{
    assert forall|i: int| 0 <= i < path.len() && tall(b, path, i) > k implies #[trigger] link_ok(
        b,
        path,
        i,
        k,
    ) by {
        let y = path[i] as int;
        assert(b[y].height == a[y].height);
        assert(tall(a, path, i) > k);
        assert(link_ok(a, path, i, k));
        assert(b[y].forwards@[k] == a[y].forwards@[k]);
        assert(b[y].spans@[k] == a[y].spans@[k]);
        let s = a[y].spans@[k] as int;
        assert forall|m: int| 0 <= m < path.len() implies tall(b, path, m) == tall(a, path, m) by {
            assert(b[path[m] as int].height == a[path[m] as int].height);
        }
        match a[y].forwards@[k] {
            Some(t) => {
                assert forall|m: int| i < m < i + s implies #[trigger] tall(b, path, m) <= k by {
                    assert(tall(a, path, m) <= k);
                }
            },
            None => {
                assert forall|m: int| i < m <= path.len() - 1 implies #[trigger] tall(b, path, m) <= k by {
                    assert(tall(a, path, m) <= k);
                }
            },
        }
    }
}

/// Putting a node of height `h` in at position `p` and relinking level `l`
/// of its predecessor `u`, and of the node itself where it reaches that
/// level, leaves every level-`l` link right along the longer path.
pub proof fn lemma_level_spliced<K, V>(
    a: Seq<Node<K, V>>,
    b: Seq<Node<K, V>>,
    old_path: Seq<usize>,
    new_path: Seq<usize>,
    p: int,
    x: usize,
    u: usize,
    r: int,
    l: int,
    h: int,
)
    requires
        same_but_level(a, b, l),
        level_kept_but(a, b, l, u as int, x as int),
        inserted(old_path, new_path, p, x),
        in_arena(old_path, a.len() as int),
        off_path(old_path, x),
        x < a.len(),
        forall|i: int, j: int| 0 <= i < j < old_path.len() ==> old_path[i] != old_path[j],
        0 <= l,
        forall|y: int| 0 <= y < a.len() ==> l < (#[trigger] a[y]).forwards@.len() && l < a[y].spans@.len(),
        0 <= r < p,
        old_path[r] == u,
        tall(a, old_path, r) > l,
        forall|m: int| r < m < p ==> #[trigger] tall(a, old_path, m) <= l,
        a[x as int].height == h,
        level_ok(a, old_path, l),
        l < h ==> {
            &&& b[u as int].forwards@[l] == Some(x)
            &&& b[u as int].spans@[l] == p - r
            &&& b[x as int].forwards@[l] == a[u as int].forwards@[l]
            &&& b[x as int].spans@[l] == a[u as int].spans@[l] - (p - r) + 1
        },
        l >= h ==> {
            &&& b[u as int].forwards@[l] == a[u as int].forwards@[l]
            &&& b[u as int].spans@[l] == a[u as int].spans@[l] + 1
        },
    ensures
        level_ok(b, new_path, l),
{
    let n = old_path.len() - 1;
    assert forall|m: int| 0 <= m < new_path.len() implies #[trigger] tall(b, new_path, m) == (if m < p {
        tall(a, old_path, m)
    } else if m == p {
        h
    } else {
        tall(a, old_path, m - 1)
    }) by {
        if m < p {
            assert(new_path[m] == old_path[m]);
            assert(b[old_path[m] as int].height == a[old_path[m] as int].height);
        } else if m == p {
            assert(b[x as int].height == a[x as int].height);
        } else {
            assert(new_path[m] == old_path[m - 1]);
            assert(b[old_path[m - 1] as int].height == a[old_path[m - 1] as int].height);
        }
    }
    assert(link_ok(a, old_path, r, l));
    let su = a[u as int].spans@[l] as int;
    // The predecessor's old link ends at or after the place of the new node.
    assert(a[u as int].forwards@[l].is_some() ==> r + su >= p) by {
        if a[u as int].forwards@[l].is_some() && r + su < p {
            assert(tall(a, old_path, r + su) <= l);
        }
    }
    assert forall|i: int| 0 <= i < new_path.len() && tall(b, new_path, i) > l implies #[trigger] link_ok(
        b,
        new_path,
        i,
        l,
    ) by {
        if i == p {
            match a[u as int].forwards@[l] {
                Some(t) => {
                    assert(new_path[r + su + 1] == old_path[r + su + 1 - 1]);
                    assert(tall(b, new_path, r + su + 1) == tall(a, old_path, r + su));
                    assert forall|m: int| p < m < r + su + 1 implies #[trigger] tall(b, new_path, m)
                        <= l by {
                        assert(tall(a, old_path, m - 1) <= l);
                    }
                },
                None => {
                    assert forall|m: int| p < m <= n + 1 implies #[trigger] tall(b, new_path, m) <= l by {
                        assert(tall(a, old_path, m - 1) <= l);
                    }
                },
            }
        } else if i == r {
            assert(new_path[r] == old_path[r]);
            if l < h {
                assert forall|m: int| r < m < p implies #[trigger] tall(b, new_path, m) <= l by {
                    assert(tall(a, old_path, m) <= l);
                }
                assert(tall(b, new_path, p) == h);
            } else {
                match a[u as int].forwards@[l] {
                    Some(t) => {
                        assert(new_path[r + su + 1] == old_path[r + su + 1 - 1]);
                        assert(tall(b, new_path, r + su + 1) == tall(a, old_path, r + su));
                        assert forall|m: int| r < m < r + su + 1 implies #[trigger] tall(
                            b,
                            new_path,
                            m,
                        ) <= l by {
                            if m < p {
                                assert(tall(a, old_path, m) <= l);
                            } else if m > p {
                                assert(tall(a, old_path, m - 1) <= l);
                            }
                        }
                    },
                    None => {
                        assert forall|m: int| r < m <= n + 1 implies #[trigger] tall(b, new_path, m)
                            <= l by {
                            if m < p {
                                assert(tall(a, old_path, m) <= l);
                            } else if m > p {
                                assert(tall(a, old_path, m - 1) <= l);
                            }
                        }
                    },
                }
            }
        } else if i < p {
            let y = old_path[i];
            assert(new_path[i] == y);
            assert(y != u);
            assert(y != x);
            assert(tall(a, old_path, i) > l);
            assert(link_ok(a, old_path, i, l));
            assert(i < r) by {
                if i > r {
                    assert(tall(a, old_path, i) <= l);
                }
            }
            let s = a[y as int].spans@[l] as int;
            assert(b[y as int].forwards@[l] == a[y as int].forwards@[l]);
            assert(b[y as int].spans@[l] == a[y as int].spans@[l]);
            match a[y as int].forwards@[l] {
                Some(t) => {
                    assert(i + s <= r) by {
                        if i + s > r {
                            assert(tall(a, old_path, r) <= l);
                        }
                    }
                    assert(new_path[i + s] == old_path[i + s]);
                    assert(tall(b, new_path, i + s) == tall(a, old_path, i + s));
                    assert forall|m: int| i < m < i + s implies #[trigger] tall(b, new_path, m) <= l by {
                        assert(tall(a, old_path, m) <= l);
                    }
                },
                None => {
                    assert(tall(a, old_path, r) <= l);
                },
            }
        } else {
            let y = old_path[i - 1];
            assert(new_path[i] == y);
            assert(y != u);
            assert(y != x);
            assert(tall(a, old_path, i - 1) > l);
            assert(link_ok(a, old_path, i - 1, l));
            let s = a[y as int].spans@[l] as int;
            assert(b[y as int].forwards@[l] == a[y as int].forwards@[l]);
            assert(b[y as int].spans@[l] == a[y as int].spans@[l]);
            match a[y as int].forwards@[l] {
                Some(t) => {
                    assert(new_path[i + s] == old_path[i + s - 1]);
                    assert(tall(b, new_path, i + s) == tall(a, old_path, i + s - 1));
                    assert forall|m: int| i < m < i + s implies #[trigger] tall(b, new_path, m) <= l by {
                        assert(tall(a, old_path, m - 1) <= l);
                    }
                },
                None => {
                    assert forall|m: int| i < m <= n + 1 implies #[trigger] tall(b, new_path, m) <= l by {
                        assert(tall(a, old_path, m - 1) <= l);
                    }
                },
            }
        }
    }
}

/// `b` has the keys, values, heights and back references of `a`, and as
/// much room per node.
pub open spec fn same_shell<K, V>(a: Seq<Node<K, V>>, b: Seq<Node<K, V>>) -> bool {
    &&& a.len() == b.len()
    &&& forall|y: int|
        0 <= y < a.len() ==> {
            &&& (#[trigger] b[y]).key == a[y].key
            &&& b[y].value == a[y].value
            &&& b[y].height == a[y].height
            &&& b[y].back == a[y].back
            &&& b[y].forwards@.len() == a[y].forwards@.len()
            &&& b[y].spans@.len() == a[y].spans@.len()
        }
}

/// `b` is `a` with the slot `x` filled afresh and, where `x` lies past the
/// end of `a`, added.
pub open spec fn refilled<K, V>(a: Seq<Node<K, V>>, b: Seq<Node<K, V>>, x: int) -> bool {
    &&& a.len() <= b.len()
    &&& 2 <= x < b.len()
    &&& forall|y: int| 0 <= y < a.len() && y != x ==> #[trigger] b[y] == a[y]
}

/// A sound structure stays sound when a slot off the path is refilled.
pub proof fn lemma_refilled_linked<K: OrderedKey, V>(
    a: Seq<Node<K, V>>,
    b: Seq<Node<K, V>>,
    path: Seq<usize>,
    cap: int,
    top: int,
    x: usize,
)
    requires
        linked(a, path, cap, top),
        refilled(a, b, x as int),
        off_path(path, x),
        slots_ok(b, cap),
    ensures
        linked(b, path, cap, top),
{
    assert forall|m: int| 0 <= m < path.len() implies b[#[trigger] path[m] as int] == a[path[m] as int] by {
        if m > 0 {
            assert(2 <= path[m] < a.len());
        }
        assert(path[m] != x);
    }
    assert forall|m: int| 0 <= m < path.len() implies #[trigger] tall(b, path, m) == tall(a, path, m) by {
        assert(b[path[m] as int] == a[path[m] as int]);
    }
    assert forall|i: int| 1 <= i < path.len() implies {
        &&& (#[trigger] b[path[i] as int]).key.is_some()
        &&& b[path[i] as int].value.is_some()
        &&& 1 <= b[path[i] as int].height <= top
    } by {
        assert(b[path[i] as int] == a[path[i] as int]);
        assert(a[path[i] as int].key.is_some());
    }
    assert(b[TAIL as int] == a[TAIL as int]);
    assert(b[HEAD as int] == a[HEAD as int]);
    assert forall|i: int| 1 <= i < path.len() implies (#[trigger] b[path[i] as int]).back == Some(
        path[i - 1],
    ) by {
        assert(b[path[i] as int] == a[path[i] as int]);
        assert(a[path[i] as int].back == Some(path[i - 1]));
    }
    assert forall|i: int, j: int| 1 <= i < j < path.len() implies (#[trigger] key_at(b, path, i)).ordinal() < (
    #[trigger] key_at(b, path, j)).ordinal() by {
        assert(b[path[i] as int] == a[path[i] as int]);
        assert(b[path[j] as int] == a[path[j] as int]);
        assert(key_at(a, path, i).ordinal() < key_at(a, path, j).ordinal());
    }
    assert forall|i: int, l: int| 0 <= i < path.len() && 0 <= l < tall(b, path, i) implies #[trigger] link_ok(
        b,
        path,
        i,
        l,
    ) by {
        assert(tall(a, path, i) == tall(b, path, i));
        assert(link_ok(a, path, i, l));
        assert(b[path[i] as int] == a[path[i] as int]);
        let s = a[path[i] as int].spans@[l] as int;
        match a[path[i] as int].forwards@[l] {
            Some(t) => {
                assert(tall(b, path, i + s) == tall(a, path, i + s));
                assert forall|m: int| i < m < i + s implies #[trigger] tall(b, path, m) <= l by {
                    assert(tall(a, path, m) <= l);
                }
            },
            None => {
                assert forall|m: int| i < m <= path.len() - 1 implies #[trigger] tall(b, path, m) <= l by {
                    assert(tall(a, path, m) <= l);
                }
            },
        }
    }
}

/// The base-level link of a node leads to the very next position, and a
/// predecessor's link at any level ends at or after the place it precedes.
pub proof fn lemma_pred_span<K: OrderedKey, V>(
    nodes: Seq<Node<K, V>>,
    path: Seq<usize>,
    cap: int,
    top: int,
    r: int,
    p: int,
    l: int,
)
    requires
        linked(nodes, path, cap, top),
        0 <= r < p <= path.len(),
        0 <= l < tall(nodes, path, r),
        forall|m: int| r < m < p ==> #[trigger] tall(nodes, path, m) <= l,
    ensures
        link_ok(nodes, path, r, l),
        r + nodes[path[r] as int].spans@[l] <= path.len() - 1,
        nodes[path[r] as int].forwards@[l].is_some() ==> r + nodes[path[r] as int].spans@[l] >= p,
        nodes[path[r] as int].forwards@[l].is_none() ==> r + nodes[path[r] as int].spans@[l] + 1 >= p,
        l == 0 ==> (match nodes[path[r] as int].forwards@[0] {
            Some(t) => r + 1 < path.len() && t == path[r + 1] && nodes[path[r] as int].spans@[0] == 1,
            None => r + 1 == path.len(),
        }),
{
    assert(link_ok(nodes, path, r, l));
    let s = nodes[path[r] as int].spans@[l] as int;
    if nodes[path[r] as int].forwards@[l].is_some() {
        if r + s < p {
            assert(tall(nodes, path, r + s) <= l);
        }
        if l == 0 && s > 1 {
            assert(tall(nodes, path, r + 1) <= 0);
            assert(nodes[path[r + 1] as int].key.is_some());
        }
    } else {
        if l == 0 && r + 1 < path.len() {
            assert(tall(nodes, path, r + 1) <= 0);
            assert(nodes[path[r + 1] as int].key.is_some());
        }
    }
}

/// `b` holds the keys, values and heights of `a` in every slot but `x`.
pub open spec fn contents_kept_but<K, V>(a: Seq<Node<K, V>>, b: Seq<Node<K, V>>, x: int) -> bool {
    &&& a.len() <= b.len()
    &&& forall|y: int|
        0 <= y < a.len() && y != x ==> {
            &&& (#[trigger] b[y]).key == a[y].key
            &&& b[y].value == a[y].value
            &&& b[y].height == a[y].height
        }
}

/// `b` has the back references of `a` in every slot but `x` and `z`.
pub open spec fn backs_kept_but<K, V>(a: Seq<Node<K, V>>, b: Seq<Node<K, V>>, x: int, z: int) -> bool {
    forall|y: int| 0 <= y < a.len() && y != x && y != z ==> (#[trigger] b[y]).back == a[y].back
}

/// The slot whose back reference names position `p - 1` of the path: the
/// node at position `p`, or the tail where the path ends before `p`.
pub open spec fn slot_after(path: Seq<usize>, p: int) -> usize {
    if p < path.len() {
        path[p]
    } else {
        TAIL
    }
}

/// Once a new node sits at position `p` with every level relinked, the
/// structure is sound along the longer path, and its entries are the old
/// ones with the new entry put in.
pub proof fn lemma_insert_done<K: OrderedKey, V>(
    a: Seq<Node<K, V>>,
    b: Seq<Node<K, V>>,
    old_path: Seq<usize>,
    new_path: Seq<usize>,
    cap: int,
    top: int,
    new_top: int,
    p: int,
    x: usize,
    key: K,
    value: V,
)
    requires
        linked(a, old_path, cap, top),
        inserted(old_path, new_path, p, x),
        off_path(old_path, x),
        2 <= x < b.len(),
        slots_ok(b, cap),
        contents_kept_but(a, b, x as int),
        b[x as int].key == Some(key),
        b[x as int].value == Some(value),
        1 <= b[x as int].height <= cap,
        new_top == (if b[x as int].height > top {
            b[x as int].height as int
        } else {
            top
        }),
        key_after(a, old_path, p - 1, key),
        p < old_path.len() ==> key.ordinal() < key_at(a, old_path, p).ordinal(),
        b[x as int].back == Some(old_path[p - 1]),
        b[slot_after(old_path, p) as int].back == Some(x),
        backs_kept_but(a, b, x as int, slot_after(old_path, p) as int),
        forall|k: int| 0 <= k < cap ==> #[trigger] level_ok(b, new_path, k),
        new_top > 1 ==> b[HEAD as int].forwards@[new_top - 1].is_some(),
    ensures
        linked(b, new_path, cap, new_top),
        entries_of(b, new_path) == entries_of(a, old_path).insert(p - 1, (key, value)),
{
    let n = old_path.len() - 1;
    // The path.
    assert forall|i: int| 1 <= i < new_path.len() implies 2 <= #[trigger] new_path[i] < b.len() by {
        if i < p {
            assert(new_path[i] == old_path[i]);
        } else if i > p {
            assert(new_path[i] == old_path[i - 1]);
        }
    }
    assert forall|i: int, j: int| 0 <= i < j < new_path.len() implies #[trigger] new_path[i]
        != #[trigger] new_path[j] by {
        let oi = if i < p { i } else { i - 1 };
        let oj = if j < p { j } else { j - 1 };
        if i != p {
            assert(new_path[i] == old_path[oi]);
        }
        if j != p {
            assert(new_path[j] == old_path[oj]);
        }
    }
    assert(new_path[0] == old_path[0]);
    assert(path_ok(new_path, b.len() as int));
    // What the nodes hold.
    assert forall|m: int| 0 <= m < new_path.len() && m != p implies b[#[trigger] new_path[m] as int].key
        == a[old_path[if m < p { m } else { m - 1 }] as int].key && b[new_path[m] as int].value
        == a[old_path[if m < p { m } else { m - 1 }] as int].value && b[new_path[m] as int].height
        == a[old_path[if m < p { m } else { m - 1 }] as int].height by {
        let om = if m < p { m } else { m - 1 };
        assert(new_path[m] == old_path[om]);
        assert(old_path[om] != x);
        if om > 0 {
            assert(2 <= old_path[om] < a.len());
        }
    }
    assert(b[HEAD as int].key == a[HEAD as int].key);
    assert(b[TAIL as int].key == a[TAIL as int].key);
    assert forall|i: int| 1 <= i < new_path.len() implies {
        &&& (#[trigger] b[new_path[i] as int]).key.is_some()
        &&& b[new_path[i] as int].value.is_some()
        &&& 1 <= b[new_path[i] as int].height <= new_top
    } by {
        if i != p {
            let oi = if i < p { i } else { i - 1 };
            assert(b[new_path[i] as int].key == a[old_path[oi] as int].key);
            assert(a[old_path[oi] as int].key.is_some());
        }
    }
    assert(members_ok(b, new_path, cap, new_top));
    // The back references.
    let z = slot_after(old_path, p);
    assert(b[HEAD as int].back == a[HEAD as int].back) by {
        assert(forall|i: int| 1 <= i < old_path.len() ==> 2 <= #[trigger] old_path[i]);
        if p < old_path.len() {
            assert(2 <= old_path[p]);
        }
    }
    assert(b[TAIL as int].back == Some(new_path.last())) by {
        if p < old_path.len() {
            assert(2 <= old_path[p]);
            assert(b[TAIL as int].back == a[TAIL as int].back);
            assert(new_path[n + 1] == old_path[n]);
        }
    }
    assert forall|i: int| 1 <= i < new_path.len() implies (#[trigger] b[new_path[i] as int]).back == Some(
        new_path[i - 1],
    ) by {
        if i < p {
            assert(new_path[i] == old_path[i]);
            assert(new_path[i - 1] == old_path[i - 1]);
            assert(old_path[i] != x);
            if p < old_path.len() {
                assert(old_path[i] != old_path[p]);
            } else {
                assert(2 <= old_path[i]);
            }
            assert(a[old_path[i] as int].back == Some(old_path[i - 1]));
        } else if i == p {
            assert(new_path[p - 1] == old_path[p - 1]);
        } else if i == p + 1 {
            assert(new_path[i] == old_path[p]);
        } else {
            assert(new_path[i] == old_path[i - 1]);
            assert(new_path[i - 1] == old_path[i - 2]);
            assert(old_path[i - 1] != x);
            assert(old_path[i - 1] != old_path[p]);
            assert(2 <= old_path[i - 1]);
            assert(a[old_path[i - 1] as int].back == Some(old_path[i - 2]));
        }
    }
    assert(backs_ok(b, new_path));
    // The keys.
    assert forall|i: int, j: int| 1 <= i < j < new_path.len() implies (#[trigger] key_at(
        b,
        new_path,
        i,
    )).ordinal() < (#[trigger] key_at(b, new_path, j)).ordinal() by {
        let oi = if i < p { i } else { i - 1 };
        let oj = if j < p { j } else { j - 1 };
        if i != p {
            assert(b[new_path[i] as int].key == a[old_path[oi] as int].key);
        }
        if j != p {
            assert(b[new_path[j] as int].key == a[old_path[oj] as int].key);
        }
        if i == p {
            if oj > p {
                assert(key_at(a, old_path, p).ordinal() < key_at(a, old_path, oj).ordinal());
            }
        } else if j == p {
            if oi < p - 1 {
                assert(key_at(a, old_path, oi).ordinal() < key_at(a, old_path, p - 1).ordinal());
            }
        } else {
            assert(key_at(a, old_path, oi).ordinal() < key_at(a, old_path, oj).ordinal());
        }
    }
    assert(keys_ok(b, new_path));
    // The links.
    assert forall|i: int, l: int|
        0 <= i < new_path.len() && 0 <= l < tall(b, new_path, i) implies #[trigger] link_ok(
        b,
        new_path,
        i,
        l,
    ) by {
        assert(b[new_path[i] as int].height <= cap) by {
            if i == 0 {
                assert(b[HEAD as int].height == a[HEAD as int].height);
            } else {
                assert(b[new_path[i] as int].key.is_some());
            }
        }
        assert(level_ok(b, new_path, l));
    }
    // The entries.
    let e0 = entries_of(a, old_path);
    let e1 = entries_of(b, new_path);
    let e2 = e0.insert(p - 1, (key, value));
    assert(e1.len() == e2.len());
    assert forall|i: int| 0 <= i < e1.len() implies e1[i] == e2[i] by {
        if i + 1 != p {
            let m = i + 1;
            assert(b[new_path[m] as int].key == a[old_path[if m < p { m } else { m - 1 }] as int].key);
        }
    }
    assert(e1 =~= e2);
}

/// Taking the node at position `p` out and relinking level `l` of its
/// predecessor `u` leaves every level-`l` link right along the shorter
/// path: where the node reached the level, `u` takes over its link and
/// the two spans fold into one; where it did not, the link of `u` passes
/// over one entry less.
pub proof fn lemma_level_unlinked<K, V>(
    a: Seq<Node<K, V>>,
    b: Seq<Node<K, V>>,
    old_path: Seq<usize>,
    new_path: Seq<usize>,
    p: int,
    x: usize,
    u: usize,
    r: int,
    l: int,
    h: int,
)
    requires
        same_but_level(a, b, l),
        level_kept_but(a, b, l, u as int, x as int),
        removed(old_path, new_path, p),
        old_path[p] == x,
        in_arena(old_path, a.len() as int),
        forall|i: int, j: int| 0 <= i < j < old_path.len() ==> old_path[i] != old_path[j],
        0 <= l,
        forall|y: int| 0 <= y < a.len() ==> l < (#[trigger] a[y]).forwards@.len() && l < a[y].spans@.len(),
        0 <= r < p,
        old_path[r] == u,
        tall(a, old_path, r) > l,
        forall|m: int| r < m < p ==> #[trigger] tall(a, old_path, m) <= l,
        a[x as int].height == h,
        level_ok(a, old_path, l),
        l < h ==> {
            &&& b[u as int].forwards@[l] == a[x as int].forwards@[l]
            &&& b[u as int].spans@[l] == a[u as int].spans@[l] + a[x as int].spans@[l] - 1
        },
        l >= h ==> {
            &&& b[u as int].forwards@[l] == a[u as int].forwards@[l]
            &&& b[u as int].spans@[l] == a[u as int].spans@[l] - 1
        },
    ensures
        level_ok(b, new_path, l),
{
    let n = old_path.len() - 1;
    assert forall|m: int| 0 <= m < new_path.len() implies #[trigger] tall(b, new_path, m) == (if m < p {
        tall(a, old_path, m)
    } else {
        tall(a, old_path, m + 1)
    }) by {
        if m < p {
            assert(new_path[m] == old_path[m]);
            assert(b[old_path[m] as int].height == a[old_path[m] as int].height);
        } else {
            assert(new_path[m] == old_path[m + 1]);
            assert(b[old_path[m + 1] as int].height == a[old_path[m + 1] as int].height);
        }
    }
    assert(link_ok(a, old_path, r, l));
    let su = a[u as int].spans@[l] as int;
    let sx = a[x as int].spans@[l] as int;
    assert(tall(a, old_path, p) == h);
    // Where the predecessor's old link ends: at the node if it reaches the
    // level, beyond it if not.
    if l < h {
        assert(link_ok(a, old_path, p, l));
        assert(a[u as int].forwards@[l].is_some() && r + su == p) by {
            if a[u as int].forwards@[l].is_none() {
                assert(tall(a, old_path, p) <= l);
            } else if r + su < p {
                assert(tall(a, old_path, r + su) <= l);
            } else if r + su > p {
                assert(tall(a, old_path, p) <= l);
            }
        }
    } else {
        assert(a[u as int].forwards@[l].is_some() ==> r + su > p) by {
            if a[u as int].forwards@[l].is_some() && r + su < p {
                assert(tall(a, old_path, r + su) <= l);
            }
        }
    }
    assert forall|i: int| 0 <= i < new_path.len() && tall(b, new_path, i) > l implies #[trigger] link_ok(
        b,
        new_path,
        i,
        l,
    ) by {
        if i == r {
            assert(new_path[r] == old_path[r]);
            if l < h {
                match a[x as int].forwards@[l] {
                    Some(t) => {
                        assert(new_path[p + sx - 1] == old_path[p + sx - 1 + 1]);
                        assert(tall(b, new_path, p + sx - 1) == tall(a, old_path, p + sx));
                        assert forall|m: int| r < m < r + su + sx - 1 implies #[trigger] tall(
                            b,
                            new_path,
                            m,
                        ) <= l by {
                            if m < p {
                                assert(tall(a, old_path, m) <= l);
                            } else {
                                assert(tall(a, old_path, m + 1) <= l);
                            }
                        }
                    },
                    None => {
                        assert forall|m: int| r < m <= n - 1 implies #[trigger] tall(b, new_path, m)
                            <= l by {
                            if m < p {
                                assert(tall(a, old_path, m) <= l);
                            } else {
                                assert(tall(a, old_path, m + 1) <= l);
                            }
                        }
                    },
                }
            } else {
                match a[u as int].forwards@[l] {
                    Some(t) => {
                        assert(new_path[r + su - 1] == old_path[r + su - 1 + 1]);
                        assert(tall(b, new_path, r + su - 1) == tall(a, old_path, r + su));
                        assert forall|m: int| r < m < r + su - 1 implies #[trigger] tall(
                            b,
                            new_path,
                            m,
                        ) <= l by {
                            if m < p {
                                assert(tall(a, old_path, m) <= l);
                            } else {
                                assert(tall(a, old_path, m + 1) <= l);
                            }
                        }
                    },
                    None => {
                        assert forall|m: int| r < m <= n - 1 implies #[trigger] tall(b, new_path, m)
                            <= l by {
                            if m < p {
                                assert(tall(a, old_path, m) <= l);
                            } else {
                                assert(tall(a, old_path, m + 1) <= l);
                            }
                        }
                    },
                }
            }
        } else if i < p {
            let y = old_path[i];
            assert(new_path[i] == y);
            assert(y != u);
            assert(y != x);
            assert(tall(a, old_path, i) > l);
            assert(link_ok(a, old_path, i, l));
            assert(i < r) by {
                if i > r {
                    assert(tall(a, old_path, i) <= l);
                }
            }
            let s = a[y as int].spans@[l] as int;
            assert(b[y as int].forwards@[l] == a[y as int].forwards@[l]);
            assert(b[y as int].spans@[l] == a[y as int].spans@[l]);
            match a[y as int].forwards@[l] {
                Some(t) => {
                    assert(i + s <= r) by {
                        if i + s > r {
                            assert(tall(a, old_path, r) <= l);
                        }
                    }
                    assert(new_path[i + s] == old_path[i + s]);
                    assert(tall(b, new_path, i + s) == tall(a, old_path, i + s));
                    assert forall|m: int| i < m < i + s implies #[trigger] tall(b, new_path, m) <= l by {
                        assert(tall(a, old_path, m) <= l);
                    }
                },
                None => {
                    assert(tall(a, old_path, r) <= l);
                },
            }
        } else {
            let y = old_path[i + 1];
            assert(new_path[i] == y);
            assert(y != u);
            assert(y != x);
            assert(tall(a, old_path, i + 1) > l);
            assert(link_ok(a, old_path, i + 1, l));
            let s = a[y as int].spans@[l] as int;
            assert(b[y as int].forwards@[l] == a[y as int].forwards@[l]);
            assert(b[y as int].spans@[l] == a[y as int].spans@[l]);
            match a[y as int].forwards@[l] {
                Some(t) => {
                    assert(new_path[i + s] == old_path[i + s + 1]);
                    assert(tall(b, new_path, i + s) == tall(a, old_path, i + s + 1));
                    assert forall|m: int| i < m < i + s implies #[trigger] tall(b, new_path, m) <= l by {
                        assert(tall(a, old_path, m + 1) <= l);
                    }
                },
                None => {
                    assert forall|m: int| i < m <= n - 1 implies #[trigger] tall(b, new_path, m) <= l by {
                        assert(tall(a, old_path, m + 1) <= l);
                    }
                },
            }
        }
    }
}

/// Once the node at position `p` is off every level, the rest of the
/// structure is sound along the shorter path, and its entries are the old
/// ones with that entry taken out.
pub proof fn lemma_remove_done<K: OrderedKey, V>(
    a: Seq<Node<K, V>>,
    b: Seq<Node<K, V>>,
    old_path: Seq<usize>,
    new_path: Seq<usize>,
    cap: int,
    top: int,
    p: int,
    x: usize,
)
    requires
        linked(a, old_path, cap, top),
        removed(old_path, new_path, p),
        old_path[p] == x,
        a.len() == b.len(),
        slots_ok(b, cap),
        contents_kept_but(a, b, x as int),
        b[slot_after(old_path, p + 1) as int].back == Some(old_path[p - 1]),
        backs_kept_but(a, b, x as int, slot_after(old_path, p + 1) as int),
        forall|k: int| 0 <= k < cap ==> #[trigger] level_ok(b, new_path, k),
    ensures
        joined(b, new_path, cap, top),
        entries_of(b, new_path) == entries_of(a, old_path).remove(p - 1),
{
    let n = old_path.len() - 1;
    assert forall|i: int| 1 <= i < new_path.len() implies 2 <= #[trigger] new_path[i] < b.len() by {
        if i < p {
            assert(new_path[i] == old_path[i]);
        } else {
            assert(new_path[i] == old_path[i + 1]);
        }
    }
    assert forall|i: int, j: int| 0 <= i < j < new_path.len() implies #[trigger] new_path[i]
        != #[trigger] new_path[j] by {
        let oi = if i < p { i } else { i + 1 };
        let oj = if j < p { j } else { j + 1 };
        assert(new_path[i] == old_path[oi]);
        assert(new_path[j] == old_path[oj]);
    }
    assert(new_path[0] == old_path[0]);
    assert(2 <= x) by {
        assert(2 <= old_path[p]);
    }
    assert forall|m: int| 0 <= m < new_path.len() implies b[#[trigger] new_path[m] as int].key
        == a[old_path[if m < p { m } else { m + 1 }] as int].key && b[new_path[m] as int].value
        == a[old_path[if m < p { m } else { m + 1 }] as int].value && b[new_path[m] as int].height
        == a[old_path[if m < p { m } else { m + 1 }] as int].height by {
        let om = if m < p { m } else { m + 1 };
        assert(new_path[m] == old_path[om]);
        assert(old_path[om] != old_path[p]);
        if om > 0 {
            assert(2 <= old_path[om] < a.len());
        }
    }
    assert(b[HEAD as int].key == a[HEAD as int].key);
    assert(b[TAIL as int].key == a[TAIL as int].key);
    assert forall|i: int| 1 <= i < new_path.len() implies {
        &&& (#[trigger] b[new_path[i] as int]).key.is_some()
        &&& b[new_path[i] as int].value.is_some()
        &&& 1 <= b[new_path[i] as int].height <= top
    } by {
        let oi = if i < p { i } else { i + 1 };
        assert(b[new_path[i] as int].key == a[old_path[oi] as int].key);
        assert(a[old_path[oi] as int].key.is_some());
    }
    assert(members_ok(b, new_path, cap, top));
    let z = slot_after(old_path, p + 1);
    assert(z != HEAD) by {
        if p + 1 < old_path.len() {
            assert(2 <= old_path[p + 1]);
        }
    }
    assert(b[HEAD as int].back == a[HEAD as int].back);
    assert(b[TAIL as int].back == Some(new_path.last())) by {
        if p + 1 < old_path.len() {
            assert(2 <= old_path[p + 1]);
            assert(b[TAIL as int].back == a[TAIL as int].back);
            assert(new_path[n - 1] == old_path[n]);
        } else {
            assert(new_path[p - 1] == old_path[p - 1]);
        }
    }
    assert forall|i: int| 1 <= i < new_path.len() implies (#[trigger] b[new_path[i] as int]).back == Some(
        new_path[i - 1],
    ) by {
        if i < p {
            assert(new_path[i] == old_path[i]);
            assert(new_path[i - 1] == old_path[i - 1]);
            assert(old_path[i] != old_path[p]);
            if p + 1 < old_path.len() {
                assert(old_path[i] != old_path[p + 1]);
            } else {
                assert(2 <= old_path[i]);
            }
            assert(a[old_path[i] as int].back == Some(old_path[i - 1]));
        } else if i == p {
            assert(new_path[i] == old_path[p + 1]);
            assert(new_path[p - 1] == old_path[p - 1]);
        } else {
            assert(new_path[i] == old_path[i + 1]);
            assert(new_path[i - 1] == old_path[i]);
            assert(old_path[i + 1] != old_path[p]);
            assert(old_path[i + 1] != old_path[p + 1]);
            assert(2 <= old_path[i + 1]);
            assert(a[old_path[i + 1] as int].back == Some(old_path[i]));
        }
    }
    assert(backs_ok(b, new_path));
    assert forall|i: int, j: int| 1 <= i < j < new_path.len() implies (#[trigger] key_at(
        b,
        new_path,
        i,
    )).ordinal() < (#[trigger] key_at(b, new_path, j)).ordinal() by {
        let oi = if i < p { i } else { i + 1 };
        let oj = if j < p { j } else { j + 1 };
        assert(b[new_path[i] as int].key == a[old_path[oi] as int].key);
        assert(b[new_path[j] as int].key == a[old_path[oj] as int].key);
        assert(key_at(a, old_path, oi).ordinal() < key_at(a, old_path, oj).ordinal());
    }
    assert(keys_ok(b, new_path));
    assert forall|i: int, l: int|
        0 <= i < new_path.len() && 0 <= l < tall(b, new_path, i) implies #[trigger] link_ok(
        b,
        new_path,
        i,
        l,
    ) by {
        assert(b[new_path[i] as int].height <= cap) by {
            if i == 0 {
                assert(b[HEAD as int].height == a[HEAD as int].height);
            } else {
                assert(b[new_path[i] as int].key.is_some());
            }
        }
        assert(level_ok(b, new_path, l));
    }
    let e0 = entries_of(a, old_path);
    let e1 = entries_of(b, new_path);
    let e2 = e0.remove(p - 1);
    assert(e1.len() == e2.len());
    assert forall|i: int| 0 <= i < e1.len() implies e1[i] == e2[i] by {
        let m = i + 1;
        assert(b[new_path[m] as int].key == a[old_path[if m < p { m } else { m + 1 }] as int].key);
    }
    assert(e1 =~= e2);
}

} // verus!
