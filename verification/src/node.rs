//! The linked record of a skip list.

use vstd::prelude::*;

verus! {

/// One record of the list, held in the list's arena and named by its index.
///
/// `forwards` and `spans` have one entry per level the list can reach; only
/// the first `height` of them are in use. `forwards[l]` names the next node
/// at level `l`, or is absent where this node is the last one there, and
/// `spans[l]` counts the entries that this link moves past, its target
/// included. `back` names the base-level predecessor.
pub struct Node<K, V> {
    pub key: Option<K>,
    pub value: Option<V>,
    pub height: usize,
    pub forwards: Vec<Option<usize>>,
    pub spans: Vec<usize>,
    pub back: Option<usize>,
}

impl<K, V> Node<K, V> {
    /// A sentinel: no key, no value, present on all `levels` levels, linked
    /// to nothing.
    pub fn head(levels: usize) -> (node: Self)
        ensures
            node.key.is_none(),
            node.value.is_none(),
            node.height == levels,
            node.back.is_none(),
            node.forwards@ == Seq::new(levels as nat, |l: int| None::<usize>),
            node.spans@ == Seq::new(levels as nat, |l: int| 0usize),
    {
        let mut forwards: Vec<Option<usize>> = Vec::new();
        let mut spans: Vec<usize> = Vec::new();
        let mut l: usize = 0;
        while l < levels
            invariant
                l <= levels,
                forwards@ == Seq::new(l as nat, |l: int| None::<usize>),
                spans@ == Seq::new(l as nat, |l: int| 0usize),
            decreases levels - l,
        {
            forwards.push(None);
            spans.push(0);
            l += 1;
            assert(forwards@ =~= Seq::new(l as nat, |l: int| None::<usize>));
            assert(spans@ =~= Seq::new(l as nat, |l: int| 0usize));
        }
        Node { key: None, value: None, height: levels, forwards, spans, back: None }
    }

    /// A record for `key` and `value` that takes part in the first `height`
    /// of `levels` levels and is linked to nothing yet.
    pub fn new(key: K, value: V, height: usize, levels: usize) -> (node: Self)
        ensures
            node.key == Some(key),
            node.value == Some(value),
            node.height == height,
            node.back.is_none(),
            node.forwards@ == Seq::new(levels as nat, |l: int| None::<usize>),
            node.spans@ == Seq::new(levels as nat, |l: int| 0usize),
    {
        let blank: Node<K, V> = Node::head(levels);
        Node {
            key: Some(key),
            value: Some(value),
            height,
            forwards: blank.forwards,
            spans: blank.spans,
            back: None,
        }
    }

    /// Whether this node is a sentinel, that is, holds no key.
    pub fn is_header(&self) -> (b: bool)
        ensures
            b == self.key.is_none(),
    {
        self.key.is_none()
    }
}

} // verus!
