//! A cursor over a stretch of a list's entries.

use vstd::prelude::*;
use crate::key::OrderedKey;
use crate::level::LevelGenerator;
use crate::run::{pairs, KVpair};
use crate::skiplist::SkipList;

verus! {

/// A forward cursor over a run of neighbouring entries of a list. It
/// stands on the node before the next entry and knows how many entries are
/// left; asking the list for the same range gives a fresh cursor.
pub struct Iter<'a, K, V, G> {
    list: &'a SkipList<K, V, G>,
    cursor: usize,
    size: usize,
}

impl<'a, K: OrderedKey, V, G: LevelGenerator> Iter<'a, K, V, G> {
    /// The cursor stands on a node of a sound list, with no more entries
    /// left to give than follow that node.
    pub closed spec fn wf(&self) -> bool {
        &&& self.list.wf()
        &&& self.list.on_path(self.cursor)
        &&& self.list.position(self.cursor) + self.size <= self.list.entries().len()
    }

    /// The list that the cursor walks.
    pub closed spec fn source(&self) -> SkipList<K, V, G> {
        *self.list
    }

    /// The entries that the cursor has yet to give, in order.
    pub closed spec fn remaining(&self) -> Seq<(K, V)> {
        self.list.entries().subrange(
            self.list.position(self.cursor),
            self.list.position(self.cursor) + self.size,
        )
    }

    /// A cursor over the `size` entries of `list` that follow the node
    /// `cursor`.
    pub(crate) fn begin(list: &'a SkipList<K, V, G>, cursor: usize, size: usize) -> (it: Self)
        requires
            list.wf(),
            list.on_path(cursor),
            list.position(cursor) + size <= list.entries().len(),
        ensures
            it.wf(),
            it.source() == *list,
            it.remaining() == list.entries().subrange(list.position(cursor), list.position(cursor) + size),
    {
        Iter { list, cursor, size }
    }

    /// The number of entries left.
    pub fn len(&self) -> (n: usize)
        requires
            self.wf(),
        ensures
            n == self.remaining().len(),
    {
        proof {
            self.list.lemma_on_path(self.cursor);
        }
        self.size
    }

    /// The next entry, if one is left.
    pub fn next(&mut self) -> (r: Option<KVpair<K, &'a V>>)
        requires
            old(self).wf(),
        ensures
            final(self).wf(),
            final(self).source() == old(self).source(),
            match r {
                Some(pair) => {
                    &&& old(self).remaining().len() > 0
                    &&& (pair.key, *pair.value) == old(self).remaining()[0]
                    &&& final(self).remaining() == old(self).remaining().drop_first()
                },
                None => old(self).remaining().len() == 0 && final(self).remaining() == old(self).remaining(),
            },
    {
        proof {
            self.list.lemma_on_path(self.cursor);
        }
        if self.size == 0 {
            return None;
        }
        let list: &'a SkipList<K, V, G> = self.list;
        match list.successor(self.cursor) {
            Some(t) => {
                let pair = list.entry(t);
                self.cursor = t;
                self.size = self.size - 1;
                proof {
                    assert(self.remaining() =~= old(self).remaining().drop_first());
                }
                pair
            },
            None => None,
        }
    }

    /// The entries left, in order.
    pub fn collect(self) -> (out: Vec<KVpair<K, &'a V>>)
        requires
            self.wf(),
        ensures
            pairs(out@) == self.remaining(),
    {
        let mut it = self;
        let mut out: Vec<KVpair<K, &'a V>> = Vec::new();
        let ghost all = self.remaining();
        loop
            invariant
                it.wf(),
                out@.len() + it.remaining().len() == all.len(),
                pairs(out@) + it.remaining() == all,
            ensures
                it.remaining().len() == 0,
            decreases it.remaining().len(),
        {
            let ghost before = out@;
            let ghost rest = it.remaining();
            match it.next() {
                Some(pair) => {
                    out.push(pair);
                    proof {
                        assert(pairs(out@) =~= pairs(before).push(rest[0]));
                        assert(pairs(before).push(rest[0]) + rest.drop_first() =~= pairs(before) + rest);
                    }
                },
                None => {
                    break ;
                },
            }
        }
        proof {
            assert(pairs(out@) + it.remaining() =~= pairs(out@));
        }
        out
    }
}

} // verus!
