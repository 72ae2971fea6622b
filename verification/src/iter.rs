//! Iteration over a range of keys, each with its value.

use vstd::prelude::*;
use vstd::slice::slice_to_vec;
use crate::index::{pairs, Entry};
use crate::model::readable;
use crate::order::KeyBound;
use crate::reader::Value;
use crate::store::Bitcask;

verus! {

/// An iteration over the keys of a range in ascending order. A key whose
/// record cannot be read is passed over.
pub struct RangeIter<'a> {
    store: &'a Bitcask,
    items: Vec<(Vec<u8>, Entry)>,
    pos: usize,
}

impl<'a> RangeIter<'a> {
    /// The iteration stands at a place of its range, over a store.
    pub closed spec fn wf(&self) -> bool {
        self.store.wf() && self.pos <= self.items@.len()
    }

    /// The store that is iterated over.
    pub closed spec fn store(&self) -> &'a Bitcask {
        self.store
    }

    /// What the iteration has yet to yield: keys with the timestamps and
    /// values of their records.
    pub closed spec fn remaining(&self) -> Seq<(Seq<u8>, (u64, Seq<u8>))> {
        readable(self.store@.segments, pairs(self.items@).skip(self.pos as int))
    }

    /// An iteration over the keys of `bitcask` from `lower` to `upper`.
    pub fn new(bitcask: &'a Bitcask, lower: &KeyBound, upper: &KeyBound) -> (iter: Self)
        requires
            bitcask.wf(),
        ensures
            iter.wf(),
            iter.store() == bitcask,
            iter.remaining() == bitcask@.range(lower@, upper@),
    {
        let items = bitcask.entries_in(lower, upper);
        assert(pairs(items@).skip(0) =~= pairs(items@));
        Self { store: bitcask, items, pos: 0 }
    }

    /// Yields the next key whose record can be read, with its value.
    pub fn next(&mut self) -> (r: Option<(Vec<u8>, Value)>)
        requires
            old(self).wf(),
        ensures
            final(self).wf(),
            final(self).store() == old(self).store(),
            match r {
                Some((key, value)) => {
                    &&& old(self).remaining().len() > 0
                    &&& old(self).remaining()[0] == (key@, value@)
                    &&& final(self).remaining() == old(self).remaining().skip(1)
                },
                None => old(self).remaining().len() == 0 && final(self).remaining().len() == 0,
            },
    {
        let ghost l = pairs(self.items@);
        let ghost segments = self.store@.segments;
        while self.pos < self.items.len()
            invariant
                self.wf(),
                self.store == old(self).store,
                self.items == old(self).items,
                l == pairs(self.items@),
                segments == self.store@.segments,
                self.remaining() == old(self).remaining(),
            decreases self.items@.len() - self.pos,
        {
            let ghost rest = l.skip(self.pos as int);
            let i = self.pos;
            let entry = self.items[i].1;
            self.pos = i + 1;
            proof {
                assert(rest[0] == l[i as int]);
                assert(rest.skip(1) =~= l.skip(i + 1));
            }
            match self.store.read(&entry) {
                Some(value) => {
                    let key = slice_to_vec(self.items[i].0.as_slice());
                    proof {
                        let first = (key@, value@);
                        assert(old(self).remaining() == seq![first] + self.remaining());
                        assert(old(self).remaining().skip(1) =~= self.remaining());
                    }
                    return Some((key, value));
                },
                None => {},
            }
        }
        proof {
            assert(l.skip(self.pos as int) =~= Seq::<(Seq<u8>, Entry)>::empty());
        }
        None
    }
}

} // verus!
