//! The queue: three handles into a [`Store`], and the operations on them.
//!
//! A queue denotes its front chain followed by its back stack reversed. While
//! `jump` is present a rotation is under way; every operation forces one step
//! of it at `jump` and moves `jump` one node on, so that the rotation is over
//! before the back stack has grown as long as the front chain.

use crate::laws::{popped, pushed};
use crate::store::{lemma_reverse_cons, merged, stepped, Node, Store, Zipper};
use core::marker::PhantomData;
use vstd::prelude::*;

verus! {

/// A persistent first-in-first-out queue of values of type `T`.
///
/// A queue is only meaningful together with the store in which it was built.
pub struct Queue<T> {
    front: Option<usize>,
    back: Option<usize>,
    jump: Option<usize>,
    marker: PhantomData<T>,
}

/// Every queue that is valid in `before` is valid in `after`, with the
/// contents it had.
pub open spec fn keeps_queues<T>(before: &Store<T>, after: &Store<T>) -> bool {
    forall|p: Queue<T>| #[trigger]
        p.wf(before) ==> p.wf(after) && p.view(after) == p.view(before)
}

/// Persistence: no later state of a store disturbs a queue that was built
/// before.
pub proof fn lemma_keeps_queues<T>(before: &Store<T>, after: &Store<T>)
    requires
        before.wf(),
        after.extends(before),
    ensures
        keeps_queues(before, after),
{
    assert forall|p: Queue<T>| #[trigger] p.wf(before) implies p.wf(after) && p.view(after)
        == p.view(before) by {
        p.lemma_persistent(before, after);
    }
}

impl<T> Queue<T> {
    /// The values in the queue, the next one to leave first.
    pub closed spec fn view(&self, store: &Store<T>) -> Seq<T> {
        store.list(self.front) + store.list(self.back).reverse()
    }

    /// The queue's handles are legal in `store` and its rotation is on time.
    pub closed spec fn wf(&self, store: &Store<T>) -> bool {
        &&& self.front matches Some(i) ==> i < store.count()
        &&& self.back matches Some(i) ==> i < store.count()
        &&& self.jump matches Some(i) ==> i < store.count()
        &&& store.all_clean(self.back)
        &&& store.list(self.front).len() == store.list(self.back).len() + store.list(
            self.jump,
        ).len()
        &&& store.clean_path(self.front, self.jump, store.list(self.back).len())
    }

    /// The nodes of the store, and the queue, that a push onto this queue
    /// gives.
    ///
    /// A clean node for the new value goes on top of the back stack. While a
    /// rotation is under way, one step of it is forced at `jump`, which then
    /// moves one node on. Otherwise the back stack, now one longer than the
    /// front chain, is handed to a new rotation, whose head is both the front
    /// and the place of the next step.
    pub closed spec fn push_step(&self, store: &Store<T>) -> (Seq<Node>, Queue<T>) {
        let fresh = store.layout().len() as usize;
        let nodes = store.layout().push(
            Node { val: store.values().len() as usize, next: self.back, zipper: Zipper::Clean },
        );
        match self.jump {
            Some(j) => {
                let after = stepped(nodes, j);
                (
                    after,
                    Queue {
                        front: self.front,
                        back: Some(fresh),
                        jump: after[j as int].next,
                        marker: PhantomData,
                    },
                )
            },
            None => {
                let (after, z) = merged(nodes, self.front, Some(fresh));
                (after, Queue { front: z, back: None, jump: z, marker: PhantomData })
            },
        }
    }

    /// The nodes of the store, and the queue, that a pop from this queue
    /// gives when it is not empty.
    ///
    /// While a rotation is under way, one step of it is forced at `jump`;
    /// the front and `jump` then both move one node on. Otherwise the rest of
    /// the front chain and the back stack are handed to a new rotation.
    pub closed spec fn pop_step(&self, store: &Store<T>) -> (Seq<Node>, Queue<T>) {
        let f = self.front.unwrap();
        match self.jump {
            Some(j) => {
                let after = stepped(store.layout(), j);
                (
                    after,
                    Queue {
                        front: after[f as int].next,
                        back: self.back,
                        jump: after[j as int].next,
                        marker: PhantomData,
                    },
                )
            },
            None => {
                let (after, z) = merged(store.layout(), store.layout()[f as int].next, self.back);
                (after, Queue { front: z, back: None, jump: z, marker: PhantomData })
            },
        }
    }

    /// A queue keeps its validity and its contents in every later state of
    /// the store, whatever was done there in the meantime.
    pub proof fn lemma_persistent(&self, before: &Store<T>, after: &Store<T>)
        requires
            before.wf(),
            self.wf(before),
            after.extends(before),
        ensures
            self.wf(after),
            self.view(after) == self.view(before),
    {
        assert(after.list(self.front) == before.list(self.front));
        assert(after.list(self.back) == before.list(self.back));
        assert(after.list(self.jump) == before.list(self.jump));
        after.lemma_clean_path_stable(before, self.back, None, before.list(self.back).len());
        after.lemma_clean_path_stable(
            before,
            self.front,
            self.jump,
            before.list(self.back).len(),
        );
    }

    /// A queue is empty exactly when it has no front node.
    proof fn lemma_front(&self, store: &Store<T>)
        requires
            store.wf(),
            self.wf(store),
        ensures
            self.front is None <==> self.view(store).len() == 0,
            self.front matches Some(f) ==> store.list(self.front).len() >= 1 && self.view(store)[0]
                == store.vals@[store.nodes@[f as int].val as int],
    {
        if let Some(f) = self.front {
            assert(store.fits(store.nodes@[f as int], store.content@[f as int]));
        }
    }

    /// Create a new, empty queue. It is valid in every store.
    pub fn new() -> (q: Queue<T>)
        ensures
            forall|s: &Store<T>| #[trigger] q.wf(s),
            forall|s: &Store<T>| #[trigger] q.view(s) == Seq::<T>::empty(),
    {
        let q = Queue { front: None, back: None, jump: None, marker: PhantomData };
        proof {
            assert forall|s: &Store<T>| #[trigger] q.view(s) == Seq::<T>::empty() by {
                assert(Seq::<T>::empty().reverse() =~= Seq::<T>::empty());
                assert(q.view(s) =~= Seq::<T>::empty());
            }
        }
        q
    }

    /// Push an item into the back of the queue.
    ///
    /// Returns the longer queue. The receiver, like every other queue of the
    /// store, stays valid and keeps its contents. At most three nodes are made.
    pub fn push_back(&self, store: &mut Store<T>, v: T) -> (q: Queue<T>)
        requires
            old(store).wf(),
            self.wf(old(store)),
        ensures
            final(store).wf(),
            final(store).extends(old(store)),
            q.wf(final(store)),
            q.view(final(store)) == pushed(self.view(old(store)), v),
            (final(store).layout(), q) == self.push_step(old(store)),
            final(store).values() == old(store).values().push(v),
            final(store).count() <= old(store).count() + 3,
            keeps_queues(old(store), final(store)),
    {
        let ghost s0 = *store;
        let ghost front_list = s0.list(self.front);
        let ghost back_list = s0.list(self.back);
        let h = store.add_value(v);
        let ghost s1 = *store;
        proof {
            assert(s1.list(self.back) == back_list);
        }
        let new_node = store.add_node(
            Node { val: h, next: self.back, zipper: Zipper::Clean },
            Ghost(seq![v] + back_list),
        );
        let ghost s2 = *store;
        proof {
            s2.lemma_extends_trans(&s1, &s0);
            s2.lemma_clean_path_stable(&s0, self.back, None, back_list.len());
            assert(s2.list(Some(new_node)) == seq![v] + back_list);
            assert(s2.clean_path(Some(new_node), None, back_list.len() + 1));
            assert(s2.list(self.front) == front_list);
            assert(s2.list(self.jump) == s0.list(self.jump));
            s2.lemma_clean_path_stable(&s0, self.front, self.jump, back_list.len());
            lemma_reverse_cons(v, back_list);
        }
        let q = if let Some(j) = self.jump {
            store.rotate_zipper(j);
            let next = store.nodes[j].next;
            proof {
                store.lemma_extends_trans(&s2, &s0);
                assert(store.fits(store.nodes@[j as int], store.content@[j as int]));
                assert(store.list(Some(new_node)) == seq![v] + back_list);
                store.lemma_clean_path_stable(&s2, Some(new_node), None, back_list.len() + 1);
                store.lemma_clean_path_stable(&s2, self.front, self.jump, back_list.len());
                store.lemma_clean_path_extend(self.front, j, back_list.len());
            }
            Queue { front: self.front, back: Some(new_node), jump: next, marker: PhantomData }
        } else {
            let zipper = store.create_lazy(self.front, Some(new_node));
            proof {
                store.lemma_extends_trans(&s2, &s0);
                assert(Seq::<T>::empty().reverse() =~= Seq::<T>::empty());
            }
            Queue { front: zipper, back: None, jump: zipper, marker: PhantomData }
        };
        proof {
            assert(q.view(store) =~= self.view(&s0).push(v));
            lemma_keeps_queues(&s0, store);
        }
        q
    }

    /// Pop an item from the front of the queue.
    ///
    /// Returns `None` if the queue is empty, and `Some` with the shorter queue
    /// and a clone of the first item otherwise. The receiver, like every other
    /// queue of the store, stays valid and keeps its contents. At most two
    /// nodes are made.
    pub fn pop_front(&self, store: &mut Store<T>) -> (r: Option<(Queue<T>, T)>) where T: Clone
        requires
            old(store).wf(),
            self.wf(old(store)),
        ensures
            final(store).wf(),
            final(store).extends(old(store)),
            match popped(self.view(old(store))) {
                None => r is None && *final(store) == *old(store),
                Some((rest, first)) => r matches Some((q, x)) && {
                    &&& q.wf(final(store))
                    &&& q.view(final(store)) == rest
                    &&& cloned(first, x)
                    &&& (final(store).layout(), q) == self.pop_step(old(store))
                },
            },
            final(store).values() == old(store).values(),
            final(store).count() <= old(store).count() + 2,
            keeps_queues(old(store), final(store)),
    {
        let ghost s0 = *store;
        let ghost front_list = s0.list(self.front);
        let ghost back_list = s0.list(self.back);
        proof {
            self.lemma_front(&s0);
            s0.lemma_extends_refl();
            lemma_keeps_queues(&s0, &s0);
        }
        let f = match self.front {
            Some(f) => f,
            None => {
                return None;
            },
        };
        proof {
            assert(s0.fits(s0.nodes@[f as int], s0.content@[f as int]));
        }
        let res = store.vals[store.nodes[f].val].clone();
        let q = if let Some(j) = self.jump {
            store.rotate_zipper(j);
            let rest = store.nodes[f].next;
            let next = store.nodes[j].next;
            proof {
                assert(store.fits(store.nodes@[j as int], store.content@[j as int]));
                assert(store.fits(store.nodes@[f as int], store.content@[f as int]));
                assert(store.list(self.back) == back_list);
                store.lemma_clean_path_stable(&s0, self.back, None, back_list.len());
                store.lemma_clean_path_stable(&s0, self.front, self.jump, back_list.len());
                store.lemma_clean_path_extend(self.front, j, back_list.len());
                assert(store.nodes@[f as int].zipper is Clean);
                assert(store.list(rest) =~= front_list.drop_first());
            }
            Queue { front: rest, back: self.back, jump: next, marker: PhantomData }
        } else {
            let rest = store.nodes[f].next;
            proof {
                assert(s0.list(rest) =~= front_list.drop_first());
            }
            let zipper = store.create_lazy(rest, self.back);
            proof {
                assert(Seq::<T>::empty().reverse() =~= Seq::<T>::empty());
            }
            Queue { front: zipper, back: None, jump: zipper, marker: PhantomData }
        };
        proof {
            assert(q.view(store) =~= self.view(&s0).drop_first());
            lemma_keeps_queues(&s0, store);
        }
        Some((q, res))
    }

    /// A cursor that hands out the queue's items in order. The queue itself
    /// is left as it is.
    pub fn iter(&self) -> (it: QueueIter<T>)
        ensures
            it.queue() == *self,
    {
        QueueIter { dat: *self }
    }

    /// Reads the whole queue out, the next item to leave first.
    ///
    /// The queue, like every other queue of the store, stays valid and keeps
    /// its contents.
    pub fn to_vec(&self, store: &mut Store<T>) -> (out: Vec<T>) where T: Clone
        requires
            old(store).wf(),
            self.wf(old(store)),
        ensures
            final(store).wf(),
            final(store).extends(old(store)),
            self.wf(final(store)),
            self.view(final(store)) == self.view(old(store)),
            out@.len() == self.view(old(store)).len(),
            forall|i: int| 0 <= i < out@.len() ==> cloned(self.view(old(store))[i], #[trigger] out@[i]),
            final(store).values() == old(store).values(),
            final(store).count() <= old(store).count() + 2 * out@.len(),
            keeps_queues(old(store), final(store)),
    {
        let ghost s0 = *store;
        let ghost all = self.view(&s0);
        let mut out: Vec<T> = Vec::new();
        let mut cur = *self;
        proof {
            s0.lemma_extends_refl();
            assert(all.skip(0) =~= all);
        }
        loop
            invariant
                store.wf(),
                store.extends(&s0),
                store.values() == s0.values(),
                cur.wf(store),
                out@.len() <= all.len(),
                cur.view(store) == all.skip(out@.len() as int),
                forall|i: int| 0 <= i < out@.len() ==> cloned(all[i], #[trigger] out@[i]),
                store.count() <= s0.count() + 2 * out@.len(),
            ensures
                out@.len() == all.len(),
            decreases cur.view(store).len(),
        {
            let ghost s1 = *store;
            match cur.pop_front(store) {
                None => {
                    break ;
                },
                Some((q, x)) => {
                    proof {
                        store.lemma_extends_trans(&s1, &s0);
                        assert(all.skip(out@.len() as int).drop_first() =~= all.skip(
                            out@.len() as int + 1,
                        ));
                    }
                    out.push(x);
                    cur = q;
                },
            }
        }
        proof {
            self.lemma_persistent(&s0, store);
            lemma_keeps_queues(&s0, store);
        }
        out
    }

    /// Builds a queue that holds `items` in their order, the first one to
    /// leave first.
    pub fn from_vec(store: &mut Store<T>, items: Vec<T>) -> (q: Queue<T>)
        requires
            old(store).wf(),
        ensures
            final(store).wf(),
            final(store).extends(old(store)),
            q.wf(final(store)),
            q.view(final(store)) == items@,
            final(store).values() == old(store).values() + items@,
            final(store).count() <= old(store).count() + 3 * items@.len(),
            keeps_queues(old(store), final(store)),
    {
        let ghost s0 = *store;
        let ghost all = items@;
        let mut q = Queue::new();
        proof {
            s0.lemma_extends_refl();
            assert(all.take(0) =~= Seq::<T>::empty());
            assert(s0.values() + all.take(0) =~= s0.values());
        }
        for x in it: items.into_iter()
            invariant
                store.wf(),
                store.extends(&s0),
                q.wf(store),
                it.seq() == all,
                q.view(store) == all.take(it.index() as int),
                store.values() == s0.values() + all.take(it.index() as int),
                store.count() <= s0.count() + 3 * it.index(),
        {
            let ghost s1 = *store;
            let ghost k = it.index() as int;
            q = q.push_back(store, x);
            proof {
                store.lemma_extends_trans(&s1, &s0);
                assert(all.take(k).push(all[k]) =~= all.take(k + 1));
                assert((s0.values() + all.take(k)).push(all[k]) =~= s0.values() + all.take(k + 1));
            }
        }
        proof {
            assert(all.take(all.len() as int) =~= all);
            lemma_keeps_queues(&s0, store);
        }
        q
    }
}

impl<T> Clone for Queue<T> {
    fn clone(&self) -> (q: Self)
        ensures
            q == *self,
    {
        Queue { front: self.front, back: self.back, jump: self.jump, marker: PhantomData }
    }
}

impl<T> Copy for Queue<T> {

}

impl<T> Default for Queue<T> {
    fn default() -> (q: Self)
        ensures
            forall|s: &Store<T>| #[trigger] q.wf(s),
            forall|s: &Store<T>| #[trigger] q.view(s) == Seq::<T>::empty(),
    {
        Queue::new()
    }
}

/// A cursor over a queue: what is left of it to read.
pub struct QueueIter<T> {
    dat: Queue<T>,
}

impl<T> QueueIter<T> {
    /// The queue of the items that are still to come.
    pub closed spec fn queue(&self) -> Queue<T> {
        self.dat
    }

    /// Hands out the next item, or `None` when none is left.
    pub fn next(&mut self, store: &mut Store<T>) -> (r: Option<T>) where T: Clone
        requires
            old(store).wf(),
            old(self).queue().wf(old(store)),
        ensures
            final(store).wf(),
            final(store).extends(old(store)),
            final(self).queue().wf(final(store)),
            match popped(old(self).queue().view(old(store))) {
                None => r is None && *final(store) == *old(store) && *final(self) == *old(self),
                Some((rest, first)) => r matches Some(x) && {
                    &&& cloned(first, x)
                    &&& final(self).queue().view(final(store)) == rest
                },
            },
            final(store).values() == old(store).values(),
            final(store).count() <= old(store).count() + 2,
            keeps_queues(old(store), final(store)),
    {
        match self.dat.pop_front(store) {
            None => None,
            Some((next, res)) => {
                self.dat = next;
                Some(res)
            },
        }
    }
}

} // verus!
