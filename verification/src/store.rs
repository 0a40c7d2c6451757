//! The node arena and the rotation engine.
//!
//! Nodes are addressed by integer handles: sharing a node is copying its
//! handle, and rewriting a node is updating its slot. Values are kept once, in
//! a table of their own, and a node carries the handle of its value, so that
//! no step ever copies a value.
//!
//! Every node denotes a fixed sequence of values, recorded in ghost state when
//! the node is made. A node is either `Clean` (its value, then whatever its
//! `next` denotes) or `Dirty`: the head of a suspended rotation that still has
//! to reverse a back stack onto the end of a front chain. Forcing one step of
//! a rotation rewrites the node in place, yet never changes what it denotes.
//! A node goes from dirty to clean once and is never written again.

use vstd::prelude::*;

verus! {

/// The rotation debt anchored at a node.
#[derive(Clone, Copy)]
pub enum Zipper {
    /// Nothing is pending here.
    Clean,
    /// A suspended rotation step: the head of the back stack that is still to
    /// be moved over, and the merged tail built so far.
    Dirty(usize, Option<usize>),
}

/// One cell of a chain. `val` is a handle into the store's table of values.
#[derive(Clone, Copy)]
pub struct Node {
    pub val: usize,
    pub next: Option<usize>,
    pub zipper: Zipper,
}

/// The arena that holds the nodes of any number of queues.
pub struct Store<T> {
    pub(crate) vals: Vec<T>,
    pub(crate) nodes: Vec<Node>,
    pub(crate) content: Ghost<Seq<Seq<T>>>,
}

/// Reversing `x` followed by `s` gives the reverse of `s` followed by `x`.
pub proof fn lemma_reverse_cons<T>(x: T, s: Seq<T>)
    ensures
        (seq![x] + s).reverse() =~= s.reverse() + seq![x],
{
    let l = seq![x] + s;
    assert(l.len() == s.len() + 1);
    assert forall|i: int| 0 <= i < l.len() implies l.reverse()[i] == (s.reverse() + seq![x])[i] by {
        if i < s.len() {
            assert(l.reverse()[i] == l[l.len() - 1 - i]);
            assert(s.reverse()[i] == s[s.len() - 1 - i]);
        }
    }
}

/// One rotation step in the middle of a front chain, on sequences: moving `y`
/// from the back stack to the merged tail leaves the whole unchanged.
pub proof fn lemma_step_inner<T>(x: T, f: Seq<T>, y: T, b: Seq<T>, acc: Seq<T>)
    ensures
        (seq![x] + f + (seq![y] + b).reverse() + acc).drop_first() =~= f + b.reverse() + (seq![y]
            + acc),
{
    lemma_reverse_cons(y, b);
}

/// The last rotation step, on sequences: a back stack of two values ends up
/// reversed in front of the merged tail.
pub proof fn lemma_step_last<T>(x: T, y: T, b: Seq<T>, acc: Seq<T>)
    requires
        b.len() == 1,
    ensures
        (seq![x] + Seq::<T>::empty() + (seq![y] + b).reverse() + acc).drop_first() =~= seq![b[0]]
            + (seq![y] + acc),
{
    lemma_reverse_cons(y, b);
    assert(b.reverse() =~= b);
    assert(b =~= seq![b[0]]);
}

/// The nodes after one step is forced at node `id` of `nodes`.
///
/// A clean node changes nothing. At a dirty node two nodes are added: one
/// that carries the value at the head of the back stack in front of the
/// merged tail, and one that takes the place of the node's successor and
/// carries what is left of the debt, or, where the front chain ends, links
/// the last value of the back stack in. The node itself becomes clean and
/// points to the second.
pub open spec fn stepped(nodes: Seq<Node>, id: usize) -> Seq<Node> {
    let n = nodes[id as int];
    match n.zipper {
        Zipper::Clean => nodes,
        Zipper::Dirty(c, d) => {
            let moved = nodes.len() as usize;
            let source = nodes[c as int];
            let rest = source.next.unwrap();
            let head = Node { val: source.val, next: d, zipper: Zipper::Clean };
            let succ = match n.next {
                Some(nx) => Node {
                    val: nodes[nx as int].val,
                    next: nodes[nx as int].next,
                    zipper: Zipper::Dirty(rest, Some(moved)),
                },
                None => Node { val: nodes[rest as int].val, next: Some(moved), zipper: Zipper::Clean },
            };
            nodes.push(head).push(succ).update(
                id as int,
                Node { val: n.val, next: Some((moved + 1) as usize), zipper: Zipper::Clean },
            )
        },
    }
}

/// The nodes, and the head of the merged chain, after the rotation of the
/// back stack `y` onto the front chain `x` is started.
///
/// Without a front chain nothing is added and `y` is the head. Otherwise one
/// dirty node is added, a copy of the head of `x` that owes the whole of `y`.
pub open spec fn merged(nodes: Seq<Node>, x: Option<usize>, y: Option<usize>) -> (
    Seq<Node>,
    Option<usize>,
) {
    match x {
        None => (nodes, y),
        Some(i) => (
            nodes.push(
                Node {
                    val: nodes[i as int].val,
                    next: nodes[i as int].next,
                    zipper: Zipper::Dirty(y.unwrap(), None),
                },
            ),
            Some(nodes.len() as usize),
        ),
    }
}

impl<T> Store<T> {
    /// The number of nodes made so far.
    pub open(crate) spec fn count(&self) -> nat {
        self.nodes@.len()
    }

    /// The nodes, by handle.
    pub open(crate) spec fn layout(&self) -> Seq<Node> {
        self.nodes@
    }

    /// The values in the order in which they were handed to the store.
    pub open(crate) spec fn values(&self) -> Seq<T> {
        self.vals@
    }

    /// What an optional handle denotes: nothing, or the node's sequence.
    pub open(crate) spec fn list(&self, o: Option<usize>) -> Seq<T> {
        match o {
            None => Seq::empty(),
            Some(i) => self.content@[i as int],
        }
    }

    /// `from` leads to `to` over exactly `k` clean nodes.
    pub open(crate) spec fn clean_path(&self, from: Option<usize>, to: Option<usize>, k: nat) -> bool
        decreases k,
    {
        if k == 0 {
            from == to
        } else {
            match from {
                None => false,
                Some(i) => {
                    &&& i < self.nodes@.len()
                    &&& self.nodes@[i as int].zipper is Clean
                    &&& self.clean_path(self.nodes@[i as int].next, to, (k - 1) as nat)
                },
            }
        }
    }

    /// A chain of clean nodes only, as long as what it denotes.
    pub open(crate) spec fn all_clean(&self, from: Option<usize>) -> bool {
        self.clean_path(from, None, self.list(from).len())
    }

    /// `n` is a legal node of this store that denotes `c`.
    pub open(crate) spec fn fits(&self, n: Node, c: Seq<T>) -> bool {
        &&& n.val < self.vals@.len()
        &&& n.next matches Some(j) ==> j < self.nodes@.len()
        &&& c.len() >= 1
        &&& c[0] == self.vals@[n.val as int]
        &&& match n.zipper {
            Zipper::Clean => c == seq![self.vals@[n.val as int]] + self.list(n.next),
            Zipper::Dirty(s, d) => {
                &&& s < self.nodes@.len()
                &&& d matches Some(j) ==> j < self.nodes@.len()
                &&& self.all_clean(n.next)
                &&& self.all_clean(Some(s))
                &&& self.list(Some(s)).len() == self.list(n.next).len() + 2
                &&& c == seq![self.vals@[n.val as int]] + self.list(n.next) + self.list(
                    Some(s),
                ).reverse() + self.list(d)
            },
        }
    }

    /// Every node denotes the sequence recorded for it.
    pub open(crate) spec fn wf(&self) -> bool {
        &&& self.content@.len() == self.nodes@.len()
        &&& forall|i: int| 0 <= i < self.nodes@.len() ==> self.fits(#[trigger] self.nodes@[i], self.content@[i])
    }

    /// `self` is a later state of `old`: nothing was taken away, every node
    /// denotes what it did, and clean nodes are as they were.
    pub open(crate) spec fn extends(&self, old: &Store<T>) -> bool {
        &&& old.nodes@.len() <= self.nodes@.len()
        &&& old.content@.len() <= self.content@.len()
        &&& old.vals@.len() <= self.vals@.len()
        &&& forall|i: int| 0 <= i < old.vals@.len() ==> #[trigger] self.vals@[i] == old.vals@[i]
        &&& forall|i: int| 0 <= i < old.content@.len() ==> #[trigger] self.content@[i] == old.content@[i]
        &&& forall|i: int|
            0 <= i < old.nodes@.len() && old.nodes@[i].zipper is Clean ==> #[trigger] self.nodes@[i]
                == old.nodes@[i]
    }

    /// A store is a later state of itself.
    pub proof fn lemma_extends_refl(&self)
        ensures
            self.extends(self),
    {
    }

    /// A later state of a later state is a later state.
    pub proof fn lemma_extends_trans(&self, mid: &Store<T>, old: &Store<T>)
        requires
            self.extends(mid),
            mid.extends(old),
        ensures
            self.extends(old),
    {
    }

    /// A path over clean nodes is still there in every later state.
    pub(crate) proof fn lemma_clean_path_stable(
        &self,
        old: &Store<T>,
        from: Option<usize>,
        to: Option<usize>,
        k: nat,
    )
        requires
            self.extends(old),
            old.clean_path(from, to, k),
        ensures
            self.clean_path(from, to, k),
        decreases k,
    {
        if k > 0 {
            let i = from.unwrap();
            assert(self.nodes@[i as int] == old.nodes@[i as int]);
            self.lemma_clean_path_stable(old, old.nodes@[i as int].next, to, (k - 1) as nat);
        }
    }

    /// A path that ends at a clean node can be taken one node further.
    pub(crate) proof fn lemma_clean_path_extend(&self, from: Option<usize>, j: usize, k: nat)
        requires
            self.clean_path(from, Some(j), k),
            j < self.nodes@.len(),
            self.nodes@[j as int].zipper is Clean,
        ensures
            self.clean_path(from, self.nodes@[j as int].next, k + 1),
        decreases k,
    {
        if k > 0 {
            let i = from.unwrap();
            self.lemma_clean_path_extend(self.nodes@[i as int].next, j, (k - 1) as nat);
        } else {
            assert(self.clean_path(self.nodes@[j as int].next, self.nodes@[j as int].next, 0));
        }
    }

    /// A node that is legal in a store is legal in every later state, for the
    /// same sequence.
    pub(crate) proof fn lemma_fits_stable(&self, old: &Store<T>, n: Node, c: Seq<T>)
        requires
            self.extends(old),
            old.content@.len() == old.nodes@.len(),
            old.fits(n, c),
        ensures
            self.fits(n, c),
    {
        assert(self.list(n.next) == old.list(n.next));
        match n.zipper {
            Zipper::Clean => {},
            Zipper::Dirty(s, d) => {
                assert(self.list(Some(s)) == old.list(Some(s)));
                assert(self.list(d) == old.list(d));
                self.lemma_clean_path_stable(old, n.next, None, old.list(n.next).len());
                self.lemma_clean_path_stable(old, Some(s), None, old.list(Some(s)).len());
            },
        }
    }

    /// An empty store.
    pub fn new() -> (s: Store<T>)
        ensures
            s.wf(),
            s.count() == 0,
            s.values() == Seq::<T>::empty(),
    {
        Store { vals: Vec::new(), nodes: Vec::new(), content: Ghost(Seq::empty()) }
    }

    /// The number of nodes made so far.
    pub fn node_count(&self) -> (n: usize)
        ensures
            n == self.count(),
    {
        self.nodes.len()
    }

    /// Takes a value in and returns its handle.
    pub(crate) fn add_value(&mut self, v: T) -> (h: usize)
        requires
            old(self).wf(),
        ensures
            final(self).wf(),
            final(self).extends(old(self)),
            h == old(self).vals@.len(),
            final(self).vals@ == old(self).vals@.push(v),
            final(self).nodes@ == old(self).nodes@,
            final(self).content@ == old(self).content@,
    {
        let ghost before = *self;
        let h = self.vals.len();
        self.vals.push(v);
        proof {
            assert(self.extends(&before));
            assert forall|i: int| 0 <= i < self.nodes@.len() implies self.fits(
                #[trigger] self.nodes@[i],
                self.content@[i],
            ) by {
                self.lemma_fits_stable(&before, before.nodes@[i], before.content@[i]);
            }
        }
        h
    }

    /// Adds a node that denotes `c` and returns its handle.
    pub(crate) fn add_node(&mut self, n: Node, Ghost(c): Ghost<Seq<T>>) -> (id: usize)
        requires
            old(self).wf(),
            old(self).fits(n, c),
        ensures
            final(self).wf(),
            final(self).extends(old(self)),
            id == old(self).nodes@.len(),
            final(self).nodes@ == old(self).nodes@.push(n),
            final(self).content@ == old(self).content@.push(c),
            final(self).vals@ == old(self).vals@,
    {
        let ghost before = *self;
        let id = self.nodes.len();
        self.nodes.push(n);
        proof {
            self.content@ = self.content@.push(c);
            assert(self.extends(&before));
            assert forall|i: int| 0 <= i < self.nodes@.len() implies self.fits(
                #[trigger] self.nodes@[i],
                self.content@[i],
            ) by {
                if i < before.nodes@.len() {
                    self.lemma_fits_stable(&before, before.nodes@[i], before.content@[i]);
                } else {
                    self.lemma_fits_stable(&before, n, c);
                }
            }
        }
        id
    }
}

impl<T> Store<T> {
    /// Starts the rotation of the back stack `y` onto the front chain `x`.
    ///
    /// With no front chain there is nothing to merge and `y` itself is the
    /// result. Otherwise a new dirty node stands in for the head of `x`; it
    /// denotes `x` followed by the reverse of `y`, and the work of building
    /// that chain is left to later calls of [`Store::rotate_zipper`].
    pub(crate) fn create_lazy(&mut self, x: Option<usize>, y: Option<usize>) -> (z: Option<usize>)
        requires
            old(self).wf(),
            x matches Some(i) ==> i < old(self).count(),
            y matches Some(j) ==> j < old(self).count(),
            old(self).all_clean(x),
            old(self).all_clean(y),
            old(self).list(y).len() == old(self).list(x).len() + 1,
        ensures
            final(self).wf(),
            final(self).extends(old(self)),
            final(self).vals@ == old(self).vals@,
            z matches Some(k) && k < final(self).count(),
            final(self).list(z) =~= old(self).list(x) + old(self).list(y).reverse(),
            (final(self).nodes@, z) == merged(old(self).nodes@, x, y),
    {
        match x {
            Some(xi) => {
                let xn = self.nodes[xi];
                proof {
                    assert(self.fits(self.nodes@[xi as int], self.content@[xi as int]));
                    assert(self.list(x).len() >= 1);
                    assert(self.list(y).len() >= 2);
                }
                let yi = y.unwrap();
                let ghost c = self.list(x) + self.list(y).reverse();
                let id = self.add_node(
                    Node { val: xn.val, next: xn.next, zipper: Zipper::Dirty(yi, None) },
                    Ghost(c),
                );
                Some(id)
            },
            None => {
                proof {
                    assert(self.list(y).len() == 1);
                    assert(self.list(y).reverse() =~= self.list(y));
                    self.lemma_extends_refl();
                    let j = y.unwrap();
                    assert(self.fits(self.nodes@[j as int], self.content@[j as int]));
                }
                y
            },
        }
    }

    /// Rewriting a dirty node as a clean one that points to a node which
    /// denotes the rest of its sequence gives a later, well-formed state.
    pub(crate) proof fn lemma_settle(&self, old: &Store<T>, id: usize, nid: usize)
        requires
            old.wf(),
            id < old.count(),
            nid < old.count(),
            old.nodes@[id as int].zipper is Dirty,
            old.content@[nid as int] == old.content@[id as int].drop_first(),
            self.vals@ == old.vals@,
            self.content@ == old.content@,
            self.nodes@ == old.nodes@.update(
                id as int,
                (Node { val: old.nodes@[id as int].val, next: Some(nid), zipper: Zipper::Clean }),
            ),
        ensures
            self.wf(),
            self.extends(old),
    {
        assert(self.extends(old));
        let whole = old.content@[id as int];
        assert(old.fits(old.nodes@[id as int], whole));
        assert forall|i: int| 0 <= i < self.nodes@.len() implies self.fits(
            #[trigger] self.nodes@[i],
            self.content@[i],
        ) by {
            if i != id {
                assert(old.fits(old.nodes@[i], old.content@[i]));
                self.lemma_fits_stable(old, old.nodes@[i], old.content@[i]);
            } else {
                assert(self.list(Some(nid)) == whole.drop_first());
                assert(whole =~= seq![whole[0]] + whole.drop_first());
            }
        }
    }

    /// The node that takes over from the successor of a dirty node `n` when
    /// one step is forced: `c_next` is what is left of the back stack and
    /// `node` the new head of the merged tail.
    pub(crate) proof fn lemma_successor_fits(
        &self,
        old: &Store<T>,
        n: Node,
        whole: Seq<T>,
        node: usize,
        succ: Node,
    )
        requires
            old.wf(),
            old.fits(n, whole),
            n.zipper matches Zipper::Dirty(c, d) && {
                let cn = old.nodes@[c as int];
                &&& cn.next matches Some(c_next) && match n.next {
                    Some(nx) => succ == (Node {
                        val: old.nodes@[nx as int].val,
                        next: old.nodes@[nx as int].next,
                        zipper: Zipper::Dirty(c_next, Some(node)),
                    }),
                    None => succ == (Node {
                        val: old.nodes@[c_next as int].val,
                        next: Some(node),
                        zipper: Zipper::Clean,
                    }),
                }
                &&& node == old.nodes@.len()
                &&& self.vals@ == old.vals@
                &&& self.nodes@ == old.nodes@.push(
                    (Node { val: cn.val, next: d, zipper: Zipper::Clean }),
                )
                &&& self.content@ == old.content@.push(seq![old.vals@[cn.val as int]] + old.list(d))
            },
            self.extends(old),
        ensures
            self.fits(succ, whole.drop_first()),
    {
        let c = n.zipper->Dirty_0;
        let d = n.zipper->Dirty_1;
        let cn = old.nodes@[c as int];
        let c_next = cn.next.unwrap();
        let y = old.vals@[cn.val as int];
        let x = old.vals@[n.val as int];
        assert(old.fits(old.nodes@[c as int], old.content@[c as int]));
        assert(old.list(Some(c)) == seq![y] + old.list(cn.next));
        assert(old.fits(old.nodes@[c_next as int], old.content@[c_next as int]));
        assert(self.list(Some(node)) == seq![y] + old.list(d));
        assert(self.list(Some(c_next)) == old.list(Some(c_next)));
        assert(self.list(n.next) == old.list(n.next));
        self.lemma_clean_path_stable(old, n.next, None, old.list(n.next).len());
        self.lemma_clean_path_stable(old, Some(c), None, old.list(Some(c)).len());
        match n.next {
            Some(nx) => {
                assert(old.fits(old.nodes@[nx as int], old.content@[nx as int]));
                assert(self.list(succ.next) == old.list(succ.next));
                lemma_step_inner(x, old.list(n.next), y, old.list(cn.next), old.list(d));
                assert(old.list(n.next) == seq![old.vals@[succ.val as int]] + old.list(succ.next));
                assert(whole.drop_first() =~= seq![self.vals@[succ.val as int]] + self.list(
                    succ.next,
                ) + self.list(Some(c_next)).reverse() + self.list(Some(node)));
            },
            None => {
                assert(old.list(n.next) == Seq::<T>::empty());
                lemma_step_last(x, y, old.list(cn.next), old.list(d));
            },
        }
    }

    /// Forces one step of the rotation that is pending at node `id`, if any.
    ///
    /// A dirty node holds the head `c` of what is left of the back stack and
    /// the merged tail `d`. The step moves the value of `c` in front of `d`,
    /// hands the rest of the debt to a fresh copy of the node's successor (or,
    /// when the front chain ends here, links the last value of the back stack
    /// in), and rewrites the node as a clean one that points there. What the
    /// node denotes does not change.
    pub(crate) fn rotate_zipper(&mut self, id: usize)
        requires
            old(self).wf(),
            id < old(self).count(),
        ensures
            final(self).wf(),
            final(self).extends(old(self)),
            final(self).vals@ == old(self).vals@,
            final(self).nodes@ == stepped(old(self).nodes@, id),
            final(self).nodes@[id as int].zipper is Clean,
            final(self).count() <= old(self).count() + 2,
    {
        let n = self.nodes[id];
        proof {
            self.lemma_extends_refl();
        }
        if let Zipper::Dirty(c, d) = n.zipper {
            let ghost s0 = *self;
            let ghost whole = self.content@[id as int];
            let cn = self.nodes[c];
            proof {
                assert(s0.fits(s0.nodes@[id as int], whole));
                assert(s0.fits(s0.nodes@[c as int], s0.content@[c as int]));
                assert(s0.list(cn.next).len() >= 1);
            }
            let c_next = cn.next.unwrap();
            let node = self.add_node(
                Node { val: cn.val, next: d, zipper: Zipper::Clean },
                Ghost(seq![s0.vals@[cn.val as int]] + s0.list(d)),
            );
            let ghost s1 = *self;
            let new_next = match n.next {
                Some(nx) => {
                    let nn = self.nodes[nx];
                    Node { val: nn.val, next: nn.next, zipper: Zipper::Dirty(c_next, Some(node)) }
                },
                None => {
                    let last = self.nodes[c_next];
                    Node { val: last.val, next: Some(node), zipper: Zipper::Clean }
                },
            };
            proof {
                s1.lemma_successor_fits(&s0, n, whole, node, new_next);
            }
            let nid = self.add_node(new_next, Ghost(whole.drop_first()));
            let ghost s2 = *self;
            self.nodes.set(id, Node { val: n.val, next: Some(nid), zipper: Zipper::Clean });
            proof {
                self.lemma_settle(&s2, id, nid);
                s2.lemma_extends_trans(&s1, &s0);
                self.lemma_extends_trans(&s2, &s0);
            }
        }
    }
}

} // verus!
