//! What the contracts of the queue operations add up to.
//!
//! `push_back` and `pop_front` are specified by what they do to a queue's
//! view, a sequence. The functions here name those two effects and what comes
//! of repeating them; the lemmas state the first-in-first-out discipline over
//! them.

use vstd::prelude::*;

verus! {

/// The view after a push of `v` onto a queue with view `s`.
pub open spec fn pushed<T>(s: Seq<T>, v: T) -> Seq<T> {
    s.push(v)
}

/// The outcome of a pop on a queue with view `s`: nothing for an empty queue,
/// else the view that is left and the item handed out.
pub open spec fn popped<T>(s: Seq<T>) -> Option<(Seq<T>, T)> {
    if s.len() == 0 {
        None
    } else {
        Some((s.drop_first(), s[0]))
    }
}

/// The view after the items of `vs` were pushed, one after the other, onto a
/// queue with view `s`.
pub open spec fn pushed_all<T>(s: Seq<T>, vs: Seq<T>) -> Seq<T>
    decreases vs.len(),
{
    if vs.len() == 0 {
        s
    } else {
        pushed(pushed_all(s, vs.drop_last()), vs.last())
    }
}

/// The view that is left after `n` pops, or `None` if the queue ran empty
/// before.
pub open spec fn left_after<T>(s: Seq<T>, n: nat) -> Option<Seq<T>>
    decreases n,
{
    if n == 0 {
        Some(s)
    } else {
        match popped(s) {
            None => None,
            Some((rest, _)) => left_after(rest, (n - 1) as nat),
        }
    }
}

/// The items that popping until the queue is empty hands out, in the order
/// in which they come.
pub open spec fn popped_all<T>(s: Seq<T>) -> Seq<T>
    decreases s.len(),
{
    if s.len() == 0 {
        Seq::empty()
    } else {
        seq![popped(s).unwrap().1] + popped_all(popped(s).unwrap().0)
    }
}

/// Pushing a run of items appends the run.
pub proof fn lemma_pushed_all<T>(s: Seq<T>, vs: Seq<T>)
    ensures
        pushed_all(s, vs) == s + vs,
    decreases vs.len(),
{
    if vs.len() == 0 {
        assert(s + vs =~= s);
    } else {
        lemma_pushed_all(s, vs.drop_last());
        assert((s + vs.drop_last()).push(vs.last()) =~= s + vs);
    }
}

/// Popping until the queue is empty hands out its view, front first.
pub proof fn lemma_popped_all<T>(s: Seq<T>)
    ensures
        popped_all(s) == s,
    decreases s.len(),
{
    if s.len() == 0 {
        assert(s =~= Seq::<T>::empty());
    } else {
        lemma_popped_all(s.drop_first());
        assert(seq![s[0]] + s.drop_first() =~= s);
    }
}

/// First in, first out: items pushed onto an empty queue come out in the
/// order in which they went in, and the queue built from a sequence reads
/// back as that sequence.
pub proof fn lemma_fifo<T>(vs: Seq<T>)
    ensures
        pushed_all(Seq::<T>::empty(), vs) == vs,
        popped_all(pushed_all(Seq::<T>::empty(), vs)) == vs,
{
    lemma_pushed_all(Seq::<T>::empty(), vs);
    assert(Seq::<T>::empty() + vs =~= vs);
    lemma_popped_all(vs);
}

/// As many pops as there are items succeed and leave the queue empty; more
/// pops than that do not.
pub proof fn lemma_left_after<T>(s: Seq<T>, n: nat)
    ensures
        n <= s.len() ==> left_after(s, n) == Some(s.skip(n as int)),
        n > s.len() ==> left_after(s, n) is None,
    decreases n,
{
    if n == 0 {
        assert(s.skip(0) =~= s);
    } else if s.len() > 0 {
        lemma_left_after(s.drop_first(), (n - 1) as nat);
        if n <= s.len() {
            assert(s.drop_first().skip(n - 1) =~= s.skip(n as int));
        }
    }
}

/// A pop on the empty queue hands out nothing, and so does the pop that
/// follows after every item of a queue built by pushes was popped.
pub proof fn lemma_emptiness<T>(vs: Seq<T>)
    ensures
        popped(Seq::<T>::empty()) is None,
        left_after(pushed_all(Seq::<T>::empty(), vs), vs.len()) == Some(Seq::<T>::empty()),
        left_after(pushed_all(Seq::<T>::empty(), vs), vs.len() + 1) is None,
{
    lemma_fifo(vs);
    lemma_left_after(vs, vs.len());
    lemma_left_after(vs, vs.len() + 1);
    assert(vs.skip(vs.len() as int) =~= Seq::<T>::empty());
}

} // verus!
