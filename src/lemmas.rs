//! Laws that relate several list operations, stated over the sequence
//! models that the operations' contracts use.
use vstd::prelude::*;
use crate::dllist::{pushed_front, pushed_back, popped_front, popped_back};

verus! {

/// The contents after a series of pushes onto `s`, each given as
/// `(at_front, value)` in the order of the calls.
pub open spec fn after_pushes<T>(s: Seq<T>, pushes: Seq<(bool, T)>) -> Seq<T>
    decreases pushes.len(),
{
    if pushes.len() == 0 {
        s
    } else {
        let t = after_pushes(s, pushes.drop_last());
        let (at_front, v) = pushes.last();
        if at_front {
            pushed_front(t, v)
        } else {
            pushed_back(t, v)
        }
    }
}

/// Starting from an empty list, any `n` pushes at either end leave exactly
/// `n` elements.
pub proof fn lemma_size_after_pushes<T>(pushes: Seq<(bool, T)>)
    ensures
        after_pushes(Seq::<T>::empty(), pushes).len() == pushes.len(),
    decreases pushes.len(),
{
    if pushes.len() > 0 {
        lemma_size_after_pushes(pushes.drop_last());
    }
}

/// Popping either end of an empty list yields nothing and leaves it empty.
pub proof fn lemma_pop_empty<T>()
    ensures
        popped_front(Seq::<T>::empty()) == (None::<T>, Seq::<T>::empty()),
        popped_back(Seq::<T>::empty()) == (None::<T>, Seq::<T>::empty()),
{
}

/// Pushing `a`, `b`, `c` at the front and then popping the front three times
/// yields `c`, `b`, `a` and restores the original contents.
pub proof fn lemma_front_is_lifo<T>(s: Seq<T>, a: T, b: T, c: T)
    ensures
        ({
            let full = pushed_front(pushed_front(pushed_front(s, a), b), c);
            let (r1, s1) = popped_front(full);
            let (r2, s2) = popped_front(s1);
            let (r3, s3) = popped_front(s2);
            r1 == Some(c) && r2 == Some(b) && r3 == Some(a) && s3 == s
        }),
{
    let full = pushed_front(pushed_front(pushed_front(s, a), b), c);
    assert(full.drop_first().drop_first().drop_first() =~= s);
}

/// Pushing `a`, `b`, `c` at the back of an empty list and then popping the
/// front three times yields `a`, `b`, `c` and leaves the list empty.
pub proof fn lemma_back_to_front_is_fifo<T>(a: T, b: T, c: T)
    ensures
        ({
            let full = pushed_back(pushed_back(pushed_back(Seq::<T>::empty(), a), b), c);
            let (r1, s1) = popped_front(full);
            let (r2, s2) = popped_front(s1);
            let (r3, s3) = popped_front(s2);
            r1 == Some(a) && r2 == Some(b) && r3 == Some(c) && s3 == Seq::<T>::empty()
        }),
{
    let full = pushed_back(pushed_back(pushed_back(Seq::<T>::empty(), a), b), c);
    assert(full =~= seq![a, b, c]);
    assert(full.drop_first() =~= seq![b, c]);
    assert(full.drop_first().drop_first() =~= seq![c]);
    assert(full.drop_first().drop_first().drop_first() =~= Seq::<T>::empty());
}

/// Pushing `a`, `b`, `c` at the front of an empty list and then popping the
/// back three times yields `a`, `b`, `c` and leaves the list empty.
pub proof fn lemma_front_to_back_is_fifo<T>(a: T, b: T, c: T)
    ensures
        ({
            let full = pushed_front(pushed_front(pushed_front(Seq::<T>::empty(), a), b), c);
            let (r1, s1) = popped_back(full);
            let (r2, s2) = popped_back(s1);
            let (r3, s3) = popped_back(s2);
            r1 == Some(a) && r2 == Some(b) && r3 == Some(c) && s3 == Seq::<T>::empty()
        }),
{
    let full = pushed_front(pushed_front(pushed_front(Seq::<T>::empty(), a), b), c);
    assert(full =~= seq![c, b, a]);
    assert(full.drop_last() =~= seq![c, b]);
    assert(full.drop_last().drop_last() =~= seq![c]);
    assert(full.drop_last().drop_last().drop_last() =~= Seq::<T>::empty());
}

} // verus!
