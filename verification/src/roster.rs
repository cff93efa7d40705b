//! Ordered commits to the world's lists: the dead leave, the living keep
//! their places relative to one another, so the next tick sees the same
//! order on every run.

use vstd::prelude::*;

verus! {

/// The entries of `items` whose mark in `gone` is false, in their original
/// order (`gone[i]` marks `items[i]`).
pub open spec fn survivors<T>(items: Seq<T>, gone: Seq<bool>) -> Seq<T>
    decreases items.len(),
{
    if items.len() == 0 {
        Seq::empty()
    } else {
        let rest = survivors(items.drop_last(), gone);
        if gone[items.len() - 1] {
            rest
        } else {
            rest.push(items.last())
        }
    }
}

/// How many of the first `n` marks are set.
pub open spec fn marked(gone: Seq<bool>, n: int) -> nat
    decreases n,
{
    if n <= 0 {
        0
    } else {
        marked(gone, n - 1) + if gone[n - 1] {
            1nat
        } else {
            0nat
        }
    }
}

/// Exactly the unmarked entries survive: as many as there are unmarked
/// marks, and each survivor is an unmarked entry, later survivors coming
/// from later places.
pub proof fn lemma_survivors<T>(items: Seq<T>, gone: Seq<bool>)
    requires
        gone.len() == items.len(),
    ensures
        survivors(items, gone).len() + marked(gone, items.len() as int) == items.len(),
        forall|k: int|
            0 <= k < survivors(items, gone).len() ==> exists|i: int|
                0 <= i < items.len() && !gone[i] && #[trigger] survivors(items, gone)[k] == items[i]
                    && marked(gone, i) + k == i,
    decreases items.len(),
{
    if items.len() > 0 {
        let n = items.len() as int;
        let init = items.drop_last();
        let marks = gone.take(n - 1);
        assert forall|j: int| 0 <= j <= n - 1 implies #[trigger] marked(marks, j) == marked(gone, j) by {
            lemma_marked_prefix(gone, n - 1, j);
        }
        lemma_survivors_prefix_marks(init, gone, marks);
        lemma_survivors(init, marks);
        let rest = survivors(init, gone);
        assert forall|k: int| 0 <= k < survivors(items, gone).len() implies exists|i: int|
            0 <= i < items.len() && !gone[i] && #[trigger] survivors(items, gone)[k] == items[i]
                && marked(gone, i) + k == i by {
            if k < rest.len() {
                let i = choose|i: int|
                    0 <= i < init.len() && !marks[i] && #[trigger] survivors(init, marks)[k] == init[i]
                        && marked(marks, i) + k == i;
                assert(survivors(items, gone)[k] == items[i] && !gone[i] && marked(gone, i) + k == i);
            } else {
                assert(survivors(items, gone)[k] == items[n - 1] && !gone[n - 1] && marked(gone, n - 1)
                    + k == n - 1);
            }
        }
    }
}

/// Counting marks reads only the first `n` of them.
proof fn lemma_marked_prefix(gone: Seq<bool>, m: int, n: int)
    requires
        0 <= n <= m <= gone.len(),
    ensures
        marked(gone.take(m), n) == marked(gone, n),
    decreases n,
{
    if n > 0 {
        lemma_marked_prefix(gone, m, n - 1);
    }
}

/// Filtering a prefix reads only the marks of that prefix.
proof fn lemma_survivors_prefix_marks<T>(items: Seq<T>, gone: Seq<bool>, marks: Seq<bool>)
    requires
        items.len() <= gone.len(),
        marks == gone.take(items.len() as int),
    ensures
        survivors(items, gone) == survivors(items, marks),
    decreases items.len(),
{
    if items.len() > 0 {
        let n = items.len() as int;
        lemma_survivors_prefix_marks(items.drop_last(), gone, gone.take(n - 1));
        lemma_survivors_prefix_marks(items.drop_last(), marks, marks.take(n - 1));
        assert(gone.take(n - 1) =~= marks.take(n - 1));
    }
}

/// Remove the entries of `items` marked in `gone`, keeping the others in
/// their order.
pub fn remove_marked<T>(items: &mut Vec<T>, gone: &Vec<bool>)
    requires
        old(items)@.len() == gone@.len(),
    ensures
        final(items)@ == survivors(old(items)@, gone@),
{
    let ghost orig = items@;
    let n = items.len();
    let mut reversed: Vec<T> = Vec::new();
    while items.len() > 0
        invariant
            orig.len() == n,
            items@.len() <= n,
            items@ == orig.take(items@.len() as int),
            reversed@ == orig.subrange(items@.len() as int, n as int).reverse(),
        decreases items@.len(),
    {
        let ghost len = items@.len();
        match items.pop() {
            Some(x) => {
                reversed.push(x);
                assert(items@ =~= orig.take(items@.len() as int));
                assert(reversed@ =~= orig.subrange(items@.len() as int, n as int).reverse());
            },
            None => {},
        }
    }
    assert(items@ =~= survivors(orig.take(0), gone@));
    let mut i: usize = 0;
    while i < n
        invariant
            orig.len() == n,
            gone@.len() == n,
            i <= n,
            items@ == survivors(orig.take(i as int), gone@),
            reversed@ == orig.subrange(i as int, n as int).reverse(),
        decreases n - i,
    {
        match reversed.pop() {
            Some(x) => {
                assert(x == orig[i as int]);
                assert(orig.take(i as int + 1).drop_last() =~= orig.take(i as int));
                if !gone[i] {
                    items.push(x);
                }
                i = i + 1;
                assert(reversed@ =~= orig.subrange(i as int, n as int).reverse());
            },
            None => {
                assert(false);
            },
        }
    }
    assert(orig.take(n as int) =~= orig);
}

} // verus!
