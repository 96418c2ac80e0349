//! In-place compaction of a vector: the elements that a predicate picks are
//! dropped in one pass, and the others are moved to the front.

use vstd::prelude::*;

verus! {

/// What is left of the first `n` elements of `items` once every element whose
/// position is marked in `dropped` has been taken out.
pub open spec fn kept_upto<T>(items: Seq<T>, dropped: Seq<bool>, n: nat) -> Seq<T>
    decreases n,
{
    if n == 0 {
        Seq::empty()
    } else {
        let before = kept_upto(items, dropped, (n - 1) as nat);
        if dropped[n - 1] {
            before
        } else {
            before.push(items[n - 1])
        }
    }
}

/// What is left of `items` once every element whose position is marked in
/// `dropped` has been taken out.
pub open spec fn kept<T>(items: Seq<T>, dropped: Seq<bool>) -> Seq<T> {
    kept_upto(items, dropped, items.len())
}

/// Whether `dropped` holds, for each element of `items`, an answer that
/// `pred` may give for it.
pub open spec fn answers<T, F: Fn(&T) -> bool>(pred: F, items: Seq<T>, dropped: Seq<bool>) -> bool {
    &&& dropped.len() == items.len()
    &&& forall|i: int| 0 <= i < items.len() ==> pred.ensures((&#[trigger] items[i],), dropped[i])
}

/// Marks that agree on the first `n` positions leave the same elements of
/// the first `n`.
pub proof fn lemma_kept_upto_agrees<T>(items: Seq<T>, a: Seq<bool>, b: Seq<bool>, n: nat)
    requires
        forall|i: int| 0 <= i < n ==> a[i] == b[i],
    ensures
        kept_upto(items, a, n) == kept_upto(items, b, n),
    decreases n,
{
    if n > 0 {
        lemma_kept_upto_agrees(items, a, b, (n - 1) as nat);
    }
}

/// Taking elements out and then mapping what is left gives the same as
/// mapping first and then taking out the same positions.
pub proof fn lemma_kept_upto_map<T, U>(
    items: Seq<T>,
    dropped: Seq<bool>,
    f: spec_fn(T) -> U,
    n: nat,
)
    requires
        n <= items.len(),
    ensures
        kept_upto(items.map_values(f), dropped, n) == kept_upto(items, dropped, n).map_values(f),
    decreases n,
{
    if n > 0 {
        lemma_kept_upto_map(items, dropped, f, (n - 1) as nat);
        let before = kept_upto(items, dropped, (n - 1) as nat);
        assert(before.push(items[n - 1]).map_values(f) =~= before.map_values(f).push(
            f(items[n - 1]),
        ));
    } else {
        assert(Seq::<T>::empty().map_values(f) =~= Seq::<U>::empty());
    }
}

/// Every element that is left stood at a position that is not marked.
pub proof fn lemma_kept_upto_unmarked<T>(items: Seq<T>, dropped: Seq<bool>, n: nat)
    ensures
        forall|k: int|
            0 <= k < kept_upto(items, dropped, n).len() ==> exists|i: int|
                0 <= i < n && !dropped[i] && items[i] == #[trigger] kept_upto(items, dropped, n)[k],
    decreases n,
{
    if n > 0 {
        lemma_kept_upto_unmarked(items, dropped, (n - 1) as nat);
        let before = kept_upto(items, dropped, (n - 1) as nat);
        let now = kept_upto(items, dropped, n);
        assert forall|k: int| 0 <= k < now.len() implies exists|i: int|
            0 <= i < n && !dropped[i] && items[i] == #[trigger] now[k] by {
            if k < before.len() {
                let i = choose|i: int| 0 <= i < n - 1 && !dropped[i] && items[i] == before[k];
                assert(0 <= i < n && !dropped[i] && items[i] == now[k]);
            } else {
                assert(0 <= n - 1 < n && !dropped[n - 1] && items[n - 1] == now[k]);
            }
        }
    }
}

/// Exchanges two elements of a vector through `<[T]>::swap`, which puts each
/// of the two in the other's place and leaves the rest where it is.
#[verifier::external_body]
fn swap_elements<T>(items: &mut Vec<T>, i: usize, j: usize)
    requires
        i < old(items)@.len(),
        j < old(items)@.len(),
    ensures
        final(items)@ == old(items)@.update(i as int, old(items)@[j as int]).update(
            j as int,
            old(items)@[i as int],
        ),
{
    items.swap(i, j);
}

/// A collection that can drop the elements a predicate picks.
pub trait HasDiscardFunc<T> {
    /// The elements held, in order.
    spec fn items(&self) -> Seq<T>;

    /// Drops every element for which `pred` answers `true`. The predicate is
    /// asked once for each element, front to back.
    fn discard<F>(&mut self, pred: F) where F: Fn(&T) -> bool
        requires
            forall|i: int| 0 <= i < old(self).items().len() ==> pred.requires((&#[trigger] old(self).items()[i],)),
        ensures
            exists|dropped: Seq<bool>| #[trigger]
                answers(pred, old(self).items(), dropped) && final(self).items() == kept(
                    old(self).items(),
                    dropped,
                ),
    ;
}

impl<T> HasDiscardFunc<T> for Vec<T> {
    open spec fn items(&self) -> Seq<T> {
        self@
    }

    fn discard<F>(&mut self, pred: F) where F: Fn(&T) -> bool {
        let ghost before = self@;
        let ghost mut dropped: Seq<bool> = Seq::empty();
        let n: usize = self.len();
        proof {
            assert forall|k: int| 0 <= k < n implies pred.requires((&#[trigger] before[k],)) by {
                assert(pred.requires((&old(self).items()[k],)));
            }
        }
        let mut j: usize = 0;
        let mut i: usize = 0;
        while i < n
            invariant
                j <= i <= n,
                n == before.len(),
                self@.len() == n,
                dropped.len() == i,
                forall|k: int| 0 <= k < i ==> pred.ensures((&#[trigger] before[k],), dropped[k]),
                forall|k: int| 0 <= k < n ==> pred.requires((&#[trigger] before[k],)),
                self@.take(j as int) == kept_upto(before, dropped, i as nat),
                forall|k: int| i <= k < n ==> self@[k] == before[k],
            decreases n - i,
        {
            assert(pred.requires((&before[i as int],)));
            let drop_it = pred(&self[i]);
            proof {
                let ghost earlier = dropped;
                dropped = dropped.push(drop_it);
                lemma_kept_upto_agrees(before, earlier, dropped, i as nat);
            }
            if !drop_it {
                let ghost prior = self@;
                swap_elements(self, i, j);
                proof {
                    assert(self@.take(j + 1) =~= prior.take(j as int).push(before[i as int]));
                }
                j += 1;
            }
            i += 1;
        }
        self.truncate(j);
        proof {
            assert(self@ =~= kept(before, dropped));
            assert(answers(pred, old(self).items(), dropped));
        }
    }
}

} // verus!
