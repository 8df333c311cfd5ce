//! Questions over all the accounts of a store.
use vstd::prelude::*;

use crate::balance::Balance;
use crate::operation::{KindView, Operation, OperationType, OperationView, Status};
use crate::storage::{Name, Storage};

verus! {

/// The money that the successful deposits and withdrawals of `h` moved.
pub open spec fn volume(h: Seq<OperationView>) -> int
    decreases h.len(),
{
    if h.len() == 0 {
        0
    } else {
        volume(h.drop_last()) + if h.last().status == Status::SUCCESS {
            match h.last().kind {
                KindView::Deposit(a) => a as int,
                KindView::Withdraw(a) => a as int,
                _ => 0,
            }
        } else {
            0
        }
    }
}

fn history_volume(h: &Vec<Operation>) -> (r: u128)
    ensures
        r == volume(h@.map_values(|o: Operation| o@)),
{
    let ghost vs = h@.map_values(|o: Operation| o@);
    let mut acc: u128 = 0;
    let mut i: usize = 0;
    assert(vs.take(0) =~= Seq::<OperationView>::empty());
    while i < h.len()
        invariant
            i <= h@.len(),
            vs == h@.map_values(|o: Operation| o@),
            acc == volume(vs.take(i as int)),
            acc <= i * 0xffff_ffff_ffff_ffff,
        decreases h.len() - i,
    {
        let o = &h[i];
        assert(vs[i as int] == o@);
        assert(vs.take(i + 1).drop_last() =~= vs.take(i as int));
        let add: u64 = if o.status == Status::SUCCESS {
            match &o.tx_type {
                OperationType::Deposit(a) => *a,
                OperationType::Withdraw(a) => *a,
                _ => 0,
            }
        } else {
            0
        };
        assert(acc + add <= (i + 1) * 0xffff_ffff_ffff_ffff) by (nonlinear_arith)
            requires
                acc <= i * 0xffff_ffff_ffff_ffff,
                add <= 0xffff_ffff_ffff_ffff,
        ;
        assert((i + 1) * 0xffff_ffff_ffff_ffff <= 0xffff_ffff_ffff_ffff_ffff_ffff_ffff_ffff)
            by (nonlinear_arith)
            requires
                i < 0x1_0000_0000_0000_0000,
        ;
        acc = acc + add as u128;
        i += 1;
    }
    assert(vs.take(i as int) =~= vs);
    acc
}

/// Finds accounts that stand out.
pub struct Analitic;

impl Analitic {
    /// An account whose successful deposits and withdrawals moved the most
    /// money; none for an empty store.
    pub fn find_most_active(storage: &Storage) -> (r: Option<(Name, &Balance)>)
        requires
            storage.wf(),
        ensures
            r is None <==> storage@.dom().len() == 0,
            r matches Some((n, b)) ==> storage@.contains_key(n@) && b@ == storage@[n@] && forall|
                k: Seq<char>,
            |
                #[trigger] storage@.contains_key(k) ==> volume(storage@[k].history) <= volume(
                    b@.history,
                ),
    {
        let mut all = storage.get_all();
        if all.len() == 0 {
            return None;
        }
        let mut best: usize = 0;
        let mut best_volume = history_volume(all[0].1.get_history());
        let mut i: usize = 1;
        while i < all.len()
            invariant
                1 <= i <= all@.len(),
                best < all@.len(),
                best_volume == volume(all@[best as int].1@.history),
                forall|j: int|
                    0 <= j < i ==> volume(all@[j].1@.history) <= volume(
                        all@[best as int].1@.history,
                    ),
            decreases all.len() - i,
        {
            let v = history_volume(all[i].1.get_history());
            if v >= best_volume {
                best = i;
                best_volume = v;
            }
            i += 1;
        }
        proof {
            assert forall|k: Seq<char>| #[trigger] storage@.contains_key(k) implies volume(
                storage@[k].history,
            ) <= volume(all@[best as int].1@.history) by {
                let j = choose|j: int| 0 <= j < all@.len() && all@[j].0@ == k;
            }
        }
        let (n, b) = all.swap_remove(best);
        Some((n, b))
    }

    /// An account holding the largest value; none for an empty store.
    pub fn find_most_rich(storage: &Storage) -> (r: Option<(Name, &Balance)>)
        requires
            storage.wf(),
        ensures
            r is None <==> storage@.dom().len() == 0,
            r matches Some((n, b)) ==> storage@.contains_key(n@) && b@ == storage@[n@] && forall|
                k: Seq<char>,
            | #[trigger] storage@.contains_key(k) ==> storage@[k].value <= b@.value,
    {
        let mut all = storage.get_all();
        if all.len() == 0 {
            return None;
        }
        let mut best: usize = 0;
        let mut i: usize = 1;
        while i < all.len()
            invariant
                1 <= i <= all@.len(),
                best < all@.len(),
                forall|j: int| 0 <= j < i ==> all@[j].1@.value <= all@[best as int].1@.value,
            decreases all.len() - i,
        {
            if all[i].1.get_value() >= all[best].1.get_value() {
                best = i;
            }
            i += 1;
        }
        proof {
            assert forall|k: Seq<char>| #[trigger] storage@.contains_key(k) implies storage@[k].value
                <= all@[best as int].1@.value by {
                let j = choose|j: int| 0 <= j < all@.len() && all@[j].0@ == k;
            }
        }
        let (n, b) = all.swap_remove(best);
        Some((n, b))
    }
}

} // verus!
