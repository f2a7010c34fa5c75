//! Reassembly of rendered rows.
//!
//! Workers render rows in whatever order they pick them up and hand back
//! `(row index, row)` pairs. The collector files each row under its index and,
//! once every row has come in, lays them out top row first: the row with the
//! highest index is the top of the image.
use vstd::prelude::*;

verus! {

/// Why a row could not be taken, or the image could not be assembled.
#[derive(Clone, Copy, Debug, PartialEq, Eq, Structural)]
pub enum CollectError {
    /// The row index is not below the image height.
    RowOutOfRange,
    /// A row with this index was already taken.
    DuplicateRow,
    /// The row does not hold one entry per column.
    RowLengthMismatch,
    /// Some row has not come in yet.
    Incomplete,
}

/// The rows received so far, filed by row index.
pub struct RowCollector<T> {
    width: usize,
    rows: Vec<Option<Vec<T>>>,
    remaining: usize,
}

/// The view of one slot: the row's entries, if it came in.
pub open spec fn slot_view<T>(o: Option<Vec<T>>) -> Option<Seq<T>> {
    match o {
        Some(v) => Some(v@),
        None => None,
    }
}

/// Rows laid out from the highest index down to index 0.
pub open spec fn rows_top_first<T>(rows: Seq<Seq<T>>) -> Seq<T>
    decreases rows.len(),
{
    if rows.len() == 0 {
        Seq::empty()
    } else {
        rows_top_first(rows.drop_first()) + rows[0]
    }
}

/// Every slot is filled.
pub open spec fn all_received<T>(slots: Seq<Option<Seq<T>>>) -> bool {
    forall|y: int| 0 <= y < slots.len() ==> (#[trigger] slots[y]) is Some
}

/// The rows of filled slots.
pub open spec fn unwrap_rows<T>(slots: Seq<Option<Seq<T>>>) -> Seq<Seq<T>> {
    slots.map_values(|o: Option<Seq<T>>| o->Some_0)
}

/// The outcome of offering row `y` to a collector whose slots are `slots`.
pub open spec fn receive_outcome<T>(width: nat, slots: Seq<Option<Seq<T>>>, y: int, row: Seq<T>) -> Result<
    (),
    CollectError,
> {
    if !(0 <= y < slots.len()) {
        Err(CollectError::RowOutOfRange)
    } else if slots[y] is Some {
        Err(CollectError::DuplicateRow)
    } else if row.len() != width {
        Err(CollectError::RowLengthMismatch)
    } else {
        Ok(())
    }
}

/// The slots after offering row `y`: filled with it when it was taken, else unchanged.
pub open spec fn after_receive<T>(width: nat, slots: Seq<Option<Seq<T>>>, y: int, row: Seq<T>) -> Seq<
    Option<Seq<T>>,
> {
    if receive_outcome(width, slots, y, row) is Ok {
        slots.update(y, Some(row))
    } else {
        slots
    }
}

/// The slots after offering the rows of `arrivals` in order to an empty collector
/// of `height` rows.
pub open spec fn collect_all<T>(width: nat, height: nat, arrivals: Seq<(usize, Seq<T>)>) -> Seq<
    Option<Seq<T>>,
>
    decreases arrivals.len(),
{
    if arrivals.len() == 0 {
        Seq::new(height, |y: int| None)
    } else {
        let last = arrivals.last();
        after_receive(
            width,
            collect_all(width, height, arrivals.drop_last()),
            last.0 as int,
            last.1,
        )
    }
}

/// Each arrival is a row of the image with one entry per column, and no row
/// index comes twice.
pub open spec fn arrivals_valid<T>(width: nat, height: nat, arrivals: Seq<(usize, Seq<T>)>) -> bool {
    &&& forall|k: int|
        0 <= k < arrivals.len() ==> (#[trigger] arrivals[k]).0 < height && arrivals[k].1.len()
            == width
    &&& forall|i: int, j: int|
        0 <= i < j < arrivals.len() ==> (#[trigger] arrivals[i]).0 != (#[trigger] arrivals[j]).0
}

proof fn lemma_collect_all_slots<T>(width: nat, height: nat, arrivals: Seq<(usize, Seq<T>)>)
    requires
        arrivals_valid(width, height, arrivals),
    ensures
        collect_all(width, height, arrivals).len() == height,
        forall|y: int|
            0 <= y < height ==> (#[trigger] collect_all(width, height, arrivals)[y] == (if exists|
                k: int,
            |
                0 <= k < arrivals.len() && arrivals[k].0 == y {
                Some(
                    arrivals[choose|k: int| 0 <= k < arrivals.len() && arrivals[k].0 == y].1,
                )
            } else {
                None
            })),
    decreases arrivals.len(),
{
    if arrivals.len() > 0 {
        let rest = arrivals.drop_last();
        let last = arrivals.last();
        let n = arrivals.len() - 1;
        assert(arrivals_valid(width, height, rest)) by {
            assert forall|k: int| 0 <= k < rest.len() implies (#[trigger] rest[k]).0 < height
                && rest[k].1.len() == width by {
                assert(rest[k] == arrivals[k]);
            }
            assert forall|i: int, j: int| 0 <= i < j < rest.len() implies (#[trigger] rest[i]).0
                != (#[trigger] rest[j]).0 by {
                assert(rest[i] == arrivals[i]);
                assert(rest[j] == arrivals[j]);
            }
        }
        lemma_collect_all_slots(width, height, rest);
        let before = collect_all(width, height, rest);
        assert(arrivals[n] == last);
        assert(before[last.0 as int] is None) by {
            if exists|k: int| 0 <= k < rest.len() && rest[k].0 == last.0 {
                let k = choose|k: int| 0 <= k < rest.len() && rest[k].0 == last.0;
                assert(rest[k] == arrivals[k]);
                assert(arrivals[k].0 != arrivals[n].0);
            }
        }
        assert forall|y: int| 0 <= y < height implies (#[trigger] collect_all(
            width,
            height,
            arrivals,
        )[y] == (if exists|k: int| 0 <= k < arrivals.len() && arrivals[k].0 == y {
            Some(arrivals[choose|k: int| 0 <= k < arrivals.len() && arrivals[k].0 == y].1)
        } else {
            None
        })) by {
            if y == last.0 as int {
                let k = choose|k: int| 0 <= k < arrivals.len() && arrivals[k].0 == y;
                assert(arrivals[k].0 == arrivals[n].0);
                assert(k == n);
            } else {
                if exists|k: int| 0 <= k < arrivals.len() && arrivals[k].0 == y {
                    let k = choose|k: int| 0 <= k < arrivals.len() && arrivals[k].0 == y;
                    assert(k != n);
                    assert(rest[k] == arrivals[k]);
                    let k2 = choose|k2: int| 0 <= k2 < rest.len() && rest[k2].0 == y;
                    assert(rest[k2] == arrivals[k2]);
                    if k2 != k {
                        if k2 < k {
                            assert(arrivals[k2].0 != arrivals[k].0);
                        } else {
                            assert(arrivals[k].0 != arrivals[k2].0);
                        }
                    }
                } else {
                    assert forall|k: int| 0 <= k < rest.len() implies rest[k].0 != y by {
                        assert(rest[k] == arrivals[k]);
                    }
                }
            }
        }
    }
}

/// The filed rows do not depend on the order in which rows arrive: two arrival
/// orders of the same rows, each row index coming once, leave the collector in
/// the same state, and so assemble the same image.
pub proof fn lemma_arrival_order_irrelevant<T>(
    width: nat,
    height: nat,
    a: Seq<(usize, Seq<T>)>,
    b: Seq<(usize, Seq<T>)>,
)
    requires
        arrivals_valid(width, height, a),
        arrivals_valid(width, height, b),
        forall|x: (usize, Seq<T>)| a.contains(x) <==> b.contains(x),
    ensures
        collect_all(width, height, a) == collect_all(width, height, b),
        rows_top_first(unwrap_rows(collect_all(width, height, a))) == rows_top_first(
            unwrap_rows(collect_all(width, height, b)),
        ),
{
    lemma_collect_all_slots(width, height, a);
    lemma_collect_all_slots(width, height, b);
    let ca = collect_all(width, height, a);
    let cb = collect_all(width, height, b);
    assert forall|y: int| 0 <= y < height implies ca[y] == cb[y] by {
        if exists|k: int| 0 <= k < a.len() && a[k].0 == y {
            let k = choose|k: int| 0 <= k < a.len() && a[k].0 == y;
            assert(a.contains(a[k]));
            assert(b.contains(a[k]));
            let kb = choose|kb: int| 0 <= kb < b.len() && b[kb] == a[k];
            let kb2 = choose|kb2: int| 0 <= kb2 < b.len() && b[kb2].0 == y;
            if kb2 != kb {
                if kb2 < kb {
                    assert(b[kb2].0 != b[kb].0);
                } else {
                    assert(b[kb].0 != b[kb2].0);
                }
            }
        } else {
            if exists|k: int| 0 <= k < b.len() && b[k].0 == y {
                let k = choose|k: int| 0 <= k < b.len() && b[k].0 == y;
                assert(b.contains(b[k]));
                assert(a.contains(b[k]));
                let ka = choose|ka: int| 0 <= ka < a.len() && a[ka] == b[k];
                assert(a[ka].0 == y);
            }
        }
    }
    assert(ca =~= cb);
}

proof fn lemma_rows_top_first_len<T>(rows: Seq<Seq<T>>, width: nat)
    requires
        forall|y: int| 0 <= y < rows.len() ==> (#[trigger] rows[y]).len() == width,
    ensures
        rows_top_first(rows).len() == width * rows.len(),
    decreases rows.len(),
{
    if rows.len() > 0 {
        let rest = rows.drop_first();
        assert forall|y: int| 0 <= y < rest.len() implies (#[trigger] rest[y]).len() == width by {
            assert(rest[y] == rows[y + 1]);
        }
        lemma_rows_top_first_len(rest, width);
        assert(width * rows.len() == width * rest.len() + width) by (nonlinear_arith)
            requires
                rows.len() == rest.len() + 1,
        ;
    }
}

/// The number of empty slots.
pub open spec fn count_missing<T>(slots: Seq<Option<Seq<T>>>) -> nat
    decreases slots.len(),
{
    if slots.len() == 0 {
        0
    } else {
        count_missing(slots.drop_last()) + if slots.last() is None {
            1nat
        } else {
            0nat
        }
    }
}

proof fn lemma_count_missing_update<T>(slots: Seq<Option<Seq<T>>>, y: int, row: Seq<T>)
    requires
        0 <= y < slots.len(),
        slots[y] is None,
    ensures
        count_missing(slots) == count_missing(slots.update(y, Some(row))) + 1,
    decreases slots.len(),
{
    let u = slots.update(y, Some(row));
    if y == slots.len() - 1 {
        assert(u.drop_last() =~= slots.drop_last());
    } else {
        assert(u.drop_last() =~= slots.drop_last().update(y, Some(row)));
        lemma_count_missing_update(slots.drop_last(), y, row);
    }
}

proof fn lemma_count_missing_zero<T>(slots: Seq<Option<Seq<T>>>)
    ensures
        count_missing(slots) == 0 <==> all_received(slots),
    decreases slots.len(),
{
    if slots.len() > 0 {
        let rest = slots.drop_last();
        lemma_count_missing_zero(rest);
        if all_received(slots) {
            assert forall|y: int| 0 <= y < rest.len() implies (#[trigger] rest[y]) is Some by {
                assert(rest[y] == slots[y]);
            }
        }
        if count_missing(slots) == 0 {
            assert forall|y: int| 0 <= y < slots.len() implies (#[trigger] slots[y]) is Some by {
                if y < rest.len() {
                    assert(rest[y] == slots[y]);
                }
            }
        }
    }
}

proof fn lemma_count_missing_empty<T>(height: nat)
    ensures
        count_missing(Seq::new(height, |y: int| None::<Seq<T>>)) == height,
    decreases height,
{
    if height > 0 {
        let s = Seq::new(height, |y: int| None::<Seq<T>>);
        assert(s.drop_last() =~= Seq::new((height - 1) as nat, |y: int| None::<Seq<T>>));
        lemma_count_missing_empty::<T>((height - 1) as nat);
    }
}

impl<T> RowCollector<T> {
    /// The number of entries in each row.
    pub closed spec fn width(&self) -> nat {
        self.width as nat
    }

    /// The slots by row index, each filled once its row has come in.
    pub closed spec fn slots(&self) -> Seq<Option<Seq<T>>> {
        self.rows@.map_values(|o: Option<Vec<T>>| slot_view(o))
    }

    /// The count of missing rows is kept, and every filled slot holds one entry
    /// per column.
    pub closed spec fn inv(&self) -> bool {
        &&& self.remaining as nat == count_missing(self.slots())
        &&& forall|y: int|
            0 <= y < self.slots().len() && (#[trigger] self.slots()[y]) is Some ==> self.slots()[y]->Some_0.len()
                == self.width()
    }

    /// An empty collector for an image of `width` columns and `height` rows.
    pub fn new(width: usize, height: usize) -> (r: Self)
        ensures
            r.inv(),
            r.width() == width,
            r.slots() == Seq::new(height as nat, |y: int| None::<Seq<T>>),
    {
        let mut rows: Vec<Option<Vec<T>>> = Vec::new();
        let mut i: usize = 0;
        while i < height
            invariant
                i <= height,
                rows@.len() == i,
                forall|y: int| 0 <= y < i ==> (#[trigger] rows@[y]) is None,
            decreases height - i,
        {
            rows.push(None);
            i = i + 1;
        }
        let r = RowCollector { width, rows, remaining: height };
        proof {
            assert(r.slots() =~= Seq::new(height as nat, |y: int| None::<Seq<T>>));
            lemma_count_missing_empty::<T>(height as nat);
        }
        r
    }

    /// The number of rows that have not come in yet; zero exactly when all have.
    pub fn remaining(&self) -> (r: usize)
        requires
            self.inv(),
        ensures
            r == count_missing(self.slots()),
            r == 0 <==> all_received(self.slots()),
    {
        proof {
            lemma_count_missing_zero(self.slots());
        }
        self.remaining
    }

    /// Files `row` under index `y`. Fails, changing nothing, when `y` is not below
    /// the height, when row `y` already came in, or when the row's length is not
    /// the width.
    pub fn receive(&mut self, y: usize, row: Vec<T>) -> (r: Result<(), CollectError>)
        requires
            old(self).inv(),
        ensures
            final(self).inv(),
            final(self).width() == old(self).width(),
            r == receive_outcome(old(self).width(), old(self).slots(), y as int, row@),
            final(self).slots() == after_receive(
                old(self).width(),
                old(self).slots(),
                y as int,
                row@,
            ),
    {
        if y >= self.rows.len() {
            return Err(CollectError::RowOutOfRange);
        }
        let taken = match &self.rows[y] {
            Some(_) => true,
            None => false,
        };
        if taken {
            return Err(CollectError::DuplicateRow);
        }
        if row.len() != self.width {
            return Err(CollectError::RowLengthMismatch);
        }
        let ghost s0 = self.slots();
        let ghost rv = row@;
        self.rows.set(y, Some(row));
        proof {
            assert(self.slots() =~= s0.update(y as int, Some(rv)));
            lemma_count_missing_update(s0, y as int, rv);
        }
        self.remaining = self.remaining - 1;
        Ok(())
    }

    /// Lays the rows out top row first, once every row has come in.
    pub fn finish(self) -> (r: Result<Vec<T>, CollectError>)
        requires
            self.inv(),
        ensures
            r is Ok <==> all_received(self.slots()),
            r is Ok ==> r->Ok_0@ == rows_top_first(unwrap_rows(self.slots())),
            r is Ok ==> r->Ok_0@.len() == self.width() * self.slots().len(),
            r is Err ==> r == Err::<Vec<T>, CollectError>(CollectError::Incomplete),
    {
        let ghost slots = self.slots();
        let ghost width = self.width();
        let mut rows = self.rows;
        let mut out: Vec<T> = Vec::new();
        while rows.len() > 0
            invariant
                slots == self.slots(),
                rows@.len() <= slots.len(),
                forall|y: int| 0 <= y < rows@.len() ==> slot_view(#[trigger] rows@[y]) == slots[y],
                forall|y: int| rows@.len() <= y < slots.len() ==> (#[trigger] slots[y]) is Some,
                out@ == rows_top_first(
                    unwrap_rows(slots).subrange(rows@.len() as int, slots.len() as int),
                ),
            decreases rows@.len(),
        {
            let ghost n = rows@.len();
            let slot = rows.pop();
            proof {
                assert(slot_view(slot->Some_0) == slots[n - 1]);
            }
            match slot {
                Some(Some(mut row)) => {
                    out.append(&mut row);
                    proof {
                        let all = unwrap_rows(slots);
                        let sub = all.subrange(n - 1, slots.len() as int);
                        assert(sub.len() > 0);
                        assert(sub.drop_first() =~= all.subrange(n as int, slots.len() as int));
                    }
                },
                _ => {
                    proof {
                        assert(slots[n - 1] is None);
                        assert(!all_received(slots));
                    }
                    return Err(CollectError::Incomplete);
                },
            }
        }
        proof {
            let all = unwrap_rows(slots);
            assert(all.subrange(0, slots.len() as int) =~= all);
            assert forall|y: int| 0 <= y < all.len() implies (#[trigger] all[y]).len() == width by {
                assert(slots[y] is Some);
            }
            lemma_rows_top_first_len(all, width);
        }
        Ok(out)
    }
}

} // verus!
