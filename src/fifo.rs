use vstd::prelude::*;
use crate::error::AppError;
use crate::ledger::{posted, movement_record, Batch, Inventory, MovementContext};
use crate::movement::StockMovementType;

verus! {

/// Units taken from one batch. `batch_id` is the batch's position.
#[derive(Debug, Clone, Copy, PartialEq, Eq, Structural)]
pub struct Allocation {
    pub batch_id: u64,
    pub quantity: i64,
}

/// Batch `i` is drawn before batch `j`: it expires earlier, or on the same day
/// and was created first.
pub open spec fn precedes(bs: Seq<Batch>, i: int, j: int) -> bool {
    bs[i].expiry_day < bs[j].expiry_day || (bs[i].expiry_day == bs[j].expiry_day && i < j)
}

/// Stock of product `p` among the first `n` batches that is drawn before batch `i`.
pub open spec fn stock_before(bs: Seq<Batch>, p: u64, i: int, n: int) -> int
    decreases n,
{
    if n <= 0 {
        0
    } else {
        stock_before(bs, p, i, n - 1) + if bs[n - 1].product_id == p && precedes(bs, n - 1, i) {
            bs[n - 1].remaining_quantity as int
        } else {
            0
        }
    }
}

/// Stock of product `p` among the first `n` batches.
pub open spec fn product_stock(bs: Seq<Batch>, p: u64, n: int) -> int
    decreases n,
{
    if n <= 0 {
        0
    } else {
        product_stock(bs, p, n - 1) + if bs[n - 1].product_id == p {
            bs[n - 1].remaining_quantity as int
        } else {
            0
        }
    }
}

/// What first-expiry-first-out takes from batch `i` to gather `needed` units of
/// product `p`: whatever of the need is left once every batch drawn before it
/// is exhausted, up to what the batch holds.
pub open spec fn fifo_take(bs: Seq<Batch>, p: u64, needed: int, i: int) -> int {
    if bs[i].product_id != p {
        0
    } else {
        let before = stock_before(bs, p, i, bs.len() as int);
        if before >= needed {
            0
        } else if needed - before <= bs[i].remaining_quantity {
            needed - before
        } else {
            bs[i].remaining_quantity as int
        }
    }
}

/// `out` lists each batch with a positive FIFO take, once, in drawing order.
pub open spec fn is_fifo_plan(bs: Seq<Batch>, p: u64, needed: int, out: Seq<Allocation>) -> bool {
    &&& forall|k: int|
        0 <= k < out.len() ==> {
            &&& 0 <= (#[trigger] out[k]).batch_id < bs.len()
            &&& out[k].quantity == fifo_take(bs, p, needed, out[k].batch_id as int)
            &&& out[k].quantity > 0
        }
    &&& forall|k1: int, k2: int|
        0 <= k1 < k2 < out.len() ==> precedes(
            bs,
            (#[trigger] out[k1]).batch_id as int,
            (#[trigger] out[k2]).batch_id as int,
        )
    &&& forall|i: int|
        0 <= i < bs.len() && fifo_take(bs, p, needed, i) > 0 ==> exists|k: int|
            0 <= k < out.len() && (#[trigger] out[k]).batch_id == i
}

pub open spec fn all_nonneg(bs: Seq<Batch>) -> bool {
    forall|i: int| 0 <= i < bs.len() ==> 0 <= (#[trigger] bs[i]).remaining_quantity
}

pub open spec fn min_int(a: int, b: int) -> int {
    if a <= b {
        a
    } else {
        b
    }
}

fn is_drawn_before(bs: &Vec<Batch>, i: usize, j: usize) -> (r: bool)
    requires
        i < bs@.len(),
        j < bs@.len(),
    ensures
        r == precedes(bs@, i as int, j as int),
{
    bs[i].expiry_day < bs[j].expiry_day || (bs[i].expiry_day == bs[j].expiry_day && i < j)
}

/// The stock of product `p` drawn before batch `i`, counted up to `cap`.
fn capped_stock_before(bs: &Vec<Batch>, p: u64, i: usize, cap: i64) -> (r: i64)
    requires
        i < bs@.len(),
        all_nonneg(bs@),
        cap >= 0,
    ensures
        r == min_int(stock_before(bs@, p, i as int, bs@.len() as int), cap as int),
        0 <= r <= cap,
{
    let mut acc: i64 = 0;
    let mut j: usize = 0;
    while j < bs.len()
        invariant
            i < bs@.len(),
            all_nonneg(bs@),
            cap >= 0,
            j <= bs@.len(),
            acc == min_int(stock_before(bs@, p, i as int, j as int), cap as int),
        decreases bs@.len() - j,
    {
        if bs[j].product_id == p && is_drawn_before(bs, j, i) {
            let x = bs[j].remaining_quantity;
            proof {
                assert(0 <= bs@[j as int].remaining_quantity);
                lemma_stock_before_nonneg(bs@, p, i as int, j as int);
            }
            if x >= cap - acc {
                acc = cap;
            } else {
                acc = acc + x;
            }
        }
        j = j + 1;
    }
    proof {
        lemma_stock_before_nonneg(bs@, p, i as int, bs@.len() as int);
    }
    acc
}

pub proof fn lemma_stock_before_nonneg(bs: Seq<Batch>, p: u64, i: int, n: int)
    requires
        all_nonneg(bs),
        n <= bs.len(),
    ensures
        stock_before(bs, p, i, n) >= 0,
    decreases n,
{
    if n > 0 {
        assert(0 <= bs[n - 1].remaining_quantity);
        lemma_stock_before_nonneg(bs, p, i, n - 1);
    }
}

proof fn lemma_product_stock_nonneg(bs: Seq<Batch>, p: u64, n: int)
    requires
        all_nonneg(bs),
        n <= bs.len(),
    ensures
        product_stock(bs, p, n) >= 0,
    decreases n,
{
    if n > 0 {
        assert(0 <= bs[n - 1].remaining_quantity);
        lemma_product_stock_nonneg(bs, p, n - 1);
    }
}

/// The stock of product `p`, counted up to `cap`.
fn capped_product_stock(bs: &Vec<Batch>, p: u64, cap: i64) -> (r: i64)
    requires
        all_nonneg(bs@),
        cap >= 0,
    ensures
        r == min_int(product_stock(bs@, p, bs@.len() as int), cap as int),
{
    let mut acc: i64 = 0;
    let mut j: usize = 0;
    while j < bs.len()
        invariant
            all_nonneg(bs@),
            cap >= 0,
            j <= bs@.len(),
            acc == min_int(product_stock(bs@, p, j as int), cap as int),
        decreases bs@.len() - j,
    {
        if bs[j].product_id == p {
            let x = bs[j].remaining_quantity;
            proof {
                assert(0 <= bs@[j as int].remaining_quantity);
                lemma_product_stock_nonneg(bs@, p, j as int);
            }
            if x >= cap - acc {
                acc = cap;
            } else {
                acc = acc + x;
            }
        }
        j = j + 1;
    }
    acc
}

/// The FIFO take of every batch, by position.
fn fifo_takes(bs: &Vec<Batch>, p: u64, needed: i64) -> (r: Vec<i64>)
    requires
        all_nonneg(bs@),
        needed >= 0,
    ensures
        r@.len() == bs@.len(),
        forall|i: int| 0 <= i < bs@.len() ==> #[trigger] r@[i] == fifo_take(bs@, p, needed as int, i),
{
    let mut r: Vec<i64> = Vec::new();
    let mut i: usize = 0;
    while i < bs.len()
        invariant
            all_nonneg(bs@),
            needed >= 0,
            i <= bs@.len(),
            r@.len() == i,
            forall|j: int| 0 <= j < i ==> #[trigger] r@[j] == fifo_take(bs@, p, needed as int, j),
        decreases bs@.len() - i,
    {
        let take: i64 = if bs[i].product_id != p {
            0
        } else {
            let before = capped_stock_before(bs, p, i, needed);
            let rem = bs[i].remaining_quantity;
            if before >= needed {
                0
            } else if needed - before <= rem {
                needed - before
            } else {
                rem
            }
        };
        r.push(take);
        i = i + 1;
    }
    r
}

/// Plans how to gather `needed` units of product `p` from the batches, first
/// expiry first: all of it or nothing.
pub fn plan_fifo(bs: &Vec<Batch>, p: u64, needed: i64) -> (r: Result<Vec<Allocation>, AppError>)
    requires
        all_nonneg(bs@),
    ensures
        needed <= 0 ==> r == Err::<Vec<Allocation>, AppError>(AppError::Validation),
        needed > 0 && product_stock(bs@, p, bs@.len() as int) < needed ==> r == Err::<
            Vec<Allocation>,
            AppError,
        >(AppError::InsufficientStock),
        needed > 0 && product_stock(bs@, p, bs@.len() as int) >= needed ==> r is Ok
            && is_fifo_plan(bs@, p, needed as int, r->Ok_0@) && plan_total(r->Ok_0@) == needed,
{
    if needed <= 0 {
        return Err(AppError::Validation);
    }
    let total = capped_product_stock(bs, p, needed);
    if total < needed {
        return Err(AppError::InsufficientStock);
    }
    let takes = fifo_takes(bs, p, needed);
    let n = bs.len();
    let mut out: Vec<Allocation> = Vec::new();
    let mut has_last = false;
    let mut last: usize = 0;
    loop
        invariant
            n == bs@.len(),
            takes@.len() == n,
            forall|i: int| 0 <= i < n ==> #[trigger] takes@[i] == fifo_take(bs@, p, needed as int, i),
            has_last ==> last < n && out@.len() > 0 && out@.last().batch_id == last,
            !has_last ==> out@.len() == 0,
            forall|k: int|
                0 <= k < out@.len() ==> {
                    &&& 0 <= (#[trigger] out@[k]).batch_id < n
                    &&& out@[k].quantity == fifo_take(bs@, p, needed as int, out@[k].batch_id as int)
                    &&& out@[k].quantity > 0
                },
            forall|k1: int, k2: int|
                0 <= k1 < k2 < out@.len() ==> precedes(
                    bs@,
                    (#[trigger] out@[k1]).batch_id as int,
                    (#[trigger] out@[k2]).batch_id as int,
                ),
            forall|i: int|
                0 <= i < n && #[trigger] takes@[i] > 0 && has_last && (i == last || precedes(
                    bs@,
                    i,
                    last as int,
                )) ==> exists|k: int| 0 <= k < out@.len() && out@[k].batch_id == i,
        ensures
            is_fifo_plan(bs@, p, needed as int, out@),
        decreases
            if has_last {
                (i32::MAX - bs@[last as int].expiry_day) as int
            } else {
                0x1_0000_0000int
            },
            if has_last {
                n - last
            } else {
                n + 1
            },
    {
        let mut found = false;
        let mut best: usize = 0;
        let mut j: usize = 0;
        while j < n
            invariant
                n == bs@.len(),
                takes@.len() == n,
                has_last ==> last < n,
                j <= n,
                found ==> best < j,
                found ==> best < n && takes@[best as int] > 0 && (!has_last || precedes(
                    bs@,
                    last as int,
                    best as int,
                )),
                forall|i: int|
                    0 <= i < j && #[trigger] takes@[i] > 0 && (!has_last || precedes(
                        bs@,
                        last as int,
                        i,
                    )) ==> found && (best == i || precedes(bs@, best as int, i)),
            decreases n - j,
        {
            if takes[j] > 0 && (!has_last || is_drawn_before(bs, last, j)) && (!found
                || is_drawn_before(bs, j, best)) {
                best = j;
                found = true;
            }
            j = j + 1;
        }
        if !found {
            proof {
                assert forall|i: int|
                    0 <= i < bs@.len() && fifo_take(bs@, p, needed as int, i) > 0 implies exists|
                    k: int,
                | 0 <= k < out@.len() && (#[trigger] out@[k]).batch_id == i by {
                    assert(takes@[i] > 0);
                    if !(i == last || precedes(bs@, i, last as int)) {
                        assert(!has_last || precedes(bs@, last as int, i));
                    }
                }
            }
            break ;
        }
        let ghost old_out = out@;
        out.push(Allocation { batch_id: best as u64, quantity: takes[best] });
        proof {
            assert(out@.last() == out@[out@.len() - 1]);
            assert forall|k1: int, k2: int|
                0 <= k1 < k2 < out@.len() implies precedes(
                bs@,
                (#[trigger] out@[k1]).batch_id as int,
                (#[trigger] out@[k2]).batch_id as int,
            ) by {
                if k2 == out@.len() - 1 && k1 < k2 - 1 {
                    assert(precedes(bs@, old_out[k1].batch_id as int, last as int));
                }
            }
            assert forall|i: int|
                0 <= i < n && takes@[i] > 0 && (i == best || precedes(
                    bs@,
                    i,
                    best as int,
                )) implies exists|k: int| 0 <= k < out@.len() && (#[trigger] out@[k]).batch_id
                == i by {
                assert(takes@[i] > 0);
                if i == best {
                    assert(out@[out@.len() - 1].batch_id == i);
                } else if has_last && (i == last || precedes(bs@, i, last as int)) {
                    let k = choose|k: int| 0 <= k < old_out.len() && old_out[k].batch_id == i;
                    assert(out@[k] == old_out[k]);
                } else {
                    assert(!has_last || precedes(bs@, last as int, i));
                }
            }
        }
        has_last = true;
        last = best;
    }
    proof {
        lemma_plan_total(bs@, p, needed as int, out@);
    }
    Ok(out)
}


/// Units of the plan `out`, among its first `k` entries, that come from batch `i`.
pub open spec fn taken_in(out: Seq<Allocation>, k: int, i: int) -> int
    decreases k,
{
    if k <= 0 {
        0
    } else {
        taken_in(out, k - 1, i) + if out[k - 1].batch_id == i {
            out[k - 1].quantity as int
        } else {
            0
        }
    }
}

pub proof fn lemma_taken_absent(out: Seq<Allocation>, k: int, i: int)
    requires
        k <= out.len(),
        forall|j: int| 0 <= j < k ==> (#[trigger] out[j]).batch_id != i,
    ensures
        taken_in(out, k, i) == 0,
    decreases k,
{
    if k > 0 {
        assert(out[k - 1].batch_id != i);
        lemma_taken_absent(out, k - 1, i);
    }
}

proof fn lemma_taken_present(out: Seq<Allocation>, k: int, i: int, w: int)
    requires
        0 <= w < k <= out.len(),
        out[w].batch_id == i,
        forall|j: int| 0 <= j < k && j != w ==> (#[trigger] out[j]).batch_id != i,
    ensures
        taken_in(out, k, i) == out[w].quantity,
    decreases k,
{
    if k - 1 == w {
        lemma_taken_absent(out, w, i);
    } else {
        assert(out[k - 1].batch_id != i);
        lemma_taken_present(out, k - 1, i, w);
    }
}

/// The ledger entries that carry out plan `out` as movements of kind `t`.
pub open spec fn plan_records(
    bs: Seq<Batch>,
    out: Seq<Allocation>,
    first_id: int,
    t: StockMovementType,
    ctx: MovementContext,
) -> Seq<crate::movement::StockMovement> {
    Seq::new(
        out.len(),
        |k: int| movement_record(first_id + k, bs[out[k].batch_id as int], t, out[k].quantity, ctx),
    )
}

pub open spec fn is_draw_kind(t: StockMovementType) -> bool {
    t == StockMovementType::TruckLoadOut || t == StockMovementType::SaleOut
}

impl Inventory {
    /// Draws `needed` units of product `p`, first expiry first, recording one
    /// movement of kind `t` (a truck load or a sale) per batch drawn from; all
    /// of it or, on an error, nothing.
    pub fn allocate_fifo(
        &mut self,
        p: u64,
        needed: i64,
        t: StockMovementType,
        ctx: MovementContext,
    ) -> (r: Result<Vec<Allocation>, AppError>)
        requires
            old(self).wf(),
        ensures
            final(self).wf(),
            !is_draw_kind(t) || needed <= 0 ==> r == Err::<Vec<Allocation>, AppError>(
                AppError::Validation,
            ),
            is_draw_kind(t) && needed > 0 && product_stock(
                old(self).batches@,
                p,
                old(self).batches@.len() as int,
            ) < needed ==> r == Err::<Vec<Allocation>, AppError>(AppError::InsufficientStock),
            r is Err ==> *final(self) == *old(self),
            is_draw_kind(t) && needed > 0 && product_stock(
                old(self).batches@,
                p,
                old(self).batches@.len() as int,
            ) >= needed ==> {
                &&& r is Ok
                &&& is_fifo_plan(old(self).batches@, p, needed as int, r->Ok_0@)
                &&& plan_total(r->Ok_0@) == needed
                &&& final(self).batches@.len() == old(self).batches@.len()
                &&& forall|i: int|
                    0 <= i < old(self).batches@.len() ==> #[trigger] final(self).batches@[i]
                        == posted(
                        old(self).batches@[i],
                        t,
                        fifo_take(old(self).batches@, p, needed as int, i),
                    )
                &&& final(self).movements@ == old(self).movements@ + plan_records(
                    old(self).batches@,
                    r->Ok_0@,
                    old(self).movements@.len() as int,
                    t,
                    ctx,
                )
                &&& product_stock(final(self).batches@, p, final(self).batches@.len() as int)
                    == product_stock(old(self).batches@, p, old(self).batches@.len() as int)
                    - needed
            },
    {
        match t {
            StockMovementType::TruckLoadOut | StockMovementType::SaleOut => {},
            _ => {
                return Err(AppError::Validation);
            },
        }
        proof {
            assert forall|i: int| 0 <= i < self.batches@.len() implies 0 <= (
            #[trigger] self.batches@[i]).remaining_quantity by {
                assert(self.batches@[i].id == i);
                assert(crate::ledger::batch_consistent(self.batches@[i], self.movements@));
            }
        }
        let out = match plan_fifo(&self.batches, p, needed) {
            Ok(out) => out,
            Err(e) => {
                return Err(e);
            },
        };
        let ghost old_bs = self.batches@;
        let ghost old_ms = self.movements@;
        let mut k: usize = 0;
        while k < out.len()
            invariant
                self.wf(),
                is_draw_kind(t),
                all_nonneg(old_bs),
                is_fifo_plan(old_bs, p, needed as int, out@),
                self.batches@.len() == old_bs.len(),
                k <= out@.len(),
                forall|i: int|
                    0 <= i < old_bs.len() ==> #[trigger] self.batches@[i] == posted(
                        old_bs[i],
                        t,
                        taken_in(out@, k as int, i),
                    ),
                self.movements@ == old_ms + plan_records(
                    old_bs,
                    out@.take(k as int),
                    old_ms.len() as int,
                    t,
                    ctx,
                ),
            decreases out@.len() - k,
        {
            let a = out[k];
            let ghost idx = a.batch_id as int;
            proof {
                assert forall|j: int| 0 <= j < k implies (#[trigger] out@[j]).batch_id != idx by {
                    assert(precedes(old_bs, out@[j].batch_id as int, out@[k as int].batch_id as int));
                }
                lemma_taken_absent(out@, k as int, idx);
                lemma_stock_before_nonneg(old_bs, p, idx, old_bs.len() as int);
                assert(self.batches@[idx] == posted(old_bs[idx], t, 0));
                assert(0 <= old_bs[idx].remaining_quantity);
            }
            let posted_id = self.post_movement(a.batch_id, t, a.quantity, ctx);
            match posted_id {
                Ok(_) => {},
                Err(e) => {
                    return Err(e);
                },
            }
            proof {
                assert forall|i: int| 0 <= i < old_bs.len() implies #[trigger] self.batches@[i]
                    == posted(old_bs[i], t, taken_in(out@, k + 1, i)) by {}
                assert(out@.take(k + 1) =~= out@.take(k as int).push(a));
                assert(plan_records(old_bs, out@.take(k + 1), old_ms.len() as int, t, ctx)
                    =~= plan_records(old_bs, out@.take(k as int), old_ms.len() as int, t, ctx).push(
                    movement_record(old_ms.len() + k, old_bs[idx], t, a.quantity, ctx),
                ));
            }
            k = k + 1;
        }
        proof {
            assert(out@.take(out@.len() as int) =~= out@);
            assert forall|i: int| 0 <= i < old_bs.len() implies #[trigger] self.batches@[i]
                == posted(old_bs[i], t, fifo_take(old_bs, p, needed as int, i)) by {
                lemma_stock_before_nonneg(old_bs, p, i, old_bs.len() as int);
                assert(0 <= old_bs[i].remaining_quantity);
                if fifo_take(old_bs, p, needed as int, i) > 0 {
                    let w = choose|w: int| 0 <= w < out@.len() && (#[trigger] out@[w]).batch_id == i;
                    assert forall|j: int| 0 <= j < out@.len() && j != w implies (
                    #[trigger] out@[j]).batch_id != i by {
                        if j < w {
                            assert(precedes(old_bs, out@[j].batch_id as int, out@[w].batch_id as int));
                        } else {
                            assert(precedes(old_bs, out@[w].batch_id as int, out@[j].batch_id as int));
                        }
                    }
                    lemma_taken_present(out@, out@.len() as int, i, w);
                } else {
                    assert forall|j: int| 0 <= j < out@.len() implies (#[trigger] out@[j]).batch_id
                        != i by {}
                    lemma_taken_absent(out@, out@.len() as int, i);
                }
            }
            assert forall|i: int| 0 <= i < old_bs.len() implies (#[trigger] self.batches@[i]).product_id
                == old_bs[i].product_id && self.batches@[i].remaining_quantity
                == old_bs[i].remaining_quantity - fifo_take(old_bs, p, needed as int, i) by {
                lemma_stock_before_nonneg(old_bs, p, i, old_bs.len() as int);
                assert(0 <= old_bs[i].remaining_quantity);
            }
            lemma_stock_after_takes(old_bs, self.batches@, p, needed as int, old_bs.len() as int);
            lemma_fifo_takes_total(old_bs, p, needed as int);
        }
        Ok(out)
    }
}

proof fn lemma_single_batch_sums(bs: Seq<Batch>, p: u64, i: int, n: int)
    requires
        0 <= i < bs.len(),
        0 <= n <= bs.len(),
        bs[i].product_id == p,
        forall|j: int| 0 <= j < bs.len() && j != i ==> (#[trigger] bs[j]).product_id != p,
    ensures
        product_stock(bs, p, n) == if i < n {
            bs[i].remaining_quantity as int
        } else {
            0
        },
        stock_before(bs, p, i, n) == 0,
    decreases n,
{
    if n > 0 {
        lemma_single_batch_sums(bs, p, i, n - 1);
        if n - 1 != i {
            assert(bs[n - 1].product_id != p);
        }
    }
}

/// Against a product held by a single batch, an allocation of `a` units takes
/// `a` units from it when it holds them; a second allocation of `b` units then
/// finds `b` units in stock exactly when the batch held `a + b`. So of two
/// allocations that together exceed the batch, the second is refused, and the
/// batch never goes below zero.
pub proof fn lemma_single_batch_allocations(bs: Seq<Batch>, p: u64, i: int, a: int, b: int)
    requires
        all_nonneg(bs),
        0 <= i < bs.len(),
        bs[i].product_id == p,
        forall|j: int| 0 <= j < bs.len() && j != i ==> (#[trigger] bs[j]).product_id != p,
        0 < a <= bs[i].remaining_quantity,
    ensures
        product_stock(bs, p, bs.len() as int) == bs[i].remaining_quantity,
        fifo_take(bs, p, a, i) == a,
        forall|j: int| 0 <= j < bs.len() && j != i ==> #[trigger] fifo_take(bs, p, a, j) == 0,
        ({
            let after = bs.update(i, posted(bs[i], StockMovementType::TruckLoadOut, a));
            &&& product_stock(after, p, after.len() as int) == bs[i].remaining_quantity - a
            &&& 0 <= after[i].remaining_quantity
            &&& (product_stock(after, p, after.len() as int) >= b <==> a + b <= bs[i].remaining_quantity)
        }),
{
    lemma_single_batch_sums(bs, p, i, bs.len() as int);
    let after = bs.update(i, posted(bs[i], StockMovementType::TruckLoadOut, a));
    assert forall|j: int| 0 <= j < after.len() && j != i implies (#[trigger] after[j]).product_id != p by {
        assert(after[j] == bs[j]);
    }
    lemma_single_batch_sums(after, p, i, after.len() as int);
}

/// Batch `j` holds stock of product `p`.
pub open spec fn holds_stock(bs: Seq<Batch>, p: u64, j: int) -> bool {
    bs[j].product_id == p && bs[j].remaining_quantity > 0
}

/// Among the first `n` batches, the one that holds stock of `p` and is drawn
/// last, or -1.
pub open spec fn last_drawn(bs: Seq<Batch>, p: u64, n: int) -> int
    decreases n,
{
    if n <= 0 {
        -1
    } else {
        let m = last_drawn(bs, p, n - 1);
        if holds_stock(bs, p, n - 1) && (m == -1 || precedes(bs, m, n - 1)) {
            n - 1
        } else {
            m
        }
    }
}

/// The FIFO takes of the first `n` batches, summed.
pub open spec fn take_sum(bs: Seq<Batch>, p: u64, needed: int, n: int) -> int
    decreases n,
{
    if n <= 0 {
        0
    } else {
        take_sum(bs, p, needed, n - 1) + fifo_take(bs, p, needed, n - 1)
    }
}

proof fn lemma_last_drawn(bs: Seq<Batch>, p: u64, n: int)
    requires
        0 <= n <= bs.len(),
    ensures
        -1 <= last_drawn(bs, p, n) < n,
        last_drawn(bs, p, n) >= 0 ==> holds_stock(bs, p, last_drawn(bs, p, n)),
        forall|j: int|
            0 <= j < n && holds_stock(bs, p, j) ==> last_drawn(bs, p, n) >= 0 && (j == last_drawn(
                bs,
                p,
                n,
            ) || precedes(bs, j, last_drawn(bs, p, n))),
    decreases n,
{
    if n > 0 {
        lemma_last_drawn(bs, p, n - 1);
    }
}

/// Without a batch holding stock, a product has none.
proof fn lemma_no_stock(bs: Seq<Batch>, p: u64, n: int)
    requires
        0 <= n <= bs.len(),
        all_nonneg(bs),
        forall|j: int| 0 <= j < n ==> !holds_stock(bs, p, j),
    ensures
        product_stock(bs, p, n) == 0,
    decreases n,
{
    if n > 0 {
        assert(!holds_stock(bs, p, n - 1));
        assert(0 <= bs[n - 1].remaining_quantity);
        lemma_no_stock(bs, p, n - 1);
    }
}

/// The batch drawn last has every other unit of the product before it.
proof fn lemma_before_last(bs: Seq<Batch>, p: u64, m: int, n: int)
    requires
        0 <= n <= bs.len(),
        0 <= m < bs.len(),
        all_nonneg(bs),
        holds_stock(bs, p, m),
        forall|j: int| 0 <= j < bs.len() && holds_stock(bs, p, j) ==> j == m || precedes(bs, j, m),
    ensures
        stock_before(bs, p, m, n) == product_stock(bs, p, n) - if m < n {
            bs[m].remaining_quantity as int
        } else {
            0
        },
    decreases n,
{
    if n > 0 {
        lemma_before_last(bs, p, m, n - 1);
        let j = n - 1;
        assert(0 <= bs[j].remaining_quantity);
        if j == m {
            assert(!precedes(bs, m, m));
        } else if bs[j].product_id == p {
            if bs[j].remaining_quantity > 0 {
                assert(holds_stock(bs, p, j));
                assert(precedes(bs, j, m));
            } else {
                assert(bs[j].remaining_quantity == 0);
            }
        }
    }
}

pub open spec fn emptied(bs: Seq<Batch>, m: int) -> Seq<Batch> {
    bs.update(m, Batch { remaining_quantity: 0, ..bs[m] })
}

proof fn lemma_emptied_stock(bs: Seq<Batch>, p: u64, m: int, n: int)
    requires
        0 <= n <= bs.len(),
        0 <= m < bs.len(),
        bs[m].product_id == p,
    ensures
        product_stock(emptied(bs, m), p, n) == product_stock(bs, p, n) - if m < n {
            bs[m].remaining_quantity as int
        } else {
            0
        },
    decreases n,
{
    if n > 0 {
        lemma_emptied_stock(bs, p, m, n - 1);
    }
}

/// Emptying the batch drawn last leaves what comes before every other batch.
proof fn lemma_emptied_before(bs: Seq<Batch>, p: u64, m: int, i: int, n: int)
    requires
        0 <= n <= bs.len(),
        0 <= m < bs.len(),
        0 <= i < bs.len(),
        !precedes(bs, m, i),
    ensures
        stock_before(emptied(bs, m), p, i, n) == stock_before(bs, p, i, n),
    decreases n,
{
    if n > 0 {
        lemma_emptied_before(bs, p, m, i, n - 1);
    }
}

proof fn lemma_emptied_takes(bs: Seq<Batch>, p: u64, needed: int, m: int, n: int)
    requires
        0 <= n <= bs.len(),
        0 <= m < bs.len(),
        all_nonneg(bs),
        holds_stock(bs, p, m),
        forall|j: int| 0 <= j < bs.len() && holds_stock(bs, p, j) ==> j == m || precedes(bs, j, m),
    ensures
        take_sum(emptied(bs, m), p, needed, n) == take_sum(bs, p, needed, n) - if m < n {
            fifo_take(bs, p, needed, m)
        } else {
            0
        },
    decreases n,
{
    if n > 0 {
        lemma_emptied_takes(bs, p, needed, m, n - 1);
        let e = emptied(bs, m);
        let i = n - 1;
        assert(e.len() == bs.len());
        if i != m {
            assert(e[i] == bs[i]);
            if holds_stock(bs, p, i) {
                assert(precedes(bs, i, m));
                assert(!precedes(bs, m, i));
                lemma_emptied_before(bs, p, m, i, bs.len() as int);
            } else {
                assert(0 <= bs[i].remaining_quantity);
            }
        }
    }
}

/// Drawing first expiry first, the takes add up to what is needed, or to all
/// the stock there is when that is less.
pub proof fn lemma_fifo_takes_total(bs: Seq<Batch>, p: u64, needed: int)
    requires
        all_nonneg(bs),
        needed >= 0,
    ensures
        take_sum(bs, p, needed, bs.len() as int) == min_int(
            needed,
            product_stock(bs, p, bs.len() as int),
        ),
    decreases product_stock(bs, p, bs.len() as int),
{
    let n = bs.len() as int;
    lemma_last_drawn(bs, p, n);
    let m = last_drawn(bs, p, n);
    lemma_product_stock_nonneg(bs, p, n);
    if m < 0 {
        lemma_no_stock(bs, p, n);
        lemma_zero_takes(bs, p, needed, n);
    } else {
        let e = emptied(bs, m);
        assert forall|j: int| 0 <= j < e.len() implies 0 <= (#[trigger] e[j]).remaining_quantity by {
            assert(0 <= bs[j].remaining_quantity);
        }
        lemma_emptied_stock(bs, p, m, n);
        lemma_product_stock_nonneg(e, p, n);
        assert(bs[m].remaining_quantity > 0);
        lemma_fifo_takes_total(e, p, needed);
        lemma_emptied_takes(bs, p, needed, m, n);
        lemma_before_last(bs, p, m, n);
    }
}

proof fn lemma_zero_takes(bs: Seq<Batch>, p: u64, needed: int, n: int)
    requires
        0 <= n <= bs.len(),
        all_nonneg(bs),
        needed >= 0,
        product_stock(bs, p, bs.len() as int) == 0,
        forall|j: int| 0 <= j < bs.len() ==> !holds_stock(bs, p, j),
    ensures
        take_sum(bs, p, needed, n) == 0,
    decreases n,
{
    if n > 0 {
        lemma_zero_takes(bs, p, needed, n - 1);
        assert(!holds_stock(bs, p, n - 1));
        assert(0 <= bs[n - 1].remaining_quantity);
    }
}

/// Taking each batch's FIFO take out of it lowers the product's stock by the
/// sum of the takes.
proof fn lemma_stock_after_takes(before: Seq<Batch>, after: Seq<Batch>, p: u64, needed: int, n: int)
    requires
        0 <= n <= before.len(),
        after.len() == before.len(),
        forall|i: int|
            0 <= i < before.len() ==> (#[trigger] after[i]).product_id == before[i].product_id
                && after[i].remaining_quantity == before[i].remaining_quantity - fifo_take(
                before,
                p,
                needed,
                i,
            ),
    ensures
        product_stock(after, p, n) == product_stock(before, p, n) - take_sum(before, p, needed, n),
    decreases n,
{
    if n > 0 {
        lemma_stock_after_takes(before, after, p, needed, n - 1);
        assert(after[n - 1].product_id == before[n - 1].product_id);
    }
}

/// The units of a plan, summed.
pub open spec fn plan_total(out: Seq<Allocation>) -> int
    decreases out.len(),
{
    if out.len() == 0 {
        0
    } else {
        plan_total(out.drop_last()) + out.last().quantity
    }
}

spec fn indicator_sum(id: int, q: int, n: int) -> int
    decreases n,
{
    if n <= 0 {
        0
    } else {
        indicator_sum(id, q, n - 1) + if id == n - 1 {
            q
        } else {
            0
        }
    }
}

spec fn sum_taken(out: Seq<Allocation>, k: int, n: int) -> int
    decreases n,
{
    if n <= 0 {
        0
    } else {
        sum_taken(out, k, n - 1) + taken_in(out, k, n - 1)
    }
}

proof fn lemma_indicator_sum(id: int, q: int, n: int)
    requires
        0 <= id < n,
    ensures
        indicator_sum(id, q, n) == q,
    decreases n,
{
    if n - 1 != id {
        lemma_indicator_sum(id, q, n - 1);
    } else {
        lemma_indicator_zero(id, q, n - 1);
    }
}

proof fn lemma_indicator_zero(id: int, q: int, n: int)
    requires
        n <= id,
    ensures
        indicator_sum(id, q, n) == 0,
    decreases n,
{
    if n > 0 {
        lemma_indicator_zero(id, q, n - 1);
    }
}

proof fn lemma_sum_taken_step(out: Seq<Allocation>, k: int, n: int)
    requires
        0 <= k < out.len(),
    ensures
        sum_taken(out, k + 1, n) == sum_taken(out, k, n) + indicator_sum(
            out[k].batch_id as int,
            out[k].quantity as int,
            n,
        ),
    decreases n,
{
    if n > 0 {
        lemma_sum_taken_step(out, k, n - 1);
    }
}

proof fn lemma_sum_taken_total(out: Seq<Allocation>, k: int, n: int)
    requires
        0 <= k <= out.len(),
        forall|j: int| 0 <= j < out.len() ==> (#[trigger] out[j]).batch_id < n,
    ensures
        sum_taken(out, k, n) == plan_total(out.take(k)),
    decreases k,
{
    if k == 0 {
        lemma_sum_taken_zero(out, n);
        assert(out.take(0) =~= Seq::<Allocation>::empty());
    } else {
        lemma_sum_taken_total(out, k - 1, n);
        lemma_sum_taken_step(out, k - 1, n);
        assert(out[k - 1].batch_id < n);
        lemma_indicator_sum(out[k - 1].batch_id as int, out[k - 1].quantity as int, n);
        assert(out.take(k).drop_last() =~= out.take(k - 1));
    }
}

proof fn lemma_sum_taken_zero(out: Seq<Allocation>, n: int)
    ensures
        sum_taken(out, 0, n) == 0,
    decreases n,
{
    if n > 0 {
        lemma_sum_taken_zero(out, n - 1);
    }
}

proof fn lemma_sum_taken_matches(out: Seq<Allocation>, bs: Seq<Batch>, p: u64, needed: int, n: int)
    requires
        0 <= n <= bs.len(),
        forall|i: int| 0 <= i < bs.len() ==> #[trigger] taken_in(out, out.len() as int, i) == fifo_take(
            bs,
            p,
            needed,
            i,
        ),
    ensures
        sum_taken(out, out.len() as int, n) == take_sum(bs, p, needed, n),
    decreases n,
{
    if n > 0 {
        lemma_sum_taken_matches(out, bs, p, needed, n - 1);
        assert(taken_in(out, out.len() as int, n - 1) == fifo_take(bs, p, needed, n - 1));
    }
}

/// A FIFO plan takes from each batch exactly its FIFO take.
pub proof fn lemma_plan_takes(bs: Seq<Batch>, p: u64, needed: int, out: Seq<Allocation>, i: int)
    requires
        all_nonneg(bs),
        is_fifo_plan(bs, p, needed, out),
        0 <= i < bs.len(),
    ensures
        taken_in(out, out.len() as int, i) == fifo_take(bs, p, needed, i),
{
    lemma_stock_before_nonneg(bs, p, i, bs.len() as int);
    assert(0 <= bs[i].remaining_quantity);
    if fifo_take(bs, p, needed, i) > 0 {
        let w = choose|w: int| 0 <= w < out.len() && (#[trigger] out[w]).batch_id == i;
        assert forall|j: int| 0 <= j < out.len() && j != w implies (#[trigger] out[j]).batch_id != i by {
            if j < w {
                assert(precedes(bs, out[j].batch_id as int, out[w].batch_id as int));
            } else {
                assert(precedes(bs, out[w].batch_id as int, out[j].batch_id as int));
            }
        }
        lemma_taken_present(out, out.len() as int, i, w);
    } else {
        assert forall|j: int| 0 <= j < out.len() implies (#[trigger] out[j]).batch_id != i by {}
        lemma_taken_absent(out, out.len() as int, i);
    }
}

/// A FIFO plan for `needed` units, where the stock covers them, lists exactly
/// `needed` units in all.
pub proof fn lemma_plan_total(bs: Seq<Batch>, p: u64, needed: int, out: Seq<Allocation>)
    requires
        all_nonneg(bs),
        needed >= 0,
        product_stock(bs, p, bs.len() as int) >= needed,
        is_fifo_plan(bs, p, needed, out),
    ensures
        plan_total(out) == needed,
{
    assert forall|i: int| 0 <= i < bs.len() implies #[trigger] taken_in(out, out.len() as int, i)
        == fifo_take(bs, p, needed, i) by {
        lemma_plan_takes(bs, p, needed, out, i);
    }
    lemma_sum_taken_matches(out, bs, p, needed, bs.len() as int);
    lemma_sum_taken_total(out, out.len() as int, bs.len() as int);
    assert(out.take(out.len() as int) =~= out);
    lemma_fifo_takes_total(bs, p, needed);
}

/// Two sequences of batches that agree on product, expiry and remaining
/// quantity, position by position.
pub open spec fn same_lots(a: Seq<Batch>, b: Seq<Batch>) -> bool {
    &&& a.len() == b.len()
    &&& forall|i: int|
        0 <= i < a.len() ==> (#[trigger] a[i]).product_id == b[i].product_id && a[i].expiry_day
            == b[i].expiry_day && a[i].remaining_quantity == b[i].remaining_quantity
}

proof fn lemma_same_lots_sums(a: Seq<Batch>, b: Seq<Batch>, p: u64, i: int, n: int)
    requires
        same_lots(a, b),
        0 <= i < a.len(),
        0 <= n <= a.len(),
    ensures
        stock_before(a, p, i, n) == stock_before(b, p, i, n),
        product_stock(a, p, n) == product_stock(b, p, n),
    decreases n,
{
    if n > 0 {
        lemma_same_lots_sums(a, b, p, i, n - 1);
        assert(a[n - 1].product_id == b[n - 1].product_id);
        assert(a[i].expiry_day == b[i].expiry_day);
    }
}

/// FIFO reads only product, expiry and remaining quantity.
pub proof fn lemma_same_lots_fifo(a: Seq<Batch>, b: Seq<Batch>, p: u64, needed: int)
    requires
        same_lots(a, b),
    ensures
        product_stock(a, p, a.len() as int) == product_stock(b, p, b.len() as int),
        forall|i: int| 0 <= i < a.len() ==> #[trigger] fifo_take(a, p, needed, i) == fifo_take(b, p, needed, i),
        forall|i: int, j: int| 0 <= i < a.len() && 0 <= j < a.len() ==> (#[trigger] precedes(a, i, j) <==> precedes(b, i, j)),
{
    if a.len() > 0 {
        lemma_same_lots_sums(a, b, p, 0, a.len() as int);
    } else {
        assert(product_stock(a, p, 0) == 0);
    }
    assert forall|i: int| 0 <= i < a.len() implies #[trigger] fifo_take(a, p, needed, i) == fifo_take(b, p, needed, i) by {
        lemma_same_lots_sums(a, b, p, i, a.len() as int);
        assert(a[i].product_id == b[i].product_id);
    }
    assert forall|i: int, j: int| 0 <= i < a.len() && 0 <= j < a.len() implies (#[trigger] precedes(a, i, j) <==> precedes(b, i, j)) by {
        assert(a[i].expiry_day == b[i].expiry_day);
        assert(a[j].expiry_day == b[j].expiry_day);
    }
}

proof fn lemma_before_grows(bs: Seq<Batch>, p: u64, i: int, j: int, n: int)
    requires
        all_nonneg(bs),
        0 <= i < bs.len(),
        0 <= j < bs.len(),
        0 <= n <= bs.len(),
        bs[i].product_id == p,
        precedes(bs, i, j),
    ensures
        stock_before(bs, p, j, n) >= stock_before(bs, p, i, n) + if i < n {
            bs[i].remaining_quantity as int
        } else {
            0
        },
    decreases n,
{
    if n > 0 {
        lemma_before_grows(bs, p, i, j, n - 1);
        assert(0 <= bs[n - 1].remaining_quantity);
    }
}

/// First expiry first: a batch is drawn from only once every batch of the
/// product drawn before it is exhausted.
pub proof fn lemma_fifo_exhausts_earlier(bs: Seq<Batch>, p: u64, needed: int, i: int, j: int)
    requires
        all_nonneg(bs),
        0 <= i < bs.len(),
        0 <= j < bs.len(),
        bs[i].product_id == p,
        precedes(bs, i, j),
        fifo_take(bs, p, needed, j) > 0,
    ensures
        fifo_take(bs, p, needed, i) == bs[i].remaining_quantity,
{
    lemma_before_grows(bs, p, i, j, bs.len() as int);
    lemma_stock_before_nonneg(bs, p, i, bs.len() as int);
}

proof fn lemma_plans_agree(bs: Seq<Batch>, p: u64, n: int, o1: Seq<Allocation>, o2: Seq<Allocation>, k: int)
    requires
        is_fifo_plan(bs, p, n, o1),
        is_fifo_plan(bs, p, n, o2),
        0 <= k <= o1.len(),
        k <= o2.len(),
    ensures
        forall|j: int| 0 <= j < k ==> o1[j] == o2[j],
    decreases k,
{
    if k > 0 {
        lemma_plans_agree(bs, p, n, o1, o2, k - 1);
        let x = o1[k - 1].batch_id;
        assert(fifo_take(bs, p, n, x as int) > 0);
        let m = choose|m: int| 0 <= m < o2.len() && (#[trigger] o2[m]).batch_id == x as int;
        if m < k - 1 {
            assert(o2[m] == o1[m]);
            assert(precedes(bs, o1[m].batch_id as int, o1[k - 1].batch_id as int));
        } else if m > k - 1 {
            let y = o2[k - 1].batch_id;
            assert(fifo_take(bs, p, n, y as int) > 0);
            let m2 = choose|m2: int| 0 <= m2 < o1.len() && (#[trigger] o1[m2]).batch_id == y as int;
            assert(precedes(bs, o2[k - 1].batch_id as int, o2[m].batch_id as int));
            if m2 < k - 1 {
                assert(o2[m2] == o1[m2]);
                assert(precedes(bs, o2[m2].batch_id as int, o2[k - 1].batch_id as int));
            } else if m2 == k - 1 {
            } else {
                assert(precedes(bs, o1[k - 1].batch_id as int, o1[m2].batch_id as int));
            }
        }
        assert(o1[k - 1].batch_id == o2[k - 1].batch_id);
    }
}

/// A FIFO plan is unique: the batches it draws from, in drawing order, with
/// their takes, are fixed by the batches, the product and the need.
pub proof fn lemma_fifo_plan_unique(bs: Seq<Batch>, p: u64, n: int, o1: Seq<Allocation>, o2: Seq<Allocation>)
    requires
        is_fifo_plan(bs, p, n, o1),
        is_fifo_plan(bs, p, n, o2),
    ensures
        o1 == o2,
{
    if o1.len() <= o2.len() {
        lemma_plans_agree(bs, p, n, o1, o2, o1.len() as int);
        if o1.len() < o2.len() {
            let x = o2[o1.len() as int].batch_id;
            assert(fifo_take(bs, p, n, x as int) > 0);
            let m = choose|m: int| 0 <= m < o1.len() && (#[trigger] o1[m]).batch_id == x as int;
            assert(o1[m] == o2[m]);
            assert(precedes(bs, o2[m].batch_id as int, o2[o1.len() as int].batch_id as int));
        }
    } else {
        lemma_plans_agree(bs, p, n, o1, o2, o2.len() as int);
        let x = o1[o2.len() as int].batch_id;
        assert(fifo_take(bs, p, n, x as int) > 0);
        let m = choose|m: int| 0 <= m < o2.len() && (#[trigger] o2[m]).batch_id == x as int;
        assert(o1[m] == o2[m]);
        assert(precedes(bs, o1[m].batch_id as int, o1[o2.len() as int].batch_id as int));
    }
    assert(o1 =~= o2);
}
} // verus!
