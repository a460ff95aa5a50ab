use vstd::prelude::*;
use crate::error::AppError;
use crate::movement::{
    balance_at, capacity_at, capacity_quantity, capacity_sum, delta, capacity_delta, delta_sum,
    flow_sum, lemma_flow_sum, lemma_movements_of_absent, lemma_movements_of_push, lemma_sums_push, movements_of, signed_quantity, ReferenceType,
    StockMovement, StockMovementType,
};

verus! {

/// A dated lot of one product. Dates are day numbers.
#[derive(Debug)]
pub struct Batch {
    pub id: u64,
    pub product_id: u64,
    pub batch_number: String,
    pub initial_quantity: i64,
    pub remaining_quantity: i64,
    pub expiry_day: i32,
    pub delivery_id: u64,
}

impl Batch {
    pub fn duplicate(&self) -> (r: Batch)
        ensures
            r == *self,
    {
        Batch {
            id: self.id,
            product_id: self.product_id,
            batch_number: self.batch_number.clone(),
            initial_quantity: self.initial_quantity,
            remaining_quantity: self.remaining_quantity,
            expiry_day: self.expiry_day,
            delivery_id: self.delivery_id,
        }
    }
}

/// Who and what a movement is recorded for.
#[derive(Debug, Clone, Copy, PartialEq, Eq, Structural)]
pub struct MovementContext {
    pub reference_type: ReferenceType,
    pub reference_id: u64,
    pub created_by: u64,
    pub movement_date: i32,
}

/// The batches and the append-only ledger of their movements. A batch's id is
/// its position, and so is a movement's: positions follow insertion order.
#[derive(Debug)]
pub struct Inventory {
    pub batches: Vec<Batch>,
    pub movements: Vec<StockMovement>,
}

/// At the moment after the first `k` entries, batch `b` held between zero and
/// its initial quantity.
pub open spec fn history_ok(ms: Seq<StockMovement>, b: u64, k: int) -> bool {
    0 <= balance_at(ms, b, k) <= capacity_at(ms, b, k) <= i64::MAX
}

pub open spec fn batch_consistent(b: Batch, ms: Seq<StockMovement>) -> bool {
    &&& b.remaining_quantity == delta_sum(movements_of(ms, b.id))
    &&& b.initial_quantity == capacity_sum(movements_of(ms, b.id))
    &&& 0 <= b.remaining_quantity <= b.initial_quantity
}

/// The batch after a movement of kind `t` and quantity `q`.
pub open spec fn posted(b: Batch, t: StockMovementType, q: int) -> Batch {
    Batch {
        remaining_quantity: (b.remaining_quantity + signed_quantity(t, q)) as i64,
        initial_quantity: (b.initial_quantity + capacity_quantity(t, q)) as i64,
        ..b
    }
}

/// Why a movement of kind `t` and quantity `q` on batch `batch_id` is refused,
/// if it is.
pub open spec fn post_error(bs: Seq<Batch>, batch_id: u64, t: StockMovementType, q: int) -> Option<
    AppError,
> {
    if batch_id >= bs.len() {
        Some(AppError::NotFound)
    } else if (t == StockMovementType::Adjustment && q == 0) || (t
        != StockMovementType::Adjustment && q <= 0) {
        Some(AppError::Validation)
    } else {
        let b = bs[batch_id as int];
        if b.remaining_quantity + signed_quantity(t, q) < 0 {
            Some(AppError::InsufficientStock)
        } else if b.initial_quantity + capacity_quantity(t, q) > i64::MAX
            || b.remaining_quantity + signed_quantity(t, q) > b.initial_quantity
            + capacity_quantity(t, q) {
            Some(AppError::Validation)
        } else {
            None
        }
    }
}

pub open spec fn movement_record(
    id: int,
    b: Batch,
    t: StockMovementType,
    q: i64,
    ctx: MovementContext,
) -> StockMovement {
    StockMovement {
        id: id as u64,
        batch_id: b.id,
        product_id: b.product_id,
        movement_type: t,
        quantity: q,
        reference_type: ctx.reference_type,
        reference_id: ctx.reference_id,
        created_by: ctx.created_by,
        movement_date: ctx.movement_date,
    }
}

pub open spec fn is_lot(b: Batch, product_id: u64, batch_number: Seq<char>) -> bool {
    b.product_id == product_id && b.batch_number@ == batch_number
}

/// Whether a batch of the given lot of a product exists.
pub open spec fn has_lot(bs: Seq<Batch>, product_id: u64, batch_number: Seq<char>) -> bool {
    exists|i: int| 0 <= i < bs.len() && is_lot(#[trigger] bs[i], product_id, batch_number)
}

/// The position of the batch of the given lot, where `has_lot` holds.
pub open spec fn lot_of(bs: Seq<Batch>, product_id: u64, batch_number: Seq<char>) -> int {
    choose|i: int| 0 <= i < bs.len() && is_lot(#[trigger] bs[i], product_id, batch_number)
}

/// Lots are unique per product, so the batch of a lot is the one found.
pub proof fn lemma_lot_unique(bs: Seq<Batch>, product_id: u64, batch_number: Seq<char>, i: int)
    requires
        forall|a: int, c: int|
            0 <= a < c < bs.len() ==> !(#[trigger] bs[a].product_id == #[trigger] bs[c].product_id
                && bs[a].batch_number@ == bs[c].batch_number@),
        0 <= i < bs.len(),
        is_lot(bs[i], product_id, batch_number),
    ensures
        has_lot(bs, product_id, batch_number),
        lot_of(bs, product_id, batch_number) == i,
{
    let c = lot_of(bs, product_id, batch_number);
    if c != i {
        if c < i {
            assert(bs[c].product_id == bs[i].product_id);
        } else {
            assert(bs[i].product_id == bs[c].product_id);
        }
    }
}

/// One lot of a delivery.
#[derive(Debug)]
pub struct DeliveryLine {
    pub product_id: u64,
    pub batch_number: String,
    pub expiry_day: i32,
    pub quantity: i64,
}

/// A line names a lot that `bs` holds with another expiry day.
pub open spec fn lot_clash(bs: Seq<Batch>, l: DeliveryLine) -> bool {
    has_lot(bs, l.product_id, l.batch_number@) && bs[lot_of(bs, l.product_id, l.batch_number@)].expiry_day
        != l.expiry_day
}

/// One delivery line applied to the batches: the batches afterwards and the
/// batch the line went to, or the line's error.
pub open spec fn receive_step(bs: Seq<Batch>, l: DeliveryLine, ctx: MovementContext) -> Result<
    (Seq<Batch>, u64),
    AppError,
> {
    let q = l.quantity as int;
    if q <= 0 {
        Err(AppError::Validation)
    } else if has_lot(bs, l.product_id, l.batch_number@) {
        let i = lot_of(bs, l.product_id, l.batch_number@);
        if bs[i].expiry_day != l.expiry_day {
            Err(AppError::Validation)
        } else {
            match post_error(bs, i as u64, StockMovementType::DeliveryIn, q) {
                Some(e) => Err(e),
                None => Ok((bs.update(i, posted(bs[i], StockMovementType::DeliveryIn, q)), i as u64)),
            }
        }
    } else {
        Ok(
            (
                bs.push(
                    Batch {
                        id: bs.len() as u64,
                        product_id: l.product_id,
                        batch_number: l.batch_number,
                        initial_quantity: l.quantity,
                        remaining_quantity: l.quantity,
                        expiry_day: l.expiry_day,
                        delivery_id: ctx.reference_id,
                    },
                ),
                bs.len() as u64,
            ),
        )
    }
}

/// The lines of a delivery applied in order: the batches afterwards and the
/// batch of each line, or the error of the first line refused.
pub open spec fn receive_outcome(bs: Seq<Batch>, lines: Seq<DeliveryLine>, ctx: MovementContext) -> Result<
    (Seq<Batch>, Seq<u64>),
    AppError,
>
    decreases lines.len(),
{
    if lines.len() == 0 {
        Ok((bs, Seq::empty()))
    } else {
        match receive_outcome(bs, lines.drop_last(), ctx) {
            Err(e) => Err(e),
            Ok(state) => match receive_step(state.0, lines.last(), ctx) {
                Err(e) => Err(e),
                Ok(step) => Ok((step.0, state.1.push(step.1))),
            },
        }
    }
}

proof fn lemma_receive_error_stays(
    bs: Seq<Batch>,
    lines: Seq<DeliveryLine>,
    ctx: MovementContext,
    n: int,
    m: int,
    e: AppError,
)
    requires
        0 <= n <= m <= lines.len(),
        receive_outcome(bs, lines.take(n), ctx) == Err::<(Seq<Batch>, Seq<u64>), AppError>(e),
    ensures
        receive_outcome(bs, lines.take(m), ctx) == Err::<(Seq<Batch>, Seq<u64>), AppError>(e),
    decreases m - n,
{
    if m > n {
        lemma_receive_error_stays(bs, lines, ctx, n, m - 1, e);
        assert(lines.take(m).drop_last() =~= lines.take(m - 1));
    }
}

/// One line of a batch's history: a movement and the balance after it.
#[derive(Debug, Clone, Copy, PartialEq, Eq, Structural)]
pub struct BalanceRow {
    pub movement: StockMovement,
    pub balance: i64,
}

/// Why a manual adjustment is refused, if it is.
pub open spec fn adjustment_error(
    bs: Seq<Batch>,
    batch_id: u64,
    product_id: u64,
    t: StockMovementType,
    q: int,
) -> Option<AppError> {
    if t != StockMovementType::Adjustment && t != StockMovementType::ExpiredOut {
        Some(AppError::Validation)
    } else if (t == StockMovementType::Adjustment && q == 0) || (t
        == StockMovementType::ExpiredOut && q <= 0) {
        Some(AppError::Validation)
    } else if batch_id >= bs.len() {
        Some(AppError::NotFound)
    } else if bs[batch_id as int].product_id != product_id {
        Some(AppError::Validation)
    } else {
        post_error(bs, batch_id, t, q)
    }
}

/// Every batch holds its initial quantity plus the signed sum of its loads,
/// sales, returns and write-offs (deliveries and adjustments move the initial
/// quantity with it), and holds between zero and its initial quantity, now and
/// after every prefix of the ledger.
pub proof fn lemma_batch_conservation(inv: &Inventory, b: int, k: int)
    requires
        inv.wf(),
        0 <= b < inv.batches@.len(),
        0 <= k <= inv.movements@.len(),
    ensures
        inv.batches@[b].remaining_quantity == inv.batches@[b].initial_quantity + flow_sum(
            movements_of(inv.movements@, b as u64),
        ),
        inv.batches@[b].remaining_quantity == delta_sum(movements_of(inv.movements@, b as u64)),
        0 <= inv.batches@[b].remaining_quantity <= inv.batches@[b].initial_quantity,
        0 <= balance_at(inv.movements@, b as u64, k) <= capacity_at(inv.movements@, b as u64, k),
{
    assert(inv.batches@[b].id == b);
    assert(batch_consistent(inv.batches@[b], inv.movements@));
    lemma_flow_sum(movements_of(inv.movements@, b as u64));
    assert(history_ok(inv.movements@, b as u64, k));
}

/// The batches after posting `ps` in order, each entry a batch and a quantity
/// of kind `t`, or the error of the first entry that is refused.
pub open spec fn apply_postings(bs: Seq<Batch>, ps: Seq<(u64, i64)>, t: StockMovementType) -> Result<
    Seq<Batch>,
    AppError,
>
    decreases ps.len(),
{
    if ps.len() == 0 {
        Ok(bs)
    } else {
        match apply_postings(bs, ps.drop_last(), t) {
            Err(e) => Err(e),
            Ok(mid) => {
                let b = ps.last().0;
                let q = ps.last().1;
                match post_error(mid, b, t, q as int) {
                    Some(e) => Err(e),
                    None => Ok(mid.update(b as int, posted(mid[b as int], t, q as int))),
                }
            },
        }
    }
}

/// The ledger entries that posting `ps` appends.
pub open spec fn posting_records(
    bs: Seq<Batch>,
    ps: Seq<(u64, i64)>,
    first_id: int,
    t: StockMovementType,
    ctx: MovementContext,
) -> Seq<StockMovement> {
    Seq::new(
        ps.len(),
        |k: int| movement_record(first_id + k, bs[ps[k].0 as int], t, ps[k].1, ctx),
    )
}

/// No two postings name the same batch.
pub open spec fn distinct_batches(ps: Seq<(u64, i64)>) -> bool {
    forall|i: int, j: int| 0 <= i < j < ps.len() ==> (#[trigger] ps[i]).0 != (#[trigger] ps[j]).0
}

/// Postings to distinct batches each move their own batch, and only it.
pub proof fn lemma_apply_distinct(bs: Seq<Batch>, ps: Seq<(u64, i64)>, t: StockMovementType)
    requires
        distinct_batches(ps),
        apply_postings(bs, ps, t) is Ok,
    ensures
        apply_postings(bs, ps, t)->Ok_0.len() == bs.len(),
        forall|k: int|
            0 <= k < ps.len() ==> (#[trigger] ps[k]).0 < bs.len() && apply_postings(bs, ps, t)->Ok_0[ps[k].0 as int]
                == posted(bs[ps[k].0 as int], t, ps[k].1 as int),
        forall|i: int|
            0 <= i < bs.len() && (forall|k: int| 0 <= k < ps.len() ==> (#[trigger] ps[k]).0 != i)
                ==> apply_postings(bs, ps, t)->Ok_0[i] == bs[i],
    decreases ps.len(),
{
    if ps.len() > 0 {
        let d = ps.drop_last();
        assert forall|i: int, j: int| 0 <= i < j < d.len() implies (#[trigger] d[i]).0 != (#[trigger] d[j]).0 by {
            assert(d[i] == ps[i] && d[j] == ps[j]);
        }
        lemma_apply_distinct(bs, d, t);
        let b = ps.last().0;
        assert forall|k: int| 0 <= k < d.len() implies (#[trigger] d[k]).0 != b by {
            assert(d[k] == ps[k]);
            assert(ps[k].0 != ps[ps.len() - 1].0);
        }
        assert forall|k: int| 0 <= k < ps.len() implies (#[trigger] ps[k]).0 < bs.len() && apply_postings(bs, ps, t)->Ok_0[ps[k].0 as int]
            == posted(bs[ps[k].0 as int], t, ps[k].1 as int) by {
            if k < d.len() {
                assert(ps[k] == d[k]);
            }
        }
        assert forall|i: int|
            0 <= i < bs.len() && (forall|k: int| 0 <= k < ps.len() ==> (#[trigger] ps[k]).0 != i)
                implies apply_postings(bs, ps, t)->Ok_0[i] == bs[i] by {
            assert forall|k: int| 0 <= k < d.len() implies (#[trigger] d[k]).0 != i by {
                assert(d[k] == ps[k]);
            }
            assert(ps[ps.len() - 1].0 != i);
        }
    }
}

/// The ledger refuses a posting as NotFound, Validation or InsufficientStock,
/// never as a conflict.
pub proof fn lemma_postings_error_kind(bs: Seq<Batch>, ps: Seq<(u64, i64)>, t: StockMovementType)
    ensures
        apply_postings(bs, ps, t) != Err::<Seq<Batch>, AppError>(AppError::Conflict),
    decreases ps.len(),
{
    if ps.len() > 0 {
        lemma_postings_error_kind(bs, ps.drop_last(), t);
    }
}

proof fn lemma_postings_error_stays(
    bs: Seq<Batch>,
    ps: Seq<(u64, i64)>,
    t: StockMovementType,
    n: int,
    m: int,
    e: AppError,
)
    requires
        0 <= n <= m <= ps.len(),
        apply_postings(bs, ps.take(n), t) == Err::<Seq<Batch>, AppError>(e),
    ensures
        apply_postings(bs, ps.take(m), t) == Err::<Seq<Batch>, AppError>(e),
    decreases m - n,
{
    if m > n {
        lemma_postings_error_stays(bs, ps, t, n, m - 1, e);
        assert(ps.take(m).drop_last() =~= ps.take(m - 1));
    }
}

impl Inventory {
    pub open spec fn wf(&self) -> bool {
        let bs = self.batches@;
        let ms = self.movements@;
        &&& forall|i: int| 0 <= i < bs.len() ==> (#[trigger] bs[i]).id == i
        &&& forall|i: int| 0 <= i < bs.len() ==> batch_consistent(#[trigger] bs[i], ms)
        &&& forall|i: int, j: int|
            0 <= i < j < bs.len() ==> !(#[trigger] bs[i].product_id == #[trigger] bs[j].product_id
                && bs[i].batch_number@ == bs[j].batch_number@)
        &&& forall|k: int|
            0 <= k < ms.len() ==> {
                &&& (#[trigger] ms[k]).id == k
                &&& ms[k].batch_id < bs.len()
                &&& ms[k].product_id == bs[ms[k].batch_id as int].product_id
            }
        &&& forall|b: u64, k: int| 0 <= k <= ms.len() ==> #[trigger] history_ok(ms, b, k)
    }

    pub fn new() -> (r: Inventory)
        ensures
            r.wf(),
            r.batches@.len() == 0,
            r.movements@.len() == 0,
    {
        let r = Inventory { batches: Vec::new(), movements: Vec::new() };
        assert forall|b: u64, k: int| 0 <= k <= r.movements@.len() implies #[trigger] history_ok(
            r.movements@,
            b,
            k,
        ) by {
            assert(r.movements@.take(k) =~= Seq::<StockMovement>::empty());
        }
        r
    }

    /// Appending one movement keeps the history of every batch within bounds
    /// when the batch it names stays within bounds.
    proof fn lemma_history_push(ms: Seq<StockMovement>, m: StockMovement)
        requires
            forall|b: u64, k: int| 0 <= k <= ms.len() ==> #[trigger] history_ok(ms, b, k),
            0 <= delta_sum(movements_of(ms, m.batch_id)) + delta(m) <= capacity_sum(
                movements_of(ms, m.batch_id),
            ) + capacity_delta(m) <= i64::MAX,
        ensures
            forall|b: u64, k: int| 0 <= k <= ms.len() + 1 ==> #[trigger] history_ok(ms.push(m), b, k),
    {
        let ns = ms.push(m);
        assert forall|b: u64, k: int| 0 <= k <= ms.len() + 1 implies #[trigger] history_ok(
            ns,
            b,
            k,
        ) by {
            if k <= ms.len() {
                assert(ns.take(k) =~= ms.take(k));
                assert(history_ok(ms, b, k));
            } else {
                assert(ns.take(k) =~= ns);
                assert(ms.take(ms.len() as int) =~= ms);
                assert(history_ok(ms, b, ms.len() as int));
                lemma_movements_of_push(ms, m, b);
                lemma_sums_push(movements_of(ms, b), m);
            }
        }
    }

    /// Appends one movement to the ledger and applies it to its batch, or
    /// refuses it and changes nothing. Outbound movements may not take a batch
    /// below zero; inbound ones may not take it above its initial quantity.
    pub fn post_movement(
        &mut self,
        batch_id: u64,
        t: StockMovementType,
        quantity: i64,
        ctx: MovementContext,
    ) -> (r: Result<u64, AppError>)
        requires
            old(self).wf(),
        ensures
            final(self).wf(),
            match r {
                Ok(id) => {
                    &&& post_error(old(self).batches@, batch_id, t, quantity as int) is None
                    &&& id == old(self).movements@.len()
                    &&& final(self).movements@ == old(self).movements@.push(
                        movement_record(
                            id as int,
                            old(self).batches@[batch_id as int],
                            t,
                            quantity,
                            ctx,
                        ),
                    )
                    &&& final(self).batches@ == old(self).batches@.update(
                        batch_id as int,
                        posted(old(self).batches@[batch_id as int], t, quantity as int),
                    )
                },
                Err(e) => {
                    &&& post_error(old(self).batches@, batch_id, t, quantity as int) == Some(e)
                    &&& *final(self) == *old(self)
                },
            },
    {
        if batch_id >= self.batches.len() as u64 {
            return Err(AppError::NotFound);
        }
        let is_adjustment = match t {
            StockMovementType::Adjustment => true,
            _ => false,
        };
        if (is_adjustment && quantity == 0) || (!is_adjustment && quantity <= 0) {
            return Err(AppError::Validation);
        }
        let i = batch_id as usize;
        let remaining = self.batches[i].remaining_quantity as i128;
        let initial = self.batches[i].initial_quantity as i128;
        let signed: i128 = if t.is_inbound() {
            quantity as i128
        } else {
            -(quantity as i128)
        };
        let capacity: i128 = match t {
            StockMovementType::DeliveryIn | StockMovementType::Adjustment => quantity as i128,
            _ => 0,
        };
        let new_remaining = remaining + signed;
        let new_initial = initial + capacity;
        if new_remaining < 0 {
            return Err(AppError::InsufficientStock);
        }
        if new_initial > i64::MAX as i128 || new_remaining > new_initial {
            return Err(AppError::Validation);
        }
        let id = self.movements.len() as u64;
        let m = StockMovement {
            id,
            batch_id,
            product_id: self.batches[i].product_id,
            movement_type: t,
            quantity,
            reference_type: ctx.reference_type,
            reference_id: ctx.reference_id,
            created_by: ctx.created_by,
            movement_date: ctx.movement_date,
        };
        let nb = Batch {
            id: self.batches[i].id,
            product_id: self.batches[i].product_id,
            batch_number: self.batches[i].batch_number.clone(),
            initial_quantity: new_initial as i64,
            remaining_quantity: new_remaining as i64,
            expiry_day: self.batches[i].expiry_day,
            delivery_id: self.batches[i].delivery_id,
        };
        let ghost old_ms = self.movements@;
        let ghost old_bs = self.batches@;
        proof {
            assert(old_bs[i as int].id == batch_id);
            assert(batch_consistent(old_bs[i as int], old_ms));
            Self::lemma_history_push(old_ms, m);
        }
        self.movements.push(m);
        self.batches.set(i, nb);
        proof {
            let ms = self.movements@;
            let bs = self.batches@;
            assert(ms == old_ms.push(m));
            assert forall|j: int| 0 <= j < bs.len() implies batch_consistent(
                #[trigger] bs[j],
                ms,
            ) by {
                assert(old_bs[j].id == j);
                assert(batch_consistent(old_bs[j], old_ms));
                lemma_movements_of_push(old_ms, m, bs[j].id);
                lemma_sums_push(movements_of(old_ms, bs[j].id), m);
            }
            assert forall|k: int| 0 <= k < ms.len() implies {
                &&& (#[trigger] ms[k]).id == k
                &&& ms[k].batch_id < bs.len()
                &&& ms[k].product_id == bs[ms[k].batch_id as int].product_id
            } by {
                if k < old_ms.len() {
                    assert(ms[k] == old_ms[k]);
                }
            }
            assert forall|a: int, b: int|
                0 <= a < b < bs.len() implies !(#[trigger] bs[a].product_id
                == #[trigger] bs[b].product_id && bs[a].batch_number@ == bs[b].batch_number@) by {
                assert(old_bs[a].product_id == bs[a].product_id);
                assert(old_bs[b].product_id == bs[b].product_id);
            }
        }
        Ok(id)
    }

    /// Receives `quantity` units of lot `batch_number` of a product: the units
    /// go to the batch of that lot if there is one, else to a new batch. A lot
    /// that exists with another expiry day is refused.
    pub fn receive_delivery(
        &mut self,
        product_id: u64,
        batch_number: String,
        expiry_day: i32,
        quantity: i64,
        ctx: MovementContext,
    ) -> (r: Result<u64, AppError>)
        requires
            old(self).wf(),
        ensures
            final(self).wf(),
            quantity <= 0 ==> r == Err::<u64, AppError>(AppError::Validation) && *final(self)
                == *old(self),
            quantity > 0 && has_lot(old(self).batches@, product_id, batch_number@) ==> {
                let i = lot_of(old(self).batches@, product_id, batch_number@);
                if old(self).batches@[i].expiry_day != expiry_day {
                    r == Err::<u64, AppError>(AppError::Validation) && *final(self) == *old(self)
                } else {
                    match r {
                        Ok(id) => {
                            &&& post_error(
                                old(self).batches@,
                                i as u64,
                                StockMovementType::DeliveryIn,
                                quantity as int,
                            ) is None
                            &&& id == i
                            &&& final(self).movements@ == old(self).movements@.push(
                                movement_record(
                                    old(self).movements@.len() as int,
                                    old(self).batches@[i],
                                    StockMovementType::DeliveryIn,
                                    quantity,
                                    ctx,
                                ),
                            )
                            &&& final(self).batches@ == old(self).batches@.update(
                                i,
                                posted(
                                    old(self).batches@[i],
                                    StockMovementType::DeliveryIn,
                                    quantity as int,
                                ),
                            )
                        },
                        Err(e) => {
                            &&& post_error(
                                old(self).batches@,
                                i as u64,
                                StockMovementType::DeliveryIn,
                                quantity as int,
                            ) == Some(e)
                            &&& *final(self) == *old(self)
                        },
                    }
                }
            },
            quantity > 0 && !has_lot(old(self).batches@, product_id, batch_number@) ==> {
                let n = old(self).batches@.len();
                let b = Batch {
                    id: n as u64,
                    product_id,
                    batch_number,
                    initial_quantity: quantity,
                    remaining_quantity: quantity,
                    expiry_day,
                    delivery_id: ctx.reference_id,
                };
                &&& r == Ok::<u64, AppError>(n as u64)
                &&& final(self).batches@ == old(self).batches@.push(b)
                &&& final(self).movements@ == old(self).movements@.push(
                    movement_record(
                        old(self).movements@.len() as int,
                        b,
                        StockMovementType::DeliveryIn,
                        quantity,
                        ctx,
                    ),
                )
            },
    {
        if quantity <= 0 {
            return Err(AppError::Validation);
        }
        let n = self.batches.len();
        let mut i: usize = 0;
        while i < n
            invariant
                self.wf(),
                *self == *old(self),
                n == self.batches@.len(),
                i <= n,
                forall|j: int| 0 <= j < i ==> !is_lot(self.batches@[j], product_id, batch_number@),
            decreases n - i,
        {
            if self.batches[i].product_id == product_id && self.batches[i].batch_number
                == batch_number {
                proof {
                    assert(is_lot(self.batches@[i as int], product_id, batch_number@));
                    lemma_lot_unique(self.batches@, product_id, batch_number@, i as int);
                }
                if self.batches[i].expiry_day != expiry_day {
                    return Err(AppError::Validation);
                }
                return match self.post_movement(
                    i as u64,
                    StockMovementType::DeliveryIn,
                    quantity,
                    ctx,
                ) {
                    Ok(_) => Ok(i as u64),
                    Err(e) => Err(e),
                };
            }
            i = i + 1;
        }
        let ghost old_self = *self;
        let b = Batch {
            id: n as u64,
            product_id,
            batch_number,
            initial_quantity: 0,
            remaining_quantity: 0,
            expiry_day,
            delivery_id: ctx.reference_id,
        };
        self.batches.push(b);
        proof {
            let bs = self.batches@;
            let ms = self.movements@;
            assert forall|k: int| 0 <= k < ms.len() implies (#[trigger] ms[k]).batch_id != n
                as u64 by {
                assert(ms[k].batch_id < old_self.batches@.len());
            }
            lemma_movements_of_absent(ms, n as u64);
            assert forall|j: int| 0 <= j < bs.len() implies batch_consistent(
                #[trigger] bs[j],
                ms,
            ) by {
                if j < n {
                    assert(bs[j] == old_self.batches@[j]);
                }
            }
            assert forall|j: int| 0 <= j < bs.len() implies (#[trigger] bs[j]).id == j by {
                if j < n {
                    assert(bs[j] == old_self.batches@[j]);
                }
            }
            assert forall|a: int, c: int|
                0 <= a < c < bs.len() implies !(#[trigger] bs[a].product_id
                == #[trigger] bs[c].product_id && bs[a].batch_number@ == bs[c].batch_number@) by {
                assert(bs[a] == old_self.batches@[a]);
                if c < n {
                    assert(bs[c] == old_self.batches@[c]);
                } else {
                    assert(!is_lot(old_self.batches@[a], product_id, batch_number@));
                }
            }
            assert forall|k: int| 0 <= k < ms.len() implies {
                &&& (#[trigger] ms[k]).id == k
                &&& ms[k].batch_id < bs.len()
                &&& ms[k].product_id == bs[ms[k].batch_id as int].product_id
            } by {
                assert(bs[ms[k].batch_id as int] == old_self.batches@[ms[k].batch_id as int]);
            }
            assert(!has_lot(old_self.batches@, product_id, batch_number@));
        }
        let posted_id = self.post_movement(n as u64, StockMovementType::DeliveryIn, quantity, ctx);
        proof {
            assert(self.batches@ =~= old_self.batches@.push(
                Batch {
                    id: n as u64,
                    product_id,
                    batch_number,
                    initial_quantity: quantity,
                    remaining_quantity: quantity,
                    expiry_day,
                    delivery_id: ctx.reference_id,
                },
            ));
        }
        match posted_id {
            Ok(_) => Ok(n as u64),
            Err(e) => Err(e),
        }
    }

    /// Receives every line of a delivery, each as `receive_delivery` does, all
    /// of them or, on an error, none: the outcome is `receive_outcome`. Returns
    /// the batch of each line.
    #[verifier::loop_isolation(false)]
    pub fn receive_lots(&mut self, lines: &Vec<DeliveryLine>, ctx: MovementContext) -> (r: Result<
        Vec<u64>,
        AppError,
    >)
        requires
            old(self).wf(),
        ensures
            final(self).wf(),
            lines@.len() == 0 ==> r == Err::<Vec<u64>, AppError>(AppError::Validation),
            lines@.len() > 0 ==> match receive_outcome(old(self).batches@, lines@, ctx) {
                Err(e) => r == Err::<Vec<u64>, AppError>(e),
                Ok(res) => r is Ok && r->Ok_0@ == res.1 && final(self).batches@ == res.0,
            },
            r is Err ==> r == Err::<Vec<u64>, AppError>(AppError::Validation),
            (exists|k: int| 0 <= k < lines@.len() && (#[trigger] lines@[k]).quantity <= 0) ==> r
                == Err::<Vec<u64>, AppError>(AppError::Validation),
            (exists|k: int|
                0 <= k < lines@.len() && #[trigger] lot_clash(old(self).batches@, lines@[k])) ==> r
                == Err::<Vec<u64>, AppError>(AppError::Validation),
            r is Err ==> final(self).batches@ == old(self).batches@ && final(self).movements@ == old(
                self,
            ).movements@,
            r is Ok ==> {
                let ids = r->Ok_0@;
                let n = old(self).movements@.len();
                &&& ids.len() == lines@.len()
                &&& final(self).movements@.len() == n + lines@.len()
                &&& final(self).movements@.take(n as int) == old(self).movements@
                &&& forall|k: int|
                    0 <= k < lines@.len() ==> {
                        &&& (#[trigger] final(self).movements@[n + k]).movement_type
                            == StockMovementType::DeliveryIn
                        &&& final(self).movements@[n + k].quantity == lines@[k].quantity
                        &&& final(self).movements@[n + k].batch_id == ids[k]
                        &&& final(self).movements@[n + k].product_id == lines@[k].product_id
                        &&& ids[k] < final(self).batches@.len()
                    }
            },
    {
        if lines.len() == 0 {
            return Err(AppError::Validation);
        }
        let saved = self.batches_snapshot();
        let mark = self.movements.len();
        let ghost old_bs = self.batches@;
        let mut ids: Vec<u64> = Vec::new();
        let mut k: usize = 0;
        proof {
            assert(lines@.take(0) =~= Seq::<DeliveryLine>::empty());
            assert(ids@ =~= Seq::<u64>::empty());
        }
        while k < lines.len()
            invariant
                self.wf(),
                old(self).wf(),
                k <= lines@.len(),
                saved@ == old(self).batches@,
                old_bs == old(self).batches@,
                mark == old(self).movements@.len(),
                ids@.len() == k,
                receive_outcome(old_bs, lines@.take(k as int), ctx) == Ok::<(Seq<Batch>, Seq<u64>), AppError>(
                    (self.batches@, ids@),
                ),
                self.batches@.len() >= old_bs.len(),
                forall|i: int|
                    0 <= i < old_bs.len() ==> (#[trigger] self.batches@[i]).product_id
                        == old_bs[i].product_id && self.batches@[i].batch_number@
                        == old_bs[i].batch_number@ && self.batches@[i].expiry_day == old_bs[i].expiry_day,
                forall|j: int| 0 <= j < k ==> (#[trigger] lines@[j]).quantity > 0 && !lot_clash(old_bs, lines@[j]),
                self.movements@.len() == mark + k,
                self.movements@.take(mark as int) == old(self).movements@,
                forall|j: int|
                    0 <= j < k ==> {
                        &&& (#[trigger] self.movements@[mark + j]).movement_type
                            == StockMovementType::DeliveryIn
                        &&& self.movements@[mark + j].quantity == lines@[j].quantity
                        &&& self.movements@[mark + j].batch_id == ids@[j]
                        &&& self.movements@[mark + j].product_id == lines@[j].product_id
                        &&& ids@[j] < self.batches@.len()
                    },
            decreases lines@.len() - k,
        {
            let line = &lines[k];
            let ghost before_ms = self.movements@;
            let ghost before_bs = self.batches@;
            proof {
                assert(lines@.take(k + 1).drop_last() =~= lines@.take(k as int));
                assert(lines@.take(k + 1).last() == *line);
                if lot_clash(old_bs, *line) {
                    let i = lot_of(old_bs, line.product_id, line.batch_number@);
                    assert(is_lot(before_bs[i], line.product_id, line.batch_number@));
                    lemma_lot_unique(before_bs, line.product_id, line.batch_number@, i);
                }
                if has_lot(before_bs, line.product_id, line.batch_number@) {
                    let i = lot_of(before_bs, line.product_id, line.batch_number@);
                    assert(before_bs[i].id == i);
                    assert(batch_consistent(before_bs[i], before_ms));
                }
            }
            let number = line.batch_number.clone();
            match self.receive_delivery(line.product_id, number, line.expiry_day, line.quantity, ctx) {
                Ok(id) => {
                    proof {
                        assert forall|j: int| 0 <= j < k implies {
                            &&& (#[trigger] self.movements@[mark + j]).movement_type
                                == StockMovementType::DeliveryIn
                            &&& self.movements@[mark + j].quantity == lines@[j].quantity
                            &&& self.movements@[mark + j].batch_id == ids@[j]
                            &&& self.movements@[mark + j].product_id == lines@[j].product_id
                            &&& ids@[j] < self.batches@.len()
                        } by {
                            assert(self.movements@[mark + j] == before_ms[mark + j]);
                        }
                        assert(self.movements@.take(mark as int) =~= before_ms.take(mark as int));
                        assert forall|i: int| 0 <= i < old_bs.len() implies (#[trigger] self.batches@[i]).product_id
                            == old_bs[i].product_id && self.batches@[i].batch_number@
                            == old_bs[i].batch_number@ && self.batches@[i].expiry_day == old_bs[i].expiry_day by {
                            assert(self.batches@[i].product_id == before_bs[i].product_id);
                        }
                    }
                    ids.push(id);
                    proof {
                        assert(ids@.last() == id);
                    }
                },
                Err(e) => {
                    proof {
                        assert(e == AppError::Validation);
                        lemma_receive_error_stays(old_bs, lines@, ctx, k + 1, lines@.len() as int, e);
                        assert(lines@.take(lines@.len() as int) =~= lines@);
                        assert(self.movements@.len() >= mark);
                    }
                    self.roll_back(saved, mark);
                    proof {
                        assert(self.movements@ == old(self).movements@);
                    }
                    return Err(e);
                },
            }
            k = k + 1;
        }
        proof {
            assert(lines@.take(k as int) =~= lines@);
        }
        Ok(ids)
    }

    /// The history of one batch with the balance after each of its movements,
    /// in ledger order.
    pub fn running_balance(&self, batch_id: u64) -> (r: Result<Vec<BalanceRow>, AppError>)
        requires
            self.wf(),
        ensures
            batch_id >= self.batches@.len() <==> r == Err::<Vec<BalanceRow>, AppError>(
                AppError::NotFound,
            ),
            batch_id < self.batches@.len() <==> r is Ok,
            r is Ok ==> {
                let rows = r->Ok_0@;
                let hist = movements_of(self.movements@, batch_id);
                &&& rows.len() == hist.len()
                &&& forall|j: int|
                    0 <= j < rows.len() ==> (#[trigger] rows[j]).movement == hist[j]
                        && rows[j].balance == delta_sum(hist.take(j + 1))
            },
    {
        if batch_id >= self.batches.len() as u64 {
            return Err(AppError::NotFound);
        }
        let ghost ms = self.movements@;
        let mut rows: Vec<BalanceRow> = Vec::new();
        let mut acc: i64 = 0;
        let mut k: usize = 0;
        let n = self.movements.len();
        while k < n
            invariant
                self.wf(),
                ms == self.movements@,
                n == ms.len(),
                k <= n,
                acc == delta_sum(movements_of(ms.take(k as int), batch_id)),
                rows@.len() == movements_of(ms.take(k as int), batch_id).len(),
                forall|j: int|
                    0 <= j < rows@.len() ==> (#[trigger] rows@[j]).movement == movements_of(
                        ms.take(k as int),
                        batch_id,
                    )[j] && rows@[j].balance == delta_sum(
                        movements_of(ms.take(k as int), batch_id).take(j + 1),
                    ),
            decreases n - k,
        {
            let m = self.movements[k];
            let ghost before = movements_of(ms.take(k as int), batch_id);
            proof {
                assert(ms.take(k + 1) =~= ms.take(k as int).push(m));
                lemma_movements_of_push(ms.take(k as int), m, batch_id);
            }
            if m.batch_id == batch_id {
                proof {
                    lemma_sums_push(before, m);
                    assert(history_ok(ms, batch_id, k + 1));
                }
                let next: i128 = if m.movement_type.is_inbound() {
                    acc as i128 + m.quantity as i128
                } else {
                    acc as i128 - m.quantity as i128
                };
                acc = next as i64;
                rows.push(BalanceRow { movement: m, balance: acc });
                proof {
                    let after = before.push(m);
                    assert forall|j: int| 0 <= j < rows@.len() implies (#[trigger] rows@[j]).movement
                        == after[j] && rows@[j].balance == delta_sum(after.take(j + 1)) by {
                        if j < before.len() {
                            assert(after.take(j + 1) =~= before.take(j + 1));
                        } else {
                            assert(after.take(j + 1) =~= after);
                        }
                    }
                }
            }
            k = k + 1;
        }
        proof {
            assert(ms.take(n as int) =~= ms);
        }
        Ok(rows)
    }

    /// A manual correction: an `Adjustment` of signed non-zero quantity, which
    /// moves the initial and the remaining quantity together, or an
    /// `ExpiredOut` write-off of a positive quantity.
    pub fn adjust_stock(
        &mut self,
        batch_id: u64,
        product_id: u64,
        t: StockMovementType,
        quantity: i64,
        ctx: MovementContext,
    ) -> (r: Result<u64, AppError>)
        requires
            old(self).wf(),
        ensures
            final(self).wf(),
            match r {
                Ok(id) => {
                    &&& adjustment_error(
                        old(self).batches@,
                        batch_id,
                        product_id,
                        t,
                        quantity as int,
                    ) is None
                    &&& id == old(self).movements@.len()
                    &&& final(self).movements@ == old(self).movements@.push(
                        movement_record(
                            id as int,
                            old(self).batches@[batch_id as int],
                            t,
                            quantity,
                            ctx,
                        ),
                    )
                    &&& final(self).batches@ == old(self).batches@.update(
                        batch_id as int,
                        posted(old(self).batches@[batch_id as int], t, quantity as int),
                    )
                },
                Err(e) => {
                    &&& adjustment_error(
                        old(self).batches@,
                        batch_id,
                        product_id,
                        t,
                        quantity as int,
                    ) == Some(e)
                    &&& *final(self) == *old(self)
                },
            },
    {
        match t {
            StockMovementType::Adjustment => {
                if quantity == 0 {
                    return Err(AppError::Validation);
                }
            },
            StockMovementType::ExpiredOut => {
                if quantity <= 0 {
                    return Err(AppError::Validation);
                }
            },
            _ => {
                return Err(AppError::Validation);
            },
        }
        if batch_id >= self.batches.len() as u64 {
            return Err(AppError::NotFound);
        }
        if self.batches[batch_id as usize].product_id != product_id {
            return Err(AppError::Validation);
        }
        self.post_movement(batch_id, t, quantity, ctx)
    }

    /// A copy of the batches, to restore if a compound operation fails.
    pub fn batches_snapshot(&self) -> (r: Vec<Batch>)
        ensures
            r@ == self.batches@,
    {
        let mut r: Vec<Batch> = Vec::new();
        let mut i: usize = 0;
        while i < self.batches.len()
            invariant
                i <= self.batches@.len(),
                r@ == self.batches@.take(i as int),
            decreases self.batches@.len() - i,
        {
            r.push(self.batches[i].duplicate());
            proof {
                assert(self.batches@.take(i + 1) =~= self.batches@.take(i as int).push(
                    self.batches@[i as int],
                ));
            }
            i = i + 1;
        }
        proof {
            assert(self.batches@.take(i as int) =~= self.batches@);
        }
        r
    }

    /// Puts back the batches of a snapshot and drops the movements appended
    /// after position `mark`.
    pub fn roll_back(&mut self, saved: Vec<Batch>, mark: usize)
        requires
            mark <= old(self).movements@.len(),
        ensures
            final(self).batches@ == saved@,
            final(self).movements@ == old(self).movements@.take(mark as int),
    {
        self.batches = saved;
        self.movements.truncate(mark);
    }

    /// Posts one movement of kind `t` per entry of `postings` (a batch and a
    /// quantity), in order, all of them or, on an error, none: the outcome is
    /// `apply_postings`.
    pub fn post_all(
        &mut self,
        postings: &Vec<(u64, i64)>,
        t: StockMovementType,
        ctx: MovementContext,
    ) -> (r: Result<(), AppError>)
        requires
            old(self).wf(),
        ensures
            final(self).wf(),
            match apply_postings(old(self).batches@, postings@, t) {
                Err(e) => r == Err::<(), AppError>(e) && final(self).batches@ == old(self).batches@
                    && final(self).movements@ == old(self).movements@,
                Ok(after) => r is Ok && final(self).batches@ == after && final(self).movements@
                    == old(self).movements@ + posting_records(
                    old(self).batches@,
                    postings@,
                    old(self).movements@.len() as int,
                    t,
                    ctx,
                ),
            },
    {
        let saved = self.batches_snapshot();
        let mark = self.movements.len();
        let ghost old_bs = self.batches@;
        let ghost old_ms = self.movements@;
        let mut k: usize = 0;
        proof {
            assert(postings@.take(0) =~= Seq::<(u64, i64)>::empty());
            assert(posting_records(old_bs, postings@.take(0), mark as int, t, ctx) =~= Seq::<
                StockMovement,
            >::empty());
            assert(old_ms + Seq::<StockMovement>::empty() =~= old_ms);
        }
        while k < postings.len()
            invariant
                self.wf(),
                old(self).wf(),
                k <= postings@.len(),
                saved@ == old_bs,
                old_bs == old(self).batches@,
                old_ms == old(self).movements@,
                mark == old_ms.len(),
                apply_postings(old_bs, postings@.take(k as int), t) == Ok::<Seq<Batch>, AppError>(
                    self.batches@,
                ),
                self.batches@.len() == old_bs.len(),
                forall|i: int|
                    0 <= i < old_bs.len() ==> (#[trigger] self.batches@[i]).product_id
                        == old_bs[i].product_id,
                self.movements@ == old_ms + posting_records(
                    old_bs,
                    postings@.take(k as int),
                    mark as int,
                    t,
                    ctx,
                ),
            decreases postings@.len() - k,
        {
            let (batch_id, quantity) = postings[k];
            let ghost before_bs = self.batches@;
            let ghost before_ms = self.movements@;
            proof {
                assert(postings@.take(k + 1).drop_last() =~= postings@.take(k as int));
                assert(postings@.take(k + 1).last() == postings@[k as int]);
            }
            match self.post_movement(batch_id, t, quantity, ctx) {
                Ok(_) => {},
                Err(e) => {
                    proof {
                        lemma_postings_error_stays(
                            old_bs,
                            postings@,
                            t,
                            k + 1,
                            postings@.len() as int,
                            e,
                        );
                        assert(postings@.take(postings@.len() as int) =~= postings@);
                        assert(self.movements@.len() >= mark);
                    }
                    self.roll_back(saved, mark);
                    proof {
                        assert((old_ms + posting_records(
                            old_bs,
                            postings@.take(k as int),
                            mark as int,
                            t,
                            ctx,
                        )).take(mark as int) =~= old_ms);
                    }
                    return Err(e);
                },
            }
            proof {
                assert(before_bs[batch_id as int].id == batch_id);
                assert(old_bs[batch_id as int].id == batch_id);
                let recs = posting_records(old_bs, postings@.take(k + 1), mark as int, t, ctx);
                let prev = posting_records(old_bs, postings@.take(k as int), mark as int, t, ctx);
                assert(recs =~= prev.push(
                    movement_record(mark + k, before_bs[batch_id as int], t, quantity, ctx),
                ));
                assert(self.movements@ =~= old_ms + recs);
                assert forall|i: int| 0 <= i < old_bs.len() implies (
                #[trigger] self.batches@[i]).product_id == old_bs[i].product_id by {
                    assert(before_bs[i].product_id == old_bs[i].product_id);
                }
            }
            k = k + 1;
        }
        proof {
            assert(postings@.take(k as int) =~= postings@);
        }
        Ok(())
    }
}


/// How a batch is shown in listings. Expiry only labels a batch: it does not
/// keep it from being drawn.
#[derive(Debug, Clone, Copy, PartialEq, Eq, Structural)]
pub enum BatchStatus {
    Available,
    Empty,
    Expired,
}

pub open spec fn status_on(b: Batch, today: i32) -> BatchStatus {
    if b.remaining_quantity == 0 {
        BatchStatus::Empty
    } else if b.expiry_day < today {
        BatchStatus::Expired
    } else {
        BatchStatus::Available
    }
}

/// Filters of a batch listing.
#[derive(Debug, Clone, Copy, PartialEq, Eq, Structural)]
pub struct BatchQueryParams {
    pub product_id: Option<u64>,
    pub status: Option<BatchStatus>,
}

/// The batch passes the listing's filters: an `Expired` filter shows every
/// batch past its expiry, emptied or not.
pub open spec fn listed(b: Batch, q: BatchQueryParams, today: i32) -> bool {
    &&& (q.product_id is Some ==> b.product_id == q.product_id->Some_0)
    &&& match q.status {
        None => true,
        Some(BatchStatus::Available) => b.remaining_quantity > 0 && b.expiry_day >= today,
        Some(BatchStatus::Empty) => b.remaining_quantity == 0,
        Some(BatchStatus::Expired) => b.expiry_day < today,
    }
}

impl Batch {
    pub fn status(&self, today: i32) -> (r: BatchStatus)
        ensures
            r == status_on(*self, today),
    {
        if self.remaining_quantity == 0 {
            BatchStatus::Empty
        } else if self.expiry_day < today {
            BatchStatus::Expired
        } else {
            BatchStatus::Available
        }
    }
}

impl BatchQueryParams {
    pub fn matches(&self, b: &Batch, today: i32) -> (r: bool)
        ensures
            r == listed(*b, *self, today),
    {
        let product_ok = match self.product_id {
            Some(p) => b.product_id == p,
            None => true,
        };
        let status_ok = match self.status {
            None => true,
            Some(BatchStatus::Available) => b.remaining_quantity > 0 && b.expiry_day >= today,
            Some(BatchStatus::Empty) => b.remaining_quantity == 0,
            Some(BatchStatus::Expired) => b.expiry_day < today,
        };
        product_ok && status_ok
    }
}

impl Inventory {
    /// The ids of the batches that pass the filters, in creation order.
    pub fn select_batches(&self, q: &BatchQueryParams, today: i32) -> (r: Vec<u64>)
        requires
            self.wf(),
        ensures
            forall|k: int| 0 <= k < r@.len() ==> (#[trigger] r@[k]) < self.batches@.len() && listed(
                self.batches@[r@[k] as int],
                *q,
                today,
            ),
            forall|k1: int, k2: int| 0 <= k1 < k2 < r@.len() ==> (#[trigger] r@[k1]) < (#[trigger] r@[k2]),
            forall|i: int|
                0 <= i < self.batches@.len() && listed(#[trigger] self.batches@[i], *q, today)
                    ==> r@.contains(i as u64),
    {
        let mut r: Vec<u64> = Vec::new();
        let mut i: usize = 0;
        while i < self.batches.len()
            invariant
                i <= self.batches@.len(),
                forall|k: int| 0 <= k < r@.len() ==> (#[trigger] r@[k]) < i && listed(
                    self.batches@[r@[k] as int],
                    *q,
                    today,
                ),
                forall|k1: int, k2: int| 0 <= k1 < k2 < r@.len() ==> (#[trigger] r@[k1]) < (#[trigger] r@[k2]),
                forall|j: int| 0 <= j < i && listed(#[trigger] self.batches@[j], *q, today) ==> r@.contains(j as u64),
            decreases self.batches@.len() - i,
        {
            if q.matches(&self.batches[i], today) {
                let ghost before = r@;
                r.push(i as u64);
                proof {
                    assert forall|j: int| 0 <= j < i + 1 && listed(#[trigger] self.batches@[j], *q, today) implies r@.contains(j as u64) by {
                        if j < i {
                            let k = choose|k: int| 0 <= k < before.len() && before[k] == j as u64;
                            assert(r@[k] == before[k]);
                        } else {
                            assert(r@[r@.len() - 1] == i as u64);
                        }
                    }
                }
            }
            i = i + 1;
        }
        r
    }
}
} // verus!
