use vstd::prelude::*;
use crate::error::AppError;
use crate::fifo::{
    all_nonneg, fifo_take, is_fifo_plan, lemma_plan_takes, lemma_same_lots_fifo,
    lemma_stock_before_nonneg, lemma_taken_absent, plan_fifo, plan_records, plan_total, precedes,
    product_stock, same_lots, taken_in, Allocation,
};
use crate::ledger::{
    apply_postings, post_error, posted, posting_records, movement_record, Batch, Inventory,
    MovementContext,
};
use crate::movement::{ReferenceType, StockMovementType};

verus! {

#[derive(Debug, Clone, Copy, PartialEq, Eq, Structural)]
pub enum LoadStatus {
    Loaded,
    Reconciled,
}

/// The units of one batch placed on a truck for the day.
#[derive(Debug, Clone, Copy, PartialEq, Eq, Structural)]
pub struct TruckLoadItem {
    pub batch_id: u64,
    pub product_id: u64,
    pub expiry_day: i32,
    pub quantity_loaded: i64,
    pub quantity_sold: i64,
    pub quantity_returned: i64,
}

/// A truck's load for one day.
#[derive(Debug)]
pub struct TruckLoad {
    pub id: u64,
    pub truck_id: u64,
    pub load_date: i32,
    pub loaded_by: u64,
    pub status: LoadStatus,
    pub has_sales: bool,
    pub items: Vec<TruckLoadItem>,
}

/// One line of a load request: a batch chosen by hand, or a product to draw
/// first expiry first. Exactly one of the two is given.
#[derive(Debug, Clone, Copy, PartialEq, Eq, Structural)]
pub struct TruckLoadItemRequest {
    pub batch_id: Option<u64>,
    pub product_id: Option<u64>,
    pub quantity_loaded: i64,
}

/// Units of a batch that came back on the truck.
#[derive(Debug, Clone, Copy, PartialEq, Eq, Structural)]
pub struct TruckLoadReturnItem {
    pub batch_id: u64,
    pub quantity_returned: i64,
}

#[derive(Debug)]
pub struct ReconcileTruckLoadRequest {
    pub returns: Vec<TruckLoadReturnItem>,
}

/// Totals over a load's items.
#[derive(Debug, Clone, Copy, PartialEq, Eq, Structural)]
pub struct TruckLoadSummary {
    pub total_loaded: i128,
    pub total_sold: i128,
    pub total_returned: i128,
    pub total_lost_damaged: i128,
    pub product_lines: u64,
}

pub open spec fn item_ok(it: TruckLoadItem) -> bool {
    &&& 0 <= it.quantity_sold
    &&& 0 <= it.quantity_returned
    &&& it.quantity_sold + it.quantity_returned <= it.quantity_loaded
}

pub open spec fn total_loaded(s: Seq<TruckLoadItem>) -> int
    decreases s.len(),
{
    if s.len() == 0 {
        0
    } else {
        total_loaded(s.drop_last()) + s.last().quantity_loaded
    }
}

pub open spec fn total_sold(s: Seq<TruckLoadItem>) -> int
    decreases s.len(),
{
    if s.len() == 0 {
        0
    } else {
        total_sold(s.drop_last()) + s.last().quantity_sold
    }
}

pub open spec fn total_returned(s: Seq<TruckLoadItem>) -> int
    decreases s.len(),
{
    if s.len() == 0 {
        0
    } else {
        total_returned(s.drop_last()) + s.last().quantity_returned
    }
}

/// Whether the load holds an item of batch `b`.
pub open spec fn holds_batch(s: Seq<TruckLoadItem>, b: u64) -> bool {
    exists|i: int| 0 <= i < s.len() && (#[trigger] s[i]).batch_id == b
}

/// What is lost or damaged on an item: unknown, so zero, while the truck is out.
pub open spec fn lost_damaged(it: TruckLoadItem, status: LoadStatus) -> int {
    if status == LoadStatus::Reconciled {
        it.quantity_loaded - it.quantity_sold - it.quantity_returned
    } else {
        0
    }
}

pub proof fn lemma_totals_bounded(s: Seq<TruckLoadItem>)
    requires
        forall|i: int| 0 <= i < s.len() ==> item_ok(#[trigger] s[i]),
    ensures
        0 <= total_sold(s),
        0 <= total_returned(s),
        total_sold(s) + total_returned(s) <= total_loaded(s),
    decreases s.len(),
{
    if s.len() > 0 {
        assert(item_ok(s[s.len() - 1]));
        lemma_totals_bounded(s.drop_last());
    }
}

/// No item holds more than `i64::MAX` units, so a total of `n` items is at
/// most `n` times that, which an `i128` holds for any `Vec`.
pub proof fn lemma_total_loaded_at_most(s: Seq<TruckLoadItem>)
    ensures
        total_loaded(s) <= s.len() * (i64::MAX as int),
    decreases s.len(),
{
    if s.len() > 0 {
        lemma_total_loaded_at_most(s.drop_last());
    }
}

proof fn lemma_totals_push(s: Seq<TruckLoadItem>, it: TruckLoadItem)
    ensures
        total_loaded(s.push(it)) == total_loaded(s) + it.quantity_loaded,
        total_sold(s.push(it)) == total_sold(s) + it.quantity_sold,
        total_returned(s.push(it)) == total_returned(s) + it.quantity_returned,
{
    assert(s.push(it).drop_last() =~= s);
}

/// The items that a FIFO plan puts on the truck, in drawing order.
pub open spec fn load_items(bs: Seq<Batch>, p: u64, out: Seq<Allocation>) -> Seq<TruckLoadItem> {
    Seq::new(
        out.len(),
        |k: int|
            TruckLoadItem {
                batch_id: out[k].batch_id,
                product_id: p,
                expiry_day: bs[out[k].batch_id as int].expiry_day,
                quantity_loaded: out[k].quantity,
                quantity_sold: 0,
                quantity_returned: 0,
            },
    )
}

/// `now` is `before` with `extra` more units returned.
pub open spec fn returned_more(now: TruckLoadItem, before: TruckLoadItem, extra: int) -> bool {
    &&& now.quantity_returned == before.quantity_returned + extra
    &&& now == TruckLoadItem { quantity_returned: now.quantity_returned, ..before }
}

pub open spec fn with_sold(it: TruckLoadItem, extra: int) -> TruckLoadItem {
    TruckLoadItem { quantity_sold: (it.quantity_sold + extra) as i64, ..it }
}

/// Units that a list of returns brings back of batch `b`.
pub open spec fn returned_for(rs: Seq<TruckLoadReturnItem>, b: u64) -> int
    decreases rs.len(),
{
    if rs.len() == 0 {
        0
    } else {
        returned_for(rs.drop_last(), b) + if rs.last().batch_id == b {
            rs.last().quantity_returned as int
        } else {
            0
        }
    }
}

/// What deleting a load gives back: loaded less returned, per item that has
/// any.
pub open spec fn release_list(s: Seq<TruckLoadItem>) -> Seq<(u64, i64)>
    decreases s.len(),
{
    if s.len() == 0 {
        Seq::empty()
    } else {
        let it = s.last();
        let back = it.quantity_loaded - it.quantity_returned;
        if back > 0 {
            release_list(s.drop_last()).push((it.batch_id, back as i64))
        } else {
            release_list(s.drop_last())
        }
    }
}

/// What is still on the truck: loaded less sold less returned, per item that
/// has any.
pub open spec fn remaining_list(s: Seq<TruckLoadItem>) -> Seq<(u64, i64)>
    decreases s.len(),
{
    if s.len() == 0 {
        Seq::empty()
    } else {
        let it = s.last();
        let left = it.quantity_loaded - it.quantity_sold - it.quantity_returned;
        if left > 0 {
            remaining_list(s.drop_last()).push((it.batch_id, left as i64))
        } else {
            remaining_list(s.drop_last())
        }
    }
}

/// The position of the item of batch `b`, where the load holds one.
pub open spec fn item_pos(s: Seq<TruckLoadItem>, b: u64) -> int {
    choose|i: int| 0 <= i < s.len() && (#[trigger] s[i]).batch_id == b
}

/// Why the return at position `k` is refused, if it is, given the items and
/// the returns before it.
pub open spec fn return_error(s: Seq<TruckLoadItem>, rs: Seq<TruckLoadReturnItem>, k: int) -> Option<
    AppError,
> {
    let ret = rs[k];
    if !holds_batch(s, ret.batch_id) {
        Some(AppError::NotFound)
    } else if ret.quantity_returned < 0 {
        Some(AppError::Validation)
    } else {
        let it = s[item_pos(s, ret.batch_id)];
        if it.quantity_sold + it.quantity_returned + returned_for(rs.take(k + 1), ret.batch_id)
            > it.quantity_loaded {
            Some(AppError::Validation)
        } else {
            None
        }
    }
}

/// The error of the first refused return among the first `n`.
pub open spec fn first_return_error(s: Seq<TruckLoadItem>, rs: Seq<TruckLoadReturnItem>, n: int) -> Option<
    AppError,
>
    decreases n,
{
    if n <= 0 {
        None
    } else if first_return_error(s, rs, n - 1) is Some {
        first_return_error(s, rs, n - 1)
    } else {
        return_error(s, rs, n - 1)
    }
}

/// The truck returns that a list of returns posts: one per positive return.
pub open spec fn return_postings(rs: Seq<TruckLoadReturnItem>) -> Seq<(u64, i64)>
    decreases rs.len(),
{
    if rs.len() == 0 {
        Seq::empty()
    } else if rs.last().quantity_returned > 0 {
        return_postings(rs.drop_last()).push((rs.last().batch_id, rs.last().quantity_returned))
    } else {
        return_postings(rs.drop_last())
    }
}

proof fn lemma_return_postings_shape(rs: Seq<TruckLoadReturnItem>)
    requires
        forall|i: int, j: int| 0 <= i < j < rs.len() ==> (#[trigger] rs[i]).batch_id != (#[trigger] rs[j]).batch_id,
    ensures
        crate::ledger::distinct_batches(return_postings(rs)),
        forall|m: int|
            0 <= m < return_postings(rs).len() ==> exists|j: int|
                0 <= j < rs.len() && (#[trigger] rs[j]).batch_id == (#[trigger] return_postings(rs)[m]).0,
        forall|k: int|
            0 <= k < rs.len() && (#[trigger] rs[k]).quantity_returned > 0 ==> exists|m: int|
                0 <= m < return_postings(rs).len() && return_postings(rs)[m] == (
                    rs[k].batch_id,
                    rs[k].quantity_returned,
                ),
    decreases rs.len(),
{
    if rs.len() > 0 {
        let d = rs.drop_last();
        assert forall|i: int, j: int| 0 <= i < j < d.len() implies (#[trigger] d[i]).batch_id != (#[trigger] d[j]).batch_id by {
            assert(d[i] == rs[i] && d[j] == rs[j]);
        }
        lemma_return_postings_shape(d);
        let pd = return_postings(d);
        let pr = return_postings(rs);
        let last = rs.last();
        assert forall|m: int| 0 <= m < pd.len() implies (#[trigger] pd[m]).0 != last.batch_id by {
            let j = choose|j: int| 0 <= j < d.len() && (#[trigger] d[j]).batch_id == pd[m].0;
            assert(d[j] == rs[j]);
            assert(rs[j].batch_id != rs[rs.len() - 1].batch_id);
        }
        assert forall|m: int| 0 <= m < pr.len() implies exists|j: int|
            0 <= j < rs.len() && (#[trigger] rs[j]).batch_id == (#[trigger] pr[m]).0 by {
            if m < pd.len() {
                assert(pr[m] == pd[m]);
                let j = choose|j: int| 0 <= j < d.len() && (#[trigger] d[j]).batch_id == pd[m].0;
                assert(d[j] == rs[j]);
            } else {
                assert(rs[rs.len() - 1].batch_id == pr[m].0);
            }
        }
        assert forall|i: int, j: int| 0 <= i < j < pr.len() implies (#[trigger] pr[i]).0 != (#[trigger] pr[j]).0 by {
            if j < pd.len() {
                assert(pr[i] == pd[i] && pr[j] == pd[j]);
            } else {
                assert(pr[i] == pd[i]);
            }
        }
        assert forall|k: int| 0 <= k < rs.len() && (#[trigger] rs[k]).quantity_returned > 0 implies exists|m: int|
            0 <= m < pr.len() && pr[m] == (rs[k].batch_id, rs[k].quantity_returned) by {
            if k < d.len() {
                assert(d[k] == rs[k]);
                let m = choose|m: int| 0 <= m < pd.len() && pd[m] == (d[k].batch_id, d[k].quantity_returned);
                assert(pr[m] == pd[m]);
            } else {
                assert(pr[pr.len() - 1] == (rs[k].batch_id, rs[k].quantity_returned));
            }
        }
    }
}

/// Reconciling with one return line per batch puts each positive return back
/// into its batch: remaining rises by exactly the returned quantity.
pub proof fn lemma_reconcile_raises_batches(bs: Seq<Batch>, rs: Seq<TruckLoadReturnItem>)
    requires
        forall|i: int, j: int| 0 <= i < j < rs.len() ==> (#[trigger] rs[i]).batch_id != (#[trigger] rs[j]).batch_id,
        apply_postings(bs, return_postings(rs), StockMovementType::TruckReturnIn) is Ok,
    ensures
        forall|k: int|
            0 <= k < rs.len() && (#[trigger] rs[k]).quantity_returned > 0 ==> rs[k].batch_id < bs.len()
                && apply_postings(bs, return_postings(rs), StockMovementType::TruckReturnIn)->Ok_0[rs[k].batch_id as int]
                == posted(bs[rs[k].batch_id as int], StockMovementType::TruckReturnIn, rs[k].quantity_returned as int),
{
    lemma_return_postings_shape(rs);
    crate::ledger::lemma_apply_distinct(bs, return_postings(rs), StockMovementType::TruckReturnIn);
    assert forall|k: int|
        0 <= k < rs.len() && (#[trigger] rs[k]).quantity_returned > 0 implies rs[k].batch_id < bs.len()
            && apply_postings(bs, return_postings(rs), StockMovementType::TruckReturnIn)->Ok_0[rs[k].batch_id as int]
            == posted(bs[rs[k].batch_id as int], StockMovementType::TruckReturnIn, rs[k].quantity_returned as int) by {
        let m = choose|m: int| 0 <= m < return_postings(rs).len() && return_postings(rs)[m] == (rs[k].batch_id, rs[k].quantity_returned);
        assert(return_postings(rs)[m].0 == rs[k].batch_id);
    }
}

proof fn lemma_return_error_stays(s: Seq<TruckLoadItem>, rs: Seq<TruckLoadReturnItem>, n: int, m: int)
    requires
        0 <= n <= m,
        first_return_error(s, rs, n) is Some,
    ensures
        first_return_error(s, rs, m) == first_return_error(s, rs, n),
    decreases m - n,
{
    if m > n {
        lemma_return_error_stays(s, rs, n, m - 1);
    }
}

proof fn lemma_item_pos(s: Seq<TruckLoadItem>, b: u64, i: int)
    requires
        0 <= i < s.len(),
        s[i].batch_id == b,
        forall|x: int, y: int| 0 <= x < y < s.len() ==> (#[trigger] s[x]).batch_id != (#[trigger] s[y]).batch_id,
    ensures
        holds_batch(s, b),
        item_pos(s, b) == i,
{
    assert(s[i].batch_id == b);
    let p = item_pos(s, b);
    if p != i {
        if p < i {
            assert(s[p].batch_id != s[i].batch_id);
        } else {
            assert(s[i].batch_id != s[p].batch_id);
        }
    }
}

/// The truck's stock as lots: one per item, at the item's position, holding
/// what is still on board.
pub open spec fn truck_lots(s: Seq<TruckLoadItem>) -> Seq<Batch> {
    Seq::new(
        s.len(),
        |k: int|
            Batch {
                id: k as u64,
                product_id: s[k].product_id,
                batch_number: vstd::pervasive::arbitrary(),
                initial_quantity: (s[k].quantity_loaded - s[k].quantity_sold - s[k].quantity_returned) as i64,
                remaining_quantity: (s[k].quantity_loaded - s[k].quantity_sold - s[k].quantity_returned) as i64,
                expiry_day: s[k].expiry_day,
                delivery_id: 0,
            },
    )
}

/// The items after selling `q` units of `p` first expiry first, or
/// InsufficientStock when the truck holds fewer.
pub open spec fn sell_outcome(s: Seq<TruckLoadItem>, p: u64, q: int) -> Result<Seq<TruckLoadItem>, AppError> {
    if product_stock(truck_lots(s), p, s.len() as int) < q {
        Err(AppError::InsufficientStock)
    } else {
        Ok(Seq::new(s.len(), |k: int| with_sold(s[k], fifo_take(truck_lots(s), p, q, k))))
    }
}

/// The context of a movement that a truck load posts: it refers to the load.
pub open spec fn load_ctx(load_id: u64, ctx: MovementContext) -> MovementContext {
    MovementContext { reference_type: ReferenceType::TruckLoad, reference_id: load_id, ..ctx }
}

pub fn load_context(load_id: u64, ctx: MovementContext) -> (r: MovementContext)
    ensures
        r == load_ctx(load_id, ctx),
{
    MovementContext { reference_type: ReferenceType::TruckLoad, reference_id: load_id, ..ctx }
}

impl TruckLoadItem {
    pub fn quantity_lost_damaged(&self, status: LoadStatus) -> (r: i64)
        requires
            item_ok(*self),
        ensures
            r == lost_damaged(*self, status),
    {
        match status {
            LoadStatus::Reconciled => self.quantity_loaded - self.quantity_sold
                - self.quantity_returned,
            LoadStatus::Loaded => 0,
        }
    }

    /// Units still on the truck: neither sold nor returned.
    pub fn available(&self) -> (r: i64)
        requires
            item_ok(*self),
        ensures
            r == self.quantity_loaded - self.quantity_sold - self.quantity_returned,
            r >= 0,
    {
        self.quantity_loaded - self.quantity_sold - self.quantity_returned
    }
}

impl TruckLoad {
    pub open spec fn wf(&self) -> bool {
        let s = self.items@;
        &&& forall|i: int| 0 <= i < s.len() ==> item_ok(#[trigger] s[i])
        &&& forall|i: int, j: int|
            0 <= i < j < s.len() ==> (#[trigger] s[i]).batch_id != (#[trigger] s[j]).batch_id
    }

    pub fn new(id: u64, truck_id: u64, load_date: i32, loaded_by: u64) -> (r: TruckLoad)
        ensures
            r.wf(),
            r.id == id,
            r.truck_id == truck_id,
            r.load_date == load_date,
            r.loaded_by == loaded_by,
            r.status == LoadStatus::Loaded,
            !r.has_sales,
            r.items@.len() == 0,
    {
        TruckLoad {
            id,
            truck_id,
            load_date,
            loaded_by,
            status: LoadStatus::Loaded,
            has_sales: false,
            items: Vec::new(),
        }
    }

    /// Totals of loaded, sold and returned units; losses count only once the
    /// load is reconciled.
    pub fn summary(&self) -> (r: TruckLoadSummary)
        requires
            self.wf(),
        ensures
            r.total_loaded == total_loaded(self.items@),
            r.total_sold == total_sold(self.items@),
            r.total_returned == total_returned(self.items@),
            r.total_lost_damaged == if self.status == LoadStatus::Reconciled {
                total_loaded(self.items@) - total_sold(self.items@) - total_returned(self.items@)
            } else {
                0
            },
            r.product_lines == self.items@.len(),
    {
        let mut loaded: i128 = 0;
        let mut sold: i128 = 0;
        let mut returned: i128 = 0;
        let mut i: usize = 0;
        while i < self.items.len()
            invariant
                self.wf(),
                i <= self.items@.len(),
                loaded == total_loaded(self.items@.take(i as int)),
                sold == total_sold(self.items@.take(i as int)),
                returned == total_returned(self.items@.take(i as int)),
            decreases self.items@.len() - i,
        {
            let it = self.items[i];
            proof {
                let s = self.items@;
                assert(s.take(i + 1) =~= s.take(i as int).push(it));
                lemma_totals_push(s.take(i as int), it);
                self.lemma_prefix_bounded(i + 1);
            }
            loaded = loaded + it.quantity_loaded as i128;
            sold = sold + it.quantity_sold as i128;
            returned = returned + it.quantity_returned as i128;
            i = i + 1;
        }
        proof {
            assert(self.items@.take(i as int) =~= self.items@);
            lemma_totals_bounded(self.items@);
        }
        let lost = match self.status {
            LoadStatus::Reconciled => loaded - sold - returned,
            LoadStatus::Loaded => 0,
        };
        TruckLoadSummary {
            total_loaded: loaded,
            total_sold: sold,
            total_returned: returned,
            total_lost_damaged: lost,
            product_lines: self.items.len() as u64,
        }
    }

    proof fn lemma_prefix_bounded(&self, k: int)
        requires
            self.wf(),
            0 <= k <= self.items@.len(),
        ensures
            0 <= total_sold(self.items@.take(k)),
            0 <= total_returned(self.items@.take(k)),
            total_sold(self.items@.take(k)) + total_returned(self.items@.take(k)) <= total_loaded(
                self.items@.take(k),
            ),
            total_loaded(self.items@.take(k)) <= k * (i64::MAX as int),
    {
        let s = self.items@;
        assert forall|i: int| 0 <= i < s.take(k).len() implies item_ok(#[trigger] s.take(k)[i]) by {
            assert(s.take(k)[i] == s[i]);
        }
        lemma_totals_bounded(s.take(k));
        lemma_total_loaded_at_most(s.take(k));
    }

    pub open spec fn same_as(&self, other: &TruckLoad) -> bool {
        &&& self.id == other.id
        &&& self.truck_id == other.truck_id
        &&& self.load_date == other.load_date
        &&& self.loaded_by == other.loaded_by
        &&& self.status == other.status
        &&& self.has_sales == other.has_sales
        &&& self.items@ == other.items@
    }

    fn holds(&self, batch_id: u64) -> (r: bool)
        ensures
            r == holds_batch(self.items@, batch_id),
    {
        let mut i: usize = 0;
        while i < self.items.len()
            invariant
                i <= self.items@.len(),
                forall|j: int| 0 <= j < i ==> (#[trigger] self.items@[j]).batch_id != batch_id,
            decreases self.items@.len() - i,
        {
            if self.items[i].batch_id == batch_id {
                return true;
            }
            i = i + 1;
        }
        false
    }

    /// Loads `quantity` units of one chosen batch onto the truck.
    pub fn load_specific_batch(
        &mut self,
        inv: &mut Inventory,
        batch_id: u64,
        quantity: i64,
        ctx: MovementContext,
    ) -> (r: Result<(), AppError>)
        requires
            old(self).wf(),
            old(inv).wf(),
        ensures
            final(self).wf(),
            final(inv).wf(),
            old(self).status != LoadStatus::Loaded ==> r == Err::<(), AppError>(AppError::Conflict),
            old(self).status == LoadStatus::Loaded && holds_batch(old(self).items@, batch_id)
                ==> r == Err::<(), AppError>(AppError::Conflict),
            old(self).status == LoadStatus::Loaded && !holds_batch(old(self).items@, batch_id)
                ==> match post_error(
                old(inv).batches@,
                batch_id,
                StockMovementType::TruckLoadOut,
                quantity as int,
            ) {
                Some(e) => r == Err::<(), AppError>(e),
                None => r is Ok,
            },
            r is Err ==> final(self).same_as(old(self)) && *final(inv) == *old(inv),
            r is Ok ==> {
                let b = old(inv).batches@[batch_id as int];
                &&& final(inv).batches@ == old(inv).batches@.update(
                    batch_id as int,
                    posted(b, StockMovementType::TruckLoadOut, quantity as int),
                )
                &&& final(inv).movements@ == old(inv).movements@.push(
                    movement_record(
                        old(inv).movements@.len() as int,
                        b,
                        StockMovementType::TruckLoadOut,
                        quantity,
                        load_ctx(old(self).id, ctx),
                    ),
                )
                &&& final(self).items@ == old(self).items@.push(
                    TruckLoadItem {
                        batch_id,
                        product_id: b.product_id,
                        expiry_day: b.expiry_day,
                        quantity_loaded: quantity,
                        quantity_sold: 0,
                        quantity_returned: 0,
                    },
                )
                &&& total_loaded(final(self).items@) == total_loaded(old(self).items@) + quantity
                &&& final(self).id == old(self).id && final(self).status == old(self).status
                &&& final(self).truck_id == old(self).truck_id
                &&& final(self).load_date == old(self).load_date
                &&& final(self).loaded_by == old(self).loaded_by
                &&& final(self).has_sales == old(self).has_sales
            },
    {
        let ctx = load_context(self.id, ctx);
        match self.status {
            LoadStatus::Loaded => {},
            LoadStatus::Reconciled => {
                return Err(AppError::Conflict);
            },
        }
        if self.holds(batch_id) {
            return Err(AppError::Conflict);
        }
        match inv.post_movement(batch_id, StockMovementType::TruckLoadOut, quantity, ctx) {
            Ok(_) => {},
            Err(e) => {
                return Err(e);
            },
        }
        let n = inv.batches.len();
        proof {
            assert(batch_id < n);
        }
        let bi: usize = batch_id as usize;
        let b = &inv.batches[bi];
        let item = TruckLoadItem {
            batch_id,
            product_id: b.product_id,
            expiry_day: b.expiry_day,
            quantity_loaded: quantity,
            quantity_sold: 0,
            quantity_returned: 0,
        };
        let ghost old_items = self.items@;
        self.items.push(item);
        proof {
            lemma_totals_push(old_items, item);
            assert(inv.batches@[batch_id as int].product_id == old(inv).batches@[batch_id as int].product_id);
            assert(inv.batches@[batch_id as int].expiry_day == old(inv).batches@[batch_id as int].expiry_day);

            assert forall|i: int, j: int|
                0 <= i < j < self.items@.len() implies (#[trigger] self.items@[i]).batch_id != (
            #[trigger] self.items@[j]).batch_id by {
                if j == old_items.len() {
                    assert(self.items@[i] == old_items[i]);
                }
            }
        }
        Ok(())
    }

    /// Loads `quantity` units of a product, drawn first expiry first across its
    /// batches; one item per batch drawn from. Returns the allocations.
    #[verifier::loop_isolation(false)]
    pub fn load_product_fifo(
        &mut self,
        inv: &mut Inventory,
        product_id: u64,
        quantity: i64,
        ctx: MovementContext,
    ) -> (r: Result<Vec<Allocation>, AppError>)
        requires
            old(self).wf(),
            old(inv).wf(),
        ensures
            final(self).wf(),
            final(inv).wf(),
            old(self).status != LoadStatus::Loaded ==> r == Err::<Vec<Allocation>, AppError>(
                AppError::Conflict,
            ),
            old(self).status == LoadStatus::Loaded && quantity <= 0 ==> r == Err::<
                Vec<Allocation>,
                AppError,
            >(AppError::Validation),
            old(self).status == LoadStatus::Loaded && quantity > 0 && product_stock(
                old(inv).batches@,
                product_id,
                old(inv).batches@.len() as int,
            ) < quantity ==> r == Err::<Vec<Allocation>, AppError>(AppError::InsufficientStock),
            old(self).status == LoadStatus::Loaded && quantity > 0 && product_stock(
                old(inv).batches@,
                product_id,
                old(inv).batches@.len() as int,
            ) >= quantity ==> {
                let clash = exists|i: int|
                    0 <= i < old(inv).batches@.len() && fifo_take(
                        old(inv).batches@,
                        product_id,
                        quantity as int,
                        i,
                    ) > 0 && #[trigger] holds_batch(old(self).items@, i as u64);
                &&& clash ==> r == Err::<Vec<Allocation>, AppError>(AppError::Conflict)
                &&& !clash ==> r is Ok
            },
            r is Err ==> final(self).same_as(old(self)) && final(inv).batches@ == old(inv).batches@ && final(inv).movements@ == old(inv).movements@,
            r is Ok ==> {
                let out = r->Ok_0@;
                let bs = old(inv).batches@;
                &&& is_fifo_plan(bs, product_id, quantity as int, out)
                &&& final(inv).batches@.len() == bs.len()
                &&& forall|i: int|
                    0 <= i < bs.len() ==> #[trigger] final(inv).batches@[i] == posted(
                        bs[i],
                        StockMovementType::TruckLoadOut,
                        fifo_take(bs, product_id, quantity as int, i),
                    )
                &&& final(inv).movements@ == old(inv).movements@ + plan_records(
                    bs,
                    out,
                    old(inv).movements@.len() as int,
                    StockMovementType::TruckLoadOut,
                    load_ctx(old(self).id, ctx),
                )
                &&& product_stock(final(inv).batches@, product_id, bs.len() as int) == product_stock(
                    bs,
                    product_id,
                    bs.len() as int,
                ) - quantity
                &&& final(self).items@ == old(self).items@ + load_items(bs, product_id, out)
                &&& total_loaded(final(self).items@) == total_loaded(old(self).items@) + quantity
                &&& final(self).id == old(self).id && final(self).status == old(self).status
                &&& final(self).truck_id == old(self).truck_id
                &&& final(self).load_date == old(self).load_date
                &&& final(self).loaded_by == old(self).loaded_by
                &&& final(self).has_sales == old(self).has_sales
            },
    {
        let ctx = load_context(self.id, ctx);
        match self.status {
            LoadStatus::Loaded => {},
            LoadStatus::Reconciled => {
                return Err(AppError::Conflict);
            },
        }
        let saved = inv.batches_snapshot();
        let mark = inv.movements.len();
        let ghost old_inv_bs = inv.batches@;
        let ghost old_inv_ms = inv.movements@;
        let out = match inv.allocate_fifo(
            product_id,
            quantity,
            StockMovementType::TruckLoadOut,
            ctx,
        ) {
            Ok(out) => out,
            Err(e) => {
                return Err(e);
            },
        };
        let mut added: Vec<TruckLoadItem> = Vec::new();
        let mut k: usize = 0;
        while k < out.len()
            invariant
                k <= out@.len(),
                inv.wf(),
                saved@ == old_inv_bs,
                mark == old_inv_ms.len(),
                inv.batches@.len() == old_inv_bs.len(),
                product_stock(inv.batches@, product_id, old_inv_bs.len() as int) == product_stock(
                    old_inv_bs,
                    product_id,
                    old_inv_bs.len() as int,
                ) - quantity,
                forall|i: int|
                    0 <= i < old_inv_bs.len() ==> #[trigger] inv.batches@[i] == posted(
                        old_inv_bs[i],
                        StockMovementType::TruckLoadOut,
                        fifo_take(old_inv_bs, product_id, quantity as int, i),
                    ),
                inv.movements@ == old_inv_ms + plan_records(
                    old_inv_bs,
                    out@,
                    old_inv_ms.len() as int,
                    StockMovementType::TruckLoadOut,
                    ctx,
                ),
                is_fifo_plan(old_inv_bs, product_id, quantity as int, out@),
                added@ == load_items(old_inv_bs, product_id, out@.take(k as int)),
                forall|j: int|
                    0 <= j < k ==> !holds_batch(self.items@, (#[trigger] out@[j]).batch_id),
            decreases out@.len() - k,
        {
            let a = out[k];
            if self.holds(a.batch_id) {
                proof {
                    assert(fifo_take(old_inv_bs, product_id, quantity as int, a.batch_id as int)
                        > 0);
                    assert(holds_batch(self.items@, a.batch_id as int as u64));
                }
                proof {
                    assert(inv.movements@.len() >= mark);
                }
                inv.roll_back(saved, mark);
                proof {
                    assert((old_inv_ms + plan_records(
                        old_inv_bs,
                        out@,
                        old_inv_ms.len() as int,
                        StockMovementType::TruckLoadOut,
                        ctx,
                    )).take(mark as int) =~= old_inv_ms);
                }
                return Err(AppError::Conflict);
            }
            let n = saved.len();
            proof {
                assert(0 <= a.batch_id < n);
            }
            let bi: usize = a.batch_id as usize;
            let b = &saved[bi];
            added.push(
                TruckLoadItem {
                    batch_id: a.batch_id,
                    product_id,
                    expiry_day: b.expiry_day,
                    quantity_loaded: a.quantity,
                    quantity_sold: 0,
                    quantity_returned: 0,
                },
            );
            proof {
                let prev = load_items(old_inv_bs, product_id, out@.take(k as int));
                let next = load_items(old_inv_bs, product_id, out@.take(k + 1));
                assert(out@.take(k + 1)[k as int] == a);
                assert(added@.last().expiry_day == old_inv_bs[a.batch_id as int].expiry_day);
                assert forall|q: int| 0 <= q < next.len() implies next[q] == prev.push(
                    added@.last(),
                )[q] by {
                    if q < k {
                        assert(out@.take(k + 1)[q] == out@.take(k as int)[q]);
                    }
                }
                assert(next =~= prev.push(added@.last()));
            }
            k = k + 1;
        }
        proof {
            assert(out@.take(out@.len() as int) =~= out@);
            assert forall|i: int|
                0 <= i < old_inv_bs.len() && fifo_take(
                    old_inv_bs,
                    product_id,
                    quantity as int,
                    i,
                ) > 0 implies !#[trigger] holds_batch(self.items@, i as u64) by {
                let w = choose|w: int| 0 <= w < out@.len() && (#[trigger] out@[w]).batch_id == i;
                assert(!holds_batch(self.items@, out@[w].batch_id));
            }
        }
        let ghost old_items = self.items@;
        let mut j: usize = 0;
        while j < added.len()
            invariant
                j <= added@.len(),
                added@ == load_items(old_inv_bs, product_id, out@),
                is_fifo_plan(old_inv_bs, product_id, quantity as int, out@),
                self.items@ == old_items + added@.take(j as int),
                old_items == old(self).items@,
                self.id == old(self).id && self.status == old(self).status,
                self.truck_id == old(self).truck_id && self.load_date == old(self).load_date,
                self.loaded_by == old(self).loaded_by && self.has_sales == old(self).has_sales,
                forall|i: int| 0 <= i < old_items.len() ==> item_ok(#[trigger] old_items[i]),
                forall|a: int, c: int|
                    0 <= a < c < old_items.len() ==> (#[trigger] old_items[a]).batch_id != (
                    #[trigger] old_items[c]).batch_id,
                forall|q: int| 0 <= q < out@.len() ==> !holds_batch(old_items, (#[trigger] out@[q]).batch_id),
            decreases added@.len() - j,
        {
            self.items.push(added[j]);
            proof {
                assert(added@.take(j + 1) =~= added@.take(j as int).push(added@[j as int]));
            }
            j = j + 1;
        }
        proof {
            assert(added@.take(j as int) =~= added@);
            lemma_total_loaded_concat(old_items, added@);
            lemma_load_items_total(old_inv_bs, product_id, out@);
            let s = self.items@;
            assert forall|i: int| 0 <= i < s.len() implies item_ok(#[trigger] s[i]) by {
                if i >= old_items.len() {
                    assert(s[i] == added@[i - old_items.len()]);
                    assert(out@[i - old_items.len()].quantity > 0);
                }
            }
            assert forall|a: int, c: int|
                0 <= a < c < s.len() implies (#[trigger] s[a]).batch_id != (#[trigger] s[c]).batch_id by {
                if c >= old_items.len() {
                    let kc = c - old_items.len();
                    assert(s[c].batch_id == out@[kc].batch_id);
                    if a >= old_items.len() {
                        let ka = a - old_items.len();
                        assert(s[a].batch_id == out@[ka].batch_id);
                        assert(crate::fifo::precedes(old_inv_bs, out@[ka].batch_id as int, out@[kc].batch_id as int));
                    } else {
                        assert(!holds_batch(old_items, out@[kc].batch_id));
                        assert(s[a] == old_items[a]);
                    }
                } else {
                    assert(s[a] == old_items[a]);
                    assert(s[c] == old_items[c]);
                }
            }
        }
        Ok(out)
    }

    pub fn items_snapshot(&self) -> (r: Vec<TruckLoadItem>)
        ensures
            r@ == self.items@,
    {
        let mut r: Vec<TruckLoadItem> = Vec::new();
        let mut i: usize = 0;
        while i < self.items.len()
            invariant
                i <= self.items@.len(),
                r@ == self.items@.take(i as int),
            decreases self.items@.len() - i,
        {
            r.push(self.items[i]);
            proof {
                assert(self.items@.take(i + 1) =~= self.items@.take(i as int).push(
                    self.items@[i as int],
                ));
            }
            i = i + 1;
        }
        proof {
            assert(self.items@.take(i as int) =~= self.items@);
        }
        r
    }

    /// The truck's stock as lots, one per item, holding what is still on
    /// board: what a sale draws from.
    pub fn lots_on_board(&self) -> (r: Vec<Batch>)
        requires
            self.wf(),
        ensures
            same_lots(r@, truck_lots(self.items@)),
            all_nonneg(r@),
    {
        let mut r: Vec<Batch> = Vec::new();
        let mut i: usize = 0;
        while i < self.items.len()
            invariant
                self.wf(),
                i <= self.items@.len(),
                r@.len() == i,
                forall|k: int|
                    0 <= k < i ==> (#[trigger] r@[k]).product_id == truck_lots(self.items@)[k].product_id
                        && r@[k].expiry_day == truck_lots(self.items@)[k].expiry_day
                        && r@[k].remaining_quantity == truck_lots(self.items@)[k].remaining_quantity
                        && r@[k].remaining_quantity >= 0,
            decreases self.items@.len() - i,
        {
            let it = self.items[i];
            proof {
                assert(item_ok(self.items@[i as int]));
            }
            let left = it.available();
            r.push(
                Batch {
                    id: i as u64,
                    product_id: it.product_id,
                    batch_number: String::new(),
                    initial_quantity: left,
                    remaining_quantity: left,
                    expiry_day: it.expiry_day,
                    delivery_id: 0,
                },
            );
            i = i + 1;
        }
        r
    }

    /// Sells `quantity` units of a product from the truck, drawn first expiry
    /// first across the items that still hold some; all of it or, when the
    /// truck holds too little, nothing. Returns the plan over item positions.
    pub fn sell(&mut self, product_id: u64, quantity: i64) -> (r: Result<Vec<Allocation>, AppError>)
        requires
            old(self).wf(),
        ensures
            final(self).wf(),
            old(self).status != LoadStatus::Loaded ==> r == Err::<Vec<Allocation>, AppError>(AppError::Conflict),
            old(self).status == LoadStatus::Loaded && quantity <= 0 ==> r == Err::<Vec<Allocation>, AppError>(
                AppError::Validation,
            ),
            old(self).status == LoadStatus::Loaded && quantity > 0 ==> match sell_outcome(
                old(self).items@,
                product_id,
                quantity as int,
            ) {
                Err(e) => r == Err::<Vec<Allocation>, AppError>(e),
                Ok(after) => r is Ok && final(self).items@ == after && is_fifo_plan(
                    truck_lots(old(self).items@),
                    product_id,
                    quantity as int,
                    r->Ok_0@,
                ) && plan_total(r->Ok_0@) == quantity,
            },
            r is Err ==> final(self).same_as(old(self)),
            r is Ok ==> final(self).has_sales && final(self).id == old(self).id && final(self).status
                == old(self).status && final(self).truck_id == old(self).truck_id
                && final(self).load_date == old(self).load_date && final(self).loaded_by
                == old(self).loaded_by,
    {
        match self.status {
            LoadStatus::Loaded => {},
            LoadStatus::Reconciled => {
                return Err(AppError::Conflict);
            },
        }
        if quantity <= 0 {
            return Err(AppError::Validation);
        }
        let lots = self.lots_on_board();
        let ghost spec_lots = truck_lots(self.items@);
        proof {
            lemma_same_lots_fifo(lots@, spec_lots, product_id, quantity as int);
        }
        let out = match plan_fifo(&lots, product_id, quantity) {
            Ok(out) => out,
            Err(e) => {
                return Err(e);
            },
        };
        let ghost old_items = self.items@;
        proof {
            assert forall|k1: int, k2: int|
                0 <= k1 < k2 < out@.len() implies precedes(spec_lots, (#[trigger] out@[k1]).batch_id as int, (#[trigger] out@[k2]).batch_id as int) by {
                assert(precedes(lots@, out@[k1].batch_id as int, out@[k2].batch_id as int));
            }
            assert forall|i: int| 0 <= i < spec_lots.len() && fifo_take(spec_lots, product_id, quantity as int, i) > 0 implies exists|k: int|
                0 <= k < out@.len() && (#[trigger] out@[k]).batch_id == i by {
                assert(fifo_take(lots@, product_id, quantity as int, i) > 0);
            }
            assert(is_fifo_plan(spec_lots, product_id, quantity as int, out@));
        }
        let mut k: usize = 0;
        while k < out.len()
            invariant
                self.wf(),
                old(self).wf(),
                self.id == old(self).id && self.status == old(self).status && self.has_sales == old(self).has_sales,
                self.truck_id == old(self).truck_id && self.load_date == old(self).load_date,
                self.loaded_by == old(self).loaded_by,
                old_items == old(self).items@,
                spec_lots == truck_lots(old_items),
                all_nonneg(lots@),
                same_lots(lots@, spec_lots),
                is_fifo_plan(lots@, product_id, quantity as int, out@),
                k <= out@.len(),
                self.items@.len() == old_items.len(),
                forall|i: int|
                    0 <= i < old_items.len() ==> #[trigger] self.items@[i] == with_sold(
                        old_items[i],
                        taken_in(out@, k as int, i),
                    ),
            decreases out@.len() - k,
        {
            let a = out[k];
            let ghost idx = a.batch_id as int;
            let n = self.items.len();
            proof {
                assert forall|j: int| 0 <= j < k implies (#[trigger] out@[j]).batch_id != idx by {
                    assert(precedes(lots@, out@[j].batch_id as int, out@[k as int].batch_id as int));
                }
                lemma_taken_absent(out@, k as int, idx);
                lemma_stock_before_nonneg(lots@, product_id, idx, lots@.len() as int);
                assert(0 <= lots@[idx].remaining_quantity);
                assert(item_ok(old_items[idx]));
                assert(a.batch_id < n);
            }
            let i = a.batch_id as usize;
            let it = self.items[i];
            let ghost before = self.items@;
            self.items.set(i, TruckLoadItem { quantity_sold: it.quantity_sold + a.quantity, ..it });
            proof {
                assert forall|j: int| 0 <= j < old_items.len() implies #[trigger] self.items@[j] == with_sold(
                    old_items[j],
                    taken_in(out@, k + 1, j),
                ) by {
                    assert(before[j] == with_sold(old_items[j], taken_in(out@, k as int, j)));
                }
                assert forall|x: int, c: int|
                    0 <= x < c < self.items@.len() implies (#[trigger] self.items@[x]).batch_id != (
                #[trigger] self.items@[c]).batch_id by {
                    assert(before[x].batch_id != before[c].batch_id);
                }
                assert forall|j: int| 0 <= j < self.items@.len() implies item_ok(#[trigger] self.items@[j]) by {
                    assert(item_ok(before[j]));
                }
            }
            k = k + 1;
        }
        self.has_sales = true;
        proof {
            assert forall|i: int| 0 <= i < old_items.len() implies #[trigger] self.items@[i] == with_sold(
                old_items[i],
                fifo_take(spec_lots, product_id, quantity as int, i),
            ) by {
                lemma_plan_takes(lots@, product_id, quantity as int, out@, i);
            }
            assert(self.items@ =~= Seq::new(
                old_items.len(),
                |i: int| with_sold(old_items[i], fifo_take(spec_lots, product_id, quantity as int, i)),
            ));
        }
        Ok(out)
    }

    /// Closes the load at the end of the day: records what came back of each
    /// batch, puts it back into stock as truck returns, and marks the load
    /// reconciled. A return that names a batch not on the load is NotFound; a
    /// negative one, or more coming back than is still on the truck, is
    /// Validation; then, and when the ledger refuses a return, nothing changes.
    #[verifier::loop_isolation(false)]
    pub fn reconcile(
        &mut self,
        inv: &mut Inventory,
        req: &ReconcileTruckLoadRequest,
        ctx: MovementContext,
    ) -> (r: Result<(), AppError>)
        requires
            old(self).wf(),
            old(inv).wf(),
        ensures
            final(self).wf(),
            final(inv).wf(),
            old(self).status == LoadStatus::Reconciled <==> r == Err::<(), AppError>(
                AppError::Conflict,
            ),
            r is Err ==> final(self).same_as(old(self)) && final(inv).batches@ == old(inv).batches@
                && final(inv).movements@ == old(inv).movements@,
            old(self).status == LoadStatus::Loaded ==> match first_return_error(
                old(self).items@,
                req.returns@,
                req.returns@.len() as int,
            ) {
                Some(e) => r == Err::<(), AppError>(e),
                None => match apply_postings(
                    old(inv).batches@,
                    return_postings(req.returns@),
                    StockMovementType::TruckReturnIn,
                ) {
                    Err(e) => r == Err::<(), AppError>(e),
                    Ok(after) => r is Ok && final(inv).batches@ == after && final(inv).movements@
                        == old(inv).movements@ + posting_records(
                        old(inv).batches@,
                        return_postings(req.returns@),
                        old(inv).movements@.len() as int,
                        StockMovementType::TruckReturnIn,
                        load_ctx(old(self).id, ctx),
                    ),
                },
            },
            r is Ok ==> {
                &&& final(self).status == LoadStatus::Reconciled
                &&& final(self).items@.len() == old(self).items@.len()
                &&& forall|i: int|
                    0 <= i < old(self).items@.len() ==> returned_more(
                        #[trigger] final(self).items@[i],
                        old(self).items@[i],
                        returned_for(req.returns@, old(self).items@[i].batch_id),
                    )
                &&& final(self).id == old(self).id && final(self).has_sales == old(self).has_sales
                &&& final(self).truck_id == old(self).truck_id
                &&& final(self).load_date == old(self).load_date
                &&& final(self).loaded_by == old(self).loaded_by
            },
    {
        let ctx = load_context(self.id, ctx);
        match self.status {
            LoadStatus::Loaded => {},
            LoadStatus::Reconciled => {
                return Err(AppError::Conflict);
            },
        }
        let ghost old_items = self.items@;
        let mut work = self.items_snapshot();
        let mut postings: Vec<(u64, i64)> = Vec::new();
        let mut k: usize = 0;
        while k < req.returns.len()
            invariant
                self.wf(),
                old_items == self.items@,
                k <= req.returns@.len(),
                first_return_error(old_items, req.returns@, k as int) is None,
                postings@ == return_postings(req.returns@.take(k as int)),
                work@.len() == old_items.len(),
                forall|i: int| 0 <= i < work@.len() ==> item_ok(#[trigger] work@[i]),
                forall|i: int|
                    0 <= i < old_items.len() ==> returned_more(
                        #[trigger] work@[i],
                        old_items[i],
                        returned_for(req.returns@.take(k as int), old_items[i].batch_id),
                    ),
            decreases req.returns@.len() - k,
        {
            let ret = req.returns[k];
            let mut pos: usize = 0;
            let mut found = false;
            while pos < work.len() && !found
                invariant
                    work@.len() == old_items.len(),
                    pos <= work@.len(),
                    forall|i: int| 0 <= i < old_items.len() ==> (#[trigger] work@[i]).batch_id == old_items[i].batch_id,
                    found ==> pos < work@.len() && old_items[pos as int].batch_id == ret.batch_id,
                    forall|j: int| 0 <= j < pos ==> (#[trigger] old_items[j]).batch_id != ret.batch_id,
                decreases work@.len() - pos + if found {
                    0int
                } else {
                    1int
                },
            {
                if work[pos].batch_id == ret.batch_id {
                    found = true;
                } else {
                    pos = pos + 1;
                }
            }
            proof {
                assert(req.returns@.take(k + 1).drop_last() =~= req.returns@.take(k as int));
                assert(req.returns@.take(k + 1).last() == ret);
                if found {
                    lemma_item_pos(old_items, ret.batch_id, pos as int);
                } else {
                    assert(!holds_batch(old_items, ret.batch_id));
                }
            }
            if !found {
                proof {
                    lemma_return_error_stays(old_items, req.returns@, k + 1, req.returns@.len() as int);
                }
                return Err(AppError::NotFound);
            }
            if ret.quantity_returned < 0 {
                proof {
                    lemma_return_error_stays(old_items, req.returns@, k + 1, req.returns@.len() as int);
                }
                return Err(AppError::Validation);
            }
            let it = work[pos];
            proof {
                assert(item_ok(work@[pos as int]));
                assert(returned_more(work@[pos as int], old_items[pos as int], returned_for(req.returns@.take(k as int), ret.batch_id)));
            }
            if ret.quantity_returned > it.available() {
                proof {
                    lemma_return_error_stays(old_items, req.returns@, k + 1, req.returns@.len() as int);
                }
                return Err(AppError::Validation);
            }
            if ret.quantity_returned > 0 {
                postings.push((ret.batch_id, ret.quantity_returned));
            }
            let ghost before = work@;
            work.set(pos, TruckLoadItem { quantity_returned: it.quantity_returned + ret.quantity_returned, ..it });
            proof {
                assert forall|i: int| 0 <= i < old_items.len() implies returned_more(
                    #[trigger] work@[i],
                    old_items[i],
                    returned_for(req.returns@.take(k + 1), old_items[i].batch_id),
                ) by {
                    assert(returned_more(before[i], old_items[i], returned_for(req.returns@.take(k as int), old_items[i].batch_id)));
                    if i != pos {
                        assert(old_items[i].batch_id != old_items[pos as int].batch_id);
                    }
                }
                assert forall|i: int| 0 <= i < work@.len() implies item_ok(#[trigger] work@[i]) by {
                    assert(item_ok(before[i]));
                }
            }
            k = k + 1;
        }
        proof {
            assert(req.returns@.take(k as int) =~= req.returns@);
        }
        match inv.post_all(&postings, StockMovementType::TruckReturnIn, ctx) {
            Ok(()) => {},
            Err(e) => {
                proof {
                    crate::ledger::lemma_postings_error_kind(old(inv).batches@, postings@, StockMovementType::TruckReturnIn);
                }
                return Err(e);
            },
        }
        self.items = work;
        self.status = LoadStatus::Reconciled;
        proof {
            assert forall|a: int, c: int|
                0 <= a < c < self.items@.len() implies (#[trigger] self.items@[a]).batch_id != (
            #[trigger] self.items@[c]).batch_id by {
                assert(old_items[a].batch_id != old_items[c].batch_id);
            }
        }
        Ok(())
    }

    /// Undoes a load that nothing was sold from: every unit that did not come
    /// back, loaded less returned, goes back to its batch as a truck return,
    /// all of it or, when the ledger refuses one, none.
    pub fn release(&self, inv: &mut Inventory, ctx: MovementContext) -> (r: Result<(), AppError>)
        requires
            self.wf(),
            old(inv).wf(),
        ensures
            final(inv).wf(),
            self.has_sales ==> r == Err::<(), AppError>(AppError::Conflict) && final(inv).batches@
                == old(inv).batches@ && final(inv).movements@ == old(inv).movements@,
            !self.has_sales ==> match apply_postings(
                old(inv).batches@,
                release_list(self.items@),
                StockMovementType::TruckReturnIn,
            ) {
                Err(e) => r == Err::<(), AppError>(e) && final(inv).batches@ == old(inv).batches@
                    && final(inv).movements@ == old(inv).movements@,
                Ok(after) => r is Ok && final(inv).batches@ == after && final(inv).movements@ == old(
                    inv,
                ).movements@ + posting_records(
                    old(inv).batches@,
                    release_list(self.items@),
                    old(inv).movements@.len() as int,
                    StockMovementType::TruckReturnIn,
                    load_ctx(self.id, ctx),
                ),
            },
    {
        let ctx = load_context(self.id, ctx);
        if self.has_sales {
            return Err(AppError::Conflict);
        }
        let mut postings: Vec<(u64, i64)> = Vec::new();
        let mut i: usize = 0;
        while i < self.items.len()
            invariant
                self.wf(),
                i <= self.items@.len(),
                postings@ == release_list(self.items@.take(i as int)),
            decreases self.items@.len() - i,
        {
            let it = self.items[i];
            proof {
                assert(item_ok(self.items@[i as int]));
                assert(self.items@.take(i + 1).drop_last() =~= self.items@.take(i as int));
            }
            let back = it.quantity_loaded - it.quantity_returned;
            if back > 0 {
                postings.push((it.batch_id, back));
            }
            i = i + 1;
        }
        proof {
            assert(self.items@.take(i as int) =~= self.items@);
        }
        inv.post_all(&postings, StockMovementType::TruckReturnIn, ctx)
    }

    /// What is still on the truck, batch by batch, as `(batch, units)` pairs
    /// with a positive number of units, in item order.
    pub fn remaining_on_truck(&self) -> (r: Vec<(u64, i64)>)
        requires
            self.wf(),
        ensures
            r@ == remaining_list(self.items@),
            forall|k: int| 0 <= k < r@.len() ==> (#[trigger] r@[k]).1 > 0,
    {
        let mut r: Vec<(u64, i64)> = Vec::new();
        let mut i: usize = 0;
        while i < self.items.len()
            invariant
                self.wf(),
                i <= self.items@.len(),
                r@ == remaining_list(self.items@.take(i as int)),
                forall|k: int| 0 <= k < r@.len() ==> (#[trigger] r@[k]).1 > 0,
            decreases self.items@.len() - i,
        {
            let it = self.items[i];
            proof {
                assert(item_ok(self.items@[i as int]));
                assert(self.items@.take(i + 1).drop_last() =~= self.items@.take(i as int));
            }
            let left = it.available();
            if left > 0 {
                r.push((it.batch_id, left));
            }
            i = i + 1;
        }
        proof {
            assert(self.items@.take(i as int) =~= self.items@);
        }
        r
    }

    /// Records every unit still on the truck as returned.
    pub fn mark_all_returned(&mut self)
        requires
            old(self).wf(),
        ensures
            final(self).wf(),
            final(self).items@.len() == old(self).items@.len(),
            forall|i: int|
                0 <= i < old(self).items@.len() ==> returned_more(
                    #[trigger] final(self).items@[i],
                    old(self).items@[i],
                    old(self).items@[i].quantity_loaded - old(self).items@[i].quantity_sold
                        - old(self).items@[i].quantity_returned,
                ),
            final(self).id == old(self).id && final(self).status == old(self).status,
            final(self).truck_id == old(self).truck_id && final(self).load_date == old(self).load_date,
            final(self).loaded_by == old(self).loaded_by && final(self).has_sales == old(self).has_sales,
    {
        let mut i: usize = 0;
        while i < self.items.len()
            invariant
                self.wf(),
                old(self).wf(),
                i <= self.items@.len(),
                self.items@.len() == old(self).items@.len(),
                forall|j: int|
                    0 <= j < i ==> returned_more(
                        #[trigger] self.items@[j],
                        old(self).items@[j],
                        old(self).items@[j].quantity_loaded - old(self).items@[j].quantity_sold
                            - old(self).items@[j].quantity_returned,
                    ),
                forall|j: int| i <= j < self.items@.len() ==> #[trigger] self.items@[j] == old(self).items@[j],
                self.id == old(self).id && self.status == old(self).status,
                self.truck_id == old(self).truck_id && self.load_date == old(self).load_date,
                self.loaded_by == old(self).loaded_by && self.has_sales == old(self).has_sales,
            decreases self.items@.len() - i,
        {
            let it = self.items[i];
            proof {
                assert(item_ok(self.items@[i as int]));
            }
            let ghost before = self.items@;
            self.items.set(i, TruckLoadItem { quantity_returned: it.quantity_loaded - it.quantity_sold, ..it });
            proof {
                assert forall|a: int, c: int|
                    0 <= a < c < self.items@.len() implies (#[trigger] self.items@[a]).batch_id != (
                #[trigger] self.items@[c]).batch_id by {
                    assert(before[a].batch_id != before[c].batch_id);
                }
                assert forall|j: int| 0 <= j < self.items@.len() implies item_ok(
                    #[trigger] self.items@[j],
                ) by {
                    assert(item_ok(before[j]));
                }
            }
            i = i + 1;
        }
    }
}


pub open spec fn request_shape_ok(q: TruckLoadItemRequest) -> bool {
    q.batch_id is Some != q.product_id is Some
}

/// A load holds every item in balance: nothing is sold or returned beyond
/// what was loaded.
pub proof fn lemma_load_items_balanced(load: &TruckLoad, i: int)
    requires
        load.wf(),
        0 <= i < load.items@.len(),
    ensures
        load.items@[i].quantity_sold + load.items@[i].quantity_returned
            <= load.items@[i].quantity_loaded,
        0 <= lost_damaged(load.items@[i], load.status),
{
    assert(item_ok(load.items@[i]));
}

/// The batches of the items of a load.
pub open spec fn held_batches(s: Seq<TruckLoadItem>) -> Set<u64> {
    Set::new(|b: u64| holds_batch(s, b))
}

/// Batch positions that a FIFO draw of `n` units of `p` takes from.
pub open spec fn drawn_batches(bs: Seq<Batch>, p: u64, n: int) -> Set<u64> {
    Set::new(|b: u64| b < bs.len() && fifo_take(bs, p, n, b as int) > 0)
}

/// One request line applied to the batches and to the set of batches already
/// on the load: the new batches and set, or the line's error.
pub open spec fn load_step(bs: Seq<Batch>, held: Set<u64>, q: TruckLoadItemRequest) -> Result<
    (Seq<Batch>, Set<u64>),
    AppError,
> {
    if q.batch_id is Some {
        let b = q.batch_id->Some_0;
        if held.contains(b) {
            Err(AppError::Conflict)
        } else {
            match post_error(bs, b, StockMovementType::TruckLoadOut, q.quantity_loaded as int) {
                Some(e) => Err(e),
                None => Ok(
                    (
                        bs.update(
                            b as int,
                            posted(
                                bs[b as int],
                                StockMovementType::TruckLoadOut,
                                q.quantity_loaded as int,
                            ),
                        ),
                        held.insert(b),
                    ),
                ),
            }
        }
    } else {
        let p = q.product_id->Some_0;
        let n = q.quantity_loaded as int;
        if n <= 0 {
            Err(AppError::Validation)
        } else if product_stock(bs, p, bs.len() as int) < n {
            Err(AppError::InsufficientStock)
        } else if exists|i: int|
            0 <= i < bs.len() && fifo_take(bs, p, n, i) > 0 && #[trigger] held.contains(i as u64) {
            Err(AppError::Conflict)
        } else {
            Ok(
                (
                    Seq::new(
                        bs.len(),
                        |i: int| posted(bs[i], StockMovementType::TruckLoadOut, fifo_take(bs, p, n, i)),
                    ),
                    held.union(drawn_batches(bs, p, n)),
                ),
            )
        }
    }
}

/// The lines of a load request applied in order: the batches afterwards and
/// the batches on the load, or the error of the first line refused.
pub open spec fn load_outcome(bs: Seq<Batch>, reqs: Seq<TruckLoadItemRequest>) -> Result<
    (Seq<Batch>, Set<u64>),
    AppError,
>
    decreases reqs.len(),
{
    if reqs.len() == 0 {
        Ok((bs, Set::empty()))
    } else {
        match load_outcome(bs, reqs.drop_last()) {
            Err(e) => Err(e),
            Ok(state) => load_step(state.0, state.1, reqs.last()),
        }
    }
}

proof fn lemma_load_outcome_stays(bs: Seq<Batch>, reqs: Seq<TruckLoadItemRequest>, n: int, m: int, e: AppError)
    requires
        0 <= n <= m <= reqs.len(),
        load_outcome(bs, reqs.take(n)) == Err::<(Seq<Batch>, Set<u64>), AppError>(e),
    ensures
        load_outcome(bs, reqs.take(m)) == Err::<(Seq<Batch>, Set<u64>), AppError>(e),
    decreases m - n,
{
    if m > n {
        lemma_load_outcome_stays(bs, reqs, n, m - 1, e);
        assert(reqs.take(m).drop_last() =~= reqs.take(m - 1));
    }
}

/// Whether a load of truck `truck_id` on day `day` is among `loads`.
pub open spec fn has_load(loads: Seq<TruckLoad>, truck_id: u64, day: i32) -> bool {
    exists|j: int| 0 <= j < loads.len() && (#[trigger] loads[j]).truck_id == truck_id && loads[j].load_date == day
}

fn find_day_load(loads: &Vec<TruckLoad>, truck_id: u64, day: i32) -> (r: bool)
    ensures
        r == has_load(loads@, truck_id, day),
{
    let mut j: usize = 0;
    while j < loads.len()
        invariant
            j <= loads@.len(),
            forall|i: int| 0 <= i < j ==> !((#[trigger] loads@[i]).truck_id == truck_id && loads@[i].load_date == day),
        decreases loads@.len() - j,
    {
        if loads[j].truck_id == truck_id && loads[j].load_date == day {
            return true;
        }
        j = j + 1;
    }
    false
}

/// Creates the day's load of an active truck from its request lines, each a
/// chosen batch or a product drawn first expiry first. A second load of the
/// same truck and day is a conflict. All lines or, on an error, none: the
/// stock is then as it was.
#[verifier::loop_isolation(false)]
#[verifier::rlimit(100)]
pub fn create_truck_load(
    inv: &mut Inventory,
    loads: &Vec<TruckLoad>,
    id: u64,
    truck_id: u64,
    truck_active: bool,
    load_date: i32,
    loaded_by: u64,
    requests: &Vec<TruckLoadItemRequest>,
    ctx: MovementContext,
) -> (r: Result<TruckLoad, AppError>)
    requires
        old(inv).wf(),
    ensures
        final(inv).wf(),
        requests@.len() == 0 ==> r == Err::<TruckLoad, AppError>(AppError::Validation),
        !truck_active ==> r == Err::<TruckLoad, AppError>(AppError::Validation),
        requests@.len() > 0 && truck_active && has_load(loads@, truck_id, load_date) ==> r == Err::<
            TruckLoad,
            AppError,
        >(AppError::Conflict),
        requests@.len() > 0 && truck_active && !has_load(loads@, truck_id, load_date) && (exists|k: int|
            0 <= k < requests@.len() && !request_shape_ok(#[trigger] requests@[k])) ==> r == Err::<
            TruckLoad,
            AppError,
        >(AppError::Validation),
        requests@.len() > 0 && truck_active && !has_load(loads@, truck_id, load_date) && (forall|k: int|
            0 <= k < requests@.len() ==> request_shape_ok(#[trigger] requests@[k])) ==> match load_outcome(
            old(inv).batches@,
            requests@,
        ) {
            Err(e) => r == Err::<TruckLoad, AppError>(e),
            Ok(state) => r is Ok && final(inv).batches@ == state.0 && held_batches(r->Ok_0.items@)
                == state.1,
        },
        r is Err ==> final(inv).batches@ == old(inv).batches@ && final(inv).movements@ == old(inv).movements@,
        r is Ok ==> {
            let load = r->Ok_0;
            &&& load.wf()
            &&& load.id == id && load.truck_id == truck_id && load.load_date == load_date
            &&& load.loaded_by == loaded_by
            &&& load.status == LoadStatus::Loaded
            &&& !load.has_sales
            &&& forall|i: int|
                0 <= i < load.items@.len() ==> (#[trigger] load.items@[i]).quantity_sold == 0
                    && load.items@[i].quantity_returned == 0
            &&& total_loaded(load.items@) == requested_total(requests@)
            &&& final(inv).movements@.len() == old(inv).movements@.len() + load.items@.len()
            &&& final(inv).movements@.take(old(inv).movements@.len() as int) == old(inv).movements@
            &&& forall|m: int|
                old(inv).movements@.len() <= m < final(inv).movements@.len() ==> (
                #[trigger] final(inv).movements@[m]).movement_type == StockMovementType::TruckLoadOut
                    && final(inv).movements@[m].reference_id == id
        },
{
    if requests.len() == 0 || !truck_active {
        return Err(AppError::Validation);
    }
    if find_day_load(loads, truck_id, load_date) {
        return Err(AppError::Conflict);
    }
    let mut k: usize = 0;
    while k < requests.len()
        invariant
            k <= requests@.len(),
            forall|j: int| 0 <= j < k ==> request_shape_ok(#[trigger] requests@[j]),
        decreases requests@.len() - k,
    {
        let q = requests[k];
        if q.batch_id.is_some() == q.product_id.is_some() {
            return Err(AppError::Validation);
        }
        k = k + 1;
    }
    let saved = inv.batches_snapshot();
    let mark = inv.movements.len();
    let ghost old_bs = inv.batches@;
    let mut load = TruckLoad::new(id, truck_id, load_date, loaded_by);
    let mut k: usize = 0;
    proof {
        assert(requests@.take(0) =~= Seq::<TruckLoadItemRequest>::empty());
        assert(held_batches(load.items@) =~= Set::<u64>::empty());
    }
    while k < requests.len()
        invariant
            k <= requests@.len(),
            inv.wf(),
            old(inv).wf(),
            load.wf(),
            load.id == id && load.truck_id == truck_id && load.load_date == load_date,
            load.loaded_by == loaded_by && load.status == LoadStatus::Loaded && !load.has_sales,
            saved@ == old(inv).batches@,
            old_bs == old(inv).batches@,
            mark == old(inv).movements@.len(),
            inv.movements@.len() == mark + load.items@.len(),
            inv.movements@.take(mark as int) == old(inv).movements@,
            total_loaded(load.items@) == requested_total(requests@.take(k as int)),
            forall|j: int| 0 <= j < requests@.len() ==> request_shape_ok(#[trigger] requests@[j]),
            load_outcome(old_bs, requests@.take(k as int)) == Ok::<(Seq<Batch>, Set<u64>), AppError>(
                (inv.batches@, held_batches(load.items@)),
            ),
            forall|i: int|
                0 <= i < load.items@.len() ==> (#[trigger] load.items@[i]).quantity_sold == 0
                    && load.items@[i].quantity_returned == 0,
            forall|m: int|
                mark <= m < inv.movements@.len() ==> (#[trigger] inv.movements@[m]).movement_type
                    == StockMovementType::TruckLoadOut && inv.movements@[m].reference_id == id,
        decreases requests@.len() - k,
    {
        let q = requests[k];
        proof {
            assert(request_shape_ok(requests@[k as int]));
            assert(requests@.take(k + 1).drop_last() =~= requests@.take(k as int));
            assert(requests@.take(k + 1).last() == q);
        }
        let ghost ms_before = inv.movements@;
        let ghost bs_before = inv.batches@;
        let ghost items_before = load.items@;
        let step = match q.batch_id {
            Some(batch_id) => {
                let res = load.load_specific_batch(inv, batch_id, q.quantity_loaded, ctx);
                proof {
                    if res is Ok {
                        assert(held_batches(load.items@) =~= held_batches(items_before).insert(batch_id)) by {
                            assert forall|b: u64| held_batches(load.items@).contains(b) <==> held_batches(items_before).insert(batch_id).contains(b) by {
                                if holds_batch(load.items@, b) {
                                    let i = choose|i: int| 0 <= i < load.items@.len() && (#[trigger] load.items@[i]).batch_id == b;
                                    if i < items_before.len() {
                                        assert(load.items@[i] == items_before[i]);
                                    }
                                }
                                if holds_batch(items_before, b) {
                                    let i = choose|i: int| 0 <= i < items_before.len() && (#[trigger] items_before[i]).batch_id == b;
                                    assert(load.items@[i] == items_before[i]);
                                }
                                if b == batch_id {
                                    assert(load.items@[items_before.len() as int].batch_id == b);
                                }
                            }
                        }
                        assert forall|m: int| mark <= m < inv.movements@.len() implies (#[trigger] inv.movements@[m]).movement_type
                            == StockMovementType::TruckLoadOut && inv.movements@[m].reference_id == id by {
                            if m < ms_before.len() {
                                assert(inv.movements@[m] == ms_before[m]);
                            }
                        }
                        assert(inv.movements@.take(mark as int) =~= ms_before.take(mark as int));
                        lemma_totals_push(items_before, load.items@.last());
                        assert(load.items@ =~= items_before.push(load.items@.last()));
                    }
                }
                res
            },
            None => {
                let product_id = match q.product_id {
                    Some(p) => p,
                    None => 0,
                };
                match load.load_product_fifo(inv, product_id, q.quantity_loaded, ctx) {
                    Ok(out) => {
                        proof {
                            let n = q.quantity_loaded as int;
                            let added = load_items(bs_before, product_id, out@);
                            assert(load.items@ == items_before + added);
                            assert forall|b: u64| #[trigger] held_batches(load.items@).contains(b) <==> held_batches(items_before).union(drawn_batches(bs_before, product_id, n)).contains(b) by {
                                if holds_batch(load.items@, b) {
                                    let i = choose|i: int| 0 <= i < load.items@.len() && (#[trigger] load.items@[i]).batch_id == b;
                                    if i < items_before.len() {
                                        assert(load.items@[i] == items_before[i]);
                                    } else {
                                        let kk = i - items_before.len();
                                        assert(load.items@[i] == added[kk]);
                                        assert(out@[kk].quantity > 0);
                                    }
                                }
                                if holds_batch(items_before, b) {
                                    let i = choose|i: int| 0 <= i < items_before.len() && (#[trigger] items_before[i]).batch_id == b;
                                    assert(load.items@[i] == items_before[i]);
                                }
                                if b < bs_before.len() && fifo_take(bs_before, product_id, n, b as int) > 0 {
                                    let kk = choose|kk: int| 0 <= kk < out@.len() && (#[trigger] out@[kk]).batch_id == b as int;
                                    assert(load.items@[items_before.len() + kk] == added[kk]);
                                }
                            }
                            assert(held_batches(load.items@) =~= held_batches(items_before).union(drawn_batches(bs_before, product_id, n)));
                            assert(inv.batches@ =~= Seq::new(bs_before.len(), |i: int| posted(bs_before[i], StockMovementType::TruckLoadOut, fifo_take(bs_before, product_id, n, i))));
                            assert(!(exists|i: int| 0 <= i < bs_before.len() && fifo_take(bs_before, product_id, n, i) > 0 && #[trigger] held_batches(items_before).contains(i as u64))) by {
                                assert forall|i: int| 0 <= i < bs_before.len() && fifo_take(bs_before, product_id, n, i) > 0 implies !#[trigger] held_batches(items_before).contains(i as u64) by {
                                    assert(!holds_batch(items_before, i as u64));
                                }
                            }
                            assert forall|m: int| mark <= m < inv.movements@.len() implies (#[trigger] inv.movements@[m]).movement_type
                                == StockMovementType::TruckLoadOut && inv.movements@[m].reference_id == id by {
                                if m < ms_before.len() {
                                    assert(inv.movements@[m] == ms_before[m]);
                                }
                            }
                            assert(inv.movements@.take(mark as int) =~= ms_before.take(mark as int));
                            assert forall|i: int| 0 <= i < load.items@.len() implies (#[trigger] load.items@[i]).quantity_sold == 0
                                && load.items@[i].quantity_returned == 0 by {
                                if i < items_before.len() {
                                    assert(load.items@[i] == items_before[i]);
                                } else {
                                    assert(load.items@[i] == added[i - items_before.len()]);
                                }
                            }
                        }
                        Ok(())
                    },
                    Err(e) => {
                        proof {
                            let n = q.quantity_loaded as int;
                            if e == AppError::Conflict {
                                let i = choose|i: int| 0 <= i < bs_before.len() && fifo_take(bs_before, product_id, n, i) > 0 && #[trigger] holds_batch(items_before, i as u64);
                                assert(held_batches(items_before).contains(i as u64));
                            }
                        }
                        Err(e)
                    },
                }
            },
        };
        match step {
            Ok(()) => {},
            Err(e) => {
                proof {
                    lemma_load_outcome_stays(old_bs, requests@, k + 1, requests@.len() as int, e);
                    assert(requests@.take(requests@.len() as int) =~= requests@);
                    assert(inv.movements@.len() >= mark);
                }
                inv.roll_back(saved, mark);
                proof {
                    assert(inv.movements@ == old(inv).movements@);
                }
                return Err(e);
            },
        }
        k = k + 1;
    }
    proof {
        assert(requests@.take(k as int) =~= requests@);
    }
    Ok(load)
}

pub proof fn lemma_total_loaded_concat(a: Seq<TruckLoadItem>, b: Seq<TruckLoadItem>)
    ensures
        total_loaded(a + b) == total_loaded(a) + total_loaded(b),
    decreases b.len(),
{
    if b.len() == 0 {
        assert(a + b =~= a);
    } else {
        assert((a + b).drop_last() =~= a + b.drop_last());
        lemma_total_loaded_concat(a, b.drop_last());
    }
}

/// The items of a plan hold the units of the plan.
pub proof fn lemma_load_items_total(bs: Seq<Batch>, p: u64, out: Seq<Allocation>)
    ensures
        total_loaded(load_items(bs, p, out)) == plan_total(out),
    decreases out.len(),
{
    if out.len() > 0 {
        assert(load_items(bs, p, out).drop_last() =~= load_items(bs, p, out.drop_last()));
        lemma_load_items_total(bs, p, out.drop_last());
    }
}

/// The units that the lines of a load request ask for.
pub open spec fn requested_total(s: Seq<TruckLoadItemRequest>) -> int
    decreases s.len(),
{
    if s.len() == 0 {
        0
    } else {
        requested_total(s.drop_last()) + s.last().quantity_loaded
    }
}
} // verus!
