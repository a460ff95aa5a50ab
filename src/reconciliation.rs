use vstd::prelude::*;
use crate::allowance::{amount_of, TransportAllowance};
use crate::error::AppError;
use crate::ledger::{apply_postings, posting_records, Inventory, MovementContext};
use crate::movement::{ReferenceType, StockMovementType};
use crate::sale::Sale;
use crate::truck_load::{remaining_list, returned_more, total_loaded, TruckLoad};

verus! {

#[derive(Debug, Clone, Copy, PartialEq, Eq, Structural)]
pub enum ReconciliationStatus {
    InProgress,
    Finalized,
}

/// One truck's line of a day's reconciliation. Money is in the smallest
/// currency unit.
#[derive(Debug, Clone, Copy, PartialEq, Eq, Structural)]
pub struct ReconciliationItem {
    pub truck_id: u64,
    pub truck_load_id: u64,
    pub driver_id: u64,
    pub items_loaded: i64,
    pub items_sold: i64,
    pub items_returned: i64,
    pub items_discarded: i64,
    pub sales_amount: i64,
    pub commission_earned: i64,
    pub allowance_received: i64,
    pub payments_collected: i64,
    pub pending_payments: i64,
    pub is_verified: bool,
    pub has_discrepancy: bool,
    pub verified_by: Option<u64>,
}

/// Sums over a reconciliation's items, and the day's net profit.
#[derive(Debug, Clone, Copy, PartialEq, Eq, Structural)]
pub struct ReconciliationTotals {
    pub total_items_loaded: i128,
    pub total_items_sold: i128,
    pub total_items_returned: i128,
    pub total_items_discarded: i128,
    pub total_sales_amount: i128,
    pub total_commission_earned: i128,
    pub total_allowance_allocated: i128,
    pub total_payments_collected: i128,
    pub pending_payments: i128,
    pub net_profit: i128,
}

/// Whether a day ended in profit or in loss.
#[derive(Debug, Clone, Copy, PartialEq, Eq, Structural)]
pub enum ProfitStatus {
    Profit,
    Loss,
}

impl ReconciliationTotals {
    /// A day with non-negative net profit is a profit, any other a loss.
    pub fn profit_status(&self) -> (r: ProfitStatus)
        ensures
            r == if self.net_profit >= 0 {
                ProfitStatus::Profit
            } else {
                ProfitStatus::Loss
            },
    {
        if self.net_profit >= 0 {
            ProfitStatus::Profit
        } else {
            ProfitStatus::Loss
        }
    }
}

/// Units of one product that came back on a truck.
#[derive(Debug, Clone, Copy, PartialEq, Eq, Structural)]
pub struct TruckReturnItem {
    pub product_id: u64,
    pub quantity: i64,
}

/// Units of one product thrown away (damaged, expired, wasted).
#[derive(Debug)]
pub struct DiscardedItem {
    pub product_id: u64,
    pub quantity: i64,
    pub reason: String,
}

#[derive(Debug)]
pub struct VerifyTruckReturnRequest {
    pub items_returned: Vec<TruckReturnItem>,
    pub items_discarded: Vec<DiscardedItem>,
    pub discrepancy_notes: Option<String>,
}

/// The reconciliation of one calendar day.
#[derive(Debug)]
pub struct DailyReconciliation {
    pub id: u64,
    pub reconciliation_date: i32,
    pub status: ReconciliationStatus,
    pub trucks_out: u64,
    pub trucks_verified: u64,
    pub started_by: u64,
    pub finalized_by: Option<u64>,
    pub items: Vec<ReconciliationItem>,
    pub totals: ReconciliationTotals,
}

/// All reconciliations, at most one per date.
#[derive(Debug)]
pub struct ReconciliationBook {
    pub reconciliations: Vec<DailyReconciliation>,
}

// ---------------------------------------------------------------- snapshots

pub open spec fn sale_counts(s: Sale, truck: u64, date: i32) -> bool {
    s.truck_id == truck && s.sale_date == date
}

/// Field `f` of a sale: 0 units, 1 amount, 2 commission, 3 paid.
pub open spec fn sale_field(s: Sale, f: int) -> int {
    if f == 0 {
        s.total_quantity as int
    } else if f == 1 {
        s.total_amount as int
    } else if f == 2 {
        s.total_commission as int
    } else {
        s.amount_paid as int
    }
}

/// Field `f` summed over the sales of truck `truck` on day `date`.
pub open spec fn sales_sum(s: Seq<Sale>, truck: u64, date: i32, f: int) -> int
    decreases s.len(),
{
    if s.len() == 0 {
        0
    } else {
        sales_sum(s.drop_last(), truck, date, f) + if sale_counts(s.last(), truck, date) {
            sale_field(s.last(), f)
        } else {
            0
        }
    }
}

/// The allowance given to truck `truck` for day `date`, zero if none.
pub open spec fn allowance_for(a: Seq<TransportAllowance>, date: i32, truck: u64) -> int
    decreases a.len(),
{
    if a.len() == 0 {
        0
    } else if a.last().allowance_date == date {
        amount_of(a.last().allocations@, truck)
    } else {
        allowance_for(a.drop_last(), date, truck)
    }
}

/// Each day figure of a truck fits the item's fields.
pub open spec fn snapshot_fits(
    load: TruckLoad,
    sales: Seq<Sale>,
    allowances: Seq<TransportAllowance>,
    date: i32,
) -> bool {
    &&& total_loaded(load.items@) <= i64::MAX
    &&& forall|f: int| 0 <= f < 4 ==> #[trigger] sales_sum(sales, load.truck_id, date, f) <= i64::MAX
}

/// The line that starting a reconciliation creates for a truck's load.
pub open spec fn snapshot(
    load: TruckLoad,
    sales: Seq<Sale>,
    allowances: Seq<TransportAllowance>,
    date: i32,
) -> ReconciliationItem {
    let amount = sales_sum(sales, load.truck_id, date, 1);
    let paid = sales_sum(sales, load.truck_id, date, 3);
    ReconciliationItem {
        truck_id: load.truck_id,
        truck_load_id: load.id,
        driver_id: load.loaded_by,
        items_loaded: total_loaded(load.items@) as i64,
        items_sold: sales_sum(sales, load.truck_id, date, 0) as i64,
        items_returned: 0,
        items_discarded: 0,
        sales_amount: amount as i64,
        commission_earned: sales_sum(sales, load.truck_id, date, 2) as i64,
        allowance_received: allowance_for(allowances, date, load.truck_id) as i64,
        payments_collected: paid as i64,
        pending_payments: (amount - paid) as i64,
        is_verified: false,
        has_discrepancy: false,
        verified_by: None,
    }
}

/// The lines for the loads of day `date`, in the order of the loads.
pub open spec fn day_items(
    loads: Seq<TruckLoad>,
    sales: Seq<Sale>,
    allowances: Seq<TransportAllowance>,
    date: i32,
) -> Seq<ReconciliationItem>
    decreases loads.len(),
{
    if loads.len() == 0 {
        Seq::empty()
    } else if loads.last().load_date == date {
        day_items(loads.drop_last(), sales, allowances, date).push(
            snapshot(loads.last(), sales, allowances, date),
        )
    } else {
        day_items(loads.drop_last(), sales, allowances, date)
    }
}

pub open spec fn day_fits(
    loads: Seq<TruckLoad>,
    sales: Seq<Sale>,
    allowances: Seq<TransportAllowance>,
    date: i32,
) -> bool {
    forall|i: int|
        0 <= i < loads.len() && (#[trigger] loads[i]).load_date == date ==> snapshot_fits(
            loads[i],
            sales,
            allowances,
            date,
        )
}

/// One load per truck and day.
pub open spec fn loads_unique(loads: Seq<TruckLoad>) -> bool {
    forall|i: int, j: int|
        0 <= i < j < loads.len() ==> !((#[trigger] loads[i]).truck_id == (#[trigger] loads[j]).truck_id
            && loads[i].load_date == loads[j].load_date)
}

pub open spec fn sales_sound(sales: Seq<Sale>) -> bool {
    forall|i: int| 0 <= i < sales.len() ==> (#[trigger] sales[i]).wf()
}

pub open spec fn allowances_sound(a: Seq<TransportAllowance>) -> bool {
    forall|i: int| 0 <= i < a.len() ==> (#[trigger] a[i]).wf()
}

proof fn lemma_sales_sum_bounds(s: Seq<Sale>, truck: u64, date: i32)
    requires
        sales_sound(s),
    ensures
        forall|f: int| 0 <= f < 4 ==> 0 <= #[trigger] sales_sum(s, truck, date, f) <= s.len() * (i64::MAX as int),
        sales_sum(s, truck, date, 3) <= sales_sum(s, truck, date, 1),
    decreases s.len(),
{
    if s.len() > 0 {
        assert(s.last().wf()) by {
            assert(s[s.len() - 1].wf());
        }
        assert(sales_sound(s.drop_last())) by {
            assert forall|i: int| 0 <= i < s.drop_last().len() implies (#[trigger] s.drop_last()[i]).wf() by {
                assert(s.drop_last()[i] == s[i]);
            }
        }
        lemma_sales_sum_bounds(s.drop_last(), truck, date);
        assert forall|f: int| 0 <= f < 4 implies 0 <= #[trigger] sales_sum(s, truck, date, f) <= s.len() * (i64::MAX as int) by {
            assert(0 <= sales_sum(s.drop_last(), truck, date, f) <= s.drop_last().len() * (i64::MAX as int));
        }
    }
}

proof fn lemma_allowance_for_bounds(a: Seq<TransportAllowance>, date: i32, truck: u64)
    requires
        allowances_sound(a),
    ensures
        0 <= allowance_for(a, date, truck) <= i64::MAX,
    decreases a.len(),
{
    if a.len() > 0 {
        assert(a[a.len() - 1].wf());
        if a.last().allowance_date == date {
            lemma_amount_of_bounds(a.last().allocations@, truck);
        } else {
            assert(allowances_sound(a.drop_last())) by {
                assert forall|i: int| 0 <= i < a.drop_last().len() implies (#[trigger] a.drop_last()[i]).wf() by {
                    assert(a.drop_last()[i] == a[i]);
                }
            }
            lemma_allowance_for_bounds(a.drop_last(), date, truck);
        }
    }
}

proof fn lemma_amount_of_bounds(s: Seq<crate::allowance::TruckAllocation>, truck: u64)
    requires
        forall|i: int| 0 <= i < s.len() ==> (#[trigger] s[i]).amount > 0,
    ensures
        0 <= amount_of(s, truck) <= i64::MAX,
    decreases s.len(),
{
    if s.len() > 0 {
        assert(s[s.len() - 1].amount > 0);
        assert forall|i: int| 0 <= i < s.drop_last().len() implies (#[trigger] s.drop_last()[i]).amount > 0 by {
            assert(s.drop_last()[i] == s[i]);
        }
        lemma_amount_of_bounds(s.drop_last(), truck);
    }
}

fn sale_value(s: &Sale, f: u8) -> (r: i64)
    requires
        f < 4,
    ensures
        r == sale_field(*s, f as int),
{
    if f == 0 {
        s.total_quantity
    } else if f == 1 {
        s.total_amount
    } else if f == 2 {
        s.total_commission
    } else {
        s.amount_paid
    }
}

/// Field `f` summed over the day's sales of a truck.
fn sum_sales(sales: &Vec<Sale>, truck: u64, date: i32, f: u8) -> (r: i128)
    requires
        sales_sound(sales@),
        f < 4,
    ensures
        r == sales_sum(sales@, truck, date, f as int),
{
    let mut acc: i128 = 0;
    let mut k: usize = 0;
    while k < sales.len()
        invariant
            sales_sound(sales@),
            f < 4,
            k <= sales@.len(),
            acc == sales_sum(sales@.take(k as int), truck, date, f as int),
        decreases sales@.len() - k,
    {
        proof {
            let t = sales@.take(k + 1);
            assert(t.drop_last() =~= sales@.take(k as int));
            assert(sales_sound(t)) by {
                assert forall|i: int| 0 <= i < t.len() implies (#[trigger] t[i]).wf() by {
                    assert(t[i] == sales@[i]);
                }
            }
            lemma_sales_sum_bounds(t, truck, date);
            assert(sales_sum(t, truck, date, f as int) <= (k + 1) * (i64::MAX as int));
        }
        let s = &sales[k];
        if s.truck_id == truck && s.sale_date == date {
            acc = acc + sale_value(s, f) as i128;
        }
        k = k + 1;
    }
    proof {
        assert(sales@.take(k as int) =~= sales@);
    }
    acc
}

/// The allowance of a truck for a day, zero if none.
fn find_allowance(allowances: &Vec<TransportAllowance>, date: i32, truck: u64) -> (r: i64)
    ensures
        r == allowance_for(allowances@, date, truck),
{
    let mut i: usize = allowances.len();
    proof {
        assert(allowances@.take(i as int) =~= allowances@);
    }
    while i > 0
        invariant
            i <= allowances@.len(),
            allowance_for(allowances@, date, truck) == allowance_for(
                allowances@.take(i as int),
                date,
                truck,
            ),
        decreases i,
    {
        proof {
            assert(allowances@.take(i as int).drop_last() =~= allowances@.take(i - 1));
        }
        if allowances[i - 1].allowance_date == date {
            return allowances[i - 1].amount_for(truck);
        }
        i = i - 1;
    }
    proof {
        assert(allowances@.take(0) =~= Seq::<TransportAllowance>::empty());
    }
    0
}

/// The line for a load of day `date`, or a validation error when one of its
/// figures does not fit.
fn make_snapshot(
    load: &TruckLoad,
    sales: &Vec<Sale>,
    allowances: &Vec<TransportAllowance>,
    date: i32,
) -> (r: Result<ReconciliationItem, AppError>)
    requires
        load.wf(),
        sales_sound(sales@),
        allowances_sound(allowances@),
    ensures
        snapshot_fits(*load, sales@, allowances@, date) <==> r is Ok,
        r is Ok ==> r->Ok_0 == snapshot(*load, sales@, allowances@, date),
        r is Err ==> r == Err::<ReconciliationItem, AppError>(AppError::Validation),
{
    let summary = load.summary();
    let quantity = sum_sales(sales, load.truck_id, date, 0);
    let amount = sum_sales(sales, load.truck_id, date, 1);
    let commission = sum_sales(sales, load.truck_id, date, 2);
    let paid = sum_sales(sales, load.truck_id, date, 3);
    proof {
        lemma_sales_sum_bounds(sales@, load.truck_id, date);
        crate::truck_load::lemma_totals_bounded(load.items@);
        assert(sales_sum(sales@, load.truck_id, date, 0) >= 0);
        assert(sales_sum(sales@, load.truck_id, date, 1) >= 0);
        assert(sales_sum(sales@, load.truck_id, date, 2) >= 0);
        assert(sales_sum(sales@, load.truck_id, date, 3) >= 0);
    }
    let max = i64::MAX as i128;
    if summary.total_loaded > max || quantity > max || amount > max || commission > max || paid > max {
        proof {
            if snapshot_fits(*load, sales@, allowances@, date) {
                assert(sales_sum(sales@, load.truck_id, date, 0) <= i64::MAX);
                assert(sales_sum(sales@, load.truck_id, date, 1) <= i64::MAX);
                assert(sales_sum(sales@, load.truck_id, date, 2) <= i64::MAX);
                assert(sales_sum(sales@, load.truck_id, date, 3) <= i64::MAX);
            }
        }
        return Err(AppError::Validation);
    }
    proof {
        assert forall|f: int| 0 <= f < 4 implies #[trigger] sales_sum(sales@, load.truck_id, date, f) <= i64::MAX by {
            if f == 0 {
            } else if f == 1 {
            } else if f == 2 {
            } else {
            }
        }
    }
    let allowance = find_allowance(allowances, date, load.truck_id);
    Ok(
        ReconciliationItem {
            truck_id: load.truck_id,
            truck_load_id: load.id,
            driver_id: load.loaded_by,
            items_loaded: summary.total_loaded as i64,
            items_sold: quantity as i64,
            items_returned: 0,
            items_discarded: 0,
            sales_amount: amount as i64,
            commission_earned: commission as i64,
            allowance_received: allowance,
            payments_collected: paid as i64,
            pending_payments: (amount - paid) as i64,
            is_verified: false,
            has_discrepancy: false,
            verified_by: None,
        },
    )
}


// ---------------------------------------------------------------- the day's record

/// Every figure of a line is non-negative.
pub open spec fn line_sound(it: ReconciliationItem) -> bool {
    &&& it.items_loaded >= 0
    &&& it.items_sold >= 0
    &&& it.items_returned >= 0
    &&& it.items_discarded >= 0
    &&& it.sales_amount >= 0
    &&& it.commission_earned >= 0
    &&& it.allowance_received >= 0
    &&& it.payments_collected >= 0
    &&& it.pending_payments >= 0
}

/// Field `f` of a line: 0 loaded, 1 sold, 2 returned, 3 discarded, 4 sales,
/// 5 commission, 6 allowance, 7 payments, 8 pending.
pub open spec fn line_field(it: ReconciliationItem, f: int) -> int {
    if f == 0 {
        it.items_loaded as int
    } else if f == 1 {
        it.items_sold as int
    } else if f == 2 {
        it.items_returned as int
    } else if f == 3 {
        it.items_discarded as int
    } else if f == 4 {
        it.sales_amount as int
    } else if f == 5 {
        it.commission_earned as int
    } else if f == 6 {
        it.allowance_received as int
    } else if f == 7 {
        it.payments_collected as int
    } else {
        it.pending_payments as int
    }
}

pub open spec fn lines_total(s: Seq<ReconciliationItem>, f: int) -> int
    decreases s.len(),
{
    if s.len() == 0 {
        0
    } else {
        lines_total(s.drop_last(), f) + line_field(s.last(), f)
    }
}

pub open spec fn verified_count(s: Seq<ReconciliationItem>) -> int
    decreases s.len(),
{
    if s.len() == 0 {
        0
    } else {
        verified_count(s.drop_last()) + if s.last().is_verified {
            1int
        } else {
            0
        }
    }
}

/// The day's totals: sums over the lines, and net profit as commission
/// earned less allowance paid out.
pub open spec fn totals_of(s: Seq<ReconciliationItem>) -> ReconciliationTotals {
    ReconciliationTotals {
        total_items_loaded: lines_total(s, 0) as i128,
        total_items_sold: lines_total(s, 1) as i128,
        total_items_returned: lines_total(s, 2) as i128,
        total_items_discarded: lines_total(s, 3) as i128,
        total_sales_amount: lines_total(s, 4) as i128,
        total_commission_earned: lines_total(s, 5) as i128,
        total_allowance_allocated: lines_total(s, 6) as i128,
        total_payments_collected: lines_total(s, 7) as i128,
        pending_payments: lines_total(s, 8) as i128,
        net_profit: (lines_total(s, 5) - lines_total(s, 6)) as i128,
    }
}

pub open spec fn zero_totals() -> ReconciliationTotals {
    ReconciliationTotals {
        total_items_loaded: 0,
        total_items_sold: 0,
        total_items_returned: 0,
        total_items_discarded: 0,
        total_sales_amount: 0,
        total_commission_earned: 0,
        total_allowance_allocated: 0,
        total_payments_collected: 0,
        pending_payments: 0,
        net_profit: 0,
    }
}

pub proof fn lemma_lines_total_bounds(s: Seq<ReconciliationItem>)
    requires
        forall|i: int| 0 <= i < s.len() ==> line_sound(#[trigger] s[i]),
    ensures
        forall|f: int| 0 <= f < 9 ==> 0 <= #[trigger] lines_total(s, f) <= s.len() * (i64::MAX as int),
        0 <= verified_count(s) <= s.len(),
    decreases s.len(),
{
    if s.len() > 0 {
        assert(line_sound(s[s.len() - 1]));
        assert forall|i: int| 0 <= i < s.drop_last().len() implies line_sound(#[trigger] s.drop_last()[i]) by {
            assert(s.drop_last()[i] == s[i]);
        }
        lemma_lines_total_bounds(s.drop_last());
        assert forall|f: int| 0 <= f < 9 implies 0 <= #[trigger] lines_total(s, f) <= s.len() * (i64::MAX as int) by {
            assert(0 <= lines_total(s.drop_last(), f) <= s.drop_last().len() * (i64::MAX as int));
        }
    }
}

proof fn lemma_lines_update(s: Seq<ReconciliationItem>, j: int, x: ReconciliationItem)
    requires
        0 <= j < s.len(),
    ensures
        verified_count(s.update(j, x)) == verified_count(s) - (if s[j].is_verified {
            1int
        } else {
            0
        }) + (if x.is_verified {
            1int
        } else {
            0
        }),
    decreases s.len(),
{
    let u = s.update(j, x);
    if j == s.len() - 1 {
        assert(u.drop_last() =~= s.drop_last());
    } else {
        assert(u.drop_last() =~= s.drop_last().update(j, x));
        lemma_lines_update(s.drop_last(), j, x);
    }
}

pub open spec fn returned_total(s: Seq<TruckReturnItem>) -> int
    decreases s.len(),
{
    if s.len() == 0 {
        0
    } else {
        returned_total(s.drop_last()) + s.last().quantity
    }
}

pub open spec fn discarded_total(s: Seq<DiscardedItem>) -> int
    decreases s.len(),
{
    if s.len() == 0 {
        0
    } else {
        discarded_total(s.drop_last()) + s.last().quantity
    }
}

/// The counted quantities are non-negative and their sums fit.
pub open spec fn counts_ok(req: &VerifyTruckReturnRequest) -> bool {
    &&& forall|k: int| 0 <= k < req.items_returned@.len() ==> (#[trigger] req.items_returned@[k]).quantity >= 0
    &&& forall|k: int| 0 <= k < req.items_discarded@.len() ==> (#[trigger] req.items_discarded@[k]).quantity >= 0
    &&& returned_total(req.items_returned@) <= i64::MAX
    &&& discarded_total(req.items_discarded@) <= i64::MAX
}

/// What the truck should bring back, loaded less sold, differs from what was
/// counted back, returned plus discarded. Quantities are whole units, so any
/// difference exceeds the tolerance of a hundredth.
pub open spec fn has_discrepancy(it: ReconciliationItem, returned: int, discarded: int) -> bool {
    it.items_loaded - it.items_sold != returned + discarded
}

/// A line after verification with the given counts.
pub open spec fn verified_line(it: ReconciliationItem, returned: int, discarded: int, verifier: u64) -> ReconciliationItem {
    ReconciliationItem {
        items_returned: returned as i64,
        items_discarded: discarded as i64,
        is_verified: true,
        has_discrepancy: has_discrepancy(it, returned, discarded),
        verified_by: Some(verifier),
        ..it
    }
}

pub open spec fn truck_line(s: Seq<ReconciliationItem>, truck: u64) -> bool {
    exists|j: int| 0 <= j < s.len() && (#[trigger] s[j]).truck_id == truck
}

/// Why verifying a truck is refused, if it is.
pub open spec fn verify_error(rec: &DailyReconciliation, truck: u64, req: &VerifyTruckReturnRequest) -> Option<AppError> {
    if rec.status != ReconciliationStatus::InProgress {
        Some(AppError::Conflict)
    } else if !truck_line(rec.items@, truck) {
        Some(AppError::NotFound)
    } else if !counts_ok(req) {
        Some(AppError::Validation)
    } else {
        None
    }
}

/// Why finalizing is refused, if it is.
pub open spec fn finalize_error(rec: &DailyReconciliation) -> Option<AppError> {
    if rec.status == ReconciliationStatus::Finalized {
        Some(AppError::Conflict)
    } else if rec.trucks_verified < rec.trucks_out {
        Some(AppError::Validation)
    } else {
        None
    }
}

proof fn lemma_counts_bounds(req: &VerifyTruckReturnRequest)
    ensures
        forall|k: int| 0 <= k <= req.items_returned@.len() ==>
            #[trigger] returned_total(req.items_returned@.take(k)) <= k * (i64::MAX as int)
            && returned_total(req.items_returned@.take(k)) >= k * (i64::MIN as int),
        forall|k: int| 0 <= k <= req.items_discarded@.len() ==>
            #[trigger] discarded_total(req.items_discarded@.take(k)) <= k * (i64::MAX as int)
            && discarded_total(req.items_discarded@.take(k)) >= k * (i64::MIN as int),
{
    assert forall|k: int| 0 <= k <= req.items_returned@.len() implies
        #[trigger] returned_total(req.items_returned@.take(k)) <= k * (i64::MAX as int)
        && returned_total(req.items_returned@.take(k)) >= k * (i64::MIN as int) by {
        lemma_returned_bounds(req.items_returned@.take(k));
    }
    assert forall|k: int| 0 <= k <= req.items_discarded@.len() implies
        #[trigger] discarded_total(req.items_discarded@.take(k)) <= k * (i64::MAX as int)
        && discarded_total(req.items_discarded@.take(k)) >= k * (i64::MIN as int) by {
        lemma_discarded_bounds(req.items_discarded@.take(k));
    }
}

proof fn lemma_returned_bounds(s: Seq<TruckReturnItem>)
    ensures
        s.len() * (i64::MIN as int) <= returned_total(s) <= s.len() * (i64::MAX as int),
    decreases s.len(),
{
    if s.len() > 0 {
        lemma_returned_bounds(s.drop_last());
    }
}

proof fn lemma_discarded_bounds(s: Seq<DiscardedItem>)
    ensures
        s.len() * (i64::MIN as int) <= discarded_total(s) <= s.len() * (i64::MAX as int),
    decreases s.len(),
{
    if s.len() > 0 {
        lemma_discarded_bounds(s.drop_last());
    }
}

/// Sums the counts of a verification, or fails when one is negative or a sum
/// does not fit.
fn sum_counts(req: &VerifyTruckReturnRequest) -> (r: Result<(i64, i64), AppError>)
    ensures
        counts_ok(req) <==> r is Ok,
        r is Err ==> r == Err::<(i64, i64), AppError>(AppError::Validation),
        r is Ok ==> r->Ok_0.0 == returned_total(req.items_returned@) && r->Ok_0.1 == discarded_total(
            req.items_discarded@,
        ) && r->Ok_0.0 >= 0 && r->Ok_0.1 >= 0,
{
    proof {
        lemma_counts_bounds(req);
    }
    let mut returned: i128 = 0;
    let mut k: usize = 0;
    while k < req.items_returned.len()
        invariant
            k <= req.items_returned@.len(),
            returned == returned_total(req.items_returned@.take(k as int)),
            returned >= 0,
            forall|j: int| 0 <= j < k ==> (#[trigger] req.items_returned@[j]).quantity >= 0,
            forall|j: int| 0 <= j <= req.items_returned@.len() ==>
                #[trigger] returned_total(req.items_returned@.take(j)) <= j * (i64::MAX as int)
                && returned_total(req.items_returned@.take(j)) >= j * (i64::MIN as int),
        decreases req.items_returned@.len() - k,
    {
        let q = req.items_returned[k].quantity;
        if q < 0 {
            return Err(AppError::Validation);
        }
        proof {
            assert(req.items_returned@.take(k + 1).drop_last() =~= req.items_returned@.take(k as int));
            assert(returned_total(req.items_returned@.take(k + 1)) <= (k + 1) * (i64::MAX as int));
            assert(returned_total(req.items_returned@.take(k + 1)) >= (k + 1) * (i64::MIN as int));
        }
        returned = returned + q as i128;
        k = k + 1;
    }
    proof {
        assert(req.items_returned@.take(k as int) =~= req.items_returned@);
    }
    let mut discarded: i128 = 0;
    let mut k: usize = 0;
    while k < req.items_discarded.len()
        invariant
            k <= req.items_discarded@.len(),
            discarded == discarded_total(req.items_discarded@.take(k as int)),
            discarded >= 0,
            forall|j: int| 0 <= j < k ==> (#[trigger] req.items_discarded@[j]).quantity >= 0,
            forall|j: int| 0 <= j <= req.items_discarded@.len() ==>
                #[trigger] discarded_total(req.items_discarded@.take(j)) <= j * (i64::MAX as int)
                && discarded_total(req.items_discarded@.take(j)) >= j * (i64::MIN as int),
        decreases req.items_discarded@.len() - k,
    {
        let q = req.items_discarded[k].quantity;
        if q < 0 {
            return Err(AppError::Validation);
        }
        proof {
            assert(req.items_discarded@.take(k + 1).drop_last() =~= req.items_discarded@.take(k as int));
            assert(discarded_total(req.items_discarded@.take(k + 1)) <= (k + 1) * (i64::MAX as int));
            assert(discarded_total(req.items_discarded@.take(k + 1)) >= (k + 1) * (i64::MIN as int));
        }
        discarded = discarded + q as i128;
        k = k + 1;
    }
    proof {
        assert(req.items_discarded@.take(k as int) =~= req.items_discarded@);
    }
    if returned > i64::MAX as i128 || discarded > i64::MAX as i128 {
        return Err(AppError::Validation);
    }
    Ok((returned as i64, discarded as i64))
}

fn line_value(it: &ReconciliationItem, f: u8) -> (r: i64)
    requires
        f < 9,
    ensures
        r == line_field(*it, f as int),
{
    if f == 0 {
        it.items_loaded
    } else if f == 1 {
        it.items_sold
    } else if f == 2 {
        it.items_returned
    } else if f == 3 {
        it.items_discarded
    } else if f == 4 {
        it.sales_amount
    } else if f == 5 {
        it.commission_earned
    } else if f == 6 {
        it.allowance_received
    } else if f == 7 {
        it.payments_collected
    } else {
        it.pending_payments
    }
}

fn sum_lines(items: &Vec<ReconciliationItem>, f: u8) -> (r: i128)
    requires
        f < 9,
        forall|i: int| 0 <= i < items@.len() ==> line_sound(#[trigger] items@[i]),
    ensures
        r == lines_total(items@, f as int),
        0 <= r <= items@.len() * (i64::MAX as int),
{
    let mut acc: i128 = 0;
    let mut k: usize = 0;
    while k < items.len()
        invariant
            f < 9,
            forall|i: int| 0 <= i < items@.len() ==> line_sound(#[trigger] items@[i]),
            k <= items@.len(),
            acc == lines_total(items@.take(k as int), f as int),
        decreases items@.len() - k,
    {
        proof {
            let t = items@.take(k + 1);
            assert(t.drop_last() =~= items@.take(k as int));
            assert forall|i: int| 0 <= i < t.len() implies line_sound(#[trigger] t[i]) by {
                assert(t[i] == items@[i]);
            }
            lemma_lines_total_bounds(t);
            assert(0 <= lines_total(t, f as int) <= (k + 1) * (i64::MAX as int));
        }
        acc = acc + line_value(&items[k], f) as i128;
        k = k + 1;
    }
    proof {
        assert(items@.take(k as int) =~= items@);
        lemma_lines_total_bounds(items@);
        assert(0 <= lines_total(items@, f as int) <= items@.len() * (i64::MAX as int));
    }
    acc
}

/// The day's totals over its lines.
pub fn compute_totals(items: &Vec<ReconciliationItem>) -> (r: ReconciliationTotals)
    requires
        forall|i: int| 0 <= i < items@.len() ==> line_sound(#[trigger] items@[i]),
    ensures
        r == totals_of(items@),
{
    let commission = sum_lines(items, 5);
    let allowance = sum_lines(items, 6);
    ReconciliationTotals {
        total_items_loaded: sum_lines(items, 0),
        total_items_sold: sum_lines(items, 1),
        total_items_returned: sum_lines(items, 2),
        total_items_discarded: sum_lines(items, 3),
        total_sales_amount: sum_lines(items, 4),
        total_commission_earned: commission,
        total_allowance_allocated: allowance,
        total_payments_collected: sum_lines(items, 7),
        pending_payments: sum_lines(items, 8),
        net_profit: commission - allowance,
    }
}

/// The position of the first load with id `id`, or -1.
pub open spec fn find_load(loads: Seq<TruckLoad>, id: u64) -> int
    decreases loads.len(),
{
    if loads.len() == 0 {
        -1
    } else if find_load(loads.drop_last(), id) >= 0 {
        find_load(loads.drop_last(), id)
    } else if loads.last().id == id {
        loads.len() - 1
    } else {
        -1
    }
}

proof fn lemma_find_load(loads: Seq<TruckLoad>, id: u64)
    ensures
        -1 <= find_load(loads, id) < loads.len(),
        find_load(loads, id) >= 0 ==> loads[find_load(loads, id)].id == id && forall|j: int|
            0 <= j < find_load(loads, id) ==> (#[trigger] loads[j]).id != id,
        find_load(loads, id) == -1 ==> forall|j: int| 0 <= j < loads.len() ==> (#[trigger] loads[j]).id != id,
    decreases loads.len(),
{
    if loads.len() > 0 {
        let d = loads.drop_last();
        lemma_find_load(d, id);
        let r = find_load(loads, id);
        if find_load(d, id) >= 0 {
            assert(loads[r] == d[r]);
            assert forall|j: int| 0 <= j < r implies (#[trigger] loads[j]).id != id by {
                assert(loads[j] == d[j]);
            }
        } else {
            assert forall|j: int| 0 <= j < loads.len() - 1 implies (#[trigger] loads[j]).id != id by {
                assert(loads[j] == d[j]);
            }
        }
    }
}

/// The context of the truck returns that finalizing posts: they refer to
/// the reconciliation and are dated on its day.
pub open spec fn day_ctx(rec_id: u64, day: i32, ctx: MovementContext) -> MovementContext {
    MovementContext {
        reference_type: ReferenceType::Reconciliation,
        reference_id: rec_id,
        movement_date: day,
        ..ctx
    }
}

pub fn day_context(rec_id: u64, day: i32, ctx: MovementContext) -> (r: MovementContext)
    ensures
        r == day_ctx(rec_id, day, ctx),
{
    MovementContext {
        reference_type: ReferenceType::Reconciliation,
        reference_id: rec_id,
        movement_date: day,
        ..ctx
    }
}

/// Load `j` is the load of a line that brought goods back.
pub open spec fn touched_load(items: Seq<ReconciliationItem>, loads: Seq<TruckLoad>, j: int) -> bool {
    exists|k: int|
        0 <= k < items.len() && (#[trigger] items[k]).items_returned > 0 && find_load(
            loads,
            items[k].truck_load_id,
        ) == j
}

/// `now` is `before` with everything still on the truck recorded as returned.
pub open spec fn fully_returned(now: TruckLoad, before: TruckLoad) -> bool {
    &&& now.id == before.id && now.status == before.status && now.truck_id == before.truck_id
    &&& now.load_date == before.load_date && now.loaded_by == before.loaded_by
    &&& now.has_sales == before.has_sales
    &&& now.items@.len() == before.items@.len()
    &&& forall|i: int|
        0 <= i < before.items@.len() ==> returned_more(
            #[trigger] now.items@[i],
            before.items@[i],
            before.items@[i].quantity_loaded - before.items@[i].quantity_sold
                - before.items@[i].quantity_returned,
        )
}

/// What finalizing puts back for one line: when the truck brought goods
/// back, everything still on its load.
pub open spec fn line_postings(it: ReconciliationItem, loads: Seq<TruckLoad>) -> Seq<(u64, i64)> {
    if it.items_returned > 0 && find_load(loads, it.truck_load_id) >= 0 {
        remaining_list(loads[find_load(loads, it.truck_load_id)].items@)
    } else {
        Seq::empty()
    }
}

/// The truck returns that finalizing posts, line by line.
pub open spec fn finalize_postings(s: Seq<ReconciliationItem>, loads: Seq<TruckLoad>) -> Seq<(u64, i64)>
    decreases s.len(),
{
    if s.len() == 0 {
        Seq::empty()
    } else {
        finalize_postings(s.drop_last(), loads) + line_postings(s.last(), loads)
    }
}

impl DailyReconciliation {
    pub open spec fn wf(&self) -> bool {
        let s = self.items@;
        &&& self.trucks_out == s.len()
        &&& self.trucks_verified == verified_count(s)
        &&& forall|i: int| 0 <= i < s.len() ==> line_sound(#[trigger] s[i])
        &&& forall|i: int, j: int|
            0 <= i < j < s.len() ==> (#[trigger] s[i]).truck_id != (#[trigger] s[j]).truck_id
        &&& self.status == ReconciliationStatus::Finalized ==> self.totals == totals_of(s)
            && self.trucks_verified == self.trucks_out
    }

    pub open spec fn same_as(&self, other: &DailyReconciliation) -> bool {
        &&& self.id == other.id
        &&& self.reconciliation_date == other.reconciliation_date
        &&& self.status == other.status
        &&& self.trucks_out == other.trucks_out
        &&& self.trucks_verified == other.trucks_verified
        &&& self.started_by == other.started_by
        &&& self.finalized_by == other.finalized_by
        &&& self.items@ == other.items@
        &&& self.totals == other.totals
    }

    /// Records the counted return of one truck: what came back and what was
    /// thrown away. A difference from what the truck should bring back is
    /// recorded and does not block verification.
    pub fn verify_truck(
        &mut self,
        truck_id: u64,
        req: &VerifyTruckReturnRequest,
        verifier: u64,
    ) -> (r: Result<(), AppError>)
        requires
            old(self).wf(),
        ensures
            final(self).wf(),
            match verify_error(old(self), truck_id, req) {
                Some(e) => r == Err::<(), AppError>(e) && final(self).same_as(old(self)),
                None => r is Ok,
            },
            r is Ok ==> exists|j: int|
                0 <= j < old(self).items@.len() && (#[trigger] old(self).items@[j]).truck_id == truck_id
                    && final(self).items@ == old(self).items@.update(
                    j,
                    verified_line(
                        old(self).items@[j],
                        returned_total(req.items_returned@),
                        discarded_total(req.items_discarded@),
                        verifier,
                    ),
                ) && final(self).trucks_verified == verified_count(final(self).items@)
                    && final(self).status == old(self).status && final(self).totals == old(self).totals
                    && final(self).reconciliation_date == old(self).reconciliation_date
                    && final(self).id == old(self).id && final(self).trucks_out == old(self).trucks_out,
    {
        match self.status {
            ReconciliationStatus::InProgress => {},
            ReconciliationStatus::Finalized => {
                return Err(AppError::Conflict);
            },
        }
        let mut j: usize = 0;
        let mut found = false;
        while j < self.items.len() && !found
            invariant
                self.wf(),
                old(self).wf(),
                self.status == ReconciliationStatus::InProgress,
                self.same_as(old(self)),
                j <= self.items@.len(),
                found ==> j < self.items@.len() && self.items@[j as int].truck_id == truck_id,
                forall|i: int| 0 <= i < j ==> (#[trigger] self.items@[i]).truck_id != truck_id,
            decreases self.items@.len() - j + if found {
                0int
            } else {
                1int
            },
        {
            if self.items[j].truck_id == truck_id {
                found = true;
            } else {
                j = j + 1;
            }
        }
        if !found {
            return Err(AppError::NotFound);
        }
        proof {
            assert(truck_line(self.items@, truck_id));
        }
        let (returned, discarded) = match sum_counts(req) {
            Ok(t) => t,
            Err(e) => {
                return Err(e);
            },
        };
        let it = self.items[j];
        let discrepancy = it.items_loaded as i128 - it.items_sold as i128 != returned as i128
            + discarded as i128;
        let line = ReconciliationItem {
            items_returned: returned,
            items_discarded: discarded,
            is_verified: true,
            has_discrepancy: discrepancy,
            verified_by: Some(verifier),
            ..it
        };
        let ghost before = self.items@;
        self.items.set(j, line);
        proof {
            lemma_lines_update(before, j as int, line);
            assert forall|a: int, c: int|
                0 <= a < c < self.items@.len() implies (#[trigger] self.items@[a]).truck_id != (
            #[trigger] self.items@[c]).truck_id by {
                assert(before[a].truck_id != before[c].truck_id);
            }
            assert forall|i: int| 0 <= i < self.items@.len() implies line_sound(#[trigger] self.items@[i]) by {
                assert(line_sound(before[i]));
            }
            lemma_lines_total_bounds(before);
            lemma_lines_total_bounds(self.items@);
        }
        self.trucks_verified = if it.is_verified {
            self.trucks_verified
        } else {
            self.trucks_verified + 1
        };
        Ok(())
    }

    /// Closes the day: once every truck is verified, puts back into stock what
    /// is still on the trucks that brought goods back, sums the lines into the
    /// day's totals, and computes net profit as commission less allowance.
    /// Terminal: a finalized day cannot be finalized again.
    #[verifier::loop_isolation(false)]
    pub fn finalize(
        &mut self,
        inv: &mut Inventory,
        loads: &mut Vec<TruckLoad>,
        actor: u64,
        ctx: MovementContext,
    ) -> (r: Result<(), AppError>)
        requires
            old(self).wf(),
            old(inv).wf(),
            forall|j: int| 0 <= j < old(loads)@.len() ==> (#[trigger] old(loads)@[j]).wf(),
        ensures
            final(self).wf(),
            final(inv).wf(),
            forall|j: int| 0 <= j < final(loads)@.len() ==> (#[trigger] final(loads)@[j]).wf(),
            final(loads)@.len() == old(loads)@.len(),
            finalize_error(old(self)) is Some ==> r == Err::<(), AppError>(
                finalize_error(old(self))->Some_0,
            ),
            r is Err ==> {
                &&& final(self).same_as(old(self))
                &&& final(inv).batches@ == old(inv).batches@
                &&& final(inv).movements@ == old(inv).movements@
                &&& forall|j: int|
                    0 <= j < old(loads)@.len() ==> (#[trigger] final(loads)@[j]).same_as(
                        &old(loads)@[j],
                    )
            },
            r is Ok ==> {
                &&& finalize_error(old(self)) is None
                &&& final(self).status == ReconciliationStatus::Finalized
                &&& final(self).items@ == old(self).items@
                &&& final(self).totals == totals_of(old(self).items@)
                &&& final(self).totals.net_profit == lines_total(old(self).items@, 5) - lines_total(
                    old(self).items@,
                    6,
                )
                &&& final(self).finalized_by == Some(actor)
                &&& final(self).reconciliation_date == old(self).reconciliation_date
                &&& final(self).id == old(self).id
                &&& forall|j: int|
                    0 <= j < old(loads)@.len() ==> (touched_load(old(self).items@, old(loads)@, j)
                        ==> fully_returned(#[trigger] final(loads)@[j], old(loads)@[j])) && (!touched_load(
                        old(self).items@,
                        old(loads)@,
                        j,
                    ) ==> final(loads)@[j].same_as(&old(loads)@[j]))
            },
            finalize_error(old(self)) is None ==> match apply_postings(
                old(inv).batches@,
                finalize_postings(old(self).items@, old(loads)@),
                StockMovementType::TruckReturnIn,
            ) {
                Err(e) => r == Err::<(), AppError>(e),
                Ok(after) => r is Ok && final(inv).batches@ == after && final(inv).movements@ == old(
                    inv,
                ).movements@ + posting_records(
                    old(inv).batches@,
                    finalize_postings(old(self).items@, old(loads)@),
                    old(inv).movements@.len() as int,
                    StockMovementType::TruckReturnIn,
                    day_ctx(old(self).id, old(self).reconciliation_date, ctx),
                ),
            },
    {
        let ctx = day_context(self.id, self.reconciliation_date, ctx);
        match self.status {
            ReconciliationStatus::InProgress => {},
            ReconciliationStatus::Finalized => {
                return Err(AppError::Conflict);
            },
        }
        if self.trucks_verified < self.trucks_out {
            return Err(AppError::Validation);
        }
        let mut postings: Vec<(u64, i64)> = Vec::new();
        let mut touched: Vec<usize> = Vec::new();
        let mut k: usize = 0;
        while k < self.items.len()
            invariant
                forall|j: int| 0 <= j < loads@.len() ==> (#[trigger] loads@[j]).wf(),
                forall|q: int| 0 <= q < touched@.len() ==> #[trigger] touched@[q] < loads@.len(),
                forall|q: int| 0 <= q < touched@.len() ==> touched_load(self.items@, loads@, #[trigger] touched@[q] as int),
                forall|x: int|
                    0 <= x < k && (#[trigger] self.items@[x]).items_returned > 0 && find_load(loads@, self.items@[x].truck_load_id) >= 0
                        ==> exists|q: int| 0 <= q < touched@.len() && touched@[q] as int == find_load(loads@, self.items@[x].truck_load_id),
                k <= self.items@.len(),
                postings@ == finalize_postings(self.items@.take(k as int), loads@),
            decreases self.items@.len() - k,
        {
            let it = self.items[k];
            proof {
                assert(self.items@.take(k + 1).drop_last() =~= self.items@.take(k as int));
                assert(self.items@.take(k + 1).last() == it);
            }
            if it.items_returned > 0 {
                let mut j: usize = 0;
                let mut found = false;
                while j < loads.len() && !found
                    invariant
                        j <= loads@.len(),
                        found ==> j < loads@.len() && loads@[j as int].id == it.truck_load_id,
                        forall|i: int| 0 <= i < j ==> (#[trigger] loads@[i]).id != it.truck_load_id,
                    decreases loads@.len() - j + if found {
                        0int
                    } else {
                        1int
                    },
                {
                    if loads[j].id == it.truck_load_id {
                        found = true;
                    } else {
                        j = j + 1;
                    }
                }
                proof {
                    lemma_find_load(loads@, it.truck_load_id);
                    if found {
                        let r = find_load(loads@, it.truck_load_id);
                        if r != j {
                            if r < j {
                                assert(loads@[r].id != it.truck_load_id);
                            }
                        }
                    }
                }
                if found {
                    proof {
                        assert(loads@[j as int].wf());
                    }
                    let back = loads[j].remaining_on_truck();
                    let ghost base = postings@;
                    let mut b: usize = 0;
                    while b < back.len()
                        invariant
                            b <= back@.len(),
                            postings@ == base + back@.take(b as int),
                        decreases back@.len() - b,
                    {
                        postings.push(back[b]);
                        proof {
                            assert(back@.take(b + 1) =~= back@.take(b as int).push(back@[b as int]));
                            assert(base + back@.take(b + 1) =~= (base + back@.take(b as int)).push(back@[b as int]));
                        }
                        b = b + 1;
                    }
                    proof {
                        assert(back@.take(b as int) =~= back@);
                    }
                    let ghost old_t = touched@;
                    touched.push(j);
                    proof {
                        assert(touched_load(self.items@, loads@, j as int)) by {
                            assert(self.items@[k as int].items_returned > 0);
                        }
                        assert forall|q: int| 0 <= q < touched@.len() implies touched_load(self.items@, loads@, #[trigger] touched@[q] as int) by {
                            if q < old_t.len() {
                                assert(touched@[q] == old_t[q]);
                            }
                        }
                        assert forall|x: int|
                            0 <= x < k + 1 && (#[trigger] self.items@[x]).items_returned > 0 && find_load(loads@, self.items@[x].truck_load_id) >= 0
                                implies exists|q: int| 0 <= q < touched@.len() && touched@[q] as int == find_load(loads@, self.items@[x].truck_load_id) by {
                            if x < k {
                                let q = choose|q: int| 0 <= q < old_t.len() && old_t[q] as int == find_load(loads@, self.items@[x].truck_load_id);
                                assert(touched@[q] == old_t[q]);
                            } else {
                                assert(touched@[old_t.len() as int] == j);
                            }
                        }
                    }
                } else {
                    proof {
                        assert(postings@ + Seq::<(u64, i64)>::empty() =~= postings@);
                    }
                }
            } else {
                proof {
                    assert(postings@ + Seq::<(u64, i64)>::empty() =~= postings@);
                }
            }
            k = k + 1;
        }
        proof {
            assert(self.items@.take(k as int) =~= self.items@);
        }
        match inv.post_all(&postings, StockMovementType::TruckReturnIn, ctx) {
            Ok(()) => {},
            Err(e) => {
                proof {
                    assert forall|j: int| 0 <= j < old(loads)@.len() implies (#[trigger] loads@[j]).same_as(
                        &old(loads)@[j],
                    ) by {}
                }
                return Err(e);
            },
        }
        let ghost loads0 = loads@;
        let mut j: usize = 0;
        while j < loads.len()
            invariant
                loads0 == old(loads)@,
                forall|i: int| 0 <= i < loads@.len() ==> (#[trigger] loads@[i]).wf(),
                loads@.len() == old(loads)@.len(),
                j <= loads@.len(),
                forall|x: int|
                    0 <= x < j ==> (touched_load(old(self).items@, loads0, x) ==> fully_returned(
                        #[trigger] loads@[x],
                        loads0[x],
                    )) && (!touched_load(old(self).items@, loads0, x) ==> loads@[x].same_as(&loads0[x])),
                forall|x: int| j <= x < loads@.len() ==> #[trigger] loads@[x] == loads0[x],
            decreases loads@.len() - j,
        {
            let mut hit = false;
            let mut q: usize = 0;
            while q < touched.len()
                invariant
                    q <= touched@.len(),
                    hit <==> exists|y: int| 0 <= y < q && touched@[y] == j,
                decreases touched@.len() - q,
            {
                if touched[q] == j {
                    hit = true;
                }
                q = q + 1;
            }
            proof {
                if hit {
                    let y = choose|y: int| 0 <= y < touched@.len() && touched@[y] == j;
                    assert(touched_load(self.items@, old(loads)@, touched@[y] as int));
                } else if touched_load(old(self).items@, loads0, j as int) {
                    let x = choose|x: int|
                        0 <= x < self.items@.len() && (#[trigger] self.items@[x]).items_returned > 0
                            && find_load(loads0, self.items@[x].truck_load_id) == j;
                    let y = choose|y: int| 0 <= y < touched@.len() && touched@[y] as int == find_load(loads0, self.items@[x].truck_load_id);
                    assert(touched@[y] == j);
                }
            }
            if hit {
                let mut l = loads.remove(j);
                proof {
                    assert(l.wf());
                }
                l.mark_all_returned();
                let ghost before = loads@;
                loads.insert(j, l);
                proof {
                    assert forall|i: int| 0 <= i < loads@.len() implies (#[trigger] loads@[i]).wf() by {
                        if i < j {
                            assert(loads@[i] == before[i]);
                        } else if i > j {
                            assert(loads@[i] == before[i - 1]);
                        }
                    }
                    assert forall|x: int| 0 <= x < j + 1 implies (touched_load(old(self).items@, loads0, x) ==> fully_returned(
                        #[trigger] loads@[x],
                        loads0[x],
                    )) && (!touched_load(old(self).items@, loads0, x) ==> loads@[x].same_as(&loads0[x])) by {
                        if x < j {
                            assert(loads@[x] == before[x]);
                        }
                    }
                    assert forall|x: int| j + 1 <= x < loads@.len() implies #[trigger] loads@[x] == loads0[x] by {
                        assert(loads@[x] == before[x - 1]);
                    }
                }
            }
            j = j + 1;
        }
        proof {
            lemma_lines_total_bounds(self.items@);
        }
        let totals = compute_totals(&self.items);
        self.totals = totals;
        self.status = ReconciliationStatus::Finalized;
        self.finalized_by = Some(actor);
        Ok(())
    }
}

/// A finalized day refuses a second finalization with a conflict; since a
/// refused finalization changes nothing, finalizing twice leaves the day as
/// the first finalization left it.
pub proof fn lemma_finalize_terminal(rec: &DailyReconciliation)
    requires
        rec.status == ReconciliationStatus::Finalized,
    ensures
        finalize_error(rec) == Some(AppError::Conflict),
{
}

proof fn lemma_snapshot_sound(
    load: TruckLoad,
    sales: Seq<Sale>,
    allowances: Seq<TransportAllowance>,
    date: i32,
)
    requires
        load.wf(),
        sales_sound(sales),
        allowances_sound(allowances),
        snapshot_fits(load, sales, allowances, date),
    ensures
        line_sound(snapshot(load, sales, allowances, date)),
{
    crate::truck_load::lemma_totals_bounded(load.items@);
    lemma_sales_sum_bounds(sales, load.truck_id, date);
    lemma_allowance_for_bounds(allowances, date, load.truck_id);
    assert(sales_sum(sales, load.truck_id, date, 0) >= 0);
    assert(sales_sum(sales, load.truck_id, date, 1) <= i64::MAX);
    assert(sales_sum(sales, load.truck_id, date, 2) >= 0);
    assert(sales_sum(sales, load.truck_id, date, 3) >= 0);
}

/// At most one allowance per day.
pub open spec fn allowances_unique(a: Seq<TransportAllowance>) -> bool {
    forall|i: int, j: int|
        0 <= i < j < a.len() ==> (#[trigger] a[i]).allowance_date != (#[trigger] a[j]).allowance_date
}

fn check_loads_unique(loads: &Vec<TruckLoad>) -> (r: bool)
    ensures
        r == loads_unique(loads@),
{
    let mut j: usize = 0;
    while j < loads.len()
        invariant
            j <= loads@.len(),
            forall|a: int, c: int|
                0 <= a < c < loads@.len() && a < j ==> !((#[trigger] loads@[a]).truck_id == (
                #[trigger] loads@[c]).truck_id && loads@[a].load_date == loads@[c].load_date),
        decreases loads@.len() - j,
    {
        let mut c: usize = j + 1;
        while c < loads.len()
            invariant
                j < loads@.len(),
                j + 1 <= c <= loads@.len(),
                forall|x: int| j < x < c ==> !(loads@[j as int].truck_id == (#[trigger] loads@[x]).truck_id
                    && loads@[j as int].load_date == loads@[x].load_date),
            decreases loads@.len() - c,
        {
            if loads[j].truck_id == loads[c].truck_id && loads[j].load_date == loads[c].load_date {
                return false;
            }
            c = c + 1;
        }
        j = j + 1;
    }
    true
}

fn check_allowances_unique(a: &Vec<TransportAllowance>) -> (r: bool)
    ensures
        r == allowances_unique(a@),
{
    let mut j: usize = 0;
    while j < a.len()
        invariant
            j <= a@.len(),
            forall|x: int, c: int|
                0 <= x < c < a@.len() && x < j ==> (#[trigger] a@[x]).allowance_date != (
                #[trigger] a@[c]).allowance_date,
        decreases a@.len() - j,
    {
        let mut c: usize = j + 1;
        while c < a.len()
            invariant
                j < a@.len(),
                j + 1 <= c <= a@.len(),
                forall|x: int| j < x < c ==> a@[j as int].allowance_date != (#[trigger] a@[x]).allowance_date,
            decreases a@.len() - c,
        {
            if a[j].allowance_date == a[c].allowance_date {
                return false;
            }
            c = c + 1;
        }
        j = j + 1;
    }
    true
}

impl ReconciliationBook {
    pub open spec fn wf(&self) -> bool {
        let r = self.reconciliations@;
        &&& forall|i: int| 0 <= i < r.len() ==> (#[trigger] r[i]).wf()
        &&& forall|i: int, j: int|
            0 <= i < j < r.len() ==> (#[trigger] r[i]).reconciliation_date != (
            #[trigger] r[j]).reconciliation_date
    }

    pub open spec fn has_date(&self, date: i32) -> bool {
        exists|i: int|
            0 <= i < self.reconciliations@.len() && (#[trigger] self.reconciliations@[i]).reconciliation_date == date
    }

    pub fn new() -> (r: ReconciliationBook)
        ensures
            r.wf(),
            r.reconciliations@.len() == 0,
    {
        ReconciliationBook { reconciliations: Vec::new() }
    }

    /// The position of the day's reconciliation, if there is one.
    pub fn find(&self, date: i32) -> (r: Option<usize>)
        requires
            self.wf(),
        ensures
            r is None <==> !self.has_date(date),
            r is Some ==> r->Some_0 < self.reconciliations@.len()
                && self.reconciliations@[r->Some_0 as int].reconciliation_date == date,
    {
        let mut i: usize = 0;
        while i < self.reconciliations.len()
            invariant
                i <= self.reconciliations@.len(),
                forall|j: int| 0 <= j < i ==> (#[trigger] self.reconciliations@[j]).reconciliation_date != date,
            decreases self.reconciliations@.len() - i,
        {
            if self.reconciliations[i].reconciliation_date == date {
                return Some(i);
            }
            i = i + 1;
        }
        None
    }

    /// Starts the reconciliation of day `date`: one line per truck that had a
    /// load that day, with its figures for the day, nothing verified yet.
    #[verifier::loop_isolation(false)]
    pub fn start(
        &mut self,
        id: u64,
        date: i32,
        started_by: u64,
        loads: &Vec<TruckLoad>,
        sales: &Vec<Sale>,
        allowances: &Vec<TransportAllowance>,
    ) -> (r: Result<(), AppError>)
        requires
            old(self).wf(),
            forall|j: int| 0 <= j < loads@.len() ==> (#[trigger] loads@[j]).wf(),
            sales_sound(sales@),
            allowances_sound(allowances@),
        ensures
            final(self).wf(),
            old(self).has_date(date) || !loads_unique(loads@) || !allowances_unique(allowances@) ==> r
                == Err::<(), AppError>(AppError::Conflict),
            !old(self).has_date(date) && loads_unique(loads@) && allowances_unique(allowances@)
                && !day_fits(loads@, sales@, allowances@, date) ==> r == Err::<(), AppError>(
                AppError::Validation,
            ),
            !old(self).has_date(date) && loads_unique(loads@) && allowances_unique(allowances@)
                && day_fits(loads@, sales@, allowances@, date) ==> r is Ok,
            r is Err ==> final(self).reconciliations@ == old(self).reconciliations@,
            r is Ok ==> {
                let n = old(self).reconciliations@.len();
                let rec = final(self).reconciliations@[n as int];
                &&& final(self).reconciliations@.len() == n + 1
                &&& final(self).reconciliations@.take(n as int) == old(self).reconciliations@
                &&& rec.id == id && rec.reconciliation_date == date && rec.started_by == started_by
                &&& rec.status == ReconciliationStatus::InProgress
                &&& rec.items@ == day_items(loads@, sales@, allowances@, date)
                &&& rec.trucks_out == rec.items@.len()
                &&& rec.trucks_verified == 0
                &&& rec.finalized_by is None
                &&& rec.totals == zero_totals()
            },
    {
        if self.find(date).is_some() || !check_loads_unique(loads) || !check_allowances_unique(
            allowances,
        ) {
            return Err(AppError::Conflict);
        }
        let mut items: Vec<ReconciliationItem> = Vec::new();
        let mut k: usize = 0;
        while k < loads.len()
            invariant
                k <= loads@.len(),
                forall|j: int| 0 <= j < loads@.len() ==> (#[trigger] loads@[j]).wf(),
                loads_unique(loads@),
                sales_sound(sales@),
                allowances_sound(allowances@),
                day_fits(loads@.take(k as int), sales@, allowances@, date),
                items@ == day_items(loads@.take(k as int), sales@, allowances@, date),
                verified_count(items@) == 0,
                forall|q: int| 0 <= q < items@.len() ==> line_sound(#[trigger] items@[q]),
                forall|q: int| 0 <= q < items@.len() ==> exists|i: int|
                    0 <= i < k && (#[trigger] loads@[i]).load_date == date && loads@[i].truck_id == (
                    #[trigger] items@[q]).truck_id,
                forall|a: int, c: int|
                    0 <= a < c < items@.len() ==> (#[trigger] items@[a]).truck_id != (
                    #[trigger] items@[c]).truck_id,
            decreases loads@.len() - k,
        {
            let load = &loads[k];
            proof {
                assert(loads@.take(k + 1).drop_last() =~= loads@.take(k as int));
                assert(loads@.take(k + 1).last() == loads@[k as int]);
                assert(load.wf());
            }
            if load.load_date == date {
                let line = match make_snapshot(load, sales, allowances, date) {
                    Ok(line) => line,
                    Err(e) => {
                        proof {
                            if day_fits(loads@, sales@, allowances@, date) {
                                assert(snapshot_fits(loads@[k as int], sales@, allowances@, date));
                            }
                        }
                        return Err(e);
                    },
                };
                let ghost before = items@;
                items.push(line);
                proof {
                    lemma_snapshot_sound(*load, sales@, allowances@, date);
                    assert(items@.drop_last() =~= before);
                    assert forall|q: int| 0 <= q < items@.len() implies exists|i: int|
                        0 <= i < k + 1 && (#[trigger] loads@[i]).load_date == date && loads@[i].truck_id
                            == (#[trigger] items@[q]).truck_id by {
                        if q < before.len() {
                            assert(items@[q] == before[q]);
                        } else {
                            assert(loads@[k as int].truck_id == items@[q].truck_id);
                        }
                    }
                    assert forall|a: int, c: int|
                        0 <= a < c < items@.len() implies (#[trigger] items@[a]).truck_id != (
                        #[trigger] items@[c]).truck_id by {
                        if c == before.len() {
                            assert(items@[a] == before[a]);
                            let i = choose|i: int|
                                0 <= i < k && (#[trigger] loads@[i]).load_date == date
                                    && loads@[i].truck_id == before[a].truck_id;
                            assert(loads@[i].truck_id != loads@[k as int].truck_id);
                        } else {
                            assert(items@[a] == before[a]);
                            assert(items@[c] == before[c]);
                        }
                    }
                    assert forall|i: int|
                        0 <= i < loads@.take(k + 1).len() && (#[trigger] loads@.take(k + 1)[i]).load_date
                            == date implies snapshot_fits(loads@.take(k + 1)[i], sales@, allowances@, date) by {
                        if i < k {
                            assert(loads@.take(k + 1)[i] == loads@.take(k as int)[i]);
                        }
                    }
                }
            } else {
                proof {
                    assert forall|q: int| 0 <= q < items@.len() implies exists|i: int|
                        0 <= i < k + 1 && (#[trigger] loads@[i]).load_date == date && loads@[i].truck_id
                            == (#[trigger] items@[q]).truck_id by {
                        let i = choose|i: int|
                            0 <= i < k && (#[trigger] loads@[i]).load_date == date && loads@[i].truck_id
                                == items@[q].truck_id;
                    }
                    assert forall|i: int|
                        0 <= i < loads@.take(k + 1).len() && (#[trigger] loads@.take(k + 1)[i]).load_date
                            == date implies snapshot_fits(loads@.take(k + 1)[i], sales@, allowances@, date) by {
                        assert(loads@.take(k + 1)[i] == loads@.take(k as int)[i]);
                    }
                }
            }
            k = k + 1;
        }
        proof {
            assert(loads@.take(k as int) =~= loads@);
        }
        let n = items.len() as u64;
        let rec = DailyReconciliation {
            id,
            reconciliation_date: date,
            status: ReconciliationStatus::InProgress,
            trucks_out: n,
            trucks_verified: 0,
            started_by,
            finalized_by: None,
            items,
            totals: ReconciliationTotals {
                total_items_loaded: 0,
                total_items_sold: 0,
                total_items_returned: 0,
                total_items_discarded: 0,
                total_sales_amount: 0,
                total_commission_earned: 0,
                total_allowance_allocated: 0,
                total_payments_collected: 0,
                pending_payments: 0,
                net_profit: 0,
            },
        };
        let ghost old_recs = self.reconciliations@;
        self.reconciliations.push(rec);
        proof {
            let r = self.reconciliations@;
            assert(r.take(old_recs.len() as int) =~= old_recs);
            assert forall|i: int| 0 <= i < r.len() implies (#[trigger] r[i]).wf() by {
                if i < old_recs.len() {
                    assert(r[i] == old_recs[i]);
                }
            }
            assert forall|i: int, j: int|
                0 <= i < j < r.len() implies (#[trigger] r[i]).reconciliation_date != (
                #[trigger] r[j]).reconciliation_date by {
                assert(r[i] == old_recs[i]);
                if j < old_recs.len() {
                    assert(r[j] == old_recs[j]);
                }
            }
        }
        Ok(())
    }

    /// The position of the day's reconciliation, where `has_date` holds.
    pub open spec fn date_pos(&self, date: i32) -> int {
        choose|i: int|
            0 <= i < self.reconciliations@.len() && (#[trigger] self.reconciliations@[i]).reconciliation_date == date
    }

    proof fn lemma_find_pos(&self, date: i32, i: int)
        requires
            self.wf(),
            0 <= i < self.reconciliations@.len(),
            self.reconciliations@[i].reconciliation_date == date,
        ensures
            self.has_date(date),
            self.date_pos(date) == i,
    {
        let p = self.date_pos(date);
        if p != i {
            if p < i {
                assert(self.reconciliations@[p].reconciliation_date != self.reconciliations@[i].reconciliation_date);
            } else {
                assert(self.reconciliations@[i].reconciliation_date != self.reconciliations@[p].reconciliation_date);
            }
        }
    }

    /// Verifies the return of truck `truck_id` on day `date`.
    pub fn verify_return(
        &mut self,
        date: i32,
        truck_id: u64,
        req: &VerifyTruckReturnRequest,
        verifier: u64,
    ) -> (r: Result<(), AppError>)
        requires
            old(self).wf(),
        ensures
            final(self).wf(),
            final(self).reconciliations@.len() == old(self).reconciliations@.len(),
            !old(self).has_date(date) ==> r == Err::<(), AppError>(AppError::NotFound)
                && final(self).reconciliations@ == old(self).reconciliations@,
            old(self).has_date(date) ==> {
                let pos = old(self).date_pos(date);
                let before = &old(self).reconciliations@[pos];
                let after = &final(self).reconciliations@[pos];
                &&& forall|i: int|
                    0 <= i < old(self).reconciliations@.len() && i != pos ==> #[trigger] final(self).reconciliations@[i] == old(self).reconciliations@[i]
                &&& match verify_error(before, truck_id, req) {
                    Some(e) => r == Err::<(), AppError>(e) && after.same_as(before),
                    None => r is Ok && exists|j: int|
                        0 <= j < before.items@.len() && (#[trigger] before.items@[j]).truck_id
                            == truck_id && after.items@ == before.items@.update(
                            j,
                            verified_line(
                                before.items@[j],
                                returned_total(req.items_returned@),
                                discarded_total(req.items_discarded@),
                                verifier,
                            ),
                        ) && after.status == before.status && after.totals == before.totals
                            && after.reconciliation_date == before.reconciliation_date,
                }
            },
    {
        let pos = match self.find(date) {
            Some(p) => p,
            None => {
                return Err(AppError::NotFound);
            },
        };
        proof {
            self.lemma_find_pos(date, pos as int);
        }
        let ghost old_recs = self.reconciliations@;
        let mut rec = self.reconciliations.remove(pos);
        proof {
            assert(rec == old_recs[pos as int]);
        }
        let r = rec.verify_truck(truck_id, req, verifier);
        self.reconciliations.insert(pos, rec);
        proof {
            let now = self.reconciliations@;
            assert forall|i: int| 0 <= i < now.len() && i != pos implies #[trigger] now[i] == old_recs[i] by {
                if i < pos {
                    assert(now[i] == old_recs[i]);
                } else {
                    assert(now[i] == old_recs[i]);
                }
            }
            assert forall|i: int| 0 <= i < now.len() implies (#[trigger] now[i]).wf() by {
                if i != pos {
                    assert(now[i] == old_recs[i]);
                }
            }
            assert forall|i: int, j: int|
                0 <= i < j < now.len() implies (#[trigger] now[i]).reconciliation_date != (
                #[trigger] now[j]).reconciliation_date by {
                assert(now[i].reconciliation_date == old_recs[i].reconciliation_date);
                assert(now[j].reconciliation_date == old_recs[j].reconciliation_date);
            }
        }
        r
    }

    /// Finalizes day `date`.
    pub fn finalize_day(
        &mut self,
        date: i32,
        inv: &mut Inventory,
        loads: &mut Vec<TruckLoad>,
        actor: u64,
        ctx: MovementContext,
    ) -> (r: Result<(), AppError>)
        requires
            old(self).wf(),
            old(inv).wf(),
            forall|j: int| 0 <= j < old(loads)@.len() ==> (#[trigger] old(loads)@[j]).wf(),
        ensures
            final(self).wf(),
            final(inv).wf(),
            forall|j: int| 0 <= j < final(loads)@.len() ==> (#[trigger] final(loads)@[j]).wf(),
            final(self).reconciliations@.len() == old(self).reconciliations@.len(),
            !old(self).has_date(date) ==> r == Err::<(), AppError>(AppError::NotFound),
            r is Err ==> {
                &&& final(self).reconciliations@.len() == old(self).reconciliations@.len()
                &&& forall|i: int|
                    0 <= i < old(self).reconciliations@.len() ==> (#[trigger] final(self).reconciliations@[i]).same_as(&old(self).reconciliations@[i])
                &&& final(inv).batches@ == old(inv).batches@
                &&& final(inv).movements@ == old(inv).movements@
            },
            old(self).has_date(date) ==> {
                let pos = old(self).date_pos(date);
                let before = &old(self).reconciliations@[pos];
                let after = &final(self).reconciliations@[pos];
                &&& forall|i: int|
                    0 <= i < old(self).reconciliations@.len() && i != pos ==> #[trigger] final(self).reconciliations@[i] == old(self).reconciliations@[i]
                &&& finalize_error(before) is Some ==> r == Err::<(), AppError>(
                    finalize_error(before)->Some_0,
                )
                &&& after.reconciliation_date == date && after.id == before.id
                &&& finalize_error(before) is None ==> match apply_postings(
                    old(inv).batches@,
                    finalize_postings(before.items@, old(loads)@),
                    StockMovementType::TruckReturnIn,
                ) {
                    Err(e) => r == Err::<(), AppError>(e),
                    Ok(after_bs) => r is Ok && final(inv).batches@ == after_bs && final(inv).movements@
                        == old(inv).movements@ + posting_records(
                        old(inv).batches@,
                        finalize_postings(before.items@, old(loads)@),
                        old(inv).movements@.len() as int,
                        StockMovementType::TruckReturnIn,
                        day_ctx(before.id, date, ctx),
                    ),
                }
                &&& r is Ok ==> {
                    &&& after.status == ReconciliationStatus::Finalized
                    &&& forall|j: int|
                        0 <= j < old(loads)@.len() ==> (touched_load(before.items@, old(loads)@, j)
                            ==> fully_returned(#[trigger] final(loads)@[j], old(loads)@[j])) && (!touched_load(
                            before.items@,
                            old(loads)@,
                            j,
                        ) ==> final(loads)@[j].same_as(&old(loads)@[j]))
                    &&& after.items@ == before.items@
                    &&& after.totals == totals_of(before.items@)
                    &&& after.totals.net_profit == lines_total(before.items@, 5) - lines_total(
                        before.items@,
                        6,
                    )
                    &&& after.finalized_by == Some(actor)
                }
            },
    {
        let pos = match self.find(date) {
            Some(p) => p,
            None => {
                return Err(AppError::NotFound);
            },
        };
        proof {
            self.lemma_find_pos(date, pos as int);
        }
        let ghost old_recs = self.reconciliations@;
        let mut rec = self.reconciliations.remove(pos);
        proof {
            assert(rec == old_recs[pos as int]);
        }
        let r = rec.finalize(inv, loads, actor, ctx);
        self.reconciliations.insert(pos, rec);
        proof {
            let now = self.reconciliations@;
            assert forall|i: int| 0 <= i < now.len() && i != pos implies #[trigger] now[i] == old_recs[i] by {
                if i < pos {
                    assert(now[i] == old_recs[i]);
                } else {
                    assert(now[i] == old_recs[i]);
                }
            }
            assert forall|i: int| 0 <= i < now.len() implies (#[trigger] now[i]).wf() by {
                if i != pos {
                    assert(now[i] == old_recs[i]);
                }
            }
            assert forall|i: int, j: int|
                0 <= i < j < now.len() implies (#[trigger] now[i]).reconciliation_date != (
                #[trigger] now[j]).reconciliation_date by {
                assert(now[i].reconciliation_date == old_recs[i].reconciliation_date);
                assert(now[j].reconciliation_date == old_recs[j].reconciliation_date);
            }
            if r is Err {
                assert forall|i: int| 0 <= i < old_recs.len() implies (#[trigger] now[i]).same_as(&old_recs[i]) by {
                    if i != pos {
                        assert(now[i] == old_recs[i]);
                    }
                }
            }
        }
        r
    }
}
} // verus!
