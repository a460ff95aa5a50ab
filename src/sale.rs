use vstd::prelude::*;
use crate::error::AppError;
use crate::fifo::{all_nonneg, is_fifo_plan, lemma_stock_before_nonneg, plan_total, Allocation};
use crate::truck_load::{item_ok, sell_outcome, truck_lots, LoadStatus, TruckLoad, TruckLoadItem};

verus! {

#[derive(Debug, Clone, Copy, PartialEq, Eq, Structural)]
pub enum PaymentStatus {
    Paid,
    Pending,
}

/// One requested line of a sale. Money is in the smallest currency unit.
#[derive(Debug, Clone, Copy, PartialEq, Eq, Structural)]
pub struct SaleLine {
    pub product_id: u64,
    pub quantity: i64,
    pub unit_price: i64,
    pub commission_per_unit: i64,
}

/// A recorded line of a sale, with its price and commission fixed at sale time.
#[derive(Debug, Clone, Copy, PartialEq, Eq, Structural)]
pub struct SaleItem {
    pub product_id: u64,
    pub batch_id: u64,
    pub quantity: i64,
    pub unit_price: i64,
    pub commission_earned: i64,
    pub line_total: i64,
}

#[derive(Debug)]
pub struct Sale {
    pub id: u64,
    pub shop_id: u64,
    pub truck_id: u64,
    pub truck_load_id: u64,
    pub seller_id: u64,
    pub sale_date: i32,
    pub total_amount: i64,
    pub amount_paid: i64,
    pub payment_status: PaymentStatus,
    pub total_quantity: i64,
    pub total_commission: i64,
    pub items: Vec<SaleItem>,
}

/// The totals of a priced sale.
#[derive(Debug, Clone, Copy, PartialEq, Eq, Structural)]
pub struct SaleTotals {
    pub total_amount: i64,
    pub total_quantity: i64,
    pub total_commission: i64,
    pub amount_paid: i64,
    pub payment_status: PaymentStatus,
}

pub open spec fn status_for(total: int, paid: int) -> PaymentStatus {
    if paid >= total {
        PaymentStatus::Paid
    } else {
        PaymentStatus::Pending
    }
}

/// A sale is paid exactly when what was paid covers its total.
pub fn payment_status_for(total: i64, paid: i64) -> (r: PaymentStatus)
    ensures
        r == status_for(total as int, paid as int),
{
    if paid >= total {
        PaymentStatus::Paid
    } else {
        PaymentStatus::Pending
    }
}

pub open spec fn lines_amount(s: Seq<SaleLine>) -> int
    decreases s.len(),
{
    if s.len() == 0 {
        0
    } else {
        lines_amount(s.drop_last()) + s.last().quantity * s.last().unit_price
    }
}

pub open spec fn lines_quantity(s: Seq<SaleLine>) -> int
    decreases s.len(),
{
    if s.len() == 0 {
        0
    } else {
        lines_quantity(s.drop_last()) + s.last().quantity
    }
}

/// Commission is always quantity times the fixed per-unit rate, whatever the price.
pub open spec fn lines_commission(s: Seq<SaleLine>) -> int
    decreases s.len(),
{
    if s.len() == 0 {
        0
    } else {
        lines_commission(s.drop_last()) + s.last().quantity * s.last().commission_per_unit
    }
}

pub open spec fn line_ok(l: SaleLine) -> bool {
    l.quantity > 0 && l.unit_price >= 0 && l.commission_per_unit >= 0
}

/// The sale request is acceptable: lines present and sound, sums that fit,
/// and a payment between zero and the total.
pub open spec fn sale_ok(s: Seq<SaleLine>, paid: int) -> bool {
    &&& s.len() > 0
    &&& forall|k: int| 0 <= k < s.len() ==> line_ok(#[trigger] s[k])
    &&& lines_amount(s) <= i64::MAX
    &&& lines_quantity(s) <= i64::MAX
    &&& lines_commission(s) <= i64::MAX
    &&& 0 <= paid <= lines_amount(s)
}

proof fn lemma_lines_push(s: Seq<SaleLine>, l: SaleLine)
    ensures
        lines_amount(s.push(l)) == lines_amount(s) + l.quantity * l.unit_price,
        lines_quantity(s.push(l)) == lines_quantity(s) + l.quantity,
        lines_commission(s.push(l)) == lines_commission(s) + l.quantity * l.commission_per_unit,
{
    assert(s.push(l).drop_last() =~= s);
}

proof fn lemma_terms_nonneg(l: SaleLine)
    requires
        line_ok(l),
    ensures
        l.quantity * l.unit_price >= 0,
        l.quantity * l.commission_per_unit >= 0,
{
    assert(l.quantity * l.unit_price >= 0) by (nonlinear_arith)
        requires
            l.quantity > 0,
            l.unit_price >= 0,
    ;
    assert(l.quantity * l.commission_per_unit >= 0) by (nonlinear_arith)
        requires
            l.quantity > 0,
            l.commission_per_unit >= 0,
    ;
}

proof fn lemma_lines_nonneg(s: Seq<SaleLine>)
    requires
        forall|j: int| 0 <= j < s.len() ==> line_ok(#[trigger] s[j]),
    ensures
        0 <= lines_amount(s),
        0 <= lines_quantity(s),
        0 <= lines_commission(s),
    decreases s.len(),
{
    if s.len() > 0 {
        assert(line_ok(s[s.len() - 1]));
        lemma_terms_nonneg(s.last());
        lemma_lines_nonneg(s.drop_last());
    }
}

/// With sound lines, each sum only grows along the lines.
proof fn lemma_lines_monotone(s: Seq<SaleLine>, k: int)
    requires
        0 <= k <= s.len(),
        forall|j: int| 0 <= j < s.len() ==> line_ok(#[trigger] s[j]),
    ensures
        0 <= lines_amount(s.take(k)) <= lines_amount(s),
        0 <= lines_quantity(s.take(k)) <= lines_quantity(s),
        0 <= lines_commission(s.take(k)) <= lines_commission(s),
    decreases s.len() - k,
{
    assert forall|j: int| 0 <= j < s.take(k).len() implies line_ok(#[trigger] s.take(k)[j]) by {
        assert(s.take(k)[j] == s[j]);
    }
    lemma_lines_nonneg(s.take(k));
    if k < s.len() {
        lemma_lines_monotone(s, k + 1);
        assert(s.take(k + 1) =~= s.take(k).push(s[k]));
        lemma_lines_push(s.take(k), s[k]);
        assert(line_ok(s[k]));
        lemma_terms_nonneg(s[k]);
    } else {
        assert(s.take(k) =~= s);
    }
}

/// Prices a sale: the total is the sum of quantity times unit price, the
/// commission the sum of quantity times rate; paid when the payment covers
/// the total.
pub fn price_sale(lines: &Vec<SaleLine>, amount_paid: i64) -> (r: Result<SaleTotals, AppError>)
    ensures
        sale_ok(lines@, amount_paid as int) <==> r is Ok,
        !sale_ok(lines@, amount_paid as int) ==> r == Err::<SaleTotals, AppError>(
            AppError::Validation,
        ),
        r is Ok ==> r->Ok_0 == (SaleTotals {
            total_amount: lines_amount(lines@) as i64,
            total_quantity: lines_quantity(lines@) as i64,
            total_commission: lines_commission(lines@) as i64,
            amount_paid,
            payment_status: status_for(lines_amount(lines@), amount_paid as int),
        }),
{
    if lines.len() == 0 {
        return Err(AppError::Validation);
    }
    let mut k: usize = 0;
    while k < lines.len()
        invariant
            k <= lines@.len(),
            forall|j: int| 0 <= j < k ==> line_ok(#[trigger] lines@[j]),
        decreases lines@.len() - k,
    {
        let l = lines[k];
        if !(l.quantity > 0 && l.unit_price >= 0 && l.commission_per_unit >= 0) {
            return Err(AppError::Validation);
        }
        k = k + 1;
    }
    let mut amount: i128 = 0;
    let mut quantity: i128 = 0;
    let mut commission: i128 = 0;
    let mut k: usize = 0;
    while k < lines.len()
        invariant
            k <= lines@.len(),
            forall|j: int| 0 <= j < lines@.len() ==> line_ok(#[trigger] lines@[j]),
            amount == lines_amount(lines@.take(k as int)),
            quantity == lines_quantity(lines@.take(k as int)),
            commission == lines_commission(lines@.take(k as int)),
            amount <= i64::MAX,
            quantity <= i64::MAX,
            commission <= i64::MAX,
        decreases lines@.len() - k,
    {
        let l = lines[k];
        proof {
            assert(lines@.take(k + 1) =~= lines@.take(k as int).push(l));
            lemma_lines_push(lines@.take(k as int), l);
            lemma_lines_monotone(lines@, k as int);
            lemma_lines_monotone(lines@, k + 1);
            assert(line_ok(l));
            assert(0 <= l.quantity * l.unit_price <= i64::MAX * i64::MAX) by (nonlinear_arith)
                requires
                    0 < l.quantity <= i64::MAX,
                    0 <= l.unit_price <= i64::MAX,
            ;
            assert(0 <= l.quantity * l.commission_per_unit <= i64::MAX * i64::MAX) by (
            nonlinear_arith)
                requires
                    0 < l.quantity <= i64::MAX,
                    0 <= l.commission_per_unit <= i64::MAX,
            ;
        }
        amount = amount + l.quantity as i128 * l.unit_price as i128;
        quantity = quantity + l.quantity as i128;
        commission = commission + l.quantity as i128 * l.commission_per_unit as i128;
        if amount > i64::MAX as i128 || quantity > i64::MAX as i128 || commission > i64::MAX as i128 {
            return Err(AppError::Validation);
        }
        k = k + 1;
    }
    proof {
        assert(lines@.take(k as int) =~= lines@);
    }
    if amount_paid < 0 || amount_paid as i128 > amount {
        return Err(AppError::Validation);
    }
    let total = amount as i64;
    Ok(
        SaleTotals {
            total_amount: total,
            total_quantity: quantity as i64,
            total_commission: commission as i64,
            amount_paid,
            payment_status: payment_status_for(total, amount_paid),
        },
    )
}

impl Sale {
    pub open spec fn wf(&self) -> bool {
        &&& 0 <= self.amount_paid <= self.total_amount
        &&& self.payment_status == status_for(self.total_amount as int, self.amount_paid as int)
        &&& 0 <= self.total_quantity
        &&& 0 <= self.total_commission
    }

    /// Takes a further payment; the total paid may not exceed the sale's total.
    pub fn update_payment(&mut self, additional: i64) -> (r: Result<(), AppError>)
        requires
            old(self).wf(),
        ensures
            final(self).wf(),
            (additional > 0 && old(self).amount_paid + additional <= old(self).total_amount) <==> r is Ok,
            r is Err ==> r == Err::<(), AppError>(AppError::Validation) && *final(self) == *old(self),
            r is Ok ==> final(self).amount_paid == old(self).amount_paid + additional
                && final(self).payment_status == status_for(
                old(self).total_amount as int,
                old(self).amount_paid + additional,
            ),
            final(self).total_amount == old(self).total_amount,
            final(self).items@ == old(self).items@,
            final(self).id == old(self).id,
    {
        if additional <= 0 || additional > self.total_amount - self.amount_paid {
            return Err(AppError::Validation);
        }
        self.amount_paid = self.amount_paid + additional;
        self.payment_status = payment_status_for(self.total_amount, self.amount_paid);
        Ok(())
    }

    /// What is still owed on the sale.
    pub fn balance_due(&self) -> (r: i64)
        requires
            self.wf(),
        ensures
            r == self.total_amount - self.amount_paid,
            r >= 0,
    {
        self.total_amount - self.amount_paid
    }
}


/// The load's items after selling the lines in order, each drawn first
/// expiry first across the items, or the error of the first line the truck
/// cannot serve.
pub open spec fn sale_outcome(s: Seq<TruckLoadItem>, lines: Seq<SaleLine>) -> Result<
    Seq<TruckLoadItem>,
    AppError,
>
    decreases lines.len(),
{
    if lines.len() == 0 {
        Ok(s)
    } else {
        match sale_outcome(s, lines.drop_last()) {
            Err(e) => Err(e),
            Ok(cur) => sell_outcome(cur, lines.last().product_id, lines.last().quantity as int),
        }
    }
}

proof fn lemma_sale_outcome_stays(s: Seq<TruckLoadItem>, lines: Seq<SaleLine>, n: int, m: int, e: AppError)
    requires
        0 <= n <= m <= lines.len(),
        sale_outcome(s, lines.take(n)) == Err::<Seq<TruckLoadItem>, AppError>(e),
    ensures
        sale_outcome(s, lines.take(m)) == Err::<Seq<TruckLoadItem>, AppError>(e),
    decreases m - n,
{
    if m > n {
        lemma_sale_outcome_stays(s, lines, n, m - 1, e);
        assert(lines.take(m).drop_last() =~= lines.take(m - 1));
    }
}

/// The sale items that one line gives: one per batch its plan draws from,
/// with the quantity drawn, the line's price, and commission at the fixed rate.
pub open spec fn line_sale_items(cur: Seq<TruckLoadItem>, l: SaleLine, out: Seq<Allocation>) -> Seq<SaleItem> {
    Seq::new(
        out.len(),
        |j: int|
            SaleItem {
                product_id: l.product_id,
                batch_id: cur[out[j].batch_id as int].batch_id,
                quantity: out[j].quantity,
                unit_price: l.unit_price,
                commission_earned: (out[j].quantity * l.commission_per_unit) as i64,
                line_total: (out[j].quantity * l.unit_price) as i64,
            },
    )
}

/// The load's items when line `k` is sold.
pub open spec fn items_before_line(s: Seq<TruckLoadItem>, lines: Seq<SaleLine>, k: int) -> Seq<TruckLoadItem> {
    sale_outcome(s, lines.take(k))->Ok_0
}

/// `plans[k]` is the first-expiry-first plan of line `k` over what the truck
/// holds when that line is sold.
pub open spec fn sale_plans_ok(s: Seq<TruckLoadItem>, lines: Seq<SaleLine>, plans: Seq<Seq<Allocation>>, n: int) -> bool {
    &&& plans.len() == n
    &&& forall|k: int|
        0 <= k < n ==> is_fifo_plan(
            truck_lots(items_before_line(s, lines, k)),
            lines[k].product_id,
            lines[k].quantity as int,
            #[trigger] plans[k],
        )
}

/// The sale items of the first `n` lines, line after line.
pub open spec fn sale_items_upto(s: Seq<TruckLoadItem>, lines: Seq<SaleLine>, plans: Seq<Seq<Allocation>>, n: int) -> Seq<SaleItem>
    decreases n,
{
    if n <= 0 {
        Seq::empty()
    } else {
        sale_items_upto(s, lines, plans, n - 1) + line_sale_items(
            items_before_line(s, lines, n - 1),
            lines[n - 1],
            plans[n - 1],
        )
    }
}

pub open spec fn items_commission(s: Seq<SaleItem>) -> int
    decreases s.len(),
{
    if s.len() == 0 {
        0
    } else {
        items_commission(s.drop_last()) + s.last().commission_earned
    }
}

pub open spec fn items_line_total(s: Seq<SaleItem>) -> int
    decreases s.len(),
{
    if s.len() == 0 {
        0
    } else {
        items_line_total(s.drop_last()) + s.last().line_total
    }
}

proof fn lemma_items_sums_concat(a: Seq<SaleItem>, b: Seq<SaleItem>)
    ensures
        items_commission(a + b) == items_commission(a) + items_commission(b),
        items_line_total(a + b) == items_line_total(a) + items_line_total(b),
    decreases b.len(),
{
    if b.len() == 0 {
        assert(a + b =~= a);
    } else {
        assert((a + b).drop_last() =~= a + b.drop_last());
        lemma_items_sums_concat(a, b.drop_last());
    }
}

proof fn lemma_sale_items_upto_push(s: Seq<TruckLoadItem>, lines: Seq<SaleLine>, plans: Seq<Seq<Allocation>>, x: Seq<Allocation>, n: int)
    requires
        0 <= n <= plans.len(),
    ensures
        sale_items_upto(s, lines, plans.push(x), n) == sale_items_upto(s, lines, plans, n),
    decreases n,
{
    if n > 0 {
        lemma_sale_items_upto_push(s, lines, plans, x, n - 1);
        assert(plans.push(x)[n - 1] == plans[n - 1]);
    }
}

/// A line's sale items carry its units at its price and its rate.
proof fn lemma_line_items_sums(cur: Seq<TruckLoadItem>, l: SaleLine, out: Seq<Allocation>)
    requires
        line_ok(l),
        l.quantity * l.unit_price <= i64::MAX,
        l.quantity * l.commission_per_unit <= i64::MAX,
        forall|j: int| 0 <= j < out.len() ==> 0 < (#[trigger] out[j]).quantity <= l.quantity,
    ensures
        items_commission(line_sale_items(cur, l, out)) == plan_total(out) * l.commission_per_unit,
        items_line_total(line_sale_items(cur, l, out)) == plan_total(out) * l.unit_price,
    decreases out.len(),
{
    if out.len() > 0 {
        let d = out.drop_last();
        assert(line_sale_items(cur, l, out).drop_last() =~= line_sale_items(cur, l, d));
        assert forall|j: int| 0 <= j < d.len() implies 0 < (#[trigger] d[j]).quantity <= l.quantity by {
            assert(d[j] == out[j]);
        }
        lemma_line_items_sums(cur, l, d);
        let q = out.last().quantity as int;
        assert(0 < q <= l.quantity);
        let r = l.commission_per_unit as int;
        let pr = l.unit_price as int;
        assert(0 <= q * r <= l.quantity * r) by (nonlinear_arith)
            requires
                0 < q <= l.quantity,
                r >= 0,
        ;
        assert(0 <= q * pr <= l.quantity * pr) by (nonlinear_arith)
            requires
                0 < q <= l.quantity,
                pr >= 0,
        ;
        let t = plan_total(d);
        assert((t + q) * r == t * r + q * r) by (nonlinear_arith);
        assert((t + q) * pr == t * pr + q * pr) by (nonlinear_arith);
    }
}

/// Every draw of a plan takes between one unit and the whole need.
proof fn lemma_plan_quantities(bs: Seq<crate::ledger::Batch>, p: u64, n: int, out: Seq<Allocation>)
    requires
        all_nonneg(bs),
        is_fifo_plan(bs, p, n, out),
    ensures
        forall|j: int| 0 <= j < out.len() ==> 0 < (#[trigger] out[j]).quantity <= n,
{
    assert forall|j: int| 0 <= j < out.len() implies 0 < (#[trigger] out[j]).quantity <= n by {
        lemma_stock_before_nonneg(bs, p, out[j].batch_id as int, bs.len() as int);
    }
}

/// The plans, and so the sale items, that a sale's contract admits are
/// unique: each line's plan is its only first-expiry-first plan.
pub proof fn lemma_sale_plans_unique(
    s: Seq<TruckLoadItem>,
    lines: Seq<SaleLine>,
    p1: Seq<Seq<Allocation>>,
    p2: Seq<Seq<Allocation>>,
    n: int,
)
    requires
        sale_plans_ok(s, lines, p1, n),
        sale_plans_ok(s, lines, p2, n),
    ensures
        p1 == p2,
        sale_items_upto(s, lines, p1, n) == sale_items_upto(s, lines, p2, n),
{
    assert forall|k: int| 0 <= k < n implies #[trigger] p1[k] == p2[k] by {
        crate::fifo::lemma_fifo_plan_unique(
            truck_lots(items_before_line(s, lines, k)),
            lines[k].product_id,
            lines[k].quantity as int,
            p1[k],
            p2[k],
        );
    }
    assert(p1 =~= p2);
}

/// Records a sale from a truck load: prices the lines, then draws each line
/// first expiry first across the load's items. All lines or, on an error,
/// none. One sale item per batch that a line drew from.
#[verifier::loop_isolation(false)]
pub fn create_sale(
    load: &mut TruckLoad,
    id: u64,
    shop_id: u64,
    seller_id: u64,
    sale_date: i32,
    lines: &Vec<SaleLine>,
    amount_paid: i64,
) -> (r: Result<Sale, AppError>)
    requires
        old(load).wf(),
    ensures
        final(load).wf(),
        !sale_ok(lines@, amount_paid as int) ==> r == Err::<Sale, AppError>(AppError::Validation),
        sale_ok(lines@, amount_paid as int) && old(load).status != LoadStatus::Loaded ==> r == Err::<
            Sale,
            AppError,
        >(AppError::Conflict),
        sale_ok(lines@, amount_paid as int) && old(load).status == LoadStatus::Loaded ==> match sale_outcome(
            old(load).items@,
            lines@,
        ) {
            Err(e) => r == Err::<Sale, AppError>(e),
            Ok(after) => r is Ok && final(load).items@ == after,
        },
        r is Err ==> final(load).same_as(old(load)),
        r is Ok ==> {
            let sale = r->Ok_0;
            &&& sale_ok(lines@, amount_paid as int)
            &&& sale.wf()
            &&& sale.id == id && sale.shop_id == shop_id && sale.seller_id == seller_id
            &&& sale.sale_date == sale_date
            &&& sale.truck_id == old(load).truck_id && sale.truck_load_id == old(load).id
            &&& sale.total_amount == lines_amount(lines@)
            &&& sale.total_quantity == lines_quantity(lines@)
            &&& sale.total_commission == lines_commission(lines@)
            &&& sale.amount_paid == amount_paid
            &&& exists|plans: Seq<Seq<Allocation>>|
                sale_plans_ok(old(load).items@, lines@, plans, lines@.len() as int)
                    && sale.items@ == sale_items_upto(old(load).items@, lines@, plans, lines@.len() as int)
            &&& items_commission(sale.items@) == lines_commission(lines@)
            &&& items_line_total(sale.items@) == lines_amount(lines@)
            &&& final(load).has_sales
            &&& final(load).id == old(load).id && final(load).status == old(load).status
        },
{
    let totals = match price_sale(lines, amount_paid) {
        Ok(t) => t,
        Err(e) => {
            return Err(e);
        },
    };
    let saved_items = load.items_snapshot();
    let saved_has_sales = load.has_sales;
    let mut items: Vec<SaleItem> = Vec::new();
    let mut k: usize = 0;
    let ghost mut plans: Seq<Seq<Allocation>> = Seq::empty();
    proof {
        assert(lines@.take(0) =~= Seq::<SaleLine>::empty());
        assert(items@ =~= Seq::<SaleItem>::empty());
    }
    while k < lines.len()
        invariant
            load.wf(),
            old(load).wf(),
            sale_ok(lines@, amount_paid as int),
            k <= lines@.len(),
            saved_items@ == old(load).items@,
            saved_has_sales == old(load).has_sales,
            load.id == old(load).id && load.status == old(load).status,
            load.truck_id == old(load).truck_id && load.load_date == old(load).load_date,
            load.loaded_by == old(load).loaded_by,
            k > 0 ==> load.has_sales && old(load).status == LoadStatus::Loaded,
            k == 0 ==> load.has_sales == old(load).has_sales && load.items@ == old(load).items@,
            sale_outcome(old(load).items@, lines@.take(k as int)) == Ok::<Seq<TruckLoadItem>, AppError>(
                load.items@,
            ),
            sale_plans_ok(old(load).items@, lines@, plans, k as int),
            items@ == sale_items_upto(old(load).items@, lines@, plans, k as int),
            items_commission(items@) == lines_commission(lines@.take(k as int)),
            items_line_total(items@) == lines_amount(lines@.take(k as int)),
        decreases lines@.len() - k,
    {
        let l = lines[k];
        proof {
            assert(line_ok(lines@[k as int]));
            lemma_line_terms_fit(lines@, k as int);
            assert(lines@.take(k + 1).drop_last() =~= lines@.take(k as int));
            assert(lines@.take(k + 1).last() == l);
        }
        let ghost before = load.items@;
        match load.sell(l.product_id, l.quantity) {
            Ok(out) => {
                let ghost base = items@;
                proof {
                    assert(sell_outcome(before, l.product_id, l.quantity as int) is Ok);
                    assert(before == items_before_line(old(load).items@, lines@, k as int));
                    assert(items@ =~= base + line_sale_items(before, l, out@.take(0)));
                }
                let mut j: usize = 0;
                while j < out.len()
                    invariant
                        j <= out@.len(),
                        load.items@.len() == before.len(),
                        forall|i: int| 0 <= i < before.len() ==> (#[trigger] load.items@[i]).batch_id == before[i].batch_id,
                        is_fifo_plan(truck_lots(before), l.product_id, l.quantity as int, out@),
                        line_ok(l),
                        l.quantity * l.unit_price <= i64::MAX,
                        l.quantity * l.commission_per_unit <= i64::MAX,
                        forall|i: int| 0 <= i < before.len() ==> item_ok(#[trigger] before[i]),
                        items@ == base + line_sale_items(before, l, out@.take(j as int)),
                    decreases out@.len() - j,
                {
                    let a = out[j];
                    let n = load.items.len();
                    proof {
                        let lots = truck_lots(before);
                        assert forall|i: int| 0 <= i < lots.len() implies 0 <= (#[trigger] lots[i]).remaining_quantity by {
                            assert(item_ok(before[i]));
                        }
                        lemma_stock_before_nonneg(lots, l.product_id, a.batch_id as int, lots.len() as int);
                        assert(0 < a.quantity <= l.quantity);
                        assert(a.quantity * l.unit_price <= l.quantity * l.unit_price) by (nonlinear_arith)
                            requires
                                0 < a.quantity <= l.quantity,
                                l.unit_price >= 0,
                        ;
                        assert(a.quantity * l.commission_per_unit <= l.quantity * l.commission_per_unit) by (nonlinear_arith)
                            requires
                                0 < a.quantity <= l.quantity,
                                l.commission_per_unit >= 0,
                        ;
                        assert(0 <= a.quantity * l.unit_price) by (nonlinear_arith)
                            requires
                                0 < a.quantity,
                                l.unit_price >= 0,
                        ;
                        assert(0 <= a.quantity * l.commission_per_unit) by (nonlinear_arith)
                            requires
                                0 < a.quantity,
                                l.commission_per_unit >= 0,
                        ;
                        assert(a.batch_id < n);
                    }
                    let batch_id = load.items[a.batch_id as usize].batch_id;
                    items.push(
                        SaleItem {
                            product_id: l.product_id,
                            batch_id,
                            quantity: a.quantity,
                            unit_price: l.unit_price,
                            commission_earned: a.quantity * l.commission_per_unit,
                            line_total: a.quantity * l.unit_price,
                        },
                    );
                    proof {
                        assert(out@.take(j + 1) =~= out@.take(j as int).push(a));
                        assert(line_sale_items(before, l, out@.take(j + 1)) =~= line_sale_items(
                            before,
                            l,
                            out@.take(j as int),
                        ).push(items@.last()));
                        assert(items@ =~= base + line_sale_items(before, l, out@.take(j + 1)));
                    }
                    j = j + 1;
                }
                proof {
                    assert(out@.take(j as int) =~= out@);
                    let lots = truck_lots(before);
                    assert forall|i: int| 0 <= i < lots.len() implies 0 <= (#[trigger] lots[i]).remaining_quantity by {
                        assert(item_ok(before[i]));
                    }
                    lemma_plan_quantities(lots, l.product_id, l.quantity as int, out@);
                    crate::fifo::lemma_plan_total(lots, l.product_id, l.quantity as int, out@);
                    lemma_line_items_sums(before, l, out@);
                    lemma_items_sums_concat(base, line_sale_items(before, l, out@));
                    lemma_lines_push(lines@.take(k as int), l);
                    lemma_sale_items_upto_push(old(load).items@, lines@, plans, out@, k as int);
                    let np = plans.push(out@);
                    assert forall|x: int| 0 <= x < k + 1 implies is_fifo_plan(
                        truck_lots(items_before_line(old(load).items@, lines@, x)),
                        lines@[x].product_id,
                        lines@[x].quantity as int,
                        #[trigger] np[x],
                    ) by {
                        if x < k {
                            assert(np[x] == plans[x]);
                        }
                    }
                    plans = np;
                }
            },
            Err(e) => {
                proof {
                    if old(load).status == LoadStatus::Loaded {
                        assert(sell_outcome(before, l.product_id, l.quantity as int) == Err::<Seq<TruckLoadItem>, AppError>(e));
                        lemma_sale_outcome_stays(old(load).items@, lines@, k + 1, lines@.len() as int, e);
                        assert(lines@.take(lines@.len() as int) =~= lines@);
                    }
                }
                load.items = saved_items;
                load.has_sales = saved_has_sales;
                return Err(e);
            },
        }
        k = k + 1;
    }
    proof {
        assert(lines@.take(k as int) =~= lines@);
        lemma_lines_nonneg(lines@);
    }
    Ok(
        Sale {
            id,
            shop_id,
            truck_id: load.truck_id,
            truck_load_id: load.id,
            seller_id,
            sale_date,
            total_amount: totals.total_amount,
            amount_paid: totals.amount_paid,
            payment_status: totals.payment_status,
            total_quantity: totals.total_quantity,
            total_commission: totals.total_commission,
            items,
        },
    )
}

/// Within an acceptable sale every line's amount and commission fit an `i64`.
proof fn lemma_line_terms_fit(s: Seq<SaleLine>, k: int)
    requires
        0 <= k < s.len(),
        forall|j: int| 0 <= j < s.len() ==> line_ok(#[trigger] s[j]),
        lines_amount(s) <= i64::MAX,
        lines_commission(s) <= i64::MAX,
    ensures
        s[k].quantity * s[k].unit_price <= i64::MAX,
        s[k].quantity * s[k].commission_per_unit <= i64::MAX,
{
    lemma_lines_monotone(s, k);
    lemma_lines_monotone(s, k + 1);
    assert(s.take(k + 1) =~= s.take(k).push(s[k]));
    lemma_lines_push(s.take(k), s[k]);
}
} // verus!
