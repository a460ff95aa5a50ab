use dairy_core::allowance::{TransportAllowance, TruckAllocation, TruckLimit};
use dairy_core::error::AppError;
use dairy_core::ledger::{Inventory, MovementContext};
use dairy_core::movement::{ReferenceType, StockMovementType};
use dairy_core::reconciliation::{
    DiscardedItem, ProfitStatus, ReconciliationBook, ReconciliationStatus, TruckReturnItem, VerifyTruckReturnRequest,
};
use dairy_core::sale::{create_sale, Sale, SaleLine};
use dairy_core::truck_load::TruckLoad;

const DAY: i32 = 100;

fn ctx() -> MovementContext {
    MovementContext {
        reference_type: ReferenceType::Reconciliation,
        reference_id: 1,
        created_by: 7,
        movement_date: DAY,
    }
}

fn counts(returned: i64, discarded: i64) -> VerifyTruckReturnRequest {
    VerifyTruckReturnRequest {
        items_returned: vec![TruckReturnItem { product_id: 1, quantity: returned }],
        items_discarded: vec![DiscardedItem { product_id: 1, quantity: discarded, reason: "damaged".to_string() }],
        discrepancy_notes: None,
    }
}

/// One truck per entry: (truck, units loaded, units sold, commission per unit).
fn day(trucks: &[(u64, i64, i64, i64)]) -> (Inventory, Vec<TruckLoad>, Vec<Sale>) {
    let mut inv = Inventory::new();
    let mut loads = Vec::new();
    let mut sales = Vec::new();
    for (k, &(truck, loaded, sold, rate)) in trucks.iter().enumerate() {
        inv.receive_delivery(1, format!("LOT-{truck}"), 150 + k as i32, loaded, ctx()).unwrap();
        let mut load = TruckLoad::new(k as u64 + 1, truck, DAY, 7);
        load.load_specific_batch(&mut inv, k as u64, loaded, ctx()).unwrap();
        let lines = vec![SaleLine { product_id: 1, quantity: sold, unit_price: 10, commission_per_unit: rate }];
        sales.push(create_sale(&mut load, k as u64 + 1, 1, 7, DAY, &lines, sold * 10).unwrap());
        loads.push(load);
    }
    (inv, loads, sales)
}

#[test]
fn verification_records_discrepancy() {
    let (_inv, loads, sales) = day(&[(4, 100, 60, 1)]);
    let mut book = ReconciliationBook::new();
    book.start(1, DAY, 7, &loads, &sales, &vec![]).unwrap();
    let rec = &book.reconciliations[0];
    assert_eq!(rec.trucks_out, 1);
    assert_eq!(rec.items[0].items_loaded, 100);
    assert_eq!(rec.items[0].items_sold, 60);
    assert_eq!(rec.items[0].sales_amount, 600);
    assert_eq!(rec.items[0].pending_payments, 0);
    book.verify_return(DAY, 4, &counts(30, 10), 7).unwrap();
    let item = book.reconciliations[0].items[0];
    assert!(item.is_verified);
    assert!(!item.has_discrepancy);
    assert_eq!(item.items_returned, 30);
    assert_eq!(item.items_discarded, 10);
    book.verify_return(DAY, 4, &counts(25, 10), 7).unwrap();
    assert!(book.reconciliations[0].items[0].has_discrepancy);
    assert_eq!(book.reconciliations[0].trucks_verified, 1);
}

#[test]
fn net_profit_is_commission_less_allowance() {
    let (mut inv, mut loads, sales) = day(&[(4, 80, 50, 10), (5, 40, 30, 10)]);
    let trucks = vec![
        TruckLimit { truck_id: 4, is_active: true, max_allowance_limit: 300 },
        TruckLimit { truck_id: 5, is_active: true, max_allowance_limit: 300 },
    ];
    let mut allowance = TransportAllowance::new(1, DAY, 400).unwrap();
    allowance
        .allocate(
            &vec![TruckAllocation { truck_id: 4, amount: 200 }, TruckAllocation { truck_id: 5, amount: 150 }],
            &trucks,
        )
        .unwrap();
    let mut book = ReconciliationBook::new();
    book.start(1, DAY, 7, &loads, &sales, &vec![allowance]).unwrap();
    assert_eq!(book.reconciliations[0].items[0].commission_earned, 500);
    assert_eq!(book.reconciliations[0].items[1].allowance_received, 150);
    book.verify_return(DAY, 4, &counts(30, 0), 7).unwrap();
    book.verify_return(DAY, 5, &counts(10, 0), 7).unwrap();
    book.finalize_day(DAY, &mut inv, &mut loads, 7, ctx()).unwrap();
    let rec = &book.reconciliations[0];
    assert_eq!(rec.status, ReconciliationStatus::Finalized);
    assert_eq!(rec.totals.total_commission_earned, 800);
    assert_eq!(rec.totals.total_allowance_allocated, 350);
    assert_eq!(rec.totals.net_profit, 450);
    assert_eq!(rec.totals.profit_status(), ProfitStatus::Profit);
    assert_eq!(loads[0].items[0].quantity_returned, 30);
    assert_eq!(loads[1].items[0].quantity_returned, 10);
    assert_eq!(rec.totals.total_items_loaded, 120);
    assert_eq!(rec.totals.total_items_sold, 80);
    assert_eq!(rec.finalized_by, Some(7));
}

#[test]
fn finalize_returns_stock_and_is_terminal() {
    let (mut inv, mut loads, sales) = day(&[(4, 100, 60, 1)]);
    let mut book = ReconciliationBook::new();
    book.start(1, DAY, 7, &loads, &sales, &vec![]).unwrap();
    assert_eq!(book.finalize_day(DAY, &mut inv, &mut loads, 7, ctx()), Err(AppError::Validation));
    book.verify_return(DAY, 4, &counts(30, 10), 7).unwrap();
    assert_eq!(inv.batches[0].remaining_quantity, 0);
    book.finalize_day(DAY, &mut inv, &mut loads, 7, ctx()).unwrap();
    assert_eq!(inv.batches[0].remaining_quantity, 40);
    assert_eq!(inv.movements.last().unwrap().movement_type, StockMovementType::TruckReturnIn);
    assert_eq!(loads[0].items[0].quantity_returned, 40);
    let movements = inv.movements.len();
    let totals = book.reconciliations[0].totals;
    assert_eq!(book.finalize_day(DAY, &mut inv, &mut loads, 8, ctx()), Err(AppError::Conflict));
    assert_eq!(book.reconciliations[0].totals, totals);
    assert_eq!(book.reconciliations[0].finalized_by, Some(7));
    assert_eq!(book.reconciliations[0].status, ReconciliationStatus::Finalized);
    assert_eq!(inv.movements.len(), movements);
    assert_eq!(book.verify_return(DAY, 4, &counts(1, 1), 7), Err(AppError::Conflict));
}

#[test]
fn start_verify_errors() {
    let (mut inv, mut loads, sales) = day(&[(4, 10, 5, 1)]);
    let mut book = ReconciliationBook::new();
    assert_eq!(book.verify_return(DAY, 4, &counts(5, 0), 7), Err(AppError::NotFound));
    assert_eq!(book.finalize_day(DAY, &mut inv, &mut loads, 7, ctx()), Err(AppError::NotFound));
    book.start(1, DAY, 7, &loads, &sales, &vec![]).unwrap();
    assert_eq!(book.start(2, DAY, 7, &loads, &sales, &vec![]), Err(AppError::Conflict));
    assert_eq!(book.verify_return(DAY, 99, &counts(5, 0), 7), Err(AppError::NotFound));
    assert_eq!(book.verify_return(DAY, 4, &counts(-1, 0), 7), Err(AppError::Validation));
    assert!(!book.reconciliations[0].items[0].is_verified);
    book.start(2, DAY + 1, 7, &loads, &sales, &vec![]).unwrap();
    assert_eq!(book.reconciliations[1].trucks_out, 0);
    assert_eq!(book.finalize_day(DAY + 1, &mut inv, &mut loads, 7, ctx()), Ok(()));
    assert_eq!(book.reconciliations[1].totals.net_profit, 0);
    assert_eq!(book.find(DAY + 1), Some(1));
}

#[test]
fn duplicate_allowances_for_a_day_conflict() {
    let (_inv, loads, sales) = day(&[(4, 10, 5, 1)]);
    let a1 = TransportAllowance::new(1, DAY, 100).unwrap();
    let a2 = TransportAllowance::new(2, DAY, 200).unwrap();
    let mut book = ReconciliationBook::new();
    assert_eq!(book.start(1, DAY, 7, &loads, &sales, &vec![a1, a2]), Err(AppError::Conflict));
    assert_eq!(book.reconciliations.len(), 0);
    let existing = vec![TransportAllowance::new(1, DAY, 100).unwrap()];
    assert_eq!(TransportAllowance::new_for_day(&existing, 2, DAY, 50).unwrap_err(), AppError::Conflict);
    assert!(TransportAllowance::new_for_day(&existing, 2, DAY + 1, 50).is_ok());
}
