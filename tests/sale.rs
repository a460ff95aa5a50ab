use dairy_core::error::AppError;
use dairy_core::ledger::{Inventory, MovementContext};
use dairy_core::movement::ReferenceType;
use dairy_core::sale::{create_sale, payment_status_for, price_sale, PaymentStatus, SaleLine};
use dairy_core::truck_load::TruckLoad;

fn ctx() -> MovementContext {
    MovementContext {
        reference_type: ReferenceType::TruckLoad,
        reference_id: 1,
        created_by: 7,
        movement_date: 100,
    }
}

#[test]
fn pricing_sums_lines_and_fixed_commission() {
    let lines = vec![
        SaleLine { product_id: 1, quantity: 3, unit_price: 250, commission_per_unit: 20 },
        SaleLine { product_id: 2, quantity: 2, unit_price: 100, commission_per_unit: 5 },
    ];
    let t = price_sale(&lines, 500).unwrap();
    assert_eq!(t.total_amount, 950);
    assert_eq!(t.total_quantity, 5);
    assert_eq!(t.total_commission, 70);
    assert_eq!(t.payment_status, PaymentStatus::Pending);
    assert_eq!(price_sale(&lines, 950).unwrap().payment_status, PaymentStatus::Paid);
    assert_eq!(price_sale(&lines, 951).unwrap_err(), AppError::Validation);
    assert_eq!(price_sale(&lines, -1).unwrap_err(), AppError::Validation);
    assert_eq!(price_sale(&vec![], 0).unwrap_err(), AppError::Validation);
    let bad = vec![SaleLine { product_id: 1, quantity: 0, unit_price: 1, commission_per_unit: 1 }];
    assert_eq!(price_sale(&bad, 0).unwrap_err(), AppError::Validation);
    let neg = vec![SaleLine { product_id: 1, quantity: 1, unit_price: -1, commission_per_unit: 1 }];
    assert_eq!(price_sale(&neg, 0).unwrap_err(), AppError::Validation);
    let huge = vec![SaleLine { product_id: 1, quantity: i64::MAX, unit_price: 2, commission_per_unit: 0 }];
    assert_eq!(price_sale(&huge, 0).unwrap_err(), AppError::Validation);
    assert_eq!(payment_status_for(10, 10), PaymentStatus::Paid);
    assert_eq!(payment_status_for(10, 9), PaymentStatus::Pending);
}

#[test]
fn sale_from_truck_updates_sold_and_payments() {
    let mut inv = Inventory::new();
    inv.receive_delivery(1, "M".to_string(), 110, 20, ctx()).unwrap();
    let mut load = TruckLoad::new(1, 4, 100, 7);
    load.load_product_fifo(&mut inv, 1, 20, ctx()).unwrap();
    let lines = vec![SaleLine { product_id: 1, quantity: 6, unit_price: 300, commission_per_unit: 25 }];
    let mut sale = create_sale(&mut load, 9, 3, 7, 100, &lines, 1000).unwrap();
    assert_eq!(sale.total_amount, 1800);
    assert_eq!(sale.total_commission, 150);
    assert_eq!(sale.items[0].batch_id, 0);
    assert_eq!(sale.items[0].line_total, 1800);
    assert_eq!(load.items[0].quantity_sold, 6);
    assert_eq!(sale.balance_due(), 800);
    assert_eq!(sale.update_payment(900), Err(AppError::Validation));
    assert_eq!(sale.update_payment(0), Err(AppError::Validation));
    assert_eq!(sale.update_payment(800), Ok(()));
    assert_eq!(sale.payment_status, PaymentStatus::Paid);
    let too_many = vec![SaleLine { product_id: 1, quantity: 15, unit_price: 300, commission_per_unit: 25 }];
    assert_eq!(create_sale(&mut load, 10, 3, 7, 100, &too_many, 0).unwrap_err(), AppError::InsufficientStock);
    assert_eq!(load.items[0].quantity_sold, 6);
}

#[test]
fn sale_line_splits_across_items_first_expiry_first() {
    let mut inv = Inventory::new();
    inv.receive_delivery(1, "LATE".to_string(), 120, 10, ctx()).unwrap();
    inv.receive_delivery(1, "EARLY".to_string(), 110, 5, ctx()).unwrap();
    let mut load = TruckLoad::new(1, 4, 100, 7);
    load.load_specific_batch(&mut inv, 0, 10, ctx()).unwrap();
    load.load_specific_batch(&mut inv, 1, 5, ctx()).unwrap();
    let lines = vec![SaleLine { product_id: 1, quantity: 8, unit_price: 100, commission_per_unit: 3 }];
    let sale = create_sale(&mut load, 1, 3, 7, 100, &lines, 0).unwrap();
    let parts: Vec<(u64, i64, i64)> = sale.items.iter().map(|i| (i.batch_id, i.quantity, i.commission_earned)).collect();
    assert_eq!(parts, vec![(1, 5, 15), (0, 3, 9)]);
    assert_eq!(sale.total_amount, 800);
    assert_eq!((load.items[0].quantity_sold, load.items[1].quantity_sold), (3, 5));
    let two = vec![
        SaleLine { product_id: 1, quantity: 5, unit_price: 100, commission_per_unit: 3 },
        SaleLine { product_id: 1, quantity: 3, unit_price: 100, commission_per_unit: 3 },
    ];
    assert_eq!(create_sale(&mut load, 2, 3, 7, 100, &two, 0).unwrap_err(), AppError::InsufficientStock);
    assert_eq!((load.items[0].quantity_sold, load.items[1].quantity_sold), (3, 5));
}

#[test]
fn sale_items_sum_to_the_sale_totals() {
    let mut inv = Inventory::new();
    inv.receive_delivery(1, "A".to_string(), 110, 4, ctx()).unwrap();
    inv.receive_delivery(1, "B".to_string(), 115, 4, ctx()).unwrap();
    inv.receive_delivery(2, "C".to_string(), 110, 9, ctx()).unwrap();
    let mut load = TruckLoad::new(1, 4, 100, 7);
    for b in 0..3 {
        let q = inv.batches[b].remaining_quantity;
        load.load_specific_batch(&mut inv, b as u64, q, ctx()).unwrap();
    }
    let lines = vec![
        SaleLine { product_id: 1, quantity: 6, unit_price: 50, commission_per_unit: 4 },
        SaleLine { product_id: 2, quantity: 2, unit_price: 70, commission_per_unit: 5 },
    ];
    let sale = create_sale(&mut load, 1, 3, 7, 100, &lines, 0).unwrap();
    let parts: Vec<(u64, i64, i64, i64)> =
        sale.items.iter().map(|i| (i.batch_id, i.quantity, i.commission_earned, i.line_total)).collect();
    assert_eq!(parts, vec![(0, 4, 16, 200), (1, 2, 8, 100), (2, 2, 10, 140)]);
    assert_eq!(sale.items.iter().map(|i| i.commission_earned).sum::<i64>(), sale.total_commission);
    assert_eq!(sale.items.iter().map(|i| i.line_total).sum::<i64>(), sale.total_amount);
}
