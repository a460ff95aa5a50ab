use dairy_core::error::AppError;
use dairy_core::ledger::{BatchQueryParams, BatchStatus, DeliveryLine, Inventory, MovementContext};
use dairy_core::movement::{ReferenceType, StockMovementType};

fn ctx() -> MovementContext {
    MovementContext {
        reference_type: ReferenceType::Delivery,
        reference_id: 1,
        created_by: 7,
        movement_date: 100,
    }
}

#[test]
fn delivery_creates_then_merges_batch() {
    let mut inv = Inventory::new();
    let b = inv.receive_delivery(1, "LOT-1".to_string(), 120, 10, ctx()).unwrap();
    assert_eq!(b, 0);
    let again = inv.receive_delivery(1, "LOT-1".to_string(), 120, 5, ctx()).unwrap();
    assert_eq!(again, 0);
    assert_eq!(inv.batches.len(), 1);
    assert_eq!(inv.batches[0].initial_quantity, 15);
    assert_eq!(inv.batches[0].remaining_quantity, 15);
    assert_eq!(inv.movements.len(), 2);
    let other = inv.receive_delivery(2, "LOT-1".to_string(), 120, 4, ctx()).unwrap();
    assert_eq!(other, 1);
}

#[test]
fn delivery_with_other_expiry_is_refused() {
    let mut inv = Inventory::new();
    inv.receive_delivery(1, "LOT-1".to_string(), 120, 10, ctx()).unwrap();
    assert_eq!(
        inv.receive_delivery(1, "LOT-1".to_string(), 121, 5, ctx()),
        Err(AppError::Validation)
    );
    assert_eq!(inv.receive_delivery(1, "LOT-2".to_string(), 121, 0, ctx()), Err(AppError::Validation));
    assert_eq!(inv.batches[0].remaining_quantity, 10);
    assert_eq!(inv.movements.len(), 1);
}

#[test]
fn outbound_beyond_stock_is_refused_and_changes_nothing() {
    let mut inv = Inventory::new();
    inv.receive_delivery(1, "A".to_string(), 120, 10, ctx()).unwrap();
    assert_eq!(
        inv.post_movement(0, StockMovementType::TruckLoadOut, 11, ctx()),
        Err(AppError::InsufficientStock)
    );
    assert_eq!(inv.batches[0].remaining_quantity, 10);
    assert_eq!(inv.movements.len(), 1);
    assert_eq!(inv.post_movement(0, StockMovementType::SaleOut, 0, ctx()), Err(AppError::Validation));
    assert_eq!(inv.post_movement(5, StockMovementType::SaleOut, 1, ctx()), Err(AppError::NotFound));
    assert_eq!(inv.post_movement(0, StockMovementType::TruckLoadOut, 10, ctx()), Ok(1));
    assert_eq!(inv.batches[0].remaining_quantity, 0);
}

#[test]
fn return_above_initial_is_refused() {
    let mut inv = Inventory::new();
    inv.receive_delivery(1, "A".to_string(), 120, 10, ctx()).unwrap();
    inv.post_movement(0, StockMovementType::TruckLoadOut, 4, ctx()).unwrap();
    assert_eq!(
        inv.post_movement(0, StockMovementType::TruckReturnIn, 5, ctx()),
        Err(AppError::Validation)
    );
    assert_eq!(inv.post_movement(0, StockMovementType::TruckReturnIn, 4, ctx()), Ok(2));
    assert_eq!(inv.batches[0].remaining_quantity, 10);
}

#[test]
fn adjustments_move_initial_and_remaining_together() {
    let mut inv = Inventory::new();
    inv.receive_delivery(1, "A".to_string(), 120, 10, ctx()).unwrap();
    assert_eq!(inv.adjust_stock(0, 1, StockMovementType::Adjustment, 5, ctx()), Ok(1));
    assert_eq!(inv.batches[0].initial_quantity, 15);
    assert_eq!(inv.batches[0].remaining_quantity, 15);
    assert_eq!(inv.adjust_stock(0, 1, StockMovementType::Adjustment, -3, ctx()), Ok(2));
    assert_eq!(inv.batches[0].initial_quantity, 12);
    assert_eq!(inv.batches[0].remaining_quantity, 12);
    assert_eq!(
        inv.adjust_stock(0, 1, StockMovementType::Adjustment, -13, ctx()),
        Err(AppError::InsufficientStock)
    );
    assert_eq!(inv.adjust_stock(0, 1, StockMovementType::ExpiredOut, 2, ctx()), Ok(3));
    assert_eq!(inv.batches[0].initial_quantity, 12);
    assert_eq!(inv.batches[0].remaining_quantity, 10);
    assert_eq!(inv.adjust_stock(0, 1, StockMovementType::Adjustment, 0, ctx()), Err(AppError::Validation));
    assert_eq!(inv.adjust_stock(0, 1, StockMovementType::ExpiredOut, 0, ctx()), Err(AppError::Validation));
    assert_eq!(inv.adjust_stock(0, 1, StockMovementType::SaleOut, 1, ctx()), Err(AppError::Validation));
    assert_eq!(inv.adjust_stock(0, 2, StockMovementType::ExpiredOut, 1, ctx()), Err(AppError::Validation));
    assert_eq!(inv.adjust_stock(9, 1, StockMovementType::ExpiredOut, 1, ctx()), Err(AppError::NotFound));
}

#[test]
fn running_balance_follows_the_ledger() {
    let mut inv = Inventory::new();
    inv.receive_delivery(1, "A".to_string(), 120, 10, ctx()).unwrap();
    inv.receive_delivery(2, "B".to_string(), 120, 7, ctx()).unwrap();
    inv.post_movement(0, StockMovementType::TruckLoadOut, 6, ctx()).unwrap();
    inv.post_movement(0, StockMovementType::TruckReturnIn, 2, ctx()).unwrap();
    inv.adjust_stock(0, 1, StockMovementType::Adjustment, -1, ctx()).unwrap();
    let rows = inv.running_balance(0).unwrap();
    let balances: Vec<i64> = rows.iter().map(|r| r.balance).collect();
    assert_eq!(balances, vec![10, 4, 6, 5]);
    assert_eq!(rows[1].movement.movement_type, StockMovementType::TruckLoadOut);
    assert_eq!(inv.running_balance(1).unwrap().len(), 1);
    assert_eq!(inv.running_balance(2).unwrap_err(), AppError::NotFound);
}

#[test]
fn remaining_equals_initial_plus_signed_flows() {
    let mut inv = Inventory::new();
    inv.receive_delivery(1, "A".to_string(), 120, 10, ctx()).unwrap();
    inv.receive_delivery(1, "A".to_string(), 120, 5, ctx()).unwrap();
    inv.post_movement(0, StockMovementType::TruckLoadOut, 8, ctx()).unwrap();
    inv.post_movement(0, StockMovementType::TruckReturnIn, 3, ctx()).unwrap();
    inv.adjust_stock(0, 1, StockMovementType::ExpiredOut, 2, ctx()).unwrap();
    inv.adjust_stock(0, 1, StockMovementType::Adjustment, 4, ctx()).unwrap();
    let b = &inv.batches[0];
    let flows: i64 = inv
        .movements
        .iter()
        .map(|m| match m.movement_type {
            StockMovementType::TruckLoadOut | StockMovementType::SaleOut | StockMovementType::ExpiredOut => -m.quantity,
            StockMovementType::TruckReturnIn => m.quantity,
            _ => 0,
        })
        .sum();
    assert_eq!(b.initial_quantity, 19);
    assert_eq!(b.remaining_quantity, 12);
    assert_eq!(b.remaining_quantity, b.initial_quantity + flows);
    assert!(0 <= b.remaining_quantity && b.remaining_quantity <= b.initial_quantity);
}

#[test]
fn batch_status_and_listing() {
    let mut inv = Inventory::new();
    inv.receive_delivery(1, "A".to_string(), 50, 10, ctx()).unwrap();
    inv.receive_delivery(1, "B".to_string(), 200, 10, ctx()).unwrap();
    inv.receive_delivery(2, "C".to_string(), 200, 3, ctx()).unwrap();
    inv.post_movement(2, StockMovementType::TruckLoadOut, 3, ctx()).unwrap();
    assert_eq!(inv.batches[0].status(100), BatchStatus::Expired);
    assert_eq!(inv.batches[1].status(100), BatchStatus::Available);
    assert_eq!(inv.batches[2].status(100), BatchStatus::Empty);
    let all = BatchQueryParams { product_id: None, status: None };
    assert_eq!(inv.select_batches(&all, 100), vec![0, 1, 2]);
    let p1 = BatchQueryParams { product_id: Some(1), status: Some(BatchStatus::Available) };
    assert_eq!(inv.select_batches(&p1, 100), vec![1]);
    let empty = BatchQueryParams { product_id: None, status: Some(BatchStatus::Empty) };
    assert_eq!(inv.select_batches(&empty, 100), vec![2]);
}

#[test]
fn movement_kind_names() {
    assert_eq!(StockMovementType::TruckReturnIn.as_str(), "truck_return_in");
    assert_eq!(StockMovementType::ExpiredOut.as_str(), "expired_out");
    assert!(StockMovementType::Adjustment.is_inbound());
    assert!(!StockMovementType::SaleOut.is_inbound());
    assert_eq!(AppError::InsufficientStock.code(), "insufficient_stock");
    assert_eq!(AppError::Conflict.status(), 409);
    assert_eq!(AppError::Validation.status(), 400);
}

#[test]
fn multi_lot_delivery_is_all_or_nothing() {
    let mut inv = Inventory::new();
    inv.receive_delivery(1, "A".to_string(), 120, 10, ctx()).unwrap();
    let bad = vec![
        DeliveryLine { product_id: 1, batch_number: "B".to_string(), expiry_day: 130, quantity: 4 },
        DeliveryLine { product_id: 1, batch_number: "A".to_string(), expiry_day: 125, quantity: 4 },
    ];
    assert_eq!(inv.receive_lots(&bad, ctx()), Err(AppError::Validation));
    assert_eq!(inv.batches.len(), 1);
    assert_eq!(inv.movements.len(), 1);
    let good = vec![
        DeliveryLine { product_id: 1, batch_number: "B".to_string(), expiry_day: 130, quantity: 4 },
        DeliveryLine { product_id: 1, batch_number: "A".to_string(), expiry_day: 120, quantity: 6 },
    ];
    assert_eq!(inv.receive_lots(&good, ctx()), Ok(vec![1, 0]));
    assert_eq!(inv.batches[0].remaining_quantity, 16);
    assert_eq!(inv.batches[1].remaining_quantity, 4);
    assert_eq!(inv.receive_lots(&vec![], ctx()), Err(AppError::Validation));
}
