use dairy_core::error::AppError;
use dairy_core::fifo::{plan_fifo, Allocation};
use dairy_core::ledger::{Inventory, MovementContext};
use dairy_core::movement::{ReferenceType, StockMovementType};

fn ctx() -> MovementContext {
    MovementContext {
        reference_type: ReferenceType::TruckLoad,
        reference_id: 3,
        created_by: 7,
        movement_date: 100,
    }
}

#[test]
fn fifo_takes_earliest_expiry_first() {
    let mut inv = Inventory::new();
    inv.receive_delivery(1, "B1".to_string(), 110, 5, ctx()).unwrap();
    inv.receive_delivery(1, "B2".to_string(), 120, 10, ctx()).unwrap();
    let out = inv.allocate_fifo(1, 8, StockMovementType::TruckLoadOut, ctx()).unwrap();
    assert_eq!(
        out,
        vec![Allocation { batch_id: 0, quantity: 5 }, Allocation { batch_id: 1, quantity: 3 }]
    );
    assert_eq!(inv.batches[0].remaining_quantity, 0);
    assert_eq!(inv.batches[1].remaining_quantity, 7);
    assert_eq!(inv.movements.len(), 4);
    assert_eq!(inv.movements[2].movement_type, StockMovementType::TruckLoadOut);
    assert_eq!(inv.movements[2].batch_id, 0);
    assert_eq!(inv.movements[3].quantity, 3);
}

#[test]
fn fifo_orders_by_expiry_not_by_arrival() {
    let mut inv = Inventory::new();
    inv.receive_delivery(1, "LATE".to_string(), 120, 10, ctx()).unwrap();
    inv.receive_delivery(2, "OTHER".to_string(), 90, 10, ctx()).unwrap();
    inv.receive_delivery(1, "EARLY".to_string(), 110, 5, ctx()).unwrap();
    inv.receive_delivery(1, "SAME_DAY".to_string(), 120, 4, ctx()).unwrap();
    let out = plan_fifo(&inv.batches, 1, 17).unwrap();
    assert_eq!(
        out,
        vec![
            Allocation { batch_id: 2, quantity: 5 },
            Allocation { batch_id: 0, quantity: 10 },
            Allocation { batch_id: 3, quantity: 2 },
        ]
    );
    assert_eq!(plan_fifo(&inv.batches, 1, 5).unwrap(), vec![Allocation { batch_id: 2, quantity: 5 }]);
}

#[test]
fn fifo_is_all_or_nothing() {
    let mut inv = Inventory::new();
    inv.receive_delivery(1, "B1".to_string(), 110, 5, ctx()).unwrap();
    inv.receive_delivery(1, "B2".to_string(), 120, 10, ctx()).unwrap();
    assert_eq!(
        inv.allocate_fifo(1, 20, StockMovementType::TruckLoadOut, ctx()),
        Err(AppError::InsufficientStock)
    );
    assert_eq!(inv.batches[0].remaining_quantity, 5);
    assert_eq!(inv.batches[1].remaining_quantity, 10);
    assert_eq!(inv.movements.len(), 2);
    assert_eq!(inv.allocate_fifo(1, 0, StockMovementType::TruckLoadOut, ctx()), Err(AppError::Validation));
    assert_eq!(inv.allocate_fifo(1, 3, StockMovementType::Adjustment, ctx()), Err(AppError::Validation));
    assert_eq!(inv.allocate_fifo(9, 1, StockMovementType::SaleOut, ctx()), Err(AppError::InsufficientStock));
}

#[test]
fn second_allocation_against_one_batch_fails() {
    let mut inv = Inventory::new();
    inv.receive_delivery(1, "ONLY".to_string(), 110, 10, ctx()).unwrap();
    let first = inv.allocate_fifo(1, 6, StockMovementType::TruckLoadOut, ctx());
    let second = inv.allocate_fifo(1, 7, StockMovementType::TruckLoadOut, ctx());
    assert_eq!(first, Ok(vec![Allocation { batch_id: 0, quantity: 6 }]));
    assert_eq!(second, Err(AppError::InsufficientStock));
    assert_eq!(inv.batches[0].remaining_quantity, 4);
    let third = inv.allocate_fifo(1, 4, StockMovementType::SaleOut, ctx());
    assert_eq!(third, Ok(vec![Allocation { batch_id: 0, quantity: 4 }]));
    assert_eq!(inv.batches[0].remaining_quantity, 0);
}
