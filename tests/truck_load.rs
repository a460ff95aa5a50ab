use dairy_core::error::AppError;
use dairy_core::fifo::Allocation;
use dairy_core::ledger::{Inventory, MovementContext};
use dairy_core::movement::{ReferenceType, StockMovementType};
use dairy_core::truck_load::{
    create_truck_load, LoadStatus, ReconcileTruckLoadRequest, TruckLoad, TruckLoadItemRequest,
    TruckLoadReturnItem,
};

fn ctx() -> MovementContext {
    MovementContext {
        reference_type: ReferenceType::TruckLoad,
        reference_id: 1,
        created_by: 7,
        movement_date: 100,
    }
}

fn stocked() -> Inventory {
    let mut inv = Inventory::new();
    inv.receive_delivery(1, "M-1".to_string(), 110, 20, ctx()).unwrap();
    inv.receive_delivery(1, "M-2".to_string(), 120, 30, ctx()).unwrap();
    inv.receive_delivery(2, "Y-1".to_string(), 105, 12, ctx()).unwrap();
    inv
}

#[test]
fn load_specific_batch_and_refuse_duplicate() {
    let mut inv = stocked();
    let mut load = TruckLoad::new(1, 4, 100, 7);
    assert_eq!(load.load_specific_batch(&mut inv, 2, 5, ctx()), Ok(()));
    assert_eq!(inv.batches[2].remaining_quantity, 7);
    assert_eq!(load.items.len(), 1);
    assert_eq!(load.items[0].product_id, 2);
    assert_eq!(load.items[0].quantity_loaded, 5);
    assert_eq!(load.load_specific_batch(&mut inv, 2, 1, ctx()), Err(AppError::Conflict));
    assert_eq!(load.load_specific_batch(&mut inv, 1, 31, ctx()), Err(AppError::InsufficientStock));
    assert_eq!(load.load_specific_batch(&mut inv, 9, 1, ctx()), Err(AppError::NotFound));
    assert_eq!(inv.batches[1].remaining_quantity, 30);
    assert_eq!(load.items.len(), 1);
}

#[test]
fn load_product_first_expiry_first() {
    let mut inv = stocked();
    let mut load = TruckLoad::new(1, 4, 100, 7);
    let out = load.load_product_fifo(&mut inv, 1, 25, ctx()).unwrap();
    assert_eq!(out.len(), 2);
    assert_eq!(load.items.len(), 2);
    assert_eq!((load.items[0].batch_id, load.items[0].quantity_loaded), (0, 20));
    assert_eq!((load.items[1].batch_id, load.items[1].quantity_loaded), (1, 5));
    assert_eq!(inv.batches[1].remaining_quantity, 25);
    let s = load.summary();
    assert_eq!(s.total_loaded, 25);
    assert_eq!(s.total_lost_damaged, 0);
    assert_eq!(s.product_lines, 2);
    assert_eq!(load.load_product_fifo(&mut inv, 1, 100, ctx()).unwrap_err(), AppError::InsufficientStock);
    assert_eq!(load.load_product_fifo(&mut inv, 1, 3, ctx()).unwrap_err(), AppError::Conflict);
    assert_eq!(inv.batches[1].remaining_quantity, 25);
    assert_eq!(load.items.len(), 2);
}

#[test]
fn create_load_is_all_or_nothing() {
    let mut inv = stocked();
    let reqs = vec![
        TruckLoadItemRequest { batch_id: None, product_id: Some(1), quantity_loaded: 22 },
        TruckLoadItemRequest { batch_id: Some(2), product_id: None, quantity_loaded: 50 },
    ];
    assert_eq!(
        create_truck_load(&mut inv, &vec![], 1, 4, true, 100, 7, &reqs, ctx()).unwrap_err(),
        AppError::InsufficientStock
    );
    assert_eq!(inv.batches[0].remaining_quantity, 20);
    assert_eq!(inv.movements.len(), 3);
    let good = vec![
        TruckLoadItemRequest { batch_id: None, product_id: Some(1), quantity_loaded: 22 },
        TruckLoadItemRequest { batch_id: Some(2), product_id: None, quantity_loaded: 12 },
    ];
    let load = create_truck_load(&mut inv, &vec![], 1, 4, true, 100, 7, &good, ctx()).unwrap();
    assert_eq!(load.items.len(), 3);
    assert_eq!(load.summary().total_loaded, 34);
    assert_eq!(load.status, LoadStatus::Loaded);
    assert_eq!(inv.movements.len(), 6);
}

#[test]
fn create_load_validation() {
    let mut inv = stocked();
    let none: Vec<TruckLoadItemRequest> = vec![];
    assert_eq!(create_truck_load(&mut inv, &vec![], 1, 4, true, 100, 7, &none, ctx()).unwrap_err(), AppError::Validation);
    let one = vec![TruckLoadItemRequest { batch_id: Some(0), product_id: None, quantity_loaded: 1 }];
    assert_eq!(create_truck_load(&mut inv, &vec![], 1, 4, false, 100, 7, &one, ctx()).unwrap_err(), AppError::Validation);
    let both = vec![TruckLoadItemRequest { batch_id: Some(0), product_id: Some(1), quantity_loaded: 1 }];
    assert_eq!(create_truck_load(&mut inv, &vec![], 1, 4, true, 100, 7, &both, ctx()).unwrap_err(), AppError::Validation);
    let neither = vec![TruckLoadItemRequest { batch_id: None, product_id: None, quantity_loaded: 1 }];
    assert_eq!(create_truck_load(&mut inv, &vec![], 1, 4, true, 100, 7, &neither, ctx()).unwrap_err(), AppError::Validation);
    assert_eq!(inv.movements.len(), 3);
}

#[test]
fn sale_draws_first_expiry_first_across_items() {
    let mut inv = stocked();
    let mut load = TruckLoad::new(1, 4, 100, 7);
    load.load_product_fifo(&mut inv, 1, 25, ctx()).unwrap();
    assert_eq!(load.sell(1, 26), Err(AppError::InsufficientStock));
    assert!(!load.has_sales);
    assert_eq!(load.sell(1, 4), Ok(vec![Allocation { batch_id: 0, quantity: 4 }]));
    assert_eq!(
        load.sell(1, 17),
        Ok(vec![Allocation { batch_id: 0, quantity: 16 }, Allocation { batch_id: 1, quantity: 1 }])
    );
    assert_eq!((load.items[0].quantity_sold, load.items[1].quantity_sold), (20, 1));
    assert_eq!(load.sell(1, 5), Err(AppError::InsufficientStock));
    assert_eq!(load.sell(1, 4), Ok(vec![Allocation { batch_id: 1, quantity: 4 }]));
    assert_eq!(load.sell(1, 0), Err(AppError::Validation));
    assert!(load.has_sales);
    assert_eq!(load.summary().total_sold, 25);
}

#[test]
fn reconcile_records_returns_and_restores_stock() {
    let mut inv = stocked();
    let mut load = TruckLoad::new(1, 4, 100, 7);
    load.load_product_fifo(&mut inv, 1, 25, ctx()).unwrap();
    load.sell(1, 10).unwrap();
    let over = ReconcileTruckLoadRequest { returns: vec![TruckLoadReturnItem { batch_id: 0, quantity_returned: 11 }] };
    assert_eq!(load.reconcile(&mut inv, &over, ctx()), Err(AppError::Validation));
    let missing = ReconcileTruckLoadRequest { returns: vec![TruckLoadReturnItem { batch_id: 2, quantity_returned: 1 }] };
    assert_eq!(load.reconcile(&mut inv, &missing, ctx()), Err(AppError::NotFound));
    assert_eq!(load.status, LoadStatus::Loaded);
    assert_eq!(inv.batches[0].remaining_quantity, 0);
    let ok = ReconcileTruckLoadRequest {
        returns: vec![
            TruckLoadReturnItem { batch_id: 0, quantity_returned: 8 },
            TruckLoadReturnItem { batch_id: 1, quantity_returned: 5 },
        ],
    };
    assert_eq!(load.reconcile(&mut inv, &ok, ctx()), Ok(()));
    assert_eq!(load.status, LoadStatus::Reconciled);
    assert_eq!(inv.batches[0].remaining_quantity, 8);
    assert_eq!(inv.batches[1].remaining_quantity, 30);
    let s = load.summary();
    assert_eq!((s.total_loaded, s.total_sold, s.total_returned, s.total_lost_damaged), (25, 10, 13, 2));
    assert_eq!(load.items[0].quantity_lost_damaged(load.status), 2);
    for it in &load.items {
        assert!(it.quantity_sold + it.quantity_returned <= it.quantity_loaded);
    }
    assert_eq!(load.reconcile(&mut inv, &ok, ctx()), Err(AppError::Conflict));
    assert_eq!(load.sell(1, 1), Err(AppError::Conflict));
}

#[test]
fn release_restores_unsold_load() {
    let mut inv = stocked();
    let mut load = TruckLoad::new(1, 4, 100, 7);
    load.load_product_fifo(&mut inv, 1, 25, ctx()).unwrap();
    assert_eq!(load.release(&mut inv, ctx()), Ok(()));
    assert_eq!(inv.batches[0].remaining_quantity, 20);
    assert_eq!(inv.batches[1].remaining_quantity, 30);
    assert_eq!(inv.movements.last().unwrap().movement_type, StockMovementType::TruckReturnIn);
    let mut sold = TruckLoad::new(2, 4, 101, 7);
    sold.load_product_fifo(&mut inv, 1, 5, ctx()).unwrap();
    sold.sell(1, 1).unwrap();
    assert_eq!(sold.release(&mut inv, ctx()), Err(AppError::Conflict));
}

#[test]
fn second_load_for_same_truck_and_day_conflicts() {
    let mut inv = stocked();
    let reqs = vec![TruckLoadItemRequest { batch_id: Some(2), product_id: None, quantity_loaded: 2 }];
    let first = create_truck_load(&mut inv, &vec![], 1, 4, true, 100, 7, &reqs, ctx()).unwrap();
    let loads = vec![first];
    assert_eq!(
        create_truck_load(&mut inv, &loads, 2, 4, true, 100, 7, &reqs, ctx()).unwrap_err(),
        AppError::Conflict
    );
    assert!(create_truck_load(&mut inv, &loads, 3, 4, true, 101, 7, &reqs, ctx()).is_ok());
    assert_eq!(inv.batches[2].remaining_quantity, 8);
}

#[test]
fn delete_just_after_create_restores_stock() {
    let mut inv = stocked();
    let reqs = vec![
        TruckLoadItemRequest { batch_id: None, product_id: Some(1), quantity_loaded: 23 },
        TruckLoadItemRequest { batch_id: Some(2), product_id: None, quantity_loaded: 12 },
    ];
    let load = create_truck_load(&mut inv, &vec![], 1, 4, true, 100, 7, &reqs, ctx()).unwrap();
    assert!(load.items.iter().all(|it| it.quantity_sold == 0 && it.quantity_returned == 0));
    assert_eq!(inv.batches[0].remaining_quantity, 0);
    assert_eq!(inv.batches[1].remaining_quantity, 27);
    assert_eq!(load.release(&mut inv, ctx()), Ok(()));
    assert_eq!(inv.batches[0].remaining_quantity, 20);
    assert_eq!(inv.batches[1].remaining_quantity, 30);
    assert_eq!(inv.batches[2].remaining_quantity, 12);
}

#[test]
fn reconcile_errors_name_the_fault() {
    let mut inv = stocked();
    let mut load = TruckLoad::new(1, 4, 100, 7);
    load.load_specific_batch(&mut inv, 2, 10, ctx()).unwrap();
    load.sell(2, 4).unwrap();
    let neg = ReconcileTruckLoadRequest { returns: vec![TruckLoadReturnItem { batch_id: 2, quantity_returned: -1 }] };
    assert_eq!(load.reconcile(&mut inv, &neg, ctx()), Err(AppError::Validation));
    let twice = ReconcileTruckLoadRequest {
        returns: vec![
            TruckLoadReturnItem { batch_id: 2, quantity_returned: 4 },
            TruckLoadReturnItem { batch_id: 2, quantity_returned: 3 },
        ],
    };
    assert_eq!(load.reconcile(&mut inv, &twice, ctx()), Err(AppError::Validation));
    assert_eq!(inv.batches[2].remaining_quantity, 2);
    let ok = ReconcileTruckLoadRequest { returns: vec![TruckLoadReturnItem { batch_id: 2, quantity_returned: 6 }] };
    assert_eq!(load.reconcile(&mut inv, &ok, ctx()), Ok(()));
    assert_eq!(load.items[0].quantity_returned, 6);
    assert_eq!(inv.batches[2].remaining_quantity, 8);
    assert_eq!(inv.movements.last().unwrap().movement_type, StockMovementType::TruckReturnIn);
    assert_eq!(inv.movements.last().unwrap().quantity, 6);
}

#[test]
fn load_movements_refer_to_the_load() {
    let mut inv = stocked();
    let mut load = TruckLoad::new(5, 4, 100, 7);
    load.load_product_fifo(&mut inv, 1, 22, ctx()).unwrap();
    let last = inv.movements.len();
    assert_eq!(inv.movements[last - 1].reference_id, 5);
    assert_eq!(inv.movements[last - 2].reference_id, 5);
    assert_eq!(inv.movements[last - 1].reference_type, ReferenceType::TruckLoad);
}
