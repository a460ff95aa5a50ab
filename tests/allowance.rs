use dairy_core::allowance::{AllowanceStatus, TransportAllowance, TruckAllocation, TruckLimit};
use dairy_core::error::AppError;

fn trucks() -> Vec<TruckLimit> {
    vec![
        TruckLimit { truck_id: 1, is_active: true, max_allowance_limit: 300 },
        TruckLimit { truck_id: 2, is_active: true, max_allowance_limit: 100 },
        TruckLimit { truck_id: 3, is_active: false, max_allowance_limit: 300 },
    ]
}

#[test]
fn allocation_respects_budget_and_limits() {
    assert_eq!(TransportAllowance::new(1, 100, 0).unwrap_err(), AppError::Validation);
    let mut a = TransportAllowance::new(1, 100, 400).unwrap();
    let t = trucks();
    assert_eq!(a.allocate(&vec![], &t), Err(AppError::Validation));
    assert_eq!(a.allocate(&vec![TruckAllocation { truck_id: 2, amount: 150 }], &t), Err(AppError::Validation));
    assert_eq!(a.allocate(&vec![TruckAllocation { truck_id: 3, amount: 50 }], &t), Err(AppError::Validation));
    assert_eq!(a.allocate(&vec![TruckAllocation { truck_id: 9, amount: 50 }], &t), Err(AppError::NotFound));
    assert_eq!(a.allocate(&vec![TruckAllocation { truck_id: 1, amount: 0 }], &t), Err(AppError::Validation));
    assert_eq!(a.allocate(&vec![TruckAllocation { truck_id: 1, amount: 401 }], &t), Err(AppError::Validation));
    assert_eq!(
        a.allocate(&vec![TruckAllocation { truck_id: 1, amount: 10 }, TruckAllocation { truck_id: 1, amount: 10 }], &t),
        Err(AppError::Conflict)
    );
    assert_eq!(a.allocations.len(), 0);
    assert_eq!(a.allocate(&vec![TruckAllocation { truck_id: 1, amount: 250 }], &t), Ok(()));
    assert_eq!(a.status, AllowanceStatus::Allocated);
    assert_eq!(a.allocate(&vec![TruckAllocation { truck_id: 1, amount: 10 }], &t), Err(AppError::Conflict));
    assert_eq!(a.allocate(&vec![TruckAllocation { truck_id: 2, amount: 100 }], &t), Ok(()));
    assert_eq!(a.allocated_amount(), 350);
    assert_eq!(a.amount_for(2), 100);
    assert_eq!(a.amount_for(3), 0);
}

#[test]
fn allocation_update_and_finalize() {
    let t = trucks();
    let mut a = TransportAllowance::new(1, 100, 400).unwrap();
    a.allocate(&vec![TruckAllocation { truck_id: 1, amount: 250 }, TruckAllocation { truck_id: 2, amount: 100 }], &t)
        .unwrap();
    assert_eq!(a.update_allocation(1, 300, &t), Ok(()));
    assert_eq!(a.amount_for(1), 300);
    assert_eq!(a.update_allocation(2, 101, &t), Err(AppError::Validation));
    assert_eq!(a.update_allocation(3, 10, &t), Err(AppError::NotFound));
    assert_eq!(a.update_allocation(1, 0, &t), Err(AppError::Validation));
    assert_eq!(a.allocated_amount(), 400);
    assert_eq!(a.finalize(), Ok(()));
    assert_eq!(a.finalize(), Err(AppError::Conflict));
    assert_eq!(a.update_allocation(1, 10, &t), Err(AppError::Conflict));
    assert_eq!(a.allocate(&vec![TruckAllocation { truck_id: 2, amount: 1 }], &t), Err(AppError::Conflict));
}

#[test]
fn remaining_budget_and_finalize_succeeds_once() {
    let t = trucks();
    let mut a = TransportAllowance::new(1, 100, 400).unwrap();
    assert_eq!(a.remaining_amount(), 400);
    a.allocate(&vec![TruckAllocation { truck_id: 1, amount: 150 }], &t).unwrap();
    assert_eq!(a.remaining_amount(), 250);
    assert_eq!(a.finalize(), Ok(()));
    assert_eq!(a.status, AllowanceStatus::Finalized);
    assert_eq!(a.finalize(), Err(AppError::Conflict));
    assert_eq!(a.remaining_amount(), 250);
}
