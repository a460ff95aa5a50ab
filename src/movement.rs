use vstd::prelude::*;

verus! {

/// The kind of an entry of the stock ledger.
#[derive(Debug, Clone, Copy, PartialEq, Eq, Structural)]
pub enum StockMovementType {
    DeliveryIn,
    TruckLoadOut,
    SaleOut,
    TruckReturnIn,
    Adjustment,
    ExpiredOut,
}

/// What caused a movement.
#[derive(Debug, Clone, Copy, PartialEq, Eq, Structural)]
pub enum ReferenceType {
    Delivery,
    TruckLoad,
    Sale,
    Reconciliation,
    Manual,
}

/// One append-only entry of the stock ledger. `quantity` is a magnitude whose
/// sign is implied by the type, except for `Adjustment`, where it is signed.
#[derive(Debug, Clone, Copy, PartialEq, Eq, Structural)]
pub struct StockMovement {
    pub id: u64,
    pub batch_id: u64,
    pub product_id: u64,
    pub movement_type: StockMovementType,
    pub quantity: i64,
    pub reference_type: ReferenceType,
    pub reference_id: u64,
    pub created_by: u64,
    pub movement_date: i32,
}

impl StockMovementType {
    /// Inbound kinds add to a batch; `Adjustment` adds its signed quantity.
    pub open spec fn is_inbound_spec(self) -> bool {
        match self {
            StockMovementType::DeliveryIn | StockMovementType::TruckReturnIn
                | StockMovementType::Adjustment => true,
            _ => false,
        }
    }

    pub fn is_inbound(&self) -> (r: bool)
        ensures
            r == self.is_inbound_spec(),
    {
        match self {
            StockMovementType::DeliveryIn | StockMovementType::TruckReturnIn
                | StockMovementType::Adjustment => true,
            _ => false,
        }
    }

    /// Kinds that also change the batch's initial quantity.
    pub open spec fn changes_capacity(self) -> bool {
        match self {
            StockMovementType::DeliveryIn | StockMovementType::Adjustment => true,
            _ => false,
        }
    }

    /// The snake-case name under which the kind is stored and shown.
    pub fn as_str(&self) -> (r: &'static str)
        ensures
            r@ == match *self {
                StockMovementType::DeliveryIn => "delivery_in"@,
                StockMovementType::TruckLoadOut => "truck_load_out"@,
                StockMovementType::SaleOut => "sale_out"@,
                StockMovementType::TruckReturnIn => "truck_return_in"@,
                StockMovementType::Adjustment => "adjustment"@,
                StockMovementType::ExpiredOut => "expired_out"@,
            },
    {
        match self {
            StockMovementType::DeliveryIn => "delivery_in",
            StockMovementType::TruckLoadOut => "truck_load_out",
            StockMovementType::SaleOut => "sale_out",
            StockMovementType::TruckReturnIn => "truck_return_in",
            StockMovementType::Adjustment => "adjustment",
            StockMovementType::ExpiredOut => "expired_out",
        }
    }
}

/// The signed effect of a movement of kind `t` and quantity `q` on its batch's
/// remaining quantity.
pub open spec fn signed_quantity(t: StockMovementType, q: int) -> int {
    if t.is_inbound_spec() {
        q
    } else {
        -q
    }
}

/// The effect of a movement of kind `t` and quantity `q` on its batch's
/// initial quantity.
pub open spec fn capacity_quantity(t: StockMovementType, q: int) -> int {
    if t.changes_capacity() {
        q
    } else {
        0
    }
}

pub open spec fn delta(m: StockMovement) -> int {
    signed_quantity(m.movement_type, m.quantity as int)
}

pub open spec fn capacity_delta(m: StockMovement) -> int {
    capacity_quantity(m.movement_type, m.quantity as int)
}

/// The effect of a movement on stock that is neither received nor adjusted:
/// loads, sales, returns and write-offs.
pub open spec fn flow_delta(m: StockMovement) -> int {
    delta(m) - capacity_delta(m)
}

pub open spec fn delta_sum(s: Seq<StockMovement>) -> int
    decreases s.len(),
{
    if s.len() == 0 {
        0
    } else {
        delta_sum(s.drop_last()) + delta(s.last())
    }
}

pub open spec fn capacity_sum(s: Seq<StockMovement>) -> int
    decreases s.len(),
{
    if s.len() == 0 {
        0
    } else {
        capacity_sum(s.drop_last()) + capacity_delta(s.last())
    }
}

pub open spec fn flow_sum(s: Seq<StockMovement>) -> int
    decreases s.len(),
{
    if s.len() == 0 {
        0
    } else {
        flow_sum(s.drop_last()) + flow_delta(s.last())
    }
}

/// The movements of one batch, in ledger order.
pub open spec fn movements_of(s: Seq<StockMovement>, batch: u64) -> Seq<StockMovement>
    decreases s.len(),
{
    if s.len() == 0 {
        Seq::empty()
    } else if s.last().batch_id == batch {
        movements_of(s.drop_last(), batch).push(s.last())
    } else {
        movements_of(s.drop_last(), batch)
    }
}

/// The balance of a batch after the first `k` entries of the ledger.
pub open spec fn balance_at(s: Seq<StockMovement>, batch: u64, k: int) -> int {
    delta_sum(movements_of(s.take(k), batch))
}

/// The initial quantity of a batch after the first `k` entries of the ledger.
pub open spec fn capacity_at(s: Seq<StockMovement>, batch: u64, k: int) -> int {
    capacity_sum(movements_of(s.take(k), batch))
}

pub proof fn lemma_sums_push(s: Seq<StockMovement>, m: StockMovement)
    ensures
        delta_sum(s.push(m)) == delta_sum(s) + delta(m),
        capacity_sum(s.push(m)) == capacity_sum(s) + capacity_delta(m),
        flow_sum(s.push(m)) == flow_sum(s) + flow_delta(m),
{
    assert(s.push(m).drop_last() =~= s);
}

pub proof fn lemma_movements_of_push(s: Seq<StockMovement>, m: StockMovement, batch: u64)
    ensures
        movements_of(s.push(m), batch) == if m.batch_id == batch {
            movements_of(s, batch).push(m)
        } else {
            movements_of(s, batch)
        },
{
    assert(s.push(m).drop_last() =~= s);
}

/// A batch that no entry names has an empty history.
pub proof fn lemma_movements_of_absent(s: Seq<StockMovement>, batch: u64)
    requires
        forall|k: int| 0 <= k < s.len() ==> (#[trigger] s[k]).batch_id != batch,
    ensures
        movements_of(s, batch) == Seq::<StockMovement>::empty(),
    decreases s.len(),
{
    if s.len() > 0 {
        assert(s.last() == s[s.len() - 1]);
        lemma_movements_of_absent(s.drop_last(), batch);
    }
}

/// The flow of a sequence is its net effect less what changed capacity.
pub proof fn lemma_flow_sum(s: Seq<StockMovement>)
    ensures
        flow_sum(s) == delta_sum(s) - capacity_sum(s),
    decreases s.len(),
{
    if s.len() > 0 {
        lemma_flow_sum(s.drop_last());
    }
}

} // verus!
