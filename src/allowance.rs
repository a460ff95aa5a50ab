use vstd::prelude::*;
use crate::error::AppError;

verus! {

#[derive(Debug, Clone, Copy, PartialEq, Eq, Structural)]
pub enum AllowanceStatus {
    Pending,
    Allocated,
    Finalized,
}

/// The part of a day's transport budget given to one truck.
#[derive(Debug, Clone, Copy, PartialEq, Eq, Structural)]
pub struct TruckAllocation {
    pub truck_id: u64,
    pub amount: i64,
}

/// What allocation needs to know of a truck.
#[derive(Debug, Clone, Copy, PartialEq, Eq, Structural)]
pub struct TruckLimit {
    pub truck_id: u64,
    pub is_active: bool,
    pub max_allowance_limit: i64,
}

/// A day's transport budget and its split over trucks.
#[derive(Debug)]
pub struct TransportAllowance {
    pub id: u64,
    pub allowance_date: i32,
    pub total_allowance: i64,
    pub status: AllowanceStatus,
    pub allocations: Vec<TruckAllocation>,
}

pub open spec fn allocated_sum(s: Seq<TruckAllocation>) -> int
    decreases s.len(),
{
    if s.len() == 0 {
        0
    } else {
        allocated_sum(s.drop_last()) + s.last().amount
    }
}

/// What truck `t` was given, zero if nothing.
pub open spec fn amount_of(s: Seq<TruckAllocation>, t: u64) -> int
    decreases s.len(),
{
    if s.len() == 0 {
        0
    } else if s.last().truck_id == t {
        s.last().amount as int
    } else {
        amount_of(s.drop_last(), t)
    }
}

pub open spec fn allocates(s: Seq<TruckAllocation>, t: u64) -> bool {
    exists|i: int| 0 <= i < s.len() && (#[trigger] s[i]).truck_id == t
}

/// The truck's limits, where the truck is listed.
pub open spec fn limit_of(trucks: Seq<TruckLimit>, t: u64) -> Option<TruckLimit>
    decreases trucks.len(),
{
    if trucks.len() == 0 {
        None
    } else if trucks.last().truck_id == t {
        Some(trucks.last())
    } else {
        limit_of(trucks.drop_last(), t)
    }
}

/// One requested allocation is acceptable on its own: a positive amount for a
/// listed, active truck, within the truck's limit.
pub open spec fn request_ok(a: TruckAllocation, trucks: Seq<TruckLimit>) -> bool {
    &&& a.amount > 0
    &&& limit_of(trucks, a.truck_id) is Some
    &&& limit_of(trucks, a.truck_id)->Some_0.is_active
    &&& a.amount <= limit_of(trucks, a.truck_id)->Some_0.max_allowance_limit
}

impl TransportAllowance {
    pub open spec fn wf(&self) -> bool {
        let s = self.allocations@;
        &&& self.total_allowance > 0
        &&& forall|i: int| 0 <= i < s.len() ==> (#[trigger] s[i]).amount > 0
        &&& forall|i: int, j: int|
            0 <= i < j < s.len() ==> (#[trigger] s[i]).truck_id != (#[trigger] s[j]).truck_id
        &&& allocated_sum(s) <= self.total_allowance
    }

    /// A new, pending budget; it must be positive.
    pub fn new(id: u64, allowance_date: i32, total_allowance: i64) -> (r: Result<
        TransportAllowance,
        AppError,
    >)
        ensures
            total_allowance <= 0 <==> r == Err::<TransportAllowance, AppError>(AppError::Validation),
            total_allowance > 0 <==> r is Ok,
            r is Ok ==> {
                let a = r->Ok_0;
                &&& a.wf()
                &&& a.id == id && a.allowance_date == allowance_date
                &&& a.total_allowance == total_allowance
                &&& a.status == AllowanceStatus::Pending
                &&& a.allocations@.len() == 0
            },
    {
        if total_allowance <= 0 {
            return Err(AppError::Validation);
        }
        Ok(
            TransportAllowance {
                id,
                allowance_date,
                total_allowance,
                status: AllowanceStatus::Pending,
                allocations: Vec::new(),
            },
        )
    }

    /// A new, pending budget for a day that has none yet among `existing`.
    pub fn new_for_day(
        existing: &Vec<TransportAllowance>,
        id: u64,
        allowance_date: i32,
        total_allowance: i64,
    ) -> (r: Result<TransportAllowance, AppError>)
        ensures
            (exists|i: int|
                0 <= i < existing@.len() && (#[trigger] existing@[i]).allowance_date == allowance_date)
                ==> r == Err::<TransportAllowance, AppError>(AppError::Conflict),
            !(exists|i: int|
                0 <= i < existing@.len() && (#[trigger] existing@[i]).allowance_date == allowance_date)
                ==> (total_allowance <= 0 <==> r == Err::<TransportAllowance, AppError>(
                AppError::Validation)) && (total_allowance > 0 <==> r is Ok),
            r is Ok ==> {
                let a = r->Ok_0;
                &&& a.wf()
                &&& a.id == id && a.allowance_date == allowance_date
                &&& a.total_allowance == total_allowance
                &&& a.status == AllowanceStatus::Pending
                &&& a.allocations@.len() == 0
            },
    {
        let mut i: usize = 0;
        while i < existing.len()
            invariant
                i <= existing@.len(),
                forall|j: int| 0 <= j < i ==> (#[trigger] existing@[j]).allowance_date != allowance_date,
            decreases existing@.len() - i,
        {
            if existing[i].allowance_date == allowance_date {
                return Err(AppError::Conflict);
            }
            i = i + 1;
        }
        Self::new(id, allowance_date, total_allowance)
    }

    /// The sum already allocated to trucks.
    pub fn allocated_amount(&self) -> (r: i64)
        requires
            self.wf(),
        ensures
            r == allocated_sum(self.allocations@),
    {
        let mut acc: i64 = 0;
        let mut i: usize = 0;
        while i < self.allocations.len()
            invariant
                self.wf(),
                i <= self.allocations@.len(),
                acc == allocated_sum(self.allocations@.take(i as int)),
                0 <= acc <= self.total_allowance,
            decreases self.allocations@.len() - i,
        {
            proof {
                let s = self.allocations@;
                assert(s.take(i + 1).drop_last() =~= s.take(i as int));
                lemma_prefix_sum_le(s, i + 1);
            }
            acc = acc + self.allocations[i].amount;
            i = i + 1;
        }
        proof {
            assert(self.allocations@.take(i as int) =~= self.allocations@);
        }
        acc
    }

    /// What is left of the budget to allocate.
    pub fn remaining_amount(&self) -> (r: i64)
        requires
            self.wf(),
        ensures
            r == self.total_allowance - allocated_sum(self.allocations@),
            r >= 0,
    {
        proof {
            lemma_sum_nonneg(self.allocations@);
        }
        self.total_allowance - self.allocated_amount()
    }

    /// What truck `truck_id` was given, zero if nothing.
    pub fn amount_for(&self, truck_id: u64) -> (r: i64)
        ensures
            r == amount_of(self.allocations@, truck_id),
    {
        let mut i: usize = self.allocations.len();
        proof {
            assert(self.allocations@.take(i as int) =~= self.allocations@);
        }
        while i > 0
            invariant
                i <= self.allocations@.len(),
                amount_of(self.allocations@, truck_id) == amount_of(
                    self.allocations@.take(i as int),
                    truck_id,
                ),
            decreases i,
        {
            proof {
                assert(self.allocations@.take(i as int).drop_last() =~= self.allocations@.take(
                    i - 1,
                ));
            }
            if self.allocations[i - 1].truck_id == truck_id {
                return self.allocations[i - 1].amount;
            }
            i = i - 1;
        }
        proof {
            assert(self.allocations@.take(0) =~= Seq::<TruckAllocation>::empty());
        }
        0
    }

    /// Closes the budget; a finalized budget cannot change any more.
    pub fn finalize(&mut self) -> (r: Result<(), AppError>)
        requires
            old(self).wf(),
        ensures
            final(self).wf(),
            old(self).status == AllowanceStatus::Finalized <==> r == Err::<(), AppError>(
                AppError::Conflict,
            ),
            old(self).status != AllowanceStatus::Finalized <==> r is Ok,
            r is Ok ==> final(self).status == AllowanceStatus::Finalized,
            r is Err ==> final(self).status == old(self).status,
            final(self).allocations@ == old(self).allocations@,
            final(self).total_allowance == old(self).total_allowance,
    {
        match self.status {
            AllowanceStatus::Finalized => Err(AppError::Conflict),
            _ => {
                self.status = AllowanceStatus::Finalized;
                Ok(())
            },
        }
    }
}

/// With positive amounts, a prefix never allocates more than the whole.
pub proof fn lemma_prefix_sum_le(s: Seq<TruckAllocation>, k: int)
    requires
        0 <= k <= s.len(),
        forall|i: int| 0 <= i < s.len() ==> (#[trigger] s[i]).amount > 0,
    ensures
        0 <= allocated_sum(s.take(k)) <= allocated_sum(s),
    decreases s.len() - k,
{
    assert forall|i: int| 0 <= i < s.take(k).len() implies (#[trigger] s.take(k)[i]).amount > 0 by {
        assert(s.take(k)[i] == s[i]);
    }
    lemma_sum_nonneg(s.take(k));
    if k < s.len() {
        lemma_prefix_sum_le(s, k + 1);
        assert(s.take(k + 1).drop_last() =~= s.take(k));
        assert(s[k].amount > 0);
    } else {
        assert(s.take(k) =~= s);
        lemma_sum_nonneg(s);
    }
}

proof fn lemma_sum_nonneg(s: Seq<TruckAllocation>)
    requires
        forall|i: int| 0 <= i < s.len() ==> (#[trigger] s[i]).amount > 0,
    ensures
        allocated_sum(s) >= 0,
    decreases s.len(),
{
    if s.len() > 0 {
        assert(s[s.len() - 1].amount > 0);
        lemma_sum_nonneg(s.drop_last());
    }
}


/// Why the request at position `n` of `reqs` is refused, if it is, given the
/// allocations that exist and the requests before it.
pub open spec fn request_error(
    reqs: Seq<TruckAllocation>,
    n: int,
    trucks: Seq<TruckLimit>,
    existing: Seq<TruckAllocation>,
) -> Option<AppError> {
    let a = reqs[n];
    if a.amount <= 0 {
        Some(AppError::Validation)
    } else if limit_of(trucks, a.truck_id) is None {
        Some(AppError::NotFound)
    } else if !limit_of(trucks, a.truck_id)->Some_0.is_active {
        Some(AppError::Validation)
    } else if a.amount > limit_of(trucks, a.truck_id)->Some_0.max_allowance_limit {
        Some(AppError::Validation)
    } else if allocates(existing, a.truck_id) || allocates(reqs.take(n), a.truck_id) {
        Some(AppError::Conflict)
    } else {
        None
    }
}

/// The error of the first refused request among the first `n`.
pub open spec fn first_request_error(
    reqs: Seq<TruckAllocation>,
    n: int,
    trucks: Seq<TruckLimit>,
    existing: Seq<TruckAllocation>,
) -> Option<AppError>
    decreases n,
{
    if n <= 0 {
        None
    } else if first_request_error(reqs, n - 1, trucks, existing) is Some {
        first_request_error(reqs, n - 1, trucks, existing)
    } else {
        request_error(reqs, n - 1, trucks, existing)
    }
}

/// Why an allocation to trucks is refused, if it is.
pub open spec fn allocation_error(
    a: &TransportAllowance,
    reqs: Seq<TruckAllocation>,
    trucks: Seq<TruckLimit>,
) -> Option<AppError> {
    if a.status == AllowanceStatus::Finalized {
        Some(AppError::Conflict)
    } else if reqs.len() == 0 {
        Some(AppError::Validation)
    } else if allocated_sum(a.allocations@) + allocated_sum(reqs) > a.total_allowance {
        Some(AppError::Validation)
    } else {
        first_request_error(reqs, reqs.len() as int, trucks, a.allocations@)
    }
}

fn find_limit(trucks: &Vec<TruckLimit>, t: u64) -> (r: Option<TruckLimit>)
    ensures
        r == limit_of(trucks@, t),
{
    let mut i: usize = trucks.len();
    proof {
        assert(trucks@.take(i as int) =~= trucks@);
    }
    while i > 0
        invariant
            i <= trucks@.len(),
            limit_of(trucks@, t) == limit_of(trucks@.take(i as int), t),
        decreases i,
    {
        proof {
            assert(trucks@.take(i as int).drop_last() =~= trucks@.take(i - 1));
        }
        if trucks[i - 1].truck_id == t {
            return Some(trucks[i - 1]);
        }
        i = i - 1;
    }
    proof {
        assert(trucks@.take(0) =~= Seq::<TruckLimit>::empty());
    }
    None
}

fn has_truck(s: &Vec<TruckAllocation>, n: usize, t: u64) -> (r: bool)
    requires
        n <= s@.len(),
    ensures
        r == allocates(s@.take(n as int), t),
{
    let mut i: usize = 0;
    while i < n
        invariant
            n <= s@.len(),
            i <= n,
            forall|j: int| 0 <= j < i ==> (#[trigger] s@[j]).truck_id != t,
        decreases n - i,
    {
        if s[i].truck_id == t {
            proof {
                assert(s@.take(n as int)[i as int].truck_id == t);
            }
            return true;
        }
        i = i + 1;
    }
    proof {
        assert forall|j: int| 0 <= j < s@.take(n as int).len() implies (#[trigger] s@.take(n as int)[j]).truck_id != t by {
            assert(s@.take(n as int)[j] == s@[j]);
        }
    }
    false
}

proof fn lemma_sum_bounds(s: Seq<TruckAllocation>)
    ensures
        s.len() * (i64::MIN as int) <= allocated_sum(s) <= s.len() * (i64::MAX as int),
    decreases s.len(),
{
    if s.len() > 0 {
        lemma_sum_bounds(s.drop_last());
    }
}

fn sum_requests(s: &Vec<TruckAllocation>) -> (r: i128)
    ensures
        r == allocated_sum(s@),
{
    let mut acc: i128 = 0;
    let mut i: usize = 0;
    while i < s.len()
        invariant
            i <= s@.len(),
            acc == allocated_sum(s@.take(i as int)),
        decreases s@.len() - i,
    {
        proof {
            assert(s@.take(i + 1).drop_last() =~= s@.take(i as int));
            lemma_sum_bounds(s@.take(i + 1));
        }
        acc = acc + s[i].amount as i128;
        i = i + 1;
    }
    proof {
        assert(s@.take(i as int) =~= s@);
    }
    acc
}

impl TransportAllowance {
    /// Splits the budget over trucks: each a positive amount for a listed,
    /// active truck within its limit, no truck twice, and no more in all than
    /// the budget. All requests or, on an error, none.
    #[verifier::loop_isolation(false)]
    pub fn allocate(&mut self, reqs: &Vec<TruckAllocation>, trucks: &Vec<TruckLimit>) -> (r: Result<(), AppError>)
        requires
            old(self).wf(),
        ensures
            final(self).wf(),
            match allocation_error(old(self), reqs@, trucks@) {
                Some(e) => r == Err::<(), AppError>(e) && final(self).allocations@ == old(self).allocations@
                    && final(self).status == old(self).status,
                None => r is Ok && final(self).allocations@ == old(self).allocations@ + reqs@
                    && final(self).status == AllowanceStatus::Allocated,
            },
            final(self).total_allowance == old(self).total_allowance,
            final(self).id == old(self).id,
            final(self).allowance_date == old(self).allowance_date,
    {
        match self.status {
            AllowanceStatus::Finalized => {
                return Err(AppError::Conflict);
            },
            _ => {},
        }
        if reqs.len() == 0 {
            return Err(AppError::Validation);
        }
        let existing = self.allocated_amount() as i128;
        let requested = sum_requests(reqs);
        if requested > self.total_allowance as i128 - existing {
            return Err(AppError::Validation);
        }
        let mut k: usize = 0;
        while k < reqs.len()
            invariant
                k <= reqs@.len(),
                first_request_error(reqs@, k as int, trucks@, self.allocations@) is None,
            decreases reqs@.len() - k,
        {
            let a = reqs[k];
            let err = if a.amount <= 0 {
                Some(AppError::Validation)
            } else {
                match find_limit(trucks, a.truck_id) {
                    None => Some(AppError::NotFound),
                    Some(t) => if !t.is_active {
                        Some(AppError::Validation)
                    } else if a.amount > t.max_allowance_limit {
                        Some(AppError::Validation)
                    } else if has_truck(&self.allocations, self.allocations.len(), a.truck_id)
                        || has_truck(reqs, k, a.truck_id) {
                        Some(AppError::Conflict)
                    } else {
                        None
                    },
                }
            };
            proof {
                assert(self.allocations@.take(self.allocations@.len() as int) =~= self.allocations@);
            }
            match err {
                Some(e) => {
                    proof {
                        lemma_first_error_stable(reqs@, k + 1, reqs@.len() as int, trucks@, self.allocations@);
                    }
                    return Err(e);
                },
                None => {},
            }
            k = k + 1;
        }
        let ghost old_allocs = self.allocations@;
        let mut k: usize = 0;
        while k < reqs.len()
            invariant
                k <= reqs@.len(),
                self.allocations@ == old_allocs + reqs@.take(k as int),
                old_allocs == old(self).allocations@,
                self.total_allowance == old(self).total_allowance,
                self.id == old(self).id,
                self.allowance_date == old(self).allowance_date,
            decreases reqs@.len() - k,
        {
            self.allocations.push(reqs[k]);
            proof {
                assert(reqs@.take(k + 1) =~= reqs@.take(k as int).push(reqs@[k as int]));
            }
            k = k + 1;
        }
        proof {
            assert(reqs@.take(k as int) =~= reqs@);
            self.lemma_appended_ok(old_allocs, reqs@, trucks@);
        }
        self.status = AllowanceStatus::Allocated;
        Ok(())
    }

    proof fn lemma_appended_ok(&self, old_allocs: Seq<TruckAllocation>, reqs: Seq<TruckAllocation>, trucks: Seq<TruckLimit>)
        requires
            self.allocations@ == old_allocs + reqs,
            forall|i: int| 0 <= i < old_allocs.len() ==> (#[trigger] old_allocs[i]).amount > 0,
            forall|i: int, j: int|
                0 <= i < j < old_allocs.len() ==> (#[trigger] old_allocs[i]).truck_id != (#[trigger] old_allocs[j]).truck_id,
            first_request_error(reqs, reqs.len() as int, trucks, old_allocs) is None,
            allocated_sum(old_allocs) + allocated_sum(reqs) <= self.total_allowance,
            self.total_allowance > 0,
        ensures
            self.wf(),
    {
        let s = self.allocations@;
        lemma_no_request_error(reqs, reqs.len() as int, trucks, old_allocs);
        lemma_sum_concat(old_allocs, reqs);
        assert forall|i: int| 0 <= i < s.len() implies (#[trigger] s[i]).amount > 0 by {
            if i >= old_allocs.len() {
                assert(s[i] == reqs[i - old_allocs.len()]);
                assert(request_error(reqs, i - old_allocs.len(), trucks, old_allocs) is None);
            } else {
                assert(s[i] == old_allocs[i]);
            }
        }
        assert forall|i: int, j: int|
            0 <= i < j < s.len() implies (#[trigger] s[i]).truck_id != (#[trigger] s[j]).truck_id by {
            if j >= old_allocs.len() {
                let jr = j - old_allocs.len();
                assert(s[j] == reqs[jr]);
                assert(request_error(reqs, jr, trucks, old_allocs) is None);
                if i >= old_allocs.len() {
                    let ir = i - old_allocs.len();
                    assert(s[i] == reqs[ir]);
                    assert(reqs.take(jr)[ir] == reqs[ir]);
                } else {
                    assert(s[i] == old_allocs[i]);
                }
            } else {
                assert(s[i] == old_allocs[i]);
                assert(s[j] == old_allocs[j]);
            }
        }
    }
}

proof fn lemma_no_request_error(
    reqs: Seq<TruckAllocation>,
    n: int,
    trucks: Seq<TruckLimit>,
    existing: Seq<TruckAllocation>,
)
    requires
        0 <= n <= reqs.len(),
        first_request_error(reqs, n, trucks, existing) is None,
    ensures
        forall|i: int| 0 <= i < n ==> #[trigger] request_error(reqs, i, trucks, existing) is None,
    decreases n,
{
    if n > 0 {
        lemma_no_request_error(reqs, n - 1, trucks, existing);
    }
}

proof fn lemma_first_error_stable(
    reqs: Seq<TruckAllocation>,
    n: int,
    m: int,
    trucks: Seq<TruckLimit>,
    existing: Seq<TruckAllocation>,
)
    requires
        0 <= n <= m,
        first_request_error(reqs, n, trucks, existing) is Some,
    ensures
        first_request_error(reqs, m, trucks, existing) == first_request_error(reqs, n, trucks, existing),
    decreases m - n,
{
    if m > n {
        lemma_first_error_stable(reqs, n, m - 1, trucks, existing);
    }
}

proof fn lemma_sum_concat(a: Seq<TruckAllocation>, b: Seq<TruckAllocation>)
    ensures
        allocated_sum(a + b) == allocated_sum(a) + allocated_sum(b),
    decreases b.len(),
{
    if b.len() == 0 {
        assert(a + b =~= a);
    } else {
        assert((a + b).drop_last() =~= a + b.drop_last());
        lemma_sum_concat(a, b.drop_last());
    }
}

proof fn lemma_sum_update(s: Seq<TruckAllocation>, j: int, x: TruckAllocation)
    requires
        0 <= j < s.len(),
    ensures
        allocated_sum(s.update(j, x)) == allocated_sum(s) - s[j].amount + x.amount,
    decreases s.len(),
{
    let u = s.update(j, x);
    if j == s.len() - 1 {
        assert(u.drop_last() =~= s.drop_last());
    } else {
        assert(u.drop_last() =~= s.drop_last().update(j, x));
        lemma_sum_update(s.drop_last(), j, x);
    }
}

/// Why changing a truck's allocation is refused, if it is.
pub open spec fn update_error(a: &TransportAllowance, truck_id: u64, amount: int, trucks: Seq<TruckLimit>) -> Option<AppError> {
    if a.status == AllowanceStatus::Finalized {
        Some(AppError::Conflict)
    } else if amount <= 0 {
        Some(AppError::Validation)
    } else if !allocates(a.allocations@, truck_id) {
        Some(AppError::NotFound)
    } else if limit_of(trucks, truck_id) is None {
        Some(AppError::NotFound)
    } else if amount > limit_of(trucks, truck_id)->Some_0.max_allowance_limit {
        Some(AppError::Validation)
    } else if allocated_sum(a.allocations@) - amount_of(a.allocations@, truck_id) + amount > a.total_allowance {
        Some(AppError::Validation)
    } else {
        None
    }
}

impl TransportAllowance {
    /// Gives a truck that already has an allocation a new amount, within the
    /// truck's limit and the budget.
    pub fn update_allocation(&mut self, truck_id: u64, amount: i64, trucks: &Vec<TruckLimit>) -> (r: Result<(), AppError>)
        requires
            old(self).wf(),
        ensures
            final(self).wf(),
            match update_error(old(self), truck_id, amount as int, trucks@) {
                Some(e) => r == Err::<(), AppError>(e) && final(self).allocations@ == old(self).allocations@,
                None => r is Ok && exists|j: int|
                    0 <= j < old(self).allocations@.len() && (#[trigger] old(self).allocations@[j]).truck_id == truck_id
                        && final(self).allocations@ == old(self).allocations@.update(
                        j,
                        TruckAllocation { truck_id, amount },
                    ),
            },
            final(self).status == old(self).status,
            final(self).total_allowance == old(self).total_allowance,
    {
        match self.status {
            AllowanceStatus::Finalized => {
                return Err(AppError::Conflict);
            },
            _ => {},
        }
        if amount <= 0 {
            return Err(AppError::Validation);
        }
        let mut j: usize = 0;
        let mut found = false;
        while j < self.allocations.len() && !found
            invariant
                j <= self.allocations@.len(),
                found ==> j < self.allocations@.len() && self.allocations@[j as int].truck_id == truck_id,
                forall|i: int| 0 <= i < j ==> (#[trigger] self.allocations@[i]).truck_id != truck_id,
            decreases self.allocations@.len() - j + if found {
                0int
            } else {
                1int
            },
        {
            if self.allocations[j].truck_id == truck_id {
                found = true;
            } else {
                j = j + 1;
            }
        }
        if !found {
            return Err(AppError::NotFound);
        }
        let limit = match find_limit(trucks, truck_id) {
            Some(t) => t,
            None => {
                return Err(AppError::NotFound);
            },
        };
        if amount > limit.max_allowance_limit {
            return Err(AppError::Validation);
        }
        let current = self.amount_for(truck_id);
        let total = self.allocated_amount();
        proof {
            lemma_amount_of_index(self.allocations@, j as int, truck_id);
            lemma_prefix_sum_le(self.allocations@, j as int);
            lemma_entry_le_sum(self.allocations@, j as int);
        }
        if amount as i128 > self.total_allowance as i128 - (total as i128 - current as i128) {
            return Err(AppError::Validation);
        }
        let ghost before = self.allocations@;
        self.allocations.set(j, TruckAllocation { truck_id, amount });
        proof {
            lemma_sum_update(before, j as int, TruckAllocation { truck_id, amount });
            let s = self.allocations@;
            assert forall|a: int, c: int| 0 <= a < c < s.len() implies (#[trigger] s[a]).truck_id != (#[trigger] s[c]).truck_id by {
                assert(before[a].truck_id != before[c].truck_id);
            }
            assert forall|i: int| 0 <= i < s.len() implies (#[trigger] s[i]).amount > 0 by {
                assert(before[i].amount > 0);
            }
        }
        Ok(())
    }
}

/// With distinct trucks, the amount of the truck at position `j` is what
/// `amount_of` finds.
proof fn lemma_amount_of_index(s: Seq<TruckAllocation>, j: int, t: u64)
    requires
        0 <= j < s.len(),
        s[j].truck_id == t,
        forall|a: int, c: int| 0 <= a < c < s.len() ==> (#[trigger] s[a]).truck_id != (#[trigger] s[c]).truck_id,
    ensures
        amount_of(s, t) == s[j].amount,
    decreases s.len(),
{
    if j < s.len() - 1 {
        assert(s[s.len() - 1].truck_id != t);
        assert forall|a: int, c: int| 0 <= a < c < s.drop_last().len() implies (#[trigger] s.drop_last()[a]).truck_id != (#[trigger] s.drop_last()[c]).truck_id by {
            assert(s.drop_last()[a] == s[a]);
            assert(s.drop_last()[c] == s[c]);
        }
        lemma_amount_of_index(s.drop_last(), j, t);
    }
}

/// With positive amounts, one allocation is at most the sum.
proof fn lemma_entry_le_sum(s: Seq<TruckAllocation>, j: int)
    requires
        0 <= j < s.len(),
        forall|i: int| 0 <= i < s.len() ==> (#[trigger] s[i]).amount > 0,
    ensures
        s[j].amount <= allocated_sum(s),
{
    lemma_prefix_sum_le(s, j + 1);
    lemma_prefix_sum_le(s, j);
    assert(s.take(j + 1).drop_last() =~= s.take(j));
}
} // verus!
