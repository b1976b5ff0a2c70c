//! Buffer budgets for RX tools.
//!
//! RX tools (`read`, `wait_for`, `subscribe`) reserve their full requested
//! `max_buffered_bytes` up front from a shared program pool and hand the
//! reservation back when they finish. A request must be non-zero and within
//! the per-tool ceiling, and the pool must hold enough bytes.

use vstd::prelude::*;
use crate::text::{decimal_string, spec_decimal};
use crate::text::ascii_chars;

verus! {

/// Errors produced when a buffer reservation cannot be fulfilled.
#[derive(Debug, Clone, Copy, PartialEq, Eq, Structural)]
pub enum BufferBudgetError {
    /// The requested size exceeds the per-tool ceiling.
    OverToolLimit { requested: usize, tool_limit: usize },
    /// The requested size is zero.
    ZeroRequest,
    /// The program pool has insufficient available bytes.
    InsufficientProgramBudget { requested: usize, available: usize },
}

/// The description of a budget error.
pub open spec fn budget_error_message(e: BufferBudgetError) -> Seq<char> {
    match e {
        BufferBudgetError::OverToolLimit { requested, tool_limit } => "max_buffered_bytes="@ + ascii_chars(
            spec_decimal(requested as nat),
        ) + " exceeds per-tool limit "@ + ascii_chars(spec_decimal(tool_limit as nat)),
        BufferBudgetError::ZeroRequest => "max_buffered_bytes must be > 0"@,
        BufferBudgetError::InsufficientProgramBudget { requested, available } => "insufficient program buffer budget: requested "@
            + ascii_chars(spec_decimal(requested as nat)) + ", available "@ + ascii_chars(spec_decimal(available as nat)),
    }
}

impl BufferBudgetError {
    /// The human-readable description of the error.
    pub fn message(&self) -> (s: String)
        ensures
            s@ == budget_error_message(*self),
    {
        match self {
            BufferBudgetError::OverToolLimit { requested, tool_limit } => {
                let mut s = "max_buffered_bytes=".to_owned();
                let a = decimal_string(*requested as u64);
                s.append(a.as_str());
                s.append(" exceeds per-tool limit ");
                let b = decimal_string(*tool_limit as u64);
                s.append(b.as_str());
                s
            },
            BufferBudgetError::ZeroRequest => "max_buffered_bytes must be > 0".to_owned(),
            BufferBudgetError::InsufficientProgramBudget { requested, available } => {
                let mut s = "insufficient program buffer budget: requested ".to_owned();
                let a = decimal_string(*requested as u64);
                s.append(a.as_str());
                s.append(", available ");
                let b = decimal_string(*available as u64);
                s.append(b.as_str());
                s
            },
        }
    }
}

/// Why a request of `bytes` is refused by a pool with `available` bytes
/// and the per-tool ceiling `tool_limit`, if it is.
pub open spec fn refusal(bytes: usize, tool_limit: usize, available: usize) -> Option<BufferBudgetError> {
    if bytes == 0 {
        Some(BufferBudgetError::ZeroRequest)
    } else if bytes > tool_limit {
        Some(BufferBudgetError::OverToolLimit { requested: bytes, tool_limit })
    } else if available < bytes {
        Some(BufferBudgetError::InsufficientProgramBudget { requested: bytes, available })
    } else {
        None
    }
}

/// A reservation of buffer bytes from a budget.
pub trait BufferReservation {
    /// The number of bytes reserved by this reservation.
    fn bytes(&self) -> usize;
}

/// The bytes a budget handed out; give it back with `release` to the
/// budget that granted it.
pub struct Reservation {
    bytes: usize,
    owner: Ghost<int>,
}

impl Reservation {
    /// The reserved byte count.
    pub closed spec fn size(&self) -> nat {
        self.bytes as nat
    }

    /// The tag of the budget that granted this reservation.
    pub closed spec fn owner(&self) -> int {
        self.owner@
    }
}

impl BufferReservation for Reservation {
    fn bytes(&self) -> (r: usize)
        ensures
            r == self.size(),
    {
        self.bytes
    }
}

/// Reserving buffer space from a shared pool.
pub trait BufferBudget {
    /// The bytes free in the pool (0 for a budget without a pool).
    spec fn free_bytes(&self) -> nat;

    /// `r` was granted by this budget and is still outstanding.
    spec fn accepts(&self, r: Reservation) -> bool;

    /// Reserve `bytes`: refused when zero, over the per-tool ceiling, or
    /// more than the pool holds.
    fn try_reserve(&mut self, bytes: usize) -> (r: Result<Reservation, BufferBudgetError>)
        ensures
            bytes == 0 ==> r == Err::<Reservation, BufferBudgetError>(BufferBudgetError::ZeroRequest),
            r matches Ok(res) ==> res.size() == bytes && final(self).accepts(res),
            r is Err ==> final(self).free_bytes() == old(self).free_bytes(),
    ;

    /// Give a reservation's bytes back to the budget that granted it.
    fn release(&mut self, r: Reservation)
        requires
            old(self).accepts(r),
    ;

    /// The per-tool ceiling.
    fn tool_limit(&self) -> usize;

    /// The total program pool size.
    fn program_limit(&self) -> usize;

    /// The number of bytes currently available in the program pool.
    fn available(&self) -> usize;
}

// ---- pooled budgets ----------------------------------------------------------------

/// What a pooled budget is: its pool size, per-tool ceiling, free bytes and
/// the bytes held by its outstanding reservations.
pub struct PoolModel {
    pub program_limit: nat,
    pub tool_limit: nat,
    pub available: nat,
    pub reserved: nat,
}

/// A pool's settings hold: a positive per-tool ceiling within the pool, and
/// no more free bytes than the pool holds.
pub open spec fn pool_wf(p: PoolModel) -> bool {
    0 < p.tool_limit <= p.program_limit && p.available <= p.program_limit
}

/// Every byte of the pool is either free or held by an outstanding
/// reservation.
pub open spec fn pool_balanced(p: PoolModel) -> bool {
    p.available + p.reserved == p.program_limit
}

/// The pool after granting `bytes`.
pub open spec fn spec_reserved(p: PoolModel, bytes: nat) -> PoolModel {
    PoolModel { available: (p.available - bytes) as nat, reserved: p.reserved + bytes, ..p }
}

/// The pool after `bytes` come back.
pub open spec fn spec_released(p: PoolModel, bytes: nat) -> PoolModel {
    PoolModel { available: p.available + bytes, reserved: (p.reserved - bytes) as nat, ..p }
}

/// Reserve and release: a granted request keeps the pool well formed and
/// balanced, and giving the reservation back restores the pool exactly.
pub proof fn lemma_reserve_release(p: PoolModel, bytes: usize)
    requires
        pool_wf(p),
        pool_balanced(p),
        p.available <= usize::MAX,
        p.tool_limit <= usize::MAX,
        refusal(bytes, p.tool_limit as usize, p.available as usize) is None,
    ensures
        pool_wf(spec_reserved(p, bytes as nat)),
        pool_balanced(spec_reserved(p, bytes as nat)),
        spec_released(spec_reserved(p, bytes as nat), bytes as nat) == p,
        spec_reserved(p, bytes as nat).available + bytes <= p.program_limit,
{
}

/// Production budget manager: the program pool starts at `program_limit`
/// bytes; each reservation deducts from it and each release returns bytes.
///
/// The budget's tag is not fixed by `new`: nothing a caller knows makes two
/// budgets' tags equal, so a reservation can only be released into the
/// budget that granted it.
pub struct AtomicBudget {
    program_limit: usize,
    tool_limit: usize,
    available: usize,
    id: Ghost<int>,
    reserved: Ghost<nat>,
}

impl View for AtomicBudget {
    type V = PoolModel;

    closed spec fn view(&self) -> PoolModel {
        PoolModel {
            program_limit: self.program_limit as nat,
            tool_limit: self.tool_limit as nat,
            available: self.available as nat,
            reserved: self.reserved@,
        }
    }
}

impl AtomicBudget {
    #[verifier::type_invariant]
    closed spec fn balanced(self) -> bool {
        &&& 0 < self.tool_limit <= self.program_limit
        &&& self.available + self.reserved@ == self.program_limit
    }

    /// The tag that this budget's reservations carry.
    pub closed spec fn id(&self) -> int {
        self.id@
    }

    /// Create a budget with a full pool. The limits must be positive with
    /// `tool_limit <= program_limit`.
    pub fn new(program_limit: usize, tool_limit: usize) -> (b: Self)
        requires
            program_limit > 0,
            tool_limit > 0,
            tool_limit <= program_limit,
        ensures
            b@ == (PoolModel {
                program_limit: program_limit as nat,
                tool_limit: tool_limit as nat,
                available: program_limit as nat,
                reserved: 0,
            }),
            pool_wf(b@),
            pool_balanced(b@),
    {
        AtomicBudget { program_limit, tool_limit, available: program_limit, id: Ghost(arbitrary()), reserved: Ghost(0) }
    }
}

impl BufferBudget for AtomicBudget {
    open spec fn free_bytes(&self) -> nat {
        self@.available
    }

    open spec fn accepts(&self, r: Reservation) -> bool {
        r.owner() == self.id() && r.size() <= self@.reserved
    }

    fn try_reserve(&mut self, bytes: usize) -> (r: Result<Reservation, BufferBudgetError>)
        ensures
            match refusal(bytes, old(self)@.tool_limit as usize, old(self)@.available as usize) {
                Some(e) => r == Err::<Reservation, BufferBudgetError>(e) && final(self)@ == old(self)@,
                None => r matches Ok(res) && res.size() == bytes && res.owner() == old(self).id()
                    && final(self)@ == spec_reserved(old(self)@, bytes as nat),
            },
            final(self).id() == old(self).id(),
            pool_wf(final(self)@),
            pool_balanced(final(self)@),
    {
        proof {
            use_type_invariant(&*self);
        }
        if bytes == 0 {
            return Err(BufferBudgetError::ZeroRequest);
        }
        if bytes > self.tool_limit {
            return Err(BufferBudgetError::OverToolLimit { requested: bytes, tool_limit: self.tool_limit });
        }
        if self.available < bytes {
            return Err(BufferBudgetError::InsufficientProgramBudget { requested: bytes, available: self.available });
        }
        let id = self.id;
        *self = AtomicBudget {
            program_limit: self.program_limit,
            tool_limit: self.tool_limit,
            available: self.available - bytes,
            id,
            reserved: Ghost((self.reserved@ + bytes) as nat),
        };
        Ok(Reservation { bytes, owner: id })
    }

    fn release(&mut self, r: Reservation)
        ensures
            final(self)@ == spec_released(old(self)@, r.size()),
            final(self).id() == old(self).id(),
            pool_wf(final(self)@),
            pool_balanced(final(self)@),
    {
        proof {
            use_type_invariant(&*self);
        }
        *self = AtomicBudget {
            program_limit: self.program_limit,
            tool_limit: self.tool_limit,
            available: self.available + r.bytes,
            id: self.id,
            reserved: Ghost((self.reserved@ - r.bytes) as nat),
        };
    }

    fn tool_limit(&self) -> (r: usize)
        ensures
            r == self@.tool_limit,
    {
        self.tool_limit
    }

    fn program_limit(&self) -> (r: usize)
        ensures
            r == self@.program_limit,
    {
        self.program_limit
    }

    fn available(&self) -> (r: usize)
        ensures
            r == self@.available,
    {
        self.available
    }
}

/// A budget for deterministic tests of exhaustion paths, which can also be
/// reset to a full pool.
///
/// A reset refills the pool while earlier reservations are still out; their
/// bytes still come back when they are released, so the free bytes plus the
/// outstanding bytes equal the pool plus what was outstanding at the last
/// reset.
pub struct FakeBudget {
    tool_limit: usize,
    program_limit: usize,
    remaining: usize,
    id: Ghost<int>,
    reserved: Ghost<nat>,
    credit: Ghost<nat>,
}

impl View for FakeBudget {
    type V = PoolModel;

    closed spec fn view(&self) -> PoolModel {
        PoolModel {
            program_limit: self.program_limit as nat,
            tool_limit: self.tool_limit as nat,
            available: self.remaining as nat,
            reserved: self.reserved@,
        }
    }
}

impl FakeBudget {
    #[verifier::type_invariant]
    closed spec fn balanced(self) -> bool {
        &&& 0 < self.tool_limit <= self.program_limit
        &&& self.remaining + self.reserved@ == self.program_limit + self.credit@
    }

    /// The tag that this budget's reservations carry.
    pub closed spec fn id(&self) -> int {
        self.id@
    }

    /// The bytes that were outstanding at the last reset (0 before any).
    pub closed spec fn reset_credit(&self) -> nat {
        self.credit@
    }

    /// Create a fake budget that allows up to `program_limit` total bytes
    /// and per-request up to `tool_limit` bytes.
    pub fn new(program_limit: usize, tool_limit: usize) -> (b: Self)
        requires
            program_limit > 0,
            tool_limit > 0,
            tool_limit <= program_limit,
        ensures
            b@ == (PoolModel {
                program_limit: program_limit as nat,
                tool_limit: tool_limit as nat,
                available: program_limit as nat,
                reserved: 0,
            }),
            b.reset_credit() == 0,
            pool_wf(b@),
            pool_balanced(b@),
    {
        FakeBudget {
            tool_limit,
            program_limit,
            remaining: program_limit,
            id: Ghost(arbitrary()),
            reserved: Ghost(0),
            credit: Ghost(0),
        }
    }

    /// Reset the remaining budget to `program_limit`.
    pub fn reset(&mut self)
        ensures
            final(self)@ == (PoolModel { available: old(self)@.program_limit, ..old(self)@ }),
            final(self).reset_credit() == old(self)@.reserved,
            final(self).id() == old(self).id(),
            final(self)@.available + final(self)@.reserved == final(self)@.program_limit + final(self).reset_credit(),
    {
        proof {
            use_type_invariant(&*self);
        }
        *self = FakeBudget {
            tool_limit: self.tool_limit,
            program_limit: self.program_limit,
            remaining: self.program_limit,
            id: self.id,
            reserved: self.reserved,
            credit: self.reserved,
        };
    }
}

impl BufferBudget for FakeBudget {
    open spec fn free_bytes(&self) -> nat {
        self@.available
    }

    open spec fn accepts(&self, r: Reservation) -> bool {
        &&& r.owner() == self.id()
        &&& r.size() <= self@.reserved
        &&& self@.available + r.size() <= usize::MAX
    }

    fn try_reserve(&mut self, bytes: usize) -> (r: Result<Reservation, BufferBudgetError>)
        ensures
            match refusal(bytes, old(self)@.tool_limit as usize, old(self)@.available as usize) {
                Some(e) => r == Err::<Reservation, BufferBudgetError>(e) && final(self)@ == old(self)@,
                None => r matches Ok(res) && res.size() == bytes && res.owner() == old(self).id()
                    && final(self)@ == spec_reserved(old(self)@, bytes as nat),
            },
            final(self).id() == old(self).id(),
            final(self).reset_credit() == old(self).reset_credit(),
            final(self)@.available + final(self)@.reserved == final(self)@.program_limit + final(self).reset_credit(),
    {
        proof {
            use_type_invariant(&*self);
        }
        if bytes == 0 {
            return Err(BufferBudgetError::ZeroRequest);
        }
        if bytes > self.tool_limit {
            return Err(BufferBudgetError::OverToolLimit { requested: bytes, tool_limit: self.tool_limit });
        }
        if self.remaining < bytes {
            return Err(BufferBudgetError::InsufficientProgramBudget { requested: bytes, available: self.remaining });
        }
        let id = self.id;
        *self = FakeBudget {
            tool_limit: self.tool_limit,
            program_limit: self.program_limit,
            remaining: self.remaining - bytes,
            id,
            reserved: Ghost((self.reserved@ + bytes) as nat),
            credit: self.credit,
        };
        Ok(Reservation { bytes, owner: id })
    }

    fn release(&mut self, r: Reservation)
        ensures
            final(self)@ == spec_released(old(self)@, r.size()),
            final(self).id() == old(self).id(),
            final(self).reset_credit() == old(self).reset_credit(),
            final(self)@.available + final(self)@.reserved == final(self)@.program_limit + final(self).reset_credit(),
    {
        proof {
            use_type_invariant(&*self);
        }
        *self = FakeBudget {
            tool_limit: self.tool_limit,
            program_limit: self.program_limit,
            remaining: self.remaining + r.bytes,
            id: self.id,
            reserved: Ghost((self.reserved@ - r.bytes) as nat),
            credit: self.credit,
        };
    }

    fn tool_limit(&self) -> (r: usize)
        ensures
            r == self@.tool_limit,
    {
        self.tool_limit
    }

    fn program_limit(&self) -> (r: usize)
        ensures
            r == self@.program_limit,
    {
        self.program_limit
    }

    fn available(&self) -> (r: usize)
        ensures
            r == self@.available,
    {
        self.remaining
    }
}

/// A budget without a program pool that still enforces the per-tool
/// ceiling on every request.
pub struct UnlimitedBudget {
    tool_limit: usize,
    id: Ghost<int>,
}

impl UnlimitedBudget {
    /// The per-tool ceiling.
    pub closed spec fn ceiling(&self) -> nat {
        self.tool_limit as nat
    }

    /// The tag that this budget's reservations carry.
    pub closed spec fn id(&self) -> int {
        self.id@
    }

    pub fn new(tool_limit: usize) -> (b: Self)
        ensures
            b.ceiling() == tool_limit,
    {
        UnlimitedBudget { tool_limit, id: Ghost(arbitrary()) }
    }
}

impl BufferBudget for UnlimitedBudget {
    open spec fn free_bytes(&self) -> nat {
        0
    }

    open spec fn accepts(&self, r: Reservation) -> bool {
        r.owner() == self.id()
    }

    fn try_reserve(&mut self, bytes: usize) -> (r: Result<Reservation, BufferBudgetError>)
        ensures
            match refusal(bytes, old(self).ceiling() as usize, usize::MAX) {
                Some(e) => r == Err::<Reservation, BufferBudgetError>(e),
                None => r matches Ok(res) && res.size() == bytes && res.owner() == old(self).id(),
            },
            final(self).ceiling() == old(self).ceiling(),
            final(self).id() == old(self).id(),
    {
        if bytes == 0 {
            return Err(BufferBudgetError::ZeroRequest);
        }
        if bytes > self.tool_limit {
            return Err(BufferBudgetError::OverToolLimit { requested: bytes, tool_limit: self.tool_limit });
        }
        Ok(Reservation { bytes, owner: self.id })
    }

    fn release(&mut self, r: Reservation)
        ensures
            final(self).ceiling() == old(self).ceiling(),
            final(self).id() == old(self).id(),
    {
    }

    fn tool_limit(&self) -> (r: usize)
        ensures
            r == self.ceiling(),
    {
        self.tool_limit
    }

    fn program_limit(&self) -> (r: usize)
        ensures
            r == usize::MAX,
    {
        usize::MAX
    }

    fn available(&self) -> (r: usize)
        ensures
            r == usize::MAX,
    {
        usize::MAX
    }
}

} // verus!
