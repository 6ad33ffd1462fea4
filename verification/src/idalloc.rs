//! The identifier allocator: picks the smallest free identifier at or
//! above a kind-specific floor, failing when the kind's range is
//! exhausted. Allocation is a pure function of the taken set, so that
//! repeated runs over unchanged inputs allocate identically.

use vstd::prelude::*;
use crate::EngineError;

verus! {

/// The floor of the range for system accounts and groups.
pub const SYSTEM_ID_FLOOR: u32 = 400;

/// The ceiling of the range for system accounts and groups.
pub const SYSTEM_ID_CEILING: u32 = 999;

/// The floor of the range for normal accounts and groups.
pub const NORMAL_ID_FLOOR: u32 = 1000;

/// The ceiling of the range for normal accounts and groups.
pub const NORMAL_ID_CEILING: u32 = 29999;

/// Which kind of identifier is being allocated.
#[derive(Clone, Copy, Debug, PartialEq, Eq, Structural)]
pub enum IdKind {
    SystemUser,
    NormalUser,
    SystemGroup,
    NormalGroup,
}

pub open spec fn floor_of(kind: IdKind) -> u32 {
    match kind {
        IdKind::SystemUser => SYSTEM_ID_FLOOR,
        IdKind::NormalUser => NORMAL_ID_FLOOR,
        IdKind::SystemGroup => SYSTEM_ID_FLOOR,
        IdKind::NormalGroup => NORMAL_ID_FLOOR,
    }
}

pub open spec fn ceiling_of(kind: IdKind) -> u32 {
    match kind {
        IdKind::SystemUser => SYSTEM_ID_CEILING,
        IdKind::NormalUser => NORMAL_ID_CEILING,
        IdKind::SystemGroup => SYSTEM_ID_CEILING,
        IdKind::NormalGroup => NORMAL_ID_CEILING,
    }
}

/// The smallest identifier in `lo..=hi` not contained in `taken`, if any.
pub open spec fn alloc_spec(lo: int, hi: int, taken: Seq<u32>) -> Option<u32>
    decreases hi - lo + 1,
{
    if lo > hi || lo < 0 || hi > u32::MAX {
        None
    } else if !taken.contains(lo as u32) {
        Some(lo as u32)
    } else {
        alloc_spec(lo + 1, hi, taken)
    }
}

pub proof fn lemma_alloc_spec_bounds(lo: int, hi: int, taken: Seq<u32>)
    ensures
        alloc_spec(lo, hi, taken) matches Some(id) ==> lo <= id <= hi && !taken.contains(id),
    decreases hi - lo + 1,
{
    if lo > hi || lo < 0 || hi > u32::MAX {
    } else if !taken.contains(lo as u32) {
    } else {
        lemma_alloc_spec_bounds(lo + 1, hi, taken);
    }
}

fn id_floor(kind: IdKind) -> (r: u32)
    ensures
        r == floor_of(kind),
{
    match kind {
        IdKind::SystemUser => SYSTEM_ID_FLOOR,
        IdKind::NormalUser => NORMAL_ID_FLOOR,
        IdKind::SystemGroup => SYSTEM_ID_FLOOR,
        IdKind::NormalGroup => NORMAL_ID_FLOOR,
    }
}

fn id_ceiling(kind: IdKind) -> (r: u32)
    ensures
        r == ceiling_of(kind),
{
    match kind {
        IdKind::SystemUser => SYSTEM_ID_CEILING,
        IdKind::NormalUser => NORMAL_ID_CEILING,
        IdKind::SystemGroup => SYSTEM_ID_CEILING,
        IdKind::NormalGroup => NORMAL_ID_CEILING,
    }
}

/// Whether `x` occurs in `v`.
pub fn contains_u32(v: &Vec<u32>, x: u32) -> (r: bool)
    ensures
        r == v@.contains(x),
{
    let mut i: usize = 0;
    while i < v.len()
        invariant
            0 <= i <= v@.len(),
            forall|j: int| 0 <= j < i ==> v@[j] != x,
        decreases v@.len() - i,
    {
        if v[i] == x {
            return true;
        }
        i = i + 1;
    }
    false
}

/// Returns the smallest identifier at or above the kind's floor, and at
/// most its ceiling, that is not in `taken`; fails with `ExhaustedRange`
/// when every identifier of the range is taken. Deterministic in `taken`.
pub fn allocate(kind: IdKind, taken: &Vec<u32>) -> (r: Result<u32, EngineError>)
    ensures
        match r {
            Ok(id) => alloc_spec(floor_of(kind) as int, ceiling_of(kind) as int, taken@) == Some(
                id,
            ) && floor_of(kind) <= id <= ceiling_of(kind) && !taken@.contains(id) && forall|j: u32|
                floor_of(kind) <= j < id ==> taken@.contains(j),
            Err(e) => e == EngineError::ExhaustedRange && alloc_spec(
                floor_of(kind) as int,
                ceiling_of(kind) as int,
                taken@,
            ) is None && forall|j: u32|
                floor_of(kind) <= j <= ceiling_of(kind) ==> taken@.contains(j),
        },
{
    let lo = id_floor(kind);
    let hi = id_ceiling(kind);
    let mut id = lo;
    while id <= hi
        invariant
            lo == floor_of(kind),
            hi == ceiling_of(kind),
            hi < u32::MAX,
            lo <= id <= hi + 1,
            forall|j: u32| lo <= j < id ==> taken@.contains(j),
            alloc_spec(lo as int, hi as int, taken@) == alloc_spec(id as int, hi as int, taken@),
        decreases hi + 1 - id,
    {
        if !contains_u32(taken, id) {
            return Ok(id);
        }
        id = id + 1;
    }
    Err(EngineError::ExhaustedRange)
}

} // verus!
