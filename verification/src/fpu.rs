//! Keeping subnormal numbers out of the way of the audio thread.
//!
//! Arithmetic on subnormal numbers is slow. While a guard is in force, the floating-point
//! unit takes them for zero.
use vstd::prelude::*;

verus! {

/// Results that would be subnormal become zero.
pub const FTZ_BIT: u32 = 0x8000;

/// Subnormal operands are read as zero.
pub const DAZ_BIT: u32 = 0x40;

/// Subnormal operands and results become zero.
pub const FZ_BIT: u64 = 0x100_0000;

/// The register that controls the floating-point unit.
#[derive(Debug, Clone, Copy, PartialEq, Eq, Structural)]
pub enum ControlRegister {
    /// MXCSR, on x86-64.
    Mxcsr(u32),
    /// FPCR, on AArch64.
    Fpcr(u64),
    /// There is none to speak of.
    Absent,
}

impl ControlRegister {
    /// The register with subnormal numbers suppressed, and all else as it was.
    pub open spec fn suppressing(self) -> ControlRegister {
        match self {
            ControlRegister::Mxcsr(value) => ControlRegister::Mxcsr(value | FTZ_BIT | DAZ_BIT),
            ControlRegister::Fpcr(value) => ControlRegister::Fpcr(value | FZ_BIT),
            ControlRegister::Absent => ControlRegister::Absent,
        }
    }

    /// Subnormal numbers are suppressed, as far as the register can do that.
    pub open spec fn suppresses(self) -> bool {
        match self {
            ControlRegister::Mxcsr(value) => value & FTZ_BIT == FTZ_BIT && value & DAZ_BIT
                == DAZ_BIT,
            ControlRegister::Fpcr(value) => value & FZ_BIT == FZ_BIT,
            ControlRegister::Absent => true,
        }
    }

    /// The two registers differ in the suppression of subnormal numbers at most.
    pub open spec fn agrees_with(self, other: ControlRegister) -> bool {
        match (self, other) {
            (ControlRegister::Mxcsr(a), ControlRegister::Mxcsr(b)) => a & !(FTZ_BIT | DAZ_BIT) == b
                & !(FTZ_BIT | DAZ_BIT),
            (ControlRegister::Fpcr(a), ControlRegister::Fpcr(b)) => a & !FZ_BIT == b & !FZ_BIT,
            (ControlRegister::Absent, ControlRegister::Absent) => true,
            _ => false,
        }
    }
}

/// Remembers the control register from before subnormal numbers were suppressed.
pub struct FpuGuard {
    saved: ControlRegister,
}

impl FpuGuard {
    /// The register as it was.
    pub closed spec fn saved(&self) -> ControlRegister {
        self.saved
    }

    /// Suppresses subnormal numbers.
    pub fn new(register: &mut ControlRegister) -> (guard: Self)
        ensures
            guard.saved() == *old(register),
            *final(register) == old(register).suppressing(),
            *old(register) matches ControlRegister::Mxcsr(before) ==> *final(register)
                == ControlRegister::Mxcsr(before | 0x8000u32 | 0x40u32),
            *old(register) matches ControlRegister::Fpcr(before) ==> *final(register)
                == ControlRegister::Fpcr(before | 0x100_0000u64),
            *old(register) == ControlRegister::Absent ==> *final(register)
                == ControlRegister::Absent,
    {
        let saved = *register;
        *register = match saved {
            ControlRegister::Mxcsr(value) => ControlRegister::Mxcsr(value | FTZ_BIT | DAZ_BIT),
            ControlRegister::Fpcr(value) => ControlRegister::Fpcr(value | FZ_BIT),
            ControlRegister::Absent => ControlRegister::Absent,
        };
        Self { saved }
    }

    /// Makes the register what it was before.
    pub fn restore(self, register: &mut ControlRegister)
        ensures
            *final(register) == self.saved(),
    {
        *register = self.saved;
    }
}

/// A guard suppresses subnormal numbers, whatever the register held, and changes nothing
/// else. A second guard changes nothing at all.
pub proof fn law_guard_suppresses(register: ControlRegister)
    ensures
        register.suppressing().suppresses(),
        register.suppressing().agrees_with(register),
        register.suppressing().suppressing() == register.suppressing(),
{
    match register {
        ControlRegister::Mxcsr(value) => {
            assert((value | FTZ_BIT | DAZ_BIT) & FTZ_BIT == FTZ_BIT) by (bit_vector);
            assert((value | FTZ_BIT | DAZ_BIT) & DAZ_BIT == DAZ_BIT) by (bit_vector);
            assert((value | FTZ_BIT | DAZ_BIT) & !(FTZ_BIT | DAZ_BIT) == value & !(FTZ_BIT
                | DAZ_BIT)) by (bit_vector);
            assert((value | FTZ_BIT | DAZ_BIT) | FTZ_BIT | DAZ_BIT == value | FTZ_BIT | DAZ_BIT)
                by (bit_vector);
        },
        ControlRegister::Fpcr(value) => {
            assert((value | FZ_BIT) & FZ_BIT == FZ_BIT) by (bit_vector);
            assert((value | FZ_BIT) & !FZ_BIT == value & !FZ_BIT) by (bit_vector);
            assert((value | FZ_BIT) | FZ_BIT == value | FZ_BIT) by (bit_vector);
        },
        ControlRegister::Absent => {},
    }
}

/// A guard sets bits 15 and 6 of MXCSR, or bit 24 of FPCR, and leaves every other bit as it was.
pub proof fn law_guard_sets_bits(mxcsr: u32, fpcr: u64)
    ensures
        ControlRegister::Mxcsr(mxcsr).suppressing() matches ControlRegister::Mxcsr(after) && after
            & 0x8040u32 == 0x8040u32 && after & 0xffff_7fbfu32 == mxcsr & 0xffff_7fbfu32,
        ControlRegister::Fpcr(fpcr).suppressing() matches ControlRegister::Fpcr(after) && after
            & 0x100_0000u64 == 0x100_0000u64 && after & 0xffff_ffff_feff_ffffu64 == fpcr
            & 0xffff_ffff_feff_ffffu64,
        ControlRegister::Absent.suppressing() == ControlRegister::Absent,
{
    assert((mxcsr | FTZ_BIT | DAZ_BIT) & 0x8040u32 == 0x8040u32) by (bit_vector);
    assert((mxcsr | FTZ_BIT | DAZ_BIT) & 0xffff_7fbfu32 == mxcsr & 0xffff_7fbfu32) by (bit_vector);
    assert((fpcr | FZ_BIT) & 0x100_0000u64 == 0x100_0000u64) by (bit_vector);
    assert((fpcr | FZ_BIT) & 0xffff_ffff_feff_ffffu64 == fpcr & 0xffff_ffff_feff_ffffu64)
        by (bit_vector);
}

} // verus!
