//! CPU models.

use vstd::prelude::*;

verus! {

/// CPU model active while a trace was recorded.
#[derive(Debug, Clone, Copy, PartialEq, Eq, Structural)]
pub enum CpuType {
    /// No model selected.
    Invalid,
    /// Motorola 68000.
    M68000,
    /// Motorola 68010.
    M68010,
    /// Motorola 68EC020.
    M68EC020,
    /// Motorola 68020.
    M68020,
    /// Motorola 68EC030.
    M68EC030,
    /// Motorola 68030.
    M68030,
    /// Motorola 68EC040.
    M68EC040,
    /// Motorola 68LC040.
    M68LC040,
    /// Motorola 68040.
    M68040,
    /// Signetics SCC68070.
    SCC68070,
}

/// The number that stands for a CPU model in table keys.
pub open spec fn cpu_repr(cpu_type: CpuType) -> u32 {
    match cpu_type {
        CpuType::Invalid => 0,
        CpuType::M68000 => 1,
        CpuType::M68010 => 2,
        CpuType::M68EC020 => 3,
        CpuType::M68020 => 4,
        CpuType::M68EC030 => 5,
        CpuType::M68030 => 6,
        CpuType::M68EC040 => 7,
        CpuType::M68LC040 => 8,
        CpuType::M68040 => 9,
        CpuType::SCC68070 => 10,
    }
}

/// The CPU model that a number stands for; a number that stands for none reads
/// as `Invalid`.
pub open spec fn cpu_of_repr(value: u32) -> CpuType {
    if exists|cpu_type: CpuType| #[trigger] cpu_repr(cpu_type) == value {
        choose|cpu_type: CpuType| #[trigger] cpu_repr(cpu_type) == value
    } else {
        CpuType::Invalid
    }
}

impl CpuType {
    /// The number that stands for this CPU model in table keys.
    pub fn repr(self) -> (value: u32)
        ensures
            value == cpu_repr(self),
    {
        match self {
            CpuType::Invalid => 0,
            CpuType::M68000 => 1,
            CpuType::M68010 => 2,
            CpuType::M68EC020 => 3,
            CpuType::M68020 => 4,
            CpuType::M68EC030 => 5,
            CpuType::M68030 => 6,
            CpuType::M68EC040 => 7,
            CpuType::M68LC040 => 8,
            CpuType::M68040 => 9,
            CpuType::SCC68070 => 10,
        }
    }
}

/// No two CPU models share a number.
pub proof fn law_cpu_repr_injective(a: CpuType, b: CpuType)
    requires
        cpu_repr(a) == cpu_repr(b),
    ensures
        a == b,
{
}

/// Reading back the number of a CPU model gives the model.
pub proof fn law_cpu_repr_round_trip(cpu_type: CpuType)
    ensures
        cpu_of_repr(cpu_repr(cpu_type)) == cpu_type,
{
    let read = cpu_of_repr(cpu_repr(cpu_type));
    assert(cpu_repr(read) == cpu_repr(cpu_type));
    law_cpu_repr_injective(read, cpu_type);
}

/// The CPU model that a number from a table key stands for.
pub fn cpu_type_from_repr(value: u32) -> (cpu_type: CpuType)
    ensures
        cpu_type == cpu_of_repr(value),
        value <= 10 ==> cpu_repr(cpu_type) == value,
        value > 10 ==> cpu_type == CpuType::Invalid,
{
    let cpu_type = match value {
        1 => CpuType::M68000,
        2 => CpuType::M68010,
        3 => CpuType::M68EC020,
        4 => CpuType::M68020,
        5 => CpuType::M68EC030,
        6 => CpuType::M68030,
        7 => CpuType::M68EC040,
        8 => CpuType::M68LC040,
        9 => CpuType::M68040,
        10 => CpuType::SCC68070,
        _ => CpuType::Invalid,
    };
    proof {
        if value <= 10 {
            assert(cpu_repr(cpu_type) == value);
            law_cpu_repr_round_trip(cpu_type);
        }
    }
    cpu_type
}

} // verus!
