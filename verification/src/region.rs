//! Identifiers of regions.

use vstd::prelude::*;

verus! {

/// A region: one of the parts that a table is stored in.
#[derive(Clone, Copy, Debug, PartialEq, Eq, Hash, Structural)]
pub struct RegionId {
    pub table_id: u32,
    pub region_number: u32,
}

impl View for RegionId {
    type V = RegionId;

    open spec fn view(&self) -> RegionId {
        *self
    }
}

impl RegionId {
    /// The region of the given number of a table.
    pub fn new(table_id: u32, region_number: u32) -> (r: Self)
        ensures
            r == (RegionId { table_id, region_number }),
    {
        RegionId { table_id, region_number }
    }

    /// The identifier as one number: the table above, the region's number below.
    pub open spec fn number(self) -> u64 {
        (self.table_id * 0x1_0000_0000 + self.region_number) as u64
    }

    /// The identifier as one number.
    pub fn as_u64(&self) -> (r: u64)
        ensures
            r == self.table_id * 0x1_0000_0000 + self.region_number,
            r == self.number(),
    {
        self.table_id as u64 * 0x1_0000_0000 + self.region_number as u64
    }

    /// The region that a number identifies.
    pub fn from_u64(number: u64) -> (r: Self)
        ensures
            r.number() == number,
    {
        RegionId {
            table_id: (number / 0x1_0000_0000) as u32,
            region_number: (number % 0x1_0000_0000) as u32,
        }
    }
}

/// No two regions have one number.
pub proof fn law_region_number_injective(a: RegionId, b: RegionId)
    requires
        a.number() == b.number(),
    ensures
        a == b,
{
}

/// The number of a region has the table's identifier above and the region's number below, 32 bits
/// each.
pub proof fn law_region_number_parts(region: RegionId)
    ensures
        region.number() / 0x1_0000_0000 == region.table_id,
        region.number() % 0x1_0000_0000 == region.region_number,
{
}

/// The region that the number of a region identifies is that region.
pub proof fn law_number_identifies_region(region: RegionId, number: u64, r: RegionId)
    requires
        call_ensures(RegionId::as_u64, (&region,), number),
        call_ensures(RegionId::from_u64, (number,), r),
    ensures
        r.table_id == region.table_id,
        r.region_number == region.region_number,
        number / 0x1_0000_0000 == region.table_id,
        number % 0x1_0000_0000 == region.region_number,
{
}

} // verus!
