use vstd::prelude::*;
use crate::arm::ArmPageRange;
use crate::common::PhysRange;
use crate::x86::X86PageRange;

verus! {

/// A mapping that starts at a virtual address.
pub trait GenericPage {
    spec fn spec_va(&self) -> u64;

    fn get_va(&self) -> (r: u64)
        ensures
            r == self.spec_va(),
    ;
}

impl GenericPage for X86PageRange {
    open spec fn spec_va(&self) -> u64 {
        self.va
    }

    fn get_va(&self) -> (r: u64) {
        self.va
    }
}

impl GenericPage for ArmPageRange {
    open spec fn spec_va(&self) -> u64 {
        self.va
    }

    fn get_va(&self) -> (r: u64) {
        self.va
    }
}

/// The architecture-neutral view of a coalesced range: where it starts, how
/// long it is, and the physical memory behind it in order.
pub trait GenericPageRange {
    spec fn spec_va_start(&self) -> u64;

    spec fn spec_va_extent(&self) -> u64;

    spec fn spec_phys_ranges(&self) -> Seq<PhysRange>;

    fn get_phys_ranges(&self) -> (r: &Vec<PhysRange>)
        ensures
            r@ == self.spec_phys_ranges(),
    ;

    fn get_va_start(&self) -> (r: u64)
        ensures
            r == self.spec_va_start(),
    ;

    fn get_va_extent(&self) -> (r: u64)
        ensures
            r == self.spec_va_extent(),
    ;
}

impl GenericPageRange for X86PageRange {
    open spec fn spec_va_start(&self) -> u64 {
        self.va
    }

    open spec fn spec_va_extent(&self) -> u64 {
        self.extent
    }

    open spec fn spec_phys_ranges(&self) -> Seq<PhysRange> {
        self.phys_ranges@
    }

    fn get_phys_ranges(&self) -> (r: &Vec<PhysRange>) {
        &self.phys_ranges
    }

    fn get_va_start(&self) -> (r: u64) {
        self.va
    }

    fn get_va_extent(&self) -> (r: u64) {
        self.extent
    }
}

impl GenericPageRange for ArmPageRange {
    open spec fn spec_va_start(&self) -> u64 {
        self.va
    }

    open spec fn spec_va_extent(&self) -> u64 {
        self.extent
    }

    open spec fn spec_phys_ranges(&self) -> Seq<PhysRange> {
        self.phys_ranges@
    }

    fn get_phys_ranges(&self) -> (r: &Vec<PhysRange>) {
        &self.phys_ranges
    }

    fn get_va_start(&self) -> (r: u64) {
        self.va
    }

    fn get_va_extent(&self) -> (r: u64) {
        self.extent
    }
}

} // verus!
