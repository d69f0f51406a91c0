use vstd::prelude::*;

pub mod acpi;
pub mod cpuid;
pub mod fbdev;
pub mod pci;

verus! {

} // verus!
