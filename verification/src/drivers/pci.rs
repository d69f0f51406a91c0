use vstd::prelude::*;
use crate::utils::bitutils::{is_nth_bit_set, nth_bit, lemma_bit_is_binary_digit};

verus! {

/// The I/O port that selects a configuration register.
pub const CONFIG_ADDRESS: u16 = 0xCF8;

/// The I/O port that reads or writes the selected configuration register.
pub const CONFIG_DATA: u16 = 0xCFC;

/// The address of configuration register `offset` (rounded down to a dword) of function
/// `func` of device `slot` on bus `bus`, with the enable bit set.
pub open spec fn config_address(bus: u8, slot: u8, func: u8, offset: u8) -> u32 {
    (((bus as u32) << 16u32) | ((slot as u32) << 11u32) | ((func as u32) << 8u32) | ((offset as u32)
        & 0xFCu32) | 0x80000000u32) as u32
}

/// A device on the PCI bus.
#[derive(Debug, Copy, Clone, PartialEq, Eq, Structural)]
pub struct PCIDevice {
    pub bus: u8,
    pub device: u8,
}

impl PCIDevice {
    pub fn new(bus: u8, device: u8) -> (r: Self)
        ensures
            r == (PCIDevice { bus, device }),
    {
        Self { bus, device }
    }

    /// The configuration address of register `offset` of function `function` of this device.
    pub fn register_address(&self, function: u8, offset: u8) -> (r: u32)
        ensures
            r == config_address(self.bus, self.device, function, offset),
    {
        build_config_address(self.bus, self.device, function, offset)
    }

    /// The device ID: the high half of the dword at offset 0.
    pub fn device_id(&self, header_field: u32) -> (r: u16)
        ensures
            r == header_field >> 16u32,
    {
        proof {
            lemma_header_field_parts(header_field);
        }
        ((header_field & 0xFFFF0000) >> 16) as u16
    }

    /// The vendor ID: the low half of the dword at offset 0.
    pub fn vendor_id(&self, header_field: u32) -> (r: u16)
        ensures
            r == header_field & 0xFFFFu32,
    {
        proof {
            lemma_header_field_parts(header_field);
        }
        (header_field & 0x0000FFFF) as u16
    }

    /// The command register: the low half of the dword at offset 4.
    pub fn command(&self, header_field: u32) -> (r: u16)
        ensures
            r == header_field & 0xFFFFu32,
    {
        proof {
            lemma_header_field_parts(header_field);
        }
        (header_field & 0x0000FFFF) as u16
    }

    /// The dword to write at offset 4 to set the command register to `value`, keeping the
    /// status register as read.
    pub fn set_command(&self, value: u16, status: u16) -> (r: u32)
        ensures
            r == (value as u32) | ((status as u32) << 16u32),
    {
        value as u32 | ((status as u32) << 16)
    }

    /// The status register: the high half of the dword at offset 4.
    pub fn status(&self, header_field: u32) -> (r: u16)
        ensures
            r == header_field >> 16u32,
    {
        proof {
            lemma_header_field_parts(header_field);
        }
        ((header_field & 0xFFFF0000) >> 16) as u16
    }

    /// The class code: the high byte of the dword at offset 8.
    pub fn class_code(&self, header_field: u32) -> (r: u16)
        ensures
            r == header_field >> 24u32,
    {
        proof {
            lemma_header_field_parts(header_field);
        }
        ((header_field & 0xFF000000) >> 24) as u16
    }

    /// The subclass: the third byte of the dword at offset 8.
    pub fn subclass(&self, header_field: u32) -> (r: u16)
        ensures
            r == (header_field >> 16u32) & 0xFFu32,
    {
        proof {
            lemma_header_field_parts(header_field);
        }
        ((header_field & 0x00FF0000) >> 16) as u16
    }

    /// The header type: the third byte of the dword at offset 0xC.
    pub fn header_type(&self, header_field: u32) -> (r: u16)
        ensures
            r == (header_field >> 16u32) & 0xFFu32,
    {
        proof {
            lemma_header_field_parts(header_field);
        }
        ((header_field & 0x00FF0000) >> 16) as u16
    }

    /// Base address register 5: the dword at offset 0x24.
    pub fn bar5(&self, header_field: u32) -> (r: u32)
        ensures
            r == header_field,
    {
        header_field
    }

    /// The interrupt line: the low byte of the dword at offset 0x3C.
    pub fn interrupt_line(&self, header_field: u32) -> (r: u8)
        ensures
            r == header_field & 0xFFu32,
    {
        proof {
            lemma_header_field_parts(header_field);
        }
        (header_field & 0x000000FF) as u8
    }

    /// Whether a header type says the device has several functions (bit 7).
    pub fn is_multifunction(header_type: u16) -> (r: bool)
        ensures
            r == nth_bit(header_type as usize, 7),
            r == ((header_type / 128) % 2 == 1),
    {
        proof {
            lemma_bit_is_binary_digit(header_type as usize, 7, 0, 0);
            vstd::arithmetic::power2::lemma2_to64();
        }
        is_nth_bit_set(header_type as usize, 7)
    }
}

/// The devices present on every bus: `vendor_ids[bus * 32 + device]` is the vendor ID read
/// from function 0 of `device` on `bus`; a device is present unless it reads `0xFFFF`.
pub fn find_all_pci_devices(vendor_ids: &Vec<u16>) -> (r: Vec<PCIDevice>)
    requires
        vendor_ids@.len() == 256 * 32,
    ensures
        r@ == present_devices(vendor_ids@, 8192),
        forall|bus: u8, device: u8|
            device < 32 ==> (#[trigger] r@.contains(PCIDevice { bus, device }) <==> vendor_ids@[bus
                * 32 + device] != 0xFFFF),
        forall|k: int| 0 <= k < r@.len() ==> (#[trigger] r@[k]).device < 32,
{
    proof {
        lemma_present_devices_exactly(vendor_ids@, 8192);
    }
    let mut pci_devices: Vec<PCIDevice> = Vec::new();
    let mut bus: usize = 0;
    while bus <= 255
        invariant
            bus <= 256,
            vendor_ids@.len() == 256 * 32,
            pci_devices@ == present_devices(vendor_ids@, (bus * 32) as int),
        decreases 256 - bus,
    {
        let mut device: usize = 0;
        while device <= 31
            invariant
                bus <= 255,
                device <= 32,
                vendor_ids@.len() == 256 * 32,
                pci_devices@ == present_devices(vendor_ids@, (bus * 32 + device) as int),
            decreases 32 - device,
        {
            if let Some(found_device) = get_device_if_exists(bus as u8, device as u8, vendor_ids[bus * 32 + device]) {
                pci_devices.push(found_device);
            }
            device = device + 1;
        }
        bus = bus + 1;
    }
    pci_devices
}

/// The devices among the first `n` slots of `vendor_ids` (slot `bus * 32 + device`) that
/// do not read `0xFFFF`, in slot order.
pub open spec fn present_devices(vendor_ids: Seq<u16>, n: int) -> Seq<PCIDevice>
    decreases n,
{
    if n <= 0 {
        Seq::empty()
    } else {
        let rest = present_devices(vendor_ids, n - 1);
        let i = n - 1;
        if vendor_ids[i] != 0xFFFF {
            rest.push(PCIDevice { bus: (i / 32) as u8, device: (i % 32) as u8 })
        } else {
            rest
        }
    }
}

/// Of the first `n` slots, a device is listed exactly when its vendor ID does not read
/// `0xFFFF`: device `device` of bus `bus` (slot `bus * 32 + device`) is in the list if and
/// only if its slot is among the first `n` and its vendor ID is not `0xFFFF`, and every
/// listed device number is below 32.
pub proof fn lemma_present_devices_exactly(vendor_ids: Seq<u16>, n: int)
    requires
        0 <= n <= 256 * 32,
        n <= vendor_ids.len(),
    ensures
        forall|bus: u8, device: u8|
            device < 32 ==> (#[trigger] present_devices(vendor_ids, n).contains(
                PCIDevice { bus, device },
            ) <==> (bus * 32 + device < n && vendor_ids[bus * 32 + device] != 0xFFFF)),
        forall|k: int|
            0 <= k < present_devices(vendor_ids, n).len() ==> (#[trigger] present_devices(
                vendor_ids,
                n,
            )[k]).device < 32,
    decreases n,
{
    if n > 0 {
        lemma_present_devices_exactly(vendor_ids, n - 1);
        let rest = present_devices(vendor_ids, n - 1);
        let i = n - 1;
        let last = PCIDevice { bus: (i / 32) as u8, device: (i % 32) as u8 };
        assert(i / 32 < 256 && i % 32 < 32 && i == (i / 32) * 32 + i % 32);
        assert forall|bus: u8, device: u8| device < 32 implies (#[trigger] present_devices(
            vendor_ids,
            n,
        ).contains(PCIDevice { bus, device }) <==> (bus * 32 + device < n && vendor_ids[bus
            * 32 + device] != 0xFFFF)) by {
            let x = PCIDevice { bus, device };
            assert((x == last) <==> (bus * 32 + device == i));
            if vendor_ids[i] != 0xFFFF {
                assert(present_devices(vendor_ids, n) == rest.push(last));
                assert(rest.push(last).contains(x) <==> (rest.contains(x) || x == last)) by {
                    if rest.push(last).contains(x) {
                        let j = choose|j: int| 0 <= j < rest.push(last).len() && rest.push(last)[j] == x;
                        if j < rest.len() {
                            assert(rest[j] == x);
                        }
                    }
                    if rest.contains(x) {
                        let j = choose|j: int| 0 <= j < rest.len() && rest[j] == x;
                        assert(rest.push(last)[j] == x);
                    }
                    if x == last {
                        assert(rest.push(last)[rest.len() as int] == x);
                    }
                }
            } else {
                assert(present_devices(vendor_ids, n) == rest);
            }
        }
        assert forall|k: int|
            0 <= k < present_devices(vendor_ids, n).len() implies (#[trigger] present_devices(
            vendor_ids,
            n,
        )[k]).device < 32 by {
            if vendor_ids[i] != 0xFFFF {
                assert(present_devices(vendor_ids, n) == rest.push(last));
                if k < rest.len() {
                    assert(rest.push(last)[k] == rest[k]);
                }
            }
        }
    }
}

/// The device at `device_number` on `bus`, unless its vendor ID reads `0xFFFF`.
fn get_device_if_exists(bus: u8, device_number: u8, vendor_id: u16) -> (r: Option<PCIDevice>)
    ensures
        vendor_id == 0xFFFF ==> r is None,
        vendor_id != 0xFFFF ==> r == Some(PCIDevice { bus, device: device_number }),
{
    let device = PCIDevice::new(bus, device_number);
    if vendor_id == 0xFFFF {
        return None;
    }
    Some(device)
}

/// The parts of a header dword that the accessors above take out.
proof fn lemma_header_field_parts(x: u32)
    by (bit_vector)
    ensures
        (x & 0xFFFF0000u32) >> 16u32 == x >> 16u32,
        x >> 16u32 <= 0xFFFFu32,
        x & 0x0000FFFFu32 <= 0xFFFFu32,
        (x & 0xFF000000u32) >> 24u32 == x >> 24u32,
        x >> 24u32 <= 0xFFu32,
        (x & 0x00FF0000u32) >> 16u32 == (x >> 16u32) & 0xFFu32,
        (x >> 16u32) & 0xFFu32 <= 0xFFu32,
        x & 0x000000FFu32 <= 0xFFu32,
{
}

/// The layout of a configuration address: the enable bit is bit 31; the low byte is the
/// register offset with its two low bits cleared (the dword that holds the register); the
/// function number sits in bits 8 to 10; and, for a slot below 32 and a function below 8,
/// the slot fills bits 11 to 15, the bus bits 16 to 23, and bits 24 to 30 stay clear.
pub proof fn lemma_config_address_layout(bus: u8, slot: u8, func: u8, offset: u8)
    by (bit_vector)
    ensures
        config_address(bus, slot, func, offset) & 0xFFu32 == (offset as u32) & 0xFCu32,
        config_address(bus, slot, func, offset) >> 31u32 == 1u32,
        (config_address(bus, slot, func, offset) >> 8u32) & 0x7u32 == (func as u32) & 0x7u32,
        slot < 32 && func < 8 ==> (config_address(bus, slot, func, offset) >> 11u32) & 0x1Fu32
            == slot as u32,
        slot < 32 && func < 8 ==> (config_address(bus, slot, func, offset) >> 16u32) & 0xFFu32
            == bus as u32,
        slot < 32 && func < 8 ==> (config_address(bus, slot, func, offset) >> 24u32) & 0x7Fu32
            == 0u32,
{
}

pub fn build_config_address(bus: u8, slot: u8, func: u8, offset: u8) -> (r: u32)
    ensures
        r == config_address(bus, slot, func, offset),
        r & 0xFFu32 == (offset as u32) & 0xFCu32,
        r >> 31u32 == 1u32,
        (r >> 8u32) & 0x7u32 == (func as u32) & 0x7u32,
        slot < 32 && func < 8 ==> (r >> 11u32) & 0x1Fu32 == slot as u32,
        slot < 32 && func < 8 ==> (r >> 16u32) & 0xFFu32 == bus as u32,
        slot < 32 && func < 8 ==> (r >> 24u32) & 0x7Fu32 == 0u32,
{
    proof {
        lemma_config_address_layout(bus, slot, func, offset);
    }
    ((bus as u32) << 16) | ((slot as u32) << 11) | ((func as u32) << 8) | ((offset as u32) & 0xFC)
        | 0x80000000u32
}

} // verus!
