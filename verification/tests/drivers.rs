use toast::drivers::acpi::{
    find_rsdp, validate_rsdp_checksum, RootSystemDescriptorPointerV1, RootSystemDescriptorPointerV2, Rsdp,
};
use toast::drivers::cpuid::{CPUInfo, CPUVendor};
use toast::drivers::pci::{build_config_address, find_all_pci_devices, PCIDevice};

fn v1(checksum: u8) -> RootSystemDescriptorPointerV1 {
    RootSystemDescriptorPointerV1 {
        signature: *b"RSD PTR ",
        checksum,
        oemid: *b"TOAST ",
        revision: 0,
        rsdt_address: 0x7fe1234,
    }
}

fn checksum_fixing(bytes: &[u8], checksum_now: u8) -> u8 {
    let sum: u32 = bytes.iter().map(|b| *b as u32).sum::<u32>() - checksum_now as u32;
    ((256 - (sum % 256)) % 256) as u8
}

#[test]
fn rsdp_v1_bytes_and_checksum() {
    let unfixed = v1(0);
    let bytes = unfixed.as_bytes();
    assert_eq!(bytes.len(), 20);
    assert_eq!(&bytes[0..8], b"RSD PTR ");
    assert_eq!(&bytes[16..20], &0x7fe1234u32.to_le_bytes());
    let fixed = v1(checksum_fixing(&bytes, 0));
    assert!(validate_rsdp_checksum(&fixed.as_bytes()));
    assert_eq!(fixed.rsdt_address(), 0x7fe1234);
}

#[test]
fn checksum_is_the_lowest_byte_of_the_sum() {
    assert!(validate_rsdp_checksum(&vec![0x80, 0x80]));
    assert!(!validate_rsdp_checksum(&vec![0x80, 0x81]));
    assert!(validate_rsdp_checksum(&vec![]));
    // A sum of 2 is even but not a multiple of 256.
    assert!(!validate_rsdp_checksum(&vec![1, 1]));
}

#[test]
fn find_rsdp_prefers_revision_two() {
    let unfixed = RootSystemDescriptorPointerV2 {
        signature: *b"RSD PTR ",
        checksum: 0,
        oemid: *b"TOAST ",
        revision: 2,
        rsdt_address: 0x1000,
        length: 36,
        xsdt_address: 0x2000,
        extended_checksum: 0,
        reserved: [0; 3],
    };
    let bytes = unfixed.as_bytes();
    assert_eq!(bytes.len(), 36);
    let mut fixed = unfixed;
    fixed.checksum = checksum_fixing(&bytes, 0);
    match find_rsdp(Some(fixed), Some(v1(0))) {
        Ok(Rsdp::V2(p)) => assert_eq!(p.rsdt_address(), 0x1000),
        _ => panic!("expected the revision 2 pointer"),
    }
}

#[test]
fn find_rsdp_falls_back_to_revision_one() {
    let bytes = v1(0).as_bytes();
    let fixed = v1(checksum_fixing(&bytes, 0));
    assert!(matches!(find_rsdp(None, Some(fixed)), Ok(Rsdp::V1(_))));
}

#[test]
fn find_rsdp_errors() {
    let bytes = v1(0).as_bytes();
    let broken = v1(checksum_fixing(&bytes, 0).wrapping_add(1));
    assert_eq!(find_rsdp(None, Some(broken)).err(), Some("Checksum validation failed..."));
    assert_eq!(find_rsdp(None, None).err(), Some("ACPI RSDP tag is required..."));
}

fn le(s: &[u8]) -> u32 {
    u32::from_le_bytes([s[0], s[1], s[2], s[3]])
}

#[test]
fn cpu_vendor_from_registers() {
    let amd = b"AuthenticAMD";
    let intel = b"GenuineIntel";
    assert!(matches!(CPUInfo::get_vendor(le(&amd[0..4]), le(&amd[4..8]), le(&amd[8..12])), Some(CPUVendor::Amd)));
    assert!(matches!(
        CPUInfo::get_vendor(le(&intel[0..4]), le(&intel[4..8]), le(&intel[8..12])),
        Some(CPUVendor::Intel)
    ));
    assert!(CPUInfo::get_vendor(le(&amd[4..8]), le(&amd[0..4]), le(&amd[8..12])).is_none());
}

#[test]
fn apic_support_is_bit_nine() {
    assert!(CPUInfo::get_apic_support(1 << 9));
    assert!(!CPUInfo::get_apic_support(!(1 << 9)));
}

#[test]
fn brand_string_bytes() {
    let text = b"Toast Virtual CPU @ 1.00GHz\0\0\0\0\0\0\0\0\0\0\0\0\0\0\0\0\0\0\0\0\0";
    let mut registers = [0u32; 12];
    for i in 0..12 {
        registers[i] = le(&text[4 * i..4 * i + 4]);
    }
    assert_eq!(CPUInfo::get_brand_string(&registers), text.to_vec());
}

#[test]
fn pci_config_address() {
    assert_eq!(build_config_address(1, 2, 3, 0x13), 0x8001_1310);
    let device = PCIDevice::new(1, 2);
    assert_eq!(device.register_address(3, 0x13), 0x8001_1310);
}

#[test]
fn pci_header_fields() {
    let device = PCIDevice::new(0, 3);
    assert_eq!(device.vendor_id(0x1234_8086), 0x8086);
    assert_eq!(device.device_id(0x1234_8086), 0x1234);
    assert_eq!(device.command(0x0010_0007), 0x0007);
    assert_eq!(device.status(0x0010_0007), 0x0010);
    assert_eq!(device.class_code(0x0106_0100), 0x01);
    assert_eq!(device.subclass(0x0106_0100), 0x06);
    assert_eq!(device.header_type(0x0080_0000), 0x80);
    assert!(PCIDevice::is_multifunction(0x80));
    assert!(!PCIDevice::is_multifunction(0x00));
    assert_eq!(device.bar5(0xfebf_1000), 0xfebf_1000);
    assert_eq!(device.interrupt_line(0x0000_010b), 0x0b);
    assert_eq!(device.set_command(0x0007, 0x0010), 0x0010_0007);
}

#[test]
fn pci_scan_lists_present_devices() {
    let mut vendor_ids = vec![0xFFFFu16; 256 * 32];
    vendor_ids[0] = 0x8086;
    vendor_ids[3] = 0x1234;
    vendor_ids[32 + 1] = 0x10de;
    let devices = find_all_pci_devices(&vendor_ids);
    assert_eq!(devices, vec![PCIDevice::new(0, 0), PCIDevice::new(0, 3), PCIDevice::new(1, 1)]);
}
