use vstd::prelude::*;
use crate::utils::bitutils::{is_nth_bit_set, le32, nth_bit, push_le32, lemma_bit_is_binary_digit, lemma_le_bytes_are_digits};

verus! {

pub enum CPUVendor {
    Amd,
    Intel,
}

/// "AuthenticAMD".
pub open spec fn amd_vendor_string() -> Seq<u8> {
    seq![0x41u8, 0x75, 0x74, 0x68, 0x65, 0x6e, 0x74, 0x69, 0x63, 0x41, 0x4d, 0x44]
}

/// "GenuineIntel".
pub open spec fn intel_vendor_string() -> Seq<u8> {
    seq![0x47u8, 0x65, 0x6e, 0x75, 0x69, 0x6e, 0x65, 0x49, 0x6e, 0x74, 0x65, 0x6c]
}

/// The two vendor strings are the ASCII text "AuthenticAMD" and "GenuineIntel".
pub proof fn lemma_vendor_strings_are_text()
    ensures
        amd_vendor_string().len() == "AuthenticAMD"@.len(),
        intel_vendor_string().len() == "GenuineIntel"@.len(),
        forall|k: int| 0 <= k < 12 ==> amd_vendor_string()[k] as char == #[trigger] "AuthenticAMD"@[k],
        forall|k: int| 0 <= k < 12 ==> intel_vendor_string()[k] as char == #[trigger] "GenuineIntel"@[k],
{
    reveal_strlit("AuthenticAMD");
    reveal_strlit("GenuineIntel");
    assert forall|k: int| 0 <= k < 12 implies amd_vendor_string()[k] as char == #[trigger] "AuthenticAMD"@[k]
        && intel_vendor_string()[k] as char == "GenuineIntel"@[k] by {
        if k == 0 {} else if k == 1 {} else if k == 2 {} else if k == 3 {} else if k == 4 {}
        else if k == 5 {} else if k == 6 {} else if k == 7 {} else if k == 8 {} else if k == 9 {}
        else if k == 10 {} else {}
    }
}

/// The vendor string that `cpuid` leaf 0 returns in `ebx`, `edx`, `ecx`.
pub open spec fn vendor_string(ebx: u32, edx: u32, ecx: u32) -> Seq<u8> {
    le32(ebx) + le32(edx) + le32(ecx)
}

/// The brand string bytes that `cpuid` leaves 0x80000002 to 0x80000004 return in
/// `eax`, `ebx`, `ecx`, `edx`, one leaf after the other.
pub open spec fn brand_bytes(registers: Seq<u32>) -> Seq<u8>
    decreases registers.len(),
{
    if registers.len() == 0 {
        Seq::empty()
    } else {
        brand_bytes(registers.drop_last()) + le32(registers.last())
    }
}

/// The brand string holds four bytes per register, in register order, each register's
/// bytes lowest first: byte `4 * i + j` is byte `j` (of weight `256^j`) of register `i`.
pub proof fn lemma_brand_bytes_layout(registers: Seq<u32>)
    ensures
        brand_bytes(registers).len() == 4 * registers.len(),
        forall|i: int|
            0 <= i < registers.len() ==> {
                &&& brand_bytes(registers)[4 * i] == #[trigger] registers[i] % 0x100
                &&& brand_bytes(registers)[4 * i + 1] == (registers[i] / 0x100) % 0x100
                &&& brand_bytes(registers)[4 * i + 2] == (registers[i] / 0x10000) % 0x100
                &&& brand_bytes(registers)[4 * i + 3] == (registers[i] / 0x1000000) % 0x100
            },
    decreases registers.len(),
{
    if registers.len() > 0 {
        let before = registers.drop_last();
        lemma_brand_bytes_layout(before);
        lemma_le_bytes_are_digits(registers.last(), 0);
        let all = brand_bytes(registers);
        assert(all == brand_bytes(before) + le32(registers.last()));
        assert forall|i: int| 0 <= i < registers.len() implies {
            &&& all[4 * i] == #[trigger] registers[i] % 0x100
            &&& all[4 * i + 1] == (registers[i] / 0x100) % 0x100
            &&& all[4 * i + 2] == (registers[i] / 0x10000) % 0x100
            &&& all[4 * i + 3] == (registers[i] / 0x1000000) % 0x100
        } by {
            if i < before.len() {
                assert(before[i] == registers[i]);
                assert(registers[i] == before[i]);
            } else {
                assert(registers[i] == registers.last());
            }
        }
    }
}

pub struct CPUInfo {
    pub vendor: CPUVendor,
    pub is_apic_supported: bool,
    pub brand_string: String,
}

impl CPUInfo {
    /// The vendor named by the vendor string of `cpuid` leaf 0, if it is one this kernel
    /// supports.
    pub fn get_vendor(ebx: u32, edx: u32, ecx: u32) -> (r: Option<CPUVendor>)
        ensures
            vendor_string(ebx, edx, ecx) == amd_vendor_string() ==> r matches Some(CPUVendor::Amd),
            vendor_string(ebx, edx, ecx) == intel_vendor_string() ==> r matches Some(CPUVendor::Intel),
            vendor_string(ebx, edx, ecx) != amd_vendor_string() && vendor_string(ebx, edx, ecx)
                != intel_vendor_string() ==> r is None,
    {
        let mut bytes: Vec<u8> = Vec::new();
        push_le32(&mut bytes, ebx);
        push_le32(&mut bytes, edx);
        push_le32(&mut bytes, ecx);
        let amd: [u8; 12] = [0x41, 0x75, 0x74, 0x68, 0x65, 0x6e, 0x74, 0x69, 0x63, 0x41, 0x4d, 0x44];
        let intel: [u8; 12] = [0x47, 0x65, 0x6e, 0x75, 0x69, 0x6e, 0x65, 0x49, 0x6e, 0x74, 0x65, 0x6c];
        assert(amd@ =~= amd_vendor_string());
        assert(intel@ =~= intel_vendor_string());
        if bytes_equal(&bytes, &amd) {
            Some(CPUVendor::Amd)
        } else if bytes_equal(&bytes, &intel) {
            Some(CPUVendor::Intel)
        } else {
            None
        }
    }

    /// Whether the local APIC is supported: bit 9 of `edx` from `cpuid` leaf 1.
    pub fn get_apic_support(edx: u32) -> (r: bool)
        ensures
            r == nth_bit(edx as usize, 9),
            r == ((edx / 512) % 2 == 1),
    {
        proof {
            lemma_bit_is_binary_digit(edx as usize, 9, 0, 0);
            vstd::arithmetic::power2::lemma2_to64();
        }
        is_nth_bit_set(edx as usize, 9)
    }

    /// The brand string bytes from the registers of `cpuid` leaves 0x80000002 to 0x80000004.
    pub fn get_brand_string(registers: &[u32; 12]) -> (r: Vec<u8>)
        ensures
            r@ == brand_bytes(registers@),
            r@.len() == 48,
            forall|i: int|
                0 <= i < 12 ==> {
                    &&& r@[4 * i] == #[trigger] registers@[i] % 0x100
                    &&& r@[4 * i + 1] == (registers@[i] / 0x100) % 0x100
                    &&& r@[4 * i + 2] == (registers@[i] / 0x10000) % 0x100
                    &&& r@[4 * i + 3] == (registers@[i] / 0x1000000) % 0x100
                },
    {
        proof {
            lemma_brand_bytes_layout(registers@);
        }
        let mut bytes: Vec<u8> = Vec::new();
        let mut i: usize = 0;
        while i < 12
            invariant
                i <= 12,
                registers@.len() == 12,
                bytes@ == brand_bytes(registers@.take(i as int)),
            decreases 12 - i,
        {
            assert(registers@.take(i + 1).drop_last() =~= registers@.take(i as int));
            push_le32(&mut bytes, registers[i]);
            i = i + 1;
        }
        assert(registers@.take(12) =~= registers@);
        bytes
    }
}

/// Whether `a` holds exactly the bytes of `b`.
fn bytes_equal<const N: usize>(a: &Vec<u8>, b: &[u8; N]) -> (r: bool)
    ensures
        r == (a@ == b@),
{
    if a.len() != N {
        assert(a@.len() != b@.len());
        return false;
    }
    let mut i: usize = 0;
    while i < N
        invariant
            i <= N,
            a@.len() == N,
            b@.len() == N,
            forall|j: int| 0 <= j < i ==> a@[j] == b@[j],
        decreases N - i,
    {
        if a[i] != b[i] {
            return false;
        }
        i = i + 1;
    }
    assert(a@ =~= b@);
    true
}

} // verus!
