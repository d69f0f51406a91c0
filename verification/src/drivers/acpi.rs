use vstd::prelude::*;
use crate::utils::bitutils::{le32, le64, push_le32, push_le64, lemma_le_bytes_are_digits};

verus! {

/// The sum of the bytes of `s`.
pub open spec fn byte_sum(s: Seq<u8>) -> nat
    decreases s.len(),
{
    if s.len() == 0 {
        0
    } else {
        byte_sum(s.drop_last()) + (s.last() as nat)
    }
}

/// The root system description pointer, in either revision.
pub enum Rsdp {
    V1(RootSystemDescriptorPointerV1),
    V2(RootSystemDescriptorPointerV2),
}

/// The ACPI 1.0 root system description pointer.
#[derive(Copy, Clone)]
pub struct RootSystemDescriptorPointerV1 {
    pub signature: [u8; 8],
    pub checksum: u8,
    pub oemid: [u8; 6],
    pub revision: u8,
    pub rsdt_address: u32,
}

impl RootSystemDescriptorPointerV1 {
    pub fn rsdt_address(&self) -> (r: u32)
        ensures
            r == self.rsdt_address,
    {
        self.rsdt_address
    }

    /// The structure as it lies in memory: packed, little-endian.
    pub open spec fn spec_bytes(&self) -> Seq<u8> {
        self.signature@ + seq![self.checksum] + self.oemid@ + seq![self.revision] + le32(self.rsdt_address)
    }

    /// The bytes of the structure as it lies in memory.
    pub fn as_bytes(&self) -> (r: Vec<u8>)
        ensures
            r@ == self.spec_bytes(),
            r@.len() == 20,
                forall|k: int| 0 <= k < 8 ==> r@[k] == #[trigger] self.signature@[k],
                r@[8] == self.checksum,
                forall|k: int| 0 <= k < 6 ==> r@[9 + k] == #[trigger] self.oemid@[k],
                r@[15] == self.revision,
                r@[16] == self.rsdt_address % 0x100,
                r@[17] == (self.rsdt_address / 0x100) % 0x100,
                r@[18] == (self.rsdt_address / 0x10000) % 0x100,
                r@[19] == (self.rsdt_address / 0x1000000) % 0x100,
    {
        proof {
            lemma_rsdp_v1_layout(*self);
        }
        let mut r: Vec<u8> = Vec::new();
        push_array(&mut r, &self.signature);
        r.push(self.checksum);
        push_array(&mut r, &self.oemid);
        r.push(self.revision);
        push_le32(&mut r, self.rsdt_address);
        assert(r@ =~= self.spec_bytes());
        r
    }
}

/// The ACPI 2.0 root system description pointer.
#[derive(Copy, Clone)]
pub struct RootSystemDescriptorPointerV2 {
    pub signature: [u8; 8],
    pub checksum: u8,
    pub oemid: [u8; 6],
    pub revision: u8,
    pub rsdt_address: u32,
    pub length: u32,
    pub xsdt_address: u64,
    pub extended_checksum: u8,
    pub reserved: [u8; 3],
}

impl RootSystemDescriptorPointerV2 {
    pub fn rsdt_address(&self) -> (r: u32)
        ensures
            r == self.rsdt_address,
    {
        self.rsdt_address
    }

    /// The structure as it lies in memory: packed, little-endian.
    pub open spec fn spec_bytes(&self) -> Seq<u8> {
        self.signature@ + seq![self.checksum] + self.oemid@ + seq![self.revision] + le32(self.rsdt_address)
            + le32(self.length) + le64(self.xsdt_address) + seq![self.extended_checksum]
            + self.reserved@
    }

    /// The bytes of the structure as it lies in memory.
    pub fn as_bytes(&self) -> (r: Vec<u8>)
        ensures
            r@ == self.spec_bytes(),
            r@.len() == 36,
                forall|k: int| 0 <= k < 8 ==> r@[k] == #[trigger] self.signature@[k],
                r@[8] == self.checksum,
                forall|k: int| 0 <= k < 6 ==> r@[9 + k] == #[trigger] self.oemid@[k],
                r@[15] == self.revision,
                r@[16] == self.rsdt_address % 0x100,
                r@[17] == (self.rsdt_address / 0x100) % 0x100,
                r@[18] == (self.rsdt_address / 0x10000) % 0x100,
                r@[19] == (self.rsdt_address / 0x1000000) % 0x100,
                r@[20] == self.length % 0x100,
                r@[21] == (self.length / 0x100) % 0x100,
                r@[22] == (self.length / 0x10000) % 0x100,
                r@[23] == (self.length / 0x1000000) % 0x100,
                r@[24] == self.xsdt_address % 0x100,
                r@[25] == (self.xsdt_address / 0x100) % 0x100,
                r@[26] == (self.xsdt_address / 0x10000) % 0x100,
                r@[27] == (self.xsdt_address / 0x1000000) % 0x100,
                r@[28] == (self.xsdt_address / 0x1_0000_0000) % 0x100,
                r@[29] == (self.xsdt_address / 0x100_0000_0000) % 0x100,
                r@[30] == (self.xsdt_address / 0x1_0000_0000_0000) % 0x100,
                r@[31] == (self.xsdt_address / 0x100_0000_0000_0000) % 0x100,
                r@[32] == self.extended_checksum,
                forall|k: int| 0 <= k < 3 ==> r@[33 + k] == #[trigger] self.reserved@[k],
    {
        proof {
            lemma_rsdp_v2_layout(*self);
        }
        let mut r: Vec<u8> = Vec::new();
        push_array(&mut r, &self.signature);
        r.push(self.checksum);
        push_array(&mut r, &self.oemid);
        r.push(self.revision);
        push_le32(&mut r, self.rsdt_address);
        push_le32(&mut r, self.length);
        push_le64(&mut r, self.xsdt_address);
        r.push(self.extended_checksum);
        push_array(&mut r, &self.reserved);
        assert(r@ =~= self.spec_bytes());
        r
    }
}

/// The revision 1 pointer lies in memory as 20 packed bytes: the signature in bytes 0 to
/// 7, the checksum in byte 8, the OEM ID in bytes 9 to 14, the revision in byte 15 and the
/// RSDT address, lowest byte first, in bytes 16 to 19.
pub proof fn lemma_rsdp_v1_layout(p: RootSystemDescriptorPointerV1)
    ensures
        p.spec_bytes().len() == 20,
        forall|k: int| 0 <= k < 8 ==> p.spec_bytes()[k] == #[trigger] p.signature@[k],
        p.spec_bytes()[8] == p.checksum,
        forall|k: int| 0 <= k < 6 ==> p.spec_bytes()[9 + k] == #[trigger] p.oemid@[k],
        p.spec_bytes()[15] == p.revision,
        p.spec_bytes()[16] == p.rsdt_address % 0x100,
        p.spec_bytes()[17] == (p.rsdt_address / 0x100) % 0x100,
        p.spec_bytes()[18] == (p.rsdt_address / 0x10000) % 0x100,
        p.spec_bytes()[19] == (p.rsdt_address / 0x1000000) % 0x100,
{
    lemma_le_bytes_are_digits(p.rsdt_address, 0);
}

/// The revision 2 pointer lies in memory as 36 packed bytes: the 20 bytes of revision 1,
/// then the length in bytes 20 to 23 and the XSDT address in bytes 24 to 31 (each lowest
/// byte first), the extended checksum in byte 32 and the reserved bytes in 33 to 35.
pub proof fn lemma_rsdp_v2_layout(p: RootSystemDescriptorPointerV2)
    ensures
        p.spec_bytes().len() == 36,
        forall|k: int| 0 <= k < 8 ==> p.spec_bytes()[k] == #[trigger] p.signature@[k],
        p.spec_bytes()[8] == p.checksum,
        forall|k: int| 0 <= k < 6 ==> p.spec_bytes()[9 + k] == #[trigger] p.oemid@[k],
        p.spec_bytes()[15] == p.revision,
        p.spec_bytes()[16] == p.rsdt_address % 0x100,
        p.spec_bytes()[17] == (p.rsdt_address / 0x100) % 0x100,
        p.spec_bytes()[18] == (p.rsdt_address / 0x10000) % 0x100,
        p.spec_bytes()[19] == (p.rsdt_address / 0x1000000) % 0x100,
        p.spec_bytes()[20] == p.length % 0x100,
        p.spec_bytes()[21] == (p.length / 0x100) % 0x100,
        p.spec_bytes()[22] == (p.length / 0x10000) % 0x100,
        p.spec_bytes()[23] == (p.length / 0x1000000) % 0x100,
        p.spec_bytes()[24] == p.xsdt_address % 0x100,
        p.spec_bytes()[25] == (p.xsdt_address / 0x100) % 0x100,
        p.spec_bytes()[26] == (p.xsdt_address / 0x10000) % 0x100,
        p.spec_bytes()[27] == (p.xsdt_address / 0x1000000) % 0x100,
        p.spec_bytes()[28] == (p.xsdt_address / 0x1_0000_0000) % 0x100,
        p.spec_bytes()[29] == (p.xsdt_address / 0x100_0000_0000) % 0x100,
        p.spec_bytes()[30] == (p.xsdt_address / 0x1_0000_0000_0000) % 0x100,
        p.spec_bytes()[31] == (p.xsdt_address / 0x100_0000_0000_0000) % 0x100,
        p.spec_bytes()[32] == p.extended_checksum,
        forall|k: int| 0 <= k < 3 ==> p.spec_bytes()[33 + k] == #[trigger] p.reserved@[k],
{
    lemma_le_bytes_are_digits(p.rsdt_address, p.xsdt_address);
    lemma_le_bytes_are_digits(p.length, 0);
}

/// Appends the bytes of `a`.
fn push_array<const N: usize>(v: &mut Vec<u8>, a: &[u8; N])
    ensures
        final(v)@ == old(v)@ + a@,
{
    let mut i: usize = 0;
    while i < N
        invariant
            i <= N,
            a@.len() == N,
            v@ == old(v)@ + a@.take(i as int),
        decreases N - i,
    {
        v.push(a[i]);
        i = i + 1;
        assert(v@ =~= old(v)@ + a@.take(i as int));
    }
    assert(a@.take(N as int) =~= a@);
}

/// Whether the bytes of a root system description pointer add up to a multiple of 256: the
/// lowest byte of their sum is zero.
pub fn validate_rsdp_checksum(rsdp_bytes: &Vec<u8>) -> (r: bool)
    requires
        rsdp_bytes@.len() <= 1024,
    ensures
        r == (byte_sum(rsdp_bytes@) % 256 == 0),
{
    // Add up every byte, the lowest byte of the result should be zero
    let mut sum: u64 = 0;
    let mut i: usize = 0;
    while i < rsdp_bytes.len()
        invariant
            i <= rsdp_bytes@.len() <= 1024,
            sum == byte_sum(rsdp_bytes@.take(i as int)),
            sum <= 255 * i,
        decreases rsdp_bytes@.len() - i,
    {
        assert(rsdp_bytes@.take(i + 1).drop_last() =~= rsdp_bytes@.take(i as int));
        sum = sum + rsdp_bytes[i] as u64;
        i = i + 1;
    }
    assert(rsdp_bytes@.take(i as int) =~= rsdp_bytes@);
    sum % 256 == 0
}

/// Picks the root system description pointer handed over by the bootloader: the revision 2
/// one if there is one, else the revision 1 one; its checksum must hold.
pub fn find_rsdp(rsdp_v2: Option<RootSystemDescriptorPointerV2>, rsdp_v1: Option<RootSystemDescriptorPointerV1>) -> (r: Result<Rsdp, &'static str>)
    ensures
        match rsdp_v2 {
            Some(v2) => if byte_sum(v2.spec_bytes()) % 256 == 0 {
                r matches Ok(Rsdp::V2(p)) && p == v2
            } else {
                r matches Err(e) && e@ == "Checksum validation failed..."@
            },
            None => match rsdp_v1 {
                Some(v1) => if byte_sum(v1.spec_bytes()) % 256 == 0 {
                    r matches Ok(Rsdp::V1(p)) && p == v1
                } else {
                    r matches Err(e) && e@ == "Checksum validation failed..."@
                },
                None => r matches Err(e) && e@ == "ACPI RSDP tag is required..."@,
            },
        },
{
    proof {
        reveal_strlit("Checksum validation failed...");
        reveal_strlit("ACPI RSDP tag is required...");
    }
    // V2
    if let Some(rsdp) = rsdp_v2 {
        let bytes = rsdp.as_bytes();
        if !validate_rsdp_checksum(&bytes) {
            return Err("Checksum validation failed...");
        }
        // technically should be reading xsdt, but I don't think it really matters, and Toast uses V1 anyway
        Ok(Rsdp::V2(rsdp))
    }
    // V1
    else {
        if let Some(rsdp) = rsdp_v1 {
            let bytes = rsdp.as_bytes();
            if !validate_rsdp_checksum(&bytes) {
                return Err("Checksum validation failed...");
            }
            Ok(Rsdp::V1(rsdp))
        } else {
            Err("ACPI RSDP tag is required...")
        }
    }
}

} // verus!
