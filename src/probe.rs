//! Recognising a virtual CPU by the hypervisor identifier it reports.

use vstd::prelude::*;

use crate::bytes::{le_u32_bytes, u32_to_le};

verus! {

/// CPUID leaf that reports the hypervisor identifier.
pub const HYPERVISOR_LEAF: u32 = 0x4000_0000;

/// The 12-byte identifier spelled by the three registers of the hypervisor leaf, each in
/// little-endian order.
pub open spec fn hypervisor_id(ebx: u32, ecx: u32, edx: u32) -> Seq<u8> {
    le_u32_bytes(ebx) + le_u32_bytes(ecx) + le_u32_bytes(edx)
}

/// The identifier of QEMU's software CPU: `TCGTCGTCGTCG`.
pub open spec fn tcg_id() -> Seq<u8> {
    seq![0x54u8, 0x43, 0x47, 0x54, 0x43, 0x47, 0x54, 0x43, 0x47, 0x54, 0x43, 0x47]
}

/// The identifier of KVM: `KVMKVMKVM` and three NUL bytes.
pub open spec fn kvm_id() -> Seq<u8> {
    seq![0x4bu8, 0x56, 0x4d, 0x4b, 0x56, 0x4d, 0x4b, 0x56, 0x4d, 0x00, 0x00, 0x00]
}

/// The identifier spelled by the registers of the hypervisor leaf.
pub fn hypervisor_id_bytes(ebx: u32, ecx: u32, edx: u32) -> (r: [u8; 12])
    ensures
        r@ == hypervisor_id(ebx, ecx, edx),
{
    let b = u32_to_le(ebx);
    let c = u32_to_le(ecx);
    let d = u32_to_le(edx);
    let r = [b[0], b[1], b[2], b[3], c[0], c[1], c[2], c[3], d[0], d[1], d[2], d[3]];
    assert(r@ =~= hypervisor_id(ebx, ecx, edx));
    r
}

/// Whether two byte strings are equal.
fn bytes_equal(a: &[u8], b: &[u8]) -> (r: bool)
    ensures
        r == (a@ == b@),
{
    if a.len() != b.len() {
        return false;
    }
    let mut i: usize = 0;
    while i < a.len()
        invariant
            i <= a@.len(),
            a@.len() == b@.len(),
            forall|j: int| 0 <= j < i ==> a@[j] == b@[j],
        decreases a@.len() - i,
    {
        if a[i] != b[i] {
            assert(a@[i as int] != b@[i as int]);
            return false;
        }
        i = i + 1;
    }
    assert(a@ =~= b@);
    true
}

/// Whether `id` names a virtual CPU that runs under QEMU: QEMU's software CPU or KVM.
pub fn is_qemu_cpu_id(id: &[u8]) -> (r: bool)
    ensures
        r == (id@ == tcg_id() || id@ == kvm_id()),
{
    let tcg: [u8; 12] = [0x54, 0x43, 0x47, 0x54, 0x43, 0x47, 0x54, 0x43, 0x47, 0x54, 0x43, 0x47];
    let kvm: [u8; 12] = [0x4b, 0x56, 0x4d, 0x4b, 0x56, 0x4d, 0x4b, 0x56, 0x4d, 0x00, 0x00, 0x00];
    assert(tcg@ =~= tcg_id());
    assert(kvm@ =~= kvm_id());
    bytes_equal(id, tcg.as_slice()) || bytes_equal(id, kvm.as_slice())
}

} // verus!
