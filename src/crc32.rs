//! Table-driven CRC-32 (IEEE 802.3, reflected polynomial `0xEDB88320`).

use vstd::prelude::*;

verus! {

/// The reflected IEEE 802.3 generator polynomial.
pub const POLY: u32 = 0xEDB88320;

/// One shift of the bitwise CRC register: shift right, and fold the
/// polynomial in when a one bit falls out.
pub open spec fn crc_step(c: u32) -> u32 {
    if c & 1 != 0 {
        (c >> 1) ^ POLY
    } else {
        c >> 1
    }
}

/// `k` shifts of the bitwise register, starting from `c`.
pub open spec fn crc_steps(c: u32, k: nat) -> u32
    decreases k,
{
    if k == 0 {
        c
    } else {
        crc_step(crc_steps(c, (k - 1) as nat))
    }
}

/// Entry `i` of the 256-entry lookup table: eight register shifts of `i`.
pub open spec fn table_entry(i: u32) -> u32 {
    crc_step(crc_step(crc_step(crc_step(crc_step(crc_step(crc_step(crc_step(i))))))))
}

/// The whole lookup table, indexed by byte value.
pub open spec fn crc_table() -> Seq<u32> {
    Seq::new(256, |i: int| table_entry(i as u32))
}

/// The register after absorbing one byte.
pub open spec fn crc_update(c: u32, b: u8) -> u32 {
    (c >> 8) ^ table_entry((c ^ (b as u32)) & 0xFF)
}

/// The register after absorbing all of `data`, from the initial value `0xFFFFFFFF`.
pub open spec fn crc_register(data: Seq<u8>) -> u32
    decreases data.len(),
{
    if data.len() == 0 {
        0xFFFF_FFFFu32
    } else {
        crc_update(crc_register(data.drop_last()), data.last())
    }
}

/// CRC-32 of `data`: the bitwise complement of the final register.
pub open spec fn crc32(data: Seq<u8>) -> u32 {
    !crc_register(data)
}

proof fn lemma_steps_eight(c: u32)
    ensures
        crc_steps(c, 8) == table_entry(c),
{
    reveal_with_fuel(crc_steps, 9);
}

/// For a fixed byte, the register update is injective.
pub proof fn lemma_update_injective_register(c1: u32, c2: u32, b: u8)
    requires
        crc_update(c1, b) == crc_update(c2, b),
    ensures
        c1 == c2,
{
    assert(crc_update(c1, b) == crc_update(c2, b) ==> c1 == c2) by (bit_vector);
}

/// For a fixed register, two different bytes lead to different registers.
pub proof fn lemma_update_injective_byte(c: u32, b1: u8, b2: u8)
    requires
        b1 != b2,
    ensures
        crc_update(c, b1) != crc_update(c, b2),
{
    assert(b1 != b2 ==> crc_update(c, b1) != crc_update(c, b2)) by (bit_vector);
}

proof fn lemma_prefix_registers_differ(a: Seq<u8>, b: Seq<u8>, p: int, k: int)
    requires
        a.len() == b.len(),
        0 <= p < k <= a.len(),
        a[p] != b[p],
        forall|i: int| 0 <= i < a.len() && i != p ==> a[i] == b[i],
    ensures
        crc_register(a.subrange(0, k)) != crc_register(b.subrange(0, k)),
    decreases k,
{
    let ak = a.subrange(0, k);
    let bk = b.subrange(0, k);
    assert(ak.drop_last() =~= a.subrange(0, k - 1));
    assert(bk.drop_last() =~= b.subrange(0, k - 1));
    if k == p + 1 {
        assert(a.subrange(0, p) =~= b.subrange(0, p));
        lemma_update_injective_byte(crc_register(a.subrange(0, p)), a[p], b[p]);
    } else {
        lemma_prefix_registers_differ(a, b, p, k - 1);
        if crc_register(ak) == crc_register(bk) {
            lemma_update_injective_register(
                crc_register(a.subrange(0, k - 1)),
                crc_register(b.subrange(0, k - 1)),
                a[k - 1],
            );
        }
    }
}

/// CRC-32 detects every change confined to a single byte, and so in
/// particular every single-bit error.
pub proof fn lemma_single_byte_change_detected(a: Seq<u8>, b: Seq<u8>, p: int)
    requires
        a.len() == b.len(),
        0 <= p < a.len(),
        a[p] != b[p],
        forall|i: int| 0 <= i < a.len() && i != p ==> a[i] == b[i],
    ensures
        crc32(a) != crc32(b),
{
    lemma_prefix_registers_differ(a, b, p, a.len() as int);
    assert(a.subrange(0, a.len() as int) =~= a);
    assert(b.subrange(0, b.len() as int) =~= b);
    let x = crc_register(a);
    let y = crc_register(b);
    assert(x != y ==> !x != !y) by (bit_vector);
}

/// A CRC-32 engine holding its precomputed lookup table.
pub struct Crc32 {
    table: Vec<u32>,
}

impl Crc32 {
    #[verifier::type_invariant]
    spec fn table_is_built(&self) -> bool {
        &&& self.table@.len() == 256
        &&& forall|i: int| 0 <= i < 256 ==> self.table@[i] == table_entry(i as u32)
    }

    /// The lookup table the engine holds.
    pub closed spec fn table(&self) -> Seq<u32> {
        self.table@
    }

    /// Builds the 256-entry table from the polynomial.
    pub fn new() -> (r: Self)
        ensures
            r.table() == crc_table(),
    {
        let mut table: Vec<u32> = Vec::new();
        let mut i: u32 = 0;
        while i < 256
            invariant
                i <= 256,
                table@.len() == i,
                forall|j: int| 0 <= j < i ==> table@[j] == table_entry(j as u32),
            decreases 256 - i,
        {
            let mut crc: u32 = i;
            let mut k: u32 = 0;
            while k < 8
                invariant
                    k <= 8,
                    crc == crc_steps(i, k as nat),
                decreases 8 - k,
            {
                if crc & 1 != 0 {
                    crc = (crc >> 1) ^ POLY;
                } else {
                    crc = crc >> 1;
                }
                k = k + 1;
            }
            proof {
                lemma_steps_eight(i);
            }
            table.push(crc);
            i = i + 1;
        }
        assert(table@ =~= crc_table());
        Crc32 { table }
    }

    /// CRC-32 of `data`.
    pub fn checksum(&self, data: &[u8]) -> (r: u32)
        ensures
            r == crc32(data@),
    {
        proof {
            use_type_invariant(self);
        }
        let mut crc: u32 = 0xFFFF_FFFF;
        let mut i: usize = 0;
        while i < data.len()
            invariant
                i <= data@.len(),
                crc == crc_register(data@.subrange(0, i as int)),
                self.table@.len() == 256,
                forall|j: int| 0 <= j < 256 ==> self.table@[j] == table_entry(j as u32),
            decreases data@.len() - i,
        {
            let byte = data[i];
            let idx = (crc ^ byte as u32) & 0xFF;
            assert(idx < 256) by (bit_vector)
                requires
                    idx == (crc ^ byte as u32) & 0xFF,
            ;
            crc = (crc >> 8) ^ self.table[idx as usize];
            proof {
                let s = data@.subrange(0, i + 1);
                assert(s.drop_last() =~= data@.subrange(0, i as int));
            }
            i = i + 1;
        }
        proof {
            assert(data@.subrange(0, data@.len() as int) =~= data@);
        }
        !crc
    }
}

impl Default for Crc32 {
    fn default() -> (r: Self)
        ensures
            r.table() == crc_table(),
    {
        Crc32::new()
    }
}

} // verus!
