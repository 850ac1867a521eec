//! The fixed-size binary image of a registry: an 8-byte little-endian element
//! count, the elements' bytes in order, then zero padding up to a size that
//! does not depend on the count.
use crate::address::{Address, ADDRESS_BYTES};
use crate::registry::{BadAddresses, MAX_ENTRIES};
use vstd::bytes::{spec_u64_from_le_bytes, spec_u64_to_le_bytes, u64_to_le_bytes};
use vstd::prelude::*;

verus! {

/// Size of the count prefix.
pub const U64_SIZE: usize = 8;

/// Size of the image of a registry at the default capacity:
/// `U64_SIZE + MAX_ENTRIES * ADDRESS_BYTES`.
pub const SYSVAR_LEN: usize = 16392;

/// The bytes of the addresses of `s`, one after another.
pub open spec fn address_bytes(s: Seq<Address>) -> Seq<u8>
    decreases s.len(),
{
    if s.len() == 0 {
        Seq::empty()
    } else {
        address_bytes(s.drop_last()) + s.last()@
    }
}

/// The image of `s`: count prefix, addresses, zero padding to `SYSVAR_LEN`.
pub open spec fn sysvar_image(s: Seq<Address>) -> Seq<u8> {
    spec_u64_to_le_bytes(s.len() as u64) + address_bytes(s) + Seq::new(
        (SYSVAR_LEN - U64_SIZE - ADDRESS_BYTES * s.len()) as nat,
        |k: int| 0u8,
    )
}

/// The count that the prefix of `data` declares.
pub open spec fn prefix_count(data: Seq<u8>) -> u64 {
    spec_u64_from_le_bytes(data.subrange(0, U64_SIZE as int))
}

/// The `count` records of `ADDRESS_BYTES` bytes that start at `start`.
pub open spec fn entries_at(data: Seq<u8>, start: int, count: nat) -> Seq<Seq<u8>> {
    Seq::new(
        count,
        |i: int| data.subrange(start + ADDRESS_BYTES * i, start + ADDRESS_BYTES * i + ADDRESS_BYTES),
    )
}

/// The bytes of each address of `s`.
pub open spec fn views(s: Seq<Address>) -> Seq<Seq<u8>> {
    Seq::new(s.len(), |i: int| s[i]@)
}

pub proof fn lemma_address_bytes(s: Seq<Address>)
    ensures
        address_bytes(s).len() == ADDRESS_BYTES * s.len(),
        entries_at(address_bytes(s), 0, s.len()) == views(s),
    decreases s.len(),
{
    if s.len() > 0 {
        let t = s.drop_last();
        lemma_address_bytes(t);
        Address::lemma_view_injective(s.last(), s.last());
        let a = address_bytes(t);
        let b = address_bytes(s);
        assert forall|i: int| 0 <= i < s.len() implies #[trigger] entries_at(b, 0, s.len())[i]
            == views(s)[i] by {
            if i < t.len() {
                assert(entries_at(a, 0, t.len())[i] == views(t)[i]);
                assert(b.subrange(ADDRESS_BYTES * i, ADDRESS_BYTES * i + ADDRESS_BYTES) =~= a.subrange(
                    ADDRESS_BYTES * i,
                    ADDRESS_BYTES * i + ADDRESS_BYTES,
                ));
            } else {
                assert(b.subrange(ADDRESS_BYTES * i, ADDRESS_BYTES * i + ADDRESS_BYTES) =~= s.last()@);
            }
        }
        assert(entries_at(b, 0, s.len()) =~= views(s));
    } else {
        assert(entries_at(address_bytes(s), 0, 0) =~= views(s));
    }
}

impl BadAddresses {
    /// Size of the image of any registry of at most `MAX_ENTRIES` addresses,
    /// whatever it holds.
    pub fn size_of() -> (r: usize)
        ensures
            r == SYSVAR_LEN,
            r == U64_SIZE + MAX_ENTRIES * ADDRESS_BYTES,
    {
        SYSVAR_LEN
    }

    /// The image of the registry, `SYSVAR_LEN` bytes long.
    pub fn to_sysvar_bytes(&self) -> (r: Vec<u8>)
        requires
            self@.len() <= MAX_ENTRIES,
        ensures
            r@ == sysvar_image(self@),
            r@.len() == SYSVAR_LEN,
    {
        let addresses = self.bad_addresses();
        let n = addresses.len();
        let mut out = u64_to_le_bytes(n as u64);
        let ghost prefix = out@;
        let mut i: usize = 0;
        while i < n
            invariant
                i <= n,
                n == addresses@.len(),
                n <= MAX_ENTRIES,
                addresses@ == self@,
                prefix == spec_u64_to_le_bytes(n as u64),
                prefix.len() == U64_SIZE,
                out@ == prefix + address_bytes(addresses@.take(i as int)),
            decreases n - i,
        {
            let bytes = addresses[i].to_bytes();
            let ghost before = out@;
            let mut j: usize = 0;
            while j < ADDRESS_BYTES
                invariant
                    j <= ADDRESS_BYTES,
                    bytes@.len() == ADDRESS_BYTES,
                    out@ == before + bytes@.take(j as int),
                decreases ADDRESS_BYTES - j,
            {
                out.push(bytes[j]);
                j += 1;
                assert(out@ =~= before + bytes@.take(j as int));
            }
            assert(bytes@.take(32) =~= bytes@);
            assert(addresses@.take(i + 1).drop_last() =~= addresses@.take(i as int));
            i += 1;
            assert(out@ =~= prefix + address_bytes(addresses@.take(i as int)));
        }
        assert(addresses@.take(n as int) =~= addresses@);
        proof {
            lemma_address_bytes(addresses@);
        }
        let ghost body = out@;
        while out.len() < SYSVAR_LEN
            invariant
                body.len() == U64_SIZE + ADDRESS_BYTES * n,
                body.len() <= out@.len() <= SYSVAR_LEN,
                out@ == body + Seq::new((out@.len() - body.len()) as nat, |k: int| 0u8),
            decreases SYSVAR_LEN - out@.len(),
        {
            out.push(0u8);
            assert(out@ =~= body + Seq::new((out@.len() - body.len()) as nat, |k: int| 0u8));
        }
        assert(out@ =~= sysvar_image(self@));
        out
    }
}

} // verus!
