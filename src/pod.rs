//! A validating reader over a fetched image: it trusts the count prefix only
//! after checking alignment, overflow and bounds, and reads the declared
//! records alone.
use crate::address::{Address, ADDRESS_BYTES};
use crate::layout::{
    address_bytes, entries_at, lemma_address_bytes, prefix_count, sysvar_image, views, SYSVAR_LEN,
    U64_SIZE,
};
use crate::registry::{BadAddress, BadAddresses, MAX_ENTRIES};
use crate::sample::random_index;
use solana_program_error::ProgramError;
use vstd::bytes::{lemma_auto_spec_u64_to_from_le_bytes, spec_u64_to_le_bytes, u64_from_le_bytes};
use vstd::prelude::*;

verus! {

/// Declares `solana_program_error::ProgramError`, the error that the buffer
/// fetch reports; it is carried through unchanged and never inspected.
#[verifier::external_type_specification]
#[verifier::external_body]
pub struct ExProgramError(ProgramError);

/// Why reading an image failed.
#[derive(Debug, PartialEq, Eq)]
pub enum SysvarError {
    /// Misaligned buffer, count overflow, or a byte range that is out of
    /// bounds or not a whole number of records.
    InvalidData,
    /// The fetch of the buffer failed; its error, as reported.
    UpstreamFailure(ProgramError),
}

/// One record of the image.
#[derive(Clone, Copy, Debug, Default, PartialEq, Eq)]
pub struct PodBadAddress {
    pub address: BadAddress,
}

/// The address bytes of each record of `v`.
pub open spec fn addresses_of(v: Seq<PodBadAddress>) -> Seq<Seq<u8>> {
    Seq::new(v.len(), |i: int| v[i].address@)
}

/// The end of the payload that the prefix of `data` declares, saturated at
/// `usize::MAX`.
pub open spec fn payload_end(data: Seq<u8>) -> int {
    let end = U64_SIZE + prefix_count(data) * ADDRESS_BYTES;
    if end > usize::MAX {
        usize::MAX as int
    } else {
        end
    }
}

/// `data` holds a count prefix whose byte length fits in a `u64`.
pub open spec fn prefix_accepted(data: Seq<u8>) -> bool {
    &&& data.len() >= U64_SIZE
    &&& prefix_count(data) * ADDRESS_BYTES <= u64::MAX
}

/// Reads the `count` records that start at `start`.
fn read_records(data: &[u8], start: usize, count: usize) -> (r: Vec<PodBadAddress>)
    requires
        start + ADDRESS_BYTES * count <= data@.len(),
    ensures
        addresses_of(r@) == entries_at(data@, start as int, count as nat),
{
    let len = data.len();
    let mut out: Vec<PodBadAddress> = Vec::new();
    let mut i: usize = 0;
    while i < count
        invariant
            i <= count,
            len == data@.len(),
            start + ADDRESS_BYTES * count <= data@.len(),
            out@.len() == i,
            forall|k: int| 0 <= k < i ==> (#[trigger] out@[k]).address@ == data@.subrange(
                start + ADDRESS_BYTES * k,
                start + ADDRESS_BYTES * k + ADDRESS_BYTES,
            ),
        decreases count - i,
    {
        let address = Address::read_at(data, start + ADDRESS_BYTES * i);
        out.push(PodBadAddress { address });
        i += 1;
    }
    assert(addresses_of(out@) =~= entries_at(data@, start as int, count as nat));
    out
}

/// The image of a registry of at most `MAX_ENTRIES` addresses is `SYSVAR_LEN`
/// bytes long, and a view fetched over it declares exactly the registry's
/// addresses, in the registry's order.
pub proof fn lemma_round_trip(bad_addresses: BadAddresses)
    requires
        bad_addresses@.len() <= MAX_ENTRIES,
    ensures
        sysvar_image(bad_addresses@).len() == SYSVAR_LEN,
        prefix_accepted(sysvar_image(bad_addresses@)),
        prefix_count(sysvar_image(bad_addresses@)) == bad_addresses@.len(),
        payload_end(sysvar_image(bad_addresses@)) == U64_SIZE + ADDRESS_BYTES * bad_addresses@.len(),
        payload_end(sysvar_image(bad_addresses@)) <= SYSVAR_LEN,
        entries_at(
            sysvar_image(bad_addresses@),
            U64_SIZE as int,
            ((payload_end(sysvar_image(bad_addresses@)) - U64_SIZE) / (ADDRESS_BYTES as int)) as nat,
        ) == views(bad_addresses@),
{
    let s = bad_addresses@;
    let d = sysvar_image(s);
    let prefix = spec_u64_to_le_bytes(s.len() as u64);
    let body = address_bytes(s);
    lemma_auto_spec_u64_to_from_le_bytes();
    assert(prefix.len() == U64_SIZE);
    lemma_address_bytes(s);
    assert(d.subrange(0, U64_SIZE as int) =~= prefix);
    assert(prefix_count(d) == s.len());
    assert((ADDRESS_BYTES * s.len()) / (ADDRESS_BYTES as int) == s.len());
    assert forall|i: int| 0 <= i < s.len() implies #[trigger] entries_at(d, U64_SIZE as int, s.len())[i]
        == views(s)[i] by {
        assert(entries_at(body, 0, s.len())[i] == views(s)[i]);
        assert(d.subrange(U64_SIZE + ADDRESS_BYTES * i, U64_SIZE + ADDRESS_BYTES * i + ADDRESS_BYTES)
            =~= body.subrange(ADDRESS_BYTES * i, ADDRESS_BYTES * i + ADDRESS_BYTES));
    }
    assert(entries_at(d, U64_SIZE as int, s.len()) =~= views(s));
}

/// A buffer of `SYSVAR_LEN` bytes whose prefix declares no records is
/// accepted, and the view over it declares an empty payload.
pub proof fn lemma_empty_count(data: Seq<u8>)
    requires
        data.len() == SYSVAR_LEN,
        prefix_count(data) == 0,
    ensures
        prefix_accepted(data),
        payload_end(data) == U64_SIZE,
        entries_at(data, U64_SIZE as int, ((payload_end(data) - U64_SIZE) / (ADDRESS_BYTES as int)) as nat).len() == 0,
{
}

/// A fetched image, with the byte range of the records its prefix declares.
pub struct PodBadAddresses {
    data: Vec<u8>,
    bad_addresses_start: usize,
    bad_addresses_end: usize,
}

impl PodBadAddresses {
    pub closed spec fn data(&self) -> Seq<u8> {
        self.data@
    }

    pub closed spec fn start(&self) -> int {
        self.bad_addresses_start as int
    }

    pub closed spec fn end(&self) -> int {
        self.bad_addresses_end as int
    }

    /// The declared range lies in the buffer and holds whole records.
    pub open spec fn slice_ok(&self) -> bool {
        &&& self.start() <= self.end() <= self.data().len()
        &&& (self.end() - self.start()) % (ADDRESS_BYTES as int) == 0
    }

    /// The records of the declared range.
    pub open spec fn payload(&self) -> Seq<Seq<u8>> {
        entries_at(
            self.data(),
            self.start(),
            ((self.end() - self.start()) / (ADDRESS_BYTES as int)) as nat,
        )
    }

    /// Builds the view over `data`, the buffer that a fetch of the image
    /// filled. `align_offset` is how far the buffer's base lies from an
    /// 8-byte boundary, `fetched` what the fetch reported.
    pub fn fetch(data: Vec<u8>, align_offset: usize, fetched: Result<(), ProgramError>) -> (r: Result<
        PodBadAddresses,
        SysvarError,
    >)
        ensures
            align_offset != 0 ==> r == Err::<PodBadAddresses, SysvarError>(SysvarError::InvalidData),
            align_offset == 0 ==> (fetched matches Err(e) ==> r == Err::<PodBadAddresses, SysvarError>(
                SysvarError::UpstreamFailure(e),
            )),
            align_offset == 0 && fetched is Ok ==> (r is Ok <==> prefix_accepted(data@)),
            align_offset == 0 && fetched is Ok && !prefix_accepted(data@) ==> r == Err::<
                PodBadAddresses,
                SysvarError,
            >(SysvarError::InvalidData),
            r matches Ok(v) ==> v.data() == data@ && v.start() == U64_SIZE && v.end() == payload_end(
                data@,
            ),
    {
        if align_offset != 0 {
            return Err(SysvarError::InvalidData);
        }
        match fetched {
            Err(e) => {
                return Err(SysvarError::UpstreamFailure(e));
            },
            Ok(()) => {},
        }
        if data.len() < U64_SIZE {
            return Err(SysvarError::InvalidData);
        }
        let count = u64_from_le_bytes(&data.as_slice()[0..U64_SIZE]);
        let length = match count.checked_mul(ADDRESS_BYTES as u64) {
            Some(length) => length,
            None => {
                return Err(SysvarError::InvalidData);
            },
        };
        let bad_addresses_start = U64_SIZE;
        let bad_addresses_end = if length > (usize::MAX - U64_SIZE) as u64 {
            usize::MAX
        } else {
            bad_addresses_start + length as usize
        };
        Ok(PodBadAddresses { data, bad_addresses_start, bad_addresses_end })
    }

    /// The records of the declared range, in order.
    pub fn as_slice(&self) -> (r: Result<Vec<PodBadAddress>, SysvarError>)
        ensures
            r is Ok <==> self.slice_ok(),
            r matches Err(e) ==> e == SysvarError::InvalidData,
            r matches Ok(v) ==> addresses_of(v@) == self.payload(),
    {
        let start = self.bad_addresses_start;
        let end = self.bad_addresses_end;
        if start > end || end > self.data.len() || (end - start) % ADDRESS_BYTES != 0 {
            return Err(SysvarError::InvalidData);
        }
        let records = read_records(self.data.as_slice(), start, (end - start) / ADDRESS_BYTES);
        assert(records@.len() == addresses_of(records@).len());
        Ok(records)
    }

    /// One of the declared addresses, chosen uniformly at random; `None` when
    /// the declared range is empty.
    pub fn get(&self) -> (r: Result<Option<BadAddress>, SysvarError>)
        ensures
            r is Err <==> !self.slice_ok(),
            r matches Err(e) ==> e == SysvarError::InvalidData,
            r matches Ok(None) ==> self.payload().len() == 0,
            r matches Ok(Some(a)) ==> self.payload().contains(a@),
            self.slice_ok() && self.payload().len() == 0 ==> r == Ok::<Option<BadAddress>, SysvarError>(None),
    {
        let start = self.bad_addresses_start;
        let end = self.bad_addresses_end;
        if start > end || end > self.data.len() || (end - start) % ADDRESS_BYTES != 0 {
            return Err(SysvarError::InvalidData);
        }
        let count = (end - start) / ADDRESS_BYTES;
        if count == 0 {
            return Ok(None);
        }
        let index = random_index(count);
        let address = Address::read_at(self.data.as_slice(), start + ADDRESS_BYTES * index);
        assert(self.payload()[index as int] == address@);
        Ok(Some(address))
    }
}

/// Reads the whole record area of the image, whatever its count prefix says.
pub struct BadAddressesSysvar;

impl BadAddressesSysvar {
    /// One of the records of `data`, chosen uniformly at random. `data` is the
    /// record area (the image past its count prefix) that a fetch filled,
    /// `align_offset` how far its base lies from an 8-byte boundary, `fetched`
    /// what the fetch reported.
    pub fn get(data: &[u8], align_offset: usize, fetched: Result<(), ProgramError>) -> (r: Result<
        Option<BadAddress>,
        SysvarError,
    >)
        ensures
            align_offset != 0 ==> r == Err::<Option<BadAddress>, SysvarError>(SysvarError::InvalidData),
            align_offset == 0 ==> (fetched matches Err(e) ==> r == Err::<Option<BadAddress>, SysvarError>(
                SysvarError::UpstreamFailure(e),
            )),
            align_offset == 0 && fetched is Ok ==> r is Ok,
            r matches Ok(None) ==> data@.len() < ADDRESS_BYTES,
            r matches Ok(Some(a)) ==> entries_at(data@, 0, data@.len() / (ADDRESS_BYTES as nat)).contains(
                a@,
            ),
            align_offset == 0 && fetched is Ok && data@.len() < ADDRESS_BYTES ==> r == Ok::<
                Option<BadAddress>,
                SysvarError,
            >(None),
    {
        if align_offset != 0 {
            return Err(SysvarError::InvalidData);
        }
        match fetched {
            Err(e) => {
                return Err(SysvarError::UpstreamFailure(e));
            },
            Ok(()) => {},
        }
        let count = data.len() / ADDRESS_BYTES;
        if count == 0 {
            return Ok(None);
        }
        let index = random_index(count);
        let address = Address::read_at(data, ADDRESS_BYTES * index);
        assert(entries_at(data@, 0, count as nat)[index as int] == address@);
        Ok(Some(address))
    }
}

} // verus!
