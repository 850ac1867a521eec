//! The owning registry: addresses kept in strictly descending order, capped at
//! a capacity, inserted by insert-or-replace.
use crate::address::{
    lemma_lex_asymmetric, lemma_lex_irreflexive, lemma_lex_total, lemma_lex_transitive, lex_lt,
    Address,
};
use crate::sample::random_index;
use core::cmp::Ordering;
use vstd::prelude::*;

verus! {

/// Default capacity of a registry.
pub const MAX_ENTRIES: usize = 512;

pub type BadAddress = Address;

/// Every later element ranks strictly below every earlier one.
pub open spec fn sorted_desc(s: Seq<Address>) -> bool {
    forall|i: int, j: int| 0 <= i < j < s.len() ==> lex_lt(#[trigger] s[j]@, #[trigger] s[i]@)
}

/// How many leading elements of `s` rank above `x`.
pub open spec fn insert_position(s: Seq<Address>, x: Address) -> nat
    decreases s.len(),
{
    if s.len() > 0 && lex_lt(x@, s[0]@) {
        1 + insert_position(s.drop_first(), x)
    } else {
        0
    }
}

/// `s` with `x` in its place: unchanged where `x` is present already.
pub open spec fn insert_desc(s: Seq<Address>, x: Address) -> Seq<Address> {
    if s.contains(x) {
        s
    } else {
        s.insert(insert_position(s, x) as int, x)
    }
}

/// The first `n` elements of `s`, or all of them where there are fewer.
pub open spec fn truncated(s: Seq<Address>, n: nat) -> Seq<Address> {
    if s.len() <= n {
        s
    } else {
        s.take(n as int)
    }
}

/// What inserting `x` into `s` under capacity `cap` leaves.
pub open spec fn added(s: Seq<Address>, x: Address, cap: nat) -> Seq<Address> {
    truncated(insert_desc(s, x), cap)
}

proof fn lemma_insert_position(s: Seq<Address>, x: Address, p: int)
    requires
        0 <= p <= s.len(),
        forall|k: int| 0 <= k < p ==> lex_lt(x@, #[trigger] s[k]@),
        p < s.len() ==> !lex_lt(x@, s[p]@),
    ensures
        insert_position(s, x) == p,
    decreases p,
{
    if p > 0 {
        assert(lex_lt(x@, s[0]@));
        assert forall|k: int| 0 <= k < p - 1 implies lex_lt(x@, #[trigger] s.drop_first()[k]@) by {
            assert(s.drop_first()[k] == s[k + 1]);
        }
        lemma_insert_position(s.drop_first(), x, p - 1);
    }
}

/// In a descending sequence, `x` is absent exactly where its place is empty.
proof fn lemma_gap(s: Seq<Address>, x: Address, p: int)
    requires
        0 <= p <= s.len(),
        forall|k: int| 0 <= k < p ==> lex_lt(x@, #[trigger] s[k]@),
        forall|k: int| p <= k < s.len() ==> lex_lt(#[trigger] s[k]@, x@),
    ensures
        !s.contains(x),
        insert_position(s, x) == p,
        sorted_desc(s) ==> sorted_desc(s.insert(p, x)),
{
    lemma_lex_irreflexive(x@);
    if p < s.len() {
        lemma_lex_asymmetric(s[p]@, x@);
    }
    lemma_insert_position(s, x, p);
    let t = s.insert(p, x);
    if sorted_desc(s) {
        assert forall|i: int, j: int| 0 <= i < j < t.len() implies lex_lt(#[trigger] t[j]@, #[trigger] t[i]@) by {
            if j < p {
            } else if j == p {
            } else if i < p {
                assert(t[j] == s[j - 1]);
            } else if i == p {
                assert(t[j] == s[j - 1]);
            } else {
                assert(t[j] == s[j - 1]);
                assert(t[i] == s[i - 1]);
            }
        }
    }
}

proof fn lemma_truncated_sorted(s: Seq<Address>, n: nat)
    requires
        sorted_desc(s),
    ensures
        sorted_desc(truncated(s, n)),
        truncated(s, n).len() <= n,
{
    let t = truncated(s, n);
    assert forall|i: int, j: int| 0 <= i < j < t.len() implies lex_lt(#[trigger] t[j]@, #[trigger] t[i]@) by {
        assert(t[j] == s[j] && t[i] == s[i]);
    }
}

/// Where `x` is absent from a descending `s`, the elements before its place
/// rank above it and the rest below it.
proof fn lemma_insert_position_splits(s: Seq<Address>, x: Address)
    requires
        sorted_desc(s),
        !s.contains(x),
    ensures
        insert_position(s, x) <= s.len(),
        forall|k: int| 0 <= k < insert_position(s, x) ==> lex_lt(x@, #[trigger] s[k]@),
        forall|k: int| insert_position(s, x) <= k < s.len() ==> lex_lt(#[trigger] s[k]@, x@),
    decreases s.len(),
{
    if s.len() > 0 {
        let t = s.drop_first();
        if lex_lt(x@, s[0]@) {
            assert(sorted_desc(t)) by {
                assert forall|i: int, j: int| 0 <= i < j < t.len() implies lex_lt(#[trigger] t[j]@, #[trigger] t[i]@) by {
                    assert(t[j] == s[j + 1] && t[i] == s[i + 1]);
                }
            }
            assert(!t.contains(x)) by {
                if t.contains(x) {
                    let k = choose|k: int| 0 <= k < t.len() && t[k] == x;
                    assert(s[k + 1] == x);
                }
            }
            lemma_insert_position_splits(t, x);
            assert forall|k: int| 0 <= k < insert_position(s, x) implies lex_lt(x@, #[trigger] s[k]@) by {
                if k > 0 {
                    assert(s[k] == t[k - 1]);
                }
            }
            assert forall|k: int| insert_position(s, x) <= k < s.len() implies lex_lt(#[trigger] s[k]@, x@) by {
                assert(s[k] == t[k - 1]);
            }
        } else {
            assert(s[0] != x);
            Address::lemma_view_injective(s[0], x);
            Address::lemma_view_injective(x, s[0]);
            lemma_lex_total(s[0]@, x@);
            assert forall|k: int| 0 <= k < s.len() implies lex_lt(#[trigger] s[k]@, x@) by {
                if k > 0 {
                    lemma_lex_transitive(s[k]@, s[0]@, x@);
                }
            }
        }
    }
}

/// Inserting into a descending sequence keeps it descending and holds the
/// inserted element.
proof fn lemma_insert_desc(s: Seq<Address>, x: Address)
    requires
        sorted_desc(s),
    ensures
        sorted_desc(insert_desc(s, x)),
        insert_desc(s, x).contains(x),
{
    if !s.contains(x) {
        lemma_insert_position_splits(s, x);
        lemma_gap(s, x, insert_position(s, x) as int);
        assert(s.insert(insert_position(s, x) as int, x)[insert_position(s, x) as int] == x);
    }
}

/// Once a registry is at capacity, inserting an address that ranks below all
/// of its elements leaves it as it was: the address is evicted at once.
pub proof fn lemma_full_insert_lowest(bad_addresses: BadAddresses, pubkey: Address)
    requires
        bad_addresses.wf(),
        bad_addresses@.len() == bad_addresses.capacity(),
        forall|k: int| 0 <= k < bad_addresses@.len() ==> lex_lt(pubkey@, #[trigger] bad_addresses@[k]@),
    ensures
        added(bad_addresses@, pubkey, bad_addresses.capacity()) == bad_addresses@,
{
    let s = bad_addresses@;
    lemma_lex_irreflexive(pubkey@);
    assert(!s.contains(pubkey));
    lemma_insert_position(s, pubkey, s.len() as int);
    assert(s.insert(s.len() as int, pubkey).take(s.len() as int) =~= s);
}

/// Inserting the same address twice leaves what inserting it once left:
/// same length, same order, same position of every element.
pub proof fn lemma_add_twice(bad_addresses: BadAddresses, pubkey: Address)
    requires
        bad_addresses.wf(),
    ensures
        added(added(bad_addresses@, pubkey, bad_addresses.capacity()), pubkey, bad_addresses.capacity())
            == added(bad_addresses@, pubkey, bad_addresses.capacity()),
{
    let s = bad_addresses@;
    let cap = bad_addresses.capacity();
    let t = insert_desc(s, pubkey);
    let once = truncated(t, cap);
    lemma_insert_desc(s, pubkey);
    lemma_truncated_sorted(t, cap);
    if !once.contains(pubkey) {
        let p = choose|p: int| 0 <= p < t.len() && t[p] == pubkey;
        if p < cap {
            assert(once[p] == pubkey);
        }
        assert forall|k: int| 0 <= k < once.len() implies lex_lt(pubkey@, #[trigger] once[k]@) by {
            assert(once[k] == t[k]);
        }
        lemma_insert_position(once, pubkey, once.len() as int);
        assert(once.insert(once.len() as int, pubkey).take(cap as int) =~= once);
    }
}

/// A registry of addresses, strictly descending and capped.
pub struct BadAddresses {
    addresses: Vec<BadAddress>,
    entries: usize,
}

impl View for BadAddresses {
    type V = Seq<Address>;

    closed spec fn view(&self) -> Seq<Address> {
        self.addresses@
    }
}

impl BadAddresses {
    /// The capacity that inserts truncate to.
    pub closed spec fn capacity(&self) -> nat {
        self.entries as nat
    }

    /// The ordering invariant that `add` keeps.
    pub open spec fn wf(&self) -> bool {
        sorted_desc(self@)
    }

    /// Wraps `bad_addresses` as given, under the default capacity. The
    /// ordering invariant holds where `bad_addresses` is strictly descending.
    pub fn new(bad_addresses: &[BadAddress]) -> (r: BadAddresses)
        ensures
            r@ == bad_addresses@,
            r.capacity() == MAX_ENTRIES,
            sorted_desc(bad_addresses@) ==> r.wf(),
    {
        let mut addresses: Vec<BadAddress> = Vec::new();
        let mut i: usize = 0;
        while i < bad_addresses.len()
            invariant
                i <= bad_addresses@.len(),
                addresses@ == bad_addresses@.take(i as int),
            decreases bad_addresses@.len() - i,
        {
            addresses.push(bad_addresses[i]);
            i += 1;
            assert(addresses@ =~= bad_addresses@.take(i as int));
        }
        assert(addresses@ =~= bad_addresses@);
        BadAddresses { addresses, entries: MAX_ENTRIES }
    }

    /// Binary search under the descending order: `Ok` with the index of
    /// `pubkey`, or `Err` with the index where it would be inserted.
    fn search(&self, pubkey: &Address) -> (r: Result<usize, usize>)
        ensures
            r matches Ok(i) ==> i < self@.len() && self@[i as int] == *pubkey,
            r matches Err(i) ==> i <= self@.len(),
            self.wf() ==> (r is Err <==> !self@.contains(*pubkey)),
            self.wf() ==> (r matches Err(i) ==> i == insert_position(self@, *pubkey)
                && sorted_desc(self@.insert(i as int, *pubkey))),
    {
        let ghost s = self@;
        let mut lo: usize = 0;
        let mut hi: usize = self.addresses.len();
        while lo < hi
            invariant
                s == self@,
                lo <= hi <= s.len(),
                sorted_desc(s) ==> forall|k: int| 0 <= k < lo ==> lex_lt(pubkey@, #[trigger] s[k]@),
                sorted_desc(s) ==> forall|k: int| hi <= k < s.len() ==> lex_lt(#[trigger] s[k]@, pubkey@),
            decreases hi - lo,
        {
            let mid = lo + (hi - lo) / 2;
            match pubkey.compare(&self.addresses[mid]) {
                Ordering::Less => {
                    proof {
                        if sorted_desc(s) {
                            assert forall|k: int| 0 <= k < mid + 1 implies lex_lt(pubkey@, #[trigger] s[k]@) by {
                                if k < mid {
                                    lemma_lex_transitive(pubkey@, s[mid as int]@, s[k]@);
                                }
                            }
                        }
                    }
                    lo = mid + 1;
                },
                Ordering::Greater => {
                    proof {
                        if sorted_desc(s) {
                            assert forall|k: int| mid <= k < s.len() implies lex_lt(#[trigger] s[k]@, pubkey@) by {
                                if k > mid {
                                    lemma_lex_transitive(s[k]@, s[mid as int]@, pubkey@);
                                }
                            }
                        }
                    }
                    hi = mid;
                },
                Ordering::Equal => {
                    return Ok(mid);
                },
            }
        }
        proof {
            if sorted_desc(s) {
                lemma_gap(s, *pubkey, lo as int);
            }
        }
        Err(lo)
    }

    /// Inserts `pubkey` in its place, or replaces the equal element, then
    /// keeps only the first `capacity` elements.
    pub fn add(&mut self, pubkey: Address)
        ensures
            final(self).capacity() == old(self).capacity(),
            final(self)@.len() <= final(self).capacity(),
            old(self).wf() ==> final(self).wf(),
            old(self).wf() ==> final(self)@ == added(old(self)@, pubkey, old(self).capacity()),
    {
        let ghost s = self@;
        match self.search(&pubkey) {
            Ok(index) => {
                self.addresses.set(index, pubkey);
                assert(self@ =~= s);
                proof {
                    assert(s.contains(pubkey)) by {
                        assert(s[index as int] == pubkey);
                    }
                }
            },
            Err(index) => {
                self.addresses.insert(index, pubkey);
            },
        }
        let ghost inserted = self@;
        self.addresses.truncate(self.entries);
        proof {
            if sorted_desc(s) {
                lemma_truncated_sorted(inserted, self.entries as nat);
                assert(inserted == insert_desc(s, pubkey));
                assert(self@ =~= truncated(inserted, self.entries as nat));
            }
        }
    }

    /// The index of `pubkey`, where it is present.
    pub fn position(&self, pubkey: Address) -> (r: Option<usize>)
        ensures
            r matches Some(i) ==> i < self@.len() && self@[i as int] == pubkey,
            self.wf() ==> (r is None <==> !self@.contains(pubkey)),
    {
        match self.search(&pubkey) {
            Ok(index) => Some(index),
            Err(_) => None,
        }
    }

    /// One of the addresses, chosen uniformly at random; `None` when empty.
    pub fn get(&self) -> (r: Option<&Address>)
        ensures
            r is None <==> self@.len() == 0,
            r matches Some(a) ==> self@.contains(*a),
    {
        if self.addresses.len() == 0 {
            None
        } else {
            let index = random_index(self.addresses.len());
            Some(&self.addresses[index])
        }
    }

    /// The addresses, in order.
    pub fn bad_addresses(&self) -> (r: &[BadAddress])
        ensures
            r@ == self@,
    {
        self.addresses.as_slice()
    }

    pub fn len(&self) -> (r: usize)
        ensures
            r == self@.len(),
    {
        self.addresses.len()
    }

    pub fn is_empty(&self) -> (r: bool)
        ensures
            r == (self@.len() == 0),
    {
        self.addresses.len() == 0
    }
}

/// The capacity that inserts into `bad_addresses` truncate to.
pub fn get_entries(bad_addresses: &BadAddresses) -> (r: usize)
    ensures
        r == bad_addresses.capacity(),
{
    bad_addresses.entries
}

/// Sets the capacity of `bad_addresses`; the contents are truncated on the
/// next insert.
pub fn set_entries_for_tests_only(bad_addresses: &mut BadAddresses, entries: usize)
    ensures
        final(bad_addresses)@ == old(bad_addresses)@,
        final(bad_addresses).capacity() == entries,
{
    bad_addresses.entries = entries;
}

} // verus!
