//! Fixed-width addresses and their bytewise order.
use core::cmp::Ordering;
use vstd::prelude::*;

verus! {

/// Width of an address in bytes.
pub const ADDRESS_BYTES: usize = 32;

/// Strict bytewise (lexicographic) order on byte strings.
pub open spec fn lex_lt(a: Seq<u8>, b: Seq<u8>) -> bool
    decreases a.len(),
{
    if a.len() == 0 {
        b.len() > 0
    } else if b.len() == 0 {
        false
    } else if a[0] != b[0] {
        a[0] < b[0]
    } else {
        lex_lt(a.drop_first(), b.drop_first())
    }
}

pub proof fn lemma_lex_irreflexive(a: Seq<u8>)
    ensures
        !lex_lt(a, a),
    decreases a.len(),
{
    if a.len() > 0 {
        lemma_lex_irreflexive(a.drop_first());
    }
}

pub proof fn lemma_lex_asymmetric(a: Seq<u8>, b: Seq<u8>)
    requires
        lex_lt(a, b),
    ensures
        !lex_lt(b, a),
    decreases a.len(),
{
    if a.len() > 0 && b.len() > 0 && a[0] == b[0] {
        lemma_lex_asymmetric(a.drop_first(), b.drop_first());
    }
}

pub proof fn lemma_lex_transitive(a: Seq<u8>, b: Seq<u8>, c: Seq<u8>)
    requires
        lex_lt(a, b),
        lex_lt(b, c),
    ensures
        lex_lt(a, c),
    decreases a.len(),
{
    if a.len() > 0 && b.len() > 0 && c.len() > 0 && a[0] == b[0] && b[0] == c[0] {
        lemma_lex_transitive(a.drop_first(), b.drop_first(), c.drop_first());
    }
}

/// Two distinct byte strings of one length are ordered one way or the other.
pub proof fn lemma_lex_total(a: Seq<u8>, b: Seq<u8>)
    requires
        a.len() == b.len(),
        a != b,
    ensures
        lex_lt(a, b) || lex_lt(b, a),
    decreases a.len(),
{
    if a.len() > 0 && a[0] == b[0] {
        if a.drop_first() == b.drop_first() {
            assert(a =~= seq![a[0]] + a.drop_first());
            assert(b =~= seq![b[0]] + b.drop_first());
        }
        lemma_lex_total(a.drop_first(), b.drop_first());
    } else if a.len() == 0 {
        assert(a =~= b);
    }
}

/// Past a common prefix, the order is decided by what follows it.
proof fn lemma_lex_skip(a: Seq<u8>, b: Seq<u8>, i: int)
    requires
        0 <= i <= a.len(),
        i <= b.len(),
        a.take(i) == b.take(i),
    ensures
        lex_lt(a, b) == lex_lt(a.skip(i), b.skip(i)),
    decreases i,
{
    if i > 0 {
        assert(a[0] == a.take(i)[0]);
        assert(b[0] == b.take(i)[0]);
        assert(a.drop_first().take(i - 1) =~= a.take(i).drop_first());
        assert(b.drop_first().take(i - 1) =~= b.take(i).drop_first());
        lemma_lex_skip(a.drop_first(), b.drop_first(), i - 1);
        assert(a.drop_first().skip(i - 1) =~= a.skip(i));
        assert(b.drop_first().skip(i - 1) =~= b.skip(i));
    } else {
        assert(a.skip(0) =~= a);
        assert(b.skip(0) =~= b);
    }
}

/// A fixed-width opaque identifier, ordered bytewise.
#[derive(Clone, Copy, PartialEq, Eq, Debug, Default, Hash, PartialOrd, Ord)]
pub struct Address {
    bytes: [u8; 32],
}

impl View for Address {
    type V = Seq<u8>;

    closed spec fn view(&self) -> Seq<u8> {
        self.bytes@
    }
}

impl Address {
    /// An address is its bytes: equal bytes, equal addresses.
    pub proof fn lemma_view_injective(a: Address, b: Address)
        ensures
            a@.len() == ADDRESS_BYTES,
            (a@ == b@) <==> (a == b),
    {
        if a@ == b@ {
            assert(a.bytes =~= b.bytes) by {
                assert forall|i: int| 0 <= i < 32 implies a.bytes[i] == b.bytes[i] by {
                    assert(a.bytes@[i] == b.bytes@[i]);
                }
            }
        }
    }

    pub fn new_from_array(bytes: [u8; 32]) -> (r: Address)
        ensures
            r@ == bytes@,
    {
        Address { bytes }
    }

    pub fn to_bytes(self) -> (r: [u8; 32])
        ensures
            r@ == self@,
    {
        self.bytes
    }

    /// Reads the address stored at `offset` in `data`.
    pub fn read_at(data: &[u8], offset: usize) -> (r: Address)
        requires
            offset + ADDRESS_BYTES <= data@.len(),
        ensures
            r@ == data@.subrange(offset as int, offset + ADDRESS_BYTES),
    {
        let n = data.len();
        let mut bytes = [0u8; 32];
        let mut j: usize = 0;
        while j < ADDRESS_BYTES
            invariant
                j <= ADDRESS_BYTES,
                offset + ADDRESS_BYTES <= data@.len(),
                n == data@.len(),
                bytes@.len() == ADDRESS_BYTES,
                forall|k: int| 0 <= k < j ==> bytes@[k] == data@[offset + k],
            decreases ADDRESS_BYTES - j,
        {
            bytes[j] = data[offset + j];
            j += 1;
        }
        let r = Address { bytes };
        assert(r@ =~= data@.subrange(offset as int, offset + ADDRESS_BYTES));
        r
    }

    /// Compares two addresses bytewise.
    pub fn compare(&self, other: &Address) -> (r: Ordering)
        ensures
            (r == Ordering::Less) == lex_lt(self@, other@),
            (r == Ordering::Greater) == lex_lt(other@, self@),
            (r == Ordering::Equal) == (*self == *other),
    {
        proof {
            Address::lemma_view_injective(*self, *other);
        }
        let mut i: usize = 0;
        while i < ADDRESS_BYTES
            invariant
                i <= ADDRESS_BYTES,
                self@.len() == ADDRESS_BYTES,
                other@.len() == ADDRESS_BYTES,
                self@.take(i as int) == other@.take(i as int),
                (self@ == other@) <==> (*self == *other),
            decreases ADDRESS_BYTES - i,
        {
            let a = self.bytes[i];
            let b = other.bytes[i];
            if a != b {
                proof {
                    lemma_lex_skip(self@, other@, i as int);
                    lemma_lex_skip(other@, self@, i as int);
                    assert(self@.skip(i as int)[0] == a);
                    assert(other@.skip(i as int)[0] == b);
                    assert(self@[i as int] == a);
                }
                if a < b {
                    return Ordering::Less;
                } else {
                    return Ordering::Greater;
                }
            }
            assert(self@.take(i + 1) =~= self@.take(i as int).push(a));
            assert(other@.take(i + 1) =~= other@.take(i as int).push(b));
            i += 1;
        }
        assert(self@ =~= self@.take(32));
        assert(other@ =~= other@.take(32));
        proof {
            lemma_lex_irreflexive(self@);
        }
        Ordering::Equal
    }
}

} // verus!
