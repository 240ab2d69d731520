use vstd::prelude::*;

verus! {

/// A 32-byte account address (a public key), held as plain bytes.
#[derive(Clone, Copy, Debug, PartialEq, Eq, Hash)]
pub struct Address {
    pub bytes: [u8; 32],
}

impl View for Address {
    type V = Seq<u8>;

    open spec fn view(&self) -> Seq<u8> {
        self.bytes@
    }
}

/// The byte sequences of a sequence of addresses, in order.
pub open spec fn views(s: Seq<Address>) -> Seq<Seq<u8>> {
    s.map_values(|a: Address| a@)
}

/// The set of byte sequences of a sequence of addresses.
pub open spec fn view_set(s: Seq<Address>) -> Set<Seq<u8>> {
    views(s).to_set()
}

impl Address {
    /// Wraps 32 bytes as an address.
    pub fn new(bytes: [u8; 32]) -> (r: Address)
        ensures
            r@ == bytes@,
    {
        Address { bytes }
    }

    /// The 32 bytes of the address.
    pub fn to_bytes(&self) -> (r: [u8; 32])
        ensures
            r@ == self@,
    {
        self.bytes
    }

    /// The 32 bytes of the address, as a vector.
    pub fn to_vec(&self) -> (r: Vec<u8>)
        ensures
            r@ == self@,
    {
        let mut r: Vec<u8> = Vec::new();
        let mut i: usize = 0;
        while i < 32
            invariant
                i <= 32,
                self@.len() == 32,
                r@ == self@.take(i as int),
            decreases 32 - i,
        {
            r.push(self.bytes[i]);
            assert(self@.take(i + 1) =~= self@.take(i as int).push(self@[i as int]));
            i = i + 1;
        }
        assert(self@.take(32) =~= self@);
        r
    }

    /// Byte-wise equality of two addresses.
    pub fn same(&self, other: &Address) -> (r: bool)
        ensures
            r == (self@ == other@),
    {
        let mut i: usize = 0;
        while i < 32
            invariant
                i <= 32,
                self@.len() == 32,
                other@.len() == 32,
                forall|k: int| 0 <= k < i ==> self@[k] == other@[k],
            decreases 32 - i,
        {
            if self.bytes[i] != other.bytes[i] {
                assert(self@[i as int] != other@[i as int]);
                return false;
            }
            i = i + 1;
        }
        assert(self@ =~= other@);
        true
    }
}

/// Whether `a` occurs in `v`, compared byte-wise.
pub fn contains_address(v: &Vec<Address>, a: &Address) -> (r: bool)
    ensures
        r == views(v@).contains(a@),
{
    let mut i: usize = 0;
    while i < v.len()
        invariant
            i <= v.len(),
            forall|k: int| 0 <= k < i ==> v@[k]@ != a@,
        decreases v.len() - i,
    {
        if v[i].same(a) {
            assert(views(v@)[i as int] == a@);
            return true;
        }
        i = i + 1;
    }
    assert forall|k: int| 0 <= k < views(v@).len() implies views(v@)[k] != a@ by {
        assert(views(v@)[k] == v@[k]@);
    }
    false
}

/// Extending a prefix of a list of addresses by its next address adds that
/// address at the end of the prefix's views and to the prefix's set.
pub proof fn lemma_prefix_step(s: Seq<Address>, i: int)
    requires
        0 <= i < s.len(),
    ensures
        views(s.take(i + 1)) == views(s.take(i)).push(s[i]@),
        view_set(s.take(i + 1)) == view_set(s.take(i)).insert(s[i]@),
{
    assert(views(s.take(i + 1)) =~= views(s.take(i)).push(s[i]@));
    views(s.take(i)).lemma_push_to_set_commute(s[i]@);
}

} // verus!
