//! 20-byte account addresses.
use vstd::prelude::*;

verus! {

/// A 20-byte address identifying a token or a pool. Two addresses are equal
/// exactly when their bytes are.
#[derive(Clone, Copy, PartialEq, Eq, Structural, Debug, Hash, PartialOrd, Ord)]
pub struct Address {
    b0: u8,
    b1: u8,
    b2: u8,
    b3: u8,
    b4: u8,
    b5: u8,
    b6: u8,
    b7: u8,
    b8: u8,
    b9: u8,
    b10: u8,
    b11: u8,
    b12: u8,
    b13: u8,
    b14: u8,
    b15: u8,
    b16: u8,
    b17: u8,
    b18: u8,
    b19: u8,
}

impl Address {
    /// The bytes of an address, most significant first.
    pub closed spec fn bytes_spec(self) -> [u8; 20] {
        [self.b0, self.b1, self.b2, self.b3, self.b4, self.b5, self.b6, self.b7, self.b8, self.b9, self.b10, self.b11, self.b12, self.b13, self.b14, self.b15, self.b16, self.b17, self.b18, self.b19]
    }

    /// The address with the given bytes.
    pub fn new(bytes: [u8; 20]) -> (r: Self)
        ensures
            r.bytes_spec() == bytes,
    {
        let r = Address { b0: bytes[0], b1: bytes[1], b2: bytes[2], b3: bytes[3], b4: bytes[4], b5: bytes[5], b6: bytes[6], b7: bytes[7], b8: bytes[8], b9: bytes[9], b10: bytes[10], b11: bytes[11], b12: bytes[12], b13: bytes[13], b14: bytes[14], b15: bytes[15], b16: bytes[16], b17: bytes[17], b18: bytes[18], b19: bytes[19] };
        assert(r.bytes_spec() =~= bytes);
        r
    }

    /// The bytes of this address.
    pub fn bytes(&self) -> (r: [u8; 20])
        ensures
            r == self.bytes_spec(),
    {
        [self.b0, self.b1, self.b2, self.b3, self.b4, self.b5, self.b6, self.b7, self.b8, self.b9, self.b10, self.b11, self.b12, self.b13, self.b14, self.b15, self.b16, self.b17, self.b18, self.b19]
    }

    /// Addresses with the same bytes are the same address.
    pub proof fn lemma_bytes_injective(self, other: Self)
        requires
            self.bytes_spec() == other.bytes_spec(),
        ensures
            self == other,
    {
        let x = self.bytes_spec();
        let y = other.bytes_spec();
        assert(x[0] == y[0]);
        assert(x[1] == y[1]);
        assert(x[2] == y[2]);
        assert(x[3] == y[3]);
        assert(x[4] == y[4]);
        assert(x[5] == y[5]);
        assert(x[6] == y[6]);
        assert(x[7] == y[7]);
        assert(x[8] == y[8]);
        assert(x[9] == y[9]);
        assert(x[10] == y[10]);
        assert(x[11] == y[11]);
        assert(x[12] == y[12]);
        assert(x[13] == y[13]);
        assert(x[14] == y[14]);
        assert(x[15] == y[15]);
        assert(x[16] == y[16]);
        assert(x[17] == y[17]);
        assert(x[18] == y[18]);
        assert(x[19] == y[19]);
    }
}

} // verus!
