//! A share and its byte frame.

use vstd::prelude::*;
use crate::error::Error;

verus! {

/// One point of every polynomial of a split: the x-coordinate at which they
/// were evaluated, and one y-value for each byte of the secret.
#[derive(Clone, Debug, PartialEq, Eq)]
pub struct Share {
    pub x: u8,
    pub y: Vec<u8>,
}

impl View for Share {
    type V = Seq<u8>;

    /// A share is modelled by its frame: the x-coordinate, then the y-values.
    open spec fn view(&self) -> Seq<u8> {
        seq![self.x] + self.y@
    }
}

/// The frames of a sequence of shares, in the same order.
pub open spec fn frames(shares: Seq<Share>) -> Seq<Seq<u8>> {
    Seq::new(shares.len(), |i: int| shares[i]@)
}

/// The least length of a frame that holds a share: x and one y-value.
pub const MIN_FRAME_LEN: usize = 2;

/// A frame holds a share when it has an x-coordinate, which is not zero, and
/// at least one y-value. At zero a polynomial has the secret itself, so no
/// share lies there.
pub open spec fn frame_holds_share(frame: Seq<u8>) -> bool {
    frame.len() >= 2 && frame[0] != 0
}

impl Share {
    /// Reads a share from its frame. A frame under two bytes, or one that
    /// starts with zero, holds no share.
    pub fn from_bytes(bytes: &[u8]) -> (r: Result<Share, Error>)
        ensures
            match r {
                Ok(share) => frame_holds_share(bytes@) && share@ == bytes@ && share.x == bytes@[0]
                    && share.y@ == bytes@.skip(1),
                Err(e) => !frame_holds_share(bytes@) && e == Error::MalformedShare,
            },
    {
        if bytes.len() < MIN_FRAME_LEN || bytes[0] == 0 {
            return Err(Error::MalformedShare);
        }
        let mut y: Vec<u8> = Vec::with_capacity(bytes.len() - 1);
        let mut i: usize = 1;
        while i < bytes.len()
            invariant
                1 <= i <= bytes.len(),
                y@ == bytes@.subrange(1, i as int),
            decreases bytes.len() - i,
        {
            y.push(bytes[i]);
            i += 1;
            assert(y@ =~= bytes@.subrange(1, i as int));
        }
        let share = Share { x: bytes[0], y };
        assert(share.y@ =~= bytes@.skip(1));
        assert(share@ =~= bytes@);
        Ok(share)
    }

    /// Writes the share's frame.
    pub fn to_bytes(&self) -> (r: Vec<u8>)
        ensures
            r@ == self@,
            r@.len() == self.y@.len() + 1,
    {
        let mut out: Vec<u8> = Vec::new();
        out.push(self.x);
        let mut i: usize = 0;
        while i < self.y.len()
            invariant
                0 <= i <= self.y.len(),
                out@ == seq![self.x] + self.y@.subrange(0, i as int),
            decreases self.y.len() - i,
        {
            out.push(self.y[i]);
            i += 1;
            assert(out@ =~= seq![self.x] + self.y@.subrange(0, i as int));
        }
        assert(self.y@.subrange(0, self.y@.len() as int) =~= self.y@);
        out
    }
}

} // verus!
