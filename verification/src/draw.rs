//! Draws from the system's random number generator. A value of [`Draw`] stands for one
//! question to it: how many bytes it was asked for, and which ones it gave.

use crate::secret::SecretBytes;
use vstd::prelude::*;

verus! {

/// Bytes that were drawn.
pub struct Draw {
    bytes: SecretBytes,
    asked: usize,
}

impl Draw {
    /// The bytes that the generator gave.
    pub closed spec fn bytes(self) -> Seq<u8> {
        self.bytes@
    }

    /// How many bytes it was asked for.
    pub closed spec fn asked(self) -> nat {
        self.asked as nat
    }

    /// Keeps bytes. How many of them the generator was asked for is for whoever asked to
    /// say.
    pub(crate) fn record(bytes: Vec<u8>) -> (draw: Self)
        ensures
            draw.bytes() == bytes@,
    {
        let asked: usize = bytes.len();
        Draw { bytes: SecretBytes::new(bytes), asked }
    }

    /// The bytes that the generator gave.
    pub(crate) fn as_slice(&self) -> (bytes: &[u8])
        ensures
            bytes@ == self.bytes(),
    {
        self.bytes.as_slice()
    }
}

/// All of these bytes were drawn, at once.
pub open spec fn drawn(bytes: Seq<u8>) -> bool {
    exists|draw: Draw| #[trigger] gave(draw, bytes)
}

/// The draw is of exactly these bytes.
pub open spec fn gave(draw: Draw, bytes: Seq<u8>) -> bool {
    &&& draw.bytes() == bytes
    &&& draw.asked() == bytes.len()
}

/// Bytes that were drawn are, from the first to the last, what the generator gave when
/// it was asked for as many.
pub proof fn law_every_byte_was_drawn(bytes: Seq<u8>) -> (draw: Draw)
    requires
        drawn(bytes),
    ensures
        draw.bytes() == bytes,
        draw.asked() == bytes.len(),
{
    choose|draw: Draw| #[trigger] gave(draw, bytes)
}

} // verus!
