//! Frames as they come from and go to a SocketCAN socket.
use vstd::prelude::*;

verus! {

/// Flag that marks an extended (29-bit) identifier in a SocketCAN `can_id`.
pub const CAN_EFF_FLAG: u32 = 0x8000_0000;

/// A received frame: identifier and the 8 data bytes.
#[derive(Clone, Copy, Debug)]
pub struct CanFrame {
    pub id: u32,
    pub data: [u8; 8],
}

/// Why a payload cannot be sent.
#[derive(Clone, Copy, Debug, PartialEq, Eq, Structural)]
pub enum FrameError {
    /// More than 8 bytes: the length is given.
    PayloadTooLarge(usize),
}

impl CanFrame {
    /// The frame read from the socket: its identifier without the
    /// extended-frame flag, and its data.
    pub fn from_raw(can_id: u32, data: [u8; 8]) -> (frame: CanFrame)
        ensures
            frame.id == can_id & !CAN_EFF_FLAG,
            frame.id == can_id % 0x8000_0000,
            frame.data == data,
    {
        assert(can_id & !0x8000_0000u32 == can_id % 0x8000_0000) by (bit_vector);
        CanFrame { id: can_id & !CAN_EFF_FLAG, data }
    }
}

/// The 8 data bytes and the data length code of a frame carrying `bytes`:
/// the bytes first, then zeros.
pub fn padded_payload(bytes: &[u8]) -> (result: Result<([u8; 8], u8), FrameError>)
    ensures
        bytes@.len() > 8 ==> result == Err::<([u8; 8], u8), FrameError>(
            FrameError::PayloadTooLarge(bytes@.len() as usize),
        ),
        bytes@.len() <= 8 ==> (result matches Ok((data, dlc)) && dlc == bytes@.len() && (forall|i: int|
            0 <= i < 8 ==> #[trigger] data@[i] == if i < bytes@.len() {
                bytes@[i]
            } else {
                0u8
            })),
{
    if bytes.len() > 8 {
        return Err(FrameError::PayloadTooLarge(bytes.len()));
    }
    let mut data = [0u8; 8];
    let mut i: usize = 0;
    while i < bytes.len()
        invariant
            bytes@.len() <= 8,
            i <= bytes@.len(),
            forall|j: int|
                0 <= j < 8 ==> #[trigger] data@[j] == if j < i {
                    bytes@[j]
                } else {
                    0u8
                },
        decreases bytes.len() - i,
    {
        data[i] = bytes[i];
        i = i + 1;
    }
    Ok((data, bytes.len() as u8))
}

} // verus!
