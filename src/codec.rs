//! The 4-byte input frame: a click position packed as `(x << 16) | y`,
//! big-endian, with the all-zero frame meaning "no move".
use vstd::prelude::*;

verus! {

/// The frame for a click at `(x, y)`, or the zero frame when there was no click.
pub open spec fn encoded(x: u16, y: u16, clicked: bool) -> Seq<u8> {
    if clicked {
        seq![(x / 256) as u8, (x % 256) as u8, (y / 256) as u8, (y % 256) as u8]
    } else {
        seq![0u8, 0u8, 0u8, 0u8]
    }
}

/// The frame read as a big-endian 32-bit number.
pub open spec fn frame_value(f: Seq<u8>) -> nat {
    f[0] as nat * 16777216 + f[1] as nat * 65536 + f[2] as nat * 256 + f[3] as nat
}

/// The click a frame carries: none for the zero frame, otherwise the high
/// and low halves of its value.
pub open spec fn decoded(f: Seq<u8>) -> Option<(u16, u16)> {
    if frame_value(f) == 0 {
        None
    } else {
        Some(((frame_value(f) / 65536) as u16, (frame_value(f) % 65536) as u16))
    }
}

/// Packs this tick's click, if any, into a frame.
pub fn encode_input(x: u16, y: u16, clicked: bool) -> (r: [u8; 4])
    ensures
        r@ == encoded(x, y, clicked),
        frame_value(r@) == if clicked {
            x as nat * 65536 + y as nat
        } else {
            0
        },
{
    if clicked {
        let r = [(x / 256) as u8, (x % 256) as u8, (y / 256) as u8, (y % 256) as u8];
        assert(r@ =~= encoded(x, y, clicked));
        r
    } else {
        let r = [0u8, 0u8, 0u8, 0u8];
        assert(r@ =~= encoded(x, y, clicked));
        r
    }
}

/// Unpacks a frame into the click it carries, if any.
pub fn decode_input(frame: [u8; 4]) -> (r: Option<(u16, u16)>)
    ensures
        r == decoded(frame@),
{
    let x: u16 = frame[0] as u16 * 256 + frame[1] as u16;
    let y: u16 = frame[2] as u16 * 256 + frame[3] as u16;
    assert(frame_value(frame@) == x as nat * 65536 + y as nat);
    if x == 0 && y == 0 {
        None
    } else {
        Some((x, y))
    }
}

/// Decoding undoes encoding for every click but one at `(0, 0)`, whose
/// frame is the "no move" frame.
pub proof fn lemma_codec_round_trip(x: u16, y: u16)
    requires
        x != 0 || y != 0,
    ensures
        decoded(encoded(x, y, true)) == Some((x, y)),
{
    let f = encoded(x, y, true);
    assert(frame_value(f) == x as nat * 65536 + y as nat);
}

/// The zero frame, which is also what a tick without a click sends, decodes
/// to no move.
pub proof fn lemma_zero_frame_is_no_move(x: u16, y: u16)
    ensures
        decoded(seq![0u8, 0u8, 0u8, 0u8]) == None::<(u16, u16)>,
        decoded(encoded(x, y, false)) == None::<(u16, u16)>,
{
}

} // verus!
