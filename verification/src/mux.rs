//! The channel multiplexer: packs independently built stream buffers,
//! each tagged with a channel identifier, into one outer buffer with
//! per-channel length framing, and splits such a buffer back apart.
//!
//! Channels are opaque here: the multiplexer never looks inside a stream,
//! it only frames byte ranges by id and length, and it never reorders
//! them.

use vstd::bytes::*;
use vstd::prelude::*;
use vstd::slice::*;

use crate::wire::lemma_encode_frames_push;
use crate::wire::min_int;
use crate::wire::pad8;
use crate::wire::round_up8;
use crate::wire::spec_encode_frame;
use crate::wire::spec_encode_frames;
use crate::wire::spec_split_frames;
use crate::wire::zero_bytes;

verus! {

/// The channels this build multiplexes.  The multiplexer itself treats
/// ids as opaque numbers; these names only give the surrounding system a
/// shared vocabulary.
#[allow(non_camel_case_types)]
#[derive(Copy, Clone, Debug, PartialEq, Eq, Structural)]
pub enum Channels {
    renderer,
    window,
}

/// The `u32` id that stands for the channel in a frame on the wire.
pub open spec fn spec_channel_code(c: Channels) -> u32 {
    match c {
        Channels::renderer => 1,
        Channels::window => 2,
    }
}

/// The wire id of a channel.
pub fn channel_code(c: Channels) -> (code: u32)
    ensures
        code == spec_channel_code(c),
{
    match c {
        Channels::renderer => 1,
        Channels::window => 2,
    }
}

/// One channel's contribution to a multiplexed buffer: its id and its
/// stream bytes.
pub struct ChannelInput {
    pub id: u32,
    pub data: Vec<u8>,
}

impl View for ChannelInput {
    type V = (u32, Seq<u8>);

    open spec fn view(&self) -> (u32, Seq<u8>) {
        (self.id, self.data@)
    }
}

/// Why the multiplexer refused its inputs.
#[derive(Copy, Clone, Debug, PartialEq, Eq, Structural)]
pub enum ChannelError {
    /// One input's stream is longer than the frame's `u32` length field
    /// can represent.
    OversizedInput,
}

/// Every input's length fits the frame's `u32` length field.
pub open spec fn spec_inputs_fit(inputs: Seq<(u32, Seq<u8>)>) -> bool {
    forall|i: int| 0 <= i < inputs.len() ==> (#[trigger] inputs[i].1.len()) <= u32::MAX
}

/// The channel packer and its inverse.  Both are pure functions of their
/// arguments: no state lives between calls.
pub struct ChannelPacker {
}

impl ChannelPacker {
    /// Packs the inputs, in input order, into one buffer: for each input a
    /// frame `{channel_id, length, bytes, pad-to-8}`.  Fails, touching
    /// nothing, exactly when some input is longer than the `u32` length
    /// field can say; never reorders channels.
    pub fn finalize(inputs: &[ChannelInput]) -> (buffer: Result<Vec<u8>, ChannelError>)
        ensures
            spec_inputs_fit(inputs@.map_values(|c: ChannelInput| c@)) ==> (buffer matches Ok(b)
                && b@ == spec_encode_frames(inputs@.map_values(|c: ChannelInput| c@))),
            !spec_inputs_fit(inputs@.map_values(|c: ChannelInput| c@)) ==> buffer == Err::<
                Vec<u8>,
                ChannelError,
            >(ChannelError::OversizedInput),
    {
        let ghost spec_inputs = inputs@.map_values(|c: ChannelInput| c@);
        let mut i: usize = 0;
        while i < inputs.len()
            invariant
                i <= inputs@.len(),
                spec_inputs == inputs@.map_values(|c: ChannelInput| c@),
                forall|k: int| 0 <= k < i ==> (#[trigger] spec_inputs[k].1.len()) <= u32::MAX,
            decreases inputs@.len() - i,
        {
            let input = slice_index_get(inputs, i);
            if input.data.len() > u32::MAX as usize {
                proof {
                    assert(spec_inputs[i as int] == inputs@[i as int]@);
                    assert(spec_inputs[i as int].1.len() > u32::MAX);
                    assert(!spec_inputs_fit(spec_inputs));
                }
                return Err(ChannelError::OversizedInput);
            }
            i = i + 1;
        }
        let mut buffer: Vec<u8> = Vec::new();
        let mut k: usize = 0;
        proof {
            assert(spec_inputs.take(0) =~= Seq::<(u32, Seq<u8>)>::empty());
            assert(buffer@ =~= spec_encode_frames(spec_inputs.take(0)));
        }
        while k < inputs.len()
            invariant
                k <= inputs@.len(),
                spec_inputs == inputs@.map_values(|c: ChannelInput| c@),
                spec_inputs_fit(spec_inputs),
                buffer@ == spec_encode_frames(spec_inputs.take(k as int)),
            decreases inputs@.len() - k,
        {
            let input = slice_index_get(inputs, k);
            proof {
                assert(spec_inputs[k as int] == inputs@[k as int]@);
                assert(spec_inputs[k as int].1.len() <= u32::MAX);
            }
            let ghost before = buffer@;
            append_frame(&mut buffer, input.id, &input.data);
            k = k + 1;
            proof {
                lemma_encode_frames_push(spec_inputs.take(k as int - 1), input@);
                assert(spec_inputs.take(k as int - 1).push(input@) =~= spec_inputs.take(k as int));
                assert(buffer@ =~= spec_encode_frames(spec_inputs.take(k as int)));
            }
        }
        proof {
            assert(spec_inputs.take(spec_inputs.len() as int) =~= spec_inputs);
        }
        Ok(buffer)
    }

    /// Splits a multiplexed buffer back into its frames, in buffer order:
    /// one `{channel_id, bytes}` per frame.  Stops, keeping the frames
    /// already read, when a frame header is cut short or a declared
    /// length would overrun the buffer, mirroring the unpacker's
    /// truncation policy.
    pub fn split(buffer: &[u8]) -> (channels: Vec<ChannelInput>)
        ensures
            channels@.map_values(|c: ChannelInput| c@) == spec_split_frames(buffer@, 0),
    {
        let mut channels: Vec<ChannelInput> = Vec::new();
        let mut pos: usize = 0;
        proof {
            assert(channels@.map_values(|c: ChannelInput| c@) =~= Seq::<(u32, Seq<u8>)>::empty());
            assert(Seq::<(u32, Seq<u8>)>::empty() + spec_split_frames(buffer@, 0)
                =~= spec_split_frames(buffer@, 0));
        }
        while buffer.len() - pos >= 8
            invariant
                pos <= buffer@.len(),
                channels@.map_values(|c: ChannelInput| c@) + spec_split_frames(buffer@, pos as int)
                    == spec_split_frames(buffer@, 0),
            decreases buffer@.len() - pos,
        {
            let ghost done = channels@.map_values(|c: ChannelInput| c@);
            let id = u32_from_le_bytes(slice_subrange(buffer, pos, pos + 4));
            let len = u32_from_le_bytes(slice_subrange(buffer, pos + 4, pos + 8));
            let body = pos + 8;
            if (len as usize) > buffer.len() - body {
                proof {
                    assert(spec_split_frames(buffer@, pos as int) =~= Seq::<(u32, Seq<u8>)>::empty());
                    assert(done + Seq::<(u32, Seq<u8>)>::empty() =~= done);
                }
                return channels;
            }
            let data = slice_to_vec(slice_subrange(buffer, body, body + len as usize));
            let frame = ChannelInput { id, data };
            let ghost fv = frame@;
            channels.push(frame);
            let end = body + len as usize;
            let pad = (8 - end % 8) % 8;
            if pad <= buffer.len() - end {
                pos = end + pad;
            } else {
                pos = buffer.len();
            }
            proof {
                assert(pos as int == min_int(round_up8(body + len), buffer@.len() as int));
                assert(channels@.map_values(|c: ChannelInput| c@) =~= done.push(fv));
                assert(spec_split_frames(buffer@, body - 8) == seq![fv] + spec_split_frames(
                    buffer@,
                    pos as int,
                ));
                assert(done.push(fv) + spec_split_frames(buffer@, pos as int) =~= done + (seq![fv]
                    + spec_split_frames(buffer@, pos as int)));
            }
        }
        proof {
            assert(spec_split_frames(buffer@, pos as int) =~= Seq::<(u32, Seq<u8>)>::empty());
            assert(channels@.map_values(|c: ChannelInput| c@) + Seq::<(u32, Seq<u8>)>::empty()
                =~= channels@.map_values(|c: ChannelInput| c@));
        }
        channels
    }
}

/// Appends one frame: the channel id, the stream length, the stream, and
/// the zero padding to the next 8-byte boundary.
fn append_frame(buffer: &mut Vec<u8>, id: u32, data: &Vec<u8>)
    requires
        data@.len() <= u32::MAX,
    ensures
        final(buffer)@ == old(buffer)@ + spec_encode_frame(id, data@),
{
    proof {
        lemma_auto_spec_u32_to_from_le_bytes();
    }
    let id_bytes = u32_to_le_bytes(id);
    append_bytes(buffer, id_bytes.as_slice());
    let len_bytes = u32_to_le_bytes(data.len() as u32);
    append_bytes(buffer, len_bytes.as_slice());
    append_bytes(buffer, data.as_slice());
    let pad = (8 - data.len() % 8) % 8;
    let mut i: usize = 0;
    let ghost before_pad = buffer@;
    while i < pad
        invariant
            i <= pad,
            buffer@ == before_pad + zero_bytes(i as int),
        decreases pad - i,
    {
        buffer.push(0);
        proof {
            assert(before_pad + zero_bytes(i as int + 1) =~= (before_pad + zero_bytes(
                i as int,
            )).push(0u8));
        }
        i = i + 1;
    }
    proof {
        assert(pad == pad8(data@.len() as int));
        assert(buffer@ =~= old(buffer)@ + spec_encode_frame(id, data@));
    }
}

/// Appends all of `src` to `dst`.
fn append_bytes(dst: &mut Vec<u8>, src: &[u8])
    ensures
        final(dst)@ == old(dst)@ + src@,
{
    let mut i: usize = 0;
    while i < src.len()
        invariant
            i <= src@.len(),
            dst@ == old(dst)@ + src@.subrange(0, i as int),
        decreases src@.len() - i,
    {
        dst.push(src[i]);
        proof {
            assert(old(dst)@ + src@.subrange(0, i as int + 1) =~= (old(dst)@ + src@.subrange(
                0,
                i as int,
            )).push(src@[i as int]));
        }
        i = i + 1;
    }
    proof {
        assert(src@.subrange(0, src@.len() as int) =~= src@);
    }
}

} // verus!
