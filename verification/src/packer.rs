//! The command packer: a writer that appends typed events, header and
//! payload, into a growable stream buffer, keeping every event on an 8-byte
//! boundary.
//!
//! The packer holds no global state: independent packers never interact,
//! and a packed buffer is a pure function of the events appended to it.

use vstd::bytes::*;
use vstd::prelude::*;

use crate::registry::Events;
use crate::registry::event_code;
use crate::registry::lemma_fixed_no_offsets;
use crate::registry::spec_is_variable;
use crate::registry::spec_length_offsets;
use crate::registry::spec_payload_head_size;
use crate::wire::EventModel;
use crate::wire::event_wf;
use crate::wire::events_wf;
use crate::wire::lemma_encode_events_aligned;
use crate::wire::lemma_encode_events_push;
use crate::wire::lemma_encode_regions_push;
use crate::wire::lemma_pad8_after_multiple;
use crate::wire::lemma_pad_to_8;
use crate::wire::pad8;
use crate::wire::pad_to_8;
use crate::wire::spec_encode_events;
use crate::wire::spec_encode_regions;
use crate::wire::spec_encode_stream;
use crate::wire::zero_bytes;

verus! {

/// Appends all of `src` to `dst`.
fn push_bytes(dst: &mut Vec<u8>, src: &[u8])
    ensures
        final(dst)@ == old(dst)@ + src@,
{
    let mut i: usize = 0;
    while i < src.len()
        invariant
            i <= src@.len(),
            dst@ == old(dst)@ + src@.subrange(0, i as int),
        decreases src@.len() - i,
    {
        dst.push(src[i]);
        proof {
            assert(old(dst)@ + src@.subrange(0, i as int + 1) =~= (old(dst)@ + src@.subrange(
                0,
                i as int,
            )).push(src@[i as int]));
        }
        i = i + 1;
    }
    proof {
        assert(src@.subrange(0, src@.len() as int) =~= src@);
    }
}

/// Appends zero bytes until `dst`'s length is a multiple of 8.
fn pad_buffer_to_8(dst: &mut Vec<u8>)
    ensures
        final(dst)@ == pad_to_8(old(dst)@),
{
    let pad = (8 - (dst.len() % 8)) % 8;
    let mut i: usize = 0;
    while i < pad
        invariant
            i <= pad,
            pad == pad8(old(dst)@.len() as int),
            dst@ == old(dst)@ + zero_bytes(i as int),
        decreases pad - i,
    {
        dst.push(0);
        proof {
            assert(old(dst)@ + zero_bytes(i as int + 1) =~= (old(dst)@ + zero_bytes(
                i as int,
            )).push(0u8));
        }
        i = i + 1;
    }
}

/// The payload header that [`CommandPacker::pack_sprite_texture_load`]
/// writes: the two sprite ids, the filename length, and a reserved zero
/// word.
pub open spec fn spec_texture_load_head(id1: u64, id2: u64, filename_length: u32) -> Seq<u8> {
    spec_u64_to_le_bytes(id1) + spec_u64_to_le_bytes(id2) + spec_u32_to_le_bytes(filename_length)
        + spec_u32_to_le_bytes(0u32)
}

/// A writer that appends events into one stream buffer.
///
/// Abstractly a packer is the sequence of events appended so far (its
/// view); [`CommandPacker::finalize`] returns exactly the wire encoding of
/// that sequence.
pub struct CommandPacker {
    buf: Vec<u8>,
    count: u32,
    events: Ghost<Seq<EventModel>>,
}

impl View for CommandPacker {
    type V = Seq<EventModel>;

    closed spec fn view(&self) -> Seq<EventModel> {
        self.events@
    }
}

impl CommandPacker {
    /// Internal consistency: the buffer is exactly the encoding of the
    /// events appended so far, the running count matches, and every
    /// appended event agrees with the registry.
    pub closed spec fn wf(self) -> bool {
        &&& self.count == self.events@.len()
        &&& self.buf@ == spec_encode_events(self.events@)
        &&& events_wf(self.events@)
    }

    /// What well-formedness tells a caller: the event count fits the wire's
    /// `u32` count field, and every packed event agrees with the registry.
    pub proof fn lemma_wf_events(self)
        requires
            self.wf(),
        ensures
            self@.len() <= u32::MAX,
            events_wf(self@),
    {
    }

    /// A fresh packer with no events.
    pub fn new() -> (packer: CommandPacker)
        ensures
            packer.wf(),
            packer@ == Seq::<EventModel>::empty(),
    {
        CommandPacker { buf: Vec::new(), count: 0, events: Ghost(Seq::empty()) }
    }

    /// The number of events packed so far, for diagnostics.
    pub fn command_count(&self) -> (count: u32)
        requires
            self.wf(),
        ensures
            count == self@.len(),
    {
        self.count
    }

    /// Appends the 16-byte event header and the fixed part of the payload,
    /// padded to the next 8-byte boundary.
    fn append_head(&mut self, kind: Events, timestamp: u64, payload: &[u8])
        requires
            old(self).wf(),
        ensures
            final(self).buf@ == old(self).buf@ + crate::wire::spec_encode_header(kind, timestamp)
                + pad_to_8(payload@),
            final(self).buf@.len() % 8 == 0,
            final(self).count == old(self).count,
            final(self).events@ == old(self).events@,
    {
        proof {
            lemma_encode_events_aligned(self.events@);
            lemma_auto_spec_u32_to_from_le_bytes();
            lemma_auto_spec_u64_to_from_le_bytes();
        }
        let ghost b0 = self.buf@;
        let code_bytes = u32_to_le_bytes(event_code(kind));
        push_bytes(&mut self.buf, code_bytes.as_slice());
        let ts_bytes = u64_to_le_bytes(timestamp);
        push_bytes(&mut self.buf, ts_bytes.as_slice());
        let reserved_bytes = u32_to_le_bytes(0);
        push_bytes(&mut self.buf, reserved_bytes.as_slice());
        let ghost b1 = self.buf@;
        push_bytes(&mut self.buf, payload);
        pad_buffer_to_8(&mut self.buf);
        proof {
            assert(b1.len() == b0.len() + 16);
            lemma_pad8_after_multiple(b1.len() as int, payload@.len() as int);
            assert(self.buf@ =~= b0 + crate::wire::spec_encode_header(kind, timestamp) + pad_to_8(
                payload@,
            ));
            lemma_pad_to_8(payload@);
            lemma_pad_to_8(b0 + crate::wire::spec_encode_header(kind, timestamp) + pad_to_8(
                payload@,
            ));
        }
    }

    /// Appends one fixed-size event: a header carrying `kind` and
    /// `timestamp` (reserved word zero), then the raw payload bytes, then
    /// the zero padding that returns the stream to an 8-byte boundary.
    /// Never fails on data content; growth of the underlying buffer is the
    /// only effect.
    pub fn pack(&mut self, kind: Events, timestamp: u64, payload: &[u8])
        requires
            old(self).wf(),
            !spec_is_variable(kind),
            payload@.len() == spec_payload_head_size(kind),
            old(self)@.len() < u32::MAX,
        ensures
            final(self).wf(),
            final(self)@ == old(self)@.push(
                EventModel { kind, timestamp, payload: payload@, regions: Seq::empty() },
            ),
    {
        let ghost ev = EventModel { kind, timestamp, payload: payload@, regions: Seq::empty() };
        self.append_head(kind, timestamp, payload);
        self.count = self.count + 1;
        proof {
            self.events@ = self.events@.push(ev);
            lemma_fixed_no_offsets(kind);
            assert(event_wf(ev));
            lemma_encode_events_push(old(self).events@, ev);
            assert(spec_encode_regions(Seq::<Seq<u8>>::empty()) =~= Seq::<u8>::empty());
            assert(self.buf@ =~= spec_encode_events(self.events@));
            assert(events_wf(self.events@)) by {
                assert(forall|i: int|
                    0 <= i < old(self).events@.len() ==> self.events@[i] == old(self).events@[i]);
            }
        }
    }

    /// Appends one variable-length event: the header, the fixed payload
    /// header whose length fields must already hold each region's length,
    /// then each region's raw bytes padded to the next 8-byte boundary
    /// independently, in field order.
    pub fn pack_variable(&mut self, kind: Events, timestamp: u64, head: &[u8], regions: &[Vec<u8>])
        requires
            old(self).wf(),
            spec_is_variable(kind),
            head@.len() == spec_payload_head_size(kind),
            regions@.len() == spec_length_offsets(kind).len(),
            forall|i: int|
                0 <= i < regions@.len() ==> #[trigger] regions@[i]@.len()
                    == spec_u32_from_le_bytes(
                    head@.subrange(
                        spec_length_offsets(kind)[i] as int,
                        spec_length_offsets(kind)[i] + 4,
                    ),
                ),
            old(self)@.len() < u32::MAX,
        ensures
            final(self).wf(),
            final(self)@ == old(self)@.push(
                EventModel {
                    kind,
                    timestamp,
                    payload: head@,
                    regions: regions@.map_values(|r: Vec<u8>| r@),
                },
            ),
    {
        let ghost rs = regions@.map_values(|r: Vec<u8>| r@);
        let ghost ev = EventModel { kind, timestamp, payload: head@, regions: rs };
        self.append_head(kind, timestamp, head);
        let ghost base = self.buf@;
        let mut i: usize = 0;
        while i < regions.len()
            invariant
                i <= regions@.len(),
                rs == regions@.map_values(|r: Vec<u8>| r@),
                self.buf@ == base + spec_encode_regions(rs.take(i as int)),
                self.buf@.len() % 8 == 0,
                self.count == old(self).count,
                self.events@ == old(self).events@,
                base.len() % 8 == 0,
            decreases regions@.len() - i,
        {
            let ghost bloop = self.buf@;
            push_bytes(&mut self.buf, regions[i].as_slice());
            pad_buffer_to_8(&mut self.buf);
            proof {
                lemma_pad8_after_multiple(bloop.len() as int, rs[i as int].len() as int);
                lemma_encode_regions_push(rs.take(i as int), rs[i as int]);
                assert(rs.take(i as int).push(rs[i as int]) =~= rs.take(i as int + 1));
                lemma_pad_to_8(rs[i as int]);
                assert(self.buf@ =~= base + spec_encode_regions(rs.take(i as int + 1)));
            }
            i = i + 1;
        }
        self.count = self.count + 1;
        proof {
            assert(rs.take(rs.len() as int) =~= rs);
            self.events@ = self.events@.push(ev);
            assert(event_wf(ev));
            lemma_encode_events_push(old(self).events@, ev);
            assert(self.buf@ =~= spec_encode_events(self.events@));
            assert(events_wf(self.events@)) by {
                assert(forall|i: int|
                    0 <= i < old(self).events@.len() ==> self.events@[i] == old(self).events@[i]);
            }
        }
    }

    /// Appends a texture-load event for a sprite: a variable-length event
    /// whose payload header carries the two sprite ids and the filename
    /// length, followed by the filename bytes.
    pub fn pack_sprite_texture_load(
        &mut self,
        id1: u64,
        id2: u64,
        timestamp: u64,
        filename: &[u8],
    )
        requires
            old(self).wf(),
            filename@.len() <= u32::MAX,
            old(self)@.len() < u32::MAX,
        ensures
            final(self).wf(),
            final(self)@ == old(self)@.push(
                EventModel {
                    kind: Events::spriteTextureLoad,
                    timestamp,
                    payload: spec_texture_load_head(id1, id2, filename@.len() as u32),
                    regions: seq![filename@],
                },
            ),
    {
        proof {
            lemma_auto_spec_u32_to_from_le_bytes();
            lemma_auto_spec_u64_to_from_le_bytes();
        }
        let mut head: Vec<u8> = Vec::new();
        push_bytes(&mut head, u64_to_le_bytes(id1).as_slice());
        push_bytes(&mut head, u64_to_le_bytes(id2).as_slice());
        push_bytes(&mut head, u32_to_le_bytes(filename.len() as u32).as_slice());
        push_bytes(&mut head, u32_to_le_bytes(0).as_slice());
        let mut regions: Vec<Vec<u8>> = Vec::new();
        let mut filename_copy: Vec<u8> = Vec::new();
        push_bytes(&mut filename_copy, filename);
        regions.push(filename_copy);
        proof {
            assert(head@ =~= spec_texture_load_head(id1, id2, filename@.len() as u32));
            assert(head@.subrange(16, 20) =~= spec_u32_to_le_bytes(filename@.len() as u32));
            assert(regions@.map_values(|r: Vec<u8>| r@) =~= seq![filename@]);
        }
        self.pack_variable(Events::spriteTextureLoad, timestamp, head.as_slice(), regions.as_slice());
    }

    /// The accumulated stream: the event count (one per `pack` or
    /// `pack_variable` call), 4 bytes of padding, then the packed events.
    /// Returns a fresh copy each call and never mutates the packer, so it
    /// is safe to call repeatedly.
    pub fn finalize(&self) -> (stream: Vec<u8>)
        requires
            self.wf(),
        ensures
            stream@ == spec_encode_stream(self@.len() as u32, self@),
            stream@.len() % 8 == 0,
    {
        proof {
            lemma_auto_spec_u32_to_from_le_bytes();
            crate::wire::lemma_encode_stream_aligned(self.count, self.events@);
        }
        let mut stream: Vec<u8> = Vec::new();
        push_bytes(&mut stream, u32_to_le_bytes(self.count).as_slice());
        stream.push(0);
        stream.push(0);
        stream.push(0);
        stream.push(0);
        push_bytes(&mut stream, self.buf.as_slice());
        proof {
            assert(stream@ =~= spec_encode_stream(self@.len() as u32, self@));
        }
        stream
    }
}

} // verus!
