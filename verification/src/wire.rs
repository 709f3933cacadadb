//! The mathematical model of the wire format.
//!
//! ```text
//! MultiplexedBuffer := Frame*
//! Frame             := channel_id:u32 length:u32 stream:u8[length] pad:u8[pad8(length)]
//!
//! Stream            := count:u32 pad:u8[4] Event*
//! Event             := kind:u32 timestamp:u64 reserved:u32
//!                      head:u8[head_size(kind)] pad:u8[pad8(head_size(kind))]
//!                      Region*                       // one per length field
//! Region            := bytes:u8[len] pad:u8[pad8(len)]
//! ```
//!
//! All fields are little-endian.  [`spec_encode_stream`] and
//! [`spec_encode_frames`] give the bytes a producer writes;
//! [`spec_decode_stream`] and [`spec_split_frames`] give what a consumer
//! reads back, stopping the stream on truncation or an unrecognized kind.

use vstd::bytes::*;
use vstd::prelude::*;

use crate::registry::Events;
use crate::registry::spec_event_code;
use crate::registry::spec_event_from_code;
use crate::registry::spec_length_offsets;
use crate::registry::spec_payload_head_size;

verus! {

/// How many zero bytes pad a region of `n` bytes to the next multiple of 8.
pub open spec fn pad8(n: int) -> int {
    (8 - n % 8) % 8
}

/// `n` rounded up to the next multiple of 8.
pub open spec fn round_up8(n: int) -> int {
    n + pad8(n)
}

/// The smaller of two positions.
pub open spec fn min_int(a: int, b: int) -> int {
    if a < b {
        a
    } else {
        b
    }
}

/// A run of `n` zero bytes.
pub open spec fn zero_bytes(n: int) -> Seq<u8> {
    Seq::new(n as nat, |i: int| 0u8)
}

/// `s` followed by the zero bytes that pad it to a multiple of 8.
pub open spec fn pad_to_8(s: Seq<u8>) -> Seq<u8> {
    s + zero_bytes(pad8(s.len() as int))
}

/// One event as the wire carries it: its kind, its timestamp, the fixed
/// part of its payload, and the variable-length byte regions (none for a
/// fixed-size kind).
pub struct EventModel {
    pub kind: Events,
    pub timestamp: u64,
    pub payload: Seq<u8>,
    pub regions: Seq<Seq<u8>>,
}

/// Whether an event agrees with the registry: the fixed part has the size
/// the kind declares, there is one region per length field, and each length
/// field holds the length of its region.
pub open spec fn event_wf(e: EventModel) -> bool {
    &&& e.payload.len() == spec_payload_head_size(e.kind)
    &&& e.regions.len() == spec_length_offsets(e.kind).len()
    &&& forall|i: int|
        0 <= i < e.regions.len() ==> #[trigger] e.regions[i].len() == spec_u32_from_le_bytes(
            e.payload.subrange(
                spec_length_offsets(e.kind)[i] as int,
                spec_length_offsets(e.kind)[i] + 4,
            ),
        )
}

/// Every event of the sequence agrees with the registry.
pub open spec fn events_wf(es: Seq<EventModel>) -> bool {
    forall|i: int| 0 <= i < es.len() ==> #[trigger] event_wf(es[i])
}

/// The 16-byte event header: kind code, timestamp, reserved zero word.
pub open spec fn spec_encode_header(kind: Events, timestamp: u64) -> Seq<u8> {
    spec_u32_to_le_bytes(spec_event_code(kind)) + spec_u64_to_le_bytes(timestamp)
        + spec_u32_to_le_bytes(0u32)
}

/// The byte regions of a variable-length payload, each padded to the next
/// 8-byte boundary independently.
pub open spec fn spec_encode_regions(rs: Seq<Seq<u8>>) -> Seq<u8>
    decreases rs.len(),
{
    if rs.len() == 0 {
        Seq::empty()
    } else {
        pad_to_8(rs[0]) + spec_encode_regions(rs.drop_first())
    }
}

/// One whole event: header, padded fixed part, regions.
pub open spec fn spec_encode_event(e: EventModel) -> Seq<u8> {
    spec_encode_header(e.kind, e.timestamp) + pad_to_8(e.payload) + spec_encode_regions(e.regions)
}

/// A sequence of events, one after the other.
pub open spec fn spec_encode_events(es: Seq<EventModel>) -> Seq<u8>
    decreases es.len(),
{
    if es.len() == 0 {
        Seq::empty()
    } else {
        spec_encode_event(es[0]) + spec_encode_events(es.drop_first())
    }
}

/// A whole stream: the advisory event count, 4 bytes of padding, then the
/// events.
pub open spec fn spec_encode_stream(count: u32, es: Seq<EventModel>) -> Seq<u8> {
    spec_u32_to_le_bytes(count) + zero_bytes(4) + spec_encode_events(es)
}

/// The regions of one variable-length event, read from `data` starting at
/// `pos`, with one length field per entry of `offs` taken from `head`.
/// `None` when a declared length overruns the buffer; otherwise the regions
/// and the position after the last region's padding (clamped to the end of
/// the buffer).
pub open spec fn spec_decode_regions(data: Seq<u8>, pos: int, head: Seq<u8>, offs: Seq<u32>) -> Option<
    (Seq<Seq<u8>>, int),
>
    decreases offs.len(),
{
    if offs.len() == 0 {
        Some((Seq::empty(), pos))
    } else {
        let len = spec_u32_from_le_bytes(head.subrange(offs[0] as int, offs[0] + 4)) as int;
        if pos + len > data.len() {
            None
        } else {
            let next = min_int(round_up8(pos + len), data.len() as int);
            match spec_decode_regions(data, next, head, offs.drop_first()) {
                None => None,
                Some((rest, end)) => Some((seq![data.subrange(pos, pos + len)] + rest, end)),
            }
        }
    }
}

/// The position after decoded regions never moves backward, nor past the
/// end of the buffer.
pub proof fn lemma_decode_regions_range(data: Seq<u8>, pos: int, head: Seq<u8>, offs: Seq<u32>)
    requires
        0 <= pos <= data.len(),
    ensures
        match spec_decode_regions(data, pos, head, offs) {
            None => true,
            Some((regions, end)) => pos <= end <= data.len(),
        },
    decreases offs.len(),
{
    if offs.len() > 0 {
        let len = spec_u32_from_le_bytes(head.subrange(offs[0] as int, offs[0] + 4)) as int;
        if pos + len <= data.len() {
            let next = min_int(round_up8(pos + len), data.len() as int);
            lemma_decode_regions_range(data, next, head, offs.drop_first());
        }
    }
}

/// The events read from `data` starting at `pos`, walking header after
/// payload after padding until the buffer runs out, a header or payload
/// would overrun it, or a kind code is unrecognized.  Everything decoded
/// before the stop stands.
pub open spec fn spec_decode_events(data: Seq<u8>, pos: int) -> Seq<EventModel>
    decreases data.len() - pos
        when 0 <= pos <= data.len()
{
    if pos + 16 > data.len() {
        Seq::empty()
    } else {
        let code = spec_u32_from_le_bytes(data.subrange(pos, pos + 4));
        let timestamp = spec_u64_from_le_bytes(data.subrange(pos + 4, pos + 12));
        match spec_event_from_code(code) {
            None => Seq::empty(),
            Some(kind) => {
                let head_size = spec_payload_head_size(kind) as int;
                if pos + 16 + head_size > data.len() {
                    Seq::empty()
                } else {
                    let head = data.subrange(pos + 16, pos + 16 + head_size);
                    match spec_decode_regions(
                        data,
                        pos + 16 + head_size,
                        head,
                        spec_length_offsets(kind),
                    ) {
                        None => Seq::empty(),
                        Some((regions, end)) => {
                            let next = min_int(round_up8(end), data.len() as int);
                            proof {
                                lemma_decode_regions_range(
                                    data,
                                    pos + 16 + head_size,
                                    head,
                                    spec_length_offsets(kind),
                                );
                            }
                            seq![
                                EventModel { kind, timestamp, payload: head, regions },
                            ] + spec_decode_events(data, next)
                        },
                    }
                }
            },
        }
    }
}

/// A whole stream read back: nothing when even the count field is cut
/// short, else the events that follow the 8-byte count prefix.
pub open spec fn spec_decode_stream(data: Seq<u8>) -> Seq<EventModel> {
    if data.len() < 8 {
        Seq::empty()
    } else {
        spec_decode_events(data, 8)
    }
}

/// One channel frame: its id, the length of its stream, the stream, and
/// the padding that carries the buffer to the next 8-byte boundary.
pub open spec fn spec_encode_frame(id: u32, stream: Seq<u8>) -> Seq<u8> {
    spec_u32_to_le_bytes(id) + spec_u32_to_le_bytes(stream.len() as u32) + pad_to_8(stream)
}

/// The frames of a multiplexed buffer, in input order.
pub open spec fn spec_encode_frames(inputs: Seq<(u32, Seq<u8>)>) -> Seq<u8>
    decreases inputs.len(),
{
    if inputs.len() == 0 {
        Seq::empty()
    } else {
        spec_encode_frame(inputs[0].0, inputs[0].1) + spec_encode_frames(inputs.drop_first())
    }
}

/// The frames read back from a multiplexed buffer, in order, stopping when
/// a frame header is cut short or a declared length overruns the buffer.
pub open spec fn spec_split_frames(data: Seq<u8>, pos: int) -> Seq<(u32, Seq<u8>)>
    decreases data.len() - pos
        when 0 <= pos <= data.len()
{
    if pos + 8 > data.len() {
        Seq::empty()
    } else {
        let id = spec_u32_from_le_bytes(data.subrange(pos, pos + 4));
        let len = spec_u32_from_le_bytes(data.subrange(pos + 4, pos + 8)) as int;
        if pos + 8 + len > data.len() {
            Seq::empty()
        } else {
            let next = min_int(round_up8(pos + 8 + len), data.len() as int);
            seq![(id, data.subrange(pos + 8, pos + 8 + len))] + spec_split_frames(data, next)
        }
    }
}

/// Appending to a sequence whose length is a multiple of 8 needs the same
/// padding as the appended part alone.
pub proof fn lemma_pad8_after_multiple(k: int, m: int)
    requires
        k % 8 == 0,
    ensures
        pad8(k + m) == pad8(m),
{
}

/// Encoding one more event appends that event's encoding.
pub proof fn lemma_encode_events_push(es: Seq<EventModel>, e: EventModel)
    ensures
        spec_encode_events(es.push(e)) == spec_encode_events(es) + spec_encode_event(e),
    decreases es.len(),
{
    if es.len() == 0 {
        assert(es.push(e).drop_first() =~= Seq::<EventModel>::empty());
        assert(es.push(e)[0] == e);
        assert(spec_encode_events(es.push(e)) == spec_encode_event(e) + spec_encode_events(
            Seq::<EventModel>::empty(),
        ));
        assert(spec_encode_events(es.push(e)) =~= spec_encode_events(es) + spec_encode_event(e));
    } else {
        let tail = es.drop_first();
        assert(es.push(e).drop_first() =~= tail.push(e));
        lemma_encode_events_push(tail, e);
        assert(es.push(e)[0] == es[0]);
        assert(spec_encode_events(es.push(e)) == spec_encode_event(es[0]) + spec_encode_events(
            tail.push(e),
        ));
        assert(spec_encode_events(es.push(e)) =~= spec_encode_events(es) + spec_encode_event(e));
    }
}

/// Encoding one more region appends that region's padded bytes.
pub proof fn lemma_encode_regions_push(rs: Seq<Seq<u8>>, r: Seq<u8>)
    ensures
        spec_encode_regions(rs.push(r)) == spec_encode_regions(rs) + pad_to_8(r),
    decreases rs.len(),
{
    if rs.len() == 0 {
        assert(rs.push(r).drop_first() =~= Seq::<Seq<u8>>::empty());
        assert(rs.push(r)[0] == r);
        assert(spec_encode_regions(rs.push(r)) == pad_to_8(r) + spec_encode_regions(
            Seq::<Seq<u8>>::empty(),
        ));
        assert(spec_encode_regions(rs.push(r)) =~= spec_encode_regions(rs) + pad_to_8(r));
    } else {
        let tail = rs.drop_first();
        assert(rs.push(r).drop_first() =~= tail.push(r));
        lemma_encode_regions_push(tail, r);
        assert(rs.push(r)[0] == rs[0]);
        assert(spec_encode_regions(rs.push(r)) == pad_to_8(rs[0]) + spec_encode_regions(
            tail.push(r),
        ));
        assert(spec_encode_regions(rs.push(r)) =~= spec_encode_regions(rs) + pad_to_8(r));
    }
}

/// Encoding frames one more input appends that input's frame.
pub proof fn lemma_encode_frames_push(inputs: Seq<(u32, Seq<u8>)>, f: (u32, Seq<u8>))
    ensures
        spec_encode_frames(inputs.push(f)) == spec_encode_frames(inputs) + spec_encode_frame(
            f.0,
            f.1,
        ),
    decreases inputs.len(),
{
    if inputs.len() == 0 {
        assert(inputs.push(f).drop_first() =~= Seq::<(u32, Seq<u8>)>::empty());
        assert(inputs.push(f)[0] == f);
        assert(spec_encode_frames(inputs.push(f)) == spec_encode_frame(f.0, f.1)
            + spec_encode_frames(Seq::<(u32, Seq<u8>)>::empty()));
        assert(spec_encode_frames(inputs.push(f)) =~= spec_encode_frames(inputs)
            + spec_encode_frame(f.0, f.1));
    } else {
        let tail = inputs.drop_first();
        assert(inputs.push(f).drop_first() =~= tail.push(f));
        lemma_encode_frames_push(tail, f);
        assert(inputs.push(f)[0] == inputs[0]);
        assert(spec_encode_frames(inputs.push(f)) == spec_encode_frame(inputs[0].0, inputs[0].1)
            + spec_encode_frames(tail.push(f)));
        assert(spec_encode_frames(inputs.push(f)) =~= spec_encode_frames(inputs)
            + spec_encode_frame(f.0, f.1));
    }
}

/// Padding never shrinks a sequence, adds at most 7 bytes, lands on a
/// multiple of 8, and leaves the original bytes as a prefix.
pub proof fn lemma_pad_to_8(s: Seq<u8>)
    ensures
        pad_to_8(s).len() % 8 == 0,
        s.len() <= pad_to_8(s).len() < s.len() + 8,
        pad_to_8(s).subrange(0, s.len() as int) == s,
{
    assert(pad_to_8(s).subrange(0, s.len() as int) =~= s);
}

/// Variable-field boundaries keep the alignment: the encoded regions of
/// an event take a multiple of 8 bytes in all.
pub proof fn lemma_encode_regions_aligned(rs: Seq<Seq<u8>>)
    ensures
        spec_encode_regions(rs).len() % 8 == 0,
    decreases rs.len(),
{
    if rs.len() > 0 {
        lemma_pad_to_8(rs[0]);
        lemma_encode_regions_aligned(rs.drop_first());
    }
}

/// After any event the write position is back on an 8-byte boundary: an
/// encoded event's length is a multiple of 8, and is at least the 16 bytes
/// of its header.
pub proof fn lemma_encode_event_aligned(e: EventModel)
    ensures
        spec_encode_event(e).len() % 8 == 0,
        spec_encode_event(e).len() >= 16,
{
    lemma_auto_spec_u32_to_from_le_bytes();
    lemma_auto_spec_u64_to_from_le_bytes();
    lemma_pad_to_8(e.payload);
    lemma_encode_regions_aligned(e.regions);
}

/// A whole encoded event sequence keeps the 8-byte alignment: its length
/// is a multiple of 8.
pub proof fn lemma_encode_events_aligned(es: Seq<EventModel>)
    ensures
        spec_encode_events(es).len() % 8 == 0,
    decreases es.len(),
{
    if es.len() > 0 {
        lemma_encode_event_aligned(es[0]);
        lemma_encode_events_aligned(es.drop_first());
    }
}

/// A whole encoded stream keeps the 8-byte alignment, and always holds its
/// 8-byte count prefix.
pub proof fn lemma_encode_stream_aligned(count: u32, es: Seq<EventModel>)
    ensures
        spec_encode_stream(count, es).len() % 8 == 0,
        spec_encode_stream(count, es).len() >= 8,
{
    lemma_auto_spec_u32_to_from_le_bytes();
    lemma_encode_events_aligned(es);
}

} // verus!
