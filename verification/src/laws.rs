//! The wire format's laws, proved once over the models in [`crate::wire`]:
//! a packed stream decodes to exactly the packed events; an unrecognized
//! kind after well-formed events stops the stream cleanly; a truncated
//! buffer decodes to a prefix of the full buffer's events; and splitting
//! a multiplexed buffer undoes the multiplexing.

use vstd::bytes::*;
use vstd::prelude::*;

use crate::mux::spec_inputs_fit;
use crate::registry::Events;
use crate::registry::lemma_event_code_roundtrip;
use crate::registry::lemma_fixed_no_offsets;
use crate::registry::lemma_variable_layout;
use crate::registry::spec_event_from_code;
use crate::registry::spec_length_offsets;
use crate::registry::spec_payload_head_size;
use crate::wire::EventModel;
use crate::wire::event_wf;
use crate::wire::events_wf;
use crate::wire::lemma_encode_event_aligned;
use crate::wire::lemma_encode_regions_aligned;
use crate::wire::lemma_pad8_after_multiple;
use crate::wire::lemma_pad_to_8;
use crate::wire::min_int;
use crate::wire::pad8;
use crate::wire::pad_to_8;
use crate::wire::round_up8;
use crate::wire::spec_decode_events;
use crate::wire::spec_decode_regions;
use crate::wire::spec_decode_stream;
use crate::wire::spec_encode_event;
use crate::wire::spec_encode_events;
use crate::wire::spec_encode_frame;
use crate::wire::spec_encode_frames;
use crate::wire::spec_encode_header;
use crate::wire::spec_encode_regions;
use crate::wire::spec_encode_stream;
use crate::wire::spec_split_frames;
use crate::wire::zero_bytes;

verus! {

/// A slice of a suffix is the matching slice of the underlying buffer.
proof fn lemma_suffix_slice(data: Seq<u8>, pos: int, s: Seq<u8>, a: int, b: int)
    requires
        0 <= pos <= data.len(),
        data.subrange(pos, data.len() as int) == s,
        0 <= a <= b <= s.len(),
    ensures
        data.subrange(pos + a, pos + b) == s.subrange(a, b),
{
    assert forall|i: int| 0 <= i < b - a implies data.subrange(pos + a, pos + b)[i] == s.subrange(
        a,
        b,
    )[i] by {
        assert(s[a + i] == data.subrange(pos, data.len() as int)[a + i]);
    }
    assert(data.subrange(pos + a, pos + b) =~= s.subrange(a, b));
}

/// A slice that stays inside the left part of a concatenation reads the
/// left part alone.
proof fn lemma_concat_slice_left(a: Seq<u8>, b: Seq<u8>, x: int, y: int)
    requires
        0 <= x <= y <= a.len(),
    ensures
        (a + b).subrange(x, y) == a.subrange(x, y),
{
    assert forall|i: int| 0 <= i < y - x implies (a + b).subrange(x, y)[i] == a.subrange(x, y)[i] by {
        assert((a + b)[x + i] == a[x + i]);
    }
    assert((a + b).subrange(x, y) =~= a.subrange(x, y));
}

/// A slice that starts past the left part of a concatenation reads the
/// right part alone.
proof fn lemma_concat_slice_right(a: Seq<u8>, b: Seq<u8>, x: int, y: int)
    requires
        0 <= x <= y <= b.len(),
    ensures
        (a + b).subrange(a.len() + x, a.len() + y) == b.subrange(x, y),
{
    assert forall|i: int| 0 <= i < y - x implies (a + b).subrange(a.len() + x, a.len() + y)[i]
        == b.subrange(x, y)[i] by {
        assert((a + b)[a.len() + x + i] == b[x + i]);
    }
    assert((a + b).subrange(a.len() + x, a.len() + y) =~= b.subrange(x, y));
}

/// Decoding the regions of an event from their own encoding yields those
/// regions and lands right after them.
proof fn lemma_decode_regions_encoded(
    data: Seq<u8>,
    pos: int,
    head: Seq<u8>,
    offs: Seq<u32>,
    regions: Seq<Seq<u8>>,
    after: Seq<u8>,
)
    requires
        0 <= pos <= data.len(),
        pos % 8 == 0,
        data.subrange(pos, data.len() as int) == spec_encode_regions(regions) + after,
        offs.len() == regions.len(),
        forall|i: int|
            0 <= i < regions.len() ==> #[trigger] regions[i].len() == spec_u32_from_le_bytes(
                head.subrange(offs[i] as int, offs[i] + 4),
            ),
    ensures
        spec_decode_regions(data, pos, head, offs) == Some(
            (regions, pos + spec_encode_regions(regions).len()),
        ),
    decreases offs.len(),
{
    let suffix = data.subrange(pos, data.len() as int);
    if offs.len() == 0 {
        assert(regions =~= Seq::<Seq<u8>>::empty());
        assert(spec_encode_regions(regions).len() == 0);
    } else {
        let r0 = regions[0];
        let p0 = pad_to_8(r0);
        let enc_rest = spec_encode_regions(regions.drop_first());
        lemma_pad_to_8(r0);
        lemma_encode_regions_aligned(regions.drop_first());
        assert(spec_encode_regions(regions) == p0 + enc_rest);
        assert(suffix =~= p0 + (enc_rest + after));
        let len = spec_u32_from_le_bytes(head.subrange(offs[0] as int, offs[0] + 4)) as int;
        assert(len == r0.len());
        // the declared length fits: the padded region and what follows it
        // are all inside the buffer
        assert(suffix.len() == p0.len() + enc_rest.len() + after.len());
        assert(pos + len <= data.len());
        // the region's bytes
        lemma_suffix_slice(data, pos, p0 + (enc_rest + after), 0, len);
        lemma_concat_slice_left(p0, enc_rest + after, 0, len);
        assert(p0.subrange(0, len) == r0);
        assert(data.subrange(pos, pos + len) == r0);
        // the position after the region's padding
        let next = min_int(round_up8(pos + len), data.len() as int);
        lemma_pad8_after_multiple(pos, len);
        assert(round_up8(pos + len) == pos + p0.len());
        assert(next == pos + p0.len());
        // the rest of the regions decode from the rest of the encoding
        lemma_suffix_slice(data, pos, p0 + (enc_rest + after), p0.len() as int, suffix.len() as int);
        lemma_concat_slice_right(p0, enc_rest + after, 0, (enc_rest + after).len() as int);
        assert((enc_rest + after).subrange(0, (enc_rest + after).len() as int) =~= enc_rest
            + after);
        assert(data.subrange(next, data.len() as int) == enc_rest + after);
        assert forall|i: int| 0 <= i < regions.drop_first().len() implies #[trigger] regions
            .drop_first()[i].len() == spec_u32_from_le_bytes(
            head.subrange(offs.drop_first()[i] as int, offs.drop_first()[i] + 4),
        ) by {
            assert(regions.drop_first()[i] == regions[i + 1]);
            assert(offs.drop_first()[i] == offs[i + 1]);
            assert(regions[i + 1].len() == spec_u32_from_le_bytes(
                head.subrange(offs[i + 1] as int, offs[i + 1] + 4),
            ));
        }
        lemma_decode_regions_encoded(data, next, head, offs.drop_first(), regions.drop_first(), after);
        assert(seq![r0] + regions.drop_first() =~= regions);
        assert(next + enc_rest.len() == pos + spec_encode_regions(regions).len());
    }
}

/// Decoding from a position where the buffer holds the encoding of
/// well-formed events, followed by a tail that is too short for a header
/// or starts with an unrecognized kind code, yields exactly those events.
#[verifier::spinoff_prover]
#[verifier::rlimit(100)]
proof fn lemma_decode_encoded_events(data: Seq<u8>, pos: int, es: Seq<EventModel>, tail: Seq<u8>)
    requires
        0 <= pos <= data.len(),
        pos % 8 == 0,
        data.subrange(pos, data.len() as int) == spec_encode_events(es) + tail,
        events_wf(es),
        tail.len() < 16 || spec_event_from_code(spec_u32_from_le_bytes(tail.subrange(0, 4)))
            == None::<Events>,
    ensures
        spec_decode_events(data, pos) == es,
    decreases es.len(),
{
    lemma_auto_spec_u32_to_from_le_bytes();
    lemma_auto_spec_u64_to_from_le_bytes();
    let suffix = data.subrange(pos, data.len() as int);
    if es.len() == 0 {
        assert(suffix =~= tail);
        if tail.len() < 16 {
            assert(data.len() - pos < 16);
        } else {
            lemma_suffix_slice(data, pos, tail, 0, 4);
            assert(data.subrange(pos, pos + 4) == tail.subrange(0, 4));
        }
        assert(spec_decode_events(data, pos) =~= Seq::<EventModel>::empty());
    } else {
        let e = es[0];
        let rest = es.drop_first();
        assert(event_wf(e));
        let hdr = spec_encode_header(e.kind, e.timestamp);
        let p8 = pad_to_8(e.payload);
        let regs = spec_encode_regions(e.regions);
        let enc_e = spec_encode_event(e);
        let after = spec_encode_events(rest) + tail;
        lemma_encode_event_aligned(e);
        lemma_pad_to_8(e.payload);
        lemma_encode_regions_aligned(e.regions);
        assert(hdr.len() == 16);
        assert(enc_e == hdr + p8 + regs);
        assert(suffix =~= enc_e + after);
        let hs = spec_payload_head_size(e.kind) as int;
        assert(hs == e.payload.len());
        // the kind code
        lemma_suffix_slice(data, pos, enc_e + after, 0, 4);
        lemma_concat_slice_left(enc_e, after, 0, 4);
        lemma_concat_slice_left(hdr + p8, regs, 0, 4);
        lemma_concat_slice_left(hdr, p8, 0, 4);
        lemma_concat_slice_left(
            spec_u32_to_le_bytes(crate::registry::spec_event_code(e.kind))
                + spec_u64_to_le_bytes(e.timestamp),
            spec_u32_to_le_bytes(0u32),
            0,
            4,
        );
        lemma_concat_slice_left(
            spec_u32_to_le_bytes(crate::registry::spec_event_code(e.kind)),
            spec_u64_to_le_bytes(e.timestamp),
            0,
            4,
        );
        assert(spec_u32_to_le_bytes(crate::registry::spec_event_code(e.kind)).subrange(0, 4)
            =~= spec_u32_to_le_bytes(crate::registry::spec_event_code(e.kind)));
        assert(data.subrange(pos, pos + 4) == spec_u32_to_le_bytes(
            crate::registry::spec_event_code(e.kind),
        ));
        lemma_event_code_roundtrip(e.kind);
        // the timestamp
        lemma_suffix_slice(data, pos, enc_e + after, 4, 12);
        lemma_concat_slice_left(enc_e, after, 4, 12);
        lemma_concat_slice_left(hdr + p8, regs, 4, 12);
        lemma_concat_slice_left(hdr, p8, 4, 12);
        lemma_concat_slice_left(
            spec_u32_to_le_bytes(crate::registry::spec_event_code(e.kind))
                + spec_u64_to_le_bytes(e.timestamp),
            spec_u32_to_le_bytes(0u32),
            4,
            12,
        );
        lemma_concat_slice_right(
            spec_u32_to_le_bytes(crate::registry::spec_event_code(e.kind)),
            spec_u64_to_le_bytes(e.timestamp),
            0,
            8,
        );
        assert(spec_u64_to_le_bytes(e.timestamp).subrange(0, 8) =~= spec_u64_to_le_bytes(
            e.timestamp,
        ));
        assert(data.subrange(pos + 4, pos + 12) == spec_u64_to_le_bytes(e.timestamp));
        // the fixed part of the payload
        assert(pos + 16 + hs <= data.len());
        lemma_suffix_slice(data, pos, enc_e + after, 16, 16 + hs);
        lemma_concat_slice_left(enc_e, after, 16, 16 + hs);
        lemma_concat_slice_left(hdr + p8, regs, 16, 16 + hs);
        lemma_concat_slice_right(hdr, p8, 0, hs);
        assert(p8.subrange(0, hs) == e.payload);
        assert(data.subrange(pos + 16, pos + 16 + hs) == e.payload);
        // the regions, and where the next event starts
        let pos_head = pos + 16 + hs;
        let next = pos + enc_e.len();
        if crate::registry::spec_is_variable(e.kind) {
            lemma_variable_layout(e.kind);
            assert(pad8(hs) == 0);
            assert(zero_bytes(0) =~= Seq::<u8>::empty());
            assert(p8 =~= e.payload);
            assert(pos_head % 8 == 0);
            lemma_suffix_slice(data, pos, enc_e + after, 16 + hs, suffix.len() as int);
            assert((hdr + p8).len() == 16 + hs);
            assert(enc_e + after =~= (hdr + p8) + (regs + after));
            lemma_concat_slice_right(hdr + p8, regs + after, 0, (regs + after).len() as int);
            assert((regs + after).subrange(0, (regs + after).len() as int) =~= regs + after);
            assert(data.subrange(pos_head, data.len() as int) == regs + after);
            lemma_decode_regions_encoded(
                data,
                pos_head,
                e.payload,
                spec_length_offsets(e.kind),
                e.regions,
                after,
            );
            let end = pos_head + regs.len();
            assert(end % 8 == 0);
            assert(round_up8(end) == end);
            assert(end == next);
            assert(min_int(round_up8(end), data.len() as int) == next);
        } else {
            lemma_fixed_no_offsets(e.kind);
            assert(e.regions =~= Seq::<Seq<u8>>::empty());
            assert(regs.len() == 0);
            assert(spec_decode_regions(data, pos_head, e.payload, spec_length_offsets(e.kind))
                == Some((Seq::<Seq<u8>>::empty(), pos_head)));
            lemma_pad8_after_multiple(pos + 16, hs);
            assert(round_up8(pos_head) == pos + 16 + p8.len());
            assert(pos + 16 + p8.len() == next);
            assert(next <= data.len());
            assert(min_int(round_up8(pos_head), data.len() as int) == next);
        }
        // the rest of the events decode from the rest of the buffer
        assert(next % 8 == 0);
        lemma_suffix_slice(data, pos, enc_e + after, enc_e.len() as int, suffix.len() as int);
        lemma_concat_slice_right(enc_e, after, 0, after.len() as int);
        assert(after.subrange(0, after.len() as int) =~= after);
        assert(data.subrange(next, data.len() as int) == after);
        assert(events_wf(rest)) by {
            assert forall|i: int| 0 <= i < rest.len() implies #[trigger] event_wf(rest[i]) by {
                assert(rest[i] == es[i + 1]);
                assert(event_wf(es[i + 1]));
            }
        }
        lemma_decode_encoded_events(data, next, rest, tail);
        let decoded = EventModel {
            kind: e.kind,
            timestamp: e.timestamp,
            payload: data.subrange(pos + 16, pos + 16 + hs),
            regions: e.regions,
        };
        assert(decoded == e);
        assert(spec_decode_events(data, pos) == seq![e] + rest);
        assert(seq![e] + rest =~= es);
    }
}

/// Round trip: a stream packed from any sequence of well-formed events
/// decodes to exactly that sequence, in order, whatever count the prefix
/// carries.
pub proof fn lemma_stream_roundtrip(count: u32, es: Seq<EventModel>)
    requires
        events_wf(es),
    ensures
        spec_decode_stream(spec_encode_stream(count, es)) == es,
{
    lemma_auto_spec_u32_to_from_le_bytes();
    let data = spec_encode_stream(count, es);
    let prefix = spec_u32_to_le_bytes(count) + zero_bytes(4);
    assert(prefix.len() == 8);
    assert(data =~= prefix + spec_encode_events(es));
    lemma_concat_slice_right(prefix, spec_encode_events(es), 0, spec_encode_events(es).len() as int);
    assert(spec_encode_events(es).subrange(0, spec_encode_events(es).len() as int)
        =~= spec_encode_events(es));
    assert(data.subrange(8, data.len() as int) == spec_encode_events(es));
    assert(data.subrange(8, data.len() as int) =~= spec_encode_events(es) + Seq::<u8>::empty());
    lemma_decode_encoded_events(data, 8, es, Seq::<u8>::empty());
}

/// Unknown-kind safety: a stream of well-formed events followed by any
/// byte pattern that is too short for a header or starts with an
/// unrecognized kind code decodes to exactly those events and then stops
/// cleanly.
pub proof fn lemma_unknown_kind_stops(count: u32, es: Seq<EventModel>, tail: Seq<u8>)
    requires
        events_wf(es),
        tail.len() < 16 || spec_event_from_code(spec_u32_from_le_bytes(tail.subrange(0, 4)))
            == None::<Events>,
    ensures
        spec_decode_stream(spec_encode_stream(count, es) + tail) == es,
{
    lemma_auto_spec_u32_to_from_le_bytes();
    let data = spec_encode_stream(count, es) + tail;
    let prefix = spec_u32_to_le_bytes(count) + zero_bytes(4);
    assert(prefix.len() == 8);
    assert(data =~= prefix + (spec_encode_events(es) + tail));
    lemma_concat_slice_right(
        prefix,
        spec_encode_events(es) + tail,
        0,
        (spec_encode_events(es) + tail).len() as int,
    );
    assert((spec_encode_events(es) + tail).subrange(
        0,
        (spec_encode_events(es) + tail).len() as int,
    ) =~= spec_encode_events(es) + tail);
    assert(data.subrange(8, data.len() as int) == spec_encode_events(es) + tail);
    lemma_decode_encoded_events(data, 8, es, tail);
}

/// Alignment: after packing any number of events the next write offset,
/// measured from the start of the stream's event area, is a multiple of
/// 8; the padding after each payload and after each variable-length field
/// keeps it there.
pub proof fn lemma_packed_offsets_aligned(es: Seq<EventModel>, i: int)
    requires
        0 <= i <= es.len(),
    ensures
        spec_encode_events(es.take(i)).len() % 8 == 0,
{
    crate::wire::lemma_encode_events_aligned(es.take(i));
}

/// A slice that stays below the cut reads the same bytes in the truncated
/// and the full buffer.
proof fn lemma_take_slice(data: Seq<u8>, k: int, a: int, b: int)
    requires
        0 <= a <= b <= k <= data.len(),
    ensures
        data.take(k).subrange(a, b) == data.subrange(a, b),
{
    assert forall|i: int| 0 <= i < b - a implies data.take(k).subrange(a, b)[i] == data.subrange(
        a,
        b,
    )[i] by {
        assert(data.take(k)[a + i] == data[a + i]);
    }
    assert(data.take(k).subrange(a, b) =~= data.subrange(a, b));
}

/// Where region decoding succeeds in a truncated buffer, it reads the
/// same regions as in the full buffer, and ends at the full decode's
/// position clamped to the cut.
proof fn lemma_decode_regions_truncated(
    data: Seq<u8>,
    k: int,
    pt: int,
    pd: int,
    head: Seq<u8>,
    offs: Seq<u32>,
)
    requires
        0 <= k <= data.len(),
        0 <= pd <= data.len(),
        pt == min_int(pd, k),
    ensures
        match spec_decode_regions(data.take(k), pt, head, offs) {
            None => true,
            Some((rs_t, end_t)) => match spec_decode_regions(data, pd, head, offs) {
                None => false,
                Some((rs_d, end_d)) => rs_t == rs_d && end_t == min_int(end_d, k),
            },
        },
    decreases offs.len(),
{
    let t = data.take(k);
    if offs.len() > 0 {
        let len = spec_u32_from_le_bytes(head.subrange(offs[0] as int, offs[0] + 4)) as int;
        if pt + len <= k {
            if pd <= k {
                assert(pt == pd);
                lemma_take_slice(data, k, pt, pt + len);
                let next_d = min_int(round_up8(pd + len), data.len() as int);
                let next_t = min_int(round_up8(pt + len), k);
                assert(next_t == min_int(next_d, k));
                lemma_decode_regions_truncated(data, k, next_t, next_d, head, offs.drop_first());
            } else {
                assert(pt == k);
                assert(len == 0);
                assert(t.subrange(pt, pt + len) =~= Seq::<u8>::empty());
                assert(data.subrange(pd, pd + len) =~= Seq::<u8>::empty());
                let next_t = min_int(round_up8(pt + len), k);
                assert(next_t == k);
                let next_d = min_int(round_up8(pd + len), data.len() as int);
                assert(next_d >= k);
                assert(next_t == min_int(next_d, k));
                lemma_decode_regions_truncated(data, k, next_t, next_d, head, offs.drop_first());
            }
        }
    }
}

/// Decoding a buffer truncated at any byte offset yields a prefix of what
/// the full buffer decodes to, wherever the two walks start at matching
/// positions.
#[verifier::spinoff_prover]
#[verifier::rlimit(100)]
proof fn lemma_decode_events_truncated(data: Seq<u8>, k: int, pt: int, pd: int)
    requires
        0 <= k <= data.len(),
        0 <= pd <= data.len(),
        pt == min_int(pd, k),
    ensures
        spec_decode_events(data.take(k), pt).is_prefix_of(spec_decode_events(data, pd)),
    decreases data.len() - pd,
{
    let t = data.take(k);
    let dt = spec_decode_events(t, pt);
    let dd = spec_decode_events(data, pd);
    if pt + 16 > k {
        assert(dt == Seq::<EventModel>::empty());
        assert(dd.subrange(0, 0) =~= Seq::<EventModel>::empty());
    } else {
        assert(pd == pt);
        let p = pt;
        lemma_take_slice(data, k, p, p + 4);
        lemma_take_slice(data, k, p + 4, p + 12);
        let code = spec_u32_from_le_bytes(data.subrange(p, p + 4));
        let timestamp = spec_u64_from_le_bytes(data.subrange(p + 4, p + 12));
        match spec_event_from_code(code) {
            None => {
                assert(dt == Seq::<EventModel>::empty());
                assert(dd.subrange(0, 0) =~= Seq::<EventModel>::empty());
            },
            Some(kind) => {
                let hs = spec_payload_head_size(kind) as int;
                if p + 16 + hs > k {
                    assert(dt == Seq::<EventModel>::empty());
                    assert(dd.subrange(0, 0) =~= Seq::<EventModel>::empty());
                } else {
                    lemma_take_slice(data, k, p + 16, p + 16 + hs);
                    let head = data.subrange(p + 16, p + 16 + hs);
                    let offs = spec_length_offsets(kind);
                    let ph = p + 16 + hs;
                    lemma_decode_regions_truncated(data, k, ph, ph, head, offs);
                    match spec_decode_regions(t, ph, head, offs) {
                        None => {
                            assert(dt == Seq::<EventModel>::empty());
                            assert(dd.subrange(0, 0) =~= Seq::<EventModel>::empty());
                        },
                        Some((rs, end_t)) => {
                            let (rs_d, end_d) = spec_decode_regions(
                                data,
                                ph,
                                head,
                                offs,
                            ).unwrap();
                            assert(rs_d == rs && end_t == min_int(end_d, k));
                            crate::wire::lemma_decode_regions_range(data, ph, head, offs);
                            let next_t = min_int(round_up8(end_t), k);
                            let next_d = min_int(round_up8(end_d), data.len() as int);
                            assert(next_t == min_int(next_d, k));
                            assert(next_d > pd);
                            lemma_decode_events_truncated(data, k, next_t, next_d);
                            let ev = EventModel { kind, timestamp, payload: head, regions: rs };
                            let at = spec_decode_events(t, next_t);
                            let ad = spec_decode_events(data, next_d);
                            assert(dt == seq![ev] + at);
                            assert(dd == seq![ev] + ad);
                            assert(at.is_prefix_of(ad));
                            assert forall|i: int| 0 <= i < 1 + at.len() implies (seq![ev] + at)[i]
                                == (seq![ev] + ad).subrange(0, 1 + at.len() as int)[i] by {
                                if i > 0 {
                                    assert(at[i - 1] == ad.subrange(0, at.len() as int)[i - 1]);
                                }
                            }
                            assert(dt =~= dd.subrange(0, dt.len() as int));
                        },
                    }
                }
            },
        }
    }
}

/// Truncation safety: a buffer cut at any byte offset decodes to a prefix
/// of the full buffer's event sequence.  (That the decoder also never
/// reads past the supplied length and never fails the caller is part of
/// [`crate::unpacker::decode_stream`]'s own verified contract.)
pub proof fn lemma_truncation_prefix(data: Seq<u8>, k: int)
    requires
        0 <= k <= data.len(),
    ensures
        spec_decode_stream(data.take(k)).is_prefix_of(spec_decode_stream(data)),
{
    let t = data.take(k);
    if k < 8 {
        assert(spec_decode_stream(t) == Seq::<EventModel>::empty());
        assert(spec_decode_stream(data).subrange(0, 0) =~= Seq::<EventModel>::empty());
    } else {
        lemma_decode_events_truncated(data, k, 8, 8);
    }
}

/// The packer and the decoder agree: whatever a packer's finalized stream
/// holds, decoding it returns exactly the events that were packed.
pub proof fn lemma_finalize_decodes_to_packed(packer: crate::packer::CommandPacker)
    requires
        packer.wf(),
    ensures
        spec_decode_stream(spec_encode_stream(packer@.len() as u32, packer@)) == packer@,
{
    packer.lemma_wf_events();
    lemma_stream_roundtrip(packer@.len() as u32, packer@);
}

/// Splitting a buffer that holds the encoding of frames whose streams fit
/// the length field yields exactly those frames.
proof fn lemma_split_encoded(data: Seq<u8>, pos: int, inputs: Seq<(u32, Seq<u8>)>)
    requires
        0 <= pos <= data.len(),
        pos % 8 == 0,
        data.subrange(pos, data.len() as int) == spec_encode_frames(inputs),
        spec_inputs_fit(inputs),
    ensures
        spec_split_frames(data, pos) == inputs,
    decreases inputs.len(),
{
    lemma_auto_spec_u32_to_from_le_bytes();
    let suffix = data.subrange(pos, data.len() as int);
    if inputs.len() == 0 {
        assert(suffix.len() == 0);
        assert(spec_split_frames(data, pos) =~= Seq::<(u32, Seq<u8>)>::empty());
        assert(inputs =~= Seq::<(u32, Seq<u8>)>::empty());
    } else {
        let id = inputs[0].0;
        let stream = inputs[0].1;
        let rest = inputs.drop_first();
        assert(inputs[0].1.len() <= u32::MAX);
        let frame = spec_encode_frame(id, stream);
        let after = spec_encode_frames(rest);
        let p8 = pad_to_8(stream);
        lemma_pad_to_8(stream);
        assert(frame == spec_u32_to_le_bytes(id) + spec_u32_to_le_bytes(stream.len() as u32) + p8);
        assert(suffix =~= frame + after);
        // the id field
        lemma_suffix_slice(data, pos, frame + after, 0, 4);
        lemma_concat_slice_left(frame, after, 0, 4);
        lemma_concat_slice_left(
            spec_u32_to_le_bytes(id) + spec_u32_to_le_bytes(stream.len() as u32),
            p8,
            0,
            4,
        );
        lemma_concat_slice_left(
            spec_u32_to_le_bytes(id),
            spec_u32_to_le_bytes(stream.len() as u32),
            0,
            4,
        );
        assert(spec_u32_to_le_bytes(id).subrange(0, 4) =~= spec_u32_to_le_bytes(id));
        assert(data.subrange(pos, pos + 4) == spec_u32_to_le_bytes(id));
        // the length field
        lemma_suffix_slice(data, pos, frame + after, 4, 8);
        lemma_concat_slice_left(frame, after, 4, 8);
        lemma_concat_slice_left(
            spec_u32_to_le_bytes(id) + spec_u32_to_le_bytes(stream.len() as u32),
            p8,
            4,
            8,
        );
        lemma_concat_slice_right(
            spec_u32_to_le_bytes(id),
            spec_u32_to_le_bytes(stream.len() as u32),
            0,
            4,
        );
        assert(spec_u32_to_le_bytes(stream.len() as u32).subrange(0, 4) =~= spec_u32_to_le_bytes(
            stream.len() as u32,
        ));
        assert(data.subrange(pos + 4, pos + 8) == spec_u32_to_le_bytes(stream.len() as u32));
        let len = spec_u32_from_le_bytes(data.subrange(pos + 4, pos + 8)) as int;
        assert(len == stream.len());
        // the stream's bytes
        assert(pos + 8 + len <= data.len());
        lemma_suffix_slice(data, pos, frame + after, 8, 8 + len);
        lemma_concat_slice_left(frame, after, 8, 8 + len);
        lemma_concat_slice_right(
            spec_u32_to_le_bytes(id) + spec_u32_to_le_bytes(stream.len() as u32),
            p8,
            0,
            len,
        );
        assert(p8.subrange(0, len) == stream);
        assert(data.subrange(pos + 8, pos + 8 + len) == stream);
        // where the next frame starts
        let next = pos + frame.len();
        lemma_pad8_after_multiple(pos + 8, len);
        assert(round_up8(pos + 8 + len) == next);
        assert(next <= data.len());
        assert(min_int(round_up8(pos + 8 + len), data.len() as int) == next);
        assert(next % 8 == 0);
        // the rest of the frames decode from the rest of the buffer
        lemma_suffix_slice(data, pos, frame + after, frame.len() as int, suffix.len() as int);
        lemma_concat_slice_right(frame, after, 0, after.len() as int);
        assert(after.subrange(0, after.len() as int) =~= after);
        assert(data.subrange(next, data.len() as int) == after);
        assert(spec_inputs_fit(rest)) by {
            assert forall|i: int| 0 <= i < rest.len() implies (#[trigger] rest[i].1.len())
                <= u32::MAX by {
                assert(rest[i] == inputs[i + 1]);
                assert(inputs[i + 1].1.len() <= u32::MAX);
            }
        }
        lemma_split_encoded(data, next, rest);
        assert(spec_split_frames(data, pos) == seq![(id, stream)] + rest);
        assert(seq![(id, stream)] + rest =~= inputs);
    }
}

/// Multiplex/split identity: splitting the buffer the channel packer
/// builds returns the inputs byte for byte, ids and order included.
pub proof fn lemma_mux_split_identity(inputs: Seq<(u32, Seq<u8>)>)
    requires
        spec_inputs_fit(inputs),
    ensures
        spec_split_frames(spec_encode_frames(inputs), 0) == inputs,
{
    let data = spec_encode_frames(inputs);
    assert(data.subrange(0, data.len() as int) =~= data);
    lemma_split_encoded(data, 0, inputs);
}

} // verus!
