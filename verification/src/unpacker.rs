//! The event unpacker: a bounds-checked cursor over an immutable byte
//! region, and the decode loop that walks a stream of events with it.
//!
//! No read ever goes past the supplied region, whatever the input holds.
//! Truncation, an oversized declared length, or an unrecognized kind stop
//! the walk; everything decoded before the stop stands.

use vstd::bytes::*;
use vstd::prelude::*;
use vstd::slice::*;

use crate::registry::Events;
use crate::registry::event_from_code;
use crate::registry::get_payload_size;
use crate::registry::length_offsets;
use crate::registry::lemma_fixed_no_offsets;
use crate::registry::lemma_variable_layout;
use crate::registry::spec_is_variable;
use crate::registry::spec_length_offsets;
use crate::wire::EventModel;
use crate::wire::min_int;
use crate::wire::round_up8;
use crate::wire::spec_decode_events;
use crate::wire::spec_decode_regions;
use crate::wire::spec_decode_stream;

verus! {

/// A cursor over an immutable byte region.  The position starts at 0 and
/// never leaves the region: every read method checks its bounds first and
/// fails, without advancing, where too few bytes remain.
pub struct EventUnpacker<'a> {
    data: &'a [u8],
    pos: usize,
}

impl<'a> EventUnpacker<'a> {
    /// The bytes the cursor walks.
    pub closed spec fn bytes(self) -> Seq<u8> {
        self.data@
    }

    /// The cursor's offset from the start of the region.
    pub closed spec fn cursor(self) -> int {
        self.pos as int
    }

    /// The cursor stands inside the region (one past its last byte at
    /// most).
    pub open spec fn wf(self) -> bool {
        0 <= self.cursor() <= self.bytes().len()
    }

    /// A cursor at the start of `data`.
    pub fn new(data: &'a [u8]) -> (unpacker: EventUnpacker<'a>)
        ensures
            unpacker.wf(),
            unpacker.bytes() == data@,
            unpacker.cursor() == 0,
    {
        EventUnpacker { data, pos: 0 }
    }

    /// The current offset, for the caller's loop-termination checks.
    pub fn position(&self) -> (p: usize)
        ensures
            p == self.cursor(),
    {
        self.pos
    }

    /// How many bytes remain between the cursor and the end of the region.
    pub fn remaining(&self) -> (n: usize)
        requires
            self.wf(),
        ensures
            n == self.bytes().len() - self.cursor(),
    {
        self.data.len() - self.pos
    }

    /// Reads the stream prefix: a 4-byte little-endian count, then 4 bytes
    /// of padding.  `None`, with the cursor unmoved, when fewer than 8
    /// bytes remain; a caller treats that as a stream of zero events.
    pub fn read_count(&mut self) -> (count: Option<u32>)
        requires
            old(self).wf(),
        ensures
            final(self).wf(),
            final(self).bytes() == old(self).bytes(),
            old(self).bytes().len() - old(self).cursor() >= 8 ==> {
                &&& count == Some(
                    spec_u32_from_le_bytes(
                        old(self).bytes().subrange(old(self).cursor(), old(self).cursor() + 4),
                    ),
                )
                &&& final(self).cursor() == old(self).cursor() + 8
            },
            old(self).bytes().len() - old(self).cursor() < 8 ==> count == None::<u32>
                && *final(self) == *old(self),
    {
        if self.data.len() - self.pos >= 8 {
            let count = u32_from_le_bytes(slice_subrange(self.data, self.pos, self.pos + 4));
            self.pos = self.pos + 8;
            Some(count)
        } else {
            None
        }
    }

    /// Reads the fixed 16-byte event header: the kind's wire code, the
    /// timestamp, and the reserved word it skips.  `None`, with the cursor
    /// unmoved, when fewer than 16 bytes remain.
    pub fn read_event_header(&mut self) -> (header: Option<(u32, u64)>)
        requires
            old(self).wf(),
        ensures
            final(self).wf(),
            final(self).bytes() == old(self).bytes(),
            old(self).bytes().len() - old(self).cursor() >= 16 ==> {
                &&& header == Some(
                    (
                        spec_u32_from_le_bytes(
                            old(self).bytes().subrange(old(self).cursor(), old(self).cursor() + 4),
                        ),
                        spec_u64_from_le_bytes(
                            old(self).bytes().subrange(
                                old(self).cursor() + 4,
                                old(self).cursor() + 12,
                            ),
                        ),
                    ),
                )
                &&& final(self).cursor() == old(self).cursor() + 16
            },
            old(self).bytes().len() - old(self).cursor() < 16 ==> header == None::<(u32, u64)>
                && *final(self) == *old(self),
    {
        if self.data.len() - self.pos >= 16 {
            let code = u32_from_le_bytes(slice_subrange(self.data, self.pos, self.pos + 4));
            let timestamp = u64_from_le_bytes(
                slice_subrange(self.data, self.pos + 4, self.pos + 12),
            );
            self.pos = self.pos + 16;
            Some((code, timestamp))
        } else {
            None
        }
    }

    /// Reads `n` raw bytes as a fresh vector and advances past them.
    /// `None`, with the cursor unmoved, when fewer than `n` bytes remain:
    /// the main bounds-checked decode primitive.
    pub fn read_payload(&mut self, n: usize) -> (payload: Option<Vec<u8>>)
        requires
            old(self).wf(),
        ensures
            final(self).wf(),
            final(self).bytes() == old(self).bytes(),
            n <= old(self).bytes().len() - old(self).cursor() ==> {
                &&& payload matches Some(p) && p@ == old(self).bytes().subrange(
                    old(self).cursor(),
                    old(self).cursor() + n,
                )
                &&& final(self).cursor() == old(self).cursor() + n
            },
            n > old(self).bytes().len() - old(self).cursor() ==> payload == None::<Vec<u8>>
                && *final(self) == *old(self),
    {
        if n <= self.data.len() - self.pos {
            let payload = slice_to_vec(slice_subrange(self.data, self.pos, self.pos + n));
            self.pos = self.pos + n;
            Some(payload)
        } else {
            None
        }
    }

    /// Advances past `n` bytes without looking at them.  `false`, with the
    /// cursor unmoved, when fewer than `n` bytes remain.
    pub fn skip(&mut self, n: usize) -> (ok: bool)
        requires
            old(self).wf(),
        ensures
            final(self).wf(),
            final(self).bytes() == old(self).bytes(),
            n <= old(self).bytes().len() - old(self).cursor() ==> ok && final(self).cursor()
                == old(self).cursor() + n,
            n > old(self).bytes().len() - old(self).cursor() ==> !ok && *final(self) == *old(self),
    {
        if n <= self.data.len() - self.pos {
            self.pos = self.pos + n;
            true
        } else {
            false
        }
    }

    /// Advances the cursor to the next multiple of `k` from the start of
    /// the region, or to the end of the region where that comes first.
    pub fn align_to(&mut self, k: usize)
        requires
            old(self).wf(),
            k >= 1,
        ensures
            final(self).wf(),
            final(self).bytes() == old(self).bytes(),
            final(self).cursor() == min_int(
                old(self).cursor() + ((k as int) - old(self).cursor() % (k as int)) % (k as int),
                old(self).bytes().len() as int,
            ),
    {
        let pad = (k - self.pos % k) % k;
        if pad <= self.data.len() - self.pos {
            self.pos = self.pos + pad;
        } else {
            self.pos = self.data.len();
        }
    }

    /// Advances past a `len`-byte region and then past the zero padding
    /// that carries the cursor to the next 8-byte boundary (or to the end
    /// of the region where the padding was cut short).  `false`, with the
    /// cursor unmoved, when `len` itself overruns the region.
    pub fn skip_string_aligned(&mut self, len: u32) -> (ok: bool)
        requires
            old(self).wf(),
        ensures
            final(self).wf(),
            final(self).bytes() == old(self).bytes(),
            len <= old(self).bytes().len() - old(self).cursor() ==> ok && final(self).cursor()
                == min_int(round_up8(old(self).cursor() + len), old(self).bytes().len() as int),
            len > old(self).bytes().len() - old(self).cursor() ==> !ok
                && *final(self) == *old(self),
    {
        let n = len as usize;
        if n <= self.data.len() - self.pos {
            self.pos = self.pos + n;
            self.align_to(8);
            true
        } else {
            false
        }
    }
}

/// One decoded event: its kind, its timestamp, the fixed part of its
/// payload, and its variable-length byte regions without their padding
/// (none for a fixed-size kind).
pub struct DecodedEvent {
    pub kind: Events,
    pub timestamp: u64,
    pub payload: Vec<u8>,
    pub regions: Vec<Vec<u8>>,
}

impl View for DecodedEvent {
    type V = EventModel;

    open spec fn view(&self) -> EventModel {
        EventModel {
            kind: self.kind,
            timestamp: self.timestamp,
            payload: self.payload@,
            regions: self.regions@.map_values(|r: Vec<u8>| r@),
        }
    }
}


impl<'a> EventUnpacker<'a> {
    /// Reads one whole event at the cursor: the header, the fixed part of
    /// the payload, and each declared byte region, leaving the cursor on
    /// the next 8-byte boundary (or at the end of the region where the
    /// padding was cut short).  `None` is a stop: an unrecognized kind, or
    /// a payload or declared length that would overrun the remaining
    /// bytes.
    #[verifier::loop_isolation(false)]
    #[verifier::rlimit(100)]
    pub fn read_event(&mut self) -> (event: Option<DecodedEvent>)
        requires
            old(self).wf(),
            old(self).bytes().len() - old(self).cursor() >= 16,
        ensures
            final(self).wf(),
            final(self).bytes() == old(self).bytes(),
            match event {
                Some(ev) => {
                    &&& spec_decode_events(old(self).bytes(), old(self).cursor()) == seq![ev@]
                        + spec_decode_events(old(self).bytes(), final(self).cursor())
                    &&& final(self).cursor() > old(self).cursor()
                },
                None => spec_decode_events(old(self).bytes(), old(self).cursor())
                    == Seq::<EventModel>::empty(),
            },
    {
        let ghost data = self.bytes();
        let ghost pos0 = self.cursor();
        let header = match self.read_event_header() {
            Some(header) => header,
            None => {
                proof {
                    assert(false);
                }
                return None;
            },
        };
        let (code, timestamp) = header;
        let kind = match event_from_code(code) {
            Some(kind) => kind,
            None => {
                proof {
                    assert(spec_decode_events(data, pos0) =~= Seq::<EventModel>::empty());
                }
                return None;
            },
        };
        let head_size = match get_payload_size(kind) {
            Some(size) => size,
            None => {
                proof {
                    assert(false);
                }
                return None;
            },
        };
        if (head_size as usize) > self.remaining() {
            proof {
                assert(spec_decode_events(data, pos0) =~= Seq::<EventModel>::empty());
            }
            return None;
        }
        let head = match self.read_payload(head_size as usize) {
            Some(head) => head,
            None => {
                proof {
                    assert(false);
                }
                return None;
            },
        };
        let ghost pos_head = self.cursor();
        let ghost spec_head = head@;
        let offs = length_offsets(kind);
        let ghost spec_offs = spec_length_offsets(kind);
        let mut regions: Vec<Vec<u8>> = Vec::new();
        let mut j: usize = 0;
        proof {
            assert(spec_offs.skip(0) =~= spec_offs);
            assert(regions@.map_values(|r: Vec<u8>| r@) =~= Seq::<Seq<u8>>::empty());
            match spec_decode_regions(data, pos_head, spec_head, spec_offs) {
                None => {},
                Some((rest, end)) => {
                    assert(Seq::<Seq<u8>>::empty() + rest =~= rest);
                },
            }
        }
        while j < offs.len()
            invariant
                self.wf(),
                self.bytes() == data,
                j <= offs@.len(),
                self.cursor() >= pos_head,
                spec_decode_regions(data, pos_head, spec_head, spec_offs) == (
                match spec_decode_regions(
                    data,
                    self.cursor(),
                    spec_head,
                    spec_offs.skip(j as int),
                ) {
                    None => None::<(Seq<Seq<u8>>, int)>,
                    Some((rest, end)) => Some(
                        (regions@.map_values(|r: Vec<u8>| r@) + rest, end),
                    ),
                }),
            decreases offs@.len() - j,
        {
            proof {
                if !spec_is_variable(kind) {
                    lemma_fixed_no_offsets(kind);
                    assert(false);
                }
                lemma_variable_layout(kind);
                assert(spec_length_offsets(kind)[j as int] + 4
                    <= crate::registry::spec_payload_head_size(kind));
            }
            let off = offs[j] as usize;
            let len = u32_from_le_bytes(slice_subrange(head.as_slice(), off, off + 4));
            let ghost cur = self.cursor();
            let ghost tail_offs = spec_offs.skip(j as int);
            let ghost rs_before = regions@.map_values(|r: Vec<u8>| r@);
            proof {
                assert(tail_offs[0] == spec_offs[j as int]);
                assert(len == spec_u32_from_le_bytes(
                    spec_head.subrange(tail_offs[0] as int, tail_offs[0] + 4),
                ));
            }
            if (len as usize) > self.remaining() {
                proof {
                    assert(spec_decode_regions(data, cur, spec_head, tail_offs) == None::<
                        (Seq<Seq<u8>>, int),
                    >);
                    assert(spec_decode_events(data, pos0) =~= Seq::<EventModel>::empty());
                }
                return None;
            }
            let region = match self.read_payload(len as usize) {
                Some(region) => region,
                None => {
                    proof {
                        assert(false);
                    }
                    return None;
                },
            };
            let ghost spec_region = region@;
            self.align_to(8);
            regions.push(region);
            j = j + 1;
            proof {
                assert(tail_offs.drop_first() =~= spec_offs.skip(j as int));
                assert(regions@.map_values(|r: Vec<u8>| r@) =~= rs_before.push(spec_region));
                assert(spec_region == data.subrange(cur, cur + len));
                assert(self.cursor() == min_int(round_up8(cur + len), data.len() as int));
                match spec_decode_regions(data, self.cursor(), spec_head, spec_offs.skip(j as int)) {
                    None => {},
                    Some((rest, end)) => {
                        assert(rs_before + (seq![spec_region] + rest) =~= rs_before.push(
                            spec_region,
                        ) + rest);
                    },
                }
            }
        }
        proof {
            assert(spec_offs.skip(j as int) =~= Seq::<u32>::empty());
        }
        let ghost region_end = self.cursor();
        let ghost spec_regions = regions@.map_values(|r: Vec<u8>| r@);
        self.align_to(8);
        let ghost ev = EventModel { kind, timestamp, payload: spec_head, regions: spec_regions };
        let event = DecodedEvent { kind, timestamp, payload: head, regions };
        proof {
            assert(spec_decode_regions(data, region_end, spec_head, Seq::<u32>::empty()) == Some(
                (Seq::<Seq<u8>>::empty(), region_end),
            ));
            assert(spec_regions + Seq::<Seq<u8>>::empty() =~= spec_regions);
            assert(spec_decode_regions(data, pos_head, spec_head, spec_offs) == Some(
                (spec_regions, region_end),
            ));
            assert(event@ == ev);
            assert(spec_decode_events(data, pos0) == seq![ev] + spec_decode_events(
                data,
                self.cursor(),
            ));
        }
        Some(event)
    }
}

/// Walks one stream and returns the events decoded before the first stop:
/// buffer exhaustion, a truncated header or payload, an oversized declared
/// length, or an unrecognized kind.  Decoding never reads past `data` and
/// never fails the caller; a malformed tail only shortens the result.
pub fn decode_stream(data: &[u8]) -> (events: Vec<DecodedEvent>)
    ensures
        events@.map_values(|e: DecodedEvent| e@) == spec_decode_stream(data@),
{
    let mut out: Vec<DecodedEvent> = Vec::new();
    let mut unpacker = EventUnpacker::new(data);
    let count = unpacker.read_count();
    if count.is_none() {
        proof {
            assert(out@.map_values(|e: DecodedEvent| e@) =~= spec_decode_stream(data@));
        }
        return out;
    }
    proof {
        assert(out@.map_values(|e: DecodedEvent| e@) =~= Seq::<EventModel>::empty());
        assert(Seq::<EventModel>::empty() + spec_decode_events(data@, 8) =~= spec_decode_events(
            data@,
            8,
        ));
    }
    while unpacker.remaining() >= 16
        invariant
            unpacker.wf(),
            unpacker.bytes() == data@,
            data@.len() >= 8,
            out@.map_values(|e: DecodedEvent| e@) + spec_decode_events(data@, unpacker.cursor())
                == spec_decode_events(data@, 8),
        decreases data@.len() - unpacker.cursor(),
    {
        let ghost done_before = out@.map_values(|e: DecodedEvent| e@);
        let event = match unpacker.read_event() {
            Some(event) => event,
            None => {
                proof {
                    assert(done_before + Seq::<EventModel>::empty() =~= done_before);
                    assert(out@.map_values(|e: DecodedEvent| e@) =~= spec_decode_stream(data@));
                }
                return out;
            },
        };
        let ghost ev = event@;
        out.push(event);
        proof {
            assert(out@.map_values(|e: DecodedEvent| e@) =~= done_before.push(ev));
            assert(done_before.push(ev) + spec_decode_events(data@, unpacker.cursor())
                =~= done_before + (seq![ev] + spec_decode_events(data@, unpacker.cursor())));
        }
    }
    proof {
        assert(spec_decode_events(data@, unpacker.cursor()) =~= Seq::<EventModel>::empty());
        assert(out@.map_values(|e: DecodedEvent| e@) + Seq::<EventModel>::empty() =~= out@
            .map_values(|e: DecodedEvent| e@));
    }
    out
}

} // verus!
