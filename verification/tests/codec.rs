//! End-to-end checks of the event channel codec: packing, decoding,
//! alignment, truncation, unknown kinds, and the channel multiplexer.

use event_channel::mux::ChannelError;
use event_channel::mux::ChannelInput;
use event_channel::mux::ChannelPacker;
use event_channel::mux::Channels;
use event_channel::mux::channel_code;
use event_channel::packer::CommandPacker;
use event_channel::registry::Events;
use event_channel::registry::event_code;
use event_channel::registry::event_from_code;
use event_channel::registry::get_payload_size;
use event_channel::registry::is_variable_kind;
use event_channel::unpacker::EventUnpacker;
use event_channel::unpacker::decode_stream;

fn move_payload(x: f64, y: f64) -> Vec<u8> {
    let mut payload = Vec::new();
    payload.extend_from_slice(&x.to_le_bytes());
    payload.extend_from_slice(&y.to_le_bytes());
    payload
}

#[test]
fn move_event_scenario() {
    // A fixed "move" event: kind 5, timestamp 1000, payload [1.0, 2.0] as
    // two 8-byte floats.  16-byte header + 16-byte payload = 32 bytes, no
    // padding needed.
    let payload = move_payload(1.0, 2.0);
    assert_eq!(event_code(Events::spriteMove), 5);
    assert_eq!(get_payload_size(Events::spriteMove), Some(16));

    let mut buf: Vec<u8> = Vec::new();
    buf.extend_from_slice(&5u32.to_le_bytes());
    buf.extend_from_slice(&1000u64.to_le_bytes());
    buf.extend_from_slice(&0u32.to_le_bytes());
    buf.extend_from_slice(&payload);
    assert_eq!(buf.len(), 32);

    // Decoding that exact 32-byte buffer yields one event with kind 5 and
    // payload [1.0, 2.0].
    let mut unpacker = EventUnpacker::new(&buf);
    let (code, timestamp) = unpacker.read_event_header().unwrap();
    assert_eq!(code, 5);
    assert_eq!(timestamp, 1000);
    assert_eq!(event_from_code(code), Some(Events::spriteMove));
    let decoded = unpacker.read_payload(16).unwrap();
    assert_eq!(decoded, payload);
    assert_eq!(unpacker.position(), 32);
    let x = f64::from_le_bytes(decoded[0..8].try_into().unwrap());
    let y = f64::from_le_bytes(decoded[8..16].try_into().unwrap());
    assert_eq!(x, 1.0);
    assert_eq!(y, 2.0);
}

#[test]
fn move_event_packed_stream() {
    let payload = move_payload(1.0, 2.0);
    let mut packer = CommandPacker::new();
    packer.pack(Events::spriteMove, 1000, &payload);
    assert_eq!(packer.command_count(), 1);
    let stream = packer.finalize();
    // 8-byte count prefix, then the 32-byte event.
    assert_eq!(stream.len(), 40);
    assert_eq!(&stream[0..4], &1u32.to_le_bytes());
    assert_eq!(&stream[4..8], &[0, 0, 0, 0]);
    assert_eq!(&stream[8..12], &5u32.to_le_bytes());
    let events = decode_stream(&stream);
    assert_eq!(events.len(), 1);
    assert_eq!(events[0].kind, Events::spriteMove);
    assert_eq!(events[0].timestamp, 1000);
    assert_eq!(events[0].payload, payload);
    assert!(events[0].regions.is_empty());
}

#[test]
fn fixed_events_roundtrip_in_order() {
    let mut packer = CommandPacker::new();
    let p1 = move_payload(1.0, 2.0);
    let p2 = move_payload(-3.5, 0.25);
    let mut p3 = Vec::new();
    p3.extend_from_slice(&640i32.to_le_bytes());
    p3.extend_from_slice(&480i32.to_le_bytes());
    packer.pack(Events::spriteMove, 10, &p1);
    packer.pack(Events::spriteMove, 11, &p2);
    packer.pack(Events::windowResize, 12, &p3);
    assert_eq!(packer.command_count(), 3);
    let stream = packer.finalize();
    let events = decode_stream(&stream);
    assert_eq!(events.len(), 3);
    assert_eq!(events[0].kind, Events::spriteMove);
    assert_eq!(events[0].timestamp, 10);
    assert_eq!(events[0].payload, p1);
    assert_eq!(events[1].kind, Events::spriteMove);
    assert_eq!(events[1].timestamp, 11);
    assert_eq!(events[1].payload, p2);
    assert_eq!(events[2].kind, Events::windowResize);
    assert_eq!(events[2].timestamp, 12);
    assert_eq!(events[2].payload, p3);
}

#[test]
fn packed_streams_stay_aligned() {
    // After every event the write offset is a multiple of 8, also for
    // payload sizes that are not themselves multiples of 8 on the wire
    // (every region is padded independently).
    let mut packer = CommandPacker::new();
    let mut head = Vec::new();
    head.extend_from_slice(&3u32.to_le_bytes());
    head.extend_from_slice(&0u32.to_le_bytes());
    let regions = vec![b"abc".to_vec()];
    packer.pack_variable(Events::audioLoad, 1, &head, &regions);
    let after_one = packer.finalize();
    assert_eq!(after_one.len() % 8, 0);
    packer.pack(Events::spriteMove, 2, &move_payload(0.0, 0.0));
    let after_two = packer.finalize();
    assert_eq!(after_two.len() % 8, 0);
    // the first finalize is repeatable and did not disturb the packer
    assert_eq!(&after_two[8..8 + after_one.len() - 8], &after_one[8..]);
}

#[test]
fn variable_field_scenario() {
    // A variable-length event whose 4-byte length field declares len=5
    // with string bytes "hello": 3 bytes of padding follow, and decoding
    // skips exactly 8 bytes for the field.
    let mut head = Vec::new();
    head.extend_from_slice(&5u32.to_le_bytes());
    head.extend_from_slice(&0u32.to_le_bytes());
    let regions = vec![b"hello".to_vec()];
    let mut packer = CommandPacker::new();
    packer.pack_variable(Events::audioLoad, 7, &head, &regions);
    let stream = packer.finalize();
    // 8 count + 16 header + 8 payload header + 5 bytes + 3 padding
    assert_eq!(stream.len(), 8 + 16 + 8 + 8);
    assert_eq!(&stream[32..37], b"hello");
    assert_eq!(&stream[37..40], &[0, 0, 0]);
    let events = decode_stream(&stream);
    assert_eq!(events.len(), 1);
    assert_eq!(events[0].kind, Events::audioLoad);
    assert_eq!(events[0].regions.len(), 1);
    assert_eq!(events[0].regions[0], b"hello".to_vec());

    // cursor-level: skipping the declared field advances exactly 8 bytes
    let field = vec![b'h', b'e', b'l', b'l', b'o', 0, 0, 0];
    let mut unpacker = EventUnpacker::new(&field);
    assert!(unpacker.skip_string_aligned(5));
    assert_eq!(unpacker.position(), 8);
}

#[test]
fn texture_load_roundtrip() {
    let mut packer = CommandPacker::new();
    packer.pack_sprite_texture_load(41, 0, 99, b"assets/wabbit_alpha.png");
    let stream = packer.finalize();
    let events = decode_stream(&stream);
    assert_eq!(events.len(), 1);
    assert_eq!(events[0].kind, Events::spriteTextureLoad);
    assert_eq!(events[0].timestamp, 99);
    assert_eq!(&events[0].payload[0..8], &41u64.to_le_bytes());
    assert_eq!(&events[0].payload[16..20], &23u32.to_le_bytes());
    assert_eq!(events[0].regions.len(), 1);
    assert_eq!(events[0].regions[0], b"assets/wabbit_alpha.png".to_vec());
}

#[test]
fn two_region_event_roundtrip() {
    // textAdd carries a font path and a text string, padded in field
    // order.
    let font = b"fonts/main.ttf".to_vec();
    let text = b"hi".to_vec();
    let mut head = Vec::new();
    head.extend_from_slice(&7u64.to_le_bytes());
    head.extend_from_slice(&0u64.to_le_bytes());
    head.extend_from_slice(&(font.len() as u32).to_le_bytes());
    head.extend_from_slice(&(text.len() as u32).to_le_bytes());
    let regions = vec![font.clone(), text.clone()];
    let mut packer = CommandPacker::new();
    packer.pack_variable(Events::textAdd, 3, &head, &regions);
    let stream = packer.finalize();
    // 8 count + 16 header + 24 payload header + 16 (14+2 pad) + 8 (2+6 pad)
    assert_eq!(stream.len(), 8 + 16 + 24 + 16 + 8);
    let events = decode_stream(&stream);
    assert_eq!(events.len(), 1);
    assert_eq!(events[0].kind, Events::textAdd);
    assert_eq!(events[0].regions, vec![font, text]);
}

#[test]
fn truncation_yields_prefix_at_every_offset() {
    let mut packer = CommandPacker::new();
    packer.pack(Events::spriteMove, 1, &move_payload(1.0, 2.0));
    packer.pack_sprite_texture_load(5, 6, 2, b"hello");
    let mut remove_payload = Vec::new();
    remove_payload.extend_from_slice(&9u64.to_le_bytes());
    remove_payload.extend_from_slice(&0u64.to_le_bytes());
    packer.pack(Events::spriteRemove, 3, &remove_payload);
    let stream = packer.finalize();
    let full = decode_stream(&stream);
    assert_eq!(full.len(), 3);
    for k in 0..=stream.len() {
        let events = decode_stream(&stream[..k]);
        assert!(events.len() <= full.len());
        for (i, event) in events.iter().enumerate() {
            assert_eq!(event.kind, full[i].kind);
            assert_eq!(event.timestamp, full[i].timestamp);
            assert_eq!(event.payload, full[i].payload);
            assert_eq!(event.regions, full[i].regions);
        }
    }
    // the whole buffer decodes to the whole sequence
    assert_eq!(decode_stream(&stream[..stream.len()]).len(), 3);
}

#[test]
fn unknown_kind_stops_cleanly() {
    let mut packer = CommandPacker::new();
    packer.pack(Events::spriteMove, 1, &move_payload(4.0, 8.0));
    let mut stream = packer.finalize();
    // a byte pattern that matches no known kind
    stream.extend_from_slice(&9999u32.to_le_bytes());
    stream.extend_from_slice(&77u64.to_le_bytes());
    stream.extend_from_slice(&0u32.to_le_bytes());
    stream.extend_from_slice(&[0xAB; 24]);
    let events = decode_stream(&stream);
    assert_eq!(events.len(), 1);
    assert_eq!(events[0].kind, Events::spriteMove);
    assert_eq!(events[0].timestamp, 1);
}

#[test]
fn count_prefix_is_advisory() {
    // a stream whose count says 9 but which holds one event still decodes
    // the one event: termination is buffer exhaustion
    let payload = move_payload(0.5, 0.5);
    let mut buf: Vec<u8> = Vec::new();
    buf.extend_from_slice(&9u32.to_le_bytes());
    buf.extend_from_slice(&[0, 0, 0, 0]);
    buf.extend_from_slice(&5u32.to_le_bytes());
    buf.extend_from_slice(&4u64.to_le_bytes());
    buf.extend_from_slice(&0u32.to_le_bytes());
    buf.extend_from_slice(&payload);
    let events = decode_stream(&buf);
    assert_eq!(events.len(), 1);
    assert_eq!(events[0].payload, payload);
}

#[test]
fn short_buffers_decode_to_nothing() {
    assert!(decode_stream(&[]).is_empty());
    assert!(decode_stream(&[1, 2, 3]).is_empty());
    // a count field with no events after it
    let mut buf: Vec<u8> = Vec::new();
    buf.extend_from_slice(&0u32.to_le_bytes());
    buf.extend_from_slice(&[0, 0, 0, 0]);
    assert!(decode_stream(&buf).is_empty());
}

#[test]
fn unpacker_reads_are_bounds_checked() {
    let data = [1u8, 2, 3, 4, 5, 6, 7, 8, 9, 10];
    let mut unpacker = EventUnpacker::new(&data);
    assert_eq!(unpacker.read_count(), Some(u32::from_le_bytes([1, 2, 3, 4])));
    assert_eq!(unpacker.position(), 8);
    assert_eq!(unpacker.remaining(), 2);
    // too few bytes: every failure leaves the cursor where it was
    assert_eq!(unpacker.read_event_header(), None);
    assert_eq!(unpacker.read_payload(3), None);
    assert!(!unpacker.skip(3));
    assert!(!unpacker.skip_string_aligned(3));
    assert_eq!(unpacker.position(), 8);
    assert!(unpacker.skip(2));
    assert_eq!(unpacker.remaining(), 0);
    // a second read_count on an exhausted buffer reports no data
    assert_eq!(unpacker.read_count(), None);
}

#[test]
fn align_to_clamps_at_the_end() {
    let data = [0u8; 11];
    let mut unpacker = EventUnpacker::new(&data);
    assert!(unpacker.skip(3));
    unpacker.align_to(8);
    assert_eq!(unpacker.position(), 8);
    unpacker.align_to(8);
    assert_eq!(unpacker.position(), 8);
    assert!(unpacker.skip(1));
    unpacker.align_to(8);
    // the next multiple of 8 lies past the end: the cursor stops there
    assert_eq!(unpacker.position(), 11);
}

#[test]
fn registry_knows_every_kind_and_no_more() {
    for code in 0..18u32 {
        let kind = event_from_code(code).unwrap();
        assert_eq!(event_code(kind), code);
        assert!(get_payload_size(kind).is_some());
    }
    assert_eq!(event_from_code(18), None);
    assert_eq!(event_from_code(9999), None);
    assert!(is_variable_kind(Events::spriteTextureLoad));
    assert!(is_variable_kind(Events::textAdd));
    assert!(!is_variable_kind(Events::spriteMove));
    assert_eq!(get_payload_size(Events::windowTitle), Some(256));
    assert_eq!(get_payload_size(Events::spriteAdd), Some(56));
}

#[test]
fn mux_split_identity() {
    let mut packer_a = CommandPacker::new();
    packer_a.pack(Events::spriteMove, 1, &move_payload(1.0, 1.0));
    let buf_a = packer_a.finalize();
    let buf_b = b"hello world".to_vec();
    let inputs = vec![
        ChannelInput { id: 1, data: buf_a.clone() },
        ChannelInput { id: 2, data: buf_b.clone() },
    ];
    let buffer = ChannelPacker::finalize(&inputs).unwrap();
    assert_eq!(buffer.len() % 8, 0);
    let split = ChannelPacker::split(&buffer);
    assert_eq!(split.len(), 2);
    assert_eq!(split[0].id, 1);
    assert_eq!(split[0].data, buf_a);
    assert_eq!(split[1].id, 2);
    assert_eq!(split[1].data, buf_b);
}

#[test]
fn mux_split_of_truncated_buffer_stops() {
    let inputs = vec![ChannelInput { id: 3, data: b"0123456789".to_vec() }];
    let buffer = ChannelPacker::finalize(&inputs).unwrap();
    // cut inside the declared stream: the frame is dropped, nothing fails
    let split = ChannelPacker::split(&buffer[..12]);
    assert!(split.is_empty());
    // cut inside the header
    let split = ChannelPacker::split(&buffer[..5]);
    assert!(split.is_empty());
}

#[test]
fn mux_preserves_producer_order() {
    let inputs = vec![
        ChannelInput { id: 7, data: vec![1, 2, 3] },
        ChannelInput { id: 7, data: vec![] },
        ChannelInput { id: 2, data: vec![9; 16] },
    ];
    let buffer = ChannelPacker::finalize(&inputs).unwrap();
    let split = ChannelPacker::split(&buffer);
    assert_eq!(split.len(), 3);
    assert_eq!(split[0].id, 7);
    assert_eq!(split[0].data, vec![1, 2, 3]);
    assert_eq!(split[1].id, 7);
    assert!(split[1].data.is_empty());
    assert_eq!(split[2].id, 2);
    assert_eq!(split[2].data, vec![9; 16]);
}

#[test]
fn channel_inputs_that_fit_are_accepted() {
    // every length the u32 field can say is accepted; the refusal error
    // exists only for streams past 4 GiB, too large to build here
    let inputs = vec![ChannelInput { id: 1, data: vec![0u8; 4096] }];
    let result: Result<Vec<u8>, ChannelError> = ChannelPacker::finalize(&inputs);
    assert!(result.is_ok());
}

#[test]
fn channel_codes_are_fixed() {
    assert_eq!(channel_code(Channels::renderer), 1);
    assert_eq!(channel_code(Channels::window), 2);
}

#[test]
fn independent_packers_do_not_interact() {
    // no hidden global state: interleaved packers give the same streams
    // as isolated ones
    let mut first = CommandPacker::new();
    let mut second = CommandPacker::new();
    first.pack(Events::spriteMove, 1, &move_payload(1.0, 2.0));
    second.pack(Events::windowResize, 2, &[0u8; 8]);
    first.pack(Events::spriteMove, 3, &move_payload(3.0, 4.0));
    let mut alone = CommandPacker::new();
    alone.pack(Events::spriteMove, 1, &move_payload(1.0, 2.0));
    alone.pack(Events::spriteMove, 3, &move_payload(3.0, 4.0));
    assert_eq!(first.finalize(), alone.finalize());
    assert_eq!(second.command_count(), 1);
}
