//! The event registry: the table of event kinds this build recognizes,
//! with the wire code and the payload layout of each.
//!
//! A fixed-size kind has a payload whose byte length is determined by the
//! kind alone.  A variable-length kind has a fixed payload header carrying
//! one or more `u32` length fields; each length field is followed (after the
//! header) by that many raw bytes, padded to the next 8-byte boundary.

use vstd::prelude::*;

verus! {

/// The event kinds this build recognizes, together with their wire codes
/// (see [`spec_event_code`]) and payload layouts (see
/// [`spec_payload_head_size`] and [`spec_length_offsets`]).
///
/// An unrecognized code on the wire decodes to no kind at all and stops the
/// stream; it is never mapped to a default.
#[allow(non_camel_case_types)]
#[derive(Copy, Clone, Debug, PartialEq, Eq, Structural)]
pub enum Events {
    spriteAdd,
    spriteRemove,
    spriteColor,
    spriteSpeed,
    spriteScale,
    spriteMove,
    windowResize,
    windowTitle,
    inputKeydown,
    inputKeyup,
    inputMousedown,
    inputMouseup,
    inputMousemotion,
    spriteTextureLoad,
    textSetString,
    textAdd,
    audioLoad,
    pluginLoad,
}

/// The `u32` code that stands for the kind in an event header on the wire.
pub open spec fn spec_event_code(e: Events) -> u32 {
    match e {
        Events::spriteAdd => 0,
        Events::spriteRemove => 1,
        Events::spriteColor => 2,
        Events::spriteSpeed => 3,
        Events::spriteScale => 4,
        Events::spriteMove => 5,
        Events::windowResize => 6,
        Events::windowTitle => 7,
        Events::inputKeydown => 8,
        Events::inputKeyup => 9,
        Events::inputMousedown => 10,
        Events::inputMouseup => 11,
        Events::inputMousemotion => 12,
        Events::spriteTextureLoad => 13,
        Events::textSetString => 14,
        Events::textAdd => 15,
        Events::audioLoad => 16,
        Events::pluginLoad => 17,
    }
}

/// The kind a wire code stands for, or `None` for a code this build does
/// not know.
pub open spec fn spec_event_from_code(code: u32) -> Option<Events> {
    if code == 0 {
        Some(Events::spriteAdd)
    } else if code == 1 {
        Some(Events::spriteRemove)
    } else if code == 2 {
        Some(Events::spriteColor)
    } else if code == 3 {
        Some(Events::spriteSpeed)
    } else if code == 4 {
        Some(Events::spriteScale)
    } else if code == 5 {
        Some(Events::spriteMove)
    } else if code == 6 {
        Some(Events::windowResize)
    } else if code == 7 {
        Some(Events::windowTitle)
    } else if code == 8 {
        Some(Events::inputKeydown)
    } else if code == 9 {
        Some(Events::inputKeyup)
    } else if code == 10 {
        Some(Events::inputMousedown)
    } else if code == 11 {
        Some(Events::inputMouseup)
    } else if code == 12 {
        Some(Events::inputMousemotion)
    } else if code == 13 {
        Some(Events::spriteTextureLoad)
    } else if code == 14 {
        Some(Events::textSetString)
    } else if code == 15 {
        Some(Events::textAdd)
    } else if code == 16 {
        Some(Events::audioLoad)
    } else if code == 17 {
        Some(Events::pluginLoad)
    } else {
        None
    }
}

/// Whether the kind's payload is variable-length: a fixed header carrying
/// length fields, followed by that many raw bytes per field.
pub open spec fn spec_is_variable(e: Events) -> bool {
    match e {
        Events::spriteTextureLoad => true,
        Events::textSetString => true,
        Events::textAdd => true,
        Events::audioLoad => true,
        Events::pluginLoad => true,
        _ => false,
    }
}

/// The byte size of the fixed part of the kind's payload: the whole payload
/// for a fixed-size kind, the payload header for a variable-length kind.
pub open spec fn spec_payload_head_size(e: Events) -> u32 {
    match e {
        Events::spriteAdd => 56,
        Events::spriteRemove => 16,
        Events::spriteColor => 24,
        Events::spriteSpeed => 32,
        Events::spriteScale => 32,
        Events::spriteMove => 16,
        Events::windowResize => 8,
        Events::windowTitle => 256,
        Events::inputKeydown => 8,
        Events::inputKeyup => 8,
        Events::inputMousedown => 8,
        Events::inputMouseup => 8,
        Events::inputMousemotion => 8,
        Events::spriteTextureLoad => 24,
        Events::textSetString => 24,
        Events::textAdd => 24,
        Events::audioLoad => 8,
        Events::pluginLoad => 8,
    }
}

/// The byte offsets, within a variable-length kind's payload header, of its
/// `u32` length fields, in the order the byte regions they describe follow
/// the header.  Empty for fixed-size kinds.
pub open spec fn spec_length_offsets(e: Events) -> Seq<u32> {
    match e {
        Events::spriteTextureLoad => seq![16u32],
        Events::textSetString => seq![16u32],
        Events::textAdd => seq![16u32, 20u32],
        Events::audioLoad => seq![0u32],
        Events::pluginLoad => seq![0u32],
        _ => Seq::empty(),
    }
}

/// The wire code of a kind.
pub fn event_code(e: Events) -> (code: u32)
    ensures
        code == spec_event_code(e),
{
    match e {
        Events::spriteAdd => 0,
        Events::spriteRemove => 1,
        Events::spriteColor => 2,
        Events::spriteSpeed => 3,
        Events::spriteScale => 4,
        Events::spriteMove => 5,
        Events::windowResize => 6,
        Events::windowTitle => 7,
        Events::inputKeydown => 8,
        Events::inputKeyup => 9,
        Events::inputMousedown => 10,
        Events::inputMouseup => 11,
        Events::inputMousemotion => 12,
        Events::spriteTextureLoad => 13,
        Events::textSetString => 14,
        Events::textAdd => 15,
        Events::audioLoad => 16,
        Events::pluginLoad => 17,
    }
}

/// The kind a wire code stands for; `None` marks an unrecognized code, which
/// a decoder must treat as a reason to stop its stream.
pub fn event_from_code(code: u32) -> (e: Option<Events>)
    ensures
        e == spec_event_from_code(code),
{
    if code == 0 {
        Some(Events::spriteAdd)
    } else if code == 1 {
        Some(Events::spriteRemove)
    } else if code == 2 {
        Some(Events::spriteColor)
    } else if code == 3 {
        Some(Events::spriteSpeed)
    } else if code == 4 {
        Some(Events::spriteScale)
    } else if code == 5 {
        Some(Events::spriteMove)
    } else if code == 6 {
        Some(Events::windowResize)
    } else if code == 7 {
        Some(Events::windowTitle)
    } else if code == 8 {
        Some(Events::inputKeydown)
    } else if code == 9 {
        Some(Events::inputKeyup)
    } else if code == 10 {
        Some(Events::inputMousedown)
    } else if code == 11 {
        Some(Events::inputMouseup)
    } else if code == 12 {
        Some(Events::inputMousemotion)
    } else if code == 13 {
        Some(Events::spriteTextureLoad)
    } else if code == 14 {
        Some(Events::textSetString)
    } else if code == 15 {
        Some(Events::textAdd)
    } else if code == 16 {
        Some(Events::audioLoad)
    } else if code == 17 {
        Some(Events::pluginLoad)
    } else {
        None
    }
}

/// Whether the kind's payload is variable-length.
pub fn is_variable_kind(e: Events) -> (variable: bool)
    ensures
        variable == spec_is_variable(e),
{
    match e {
        Events::spriteTextureLoad => true,
        Events::textSetString => true,
        Events::textAdd => true,
        Events::audioLoad => true,
        Events::pluginLoad => true,
        _ => false,
    }
}

/// The size of the fixed part of the kind's payload, as
/// [`spec_payload_head_size`] gives it.  Every kind of this build has a
/// known size, so the result is always `Some`; a decoder that reached an
/// unrecognized wire code never obtains an `Events` value to ask about.
pub fn get_payload_size(event: Events) -> (size: Option<u32>)
    ensures
        size == Some(spec_payload_head_size(event)),
{
    Some(
        match event {
            Events::spriteAdd => 56,
            Events::spriteRemove => 16,
            Events::spriteColor => 24,
            Events::spriteSpeed => 32,
            Events::spriteScale => 32,
            Events::spriteMove => 16,
            Events::windowResize => 8,
            Events::windowTitle => 256,
            Events::inputKeydown => 8,
            Events::inputKeyup => 8,
            Events::inputMousedown => 8,
            Events::inputMouseup => 8,
            Events::inputMousemotion => 8,
            Events::spriteTextureLoad => 24,
            Events::textSetString => 24,
            Events::textAdd => 24,
            Events::audioLoad => 8,
            Events::pluginLoad => 8,
        },
    )
}

/// The length-field offsets of a variable-length kind's payload header.
pub fn length_offsets(e: Events) -> (offs: Vec<u32>)
    ensures
        offs@ == spec_length_offsets(e),
{
    let mut offs: Vec<u32> = Vec::new();
    match e {
        Events::spriteTextureLoad => {
            offs.push(16);
        }
        Events::textSetString => {
            offs.push(16);
        }
        Events::textAdd => {
            offs.push(16);
            offs.push(20);
        }
        Events::audioLoad => {
            offs.push(0);
        }
        Events::pluginLoad => {
            offs.push(0);
        }
        _ => {}
    }
    proof {
        assert(offs@ =~= spec_length_offsets(e));
    }
    offs
}

/// A wire code maps back to the kind it was made from: the registry never
/// confuses two kinds.
pub proof fn lemma_event_code_roundtrip(e: Events)
    ensures
        spec_event_from_code(spec_event_code(e)) == Some(e),
{
}

/// A fixed-size kind has no length fields.
pub proof fn lemma_fixed_no_offsets(e: Events)
    requires
        !spec_is_variable(e),
    ensures
        spec_length_offsets(e).len() == 0,
{
}

/// The payload header of a variable-length kind is itself 8-byte aligned,
/// and every length field lies wholly inside it.
pub proof fn lemma_variable_layout(e: Events)
    requires
        spec_is_variable(e),
    ensures
        spec_payload_head_size(e) % 8 == 0,
        forall|i: int|
            0 <= i < spec_length_offsets(e).len() ==> #[trigger] spec_length_offsets(e)[i] + 4
                <= spec_payload_head_size(e),
{
}

} // verus!
