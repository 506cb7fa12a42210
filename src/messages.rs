//! Typed MIDI messages carried by Universal MIDI Packets, and the bit layout
//! from which they are read.

use vstd::prelude::*;

use crate::decoder::Error;

verus! {

/// Message type nibble (bits 31..28) of a packet's first word.
pub open spec fn mtype_of(w: u32) -> u8 {
    ((w >> 28u32) & 0xfu32) as u8
}

/// Group nibble (bits 27..24) of a packet's first word.
pub open spec fn group_of(w: u32) -> u8 {
    ((w >> 24u32) & 0xfu32) as u8
}

/// Status nibble (bits 23..20).
pub open spec fn status_of(w: u32) -> u8 {
    ((w >> 20u32) & 0xfu32) as u8
}

/// Channel nibble (bits 19..16).
pub open spec fn channel_of(w: u32) -> u8 {
    ((w >> 16u32) & 0xfu32) as u8
}

/// Seven-bit data value held in bits 14..8.
pub open spec fn data1_of(w: u32) -> u8 {
    ((w >> 8u32) & 0x7fu32) as u8
}

/// Seven-bit data value held in bits 6..0.
pub open spec fn data2_of(w: u32) -> u8 {
    (w & 0x7fu32) as u8
}

/// Full byte held in bits 7..0.
pub open spec fn low_byte_of(w: u32) -> u8 {
    (w & 0xffu32) as u8
}

/// Upper half-word (bits 31..16).
pub open spec fn high_half_of(w: u32) -> u16 {
    (w >> 16u32) as u16
}

/// Lower half-word (bits 15..0).
pub open spec fn low_half_of(w: u32) -> u16 {
    (w & 0xffffu32) as u16
}

pub fn mtype_of_word(w: u32) -> (r: u8)
    ensures
        r == mtype_of(w),
{
    ((w >> 28u32) & 0xfu32) as u8
}

pub fn group_of_word(w: u32) -> (r: u8)
    ensures
        r == group_of(w),
{
    ((w >> 24u32) & 0xfu32) as u8
}

fn status_of_word(w: u32) -> (r: u8)
    ensures
        r == status_of(w),
{
    ((w >> 20u32) & 0xfu32) as u8
}

fn channel_of_word(w: u32) -> (r: u8)
    ensures
        r == channel_of(w),
{
    ((w >> 16u32) & 0xfu32) as u8
}

fn data1_of_word(w: u32) -> (r: u8)
    ensures
        r == data1_of(w),
{
    ((w >> 8u32) & 0x7fu32) as u8
}

fn data2_of_word(w: u32) -> (r: u8)
    ensures
        r == data2_of(w),
{
    (w & 0x7fu32) as u8
}

fn low_byte_of_word(w: u32) -> (r: u8)
    ensures
        r == low_byte_of(w),
{
    (w & 0xffu32) as u8
}

fn high_half_of_word(w: u32) -> (r: u16)
    ensures
        r == high_half_of(w),
{
    (w >> 16u32) as u16
}

fn low_half_of_word(w: u32) -> (r: u16)
    ensures
        r == low_half_of(w),
{
    (w & 0xffffu32) as u16
}

/// A decoded message together with the group it arrived on.
#[derive(Debug, Clone, Copy, PartialEq, Eq, Structural)]
pub struct Message {
    pub group: u8,
    pub mtype: MessageType,
}

#[derive(Debug, Clone, Copy, PartialEq, Eq, Structural)]
#[allow(inconsistent_fields)]
pub enum MessageType {
    Utility(Utility),
    ChannelVoice(ChannelVoice),
    ChannelVoice1(ChannelVoice1),
}

/// Utility messages (message type 0x0).
#[derive(Debug, Clone, Copy, PartialEq, Eq, Structural)]
#[allow(inconsistent_fields)]
pub enum Utility {
    Noop,
    JitterReductionClock { time: u16 },
    JitterReductionTimestamp { timestamp: u16 },
}

/// MIDI 1.0 channel voice message (message type 0x2).
#[derive(Debug, Clone, Copy, PartialEq, Eq, Structural)]
pub struct ChannelVoice1 {
    pub channel: u8,
    pub message: ChannelVoice1Message,
}

#[derive(Debug, Clone, Copy, PartialEq, Eq, Structural)]
#[allow(inconsistent_fields)]
pub enum ChannelVoice1Message {
    NoteOff { note: u8, velocity: u8 },
    NoteOn { note: u8, velocity: u8 },
    PolyPressure { note: u8, pressure: u8 },
    ControlChange { control: u8, value: u8 },
    ProgramChange { program: u8 },
    ChannelPressure { pressure: u8 },
    PitchBend { value: u16 },
}

/// MIDI 2.0 channel voice message (message type 0x4).
#[derive(Debug, Clone, Copy, PartialEq, Eq, Structural)]
pub struct ChannelVoice {
    pub channel: u8,
    pub message: ChanelVoiceMessage,
}

#[derive(Debug, Clone, Copy, PartialEq, Eq, Structural)]
#[allow(inconsistent_fields)]
pub enum ChanelVoiceMessage {
    RegisteredPerNoteController { note: u8, index: u8, data: u32 },
    AssignablePerNoteController { note: u8, index: u8, data: u32 },
    RegisteredController { bank: u8, index: u8, data: u32 },
    AssignableController { bank: u8, index: u8, data: u32 },
    RelativeRegisteredController { bank: u8, index: u8, data: u32 },
    RelativeAssignableController { bank: u8, index: u8, data: u32 },
    PerNotePitchBend { note: u8, data: u32 },
    NoteOff { note: u8, velocity: u16, attr_type: u8, attr_data: u16 },
    NoteOn { note: u8, velocity: u16, attr_type: u8, attr_data: u16 },
    PolyPressure { note: u8, data: u32 },
    ControlChange { index: u8, data: u32 },
    ProgramChange { options: u8, program: u8, bank_msb: u8, bank_lsb: u8 },
    ChannelPressure { data: u32 },
    PitchBend { data: u32 },
    PerNoteManagement { note: u8, options: u8 },
}

/// The utility message a one-word packet carries; `None` for a status that
/// the protocol leaves reserved.
pub open spec fn utility_spec(w: u32) -> Option<Utility> {
    let status = status_of(w);
    if status == 0 {
        Some(Utility::Noop)
    } else if status == 1 {
        Some(Utility::JitterReductionClock { time: low_half_of(w) })
    } else if status == 2 {
        Some(Utility::JitterReductionTimestamp { timestamp: low_half_of(w) })
    } else {
        None
    }
}

/// The MIDI 1.0 channel voice message a one-word packet carries; `None` where
/// the status nibble is not a channel voice status.
pub open spec fn channel_voice1_spec(w: u32) -> Option<ChannelVoice1> {
    let status = status_of(w);
    let a = data1_of(w);
    let b = data2_of(w);
    let message = if status == 0x8 {
        Some(ChannelVoice1Message::NoteOff { note: a, velocity: b })
    } else if status == 0x9 {
        Some(ChannelVoice1Message::NoteOn { note: a, velocity: b })
    } else if status == 0xa {
        Some(ChannelVoice1Message::PolyPressure { note: a, pressure: b })
    } else if status == 0xb {
        Some(ChannelVoice1Message::ControlChange { control: a, value: b })
    } else if status == 0xc {
        Some(ChannelVoice1Message::ProgramChange { program: a })
    } else if status == 0xd {
        Some(ChannelVoice1Message::ChannelPressure { pressure: a })
    } else if status == 0xe {
        Some(ChannelVoice1Message::PitchBend { value: ((b as u16) << 7u16) | (a as u16) })
    } else {
        None
    };
    match message {
        Some(m) => Some(ChannelVoice1 { channel: channel_of(w), message: m }),
        None => None,
    }
}

/// The MIDI 2.0 channel voice message a two-word packet carries; `None` for
/// the reserved status 0x7.
pub open spec fn channel_voice_spec(w0: u32, w1: u32) -> Option<ChannelVoice> {
    let status = status_of(w0);
    let a = data1_of(w0);
    let b = data2_of(w0);
    let message = if status == 0x0 {
        Some(ChanelVoiceMessage::RegisteredPerNoteController { note: a, index: low_byte_of(w0), data: w1 })
    } else if status == 0x1 {
        Some(ChanelVoiceMessage::AssignablePerNoteController { note: a, index: low_byte_of(w0), data: w1 })
    } else if status == 0x2 {
        Some(ChanelVoiceMessage::RegisteredController { bank: a, index: b, data: w1 })
    } else if status == 0x3 {
        Some(ChanelVoiceMessage::AssignableController { bank: a, index: b, data: w1 })
    } else if status == 0x4 {
        Some(ChanelVoiceMessage::RelativeRegisteredController { bank: a, index: b, data: w1 })
    } else if status == 0x5 {
        Some(ChanelVoiceMessage::RelativeAssignableController { bank: a, index: b, data: w1 })
    } else if status == 0x6 {
        Some(ChanelVoiceMessage::PerNotePitchBend { note: a, data: w1 })
    } else if status == 0x8 {
        Some(ChanelVoiceMessage::NoteOff {
            note: a,
            velocity: high_half_of(w1),
            attr_type: low_byte_of(w0),
            attr_data: low_half_of(w1),
        })
    } else if status == 0x9 {
        Some(ChanelVoiceMessage::NoteOn {
            note: a,
            velocity: high_half_of(w1),
            attr_type: low_byte_of(w0),
            attr_data: low_half_of(w1),
        })
    } else if status == 0xa {
        Some(ChanelVoiceMessage::PolyPressure { note: a, data: w1 })
    } else if status == 0xb {
        Some(ChanelVoiceMessage::ControlChange { index: a, data: w1 })
    } else if status == 0xc {
        Some(ChanelVoiceMessage::ProgramChange {
            options: low_byte_of(w0),
            program: ((w1 >> 24u32) & 0x7fu32) as u8,
            bank_msb: data1_of(w1),
            bank_lsb: data2_of(w1),
        })
    } else if status == 0xd {
        Some(ChanelVoiceMessage::ChannelPressure { data: w1 })
    } else if status == 0xe {
        Some(ChanelVoiceMessage::PitchBend { data: w1 })
    } else if status == 0xf {
        Some(ChanelVoiceMessage::PerNoteManagement { note: a, options: low_byte_of(w0) })
    } else {
        None
    };
    match message {
        Some(m) => Some(ChannelVoice { channel: channel_of(w0), message: m }),
        None => None,
    }
}

/// The outcome of a type-specific decode of a word slice that must hold
/// exactly `len` words.
pub open spec fn decoded<T>(words: Seq<u32>, len: nat, value: Option<T>) -> Result<T, Error> {
    if words.len() != len {
        Err(Error::InvalidLength)
    } else {
        match value {
            Some(v) => Ok(v),
            None => Err(Error::Reserved),
        }
    }
}

impl Utility {
    /// Decodes a one-word utility packet.
    pub fn decode(words: &[u32]) -> (r: Result<Utility, Error>)
        ensures
            r == decoded(words@, 1, if words@.len() == 1 { utility_spec(words@[0]) } else { None }),
    {
        if words.len() != 1 {
            return Err(Error::InvalidLength);
        }
        let w = words[0];
        let status = status_of_word(w);
        if status == 0 {
            Ok(Utility::Noop)
        } else if status == 1 {
            Ok(Utility::JitterReductionClock { time: low_half_of_word(w) })
        } else if status == 2 {
            Ok(Utility::JitterReductionTimestamp { timestamp: low_half_of_word(w) })
        } else {
            Err(Error::Reserved)
        }
    }
}

impl ChannelVoice1 {
    /// Decodes a one-word MIDI 1.0 channel voice packet.
    pub fn decode(words: &[u32]) -> (r: Result<ChannelVoice1, Error>)
        ensures
            r == decoded(words@, 1, if words@.len() == 1 { channel_voice1_spec(words@[0]) } else { None }),
    {
        if words.len() != 1 {
            return Err(Error::InvalidLength);
        }
        let w = words[0];
        let status = status_of_word(w);
        let a = data1_of_word(w);
        let b = data2_of_word(w);
        let message = if status == 0x8 {
            ChannelVoice1Message::NoteOff { note: a, velocity: b }
        } else if status == 0x9 {
            ChannelVoice1Message::NoteOn { note: a, velocity: b }
        } else if status == 0xa {
            ChannelVoice1Message::PolyPressure { note: a, pressure: b }
        } else if status == 0xb {
            ChannelVoice1Message::ControlChange { control: a, value: b }
        } else if status == 0xc {
            ChannelVoice1Message::ProgramChange { program: a }
        } else if status == 0xd {
            ChannelVoice1Message::ChannelPressure { pressure: a }
        } else if status == 0xe {
            ChannelVoice1Message::PitchBend { value: ((b as u16) << 7u16) | (a as u16) }
        } else {
            return Err(Error::Reserved);
        };
        Ok(ChannelVoice1 { channel: channel_of_word(w), message })
    }
}

impl ChannelVoice {
    /// Decodes a two-word MIDI 2.0 channel voice packet.
    pub fn decode(words: &[u32]) -> (r: Result<ChannelVoice, Error>)
        ensures
            r == decoded(words@, 2, if words@.len() == 2 { channel_voice_spec(words@[0], words@[1]) } else { None }),
    {
        if words.len() != 2 {
            return Err(Error::InvalidLength);
        }
        let w0 = words[0];
        let w1 = words[1];
        let status = status_of_word(w0);
        let a = data1_of_word(w0);
        let b = data2_of_word(w0);
        let message = if status == 0x0 {
            ChanelVoiceMessage::RegisteredPerNoteController { note: a, index: low_byte_of_word(w0), data: w1 }
        } else if status == 0x1 {
            ChanelVoiceMessage::AssignablePerNoteController { note: a, index: low_byte_of_word(w0), data: w1 }
        } else if status == 0x2 {
            ChanelVoiceMessage::RegisteredController { bank: a, index: b, data: w1 }
        } else if status == 0x3 {
            ChanelVoiceMessage::AssignableController { bank: a, index: b, data: w1 }
        } else if status == 0x4 {
            ChanelVoiceMessage::RelativeRegisteredController { bank: a, index: b, data: w1 }
        } else if status == 0x5 {
            ChanelVoiceMessage::RelativeAssignableController { bank: a, index: b, data: w1 }
        } else if status == 0x6 {
            ChanelVoiceMessage::PerNotePitchBend { note: a, data: w1 }
        } else if status == 0x8 {
            ChanelVoiceMessage::NoteOff {
                note: a,
                velocity: high_half_of_word(w1),
                attr_type: low_byte_of_word(w0),
                attr_data: low_half_of_word(w1),
            }
        } else if status == 0x9 {
            ChanelVoiceMessage::NoteOn {
                note: a,
                velocity: high_half_of_word(w1),
                attr_type: low_byte_of_word(w0),
                attr_data: low_half_of_word(w1),
            }
        } else if status == 0xa {
            ChanelVoiceMessage::PolyPressure { note: a, data: w1 }
        } else if status == 0xb {
            ChanelVoiceMessage::ControlChange { index: a, data: w1 }
        } else if status == 0xc {
            ChanelVoiceMessage::ProgramChange {
                options: low_byte_of_word(w0),
                program: ((w1 >> 24u32) & 0x7fu32) as u8,
                bank_msb: data1_of_word(w1),
                bank_lsb: data2_of_word(w1),
            }
        } else if status == 0xd {
            ChanelVoiceMessage::ChannelPressure { data: w1 }
        } else if status == 0xe {
            ChanelVoiceMessage::PitchBend { data: w1 }
        } else if status == 0xf {
            ChanelVoiceMessage::PerNoteManagement { note: a, options: low_byte_of_word(w0) }
        } else {
            return Err(Error::Reserved);
        };
        Ok(ChannelVoice { channel: channel_of_word(w0), message })
    }
}

} // verus!
