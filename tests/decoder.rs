use kiro_midi::decoder::{DecoderProtocol, DecoderProtocol1, DecoderProtocol2, Error};
use kiro_midi::filter::Filter;
use kiro_midi::messages::{
    ChanelVoiceMessage, ChannelVoice, ChannelVoice1, ChannelVoice1Message, Message, MessageType,
    Utility,
};

fn note_on_group_1() -> Message {
    Message {
        group: 1,
        mtype: MessageType::ChannelVoice(ChannelVoice {
            channel: 2,
            message: ChanelVoiceMessage::NoteOn {
                note: 0x3c,
                velocity: 0xabcd,
                attr_type: 0,
                attr_data: 0,
            },
        }),
    }
}

#[test]
fn first_word_does_not_emit() {
    let filter = Filter::new();
    let mut decoder = DecoderProtocol2::default();

    let result = decoder.next(0x40903c00, &filter);

    assert!(matches!(result, Ok(None)), "Unexpected result: {:?}", result);
}

#[test]
fn last_word_emits() {
    let filter = Filter::new();
    let mut decoder = DecoderProtocol2::default();

    let _ = decoder.next(0x41923c00, &filter);
    let result = decoder.next(0xabcd0000, &filter);
    assert!(
        matches!(&result, Ok(Some(message)) if message == &note_on_group_1()),
        "Unexpected result: {:?}",
        result
    );
}

#[test]
fn two_messages_are_emitted() {
    let filter = Filter::new();
    let mut decoder = DecoderProtocol2::default();

    let _ = decoder.next(0x41923c00, &filter);
    let result = decoder.next(0xabcd0000, &filter);
    assert!(matches!(&result, Ok(Some(_))), "Unexpected result: {:?}", result);
    let _ = decoder.next(0x43853d00, &filter);
    let result = decoder.next(0x12340000, &filter);
    assert!(
        matches!(&result, Ok(Some(message)) if message == &Message {
            group: 3,
            mtype: MessageType::ChannelVoice(ChannelVoice {
                channel: 5,
                message: ChanelVoiceMessage::NoteOff {
                    note: 0x3d,
                    velocity: 0x1234,
                    attr_type: 0,
                    attr_data: 0,
                }
            })
        }),
        "Unexpected result: {:?}",
        result
    );
}

/// Feeds a packet of `len` words of message type `mtype` and checks that a
/// note-on that follows it decodes, which it does only if the packet took
/// exactly `len` words.
fn packet_then_note_on(mtype: u32, len: usize) {
    let filter = Filter::new();
    let mut decoder = DecoderProtocol2::new();
    let first = mtype << 28;
    for i in 0..len {
        let word = if i == 0 { first } else { 0x41923c00 };
        assert_eq!(decoder.next(word, &filter), Ok(None), "mtype {:x} word {}", mtype, i);
    }
    assert_eq!(decoder.next(0x41923c00, &filter), Ok(None));
    assert_eq!(decoder.next(0xabcd0000, &filter), Ok(Some(note_on_group_1())));
}

#[test]
fn word_count_follows_message_type() {
    packet_then_note_on(0x1, 1);
    packet_then_note_on(0x2, 1);
    packet_then_note_on(0x3, 2);
    packet_then_note_on(0x5, 4);
    for mtype in 0x6..=0xf {
        packet_then_note_on(mtype, 1);
    }
}

#[test]
fn utility_messages_take_one_word() {
    let filter = Filter::new();
    let mut decoder = DecoderProtocol2::new();
    assert_eq!(
        decoder.next(0x08000000, &filter),
        Ok(Some(Message { group: 8, mtype: MessageType::Utility(Utility::Noop) }))
    );
    assert_eq!(
        decoder.next(0x00101234, &filter),
        Ok(Some(Message {
            group: 0,
            mtype: MessageType::Utility(Utility::JitterReductionClock { time: 0x1234 })
        }))
    );
    assert_eq!(decoder.next(0x00f00000, &filter), Ok(None));
}

#[test]
fn rejected_group_consumes_whole_packet() {
    let filter = Filter::new().with_group(1, false);
    let mut decoder = DecoderProtocol2::new();
    assert_eq!(decoder.next(0x41923c00, &filter), Ok(None));
    assert_eq!(decoder.next(0xabcd0000, &filter), Ok(None));
    assert_eq!(decoder.next(0x43853d00, &filter), Ok(None));
    assert!(matches!(decoder.next(0x12340000, &filter), Ok(Some(m)) if m.group == 3));
}

#[test]
fn rejected_message_type_and_channel_give_nothing() {
    let mut decoder = DecoderProtocol2::new();
    let no_mtype = Filter::new().with_mtype(4, false);
    assert_eq!(decoder.next(0x41923c00, &no_mtype), Ok(None));
    assert_eq!(decoder.next(0xabcd0000, &no_mtype), Ok(None));
    let no_channel = Filter::new().with_channel(1, 2, false);
    assert_eq!(decoder.next(0x41923c00, &no_channel), Ok(None));
    assert_eq!(decoder.next(0xabcd0000, &no_channel), Ok(None));
    let other_channel = Filter::new().with_channel(1, 3, false);
    assert_eq!(decoder.next(0x41923c00, &other_channel), Ok(None));
    assert_eq!(decoder.next(0xabcd0000, &other_channel), Ok(Some(note_on_group_1())));
}

#[test]
fn reset_drops_a_partial_packet() {
    let filter = Filter::new();
    let mut decoder = DecoderProtocol2::new();
    assert_eq!(decoder.next(0x41923c00, &filter), Ok(None));
    decoder.reset();
    assert_eq!(decoder.next(0x41923c00, &filter), Ok(None));
    assert_eq!(decoder.next(0xabcd0000, &filter), Ok(Some(note_on_group_1())));
}

#[test]
fn protocol1_decodes_midi1_channel_voice() {
    let filter = Filter::new();
    let mut decoder = DecoderProtocol1::default();
    assert_eq!(
        decoder.next(0x22953c40, &filter),
        Ok(Some(Message {
            group: 2,
            mtype: MessageType::ChannelVoice1(ChannelVoice1 {
                channel: 5,
                message: ChannelVoice1Message::NoteOn { note: 0x3c, velocity: 0x40 }
            })
        }))
    );
    assert_eq!(
        decoder.next(0x20e01040, &filter),
        Ok(Some(Message {
            group: 0,
            mtype: MessageType::ChannelVoice1(ChannelVoice1 {
                channel: 0,
                message: ChannelVoice1Message::PitchBend { value: 0x2010 }
            })
        }))
    );
    assert_eq!(decoder.next(0x20f80000, &filter), Ok(None));
    assert_eq!(decoder.next(0x41923c00, &filter), Ok(None));
    assert_eq!(decoder.next(0xabcd0000, &filter), Ok(None));
}

#[test]
fn type_specific_decoders_reject_bad_input() {
    assert_eq!(ChannelVoice::decode(&[0x41923c00]), Err(Error::InvalidLength));
    assert_eq!(ChannelVoice::decode(&[0x41723c00, 0]), Err(Error::Reserved));
    assert_eq!(ChannelVoice1::decode(&[]), Err(Error::InvalidLength));
    assert_eq!(ChannelVoice1::decode(&[0x20703c00]), Err(Error::Reserved));
    assert_eq!(Utility::decode(&[0, 0]), Err(Error::InvalidLength));
    assert_eq!(Utility::decode(&[0x00300000]), Err(Error::Reserved));
    assert_eq!(
        ChannelVoice::decode(&[0x40c00501, 0x07000203]),
        Ok(ChannelVoice {
            channel: 0,
            message: ChanelVoiceMessage::ProgramChange {
                options: 1,
                program: 7,
                bank_msb: 2,
                bank_lsb: 3
            }
        })
    );
}

#[test]
fn undefined_message_types_are_counted() {
    let filter = Filter::new();
    let mut decoder = DecoderProtocol2::new();
    assert_eq!(decoder.reserved(), 0);
    assert_eq!(decoder.next(0x60000000, &filter), Ok(None));
    assert_eq!(decoder.next(0xf0000000, &filter), Ok(None));
    assert_eq!(decoder.next(0x50000000, &filter), Ok(None));
    assert_eq!(decoder.reserved(), 2);
    let mut decoder = DecoderProtocol1::new();
    assert_eq!(decoder.next(0x70000000, &Filter::none()), Ok(None));
    assert_eq!(decoder.reserved(), 1);
}
