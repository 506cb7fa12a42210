//! Reassembly of Universal MIDI Packets from a stream of 32-bit words, and
//! their decoding under a filter.

use vstd::prelude::*;

use crate::filter::Filter;
use crate::messages::{
    channel_voice1_spec, channel_voice_spec, group_of, group_of_word, mtype_of, mtype_of_word,
    utility_spec, ChannelVoice, ChannelVoice1, Message, MessageType, Utility,
};

verus! {

/// Why a word slice could not be decoded into a message.
#[derive(Debug, Clone, Copy, PartialEq, Eq, Structural)]
pub enum Error {
    /// The words use an encoding that the protocol leaves reserved.
    Reserved,
    /// A type-specific decode was handed a slice of the wrong length.
    InvalidLength,
}

/// How many words a packet of this message type spans.
pub open spec fn packet_len(mtype: u8) -> nat {
    if mtype <= 2 {
        1
    } else if mtype <= 4 {
        2
    } else if mtype == 5 {
        4
    } else {
        1
    }
}

/// How many words the packet that starts with `first` spans.
pub open spec fn word_count(first: u32) -> nat {
    packet_len(mtype_of(first))
}

/// Whether the words received form a whole packet.
pub open spec fn is_packet(words: Seq<u32>) -> bool {
    words.len() > 0 && words.len() == word_count(words[0])
}

/// The words a decoder holds after `data` arrives while it held `pending`:
/// none once they form a whole packet.
pub open spec fn pending_after(pending: Seq<u32>, data: u32) -> Seq<u32> {
    if is_packet(pending.push(data)) {
        Seq::empty()
    } else {
        pending.push(data)
    }
}

/// The words a decoder holds after it received `words`, one by one, from
/// between two packets.
pub open spec fn pending_after_all(words: Seq<u32>) -> Seq<u32>
    decreases words.len(),
{
    if words.len() == 0 {
        Seq::empty()
    } else {
        pending_after(pending_after_all(words.drop_last()), words.last())
    }
}

/// Whether a whole packet has a message type that the protocol leaves
/// undefined. Such a packet is taken as one word and gives no message.
pub open spec fn is_reserved(words: Seq<u32>) -> bool {
    mtype_of(words[0]) > 5
}

/// The count of packets of undefined message type after `words` arrived,
/// where `count` had been seen before; it stops at the largest `u64`.
pub open spec fn reserved_after(count: nat, words: Seq<u32>) -> nat {
    if is_packet(words) && is_reserved(words) && count < u64::MAX {
        count + 1
    } else {
        count
    }
}

/// Whether the packet's message type and group pass the filter.
pub open spec fn header_passes(words: Seq<u32>, filter: Filter) -> bool {
    filter.accepts_mtype(mtype_of(words[0])) && filter.accepts_group(group_of(words[0]))
}

/// The message that a MIDI 1.0 protocol decoder gives for a whole packet.
pub open spec fn protocol1_message(words: Seq<u32>, filter: Filter) -> Option<Message> {
    let group = group_of(words[0]);
    if header_passes(words, filter) && mtype_of(words[0]) == 2 {
        match channel_voice1_spec(words[0]) {
            Some(cv) => if filter.accepts_channel(group, cv.channel) {
                Some(Message { group, mtype: MessageType::ChannelVoice1(cv) })
            } else {
                None
            },
            None => None,
        }
    } else {
        None
    }
}

/// The message that a MIDI 2.0 protocol decoder gives for a whole packet.
pub open spec fn protocol2_message(words: Seq<u32>, filter: Filter) -> Option<Message> {
    let group = group_of(words[0]);
    if header_passes(words, filter) && mtype_of(words[0]) == 0 {
        match utility_spec(words[0]) {
            Some(u) => Some(Message { group, mtype: MessageType::Utility(u) }),
            None => None,
        }
    } else if header_passes(words, filter) && mtype_of(words[0]) == 4 {
        match channel_voice_spec(words[0], words[1]) {
            Some(cv) => if filter.accepts_channel(group, cv.channel) {
                Some(Message { group, mtype: MessageType::ChannelVoice(cv) })
            } else {
                None
            },
            None => None,
        }
    } else {
        None
    }
}

/// A decoder turns words into messages, one packet at a time.
pub trait DecoderProtocol {
    /// The words of the packet received so far: empty between packets.
    spec fn pending(&self) -> Seq<u32>;

    /// Whether the decoder's state is consistent.
    spec fn wf(&self) -> bool;

    /// The message that a whole packet gives under a filter.
    spec fn message_of(words: Seq<u32>, filter: Filter) -> Option<Message>;

    /// How many packets of undefined message type the decoder has dropped.
    spec fn reserved_count(&self) -> nat;

    /// Takes the next word. Once the words received form a whole packet, it
    /// is decoded (where the filter lets its message type and group through)
    /// and the decoder returns to between packets.
    fn next(&mut self, data: u32, filter: &Filter) -> (r: Result<Option<Message>, Error>)
        requires
            old(self).wf(),
        ensures
            final(self).wf(),
            final(self).pending() == pending_after(old(self).pending(), data),
            r == Ok::<Option<Message>, Error>(
                if is_packet(old(self).pending().push(data)) {
                    Self::message_of(old(self).pending().push(data), *filter)
                } else {
                    None
                },
            ),
            final(self).reserved_count() == reserved_after(
                old(self).reserved_count(),
                old(self).pending().push(data),
            ),
    ;

    /// Drops any words received so far.
    fn reset(&mut self)
        ensures
            final(self).wf(),
            final(self).pending() == Seq::<u32>::empty(),
            final(self).reserved_count() == old(self).reserved_count(),
    ;

    /// How many packets of undefined message type the decoder has dropped.
    fn reserved(&self) -> (r: u64)
        ensures
            r == self.reserved_count(),
    ;
}

/// The words of one packet as they arrive.
#[derive(Debug)]
struct UmpBuffer {
    ump: [u32; 4],
    index: usize,
    len: usize,
}

impl UmpBuffer {
    spec fn pending(&self) -> Seq<u32> {
        self.ump@.subrange(0, self.index as int)
    }

    spec fn wf(&self) -> bool {
        &&& self.len <= 4
        &&& self.index < 4
        &&& self.index > 0 ==> self.index < self.len && self.len == word_count(self.ump[0])
    }

    fn new() -> (r: UmpBuffer)
        ensures
            r.wf(),
            r.pending() == Seq::<u32>::empty(),
    {
        UmpBuffer { ump: [0u32; 4], index: 0, len: 0 }
    }

    /// Sets the packet length from the message type of its first word.
    fn init(&mut self, data: u32)
        ensures
            final(self).len == word_count(data),
            final(self).ump == old(self).ump,
            final(self).index == old(self).index,
    {
        let mtype = mtype_of_word(data);
        self.len = if mtype <= 2 {
            1
        } else if mtype <= 4 {
            2
        } else if mtype == 5 {
            4
        } else {
            1
        };
    }

    fn push(&mut self, data: u32)
        requires
            old(self).index < 4,
        ensures
            final(self).ump@ == old(self).ump@.update(old(self).index as int, data),
            final(self).index == old(self).index + 1,
            final(self).len == old(self).len,
    {
        let index = self.index;
        self.ump[index] = data;
        self.index = index + 1;
    }

    fn is_complete(&self) -> (r: bool)
        ensures
            r == (self.index == self.len),
    {
        self.index == self.len
    }

    fn extract_mtype_and_group(&self) -> (r: (u8, u8))
        ensures
            r == (mtype_of(self.ump[0]), group_of(self.ump[0])),
    {
        (mtype_of_word(self.ump[0]), group_of_word(self.ump[0]))
    }

    fn reset(&mut self)
        ensures
            final(self).index == 0,
            final(self).len == 0,
            final(self).ump == old(self).ump,
    {
        self.index = 0;
        self.len = 0;
    }

    /// Takes a word; returns whether the packet is now whole, in which case
    /// its words are left in place for decoding.
    fn accept(&mut self, data: u32) -> (complete: bool)
        requires
            old(self).wf(),
        ensures
            complete == is_packet(old(self).pending().push(data)),
            complete ==> final(self).pending() == old(self).pending().push(data),
            complete ==> final(self).index == final(self).len,
            complete ==> final(self).len <= 4,
            !complete ==> final(self).wf(),
            !complete ==> final(self).pending() == old(self).pending().push(data),
    {
        if self.index == 0 {
            self.init(data);
        }
        let ghost before = self.ump@;
        self.push(data);
        assert(self.ump@.subrange(0, self.index as int) =~= old(self).pending().push(data));
        assert(self.ump@[0] == old(self).pending().push(data)[0]);
        self.is_complete()
    }
}

/// Decoder for sources that speak MIDI 1.0 inside packets: it yields MIDI
/// 1.0 channel voice messages.
#[derive(Debug)]
pub struct DecoderProtocol1 {
    buffer: UmpBuffer,
    reserved: u64,
}

/// Decoder for sources that speak MIDI 2.0: it yields utility and MIDI 2.0
/// channel voice messages.
#[derive(Debug)]
pub struct DecoderProtocol2 {
    buffer: UmpBuffer,
    reserved: u64,
}

impl DecoderProtocol1 {
    pub fn new() -> (r: DecoderProtocol1)
        ensures
            r.wf(),
            r.pending() == Seq::<u32>::empty(),
            r.reserved_count() == 0,
    {
        DecoderProtocol1 { buffer: UmpBuffer::new(), reserved: 0 }
    }

    fn decode(&self, mtype: u8, group: u8, filter: &Filter) -> (r: Option<Message>)
        requires
            self.buffer.index == self.buffer.len,
            1 <= self.buffer.len <= 4,
            self.buffer.len == word_count(self.buffer.ump[0]),
            mtype == mtype_of(self.buffer.ump[0]),
            group == group_of(self.buffer.ump[0]),
            header_passes(self.buffer.pending(), *filter),
        ensures
            r == protocol1_message(self.buffer.pending(), *filter),
    {
        if mtype == 2 {
            match ChannelVoice1::decode(&self.buffer.ump[0..1]) {
                Ok(channel_voice) => if filter.channel(group, channel_voice.channel) {
                    Some(Message { group, mtype: MessageType::ChannelVoice1(channel_voice) })
                } else {
                    None
                },
                Err(_) => None,
            }
        } else {
            None
        }
    }
}

impl DecoderProtocol for DecoderProtocol1 {
    closed spec fn pending(&self) -> Seq<u32> {
        self.buffer.pending()
    }

    closed spec fn wf(&self) -> bool {
        self.buffer.wf()
    }

    open spec fn message_of(words: Seq<u32>, filter: Filter) -> Option<Message> {
        protocol1_message(words, filter)
    }

    closed spec fn reserved_count(&self) -> nat {
        self.reserved as nat
    }

    fn reserved(&self) -> (r: u64) {
        self.reserved
    }

    fn next(&mut self, data: u32, filter: &Filter) -> (r: Result<Option<Message>, Error>) {
        let complete = self.buffer.accept(data);
        if complete {
            let (mtype, group) = self.buffer.extract_mtype_and_group();
            if mtype > 5 && self.reserved < u64::MAX {
                self.reserved = self.reserved + 1;
            }
            let message = if filter.mtype(mtype) && filter.group(group) {
                self.decode(mtype, group, filter)
            } else {
                None
            };
            self.buffer.reset();
            assert(self.buffer.pending() =~= Seq::<u32>::empty());
            Ok(message)
        } else {
            Ok(None)
        }
    }

    fn reset(&mut self) {
        self.buffer.reset();
        assert(self.buffer.pending() =~= Seq::<u32>::empty());
    }
}

impl Default for DecoderProtocol1 {
    fn default() -> (r: DecoderProtocol1)
        ensures
            r.wf(),
            r.pending() == Seq::<u32>::empty(),
            r.reserved_count() == 0,
    {
        DecoderProtocol1::new()
    }
}

impl DecoderProtocol2 {
    pub fn new() -> (r: DecoderProtocol2)
        ensures
            r.wf(),
            r.pending() == Seq::<u32>::empty(),
            r.reserved_count() == 0,
    {
        DecoderProtocol2 { buffer: UmpBuffer::new(), reserved: 0 }
    }

    fn decode(&self, mtype: u8, group: u8, filter: &Filter) -> (r: Option<Message>)
        requires
            self.buffer.index == self.buffer.len,
            1 <= self.buffer.len <= 4,
            self.buffer.len == word_count(self.buffer.ump[0]),
            mtype == mtype_of(self.buffer.ump[0]),
            group == group_of(self.buffer.ump[0]),
            header_passes(self.buffer.pending(), *filter),
        ensures
            r == protocol2_message(self.buffer.pending(), *filter),
    {
        if mtype == 0 {
            match Utility::decode(&self.buffer.ump[0..1]) {
                Ok(utility) => Some(Message { group, mtype: MessageType::Utility(utility) }),
                Err(_) => None,
            }
        } else if mtype == 4 {
            match ChannelVoice::decode(&self.buffer.ump[0..2]) {
                Ok(channel_voice) => if filter.channel(group, channel_voice.channel) {
                    Some(Message { group, mtype: MessageType::ChannelVoice(channel_voice) })
                } else {
                    None
                },
                Err(_) => None,
            }
        } else {
            None
        }
    }
}

impl DecoderProtocol for DecoderProtocol2 {
    closed spec fn pending(&self) -> Seq<u32> {
        self.buffer.pending()
    }

    closed spec fn wf(&self) -> bool {
        self.buffer.wf()
    }

    open spec fn message_of(words: Seq<u32>, filter: Filter) -> Option<Message> {
        protocol2_message(words, filter)
    }

    closed spec fn reserved_count(&self) -> nat {
        self.reserved as nat
    }

    fn reserved(&self) -> (r: u64) {
        self.reserved
    }

    fn next(&mut self, data: u32, filter: &Filter) -> (r: Result<Option<Message>, Error>) {
        let complete = self.buffer.accept(data);
        if complete {
            let (mtype, group) = self.buffer.extract_mtype_and_group();
            if mtype > 5 && self.reserved < u64::MAX {
                self.reserved = self.reserved + 1;
            }
            let message = if filter.mtype(mtype) && filter.group(group) {
                self.decode(mtype, group, filter)
            } else {
                None
            };
            self.buffer.reset();
            assert(self.buffer.pending() =~= Seq::<u32>::empty());
            Ok(message)
        } else {
            Ok(None)
        }
    }

    fn reset(&mut self) {
        self.buffer.reset();
        assert(self.buffer.pending() =~= Seq::<u32>::empty());
    }
}

impl Default for DecoderProtocol2 {
    fn default() -> (r: DecoderProtocol2)
        ensures
            r.wf(),
            r.pending() == Seq::<u32>::empty(),
            r.reserved_count() == 0,
    {
        DecoderProtocol2::new()
    }
}

proof fn lemma_prefix_pending(words: Seq<u32>, k: int)
    requires
        0 < k <= words.len(),
        k <= word_count(words[0]),
    ensures
        pending_after_all(words.subrange(0, k)) == if k == word_count(words[0]) {
            Seq::<u32>::empty()
        } else {
            words.subrange(0, k)
        },
    decreases k,
{
    let prefix = words.subrange(0, k);
    assert(prefix.drop_last() =~= words.subrange(0, k - 1));
    assert(words.subrange(0, k - 1).push(prefix.last()) =~= prefix);
    if k > 1 {
        lemma_prefix_pending(words, k - 1);
    } else {
        assert(words.subrange(0, 0) =~= Seq::<u32>::empty());
    }
    let before = words.subrange(0, k - 1);
    assert(pending_after_all(before) == before);
    assert(prefix[0] == words[0]);
    assert(pending_after_all(prefix) == pending_after(before, prefix.last()));
    assert(is_packet(prefix) == (k == word_count(words[0])));
}

/// From between packets, a packet's words leave the decoder accumulating
/// until as many have arrived as the message type of the first word asks
/// for (one for types 0 to 2, two for types 3 and 4, four for type 5, one
/// for any other), and that word completes it.
pub proof fn lemma_packet_word_count(words: Seq<u32>)
    requires
        0 < words.len() <= word_count(words[0]),
    ensures
        word_count(words[0]) == if mtype_of(words[0]) <= 2 {
            1nat
        } else if mtype_of(words[0]) <= 4 {
            2nat
        } else if mtype_of(words[0]) == 5 {
            4nat
        } else {
            1nat
        },
        forall|k: int|
            0 < k < word_count(words[0]) && k <= words.len() ==> #[trigger] pending_after_all(
                words.subrange(0, k),
            ) == words.subrange(0, k),
        words.len() == word_count(words[0]) ==> is_packet(words) && pending_after_all(words)
            == Seq::<u32>::empty(),
{
    assert forall|k: int|
        0 < k < word_count(words[0]) && k <= words.len() implies #[trigger] pending_after_all(
            words.subrange(0, k),
        ) == words.subrange(0, k) by {
        lemma_prefix_pending(words, k);
    }
    if words.len() == word_count(words[0]) {
        lemma_prefix_pending(words, words.len() as int);
        assert(words.subrange(0, words.len() as int) =~= words);
    }
}

/// The first word of a two-word packet leaves the decoder accumulating,
/// holding that word, and gives no message.
pub proof fn lemma_first_of_two_words_is_held(first: u32)
    requires
        word_count(first) == 2,
    ensures
        !is_packet(Seq::<u32>::empty().push(first)),
        pending_after(Seq::<u32>::empty(), first) == seq![first],
{
    assert(Seq::<u32>::empty().push(first) =~= seq![first]);
}

/// A packet whose message type or group the filter holds back gives no
/// message under either protocol, and its last word still returns the
/// decoder to between packets.
pub proof fn lemma_rejected_header_gives_nothing(words: Seq<u32>, filter: Filter)
    requires
        is_packet(words),
        !header_passes(words, filter),
    ensures
        protocol1_message(words, filter) is None,
        protocol2_message(words, filter) is None,
        pending_after(words.drop_last(), words.last()) == Seq::<u32>::empty(),
{
    assert(words.drop_last().push(words.last()) =~= words);
}

/// The results a decoder of type `D` gives for `words`, one by one under
/// `filter`, starting from holding `pending`.
pub open spec fn results_after<D: DecoderProtocol>(pending: Seq<u32>, words: Seq<u32>, filter: Filter) -> Seq<Option<Message>>
    decreases words.len(),
{
    if words.len() == 0 {
        Seq::empty()
    } else {
        let held = pending.push(words[0]);
        let first = if is_packet(held) {
            D::message_of(held, filter)
        } else {
            None
        };
        seq![first] + results_after::<D>(pending_after(pending, words[0]), words.drop_first(), filter)
    }
}

/// The word that completes a packet returns the decoder to holding nothing,
/// as a new decoder does: whatever words follow give the same results as
/// they would on a new decoder.
pub proof fn lemma_whole_packet_resets<D: DecoderProtocol>(pending: Seq<u32>, data: u32, later: Seq<u32>, filter: Filter)
    requires
        is_packet(pending.push(data)),
    ensures
        pending_after(pending, data) == Seq::<u32>::empty(),
        results_after::<D>(pending_after(pending, data), later, filter) == results_after::<D>(
            Seq::<u32>::empty(),
            later,
            filter,
        ),
{
}

} // verus!
