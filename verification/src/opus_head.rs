//! The header of an Opus stream.

use crate::audio::AudioChannels;
use crate::shared_bytes::{bytes_contents, bytes_copy_from_slice};
use vstd::prelude::*;

verus! {

/// The rate in which an Opus stream counts.
pub const OPUS_RATE: u32 = 48_000;

/// A 16-bit number, low byte first.
pub open spec fn le16(value: int) -> Seq<u8> {
    seq![(value % 256) as u8, (value / 256 % 256) as u8]
}

/// A 32-bit number, low byte first.
pub open spec fn le32(value: int) -> Seq<u8> {
    seq![
        (value % 256) as u8,
        (value / 256 % 256) as u8,
        (value / 65536 % 256) as u8,
        (value / 16777216 % 256) as u8,
    ]
}

/// The letters `OpusHead`.
pub open spec fn opus_magic() -> Seq<u8> {
    seq![0x4Fu8, 0x70u8, 0x75u8, 0x73u8, 0x48u8, 0x65u8, 0x61u8, 0x64u8]
}

/// The identification header for one or two channels (RFC 7845, 5.1, mapping family zero).
pub open spec fn opus_head_bytes(channels: AudioChannels, sample_rate: u32, pre_skip: u16) -> Seq<
    u8,
> {
    opus_magic() + seq![1u8, channels.count() as u8] + le16(pre_skip as int) + le32(
        sample_rate as int,
    ) + le16(0) + seq![0u8]
}

/// How many samples a decoder drops at the start. The encoder reports them in its own rate; the
/// header counts in the rate of Opus.
pub open spec fn pre_skip_samples(lookahead: int, sample_rate: int) -> int {
    lookahead * OPUS_RATE / sample_rate
}

/// How many samples a decoder drops at the start, in the rate of Opus; what does not fit into 16 bits
/// is cut off.
pub fn opus_pre_skip(lookahead: u32, sample_rate: u32) -> (r: u16)
    requires
        sample_rate > 0,
        lookahead * OPUS_RATE <= u32::MAX,
    ensures
        r == pre_skip_samples(lookahead as int, sample_rate as int) as u16,
{
    (lookahead * OPUS_RATE / sample_rate) as u16
}

/// The identification header of a stream.
pub fn opus_head(channels: AudioChannels, sample_rate: u32, pre_skip: u16) -> (r: bytes::Bytes)
    ensures
        bytes_contents(r) == opus_head_bytes(channels, sample_rate, pre_skip),
{
    let count: u8 = match channels {
        AudioChannels::Mono => 1,
        AudioChannels::Stereo => 2,
    };
    let head: [u8; 19] = [
        0x4F,
        0x70,
        0x75,
        0x73,
        0x48,
        0x65,
        0x61,
        0x64,
        1,
        count,
        (pre_skip % 256) as u8,
        (pre_skip / 256 % 256) as u8,
        (sample_rate % 256) as u8,
        (sample_rate / 256 % 256) as u8,
        (sample_rate / 65536 % 256) as u8,
        (sample_rate / 16777216 % 256) as u8,
        0,
        0,
        0,
    ];
    assert(head@ =~= opus_head_bytes(channels, sample_rate, pre_skip));
    bytes_copy_from_slice(head.as_slice())
}

/// Where the stream already has the rate of Opus, the lookahead is dropped as it is.
pub proof fn lemma_pre_skip_at_opus_rate(lookahead: u16)
    ensures
        pre_skip_samples(lookahead as int, OPUS_RATE as int) == lookahead,
{
}

/// The header is nineteen bytes: its letters, version 1, the number of channels, the samples to drop
/// and the rate, both low byte first, no gain, and family zero. Reading the bytes gives back what was
/// written.
pub proof fn lemma_opus_head_is_read_back(channels: AudioChannels, sample_rate: u32, pre_skip: u16)
    ensures
        ({
            let head = opus_head_bytes(channels, sample_rate, pre_skip);
            &&& head.len() == 19
            &&& head[0] as int == 'O' as int && head[1] as int == 'p' as int && head[2] as int
                == 'u' as int && head[3] as int == 's' as int && head[4] as int == 'H' as int
                && head[5] as int == 'e' as int && head[6] as int == 'a' as int && head[7] as int
                == 'd' as int
            &&& head[8] == 1
            &&& head[9] == if channels == AudioChannels::Stereo {
                2int
            } else {
                1
            }
            &&& head[10] + 256 * head[11] == pre_skip
            &&& head[12] + 256 * head[13] + 65_536 * head[14] + 16_777_216 * head[15]
                == sample_rate
            &&& head[16] == 0 && head[17] == 0 && head[18] == 0
        }),
{
    let rate = sample_rate as int;
    assert(rate / 65536 == rate / 256 / 256);
    assert(rate / 16777216 == rate / 256 / 256 / 256);
}

/// The samples to drop last as long as the lookahead, up to one sample of Opus, which counts 48,000 of
/// them in a second.
pub proof fn lemma_pre_skip_lasts_as_long(lookahead: nat, sample_rate: nat)
    requires
        sample_rate > 0,
    ensures
        ({
            let skip = pre_skip_samples(lookahead as int, sample_rate as int);
            skip * sample_rate <= lookahead * 48_000 < (skip + 1) * sample_rate
        }),
{
    let total = lookahead as int * 48_000;
    let rate = sample_rate as int;
    let skip = total / rate;
    assert(skip * rate <= total < (skip + 1) * rate) by (nonlinear_arith)
        requires
            rate > 0,
            skip == total / rate,
    ;
}

} // verus!
