//! What settings are accepted, and what follows from them.

use vstd::arithmetic::power::pow;
use vstd::prelude::*;

use crate::red::RED_PREFIX_MAX;
use crate::settings::{
    capture_channels, capture_fault, clamped_distance, device, legal_duration, name_of,
    playback_fault, stream_count, surround_layout, StartFault, DEFAULT_FRAGMENT_US,
    MAX_DECODED_SAMPLES, MAX_OPUS_PACKET, PUMP_TIMEOUT_US, SERVER_DEFAULT,
};

verus! {

/// The codec's frames last 2.5 ms, doubled up to four times, or 60 ms, and nothing else.
pub proof fn lemma_durations(tenths: int)
    ensures
        legal_duration(tenths) <==> tenths == 600 || exists|k: nat|
            k <= 4 && tenths == 25 * #[trigger] pow(2, k),
{
    reveal(pow);
    reveal_with_fuel(pow, 6);
    assert(pow(2, 0) == 1 && pow(2, 1) == 2 && pow(2, 2) == 4 && pow(2, 3) == 8 && pow(2, 4)
        == 16);
    if exists|k: nat| k <= 4 && tenths == 25 * #[trigger] pow(2, k) {
        let k = choose|k: nat| k <= 4 && tenths == 25 * #[trigger] pow(2, k);
        assert(k == 0 || k == 1 || k == 2 || k == 3 || k == 4);
    }
}

/// A capture has one channel, two, or as many as there is a surround layout for.
pub proof fn lemma_channels(channels: int)
    ensures
        capture_channels(channels) <==> channels == 1 || channels == 2 || surround_layout(
            channels,
        ) is Some,
        surround_layout(channels) is Some <==> channels == 6 || channels == 8,
{
}

/// The surround layouts: two channels are not paired, centre and bass, the others are. The
/// front pair comes first, the rear and side pairs follow in order, then the centre, and the
/// bass is last.
pub proof fn lemma_layout_places(channels: int)
    requires
        channels == 6 || channels == 8,
    ensures
        surround_layout(channels) matches Some(l) && {
            &&& l.0 == l.1 + 2
            &&& 2 * l.1 + 2 == channels
            &&& l.2.len() == channels
            &&& l.2[0] == 0 && l.2[2] == 1
            &&& forall|i: int| 3 <= i < channels - 1 ==> #[trigger] l.2[i] == i - 1
            &&& l.2[1] == channels - 2
            &&& l.2[channels - 1] == channels - 1
        },
{
}

/// A capture is refused for its duration first, then for its channels, then for what the
/// server thinks of both, and for nothing else.
pub proof fn lemma_capture_refused(tenths: int, channels: int, spec_valid: bool)
    ensures
        ({
            let fault = capture_fault(tenths, channels, spec_valid);
            let channels_ok = channels == 1 || channels == 2 || channels == 6 || channels == 8;
            &&& fault is None <==> legal_duration(tenths) && channels_ok && spec_valid
            &&& fault == Some(StartFault::Duration) <==> !legal_duration(tenths)
            &&& fault == Some(StartFault::Channels) <==> legal_duration(tenths) && !channels_ok
            &&& fault == Some(StartFault::SampleSpec) <==> legal_duration(tenths) && channels_ok
                && !spec_valid
        }),
{
}

/// A playback is refused unless it has one channel or two, and then for what the server
/// thinks of it.
pub proof fn lemma_playback_refused(channels: int, spec_valid: bool)
    ensures
        ({
            let fault = playback_fault(channels, spec_valid);
            &&& fault is None <==> 1 <= channels <= 2 && spec_valid
            &&& fault == Some(StartFault::Channels) <==> !(1 <= channels <= 2)
            &&& fault == Some(StartFault::SampleSpec) <==> 1 <= channels <= 2 && !spec_valid
        }),
{
}

/// A device name stands for itself, letter by letter, and the empty one for the system
/// default, like none at all.
pub proof fn lemma_device(name: String)
    ensures
        name@.len() > 0 ==> device(Some(name)) == Some(name@),
        name@.len() == 0 ==> device(Some(name)) is None,
        device(None) is None,
        name_of(Some(name)) == Some(name@),
        name_of(None) is None,
{
}

/// The redundancy distance in effect is the one nearest to the request out of none to four.
pub proof fn lemma_distance(distance: i32)
    ensures
        0 <= clamped_distance(distance) <= 4,
        0 <= distance <= 4 ==> clamped_distance(distance) == distance,
        distance < 0 ==> clamped_distance(distance) == 0,
        distance > 4 ==> clamped_distance(distance) == 4,
{
}

/// A frame buffer has room for the longest prefix and for 4000 bytes of each stream; up to two
/// channels are one stream, surround is two more than it has pairs.
pub proof fn lemma_buffer_room(channels: int)
    ensures
        channels == 6 ==> stream_count(channels) == 4,
        channels == 8 ==> stream_count(channels) == 5,
        channels != 6 && channels != 8 ==> stream_count(channels) == 1,
        RED_PREFIX_MAX + stream_count(channels) * MAX_OPUS_PACKET == 4115 + 4000 * stream_count(
            channels,
        ),
{
}

/// Times and sizes that the audio server and the codec are given: a turn of 20 ms, a fragment
/// of 20 ms, packets of up to 120 ms at 48 kHz, and the largest number for what is left to the
/// server.
pub proof fn lemma_figures()
    ensures
        PUMP_TIMEOUT_US == 20 * 1000,
        DEFAULT_FRAGMENT_US == 20 * 1000,
        MAX_DECODED_SAMPLES == 120 * 48,
        SERVER_DEFAULT == 0xffff_ffff,
        MAX_OPUS_PACKET == 4000,
{
}

} // verus!
