//! The part of a room configuration that the temporal refinement depends on.

use crate::ieee::Double;
use crate::temporal_fir_config::TemporalFirConfig;
use crate::text::same_text;
use vstd::prelude::*;

verus! {

/// How the filters of a room are realized.
#[derive(Clone, Copy, Debug, PartialEq, Eq, Structural)]
pub enum ProcessingMode {
    PhaseLinear,
    Hybrid,
    /// A mode without an FIR filter of its own for each channel.
    Other,
}

/// The FIR filters of a room.
#[derive(Clone, Copy, Debug)]
pub struct FirConfig {
    pub taps: usize,
    pub max_boost_db: Option<Double>,
}

/// What stands behind a channel.
#[derive(Clone, Copy, Debug, PartialEq, Eq, Structural)]
pub enum SpeakerConfig {
    /// One loudspeaker.
    Single,
    /// A group of drivers or loudspeakers.
    Group,
}

/// A channel and what stands behind it.
#[derive(Clone, Debug)]
pub struct Speaker {
    pub name: String,
    pub config: SpeakerConfig,
}

/// What the channels of a room share.
#[derive(Clone, Copy, Debug)]
pub struct SystemConfig {
    /// Whether there are subwoofers.
    pub subwoofers: bool,
    /// Whether bass management is enabled, where it is configured.
    pub bass_management: Option<bool>,
}

/// A room configuration.
#[derive(Clone, Debug)]
pub struct RoomConfig {
    pub temporal_fir: Option<TemporalFirConfig>,
    pub processing_mode: ProcessingMode,
    pub fir: Option<FirConfig>,
    pub speakers: Vec<Speaker>,
    pub system: Option<SystemConfig>,
}

/// What stands behind the channel called `name`.
pub open spec fn find_speaker(speakers: Seq<Speaker>, name: Seq<char>) -> Option<SpeakerConfig>
    decreases speakers.len(),
{
    if speakers.len() == 0 {
        None
    } else if speakers[0].name@ == name {
        Some(speakers[0].config)
    } else {
        find_speaker(speakers.drop_first(), name)
    }
}

/// What stands behind the channel called `name`.
pub fn speaker(speakers: &Vec<Speaker>, name: &str) -> (r: Option<SpeakerConfig>)
    ensures
        r == find_speaker(speakers@, name@),
{
    let mut i: usize = 0;
    assert(speakers@.skip(0) =~= speakers@);
    while i < speakers.len()
        invariant
            i <= speakers@.len(),
            find_speaker(speakers@.skip(i as int), name@) == find_speaker(speakers@, name@),
        decreases speakers@.len() - i,
    {
        assert(speakers@.skip(i as int)[0] == speakers@[i as int]);
        if same_text(speakers[i].name.as_str(), name) {
            return Some(speakers[i].config);
        }
        assert(speakers@.skip(i as int).drop_first() =~= speakers@.skip(i + 1));
        i = i + 1;
    }
    None
}

/// Under a name the first channel counts.
pub proof fn law_first_speaker_of_a_name_counts(speakers: Seq<Speaker>, name: Seq<char>, k: int)
    ensures
        0 <= k < speakers.len() && speakers[k].name@ == name && (forall|j: int|
            0 <= j < k ==> (#[trigger] speakers[j]).name@ != name) ==> find_speaker(speakers, name)
            == Some(speakers[k].config),
        (forall|j: int| 0 <= j < speakers.len() ==> (#[trigger] speakers[j]).name@ != name)
            ==> find_speaker(speakers, name) is None,
    decreases speakers.len(),
{
    if speakers.len() > 0 {
        let rest = speakers.drop_first();
        law_first_speaker_of_a_name_counts(rest, name, k - 1);
        assert forall|j: int| 0 <= j < rest.len() implies #[trigger] rest[j] == speakers[j + 1] by {}
        if speakers[0].name@ != name {
            if 0 <= k < speakers.len() && speakers[k].name@ == name && forall|j: int|
                0 <= j < k ==> (#[trigger] speakers[j]).name@ != name {
                assert(rest[k - 1] == speakers[k]);
                assert forall|j: int| 0 <= j < k - 1 implies (#[trigger] rest[j]).name@ != name by {
                    assert(speakers[j + 1].name@ != name);
                }
            }
            if forall|j: int|
                0 <= j < speakers.len() ==> (#[trigger] speakers[j]).name@ != name {
                assert forall|j: int| 0 <= j < rest.len() implies (#[trigger] rest[j]).name@
                    != name by {
                    assert(speakers[j + 1].name@ != name);
                }
            }
        } else {
            assert(k > 0 ==> speakers[0].name@ == name);
        }
    }
}

} // verus!
