//! Sinks as `pactl` lists them, and what is read of the default output sink.
use crate::error::{ChannelFault, Error};
use crate::json::{get_member, json_members, json_tree, member, member_values, Json};
use crate::missing::OptionToResultExt;
use crate::text::starts_with;
use vstd::prelude::*;

verus! {

/// The volume of a sink that is neither raised nor lowered.
pub struct BaseVolume {
    pub db: String,
    pub value_percent: String,
    pub value: u64,
}

/// One sink.
pub struct RootElement {
    pub base_volume: BaseVolume,
    pub index: u64,
    pub mute: bool,
    pub name: String,
    /// For each channel, by name, a report that holds its volume.
    pub volume: serde_json::Map<String, serde_json::Value>,
}

/// A listing of sinks.
pub type Root = Vec<RootElement>;

/// What is read of the default output sink.
#[derive(Clone, Copy, Debug, PartialEq, Eq, Structural)]
pub struct PactlData {
    pub base_volume: u64,
    pub index: u64,
    pub mute: bool,
    /// The volume of all channels. There is none where two channels differ, nor where there is
    /// no channel.
    pub volume: Option<u64>,
}

/// The volume that the report on a channel holds.
pub open spec fn channel_level(report: Json) -> Result<u64, ChannelFault> {
    match report {
        Json::Object(members) => match member(members, "value"@) {
            Some(Json::Unsigned(level)) => Ok(level),
            Some(_) => Err(ChannelFault::NotUnsigned),
            None => Err(ChannelFault::NoValue),
        },
        _ => Err(ChannelFault::NotAnObject),
    }
}

/// The volume that the report on a channel holds.
pub fn read_channel(report: &serde_json::Value) -> (level: Result<u64, ChannelFault>)
    ensures
        level == channel_level(json_tree(*report)),
        match level {
            Ok(found) => holds_level(json_tree(*report), found),
            Err(fault) => has_fault(json_tree(*report), fault),
        },
{
    let object = match report.as_object().to_result() {
        Ok(object) => object,
        Err(_) => return Err(ChannelFault::NotAnObject),
    };
    let value = match get_member(object, "value").to_result() {
        Ok(value) => value,
        Err(_) => return Err(ChannelFault::NoValue),
    };
    match value.as_u64().to_result() {
        Ok(level) => Ok(level),
        Err(_) => Err(ChannelFault::NotUnsigned),
    }
}

/// Whether the report on a channel holds this volume: it is an object whose member `value` is that
/// integer.
pub open spec fn holds_level(report: Json, level: u64) -> bool {
    report matches Json::Object(members) && member(members, "value"@) == Some(
        Json::Unsigned(level),
    )
}

/// Whether this is what is wrong with the report on a channel.
pub open spec fn has_fault(report: Json, fault: ChannelFault) -> bool {
    match fault {
        ChannelFault::NotAnObject => !(report is Object),
        ChannelFault::NoValue => report matches Json::Object(members) && member(
            members,
            "value"@,
        ) is None,
        ChannelFault::NotUnsigned => report matches Json::Object(members) && (member(
            members,
            "value"@,
        ) matches Some(value) && !(value is Unsigned)),
    }
}

/// The report on a channel gives exactly the volume that it holds, or what is wrong with it.
pub proof fn law_channel_gives_its_level(report: Json, level: u64, fault: ChannelFault)
    ensures
        channel_level(report) == Ok::<u64, ChannelFault>(level) <==> holds_level(report, level),
        channel_level(report) == Err::<u64, ChannelFault>(fault) <==> has_fault(report, fault),
{
}

/// A channel without a level, or with another level than the first one.
pub open spec fn is_odd(levels: Seq<Result<u64, ChannelFault>>, i: int) -> bool {
    levels[i] is Err || levels[i] != levels[0]
}

/// The first odd channel from `i` on, or the number of channels where there is none.
pub open spec fn first_odd(levels: Seq<Result<u64, ChannelFault>>, i: int) -> int
    decreases levels.len() - i,
{
    if i >= levels.len() {
        levels.len() as int
    } else if is_odd(levels, i) {
        i
    } else {
        first_odd(levels, i + 1)
    }
}

/// The level that all channels share, as far as they are looked at: the first channel that has
/// no level, or another one than those before it, settles the matter.
pub open spec fn common_level(levels: Seq<Result<u64, ChannelFault>>) -> Result<
    Option<u64>,
    ChannelFault,
> {
    let odd = first_odd(levels, 0);
    if odd < levels.len() {
        match levels[odd] {
            Ok(_) => Ok(None),
            Err(fault) => Err(fault),
        }
    } else if levels.len() == 0 {
        Ok(None)
    } else {
        Ok(Some(levels[0]->Ok_0))
    }
}

/// The level that all channels share.
pub fn shared_level(levels: &Vec<Result<u64, ChannelFault>>) -> (level: Result<
    Option<u64>,
    ChannelFault,
>)
    ensures
        level == common_level(levels@),
{
    let mut last_level: Option<u64> = None;
    let mut i: usize = 0;
    while i < levels.len()
        invariant
            i <= levels@.len(),
            first_odd(levels@, 0) == first_odd(levels@, i as int),
            match last_level {
                None => i == 0,
                Some(last) => i > 0 && levels@[0] == Ok::<u64, ChannelFault>(last),
            },
        decreases levels@.len() - i,
    {
        match levels[i] {
            Err(fault) => return Err(fault),
            Ok(level) => {
                if let Some(last) = last_level {
                    if level != last {
                        return Ok(None);
                    }
                }
                last_level = Some(level);
            },
        }
        i += 1;
    }
    Ok(last_level)
}

/// The levels of the channels that a sink reports on.
pub open spec fn channel_levels(members: Seq<(Seq<char>, Json)>) -> Seq<Result<u64, ChannelFault>> {
    Seq::new(members.len(), |i: int| channel_level(members[i].1))
}

/// The level that all channels of a sink share.
pub fn read_volume(volume: &serde_json::Map<String, serde_json::Value>) -> (level: Result<
    Option<u64>,
    ChannelFault,
>)
    ensures
        level == common_level(channel_levels(json_members(*volume))),
        forall|shared: u64|
            level == Ok::<Option<u64>, ChannelFault>(Some(shared)) <==> json_members(*volume).len()
                > 0 && #[trigger] hold_up_to(
                json_members(*volume),
                json_members(*volume).len() as int,
                shared,
            ),
        level matches Err(fault) ==> fault_stands(json_members(*volume), fault),
{
    proof {
        if let Err(fault) = common_level(channel_levels(json_members(*volume))) {
            law_fault_is_told(*volume, fault);
        }
        assert forall|shared: u64|
            common_level(channel_levels(json_members(*volume))) == Ok::<Option<u64>, ChannelFault>(
                Some(shared),
            ) <==> json_members(*volume).len() > 0 && #[trigger] hold_up_to(
                json_members(*volume),
                json_members(*volume).len() as int,
                shared,
            ) by {
            law_every_channel_counts(*volume, shared);
        }
    }
    let reports = member_values(volume);
    let mut levels: Vec<Result<u64, ChannelFault>> = Vec::new();
    let mut i: usize = 0;
    while i < reports.len()
        invariant
            i <= reports@.len(),
            reports@.len() == json_members(*volume).len(),
            forall|j: int|
                0 <= j < reports@.len() ==> json_tree(*(#[trigger] reports@[j])) == json_members(
                    *volume,
                )[j].1,
            levels@ =~= channel_levels(json_members(*volume)).take(i as int),
        decreases reports@.len() - i,
    {
        levels.push(read_channel(reports[i]));
        i += 1;
    }
    assert(levels@ =~= channel_levels(json_members(*volume)));
    shared_level(&levels)
}

/// Whether a sink is an output.
pub open spec fn is_output(sink: RootElement) -> bool {
    "alsa_output."@.is_prefix_of(sink.name@)
}

/// The first output from `i` on, or the number of sinks where there is none.
pub open spec fn first_output(sinks: Seq<RootElement>, i: int) -> int
    decreases sinks.len() - i,
{
    if i >= sinks.len() {
        sinks.len() as int
    } else if is_output(sinks[i]) {
        i
    } else {
        first_output(sinks, i + 1)
    }
}

/// What is read of one sink.
pub open spec fn data_of(sink: RootElement) -> Result<PactlData, Error> {
    match common_level(channel_levels(json_members(sink.volume))) {
        Ok(volume) => Ok(
            PactlData {
                base_volume: sink.base_volume.value,
                index: sink.index,
                mute: sink.mute,
                volume,
            },
        ),
        Err(fault) => Err(Error::Channel(fault)),
    }
}

/// What is read of a listing: the first output stands for the default output sink.
pub open spec fn default_data(sinks: Seq<RootElement>) -> Result<PactlData, Error> {
    let output = first_output(sinks, 0);
    if output < sinks.len() {
        data_of(sinks[output])
    } else {
        Err(Error::NoDefaultSink)
    }
}

/// What is read of one sink.
pub fn read_sink(sink: &RootElement) -> (data: Result<PactlData, Error>)
    ensures
        data == data_of(*sink),
        data matches Ok(read) ==> read.base_volume == sink.base_volume.value && read.index
            == sink.index && read.mute == sink.mute && forall|shared: u64|
            read.volume == Some(shared) <==> json_members(sink.volume).len() > 0
                && #[trigger] hold_up_to(
                json_members(sink.volume),
                json_members(sink.volume).len() as int,
                shared,
            ),
        data matches Err(error) ==> (error matches Error::Channel(fault) && fault_stands(
            json_members(sink.volume),
            fault,
        )),
{
    proof {
        law_reading_is_of_sink(*sink);
        if let Err(error) = data_of(*sink) {
            assert(fault_stands(json_members(sink.volume), error->Channel_0));
        }
    }
    match read_volume(&sink.volume) {
        Ok(volume) => Ok(
            PactlData {
                base_volume: sink.base_volume.value,
                index: sink.index,
                mute: sink.mute,
                volume,
            },
        ),
        Err(fault) => Err(Error::Channel(fault)),
    }
}

/// The place of the default output sink in a listing, if it is listed.
pub fn default_sink(sinks: &Root) -> (place: Option<usize>)
    ensures
        place == (if first_output(sinks@, 0) < sinks@.len() {
            Some(first_output(sinks@, 0) as usize)
        } else {
            None
        }),
        place matches Some(i) ==> i < sinks@.len() && i == first_output(sinks@, 0),
        place matches Some(i) ==> "alsa_output."@.is_prefix_of(sinks@[i as int].name@),
        forall|j: int|
            0 <= j < (match place {
                Some(i) => i as int,
                None => sinks@.len() as int,
            }) ==> !"alsa_output."@.is_prefix_of((#[trigger] sinks@[j]).name@),
{
    let mut i: usize = 0;
    while i < sinks.len()
        invariant
            i <= sinks@.len(),
            first_output(sinks@, 0) == first_output(sinks@, i as int),
            forall|j: int|
                0 <= j < i ==> !"alsa_output."@.is_prefix_of((#[trigger] sinks@[j]).name@),
        decreases sinks@.len() - i,
    {
        if starts_with(sinks[i].name.as_str(), "alsa_output.") {
            return Some(i);
        }
        i += 1;
    }
    None
}

/// What is read of a listing.
pub fn read_default_sink(sinks: &Root) -> (data: Result<PactlData, Error>)
    ensures
        data == default_data(sinks@),
{
    match default_sink(sinks) {
        Some(i) => read_sink(&sinks[i]),
        None => Err(Error::NoDefaultSink),
    }
}

proof fn lemma_first_odd(levels: Seq<Result<u64, ChannelFault>>, i: int)
    requires
        0 <= i <= levels.len(),
    ensures
        i <= first_odd(levels, i) <= levels.len(),
        forall|j: int| i <= j < first_odd(levels, i) ==> !#[trigger] is_odd(levels, j),
        first_odd(levels, i) < levels.len() ==> is_odd(levels, first_odd(levels, i)),
    decreases levels.len() - i,
{
    if i < levels.len() && !is_odd(levels, i) {
        lemma_first_odd(levels, i + 1);
    }
}

/// A sink has a volume exactly if it has channels, each of them has a level, and the levels are
/// the same.
pub proof fn law_volume_is_shared(levels: Seq<Result<u64, ChannelFault>>, level: u64)
    ensures
        common_level(levels) == Ok::<Option<u64>, ChannelFault>(Some(level)) <==> (levels.len() > 0
            && forall|i: int|
            0 <= i < levels.len() ==> #[trigger] levels[i] == Ok::<u64, ChannelFault>(level)),
{
    lemma_first_odd(levels, 0);
    if common_level(levels) == Ok::<Option<u64>, ChannelFault>(Some(level)) {
        assert forall|i: int| 0 <= i < levels.len() implies #[trigger] levels[i] == Ok::<
            u64,
            ChannelFault,
        >(level) by {
            assert(!is_odd(levels, i));
            assert(!is_odd(levels, 0));
        }
    }
}

/// Where every channel has a level, a sink is without a volume exactly if it has no channels or
/// two of them differ, whatever the order in which they are reported.
pub proof fn law_no_volume_if_levels_differ(levels: Seq<Result<u64, ChannelFault>>)
    requires
        forall|i: int| 0 <= i < levels.len() ==> #[trigger] levels[i] is Ok,
    ensures
        common_level(levels) == Ok::<Option<u64>, ChannelFault>(None) <==> (levels.len() == 0
            || exists|i: int, j: int|
            0 <= i < levels.len() && 0 <= j < levels.len() && #[trigger] levels[i]
                != #[trigger] levels[j]),
{
    lemma_first_odd(levels, 0);
    let odd = first_odd(levels, 0);
    if odd < levels.len() {
        assert(levels[odd] != levels[0]);
    } else {
        assert forall|i: int, j: int| 0 <= i < levels.len() && 0 <= j < levels.len() implies
            #[trigger] levels[i] == #[trigger] levels[j] by {
            assert(!is_odd(levels, i));
            assert(!is_odd(levels, j));
        }
    }
}

/// A fault in a report is an error only if all channels before it have the same level.
pub proof fn law_fault_after_agreement(
    levels: Seq<Result<u64, ChannelFault>>,
    fault: ChannelFault,
)
    ensures
        common_level(levels) == Err::<Option<u64>, ChannelFault>(fault) <==> exists|k: int|
            0 <= k < levels.len() && #[trigger] levels[k] == Err::<u64, ChannelFault>(fault) && (
            forall|i: int|
                0 <= i < k ==> (#[trigger] levels[i]) is Ok && levels[i] == levels[0]),
{
    lemma_first_odd(levels, 0);
    let odd = first_odd(levels, 0);
    if common_level(levels) == Err::<Option<u64>, ChannelFault>(fault) {
        assert forall|i: int| 0 <= i < odd implies (#[trigger] levels[i]) is Ok && levels[i]
            == levels[0] by {
            assert(!is_odd(levels, i));
        }
        assert(levels[odd] == Err::<u64, ChannelFault>(fault));
    }
    if exists|k: int|
        0 <= k < levels.len() && #[trigger] levels[k] == Err::<u64, ChannelFault>(fault) && (
        forall|i: int| 0 <= i < k ==> (#[trigger] levels[i]) is Ok && levels[i] == levels[0]) {
        let k = choose|k: int|
            0 <= k < levels.len() && #[trigger] levels[k] == Err::<u64, ChannelFault>(fault) && (
            forall|i: int| 0 <= i < k ==> (#[trigger] levels[i]) is Ok && levels[i] == levels[0]);
        assert(is_odd(levels, k));
        if odd < k {
            assert(levels[odd] is Ok);
            assert(!is_odd(levels, odd));
        }
    }
}

proof fn lemma_first_output(sinks: Seq<RootElement>, i: int)
    requires
        0 <= i <= sinks.len(),
    ensures
        i <= first_output(sinks, i) <= sinks.len(),
        forall|j: int| i <= j < first_output(sinks, i) ==> !is_output(#[trigger] sinks[j]),
        first_output(sinks, i) < sinks.len() ==> is_output(sinks[first_output(sinks, i)]),
    decreases sinks.len() - i,
{
    if i < sinks.len() && !is_output(sinks[i]) {
        lemma_first_output(sinks, i + 1);
    }
}

/// The first output of a listing alone decides what is read of it.
pub proof fn law_first_output_decides(sinks: Seq<RootElement>, k: int)
    requires
        0 <= k < sinks.len(),
        is_output(sinks[k]),
        forall|i: int| 0 <= i < k ==> !is_output(#[trigger] sinks[i]),
    ensures
        default_data(sinks) == data_of(sinks[k]),
{
    lemma_first_output(sinks, 0);
    if first_output(sinks, 0) > k {
        assert(!is_output(sinks[k]));
    }
}

/// A listing without an output has no default output sink.
pub proof fn law_no_output_no_default(sinks: Seq<RootElement>)
    ensures
        default_data(sinks) == Err::<PactlData, Error>(Error::NoDefaultSink) <==> forall|i: int|
            0 <= i < sinks.len() ==> !is_output(#[trigger] sinks[i]),
{
    lemma_first_output(sinks, 0);
}

/// Whether all channels before the one at `k` hold the same volume.
pub open spec fn agree_up_to(channels: Seq<(Seq<char>, Json)>, k: int) -> bool {
    exists|level: u64| #[trigger] hold_up_to(channels, k, level)
}

/// Whether all channels before the one at `k` hold this volume.
pub open spec fn hold_up_to(channels: Seq<(Seq<char>, Json)>, k: int, level: u64) -> bool {
    forall|i: int| 0 <= i < k ==> holds_level((#[trigger] channels[i]).1, level)
}

/// Whether the channel at `k` holds another volume than the first one.
pub open spec fn differs_at(channels: Seq<(Seq<char>, Json)>, k: int) -> bool {
    exists|level: u64, other: u64|
        level != other && #[trigger] holds_level(channels[0].1, level) && #[trigger] holds_level(
            channels[k].1,
            other,
        )
}

/// Whether a channel has this fault and all channels before it hold the same volume.
pub open spec fn fault_stands(channels: Seq<(Seq<char>, Json)>, fault: ChannelFault) -> bool {
    exists|k: int|
        0 <= k < channels.len() && agree_up_to(channels, k) && has_fault(
            (#[trigger] channels[k]).1,
            fault,
        )
}

/// Every channel that a sink reports on counts: they have a common volume exactly if there are
/// channels and each of them holds that volume.
pub proof fn law_every_channel_counts(
    volume: serde_json::Map<String, serde_json::Value>,
    level: u64,
)
    ensures
        common_level(channel_levels(json_members(volume))) == Ok::<Option<u64>, ChannelFault>(
            Some(level),
        ) <==> (json_members(volume).len() > 0 && forall|i: int|
            0 <= i < json_members(volume).len() ==> holds_level(
                (#[trigger] json_members(volume)[i]).1,
                level,
            )),
{
    let channels = json_members(volume);
    let levels = channel_levels(channels);
    law_volume_is_shared(levels, level);
    if levels.len() > 0 && forall|i: int|
        0 <= i < channels.len() ==> holds_level((#[trigger] channels[i]).1, level) {
        assert forall|i: int| 0 <= i < levels.len() implies #[trigger] levels[i] == Ok::<
            u64,
            ChannelFault,
        >(level) by {
            assert(holds_level(channels[i].1, level));
        }
    }
    if common_level(levels) == Ok::<Option<u64>, ChannelFault>(Some(level)) {
        assert forall|i: int| 0 <= i < channels.len() implies holds_level(
            (#[trigger] channels[i]).1,
            level,
        ) by {
            assert(levels[i] == Ok::<u64, ChannelFault>(level));
        }
    }
}

/// A sink is without a common volume exactly if it has no channels, or one of them holds another
/// volume than all those before it, whatever comes after it.
pub proof fn law_different_channels_are_told(volume: serde_json::Map<String, serde_json::Value>)
    ensures
        common_level(channel_levels(json_members(volume))) == Ok::<Option<u64>, ChannelFault>(None)
            <==> (json_members(volume).len() == 0 || exists|k: int|
            0 < k < json_members(volume).len() && agree_up_to(json_members(volume), k)
                && #[trigger] differs_at(json_members(volume), k)),
{
    let channels = json_members(volume);
    let levels = channel_levels(channels);
    let odd = first_odd(levels, 0);
    lemma_first_odd(levels, 0);
    if common_level(levels) == Ok::<Option<u64>, ChannelFault>(None) && channels.len() > 0 {
        if odd == 0 {
            assert(levels[0] is Err);
        }
        assert(!is_odd(levels, 0));
        let level = levels[0]->Ok_0;
        assert forall|i: int| 0 <= i < odd implies holds_level(
            (#[trigger] channels[i]).1,
            level,
        ) by {
            assert(!is_odd(levels, i));
        }
        assert(hold_up_to(channels, odd, level));
        assert(holds_level(channels[0].1, level));
        assert(holds_level(channels[odd].1, levels[odd]->Ok_0));
        assert(differs_at(channels, odd));
    }
    if exists|k: int|
        0 < k < channels.len() && agree_up_to(channels, k) && #[trigger] differs_at(channels, k) {
        let k = choose|k: int|
            0 < k < channels.len() && agree_up_to(channels, k) && #[trigger] differs_at(
                channels,
                k,
            );
        let level = choose|level: u64| #[trigger] hold_up_to(channels, k, level);
        assert(holds_level(channels[0].1, level));
        assert(levels[0] == Ok::<u64, ChannelFault>(level));
        assert(is_odd(levels, k));
        if odd < k {
            assert(holds_level(channels[odd].1, level));
            assert(!is_odd(levels, odd));
        }
        assert(levels[k] is Ok);
    }
}

/// A fault in the report on a channel is told exactly if all channels before it hold the same
/// volume, and it is told as it is.
pub proof fn law_fault_is_told(
    volume: serde_json::Map<String, serde_json::Value>,
    fault: ChannelFault,
)
    ensures
        common_level(channel_levels(json_members(volume))) == Err::<Option<u64>, ChannelFault>(
            fault,
        ) <==> fault_stands(json_members(volume), fault),
{
    let channels = json_members(volume);
    let levels = channel_levels(channels);
    let odd = first_odd(levels, 0);
    lemma_first_odd(levels, 0);
    if common_level(levels) == Err::<Option<u64>, ChannelFault>(fault) {
        let level = levels[0]->Ok_0;
        assert forall|i: int| 0 <= i < odd implies holds_level(
            (#[trigger] channels[i]).1,
            level,
        ) by {
            assert(!is_odd(levels, i));
        }
        assert(hold_up_to(channels, odd, level));
        assert(has_fault(channels[odd].1, fault));
    }
    if fault_stands(channels, fault) {
        let k = choose|k: int|
            0 <= k < channels.len() && agree_up_to(channels, k) && has_fault(
                (#[trigger] channels[k]).1,
                fault,
            );
        let level = choose|level: u64| #[trigger] hold_up_to(channels, k, level);
        assert(levels[k] == Err::<u64, ChannelFault>(fault));
        assert(is_odd(levels, k));
        if odd < k {
            assert(holds_level(channels[odd].1, level));
            assert(holds_level(channels[0].1, level));
            assert(!is_odd(levels, odd));
        }
    }
}

/// A reading of a sink carries what that sink says of itself, and its volume is the one that all
/// channels of that sink hold. There is no reading exactly if a fault in the report on a channel
/// is told.
pub proof fn law_reading_is_of_sink(sink: RootElement)
    ensures
        data_of(sink) matches Ok(data) ==> {
            &&& data.base_volume == sink.base_volume.value
            &&& data.index == sink.index
            &&& data.mute == sink.mute
            &&& forall|level: u64|
                data.volume == Some(level) <==> json_members(sink.volume).len() > 0
                    && #[trigger] hold_up_to(
                    json_members(sink.volume),
                    json_members(sink.volume).len() as int,
                    level,
                )
        },
        forall|fault: ChannelFault|
            data_of(sink) == Err::<PactlData, Error>(Error::Channel(fault))
                <==> #[trigger] fault_stands(json_members(sink.volume), fault),
        data_of(sink) matches Err(error) ==> error is Channel,
{
    let channels = json_members(sink.volume);
    assert forall|level: u64|
        common_level(channel_levels(channels)) == Ok::<Option<u64>, ChannelFault>(Some(level)) <==> (
        channels.len() > 0 && #[trigger] hold_up_to(channels, channels.len() as int, level)) by {
        law_every_channel_counts(sink.volume, level);
    }
    assert forall|fault: ChannelFault|
        data_of(sink) == Err::<PactlData, Error>(Error::Channel(fault)) <==> #[trigger] fault_stands(
            channels,
            fault,
        ) by {
        law_fault_is_told(sink.volume, fault);
    }
}

/// Of a listing, it is the first sink whose name begins as that of an output does that is read: a
/// reading carries what that sink says of itself, and a fault in its channels is the only thing
/// that stands in the way.
pub proof fn law_default_reading_is_of_first_output(sinks: Seq<RootElement>, k: int)
    requires
        0 <= k < sinks.len(),
        "alsa_output."@.is_prefix_of(sinks[k].name@),
        forall|i: int| 0 <= i < k ==> !"alsa_output."@.is_prefix_of((#[trigger] sinks[i]).name@),
    ensures
        default_data(sinks) matches Ok(data) ==> {
            &&& data.base_volume == sinks[k].base_volume.value
            &&& data.index == sinks[k].index
            &&& data.mute == sinks[k].mute
            &&& forall|level: u64|
                data.volume == Some(level) <==> json_members(sinks[k].volume).len() > 0
                    && #[trigger] hold_up_to(
                    json_members(sinks[k].volume),
                    json_members(sinks[k].volume).len() as int,
                    level,
                )
        },
        default_data(sinks) matches Err(error) ==> error is Channel,
        forall|fault: ChannelFault|
            default_data(sinks) == Err::<PactlData, Error>(Error::Channel(fault))
                <==> #[trigger] fault_stands(json_members(sinks[k].volume), fault),
        first_output(sinks, 0) == k,
{
    assert forall|i: int| 0 <= i < k implies !is_output(#[trigger] sinks[i]) by {}
    law_first_output_decides(sinks, k);
    lemma_first_output(sinks, 0);
    law_reading_is_of_sink(sinks[k]);
}

/// A listing has no default output sink exactly if no name in it begins as that of an output does.
pub proof fn law_no_output_by_name(sinks: Seq<RootElement>)
    ensures
        default_data(sinks) == Err::<PactlData, Error>(Error::NoDefaultSink) <==> forall|i: int|
            0 <= i < sinks.len() ==> !"alsa_output."@.is_prefix_of((#[trigger] sinks[i]).name@),
        first_output(sinks, 0) == sinks.len() <==> forall|i: int|
            0 <= i < sinks.len() ==> !"alsa_output."@.is_prefix_of((#[trigger] sinks[i]).name@),
{
    lemma_first_output(sinks, 0);
    let k = first_output(sinks, 0);
    if k < sinks.len() {
        assert("alsa_output."@.is_prefix_of(sinks[k].name@));
        assert(!(data_of(sinks[k]) == Err::<PactlData, Error>(Error::NoDefaultSink)));
    } else {
        assert forall|i: int| 0 <= i < sinks.len() implies !"alsa_output."@.is_prefix_of(
            (#[trigger] sinks[i]).name@,
        ) by {
            assert(!is_output(sinks[i]));
        }
    }
}

} // verus!
