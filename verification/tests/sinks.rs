use serde_json::Value;
use vosd::error::{ChannelFault, Error};
use vosd::gather::{Gather, GatherAction};
use vosd::missing::{MissingValue, OptionToResultExt};
use vosd::sinks::{
    default_sink, read_channel, read_default_sink, read_sink, read_volume, shared_level, BaseVolume, PactlData,
    RootElement,
};

fn object(text: &str) -> serde_json::Map<String, Value> {
    serde_json::from_str::<serde_json::Map<String, Value>>(text).unwrap()
}

fn value(text: &str) -> Value {
    serde_json::from_str::<Value>(text).unwrap()
}

fn sink(index: u64, name: &str, volume: &str) -> RootElement {
    RootElement {
        base_volume: BaseVolume {
            db: "0.00 dB".to_string(),
            value_percent: "100%".to_string(),
            value: 65536,
        },
        index,
        mute: index % 2 == 1,
        name: name.to_string(),
        volume: object(volume),
    }
}

#[test]
fn channels() {
    assert_eq!(read_channel(&value("{\"value\": 42, \"db\": \"x\"}")), Ok(42));
    assert_eq!(
        read_channel(&value("{\"value\": 18446744073709551615}")),
        Ok(u64::MAX)
    );
    assert_eq!(read_channel(&value("42")), Err(ChannelFault::NotAnObject));
    assert_eq!(read_channel(&value("[42]")), Err(ChannelFault::NotAnObject));
    assert_eq!(read_channel(&value("null")), Err(ChannelFault::NotAnObject));
    assert_eq!(read_channel(&value("{\"Value\": 42}")), Err(ChannelFault::NoValue));
    assert_eq!(read_channel(&value("{}")), Err(ChannelFault::NoValue));
    assert_eq!(read_channel(&value("{\"value\": -1}")), Err(ChannelFault::NotUnsigned));
    assert_eq!(read_channel(&value("{\"value\": 1.5}")), Err(ChannelFault::NotUnsigned));
    assert_eq!(read_channel(&value("{\"value\": \"1\"}")), Err(ChannelFault::NotUnsigned));
    assert_eq!(
        read_channel(&value("{\"value\": 18446744073709551616}")),
        Err(ChannelFault::NotUnsigned)
    );
}

#[test]
fn levels_that_agree_or_not() {
    assert_eq!(shared_level(&vec![]), Ok(None));
    assert_eq!(shared_level(&vec![Ok(7)]), Ok(Some(7)));
    assert_eq!(shared_level(&vec![Ok(7), Ok(7), Ok(7)]), Ok(Some(7)));
    assert_eq!(shared_level(&vec![Ok(7), Ok(8)]), Ok(None));
    assert_eq!(shared_level(&vec![Ok(7), Ok(7), Ok(8)]), Ok(None));
    assert_eq!(
        shared_level(&vec![Ok(7), Err(ChannelFault::NoValue)]),
        Err(ChannelFault::NoValue)
    );
    // What comes after two different levels is not looked at.
    assert_eq!(
        shared_level(&vec![Ok(7), Ok(8), Err(ChannelFault::NoValue)]),
        Ok(None)
    );
    assert_eq!(
        shared_level(&vec![Err(ChannelFault::NotAnObject), Ok(7), Ok(8)]),
        Err(ChannelFault::NotAnObject)
    );
}

#[test]
fn volumes_of_sinks() {
    assert_eq!(read_volume(&object("{}")), Ok(None));
    assert_eq!(
        read_volume(&object(
            "{\"front-left\": {\"value\": 5}, \"front-right\": {\"value\": 5}}"
        )),
        Ok(Some(5))
    );
    assert_eq!(
        read_volume(&object(
            "{\"front-left\": {\"value\": 5}, \"front-right\": {\"value\": 6}}"
        )),
        Ok(None)
    );
    assert_eq!(
        read_volume(&object("{\"front-left\": {\"value\": 5}, \"front-right\": 6}")),
        Err(ChannelFault::NotAnObject)
    );
}

#[test]
fn one_sink() {
    assert_eq!(
        read_sink(&sink(3, "any", "{\"mono\": {\"value\": 9}}")),
        Ok(PactlData { base_volume: 65536, index: 3, mute: true, volume: Some(9) })
    );
    assert_eq!(
        read_sink(&sink(3, "any", "{\"mono\": {}}")),
        Err(Error::Channel(ChannelFault::NoValue))
    );
}

#[test]
fn first_output_is_default() {
    let sinks = vec![
        sink(0, "alsa_input.one", "{\"mono\": 1}"),
        sink(1, "ALSA_OUTPUT.two", "{\"mono\": 1}"),
        sink(2, "alsa_output.three", "{\"mono\": {\"value\": 3}}"),
        sink(3, "alsa_output.four", "{\"mono\": 1}"),
    ];
    assert_eq!(default_sink(&sinks), Some(2));
    assert_eq!(
        read_default_sink(&sinks),
        Ok(PactlData { base_volume: 65536, index: 2, mute: false, volume: Some(3) })
    );
}

#[test]
fn output_with_a_fault() {
    let sinks = vec![
        sink(2, "alsa_output.three", "{\"mono\": {\"value\": null}}"),
        sink(3, "alsa_output.four", "{\"mono\": {\"value\": 1}}"),
    ];
    assert_eq!(
        read_default_sink(&sinks),
        Err(Error::Channel(ChannelFault::NotUnsigned))
    );
}

#[test]
fn no_output() {
    assert_eq!(default_sink(&vec![]), None);
    assert_eq!(read_default_sink(&vec![]), Err(Error::NoDefaultSink));
    let sinks = vec![sink(0, "alsa_output", "{}"), sink(1, "x.alsa_output.", "{}"), sink(2, "", "{}")];
    assert_eq!(read_default_sink(&sinks), Err(Error::NoDefaultSink));
    assert_eq!(
        read_default_sink(&vec![sink(4, "alsa_output.", "{}")]),
        Ok(PactlData { base_volume: 65536, index: 4, mute: false, volume: None })
    );
}

#[test]
fn gathering_at_once() {
    let (gather, action) = Gather::start();
    assert_eq!(action, GatherAction::ListSinks);
    assert_eq!(
        gather.listed(Some(&vec![sink(4, "alsa_output.x", "{\"mono\": {\"value\": 8}}")])),
        GatherAction::Finish(Ok(PactlData {
            base_volume: 65536,
            index: 4,
            mute: false,
            volume: Some(8)
        }))
    );
    assert_eq!(
        gather.listed(Some(&vec![sink(4, "other", "{}")])),
        GatherAction::Finish(Err(Error::NoDefaultSink))
    );
}

#[test]
fn gathering_after_empty_listings() {
    let (mut gather, _) = Gather::start();
    for _ in 0..1023 {
        assert_eq!(gather.listed(Some(&vec![])), GatherAction::Sleep(10));
        assert_eq!(gather.slept(), GatherAction::ListSinks);
    }
    assert_eq!(
        gather.listed(Some(&vec![sink(4, "alsa_output.x", "{}")])),
        GatherAction::Finish(Ok(PactlData {
            base_volume: 65536,
            index: 4,
            mute: false,
            volume: None
        }))
    );
    assert_eq!(gather.listed(Some(&vec![])), GatherAction::Sleep(10));
    assert_eq!(gather.slept(), GatherAction::Finish(Err(Error::NoSinks)));
}

#[test]
fn gathering_from_an_unreadable_listing() {
    let (mut gather, _) = Gather::start();
    assert_eq!(gather.listed(None), GatherAction::PassError);
    gather.slept();
    assert_eq!(gather.listed(None), GatherAction::PassError);
}

#[test]
fn missing_values() {
    assert_eq!(Some(3).to_result(), Ok(3));
    assert_eq!(Option::<u64>::None.to_result(), Err(MissingValue));
    assert_eq!(MissingValue.message("u64"), "Value is missing (type `u64`)");
}

#[test]
fn error_messages() {
    assert_eq!(
        Error::Channel(ChannelFault::NotUnsigned).message("u64"),
        "Value is missing (type `u64`)"
    );
    assert_eq!(Error::NoSinks.message(""), "Could not list sinks");
    assert_eq!(
        Error::NoDefaultSink.message(""),
        "Could not identify default output sink"
    );
    assert_eq!(
        Error::SubscriptionEnded.message(""),
        "\"pactl subscribe\" stdout signalled EOF"
    );
    assert_eq!(Error::NoIcon.message(""), "This should be unreachable");
}
