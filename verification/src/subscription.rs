//! Following the events of `pactl subscribe`, and telling which of them change what is shown.
use crate::error::Error;
use crate::sinks::PactlData;
use crate::text::{
    decimal, decimal_text, is_numeral, law_decimal_injective, law_decimal_reads_back,
    law_numerals_are_unique, value_of,
};
use vstd::prelude::*;
use vstd::string::StringExecFns;

verus! {

/// What happened.
#[derive(Debug, PartialEq, Eq)]
pub enum SubscriptionEvent {
    /// A line was read.
    Line(String),
    /// There are no more lines.
    EndOfOutput,
    /// The default output sink was read.
    Gathered(PactlData),
    /// What was read of the sink was passed on.
    Sent,
    /// The program is shutting down.
    Cancelled,
}

/// What to do next.
#[derive(Clone, Copy, Debug, PartialEq, Eq)]
pub enum SubscriptionAction {
    /// Read a line.
    ReadLine,
    /// Read the default output sink.
    Gather,
    /// Pass on what was read of the sink.
    Send(PactlData),
    /// Nothing more: this is the outcome.
    Stop(Result<(), Error>),
}

/// The line that tells of a change to the sink with the given index.
pub open spec fn change_line(index: nat) -> Seq<char> {
    "Event 'change' on sink #"@ + decimal(index)
}

/// Whether a line tells of a change to the sink with the given index: it is the words for that,
/// and a numeral that reads as the index.
pub open spec fn names_sink(line: Seq<char>, index: nat) -> bool {
    let words = "Event 'change' on sink #"@;
    &&& words.is_prefix_of(line)
    &&& is_numeral(line.skip(words.len() as int))
    &&& value_of(line.skip(words.len() as int)) == index
}

/// The line for a sink is the words for a change, and a numeral that reads as the index of that
/// sink. No other line is.
pub proof fn law_line_names_sink(index: nat)
    ensures
        names_sink(change_line(index), index),
        forall|line: Seq<char>| #[trigger] names_sink(line, index) ==> line == change_line(index),
{
    let words = "Event 'change' on sink #"@;
    law_decimal_reads_back(index);
    assert(change_line(index).skip(words.len() as int) =~= decimal(index));
    assert(change_line(index).subrange(0, words.len() as int) =~= words);
    assert forall|line: Seq<char>| #[trigger] names_sink(line, index) implies line == change_line(
        index,
    ) by {
        law_numerals_are_unique(line.skip(words.len() as int), decimal(index));
        assert(line =~= line.subrange(0, words.len() as int) + line.skip(words.len() as int));
    }
}

/// What is remembered of a reading: whether the sink is muted, and its volume.
pub open spec fn remembered(data: PactlData) -> (bool, Option<u64>) {
    (data.mute, data.volume)
}

/// Whether a reading is passed on: unless it has a volume, and the reading before it had the
/// same one and was muted alike.
pub open spec fn is_news(last: Option<(bool, Option<u64>)>, data: PactlData) -> bool {
    !(data.volume is Some && last == Some(remembered(data)))
}

/// What to do about an event, when the given line is waited for and this is remembered of the last
/// reading.
pub open spec fn action_on(
    listen_for: Seq<char>,
    last: Option<(bool, Option<u64>)>,
    event: SubscriptionEvent,
) -> SubscriptionAction {
    match event {
        SubscriptionEvent::Line(line) => if line@ == listen_for {
            SubscriptionAction::Gather
        } else {
            SubscriptionAction::ReadLine
        },
        SubscriptionEvent::EndOfOutput => SubscriptionAction::Stop(Err(Error::SubscriptionEnded)),
        SubscriptionEvent::Gathered(data) => if is_news(last, data) {
            SubscriptionAction::Send(data)
        } else {
            SubscriptionAction::ReadLine
        },
        SubscriptionEvent::Sent => SubscriptionAction::ReadLine,
        SubscriptionEvent::Cancelled => SubscriptionAction::Stop(Ok(())),
    }
}

/// What is remembered of the last reading after an event.
pub open spec fn last_after(
    last: Option<(bool, Option<u64>)>,
    event: SubscriptionEvent,
) -> Option<(bool, Option<u64>)> {
    match event {
        SubscriptionEvent::Gathered(data) => Some(remembered(data)),
        _ => last,
    }
}

/// Where the following of events stands.
pub struct Subscription {
    listen_for: String,
    mute_and_volume: Option<(bool, Option<u64>)>,
}

impl Subscription {
    /// The line that is waited for.
    pub closed spec fn listen_for(self) -> Seq<char> {
        self.listen_for@
    }

    /// Of the last reading, whether the sink was muted, and its volume.
    pub closed spec fn last(self) -> Option<(bool, Option<u64>)> {
        self.mute_and_volume
    }

    /// Begins to follow the sink that was read.
    pub fn new(data: &PactlData) -> (subscription: Subscription)
        ensures
            subscription.listen_for() == change_line(data.index as nat),
            subscription.last() is None,
            names_sink(subscription.listen_for(), data.index as nat),
    {
        proof {
            law_line_names_sink(data.index as nat);
        }
        Subscription {
            listen_for: "Event 'change' on sink #".to_owned().concat(
                decimal_text(data.index as u128).as_str(),
            ),
            mute_and_volume: None,
        }
    }

    /// Begins to follow the sink that was read, and says what to do first.
    pub fn start(data: &PactlData) -> (begun: (Subscription, SubscriptionAction))
        ensures
            begun.0.listen_for() == change_line(data.index as nat),
            begun.0.last() is None,
            begun.1 == SubscriptionAction::ReadLine,
            names_sink(begun.0.listen_for(), data.index as nat),
    {
        (Subscription::new(data), SubscriptionAction::ReadLine)
    }

    /// Takes note of an event, and says what to do next. Only a reading changes what is
    /// remembered.
    pub fn step(&mut self, event: SubscriptionEvent) -> (action: SubscriptionAction)
        ensures
            action == action_on(old(self).listen_for(), old(self).last(), event),
            final(self).listen_for() == old(self).listen_for(),
            final(self).last() == last_after(old(self).last(), event),
            match event {
                SubscriptionEvent::Line(line) => action == (if line@ == old(self).listen_for() {
                    SubscriptionAction::Gather
                } else {
                    SubscriptionAction::ReadLine
                }) && final(self).last() == old(self).last(),
                SubscriptionEvent::Gathered(data) => action == (if data.volume is Some && old(self).last() == Some((data.mute, data.volume)) {
                    SubscriptionAction::ReadLine
                } else {
                    SubscriptionAction::Send(data)
                }) && final(self).last() == Some((data.mute, data.volume)),
                SubscriptionEvent::Sent => action == SubscriptionAction::ReadLine && final(self).last() == old(self).last(),
                SubscriptionEvent::EndOfOutput => action == SubscriptionAction::Stop(
                    Err(Error::SubscriptionEnded),
                ),
                SubscriptionEvent::Cancelled => action == SubscriptionAction::Stop(Ok(())),
            },
    {
        match event {
            SubscriptionEvent::Line(line) => {
                if line == self.listen_for {
                    SubscriptionAction::Gather
                } else {
                    SubscriptionAction::ReadLine
                }
            },
            SubscriptionEvent::EndOfOutput => SubscriptionAction::Stop(
                Err(Error::SubscriptionEnded),
            ),
            SubscriptionEvent::Gathered(data) => {
                let news = match self.mute_and_volume {
                    Some((old_mute, old_volume)) => {
                        if data.mute == old_mute {
                            match (data.volume, old_volume) {
                                (Some(volume), Some(before)) => volume != before,
                                _ => true,
                            }
                        } else {
                            true
                        }
                    },
                    None => true,
                };
                self.mute_and_volume = Some((data.mute, data.volume));
                if news {
                    SubscriptionAction::Send(data)
                } else {
                    SubscriptionAction::ReadLine
                }
            },
            SubscriptionEvent::Sent => SubscriptionAction::ReadLine,
            SubscriptionEvent::Cancelled => SubscriptionAction::Stop(Ok(())),
        }
    }
}

/// The line for one sink is never the line for another.
pub proof fn law_one_line_per_sink(a: nat, b: nat)
    requires
        change_line(a) == change_line(b),
    ensures
        a == b,
{
    let start = "Event 'change' on sink #"@;
    assert(change_line(a).skip(start.len() as int) =~= decimal(a));
    assert(change_line(b).skip(start.len() as int) =~= decimal(b));
    law_decimal_injective(a, b);
}

/// The first reading is passed on.
pub proof fn law_first_reading_is_news(data: PactlData)
    ensures
        is_news(None, data),
{
}

/// A reading without a volume is passed on, whatever came before it.
pub proof fn law_unbalanced_is_news(last: Option<(bool, Option<u64>)>, data: PactlData)
    requires
        data.volume is None,
    ensures
        is_news(last, data),
{
}

/// A reading with a volume is passed on after another one exactly if its volume is another or
/// one of them was muted and the other was not.
pub proof fn law_news_is_change(before: PactlData, data: PactlData)
    requires
        data.volume is Some,
    ensures
        is_news(Some(remembered(before)), data) <==> (data.volume != before.volume || data.mute
            != before.mute),
{
}

/// Of readings taken one after the other, those that are passed on.
pub open spec fn passed_on(
    last: Option<(bool, Option<u64>)>,
    readings: Seq<PactlData>,
) -> Seq<PactlData>
    decreases readings.len(),
{
    if readings.len() == 0 {
        Seq::empty()
    } else {
        let rest = passed_on(Some(remembered(readings[0])), readings.drop_first());
        if is_news(last, readings[0]) {
            seq![readings[0]] + rest
        } else {
            rest
        }
    }
}

/// However many readings there were, it is the one just before it that decides whether a reading
/// is passed on.
pub proof fn law_previous_reading_decides(
    last: Option<(bool, Option<u64>)>,
    readings: Seq<PactlData>,
    before: PactlData,
    data: PactlData,
)
    ensures
        passed_on(last, readings.push(before).push(data)) == (if is_news(
            Some(remembered(before)),
            data,
        ) {
            passed_on(last, readings.push(before)).push(data)
        } else {
            passed_on(last, readings.push(before))
        }),
    decreases readings.len(),
{
    let shorter = readings.push(before);
    let longer = shorter.push(data);
    let now = Some(remembered(longer[0]));
    if readings.len() == 0 {
        assert(shorter.drop_first() =~= Seq::empty());
        assert(longer.drop_first() =~= seq![data]);
        assert(seq![data].drop_first() =~= Seq::empty());
        reveal_with_fuel(passed_on, 3);
    } else {
        let tail = readings.drop_first();
        assert(shorter.drop_first() =~= tail.push(before));
        assert(longer.drop_first() =~= tail.push(before).push(data));
        law_previous_reading_decides(now, tail, before, data);
    }
    assert(passed_on(last, longer) =~= (if is_news(Some(remembered(before)), data) {
        passed_on(last, shorter).push(data)
    } else {
        passed_on(last, shorter)
    }));
}

/// What is done about events that come one after the other.
pub open spec fn actions_on(
    listen_for: Seq<char>,
    last: Option<(bool, Option<u64>)>,
    events: Seq<SubscriptionEvent>,
) -> Seq<SubscriptionAction>
    decreases events.len(),
{
    if events.len() == 0 {
        seq![]
    } else {
        seq![action_on(listen_for, last, events[0])] + actions_on(
            listen_for,
            last_after(last, events[0]),
            events.drop_first(),
        )
    }
}

/// The readings among some events.
pub open spec fn readings_among(events: Seq<SubscriptionEvent>) -> Seq<PactlData>
    decreases events.len(),
{
    if events.len() == 0 {
        seq![]
    } else {
        let rest = readings_among(events.drop_first());
        match events[0] {
            SubscriptionEvent::Gathered(data) => seq![data] + rest,
            _ => rest,
        }
    }
}

/// What is passed on by some actions.
pub open spec fn sent_by(actions: Seq<SubscriptionAction>) -> Seq<PactlData>
    decreases actions.len(),
{
    if actions.len() == 0 {
        seq![]
    } else {
        let rest = sent_by(actions.drop_first());
        match actions[0] {
            SubscriptionAction::Send(data) => seq![data] + rest,
            _ => rest,
        }
    }
}

/// Whatever events come between the readings, what is passed on is those readings that are news,
/// in their order, and nothing else.
pub proof fn law_news_among_events_is_passed_on(
    listen_for: Seq<char>,
    last: Option<(bool, Option<u64>)>,
    events: Seq<SubscriptionEvent>,
)
    ensures
        sent_by(actions_on(listen_for, last, events)) == passed_on(last, readings_among(events)),
    decreases events.len(),
{
    if events.len() > 0 {
        let event = events[0];
        let action = action_on(listen_for, last, event);
        let next = last_after(last, event);
        let rest = events.drop_first();
        let actions = actions_on(listen_for, last, events);
        law_news_among_events_is_passed_on(listen_for, next, rest);
        assert(actions[0] == action);
        assert(actions.drop_first() =~= actions_on(listen_for, next, rest));
        if let SubscriptionEvent::Gathered(data) = event {
            let readings = readings_among(events);
            assert(readings[0] == data);
            assert(readings.drop_first() =~= readings_among(rest));
        }
    }
}

/// The sink is read anew for exactly those lines that tell of a change to the sink that is
/// followed, and the end of the lines or of the program is the only thing that ends it.
pub proof fn law_what_events_lead_to(
    index: nat,
    last: Option<(bool, Option<u64>)>,
    event: SubscriptionEvent,
)
    ensures
        action_on(change_line(index), last, event) is Gather <==> (
        event matches SubscriptionEvent::Line(line) && names_sink(line@, index)),
        action_on(change_line(index), last, event) is Gather <==> (
        event matches SubscriptionEvent::Line(line) && line@ == change_line(index)),
        event is EndOfOutput ==> action_on(change_line(index), last, event)
            == SubscriptionAction::Stop(Err(Error::SubscriptionEnded)),
        event is Cancelled ==> action_on(change_line(index), last, event)
            == SubscriptionAction::Stop(Ok(())),
        action_on(change_line(index), last, event) is Stop <==> (event is EndOfOutput
            || event is Cancelled),
        action_on(change_line(index), last, event) is Send ==> event is Gathered,
{
    law_line_names_sink(index);
}

/// Of the events up to `n`, the place of the last one that was a reading.
pub open spec fn is_last_reading(events: Seq<SubscriptionEvent>, n: int, j: int) -> bool {
    &&& 0 <= j < n
    &&& events[j] is Gathered
    &&& forall|i: int| j < i < n ==> !((#[trigger] events[i]) is Gathered)
}

proof fn lemma_run(
    listen_for: Seq<char>,
    last: Option<(bool, Option<u64>)>,
    events: Seq<SubscriptionEvent>,
    n: int,
)
    requires
        0 <= n < events.len(),
    ensures
        actions_on(listen_for, last, events).len() == events.len(),
        (forall|i: int| 0 <= i < n ==> !((#[trigger] events[i]) is Gathered)) ==> actions_on(
            listen_for,
            last,
            events,
        )[n] == action_on(listen_for, last, events[n]),
        forall|j: int| #[trigger]
            is_last_reading(events, n, j) ==> actions_on(listen_for, last, events)[n] == action_on(
                listen_for,
                Some(remembered(events[j]->Gathered_0)),
                events[n],
            ),
    decreases events.len(),
{
    let rest = events.drop_first();
    let next = last_after(last, events[0]);
    let actions = actions_on(listen_for, last, events);
    let tail = actions_on(listen_for, next, rest);
    assert(actions =~= seq![action_on(listen_for, last, events[0])] + tail);
    if rest.len() == 0 {
        assert(tail.len() == 0);
    } else {
        let m = if n > 0 {
            n - 1
        } else {
            0
        };
        lemma_run(listen_for, next, rest, m);
        assert(forall|i: int| 0 <= i < rest.len() ==> #[trigger] rest[i] == events[i + 1]);
        if n > 0 {
            assert(actions[n] == tail[m]);
            assert forall|j: int| #[trigger] is_last_reading(events, n, j) implies actions[n]
                == action_on(
                listen_for,
                Some(remembered(events[j]->Gathered_0)),
                events[n],
            ) by {
                if j > 0 {
                    assert forall|i: int| j - 1 < i < m implies !((#[trigger] rest[i]) is Gathered) by {
                        assert(rest[i] == events[i + 1]);
                    }
                    assert(is_last_reading(rest, m, j - 1));
                } else {
                    assert forall|i: int| 0 <= i < m implies !((#[trigger] rest[i]) is Gathered) by {
                        assert(rest[i] == events[i + 1]);
                    }
                }
            }
            if forall|i: int| 0 <= i < n ==> !((#[trigger] events[i]) is Gathered) {
                assert(!(events[0] is Gathered));
                assert forall|i: int| 0 <= i < m implies !((#[trigger] rest[i]) is Gathered) by {
                    assert(rest[i] == events[i + 1]);
                }
            }
        }
    }
}

/// Whatever else happens in between, a reading is passed on as it is if it is the first one, if it
/// has no volume, or if its volume or whether the sink is muted is not what it was at the reading
/// before it. Otherwise the next line is read.
pub proof fn law_reading_is_compared_with_the_one_before(
    listen_for: Seq<char>,
    events: Seq<SubscriptionEvent>,
    n: int,
    data: PactlData,
)
    requires
        0 <= n < events.len(),
        events[n] == SubscriptionEvent::Gathered(data),
    ensures
        actions_on(listen_for, None, events).len() == events.len(),
        (forall|i: int| 0 <= i < n ==> !((#[trigger] events[i]) is Gathered)) ==> actions_on(
            listen_for,
            None,
            events,
        )[n] == SubscriptionAction::Send(data),
        forall|j: int| #[trigger]
            is_last_reading(events, n, j) ==> actions_on(listen_for, None, events)[n] == ({
                let before = events[j]->Gathered_0;
                if data.volume is None || data.volume != before.volume || data.mute != before.mute {
                    SubscriptionAction::Send(data)
                } else {
                    SubscriptionAction::ReadLine
                }
            }),
{
    lemma_run(listen_for, None, events, n);
}

/// Whatever has happened before, an event that is no reading leads to what it alone decides.
pub proof fn law_other_events_stand_alone(
    index: nat,
    last: Option<(bool, Option<u64>)>,
    events: Seq<SubscriptionEvent>,
    n: int,
)
    requires
        0 <= n < events.len(),
        !(events[n] is Gathered),
    ensures
        actions_on(change_line(index), last, events)[n] == (match events[n] {
            SubscriptionEvent::Line(line) => if names_sink(line@, index) {
                SubscriptionAction::Gather
            } else {
                SubscriptionAction::ReadLine
            },
            SubscriptionEvent::EndOfOutput => SubscriptionAction::Stop(
                Err(Error::SubscriptionEnded),
            ),
            SubscriptionEvent::Cancelled => SubscriptionAction::Stop(Ok(())),
            _ => SubscriptionAction::ReadLine,
        }),
    decreases events.len(),
{
    let line = change_line(index);
    let next = last_after(last, events[0]);
    law_line_names_sink(index);
    lemma_run(line, last, events, n);
    if n > 0 {
        let rest = events.drop_first();
        law_other_events_stand_alone(index, next, rest, n - 1);
        assert(actions_on(line, last, events)[n] == actions_on(line, next, rest)[n - 1]);
    }
}

} // verus!
