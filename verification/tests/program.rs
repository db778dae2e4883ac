use vosd::daemon::{DaemonAction, DaemonReply, Stage};
use vosd::error::Error;
use vosd::notices::{Notice, NoticeAction, Notices};
use vosd::report::{exit_report, log_file_name};
use vosd::sinks::PactlData;
use vosd::subscription::{Subscription, SubscriptionAction, SubscriptionEvent};
use vosd::tasks::{starts_shutdown, TaskEnd};
use vosd::text::{decimal_text, starts_with};

fn reading(mute: bool, volume: Option<u64>) -> PactlData {
    PactlData { base_volume: 65536, index: 57, mute, volume }
}

fn line(text: &str) -> SubscriptionEvent {
    SubscriptionEvent::Line(text.to_string())
}

#[test]
fn numerals() {
    for n in [0_u128, 1, 9, 10, 99, 100, 1_234_567_890, u64::MAX as u128, u128::MAX] {
        assert_eq!(decimal_text(n), format!("{n}"));
    }
}

#[test]
fn prefixes() {
    assert!(starts_with("alsa_output.pci", "alsa_output."));
    assert!(starts_with("alsa_output.", "alsa_output."));
    assert!(starts_with("x", ""));
    assert!(!starts_with("alsa_output", "alsa_output."));
    assert!(!starts_with("", "a"));
    assert!(!starts_with("alsa-output.", "alsa_output."));
    assert!(starts_with("\u{e9}t\u{e9}", "\u{e9}"));
}

#[test]
fn lines_of_other_events() {
    let mut subscription = Subscription::new(&reading(false, Some(1)));
    for other in [
        "Event 'change' on sink #5",
        "Event 'change' on sink #570",
        "Event 'change' on sink #57 ",
        "Event 'new' on sink #57",
        "Event 'change' on source #57",
        "",
    ] {
        assert_eq!(subscription.step(line(other)), SubscriptionAction::ReadLine);
    }
    assert_eq!(
        subscription.step(line("Event 'change' on sink #57")),
        SubscriptionAction::Gather
    );
}

#[test]
fn lines_are_read_first() {
    let (mut subscription, action) = Subscription::start(&reading(false, Some(1)));
    assert_eq!(action, SubscriptionAction::ReadLine);
    assert_eq!(
        subscription.step(line("Event 'change' on sink #57")),
        SubscriptionAction::Gather
    );
}

#[test]
fn news_among_other_events() {
    let (mut subscription, _) = Subscription::start(&reading(false, Some(1)));
    let a = reading(false, Some(1));
    let b = reading(true, Some(1));
    let uneven = reading(true, None);
    let mut sent = Vec::new();
    for data in [a, a, b, b, uneven, uneven, b] {
        for event in [
            line("Event 'new' on client #9"),
            line("Event 'change' on sink #57"),
            SubscriptionEvent::Gathered(data),
            SubscriptionEvent::Sent,
        ] {
            if let SubscriptionAction::Send(data) = subscription.step(event) {
                sent.push(data);
            }
        }
    }
    assert_eq!(sent, vec![a, b, uneven, uneven, b]);
}

#[test]
fn only_changes_are_passed_on() {
    let mut subscription = Subscription::new(&reading(false, Some(1)));
    let mut step = |data: PactlData| subscription.step(SubscriptionEvent::Gathered(data));
    let a = reading(false, Some(1));
    let b = reading(false, Some(2));
    let muted = reading(true, Some(2));
    let uneven = reading(true, None);
    assert_eq!(step(a), SubscriptionAction::Send(a));
    assert_eq!(step(a), SubscriptionAction::ReadLine);
    assert_eq!(step(b), SubscriptionAction::Send(b));
    assert_eq!(step(muted), SubscriptionAction::Send(muted));
    assert_eq!(step(muted), SubscriptionAction::ReadLine);
    assert_eq!(step(uneven), SubscriptionAction::Send(uneven));
    assert_eq!(step(uneven), SubscriptionAction::Send(uneven));
    assert_eq!(step(muted), SubscriptionAction::Send(muted));
    assert_eq!(step(a), SubscriptionAction::Send(a));
}

#[test]
fn other_fields_are_no_change() {
    let mut subscription = Subscription::new(&reading(false, None));
    let first = reading(false, Some(1));
    let second = PactlData { base_volume: 1, index: 2, ..first };
    assert_eq!(
        subscription.step(SubscriptionEvent::Gathered(first)),
        SubscriptionAction::Send(first)
    );
    assert_eq!(
        subscription.step(SubscriptionEvent::Gathered(second)),
        SubscriptionAction::ReadLine
    );
}

#[test]
fn after_passing_on() {
    let mut subscription = Subscription::new(&reading(false, Some(1)));
    let data = reading(false, Some(1));
    assert_eq!(
        subscription.step(SubscriptionEvent::Gathered(data)),
        SubscriptionAction::Send(data)
    );
    assert_eq!(
        subscription.step(SubscriptionEvent::Sent),
        SubscriptionAction::ReadLine
    );
    assert_eq!(
        subscription.step(SubscriptionEvent::Gathered(data)),
        SubscriptionAction::ReadLine
    );
}

#[test]
fn end_of_subscription() {
    let mut subscription = Subscription::new(&reading(false, Some(1)));
    assert_eq!(
        subscription.step(SubscriptionEvent::EndOfOutput),
        SubscriptionAction::Stop(Err(Error::SubscriptionEnded))
    );
    assert_eq!(
        subscription.step(SubscriptionEvent::Cancelled),
        SubscriptionAction::Stop(Ok(()))
    );
}

#[test]
fn becoming_a_daemon() {
    let script = [
        (DaemonAction::Fork, DaemonReply::Child),
        (DaemonAction::StartSession, DaemonReply::Done),
        (DaemonAction::ChangeToRoot, DaemonReply::Done),
        (DaemonAction::Close(0), DaemonReply::Done),
        (DaemonAction::Close(1), DaemonReply::Done),
        (DaemonAction::Close(2), DaemonReply::Done),
        (DaemonAction::OpenNull, DaemonReply::Descriptor(0)),
        (DaemonAction::Duplicate(0), DaemonReply::Descriptor(1)),
        (DaemonAction::Duplicate(0), DaemonReply::Descriptor(2)),
        (DaemonAction::Fork, DaemonReply::Child),
    ];
    let mut stage = Stage::FirstFork;
    for (action, reply) in script {
        assert_eq!(stage.action(), action);
        stage = stage.next(reply);
    }
    assert_eq!(stage.action(), DaemonAction::Finish);
}

#[test]
fn parents_leave() {
    assert_eq!(
        Stage::FirstFork.next(DaemonReply::Parent).action(),
        DaemonAction::Exit
    );
    assert_eq!(
        Stage::SecondFork.next(DaemonReply::Parent).action(),
        DaemonAction::Exit
    );
}

#[test]
fn wrong_descriptors() {
    assert_eq!(
        Stage::OpenInput.next(DaemonReply::Descriptor(3)).action(),
        DaemonAction::Fail { expected: 0, actual: 3 }
    );
    assert_eq!(
        Stage::OpenOutput.next(DaemonReply::Descriptor(2)).action(),
        DaemonAction::Fail { expected: 1, actual: 2 }
    );
    assert_eq!(
        Stage::OpenError.next(DaemonReply::Descriptor(1)).action(),
        DaemonAction::Fail { expected: 2, actual: 1 }
    );
}

#[test]
fn replies_that_do_not_fit() {
    assert_eq!(Stage::OpenInput.next(DaemonReply::Done), Stage::OpenInput);
    assert_eq!(Stage::OpenError.next(DaemonReply::Child), Stage::OpenError);
    assert_eq!(Stage::Daemon.next(DaemonReply::Done), Stage::Daemon);
    assert_eq!(Stage::FirstFork.next(DaemonReply::Done), Stage::Parent);
}

#[test]
fn ends_that_shut_down() {
    for end in [
        TaskEnd::Interrupted,
        TaskEnd::Terminated,
        TaskEnd::ErrorReceived,
        TaskEnd::SubscriptionFailed,
        TaskEnd::ApplicationStopped,
    ] {
        assert!(starts_shutdown(end));
    }
    for end in [
        TaskEnd::SignalsCancelled,
        TaskEnd::ErrorsClosed,
        TaskEnd::ErrorsCancelled,
        TaskEnd::SubscriptionCancelled,
        TaskEnd::ApplicationFailed,
    ] {
        assert!(!starts_shutdown(end));
    }
}

#[test]
fn notices_up_to_the_end() {
    for last in [Notice::NewsClosed, Notice::Cancelled] {
        let mut notices = Notices::new();
        for volume in 0..3 {
            let data = reading(false, Some(volume));
            assert_eq!(notices.handle(Notice::News(data)), vec![NoticeAction::Show(data)]);
            assert!(!notices.over());
        }
        assert_eq!(
            notices.handle(last),
            vec![NoticeAction::ReleaseHold, NoticeAction::Quit]
        );
        assert!(notices.over());
        assert_eq!(notices.handle(Notice::News(reading(false, None))), vec![]);
        assert_eq!(notices.handle(Notice::NewsClosed), vec![]);
        assert_eq!(notices.handle(Notice::Cancelled), vec![]);
    }
}

#[test]
fn log_files() {
    assert_eq!(
        log_file_name(1_700_000_000_123_456_789),
        "vosd---6f983a64f4c2705fb802aa8ed3942f23---1700000000123456789"
    );
}

#[test]
fn last_words() {
    assert_eq!(
        exit_report(None),
        ("(vosd) No error occurred, program exiting".to_string(), Ok(()))
    );
    let bar = "=".repeat(80);
    assert_eq!(
        exit_report(Some("it broke\nbadly")),
        (
            format!("(vosd) >>>\nError occurred, program exiting\n{bar}\nit broke\nbadly\n{bar}"),
            Err(1)
        )
    );
}
