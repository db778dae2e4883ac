use vosd::error::Error;
use vosd::osd::{DisplayEvent, Osd, OsdAction};
use vosd::sinks::PactlData;
use vosd::volume::Icon;
use vosd::window::{VosdWindow, WindowAction};

fn reading(mute: bool, volume: Option<u64>, base_volume: u64) -> PactlData {
    PactlData { base_volume, index: 1, mute, volume }
}

fn balanced(icon: Icon, volume: u64, percent: u8, mute: bool) -> Vec<WindowAction> {
    vec![
        WindowAction::SetIcon(icon),
        WindowAction::SetProgress { volume, base_volume: 100 },
        WindowAction::SetProgressInactive(mute),
        WindowAction::SetPercent(percent),
        WindowAction::SetLabelInactive(mute),
        WindowAction::ShowBalancedBox,
    ]
}

fn up(first: bool) -> Vec<WindowAction> {
    if first {
        vec![WindowAction::StartTimeout(2000), WindowAction::ShowWindow]
    } else {
        vec![
            WindowAction::CancelTimeout,
            WindowAction::StartTimeout(2000),
            WindowAction::ShowWindow,
        ]
    }
}

#[test]
fn first_notification() {
    let mut window = VosdWindow::new();
    let (actions, result) = window.show_volume_change_notification(&reading(false, Some(50), 100));
    assert_eq!(result, Ok(()));
    assert_eq!(actions, [balanced(Icon::Medium, 50, 50, false), up(true)].concat());
    assert!(window.timeout);
    assert!(!window.last_volume_change_notification_had_not_balanced_channels);
}

#[test]
fn muted_notification() {
    let mut window = VosdWindow::new();
    let (actions, result) = window.show_volume_change_notification(&reading(true, Some(80), 100));
    assert_eq!(result, Ok(()));
    assert_eq!(actions, [balanced(Icon::Muted, 80, 80, true), up(true)].concat());
}

#[test]
fn changing_boxes() {
    let mut window = VosdWindow::new();
    let uneven = reading(false, None, 100);
    let even = reading(false, Some(10), 100);
    let (actions, _) = window.show_volume_change_notification(&uneven);
    assert_eq!(
        actions,
        [
            vec![
                WindowAction::HideWindow,
                WindowAction::HideBalancedBox,
                WindowAction::ShowNotBalancedBox
            ],
            up(true)
        ]
        .concat()
    );
    assert!(window.last_volume_change_notification_had_not_balanced_channels);
    let (actions, _) = window.show_volume_change_notification(&uneven);
    assert_eq!(actions, [vec![WindowAction::ShowNotBalancedBox], up(false)].concat());
    let (actions, _) = window.show_volume_change_notification(&even);
    assert_eq!(
        actions,
        [
            vec![WindowAction::HideWindow, WindowAction::HideNotBalancedBox],
            balanced(Icon::Low, 10, 10, false),
            up(false)
        ]
        .concat()
    );
    assert!(!window.last_volume_change_notification_had_not_balanced_channels);
}

#[test]
fn after_the_timeout() {
    let mut window = VosdWindow::new();
    let even = reading(false, Some(10), 100);
    window.show_volume_change_notification(&even);
    window.timeout_elapsed();
    assert!(!window.timeout);
    let (actions, _) = window.show_volume_change_notification(&even);
    assert_eq!(actions, [balanced(Icon::Low, 10, 10, false), up(true)].concat());
}

#[test]
fn notification_that_cannot_be_shown() {
    let mut window = VosdWindow::new();
    let nothing = reading(false, Some(0), 0);
    let (actions, result) = window.show_volume_change_notification(&nothing);
    assert_eq!(actions, vec![]);
    assert_eq!(result, Err(Error::NoIcon));
    assert_eq!(window, VosdWindow::new());

    window.show_volume_change_notification(&reading(false, None, 0));
    let before = window;
    let (actions, result) = window.show_volume_change_notification(&nothing);
    assert_eq!(actions, vec![WindowAction::HideWindow, WindowAction::HideNotBalancedBox]);
    assert_eq!(result, Err(Error::NoIcon));
    assert_eq!(window, before);

    let (_, result) = window.show_volume_change_notification(&reading(true, Some(0), 0));
    assert_eq!(result, Ok(()));
}

#[test]
fn windows_on_monitors() {
    let mut osd = Osd::new();
    assert_eq!(
        osd.display_changed(DisplayEvent::Activated, &vec![true, false, true]),
        vec![OsdAction::Clear, OsdAction::AddOn(0), OsdAction::AddOn(2)]
    );
    assert_eq!(
        osd.display_changed(DisplayEvent::MonitorAdded, &vec![]),
        vec![OsdAction::AddOnNew]
    );
    assert_eq!(
        osd.display_changed(DisplayEvent::MonitorRemoved, &vec![true]),
        vec![
            OsdAction::Close(0),
            OsdAction::Close(1),
            OsdAction::Close(2),
            OsdAction::Clear,
            OsdAction::AddOn(0)
        ]
    );
    assert_eq!(
        osd.display_changed(DisplayEvent::Closed, &vec![true]),
        vec![OsdAction::Close(0), OsdAction::Clear]
    );
    assert_eq!(
        osd.display_changed(DisplayEvent::Opened, &vec![true]),
        vec![OsdAction::Clear, OsdAction::AddOn(0)]
    );
}

#[test]
fn opening_anew_twice() {
    let monitors = vec![true, false, true];
    let mut osd = Osd::new();
    osd.initialize_windows(&monitors);
    for _ in 0..2 {
        assert_eq!(
            osd.initialize_windows(&monitors),
            vec![
                OsdAction::Close(0),
                OsdAction::Close(1),
                OsdAction::Clear,
                OsdAction::AddOn(0),
                OsdAction::AddOn(2),
            ]
        );
    }
}

#[test]
fn added_window_leaves_the_others() {
    let uneven = reading(false, None, 100);
    let mut osd = Osd::new();
    osd.initialize_windows(&vec![true]);
    osd.show_volume_change(&uneven);
    osd.display_changed(DisplayEvent::MonitorAdded, &vec![]);
    assert_eq!(
        osd.show_volume_change(&uneven),
        vec![
            OsdAction::Window(0, WindowAction::ShowNotBalancedBox),
            OsdAction::Window(0, WindowAction::CancelTimeout),
            OsdAction::Window(0, WindowAction::StartTimeout(2000)),
            OsdAction::Window(0, WindowAction::ShowWindow),
            OsdAction::Window(1, WindowAction::HideWindow),
            OsdAction::Window(1, WindowAction::HideBalancedBox),
            OsdAction::Window(1, WindowAction::ShowNotBalancedBox),
            OsdAction::Window(1, WindowAction::StartTimeout(2000)),
            OsdAction::Window(1, WindowAction::ShowWindow),
        ]
    );
}

#[test]
fn one_timer_at_a_time() {
    let mut window = VosdWindow::new();
    let mut timers = 0;
    for round in 0..20_u64 {
        if round % 7 == 6 && timers > 0 {
            timers -= 1;
            window.timeout_elapsed();
        }
        let volume = if round % 3 == 0 { None } else { Some(round % 2) };
        let (actions, _) = window.show_volume_change_notification(&reading(false, volume, 0));
        for action in actions {
            match action {
                WindowAction::StartTimeout(_) => timers += 1,
                WindowAction::CancelTimeout => timers -= 1,
                _ => {}
            }
        }
        assert_eq!(timers, if window.timeout { 1 } else { 0 });
    }
}

#[test]
fn all_windows_are_notified() {
    let mut osd = Osd::new();
    osd.initialize_windows(&vec![true, true]);
    let uneven = reading(false, None, 100);
    let steps = [
        WindowAction::HideWindow,
        WindowAction::HideBalancedBox,
        WindowAction::ShowNotBalancedBox,
        WindowAction::StartTimeout(2000),
        WindowAction::ShowWindow,
    ];
    let mut expected = Vec::new();
    for id in 0..2 {
        for step in steps {
            expected.push(OsdAction::Window(id, step));
        }
    }
    assert_eq!(osd.show_volume_change(&uneven), expected);
}

#[test]
fn errors_do_not_stop_other_windows() {
    let mut osd = Osd::new();
    osd.initialize_windows(&vec![true]);
    osd.show_volume_change(&reading(false, None, 100));
    osd.display_changed(DisplayEvent::MonitorAdded, &vec![]);
    assert_eq!(
        osd.show_volume_change(&reading(false, Some(0), 0)),
        vec![
            OsdAction::Window(0, WindowAction::HideWindow),
            OsdAction::Window(0, WindowAction::HideNotBalancedBox),
            OsdAction::Report(Error::NoIcon),
            OsdAction::Report(Error::NoIcon),
        ]
    );
}

#[test]
fn timeouts_of_windows() {
    let mut osd = Osd::new();
    osd.initialize_windows(&vec![true, true]);
    let uneven = reading(false, None, 100);
    osd.show_volume_change(&uneven);
    assert_eq!(osd.timeout_elapsed(Some(1)), WindowAction::HideWindow);
    assert_eq!(
        osd.show_volume_change(&uneven),
        vec![
            OsdAction::Window(0, WindowAction::ShowNotBalancedBox),
            OsdAction::Window(0, WindowAction::CancelTimeout),
            OsdAction::Window(0, WindowAction::StartTimeout(2000)),
            OsdAction::Window(0, WindowAction::ShowWindow),
            OsdAction::Window(1, WindowAction::ShowNotBalancedBox),
            OsdAction::Window(1, WindowAction::StartTimeout(2000)),
            OsdAction::Window(1, WindowAction::ShowWindow),
        ]
    );
    // A window that is gone is hidden all the same, and the others keep their timeouts.
    assert_eq!(osd.timeout_elapsed(None), WindowAction::HideWindow);
    assert_eq!(osd.timeout_elapsed(Some(9)), WindowAction::HideWindow);
    assert_eq!(
        osd.show_volume_change(&uneven)[1],
        OsdAction::Window(0, WindowAction::CancelTimeout)
    );
}

#[test]
fn closing_windows() {
    let mut osd = Osd::new();
    osd.initialize_windows(&vec![true, true]);
    assert_eq!(
        osd.close_all_windows(),
        vec![OsdAction::Close(0), OsdAction::Close(1), OsdAction::Clear]
    );
    assert_eq!(osd.show_volume_change(&reading(false, None, 100)), vec![]);
}
