//! What is seen of a window, and what its notifications make of that.
use crate::osd::{done_to, law_every_window_is_notified, notified, notifying, Osd};
use crate::sinks::PactlData;
use crate::subscription::{
    action_on, is_news, remembered, SubscriptionAction, SubscriptionEvent,
};
use crate::volume::{icon_for, percent_of, share, Icon};
use crate::window::{
    can_show, fill_balanced_box, put_up, VosdWindow, WindowAction, TIMEOUT_MILLIS,
};
use vstd::prelude::*;

verus! {

/// The state of the widgets and the timers of one window.
#[verifier::ext_equal]
pub struct Screen {
    pub window: bool,
    pub balanced_box: bool,
    pub not_balanced_box: bool,
    pub icon: Icon,
    /// The volume and the base volume that the progress bar shows.
    pub progress: Option<(u64, u64)>,
    pub progress_inactive: bool,
    pub percent: Option<u8>,
    pub label_inactive: bool,
    /// The timers that are running, in the order in which they were started.
    pub timers: Seq<u64>,
}

/// A window as it is made: nothing of it is up.
pub open spec fn new_screen() -> Screen {
    Screen {
        window: false,
        balanced_box: false,
        not_balanced_box: false,
        icon: Icon::Muted,
        progress: None,
        progress_inactive: false,
        percent: None,
        label_inactive: false,
        timers: Seq::empty(),
    }
}

/// The timers that are left when the first one is called off or has elapsed.
pub open spec fn without_first(timers: Seq<u64>) -> Seq<u64> {
    if timers.len() == 0 {
        timers
    } else {
        timers.drop_first()
    }
}

impl Screen {
    /// The effect of one action.
    pub open spec fn after(self, action: WindowAction) -> Screen {
        match action {
            WindowAction::HideWindow => Screen { window: false, ..self },
            WindowAction::ShowWindow => Screen { window: true, ..self },
            WindowAction::HideBalancedBox => Screen { balanced_box: false, ..self },
            WindowAction::ShowBalancedBox => Screen { balanced_box: true, ..self },
            WindowAction::HideNotBalancedBox => Screen { not_balanced_box: false, ..self },
            WindowAction::ShowNotBalancedBox => Screen { not_balanced_box: true, ..self },
            WindowAction::SetIcon(icon) => Screen { icon, ..self },
            WindowAction::SetProgress { volume, base_volume } => Screen {
                progress: Some((volume, base_volume)),
                ..self
            },
            WindowAction::SetProgressInactive(inactive) => Screen {
                progress_inactive: inactive,
                ..self
            },
            WindowAction::SetPercent(percent) => Screen { percent: Some(percent), ..self },
            WindowAction::SetLabelInactive(inactive) => Screen { label_inactive: inactive, ..self },
            WindowAction::CancelTimeout => Screen { timers: without_first(self.timers), ..self },
            WindowAction::StartTimeout(millis) => Screen {
                timers: self.timers.push(millis),
                ..self
            },
        }
    }

    /// The effect of actions taken one after the other.
    pub open spec fn after_all(self, actions: Seq<WindowAction>) -> Screen
        decreases actions.len(),
    {
        if actions.len() == 0 {
            self
        } else {
            self.after_all(actions.drop_last()).after(actions.last())
        }
    }

    /// What is remembered of a window agrees with what is seen of it: the box that was not shown
    /// last is hidden, and one timer is running if a timeout is known of, and none otherwise.
    pub open spec fn agrees_with(self, window: VosdWindow) -> bool {
        &&& window.last_volume_change_notification_had_not_balanced_channels ==> !self.balanced_box
        &&& !window.last_volume_change_notification_had_not_balanced_channels
            ==> !self.not_balanced_box
        &&& self.timers.len() == (if window.timeout {
            1nat
        } else {
            0nat
        })
    }
}

proof fn lemma_after_push(screen: Screen, actions: Seq<WindowAction>, action: WindowAction)
    ensures
        screen.after_all(actions.push(action)) == screen.after_all(actions).after(action),
{
    assert(actions.push(action).drop_last() =~= actions);
}

proof fn lemma_after_add(screen: Screen, a: Seq<WindowAction>, b: Seq<WindowAction>)
    ensures
        screen.after_all(a + b) == screen.after_all(a).after_all(b),
    decreases b.len(),
{
    if b.len() == 0 {
        assert(a + b =~= a);
    } else {
        lemma_after_add(screen, a, b.drop_last());
        assert((a + b).drop_last() =~= a + b.drop_last());
    }
}

proof fn lemma_clear_away(screen: Screen, window: VosdWindow, balanced: bool)
    requires
        screen.agrees_with(window),
    ensures
        screen.after_all(window.clear_away(balanced)) == (if window.clear_away(balanced).len() == 0 {
            screen
        } else {
            Screen {
                window: false,
                balanced_box: balanced && screen.balanced_box,
                not_balanced_box: !balanced && screen.not_balanced_box,
                ..screen
            }
        }),
        balanced ==> !screen.after_all(window.clear_away(balanced)).not_balanced_box,
        !balanced ==> !screen.after_all(window.clear_away(balanced)).balanced_box,
{
    let actions = window.clear_away(balanced);
    if actions.len() > 0 {
        assert(actions =~= Seq::empty().push(actions[0]).push(actions[1]));
        lemma_after_push(screen, Seq::empty().push(actions[0]), actions[1]);
        lemma_after_push(screen, Seq::empty(), actions[0]);
    }
}

proof fn lemma_put_up(screen: Screen, timeout: bool)
    requires
        screen.timers.len() == (if timeout {
            1nat
        } else {
            0nat
        }),
    ensures
        screen.after_all(put_up(timeout)) == (Screen {
            window: true,
            timers: seq![TIMEOUT_MILLIS],
            ..screen
        }),
{
    let start = WindowAction::StartTimeout(TIMEOUT_MILLIS);
    let first: Seq<WindowAction> = if timeout {
        seq![WindowAction::CancelTimeout]
    } else {
        seq![]
    };
    assert(put_up(timeout) =~= first.push(start).push(WindowAction::ShowWindow));
    lemma_after_push(screen, first.push(start), WindowAction::ShowWindow);
    lemma_after_push(screen, first, start);
    if timeout {
        assert(first =~= Seq::empty().push(WindowAction::CancelTimeout));
        lemma_after_push(screen, Seq::empty(), WindowAction::CancelTimeout);
    }
    assert(screen.after_all(first).timers =~= Seq::empty());
    assert(screen.after_all(put_up(timeout)).timers =~= seq![TIMEOUT_MILLIS]);
}

proof fn lemma_fill_balanced_box(
    screen: Screen,
    mute: bool,
    volume: u64,
    base_volume: u64,
    icon: Icon,
)
    ensures
        screen.after_all(fill_balanced_box(mute, volume, base_volume, icon)) == (Screen {
            balanced_box: true,
            icon,
            progress: Some((volume, base_volume)),
            progress_inactive: mute,
            percent: Some(percent_of(share(volume as nat, base_volume as nat)) as u8),
            label_inactive: mute,
            ..screen
        }),
{
    let all = fill_balanced_box(mute, volume, base_volume, icon);
    assert(all.take(0) =~= Seq::empty());
    assert(all.take(1) =~= all.take(0).push(all[0]));
    assert(all.take(2) =~= all.take(1).push(all[1]));
    assert(all.take(3) =~= all.take(2).push(all[2]));
    assert(all.take(4) =~= all.take(3).push(all[3]));
    assert(all.take(5) =~= all.take(4).push(all[4]));
    assert(all =~= all.take(5).push(all[5]));
    lemma_after_push(screen, all.take(0), all[0]);
    lemma_after_push(screen, all.take(1), all[1]);
    lemma_after_push(screen, all.take(2), all[2]);
    lemma_after_push(screen, all.take(3), all[3]);
    lemma_after_push(screen, all.take(4), all[4]);
    lemma_after_push(screen, all.take(5), all[5]);
}

/// What is remembered of a new window agrees with what is seen of it.
pub proof fn law_new_window_agrees()
    ensures
        new_screen().agrees_with(
            VosdWindow {
                last_volume_change_notification_had_not_balanced_channels: false,
                timeout: false,
            },
        ),
{
}

/// A reading with a volume that can be shown is shown: the window is up for the whole time of a
/// timeout, with the box for channels with the same volume and without the other one, and with
/// the icon and the percentage of the volume, drawn as inactive exactly if the sink is muted.
pub proof fn law_balanced_reading_is_shown(
    screen: Screen,
    window: VosdWindow,
    data: PactlData,
    volume: u64,
)
    requires
        screen.agrees_with(window),
        data.volume == Some(volume),
        can_show(data),
    ensures
        ({
            let shown = screen.after_all(window.notification(data));
            let fraction = share(volume as nat, data.base_volume as nat);
            &&& shown.window
            &&& shown.timers == seq![TIMEOUT_MILLIS]
            &&& shown.balanced_box
            &&& !shown.not_balanced_box
            &&& icon_for(data.mute, fraction) == Some(shown.icon)
            &&& shown.progress == Some((volume, data.base_volume))
            &&& shown.percent == Some(percent_of(fraction) as u8)
            &&& shown.progress_inactive == data.mute
            &&& shown.label_inactive == data.mute
            &&& shown.agrees_with(window.notified(data))
        }),
{
    let icon = icon_for(data.mute, share(volume as nat, data.base_volume as nat))->Some_0;
    let clear = window.clear_away(true);
    let fill = fill_balanced_box(data.mute, volume, data.base_volume, icon);
    lemma_clear_away(screen, window, true);
    lemma_after_add(screen, clear, fill);
    lemma_after_add(screen, clear + fill, put_up(window.timeout));
    lemma_fill_balanced_box(screen.after_all(clear), data.mute, volume, data.base_volume, icon);
    lemma_put_up(screen.after_all(clear + fill), window.timeout);
}

/// A reading without a volume is shown: the window is up for the whole time of a timeout, with
/// the box for channels with different volumes and without the other one. What the other one
/// holds stays as it was.
pub proof fn law_not_balanced_reading_is_shown(screen: Screen, window: VosdWindow, data: PactlData)
    requires
        screen.agrees_with(window),
        data.volume is None,
    ensures
        screen.after_all(window.notification(data)) == (Screen {
            window: true,
            balanced_box: false,
            not_balanced_box: true,
            timers: seq![TIMEOUT_MILLIS],
            ..screen
        }),
        screen.after_all(window.notification(data)).agrees_with(window.notified(data)),
{
    let clear = window.clear_away(false);
    let show: Seq<WindowAction> = seq![WindowAction::ShowNotBalancedBox];
    lemma_clear_away(screen, window, false);
    lemma_after_add(screen, clear, show);
    lemma_after_add(screen, clear + show, put_up(window.timeout));
    assert(show =~= Seq::empty().push(WindowAction::ShowNotBalancedBox));
    lemma_after_push(screen.after_all(clear), Seq::empty(), WindowAction::ShowNotBalancedBox);
    lemma_put_up(screen.after_all(clear + show), window.timeout);
}

/// A reading that cannot be shown changes nothing, but where the box for channels with different
/// volumes was shown last: that box is then hidden, and the window is taken down. What is
/// remembered of the window still agrees with what is seen of it.
pub proof fn law_reading_that_cannot_be_shown(screen: Screen, window: VosdWindow, data: PactlData)
    requires
        screen.agrees_with(window),
        !can_show(data),
    ensures
        screen.after_all(window.notification(data)) == (
        if window.last_volume_change_notification_had_not_balanced_channels {
            Screen { window: false, not_balanced_box: false, ..screen }
        } else {
            screen
        }),
        screen.after_all(window.notification(data)).agrees_with(window.notified(data)),
{
    lemma_clear_away(screen, window, true);
}

/// What is seen of a window after the first of its timers has elapsed, before anything is done.
pub open spec fn timer_elapsed(screen: Screen) -> Screen {
    Screen { timers: without_first(screen.timers), ..screen }
}

/// The end of the timeout takes the window down, and nothing else. No timer is left then.
pub proof fn law_timeout_takes_down(screen: Screen, window: VosdWindow)
    requires
        screen.agrees_with(window),
    ensures
        ({
            let left = timer_elapsed(screen).after_all(seq![WindowAction::HideWindow]);
            &&& left == (Screen { window: false, timers: Seq::empty(), ..screen })
            &&& left.agrees_with(VosdWindow { timeout: false, ..window })
        }),
{
    let elapsed = timer_elapsed(screen);
    assert(seq![WindowAction::HideWindow] =~= Seq::empty().push(WindowAction::HideWindow));
    lemma_after_push(elapsed, Seq::empty(), WindowAction::HideWindow);
    assert(elapsed.timers =~= Seq::empty());
}

/// What happens to a window.
pub enum WindowEvent {
    /// A reading is to be shown.
    Reading(PactlData),
    /// The first of its timers has elapsed.
    Elapsed,
}

/// What is remembered of a window, and what is seen of it, after an event.
pub open spec fn after_event(window: VosdWindow, screen: Screen, event: WindowEvent) -> (
    VosdWindow,
    Screen,
) {
    match event {
        WindowEvent::Reading(data) => (
            window.notified(data),
            screen.after_all(window.notification(data)),
        ),
        WindowEvent::Elapsed => (
            VosdWindow { timeout: false, ..window },
            timer_elapsed(screen).after_all(seq![WindowAction::HideWindow]),
        ),
    }
}

/// What is remembered of a window, and what is seen of it, after events that come one after the
/// other.
pub open spec fn after_events(window: VosdWindow, screen: Screen, events: Seq<WindowEvent>) -> (
    VosdWindow,
    Screen,
)
    decreases events.len(),
{
    if events.len() == 0 {
        (window, screen)
    } else {
        let (next_window, next_screen) = after_event(window, screen, events[0]);
        after_events(next_window, next_screen, events.drop_first())
    }
}

proof fn lemma_events_keep_agreement(
    window: VosdWindow,
    screen: Screen,
    events: Seq<WindowEvent>,
)
    requires
        screen.agrees_with(window),
    ensures
        ({
            let (last_window, last_screen) = after_events(window, screen, events);
            last_screen.agrees_with(last_window)
        }),
    decreases events.len(),
{
    if events.len() > 0 {
        match events[0] {
            WindowEvent::Reading(data) => {
                if !can_show(data) {
                    law_reading_that_cannot_be_shown(screen, window, data);
                } else if data.volume is None {
                    law_not_balanced_reading_is_shown(screen, window, data);
                } else {
                    law_balanced_reading_is_shown(screen, window, data, data.volume->Some_0);
                }
            },
            WindowEvent::Elapsed => {
                law_timeout_takes_down(screen, window);
            },
        }
        let (next_window, next_screen) = after_event(window, screen, events[0]);
        lemma_events_keep_agreement(next_window, next_screen, events.drop_first());
    }
}

/// Whatever is shown on a window, and whenever its timers elapse, there is never more than one
/// timer: one if a timeout is known of, and none otherwise. And never are both boxes shown.
pub proof fn law_at_most_one_timer(events: Seq<WindowEvent>)
    ensures
        ({
            let new_window = VosdWindow {
                last_volume_change_notification_had_not_balanced_channels: false,
                timeout: false,
            };
            let (window, screen) = after_events(new_window, new_screen(), events);
            &&& screen.timers.len() == (if window.timeout {
                1nat
            } else {
                0nat
            })
            &&& !(screen.balanced_box && screen.not_balanced_box)
            &&& screen.agrees_with(window)
        }),
{
    let new_window = VosdWindow {
        last_volume_change_notification_had_not_balanced_channels: false,
        timeout: false,
    };
    lemma_events_keep_agreement(new_window, new_screen(), events);
}

/// Only a volume of nothing out of nothing, on a sink that is not muted, cannot be shown.
pub proof fn law_what_cannot_be_shown(data: PactlData)
    ensures
        can_show(data) <==> !(data.volume == Some(0u64) && data.base_volume == 0 && !data.mute),
{
}

/// News are displayed: a reading that is news, the first one among them, is passed on, and every
/// window comes up with it. With a volume, it shows its icon and its percentage, and without one,
/// that the channels have different volumes.
pub proof fn law_news_is_displayed(
    listen_for: Seq<char>,
    last: Option<(bool, Option<u64>)>,
    osd: Osd,
    k: int,
    screen: Screen,
    data: PactlData,
)
    requires
        0 <= k < osd@.len(),
        screen.agrees_with(osd@[k]),
        is_news(last, data),
        can_show(data),
    ensures
        action_on(listen_for, last, SubscriptionEvent::Gathered(data)) == SubscriptionAction::Send(
            data,
        ),
        ({
            let actions = notifying(osd@, data, osd@.len());
            let shown = screen.after_all(done_to(actions, k));
            &&& shown.window
            &&& shown.timers == seq![TIMEOUT_MILLIS]
            &&& shown.balanced_box == (data.volume is Some)
            &&& shown.not_balanced_box == (data.volume is None)
            &&& data.volume matches Some(volume) ==> {
                let fraction = share(volume as nat, data.base_volume as nat);
                &&& icon_for(data.mute, fraction) == Some(shown.icon)
                &&& shown.progress == Some((volume, data.base_volume))
                &&& shown.percent == Some(percent_of(fraction) as u8)
                &&& shown.progress_inactive == data.mute
                &&& shown.label_inactive == data.mute
            }
            &&& shown.agrees_with(notified(osd@, data)[k])
        }),
{
    law_every_window_is_notified(osd, data, k);
    match data.volume {
        Some(volume) => {
            law_balanced_reading_is_shown(screen, osd@[k], data, volume);
        },
        None => {
            law_not_balanced_reading_is_shown(screen, osd@[k], data);
        },
    }
}

/// A change is displayed: a reading with another volume than the one before it, or one that is
/// muted where that one was not or the other way round, is passed on, and every window comes up
/// with its icon and its percentage.
pub proof fn law_change_is_displayed(
    osd: Osd,
    k: int,
    screen: Screen,
    before: PactlData,
    data: PactlData,
    volume: u64,
)
    requires
        0 <= k < osd@.len(),
        screen.agrees_with(osd@[k]),
        data.volume == Some(volume),
        data.volume != before.volume || data.mute != before.mute,
        can_show(data),
    ensures
        is_news(Some(remembered(before)), data),
        ({
            let actions = notifying(osd@, data, osd@.len());
            let shown = screen.after_all(done_to(actions, k));
            let fraction = share(volume as nat, data.base_volume as nat);
            &&& shown.window
            &&& shown.timers == seq![TIMEOUT_MILLIS]
            &&& shown.balanced_box
            &&& !shown.not_balanced_box
            &&& icon_for(data.mute, fraction) == Some(shown.icon)
            &&& shown.percent == Some(percent_of(fraction) as u8)
            &&& shown.agrees_with(notified(osd@, data)[k])
        }),
{
    law_every_window_is_notified(osd, data, k);
    law_balanced_reading_is_shown(screen, osd@[k], data, volume);
}

/// Channels with different volumes are displayed: a reading without a volume is passed on
/// whatever came before it, and every window comes up and says so.
pub proof fn law_imbalance_is_displayed(
    osd: Osd,
    k: int,
    screen: Screen,
    last: Option<(bool, Option<u64>)>,
    data: PactlData,
)
    requires
        0 <= k < osd@.len(),
        screen.agrees_with(osd@[k]),
        data.volume is None,
    ensures
        is_news(last, data),
        ({
            let actions = notifying(osd@, data, osd@.len());
            let shown = screen.after_all(done_to(actions, k));
            &&& shown.window
            &&& shown.timers == seq![TIMEOUT_MILLIS]
            &&& shown.not_balanced_box
            &&& !shown.balanced_box
            &&& shown.agrees_with(notified(osd@, data)[k])
        }),
{
    law_every_window_is_notified(osd, data, k);
    law_not_balanced_reading_is_shown(screen, osd@[k], data);
}

impl Screen {
    /// What is remembered of a window agrees with what is seen of it, and a window that is up shows
    /// the box that was shown last, and has a timer that will take it down.
    pub open spec fn is_sound_for(self, window: VosdWindow) -> bool {
        &&& self.agrees_with(window)
        &&& self.window ==> window.timeout
        &&& self.window ==> self.balanced_box
            == !window.last_volume_change_notification_had_not_balanced_channels
        &&& self.window ==> self.not_balanced_box
            == window.last_volume_change_notification_had_not_balanced_channels
    }
}

proof fn lemma_events_keep_sound(window: VosdWindow, screen: Screen, events: Seq<WindowEvent>)
    requires
        screen.is_sound_for(window),
    ensures
        ({
            let (last_window, last_screen) = after_events(window, screen, events);
            last_screen.is_sound_for(last_window)
        }),
    decreases events.len(),
{
    if events.len() > 0 {
        match events[0] {
            WindowEvent::Reading(data) => {
                if !can_show(data) {
                    law_reading_that_cannot_be_shown(screen, window, data);
                } else if data.volume is None {
                    law_not_balanced_reading_is_shown(screen, window, data);
                } else {
                    law_balanced_reading_is_shown(screen, window, data, data.volume->Some_0);
                }
            },
            WindowEvent::Elapsed => {
                law_timeout_takes_down(screen, window);
            },
        }
        let (next_window, next_screen) = after_event(window, screen, events[0]);
        lemma_events_keep_sound(next_window, next_screen, events.drop_first());
    }
}

/// Whatever happens to a window, it never stays up for good: as long as it is up, one timer is
/// running, and it shows one of the boxes.
pub proof fn law_no_window_stays_up(events: Seq<WindowEvent>)
    ensures
        ({
            let new_window = VosdWindow {
                last_volume_change_notification_had_not_balanced_channels: false,
                timeout: false,
            };
            let (window, screen) = after_events(new_window, new_screen(), events);
            &&& screen.is_sound_for(window)
            &&& screen.window ==> screen.timers.len() == 1
            &&& screen.window ==> screen.balanced_box != screen.not_balanced_box
        }),
{
    let new_window = VosdWindow {
        last_volume_change_notification_had_not_balanced_channels: false,
        timeout: false,
    };
    lemma_events_keep_sound(new_window, new_screen(), events);
}

/// A window stays up for two seconds.
pub proof fn law_window_is_up_for_two_seconds(screen: Screen, window: VosdWindow, data: PactlData)
    requires
        screen.agrees_with(window),
        can_show(data),
    ensures
        screen.after_all(window.notification(data)).window,
        screen.after_all(window.notification(data)).timers == seq![2000u64],
{
    if data.volume is None {
        law_not_balanced_reading_is_shown(screen, window, data);
    } else {
        law_balanced_reading_is_shown(screen, window, data, data.volume->Some_0);
    }
}

proof fn lemma_step(screen: Screen, actions: Seq<WindowAction>, n: int)
    requires
        0 < n <= actions.len(),
    ensures
        screen.after_all(actions.take(n)) == screen.after_all(actions.take(n - 1)).after(
            actions[n - 1],
        ),
{
    assert(actions.take(n) =~= actions.take(n - 1).push(actions[n - 1]));
    lemma_after_push(screen, actions.take(n - 1), actions[n - 1]);
}

/// Actions that change what a box holds, and nothing else.
spec fn fills(action: WindowAction) -> bool {
    action is SetIcon || action is SetProgress || action is SetProgressInactive
        || action is SetPercent || action is SetLabelInactive
}

proof fn lemma_steps(
    screen: Screen,
    balanced: bool,
    clear: Seq<WindowAction>,
    fill: Seq<WindowAction>,
    timeout: bool,
    n: int,
)
    requires
        0 <= n <= (clear + fill + put_up(timeout)).len(),
        clear.len() == 0 || clear == (if balanced {
            seq![WindowAction::HideWindow, WindowAction::HideNotBalancedBox]
        } else {
            seq![WindowAction::HideWindow, WindowAction::HideBalancedBox]
        }),
        fill.len() > 0,
        forall|i: int| 0 <= i < fill.len() - 1 ==> fills(#[trigger] fill[i]),
        fill[fill.len() - 1] == (if balanced {
            WindowAction::ShowBalancedBox
        } else {
            WindowAction::ShowNotBalancedBox
        }),
        screen.timers.len() == (if timeout {
            1nat
        } else {
            0nat
        }),
    ensures
        ({
            let actions = clear + fill + put_up(timeout);
            let cleared = clear.len() > 0 && n >= 2;
            let filled = n >= clear.len() + fill.len();
            let now = screen.after_all(actions.take(n));
            &&& now.window == (if n == actions.len() {
                true
            } else if clear.len() > 0 && n > 0 {
                false
            } else {
                screen.window
            })
            &&& now.balanced_box == (if balanced {
                screen.balanced_box || filled
            } else {
                screen.balanced_box && !cleared
            })
            &&& now.not_balanced_box == (if balanced {
                screen.not_balanced_box && !cleared
            } else {
                screen.not_balanced_box || filled
            })
            &&& now.timers.len() == (if n >= actions.len() - 1 {
                1
            } else if n > clear.len() + fill.len() {
                0
            } else {
                screen.timers.len()
            })
        }),
    decreases n,
{
    let actions = clear + fill + put_up(timeout);
    let base = (clear.len() + fill.len()) as int;
    assert(actions.len() == base + (if timeout {
        3int
    } else {
        2int
    }));
    if n == 0 {
        assert(actions.take(0) =~= Seq::empty());
    } else {
        lemma_steps(screen, balanced, clear, fill, timeout, n - 1);
        lemma_step(screen, actions, n);
        let action = actions[n - 1];
        if n - 1 < clear.len() {
            assert(action == clear[n - 1]);
        } else if n - 1 < base {
            assert(action == fill[n - 1 - clear.len()]);
            if n < base {
                assert(fills(action));
            }
        } else {
            assert(action == put_up(timeout)[n - 1 - base]);
        }
    }
}

proof fn lemma_steps_of_notification(screen: Screen, window: VosdWindow, data: PactlData, n: int)
    requires
        screen.is_sound_for(window),
        0 <= n <= window.notification(data).len(),
    ensures
        ({
            let actions = window.notification(data);
            let now = screen.after_all(actions.take(n));
            &&& now.timers.len() <= 1
            &&& !(now.balanced_box && now.not_balanced_box)
            &&& now.window && !screen.window ==> n == actions.len()
            &&& now.window && n < actions.len() ==> now.balanced_box == screen.balanced_box
                && now.not_balanced_box == screen.not_balanced_box
        }),
{
    let actions = window.notification(data);
    let balanced = data.volume is Some;
    let clear = window.clear_away(balanced);
    if !can_show(data) {
        assert(actions.take(0) =~= Seq::empty());
        if n > 0 {
            lemma_step(screen, actions, 1);
            if n > 1 {
                lemma_step(screen, actions, 2);
            }
        }
    } else if balanced {
        let volume = data.volume->Some_0;
        let icon = icon_for(data.mute, share(volume as nat, data.base_volume as nat))->Some_0;
        let fill = fill_balanced_box(data.mute, volume, data.base_volume, icon);
        lemma_steps(screen, true, clear, fill, window.timeout, n);
    } else {
        let fill = seq![WindowAction::ShowNotBalancedBox];
        lemma_steps(screen, false, clear, fill, window.timeout, n);
    }
}

/// A reading is brought onto a window out of sight. At every step on the way, at most one timer is
/// running and at most one box is shown, a window that is down comes up with the last step and not
/// before, and as long as a window stays up, it keeps the box that it shows.
pub proof fn law_steps_are_out_of_sight(events: Seq<WindowEvent>, data: PactlData, n: int)
    requires
        ({
            let new_window = VosdWindow {
                last_volume_change_notification_had_not_balanced_channels: false,
                timeout: false,
            };
            let (window, screen) = after_events(new_window, new_screen(), events);
            0 <= n <= window.notification(data).len()
        }),
    ensures
        ({
            let new_window = VosdWindow {
                last_volume_change_notification_had_not_balanced_channels: false,
                timeout: false,
            };
            let (window, screen) = after_events(new_window, new_screen(), events);
            let actions = window.notification(data);
            let now = screen.after_all(actions.take(n));
            &&& now.timers.len() <= 1
            &&& !(now.balanced_box && now.not_balanced_box)
            &&& now.window && !screen.window ==> n == actions.len()
            &&& now.window && n < actions.len() ==> now.balanced_box == screen.balanced_box
                && now.not_balanced_box == screen.not_balanced_box
        }),
{
    let new_window = VosdWindow {
        last_volume_change_notification_had_not_balanced_channels: false,
        timeout: false,
    };
    let (window, screen) = after_events(new_window, new_screen(), events);
    lemma_events_keep_sound(new_window, new_screen(), events);
    lemma_steps_of_notification(screen, window, data, n);
}

} // verus!
