//! One window of the display, and what it does when the volume changes.
use crate::error::Error;
use crate::sinks::PactlData;
use crate::volume::{icon_for, percent_of, share, volume_fraction, Icon};
use vstd::prelude::*;

verus! {

/// How long a window stays up.
pub const TIMEOUT_MILLIS: u64 = 2000;

/// What to do to a window.
///
/// A window holds two boxes: one for when all channels have the same volume, with an icon, a
/// progress bar and a label, and one for when they do not.
#[derive(Clone, Copy, Debug, PartialEq, Eq, Structural)]
pub enum WindowAction {
    HideWindow,
    ShowWindow,
    HideBalancedBox,
    ShowBalancedBox,
    HideNotBalancedBox,
    ShowNotBalancedBox,
    SetIcon(Icon),
    /// Fill the progress bar up to the share that the volume makes up of the base volume.
    SetProgress { volume: u64, base_volume: u64 },
    /// Draw the progress bar as inactive, or as active.
    SetProgressInactive(bool),
    /// Show this percentage on the label.
    SetPercent(u8),
    /// Draw the label as inactive, or as active.
    SetLabelInactive(bool),
    /// Call off the timeout that is running.
    CancelTimeout,
    /// Start a timeout of so many milliseconds.
    StartTimeout(u64),
}

/// What is remembered of a window.
#[derive(Clone, Copy, Debug, PartialEq, Eq, Structural)]
pub struct VosdWindow {
    pub last_volume_change_notification_had_not_balanced_channels: bool,
    /// Whether a timeout is running.
    pub timeout: bool,
}

/// Whether a reading can be shown: only a volume of nothing out of nothing cannot, on a sink that
/// is not muted.
pub open spec fn can_show(data: PactlData) -> bool {
    data.volume matches Some(volume) ==> icon_for(
        data.mute,
        share(volume as nat, data.base_volume as nat),
    ) is Some
}

/// Putting a window up, after its boxes are in order.
pub open spec fn put_up(timeout: bool) -> Seq<WindowAction> {
    (if timeout {
        seq![WindowAction::CancelTimeout]
    } else {
        seq![]
    }) + seq![WindowAction::StartTimeout(TIMEOUT_MILLIS), WindowAction::ShowWindow]
}

/// Filling the box for channels with the same volume, and showing it.
pub open spec fn fill_balanced_box(
    mute: bool,
    volume: u64,
    base_volume: u64,
    icon: Icon,
) -> Seq<WindowAction> {
    seq![
        WindowAction::SetIcon(icon),
        WindowAction::SetProgress { volume, base_volume },
        WindowAction::SetProgressInactive(mute),
        WindowAction::SetPercent(percent_of(share(volume as nat, base_volume as nat)) as u8),
        WindowAction::SetLabelInactive(mute),
        WindowAction::ShowBalancedBox,
    ]
}

impl VosdWindow {
    /// Clearing away the box that was shown last, where the other one is due.
    pub open spec fn clear_away(self, balanced: bool) -> Seq<WindowAction> {
        if balanced && self.last_volume_change_notification_had_not_balanced_channels {
            seq![WindowAction::HideWindow, WindowAction::HideNotBalancedBox]
        } else if !balanced && !self.last_volume_change_notification_had_not_balanced_channels {
            seq![WindowAction::HideWindow, WindowAction::HideBalancedBox]
        } else {
            seq![]
        }
    }

    /// What is done to show a reading.
    pub open spec fn notification(self, data: PactlData) -> Seq<WindowAction> {
        match data.volume {
            Some(volume) => match icon_for(
                data.mute,
                share(volume as nat, data.base_volume as nat),
            ) {
                Some(icon) => self.clear_away(true) + fill_balanced_box(
                    data.mute,
                    volume,
                    data.base_volume,
                    icon,
                ) + put_up(self.timeout),
                None => self.clear_away(true),
            },
            None => self.clear_away(false) + seq![WindowAction::ShowNotBalancedBox] + put_up(
                self.timeout,
            ),
        }
    }

    /// The window after a reading was shown. One that cannot be shown leaves it as it was.
    pub open spec fn notified(self, data: PactlData) -> VosdWindow {
        if can_show(data) {
            VosdWindow {
                last_volume_change_notification_had_not_balanced_channels: data.volume is None,
                timeout: true,
            }
        } else {
            self
        }
    }

    /// A window that has shown nothing yet.
    pub fn new() -> (window: VosdWindow)
        ensures
            window == (VosdWindow {
                last_volume_change_notification_had_not_balanced_channels: false,
                timeout: false,
            }),
    {
        VosdWindow {
            last_volume_change_notification_had_not_balanced_channels: false,
            timeout: false,
        }
    }

    /// Shows a reading: says what to do, and whether it can be shown to the end. What is said is
    /// to be done in either case.
    pub fn show_volume_change_notification(&mut self, data: &PactlData) -> (done: (
        Vec<WindowAction>,
        Result<(), Error>,
    ))
        ensures
            done.0@ == old(self).notification(*data),
            done.1 == (if can_show(*data) {
                Ok::<(), Error>(())
            } else {
                Err::<(), Error>(Error::NoIcon)
            }),
            *final(self) == old(self).notified(*data),
            done.1 == (if data.volume == Some(0u64) && data.base_volume == 0 && !data.mute {
                Err::<(), Error>(Error::NoIcon)
            } else {
                Ok::<(), Error>(())
            }),
            done.1 is Err ==> *final(self) == *old(self),
            done.1 is Ok ==> final(self).timeout && done.0@.len() > 0 && done.0@.last()
                == WindowAction::ShowWindow,
            done.1 is Ok ==> final(self).last_volume_change_notification_had_not_balanced_channels == (data.volume is None),
    {
        let mut actions: Vec<WindowAction> = Vec::new();
        match data.volume {
            Some(volume) => {
                if self.last_volume_change_notification_had_not_balanced_channels {
                    actions.push(WindowAction::HideWindow);
                    actions.push(WindowAction::HideNotBalancedBox);
                }
                let fraction = volume_fraction(volume, data.base_volume);
                let icon = match fraction.icon(data.mute) {
                    Some(icon) => icon,
                    None => {
                        assert(actions@ =~= old(self).notification(*data));
                        return (actions, Err(Error::NoIcon));
                    },
                };
                actions.push(WindowAction::SetIcon(icon));
                actions.push(WindowAction::SetProgress { volume, base_volume: data.base_volume });
                actions.push(WindowAction::SetProgressInactive(data.mute));
                actions.push(WindowAction::SetPercent(fraction.percent()));
                actions.push(WindowAction::SetLabelInactive(data.mute));
                actions.push(WindowAction::ShowBalancedBox);
                self.last_volume_change_notification_had_not_balanced_channels = false;
            },
            None => {
                if !self.last_volume_change_notification_had_not_balanced_channels {
                    actions.push(WindowAction::HideWindow);
                    actions.push(WindowAction::HideBalancedBox);
                }
                actions.push(WindowAction::ShowNotBalancedBox);
                self.last_volume_change_notification_had_not_balanced_channels = true;
            },
        }
        if self.timeout {
            actions.push(WindowAction::CancelTimeout);
        }
        actions.push(WindowAction::StartTimeout(TIMEOUT_MILLIS));
        self.timeout = true;
        actions.push(WindowAction::ShowWindow);
        assert(actions@ =~= old(self).notification(*data));
        (actions, Ok(()))
    }

    /// Takes note that the timeout is over.
    pub fn timeout_elapsed(&mut self)
        ensures
            *final(self) == (VosdWindow { timeout: false, ..*old(self) }),
    {
        self.timeout = false;
    }
}

/// A window remembers of a reading that was shown whether it had no volume, and that a timeout is
/// running. Only a volume of nothing out of nothing, on a sink that is not muted, is not shown, and
/// of that one nothing is remembered.
pub proof fn law_window_remembers_what_was_shown(window: VosdWindow, data: PactlData)
    ensures
        can_show(data) <==> !(data.volume == Some(0u64) && data.base_volume == 0 && !data.mute),
        data.volume == Some(0u64) && data.base_volume == 0 && !data.mute ==> window.notified(data)
            == window,
        !(data.volume == Some(0u64) && data.base_volume == 0 && !data.mute) ==> {
            &&& window.notified(data).timeout
            &&& window.notified(data).last_volume_change_notification_had_not_balanced_channels
                == (data.volume is None)
        },
{
}

} // verus!
