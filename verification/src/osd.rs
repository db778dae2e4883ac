//! The windows of the display: one for each monitor.
use crate::error::Error;
use crate::sinks::PactlData;
use crate::window::{
    can_show, law_window_remembers_what_was_shown, VosdWindow, WindowAction,
};
use vstd::prelude::*;

verus! {

/// What to do to the windows. A window goes by its place in the list of windows.
#[derive(Clone, Copy, Debug, PartialEq, Eq, Structural)]
pub enum OsdAction {
    /// Close a window. It keeps its place.
    Close(usize),
    /// Empty the list of windows.
    Clear,
    /// Open a window on the given monitor, and put it at the end of the list.
    AddOn(usize),
    /// Open a window on the monitor that has just been added, and put it at the end of the list.
    AddOnNew,
    /// Do this to a window.
    Window(usize, WindowAction),
    /// Report an error.
    Report(Error),
}

/// What happened to the display.
#[derive(Clone, Copy, Debug, PartialEq, Eq, Structural)]
pub enum DisplayEvent {
    /// The application has come up.
    Activated,
    /// The display was opened.
    Opened,
    /// The display was closed.
    Closed,
    /// A monitor was added.
    MonitorAdded,
    /// A monitor was removed.
    MonitorRemoved,
}

/// A window that has shown nothing yet.
pub open spec fn fresh() -> VosdWindow {
    VosdWindow { last_volume_change_notification_had_not_balanced_channels: false, timeout: false }
}

/// Of the first `n` monitors, the places of those that are there.
pub open spec fn present(monitors: Seq<bool>, n: nat) -> Seq<usize>
    decreases n,
{
    if n == 0 {
        seq![]
    } else {
        let before = present(monitors, (n - 1) as nat);
        if monitors[n - 1] {
            before.push((n - 1) as usize)
        } else {
            before
        }
    }
}

/// Closing so many windows, one after the other, and emptying the list of them.
pub open spec fn closing(windows: nat) -> Seq<OsdAction> {
    Seq::new(windows, |i: int| OsdAction::Close(i as usize)).push(OsdAction::Clear)
}

/// Opening a window on each of the given monitors.
pub open spec fn opening(monitors: Seq<usize>) -> Seq<OsdAction> {
    Seq::new(monitors.len(), |i: int| OsdAction::AddOn(monitors[i]))
}

/// What is done when something happened to the display, with so many windows: the windows are
/// opened anew, closed, or joined by one on a new monitor.
pub open spec fn on_display(windows: nat, event: DisplayEvent, monitors: Seq<bool>) -> Seq<
    OsdAction,
> {
    match event {
        DisplayEvent::Activated | DisplayEvent::Opened | DisplayEvent::MonitorRemoved => closing(
            windows,
        ) + opening(present(monitors, monitors.len())),
        DisplayEvent::Closed => closing(windows),
        DisplayEvent::MonitorAdded => seq![OsdAction::AddOnNew],
    }
}

/// The windows after that.
pub open spec fn after_display(
    windows: Seq<VosdWindow>,
    event: DisplayEvent,
    monitors: Seq<bool>,
) -> Seq<VosdWindow> {
    match event {
        DisplayEvent::Activated | DisplayEvent::Opened | DisplayEvent::MonitorRemoved => Seq::new(
            present(monitors, monitors.len()).len(),
            |i: int| fresh(),
        ),
        DisplayEvent::Closed => seq![],
        DisplayEvent::MonitorAdded => windows.push(fresh()),
    }
}

/// Doing the given actions to one window.
pub open spec fn on_window(place: usize, actions: Seq<WindowAction>) -> Seq<OsdAction> {
    Seq::new(actions.len(), |i: int| OsdAction::Window(place, actions[i]))
}

/// Showing a reading on one window, and reporting it if that cannot be done.
pub open spec fn notifying_one(place: usize, window: VosdWindow, data: PactlData) -> Seq<
    OsdAction,
> {
    on_window(place, window.notification(data)) + (if can_show(data) {
        seq![]
    } else {
        seq![OsdAction::Report(Error::NoIcon)]
    })
}

/// Showing a reading on the first `n` windows.
pub open spec fn notifying(windows: Seq<VosdWindow>, data: PactlData, n: nat) -> Seq<OsdAction>
    decreases n,
{
    if n == 0 {
        seq![]
    } else {
        notifying(windows, data, (n - 1) as nat) + notifying_one(
            (n - 1) as usize,
            windows[n - 1],
            data,
        )
    }
}

/// The windows after a reading was shown on them.
pub open spec fn notified(windows: Seq<VosdWindow>, data: PactlData) -> Seq<VosdWindow> {
    Seq::new(windows.len(), |i: int| windows[i].notified(data))
}

/// The windows that are open.
pub struct Osd {
    windows: Vec<VosdWindow>,
}

impl View for Osd {
    type V = Seq<VosdWindow>;

    /// The windows that are open, in the order in which they were opened.
    closed spec fn view(&self) -> Seq<VosdWindow> {
        self.windows@
    }
}

impl Osd {
    /// No windows.
    pub fn new() -> (osd: Osd)
        ensures
            osd@ == Seq::<VosdWindow>::empty(),
    {
        Osd { windows: Vec::new() }
    }

    /// Closes all windows.
    pub fn close_all_windows(&mut self) -> (actions: Vec<OsdAction>)
        ensures
            actions@ == closing(old(self)@.len()),
            final(self)@ == Seq::<VosdWindow>::empty(),
    {
        let mut actions: Vec<OsdAction> = Vec::new();
        let mut i: usize = 0;
        while i < self.windows.len()
            invariant
                i <= self.windows@.len(),
                self == old(self),
                actions@ =~= closing(self.windows@.len()).take(i as int),
            decreases self.windows@.len() - i,
        {
            actions.push(OsdAction::Close(i));
            i += 1;
        }
        actions.push(OsdAction::Clear);
        self.windows.clear();
        assert(actions@ =~= closing(old(self)@.len()));
        actions
    }

    /// Opens a window that has shown nothing yet.
    fn add_window(&mut self)
        ensures
            final(self)@ == old(self)@.push(fresh()),
    {
        self.windows.push(VosdWindow::new());
    }

    /// Closes all windows, and opens one on each monitor that is there.
    pub fn initialize_windows(&mut self, monitors: &Vec<bool>) -> (actions: Vec<OsdAction>)
        ensures
            actions@ == closing(old(self)@.len()) + opening(present(monitors@, monitors@.len())),
            final(self)@ == Seq::new(
                present(monitors@, monitors@.len()).len(),
                |i: int| fresh(),
            ),
    {
        let mut actions = self.close_all_windows();
        let mut i: usize = 0;
        while i < monitors.len()
            invariant
                i <= monitors@.len(),
                actions@ =~= closing(old(self)@.len()) + opening(present(monitors@, i as nat)),
                self@ =~= Seq::new(present(monitors@, i as nat).len(), |j: int| fresh()),
            decreases monitors@.len() - i,
        {
            if monitors[i] {
                self.add_window();
                actions.push(OsdAction::AddOn(i));
            }
            i += 1;
        }
        actions
    }

    /// What to do when something happened to the display, where `monitors` tells of the monitors
    /// that are there.
    pub fn display_changed(&mut self, event: DisplayEvent, monitors: &Vec<bool>) -> (actions: Vec<
        OsdAction,
    >)
        ensures
            actions@ == on_display(old(self)@.len(), event, monitors@),
            final(self)@ == after_display(old(self)@, event, monitors@),
    {
        match event {
            DisplayEvent::Activated => self.initialize_windows(monitors),
            DisplayEvent::Opened => self.initialize_windows(monitors),
            DisplayEvent::MonitorRemoved => self.initialize_windows(monitors),
            DisplayEvent::Closed => self.close_all_windows(),
            DisplayEvent::MonitorAdded => {
                self.add_window();
                let mut actions: Vec<OsdAction> = Vec::new();
                actions.push(OsdAction::AddOnNew);
                actions
            },
        }
    }

    /// Shows a reading on all windows. Where one of them cannot show it, that is reported, and
    /// the others go on.
    pub fn show_volume_change(&mut self, data: &PactlData) -> (actions: Vec<OsdAction>)
        ensures
            actions@ == notifying(old(self)@, *data, old(self)@.len()),
            final(self)@ == notified(old(self)@, *data),
    {
        let mut actions: Vec<OsdAction> = Vec::new();
        let mut i: usize = 0;
        while i < self.windows.len()
            invariant
                i <= self.windows@.len() == old(self)@.len(),
                actions@ == notifying(old(self)@, *data, i as nat),
                forall|j: int|
                    0 <= j < i ==> #[trigger] self.windows@[j] == notified(old(self)@, *data)[j],
                forall|j: int|
                    i <= j < self.windows@.len() ==> #[trigger] self.windows@[j] == old(self)@[j],
            decreases self.windows@.len() - i,
        {
            let mut window = self.windows[i];
            let ghost before = window;
            let (steps, result) = window.show_volume_change_notification(data);
            self.windows.set(i, window);
            let ghost start = actions@;
            let mut k: usize = 0;
            while k < steps.len()
                invariant
                    k <= steps@.len(),
                    actions@ =~= start + on_window(i, steps@).take(k as int),
                decreases steps@.len() - k,
            {
                actions.push(OsdAction::Window(i, steps[k]));
                k += 1;
            }
            if let Err(error) = result {
                actions.push(OsdAction::Report(error));
            }
            assert(actions@ =~= start + notifying_one(i, before, *data));
            i += 1;
        }
        assert(self.windows@ =~= notified(old(self)@, *data));
        actions
    }

    /// Takes note that the timeout of a window is over, and says what to do to that window. It
    /// has a place only if it has not been closed in the meantime.
    pub fn timeout_elapsed(&mut self, place: Option<usize>) -> (action: WindowAction)
        ensures
            action == WindowAction::HideWindow,
            final(self)@ == (match place {
                Some(i) => if i < old(self)@.len() {
                    old(self)@.update(
                        i as int,
                        VosdWindow { timeout: false, ..old(self)@[i as int] },
                    )
                } else {
                    old(self)@
                },
                None => old(self)@,
            }),
    {
        if let Some(i) = place {
            if i < self.windows.len() {
                let mut window = self.windows[i];
                window.timeout_elapsed();
                self.windows.set(i, window);
            }
        }
        WindowAction::HideWindow
    }
}

/// Of some actions, those on one window.
pub open spec fn done_to(actions: Seq<OsdAction>, place: int) -> Seq<WindowAction>
    decreases actions.len(),
{
    if actions.len() == 0 {
        seq![]
    } else {
        let before = done_to(actions.drop_last(), place);
        match actions.last() {
            OsdAction::Window(at, action) => if at == place {
                before.push(action)
            } else {
                before
            },
            _ => before,
        }
    }
}

/// Of some actions, how many report an error.
pub open spec fn reports(actions: Seq<OsdAction>) -> nat
    decreases actions.len(),
{
    if actions.len() == 0 {
        0
    } else {
        reports(actions.drop_last()) + (if actions.last() is Report {
            1nat
        } else {
            0nat
        })
    }
}

proof fn lemma_done_to_add(a: Seq<OsdAction>, b: Seq<OsdAction>, place: int)
    ensures
        done_to(a + b, place) == done_to(a, place) + done_to(b, place),
        reports(a + b) == reports(a) + reports(b),
    decreases b.len(),
{
    if b.len() == 0 {
        assert(a + b =~= a);
        assert(done_to(a, place) + done_to(b, place) =~= done_to(a, place));
    } else {
        lemma_done_to_add(a, b.drop_last(), place);
        assert((a + b).drop_last() =~= a + b.drop_last());
        assert(done_to(a + b, place) =~= done_to(a, place) + done_to(b, place));
    }
}

proof fn lemma_done_on_window(actions: Seq<WindowAction>, at: usize, place: int)
    ensures
        done_to(on_window(at, actions), place) == (if at == place {
            actions
        } else {
            seq![]
        }),
        reports(on_window(at, actions)) == 0,
    decreases actions.len(),
{
    let all = on_window(at, actions);
    if actions.len() == 0 {
        assert(all =~= seq![]);
        assert(actions =~= seq![]);
    } else {
        assert(all.drop_last() =~= on_window(at, actions.drop_last()));
        lemma_done_on_window(actions.drop_last(), at, place);
        assert(actions =~= actions.drop_last().push(actions.last()));
    }
}

proof fn lemma_done_notifying_one(at: usize, window: VosdWindow, data: PactlData, place: int)
    ensures
        done_to(notifying_one(at, window, data), place) == (if at == place {
            window.notification(data)
        } else {
            seq![]
        }),
        reports(notifying_one(at, window, data)) == (if can_show(data) {
            0nat
        } else {
            1nat
        }),
{
    let steps = on_window(at, window.notification(data));
    let report: Seq<OsdAction> = if can_show(data) {
        seq![]
    } else {
        seq![OsdAction::Report(Error::NoIcon)]
    };
    lemma_done_to_add(steps, report, place);
    lemma_done_on_window(window.notification(data), at, place);
    if !can_show(data) {
        assert(report.drop_last() =~= seq![]);
        reveal_with_fuel(done_to, 2);
        reveal_with_fuel(reports, 2);
    }
    assert(done_to(report, place) =~= seq![]);
    assert(done_to(steps, place) + done_to(report, place) =~= done_to(steps, place));
}

proof fn lemma_done_notifying(windows: Seq<VosdWindow>, data: PactlData, place: int, n: nat)
    requires
        0 <= place,
        n <= windows.len() <= usize::MAX,
    ensures
        done_to(notifying(windows, data, n), place) == (if place < n {
            windows[place].notification(data)
        } else {
            seq![]
        }),
        reports(notifying(windows, data, n)) == (if can_show(data) {
            0
        } else {
            n
        }),
    decreases n,
{
    if n > 0 {
        let m = (n - 1) as nat;
        lemma_done_notifying(windows, data, place, m);
        lemma_done_to_add(
            notifying(windows, data, m),
            notifying_one(m as usize, windows[m as int], data),
            place,
        );
        lemma_done_notifying_one(m as usize, windows[m as int], data, place);
        assert(done_to(notifying(windows, data, n), place) =~= (if place < n {
            windows[place].notification(data)
        } else {
            seq![]
        }));
    }
}

/// Every window shows a reading as if it were the only one, whatever becomes of the others.
pub proof fn law_every_window_is_notified(osd: Osd, data: PactlData, k: int)
    requires
        0 <= k < osd@.len(),
    ensures
        done_to(notifying(osd@, data, osd@.len()), k) == osd@[k].notification(data),
{
    assert(osd.windows@.len() == osd.windows.len());
    lemma_done_notifying(osd@, data, k, osd@.len());
}

/// A reading that cannot be shown is reported once for every window, any other one never.
pub proof fn law_errors_are_reported(osd: Osd, data: PactlData)
    ensures
        reports(notifying(osd@, data, osd@.len())) == (if can_show(data) {
            0
        } else {
            osd@.len()
        }),
{
    assert(osd.windows@.len() == osd.windows.len());
    lemma_done_notifying(osd@, data, 0, osd@.len());
}

/// The monitor that a window is on.
pub enum Place {
    /// The monitor at this place.
    Monitor(usize),
    /// A monitor that was added later.
    New,
}

/// The monitors that the windows are on, after an action.
pub open spec fn places_after(places: Seq<Place>, action: OsdAction) -> Seq<Place> {
    match action {
        OsdAction::Clear => seq![],
        OsdAction::AddOn(monitor) => places.push(Place::Monitor(monitor)),
        OsdAction::AddOnNew => places.push(Place::New),
        OsdAction::Close(_) | OsdAction::Window(..) | OsdAction::Report(_) => places,
    }
}

/// The monitors that the windows are on, after actions taken one after the other.
pub open spec fn places_after_all(places: Seq<Place>, actions: Seq<OsdAction>) -> Seq<Place>
    decreases actions.len(),
{
    if actions.len() == 0 {
        places
    } else {
        places_after(places_after_all(places, actions.drop_last()), actions.last())
    }
}

/// The monitors that the windows are on when they have just been opened anew.
pub open spec fn on_monitors(monitors: Seq<usize>) -> Seq<Place> {
    Seq::new(monitors.len(), |i: int| Place::Monitor(monitors[i]))
}

/// Of some actions, how many close the window at a place.
pub open spec fn times_closed(actions: Seq<OsdAction>, place: int) -> nat
    decreases actions.len(),
{
    if actions.len() == 0 {
        0
    } else {
        times_closed(actions.drop_last(), place) + (match actions.last() {
            OsdAction::Close(at) => if at == place {
                1nat
            } else {
                0nat
            },
            _ => 0nat,
        })
    }
}

proof fn lemma_closes(n: nat, place: int)
    requires
        n <= usize::MAX,
        0 <= place,
    ensures
        times_closed(Seq::new(n, |i: int| OsdAction::Close(i as usize)), place) == (if place < n {
            1nat
        } else {
            0nat
        }),
    decreases n,
{
    let all = Seq::new(n, |i: int| OsdAction::Close(i as usize));
    if n > 0 {
        let m = (n - 1) as nat;
        lemma_closes(m, place);
        assert(all.drop_last() =~= Seq::new(m, |i: int| OsdAction::Close(i as usize)));
        assert(all.last() == OsdAction::Close(m as usize));
    }
}

proof fn lemma_closing(places: Seq<Place>, n: nat, place: int)
    requires
        n <= usize::MAX,
        0 <= place,
    ensures
        places_after_all(places, closing(n)) == Seq::<Place>::empty(),
        times_closed(closing(n), place) == (if place < n {
            1nat
        } else {
            0nat
        }),
{
    let closes = Seq::new(n, |i: int| OsdAction::Close(i as usize));
    assert(closing(n).drop_last() =~= closes);
    lemma_closes(n, place);
}

proof fn lemma_opening(places: Seq<Place>, before: Seq<OsdAction>, monitors: Seq<usize>, place: int)
    ensures
        places_after_all(places, before + opening(monitors)) == places_after_all(places, before)
            + on_monitors(monitors),
        times_closed(before + opening(monitors), place) == times_closed(before, place),
    decreases monitors.len(),
{
    let all = before + opening(monitors);
    if monitors.len() == 0 {
        assert(all =~= before);
        assert(places_after_all(places, before) + on_monitors(monitors) =~= places_after_all(
            places,
            before,
        ));
    } else {
        let fewer = monitors.drop_last();
        lemma_opening(places, before, fewer, place);
        assert(all.drop_last() =~= before + opening(fewer));
        assert(all.last() == OsdAction::AddOn(monitors.last()));
        assert(places_after_all(places, all) =~= places_after_all(places, before) + on_monitors(
            monitors,
        ));
    }
}

/// The windows follow the display. When they are opened anew, every window is closed once, and
/// the windows are then on the monitors that are there, whatever windows there were. When the
/// display is closed, every window is closed once and none is left. When a monitor is added, no
/// window is closed, and one on that monitor joins the others, which stay as they are.
pub proof fn law_windows_follow_display(
    osd: Osd,
    places: Seq<Place>,
    event: DisplayEvent,
    monitors: Seq<bool>,
)
    ensures
        ({
            let actions = on_display(osd@.len(), event, monitors);
            let after = places_after_all(places, actions);
            let windows = after_display(osd@, event, monitors);
            match event {
                DisplayEvent::Activated | DisplayEvent::Opened | DisplayEvent::MonitorRemoved => {
                    &&& after == on_monitors(present(monitors, monitors.len()))
                    &&& windows.len() == after.len()
                    &&& forall|i: int| 0 <= i < windows.len() ==> #[trigger] windows[i] == fresh()
                    &&& forall|i: int|
                        0 <= i < osd@.len() ==> #[trigger] times_closed(actions, i) == 1
                },
                DisplayEvent::Closed => {
                    &&& after.len() == 0
                    &&& windows.len() == 0
                    &&& forall|i: int|
                        0 <= i < osd@.len() ==> #[trigger] times_closed(actions, i) == 1
                },
                DisplayEvent::MonitorAdded => {
                    &&& after == places.push(Place::New)
                    &&& windows.len() == osd@.len() + 1
                    &&& windows.last() == fresh()
                    &&& forall|i: int| 0 <= i < osd@.len() ==> #[trigger] windows[i] == osd@[i]
                    &&& forall|i: int| 0 <= i ==> #[trigger] times_closed(actions, i) == 0
                },
            }
        }),
{
    let n = osd@.len();
    let there = present(monitors, monitors.len());
    let actions = on_display(n, event, monitors);
    assert(osd.windows@.len() == osd.windows.len());
    match event {
        DisplayEvent::MonitorAdded => {
            assert(actions.drop_last() =~= seq![]);
            reveal_with_fuel(places_after_all, 2);
            reveal_with_fuel(times_closed, 2);
        },
        DisplayEvent::Closed => {
            lemma_closing(places, n, 0);
            assert forall|i: int| 0 <= i < n implies #[trigger] times_closed(actions, i) == 1 by {
                lemma_closing(places, n, i);
            }
        },
        _ => {
            lemma_closing(places, n, 0);
            lemma_opening(places, closing(n), there, 0);
            assert(Seq::<Place>::empty() + on_monitors(there) =~= on_monitors(there));
            assert forall|i: int| 0 <= i < n implies #[trigger] times_closed(actions, i) == 1 by {
                lemma_closing(places, n, i);
                lemma_opening(places, closing(n), there, i);
            }
        },
    }
}

proof fn lemma_present(monitors: Seq<bool>, n: nat)
    requires
        n <= monitors.len() <= usize::MAX,
    ensures
        forall|k: int|
            0 <= k < present(monitors, n).len() ==> (#[trigger] present(monitors, n)[k]) < n
                && monitors[present(monitors, n)[k] as int],
        forall|j: int, k: int|
            0 <= j < k < present(monitors, n).len() ==> #[trigger] present(monitors, n)[j]
                < #[trigger] present(monitors, n)[k],
        forall|m: int|
            0 <= m < n && #[trigger] monitors[m] ==> present(monitors, n).contains(m as usize),
    decreases n,
{
    if n > 0 {
        let before = present(monitors, (n - 1) as nat);
        lemma_present(monitors, (n - 1) as nat);
        let now = present(monitors, n);
        assert forall|m: int| 0 <= m < n && #[trigger] monitors[m] implies now.contains(
            m as usize,
        ) by {
            if m < n - 1 {
                let k = before.index_of(m as usize);
                assert(now[k] == m as usize);
            } else {
                assert(now.last() == m as usize);
            }
        }
    }
}

/// When the windows are opened anew, each monitor that is there gets one window, the others get
/// none, and the windows are in the order of their monitors.
pub proof fn law_one_window_per_monitor(monitors: Vec<bool>)
    ensures
        ({
            let there = present(monitors@, monitors@.len());
            &&& forall|k: int|
                0 <= k < there.len() ==> (#[trigger] there[k]) < monitors@.len()
                    && monitors@[there[k] as int]
            &&& forall|j: int, k: int|
                0 <= j < k < there.len() ==> #[trigger] there[j] < #[trigger] there[k]
            &&& forall|m: int|
                0 <= m < monitors@.len() && #[trigger] monitors@[m] ==> there.contains(m as usize)
        }),
{
    assert(monitors@.len() == monitors.len());
    lemma_present(monitors@, monitors@.len());
}

/// Opening the windows anew twice, on the same monitors, leaves no more of them than opening them
/// once: there are as many windows after the second time as after the first, on the same monitors
/// in the same order, and each window of the first time is closed once.
pub proof fn law_opening_anew_twice(
    first: Osd,
    second: Osd,
    places: Seq<Place>,
    event: DisplayEvent,
    again: DisplayEvent,
    monitors: Seq<bool>,
)
    requires
        event is Activated || event is Opened || event is MonitorRemoved,
        again is Activated || again is Opened || again is MonitorRemoved,
        second@ == after_display(first@, event, monitors),
    ensures
        ({
            let once = places_after_all(places, on_display(first@.len(), event, monitors));
            let actions = on_display(second@.len(), again, monitors);
            &&& places_after_all(once, actions) == once
            &&& once.len() == second@.len()
            &&& after_display(second@, again, monitors) == second@
            &&& forall|i: int|
                0 <= i < second@.len() ==> #[trigger] times_closed(actions, i) == 1
        }),
{
    let once = places_after_all(places, on_display(first@.len(), event, monitors));
    law_windows_follow_display(first, places, event, monitors);
    law_windows_follow_display(second, once, again, monitors);
}

/// All windows that were ever opened, and the list of windows.
#[verifier::ext_equal]
pub struct Display {
    /// The windows that were ever opened, each by the monitor that it is on. A window is known by
    /// its place here.
    pub opened: Seq<Place>,
    /// The windows that were closed.
    pub closed: Set<int>,
    /// The list of windows.
    pub list: Seq<int>,
    /// Whether something was to be done to a window that is not in the list or was closed.
    pub amiss: bool,
}

impl Display {
    /// The display before anything was done.
    pub open spec fn empty() -> Display {
        Display { opened: seq![], closed: Set::empty(), list: seq![], amiss: false }
    }

    /// The window at a place of the list is there, and open.
    pub open spec fn is_open_at(self, place: int) -> bool {
        0 <= place < self.list.len() && !self.closed.contains(self.list[place])
    }

    /// The effect of an action.
    pub open spec fn after(self, action: OsdAction) -> Display {
        match action {
            OsdAction::Close(place) => if self.is_open_at(place as int) {
                Display { closed: self.closed.insert(self.list[place as int]), ..self }
            } else {
                Display { amiss: true, ..self }
            },
            OsdAction::Clear => Display { list: seq![], ..self },
            OsdAction::AddOn(monitor) => Display {
                opened: self.opened.push(Place::Monitor(monitor)),
                list: self.list.push(self.opened.len() as int),
                ..self
            },
            OsdAction::AddOnNew => Display {
                opened: self.opened.push(Place::New),
                list: self.list.push(self.opened.len() as int),
                ..self
            },
            OsdAction::Window(place, _) => if self.is_open_at(place as int) {
                self
            } else {
                Display { amiss: true, ..self }
            },
            OsdAction::Report(_) => self,
        }
    }

    /// The effect of actions taken one after the other.
    pub open spec fn after_all(self, actions: Seq<OsdAction>) -> Display
        decreases actions.len(),
    {
        if actions.len() == 0 {
            self
        } else {
            self.after_all(actions.drop_last()).after(actions.last())
        }
    }

    /// No window is lost, and nothing is amiss: each window is in the list, once, or was closed.
    pub open spec fn in_order(self) -> bool {
        &&& !self.amiss
        &&& forall|j: int| 0 <= j < self.list.len() ==> 0 <= #[trigger] self.list[j] < self.opened.len()
        &&& forall|j: int, k: int|
            0 <= j < k < self.list.len() ==> #[trigger] self.list[j] != #[trigger] self.list[k]
        &&& forall|w: int|
            0 <= w < self.opened.len() ==> (#[trigger] self.closed.contains(w)
                <==> !self.list.contains(w))
        &&& forall|w: int| #[trigger] self.closed.contains(w) ==> 0 <= w < self.opened.len()
    }

    /// The monitor that the window at a place of the list is on.
    pub open spec fn monitor_at(self, place: int) -> Place {
        self.opened[self.list[place]]
    }

    /// The list holds one window for each monitor that is there, in the order of the monitors, and
    /// no others.
    pub open spec fn covers(self, monitors: Seq<bool>) -> bool {
        &&& forall|j: int|
            0 <= j < self.list.len() ==> (#[trigger] self.monitor_at(j) matches Place::Monitor(m)
                && m < monitors.len() && monitors[m as int])
        &&& forall|j: int, k: int|
            0 <= j < k < self.list.len() ==> (#[trigger] self.monitor_at(j))->Monitor_0 < (
            #[trigger] self.monitor_at(k))->Monitor_0
        &&& forall|m: int|
            0 <= m < monitors.len() && #[trigger] monitors[m] ==> exists|j: int|
                0 <= j < self.list.len() && #[trigger] self.monitor_at(j) == Place::Monitor(
                    m as usize,
                )
    }

    /// Every window that was opened before is closed now.
    pub open spec fn has_closed_all_of(self, before: Display) -> bool {
        forall|w: int| 0 <= w < before.opened.len() ==> #[trigger] self.closed.contains(w)
    }
}

proof fn lemma_after_add(display: Display, a: Seq<OsdAction>, b: Seq<OsdAction>)
    ensures
        display.after_all(a + b) == display.after_all(a).after_all(b),
    decreases b.len(),
{
    if b.len() == 0 {
        assert(a + b =~= a);
    } else {
        lemma_after_add(display, a, b.drop_last());
        assert((a + b).drop_last() =~= a + b.drop_last());
    }
}

proof fn lemma_after_closes(display: Display, n: nat)
    requires
        display.in_order(),
        n <= display.list.len() <= usize::MAX,
    ensures
        ({
            let after = display.after_all(Seq::new(n, |i: int| OsdAction::Close(i as usize)));
            &&& after.opened == display.opened
            &&& after.list == display.list
            &&& !after.amiss
            &&& forall|w: int| #[trigger]
                after.closed.contains(w) <==> display.closed.contains(w) || display.list.take(
                    n as int,
                ).contains(w)
        }),
    decreases n,
{
    let all = Seq::new(n, |i: int| OsdAction::Close(i as usize));
    if n > 0 {
        let m = (n - 1) as nat;
        lemma_after_closes(display, m);
        let fewer = Seq::new(m, |i: int| OsdAction::Close(i as usize));
        assert(all.drop_last() =~= fewer);
        let before = display.after_all(fewer);
        let window = display.list[m as int];
        let seen = display.list.take(m as int);
        assert(display.list.take(n as int) =~= seen.push(window));
        assert(!seen.contains(window)) by {
            if seen.contains(window) {
                let i = seen.index_of(window);
                assert(display.list[i] == display.list[m as int]);
            }
        }
        assert(display.list.contains(window));
        assert(!display.closed.contains(window));
        assert(before.is_open_at(m as int));
        assert forall|w: int| #[trigger] before.closed.insert(window).contains(w) <==> (
        display.closed.contains(w) || seen.push(window).contains(w)) by {
            if seen.contains(w) {
                let i = seen.index_of(w);
                assert(seen.push(window)[i] == w);
            }
            if w == window {
                assert(seen.push(window)[m as int] == w);
            }
            if seen.push(window).contains(w) && w != window {
                let i = seen.push(window).index_of(w);
                assert(seen[i] == w);
            }
        }
    } else {
        assert(display.list.take(0) =~= seq![]);
    }
}

/// Closing all windows closes every window that is open, each of them once, and leaves none in the
/// list.
pub proof fn law_closing_closes_all(osd: Osd, display: Display)
    requires
        display.in_order(),
        display.list.len() == osd@.len(),
    ensures
        ({
            let after = display.after_all(closing(osd@.len()));
            &&& after.in_order()
            &&& after.list.len() == 0
            &&& after.opened == display.opened
            &&& after.has_closed_all_of(display)
        }),
{
    let n = osd@.len();
    assert(osd.windows@.len() == osd.windows.len());
    let closes = Seq::new(n, |i: int| OsdAction::Close(i as usize));
    lemma_after_closes(display, n);
    assert(closing(n).drop_last() =~= closes);
    assert(display.list.take(n as int) =~= display.list);
    let after = display.after_all(closing(n));
    assert forall|w: int| #[trigger] after.closed.contains(w) implies 0 <= w
        < after.opened.len() by {
        if !display.closed.contains(w) {
            let i = display.list.index_of(w);
            assert(display.list[i] == w);
        }
    }
}

proof fn lemma_after_opening(display: Display, monitors: Seq<usize>)
    ensures
        display.after_all(opening(monitors)) == (Display {
            opened: display.opened + on_monitors(monitors),
            list: display.list + Seq::new(
                monitors.len(),
                |i: int| display.opened.len() as int + i,
            ),
            ..display
        }),
    decreases monitors.len(),
{
    let all = opening(monitors);
    let after = display.after_all(all);
    if monitors.len() > 0 {
        let fewer = monitors.drop_last();
        lemma_after_opening(display, fewer);
        assert(all.drop_last() =~= opening(fewer));
        assert(all.last() == OsdAction::AddOn(monitors.last()));
    }
    assert(after.opened =~= display.opened + on_monitors(monitors));
    assert(after.list =~= display.list + Seq::new(
        monitors.len(),
        |i: int| display.opened.len() as int + i,
    ));
}

/// Opening the windows anew closes every window that was open, and then opens one on each monitor
/// that is there, in the order of the monitors. Those are open, and the only ones in the list.
pub proof fn law_opening_anew_covers_monitors(osd: Osd, display: Display, monitors: Vec<bool>)
    requires
        display.in_order(),
        display.list.len() == osd@.len(),
    ensures
        ({
            let there = present(monitors@, monitors@.len());
            let after = display.after_all(closing(osd@.len()) + opening(there));
            &&& after.in_order()
            &&& after.has_closed_all_of(display)
            &&& after.covers(monitors@)
            &&& after.list.len() == there.len()
            &&& forall|j: int| 0 <= j < after.list.len() ==> #[trigger] after.is_open_at(j)
        }),
{
    let n = osd@.len();
    let there = present(monitors@, monitors@.len());
    let middle = display.after_all(closing(n));
    let after = display.after_all(closing(n) + opening(there));
    law_closing_closes_all(osd, display);
    lemma_after_add(display, closing(n), opening(there));
    lemma_after_opening(middle, there);
    law_one_window_per_monitor(monitors);
    let old_len = display.opened.len() as int;
    assert(after.list =~= Seq::new(there.len(), |i: int| old_len + i));
    assert(after.opened =~= display.opened + on_monitors(there));
    assert forall|j: int| 0 <= j < there.len() implies #[trigger] after.monitor_at(j)
        == Place::Monitor(there[j]) by {}
    assert forall|m: int| 0 <= m < monitors@.len() && #[trigger] monitors@[m] implies exists|j: int|
        0 <= j < after.list.len() && #[trigger] after.monitor_at(j) == Place::Monitor(
            m as usize,
        ) by {
        let j = there.index_of(m as usize);
        assert(after.monitor_at(j) == Place::Monitor(m as usize));
    }
    assert forall|w: int| 0 <= w < after.opened.len() implies (#[trigger] after.closed.contains(w)
        <==> !after.list.contains(w)) by {
        if w >= old_len {
            assert(after.list[w - old_len] == w);
        }
    }
}

/// No window is ever lost as the display and its monitors come and go. Whatever happens, each window
/// that was ever opened is in the list or was closed, and nothing is done to a window that is not
/// there. When the windows are opened anew, all that were there are closed, and each monitor that is
/// there has one that is open. When the display is closed, all are closed. When a monitor is added,
/// it gets a window, and the others stay.
pub proof fn law_no_window_is_lost(
    osd: Osd,
    display: Display,
    event: DisplayEvent,
    monitors: Vec<bool>,
)
    requires
        display.in_order(),
        display.list.len() == osd@.len(),
    ensures
        ({
            let after = display.after_all(on_display(osd@.len(), event, monitors@));
            &&& after.in_order()
            &&& after.list.len() == after_display(osd@, event, monitors@).len()
            &&& match event {
                DisplayEvent::Activated | DisplayEvent::Opened | DisplayEvent::MonitorRemoved => {
                    &&& after.has_closed_all_of(display)
                    &&& after.covers(monitors@)
                },
                DisplayEvent::Closed => {
                    &&& after.has_closed_all_of(display)
                    &&& after.opened == display.opened
                    &&& after.list.len() == 0
                },
                DisplayEvent::MonitorAdded => {
                    &&& after.closed == display.closed
                    &&& after.opened == display.opened.push(Place::New)
                    &&& after.list == display.list.push(display.opened.len() as int)
                },
            }
        }),
{
    let n = osd@.len();
    let actions = on_display(n, event, monitors@);
    let after = display.after_all(actions);
    law_closing_closes_all(osd, display);
    law_opening_anew_covers_monitors(osd, display, monitors);
    if event is MonitorAdded {
        assert(actions.drop_last() =~= seq![]);
        reveal_with_fuel(Display::after_all, 2);
        assert(after == display.after(OsdAction::AddOnNew));
        let new = display.opened.len() as int;
        assert(after.list[n as int] == new);
        assert forall|w: int| 0 <= w < after.opened.len() implies (
        #[trigger] after.closed.contains(w) <==> !after.list.contains(w)) by {
            if w < new {
                if display.list.contains(w) {
                    let i = display.list.index_of(w);
                    assert(after.list[i] == w);
                }
                if after.list.contains(w) {
                    let i = after.list.index_of(w);
                    assert(display.list[i] == w);
                }
            }
        }
    }
}

/// At the start no window is lost.
pub proof fn law_nothing_is_lost_at_first()
    ensures
        Display::empty().in_order(),
        Display::empty().list.len() == 0,
{
}

/// A window that is opened remembers nothing: no timeout is running, and nothing was shown.
pub proof fn law_opened_windows_are_fresh(
    windows: Seq<VosdWindow>,
    event: DisplayEvent,
    monitors: Seq<bool>,
    i: int,
)
    requires
        0 <= i < after_display(windows, event, monitors).len(),
        event is MonitorAdded ==> i == windows.len(),
    ensures
        !after_display(windows, event, monitors)[i].timeout,
        !after_display(
            windows,
            event,
            monitors,
        )[i].last_volume_change_notification_had_not_balanced_channels,
{
}

proof fn lemma_notifying_stays(
    windows: Seq<VosdWindow>,
    display: Display,
    data: PactlData,
    n: nat,
)
    requires
        display.in_order(),
        display.list.len() == windows.len() <= usize::MAX,
        n <= windows.len(),
    ensures
        display.after_all(notifying(windows, data, n)) == display,
        forall|i: int|
            0 <= i < notifying(windows, data, n).len() ==> ((#[trigger] notifying(
                windows,
                data,
                n,
            )[i]) is Window || notifying(windows, data, n)[i] == OsdAction::Report(Error::NoIcon)),
    decreases n,
{
    if n > 0 {
        let m = (n - 1) as nat;
        lemma_notifying_stays(windows, display, data, m);
        let before = notifying(windows, data, m);
        let one = notifying_one(m as usize, windows[m as int], data);
        lemma_after_add(display, before, one);
        assert(display.list.contains(display.list[m as int]));
        assert(display.is_open_at(m as int));
        lemma_stays(display, one, m as usize);
        let all = notifying(windows, data, n);
        assert forall|i: int| 0 <= i < all.len() implies ((#[trigger] all[i]) is Window || all[i]
            == OsdAction::Report(Error::NoIcon)) by {
            if i < before.len() {
                assert(all[i] == before[i]);
            } else {
                assert(all[i] == one[i - before.len()]);
            }
        }
    }
}

proof fn lemma_stays(display: Display, actions: Seq<OsdAction>, place: usize)
    requires
        display.is_open_at(place as int),
        forall|i: int|
            0 <= i < actions.len() ==> ((#[trigger] actions[i]) is Report || (
            actions[i] matches OsdAction::Window(at, _) && at == place)),
    ensures
        display.after_all(actions) == display,
    decreases actions.len(),
{
    if actions.len() > 0 {
        let fewer = actions.drop_last();
        assert forall|i: int| 0 <= i < fewer.len() implies ((#[trigger] fewer[i]) is Report || (
        fewer[i] matches OsdAction::Window(at, _) && at == place)) by {
            assert(fewer[i] == actions[i]);
        }
        lemma_stays(display, fewer, place);
        let last = actions[actions.len() - 1];
        assert(last is Report || (last matches OsdAction::Window(at, _) && at == place));
    }
}

/// Showing a reading opens no window and closes none. It is shown on windows that are there and
/// open, and only that there is no icon is reported.
pub proof fn law_showing_leaves_windows(osd: Osd, display: Display, data: PactlData)
    requires
        display.in_order(),
        display.list.len() == osd@.len(),
    ensures
        display.after_all(notifying(osd@, data, osd@.len())) == display,
        forall|i: int|
            0 <= i < notifying(osd@, data, osd@.len()).len() ==> ((#[trigger] notifying(
                osd@,
                data,
                osd@.len(),
            )[i]) is Window || notifying(osd@, data, osd@.len())[i] == OsdAction::Report(
                Error::NoIcon,
            )),
{
    assert(osd.windows@.len() == osd.windows.len());
    lemma_notifying_stays(osd@, display, data, osd@.len());
}

/// After a reading there are as many windows as before, and each of them remembers what it alone
/// would.
pub proof fn law_windows_remember_what_was_shown(osd: Osd, data: PactlData, k: int)
    requires
        0 <= k < osd@.len(),
    ensures
        notified(osd@, data).len() == osd@.len(),
        data.volume == Some(0u64) && data.base_volume == 0 && !data.mute ==> notified(osd@, data)[k]
            == osd@[k],
        !(data.volume == Some(0u64) && data.base_volume == 0 && !data.mute) ==> {
            &&& notified(osd@, data)[k].timeout
            &&& notified(
                osd@,
                data,
            )[k].last_volume_change_notification_had_not_balanced_channels == (data.volume is None)
        },
{
    law_window_remembers_what_was_shown(osd@[k], data);
}

} // verus!
