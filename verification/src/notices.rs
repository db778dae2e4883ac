//! What the task that runs the windows does about what it is told.
use crate::sinks::PactlData;
use vstd::prelude::*;

verus! {

/// What the task that runs the windows is told.
#[derive(Clone, Copy, Debug, PartialEq, Eq, Structural)]
pub enum Notice {
    /// There is something new to show.
    News(PactlData),
    /// There will be nothing new to show.
    NewsClosed,
    /// The program is shutting down.
    Cancelled,
}

/// What to do to the application.
#[derive(Clone, Copy, Debug, PartialEq, Eq, Structural)]
pub enum NoticeAction {
    /// Show this on all windows.
    Show(PactlData),
    /// Let go of the hold that keeps the application up while there are no windows.
    ReleaseHold,
    /// Quit the application.
    Quit,
}

/// What is done about a notice as long as the windows are not given up.
pub open spec fn on_notice(notice: Notice) -> Seq<NoticeAction> {
    match notice {
        Notice::News(data) => seq![NoticeAction::Show(data)],
        Notice::NewsClosed | Notice::Cancelled => seq![
            NoticeAction::ReleaseHold,
            NoticeAction::Quit,
        ],
    }
}

/// Whether the windows have been given up.
pub struct Notices {
    over: bool,
}

impl Notices {
    /// Whether the windows have been given up.
    pub closed spec fn is_over(self) -> bool {
        self.over
    }

    /// Begins, with windows that are not given up.
    pub fn new() -> (notices: Notices)
        ensures
            !notices.is_over(),
    {
        Notices { over: false }
    }

    /// Whether the windows have been given up, and no notice matters any more.
    pub fn over(&self) -> (over: bool)
        ensures
            over == self.is_over(),
    {
        self.over
    }

    /// Takes a notice, and says what to do: news are shown, and any other notice gives the windows
    /// up. After that nothing is done.
    pub fn handle(&mut self, notice: Notice) -> (actions: Vec<NoticeAction>)
        ensures
            actions@ == (if old(self).is_over() {
                Seq::<NoticeAction>::empty()
            } else {
                on_notice(notice)
            }),
            final(self).is_over() == (old(self).is_over() || !(notice is News)),
            !old(self).is_over() && !(notice is News) ==> actions@ == seq![
                NoticeAction::ReleaseHold,
                NoticeAction::Quit,
            ],
            !old(self).is_over() ==> (notice matches Notice::News(data) ==> actions@ == seq![
                NoticeAction::Show(data),
            ]),
    {
        let mut actions: Vec<NoticeAction> = Vec::new();
        if !self.over {
            match notice {
                Notice::News(data) => {
                    actions.push(NoticeAction::Show(data));
                },
                _ => {
                    actions.push(NoticeAction::ReleaseHold);
                    actions.push(NoticeAction::Quit);
                    self.over = true;
                },
            }
            assert(actions@ =~= on_notice(notice));
        }
        actions
    }
}

/// What is done about notices that come one after the other.
pub open spec fn on_notices(over: bool, notices: Seq<Notice>) -> Seq<NoticeAction>
    decreases notices.len(),
{
    if notices.len() == 0 {
        seq![]
    } else {
        let first = notices[0];
        (if over {
            seq![]
        } else {
            on_notice(first)
        }) + on_notices(over || !(first is News), notices.drop_first())
    }
}

/// The application, as far as it can end.
pub struct Application {
    pub held: bool,
    pub quit: bool,
}

impl Application {
    /// The application as it comes up.
    pub open spec fn started() -> Application {
        Application { held: true, quit: false }
    }

    /// The effect of an action.
    pub open spec fn after(self, action: NoticeAction) -> Application {
        match action {
            NoticeAction::Show(_) => self,
            NoticeAction::ReleaseHold => Application { held: false, ..self },
            NoticeAction::Quit => Application { quit: true, ..self },
        }
    }

    /// The effect of actions taken one after the other.
    pub open spec fn after_all(self, actions: Seq<NoticeAction>) -> Application
        decreases actions.len(),
    {
        if actions.len() == 0 {
            self
        } else {
            self.after(actions[0]).after_all(actions.drop_first())
        }
    }

    /// Whether the application goes on with so many windows: it ends when it is quit, and also
    /// when there are no windows and nothing holds it.
    pub open spec fn goes_on(self, windows: nat) -> bool {
        !self.quit && (self.held || windows > 0)
    }
}

proof fn lemma_over(notices: Seq<Notice>)
    ensures
        on_notices(true, notices) == Seq::<NoticeAction>::empty(),
    decreases notices.len(),
{
    if notices.len() > 0 {
        lemma_over(notices.drop_first());
        assert(on_notices(true, notices) =~= Seq::<NoticeAction>::empty());
    }
}

/// As long as there are only news, all of them are shown, each in its turn.
pub proof fn law_news_are_shown(notices: Seq<Notice>)
    requires
        forall|i: int| 0 <= i < notices.len() ==> (#[trigger] notices[i]) is News,
    ensures
        on_notices(false, notices).len() == notices.len(),
        forall|i: int|
            0 <= i < notices.len() ==> (#[trigger] on_notices(false, notices)[i])
                == NoticeAction::Show(notices[i]->News_0),
    decreases notices.len(),
{
    if notices.len() > 0 {
        let rest = notices.drop_first();
        assert(notices[0] is News);
        assert forall|i: int| 0 <= i < rest.len() implies (#[trigger] rest[i]) is News by {
            assert(rest[i] == notices[i + 1]);
        }
        law_news_are_shown(rest);
        let all = on_notices(false, notices);
        assert(all =~= seq![NoticeAction::Show(notices[0]->News_0)] + on_notices(false, rest));
        assert forall|i: int| 0 <= i < notices.len() implies (#[trigger] all[i])
            == NoticeAction::Show(notices[i]->News_0) by {
            if i > 0 {
                assert(all[i] == on_notices(false, rest)[i - 1]);
                assert(rest[i - 1] == notices[i]);
            }
        }
    }
}

/// The first notice that is not news gives the windows up: what came before it is shown, the hold
/// is then let go of, the application is quit once, and nothing follows, whatever else comes.
pub proof fn law_quit_once(notices: Seq<Notice>, k: int)
    requires
        0 <= k < notices.len(),
        !(notices[k] is News),
        forall|i: int| 0 <= i < k ==> (#[trigger] notices[i]) is News,
    ensures
        on_notices(false, notices) == on_notices(false, notices.take(k)).push(
            NoticeAction::ReleaseHold,
        ).push(NoticeAction::Quit),
    decreases k,
{
    let rest = notices.drop_first();
    if k == 0 {
        lemma_over(rest);
        assert(notices.take(0) =~= Seq::empty());
        assert(on_notices(false, notices) =~= on_notices(false, notices.take(k)).push(
            NoticeAction::ReleaseHold,
        ).push(NoticeAction::Quit));
    } else {
        assert(notices[0] is News);
        assert(rest[k - 1] == notices[k]);
        assert forall|i: int| 0 <= i < k - 1 implies (#[trigger] rest[i]) is News by {
            assert(rest[i] == notices[i + 1]);
        }
        law_quit_once(rest, k - 1);
        assert(notices.take(k)[0] == notices[0]);
        assert(notices.take(k).drop_first() =~= rest.take(k - 1));
        assert(on_notices(false, notices) =~= on_notices(false, notices.take(k)).push(
            NoticeAction::ReleaseHold,
        ).push(NoticeAction::Quit));
    }
}

proof fn lemma_shown_changes_nothing(application: Application, actions: Seq<NoticeAction>)
    requires
        forall|i: int| 0 <= i < actions.len() ==> (#[trigger] actions[i]) is Show,
    ensures
        application.after_all(actions) == application,
    decreases actions.len(),
{
    if actions.len() > 0 {
        assert(actions[0] is Show);
        let rest = actions.drop_first();
        assert forall|i: int| 0 <= i < rest.len() implies (#[trigger] rest[i]) is Show by {
            assert(rest[i] == actions[i + 1]);
        }
        lemma_shown_changes_nothing(application, rest);
    }
}

/// As long as there are only news, the application goes on, however many windows there are.
pub proof fn law_application_is_held(notices: Seq<Notice>, windows: nat)
    requires
        forall|i: int| 0 <= i < notices.len() ==> (#[trigger] notices[i]) is News,
    ensures
        Application::started().after_all(on_notices(false, notices)).goes_on(windows),
{
    law_news_are_shown(notices);
    lemma_shown_changes_nothing(Application::started(), on_notices(false, notices));
}

proof fn lemma_after_push(application: Application, actions: Seq<NoticeAction>, last: NoticeAction)
    ensures
        application.after_all(actions.push(last)) == application.after_all(actions).after(last),
    decreases actions.len(),
{
    let all = actions.push(last);
    if actions.len() == 0 {
        assert(all.drop_first() =~= Seq::empty());
        reveal_with_fuel(Application::after_all, 2);
    } else {
        assert(all.drop_first() =~= actions.drop_first().push(last));
        lemma_after_push(application.after(actions[0]), actions.drop_first(), last);
    }
}

/// Once a notice that is not news has come, the application does not go on, however many windows
/// there are.
pub proof fn law_application_ends(notices: Seq<Notice>, k: int, windows: nat)
    requires
        0 <= k < notices.len(),
        !(notices[k] is News),
        forall|i: int| 0 <= i < k ==> (#[trigger] notices[i]) is News,
    ensures
        !Application::started().after_all(on_notices(false, notices)).held,
        !Application::started().after_all(on_notices(false, notices)).goes_on(windows),
{
    law_quit_once(notices, k);
    let shown = on_notices(false, notices.take(k));
    let started = Application::started();
    lemma_after_push(started, shown, NoticeAction::ReleaseHold);
    lemma_after_push(started, shown.push(NoticeAction::ReleaseHold), NoticeAction::Quit);
}

} // verus!
