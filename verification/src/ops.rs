//! One operation at a time, who may stop it, and in which order a fill goes about what it
//! was asked for.

use vstd::prelude::*;

verus! {

/// What the desktop app keeps between commands. Whoever shares it between threads hands
/// it out to one of them at a time.
#[derive(Debug)]
pub struct AppState {
    busy: bool,
    cancel: Option<u64>,
}

/// [`AppState`] as its contracts speak of it.
pub struct AppStateView {
    /// A device operation is running.
    pub busy: bool,
    /// The number of the stop flag that the running fill has published.
    pub cancel: Option<u64>,
}

impl View for AppState {
    type V = AppStateView;

    closed spec fn view(&self) -> AppStateView {
        AppStateView { busy: self.busy, cancel: self.cancel }
    }
}

/// Proof of holding the single-operation slot. It comes from [`AppState::claim`] alone, and
/// giving it back is what frees the slot.
#[derive(Debug)]
pub struct OpGuard {
    held: bool,
}

impl Default for AppState {
    fn default() -> (state: Self)
        ensures
            state@ == (AppStateView { busy: false, cancel: None }),
    {
        AppState { busy: false, cancel: None }
    }
}

/// Without the stop flag `flag`, and with any other as it was.
pub open spec fn withdrawn(a: AppStateView, flag: u64) -> AppStateView {
    AppStateView {
        cancel: if a.cancel == Some(flag) {
            None
        } else {
            a.cancel
        },
        ..a
    }
}

impl AppState {
    /// Claim the slot, or refuse.
    ///
    /// The device is opened per operation, so two commands in flight would mean two opens:
    /// the second fails, and unwinding *that* failure is what would strand the first. A
    /// refusal is inert: it disturbs nothing of the running operation.
    pub fn claim(&mut self) -> (guard: Result<OpGuard, String>)
        ensures
            match guard {
                Ok(_) => !old(self)@.busy && final(self)@ == (AppStateView {
                    busy: true,
                    ..old(self)@
                }),
                Err(message) => old(self)@.busy && final(self)@ == old(self)@ && message@
                    == "Another operation is already running."@,
            },
    {
        if self.busy {
            return Err("Another operation is already running.".to_owned());
        }
        self.busy = true;
        Ok(OpGuard { held: true })
    }

    /// Give the slot back, however the operation ended.
    pub fn release(&mut self, guard: OpGuard)
        ensures
            final(self)@ == (AppStateView { busy: false, ..old(self)@ }),
    {
        self.busy = false;
    }

    /// Publish the stop flag of a fill, by its number. Published only once the device is
    /// open: a flag published ahead of a failed open would outlive its command, and Stop
    /// would pull on a flag nothing is watching.
    pub fn publish(&mut self, flag: u64)
        ensures
            final(self)@ == (AppStateView { cancel: Some(flag), ..old(self)@ }),
    {
        self.cancel = Some(flag);
    }

    /// Take the stop flag `flag` back, and no other: clearing whatever happens to be there
    /// is how one command would take away another's Stop button.
    pub fn withdraw(&mut self, flag: u64)
        ensures
            final(self)@ == withdrawn(old(self)@, flag),
    {
        match self.cancel {
            Some(published) => {
                if published == flag {
                    self.cancel = None;
                }
            },
            None => {},
        }
    }

    /// The number of the stop flag to pull, if a fill is running.
    pub fn published(&self) -> (flag: Option<u64>)
        ensures
            flag == self@.cancel,
    {
        self.cancel
    }
}

/// What is to become of the content of the folder that is not ours.
#[derive(Debug)]
pub enum Overwrite {
    /// It stays.
    Keep,
    /// It goes, whatever it is.
    Anything,
    /// It goes if it is what this token was given out for.
    Confirmed { token: String },
}

/// An [`Overwrite`], with its text as characters.
pub enum OverwriteView {
    Keep,
    Anything,
    Confirmed { token: Seq<char> },
}

impl View for Overwrite {
    type V = OverwriteView;

    open spec fn view(&self) -> OverwriteView {
        match *self {
            Overwrite::Keep => OverwriteView::Keep,
            Overwrite::Anything => OverwriteView::Anything,
            Overwrite::Confirmed { token } => OverwriteView::Confirmed { token: token@ },
        }
    }
}

/// How far a fill that was asked for has got.
#[derive(Debug, Clone, Copy, PartialEq, Eq, Structural)]
pub enum Stage {
    /// The device is being opened.
    Opening,
    /// The folder is being emptied; the stop flag is published.
    Purging { flag: u64 },
    /// The filling is underway; the stop flag is published.
    Filling { flag: u64 },
    /// Over.
    Ended,
}

/// A fill that was asked for, from opening the device to its end.
///
/// Taking the folder over is a separate, explicit act that comes before any filling: if it
/// fails, nothing has been written, and if it was not asked for, it is never reached. The
/// stop flag is published once the device is open, and withdrawn on every way out.
#[derive(Debug)]
pub struct FillCommand {
    overwrite: Overwrite,
    stage: Stage,
}

/// A [`FillCommand`] as its contracts speak of it.
pub struct FillCommandView {
    pub overwrite: OverwriteView,
    pub stage: Stage,
}

impl View for FillCommand {
    type V = FillCommandView;

    closed spec fn view(&self) -> FillCommandView {
        FillCommandView { overwrite: self.overwrite@, stage: self.stage }
    }
}

/// What has to be done next.
#[derive(Debug)]
pub enum Due {
    Open,
    /// Empty the folder; given a token, only if that is still the one of its content.
    Purge { confirmed: Option<String> },
    Fill,
    Nothing,
}

/// [`Due`], with its text as characters.
pub enum DueView {
    Open,
    Purge { confirmed: Option<Seq<char>> },
    Fill,
    Nothing,
}

impl View for Due {
    type V = DueView;

    open spec fn view(&self) -> DueView {
        match *self {
            Due::Open => DueView::Open,
            Due::Purge { confirmed } => DueView::Purge {
                confirmed: match confirmed {
                    Some(token) => Some(token@),
                    None => None,
                },
            },
            Due::Fill => DueView::Fill,
            Due::Nothing => DueView::Nothing,
        }
    }
}

/// How what was due went.
#[derive(Debug, Clone, Copy, PartialEq, Eq, Structural)]
pub enum News {
    /// The device is open, and this is the number of the stop flag.
    Opened { flag: u64 },
    /// The device could not be opened.
    NotOpened,
    /// The folder was emptied, or that failed.
    Purged { well: bool },
    /// The filling is over, however it went.
    Filled,
}

/// What a command calls for.
pub open spec fn due_of(c: FillCommandView) -> DueView {
    match c.stage {
        Stage::Opening => DueView::Open,
        Stage::Purging { .. } => DueView::Purge {
            confirmed: match c.overwrite {
                OverwriteView::Confirmed { token } => Some(token),
                _ => None,
            },
        },
        Stage::Filling { .. } => DueView::Fill,
        Stage::Ended => DueView::Nothing,
    }
}

/// Where news leads a command, and what becomes of the shared state. News of something
/// that was not due changes nothing.
pub open spec fn heard(c: FillCommandView, a: AppStateView, news: News) -> (
    FillCommandView,
    AppStateView,
) {
    let (stage, a) = match (c.stage, news) {
        (Stage::Opening, News::Opened { flag }) => (
            if c.overwrite is Keep {
                Stage::Filling { flag }
            } else {
                Stage::Purging { flag }
            },
            AppStateView { cancel: Some(flag), ..a },
        ),
        (Stage::Opening, News::NotOpened) => (Stage::Ended, a),
        (Stage::Purging { flag }, News::Purged { well }) => if well {
            (Stage::Filling { flag }, a)
        } else {
            (Stage::Ended, withdrawn(a, flag))
        },
        (Stage::Filling { flag }, News::Filled) => (Stage::Ended, withdrawn(a, flag)),
        _ => (c.stage, a),
    };
    (FillCommandView { stage, ..c }, a)
}

impl FillCommand {
    /// A command that nothing has been done for yet.
    pub fn new(overwrite: Overwrite) -> (command: FillCommand)
        ensures
            command@ == (FillCommandView { overwrite: overwrite@, stage: Stage::Opening }),
    {
        FillCommand { overwrite, stage: Stage::Opening }
    }

    /// What has to be done next.
    pub fn due(&self) -> (due: Due)
        ensures
            due@ == due_of(self@),
    {
        match self.stage {
            Stage::Opening => Due::Open,
            Stage::Purging { .. } => match &self.overwrite {
                Overwrite::Confirmed { token } => Due::Purge { confirmed: Some(token.clone()) },
                _ => Due::Purge { confirmed: None },
            },
            Stage::Filling { .. } => Due::Fill,
            Stage::Ended => Due::Nothing,
        }
    }

    /// Hand the command the news of what was due.
    pub fn hear(&mut self, state: &mut AppState, news: News)
        ensures
            (final(self)@, final(state)@) == heard(old(self)@, old(state)@, news),
    {
        match (self.stage, news) {
            (Stage::Opening, News::Opened { flag }) => {
                self.stage = match &self.overwrite {
                    Overwrite::Keep => Stage::Filling { flag },
                    _ => Stage::Purging { flag },
                };
                state.publish(flag);
            },
            (Stage::Opening, News::NotOpened) => {
                self.stage = Stage::Ended;
            },
            (Stage::Purging { flag }, News::Purged { well }) => {
                if well {
                    self.stage = Stage::Filling { flag };
                } else {
                    self.stage = Stage::Ended;
                    state.withdraw(flag);
                }
            },
            (Stage::Filling { flag }, News::Filled) => {
                self.stage = Stage::Ended;
                state.withdraw(flag);
            },
            _ => {},
        }
    }
}

/// Where a sequence of news leads a command and the shared state.
pub open spec fn heard_all(c: FillCommandView, a: AppStateView, news: Seq<News>) -> (
    FillCommandView,
    AppStateView,
)
    decreases news.len(),
{
    if news.len() == 0 {
        (c, a)
    } else {
        let (d, b) = heard_all(c, a, news.drop_last());
        heard(d, b, news.last())
    }
}

/// A folder is emptied only where that was asked for, and nothing is written before: the
/// filling is called for only if no content was to go, or once the folder was emptied
/// well, with the token that was given.
pub proof fn law_filling_comes_after_the_purge(
    c: FillCommandView,
    a: AppStateView,
    news: Seq<News>,
)
    requires
        c.stage is Opening,
    ensures
        ({
            let now = heard_all(c, a, news).0;
            &&& due_of(now) is Fill ==> c.overwrite is Keep || exists|i: int|
                0 <= i < news.len() && #[trigger] news[i] == (News::Purged { well: true })
                    && due_of(heard_all(c, a, news.take(i)).0) is Purge
            &&& due_of(now) matches DueView::Purge { confirmed } ==> match c.overwrite {
                OverwriteView::Keep => false,
                OverwriteView::Anything => confirmed is None,
                OverwriteView::Confirmed { token } => confirmed == Some(token),
            }
            &&& now.overwrite == c.overwrite
        }),
    decreases news.len(),
{
    if news.len() > 0 {
        let before = news.drop_last();
        law_filling_comes_after_the_purge(c, a, before);
        let d = heard_all(c, a, before).0;
        let now = heard_all(c, a, news).0;
        if due_of(now) is Fill && !(c.overwrite is Keep) {
            if due_of(d) is Fill {
                let i = choose|i: int|
                    0 <= i < before.len() && #[trigger] before[i] == (News::Purged { well: true })
                        && due_of(heard_all(c, a, before.take(i)).0) is Purge;
                assert(news[i] == before[i]);
                assert(news.take(i) =~= before.take(i));
            } else {
                let i = news.len() - 1;
                assert(news[i] == (News::Purged { well: true }));
                assert(news.take(i) =~= before);
            }
        }
    }
}

/// The stop flag is there to be pulled exactly while there is something to stop: where no
/// other command publishes one meanwhile, it is published from the opening of the device
/// on, and on every way out it is withdrawn.
pub proof fn law_the_flag_goes_on_every_way_out(
    c: FillCommandView,
    a: AppStateView,
    news: Seq<News>,
)
    requires
        c.stage is Opening,
        a.cancel is None,
    ensures
        ({
            let (now, b) = heard_all(c, a, news);
            &&& b.busy == a.busy
            &&& b.cancel == match now.stage {
                Stage::Purging { flag } => Some(flag),
                Stage::Filling { flag } => Some(flag),
                _ => None,
            }
        }),
    decreases news.len(),
{
    if news.len() > 0 {
        law_the_flag_goes_on_every_way_out(c, a, news.drop_last());
    }
}

/// A command that is over stays over.
pub proof fn law_an_ended_command_stays_ended(c: FillCommandView, a: AppStateView, news: News)
    requires
        c.stage is Ended,
    ensures
        heard(c, a, news) == (c, a),
        due_of(c) is Nothing,
{
}

/// What is due follows from the news: once the device is open the folder is emptied first,
/// unless its content is to stay, and then filled; where the device does not open, or the
/// folder could not be emptied, nothing more is. News of anything that was not due changes
/// nothing.
pub proof fn law_what_is_due_follows_from_the_news(
    c: FillCommandView,
    a: AppStateView,
    flag: u64,
    news: News,
)
    ensures
        due_of(c) is Open ==> {
            let (opened, b) = heard(c, a, News::Opened { flag });
            &&& b == (AppStateView { busy: a.busy, cancel: Some(flag) })
            &&& c.overwrite is Keep ==> due_of(opened) is Fill
            &&& c.overwrite is Anything ==> due_of(opened) == (DueView::Purge { confirmed: None })
            &&& c.overwrite matches OverwriteView::Confirmed { token } ==> due_of(opened) == (
            DueView::Purge { confirmed: Some(token) })
            &&& due_of(heard(c, a, News::NotOpened).0) is Nothing
            &&& heard(c, a, News::NotOpened).1 == a
            &&& news is Purged || news is Filled ==> heard(c, a, news) == (c, a)
        },
        due_of(c) is Purge ==> {
            &&& due_of(heard(c, a, News::Purged { well: true }).0) is Fill
            &&& heard(c, a, News::Purged { well: true }).1 == a
            &&& due_of(heard(c, a, News::Purged { well: false }).0) is Nothing
            &&& !(news is Purged) ==> heard(c, a, news) == (c, a)
        },
        due_of(c) is Fill ==> {
            &&& due_of(heard(c, a, News::Filled).0) is Nothing
            &&& !(news is Filled) ==> heard(c, a, news) == (c, a)
        },
{
}

/// A stop flag is taken back where it is the one that is published; another one stays, and
/// whether an operation is running has nothing to do with it.
pub proof fn law_only_its_own_flag_is_taken_back(a: AppStateView, flag: u64)
    ensures
        withdrawn(a, flag).busy == a.busy,
        withdrawn(a, flag).cancel != Some(flag),
        a.cancel != Some(flag) ==> withdrawn(a, flag) == a,
        a.cancel == Some(flag) ==> withdrawn(a, flag).cancel is None,
{
}

} // verus!
