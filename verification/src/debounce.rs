use vstd::prelude::*;
use crate::types::{AppConfig, MappingView};

verus! {

/// What the saving loop observes while it waits for configurations to save.
#[derive(Debug)]
pub enum SaveEvent {
    /// A configuration to save arrived.
    Received(AppConfig),
    /// The quiet period passed without a new configuration.
    Timeout,
    /// No configuration can arrive any more.
    Disconnected,
}

/// What the saving loop does next.
#[derive(Debug)]
pub enum SaveAction {
    /// Keep waiting.
    Wait,
    /// Write this configuration to disk.
    Write(AppConfig),
    /// Leave the loop.
    Stop,
}

pub enum SaveEventView {
    Received(Seq<MappingView>),
    Timeout,
    Disconnected,
}

pub enum SaveActionView {
    Wait,
    Write(Seq<MappingView>),
    Stop,
}

impl View for SaveEvent {
    type V = SaveEventView;

    open spec fn view(&self) -> SaveEventView {
        match self {
            SaveEvent::Received(c) => SaveEventView::Received(c@),
            SaveEvent::Timeout => SaveEventView::Timeout,
            SaveEvent::Disconnected => SaveEventView::Disconnected,
        }
    }
}

impl View for SaveAction {
    type V = SaveActionView;

    open spec fn view(&self) -> SaveActionView {
        match self {
            SaveAction::Wait => SaveActionView::Wait,
            SaveAction::Write(c) => SaveActionView::Write(c@),
            SaveAction::Stop => SaveActionView::Stop,
        }
    }
}

/// One step of the debounced saving: a new configuration replaces the pending
/// one and waits; a quiet period writes the pending configuration, if any, and
/// clears it; a closed channel stops the loop (a configuration still pending
/// then is not written).
pub open spec fn debounce_step(pending: Option<Seq<MappingView>>, ev: SaveEventView) -> (
    Option<Seq<MappingView>>,
    SaveActionView,
) {
    match ev {
        SaveEventView::Received(c) => (Some(c), SaveActionView::Wait),
        SaveEventView::Timeout => match pending {
            Some(c) => (None, SaveActionView::Write(c)),
            None => (None, SaveActionView::Wait),
        },
        SaveEventView::Disconnected => (pending, SaveActionView::Stop),
    }
}

/// The pending configuration and the actions after a run of events.
pub open spec fn debounce_run(pending: Option<Seq<MappingView>>, evs: Seq<SaveEventView>) -> (
    Option<Seq<MappingView>>,
    Seq<SaveActionView>,
)
    decreases evs.len(),
{
    if evs.len() == 0 {
        (pending, Seq::empty())
    } else {
        let (p, acts) = debounce_run(pending, evs.drop_last());
        let (q, a) = debounce_step(p, evs.last());
        (q, acts.push(a))
    }
}

/// The state of the debounced saving: the configuration waiting to be written.
#[derive(Debug)]
pub struct Debouncer {
    pending: Option<AppConfig>,
}

impl Debouncer {
    /// The configuration waiting to be written, if any.
    pub closed spec fn pending_view(&self) -> Option<Seq<MappingView>> {
        match self.pending {
            Some(c) => Some(c@),
            None => None,
        }
    }

    /// Nothing is waiting to be written.
    pub fn new() -> (res: Debouncer)
        ensures
            res.pending_view() is None,
    {
        Debouncer { pending: None }
    }

    /// Whether a configuration is waiting to be written.
    pub fn has_pending(&self) -> (res: bool)
        ensures
            res == self.pending_view() is Some,
    {
        self.pending.is_some()
    }

    /// Takes one event and says what to do.
    pub fn step(&mut self, ev: SaveEvent) -> (act: SaveAction)
        ensures
            (final(self).pending_view(), act@) == debounce_step(old(self).pending_view(), ev@),
    {
        match ev {
            SaveEvent::Received(c) => {
                self.pending = Some(c);
                SaveAction::Wait
            },
            SaveEvent::Timeout => match self.pending.take() {
                Some(c) => SaveAction::Write(c),
                None => SaveAction::Wait,
            },
            SaveEvent::Disconnected => SaveAction::Stop,
        }
    }
}

/// A burst of configurations followed by a quiet period is written once, as the
/// last configuration of the burst, and nothing stays pending.
pub proof fn law_burst_is_written_once(pending: Option<Seq<MappingView>>, cs: Seq<Seq<MappingView>>)
    requires
        cs.len() > 0,
    ensures
        ({
            let evs = cs.map_values(|c: Seq<MappingView>| SaveEventView::Received(c)).push(
                SaveEventView::Timeout,
            );
            let (p, acts) = debounce_run(pending, evs);
            &&& p is None
            &&& acts.len() == cs.len() + 1
            &&& forall|i: int| 0 <= i < cs.len() ==> #[trigger] acts[i] == SaveActionView::Wait
            &&& acts[cs.len() as int] == SaveActionView::Write(cs.last())
        }),
{
    let burst = cs.map_values(|c: Seq<MappingView>| SaveEventView::Received(c));
    lemma_burst(pending, cs);
    let evs = burst.push(SaveEventView::Timeout);
    assert(evs.drop_last() =~= burst);
}

/// A burst of configurations leaves the last one pending and only waits.
proof fn lemma_burst(pending: Option<Seq<MappingView>>, cs: Seq<Seq<MappingView>>)
    requires
        cs.len() > 0,
    ensures
        ({
            let (p, acts) = debounce_run(
                pending,
                cs.map_values(|c: Seq<MappingView>| SaveEventView::Received(c)),
            );
            &&& p == Some(cs.last())
            &&& acts.len() == cs.len()
            &&& forall|i: int| 0 <= i < cs.len() ==> #[trigger] acts[i] == SaveActionView::Wait
        }),
    decreases cs.len(),
{
    let evs = cs.map_values(|c: Seq<MappingView>| SaveEventView::Received(c));
    let init = cs.drop_last();
    assert(evs.drop_last() =~= init.map_values(|c: Seq<MappingView>| SaveEventView::Received(c)));
    assert(evs.last() == SaveEventView::Received(cs.last()));
    if init.len() > 0 {
        lemma_burst(pending, init);
    }
}

/// A quiet period with nothing pending writes nothing.
pub proof fn law_idle_timeout_writes_nothing()
    ensures
        debounce_step(None, SaveEventView::Timeout) == (
            None::<Seq<MappingView>>,
            SaveActionView::Wait,
        ),
{
}

/// A closed channel stops the loop whatever is pending; nothing is written
/// after it.
pub proof fn law_close_stops(pending: Option<Seq<MappingView>>)
    ensures
        debounce_step(pending, SaveEventView::Disconnected).1 == SaveActionView::Stop,
{
}

/// A configuration that arrives is written at the next quiet period unless a
/// newer configuration replaces it first.
pub proof fn law_received_is_written_next(c: Seq<MappingView>, pending: Option<Seq<MappingView>>)
    ensures
        debounce_step(debounce_step(pending, SaveEventView::Received(c)).0, SaveEventView::Timeout).1
            == SaveActionView::Write(c),
{
}

} // verus!
