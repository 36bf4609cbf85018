use vstd::prelude::*;
use crate::event::{EventView, ProfilerEvent};
use crate::profiler_data::{fresh, run, step, DataView, ProfilerData};
use crate::render::document;
use crate::report::report_rows;

verus! {

#[verifier::external_type_specification]
#[verifier::external_body]
#[verifier::reject_recursive_types(T)]
pub struct ExSender<T>(flume::Sender<T>);

#[verifier::external_type_specification]
#[verifier::external_body]
#[verifier::reject_recursive_types(T)]
pub struct ExReceiver<T>(flume::Receiver<T>);

/// Relies on `flume::unbounded`: a new multi-producer, single-consumer
/// channel whose sends never block.
#[verifier::external_body]
fn unbounded_channel() -> (r: (flume::Sender<ProfilerEvent>, flume::Receiver<ProfilerEvent>)) {
    flume::unbounded()
}

/// Relies on `flume::Sender::send`: the event is queued, or dropped when the
/// receiving side is gone; the error carries nothing the caller needs.
#[verifier::external_body]
fn send_event(sender: &flume::Sender<ProfilerEvent>, event: ProfilerEvent) {
    let _ = sender.send(event);
}

/// Relies on `flume::Receiver::drain`: removes and hands out, without
/// blocking, the events queued at the time of the call. Which ones those are
/// depends on the other threads, so nothing is stated of them.
#[verifier::external_body]
fn drain_events(receiver: &flume::Receiver<ProfilerEvent>) -> (r: Vec<ProfilerEvent>) {
    receiver.drain().collect()
}

/// Event transport between the instrumented threads and the aggregator.
pub struct Profiler {
    events_sender: flume::Sender<ProfilerEvent>,
    events_receiver: flume::Receiver<ProfilerEvent>,
}

pub open spec fn events_view(es: Seq<ProfilerEvent>) -> Seq<EventView> {
    es.map_values(|e: ProfilerEvent| e@)
}

/// Running a sequence and then one more event is running the longer sequence.
proof fn lemma_run_push(d: DataView, es: Seq<EventView>, e: EventView)
    ensures
        run(d, es.push(e)) == step(run(d, es), e),
    decreases es.len(),
{
    assert(es.push(e)[0] == if es.len() == 0 { e } else { es[0] });
    if es.len() == 0 {
        assert(es.push(e).drop_first() =~= Seq::<EventView>::empty());
        assert(run(step(d, e), Seq::<EventView>::empty()) == step(d, e));
    } else {
        lemma_run_push(step(d, es[0]), es.drop_first(), e);
        assert(es.push(e).drop_first() =~= es.drop_first().push(e));
    }
}

impl ProfilerData {
    /// Apply `events` in order.
    pub fn apply_events(&mut self, events: Vec<ProfilerEvent>)
        requires
            old(self).wf(),
        ensures
            final(self)@ == run(old(self)@, events_view(events@)),
            final(self).wf(),
    {
        let ghost es = events_view(events@);
        let n = events.len();
        let mut k: usize = 0;
        while k < n
            invariant
                n == events.len(),
                es == events_view(events@),
                k <= n,
                self.wf(),
                self@ == run(old(self)@, es.take(k as int)),
            decreases n - k,
        {
            let e = &events[k];
            proof {
                lemma_run_push(old(self)@, es.take(k as int), e@);
                assert(es.take(k + 1) =~= es.take(k as int).push(e@));
            }
            self.apply_event(e);
            k = k + 1;
        }
        assert(es.take(n as int) =~= es);
    }
}

impl Profiler {
    pub fn new() -> Profiler {
        let (events_sender, events_receiver) = unbounded_channel();
        Profiler { events_sender, events_receiver }
    }

    /// Remove and return the events queued so far.
    pub fn drain(&self) -> Vec<ProfilerEvent> {
        drain_events(&self.events_receiver)
    }

    /// Queue an event; it is dropped silently once the channel is closed.
    pub fn send(&self, event: ProfilerEvent) {
        send_event(&self.events_sender, event);
    }

    /// Start a run at `now`, sending `ProfilerEvent::initialize(now)`, and
    /// return the empty state that will gather it.
    pub fn initialize(&self, now: u64) -> (r: ProfilerData)
        ensures
            r@ == fresh(0),
            r.wf(),
    {
        self.send(ProfilerEvent::initialize(now));
        ProfilerData::new()
    }

    /// Apply every queued event to `data`. Whatever the other threads sent,
    /// the result is `data` after some sequence of events.
    pub fn process_events(&self, data: &mut ProfilerData)
        requires
            old(data).wf(),
        ensures
            final(data).wf(),
            exists|es: Seq<EventView>| final(data)@ == run(old(data)@, es),
    {
        let events = self.drain();
        let ghost es = events_view(events@);
        data.apply_events(events);
        assert(data@ == run(old(data)@, es));
    }

    /// End the run at `now`, sending `ProfilerEvent::shutdown(now)`, apply
    /// what is queued, and return the report.
    pub fn shutdown(&self, now: u64, data: &mut ProfilerData) -> (r: String)
        requires
            old(data).wf(),
        ensures
            final(data).wf(),
            exists|es: Seq<EventView>| final(data)@ == run(old(data)@, es),
            r@ == document(report_rows(final(data)@)),
    {
        self.send(ProfilerEvent::shutdown(now));
        self.process_events(data);
        data.build_report_string()
    }

    /// Ask the aggregator to clear the statistics gathered so far, sending
    /// `ProfilerEvent::reset_stats()`.
    pub fn reset_stats(&self) {
        self.send(ProfilerEvent::reset_stats());
    }

    /// Send `ProfilerEvent::begin_block(thread, site, name)`.
    pub fn begin_block(&self, thread: u64, site: u64, name: &str) {
        self.send(ProfilerEvent::begin_block(thread, site, name));
    }

    /// Send `ProfilerEvent::end_block(thread, time)`.
    pub fn end_block(&self, thread: u64, time: u64) {
        self.send(ProfilerEvent::end_block(thread, time));
    }
}

/// A measured region in progress: created on entry, which reports the
/// beginning, and ended on exit, which reports the elapsed time.
pub struct ProfilerBlockGuard {
    pub thread: u64,
    pub start_time: u64,
}

impl ProfilerBlockGuard {
    /// Open the region `name` (call site `site`) on `thread` at `now`,
    /// sending `ProfilerEvent::begin_block(thread, site, name)`.
    pub fn new(profiler: &Profiler, thread: u64, site: u64, name: &str, now: u64) -> (r: ProfilerBlockGuard)
        ensures
            r.thread == thread,
            r.start_time == now,
    {
        profiler.begin_block(thread, site, name);
        ProfilerBlockGuard { thread, start_time: now }
    }

    /// Time from the opening of the region to `now`; zero if the clock
    /// reads earlier.
    pub fn elapsed(&self, now: u64) -> (r: u64)
        ensures
            r == if now >= self.start_time { now - self.start_time } else { 0 },
    {
        now.saturating_sub(self.start_time)
    }

    /// The event that closes the region at `now`.
    pub fn end_event(&self, now: u64) -> (e: ProfilerEvent)
        ensures
            e@ == (EventView::EndBlock {
                thread: self.thread,
                time: if now >= self.start_time { (now - self.start_time) as u64 } else { 0 },
            }),
    {
        ProfilerEvent::end_block(self.thread, self.elapsed(now))
    }

    /// Close the region at `now`, sending `self.end_event(now)`.
    pub fn end(&self, profiler: &Profiler, now: u64) {
        profiler.send(self.end_event(now));
    }
}

} // verus!
