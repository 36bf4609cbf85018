use vstd::prelude::*;

verus! {

/// One occurrence carried from a producer thread to the aggregator.
/// Times and durations are nanoseconds on a monotonic clock; `thread` is a
/// dense identity of the producing thread and `site` the identity of the
/// region's call site, whose display text is `name`.
pub enum ProfilerEvent {
    Initialize { time: u64 },
    Shutdown { time: u64 },
    ResetStats,
    BeginBlock { thread: u64, site: u64, name: String },
    EndBlock { thread: u64, time: u64 },
}

/// Mathematical model of an event.
pub ghost enum EventView {
    Initialize { time: u64 },
    Shutdown { time: u64 },
    ResetStats,
    BeginBlock { thread: u64, site: u64, name: Seq<char> },
    EndBlock { thread: u64, time: u64 },
}

impl View for ProfilerEvent {
    type V = EventView;

    open spec fn view(&self) -> EventView {
        match self {
            ProfilerEvent::Initialize { time } => EventView::Initialize { time: *time },
            ProfilerEvent::Shutdown { time } => EventView::Shutdown { time: *time },
            ProfilerEvent::ResetStats => EventView::ResetStats,
            ProfilerEvent::BeginBlock { thread, site, name } => EventView::BeginBlock {
                thread: *thread,
                site: *site,
                name: name@,
            },
            ProfilerEvent::EndBlock { thread, time } => EventView::EndBlock {
                thread: *thread,
                time: *time,
            },
        }
    }
}

impl ProfilerEvent {
    /// The start of the run at `time`.
    pub fn initialize(time: u64) -> (e: ProfilerEvent)
        ensures
            e@ == (EventView::Initialize { time }),
    {
        ProfilerEvent::Initialize { time }
    }

    /// The end of the run at `time`.
    pub fn shutdown(time: u64) -> (e: ProfilerEvent)
        ensures
            e@ == (EventView::Shutdown { time }),
    {
        ProfilerEvent::Shutdown { time }
    }

    /// A request to clear the statistics.
    pub fn reset_stats() -> (e: ProfilerEvent)
        ensures
            e@ == EventView::ResetStats,
    {
        ProfilerEvent::ResetStats
    }

    /// `thread` enters the region `name` of call site `site`.
    pub fn begin_block(thread: u64, site: u64, name: &str) -> (e: ProfilerEvent)
        ensures
            e@ == (EventView::BeginBlock { thread, site, name: name@ }),
    {
        ProfilerEvent::BeginBlock { thread, site, name: name.to_string() }
    }

    /// `thread` leaves its innermost region after `time` nanoseconds.
    pub fn end_block(thread: u64, time: u64) -> (e: ProfilerEvent)
        ensures
            e@ == (EventView::EndBlock { thread, time }),
    {
        ProfilerEvent::EndBlock { thread, time }
    }
}

} // verus!
