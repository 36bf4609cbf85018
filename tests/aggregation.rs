use rprofiler::names::{clean, join_segments};
use rprofiler::render::build_string;
use rprofiler::report::{percent_of, ReportRow};
use rprofiler::{BlockStat, Profiler, ProfilerBlockGuard, ProfilerData, ProfilerEvent};

const MS: u64 = 1_000_000;

fn begin(thread: u64, site: u64, name: &str) -> ProfilerEvent {
    ProfilerEvent::BeginBlock { thread, site, name: name.to_string() }
}

fn end(thread: u64, time: u64) -> ProfilerEvent {
    ProfilerEvent::EndBlock { thread, time }
}

fn replay(events: Vec<ProfilerEvent>) -> ProfilerData {
    let mut data = ProfilerData::new();
    data.apply_events(events);
    data
}

fn nested_run() -> Vec<ProfilerEvent> {
    vec![
        ProfilerEvent::Initialize { time: 0 },
        begin(1, 10, "outer"),
        begin(1, 20, "inner"),
        end(1, 10 * MS),
        end(1, 15 * MS),
        ProfilerEvent::Shutdown { time: 15 * MS },
    ]
}

fn chars(s: &str) -> Vec<char> {
    s.chars().collect()
}

#[test]
fn nested_blocks_report_percentages() {
    let data = replay(nested_run());
    let rows: Vec<ReportRow> = data.build_report();
    assert_eq!(rows.len(), 3);
    assert_eq!(rows[0].name, "ProfilerMainBlock");
    assert_eq!(rows[0].global_percent, 10000);
    assert_eq!(rows[0].parent_percent, 10000);
    assert_eq!(rows[1].name, "outer");
    assert_eq!(rows[1].depth, 1);
    assert_eq!(rows[1].global_percent, 10000);
    assert_eq!(rows[1].parent_percent, 10000);
    assert_eq!(rows[1].avg_time, 15 * MS);
    assert_eq!(rows[2].name, "inner");
    assert_eq!(rows[2].depth, 2);
    assert_eq!(rows[2].parent_percent, 6667);
    assert_eq!(rows[2].global_percent, 6667);
    assert_eq!(rows[2].avg_time, 10 * MS);
}

#[test]
fn nested_blocks_report_text() {
    let text = replay(nested_run()).build_report_string();
    assert!(text.starts_with("<html><body>"));
    assert!(text.ends_with("</table>\n</body></html>"));
    assert!(text.contains(
        "<tr><td style=\"padding-left: 25\">outer</td><td>100.00 %</td><td>100.00 %</td><td>  15.0000 ms</td></tr>\n"
    ));
    assert!(text.contains(
        "<tr><td style=\"padding-left: 50\">inner</td><td> 66.67 %</td><td> 66.67 %</td><td>  10.0000 ms</td></tr>\n"
    ));
}

#[test]
fn root_is_always_hundred_percent() {
    let data = replay(vec![
        ProfilerEvent::Initialize { time: 5 },
        begin(1, 1, "a"),
        end(1, 40),
        ProfilerEvent::Shutdown { time: 25 },
    ]);
    let rows = data.build_report();
    assert_eq!(rows[0].global_percent, 10000);
    assert_eq!(rows[0].parent_percent, 10000);
    assert_eq!(rows[1].global_percent, 20000);
}

#[test]
fn same_site_resolves_to_same_node() {
    let data = replay(vec![begin(1, 7, "f"), end(1, 3), begin(1, 7, "f"), end(1, 5)]);
    assert_eq!(data.nodes.len(), 2);
    assert_eq!(data.nodes[0].children, vec![1]);
    assert_eq!(data.nodes[1].measure_count, 2);
    assert_eq!(data.nodes[1].total_time, 8);
}

#[test]
fn distinct_sites_with_same_text_stay_apart() {
    let data = replay(vec![begin(1, 7, "f"), end(1, 3), begin(1, 8, "f"), end(1, 5)]);
    assert_eq!(data.nodes.len(), 3);
    assert_eq!(data.nodes[0].children, vec![1, 2]);
}

#[test]
fn end_is_credited_to_its_own_thread() {
    let data = replay(vec![
        begin(1, 1, "a"),
        begin(2, 2, "b"),
        begin(1, 3, "c"),
        end(2, 100),
        end(1, 7),
        end(1, 20),
    ]);
    // a and b are children of the root; c nests under a only.
    assert_eq!(data.nodes[0].children, vec![1, 2]);
    assert_eq!(data.nodes[1].name, "a");
    assert_eq!(data.nodes[1].children, vec![3]);
    assert_eq!(data.nodes[2].name, "b");
    assert_eq!(data.nodes[2].total_time, 100);
    assert_eq!(data.nodes[3].total_time, 7);
    assert_eq!(data.nodes[1].total_time, 20);
    assert!(data.stacks.iter().all(|s| s.frames.is_empty()));
}

#[test]
fn end_without_open_frame_is_dropped() {
    let data = replay(vec![end(4, 9), begin(1, 1, "a")]);
    assert_eq!(data.nodes.len(), 2);
    assert_eq!(data.nodes[0].total_time, 0);
    assert_eq!(data.nodes[1].measure_count, 0);
}

#[test]
fn reset_then_replay_matches_fresh_run() {
    let mut data = replay(vec![begin(1, 5, "x"), end(1, 3), begin(2, 6, "y")]);
    data.apply_events(vec![ProfilerEvent::ResetStats]);
    data.apply_events(nested_run());
    let fresh = replay(nested_run());
    assert_eq!(data.build_report_string(), fresh.build_report_string());
}

#[test]
fn unfinished_blocks_are_not_reported() {
    let data = replay(vec![
        ProfilerEvent::Initialize { time: 0 },
        begin(1, 1, "open"),
        ProfilerEvent::Shutdown { time: 10 },
    ]);
    let rows = data.build_report();
    assert_eq!(rows.len(), 1);
}

#[test]
fn children_sorted_by_share_then_discovery() {
    let data = replay(vec![
        ProfilerEvent::Initialize { time: 0 },
        begin(1, 1, "small"),
        end(1, 10),
        begin(1, 2, "big"),
        end(1, 50),
        begin(1, 3, "tie"),
        end(1, 10),
        ProfilerEvent::Shutdown { time: 100 },
    ]);
    let rows = data.build_report();
    let names: Vec<&str> = rows.iter().map(|r| r.name.as_str()).collect();
    assert_eq!(names, vec!["ProfilerMainBlock", "big", "small", "tie"]);
    assert_eq!(rows[1].global_percent, 5000);
    assert_eq!(rows[2].parent_percent, 1000);
}

#[test]
fn shutdown_before_initialize_time_gives_zero_run() {
    let data = replay(vec![ProfilerEvent::Initialize { time: 50 }, ProfilerEvent::Shutdown { time: 20 }]);
    assert_eq!(data.nodes[0].total_time, 0);
    assert_eq!(data.nodes[0].measure_count, 1);
}

#[test]
fn durations_saturate() {
    let data = replay(vec![begin(1, 1, "a"), end(1, u64::MAX), begin(1, 1, "a"), end(1, 5)]);
    assert_eq!(data.nodes[1].total_time, u64::MAX);
    assert_eq!(data.nodes[1].measure_count, 2);
}

#[test]
fn repeated_module_segments_are_dropped() {
    assert_eq!(clean("module::module::function"), chars("module::function"));
    assert_eq!(clean("my_crate::MyCrate::run"), chars("MyCrate::run"));
    assert_eq!(clean("a::b::c"), chars("a::b::c"));
    assert_eq!(clean("x::x::x"), chars("x"));
    assert_eq!(clean(""), chars(""));
    assert_eq!(clean("::lead"), chars("::lead"));
}

#[test]
fn names_in_report_are_cleaned_and_escaped() {
    let data = replay(vec![
        ProfilerEvent::Initialize { time: 0 },
        begin(1, 1, "game::game::Vec<u8>::push"),
        end(1, 4),
        ProfilerEvent::Shutdown { time: 4 },
    ]);
    let rows = data.build_report();
    assert_eq!(rows[1].name, "game::Vec<u8>::push");
    let text = data.build_report_string();
    assert!(text.contains(">game::Vec&lt;u8&gt;::push</td>"));
}

#[test]
fn percent_rounds_half_up() {
    assert_eq!(percent_of(1, 3), 3333);
    assert_eq!(percent_of(2, 3), 6667);
    assert_eq!(percent_of(1, 8), 1250);
    assert_eq!(percent_of(5, 0), 0);
    assert_eq!(percent_of(u64::MAX, 1), 10000 * (u64::MAX as u128));
}

#[test]
fn rows_render_with_fixed_widths() {
    let rows = vec![ReportRow {
        name: "a<b>".to_string(),
        depth: 3,
        global_percent: 5,
        parent_percent: 123456,
        avg_time: 123_456_789_049,
    }];
    let text = build_string(&rows);
    assert!(text.contains(
        "<tr><td style=\"padding-left: 75\">a&lt;b&gt;</td><td>  0.05 %</td><td>1234.56 %</td><td>123456.7890 ms</td></tr>\n"
    ));
}

#[test]
fn average_time_rounds_to_tenth_of_microsecond() {
    let rows = vec![ReportRow {
        name: "r".to_string(),
        depth: 0,
        global_percent: 10000,
        parent_percent: 10000,
        avg_time: 150,
    }];
    assert!(build_string(&rows).contains("<td>   0.0002 ms</td>"));
}

#[test]
fn new_block_stat_is_empty() {
    let b = BlockStat::new("name");
    assert_eq!(b.name, "name");
    assert_eq!(b.total_time, 0);
    assert_eq!(b.measure_count, 0);
    assert!(b.children.is_empty());
}

#[test]
fn channel_carries_guard_events() {
    let profiler = Profiler::new();
    let mut data = profiler.initialize(100);
    let guard = ProfilerBlockGuard::new(&profiler, 1, 9, "work", 100);
    assert_eq!(guard.elapsed(130), 30);
    assert_eq!(guard.elapsed(90), 0);
    guard.end(&profiler, 130);
    profiler.process_events(&mut data);
    assert_eq!(data.start_time, 100);
    assert_eq!(data.nodes[1].name, "work");
    assert_eq!(data.nodes[1].total_time, 30);
    let text = profiler.shutdown(160, &mut data);
    assert_eq!(data.nodes[0].total_time, 60);
    assert!(text.contains(">work</td><td> 50.00 %</td><td> 50.00 %</td><td>   0.0000 ms</td>"));
}

#[test]
fn reset_request_goes_through_channel() {
    let profiler = Profiler::new();
    let mut data = profiler.initialize(0);
    profiler.begin_block(1, 1, "a");
    profiler.end_block(1, 5);
    profiler.reset_stats();
    profiler.process_events(&mut data);
    assert_eq!(data.nodes.len(), 1);
    assert!(profiler.drain().is_empty());
}

#[test]
fn event_constructors_build_their_variant() {
    assert!(matches!(ProfilerEvent::initialize(7), ProfilerEvent::Initialize { time: 7 }));
    assert!(matches!(ProfilerEvent::shutdown(9), ProfilerEvent::Shutdown { time: 9 }));
    assert!(matches!(ProfilerEvent::reset_stats(), ProfilerEvent::ResetStats));
    match ProfilerEvent::begin_block(2, 3, "f") {
        ProfilerEvent::BeginBlock { thread, site, name } => {
            assert_eq!((thread, site), (2, 3));
            assert_eq!(name, "f");
        }
        _ => panic!("wrong variant"),
    }
    assert!(matches!(ProfilerEvent::end_block(2, 11), ProfilerEvent::EndBlock { thread: 2, time: 11 }));
}

#[test]
fn guard_end_event_carries_elapsed_time() {
    let profiler = Profiler::new();
    let guard = ProfilerBlockGuard::new(&profiler, 4, 1, "g", 1000);
    assert!(matches!(guard.end_event(1250), ProfilerEvent::EndBlock { thread: 4, time: 250 }));
    assert!(matches!(guard.end_event(10), ProfilerEvent::EndBlock { thread: 4, time: 0 }));
    let sent = profiler.drain();
    assert_eq!(sent.len(), 1);
    assert!(matches!(&sent[0], ProfilerEvent::BeginBlock { thread: 4, site: 1, .. }));
}

#[test]
fn initialize_sends_start_event() {
    let profiler = Profiler::new();
    let _data = profiler.initialize(42);
    let sent = profiler.drain();
    assert_eq!(sent.len(), 1);
    assert!(matches!(sent[0], ProfilerEvent::Initialize { time: 42 }));
}

#[test]
fn well_formedness_is_checked() {
    let mut data = replay(vec![begin(1, 1, "a"), begin(1, 2, "b")]);
    assert!(data.is_wf());
    assert!(ProfilerData::new().is_wf());
    data.nodes[1].children.push(0);
    assert!(!data.is_wf());
    let mut dup = replay(vec![begin(1, 1, "a"), end(1, 1), begin(1, 2, "b"), end(1, 1)]);
    dup.nodes[2].site = 1;
    assert!(!dup.is_wf());
    let mut frames = replay(vec![begin(1, 1, "a")]);
    frames.stacks[0].frames.push(0);
    assert!(!frames.is_wf());
    let mut threads = replay(vec![begin(1, 1, "a"), begin(2, 2, "b")]);
    threads.stacks[1].thread = 1;
    assert!(!threads.is_wf());
    let mut empty = ProfilerData::new();
    empty.nodes.clear();
    assert!(!empty.is_wf());
}

#[test]
fn join_drops_segments_whose_key_repeats() {
    let segs = vec![chars("Module"), chars("module"), chars("run")];
    let keys = vec![chars("module"), chars("module"), chars("run")];
    assert_eq!(join_segments(&segs, &keys), chars("module::run"));
    let keys2 = vec![chars("a"), chars("b"), chars("b")];
    assert_eq!(join_segments(&segs, &keys2), chars("Module::run"));
    assert_eq!(join_segments(&vec![], &vec![]), chars(""));
    assert_eq!(join_segments(&vec![chars("x")], &vec![chars("y")]), chars("x"));
}
