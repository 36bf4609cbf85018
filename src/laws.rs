use vstd::prelude::*;
use crate::event::EventView;
use crate::profiler_data::{
    begin_step, current_of, child_pos, frames_of, fresh, resolve, run, sat_add, slot_of, step, wf, with_frames,
    DataView, ROOT,
};
use crate::render::document;
use crate::report::{report_rows, rows_of};

verus! {

/// Replacing the stack of `thread` leaves the stack of every other thread
/// as it was, and gives `thread` exactly the new frames.
proof fn lemma_with_frames(d: DataView, d2: DataView, thread: u64, frames: Seq<usize>, other: u64)
    requires
        wf(d),
        d2.stacks == with_frames(d, thread, frames),
    ensures
        frames_of(d2, thread) == frames,
        other != thread ==> frames_of(d2, other) == frames_of(d, other),
{
    let a = slot_of(d, thread);
    let a2 = if a >= 0 { a } else { d.stacks.len() as int };
    assert(d2.stacks[a2].thread == thread);
    assert forall|x: int, y: int|
        0 <= x < d2.stacks.len() && 0 <= y < d2.stacks.len() && x != y implies d2.stacks[x].thread != d2.stacks[y].thread by {
        if a < 0 {
            if x == a2 {
                assert(d.stacks[y].thread != thread);
            } else if y == a2 {
                assert(d.stacks[x].thread != thread);
            }
        }
    }
    let u = slot_of(d2, thread);
    assert(d2.stacks[u].thread == thread);
    if other != thread {
        let b = slot_of(d, other);
        if b >= 0 {
            assert(d2.stacks[b].thread == other);
            let b2 = slot_of(d2, other);
            assert(d2.stacks[b2].thread == other);
        } else {
            if slot_of(d2, other) >= 0 {
                let b2 = slot_of(d2, other);
                assert(d2.stacks[b2].thread == other);
                assert(b2 != a2);
                assert(d.stacks[b2].thread == other);
            }
        }
    }
}

/// Each event keeps the state well-formed.
pub proof fn lemma_step_wf(d: DataView, e: EventView)
    requires
        wf(d),
        e is BeginBlock ==> d.nodes.len() < usize::MAX,
    ensures
        wf(step(d, e)),
{
    let d2 = step(d, e);
    match e {
        EventView::BeginBlock { thread, site, name } => {
            let f = frames_of(d, thread);
            let c = resolve(d, thread, site);
            let p = current_of(d, thread) as int;
            if slot_of(d, thread) >= 0 {
                let a = slot_of(d, thread);
                assert(d.stacks[a].thread == thread);
            }
            assert(0 <= p < d.nodes.len()) by {
                if f.len() > 0 {
                    let a = slot_of(d, thread);
                    assert(d.stacks[a].thread == thread);
                    assert(0 < d.stacks[a].frames[f.len() - 1]);
                }
            }
            let k = child_pos(d, p, site);
            if k >= 0 {
                assert(d.nodes[p].children[k] > p);
            }
            assert(d2 == begin_step(d, thread, site, name));
            assert(0 < c < d2.nodes.len());
            lemma_with_frames(d, d2, thread, f.push(c), thread);
            assert forall|i: int, j: int|
                0 <= i < d2.nodes.len() && 0 <= j < d2.nodes[i].children.len() implies i < #[trigger] d2.nodes[i].children[j] < d2.nodes.len() by {
                if c == d.nodes.len() && i == p && j == d.nodes[p].children.len() {
                } else if i < d.nodes.len() {
                    assert(d2.nodes[i].children[j] == d.nodes[i].children[j]);
                }
            }
            assert forall|i: int, k1: int, k2: int|
                0 <= i < d2.nodes.len() && 0 <= k1 < d2.nodes[i].children.len() && 0 <= k2 < d2.nodes[i].children.len() && k1 != k2
                    implies d2.nodes[d2.nodes[i].children[k1] as int].site != d2.nodes[d2.nodes[i].children[k2] as int].site by {
                let n = d.nodes[p].children.len();
                if c == d.nodes.len() && i == p && (k1 == n || k2 == n) {
                    let other = if k1 == n { k2 } else { k1 };
                    assert(d.nodes[d.nodes[p].children[other] as int].site != site);
                } else if i < d.nodes.len() {
                    assert(d2.nodes[i].children[k1] == d.nodes[i].children[k1]);
                    assert(d2.nodes[i].children[k2] == d.nodes[i].children[k2]);
                }
            }
            assert forall|x: int, g: int|
                0 <= x < d2.stacks.len() && 0 <= g < d2.stacks[x].frames.len() implies 0 < #[trigger] d2.stacks[x].frames[g] < d2.nodes.len() by {
                let a = slot_of(d, thread);
                if a >= 0 && x == a || a < 0 && x == d.stacks.len() {
                    if g < f.len() {
                        assert(d2.stacks[x].frames[g] == f[g]);
                    }
                } else {
                    assert(d2.stacks[x] == d.stacks[x]);
                }
            }
        },
        EventView::EndBlock { thread, time } => {
            let f = frames_of(d, thread);
            if f.len() > 0 {
                let a = slot_of(d, thread);
                assert(d.stacks[a].thread == thread);
                lemma_with_frames(d, d2, thread, f.drop_last(), thread);
                assert forall|x: int, g: int|
                    0 <= x < d2.stacks.len() && 0 <= g < d2.stacks[x].frames.len() implies 0 < #[trigger] d2.stacks[x].frames[g] < d2.nodes.len() by {
                    if x == a {
                        assert(d2.stacks[x].frames[g] == f[g]);
                    } else {
                        assert(d2.stacks[x] == d.stacks[x]);
                    }
                }
                assert forall|i: int, j: int|
                    0 <= i < d2.nodes.len() && 0 <= j < d2.nodes[i].children.len() implies i < #[trigger] d2.nodes[i].children[j] < d2.nodes.len() by {
                    assert(d2.nodes[i].children == d.nodes[i].children);
                }
                assert forall|i: int, k1: int, k2: int|
                    0 <= i < d2.nodes.len() && 0 <= k1 < d2.nodes[i].children.len() && 0 <= k2 < d2.nodes[i].children.len() && k1 != k2
                        implies d2.nodes[d2.nodes[i].children[k1] as int].site != d2.nodes[d2.nodes[i].children[k2] as int].site by {
                    assert(d2.nodes[i].children == d.nodes[i].children);
                }
            }
        },
        EventView::Shutdown { time } => {
            assert forall|i: int, j: int|
                0 <= i < d2.nodes.len() && 0 <= j < d2.nodes[i].children.len() implies i < #[trigger] d2.nodes[i].children[j] < d2.nodes.len() by {
                assert(d2.nodes[i].children == d.nodes[i].children);
            }
            assert forall|i: int, k1: int, k2: int|
                0 <= i < d2.nodes.len() && 0 <= k1 < d2.nodes[i].children.len() && 0 <= k2 < d2.nodes[i].children.len() && k1 != k2
                    implies d2.nodes[d2.nodes[i].children[k1] as int].site != d2.nodes[d2.nodes[i].children[k2] as int].site by {
                assert(d2.nodes[i].children == d.nodes[i].children);
            }
        },
        _ => {},
    }
}

/// Per-thread attribution: an event of one thread leaves the open frames of
/// every other thread exactly as they were, whatever the interleaving.
pub proof fn lemma_other_threads_untouched(d: DataView, e: EventView, other: u64)
    requires
        wf(d),
        e is BeginBlock ==> e->BeginBlock_thread != other,
        e is EndBlock ==> e->EndBlock_thread != other,
        !(e is ResetStats),
    ensures
        frames_of(step(d, e), other) == frames_of(d, other),
{
    match e {
        EventView::BeginBlock { thread, site, name } => {
            assert(thread != other);
            assert(step(d, e) == begin_step(d, thread, site, name));
            assert(step(d, e).stacks == with_frames(d, thread, frames_of(d, thread).push(resolve(d, thread, site))));
            lemma_with_frames(d, step(d, e), thread, frames_of(d, thread).push(resolve(d, thread, site)), other);
        },
        EventView::EndBlock { thread, time } => {
            if frames_of(d, thread).len() > 0 {
                assert(step(d, e).stacks == with_frames(d, thread, frames_of(d, thread).drop_last()));
                lemma_with_frames(d, step(d, e), thread, frames_of(d, thread).drop_last(), other);
            }
        },
        _ => {
            assert(step(d, e).stacks == d.stacks);
            assert(slot_of(step(d, e), other) == slot_of(d, other));
        },
    }
}

/// In a well-formed state, the slot of `thread` is the one registered
/// under it.
proof fn lemma_slot_is(d: DataView, thread: u64, a: int)
    requires
        wf(d),
        0 <= a < d.stacks.len(),
        d.stacks[a].thread == thread,
    ensures
        slot_of(d, thread) == a,
{
}

/// Interleaving does not matter for closing blocks: end events of two
/// different threads give the same state in either order.
pub proof fn lemma_ends_commute(d: DataView, t: u64, x: u64, u: u64, y: u64)
    requires
        wf(d),
        t != u,
    ensures
        ({
            let et = EventView::EndBlock { thread: t, time: x };
            let eu = EventView::EndBlock { thread: u, time: y };
            step(step(d, et), eu) == step(step(d, eu), et)
        }),
{
    let et = EventView::EndBlock { thread: t, time: x };
    let eu = EventView::EndBlock { thread: u, time: y };
    let dt = step(d, et);
    let du = step(d, eu);
    lemma_step_wf(d, et);
    lemma_step_wf(d, eu);
    let ft = frames_of(d, t);
    let fu = frames_of(d, u);
    if ft.len() > 0 {
        lemma_with_frames(d, dt, t, ft.drop_last(), u);
        lemma_with_frames(d, dt, t, ft.drop_last(), t);
    }
    if fu.len() > 0 {
        lemma_with_frames(d, du, u, fu.drop_last(), t);
        lemma_with_frames(d, du, u, fu.drop_last(), u);
    }
    if ft.len() > 0 && fu.len() > 0 {
        let at = slot_of(d, t);
        let au = slot_of(d, u);
        assert(d.stacks[at].thread == t);
        assert(d.stacks[au].thread == u);
        assert(dt.stacks[au].thread == u);
        assert(du.stacks[at].thread == t);
        lemma_slot_is(dt, u, au);
        lemma_slot_is(du, t, at);
        let dtu = step(dt, eu);
        let dut = step(du, et);
        assert(dtu.stacks =~= dut.stacks);
        assert(dtu.nodes =~= dut.nodes);
    }
}

/// In a well-formed state, the child of `parent` found for `site` is the
/// one that has it.
proof fn lemma_child_is(d: DataView, parent: int, site: u64, k: int)
    requires
        wf(d),
        0 <= parent < d.nodes.len(),
        0 <= k < d.nodes[parent].children.len(),
        d.nodes[d.nodes[parent].children[k] as int].site == site,
    ensures
        child_pos(d, parent, site) == k,
{
    let w = child_pos(d, parent, site);
    let ch = d.nodes[parent].children;
    assert(0 <= k < ch.len() && d.nodes[ch[k] as int].site == site);
    if w != k {
        assert(d.nodes[ch[w] as int].site == site);
    }
}

/// Interleaving does not matter between opening a block on one thread and
/// closing a block on another: both orders give the same state.
pub proof fn lemma_begin_end_commute(d: DataView, t: u64, site: u64, name: Seq<char>, u: u64, y: u64)
    requires
        wf(d),
        d.nodes.len() < usize::MAX,
        t != u,
    ensures
        ({
            let eb = EventView::BeginBlock { thread: t, site, name };
            let ee = EventView::EndBlock { thread: u, time: y };
            step(step(d, eb), ee) == step(step(d, ee), eb)
        }),
{
    let eb = EventView::BeginBlock { thread: t, site, name };
    let ee = EventView::EndBlock { thread: u, time: y };
    let db = step(d, eb);
    let de = step(d, ee);
    lemma_step_wf(d, eb);
    lemma_step_wf(d, ee);
    let fu = frames_of(d, u);
    let ft = frames_of(d, t);
    let c = resolve(d, t, site);
    let p = current_of(d, t) as int;
    lemma_with_frames(d, db, t, ft.push(c), u);
    lemma_with_frames(d, db, t, ft.push(c), t);
    if fu.len() == 0 {
        assert(de == d);
        assert(frames_of(db, u).len() == 0);
    } else {
        let au = slot_of(d, u);
        assert(d.stacks[au].thread == u);
        lemma_with_frames(d, de, u, fu.drop_last(), t);
        lemma_with_frames(d, de, u, fu.drop_last(), u);
        // The begin resolves to the same node after the end.
        if ft.len() > 0 {
            let at = slot_of(d, t);
            assert(d.stacks[at].thread == t);
            assert(0 < d.stacks[at].frames[ft.len() - 1]);
        }
        assert(current_of(de, t) == p);
        assert(0 <= p < d.nodes.len());
        assert(de.nodes[p].children == d.nodes[p].children);
        let k = child_pos(d, p, site);
        if k >= 0 {
            let ch = d.nodes[p].children;
            assert(d.nodes[ch[k] as int].site == site);
            assert(de.nodes[ch[k] as int].site == site);
            lemma_child_is(de, p, site, k);
        } else {
            if child_pos(de, p, site) >= 0 {
                let k2 = child_pos(de, p, site);
                let ch = d.nodes[p].children;
                assert(de.nodes[ch[k2] as int].site == site);
                assert(d.nodes[ch[k2] as int].site == site);
                lemma_child_is(d, p, site, k2);
            }
        }
        assert(resolve(de, t, site) == c);
        // The end closes the same frame after the begin.
        assert(frames_of(db, u) == fu);
        let cu = fu.last() as int;
        assert(0 < cu < d.nodes.len()) by {
            assert(0 < d.stacks[au].frames[fu.len() - 1] < d.nodes.len());
        }
        // Slots are found in the same places.
        assert(db.stacks[au].thread == u);
        lemma_slot_is(db, u, au);
        if slot_of(d, t) >= 0 {
            let at = slot_of(d, t);
            assert(d.stacks[at].thread == t);
            assert(de.stacks[at].thread == t);
            lemma_slot_is(de, t, at);
        } else {
            if slot_of(de, t) >= 0 {
                let at2 = slot_of(de, t);
                assert(de.stacks[at2].thread == t);
                assert(d.stacks[at2].thread == t);
            }
        }
        let dbe = step(db, ee);
        let deb = step(de, eb);
        assert(frames_of(de, t) == ft);
        assert(dbe.stacks =~= deb.stacks);
        assert(dbe.nodes =~= deb.nodes);
    }
}

/// Per-thread attribution: an end event of `thread` closes the frame that
/// `thread` opened last, and only that frame's node is credited with the
/// duration and one more measurement.
pub proof fn lemma_end_credits_own_frame(d: DataView, thread: u64, time: u64)
    requires
        wf(d),
        frames_of(d, thread).len() > 0,
    ensures
        ({
            let c = frames_of(d, thread).last() as int;
            let d2 = step(d, EventView::EndBlock { thread, time });
            &&& d2.nodes[c].total_time == sat_add(d.nodes[c].total_time, time)
            &&& d2.nodes[c].measure_count == sat_add(d.nodes[c].measure_count, 1)
            &&& forall|i: int| 0 <= i < d.nodes.len() && i != c ==> d2.nodes[i] == d.nodes[i]
            &&& frames_of(d2, thread) == frames_of(d, thread).drop_last()
        }),
{
    let f = frames_of(d, thread);
    lemma_with_frames(d, step(d, EventView::EndBlock { thread, time }), thread, f.drop_last(), thread);
}

/// A begin event of `thread` opens one more frame on that thread, holding
/// the node it resolved to.
pub proof fn lemma_begin_opens_frame(d: DataView, thread: u64, site: u64, name: Seq<char>)
    requires
        wf(d),
    ensures
        frames_of(begin_step(d, thread, site, name), thread) == frames_of(d, thread).push(resolve(d, thread, site)),
{
    lemma_with_frames(d, begin_step(d, thread, site, name), thread, frames_of(d, thread).push(resolve(d, thread, site)), thread);
}

/// One node per (parent, site): once a block has been opened and closed
/// under a parent, opening it again under the same parent resolves to the
/// same node, and closing it again adds one more measurement and the new
/// duration to it (both saturating at `u64::MAX`).
pub proof fn lemma_same_site_same_node(
    d: DataView,
    thread: u64,
    site: u64,
    name1: Seq<char>,
    name2: Seq<char>,
    time1: u64,
    time2: u64,
)
    requires
        wf(d),
        d.nodes.len() < usize::MAX - 1,
    ensures
        ({
            let c = resolve(d, thread, site);
            let d1 = step(step(d, EventView::BeginBlock { thread, site, name: name1 }), EventView::EndBlock { thread, time: time1 });
            let d2 = step(step(d1, EventView::BeginBlock { thread, site, name: name2 }), EventView::EndBlock { thread, time: time2 });
            &&& current_of(d1, thread) == current_of(d, thread)
            &&& resolve(d1, thread, site) == c
            &&& d1.nodes[c as int].measure_count == sat_add(if c < d.nodes.len() { d.nodes[c as int].measure_count } else { 0 }, 1)
            &&& d2.nodes[c as int].measure_count == sat_add(d1.nodes[c as int].measure_count, 1)
            &&& d1.nodes[c as int].total_time == sat_add(if c < d.nodes.len() { d.nodes[c as int].total_time } else { 0 }, time1)
            &&& d2.nodes[c as int].total_time == sat_add(d1.nodes[c as int].total_time, time2)
        }),
{
    let c = resolve(d, thread, site);
    let p = current_of(d, thread) as int;
    let b = begin_step(d, thread, site, name1);
    lemma_step_wf(d, EventView::BeginBlock { thread, site, name: name1 });
    lemma_begin_opens_frame(d, thread, site, name1);
    let d1 = step(b, EventView::EndBlock { thread, time: time1 });
    lemma_end_credits_own_frame(b, thread, time1);
    lemma_step_wf(b, EventView::EndBlock { thread, time: time1 });
    assert(frames_of(d1, thread) =~= frames_of(d, thread));
    if frames_of(d, thread).len() > 0 {
        let a = slot_of(d, thread);
        assert(d.stacks[a].thread == thread);
        assert(0 < d.stacks[a].frames[frames_of(d, thread).len() - 1]);
    }
    assert(0 <= p < d.nodes.len());
    // `c` is a child of `p` with `site` in `d1`.
    let ch1 = d1.nodes[p].children;
    let k = child_pos(d, p, site);
    let kc: int = if k >= 0 { k } else { d.nodes[p].children.len() as int };
    if k >= 0 {
        assert(d.nodes[d.nodes[p].children[k] as int].site == site);
        assert(d.nodes[p].children[k] > p);
    }
    assert(c > p);
    assert(d1.nodes[p] == b.nodes[p]);
    assert(b.nodes[p].children == if k >= 0 { d.nodes[p].children } else { d.nodes[p].children.push(c) });
    assert(ch1[kc] == c);
    assert(d1.nodes[c as int].site == site);
    let k1 = child_pos(d1, p, site);
    assert(k1 >= 0);
    assert(d1.nodes[ch1[k1] as int].site == site);
    assert(k1 == kc);
    assert(resolve(d1, thread, site) == c);
    let b2 = begin_step(d1, thread, site, name2);
    lemma_begin_opens_frame(d1, thread, site, name2);
    lemma_step_wf(d1, EventView::BeginBlock { thread, site, name: name2 });
    lemma_end_credits_own_frame(b2, thread, time2);
}

/// Accumulators only grow while blocks open and close: a begin or end
/// event never lowers the total time or the measurement count of a node
/// that already exists, and never removes a node.
pub proof fn lemma_counters_grow(d: DataView, e: EventView)
    requires
        wf(d),
        e is BeginBlock || e is EndBlock,
    ensures
        step(d, e).nodes.len() >= d.nodes.len(),
        forall|i: int| 0 <= i < d.nodes.len() ==> {
            &&& d.nodes[i].total_time <= #[trigger] step(d, e).nodes[i].total_time
            &&& d.nodes[i].measure_count <= step(d, e).nodes[i].measure_count
        },
{
}

/// The root stands for the whole run: once it has a measurement, its row
/// comes first and both its percentages are exactly 100.
pub proof fn lemma_root_is_hundred_percent(d: DataView)
    requires
        wf(d),
        d.nodes[ROOT as int].measure_count > 0,
    ensures
        report_rows(d).len() > 0,
        report_rows(d)[0].global_percent == 10000,
        report_rows(d)[0].parent_percent == 10000,
        report_rows(d)[0].depth == 0,
{
    let t = d.nodes[ROOT as int].total_time;
    assert(report_rows(d) == rows_of(d, ROOT as int, 0, t, t));
}

/// The run after the first `Initialize` does not depend on the state it
/// started from once that state was reset: resetting and replaying a
/// sequence gives the same statistics, and the same report, as replaying it
/// in a new session.
pub proof fn lemma_reset_then_replay(d: DataView, es: Seq<EventView>)
    requires
        es.len() > 0,
        es[0] is Initialize,
    ensures
        run(step(d, EventView::ResetStats), es) == run(fresh(0), es),
        document(report_rows(run(step(d, EventView::ResetStats), es))) == document(report_rows(run(fresh(0), es))),
{
    let r = step(d, EventView::ResetStats);
    assert(step(r, es[0]) == step(fresh(0), es[0]));
}

} // verus!
