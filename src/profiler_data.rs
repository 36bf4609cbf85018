use vstd::prelude::*;
use crate::event::{EventView, ProfilerEvent};

verus! {

/// Index of the synthetic root node, which stands for the whole measured run.
pub const ROOT: usize = 0;

/// One named region at one position of the call tree.
pub struct BlockStat {
    pub name: String,
    pub site: u64,
    pub total_time: u64,
    pub measure_count: u64,
    /// Arena indices of the children, in the order they were discovered.
    pub children: Vec<usize>,
}

/// The open frames of one producer thread, innermost last.
pub struct ThreadStack {
    pub thread: u64,
    pub frames: Vec<usize>,
}

/// The aggregation state: an arena of nodes (the root at `ROOT`) and a
/// registry from thread identity to that thread's stack of open frames.
pub struct ProfilerData {
    pub start_time: u64,
    pub nodes: Vec<BlockStat>,
    pub stacks: Vec<ThreadStack>,
}

pub ghost struct NodeView {
    pub name: Seq<char>,
    pub site: u64,
    pub total_time: u64,
    pub measure_count: u64,
    pub children: Seq<usize>,
}

pub ghost struct SlotView {
    pub thread: u64,
    pub frames: Seq<usize>,
}

pub ghost struct DataView {
    pub start_time: u64,
    pub nodes: Seq<NodeView>,
    pub stacks: Seq<SlotView>,
}

impl View for BlockStat {
    type V = NodeView;

    open spec fn view(&self) -> NodeView {
        NodeView {
            name: self.name@,
            site: self.site,
            total_time: self.total_time,
            measure_count: self.measure_count,
            children: self.children@,
        }
    }
}

impl View for ThreadStack {
    type V = SlotView;

    open spec fn view(&self) -> SlotView {
        SlotView { thread: self.thread, frames: self.frames@ }
    }
}

impl View for ProfilerData {
    type V = DataView;

    open spec fn view(&self) -> DataView {
        DataView {
            start_time: self.start_time,
            nodes: self.nodes@.map_values(|n: BlockStat| n@),
            stacks: self.stacks@.map_values(|s: ThreadStack| s@),
        }
    }
}

pub open spec fn root_name() -> Seq<char> {
    seq!['P', 'r', 'o', 'f', 'i', 'l', 'e', 'r', 'M', 'a', 'i', 'n', 'B', 'l', 'o', 'c', 'k']
}

pub open spec fn empty_node(name: Seq<char>, site: u64) -> NodeView {
    NodeView { name, site, total_time: 0, measure_count: 0, children: Seq::empty() }
}

/// The state of a session that has seen no block yet.
pub open spec fn fresh(start_time: u64) -> DataView {
    DataView { start_time, nodes: seq![empty_node(root_name(), 0)], stacks: Seq::empty() }
}

/// Well-formedness: the root exists, every child index points further into
/// the arena (so the arena is a forest rooted at `ROOT` with no cycles),
/// siblings have distinct sites, threads are registered once and every open
/// frame names a node other than the root.
pub open spec fn wf(d: DataView) -> bool {
    &&& 1 <= d.nodes.len() <= usize::MAX
    &&& forall|i: int, k: int|
        0 <= i < d.nodes.len() && 0 <= k < d.nodes[i].children.len() ==> i < #[trigger] d.nodes[i].children[k] < d.nodes.len()
    &&& forall|i: int, k1: int, k2: int|
        0 <= i < d.nodes.len() && 0 <= k1 < d.nodes[i].children.len() && 0 <= k2 < d.nodes[i].children.len() && k1 != k2
            ==> d.nodes[d.nodes[i].children[k1] as int].site != d.nodes[d.nodes[i].children[k2] as int].site
    &&& forall|a: int, b: int|
        0 <= a < d.stacks.len() && 0 <= b < d.stacks.len() && a != b ==> d.stacks[a].thread != d.stacks[b].thread
    &&& forall|a: int, f: int|
        0 <= a < d.stacks.len() && 0 <= f < d.stacks[a].frames.len() ==> 0 < #[trigger] d.stacks[a].frames[f] < d.nodes.len()
}

/// Registry slot of `thread`, or -1 when it has never opened a frame.
pub open spec fn slot_of(d: DataView, thread: u64) -> int {
    if exists|a: int| 0 <= a < d.stacks.len() && d.stacks[a].thread == thread {
        choose|a: int| 0 <= a < d.stacks.len() && d.stacks[a].thread == thread
    } else {
        -1
    }
}

/// Open frames of `thread`, innermost last.
pub open spec fn frames_of(d: DataView, thread: u64) -> Seq<usize> {
    if slot_of(d, thread) >= 0 { d.stacks[slot_of(d, thread)].frames } else { Seq::empty() }
}

/// Node that a new block on `thread` nests under: its innermost open frame,
/// or the root.
pub open spec fn current_of(d: DataView, thread: u64) -> usize {
    let f = frames_of(d, thread);
    if f.len() > 0 { f.last() } else { ROOT }
}

/// Position among the children of `parent` of the child with `site`, or -1.
pub open spec fn child_pos(d: DataView, parent: int, site: u64) -> int {
    let ch = d.nodes[parent].children;
    if exists|k: int| 0 <= k < ch.len() && d.nodes[ch[k] as int].site == site {
        choose|k: int| 0 <= k < ch.len() && d.nodes[ch[k] as int].site == site
    } else {
        -1
    }
}

/// Node that `BeginBlock(thread, site, _)` resolves to: the existing child
/// of the current node with that site, or the next free arena index.
pub open spec fn resolve(d: DataView, thread: u64, site: u64) -> usize {
    let p = current_of(d, thread) as int;
    let k = child_pos(d, p, site);
    if k >= 0 { d.nodes[p].children[k] } else { d.nodes.len() as usize }
}

/// `stacks` with `frames` as the stack of `thread`.
pub open spec fn with_frames(d: DataView, thread: u64, frames: Seq<usize>) -> Seq<SlotView> {
    let a = slot_of(d, thread);
    if a >= 0 {
        d.stacks.update(a, SlotView { thread, frames })
    } else {
        d.stacks.push(SlotView { thread, frames })
    }
}

pub open spec fn sat_add(a: u64, b: u64) -> u64 {
    if a + b > u64::MAX { u64::MAX } else { (a + b) as u64 }
}

pub open spec fn begin_step(d: DataView, thread: u64, site: u64, name: Seq<char>) -> DataView {
    let p = current_of(d, thread) as int;
    let c = resolve(d, thread, site);
    let nodes = if c < d.nodes.len() {
        d.nodes
    } else {
        d.nodes.update(p, NodeView { children: d.nodes[p].children.push(c), ..d.nodes[p] }).push(
            empty_node(name, site),
        )
    };
    DataView { nodes, stacks: with_frames(d, thread, frames_of(d, thread).push(c)), ..d }
}

pub open spec fn end_step(d: DataView, thread: u64, time: u64) -> DataView {
    let f = frames_of(d, thread);
    if f.len() == 0 {
        d
    } else {
        let c = f.last() as int;
        let n = d.nodes[c];
        DataView {
            nodes: d.nodes.update(
                c,
                NodeView {
                    total_time: sat_add(n.total_time, time),
                    measure_count: sat_add(n.measure_count, 1),
                    ..n
                },
            ),
            stacks: with_frames(d, thread, f.drop_last()),
            ..d
        }
    }
}

/// The effect of one event on the aggregation state.
pub open spec fn step(d: DataView, e: EventView) -> DataView {
    match e {
        EventView::Initialize { time } => DataView { start_time: time, ..d },
        EventView::Shutdown { time } => {
            let run = if time >= d.start_time { (time - d.start_time) as u64 } else { 0 };
            DataView {
                nodes: d.nodes.update(
                    ROOT as int,
                    NodeView { total_time: run, measure_count: 1, ..d.nodes[ROOT as int] },
                ),
                ..d
            }
        },
        EventView::ResetStats => fresh(d.start_time),
        EventView::BeginBlock { thread, site, name } => begin_step(d, thread, site, name),
        EventView::EndBlock { thread, time } => end_step(d, thread, time),
    }
}

/// The state after applying `es` in order.
pub open spec fn run(d: DataView, es: Seq<EventView>) -> DataView
    decreases es.len(),
{
    if es.len() == 0 { d } else { run(step(d, es[0]), es.drop_first()) }
}

fn new_node(name: String, site: u64) -> (r: BlockStat)
    ensures
        r@ == empty_node(name@, site),
{
    BlockStat { name, site, total_time: 0, measure_count: 0, children: Vec::new() }
}

impl BlockStat {
    /// A node with no measurement and no children.
    pub fn new(name: &str) -> (r: BlockStat)
        ensures
            r@ == empty_node(name@, 0),
    {
        new_node(name.to_string(), 0)
    }
}

impl ProfilerData {
    pub open spec fn wf(&self) -> bool {
        wf(self@)
    }

    /// Whether the state is well-formed; callers that build or edit a
    /// `ProfilerData` by hand test this before handing it to the aggregator.
    pub fn is_wf(&self) -> (r: bool)
        ensures
            r == self.wf(),
    {
        let ghost d = self@;
        let n = self.nodes.len();
        if n == 0 {
            return false;
        }
        let mut i: usize = 0;
        while i < n
            invariant
                d == self@,
                n == d.nodes.len(),
                i <= n,
                forall|i2: int, k: int|
                    0 <= i2 < i && 0 <= k < d.nodes[i2].children.len() ==> i2 < #[trigger] d.nodes[i2].children[k] < n,
                forall|i2: int, k1: int, k2: int|
                    0 <= i2 < i && 0 <= k1 < d.nodes[i2].children.len() && 0 <= k2 < d.nodes[i2].children.len() && k1 != k2
                        ==> d.nodes[d.nodes[i2].children[k1] as int].site != d.nodes[d.nodes[i2].children[k2] as int].site,
            decreases n - i,
        {
            let m = self.nodes[i].children.len();
            assert(m == d.nodes[i as int].children.len());
            let mut k: usize = 0;
            while k < m
                invariant
                    d == self@,
                    n == d.nodes.len(),
                    i < n,
                    m == d.nodes[i as int].children.len(),
                    k <= m,
                    forall|i2: int, k2: int|
                        0 <= i2 < i && 0 <= k2 < d.nodes[i2].children.len() ==> i2 < #[trigger] d.nodes[i2].children[k2] < n,
                    forall|i2: int, k1: int, k2: int|
                        0 <= i2 < i && 0 <= k1 < d.nodes[i2].children.len() && 0 <= k2 < d.nodes[i2].children.len() && k1 != k2
                            ==> d.nodes[d.nodes[i2].children[k1] as int].site != d.nodes[d.nodes[i2].children[k2] as int].site,
                    forall|k2: int| 0 <= k2 < k ==> i < #[trigger] d.nodes[i as int].children[k2] < n,
                    forall|k1: int, k2: int|
                        0 <= k1 < k && 0 <= k2 < k && k1 != k2
                            ==> d.nodes[d.nodes[i as int].children[k1] as int].site != d.nodes[d.nodes[i as int].children[k2] as int].site,
                decreases m - k,
            {
                let c = self.nodes[i].children[k];
                assert(c == d.nodes[i as int].children[k as int]);
                if !(i < c && c < n) {
                    return false;
                }
                let mut j: usize = 0;
                while j < k
                    invariant
                        d == self@,
                        n == d.nodes.len(),
                        i < n,
                        c < n,
                        m == d.nodes[i as int].children.len(),
                        j <= k < m,
                        c == d.nodes[i as int].children[k as int],
                        forall|k2: int| 0 <= k2 < k ==> i < #[trigger] d.nodes[i as int].children[k2] < n,
                        forall|j2: int| 0 <= j2 < j ==> d.nodes[d.nodes[i as int].children[j2] as int].site != d.nodes[c as int].site,
                    decreases k - j,
                {
                    let b = self.nodes[i].children[j];
                    assert(b == d.nodes[i as int].children[j as int]);
                    if self.nodes[b].site == self.nodes[c].site {
                        assert(d.nodes[d.nodes[i as int].children[j as int] as int].site == d.nodes[d.nodes[i as int].children[k as int] as int].site);
                        return false;
                    }
                    j = j + 1;
                }
                k = k + 1;
            }
            i = i + 1;
        }
        let s = self.stacks.len();
        let mut a: usize = 0;
        while a < s
            invariant
                d == self@,
                n == d.nodes.len(),
                s == d.stacks.len(),
                a <= s,
                forall|a1: int, a2: int| 0 <= a1 < a && 0 <= a2 < a && a1 != a2 ==> d.stacks[a1].thread != d.stacks[a2].thread,
                forall|a1: int, f: int|
                    0 <= a1 < a && 0 <= f < d.stacks[a1].frames.len() ==> 0 < #[trigger] d.stacks[a1].frames[f] < n,
            decreases s - a,
        {
            let mut b: usize = 0;
            while b < a
                invariant
                    d == self@,
                    s == d.stacks.len(),
                    b <= a < s,
                    forall|b2: int| 0 <= b2 < b ==> d.stacks[b2].thread != d.stacks[a as int].thread,
                decreases a - b,
            {
                if self.stacks[b].thread == self.stacks[a].thread {
                    assert(d.stacks[b as int].thread == d.stacks[a as int].thread);
                    return false;
                }
                b = b + 1;
            }
            let fl = self.stacks[a].frames.len();
            let mut f: usize = 0;
            while f < fl
                invariant
                    d == self@,
                    n == d.nodes.len(),
                    a < s,
                    s == d.stacks.len(),
                    fl == d.stacks[a as int].frames.len(),
                    f <= fl,
                    forall|f2: int| 0 <= f2 < f ==> 0 < #[trigger] d.stacks[a as int].frames[f2] < n,
                decreases fl - f,
            {
                let x = self.stacks[a].frames[f];
                assert(x == d.stacks[a as int].frames[f as int]);
                if !(0 < x && x < n) {
                    return false;
                }
                f = f + 1;
            }
            a = a + 1;
        }
        true
    }

    /// An empty session whose run starts at time zero.
    pub fn new() -> (r: ProfilerData)
        ensures
            r@ == fresh(0),
            r.wf(),
    {
        Self::with_start(0)
    }

    fn with_start(start_time: u64) -> (r: ProfilerData)
        ensures
            r@ == fresh(start_time),
            r.wf(),
    {
        proof {
            reveal_strlit("ProfilerMainBlock");
        }
        let root = new_node(String::from_str("ProfilerMainBlock"), 0);
        assert(root@.name =~= root_name());
        let mut nodes: Vec<BlockStat> = Vec::new();
        nodes.push(root);
        let r = ProfilerData { start_time, nodes, stacks: Vec::new() };
        assert(r@.nodes =~= fresh(start_time).nodes);
        assert(r@.stacks =~= fresh(start_time).stacks);
        r
    }

    /// Registry slot of `thread`, if it has one.
    fn find_slot(&self, thread: u64) -> (r: Option<usize>)
        requires
            self.wf(),
        ensures
            r is Some <==> slot_of(self@, thread) >= 0,
            r is Some ==> r->0 == slot_of(self@, thread),
    {
        let mut a: usize = 0;
        while a < self.stacks.len()
            invariant
                wf(self@),
                a <= self.stacks.len(),
                forall|b: int| 0 <= b < a ==> self@.stacks[b].thread != thread,
            decreases self.stacks.len() - a,
        {
            if self.stacks[a].thread == thread {
                assert(self@.stacks[a as int].thread == thread);
                return Some(a);
            }
            a = a + 1;
        }
        None
    }

    /// The node that a block opened now on `thread` nests under.
    pub fn current_block_on_thread(&self, thread: u64) -> (r: usize)
        requires
            self.wf(),
        ensures
            r == current_of(self@, thread),
    {
        match self.find_slot(thread) {
            Some(a) => {
                let len = self.stacks[a].frames.len();
                if len > 0 {
                    self.stacks[a].frames[len - 1]
                } else {
                    ROOT
                }
            },
            None => ROOT,
        }
    }

    /// Position among the children of `parent` of the one with `site`.
    fn find_child(&self, parent: usize, site: u64) -> (r: Option<usize>)
        requires
            self.wf(),
            parent < self.nodes.len(),
        ensures
            r is Some <==> child_pos(self@, parent as int, site) >= 0,
            r is Some ==> r->0 == child_pos(self@, parent as int, site),
    {
        let ghost d = self@;
        let mut k: usize = 0;
        while k < self.nodes[parent].children.len()
            invariant
                wf(d),
                d == self@,
                parent < self.nodes.len(),
                k <= d.nodes[parent as int].children.len(),
                forall|j: int| 0 <= j < k ==> d.nodes[d.nodes[parent as int].children[j] as int].site != site,
            decreases self.nodes[parent as int].children.len() - k,
        {
            let c = self.nodes[parent].children[k];
            assert(c == d.nodes[parent as int].children[k as int]);
            if self.nodes[c].site == site {
                let ghost ch = d.nodes[parent as int].children;
                assert(0 <= k < ch.len() && d.nodes[ch[k as int] as int].site == site);
                let ghost w = child_pos(d, parent as int, site);
                assert(w == k as int) by {
                    if w != k as int {
                        assert(d.nodes[ch[w] as int].site == site);
                    }
                }
                return Some(k);
            }
            k = k + 1;
        }
        None
    }

    /// Push `block` onto the stack of `thread`, registering the thread on
    /// its first frame.
    fn push_block_to_thread_stack(&mut self, thread: u64, block: usize)
        requires
            old(self).wf(),
            0 < block < old(self).nodes.len(),
        ensures
            final(self)@ == (DataView {
                stacks: with_frames(old(self)@, thread, frames_of(old(self)@, thread).push(block)),
                ..old(self)@
            }),
            final(self).wf(),
    {
        let ghost d = self@;
        match self.find_slot(thread) {
            Some(a) => {
                self.stacks[a].frames.push(block);
                assert(self@.stacks =~= with_frames(d, thread, frames_of(d, thread).push(block)));
            },
            None => {
                let mut frames: Vec<usize> = Vec::new();
                frames.push(block);
                self.stacks.push(ThreadStack { thread, frames });
                assert(self@.stacks =~= with_frames(d, thread, frames_of(d, thread).push(block)));
            },
        }
        assert(self@.nodes =~= d.nodes);
    }

    /// Pop the innermost frame of `thread`, if it has one.
    fn pop_block_from_thread_stack(&mut self, thread: u64) -> (r: Option<usize>)
        requires
            old(self).wf(),
        ensures
            r is Some <==> frames_of(old(self)@, thread).len() > 0,
            r is Some ==> r->0 == frames_of(old(self)@, thread).last() && final(self)@ == (DataView {
                stacks: with_frames(old(self)@, thread, frames_of(old(self)@, thread).drop_last()),
                ..old(self)@
            }),
            r is None ==> final(self)@ == old(self)@,
            final(self).wf(),
    {
        let ghost d = self@;
        match self.find_slot(thread) {
            Some(a) => {
                if self.stacks[a].frames.len() == 0 {
                    return None;
                }
                let c = self.stacks[a].frames.pop().unwrap();
                assert(self@.stacks =~= with_frames(d, thread, frames_of(d, thread).drop_last()));
                assert(self@.nodes =~= d.nodes);
                Some(c)
            },
            None => None,
        }
    }

    /// Apply one event to the statistics. An end event of a thread with no
    /// open frame breaks the guard discipline; it is dropped, and no frame
    /// is made up for it.
    pub fn apply_event(&mut self, event: &ProfilerEvent)
        requires
            old(self).wf(),
        ensures
            final(self)@ == step(old(self)@, event@),
            final(self).wf(),
    {
        let ghost d = self@;
        match event {
            ProfilerEvent::Initialize { time } => {
                self.start_time = *time;
            },
            ProfilerEvent::Shutdown { time } => {
                let time = *time;
                let run = if time >= self.start_time { time - self.start_time } else { 0 };
                self.nodes[ROOT].total_time = run;
                self.nodes[ROOT].measure_count = 1;
                assert(self@.nodes =~= step(d, event@).nodes);
            },
            ProfilerEvent::ResetStats => {
                *self = Self::with_start(self.start_time);
            },
            ProfilerEvent::BeginBlock { thread, site, name } => {
                let (thread, site) = (*thread, *site);
                let p = self.current_block_on_thread(thread);
                let c = match self.find_child(p, site) {
                    Some(k) => self.nodes[p].children[k],
                    None => {
                        let c = self.nodes.len();
                        self.nodes[p].children.push(c);
                        self.nodes.push(new_node(name.clone(), site));
                        assert(self@.nodes.len() == self.nodes.len());
                        assert(self@.nodes =~= begin_step(d, thread, site, name@).nodes);
                        c
                    },
                };
                self.push_block_to_thread_stack(thread, c);
            },
            ProfilerEvent::EndBlock { thread, time } => {
                let (thread, time) = (*thread, *time);
                if let Some(c) = self.pop_block_from_thread_stack(thread) {
                    self.nodes[c].total_time = self.nodes[c].total_time.saturating_add(time);
                    self.nodes[c].measure_count = self.nodes[c].measure_count.saturating_add(1);
                    assert(self@.nodes =~= end_step(d, thread, time).nodes);
                }
            },
        }
    }
}

} // verus!
