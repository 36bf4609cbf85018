use vstd::prelude::*;
use crate::profiler_data::{DataView, ProfilerData, ROOT, wf};
use crate::names::{clean, clean_name};
use crate::render::{build_string, chars_to_string, document};

verus! {

/// One line of the report, with the node's name cleaned. Percentages are
/// in hundredths of a percent and the average time is in nanoseconds.
pub struct ReportRow {
    pub name: String,
    pub depth: usize,
    pub global_percent: u128,
    pub parent_percent: u128,
    pub avg_time: u64,
}

pub ghost struct RowView {
    pub name: Seq<char>,
    pub depth: nat,
    pub global_percent: u128,
    pub parent_percent: u128,
    pub avg_time: u64,
}

impl View for ReportRow {
    type V = RowView;

    open spec fn view(&self) -> RowView {
        RowView {
            name: self.name@,
            depth: self.depth as nat,
            global_percent: self.global_percent,
            parent_percent: self.parent_percent,
            avg_time: self.avg_time,
        }
    }
}

/// `100 * part / whole`, in hundredths of a percent, rounded half up; zero
/// when `whole` is zero.
pub open spec fn percent(part: u64, whole: u64) -> u128 {
    if whole == 0 {
        0
    } else {
        ((20000 * part + whole) / (2 * whole)) as u128
    }
}

/// Sort key of a node among its siblings: its share of the parent's time,
/// which for siblings is ordered as their total time.
pub open spec fn key(d: DataView, c: usize) -> u64 {
    d.nodes[c as int].total_time
}

/// Insert `x` into `s` after every element whose key is not smaller.
pub open spec fn insert_desc(d: DataView, s: Seq<usize>, x: usize) -> Seq<usize>
    decreases s.len(),
{
    if s.len() == 0 {
        seq![x]
    } else if key(d, x) > key(d, s[0]) {
        seq![x] + s
    } else {
        seq![s[0]] + insert_desc(d, s.drop_first(), x)
    }
}

/// Stable sort of `s` by descending key: equal keys keep their order.
pub open spec fn sort_desc(d: DataView, s: Seq<usize>) -> Seq<usize>
    decreases s.len(),
{
    if s.len() == 0 {
        s
    } else {
        insert_desc(d, sort_desc(d, s.drop_last()), s.last())
    }
}

/// The row of node `i` at `depth`, under a parent whose total time is
/// `parent_total`, in a run whose total time is `global_total`. The root is
/// the whole run: both its percentages are exactly 100.
pub open spec fn row_of(d: DataView, i: int, depth: nat, parent_total: u64, global_total: u64) -> RowView {
    let n = d.nodes[i];
    RowView {
        name: clean_name(n.name),
        depth,
        global_percent: if i == ROOT { 10000 } else { percent(n.total_time, global_total) },
        parent_percent: if i == ROOT { 10000 } else { percent(n.total_time, parent_total) },
        avg_time: (n.total_time / n.measure_count) as u64,
    }
}

/// Rows of the subtree of node `i`, in pre-order, children by descending
/// share of their parent. A node that has no completed measurement is left
/// out together with its subtree.
pub open spec fn rows_of(d: DataView, i: int, depth: nat, parent_total: u64, global_total: u64) -> Seq<RowView>
    decreases d.nodes.len() - i + 1, 0int,
{
    if !(0 <= i < d.nodes.len()) || d.nodes[i].measure_count == 0 {
        Seq::empty()
    } else {
        seq![row_of(d, i, depth, parent_total, global_total)] + rows_of_list(
            d,
            i,
            sort_desc(d, d.nodes[i].children),
            0,
            depth + 1,
            d.nodes[i].total_time,
            global_total,
        )
    }
}

/// Rows of the subtrees of `cs[k..]`, children of `p`, one after another.
pub open spec fn rows_of_list(
    d: DataView,
    p: int,
    cs: Seq<usize>,
    k: int,
    depth: nat,
    parent_total: u64,
    global_total: u64,
) -> Seq<RowView>
    decreases d.nodes.len() - p, cs.len() - k,
{
    if !(0 <= k < cs.len()) || cs[k] <= p || p < 0 || cs[k] >= d.nodes.len() {
        Seq::empty()
    } else {
        rows_of(d, cs[k] as int, depth, parent_total, global_total) + rows_of_list(
            d,
            p,
            cs,
            k + 1,
            depth,
            parent_total,
            global_total,
        )
    }
}

/// All rows of the report, starting at the root.
pub open spec fn report_rows(d: DataView) -> Seq<RowView> {
    let t = d.nodes[ROOT as int].total_time;
    rows_of(d, ROOT as int, 0, t, t)
}

pub open spec fn rows_view(rows: Seq<ReportRow>) -> Seq<RowView> {
    rows.map_values(|r: ReportRow| r@)
}

proof fn lemma_insert_desc_split(d: DataView, s: Seq<usize>, x: usize, p: int)
    requires
        0 <= p <= s.len(),
        forall|j: int| 0 <= j < p ==> !(key(d, x) > key(d, s[j])),
        p < s.len() ==> key(d, x) > key(d, s[p]),
    ensures
        insert_desc(d, s, x) == s.take(p) + seq![x] + s.skip(p),
    decreases s.len(),
{
    if s.len() == 0 {
        assert(s.take(p) + seq![x] + s.skip(p) =~= seq![x]);
    } else if p == 0 {
        assert(s.take(p) + seq![x] + s.skip(p) =~= seq![x] + s);
    } else {
        let t = s.drop_first();
        lemma_insert_desc_split(d, t, x, p - 1);
        assert(s.take(p) + seq![x] + s.skip(p) =~= seq![s[0]] + (t.take(p - 1) + seq![x] + t.skip(p - 1)));
    }
}

pub open spec fn all_within(s: Seq<usize>, lo: int, hi: int) -> bool {
    forall|k: int| 0 <= k < s.len() ==> lo < #[trigger] s[k] < hi
}

proof fn lemma_insert_desc_within(d: DataView, s: Seq<usize>, x: usize, lo: int, hi: int)
    requires
        all_within(s, lo, hi),
        lo < x < hi,
    ensures
        all_within(insert_desc(d, s, x), lo, hi),
        insert_desc(d, s, x).len() == s.len() + 1,
    decreases s.len(),
{
    if s.len() > 0 && !(key(d, x) > key(d, s[0])) {
        let t = s.drop_first();
        lemma_insert_desc_within(d, t, x, lo, hi);
        let r = insert_desc(d, s, x);
        assert forall|k: int| 0 <= k < r.len() implies lo < #[trigger] r[k] < hi by {
            if k > 0 {
                assert(r[k] == insert_desc(d, t, x)[k - 1]);
            }
        }
    } else if s.len() > 0 {
        let r = insert_desc(d, s, x);
        assert forall|k: int| 0 <= k < r.len() implies lo < #[trigger] r[k] < hi by {
            if k > 0 {
                assert(r[k] == s[k - 1]);
            }
        }
    }
}

proof fn lemma_sort_desc_within(d: DataView, s: Seq<usize>, lo: int, hi: int)
    requires
        all_within(s, lo, hi),
    ensures
        all_within(sort_desc(d, s), lo, hi),
        sort_desc(d, s).len() == s.len(),
    decreases s.len(),
{
    if s.len() > 0 {
        let t = s.drop_last();
        assert(all_within(t, lo, hi)) by {
            assert forall|k: int| 0 <= k < t.len() implies lo < #[trigger] t[k] < hi by {
                assert(t[k] == s[k]);
            }
        }
        lemma_sort_desc_within(d, t, lo, hi);
        assert(lo < s[s.len() - 1] < hi);
        lemma_insert_desc_within(d, sort_desc(d, t), s.last(), lo, hi);
    }
}

/// The children of `p` are all stored after it in the arena.
proof fn lemma_sorted_children_after(d: DataView, p: int)
    requires
        wf(d),
        0 <= p < d.nodes.len(),
    ensures
        all_within(sort_desc(d, d.nodes[p].children), p, d.nodes.len() as int),
        sort_desc(d, d.nodes[p].children).len() == d.nodes[p].children.len(),
{
    let ch = d.nodes[p].children;
    assert forall|k: int| 0 <= k < ch.len() implies p < #[trigger] ch[k] < d.nodes.len() by {
        assert(d.nodes[p].children[k] == ch[k]);
    }
    lemma_sort_desc_within(d, ch, p, d.nodes.len() as int);
}

impl ProfilerData {
    /// The children of `parent` ordered by descending total time, equal ones
    /// in the order they were discovered.
    pub fn sorted_children(&self, parent: usize) -> (r: Vec<usize>)
        requires
            self.wf(),
            parent < self.nodes.len(),
        ensures
            r@ == sort_desc(self@, self@.nodes[parent as int].children),
    {
        let ghost d = self@;
        let ghost ch = d.nodes[parent as int].children;
        let mut out: Vec<usize> = Vec::new();
        let mut i: usize = 0;
        while i < self.nodes[parent].children.len()
            invariant
                d == self@,
                wf(d),
                parent < self.nodes.len(),
                ch == self.nodes[parent as int].children@,
                i <= ch.len(),
                out@ == sort_desc(d, ch.take(i as int)),
                all_within(out@, -1, self.nodes.len() as int),
            decreases ch.len() - i,
        {
            let x = self.nodes[parent].children[i];
            assert(d.nodes[parent as int].children[i as int] == x);
            assert(x < self.nodes.len());
            let mut p: usize = 0;
            while p < out.len() && !(self.nodes[x].total_time > self.nodes[out[p]].total_time)
                invariant
                    d == self@,
                    wf(d),
                    x < self.nodes.len(),
                    p <= out.len(),
                    all_within(out@, -1, self.nodes.len() as int),
                    forall|j: int| 0 <= j < p ==> !(key(d, x) > key(d, out@[j])),
                decreases out.len() - p,
            {
                p = p + 1;
            }
            proof {
                lemma_insert_desc_split(d, out@, x, p as int);
                assert(ch.take(i + 1).drop_last() =~= ch.take(i as int));
                lemma_insert_desc_within(d, out@, x, -1, self.nodes.len() as int);
            }
            out.insert(p, x);
            assert(out@ =~= sort_desc(d, ch.take(i + 1)));
            i = i + 1;
        }
        assert(ch.take(ch.len() as int) =~= ch);
        out
    }

    /// Rows of the subtree of `i`, appended to `out`.
    fn push_rows(&self, i: usize, depth: usize, parent_total: u64, global_total: u64, out: &mut Vec<ReportRow>)
        requires
            self.wf(),
            i < self.nodes.len(),
            depth <= i,
        ensures
            rows_view(final(out)@) == rows_view(old(out)@) + rows_of(self@, i as int, depth as nat, parent_total, global_total),
        decreases self.nodes.len() - i + 1, 0int,
    {
        let ghost d = self@;
        let ghost before = rows_view(out@);
        if self.nodes[i].measure_count == 0 {
            assert(rows_view(out@) =~= before + rows_of(d, i as int, depth as nat, parent_total, global_total));
            return;
        }
        let total = self.nodes[i].total_time;
        let row = ReportRow {
            name: chars_to_string(&clean(self.nodes[i].name.as_str())),
            depth,
            global_percent: if i == ROOT { 10000 } else { percent_of(total, global_total) },
            parent_percent: if i == ROOT { 10000 } else { percent_of(total, parent_total) },
            avg_time: total / self.nodes[i].measure_count,
        };
        out.push(row);
        assert(rows_view(out@) =~= before + seq![row_of(d, i as int, depth as nat, parent_total, global_total)]);
        let cs = self.sorted_children(i);
        proof {
            lemma_sorted_children_after(d, i as int);
        }
        self.push_rows_list(i, &cs, 0, depth + 1, total, global_total, out);
        assert(rows_view(out@) =~= before + rows_of(d, i as int, depth as nat, parent_total, global_total));
    }

    /// Rows of the subtrees of `cs[k..]`, children of `p`, appended to `out`.
    fn push_rows_list(
        &self,
        p: usize,
        cs: &Vec<usize>,
        k: usize,
        depth: usize,
        parent_total: u64,
        global_total: u64,
        out: &mut Vec<ReportRow>,
    )
        requires
            self.wf(),
            p < self.nodes.len(),
            all_within(cs@, p as int, self.nodes.len() as int),
            k <= cs.len(),
            depth <= p + 1,
        ensures
            rows_view(final(out)@) == rows_view(old(out)@) + rows_of_list(
                self@,
                p as int,
                cs@,
                k as int,
                depth as nat,
                parent_total,
                global_total,
            ),
        decreases self.nodes.len() - p, cs.len() - k,
    {
        let ghost d = self@;
        let ghost before = rows_view(out@);
        if k >= cs.len() {
            assert(rows_view(out@) =~= before + rows_of_list(d, p as int, cs@, k as int, depth as nat, parent_total, global_total));
            return;
        }
        let c = cs[k];
        assert(p < cs@[k as int] < self.nodes.len());
        self.push_rows(c, depth, parent_total, global_total, out);
        self.push_rows_list(p, cs, k + 1, depth, parent_total, global_total, out);
        assert(rows_view(out@) =~= before + rows_of_list(d, p as int, cs@, k as int, depth as nat, parent_total, global_total));
    }

    /// The report rows in pre-order, starting at the root.
    pub fn build_report(&self) -> (r: Vec<ReportRow>)
        requires
            self.wf(),
        ensures
            rows_view(r@) == report_rows(self@),
    {
        let mut out: Vec<ReportRow> = Vec::new();
        let t = self.nodes[ROOT].total_time;
        self.push_rows(ROOT, 0, t, t, &mut out);
        assert(rows_view(out@) =~= report_rows(self@));
        out
    }

    /// The HTML report of the statistics gathered so far.
    pub fn build_report_string(&self) -> (r: String)
        requires
            self.wf(),
        ensures
            r@ == document(report_rows(self@)),
    {
        let rows = self.build_report();
        build_string(&rows)
    }
}

/// Hundredths of a percent that `part` is of `whole`, rounded half up.
pub fn percent_of(part: u64, whole: u64) -> (r: u128)
    ensures
        r == percent(part, whole),
{
    if whole == 0 {
        return 0;
    }
    let num: u128 = 20000 * (part as u128) + (whole as u128);
    num / (2 * (whole as u128))
}

} // verus!
