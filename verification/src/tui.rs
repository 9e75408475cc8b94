//! Decisions of the full-screen explorer: the alphabetical skeleton shown while
//! a folder is scanned, the sizes filled in as they arrive, the geometry of
//! the scan and result views, and what each command does to the view.
//! Terminal I/O, threads and the file system stay with the caller.

use vstd::prelude::*;
use crate::{DiskEntry, EntryKind};
use crate::render::number_format::{decimal, push_decimal};
use crate::aggregator::{
    aggregate_checked, checked_total_bytes, is_stable_desc_sort, pie_of_sorted, sum_bytes, tail_from,
};
use crate::command::Command;
use crate::event_map::{is_quit_event, Event, KeyCode};
use crate::render::layout::{compute_layout, layout_for, Layout, MAX_RADIUS};
use crate::render::cheese_spinner::frame_fits;
use crate::render::renderer::{
    legend_lines, legend_width, legend_width_of, preview_total, progress_lines, render_progress_view,
    render_scan_view, spinner_view_matches, ProgressItem, RenderedView,
};
use crate::text::{char_is_whitespace, chars_of, is_whitespace, push_chars};

verus! {

/// Rows above the view: the header line with the current folder.
pub const HEADER_ROWS: u16 = 1;

/// Slices shown before the rest is folded into one bucket.
pub const MAX_SLICES: usize = 8;

/// Legend width assumed when no previous scan informs the layout; the width
/// of a typical `[N] █ Documents 99.9%   123.4 MB` line.
pub const DEFAULT_LEGEND_WIDTH: usize = 32;

/// `a` comes strictly before `b` in code-point order, the order in which
/// `String`s compare.
pub open spec fn name_lt(a: Seq<char>, b: Seq<char>) -> bool
    decreases a.len(),
{
    if a.len() == 0 {
        b.len() > 0
    } else if b.len() == 0 {
        false
    } else if a[0] != b[0] {
        a[0] < b[0]
    } else {
        name_lt(a.drop_first(), b.drop_first())
    }
}

pub proof fn lemma_name_lt_irreflexive(a: Seq<char>)
    ensures
        !name_lt(a, a),
    decreases a.len(),
{
    if a.len() > 0 {
        lemma_name_lt_irreflexive(a.drop_first());
    }
}

pub proof fn lemma_name_lt_transitive(a: Seq<char>, b: Seq<char>, c: Seq<char>)
    requires
        name_lt(a, b),
        name_lt(b, c),
    ensures
        name_lt(a, c),
    decreases a.len(),
{
    if a.len() > 0 && b.len() > 0 && c.len() > 0 && a[0] == b[0] && b[0] == c[0] {
        lemma_name_lt_transitive(a.drop_first(), b.drop_first(), c.drop_first());
    }
}

/// Any two names are equal or one comes before the other.
pub proof fn lemma_name_lt_total(a: Seq<char>, b: Seq<char>)
    ensures
        name_lt(a, b) || a == b || name_lt(b, a),
    decreases a.len(),
{
    if a.len() > 0 && b.len() > 0 && a[0] == b[0] {
        lemma_name_lt_total(a.drop_first(), b.drop_first());
        if a.drop_first() == b.drop_first() {
            assert(a =~= seq![a[0]] + a.drop_first());
            assert(b =~= seq![b[0]] + b.drop_first());
        }
    } else if a.len() == 0 && b.len() == 0 {
        assert(a =~= b);
    }
}

proof fn lemma_name_lt_skip(a: Seq<char>, b: Seq<char>, i: int)
    requires
        0 <= i <= a.len(),
        i <= b.len(),
        forall|k: int| 0 <= k < i ==> a[k] == b[k],
    ensures
        name_lt(a, b) == name_lt(a.skip(i), b.skip(i)),
    decreases i,
{
    if i > 0 {
        lemma_name_lt_skip(a.drop_first(), b.drop_first(), i - 1);
        assert(a.drop_first().skip(i - 1) =~= a.skip(i));
        assert(b.drop_first().skip(i - 1) =~= b.skip(i));
    } else {
        assert(a.skip(0) =~= a);
        assert(b.skip(0) =~= b);
    }
}

/// Whether `a` comes strictly before `b`, as `String`s compare.
pub fn name_less(a: &String, b: &String) -> (r: bool)
    ensures
        r == name_lt(a@, b@),
{
    let x = chars_of(a.as_str());
    let y = chars_of(b.as_str());
    let mut i: usize = 0;
    while i < x.len() && i < y.len() && x[i] == y[i]
        invariant
            i <= x@.len(),
            i <= y@.len(),
            x@ == a@,
            y@ == b@,
            forall|k: int| 0 <= k < i ==> x@[k] == y@[k],
        decreases x@.len() - i,
    {
        i = i + 1;
    }
    proof {
        lemma_name_lt_skip(x@, y@, i as int);
    }
    if i == x.len() {
        i < y.len()
    } else if i == y.len() {
        false
    } else {
        x[i] < y[i]
    }
}

/// Names never go back in order from one entry to the next.
pub open spec fn names_ascending(s: Seq<DiskEntry>) -> bool {
    forall|i: int, j: int| 0 <= i < j < s.len() ==> !name_lt((#[trigger] s[j]).name@, (#[trigger] s[i]).name@)
}

/// `p` shows that `out` is `inp` reordered: `out[i]` is `inp[p[i]]`, no input
/// position is used twice, names ascend, and entries of equal name keep their
/// input order.
pub open spec fn name_sort_witness(out: Seq<DiskEntry>, inp: Seq<DiskEntry>, p: Seq<int>) -> bool {
    &&& p.len() == out.len()
    &&& out.len() == inp.len()
    &&& forall|i: int| 0 <= i < p.len() ==> 0 <= #[trigger] p[i] < inp.len() && out[i] == inp[p[i]]
    &&& forall|i: int, j: int| 0 <= i < j < p.len() ==> #[trigger] p[i] != #[trigger] p[j]
    &&& names_ascending(out)
    &&& forall|i: int, j: int|
        0 <= i < j < out.len() && (#[trigger] out[i]).name@ == (#[trigger] out[j]).name@ ==> p[i] < p[j]
}

/// `out` is `inp` stably sorted by name.
pub open spec fn is_stable_name_sort(out: Seq<DiskEntry>, inp: Seq<DiskEntry>) -> bool {
    exists|p: Seq<int>| name_sort_witness(out, inp, p)
}

/// Sorts by name in code-point order; entries of equal name keep their order.
pub fn sort_by_name(entries: Vec<DiskEntry>) -> (out: Vec<DiskEntry>)
    ensures
        is_stable_name_sort(out@, entries@),
{
    let ghost inp = entries@;
    let ghost n = entries@.len() as int;
    let mut rest = entries;
    let mut out: Vec<DiskEntry> = Vec::new();
    let ghost mut p: Seq<int> = Seq::empty();
    while rest.len() > 0
        invariant
            n == inp.len(),
            rest@ == inp.subrange(0, rest@.len() as int),
            out@.len() == n - rest@.len(),
            p.len() == out@.len(),
            forall|i: int|
                0 <= i < p.len() ==> rest@.len() <= #[trigger] p[i] < n && out@[i] == inp[p[i]],
            forall|i: int, j: int| 0 <= i < j < p.len() ==> #[trigger] p[i] != #[trigger] p[j],
            names_ascending(out@),
            forall|i: int, j: int|
                0 <= i < j < out@.len() && (#[trigger] out@[i]).name@ == (#[trigger] out@[j]).name@
                    ==> p[i] < p[j],
        decreases rest@.len(),
    {
        let ghost m = rest@.len() as int;
        let x = rest.pop().unwrap();
        assert(x == inp[m - 1]);
        let mut pos: usize = 0;
        while pos < out.len() && name_less(&out[pos].name, &x.name)
            invariant
                pos <= out@.len(),
                forall|i: int| 0 <= i < pos ==> name_lt((#[trigger] out@[i]).name@, x.name@),
            decreases out@.len() - pos,
        {
            pos = pos + 1;
        }
        let ghost old_out = out@;
        let ghost old_p = p;
        assert forall|i: int| pos <= i < old_out.len() implies !name_lt((#[trigger] old_out[i]).name@, x.name@) by {
            let a = old_out[pos as int].name@;
            let b = old_out[i].name@;
            assert(!name_lt(a, x.name@));
            if i > pos {
                assert(!name_lt(b, a));
                lemma_name_lt_total(a, b);
                if name_lt(b, x.name@) && name_lt(a, b) {
                    lemma_name_lt_transitive(a, b, x.name@);
                }
            }
        }
        out.insert(pos, x);
        proof {
            p = old_p.insert(pos as int, m - 1);
            let o = out@;
            assert(o == old_out.insert(pos as int, x));
            assert forall|i: int| 0 <= i < p.len() implies m - 1 <= #[trigger] p[i] < n && o[i]
                == inp[p[i]] by {
                if i < pos {
                    assert(p[i] == old_p[i]);
                } else if i > pos {
                    assert(p[i] == old_p[i - 1]);
                }
            }
            assert forall|i: int, j: int| 0 <= i < j < p.len() implies #[trigger] p[i]
                != #[trigger] p[j] by {
                if i < pos && j > pos {
                    assert(old_p[i] != old_p[j - 1]);
                } else if i < pos && j < pos {
                    assert(old_p[i] != old_p[j]);
                } else if i > pos && j > pos {
                    assert(old_p[i - 1] != old_p[j - 1]);
                } else if i == pos {
                    assert(old_p[j - 1] >= m);
                } else {
                    assert(old_p[i] >= m);
                }
            }
            assert forall|i: int, j: int| 0 <= i < j < o.len() implies !name_lt(
                (#[trigger] o[j]).name@,
                (#[trigger] o[i]).name@,
            ) by {
                if i < pos && j == pos {
                    assert(name_lt(old_out[i].name@, x.name@));
                    if name_lt(x.name@, old_out[i].name@) {
                        lemma_name_lt_transitive(x.name@, old_out[i].name@, x.name@);
                        lemma_name_lt_irreflexive(x.name@);
                    }
                } else if i < pos && j > pos {
                    assert(o[j] == old_out[j - 1]);
                } else if i == pos && j > pos {
                    assert(o[j] == old_out[j - 1]);
                } else if i > pos {
                    assert(o[i] == old_out[i - 1]);
                    assert(o[j] == old_out[j - 1]);
                }
            }
            assert forall|i: int, j: int|
                0 <= i < j < o.len() && (#[trigger] o[i]).name@ == (#[trigger] o[j]).name@ implies p[i]
                < p[j] by {
                if i < pos && j == pos {
                    assert(name_lt(old_out[i].name@, x.name@));
                    lemma_name_lt_irreflexive(x.name@);
                } else if i < pos && j > pos {
                    assert(o[j] == old_out[j - 1]);
                    assert(p[j] == old_p[j - 1]);
                } else if i == pos && j > pos {
                    assert(p[j] == old_p[j - 1]);
                } else if i > pos {
                    assert(o[i] == old_out[i - 1]);
                    assert(o[j] == old_out[j - 1]);
                    assert(p[i] == old_p[i - 1]);
                    assert(p[j] == old_p[j - 1]);
                }
            }
            assert(rest@ == inp.subrange(0, rest@.len() as int));
        }
    }
    proof {
        assert(name_sort_witness(out@, inp, p));
    }
    out
}

/// Name of the bucket that stands for the `dropped` children past the cap.
pub open spec fn skeleton_bucket_name(dropped: nat) -> Seq<char> {
    "(et "@ + decimal(dropped) + " autres…)"@
}

/// `out` is the sorted listing `sorted` capped at `MAX_SLICES` entries, with
/// a size-less bucket naming how many were dropped when any were.
pub open spec fn capped_skeleton(sorted: Seq<DiskEntry>, out: Seq<DiskEntry>) -> bool {
    if sorted.len() > MAX_SLICES {
        &&& out.len() == MAX_SLICES + 1
        &&& out.take(MAX_SLICES as int) == sorted.take(MAX_SLICES as int)
        &&& out[MAX_SLICES as int].name@ == skeleton_bucket_name((sorted.len() - MAX_SLICES) as nat)
        &&& out[MAX_SLICES as int].bytes == 0
        &&& out[MAX_SLICES as int].kind == EntryKind::Bucket
    } else {
        out == sorted
    }
}

/// Sorts the skeleton alphabetically and caps it at `MAX_SLICES`, appending an
/// "(et N autres…)" bucket when the cap actually drops anything, so the legend
/// already has the shape it will have once sizes arrive.
pub fn prepare_skeleton(skeleton: Vec<DiskEntry>) -> (out: Vec<DiskEntry>)
    ensures
        exists|sorted: Seq<DiskEntry>|
            is_stable_name_sort(sorted, skeleton@) && capped_skeleton(sorted, out@),
{
    let mut sorted = sort_by_name(skeleton);
    let ghost s = sorted@;
    if sorted.len() > MAX_SLICES {
        let dropped = sorted.len() - MAX_SLICES;
        sorted.truncate(MAX_SLICES);
        let mut name = String::new();
        push_chars(&mut name, &chars_of("(et "));
        push_decimal(&mut name, dropped as u64);
        push_chars(&mut name, &chars_of(" autres…)"));
        sorted.push(DiskEntry::bucket(name, 0));
        assert(sorted@.take(MAX_SLICES as int) =~= s.take(MAX_SLICES as int));
    }
    sorted
}

/// Sizes reported so far for children of the folder being scanned, by name.
/// A later report for a name replaces the earlier one.
///
/// The reports are kept as a list and read from the latest one, so that a
/// lookup is shown to give the size last reported for the name, the same
/// map a `HashMap<String, u64>` filled by the same reports would hold.
pub struct CompletedSizes {
    reports: Vec<(String, u64)>,
}

/// The map made by applying the reports in order.
pub open spec fn reports_map(r: Seq<(String, u64)>) -> Map<Seq<char>, u64>
    decreases r.len(),
{
    if r.len() == 0 {
        Map::empty()
    } else {
        reports_map(r.drop_last()).insert(r.last().0@, r.last().1)
    }
}

impl View for CompletedSizes {
    type V = Map<Seq<char>, u64>;

    closed spec fn view(&self) -> Map<Seq<char>, u64> {
        reports_map(self.reports@)
    }
}

impl CompletedSizes {
    /// No size known yet.
    pub fn new() -> (c: Self)
        ensures
            c@ == Map::<Seq<char>, u64>::empty(),
    {
        CompletedSizes { reports: Vec::new() }
    }

    /// Records the size of `name`.
    pub fn insert(&mut self, name: String, bytes: u64)
        ensures
            final(self)@ == old(self)@.insert(name@, bytes),
    {
        let ghost r = self.reports@;
        self.reports.push((name, bytes));
        assert(self.reports@.drop_last() == r);
    }

    /// The size recorded for `name`, if any.
    pub fn get(&self, name: &String) -> (r: Option<u64>)
        ensures
            r == (if self@.dom().contains(name@) {
                Some(self@[name@])
            } else {
                None
            }),
    {
        let mut i: usize = self.reports.len();
        assert(self.reports@.take(i as int) == self.reports@);
        while i > 0
            invariant
                i <= self.reports@.len(),
                forall|k: int| i <= k < self.reports@.len() ==> (#[trigger] self.reports@[k]).0@ != name@,
                reports_map(self.reports@).dom().contains(name@) == reports_map(self.reports@.take(i as int)).dom().contains(name@),
                reports_map(self.reports@).dom().contains(name@) ==> reports_map(self.reports@)[name@] == reports_map(self.reports@.take(i as int))[name@],
            decreases i,
        {
            let ghost t = self.reports@.take(i as int);
            assert(t.drop_last() == self.reports@.take(i - 1));
            if self.reports[i - 1].0 == *name {
                return Some(self.reports[i - 1].1);
            }
            i = i - 1;
        }
        assert(self.reports@.take(0) == Seq::<(String, u64)>::empty());
        None
    }
}

/// One progress item per skeleton entry: its name and kind, with the size
/// recorded for its name if there is one.
pub open spec fn merged_items(skeleton: Seq<DiskEntry>, completed: Map<Seq<char>, u64>) -> Seq<ProgressItem> {
    Seq::new(
        skeleton.len(),
        |i: int|
            ProgressItem {
                name: skeleton[i].name,
                kind: skeleton[i].kind,
                size: if completed.dom().contains(skeleton[i].name@) {
                    Some(completed[skeleton[i].name@])
                } else {
                    None
                },
            },
    )
}

/// Layers the sizes of the children whose walk has completed on top of the
/// skeleton, so the legend shows real sizes for those and a placeholder for
/// the rest.
pub fn merge_skeleton_with_completed(skeleton: &[DiskEntry], completed: &CompletedSizes) -> (items: Vec<ProgressItem>)
    ensures
        items@ == merged_items(skeleton@, completed@),
{
    let mut items: Vec<ProgressItem> = Vec::new();
    let mut i: usize = 0;
    while i < skeleton.len()
        invariant
            i <= skeleton@.len(),
            items@ == merged_items(skeleton@, completed@).take(i as int),
        decreases skeleton@.len() - i,
    {
        let e = &skeleton[i];
        let item = match completed.get(&e.name) {
            Some(bytes) => ProgressItem { name: e.name.clone(), kind: e.kind, size: Some(bytes) },
            None => ProgressItem { name: e.name.clone(), kind: e.kind, size: None },
        };
        items.push(item);
        proof {
            assert(merged_items(skeleton@, completed@).take(i + 1) == merged_items(skeleton@, completed@).take(
                i as int,
            ).push(item));
        }
        i = i + 1;
    }
    assert(merged_items(skeleton@, completed@).take(skeleton@.len() as int) == merged_items(skeleton@, completed@));
    items
}

/// The status line shown when the explorer starts.
pub const WELCOME_STATUS: &'static str =
    "1-9 = drill · U = remonter · D = changer de disque · R = refresh · Q = quitter";

/// A pie or listing whose legend the layout can be computed for without
/// overflowing.
pub open spec fn view_inputs_ok(pie: Seq<DiskEntry>) -> bool {
    &&& sum_bytes(pie) <= u64::MAX
    &&& pie.len() <= usize::MAX - 4
    &&& legend_width_of(pie) <= usize::MAX - 6
}

/// Slices the scan view makes room for: those of the preview, or the most a
/// pie can have when there is no preview.
pub open spec fn scan_slice_count(preview: Seq<DiskEntry>) -> int {
    if preview.len() == 0 {
        MAX_SLICES + 1
    } else {
        preview.len() as int
    }
}

/// Legend width the scan view makes room for: that of the preview, or the
/// default when there is no preview.
pub open spec fn scan_legend_width(preview: Seq<DiskEntry>) -> int {
    if preview.len() == 0 {
        DEFAULT_LEGEND_WIDTH as int
    } else {
        legend_width_of(preview)
    }
}

/// Geometry of the scan view, chosen before scanning so the spinner has the
/// size the pie will have: sized after the previously shown pie, or after the
/// largest pie possible when there is none.
pub fn scan_layout(term_width: u16, term_height: u16, preview: &[DiskEntry]) -> (l: Layout)
    requires
        view_inputs_ok(preview@),
    ensures
        l == layout_for(
            term_width as int,
            term_height as int,
            scan_slice_count(preview@),
            scan_legend_width(preview@),
        ),
{
    if preview.len() == 0 {
        compute_layout(term_width, term_height, MAX_SLICES + 1, DEFAULT_LEGEND_WIDTH)
    } else {
        let w = legend_width(preview);
        compute_layout(term_width, term_height, preview.len(), w)
    }
}

/// Geometry of the view of a pie.
pub fn view_layout(term_width: u16, term_height: u16, pie: &[DiskEntry]) -> (l: Layout)
    requires
        view_inputs_ok(pie@),
    ensures
        l == layout_for(term_width as int, term_height as int, pie@.len() as int, legend_width_of(pie@)),
{
    let w = legend_width(pie);
    compute_layout(term_width, term_height, pie.len(), w)
}

/// Status after a forced refresh.
pub open spec fn refresh_status() -> Seq<char> {
    "Refresh forcé (cache vidé)"@
}

/// A path as its components, each as the bytes the system encodes it with.
pub open spec fn components_view(v: Seq<Vec<u8>>) -> Seq<Seq<u8>> {
    v.map_values(|c: Vec<u8>| c@)
}

/// `candidate` is the folder `folder` or a folder below it.
pub open spec fn at_or_below(folder: Seq<Seq<u8>>, candidate: Seq<Seq<u8>>) -> bool {
    folder.len() <= candidate.len() && candidate.take(folder.len() as int) == folder
}

fn bytes_equal(a: &Vec<u8>, b: &Vec<u8>) -> (r: bool)
    ensures
        r == (a@ == b@),
{
    if a.len() != b.len() {
        return false;
    }
    let mut i: usize = 0;
    while i < a.len()
        invariant
            i <= a@.len(),
            a@.len() == b@.len(),
            forall|k: int| 0 <= k < i ==> a@[k] == b@[k],
        decreases a@.len() - i,
    {
        if a[i] != b[i] {
            return false;
        }
        i = i + 1;
    }
    assert(a@ =~= b@);
    true
}

/// Whether a refresh of the folder `current` forgets the cached listing of
/// the folder `cached`: a forced refresh scans the folder afresh, so the
/// listings of the folder itself and of every folder below it are dropped.
pub fn refresh_forgets(current: &[Vec<u8>], cached: &[Vec<u8>]) -> (b: bool)
    ensures
        b == at_or_below(components_view(current@), components_view(cached@)),
{
    if current.len() > cached.len() {
        return false;
    }
    let mut i: usize = 0;
    while i < current.len()
        invariant
            i <= current@.len() <= cached@.len(),
            forall|k: int| 0 <= k < i ==> current@[k]@ == cached@[k]@,
        decreases current@.len() - i,
    {
        if !bytes_equal(&current[i], &cached[i]) {
            assert(components_view(cached@).take(current@.len() as int)[i as int] != components_view(current@)[i as int]);
            return false;
        }
        i = i + 1;
    }
    assert(components_view(cached@).take(current@.len() as int) =~= components_view(current@));
    true
}

/// Status after going up one level.
pub open spec fn up_status() -> Seq<char> {
    "↑ remonté"@
}

/// Status when the drive picker, opened from a disk's root, is cancelled.
pub open spec fn root_status() -> Seq<char> {
    "(racine du disque · D pour changer de lecteur)"@
}

/// Status after moving to `target`.
pub open spec fn moved_status(target: Seq<char>) -> Seq<char> {
    "→ "@ + target
}

/// Status when the slice asked for is not a folder.
pub open spec fn not_a_folder_status(name: Seq<char>) -> Seq<char> {
    "« "@ + name + " » n'est pas un dossier — drill-down impossible"@
}

/// What the explorer does after a command on the view of a pie.
#[derive(Debug)]
pub enum ViewAction {
    /// Leave the explorer.
    Quit,
    /// Forget the cached listing of the current folder and scan it again.
    Refresh { status: String },
    /// Go to the parent folder.
    GoUp { status: String },
    /// Open the drive picker; if it is cancelled, show `cancel_status` when
    /// there is one.
    PickDrive { cancel_status: Option<String> },
    /// Go into the child folder `name`.
    Drill { name: String, status: String },
    /// Stay, showing `status`.
    Notify { status: String },
    /// Stay as is.
    Ignore,
}

/// The status after moving to `target`: "→ target".
pub fn moved_to(target: &str) -> (s: String)
    ensures
        s@ == moved_status(target@),
{
    let mut s = String::new();
    push_chars(&mut s, &chars_of("→ "));
    push_chars(&mut s, &chars_of(target));
    s
}

/// What a command does to the view of `pie`; `at_root` tells whether the
/// current folder has no parent.
pub open spec fn view_action_matches(command: Option<Command>, pie: Seq<DiskEntry>, at_root: bool, a: ViewAction) -> bool {
    match command {
        Some(Command::Quit) => a is Quit,
        Some(Command::Refresh) => a matches ViewAction::Refresh { status } && status@ == refresh_status(),
        Some(Command::Up) => if at_root {
            a matches ViewAction::PickDrive { cancel_status } && cancel_status matches Some(c) && c@
                == root_status()
        } else {
            a matches ViewAction::GoUp { status } && status@ == up_status()
        },
        Some(Command::ChangeDrive) => a matches ViewAction::PickDrive { cancel_status } && cancel_status is None,
        Some(Command::DrillInto { slice_number }) => if 1 <= slice_number <= pie.len() {
            let target = pie[slice_number - 1];
            if target.kind == EntryKind::Folder {
                a matches ViewAction::Drill { name, status } && name@ == target.name@ && status@
                    == moved_status(target.name@)
            } else {
                a matches ViewAction::Notify { status } && status@ == not_a_folder_status(target.name@)
            }
        } else {
            a is Ignore
        },
        _ => a is Ignore,
    }
}

/// Decides what a command does to the view of `pie`. Going up from a disk's
/// root opens the drive picker instead; a slice that is not a folder cannot
/// be drilled into; a slice number past the pie is ignored.
pub fn view_action(command: Option<Command>, pie: &[DiskEntry], at_root: bool) -> (a: ViewAction)
    ensures
        view_action_matches(command, pie@, at_root, a),
{
    match command {
        Some(Command::Quit) => ViewAction::Quit,
        Some(Command::Refresh) => ViewAction::Refresh { status: "Refresh forcé (cache vidé)".to_owned() },
        Some(Command::Up) => if at_root {
            ViewAction::PickDrive {
                cancel_status: Some("(racine du disque · D pour changer de lecteur)".to_owned()),
            }
        } else {
            ViewAction::GoUp { status: "↑ remonté".to_owned() }
        },
        Some(Command::ChangeDrive) => ViewAction::PickDrive { cancel_status: None },
        Some(Command::DrillInto { slice_number }) => {
            if slice_number >= 1 && slice_number <= pie.len() {
                let target = &pie[slice_number - 1];
                if target.is_drillable() {
                    let status = moved_to(target.name.as_str());
                    ViewAction::Drill { name: target.name.clone(), status }
                } else {
                    let mut status = String::new();
                    push_chars(&mut status, &chars_of("« "));
                    push_chars(&mut status, &chars_of(target.name.as_str()));
                    push_chars(&mut status, &chars_of(" » n'est pas un dossier — drill-down impossible"));
                    ViewAction::Notify { status }
                }
            } else {
                ViewAction::Ignore
            }
        },
        _ => ViewAction::Ignore,
    }
}

/// Status after showing a cached listing of `n` entries.
pub open spec fn cache_status(n: nat) -> Seq<char> {
    "(cache · "@ + decimal(n) + " entrées)"@
}

/// The pie of a cached listing and the status that says it came from the
/// cache; `None` when the bytes folded into the bucket add up to more than a
/// `u64` holds.
pub fn pie_from_cache(cached: Vec<DiskEntry>) -> (r: Option<(Vec<DiskEntry>, String)>)
    ensures
        r matches Some((pie, status)) ==> {
            &&& status@ == cache_status(cached@.len())
            &&& exists|sorted: Seq<DiskEntry>|
                is_stable_desc_sort(sorted, cached@) && pie_of_sorted(sorted, MAX_SLICES as int, pie@)
        },
        r is None ==> exists|sorted: Seq<DiskEntry>|
            is_stable_desc_sort(sorted, cached@) && sum_bytes(tail_from(sorted, MAX_SLICES as int))
                > u64::MAX,
{
    let n = cached.len();
    let mut status = String::new();
    push_chars(&mut status, &chars_of("(cache · "));
    push_decimal(&mut status, n as u64);
    push_chars(&mut status, &chars_of(" entrées)"));
    match aggregate_checked(cached, MAX_SLICES) {
        Some(pie) => Some((pie, status)),
        None => None,
    }
}

/// How a scan ended.
#[derive(Debug, Clone, Copy, PartialEq, Eq, Structural)]
pub enum ScanEnd {
    /// The listing of the folder is known.
    Done,
    /// The user left while the scan ran.
    Cancelled,
    /// The folder could not be scanned.
    Failed,
}

/// What the explorer does once a scan has ended.
#[derive(Debug, Clone, Copy, PartialEq, Eq, Structural)]
pub enum AfterScan {
    /// Show the pie of the scanned folder.
    ShowPie,
    /// Leave the explorer.
    Leave,
    /// Move to the parent folder and show its pie instead.
    RetryAtParent,
}

/// A finished scan shows its pie; a cancelled one leaves; a failed one moves
/// up to the parent, or leaves at a disk's root.
pub fn after_scan(end: ScanEnd, has_parent: bool) -> (a: AfterScan)
    ensures
        a == match end {
            ScanEnd::Done => AfterScan::ShowPie,
            ScanEnd::Cancelled => AfterScan::Leave,
            ScanEnd::Failed => if has_parent {
                AfterScan::RetryAtParent
            } else {
                AfterScan::Leave
            },
        },
{
    match end {
        ScanEnd::Done => AfterScan::ShowPie,
        ScanEnd::Cancelled => AfterScan::Leave,
        ScanEnd::Failed => if has_parent {
            AfterScan::RetryAtParent
        } else {
            AfterScan::Leave
        },
    }
}

/// Status after a failed scan, given the error's text.
pub open spec fn scan_error_text(error: Seq<char>) -> Seq<char> {
    "Erreur scan : "@ + error + " — on remonte"@
}

pub fn scan_error_status(error: &str) -> (s: String)
    ensures
        s@ == scan_error_text(error@),
{
    let mut s = String::new();
    push_chars(&mut s, &chars_of("Erreur scan : "));
    push_chars(&mut s, &chars_of(error));
    push_chars(&mut s, &chars_of(" — on remonte"));
    s
}

/// The footer of the scan view: the folder being walked, or a generic line
/// before the walk has entered any.
pub open spec fn scan_footer_text(visiting: Option<Seq<char>>) -> Seq<char> {
    match visiting {
        Some(p) => "⟳ "@ + p + "  (Q = annuler)"@,
        None => "Scan en cours…  (Q pour annuler)"@,
    }
}

pub fn scan_footer(visiting: Option<&str>) -> (s: String)
    ensures
        s@ == scan_footer_text(match visiting {
            Some(p) => Some(p@),
            None => None,
        }),
{
    match visiting {
        Some(p) => {
            let mut s = String::new();
            push_chars(&mut s, &chars_of("⟳ "));
            push_chars(&mut s, &chars_of(p));
            push_chars(&mut s, &chars_of("  (Q = annuler)"));
            s
        },
        None => "Scan en cours…  (Q pour annuler)".to_owned(),
    }
}

/// How one character of the scan view is painted.
#[derive(Debug, Clone, Copy, PartialEq, Eq, Structural)]
pub enum CellPaint {
    /// A pixel of the spinner.
    Spinner,
    /// A character of the legend line of this slice.
    Slice(usize),
    /// Anything else.
    Plain,
}

/// The paint of character `ch` on row `row` of the scan view, given the slice
/// its cell maps to: the visible characters of the spinner rows that belong
/// to no slice are spinner pixels; legend characters take their slice's colour.
pub open spec fn scan_paint(row: int, pie_height: int, cell: Option<usize>, ch: char) -> CellPaint {
    if row < pie_height && cell is None && !is_whitespace(ch) {
        CellPaint::Spinner
    } else {
        match cell {
            Some(i) => CellPaint::Slice(i),
            None => CellPaint::Plain,
        }
    }
}

pub fn scan_cell_paint(row: usize, pie_height: usize, cell: Option<usize>, ch: char) -> (p: CellPaint)
    ensures
        p == scan_paint(row as int, pie_height as int, cell, ch),
{
    if row < pie_height && cell.is_none() && !char_is_whitespace(ch) {
        CellPaint::Spinner
    } else {
        match cell {
            Some(i) => CellPaint::Slice(i),
            None => CellPaint::Plain,
        }
    }
}

/// Whether the layout of a view of `pie` can be computed (see `view_inputs_ok`).
pub fn view_inputs_fit(pie: &[DiskEntry]) -> (b: bool)
    ensures
        b == view_inputs_ok(pie@),
{
    match checked_total_bytes(pie) {
        None => false,
        Some(_) => pie.len() <= usize::MAX - 4 && legend_width(pie) <= usize::MAX - 6,
    }
}

/// What reaches the scan screen while a scan runs.
#[derive(Debug)]
pub enum ScanInput {
    /// The folder's children, their sizes not known yet.
    Skeleton(Vec<DiskEntry>),
    /// The walk entered another folder (shown in the footer).
    Visiting,
    /// A child of the folder has its size.
    Completed { name: String, bytes: u64 },
    /// The scan is over and has the folder's listing.
    Finished,
    /// The scan failed, or its worker stopped without a word.
    Failed,
    /// A terminal event.
    Input(Event),
}

/// Whether the scan goes on after an input.
#[derive(Debug, Clone, Copy, PartialEq, Eq, Structural)]
pub enum ScanStep {
    Continue,
    End(ScanEnd),
}

/// The screen's geometry, skeleton and sizes are as they were.
pub open spec fn unchanged_screen(a: ScanScreen, b: ScanScreen) -> bool {
    &&& b.layout == a.layout
    &&& b.skeleton == a.skeleton
    &&& b.completed@ == a.completed@
}

/// What the screen shows while a folder is scanned: the geometry, the
/// skeleton of the folder once listed, the sizes of the children done so far
/// and the spinner's frame.
pub struct ScanScreen {
    pub layout: Layout,
    pub skeleton: Option<Vec<DiskEntry>>,
    pub completed: CompletedSizes,
    pub frame_index: usize,
}

/// The legend shown under or beside the spinner before the folder is listed:
/// that of the previous pie, if any.
pub open spec fn preview_legend(preview: Seq<DiskEntry>) -> Seq<Seq<char>> {
    if preview.len() == 0 {
        Seq::empty()
    } else {
        legend_lines(preview, preview_total(preview))
    }
}

impl ScanScreen {
    /// The spinner of this geometry can be drawn.
    pub open spec fn wf(&self) -> bool {
        self.layout.radius <= MAX_RADIUS
    }

    /// The listing the legend is sized after: the skeleton once known, the
    /// previous pie before.
    pub open spec fn preview(&self, fallback: Seq<DiskEntry>) -> Seq<DiskEntry> {
        match self.skeleton {
            Some(s) => s@,
            None => fallback,
        }
    }

    /// Frame `frame_index` of the scan view: progress rows for the skeleton
    /// once known, the previous pie's legend before.
    pub open spec fn frame_matches(&self, fallback: Seq<DiskEntry>, v: RenderedView) -> bool {
        match self.skeleton {
            Some(s) => spinner_view_matches(
                self.layout,
                self.frame_index as int,
                progress_lines(merged_items(s@, self.completed@), self.frame_index as int),
                s@.len() as int,
                v,
            ),
            None => spinner_view_matches(
                self.layout,
                self.frame_index as int,
                preview_legend(fallback),
                fallback.len() as int,
                v,
            ),
        }
    }

    /// A scan screen with this geometry, before anything is known.
    pub fn new(layout: Layout) -> (s: Self)
        requires
            layout.radius <= MAX_RADIUS,
        ensures
            s.wf(),
            s.layout == layout,
            s.skeleton is None,
            s.completed@ == Map::<Seq<char>, u64>::empty(),
            s.frame_index == 0,
    {
        ScanScreen { layout, skeleton: None, completed: CompletedSizes::new(), frame_index: 0 }
    }

    /// The folder has been listed: its children become the legend, sorted and
    /// capped as `prepare_skeleton` does.
    pub fn on_skeleton(&mut self, listing: Vec<DiskEntry>)
        ensures
            final(self).layout == old(self).layout,
            final(self).completed@ == old(self).completed@,
            final(self).frame_index == old(self).frame_index,
            final(self).skeleton matches Some(s) && exists|sorted: Seq<DiskEntry>|
                is_stable_name_sort(sorted, listing@) && capped_skeleton(sorted, s@),
    {
        self.skeleton = Some(prepare_skeleton(listing));
    }

    /// A child of the folder has its final size.
    pub fn on_completed(&mut self, name: String, bytes: u64)
        ensures
            final(self).layout == old(self).layout,
            final(self).skeleton == old(self).skeleton,
            final(self).completed@ == old(self).completed@.insert(name@, bytes),
            final(self).frame_index == old(self).frame_index,
    {
        self.completed.insert(name, bytes);
    }

    /// The terminal was resized: the geometry is chosen again for the new
    /// size, sized after the skeleton if known, after `fallback` otherwise.
    pub fn on_resize(&mut self, term_width: u16, term_height: u16, fallback: &[DiskEntry])
        requires
            view_inputs_ok(old(self).preview(fallback@)),
        ensures
            final(self).wf(),
            final(self).layout == layout_for(
                term_width as int,
                term_height as int,
                scan_slice_count(old(self).preview(fallback@)),
                scan_legend_width(old(self).preview(fallback@)),
            ),
            final(self).skeleton == old(self).skeleton,
            final(self).completed@ == old(self).completed@,
            final(self).frame_index == old(self).frame_index,
    {
        let l = match &self.skeleton {
            Some(s) => scan_layout(term_width, term_height, s.as_slice()),
            None => scan_layout(term_width, term_height, fallback),
        };
        proof {
            crate::render::layout::lemma_radius_in_bounds(
                term_width as int,
                term_height as int,
                scan_slice_count(self.preview(fallback@)),
                scan_legend_width(self.preview(fallback@)),
            );
        }
        self.layout = l;
    }

    /// The current frame of the scan view.
    pub fn frame_view(&self, fallback: &[DiskEntry]) -> (v: RenderedView)
        requires
            self.wf(),
            sum_bytes(fallback@) <= u64::MAX,
        ensures
            self.frame_matches(fallback@, v),
    {
        let r = self.layout.radius;
        assert(frame_fits(r as int)) by {
            assert((2 * r + 1) * (2 * (2 * r + 1)) <= 121 * 242) by (nonlinear_arith)
                requires
                    r <= 60,
            ;
        }
        match &self.skeleton {
            Some(s) => {
                let items = merge_skeleton_with_completed(s.as_slice(), &self.completed);
                render_progress_view(&self.layout, items.as_slice(), self.frame_index)
            },
            None => render_scan_view(&self.layout, fallback, self.frame_index),
        }
    }

    /// What one message of the scan or one terminal event does to the screen,
    /// and whether the scan goes on: the skeleton and sizes fill the legend; a
    /// finished scan ends done, a failed one (or one whose worker stopped)
    /// ends failed; Q or Esc cancel it; a resize chooses the geometry again;
    /// anything else changes nothing.
    pub fn handle(&mut self, input: ScanInput, fallback: &[DiskEntry]) -> (r: ScanStep)
        requires
            old(self).wf(),
            input matches ScanInput::Input(Event::Resize(_, _)) ==> view_inputs_ok(old(self).preview(fallback@)),
        ensures
            final(self).wf(),
            final(self).frame_index == old(self).frame_index,
            match input {
                ScanInput::Skeleton(listing) => {
                    &&& r == ScanStep::Continue
                    &&& final(self).layout == old(self).layout
                    &&& final(self).completed@ == old(self).completed@
                    &&& final(self).skeleton matches Some(sk) && exists|sorted: Seq<DiskEntry>|
                        is_stable_name_sort(sorted, listing@) && capped_skeleton(sorted, sk@)
                },
                ScanInput::Completed { name, bytes } => {
                    &&& r == ScanStep::Continue
                    &&& final(self).layout == old(self).layout
                    &&& final(self).skeleton == old(self).skeleton
                    &&& final(self).completed@ == old(self).completed@.insert(name@, bytes)
                },
                ScanInput::Finished => r == ScanStep::End(ScanEnd::Done) && unchanged_screen(*old(self), *final(self)),
                ScanInput::Failed => r == ScanStep::End(ScanEnd::Failed) && unchanged_screen(*old(self), *final(self)),
                ScanInput::Visiting => r == ScanStep::Continue && unchanged_screen(*old(self), *final(self)),
                ScanInput::Input(e) => if e matches Event::Key(c) && (c == KeyCode::Char('q') || c
                    == KeyCode::Char('Q') || c == KeyCode::Esc) {
                    r == ScanStep::End(ScanEnd::Cancelled) && unchanged_screen(*old(self), *final(self))
                } else if let Event::Resize(w, h) = e {
                    &&& r == ScanStep::Continue
                    &&& final(self).layout == layout_for(
                        w as int,
                        h as int,
                        scan_slice_count(old(self).preview(fallback@)),
                        scan_legend_width(old(self).preview(fallback@)),
                    )
                    &&& final(self).skeleton == old(self).skeleton
                    &&& final(self).completed@ == old(self).completed@
                } else {
                    r == ScanStep::Continue && unchanged_screen(*old(self), *final(self))
                },
            },
    {
        match input {
            ScanInput::Skeleton(listing) => {
                self.on_skeleton(listing);
                ScanStep::Continue
            },
            ScanInput::Completed { name, bytes } => {
                self.on_completed(name, bytes);
                ScanStep::Continue
            },
            ScanInput::Finished => ScanStep::End(ScanEnd::Done),
            ScanInput::Failed => ScanStep::End(ScanEnd::Failed),
            ScanInput::Visiting => ScanStep::Continue,
            ScanInput::Input(e) => {
                if is_quit_event(&e) {
                    ScanStep::End(ScanEnd::Cancelled)
                } else if let Event::Resize(w, h) = e {
                    self.on_resize(w, h, fallback);
                    ScanStep::Continue
                } else {
                    ScanStep::Continue
                }
            },
        }
    }

    /// Moves the spinner on by one frame.
    pub fn advance(&mut self)
        ensures
            final(self).layout == old(self).layout,
            final(self).skeleton == old(self).skeleton,
            final(self).completed@ == old(self).completed@,
            final(self).frame_index == (if old(self).frame_index == usize::MAX {
                0
            } else {
                old(self).frame_index + 1
            }),
    {
        self.frame_index = if self.frame_index == usize::MAX {
            0
        } else {
            self.frame_index + 1
        };
    }
}

/// How many children of a listing of `n` a skeleton keeps.
pub open spec fn kept_children(n: nat) -> int {
    if n <= MAX_SLICES {
        n as int
    } else {
        MAX_SLICES as int
    }
}

/// The shape of every skeleton: at most `MAX_SLICES` children kept, each a
/// child of the listing, names ascending; no bucket when every child fits;
/// otherwise one bucket, last, not drillable, without a size, naming how many
/// children it stands for, which with those kept are all of them.
pub proof fn lemma_skeleton_shape(listing: Seq<DiskEntry>, sorted: Seq<DiskEntry>, out: Seq<DiskEntry>)
    requires
        is_stable_name_sort(sorted, listing),
        capped_skeleton(sorted, out),
    ensures
        out.len() <= MAX_SLICES + 1,
        listing.len() <= MAX_SLICES ==> out.len() == listing.len(),
        names_ascending(out.take(kept_children(listing.len()))),
        forall|i: int| 0 <= i < kept_children(listing.len()) ==> listing.contains(#[trigger] out[i]),
        listing.len() > MAX_SLICES ==> {
            let dropped = (listing.len() - MAX_SLICES) as nat;
            &&& out.last().kind == EntryKind::Bucket
            &&& out.last().bytes == 0
            &&& out.last().name@ == skeleton_bucket_name(dropped)
            &&& MAX_SLICES + dropped == listing.len()
        },
{
    let p = choose|p: Seq<int>| name_sort_witness(sorted, listing, p);
    let k = kept_children(listing.len());
    assert(out.take(k) == sorted.take(k));
    assert forall|i: int, j: int| 0 <= i < j < out.take(k).len() implies !name_lt(
        (#[trigger] out.take(k)[j]).name@,
        (#[trigger] out.take(k)[i]).name@,
    ) by {
        assert(out.take(k)[i] == sorted[i]);
        assert(out.take(k)[j] == sorted[j]);
    }
    assert(names_ascending(out.take(k)));
    assert forall|i: int| 0 <= i < k implies listing.contains(#[trigger] out[i]) by {
        assert(out[i] == out.take(k)[i]);
        assert(out[i] == sorted[i]);
        assert(sorted[i] == listing[p[i]]);
    }
}

/// The spinner is sized like the pie it stands for: the scan view sized
/// after a pie has the geometry of the view of that pie.
pub proof fn lemma_scan_layout_matches_view_layout(term_width: int, term_height: int, pie: Seq<DiskEntry>)
    requires
        pie.len() > 0,
    ensures
        layout_for(term_width, term_height, scan_slice_count(pie), scan_legend_width(pie)) == layout_for(
            term_width,
            term_height,
            pie.len() as int,
            legend_width_of(pie),
        ),
{
}

/// Drilling in the full-screen view goes only into real folders: a drill
/// command moves into slice `n` exactly when `n` numbers a slice of the pie
/// whose kind is `Folder`, and then into the folder of that slice's name;
/// on a file or on the synthetic bucket it stays and says why.
pub proof fn lemma_view_drills_only_into_folders(n: usize, pie: Seq<DiskEntry>, at_root: bool, a: ViewAction)
    requires
        view_action_matches(Some(Command::DrillInto { slice_number: n }), pie, at_root, a),
    ensures
        (a is Drill) <==> (1 <= n <= pie.len() && pie[n - 1].kind == EntryKind::Folder),
        a matches ViewAction::Drill { name, status } ==> name@ == pie[n - 1].name@,
        1 <= n <= pie.len() && pie[n - 1].kind != EntryKind::Folder ==> a is Notify,
        !(1 <= n <= pie.len()) ==> a is Ignore,
{
}

/// The other commands of the full-screen view: Q leaves, R scans again, U
/// goes up except at a disk's root, where it opens the drive picker, D opens
/// the picker, and no command changes nothing.
pub proof fn lemma_view_commands(pie: Seq<DiskEntry>, at_root: bool, a: ViewAction, command: Option<Command>)
    requires
        view_action_matches(command, pie, at_root, a),
    ensures
        command == Some(Command::Quit) ==> a is Quit,
        command == Some(Command::Refresh) ==> a is Refresh,
        command == Some(Command::Up) ==> (a is GoUp <==> !at_root) && (a is PickDrive <==> at_root),
        command == Some(Command::ChangeDrive) ==> a matches ViewAction::PickDrive { cancel_status: None },
        command is None ==> a is Ignore,
        a is GoUp ==> !at_root,
{
}

} // verus!
