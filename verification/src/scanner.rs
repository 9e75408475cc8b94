//! The folder walk behind a scan, as a state machine.
//!
//! A scan lists the immediate children of a root folder with their sizes; a
//! child folder's size is the total of its own listing, computed recursively.
//! Listings already known (the cache) are reused instead of walked again, and
//! every listing walked is handed back to be cached. The walk reads nothing
//! itself: each step returns the one thing the driver must do next (look a
//! folder up in the cache, list a folder, report progress, store a listing)
//! and the driver answers with the next event. Paths are given as the folder
//! names below the scan's root.

use vstd::prelude::*;
use crate::{DiskEntry, EntryKind};
use crate::aggregator::{checked_total_bytes, lemma_sum_nonneg, sum_bytes, total_bytes};

verus! {

/// What a directory listing says of one child.
#[derive(Debug, Clone, Copy, PartialEq, Eq, Structural)]
pub enum EntryType {
    File,
    Dir,
    Symlink,
    /// Sockets, devices and the like.
    Other,
    /// The type could not be read.
    Unreadable,
}

/// One child as listed: its name, its type, for a file its length when the
/// metadata could be read, and the number the driver gave it to find the
/// child's real path again (a name shown may differ from the name on disk).
#[derive(Debug)]
pub struct RawEntry {
    pub name: String,
    pub handle: u64,
    pub entry_type: EntryType,
    pub len: Option<u64>,
}

/// Progress reported while a scan runs.
#[derive(Debug)]
pub enum ScanProgress {
    /// The walk descended into this folder (names below the root).
    Entered(Vec<String>, u64),
    /// An immediate child of the root has its final size.
    TopLevelDone { name: String, bytes: u64 },
}

/// What the driver hands to the next step.
#[derive(Debug)]
pub enum ScanEvent {
    /// Starts the scan.
    Begin,
    /// The cached listing of the folder asked for, if any.
    Looked(Option<Vec<DiskEntry>>),
    /// The listing of the folder asked for; `None` when it could not be read.
    Listed(Option<Vec<RawEntry>>),
    /// The previous action was carried out.
    Continue,
}

/// What the driver must do next.
#[derive(Debug)]
pub enum ScanAction {
    /// Look the folder (names below the root, and the driver's number for
    /// it) up in the cache; answer `Looked`.
    LookupCache(Vec<String>, u64),
    /// List the folder; answer `Listed`.
    ReadDir(Vec<String>, u64),
    /// Pass the progress on; answer `Continue`.
    Report(ScanProgress),
    /// Cache this listing for the folder; answer `Continue`.
    Store(Vec<String>, u64, Vec<DiskEntry>),
    /// Nothing to do outside; answer `Continue`.
    Proceed,
    /// The scan is over: the root's listing.
    Done(Vec<DiskEntry>),
    /// The root could not be listed, or the scan was driven out of turn.
    Failed,
}

/// Where the machine stands.
#[derive(Debug)]
pub enum ScanPhase {
    Start,
    RootLookup,
    RootListing,
    Walking,
    TopPending { name: String, bytes: u64 },
    ChildLookup,
    ChildEntered,
    ChildListing,
    Finishing(Vec<DiskEntry>),
    Finished,
}

/// A folder being walked: its listing, the next child to look at, the entries
/// made so far and (below the root) their total.
#[derive(Debug)]
pub struct ScanFrame {
    pub name: String,
    pub handle: u64,
    pub items: Vec<RawEntry>,
    pub next: usize,
    pub entries: Vec<DiskEntry>,
    pub sum: u64,
}

/// The driver's number for the scan's root folder.
pub const ROOT_FOLDER: u64 = 0;

/// A scan in progress: the folders being walked, root first.
#[derive(Debug)]
pub struct FolderScan {
    pub stack: Vec<ScanFrame>,
    pub phase: ScanPhase,
}

pub open spec fn names_view(v: Seq<String>) -> Seq<Seq<char>> {
    Seq::new(v.len(), |i: int| v[i]@)
}

/// The path of the folder on top of the stack: the names of the frames below
/// the root.
pub open spec fn frame_path(stack: Seq<ScanFrame>) -> Seq<Seq<char>> {
    Seq::new((stack.len() - 1) as nat, |i: int| stack[i + 1].name@)
}

/// The child the top frame is at.
pub open spec fn current_item(stack: Seq<ScanFrame>) -> RawEntry {
    stack.last().items@[stack.last().next as int]
}

/// The path of the child the top frame is at.
pub open spec fn child_path(stack: Seq<ScanFrame>) -> Seq<Seq<char>> {
    frame_path(stack).push(current_item(stack).name@)
}

/// The size a listed file is counted with: its length, 0 when unknown.
pub open spec fn file_bytes(item: RawEntry) -> u64 {
    match item.len {
        Some(n) => n,
        None => 0,
    }
}

pub open spec fn frame_ok(stack: Seq<ScanFrame>, i: int) -> bool {
    &&& stack[i].next <= stack[i].items@.len()
    &&& i >= 1 ==> stack[i].sum == sum_bytes(stack[i].entries@)
}

/// Every frame but the top is at the folder child that the frame above walks.
pub open spec fn frame_linked(stack: Seq<ScanFrame>, i: int) -> bool {
    &&& stack[i].next < stack[i].items@.len()
    &&& stack[i].items@[stack[i].next as int].entry_type == EntryType::Dir
    &&& stack[i].items@[stack[i].next as int].name@ == stack[i + 1].name@
    &&& stack[i].items@[stack[i].next as int].handle == stack[i + 1].handle
}

/// Every frame is consistent and linked to the one above it.
pub open spec fn stack_ok(s: Seq<ScanFrame>) -> bool {
    &&& forall|i: int| 0 <= i < s.len() ==> #[trigger] frame_ok(s, i)
    &&& forall|i: int| 0 <= i < s.len() - 1 ==> #[trigger] frame_linked(s, i)
}

impl FolderScan {
    /// The machine's invariant.
    pub open spec fn wf(&self) -> bool {
        let s = self.stack@;
        &&& forall|i: int| 0 <= i < s.len() ==> #[trigger] frame_ok(s, i)
        &&& forall|i: int| 0 <= i < s.len() - 1 ==> #[trigger] frame_linked(s, i)
        &&& match self.phase {
            ScanPhase::Walking => s.len() >= 1,
            ScanPhase::TopPending { name, bytes } => {
                &&& s.len() == 1
                &&& s[0].entries@.len() > 0
                &&& entry_is(s[0].entries@.last(), name@, bytes as int, EntryKind::Folder)
            },
            ScanPhase::ChildLookup | ScanPhase::ChildEntered | ScanPhase::ChildListing => {
                &&& s.len() >= 1
                &&& s.last().next < s.last().items@.len()
                &&& current_item(s).entry_type == EntryType::Dir
            },
            _ => s.len() == 0,
        }
    }

    /// The step on this event adds only sizes whose totals fit in a `u64`.
    pub open spec fn fits(&self, event: ScanEvent) -> bool {
        let s = self.stack@;
        match (self.phase, event) {
            (ScanPhase::Walking, ScanEvent::Continue) => if s.last().next < s.last().items@.len() {
                current_item(s).entry_type == EntryType::File && s.len() >= 2 ==> s.last().sum
                    + file_bytes(current_item(s)) <= u64::MAX
            } else {
                s.len() >= 3 ==> s[s.len() - 2].sum + s.last().sum <= u64::MAX
            },
            (ScanPhase::ChildLookup, ScanEvent::Looked(Some(es))) => {
                &&& sum_bytes(es@) <= u64::MAX
                &&& s.len() >= 2 ==> s.last().sum + sum_bytes(es@) <= u64::MAX
            },
            _ => true,
        }
    }
}

impl FolderScan {
    /// Whether the step on `event` adds only sizes whose totals fit in a `u64`;
    /// a walk whose sizes add up past that cannot go on.
    pub fn step_fits(&self, event: &ScanEvent) -> (b: bool)
        requires
            self.wf(),
        ensures
            b == self.fits(*event),
    {
        let d = self.stack.len();
        match (&self.phase, event) {
            (ScanPhase::Walking, ScanEvent::Continue) => {
                let top = &self.stack[d - 1];
                if top.next < top.items.len() {
                    let item = &top.items[top.next];
                    if item.entry_type == EntryType::File && d >= 2 {
                        let b = match item.len {
                            Some(n) => n,
                            None => 0,
                        };
                        top.sum.checked_add(b).is_some()
                    } else {
                        true
                    }
                } else if d >= 3 {
                    self.stack[d - 2].sum.checked_add(top.sum).is_some()
                } else {
                    true
                }
            },
            (ScanPhase::ChildLookup, ScanEvent::Looked(Some(es))) => {
                match checked_total_bytes(es.as_slice()) {
                    None => false,
                    Some(t) => d < 2 || self.stack[d - 1].sum.checked_add(t).is_some(),
                }
            },
            _ => true,
        }
    }
}

/// The children a listing shows before any size is known: files and folders,
/// in listing order, each with a size of 0; links and other kinds are left out.
pub open spec fn listed_children(items: Seq<RawEntry>) -> Seq<DiskEntry>
    decreases items.len(),
{
    if items.len() == 0 {
        Seq::empty()
    } else {
        let rest = listed_children(items.drop_last());
        let it = items.last();
        match it.entry_type {
            EntryType::File => rest.push(DiskEntry { name: it.name, bytes: 0, kind: EntryKind::File }),
            EntryType::Dir => rest.push(DiskEntry { name: it.name, bytes: 0, kind: EntryKind::Folder }),
            _ => rest,
        }
    }
}

/// The immediate children of a listed folder with their kind but without
/// sizes, for the skeleton shown while the sizes are computed.
pub fn skeleton_entries(items: &[RawEntry]) -> (out: Vec<DiskEntry>)
    ensures
        out@ == listed_children(items@),
{
    let mut out: Vec<DiskEntry> = Vec::new();
    let mut i: usize = 0;
    while i < items.len()
        invariant
            i <= items@.len(),
            out@ == listed_children(items@.take(i as int)),
        decreases items@.len() - i,
    {
        let it = &items[i];
        proof {
            assert(items@.take(i + 1).drop_last() == items@.take(i as int));
        }
        match it.entry_type {
            EntryType::File => out.push(DiskEntry { name: it.name.clone(), bytes: 0, kind: EntryKind::File }),
            EntryType::Dir => out.push(DiskEntry { name: it.name.clone(), bytes: 0, kind: EntryKind::Folder }),
            _ => {},
        }
        i = i + 1;
    }
    assert(items@.take(items@.len() as int) == items@);
    out
}

/// A fresh scan, waiting for `Begin`.
pub fn new_scan() -> (s: FolderScan)
    ensures
        s.wf(),
        s.phase is Start,
        s.stack@.len() == 0,
{
    FolderScan { stack: Vec::new(), phase: ScanPhase::Start }
}

fn copy_entries(v: &Vec<DiskEntry>) -> (r: Vec<DiskEntry>)
    ensures
        r@ == v@,
{
    let mut r: Vec<DiskEntry> = Vec::new();
    let mut i: usize = 0;
    while i < v.len()
        invariant
            i <= v@.len(),
            r@ == v@.take(i as int),
        decreases v@.len() - i,
    {
        r.push(v[i].duplicate());
        proof {
            assert(v@.take(i + 1) == v@.take(i as int).push(v@[i as int]));
        }
        i = i + 1;
    }
    assert(v@.take(v@.len() as int) == v@);
    r
}

impl FolderScan {
    /// The path of the folder on top of the stack.
    fn top_path(&self) -> (p: Vec<String>)
        requires
            self.stack@.len() >= 1,
        ensures
            names_view(p@) == frame_path(self.stack@),
    {
        let mut p: Vec<String> = Vec::new();
        let mut i: usize = 1;
        while i < self.stack.len()
            invariant
                1 <= i <= self.stack@.len(),
                p@.len() == i - 1,
                forall|k: int| 0 <= k < i - 1 ==> (#[trigger] p@[k])@ == self.stack@[k + 1].name@,
            decreases self.stack@.len() - i,
        {
            p.push(self.stack[i].name.clone());
            i = i + 1;
        }
        assert(names_view(p@) =~= frame_path(self.stack@));
        p
    }

    /// The path of the child the top frame is at.
    fn current_child_path(&self) -> (p: Vec<String>)
        requires
            self.stack@.len() >= 1,
            self.stack@.last().next < self.stack@.last().items@.len(),
        ensures
            names_view(p@) == child_path(self.stack@),
    {
        let mut p = self.top_path();
        let top = self.stack.len() - 1;
        let ghost before = p@;
        p.push(self.stack[top].items[self.stack[top].next].name.clone());
        assert(names_view(p@) =~= names_view(before).push(current_item(self.stack@).name@));
        p
    }
}

/// `e` is an entry with this name, size and kind.
pub open spec fn entry_is(e: DiskEntry, name: Seq<char>, bytes: int, kind: EntryKind) -> bool {
    e.name@ == name && e.bytes == bytes && e.kind == kind
}

/// `g` is frame `f` moved past its current child, with `added` appended to its
/// entries (if any) and `bytes` added to its total when it is below the root.
pub open spec fn advanced(f: ScanFrame, g: ScanFrame, added: Option<DiskEntry>, bytes: int, below_root: bool) -> bool {
    &&& g.name == f.name
    &&& g.handle == f.handle
    &&& g.items == f.items
    &&& g.next == f.next + 1
    &&& g.entries@ == match added {
        Some(e) => f.entries@.push(e),
        None => f.entries@,
    }
    &&& g.sum == if below_root {
        f.sum + bytes
    } else {
        f.sum as int
    }
}

/// A step in phase `Walking` on `Continue`: look at the top frame's next child,
/// or close the top frame when its listing is exhausted.
pub open spec fn walk_matches(s: Seq<ScanFrame>, new: FolderScan, a: ScanAction) -> bool {
    let t = new.stack@;
    let d = s.len();
    let f = s.last();
    if f.next < f.items@.len() {
        let item = current_item(s);
        match item.entry_type {
            EntryType::File => {
                let b = file_bytes(item);
                &&& t.len() == d
                &&& t.take(d - 1) == s.take(d - 1)
                &&& t.last().entries@.len() == f.entries@.len() + 1
                &&& entry_is(t.last().entries@.last(), item.name@, b as int, EntryKind::File)
                &&& advanced(f, t.last(), Some(t.last().entries@.last()), b as int, d >= 2)
                &&& new.phase is Walking
                &&& if d == 1 {
                    a matches ScanAction::Report(ScanProgress::TopLevelDone { name, bytes }) && name@
                        == item.name@ && bytes == b
                } else {
                    a is Proceed
                }
            },
            EntryType::Dir => {
                &&& t == s
                &&& new.phase is ChildLookup
                &&& a matches ScanAction::LookupCache(p, h) && names_view(p@) == child_path(s) && h
                    == item.handle
            },
            _ => {
                &&& t.len() == d
                &&& t.take(d - 1) == s.take(d - 1)
                &&& advanced(f, t.last(), None, 0, d >= 2)
                &&& new.phase is Walking
                &&& a is Proceed
            },
        }
    } else if d == 1 {
        &&& t.len() == 0
        &&& new.phase matches ScanPhase::Finishing(es) && es@ == f.entries@
        &&& a matches ScanAction::Store(p, h, es) && p@.len() == 0 && h == ROOT_FOLDER && es@
            == f.entries@
    } else {
        let pf = s[d - 2];
        &&& t.len() == d - 1
        &&& t.take(d - 2) == s.take(d - 2)
        &&& t.last().entries@.len() == pf.entries@.len() + 1
        &&& entry_is(t.last().entries@.last(), f.name@, f.sum as int, EntryKind::Folder)
        &&& advanced(pf, t.last(), Some(t.last().entries@.last()), f.sum as int, d >= 3)
        &&& if d == 2 {
            new.phase matches ScanPhase::TopPending { name, bytes } && name@ == f.name@ && bytes
                == f.sum
        } else {
            new.phase is Walking
        }
        &&& a matches ScanAction::Store(p, h, es) && names_view(p@) == frame_path(s) && h == f.handle
            && es@
            == f.entries@
    }
}

/// A step in phase `ChildLookup` on a cache hit: the cached listing's total
/// becomes the child's size; the child is not walked.
pub open spec fn cached_matches(s: Seq<ScanFrame>, es: Vec<DiskEntry>, new: FolderScan, a: ScanAction) -> bool {
    let t = new.stack@;
    let d = s.len();
    let f = s.last();
    let item = current_item(s);
    let total = sum_bytes(es@);
    &&& t.len() == d
    &&& t.take(d - 1) == s.take(d - 1)
    &&& t.last().entries@.len() == f.entries@.len() + 1
    &&& entry_is(t.last().entries@.last(), item.name@, total, EntryKind::Folder)
    &&& advanced(f, t.last(), Some(t.last().entries@.last()), total, d >= 2)
    &&& new.phase is Walking
    &&& if d == 1 {
        a matches ScanAction::Report(ScanProgress::TopLevelDone { name, bytes }) && name@
            == item.name@ && bytes == total
    } else {
        a is Proceed
    }
}

/// What one step does, by phase and event.
pub open spec fn step_matches(old: FolderScan, event: ScanEvent, new: FolderScan, a: ScanAction) -> bool {
    let s = old.stack@;
    let t = new.stack@;
    match (old.phase, event) {
        (ScanPhase::Start, ScanEvent::Begin) => {
            &&& new.phase is RootLookup
            &&& t.len() == 0
            &&& a matches ScanAction::LookupCache(p, h) && p@.len() == 0 && h == ROOT_FOLDER
        },
        (ScanPhase::RootLookup, ScanEvent::Looked(Some(es))) => {
            &&& new.phase is Finished
            &&& t.len() == 0
            &&& a == ScanAction::Done(es)
        },
        (ScanPhase::RootLookup, ScanEvent::Looked(None)) => {
            &&& new.phase is RootListing
            &&& t.len() == 0
            &&& a matches ScanAction::ReadDir(p, h) && p@.len() == 0 && h == ROOT_FOLDER
        },
        (ScanPhase::RootListing, ScanEvent::Listed(None)) => {
            &&& new.phase is Finished
            &&& t.len() == 0
            &&& a is Failed
        },
        (ScanPhase::RootListing, ScanEvent::Listed(Some(items))) => {
            &&& new.phase is Walking
            &&& t.len() == 1
            &&& t[0].items == items
            &&& t[0].handle == ROOT_FOLDER
            &&& t[0].next == 0
            &&& t[0].entries@.len() == 0
            &&& a matches ScanAction::Report(ScanProgress::Entered(p, h)) && p@.len() == 0 && h
                == ROOT_FOLDER
        },
        (ScanPhase::Walking, ScanEvent::Continue) => walk_matches(s, new, a),
        (ScanPhase::TopPending { name, bytes }, ScanEvent::Continue) => {
            &&& new.phase is Walking
            &&& t == s
            &&& a == ScanAction::Report(ScanProgress::TopLevelDone { name, bytes })
        },
        (ScanPhase::ChildLookup, ScanEvent::Looked(Some(es))) => cached_matches(s, es, new, a),
        (ScanPhase::ChildLookup, ScanEvent::Looked(None)) => {
            &&& new.phase is ChildEntered
            &&& t == s
            &&& a matches ScanAction::Report(ScanProgress::Entered(p, h)) && names_view(p@)
                == child_path(s) && h == current_item(s).handle
        },
        (ScanPhase::ChildEntered, ScanEvent::Continue) => {
            &&& new.phase is ChildListing
            &&& t == s
            &&& a matches ScanAction::ReadDir(p, h) && names_view(p@) == child_path(s) && h
                == current_item(s).handle
        },
        (ScanPhase::ChildListing, ScanEvent::Listed(listing)) => {
            &&& new.phase is Walking
            &&& t.len() == s.len() + 1
            &&& t.take(s.len() as int) == s
            &&& t.last().name@ == current_item(s).name@
            &&& t.last().handle == current_item(s).handle
            &&& t.last().items@ == match listing {
                Some(v) => v@,
                None => Seq::empty(),
            }
            &&& t.last().next == 0
            &&& t.last().entries@.len() == 0
            &&& t.last().sum == 0
            &&& a is Proceed
        },
        (ScanPhase::Finishing(es), ScanEvent::Continue) => {
            &&& new.phase is Finished
            &&& t.len() == 0
            &&& a == ScanAction::Done(es)
        },
        _ => {
            &&& new.phase is Finished
            &&& t.len() == 0
            &&& a is Failed
        },
    }
}

impl FolderScan {
    /// One step of the walk: takes what the driver observed and returns what it
    /// must do next.
    pub fn step(&mut self, event: ScanEvent) -> (a: ScanAction)
        requires
            old(self).wf(),
            old(self).fits(event),
        ensures
            final(self).wf(),
            step_matches(*old(self), event, *final(self), a),
    {
        let ghost s = self.stack@;
        let ghost old_self = *self;
        let mut phase = ScanPhase::Finished;
        std::mem::swap(&mut phase, &mut self.phase);
        match (phase, event) {
            (ScanPhase::Start, ScanEvent::Begin) => {
                self.phase = ScanPhase::RootLookup;
                ScanAction::LookupCache(Vec::new(), ROOT_FOLDER)
            },
            (ScanPhase::RootLookup, ScanEvent::Looked(Some(es))) => {
                ScanAction::Done(es)
            },
            (ScanPhase::RootLookup, ScanEvent::Looked(None)) => {
                self.phase = ScanPhase::RootListing;
                ScanAction::ReadDir(Vec::new(), ROOT_FOLDER)
            },
            (ScanPhase::RootListing, ScanEvent::Listed(None)) => {
                ScanAction::Failed
            },
            (ScanPhase::RootListing, ScanEvent::Listed(Some(items))) => {
                self.stack.push(
                    ScanFrame {
                        name: String::new(),
                        handle: ROOT_FOLDER,
                        items,
                        next: 0,
                        entries: Vec::new(),
                        sum: 0,
                    },
                );
                self.phase = ScanPhase::Walking;
                ScanAction::Report(ScanProgress::Entered(Vec::new(), ROOT_FOLDER))
            },
            (ScanPhase::Walking, ScanEvent::Continue) => {
                self.walk()
            },
            (ScanPhase::TopPending { name, bytes }, ScanEvent::Continue) => {
                self.phase = ScanPhase::Walking;
                ScanAction::Report(ScanProgress::TopLevelDone { name, bytes })
            },
            (ScanPhase::ChildLookup, ScanEvent::Looked(Some(es))) => {
                self.attach_cached(es)
            },
            (ScanPhase::ChildLookup, ScanEvent::Looked(None)) => {
                self.phase = ScanPhase::ChildEntered;
                let top = self.stack.len() - 1;
                let h = self.stack[top].items[self.stack[top].next].handle;
                ScanAction::Report(ScanProgress::Entered(self.current_child_path(), h))
            },
            (ScanPhase::ChildEntered, ScanEvent::Continue) => {
                self.phase = ScanPhase::ChildListing;
                let top = self.stack.len() - 1;
                let h = self.stack[top].items[self.stack[top].next].handle;
                ScanAction::ReadDir(self.current_child_path(), h)
            },
            (ScanPhase::ChildListing, ScanEvent::Listed(listing)) => {
                let top = self.stack.len() - 1;
                let name = self.stack[top].items[self.stack[top].next].name.clone();
                let handle = self.stack[top].items[self.stack[top].next].handle;
                let items = match listing {
                    Some(v) => v,
                    None => Vec::new(),
                };
                self.stack.push(ScanFrame { name, handle, items, next: 0, entries: Vec::new(), sum: 0 });
                self.phase = ScanPhase::Walking;
                proof {
                    let t = self.stack@;
                    assert(t.take(s.len() as int) == s);
                    assert forall|i: int| 0 <= i < t.len() implies #[trigger] frame_ok(t, i) by {
                        if i < s.len() {
                            assert(frame_ok(s, i));
                        } else {
                            assert(sum_bytes(t[i].entries@) == 0);
                        }
                    }
                    assert forall|i: int| 0 <= i < t.len() - 1 implies #[trigger] frame_linked(t, i) by {
                        if i < s.len() - 1 {
                            assert(frame_linked(s, i));
                        }
                    }
                }
                ScanAction::Proceed
            },
            (ScanPhase::Finishing(es), ScanEvent::Continue) => {
                ScanAction::Done(es)
            },
            (_, _) => {
                self.stack = Vec::new();
                ScanAction::Failed
            },
        }
    }

    fn walk(&mut self) -> (a: ScanAction)
        requires
            stack_ok(old(self).stack@),
            old(self).stack@.len() >= 1,
            old(self).phase is Finished,
            ({
                let s = old(self).stack@;
                if s.last().next < s.last().items@.len() {
                    current_item(s).entry_type == EntryType::File && s.len() >= 2 ==> s.last().sum
                        + file_bytes(current_item(s)) <= u64::MAX
                } else {
                    s.len() >= 3 ==> s[s.len() - 2].sum + s.last().sum <= u64::MAX
                }
            }),
        ensures
            final(self).wf(),
            walk_matches(old(self).stack@, *final(self), a),
    {
        let ghost s = self.stack@;
        let d = self.stack.len();
        let top = d - 1;
        if self.stack[top].next < self.stack[top].items.len() {
            let ty = self.stack[top].items[self.stack[top].next].entry_type;
            match ty {
                EntryType::Dir => {
                    self.phase = ScanPhase::ChildLookup;
                    let h = self.stack[top].items[self.stack[top].next].handle;
                    ScanAction::LookupCache(self.current_child_path(), h)
                },
                EntryType::File => {
                    let mut f = self.stack.pop().unwrap();
                    let ghost f0 = f;
                    let b: u64 = match f.items[f.next].len {
                        Some(n) => n,
                        None => 0,
                    };
                    let name = f.items[f.next].name.clone();
                    let e = DiskEntry { name: name.clone(), bytes: b, kind: EntryKind::File };
                    f.entries.push(e);
                    if d >= 2 {
                        f.sum = f.sum + b;
                    }
                    f.next = f.next + 1;
                    self.stack.push(f);
                    self.phase = ScanPhase::Walking;
                    proof {
                        assert(frame_ok(s, top as int));
                        assert(f0.entries@.push(e).drop_last() == f0.entries@);
                        assert(self.stack@.take(s.len() - 1) =~= s.take(s.len() - 1));
                        self.lemma_replaced_top(s, f0);
                    }
                    if d == 1 {
                        ScanAction::Report(ScanProgress::TopLevelDone { name, bytes: b })
                    } else {
                        ScanAction::Proceed
                    }
                },
                _ => {
                    let mut f = self.stack.pop().unwrap();
                    let ghost f0 = f;
                    f.next = f.next + 1;
                    self.stack.push(f);
                    self.phase = ScanPhase::Walking;
                    proof {
                        assert(frame_ok(s, top as int));
                        assert(self.stack@.take(s.len() - 1) =~= s.take(s.len() - 1));
                        self.lemma_replaced_top(s, f0);
                    }
                    ScanAction::Proceed
                },
            }
        } else if d == 1 {
            let f = self.stack.pop().unwrap();
            let copy = copy_entries(&f.entries);
            self.phase = ScanPhase::Finishing(f.entries);
            ScanAction::Store(Vec::new(), ROOT_FOLDER, copy)
        } else {
            let path = self.top_path();
            let f = self.stack.pop().unwrap();
            let mut parent = self.stack.pop().unwrap();
            let ghost p0 = parent;
            let n_items = parent.items.len();
            assert(frame_linked(s, d - 2));
            assert(parent.next < n_items);
            let total = f.sum;
            assert(frame_ok(s, top as int));
            let e = DiskEntry { name: f.name.clone(), bytes: total, kind: EntryKind::Folder };
            parent.entries.push(e);
            if d >= 3 {
                parent.sum = parent.sum + total;
            }
            parent.next = parent.next + 1;
            self.stack.push(parent);
            if d == 2 {
                self.phase = ScanPhase::TopPending { name: f.name.clone(), bytes: total };
            } else {
                self.phase = ScanPhase::Walking;
            }
            proof {
                assert(frame_ok(s, d - 2));
                assert(p0.entries@.push(e).drop_last() == p0.entries@);
                assert(frame_linked(s, d - 2));
                assert(self.stack@.take(d - 2) =~= s.drop_last().take(d - 2));
                let sd = s.drop_last();
                assert forall|i: int| 0 <= i < sd.len() implies #[trigger] frame_ok(sd, i) by {
                    assert(frame_ok(s, i));
                }
                assert forall|i: int| 0 <= i < sd.len() - 1 implies #[trigger] frame_linked(sd, i) by {
                    assert(frame_linked(s, i));
                }
                self.lemma_replaced_top(s.drop_last(), p0);
                assert(s.drop_last().take(d - 2) =~= s.take(d - 2));
            }
            ScanAction::Store(path, f.handle, f.entries)
        }
    }

    /// Replacing the top frame by one with the same name and listing, moved
    /// one child on, whose total is that of its entries (below the root),
    /// keeps the stack consistent.
    proof fn lemma_replaced_top(&self, s: Seq<ScanFrame>, f0: ScanFrame)
        requires
            stack_ok(s),
            s.len() >= 1,
            f0 == s.last(),
            f0.next < f0.items@.len(),
            self.stack@.len() == s.len(),
            self.stack@.take(s.len() - 1) == s.take(s.len() - 1),
            self.stack@.last().name == f0.name,
            self.stack@.last().handle == f0.handle,
            self.stack@.last().items == f0.items,
            self.stack@.last().next == f0.next + 1,
            s.len() >= 2 ==> self.stack@.last().sum == sum_bytes(self.stack@.last().entries@),
            self.phase is Walking || (self.phase is TopPending && s.len() == 1),
            self.phase matches ScanPhase::TopPending { name, bytes } ==> self.stack@.last().entries@.len()
                > 0 && entry_is(self.stack@.last().entries@.last(), name@, bytes as int, EntryKind::Folder),
        ensures
            self.wf(),
    {
        let t = self.stack@;
        assert forall|i: int| 0 <= i < t.len() implies #[trigger] frame_ok(t, i) by {
            if i < t.len() - 1 {
                assert(t[i] == t.take(s.len() - 1)[i]);
                assert(frame_ok(s, i));
            }
        }
        assert forall|i: int| 0 <= i < t.len() - 1 implies #[trigger] frame_linked(t, i) by {
            assert(t[i] == t.take(s.len() - 1)[i]);
            assert(frame_linked(s, i));
            if i + 1 < t.len() - 1 {
                assert(t[i + 1] == t.take(s.len() - 1)[i + 1]);
            }
        }
    }

    fn attach_cached(&mut self, es: Vec<DiskEntry>) -> (a: ScanAction)
        requires
            ({
                let s = old(self).stack@;
                &&& s.len() >= 1
                &&& stack_ok(s)
                &&& s.last().next < s.last().items@.len()
                &&& current_item(s).entry_type == EntryType::Dir
                &&& sum_bytes(es@) <= u64::MAX
                &&& s.len() >= 2 ==> s.last().sum + sum_bytes(es@) <= u64::MAX
            }),
            old(self).phase is Finished,
        ensures
            final(self).wf(),
            cached_matches(old(self).stack@, es, *final(self), a),
    {
        let ghost s = self.stack@;
        let total = total_bytes(es.as_slice());
        let d = self.stack.len();
        let mut f = self.stack.pop().unwrap();
        let ghost f0 = f;
        let n_items = f.items.len();
        assert(f.next < n_items);
        let name = f.items[f.next].name.clone();
        let e = DiskEntry { name: name.clone(), bytes: total, kind: EntryKind::Folder };
        f.entries.push(e);
        if d >= 2 {
            f.sum = f.sum + total;
        }
        f.next = f.next + 1;
        self.stack.push(f);
        self.phase = ScanPhase::Walking;
        proof {
            assert(frame_ok(s, (d - 1) as int));
            assert(f0.entries@.push(e).drop_last() == f0.entries@);
            assert(self.stack@.take(s.len() - 1) =~= s.take(s.len() - 1));
            self.lemma_replaced_top(s, f0);
        }
        if d == 1 {
            ScanAction::Report(ScanProgress::TopLevelDone { name, bytes: total })
        } else {
            ScanAction::Proceed
        }
    }
}

/// When the walk of a folder below the root ends, its listing is handed over
/// to be cached, and the size its parent records for it is the total of that
/// very listing.
pub proof fn lemma_folder_size_is_total_of_stored_listing(old: FolderScan, new: FolderScan, a: ScanAction)
    requires
        old.wf(),
        old.phase is Walking,
        old.stack@.len() >= 2,
        old.stack@.last().next >= old.stack@.last().items@.len(),
        step_matches(old, ScanEvent::Continue, new, a),
    ensures
        a matches ScanAction::Store(p, _h, es) && {
            let e = new.stack@.last().entries@.last();
            &&& p@.len() >= 1
            &&& e.name@ == p@.last()@
            &&& e.kind == EntryKind::Folder
            &&& e.bytes == sum_bytes(es@)
        },
{
    let s = old.stack@;
    let d = s.len() as int;
    assert(frame_ok(s, d - 1));
    if let ScanAction::Store(p, _h, es) = a {
        assert(names_view(p@) == frame_path(s));
        assert(names_view(p@).len() == p@.len());
        assert(names_view(p@)[p@.len() - 1] == p@.last()@);
        assert(frame_path(s)[d - 2] == s[d - 1].name@);
    }
}

/// A child folder found in the cache is neither entered nor listed again: its
/// size is the total of the cached listing.
pub proof fn lemma_cached_child_is_not_walked(old: FolderScan, es: Vec<DiskEntry>, new: FolderScan, a: ScanAction)
    requires
        old.wf(),
        old.phase is ChildLookup,
        step_matches(old, ScanEvent::Looked(Some(es)), new, a),
    ensures
        !(a is ReadDir),
        !(a matches ScanAction::Report(ScanProgress::Entered(_, _))),
        new.phase is Walking,
        new.stack@.len() == old.stack@.len(),
        new.stack@.last().entries@.last().kind == EntryKind::Folder,
        new.stack@.last().entries@.last().bytes == sum_bytes(es@),
{
}

/// A root found in the cache ends the scan with the cached listing, before
/// anything is listed or reported.
pub proof fn lemma_root_cache_hit_returns_cached_listing(
    s0: FolderScan,
    s1: FolderScan,
    a1: ScanAction,
    es: Vec<DiskEntry>,
    s2: FolderScan,
    a2: ScanAction,
)
    requires
        s0.wf(),
        s0.phase is Start,
        step_matches(s0, ScanEvent::Begin, s1, a1),
        step_matches(s1, ScanEvent::Looked(Some(es)), s2, a2),
    ensures
        a1 matches ScanAction::LookupCache(p, h) && p@.len() == 0 && h == ROOT_FOLDER,
        a2 == ScanAction::Done(es),
        s2.phase is Finished,
{
}

/// The scan's result is the root listing it handed over to be cached.
pub proof fn lemma_result_is_stored_root_listing(
    s0: FolderScan,
    s1: FolderScan,
    a1: ScanAction,
    s2: FolderScan,
    a2: ScanAction,
)
    requires
        s0.wf(),
        s0.phase is Walking,
        s0.stack@.len() == 1,
        s0.stack@[0].next >= s0.stack@[0].items@.len(),
        step_matches(s0, ScanEvent::Continue, s1, a1),
        step_matches(s1, ScanEvent::Continue, s2, a2),
    ensures
        a1 matches ScanAction::Store(p, _h, stored) && p@.len() == 0 && (a2 matches ScanAction::Done(
            result) && result@ == stored@),
        s2.phase is Finished,
{
}

/// A size reported for a child of the root is that of the entry the root's
/// listing holds for it, reported as soon as that entry is made.
pub proof fn lemma_top_level_report_is_root_entry(old: FolderScan, event: ScanEvent, new: FolderScan, a: ScanAction)
    requires
        old.wf(),
        step_matches(old, event, new, a),
    ensures
        a matches ScanAction::Report(ScanProgress::TopLevelDone { name, bytes }) ==> {
            let t = new.stack@;
            &&& t.len() == 1
            &&& t[0].entries@.len() > 0
            &&& t[0].entries@.last().name@ == name@
            &&& t[0].entries@.last().bytes == bytes
        },
{
}

} // verus!
