//! What a scan computes on a file tree, and the proof that the walk of
//! `scanner` computes it.
//!
//! A file tree is given by the listing of each folder, by path below the scan's
//! root (`None` for a folder that cannot be listed), and the cache by the
//! listings it held when the scan started. A folder's size is the total of its
//! listing: a folder found in the cache counts with the cached listing's total,
//! any other with the total of its own listing, worked out the same way.
//! When the driver answers every action of the walk from the tree and the
//! cache, the walk keeps `walk_faithful` at every step, every listing it hands
//! over to be cached is the one its folder should have, and its result is the
//! root's listing. On a tree of bounded depth every such walk ends; each child
//! of the root is reported once; nothing inside a cached folder is entered; and
//! the skeleton shown before the sizes are known lists the same children.
//! Here folders are told apart by their names below the root; the walk also
//! hands the driver its own number for each folder, which tells apart
//! folders whose names read the same.

use vstd::prelude::*;
use crate::{DiskEntry, EntryKind};
use crate::aggregator::sum_bytes;
use crate::scanner::{
    child_path, current_item, file_bytes, frame_linked, frame_ok, listed_children, names_view, step_matches,
    EntryType, FolderScan, RawEntry, ScanAction, ScanEvent, ScanFrame, ScanPhase, ScanProgress,
};

verus! {

/// The listing of the folder at `p`; an unlistable folder lists nothing.
pub open spec fn listing_of(fs: spec_fn(Seq<Seq<char>>) -> Option<Seq<RawEntry>>, p: Seq<Seq<char>>) -> Seq<RawEntry> {
    match fs(p) {
        Some(v) => v,
        None => Seq::empty(),
    }
}

/// No folder `bound` or more levels below the root lists a folder.
pub open spec fn fs_bounded(fs: spec_fn(Seq<Seq<char>>) -> Option<Seq<RawEntry>>, bound: nat) -> bool {
    forall|p: Seq<Seq<char>>, i: int|
        p.len() >= bound && 0 <= i < listing_of(fs, p).len() ==> (#[trigger] listing_of(fs, p)[i]).entry_type
            != EntryType::Dir
}

/// The entries made for the children `items` of the folder at `p`: a file
/// with its length (0 when unknown), a folder with its size, links and other
/// kinds left out.
pub open spec fn expected_entries(
    fs: spec_fn(Seq<Seq<char>>) -> Option<Seq<RawEntry>>,
    cache0: Map<Seq<Seq<char>>, Seq<DiskEntry>>,
    bound: nat,
    p: Seq<Seq<char>>,
    items: Seq<RawEntry>,
) -> Seq<DiskEntry>
    decreases bound - p.len(), items.len(),
{
    if items.len() == 0 {
        Seq::empty()
    } else {
        let rest = expected_entries(fs, cache0, bound, p, items.drop_last());
        let it = items.last();
        match it.entry_type {
            EntryType::File => rest.push(DiskEntry { name: it.name, bytes: file_bytes(it), kind: EntryKind::File }),
            EntryType::Dir => {
                let child = p.push(it.name@);
                let size: int = if cache0.contains_key(child) {
                    sum_bytes(cache0[child])
                } else if p.len() < bound {
                    sum_bytes(expected_entries(fs, cache0, bound, child, listing_of(fs, child)))
                } else {
                    0
                };
                rest.push(DiskEntry { name: it.name, bytes: size as u64, kind: EntryKind::Folder })
            },
            _ => rest,
        }
    }
}

/// The listing the folder at `p` should have.
pub open spec fn expected_listing(
    fs: spec_fn(Seq<Seq<char>>) -> Option<Seq<RawEntry>>,
    cache0: Map<Seq<Seq<char>>, Seq<DiskEntry>>,
    bound: nat,
    p: Seq<Seq<char>>,
) -> Seq<DiskEntry> {
    expected_entries(fs, cache0, bound, p, listing_of(fs, p))
}

/// What a scan of the root returns: the cached listing if the cache holds
/// one, the root's listing otherwise.
pub open spec fn scan_result(
    fs: spec_fn(Seq<Seq<char>>) -> Option<Seq<RawEntry>>,
    cache0: Map<Seq<Seq<char>>, Seq<DiskEntry>>,
    bound: nat,
) -> Seq<DiskEntry> {
    let root = Seq::<Seq<char>>::empty();
    if cache0.contains_key(root) {
        cache0[root]
    } else {
        expected_listing(fs, cache0, bound, root)
    }
}

/// Two listings with the same names, sizes and kinds, in the same order.
pub open spec fn same_entries(a: Seq<DiskEntry>, b: Seq<DiskEntry>) -> bool {
    &&& a.len() == b.len()
    &&& forall|i: int|
        0 <= i < a.len() ==> (#[trigger] a[i]).name@ == (#[trigger] b[i]).name@ && a[i].bytes == b[i].bytes
            && a[i].kind == b[i].kind
}

/// The path of frame `i` of the stack: the names of the frames above the root up to it.
pub open spec fn path_to(s: Seq<ScanFrame>, i: int) -> Seq<Seq<char>> {
    Seq::new(i as nat, |k: int| s[k + 1].name@)
}

/// Frame `i` walks the listing of its folder, has made the entries that
/// folder's children up to its position should have, and its folder was not
/// in the cache.
pub open spec fn frame_faithful(
    fs: spec_fn(Seq<Seq<char>>) -> Option<Seq<RawEntry>>,
    cache0: Map<Seq<Seq<char>>, Seq<DiskEntry>>,
    bound: nat,
    s: Seq<ScanFrame>,
    i: int,
) -> bool {
    let p = path_to(s, i);
    &&& s[i].items@ == listing_of(fs, p)
    &&& same_entries(s[i].entries@, expected_entries(fs, cache0, bound, p, s[i].items@.take(s[i].next as int)))
    &&& !cache0.contains_key(p)
    &&& i <= bound
}

/// The walk agrees with the tree `fs` and the cache it started with:
/// `stored` holds what it handed over to be cached, each the listing its
/// folder should have; every frame is faithful; a root or child whose cache
/// lookup missed is remembered as not cached; a finishing walk holds the root's
/// listing.
pub open spec fn walk_faithful(
    fs: spec_fn(Seq<Seq<char>>) -> Option<Seq<RawEntry>>,
    cache0: Map<Seq<Seq<char>>, Seq<DiskEntry>>,
    bound: nat,
    stored: Map<Seq<Seq<char>>, Seq<DiskEntry>>,
    scan: FolderScan,
) -> bool {
    let s = scan.stack@;
    let root = Seq::<Seq<char>>::empty();
    &&& forall|q: Seq<Seq<char>>|
        #[trigger] stored.contains_key(q) ==> !cache0.contains_key(q) && same_entries(
            stored[q],
            expected_listing(fs, cache0, bound, q),
        )
    &&& forall|i: int| 0 <= i < s.len() ==> #[trigger] frame_faithful(fs, cache0, bound, s, i)
    &&& match scan.phase {
        ScanPhase::Start => stored == Map::<Seq<Seq<char>>, Seq<DiskEntry>>::empty(),
        ScanPhase::RootLookup => stored == Map::<Seq<Seq<char>>, Seq<DiskEntry>>::empty(),
        ScanPhase::RootListing => {
            &&& stored == Map::<Seq<Seq<char>>, Seq<DiskEntry>>::empty()
            &&& !cache0.contains_key(root)
        },
        ScanPhase::ChildEntered => !cache0.contains_key(child_path(s)),
        ScanPhase::ChildListing => !cache0.contains_key(child_path(s)),
        ScanPhase::Finishing(es) => {
            &&& same_entries(es@, expected_listing(fs, cache0, bound, root))
            &&& !cache0.contains_key(root)
        },
        _ => true,
    }
}

/// `event` is the cache's answer for the folder at `q`.
pub open spec fn lookup_answer(
    cache0: Map<Seq<Seq<char>>, Seq<DiskEntry>>,
    stored: Map<Seq<Seq<char>>, Seq<DiskEntry>>,
    q: Seq<Seq<char>>,
    event: ScanEvent,
) -> bool {
    event matches ScanEvent::Looked(x) && match x {
        Some(v) => (cache0.contains_key(q) && v@ == cache0[q]) || (!cache0.contains_key(q)
            && stored.contains_key(q) && v@ == stored[q]),
        None => !cache0.contains_key(q) && !stored.contains_key(q),
    }
}

/// `event` is the tree's listing of the folder at `q`.
pub open spec fn listing_answer(fs: spec_fn(Seq<Seq<char>>) -> Option<Seq<RawEntry>>, q: Seq<Seq<char>>, event: ScanEvent) -> bool {
    event matches ScanEvent::Listed(x) && match x {
        Some(v) => fs(q) == Some(v@),
        None => fs(q) is None,
    }
}

/// `event` answers what the walk asked for last, from the tree and the cache.
pub open spec fn answers(
    fs: spec_fn(Seq<Seq<char>>) -> Option<Seq<RawEntry>>,
    cache0: Map<Seq<Seq<char>>, Seq<DiskEntry>>,
    stored: Map<Seq<Seq<char>>, Seq<DiskEntry>>,
    scan: FolderScan,
    event: ScanEvent,
) -> bool {
    let root = Seq::<Seq<char>>::empty();
    match scan.phase {
        ScanPhase::Start => event is Begin,
        ScanPhase::RootLookup => lookup_answer(cache0, stored, root, event),
        ScanPhase::RootListing => listing_answer(fs, root, event),
        ScanPhase::ChildLookup => lookup_answer(cache0, stored, child_path(scan.stack@), event),
        ScanPhase::ChildListing => listing_answer(fs, child_path(scan.stack@), event),
        ScanPhase::Finished => false,
        _ => event is Continue,
    }
}

/// The cache's new listings after action `a`.
pub open spec fn stored_after(stored: Map<Seq<Seq<char>>, Seq<DiskEntry>>, a: ScanAction) -> Map<Seq<Seq<char>>, Seq<DiskEntry>> {
    match a {
        ScanAction::Store(p, _h, es) => stored.insert(names_view(p@), es@),
        _ => stored,
    }
}

/// Listings with the same sizes have the same total.
pub proof fn lemma_same_entries_total(a: Seq<DiskEntry>, b: Seq<DiskEntry>)
    requires
        same_entries(a, b),
    ensures
        sum_bytes(a) == sum_bytes(b),
    decreases a.len(),
{
    if a.len() > 0 {
        let (x, y) = (a.drop_last(), b.drop_last());
        assert forall|i: int| 0 <= i < x.len() implies (#[trigger] x[i]).name@ == (#[trigger] y[i]).name@
            && x[i].bytes == y[i].bytes && x[i].kind == y[i].kind by {
            assert(x[i] == a[i] && y[i] == b[i]);
        }
        lemma_same_entries_total(x, y);
        assert(a[a.len() - 1].bytes == b[b.len() - 1].bytes);
    }
}

/// The path of the folder on top of the stack is that of its frame.
proof fn lemma_frame_path_is_path_to(s: Seq<ScanFrame>)
    requires
        s.len() >= 1,
    ensures
        crate::scanner::frame_path(s) == path_to(s, s.len() - 1),
        child_path(s) == path_to(s, s.len() - 1).push(current_item(s).name@),
{
    assert(crate::scanner::frame_path(s) =~= path_to(s, s.len() - 1));
}

/// Frames below `m` that are unchanged stay faithful.
proof fn lemma_prefix_frames(
    fs: spec_fn(Seq<Seq<char>>) -> Option<Seq<RawEntry>>,
    cache0: Map<Seq<Seq<char>>, Seq<DiskEntry>>,
    bound: nat,
    s: Seq<ScanFrame>,
    t: Seq<ScanFrame>,
    m: int,
)
    requires
        0 <= m <= s.len(),
        m <= t.len(),
        t.take(m) == s.take(m),
        forall|i: int| 0 <= i < s.len() ==> #[trigger] frame_faithful(fs, cache0, bound, s, i),
    ensures
        forall|i: int| 0 <= i < m ==> #[trigger] frame_faithful(fs, cache0, bound, t, i),
{
    assert forall|i: int| 0 <= i < m implies #[trigger] frame_faithful(fs, cache0, bound, t, i) by {
        assert(t[i] == t.take(m)[i]);
        assert(path_to(t, i) =~= path_to(s, i)) by {
            assert forall|k: int| 0 <= k < i implies #[trigger] path_to(t, i)[k] == path_to(s, i)[k] by {
                assert(t[k + 1] == t.take(m)[k + 1]);
            }
        }
        assert(frame_faithful(fs, cache0, bound, s, i));
    }
}

/// The top frame, moved past its current child with `added` appended, stays
/// faithful when `added` is what that child should give.
proof fn lemma_advanced_top(
    fs: spec_fn(Seq<Seq<char>>) -> Option<Seq<RawEntry>>,
    cache0: Map<Seq<Seq<char>>, Seq<DiskEntry>>,
    bound: nat,
    s: Seq<ScanFrame>,
    t: Seq<ScanFrame>,
)
    requires
        s.len() >= 1,
        t.len() == s.len(),
        t.take(s.len() - 1) == s.take(s.len() - 1),
        forall|i: int| 0 <= i < s.len() ==> #[trigger] frame_faithful(fs, cache0, bound, s, i),
        s.last().next < s.last().items@.len(),
        t.last().name == s.last().name,
        t.last().items == s.last().items,
        t.last().next == s.last().next + 1,
        same_entries(
            t.last().entries@,
            expected_entries(
                fs,
                cache0,
                bound,
                path_to(s, s.len() - 1),
                s.last().items@.take(s.last().next + 1),
            ),
        ),
    ensures
        forall|i: int| 0 <= i < t.len() ==> #[trigger] frame_faithful(fs, cache0, bound, t, i),
{
    let d = s.len() as int;
    lemma_prefix_frames(fs, cache0, bound, s, t, d - 1);
    assert(path_to(t, d - 1) =~= path_to(s, d - 1)) by {
        assert forall|k: int| 0 <= k < d - 1 implies #[trigger] path_to(t, d - 1)[k] == path_to(s, d - 1)[k] by {
            if k + 1 < d - 1 {
                assert(t[k + 1] == t.take(d - 1)[k + 1]);
            }
        }
    }
    assert(frame_faithful(fs, cache0, bound, s, d - 1));
    assert forall|i: int| 0 <= i < t.len() implies #[trigger] frame_faithful(fs, cache0, bound, t, i) by {
        if i < d - 1 {
        } else {
            assert(i == d - 1);
        }
    }
}

/// The entries of one more child: those of the children before it, then what
/// that child gives.
proof fn lemma_expected_next(
    fs: spec_fn(Seq<Seq<char>>) -> Option<Seq<RawEntry>>,
    cache0: Map<Seq<Seq<char>>, Seq<DiskEntry>>,
    bound: nat,
    p: Seq<Seq<char>>,
    items: Seq<RawEntry>,
    n: int,
)
    requires
        0 <= n < items.len(),
    ensures
        items.take(n + 1).drop_last() == items.take(n),
        items.take(n + 1).last() == items[n],
        items[n].entry_type != EntryType::File && items[n].entry_type != EntryType::Dir ==> expected_entries(
            fs,
            cache0,
            bound,
            p,
            items.take(n + 1),
        ) == expected_entries(fs, cache0, bound, p, items.take(n)),
{
    assert(items.take(n + 1).drop_last() =~= items.take(n));
}

/// A walk step on `Continue` keeps the walk faithful.
proof fn lemma_walk_continue_faithful(
    fs: spec_fn(Seq<Seq<char>>) -> Option<Seq<RawEntry>>,
    cache0: Map<Seq<Seq<char>>, Seq<DiskEntry>>,
    bound: nat,
    stored: Map<Seq<Seq<char>>, Seq<DiskEntry>>,
    old: FolderScan,
    new: FolderScan,
    a: ScanAction,
)
    requires
        fs_bounded(fs, bound),
        old.wf(),
        old.phase is Walking,
        walk_faithful(fs, cache0, bound, stored, old),
        step_matches(old, ScanEvent::Continue, new, a),
    ensures
        walk_faithful(fs, cache0, bound, stored_after(stored, a), new),
{
    let s = old.stack@;
    let t = new.stack@;
    let d = s.len() as int;
    let f = s.last();
    let p = path_to(s, d - 1);
    let root = Seq::<Seq<char>>::empty();
    assert(frame_faithful(fs, cache0, bound, s, d - 1));
    assert(frame_ok(s, d - 1));
    if f.next < f.items@.len() {
        let item = current_item(s);
        lemma_expected_next(fs, cache0, bound, p, f.items@, f.next as int);
        match item.entry_type {
            EntryType::File => {
                let g = t.last();
                let e = g.entries@.last();
                assert(g.entries@ == f.entries@.push(e));
                let want = expected_entries(fs, cache0, bound, p, f.items@.take(f.next as int));
                assert(expected_entries(fs, cache0, bound, p, f.items@.take(f.next + 1)) == want.push(
                    DiskEntry { name: item.name, bytes: file_bytes(item), kind: EntryKind::File },
                ));
                assert(g.entries@.drop_last() == f.entries@);
                lemma_advanced_top(fs, cache0, bound, s, t);
            },
            EntryType::Dir => {
            },
            _ => {
                lemma_advanced_top(fs, cache0, bound, s, t);
            },
        }
    } else if d == 1 {
        assert(f.items@.take(f.next as int) == f.items@);
        assert(p == root);
        if let ScanAction::Store(q, _h, es) = a {
            assert(names_view(q@) == root);
            let st = stored.insert(root, es@);
            assert forall|k: Seq<Seq<char>>| #[trigger] st.contains_key(k) implies !cache0.contains_key(k)
                && same_entries(st[k], expected_listing(fs, cache0, bound, k)) by {
                if k != root {
                    assert(stored.contains_key(k));
                }
            }
        }
    } else {
        let pf = s[d - 2];
        let g = t.last();
        let e = g.entries@.last();
        assert(frame_faithful(fs, cache0, bound, s, d - 2));
        assert(frame_linked(s, d - 2));
        assert(f.items@.take(f.next as int) == f.items@);
        lemma_frame_path_is_path_to(s);
        let pp = path_to(s, d - 2);
        assert(pp.push(f.name@) =~= p);
        lemma_expected_next(fs, cache0, bound, pp, pf.items@, pf.next as int);
        lemma_same_entries_total(f.entries@, expected_listing(fs, cache0, bound, p));
        let want = expected_entries(fs, cache0, bound, pp, pf.items@.take(pf.next as int));
        let it = pf.items@[pf.next as int];
        assert(it.name@ == f.name@);
        assert(pp.push(it.name@) == p);
        assert(expected_entries(fs, cache0, bound, pp, pf.items@.take(pf.next + 1)) == want.push(
            DiskEntry { name: it.name, bytes: f.sum, kind: EntryKind::Folder },
        ));
        assert(g.entries@.drop_last() == pf.entries@);
        let s2 = s.drop_last();
        assert(s2.take(d - 1) =~= s.take(d - 1));
        assert forall|i: int| 0 <= i < s2.len() implies #[trigger] frame_faithful(fs, cache0, bound, s2, i) by {
            lemma_prefix_frames(fs, cache0, bound, s, s2, d - 1);
        }
        assert(s2.take(d - 2) == s.take(d - 2));
        assert(path_to(s2, d - 2) =~= pp);
        lemma_advanced_top(fs, cache0, bound, s2, t);
        if let ScanAction::Store(q, _h, es) = a {
            assert(names_view(q@) == p);
            let st = stored.insert(p, es@);
            assert forall|k: Seq<Seq<char>>| #[trigger] st.contains_key(k) implies !cache0.contains_key(k)
                && same_entries(st[k], expected_listing(fs, cache0, bound, k)) by {
                if k != p {
                    assert(stored.contains_key(k));
                }
            }
        }
    }
}

/// A child folder found in the cache counts with the cached listing's total,
/// which is the size it should have.
proof fn lemma_cached_child_faithful(
    fs: spec_fn(Seq<Seq<char>>) -> Option<Seq<RawEntry>>,
    cache0: Map<Seq<Seq<char>>, Seq<DiskEntry>>,
    bound: nat,
    stored: Map<Seq<Seq<char>>, Seq<DiskEntry>>,
    old: FolderScan,
    es: Vec<DiskEntry>,
    new: FolderScan,
    a: ScanAction,
)
    requires
        fs_bounded(fs, bound),
        old.wf(),
        old.fits(ScanEvent::Looked(Some(es))),
        old.phase is ChildLookup,
        walk_faithful(fs, cache0, bound, stored, old),
        answers(fs, cache0, stored, old, ScanEvent::Looked(Some(es))),
        step_matches(old, ScanEvent::Looked(Some(es)), new, a),
    ensures
        walk_faithful(fs, cache0, bound, stored_after(stored, a), new),
{
    let s = old.stack@;
    let t = new.stack@;
    let d = s.len() as int;
    let f = s.last();
    let p = path_to(s, d - 1);
    let item = current_item(s);
    let child = p.push(item.name@);
    assert(frame_faithful(fs, cache0, bound, s, d - 1));
    lemma_frame_path_is_path_to(s);
    assert(p.len() < bound) by {
        if p.len() >= bound {
            assert(listing_of(fs, p)[f.next as int].entry_type != EntryType::Dir);
        }
    }
    if !cache0.contains_key(child) {
        assert(stored.contains_key(child));
        lemma_same_entries_total(stored[child], expected_listing(fs, cache0, bound, child));
    }
    lemma_expected_next(fs, cache0, bound, p, f.items@, f.next as int);
    let g = t.last();
    let want = expected_entries(fs, cache0, bound, p, f.items@.take(f.next as int));
    assert(expected_entries(fs, cache0, bound, p, f.items@.take(f.next + 1)) == want.push(
        DiskEntry { name: item.name, bytes: sum_bytes(es@) as u64, kind: EntryKind::Folder },
    ));
    assert(g.entries@.drop_last() == f.entries@);
    lemma_advanced_top(fs, cache0, bound, s, t);
}

/// A child folder listed afresh gets a frame of its own, faithful from the start.
proof fn lemma_child_listed_faithful(
    fs: spec_fn(Seq<Seq<char>>) -> Option<Seq<RawEntry>>,
    cache0: Map<Seq<Seq<char>>, Seq<DiskEntry>>,
    bound: nat,
    stored: Map<Seq<Seq<char>>, Seq<DiskEntry>>,
    old: FolderScan,
    event: ScanEvent,
    new: FolderScan,
    a: ScanAction,
)
    requires
        fs_bounded(fs, bound),
        old.wf(),
        old.phase is ChildListing,
        walk_faithful(fs, cache0, bound, stored, old),
        answers(fs, cache0, stored, old, event),
        step_matches(old, event, new, a),
    ensures
        walk_faithful(fs, cache0, bound, stored_after(stored, a), new),
{
    let s = old.stack@;
    let t = new.stack@;
    let d = s.len() as int;
    let f = s.last();
    let p = path_to(s, d - 1);
    let item = current_item(s);
    assert(frame_faithful(fs, cache0, bound, s, d - 1));
    lemma_frame_path_is_path_to(s);
    assert(p.len() < bound) by {
        if p.len() >= bound {
            assert(listing_of(fs, p)[f.next as int].entry_type != EntryType::Dir);
        }
    }
    assert(s.take(d) =~= s);
    lemma_prefix_frames(fs, cache0, bound, s, t, d);
    assert(path_to(t, d) =~= child_path(s)) by {
        assert forall|k: int| 0 <= k < d implies #[trigger] path_to(t, d)[k] == child_path(s)[k] by {
            if k < d - 1 {
                assert(t[k + 1] == t.take(d)[k + 1]);
            }
        }
    }
    assert(t.last().items@.take(0) =~= Seq::<RawEntry>::empty());
    assert(frame_faithful(fs, cache0, bound, t, d));
    assert forall|i: int| 0 <= i < t.len() implies #[trigger] frame_faithful(fs, cache0, bound, t, i) by {
        if i < d {
        } else {
            assert(i == d);
        }
    }
}

/// The walk's invariant holds when the scan starts.
pub proof fn lemma_walk_faithful_at_start(
    fs: spec_fn(Seq<Seq<char>>) -> Option<Seq<RawEntry>>,
    cache0: Map<Seq<Seq<char>>, Seq<DiskEntry>>,
    bound: nat,
    scan: FolderScan,
)
    requires
        scan.wf(),
        scan.phase is Start,
    ensures
        walk_faithful(fs, cache0, bound, Map::empty(), scan),
{
}

/// Every step of a walk whose actions are answered from the file tree `fs`
/// and the cache keeps the walk faithful. So every listing handed over to be
/// cached is the one its folder should have (each folder's size being the
/// total of its listing, recursively, or of its cached listing); a scan that
/// ends returns the root's cached listing or else the listing the root should
/// have; and a scan fails only when the root is neither cached nor listable.
pub proof fn lemma_walk_step_faithful(
    fs: spec_fn(Seq<Seq<char>>) -> Option<Seq<RawEntry>>,
    cache0: Map<Seq<Seq<char>>, Seq<DiskEntry>>,
    bound: nat,
    stored: Map<Seq<Seq<char>>, Seq<DiskEntry>>,
    old: FolderScan,
    event: ScanEvent,
    new: FolderScan,
    a: ScanAction,
)
    requires
        fs_bounded(fs, bound),
        old.wf(),
        old.fits(event),
        walk_faithful(fs, cache0, bound, stored, old),
        answers(fs, cache0, stored, old, event),
        step_matches(old, event, new, a),
    ensures
        walk_faithful(fs, cache0, bound, stored_after(stored, a), new),
        a matches ScanAction::Done(es) ==> same_entries(es@, scan_result(fs, cache0, bound)),
        a is Failed ==> !cache0.contains_key(Seq::<Seq<char>>::empty()) && fs(Seq::<Seq<char>>::empty()) is None,
{
    let s = old.stack@;
    let t = new.stack@;
    let root = Seq::<Seq<char>>::empty();
    match old.phase {
        ScanPhase::Walking => {
            lemma_walk_continue_faithful(fs, cache0, bound, stored, old, new, a);
        },
        ScanPhase::ChildLookup => {
            if let ScanEvent::Looked(Some(es)) = event {
                lemma_cached_child_faithful(fs, cache0, bound, stored, old, es, new, a);
            }
        },
        ScanPhase::ChildListing => {
            lemma_child_listed_faithful(fs, cache0, bound, stored, old, event, new, a);
        },
        ScanPhase::RootListing => {
            if let ScanEvent::Listed(Some(items)) = event {
                assert(path_to(t, 0) =~= root);
                assert(t[0].items@.take(0) =~= Seq::<RawEntry>::empty());
                assert(frame_faithful(fs, cache0, bound, t, 0));
            }
        },
        ScanPhase::RootLookup => {
            if let ScanEvent::Looked(Some(es)) = event {
                assert(same_entries(es@, cache0[root]));
            }
        },
        ScanPhase::TopPending { .. } => {
        },
        ScanPhase::ChildEntered => {
        },
        ScanPhase::Finishing(es) => {
        },
        _ => {
        },
    }
}

/// The skeleton made from a listing before any size is known has the same
/// children, names and kinds, in the same order, as the scan makes from that
/// listing; only the sizes (all 0 in the skeleton) differ.
pub proof fn lemma_skeleton_matches_scan_entries(
    fs: spec_fn(Seq<Seq<char>>) -> Option<Seq<RawEntry>>,
    cache0: Map<Seq<Seq<char>>, Seq<DiskEntry>>,
    bound: nat,
    p: Seq<Seq<char>>,
    items: Seq<RawEntry>,
)
    ensures
        listed_children(items).len() == expected_entries(fs, cache0, bound, p, items).len(),
        forall|i: int|
            0 <= i < listed_children(items).len() ==> {
                let a = #[trigger] listed_children(items)[i];
                let b = expected_entries(fs, cache0, bound, p, items)[i];
                &&& a.name@ == b.name@
                &&& a.kind == b.kind
                &&& a.bytes == 0
            },
    decreases items.len(),
{
    if items.len() > 0 {
        lemma_skeleton_matches_scan_entries(fs, cache0, bound, p, items.drop_last());
        let x = listed_children(items.drop_last());
        let y = expected_entries(fs, cache0, bound, p, items.drop_last());
        assert forall|i: int| 0 <= i < listed_children(items).len() implies {
            let a = #[trigger] listed_children(items)[i];
            let b = expected_entries(fs, cache0, bound, p, items)[i];
            &&& a.name@ == b.name@
            &&& a.kind == b.kind
            &&& a.bytes == 0
        } by {
            if i < x.len() {
                assert(listed_children(items)[i] == x[i]);
                assert(expected_entries(fs, cache0, bound, p, items)[i] == y[i]);
            }
        }
    }
}

/// Entries the root's listing holds so far (those of a finishing walk once
/// the root frame is closed).
pub open spec fn root_count(scan: FolderScan) -> int {
    match scan.phase {
        ScanPhase::Finishing(es) => es@.len() as int,
        _ => if scan.stack@.len() > 0 {
            scan.stack@[0].entries@.len() as int
        } else {
            0
        },
    }
}

/// 1 when a child of the root has its size but is yet to be reported.
pub open spec fn pending_report(scan: FolderScan) -> int {
    if scan.phase is TopPending {
        1
    } else {
        0
    }
}

/// 1 when the action reports a child of the root.
pub open spec fn top_report(a: ScanAction) -> int {
    if a matches ScanAction::Report(ScanProgress::TopLevelDone { .. }) {
        1
    } else {
        0
    }
}

/// Each entry added to the root's listing is reported exactly once: at the
/// step that adds it, or at the next one when it is held pending. Summed over
/// a scan, the reports and the entries of the root's listing are as many.
pub proof fn lemma_one_report_per_root_entry(old: FolderScan, event: ScanEvent, new: FolderScan, a: ScanAction)
    requires
        old.wf(),
        step_matches(old, event, new, a),
        !(new.phase is Finished),
    ensures
        root_count(new) - root_count(old) == top_report(a) + pending_report(new) - pending_report(old),
{
    let s = old.stack@;
    let t = new.stack@;
    let d = s.len() as int;
    if d >= 2 && t.len() >= 1 {
        if t.len() >= 2 || d >= 3 {
            let m = if t.len() < d { t.len() - 1 } else { d - 1 };
            if m >= 1 && t.take(m) == s.take(m) {
                assert(t[0] == t.take(m)[0]);
                assert(s[0] == s.take(m)[0]);
            }
        }
    }
    if d >= 1 && t.len() > d {
        if t.take(d) == s {
            assert(t[0] == t.take(d)[0]);
        }
    }
}

/// A folder is entered only when neither it nor any folder above it (below
/// the root) is cached: nothing inside a cached subtree is walked again.
pub proof fn lemma_entered_only_outside_the_cache(
    fs: spec_fn(Seq<Seq<char>>) -> Option<Seq<RawEntry>>,
    cache0: Map<Seq<Seq<char>>, Seq<DiskEntry>>,
    bound: nat,
    stored: Map<Seq<Seq<char>>, Seq<DiskEntry>>,
    old: FolderScan,
    event: ScanEvent,
    new: FolderScan,
    a: ScanAction,
)
    requires
        old.wf(),
        walk_faithful(fs, cache0, bound, stored, old),
        answers(fs, cache0, stored, old, event),
        step_matches(old, event, new, a),
    ensures
        a matches ScanAction::Report(ScanProgress::Entered(p, _h)) ==> {
            &&& !stored.contains_key(names_view(p@))
            &&& forall|k: int| 0 <= k <= p@.len() ==> !cache0.contains_key(#[trigger] names_view(p@).take(k))
        },
{
    if let ScanAction::Report(ScanProgress::Entered(p, _h)) = a {
        let s = old.stack@;
        let q = names_view(p@);
        if old.phase is ChildLookup {
            let d = s.len() as int;
            lemma_frame_path_is_path_to(s);
            assert(q == child_path(s));
            assert(q.len() == p@.len());
            assert(q.len() == d);
            assert forall|k: int| 0 <= k <= p@.len() implies !cache0.contains_key(#[trigger] names_view(p@).take(k)) by {
                if k < p@.len() {
                    assert forall|j: int| 0 <= j < k implies #[trigger] q.take(k)[j] == path_to(s, k)[j] by {
                        assert(q[j] == path_to(s, d - 1)[j]);
                    }
                    assert(q.take(k) =~= path_to(s, k));
                    assert(frame_faithful(fs, cache0, bound, s, k));
                } else {
                    assert(q.take(k) =~= q);
                }
            }
        } else {
            assert forall|k: int| 0 <= k <= p@.len() implies !cache0.contains_key(#[trigger] names_view(p@).take(k)) by {
                assert(q.take(k) =~= Seq::<Seq<char>>::empty());
            }
        }
    }
}

/// Steps the walk can still spend on the children `items` of the folder at
/// `p`: one per child, two more per folder, plus the steps of that folder's
/// own listing.
pub open spec fn tree_size(
    fs: spec_fn(Seq<Seq<char>>) -> Option<Seq<RawEntry>>,
    bound: nat,
    p: Seq<Seq<char>>,
    items: Seq<RawEntry>,
) -> nat
    decreases bound - p.len(), items.len(),
{
    if items.len() == 0 {
        0
    } else {
        let it = items[0];
        let here: nat = if it.entry_type == EntryType::Dir {
            if p.len() < bound {
                2 + tree_size(fs, bound, p.push(it.name@), listing_of(fs, p.push(it.name@)))
            } else {
                2
            }
        } else {
            1
        };
        here + tree_size(fs, bound, p, items.drop_first())
    }
}

/// What frame `i` still has to walk, closing it included: from its current
/// child on for the top frame, from the child after it for a frame with a
/// child frame open above it.
pub open spec fn frame_rem(
    fs: spec_fn(Seq<Seq<char>>) -> Option<Seq<RawEntry>>,
    bound: nat,
    s: Seq<ScanFrame>,
    i: int,
    top: bool,
) -> nat {
    let f = s[i];
    let from = if top {
        f.next as int
    } else {
        f.next + 1
    };
    tree_size(fs, bound, path_to(s, i), f.items@.skip(from)) + 1
}

/// What the first `k` frames still have to walk, each with a child frame open.
pub open spec fn stack_work(
    fs: spec_fn(Seq<Seq<char>>) -> Option<Seq<RawEntry>>,
    bound: nat,
    s: Seq<ScanFrame>,
    k: int,
) -> nat
    decreases k,
{
    if k <= 0 {
        0
    } else {
        stack_work(fs, bound, s, k - 1) + frame_rem(fs, bound, s, k - 1, false)
    }
}

/// What the whole stack still has to walk.
pub open spec fn work(fs: spec_fn(Seq<Seq<char>>) -> Option<Seq<RawEntry>>, bound: nat, s: Seq<ScanFrame>) -> nat {
    if s.len() == 0 {
        0
    } else {
        stack_work(fs, bound, s, s.len() - 1) + frame_rem(fs, bound, s, s.len() - 1, true)
    }
}

/// A measure of what a scan of the tree `fs` has left to do.
pub open spec fn walk_measure(fs: spec_fn(Seq<Seq<char>>) -> Option<Seq<RawEntry>>, bound: nat, scan: FolderScan) -> nat {
    let t = tree_size(fs, bound, Seq::empty(), listing_of(fs, Seq::empty()));
    let w = work(fs, bound, scan.stack@);
    match scan.phase {
        ScanPhase::Start => 8 * (t + 2) + 3,
        ScanPhase::RootLookup => 8 * (t + 2) + 2,
        ScanPhase::RootListing => 8 * (t + 2) + 1,
        ScanPhase::Walking => 8 * w + 3,
        ScanPhase::TopPending { .. } => 8 * w + 4,
        ScanPhase::ChildLookup => 8 * w + 2,
        ScanPhase::ChildEntered => 8 * w + 1,
        ScanPhase::ChildListing => 8 * w,
        ScanPhase::Finishing(_) => 1,
        ScanPhase::Finished => 0,
    }
}

/// The steps of the children from position `n` on: those of child `n`, then
/// those of the rest.
proof fn lemma_tree_size_skip(
    fs: spec_fn(Seq<Seq<char>>) -> Option<Seq<RawEntry>>,
    bound: nat,
    p: Seq<Seq<char>>,
    items: Seq<RawEntry>,
    n: int,
)
    requires
        0 <= n < items.len(),
    ensures
        tree_size(fs, bound, p, items.skip(n)) == tree_size(fs, bound, p, items.skip(n + 1)) + if items[n].entry_type
            == EntryType::Dir {
            if p.len() < bound {
                2 + tree_size(fs, bound, p.push(items[n].name@), listing_of(fs, p.push(items[n].name@)))
            } else {
                2
            }
        } else {
            1
        },
{
    assert(items.skip(n).drop_first() =~= items.skip(n + 1));
    assert(items.skip(n)[0] == items[n]);
}

/// Frames below `m` that are unchanged still have as much to walk.
proof fn lemma_stack_work_prefix(
    fs: spec_fn(Seq<Seq<char>>) -> Option<Seq<RawEntry>>,
    bound: nat,
    s: Seq<ScanFrame>,
    t: Seq<ScanFrame>,
    m: int,
    k: int,
)
    requires
        0 <= k <= m,
        m <= s.len(),
        m <= t.len(),
        t.take(m) == s.take(m),
    ensures
        stack_work(fs, bound, t, k) == stack_work(fs, bound, s, k),
    decreases k,
{
    if k > 0 {
        lemma_stack_work_prefix(fs, bound, s, t, m, k - 1);
        let i = k - 1;
        assert(t[i] == t.take(m)[i]);
        assert(s[i] == s.take(m)[i]);
        assert(path_to(t, i) =~= path_to(s, i)) by {
            assert forall|j: int| 0 <= j < i implies #[trigger] path_to(t, i)[j] == path_to(s, i)[j] by {
                assert(t[j + 1] == t.take(m)[j + 1]);
                assert(s[j + 1] == s.take(m)[j + 1]);
            }
        }
    }
}

/// The top frame keeps its path when only its position and entries change.
proof fn lemma_top_path_kept(s: Seq<ScanFrame>, t: Seq<ScanFrame>, m: int)
    requires
        0 <= m,
        m + 1 == s.len(),
        m + 1 <= t.len(),
        t.take(m) == s.take(m),
        t[m].name == s[m].name,
    ensures
        path_to(t, m) == path_to(s, m),
{
    assert forall|j: int| 0 <= j < m implies #[trigger] path_to(t, m)[j] == path_to(s, m)[j] by {
        if j + 1 < m {
            assert(t[j + 1] == t.take(m)[j + 1]);
            assert(s[j + 1] == s.take(m)[j + 1]);
        }
    }
    assert(path_to(t, m) =~= path_to(s, m));
}

/// On a tree no deeper than `bound` whose listings and cache answer the walk,
/// every step that does not end the scan lowers `walk_measure`, a natural
/// number: every such scan ends, with `Done` or `Failed`.
pub proof fn lemma_walk_step_progresses(
    fs: spec_fn(Seq<Seq<char>>) -> Option<Seq<RawEntry>>,
    cache0: Map<Seq<Seq<char>>, Seq<DiskEntry>>,
    bound: nat,
    stored: Map<Seq<Seq<char>>, Seq<DiskEntry>>,
    old: FolderScan,
    event: ScanEvent,
    new: FolderScan,
    a: ScanAction,
)
    requires
        fs_bounded(fs, bound),
        old.wf(),
        walk_faithful(fs, cache0, bound, stored, old),
        answers(fs, cache0, stored, old, event),
        step_matches(old, event, new, a),
    ensures
        a is Done || a is Failed || walk_measure(fs, bound, new) < walk_measure(fs, bound, old),
{
    let s = old.stack@;
    let t = new.stack@;
    let d = s.len() as int;
    let root = Seq::<Seq<char>>::empty();
    match old.phase {
        ScanPhase::RootListing => {
            if let ScanEvent::Listed(Some(items)) = event {
                assert(t[0].items@.skip(0) =~= t[0].items@);
                assert(path_to(t, 0) =~= root);
                assert(work(fs, bound, t) == tree_size(fs, bound, root, listing_of(fs, root)) + 1);
            }
        },
        ScanPhase::Walking => {
            let f = s.last();
            let p = path_to(s, d - 1);
            if f.next < f.items@.len() {
                lemma_tree_size_skip(fs, bound, p, f.items@, f.next as int);
                if current_item(s).entry_type != EntryType::Dir {
                    lemma_stack_work_prefix(fs, bound, s, t, d - 1, d - 1);
                    lemma_top_path_kept(s, t, d - 1);
                }
            } else if d >= 2 {
                let pf = s[d - 2];
                assert(frame_ok(s, d - 1));
                assert(f.items@.skip(f.next as int) =~= Seq::<RawEntry>::empty());
                let s2 = s.drop_last();
                assert(s2.take(d - 2) =~= s.take(d - 2));
                lemma_stack_work_prefix(fs, bound, s, t, d - 2, d - 2);
                lemma_top_path_kept(s2, t, d - 2);
                assert(path_to(s2, d - 2) =~= path_to(s, d - 2));
                assert(t.last().items@.skip(t.last().next as int) == pf.items@.skip(pf.next + 1));
            }
        },
        ScanPhase::ChildLookup => {
            if let ScanEvent::Looked(Some(es)) = event {
                let f = s.last();
                let p = path_to(s, d - 1);
                lemma_tree_size_skip(fs, bound, p, f.items@, f.next as int);
                lemma_stack_work_prefix(fs, bound, s, t, d - 1, d - 1);
                lemma_top_path_kept(s, t, d - 1);
            }
        },
        ScanPhase::ChildListing => {
            let f = s.last();
            let p = path_to(s, d - 1);
            let item = current_item(s);
            assert(frame_faithful(fs, cache0, bound, s, d - 1));
            assert(p.len() < bound) by {
                if p.len() >= bound {
                    assert(listing_of(fs, p)[f.next as int].entry_type != EntryType::Dir);
                }
            }
            lemma_tree_size_skip(fs, bound, p, f.items@, f.next as int);
            lemma_frame_path_is_path_to(s);
            assert(s.take(d) =~= s);
            lemma_stack_work_prefix(fs, bound, s, t, d, d - 1);
            assert(t[d - 1] == t.take(d)[d - 1]);
            lemma_stack_work_prefix(fs, bound, s, t, d, d - 1);
            assert(path_to(t, d - 1) =~= p) by {
                assert forall|j: int| 0 <= j < d - 1 implies #[trigger] path_to(t, d - 1)[j] == p[j] by {
                    assert(t[j + 1] == t.take(d)[j + 1]);
                }
            }
            assert(path_to(t, d) =~= p.push(item.name@)) by {
                assert forall|j: int| 0 <= j < d implies #[trigger] path_to(t, d)[j] == p.push(item.name@)[j] by {
                    if j < d - 1 {
                        assert(t[j + 1] == t.take(d)[j + 1]);
                    }
                }
            }
            assert(t.last().items@ == listing_of(fs, p.push(item.name@)));
            assert(t.last().items@.skip(0) =~= t.last().items@);
            assert(stack_work(fs, bound, t, d) == stack_work(fs, bound, t, d - 1) + frame_rem(fs, bound, t, d - 1, false));
        },
        _ => {
        },
    }
}

} // verus!
