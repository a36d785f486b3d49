//! The pruner: which directories to inspect, in which order, and which of
//! them a tree leaves empty.

use crate::collect::{clone_path, entry_views, Entry, EntryKind, EntryView};
use crate::filters::{lemma_filter_all, lemma_filter_push};
use vstd::prelude::*;

verus! {

/// The paths of the directories of a walk, in the order of the walk.
pub open spec fn directories(entries: Seq<EntryView>) -> Seq<Seq<Seq<char>>> {
    entries.filter(|e: EntryView| e.kind == EntryKind::Directory).map_values(
        |e: EntryView| e.path,
    )
}

/// The paths of `dirs` that have `d` components, in their order.
pub open spec fn at_depth(dirs: Seq<Seq<Seq<char>>>, d: nat) -> Seq<Seq<Seq<char>>> {
    dirs.filter(|p: Seq<Seq<char>>| p.len() == d)
}

/// The paths of `dirs` with at most `d` components: those with `d` first,
/// then those with one less, and so on; within one depth, in their order.
pub open spec fn deepest_first(dirs: Seq<Seq<Seq<char>>>, d: nat) -> Seq<Seq<Seq<char>>>
    decreases d,
{
    if d == 0 {
        at_depth(dirs, 0)
    } else {
        at_depth(dirs, d) + deepest_first(dirs, (d - 1) as nat)
    }
}

/// The greatest number of components among `dirs`.
pub open spec fn max_depth(dirs: Seq<Seq<Seq<char>>>) -> nat
    decreases dirs.len(),
{
    if dirs.len() == 0 {
        0
    } else if dirs.last().len() > max_depth(dirs.drop_last()) {
        dirs.last().len()
    } else {
        max_depth(dirs.drop_last())
    }
}

/// The order in which directories are inspected: all of them, the deepest
/// first, those of equal depth in the order in which they were found.
pub open spec fn prune_sequence(dirs: Seq<Seq<Seq<char>>>) -> Seq<Seq<Seq<char>>> {
    deepest_first(dirs, max_depth(dirs))
}

/// `path` lies in `dir` or in a directory below it.
pub open spec fn lies_below(path: Seq<Seq<char>>, dir: Seq<Seq<char>>) -> bool {
    path.len() > dir.len() && path.take(dir.len() as int) == dir
}

/// `e` is no directory and lies below `dir`: it keeps `dir` from being
/// removed.
pub open spec fn is_leftover_in(e: EntryView, dir: Seq<Seq<char>>) -> bool {
    e.kind != EntryKind::Directory && lies_below(e.path, dir)
}

/// Something other than directories lies below `dir`.
pub open spec fn holds_leftover(entries: Seq<EntryView>, dir: Seq<Seq<char>>) -> bool {
    exists|i: int| 0 <= i < entries.len() && is_leftover_in(#[trigger] entries[i], dir)
}

/// The directories that a tree leaves to remove, in the order of their
/// removal: those below which nothing but directories lies.
pub open spec fn removals(entries: Seq<EntryView>) -> Seq<Seq<Seq<char>>> {
    prune_sequence(directories(entries)).filter(
        |d: Seq<Seq<char>>| !holds_leftover(entries, d),
    )
}

/// No path has more components than `max_depth` says.
pub proof fn lemma_max_depth_bounds(dirs: Seq<Seq<Seq<char>>>, k: int)
    requires
        0 <= k < dirs.len(),
    ensures
        dirs[k].len() <= max_depth(dirs),
    decreases dirs.len(),
{
    if k < dirs.len() - 1 {
        lemma_max_depth_bounds(dirs.drop_last(), k);
    }
}

/// What `deepest_first` lists comes from `dirs` and is no deeper than asked.
pub proof fn lemma_deepest_first_members(dirs: Seq<Seq<Seq<char>>>, d: nat, i: int)
    requires
        0 <= i < deepest_first(dirs, d).len(),
    ensures
        deepest_first(dirs, d)[i].len() <= d,
        dirs.contains(deepest_first(dirs, d)[i]),
    decreases d,
{
    let keep = |p: Seq<Seq<char>>| p.len() == d;
    let head = at_depth(dirs, d);
    if i < head.len() {
        dirs.lemma_filter_pred(keep, i);
        assert(head.contains(head[i]));
        dirs.lemma_filter_contains_rev(keep, head[i]);
    } else {
        lemma_deepest_first_members(dirs, (d - 1) as nat, i - head.len());
    }
}

/// `deepest_first` lists every path of `dirs` that is no deeper than asked.
pub proof fn lemma_deepest_first_complete(dirs: Seq<Seq<Seq<char>>>, d: nat, k: int)
    requires
        0 <= k < dirs.len(),
        dirs[k].len() <= d,
    ensures
        deepest_first(dirs, d).contains(dirs[k]),
    decreases d,
{
    let keep = |p: Seq<Seq<char>>| p.len() == d;
    let head = at_depth(dirs, d);
    let all = deepest_first(dirs, d);
    if dirs[k].len() == d {
        dirs.lemma_filter_contains(keep, k);
        let i = choose|i: int| 0 <= i < head.len() && head[i] == dirs[k];
        assert(all[i] == dirs[k]);
    } else {
        lemma_deepest_first_complete(dirs, (d - 1) as nat, k);
        let rest = deepest_first(dirs, (d - 1) as nat);
        let i = choose|i: int| 0 <= i < rest.len() && rest[i] == dirs[k];
        assert(all[head.len() + i] == dirs[k]);
    }
}

/// In `deepest_first`, no path stands before a deeper one.
pub proof fn lemma_deepest_first_sorted(dirs: Seq<Seq<Seq<char>>>, d: nat, i: int, j: int)
    requires
        0 <= i < j < deepest_first(dirs, d).len(),
    ensures
        deepest_first(dirs, d)[i].len() >= deepest_first(dirs, d)[j].len(),
    decreases d,
{
    let keep = |p: Seq<Seq<char>>| p.len() == d;
    let head = at_depth(dirs, d);
    if j < head.len() {
        dirs.lemma_filter_pred(keep, i);
        dirs.lemma_filter_pred(keep, j);
    } else if i < head.len() {
        dirs.lemma_filter_pred(keep, i);
        lemma_deepest_first_members(dirs, (d - 1) as nat, j - head.len());
    } else {
        lemma_deepest_first_sorted(dirs, (d - 1) as nat, i - head.len(), j - head.len());
    }
}

/// The order of inspection holds the directories that were found and no
/// others, and a directory stands in it before every directory that it lies
/// below: when a directory is inspected, whatever was to leave it has left.
pub proof fn lemma_prune_sequence(dirs: Seq<Seq<Seq<char>>>)
    ensures
        forall|k: int| 0 <= k < dirs.len() ==> prune_sequence(dirs).contains(#[trigger] dirs[k]),
        forall|i: int|
            0 <= i < prune_sequence(dirs).len() ==> dirs.contains(#[trigger] prune_sequence(dirs)[i]),
        forall|i: int, j: int|
            0 <= i < j < prune_sequence(dirs).len() ==> (#[trigger] prune_sequence(dirs)[i]).len()
                >= (#[trigger] prune_sequence(dirs)[j]).len(),
        forall|i: int, j: int|
            0 <= i < prune_sequence(dirs).len() && 0 <= j < prune_sequence(dirs).len()
                && lies_below(#[trigger] prune_sequence(dirs)[i], #[trigger] prune_sequence(dirs)[j])
                ==> i < j,
{
    let top = max_depth(dirs);
    let order = prune_sequence(dirs);
    assert forall|k: int| 0 <= k < dirs.len() implies order.contains(#[trigger] dirs[k]) by {
        lemma_max_depth_bounds(dirs, k);
        lemma_deepest_first_complete(dirs, top, k);
    }
    assert forall|i: int| 0 <= i < order.len() implies dirs.contains(#[trigger] order[i]) by {
        lemma_deepest_first_members(dirs, top, i);
    }
    assert forall|i: int, j: int| 0 <= i < j < order.len() implies (#[trigger] order[i]).len() >= (
    #[trigger] order[j]).len() by {
        lemma_deepest_first_sorted(dirs, top, i, j);
    }
    assert forall|i: int, j: int|
        0 <= i < order.len() && 0 <= j < order.len() && lies_below(
            #[trigger] order[i],
            #[trigger] order[j],
        ) implies i < j by {
        if j < i {
            lemma_deepest_first_sorted(dirs, top, j, i);
        }
    }
}

/// A directory of the tree is listed for removal if and only if nothing but
/// directories lies below it: one that holds only directories, which hold
/// only directories in turn, goes; one with a file anywhere below it stays.
pub proof fn lemma_removals_iff(entries: Seq<EntryView>, k: int)
    requires
        0 <= k < entries.len(),
        entries[k].kind == EntryKind::Directory,
    ensures
        removals(entries).contains(entries[k].path) <==> !holds_leftover(entries, entries[k].path),
{
    let is_dir = |e: EntryView| e.kind == EntryKind::Directory;
    let keep = |d: Seq<Seq<char>>| !holds_leftover(entries, d);
    let dirs = directories(entries);
    let order = prune_sequence(dirs);
    let d = entries[k].path;
    entries.lemma_filter_contains(is_dir, k);
    let n = choose|n: int|
        0 <= n < entries.filter(is_dir).len() && entries.filter(is_dir)[n] == entries[k];
    assert(dirs[n] == d);
    lemma_prune_sequence(dirs);
    let m = choose|m: int| 0 <= m < order.len() && order[m] == d;
    if keep(d) {
        order.lemma_filter_contains(keep, m);
    }
    if removals(entries).contains(d) {
        let r = choose|r: int| 0 <= r < removals(entries).len() && removals(entries)[r] == d;
        order.lemma_filter_pred(keep, r);
    }
}

/// The paths of `dirs` that have at most `d` components, in their order.
pub open spec fn up_to_depth(dirs: Seq<Seq<Seq<char>>>, d: nat) -> Seq<Seq<Seq<char>>> {
    dirs.filter(|p: Seq<Seq<char>>| p.len() <= d)
}

/// The paths of one depth and the shallower ones are together the paths up
/// to that depth.
pub proof fn lemma_depth_count(dirs: Seq<Seq<Seq<char>>>, d: nat)
    requires
        d >= 1,
    ensures
        at_depth(dirs, d).len() + up_to_depth(dirs, (d - 1) as nat).len() == up_to_depth(
            dirs,
            d,
        ).len(),
    decreases dirs.len(),
{
    let below = (d - 1) as nat;
    if dirs.len() == 0 {
        dirs.lemma_filter_len(|p: Seq<Seq<char>>| p.len() == d);
        dirs.lemma_filter_len(|p: Seq<Seq<char>>| p.len() <= below);
        dirs.lemma_filter_len(|p: Seq<Seq<char>>| p.len() <= d);
    } else {
        let init = dirs.drop_last();
        let p = dirs.last();
        assert(init.push(p) =~= dirs);
        lemma_depth_count(init, d);
        lemma_filter_push(init, p, |p: Seq<Seq<char>>| p.len() == d);
        lemma_filter_push(init, p, |p: Seq<Seq<char>>| p.len() <= below);
        lemma_filter_push(init, p, |p: Seq<Seq<char>>| p.len() <= d);
    }
}

/// `deepest_first` lists as many paths as `dirs` holds up to that depth.
pub proof fn lemma_deepest_first_len(dirs: Seq<Seq<Seq<char>>>, d: nat)
    ensures
        deepest_first(dirs, d).len() == up_to_depth(dirs, d).len(),
    decreases d,
{
    if d == 0 {
        assert(at_depth(dirs, 0) =~= up_to_depth(dirs, 0)) by {
            assert((|p: Seq<Seq<char>>| p.len() == 0nat) =~= (|p: Seq<Seq<char>>| p.len() <= 0nat));
        }
    } else {
        lemma_deepest_first_len(dirs, (d - 1) as nat);
        lemma_depth_count(dirs, d);
    }
}

/// The order of inspection lists each directory as often as it was found:
/// none is left out and none is added.
pub proof fn lemma_prune_sequence_len(dirs: Seq<Seq<Seq<char>>>)
    ensures
        prune_sequence(dirs).len() == dirs.len(),
{
    let top = max_depth(dirs);
    lemma_deepest_first_len(dirs, top);
    assert forall|k: int| 0 <= k < dirs.len() implies (#[trigger] dirs[k]).len() <= top by {
        lemma_max_depth_bounds(dirs, k);
    }
    lemma_filter_all(dirs, |p: Seq<Seq<char>>| p.len() <= top);
}

/// `path` lies directly in `dir`.
pub open spec fn lies_in(path: Seq<Seq<char>>, dir: Seq<Seq<char>>) -> bool {
    path.len() == dir.len() + 1 && path.take(dir.len() as int) == dir
}

/// `e` is the directory at `path`.
pub open spec fn is_directory_at(e: EntryView, path: Seq<Seq<char>>) -> bool {
    e.kind == EntryKind::Directory && e.path == path
}

/// The entries hold a directory at `path`.
pub open spec fn has_directory(entries: Seq<EntryView>, path: Seq<Seq<char>>) -> bool {
    exists|j: int| 0 <= j < entries.len() && is_directory_at(#[trigger] entries[j], path)
}

/// The entries are those of a whole tree: whatever does not lie in the root
/// lies in a directory that is among them.
pub open spec fn is_tree(entries: Seq<EntryView>) -> bool {
    forall|i: int|
        0 <= i < entries.len() && (#[trigger] entries[i]).path.len() >= 2 ==> has_directory(
            entries,
            entries[i].path.drop_last(),
        )
}

/// An inspection finds `dir` empty once the directories in `gone` are
/// removed: whatever lay in it was a directory and is gone.
pub open spec fn found_empty(
    entries: Seq<EntryView>,
    gone: Set<Seq<Seq<char>>>,
    dir: Seq<Seq<char>>,
) -> bool {
    forall|i: int|
        0 <= i < entries.len() && lies_in((#[trigger] entries[i]).path, dir) ==> entries[i].kind
            == EntryKind::Directory && gone.contains(entries[i].path)
}

/// The directories that are gone after the first `n` of `order` were
/// inspected in turn, each removed if it was found empty.
pub open spec fn gone_after(entries: Seq<EntryView>, order: Seq<Seq<Seq<char>>>, n: nat) -> Set<
    Seq<Seq<char>>,
>
    decreases n,
{
    if n == 0 {
        Set::empty()
    } else {
        let before = gone_after(entries, order, (n - 1) as nat);
        if found_empty(entries, before, order[n - 1]) {
            before.insert(order[n - 1])
        } else {
            before
        }
    }
}

/// `path` is among the first `n` of `order`, and nothing but directories
/// lies below it.
pub open spec fn listed_before(
    entries: Seq<EntryView>,
    order: Seq<Seq<Seq<char>>>,
    n: nat,
    path: Seq<Seq<char>>,
) -> bool {
    exists|m: int| 0 <= m < n && #[trigger] order[m] == path && !holds_leftover(entries, path)
}

/// What lies below a path lies below every path above that one.
pub proof fn lemma_below_transitive(p: Seq<Seq<char>>, mid: Seq<Seq<char>>, dir: Seq<Seq<char>>)
    requires
        lies_below(p, mid),
        lies_below(mid, dir) || lies_in(mid, dir),
    ensures
        lies_below(p, dir),
{
    assert(p.take(dir.len() as int) =~= p.take(mid.len() as int).take(dir.len() as int));
}

/// In a whole tree, every proper prefix of an entry's path is a directory
/// of the tree.
pub proof fn lemma_ancestor(entries: Seq<EntryView>, i: int, len: int)
    requires
        is_tree(entries),
        0 <= i < entries.len(),
        1 <= len < entries[i].path.len(),
    ensures
        has_directory(entries, entries[i].path.take(len)),
    decreases entries[i].path.len(),
{
    let p = entries[i].path;
    assert(has_directory(entries, p.drop_last()));
    let j = choose|j: int| 0 <= j < entries.len() && is_directory_at(#[trigger] entries[j], p.drop_last());
    if len == p.len() - 1 {
        assert(p.take(len) =~= p.drop_last());
    } else {
        lemma_ancestor(entries, j, len);
        assert(entries[j].path.take(len) =~= p.take(len));
    }
}

/// Where the inspections so far removed what they should, the next one
/// finds its directory empty if and only if nothing but directories lies
/// below it.
proof fn lemma_inspection_step(entries: Seq<EntryView>, n: nat)
    requires
        is_tree(entries),
        n < prune_sequence(directories(entries)).len(),
        forall|p: Seq<Seq<char>>|
            gone_after(entries, prune_sequence(directories(entries)), n).contains(p)
                <==> listed_before(entries, prune_sequence(directories(entries)), n, p),
    ensures
        found_empty(
            entries,
            gone_after(entries, prune_sequence(directories(entries)), n),
            prune_sequence(directories(entries))[n as int],
        ) <==> !holds_leftover(entries, prune_sequence(directories(entries))[n as int]),
{
    let is_dir = |e: EntryView| e.kind == EntryKind::Directory;
    let dirs = directories(entries);
    let order = prune_sequence(dirs);
    let gone = gone_after(entries, order, n);
    let d = order[n as int];
    lemma_prune_sequence(dirs);
    if !holds_leftover(entries, d) {
        assert forall|i: int|
            0 <= i < entries.len() && lies_in((#[trigger] entries[i]).path, d) implies entries[i].kind
            == EntryKind::Directory && gone.contains(entries[i].path) by {
            let c = entries[i].path;
            assert(lies_below(c, d));
            assert(!is_leftover_in(entries[i], d));
            entries.lemma_filter_contains(is_dir, i);
            let x = choose|x: int|
                0 <= x < entries.filter(is_dir).len() && entries.filter(is_dir)[x] == entries[i];
            assert(dirs[x] == c);
            assert(order.contains(dirs[x]));
            let m = choose|m: int| 0 <= m < order.len() && order[m] == c;
            if m > n {
                assert(order[n as int].len() >= order[m].len());
            }
            assert(m < n);
            if holds_leftover(entries, c) {
                let w = choose|w: int|
                    0 <= w < entries.len() && is_leftover_in(#[trigger] entries[w], c);
                lemma_below_transitive(entries[w].path, c, d);
                assert(is_leftover_in(entries[w], d));
            }
            assert(listed_before(entries, order, n, c));
        }
    }
    if found_empty(entries, gone, d) && holds_leftover(entries, d) {
        let w = choose|w: int| 0 <= w < entries.len() && is_leftover_in(#[trigger] entries[w], d);
        let p = entries[w].path;
        let a = p.take(d.len() as int + 1);
        if p.len() == d.len() + 1 {
            assert(lies_in(p, d));
        } else {
            lemma_ancestor(entries, w, d.len() as int + 1);
            let j = choose|j: int| 0 <= j < entries.len() && is_directory_at(#[trigger] entries[j], a);
            assert(a.take(d.len() as int) =~= p.take(d.len() as int));
            assert(lies_in(entries[j].path, d));
            assert(gone.contains(a));
            assert(listed_before(entries, order, n, a));
            assert(p.take(a.len() as int) =~= a);
            assert(is_leftover_in(entries[w], a));
        }
    }
}

/// In a whole tree, inspecting the directories in their order goes right
/// at every step: after `n` inspections, exactly those of the first `n`
/// directories are gone below which nothing but directories lay.
pub proof fn lemma_inspections(entries: Seq<EntryView>, n: nat)
    requires
        is_tree(entries),
        n <= prune_sequence(directories(entries)).len(),
    ensures
        forall|p: Seq<Seq<char>>|
            gone_after(entries, prune_sequence(directories(entries)), n).contains(p)
                <==> listed_before(entries, prune_sequence(directories(entries)), n, p),
    decreases n,
{
    let order = prune_sequence(directories(entries));
    let gone = gone_after(entries, order, n);
    if n > 0 {
        let before = (n - 1) as nat;
        let prev = gone_after(entries, order, before);
        let last = order[n - 1];
        lemma_inspections(entries, before);
        lemma_inspection_step(entries, before);
        assert forall|p: Seq<Seq<char>>| gone.contains(p) <==> listed_before(
            entries,
            order,
            n,
            p,
        ) by {
            if gone.contains(p) {
                if prev.contains(p) {
                    assert(listed_before(entries, order, before, p));
                    let m = choose|m: int|
                        0 <= m < before && #[trigger] order[m] == p && !holds_leftover(entries, p);
                    assert(0 <= m < n && order[m] == p);
                } else {
                    assert(order[n - 1] == p);
                }
            }
            if listed_before(entries, order, n, p) {
                let m = choose|m: int|
                    0 <= m < n && #[trigger] order[m] == p && !holds_leftover(entries, p);
                if m < n - 1 {
                    assert(listed_before(entries, order, before, p));
                }
            }
        }
    }
}

/// In a whole tree, one pass of inspections in the order of `prune_order`,
/// each removing its directory if it finds it empty, removes exactly the
/// directories that `removals` lists.
pub proof fn lemma_one_pass_removes(entries: Seq<EntryView>)
    requires
        is_tree(entries),
    ensures
        gone_after(
            entries,
            prune_sequence(directories(entries)),
            prune_sequence(directories(entries)).len(),
        ) == removals(entries).to_set(),
{
    let keep = |d: Seq<Seq<char>>| !holds_leftover(entries, d);
    let order = prune_sequence(directories(entries));
    let gone = gone_after(entries, order, order.len());
    let listed = removals(entries);
    lemma_inspections(entries, order.len());
    assert forall|p: Seq<Seq<char>>| gone.contains(p) <==> listed.to_set().contains(p) by {
        if gone.contains(p) {
            assert(listed_before(entries, order, order.len(), p));
            let m = choose|m: int|
                0 <= m < order.len() && #[trigger] order[m] == p && !holds_leftover(entries, p);
            order.lemma_filter_contains(keep, m);
            assert(listed.contains(p));
        }
        if listed.contains(p) {
            let r = choose|r: int| 0 <= r < listed.len() && listed[r] == p;
            order.lemma_filter_pred(keep, r);
            order.lemma_filter_contains_rev(keep, p);
            let m = choose|m: int| 0 <= m < order.len() && order[m] == p;
            assert(listed_before(entries, order, order.len(), p));
        }
    }
    assert(gone =~= listed.to_set());
}

/// One more path joins those of its depth, and no others.
pub proof fn lemma_at_depth_push(dirs: Seq<Seq<Seq<char>>>, p: Seq<Seq<char>>, d: nat)
    ensures
        at_depth(dirs.push(p), d) == if p.len() == d {
            at_depth(dirs, d).push(p)
        } else {
            at_depth(dirs, d)
        },
{
    lemma_filter_push(dirs, p, |p: Seq<Seq<char>>| p.len() == d);
}

/// Collects the paths of the directories of a walk.
pub fn collect_directories(entries: &Vec<Entry>) -> (dirs: Vec<Vec<String>>)
    ensures
        dirs.deep_view() == directories(entry_views(entries@)),
{
    let mut dirs: Vec<Vec<String>> = Vec::new();
    let ghost all = entry_views(entries@);
    let mut i: usize = 0;
    while i < entries.len()
        invariant
            i <= entries.len(),
            all == entry_views(entries@),
            dirs.deep_view() == directories(all.take(i as int)),
        decreases entries.len() - i,
    {
        let e = &entries[i];
        proof {
            lemma_filter_push(
                all.take(i as int),
                all[i as int],
                |e: EntryView| e.kind == EntryKind::Directory,
            );
            assert(all.take(i + 1) =~= all.take(i as int).push(all[i as int]));
            assert(all[i as int] == e@);
        }
        if e.kind == EntryKind::Directory {
            let ghost before = dirs.deep_view();
            dirs.push(clone_path(&e.path));
            assert(dirs.deep_view() =~= before.push(e@.path));
            assert(directories(all.take(i + 1)) =~= directories(all.take(i as int)).push(e@.path));
        }
        i = i + 1;
    }
    assert(all.take(entries.len() as int) =~= all);
    dirs
}

/// Finds the greatest number of components among `dirs`.
fn deepest(dirs: &Vec<Vec<String>>) -> (top: usize)
    ensures
        top == max_depth(dirs.deep_view()),
{
    let ghost all = dirs.deep_view();
    let mut top: usize = 0;
    let mut i: usize = 0;
    while i < dirs.len()
        invariant
            i <= dirs.len(),
            all == dirs.deep_view(),
            top == max_depth(all.take(i as int)),
        decreases dirs.len() - i,
    {
        proof {
            assert(all.take(i + 1).drop_last() =~= all.take(i as int));
            assert(all.take(i + 1).last() == all[i as int]);
            assert(all[i as int].len() == dirs[i as int].len());
        }
        if dirs[i].len() > top {
            top = dirs[i].len();
        }
        i = i + 1;
    }
    assert(all.take(dirs.len() as int) =~= all);
    top
}

/// Appends to `out` the paths of `dirs` that have `d` components.
fn push_depth(dirs: &Vec<Vec<String>>, d: usize, out: &mut Vec<Vec<String>>)
    ensures
        final(out).deep_view() == old(out).deep_view() + at_depth(dirs.deep_view(), d as nat),
{
    let ghost all = dirs.deep_view();
    let ghost start = out.deep_view();
    let mut i: usize = 0;
    assert(out.deep_view() =~= start + at_depth(all.take(0), d as nat));
    while i < dirs.len()
        invariant
            i <= dirs.len(),
            all == dirs.deep_view(),
            out.deep_view() == start + at_depth(all.take(i as int), d as nat),
        decreases dirs.len() - i,
    {
        proof {
            lemma_at_depth_push(all.take(i as int), all[i as int], d as nat);
            assert(all.take(i + 1) =~= all.take(i as int).push(all[i as int]));
            assert(all[i as int].len() == dirs[i as int].len());
        }
        if dirs[i].len() == d {
            let ghost before = out.deep_view();
            out.push(clone_path(&dirs[i]));
            assert(out.deep_view() =~= before.push(all[i as int]));
            assert(out.deep_view() =~= start + at_depth(all.take(i + 1), d as nat));
        }
        i = i + 1;
    }
    assert(all.take(dirs.len() as int) =~= all);
}

/// Puts directories in the order of their inspection: the deepest first,
/// those of equal depth as they stand in `dirs`.
pub fn prune_order(dirs: &Vec<Vec<String>>) -> (order: Vec<Vec<String>>)
    ensures
        order.deep_view() == prune_sequence(dirs.deep_view()),
{
    let ghost all = dirs.deep_view();
    let top = deepest(dirs);
    let mut order: Vec<Vec<String>> = Vec::new();
    let mut d: usize = top;
    let mut done = false;
    assert(order.deep_view() + deepest_first(all, d as nat) =~= deepest_first(all, top as nat));
    while !done
        invariant
            all == dirs.deep_view(),
            d <= top,
            !done ==> order.deep_view() + deepest_first(all, d as nat) == deepest_first(
                all,
                top as nat,
            ),
            done ==> order.deep_view() == deepest_first(all, top as nat),
        decreases
                (if done {
                    0
                } else {
                    d + 1
                }),
    {
        let ghost before = order.deep_view();
        push_depth(dirs, d, &mut order);
        if d == 0 {
            done = true;
        } else {
            assert((before + at_depth(all, d as nat)) + deepest_first(all, (d - 1) as nat) =~= before
                + (at_depth(all, d as nat) + deepest_first(all, (d - 1) as nat)));
            d = d - 1;
        }
    }
    order
}

/// Tells whether `path` lies below `dir`.
pub fn is_below(path: &Vec<String>, dir: &Vec<String>) -> (below: bool)
    ensures
        below == lies_below(path.deep_view(), dir.deep_view()),
{
    if path.len() <= dir.len() {
        return false;
    }
    let ghost p = path.deep_view();
    let ghost q = dir.deep_view();
    let mut i: usize = 0;
    while i < dir.len()
        invariant
            i <= dir.len(),
            dir.len() < path.len(),
            p == path.deep_view(),
            q == dir.deep_view(),
            forall|j: int| 0 <= j < i ==> p[j] == q[j],
        decreases dir.len() - i,
    {
        if path[i] != dir[i] {
            assert(p.take(q.len() as int)[i as int] != q[i as int]);
            return false;
        }
        i = i + 1;
    }
    assert(p.take(q.len() as int) =~= q);
    true
}

/// Tells whether something other than directories lies below `dir`.
pub fn has_leftover(entries: &Vec<Entry>, dir: &Vec<String>) -> (found: bool)
    ensures
        found == holds_leftover(entry_views(entries@), dir.deep_view()),
{
    let ghost all = entry_views(entries@);
    let mut i: usize = 0;
    while i < entries.len()
        invariant
            i <= entries.len(),
            all == entry_views(entries@),
            forall|j: int| 0 <= j < i ==> !is_leftover_in(#[trigger] all[j], dir.deep_view()),
        decreases entries.len() - i,
    {
        let e = &entries[i];
        assert(all[i as int] == e@);
        if e.kind != EntryKind::Directory && is_below(&e.path, dir) {
            return true;
        }
        i = i + 1;
    }
    false
}

/// Lists the directories that a tree leaves to remove, in the order of
/// their removal.
///
/// A directory is listed if and only if nothing but directories lies below
/// it, at any depth; one that keeps a file anywhere below it is not.
pub fn delete_empty_directories(entries: &Vec<Entry>) -> (gone: Vec<Vec<String>>)
    ensures
        gone.deep_view() == removals(entry_views(entries@)),
{
    let ghost all = entry_views(entries@);
    let dirs = collect_directories(entries);
    let order = prune_order(&dirs);
    let ghost seq = order.deep_view();
    let mut gone: Vec<Vec<String>> = Vec::new();
    let mut i: usize = 0;
    assert(gone.deep_view() =~= seq.take(0).filter(|d: Seq<Seq<char>>| !holds_leftover(all, d)));
    while i < order.len()
        invariant
            i <= order.len(),
            all == entry_views(entries@),
            seq == order.deep_view(),
            gone.deep_view() == seq.take(i as int).filter(
                |d: Seq<Seq<char>>| !holds_leftover(all, d),
            ),
        decreases order.len() - i,
    {
        proof {
            lemma_filter_push(
                seq.take(i as int),
                seq[i as int],
                |d: Seq<Seq<char>>| !holds_leftover(all, d),
            );
            assert(seq.take(i + 1) =~= seq.take(i as int).push(seq[i as int]));
        }
        if !has_leftover(entries, &order[i]) {
            let ghost before = gone.deep_view();
            gone.push(clone_path(&order[i]));
            assert(gone.deep_view() =~= before.push(seq[i as int]));
        }
        i = i + 1;
    }
    assert(seq.take(order.len() as int) =~= seq);
    gone
}

} // verus!
