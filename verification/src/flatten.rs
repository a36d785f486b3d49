//! The whole operation on a snapshot of the tree: the moves to perform and
//! the directories to remove afterwards.

use crate::collect::{
    clone_path, collect_moves, collect_root_names, entry_views, is_nested_file, move_views,
    pending_moves, root_names, Entry, EntryKind, EntryView, MoveView, PendingMove,
};
use crate::filters::{lemma_filter_all, lemma_filter_none, lemma_filter_push};
use crate::plan::{
    final_moves, lemma_destination_not_taken, lemma_destinations_distinct, plan_moves,
    proposed_names,
};
use crate::prune::{
    delete_empty_directories, directories, holds_leftover, is_leftover_in, lemma_removals_iff,
    lies_below, removals,
};
use vstd::prelude::*;

verus! {

/// What flattening a tree comes to.
#[derive(Clone, Debug)]
pub struct FlattenPlan {
    /// The relocations, in the order in which they are performed.
    pub moves: Vec<PendingMove>,
    /// The directories to remove once every file has moved, in the order of
    /// their removal; none where pruning was not asked for.
    pub removals: Vec<Vec<String>>,
}

/// A plan as a plain value.
pub struct FlattenPlanView {
    pub moves: Seq<MoveView>,
    pub removals: Seq<Seq<Seq<char>>>,
}

impl View for FlattenPlan {
    type V = FlattenPlanView;

    open spec fn view(&self) -> FlattenPlanView {
        FlattenPlanView { moves: move_views(self.moves@), removals: self.removals.deep_view() }
    }
}

/// A moved file where it has arrived.
pub open spec fn arrived(m: MoveView) -> EntryView {
    EntryView { path: seq![m.dest], kind: EntryKind::File }
}

/// The tree once the moves are done: every entry that is no nested file,
/// as it was, and then each moved file under its final name in the root.
pub open spec fn tree_after_moves(entries: Seq<EntryView>, moves: Seq<MoveView>) -> Seq<EntryView> {
    entries.filter(|e: EntryView| !is_nested_file(e)) + moves.map_values(|m: MoveView| arrived(m))
}

/// The final moves for a tree: its pending moves, resolved against the
/// names that its root holds.
pub open spec fn moves_of(entries: Seq<EntryView>, rename: bool) -> Seq<MoveView> {
    final_moves(pending_moves(entries, rename), root_names(entries).to_set())
}

/// The plan for a tree.
pub open spec fn flatten_plan(entries: Seq<EntryView>, rename: bool, delete_empty: bool)
    -> FlattenPlanView {
    FlattenPlanView {
        moves: moves_of(entries, rename),
        removals: if delete_empty {
            removals(tree_after_moves(entries, moves_of(entries, rename)))
        } else {
            Seq::empty()
        },
    }
}

/// The files of a tree.
pub open spec fn files(entries: Seq<EntryView>) -> Seq<EntryView> {
    entries.filter(|e: EntryView| e.kind == EntryKind::File)
}

/// Computes the tree that the moves leave.
pub fn apply_moves(entries: &Vec<Entry>, moves: &Vec<PendingMove>) -> (tree: Vec<Entry>)
    ensures
        entry_views(tree@) == tree_after_moves(entry_views(entries@), move_views(moves@)),
{
    let ghost all = entry_views(entries@);
    let ghost done = move_views(moves@);
    let mut tree: Vec<Entry> = Vec::new();
    let mut i: usize = 0;
    assert(entry_views(tree@) =~= all.take(0).filter(|e: EntryView| !is_nested_file(e)));
    while i < entries.len()
        invariant
            i <= entries.len(),
            all == entry_views(entries@),
            entry_views(tree@) == all.take(i as int).filter(|e: EntryView| !is_nested_file(e)),
        decreases entries.len() - i,
    {
        let e = &entries[i];
        proof {
            lemma_filter_push(
                all.take(i as int),
                all[i as int],
                |e: EntryView| !is_nested_file(e),
            );
            assert(all.take(i + 1) =~= all.take(i as int).push(all[i as int]));
            assert(all[i as int] == e@);
        }
        if !(e.kind == EntryKind::File && e.path.len() >= 2) {
            let ghost before = entry_views(tree@);
            tree.push(Entry { path: clone_path(&e.path), kind: e.kind });
            assert(entry_views(tree@) =~= before.push(e@));
        }
        i = i + 1;
    }
    assert(all.take(entries.len() as int) =~= all);
    let ghost kept = entry_views(tree@);
    let mut j: usize = 0;
    assert(entry_views(tree@) =~= kept + done.take(0).map_values(|m: MoveView| arrived(m)));
    while j < moves.len()
        invariant
            j <= moves.len(),
            done == move_views(moves@),
            entry_views(tree@) == kept + done.take(j as int).map_values(|m: MoveView| arrived(m)),
        decreases moves.len() - j,
    {
        let m = &moves[j];
        let mut path: Vec<String> = Vec::new();
        path.push(m.dest.clone());
        assert(path.deep_view() =~= seq![m.dest@]);
        let ghost before = entry_views(tree@);
        tree.push(Entry { path, kind: EntryKind::File });
        proof {
            assert(done[j as int] == m@);
            assert(entry_views(tree@) =~= before.push(arrived(m@)));
            assert(done.take(j + 1) =~= done.take(j as int).push(done[j as int]));
            assert(done.take(j + 1).map_values(|m: MoveView| arrived(m)) =~= done.take(
                j as int,
            ).map_values(|m: MoveView| arrived(m)).push(arrived(m@)));
        }
        j = j + 1;
    }
    assert(done.take(moves.len() as int) =~= done);
    tree
}

/// Plans the flattening of a tree.
///
/// `entries` holds what a walk below the root found, in any order. Every
/// nested file gets one move to a name in the root that is neither taken
/// there nor given to another move. With `delete_empty`, the directories
/// that the moves leave without anything but directories below them are
/// listed for removal, deepest first.
pub fn flatten_directory(entries: &Vec<Entry>, rename: bool, delete_empty: bool) -> (plan:
    FlattenPlan)
    ensures
        plan@ == flatten_plan(entry_views(entries@), rename, delete_empty),
{
    let pending = collect_moves(entries, rename);
    let root = collect_root_names(entries);
    let moves = plan_moves(&pending, &root);
    let mut gone: Vec<Vec<String>> = Vec::new();
    if delete_empty {
        let tree = apply_moves(entries, &moves);
        gone = delete_empty_directories(&tree);
    } else {
        assert(gone.deep_view() =~= Seq::<Seq<Seq<char>>>::empty());
    }
    FlattenPlan { moves, removals: gone }
}

/// Where a walk stands in the whole operation.
#[derive(Clone, Copy, Debug, PartialEq, Eq, Structural)]
pub enum Phase {
    Start,
    Collecting,
    Moving,
    Pruning,
    Done,
    Failed,
}

/// The phase that follows `phase`: the next one in turn where the step
/// succeeded, pruning only where it was asked for; `Failed` where the step
/// failed. `Done` and `Failed` are final.
pub open spec fn next_phase(phase: Phase, succeeded: bool, delete_empty: bool) -> Phase {
    match phase {
        Phase::Done => Phase::Done,
        Phase::Failed => Phase::Failed,
        _ => if !succeeded {
            Phase::Failed
        } else {
            match phase {
                Phase::Start => Phase::Collecting,
                Phase::Collecting => Phase::Moving,
                Phase::Moving => if delete_empty {
                    Phase::Pruning
                } else {
                    Phase::Done
                },
                _ => Phase::Done,
            }
        },
    }
}

/// Steps from one phase to the next.
pub fn advance(phase: Phase, succeeded: bool, delete_empty: bool) -> (next: Phase)
    ensures
        next == next_phase(phase, succeeded, delete_empty),
{
    match phase {
        Phase::Done => Phase::Done,
        Phase::Failed => Phase::Failed,
        Phase::Start => if succeeded {
            Phase::Collecting
        } else {
            Phase::Failed
        },
        Phase::Collecting => if succeeded {
            Phase::Moving
        } else {
            Phase::Failed
        },
        Phase::Moving => if !succeeded {
            Phase::Failed
        } else if delete_empty {
            Phase::Pruning
        } else {
            Phase::Done
        },
        Phase::Pruning => if succeeded {
            Phase::Done
        } else {
            Phase::Failed
        },
    }
}

/// The files that stay where they are and the files that move are together
/// the files of the tree.
pub proof fn lemma_file_count_splits(entries: Seq<EntryView>)
    ensures
        files(entries.filter(|e: EntryView| !is_nested_file(e))).len() + entries.filter(
            |e: EntryView| is_nested_file(e),
        ).len() == files(entries).len(),
    decreases entries.len(),
{
    let stays = |e: EntryView| !is_nested_file(e);
    let moves = |e: EntryView| is_nested_file(e);
    let is_file = |e: EntryView| e.kind == EntryKind::File;
    if entries.len() == 0 {
        entries.lemma_filter_len(stays);
        entries.lemma_filter_len(moves);
        entries.lemma_filter_len(is_file);
        entries.filter(stays).lemma_filter_len(is_file);
    } else {
        let init = entries.drop_last();
        let e = entries.last();
        assert(init.push(e) =~= entries);
        lemma_file_count_splits(init);
        lemma_filter_push(init, e, stays);
        lemma_filter_push(init, e, moves);
        lemma_filter_push(init, e, is_file);
        lemma_filter_push(init.filter(stays), e, is_file);
    }
}

/// Flattening loses no file and makes none: the tree holds as many files
/// after the moves as before, whether or not files are renamed.
pub proof fn lemma_no_file_lost(entries: Seq<EntryView>, rename: bool)
    ensures
        moves_of(entries, rename).len() == entries.filter(|e: EntryView| is_nested_file(e)).len(),
        files(tree_after_moves(entries, moves_of(entries, rename))).len() == files(entries).len(),
{
    let is_file = |e: EntryView| e.kind == EntryKind::File;
    let kept = entries.filter(|e: EntryView| !is_nested_file(e));
    let arrivals = moves_of(entries, rename).map_values(|m: MoveView| arrived(m));
    Seq::filter_distributes_over_add(kept, arrivals, is_file);
    lemma_filter_all(arrivals, is_file);
    lemma_file_count_splits(entries);
}

/// Every nested file is moved exactly once, in the order in which the
/// files were found, and no two of them arrive under the same name.
pub proof fn lemma_moves_are_one_to_one(entries: Seq<EntryView>, rename: bool)
    ensures
        moves_of(entries, rename).len() == entries.filter(|e: EntryView| is_nested_file(e)).len(),
        forall|i: int|
            0 <= i < moves_of(entries, rename).len() ==> (#[trigger] moves_of(
                entries,
                rename,
            )[i]).source == entries.filter(|e: EntryView| is_nested_file(e))[i].path,
        forall|i: int, j: int|
            0 <= i < j < moves_of(entries, rename).len() ==> (#[trigger] moves_of(
                entries,
                rename,
            )[i]).dest != (#[trigger] moves_of(entries, rename)[j]).dest,
{
    let pending = pending_moves(entries, rename);
    let taken = root_names(entries).to_set();
    let plan = moves_of(entries, rename);
    vstd::seq_lib::seq_to_set_is_finite(root_names(entries));
    assert forall|i: int, j: int| 0 <= i < j < plan.len() implies (#[trigger] plan[i]).dest != (
    #[trigger] plan[j]).dest by {
        lemma_destinations_distinct(proposed_names(pending), taken, i, j);
    }
}

/// What lies directly in the root before the moves lies there afterwards,
/// as it was: no move takes it away, and no moved file arrives under its
/// name.
pub proof fn lemma_root_entries_stay(entries: Seq<EntryView>, rename: bool, k: int)
    requires
        0 <= k < entries.len(),
        entries[k].path.len() == 1,
    ensures
        tree_after_moves(entries, moves_of(entries, rename)).contains(entries[k]),
        forall|i: int|
            0 <= i < moves_of(entries, rename).len() ==> {
                &&& (#[trigger] moves_of(entries, rename)[i]).source != entries[k].path
                &&& moves_of(entries, rename)[i].dest != entries[k].path[0]
            },
{
    let pending = pending_moves(entries, rename);
    let names = root_names(entries);
    let taken = names.to_set();
    let plan = moves_of(entries, rename);
    let stays = |e: EntryView| !is_nested_file(e);
    let nested = |e: EntryView| is_nested_file(e);
    let in_root = |e: EntryView| e.path.len() == 1;
    let kept = entries.filter(stays);
    let tree = tree_after_moves(entries, plan);
    vstd::seq_lib::seq_to_set_is_finite(names);
    entries.lemma_filter_contains(stays, k);
    let at = choose|at: int| 0 <= at < kept.len() && kept[at] == entries[k];
    assert(tree[at] == entries[k]);
    entries.lemma_filter_contains(in_root, k);
    let found = choose|n: int|
        0 <= n < entries.filter(in_root).len() && entries.filter(in_root)[n] == entries[k];
    assert(names[found] == entries[k].path[0]);
    assert(taken.contains(entries[k].path[0]));
    assert forall|i: int| 0 <= i < plan.len() implies {
        &&& (#[trigger] plan[i]).source != entries[k].path
        &&& plan[i].dest != entries[k].path[0]
    } by {
        entries.lemma_filter_pred(nested, i);
        lemma_destination_not_taken(proposed_names(pending), taken, i);
    }
}

/// Flattening a tree that holds nothing but files in its root changes
/// nothing: no file moves, no directory is removed.
pub proof fn lemma_flat_tree_stays(entries: Seq<EntryView>, rename: bool, delete_empty: bool)
    requires
        forall|k: int|
            0 <= k < entries.len() ==> (#[trigger] entries[k]).path.len() == 1 && entries[k].kind
                != EntryKind::Directory,
    ensures
        flatten_plan(entries, rename, delete_empty).moves.len() == 0,
        flatten_plan(entries, rename, delete_empty).removals.len() == 0,
        tree_after_moves(entries, moves_of(entries, rename)) == entries,
{
    let plan = moves_of(entries, rename);
    let tree = tree_after_moves(entries, plan);
    lemma_filter_none(entries, |e: EntryView| is_nested_file(e));
    lemma_filter_all(entries, |e: EntryView| !is_nested_file(e));
    assert(tree =~= entries);
    lemma_filter_none(entries, |e: EntryView| e.kind == EntryKind::Directory);
    let dirs = directories(entries);
    assert(dirs.len() == 0);
    lemma_filter_none(dirs, |p: Seq<Seq<char>>| p.len() == 0);
    lemma_filter_none(
        Seq::<Seq<Seq<char>>>::empty(),
        |d: Seq<Seq<char>>| !holds_leftover(entries, d),
    );
}

/// Something that is neither a file nor a directory lies below `dir`.
pub open spec fn holds_other(entries: Seq<EntryView>, dir: Seq<Seq<char>>) -> bool {
    exists|i: int|
        0 <= i < entries.len() && (#[trigger] entries[i]).kind == EntryKind::Other && lies_below(
            entries[i].path,
            dir,
        )
}

/// With pruning, a directory goes if and only if it held nothing but files,
/// which have moved, and directories of which the same is true. Only what
/// is neither file nor directory keeps the directories above it.
pub proof fn lemma_emptied_directories_go(entries: Seq<EntryView>, rename: bool, k: int)
    requires
        0 <= k < entries.len(),
        entries[k].kind == EntryKind::Directory,
        entries[k].path.len() >= 1,
    ensures
        flatten_plan(entries, rename, true).removals.contains(entries[k].path) <==> !holds_other(
            entries,
            entries[k].path,
        ),
{
    let stays = |e: EntryView| !is_nested_file(e);
    let plan = moves_of(entries, rename);
    let kept = entries.filter(stays);
    let tree = tree_after_moves(entries, plan);
    let d = entries[k].path;
    entries.lemma_filter_contains(stays, k);
    let at = choose|at: int| 0 <= at < kept.len() && kept[at] == entries[k];
    assert(tree[at] == entries[k]);
    lemma_removals_iff(tree, at);
    if holds_leftover(tree, d) {
        let i = choose|i: int| 0 <= i < tree.len() && is_leftover_in(#[trigger] tree[i], d);
        if i < kept.len() {
            assert(tree[i] == kept[i]);
            entries.lemma_filter_pred(stays, i);
            assert(kept.contains(kept[i]));
            entries.lemma_filter_contains_rev(stays, kept[i]);
            let j = choose|j: int| 0 <= j < entries.len() && entries[j] == kept[i];
            assert(entries[j].kind == EntryKind::Other && lies_below(entries[j].path, d));
        } else {
            assert(tree[i] == arrived(plan[i - kept.len()]));
        }
    }
    if holds_other(entries, d) {
        let j = choose|j: int|
            0 <= j < entries.len() && (#[trigger] entries[j]).kind == EntryKind::Other
                && lies_below(entries[j].path, d);
        entries.lemma_filter_contains(stays, j);
        let i = choose|i: int| 0 <= i < kept.len() && kept[i] == entries[j];
        assert(is_leftover_in(tree[i], d));
    }
}

} // verus!
