//! The collector: from the entries of a walk to the list of pending moves.

use crate::filters::lemma_filter_push;
use crate::names::{prefixed, prefixed_name};
use vstd::prelude::*;

verus! {

/// What a walk found at a path.
#[derive(Clone, Copy, Debug, PartialEq, Eq, Structural)]
pub enum EntryKind {
    Directory,
    File,
    /// Neither of the two: such an entry is never moved and never removed.
    Other,
}

/// One entry of a walk below the root.
#[derive(Clone, Debug)]
pub struct Entry {
    /// The components of the path below the root, outermost first.
    pub path: Vec<String>,
    pub kind: EntryKind,
}

/// A planned relocation of one nested file into the root.
#[derive(Clone, Debug)]
pub struct PendingMove {
    /// The components of the file's path below the root.
    pub source: Vec<String>,
    /// The name that the file is to have in the root.
    pub dest: String,
}

/// An entry as a plain value: its path and its kind.
pub struct EntryView {
    pub path: Seq<Seq<char>>,
    pub kind: EntryKind,
}

/// A pending move as a plain value.
pub struct MoveView {
    pub source: Seq<Seq<char>>,
    pub dest: Seq<char>,
}

impl View for Entry {
    type V = EntryView;

    open spec fn view(&self) -> EntryView {
        EntryView { path: self.path.deep_view(), kind: self.kind }
    }
}

impl View for PendingMove {
    type V = MoveView;

    open spec fn view(&self) -> MoveView {
        MoveView { source: self.source.deep_view(), dest: self.dest@ }
    }
}

/// The entries of a walk as plain values.
pub open spec fn entry_views(entries: Seq<Entry>) -> Seq<EntryView> {
    entries.map_values(|e: Entry| e@)
}

/// The moves of a list as plain values.
pub open spec fn move_views(moves: Seq<PendingMove>) -> Seq<MoveView> {
    moves.map_values(|m: PendingMove| m@)
}

/// A file that lies in a directory below the root, not in the root itself.
pub open spec fn is_nested_file(e: EntryView) -> bool {
    e.kind == EntryKind::File && e.path.len() >= 2
}

/// The name proposed for a nested file: its own name, or, in rename mode,
/// the name of the directory that holds it, `_`, and its own name. No
/// directory further out takes part.
pub open spec fn proposed(path: Seq<Seq<char>>, rename: bool) -> Seq<char>
    recommends
        path.len() >= 2,
{
    if rename {
        prefixed(path[path.len() - 2], path.last())
    } else {
        path.last()
    }
}

/// The move that an entry asks for.
pub open spec fn move_of(e: EntryView, rename: bool) -> MoveView {
    MoveView { source: e.path, dest: proposed(e.path, rename) }
}

/// The pending moves of a walk: one for each nested file, in the order of
/// the walk.
pub open spec fn pending_moves(entries: Seq<EntryView>, rename: bool) -> Seq<MoveView> {
    entries.filter(|e: EntryView| is_nested_file(e)).map_values(|e: EntryView| move_of(e, rename))
}

/// The names that are taken in the root before any move: those of all
/// entries directly in it, whatever their kind, in the order of the walk.
pub open spec fn root_names(entries: Seq<EntryView>) -> Seq<Seq<char>> {
    entries.filter(|e: EntryView| e.path.len() == 1).map_values(|e: EntryView| e.path[0])
}

/// Copies a path.
pub fn clone_path(path: &Vec<String>) -> (r: Vec<String>)
    ensures
        r.deep_view() == path.deep_view(),
{
    let mut out: Vec<String> = Vec::new();
    let mut i: usize = 0;
    while i < path.len()
        invariant
            i <= path.len(),
            out.len() == i,
            forall|j: int| 0 <= j < i ==> out[j]@ == path[j]@,
        decreases path.len() - i,
    {
        out.push(path[i].clone());
        i = i + 1;
    }
    assert(out.deep_view() =~= path.deep_view());
    out
}

/// Computes the name proposed for a nested file.
pub fn proposed_name(path: &Vec<String>, rename: bool) -> (r: String)
    requires
        path.len() >= 2,
    ensures
        r@ == proposed(path.deep_view(), rename),
{
    let leaf = &path[path.len() - 1];
    if rename {
        prefixed_name(&path[path.len() - 2], leaf)
    } else {
        leaf.clone()
    }
}

/// Collects the pending moves of a walk.
///
/// A file directly in the root gives no move, in either mode; neither does a
/// directory.
pub fn collect_moves(entries: &Vec<Entry>, rename: bool) -> (moves: Vec<PendingMove>)
    ensures
        move_views(moves@) == pending_moves(entry_views(entries@), rename),
{
    let mut moves: Vec<PendingMove> = Vec::new();
    let ghost all = entry_views(entries@);
    let mut i: usize = 0;
    while i < entries.len()
        invariant
            i <= entries.len(),
            all == entry_views(entries@),
            move_views(moves@) == pending_moves(all.take(i as int), rename),
        decreases entries.len() - i,
    {
        let e = &entries[i];
        proof {
            lemma_pending_moves_push(all.take(i as int), all[i as int], rename);
            assert(all.take(i + 1) =~= all.take(i as int).push(all[i as int]));
            assert(all[i as int] == e@);
        }
        if e.kind == EntryKind::File && e.path.len() >= 2 {
            let ghost before = moves@;
            let m = PendingMove {
                source: clone_path(&e.path),
                dest: proposed_name(&e.path, rename),
            };
            moves.push(m);
            assert(move_views(moves@) =~= move_views(before).push(move_of(e@, rename)));
        }
        i = i + 1;
    }
    assert(all.take(entries.len() as int) =~= all);
    moves
}

/// Collects the names that are taken in the root before any move.
pub fn collect_root_names(entries: &Vec<Entry>) -> (taken: Vec<String>)
    ensures
        taken.deep_view() == root_names(entry_views(entries@)),
{
    let mut taken: Vec<String> = Vec::new();
    let ghost all = entry_views(entries@);
    let mut i: usize = 0;
    while i < entries.len()
        invariant
            i <= entries.len(),
            all == entry_views(entries@),
            taken.deep_view() == root_names(all.take(i as int)),
        decreases entries.len() - i,
    {
        let e = &entries[i];
        proof {
            lemma_root_names_push(all.take(i as int), all[i as int]);
            assert(all.take(i + 1) =~= all.take(i as int).push(all[i as int]));
            assert(all[i as int] == e@);
        }
        if e.path.len() == 1 {
            let ghost before = taken.deep_view();
            taken.push(e.path[0].clone());
            assert(taken.deep_view() =~= before.push(e@.path[0]));
        }
        i = i + 1;
    }
    assert(all.take(entries.len() as int) =~= all);
    taken
}

/// One more entry adds its move to the pending moves, if it is a nested
/// file, and nothing otherwise.
pub proof fn lemma_pending_moves_push(entries: Seq<EntryView>, e: EntryView, rename: bool)
    ensures
        pending_moves(entries.push(e), rename) == if is_nested_file(e) {
            pending_moves(entries, rename).push(move_of(e, rename))
        } else {
            pending_moves(entries, rename)
        },
{
    let keep = |e: EntryView| is_nested_file(e);
    lemma_filter_push(entries, e, keep);
    if is_nested_file(e) {
        assert(pending_moves(entries.push(e), rename) =~= pending_moves(entries, rename).push(
            move_of(e, rename),
        ));
    }
}

/// One more entry adds its name to the root names, if it lies in the root.
pub proof fn lemma_root_names_push(entries: Seq<EntryView>, e: EntryView)
    ensures
        root_names(entries.push(e)) == if e.path.len() == 1 {
            root_names(entries).push(e.path[0])
        } else {
            root_names(entries)
        },
{
    let keep = |e: EntryView| e.path.len() == 1;
    lemma_filter_push(entries, e, keep);
    if e.path.len() == 1 {
        assert(root_names(entries.push(e)) =~= root_names(entries).push(e.path[0]));
    }
}

} // verus!
