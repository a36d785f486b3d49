//! The mover's plan: a final name in the root for each pending move, such
//! that no name is given twice and no name that is taken is given at all.

use crate::collect::{clone_path, move_views, MoveView, PendingMove};
use crate::names::{lemma_numbered_injective, numbered, numbered_name};
use vstd::prelude::*;
use vstd::relations::injective_on;
use vstd::set_lib::{lemma_int_range, lemma_len_subset, lemma_map_size, set_int_range};

verus! {

/// `k` numbers the first alternative of `name` that is free: it is free, and
/// every alternative with a smaller number, from 1 on, is taken.
pub open spec fn is_first_free(name: Seq<char>, taken: Set<Seq<char>>, k: nat) -> bool {
    &&& k >= 1
    &&& !taken.contains(numbered(name, k))
    &&& forall|j: nat| 1 <= j < k ==> taken.contains(#[trigger] numbered(name, j))
}

/// The number of the first free alternative of `name`.
pub open spec fn first_free_number(name: Seq<char>, taken: Set<Seq<char>>) -> nat {
    choose|k: nat| is_first_free(name, taken, k)
}

/// The name that a file proposed as `name` gets: `name` itself where that is
/// free, else its first free alternative.
pub open spec fn free_name(name: Seq<char>, taken: Set<Seq<char>>) -> Seq<char> {
    if !taken.contains(name) {
        name
    } else {
        numbered(name, first_free_number(name, taken))
    }
}

/// The names taken after the first `n` moves have been given their names.
pub open spec fn occupied_after(proposed: Seq<Seq<char>>, taken: Set<Seq<char>>, n: nat) -> Set<
    Seq<char>,
>
    decreases n,
{
    if n == 0 {
        taken
    } else {
        let before = occupied_after(proposed, taken, (n - 1) as nat);
        before.insert(free_name(proposed[n - 1], before))
    }
}

/// The final name of the `i`-th move.
pub open spec fn destination(proposed: Seq<Seq<char>>, taken: Set<Seq<char>>, i: int) -> Seq<
    char,
> {
    free_name(proposed[i], occupied_after(proposed, taken, i as nat))
}

/// The names that a list of moves proposes.
pub open spec fn proposed_names(pending: Seq<MoveView>) -> Seq<Seq<char>> {
    pending.map_values(|m: MoveView| m.dest)
}

/// The pending moves with their final names: each in turn gets the free
/// name for what it proposes, and that name is taken from then on.
pub open spec fn final_moves(pending: Seq<MoveView>, taken: Set<Seq<char>>) -> Seq<MoveView> {
    Seq::new(
        pending.len(),
        |i: int|
            MoveView {
                source: pending[i].source,
                dest: destination(proposed_names(pending), taken, i),
            },
    )
}

/// As many alternatives as are all taken, so many names at least are taken.
pub proof fn lemma_probes_bounded(name: Seq<char>, taken: Set<Seq<char>>, k: nat)
    requires
        taken.finite(),
        forall|j: nat| 1 <= j <= k ==> taken.contains(#[trigger] numbered(name, j)),
    ensures
        k <= taken.len(),
{
    let range = set_int_range(1, k as int + 1);
    let f = |j: int| numbered(name, j as nat);
    let image = range.map(f);
    lemma_int_range(1, k as int + 1);
    assert(injective_on(f, range)) by {
        assert forall|a: int, b: int|
            range.contains(a) && range.contains(b) && #[trigger] f(a) == #[trigger] f(b) implies a
            == b by {
            lemma_numbered_injective(name, a as nat, b as nat);
        }
    }
    lemma_map_size(range, image, f);
    assert(image.subset_of(taken)) by {
        assert forall|s: Seq<char>| image.contains(s) implies taken.contains(s) by {
            let j = choose|j: int| range.contains(j) && s == f(j);
            assert(taken.contains(numbered(name, j as nat)));
        }
    }
    lemma_len_subset(image, taken);
}

/// Only one number is that of the first free alternative.
pub proof fn lemma_first_free_unique(name: Seq<char>, taken: Set<Seq<char>>, a: nat, b: nat)
    requires
        is_first_free(name, taken, a),
        is_first_free(name, taken, b),
    ensures
        a == b,
{
    if a < b {
        assert(taken.contains(numbered(name, a)));
    } else if b < a {
        assert(taken.contains(numbered(name, b)));
    }
}

/// Among finitely many taken names a first free alternative is found, from
/// any number up to which all are taken.
pub proof fn lemma_first_free_from(name: Seq<char>, taken: Set<Seq<char>>, k: nat) -> (r: nat)
    requires
        taken.finite(),
        k >= 1,
        forall|j: nat| 1 <= j < k ==> taken.contains(#[trigger] numbered(name, j)),
    ensures
        is_first_free(name, taken, r),
    decreases taken.len() + 1 - k,
{
    lemma_probes_bounded(name, taken, (k - 1) as nat);
    if !taken.contains(numbered(name, k)) {
        k
    } else {
        lemma_probes_bounded(name, taken, k);
        lemma_first_free_from(name, taken, k + 1)
    }
}

/// The free name is free. It is the proposed name where that is free; else
/// it is the alternative with the lowest number that is free.
pub proof fn lemma_free_name(name: Seq<char>, taken: Set<Seq<char>>)
    requires
        taken.finite(),
    ensures
        !taken.contains(free_name(name, taken)),
        !taken.contains(name) ==> free_name(name, taken) == name,
        taken.contains(name) ==> is_first_free(name, taken, first_free_number(name, taken)),
{
    let k = lemma_first_free_from(name, taken, 1);
    assert(is_first_free(name, taken, first_free_number(name, taken)));
}

/// The taken names only grow, and stay finitely many.
pub proof fn lemma_occupied_grows(
    proposed: Seq<Seq<char>>,
    taken: Set<Seq<char>>,
    n: nat,
    m: nat,
)
    requires
        taken.finite(),
        n <= m,
    ensures
        occupied_after(proposed, taken, m).finite(),
        occupied_after(proposed, taken, n).subset_of(occupied_after(proposed, taken, m)),
    decreases m,
{
    if m > 0 {
        lemma_occupied_grows(proposed, taken, 0, (m - 1) as nat);
        if n < m {
            lemma_occupied_grows(proposed, taken, n, (m - 1) as nat);
        }
    }
}

/// No move gets a name that was taken before the first move.
pub proof fn lemma_destination_not_taken(proposed: Seq<Seq<char>>, taken: Set<Seq<char>>, i: int)
    requires
        taken.finite(),
        0 <= i < proposed.len(),
    ensures
        !taken.contains(destination(proposed, taken, i)),
{
    lemma_occupied_grows(proposed, taken, 0, i as nat);
    lemma_free_name(proposed[i], occupied_after(proposed, taken, i as nat));
}

/// No two moves get the same name.
pub proof fn lemma_destinations_distinct(
    proposed: Seq<Seq<char>>,
    taken: Set<Seq<char>>,
    i: int,
    j: int,
)
    requires
        taken.finite(),
        0 <= i < j < proposed.len(),
    ensures
        destination(proposed, taken, i) != destination(proposed, taken, j),
{
    lemma_occupied_grows(proposed, taken, 0, j as nat);
    lemma_occupied_grows(proposed, taken, (i + 1) as nat, j as nat);
    lemma_free_name(proposed[j], occupied_after(proposed, taken, j as nat));
    assert(occupied_after(proposed, taken, (i + 1) as nat).contains(
        destination(proposed, taken, i),
    ));
}

/// Each move gets the name it proposes where that name is free when its
/// turn comes; else it gets the alternative with the lowest number that is
/// free then.
pub proof fn lemma_destination_is_first_free(
    proposed: Seq<Seq<char>>,
    taken: Set<Seq<char>>,
    i: int,
)
    requires
        taken.finite(),
        0 <= i < proposed.len(),
    ensures
        ({
            let before = occupied_after(proposed, taken, i as nat);
            let dest = destination(proposed, taken, i);
            if before.contains(proposed[i]) {
                exists|k: nat| is_first_free(proposed[i], before, k) && dest == numbered(proposed[i], k)
            } else {
                dest == proposed[i]
            }
        }),
{
    lemma_occupied_grows(proposed, taken, 0, i as nat);
    lemma_free_name(proposed[i], occupied_after(proposed, taken, i as nat));
}

/// Of two moves that propose the same name, the later one never keeps it:
/// it gets the alternative with the lowest number that is free at its turn.
pub proof fn lemma_later_twin_is_numbered(
    proposed: Seq<Seq<char>>,
    taken: Set<Seq<char>>,
    i: int,
    j: int,
)
    requires
        taken.finite(),
        0 <= i < j < proposed.len(),
        proposed[i] == proposed[j],
    ensures
        destination(proposed, taken, j) != proposed[j],
        exists|k: nat|
            is_first_free(proposed[j], occupied_after(proposed, taken, j as nat), k)
                && destination(proposed, taken, j) == numbered(proposed[j], k),
{
    lemma_occupied_grows(proposed, taken, 0, i as nat);
    lemma_occupied_grows(proposed, taken, 0, j as nat);
    lemma_occupied_grows(proposed, taken, i as nat, j as nat);
    lemma_occupied_grows(proposed, taken, (i + 1) as nat, j as nat);
    lemma_free_name(proposed[i], occupied_after(proposed, taken, i as nat));
    lemma_free_name(proposed[j], occupied_after(proposed, taken, j as nat));
    assert(occupied_after(proposed, taken, (i + 1) as nat).contains(
        destination(proposed, taken, i),
    ));
    assert(occupied_after(proposed, taken, j as nat).contains(proposed[j]));
}

/// Tells whether `name` is among `taken`.
pub fn contains_name(taken: &Vec<String>, name: &String) -> (found: bool)
    ensures
        found == taken.deep_view().contains(name@),
{
    let mut i: usize = 0;
    while i < taken.len()
        invariant
            i <= taken.len(),
            forall|j: int| 0 <= j < i ==> taken.deep_view()[j] != name@,
        decreases taken.len() - i,
    {
        if taken[i] == *name {
            assert(taken.deep_view()[i as int] == name@);
            return true;
        }
        i = i + 1;
    }
    false
}

/// Gives a file proposed as `proposed` its name in the root: the proposed
/// name where it is not taken, else the first of `stem_1.ext`, `stem_2.ext`,
/// and so on that is not taken.
pub fn resolve_destination(proposed: &String, taken: &Vec<String>) -> (dest: String)
    ensures
        dest@ == free_name(proposed@, taken.deep_view().to_set()),
{
    let ghost names = taken.deep_view();
    let ghost occupied = names.to_set();
    proof {
        vstd::seq_lib::seq_to_set_is_finite(names);
        names.lemma_cardinality_of_set();
    }
    if !contains_name(taken, proposed) {
        return proposed.clone();
    }
    let mut counter: u128 = 1;
    let mut candidate = numbered_name(proposed, counter);
    while contains_name(taken, &candidate)
        invariant
            names == taken.deep_view(),
            occupied == names.to_set(),
            occupied.finite(),
            occupied.len() <= taken.len(),
            1 <= counter <= taken.len() + 1,
            candidate@ == numbered(proposed@, counter as nat),
            forall|j: nat| 1 <= j < counter ==> occupied.contains(#[trigger] numbered(proposed@, j)),
        decreases taken.len() + 1 - counter,
    {
        proof {
            lemma_probes_bounded(proposed@, occupied, counter as nat);
        }
        counter = counter + 1;
        candidate = numbered_name(proposed, counter);
    }
    proof {
        assert(is_first_free(proposed@, occupied, counter as nat));
        lemma_free_name(proposed@, occupied);
        lemma_first_free_unique(
            proposed@,
            occupied,
            counter as nat,
            first_free_number(proposed@, occupied),
        );
    }
    candidate
}

/// Gives every pending move its final name, in turn.
///
/// `root` holds the names that are taken in the root before the first move.
/// The result has one move for each pending move, in the same order and
/// with the same source.
pub fn plan_moves(pending: &Vec<PendingMove>, root: &Vec<String>) -> (plan: Vec<PendingMove>)
    ensures
        move_views(plan@) == final_moves(move_views(pending@), root.deep_view().to_set()),
{
    let ghost all = move_views(pending@);
    let ghost names = proposed_names(all);
    let ghost start = root.deep_view().to_set();
    let mut taken = clone_path(root);
    let mut plan: Vec<PendingMove> = Vec::new();
    let mut i: usize = 0;
    while i < pending.len()
        invariant
            i <= pending.len(),
            all == move_views(pending@),
            names == proposed_names(all),
            start == root.deep_view().to_set(),
            plan.len() == i,
            taken.deep_view().to_set() == occupied_after(names, start, i as nat),
            forall|j: int| 0 <= j < i ==> (#[trigger] plan[j])@ == final_moves(all, start)[j],
        decreases pending.len() - i,
    {
        let m = &pending[i];
        assert(all[i as int] == m@);
        let dest = resolve_destination(&m.dest, &taken);
        let ghost before = taken.deep_view();
        taken.push(dest.clone());
        proof {
            assert(taken.deep_view() =~= before.push(dest@));
            assert(before.push(dest@).to_set() =~= before.to_set().insert(dest@)) by {
                assert forall|s: Seq<char>| before.to_set().insert(dest@).contains(s) implies before.push(
                    dest@,
                ).contains(s) by {
                    if s == dest@ {
                        assert(before.push(dest@)[before.len() as int] == s);
                    } else {
                        let k = choose|k: int| 0 <= k < before.len() && before[k] == s;
                        assert(before.push(dest@)[k] == s);
                    }
                }
            }
        }
        plan.push(PendingMove { source: clone_path(&m.source), dest });
        i = i + 1;
    }
    assert(move_views(plan@) =~= final_moves(all, start));
    plan
}

} // verus!
