//! Functional dependencies of type classes.
//!
//! A functional dependency `determiners -> determined` between argument
//! positions of a class says that once the arguments at all `determiners`
//! are known, the arguments at `determined` are fixed too.
use rustc_hash::FxHashSet;
use vstd::prelude::*;

use crate::hashed::{set_clone, set_elements, set_equal, set_insert, set_is_subset};

verus! {

/// A functional dependency between the argument positions of a class.
#[derive(Debug)]
pub struct Fd {
    pub determiners: FxHashSet<usize>,
    pub determined: FxHashSet<usize>,
}

impl Clone for Fd {
    fn clone(&self) -> (copy: Fd)
        ensures
            copy.determiners@ == self.determiners@,
            copy.determined@ == self.determined@,
    {
        Fd {
            determiners: set_clone(&self.determiners),
            determined: set_clone(&self.determined),
        }
    }
}

impl PartialEq for Fd {
    fn eq(&self, other: &Fd) -> (equal: bool) {
        set_equal(&self.determiners, &other.determiners) && set_equal(
            &self.determined,
            &other.determined,
        )
    }
}

impl vstd::std_specs::cmp::PartialEqSpecImpl for Fd {
    open spec fn obeys_eq_spec() -> bool {
        true
    }

    open spec fn eq_spec(&self, other: &Fd) -> bool {
        self.determiners@ == other.determiners@ && self.determined@ == other.determined@
    }
}

impl Eq for Fd {

}

impl Fd {
    pub fn new(determiners: &[usize], determined: &[usize]) -> (fd: Fd)
        ensures
            fd.determiners@ == determiners@.to_set(),
            fd.determined@ == determined@.to_set(),
    {
        Fd { determiners: position_set_of(determiners), determined: position_set_of(determined) }
    }
}

/// The set of the positions listed in `positions`.
fn position_set_of(positions: &[usize]) -> (set: FxHashSet<usize>)
    ensures
        set@ == positions@.to_set(),
{
    let mut set: FxHashSet<usize> = FxHashSet::default();
    let mut k: usize = 0;
    while k < positions.len()
        invariant
            k <= positions@.len(),
            set@ == positions@.take(k as int).to_set(),
        decreases positions@.len() - k,
    {
        set_insert(&mut set, positions[k]);
        proof {
            assert(positions@.take(k + 1) =~= positions@.take(k as int).push(positions@[k as int]));
            positions@.take(k as int).lemma_push_to_set_commute(positions@[k as int]);
        }
        k = k + 1;
    }
    assert(positions@.take(k as int) =~= positions@);
    set
}

/// The positions that any of the dependencies determines.
pub fn get_all_determined(functional_dependencies: &[Fd]) -> (determined: FxHashSet<usize>)
    ensures
        determined@ == all_determined(functional_dependencies@),
{
    let ghost fds = functional_dependencies@;
    let mut determined: FxHashSet<usize> = FxHashSet::default();
    let mut i: usize = 0;
    while i < functional_dependencies.len()
        invariant
            fds == functional_dependencies@,
            i <= fds.len(),
            determined@ == all_determined(fds.take(i as int)),
        decreases fds.len() - i,
    {
        let elements = set_elements(&functional_dependencies[i].determined);
        let ghost entry = determined@;
        let mut j: usize = 0;
        while j < elements.len()
            invariant
                i < fds.len(),
                elements@.to_set() == fds[i as int].determined@,
                j <= elements@.len(),
                determined@ == entry.union(elements@.take(j as int).to_set()),
            decreases elements@.len() - j,
        {
            set_insert(&mut determined, elements[j]);
            proof {
                assert(elements@.take(j + 1) =~= elements@.take(j as int).push(elements@[j as int]));
                elements@.take(j as int).lemma_push_to_set_commute(elements@[j as int]);
                assert(determined@ =~= entry.union(elements@.take(j + 1).to_set()));
            }
            j = j + 1;
        }
        proof {
            assert(elements@.take(j as int) =~= elements@);
            assert(determined@ =~= all_determined(fds.take(i + 1))) by {
                assert forall|x: usize| determined@.contains(x) == all_determined(fds.take(i + 1)).contains(x) by {
                    if all_determined(fds.take(i + 1)).contains(x) {
                        let k = choose|k: int| 0 <= k < i + 1 && #[trigger] fds.take(i + 1)[k].determined@.contains(x);
                        if k < i {
                            assert(fds.take(i as int)[k].determined@.contains(x));
                        }
                    }
                    if entry.contains(x) {
                        let k = choose|k: int| 0 <= k < i && #[trigger] fds.take(i as int)[k].determined@.contains(x);
                        assert(fds.take(i + 1)[k].determined@.contains(x));
                    }
                    if fds[i as int].determined@.contains(x) {
                        assert(fds.take(i + 1)[i as int].determined@.contains(x));
                    }
                }
            }
        }
        i = i + 1;
    }
    assert(fds.take(i as int) =~= fds);
    determined
}

/// `positions` is closed under the dependencies: whenever all determiners of
/// a dependency are in it, so are all of its determined positions.
pub open spec fn closed_under(fds: Seq<Fd>, positions: Set<usize>) -> bool {
    forall|i: int|
        #![trigger fds[i]]
        0 <= i < fds.len() && fds[i].determiners@.subset_of(positions)
            ==> fds[i].determined@.subset_of(positions)
}

/// `position` lies in every closed superset of `initial`.
pub open spec fn forced(fds: Seq<Fd>, initial: Set<usize>, position: usize) -> bool {
    forall|positions: Set<usize>|
        #[trigger] closed_under(fds, positions) && initial.subset_of(positions) ==> positions.contains(
            position,
        )
}

/// The positions determined by `initial`: the least superset of `initial`
/// that is closed under the dependencies.
pub open spec fn closure(fds: Seq<Fd>, initial: Set<usize>) -> Set<usize> {
    Set::new(|position: usize| forced(fds, initial, position))
}

/// The positions that some dependency determines.
pub open spec fn all_determined(fds: Seq<Fd>) -> Set<usize> {
    Set::new(|position: usize| exists|i: int| 0 <= i < fds.len() && #[trigger] fds[i].determined@.contains(position))
}

/// The closure of `initial` is a closed superset of `initial`, and lies
/// inside every closed superset of `initial`.
pub proof fn law_closure_is_least_closed_superset(fds: Seq<Fd>, initial: Set<usize>)
    ensures
        initial.subset_of(closure(fds, initial)),
        closed_under(fds, closure(fds, initial)),
        forall|positions: Set<usize>|
            #[trigger] closed_under(fds, positions) && initial.subset_of(positions) ==> closure(
                fds,
                initial,
            ).subset_of(positions),
{
    let result = closure(fds, initial);
    assert forall|i: int|
        #![trigger fds[i]]
        0 <= i < fds.len() && fds[i].determiners@.subset_of(result) implies fds[i].determined@.subset_of(
            result,
        ) by {
        assert forall|x: usize| fds[i].determined@.contains(x) implies result.contains(x) by {
            assert forall|positions: Set<usize>|
                #[trigger] closed_under(fds, positions) && initial.subset_of(
                    positions,
                ) implies positions.contains(x) by {
                assert(fds[i].determiners@.subset_of(positions)) by {
                    assert forall|y: usize| fds[i].determiners@.contains(y) implies positions.contains(y) by {
                        assert(result.contains(y));
                        assert(forced(fds, initial, y));
                    }
                }
            }
        }
    }
}

/// Taking the closure twice gives the closure.
pub proof fn law_closure_idempotent(fds: Seq<Fd>, initial: Set<usize>)
    ensures
        closure(fds, closure(fds, initial)) == closure(fds, initial),
{
    let once = closure(fds, initial);
    let twice = closure(fds, once);
    law_closure_is_least_closed_superset(fds, initial);
    law_closure_is_least_closed_superset(fds, once);
    assert(twice.subset_of(once));
    assert(once.subset_of(twice));
    assert(twice =~= once);
}

/// More known positions determine at least as many positions.
pub proof fn law_closure_monotone(fds: Seq<Fd>, smaller: Set<usize>, larger: Set<usize>)
    requires
        smaller.subset_of(larger),
    ensures
        closure(fds, smaller).subset_of(closure(fds, larger)),
{
    law_closure_is_least_closed_superset(fds, smaller);
    law_closure_is_least_closed_superset(fds, larger);
    assert(smaller.subset_of(closure(fds, larger)));
}

/// A dependency whose determiners are all forced forces its determined
/// positions too.
proof fn lemma_fire(fds: Seq<Fd>, initial: Set<usize>, current: Set<usize>, i: int, x: usize)
    requires
        0 <= i < fds.len(),
        current.subset_of(closure(fds, initial)),
        fds[i].determiners@.subset_of(current),
        fds[i].determined@.contains(x),
    ensures
        closure(fds, initial).contains(x),
{
    law_closure_is_least_closed_superset(fds, initial);
}

/// The number of dependencies among the first `n` whose determined
/// positions are not all in `positions`.
spec fn unsaturated(fds: Seq<Fd>, positions: Set<usize>, n: nat) -> nat
    decreases n,
{
    if n == 0 {
        0
    } else {
        let rest = unsaturated(fds, positions, (n - 1) as nat);
        if fds[n - 1].determined@.subset_of(positions) {
            rest
        } else {
            rest + 1
        }
    }
}

/// Growing the set of positions saturates more dependencies; a dependency
/// that becomes saturated makes the count drop.
proof fn lemma_unsaturated_decreases(
    fds: Seq<Fd>,
    before: Set<usize>,
    after: Set<usize>,
    n: nat,
    witness: int,
)
    requires
        before.subset_of(after),
        n <= fds.len(),
    ensures
        unsaturated(fds, after, n) <= unsaturated(fds, before, n),
        0 <= witness < n && !fds[witness].determined@.subset_of(before)
            && fds[witness].determined@.subset_of(after) ==> unsaturated(fds, after, n)
            < unsaturated(fds, before, n),
    decreases n,
{
    if n > 0 {
        lemma_unsaturated_decreases(fds, before, after, (n - 1) as nat, witness);
        if fds[n - 1].determined@.subset_of(before) {
            assert(fds[n - 1].determined@.subset_of(after));
        }
    }
}

/// The positions that the known `initial_positions` determine through the
/// functional dependencies.
pub fn compute_closure(functional_dependencies: &[Fd], initial_positions: &FxHashSet<usize>) -> (determined: FxHashSet<usize>)
    ensures
        determined@ == closure(functional_dependencies@, initial_positions@),
{
    let ghost fds = functional_dependencies@;
    let ghost initial = initial_positions@;
    let mut determined = set_clone(initial_positions);
    proof {
        law_closure_is_least_closed_superset(fds, initial);
    }
    loop
        invariant
            fds == functional_dependencies@,
            initial == initial_positions@,
            initial.subset_of(determined@),
            determined@.subset_of(closure(fds, initial)),
        decreases unsaturated(fds, determined@, fds.len()),
    {
        let ghost start = determined@;
        let mut changed = false;
        let mut i: usize = 0;
        while i < functional_dependencies.len()
            invariant
                fds == functional_dependencies@,
                initial == initial_positions@,
                i <= fds.len(),
                start.subset_of(determined@),
                initial.subset_of(start),
                determined@.subset_of(closure(fds, initial)),
                !changed ==> determined@ == start,
                !changed ==> forall|k: int|
                    #![trigger fds[k]]
                    0 <= k < i && fds[k].determiners@.subset_of(determined@)
                        ==> fds[k].determined@.subset_of(determined@),
                changed ==> exists|k: int|
                    #![trigger fds[k]]
                    0 <= k < i && !fds[k].determined@.subset_of(start)
                        && fds[k].determined@.subset_of(determined@),
            decreases fds.len() - i,
        {
            let functional_dependency = &functional_dependencies[i];
            if set_is_subset(&functional_dependency.determiners, &determined) {
                let elements = set_elements(&functional_dependency.determined);
                let ghost entry = determined@;
                let ghost entry_changed = changed;
                let mut j: usize = 0;
                while j < elements.len()
                    invariant
                        fds == functional_dependencies@,
                        0 <= i < fds.len(),
                        functional_dependency == fds[i as int],
                        elements@.to_set() == functional_dependency.determined@,
                        j <= elements@.len(),
                        entry.subset_of(determined@),
                        start.subset_of(entry),
                        functional_dependency.determiners@.subset_of(entry),
                        determined@.subset_of(closure(fds, initial)),
                        forall|m: int| 0 <= m < j ==> determined@.contains(#[trigger] elements@[m]),
                        !changed ==> determined@ == entry,
                        !changed ==> entry_changed == false,
                        changed && !entry_changed ==> !functional_dependency.determined@.subset_of(start),
                        entry_changed ==> changed,
                    decreases elements@.len() - j,
                {
                    let position = elements[j];
                    proof {
                        assert(functional_dependency.determined@.contains(position)) by {
                            assert(elements@.to_set().contains(elements@[j as int]));
                        }
                        lemma_fire(fds, initial, determined@, i as int, position);
                    }
                    let ghost before = determined@;
                    if set_insert(&mut determined, position) {
                        if !changed {
                            assert(!start.contains(position));
                        }
                        changed = true;
                    }
                    j = j + 1;
                    proof {
                        assert forall|m: int| 0 <= m < j implies determined@.contains(
                            #[trigger] elements@[m],
                        ) by {
                            if m < j - 1 {
                                assert(before.contains(elements@[m]));
                            }
                        }
                    }
                }
                proof {
                    assert forall|x: usize| functional_dependency.determined@.contains(x) implies determined@.contains(x) by {
                        assert(elements@.to_set().contains(x));
                        let m = elements@.index_of(x);
                        assert(determined@.contains(elements@[m]));
                    }
                    if changed && !entry_changed {
                        assert(!fds[i as int].determined@.subset_of(start));
                        assert(fds[i as int].determined@.subset_of(determined@));
                    }
                    if entry_changed {
                        let k = choose|k: int|
                            #![trigger fds[k]]
                            0 <= k < i && !fds[k].determined@.subset_of(start)
                                && fds[k].determined@.subset_of(entry);
                        assert(fds[k].determined@.subset_of(determined@));
                    }
                }
            }
            i = i + 1;
            proof {
                if changed {
                    assert(exists|k: int|
                        #![trigger fds[k]]
                        0 <= k < i && !fds[k].determined@.subset_of(start)
                            && fds[k].determined@.subset_of(determined@)) by {
                        if exists|k: int|
                            #![trigger fds[k]]
                            0 <= k < i - 1 && !fds[k].determined@.subset_of(start)
                                && fds[k].determined@.subset_of(determined@) {
                        } else {
                            assert(!fds[i - 1].determined@.subset_of(start));
                            assert(fds[i - 1].determined@.subset_of(determined@));
                        }
                    }
                }
            }
        }
        if !changed {
            proof {
                assert(closed_under(fds, determined@));
                assert(closure(fds, initial).subset_of(determined@)) by {
                    assert forall|x: usize| closure(fds, initial).contains(x) implies determined@.contains(x) by {
                        assert(forced(fds, initial, x));
                        assert(closed_under(fds, determined@));
                    }
                }
                assert(determined@ =~= closure(fds, initial));
            }
            return determined;
        }
        proof {
            let k = choose|k: int|
                #![trigger fds[k]]
                0 <= k < fds.len() && !fds[k].determined@.subset_of(start)
                    && fds[k].determined@.subset_of(determined@);
            lemma_unsaturated_decreases(fds, start, determined@, fds.len(), k);
        }
    }
}

/// The argument positions `0..count`.
pub open spec fn all_positions(count: nat) -> Set<usize> {
    Set::new(|position: usize| position < count)
}

/// The subsets of `0..count` in the order in which they are enumerated:
/// starting from the empty set, each position from `count - 1` down to `0`
/// doubles the list by appending a copy of every subset so far with that
/// position added.
pub open spec fn position_subsets(count: nat, processed: nat) -> Seq<Set<usize>>
    decreases processed,
{
    if processed == 0 {
        seq![Set::<usize>::empty()]
    } else {
        let previous = position_subsets(count, (processed - 1) as nat);
        let position = (count - processed) as usize;
        previous + previous.map_values(|subset: Set<usize>| subset.insert(position))
    }
}

/// Knowing the positions in `known` determines every argument position.
pub open spec fn covers(fds: Seq<Fd>, count: nat, known: Set<usize>) -> bool {
    closure(fds, known) == all_positions(count)
}

pub open spec fn covering(fds: Seq<Fd>, count: nat) -> spec_fn(Set<usize>) -> bool {
    |known: Set<usize>| covers(fds, count, known)
}

/// The covering subsets, in enumeration order.
pub open spec fn covering_sets(fds: Seq<Fd>, count: nat) -> Seq<Set<usize>> {
    position_subsets(count, count).filter(covering(fds, count))
}

/// `candidate` contains no other set of `sets`.
pub open spec fn minimal_among(sets: Seq<Set<usize>>) -> spec_fn(Set<usize>) -> bool {
    |candidate: Set<usize>|
        !exists|k: int| 0 <= k < sets.len() && sets[k] != candidate && #[trigger] sets[k].subset_of(candidate)
}

/// The minimal covering sets: the covering subsets that contain no other
/// covering subset, in enumeration order.
pub open spec fn minimal_covering_sets(fds: Seq<Fd>, count: nat) -> Seq<Set<usize>> {
    covering_sets(fds, count).filter(minimal_among(covering_sets(fds, count)))
}

pub open spec fn views(sets: Seq<FxHashSet<usize>>) -> Seq<Set<usize>> {
    sets.map_values(|set: FxHashSet<usize>| set@)
}

/// Every subset of `0..argument_count`, in enumeration order.
fn argument_position_subsets(argument_count: usize) -> (subsets: Vec<FxHashSet<usize>>)
    ensures
        views(subsets@) == position_subsets(argument_count as nat, argument_count as nat),
{
    let mut subsets: Vec<FxHashSet<usize>> = Vec::new();
    subsets.push(FxHashSet::default());
    assert(views(subsets@) =~= position_subsets(argument_count as nat, 0));
    let mut argument_position: usize = argument_count;
    while argument_position > 0
        invariant
            argument_position <= argument_count,
            views(subsets@) == position_subsets(
                argument_count as nat,
                (argument_count - argument_position) as nat,
            ),
        decreases argument_position,
    {
        argument_position = argument_position - 1;
        let ghost previous = views(subsets@);
        let count = subsets.len();
        let mut index: usize = 0;
        while index < count
            invariant
                count == previous.len(),
                index <= count,
                subsets@.len() == count + index,
                views(subsets@) == previous + previous.take(index as int).map_values(
                    |subset: Set<usize>| subset.insert(argument_position),
                ),
            decreases count - index,
        {
            let mut subset = set_clone(&subsets[index]);
            proof {
                assert(subsets@[index as int]@ == views(subsets@)[index as int]);
            }
            set_insert(&mut subset, argument_position);
            let ghost before = subsets@;
            subsets.push(subset);
            index = index + 1;
            proof {
                assert(views(subsets@) =~= previous + previous.take(index as int).map_values(
                    |subset: Set<usize>| subset.insert(argument_position),
                )) by {
                    assert(views(subsets@) =~= views(before).push(subset@));
                }
            }
        }
        proof {
            assert(previous.take(count as int) =~= previous);
            let processed = (argument_count - argument_position) as nat;
            assert(argument_position == (argument_count as nat - processed) as usize);
        }
    }
    subsets
}

/// The minimal sets of argument positions that determine every argument
/// position of a class with `argument_count` arguments.
pub fn compute_covering_sets(functional_dependencies: &[Fd], argument_count: usize) -> (sets: Vec<FxHashSet<usize>>)
    ensures
        views(sets@) == minimal_covering_sets(functional_dependencies@, argument_count as nat),
{
    let ghost fds = functional_dependencies@;
    let ghost count = argument_count as nat;
    let mut all_argument_positions: FxHashSet<usize> = FxHashSet::default();
    let mut position: usize = 0;
    while position < argument_count
        invariant
            position <= argument_count,
            all_argument_positions@ == all_positions(position as nat),
        decreases argument_count - position,
    {
        set_insert(&mut all_argument_positions, position);
        position = position + 1;
        assert(all_argument_positions@ =~= all_positions(position as nat));
    }

    let subsets = argument_position_subsets(argument_count);
    let mut all_covering_sets: Vec<FxHashSet<usize>> = Vec::new();
    let mut k: usize = 0;
    while k < subsets.len()
        invariant
            fds == functional_dependencies@,
            count == argument_count as nat,
            all_argument_positions@ == all_positions(count),
            views(subsets@) == position_subsets(count, count),
            k <= subsets@.len(),
            views(all_covering_sets@) == views(subsets@).take(k as int).filter(covering(fds, count)),
        decreases subsets@.len() - k,
    {
        let determined_positions = compute_closure(functional_dependencies, &subsets[k]);
        let ghost before = all_covering_sets@;
        let ghost known = views(subsets@)[k as int];
        assert(subsets@[k as int]@ == known);
        if set_equal(&determined_positions, &all_argument_positions) {
            all_covering_sets.push(set_clone(&subsets[k]));
            assert(views(all_covering_sets@) =~= views(before).push(known));
        }
        proof {
            assert(views(subsets@).take(k + 1) =~= views(subsets@).take(k as int).push(known));
            views(subsets@).take(k as int).lemma_filter_push(known, covering(fds, count));
        }
        k = k + 1;
    }
    proof {
        assert(views(subsets@).take(k as int) =~= views(subsets@));
    }

    let ghost all = views(all_covering_sets@);
    let mut minimal_covering_sets: Vec<FxHashSet<usize>> = Vec::new();
    let mut k: usize = 0;
    while k < all_covering_sets.len()
        invariant
            all == views(all_covering_sets@),
            k <= all.len(),
            views(minimal_covering_sets@) == all.take(k as int).filter(minimal_among(all)),
        decreases all.len() - k,
    {
        let covering_set = &all_covering_sets[k];
        assert(covering_set@ == all[k as int]);
        let mut dominated = false;
        let mut j: usize = 0;
        while j < all_covering_sets.len()
            invariant
                all == views(all_covering_sets@),
                k < all.len(),
                covering_set@ == all[k as int],
                j <= all.len(),
                dominated == exists|m: int| 0 <= m < j && all[m] != covering_set@ && #[trigger] all[m].subset_of(covering_set@),
            decreases all.len() - j,
        {
            let other_covering_set = &all_covering_sets[j];
            assert(other_covering_set@ == all[j as int]);
            if !set_equal(other_covering_set, covering_set) && set_is_subset(other_covering_set, covering_set) {
                dominated = true;
            }
            j = j + 1;
        }
        let ghost before = minimal_covering_sets@;
        if !dominated {
            minimal_covering_sets.push(set_clone(covering_set));
            assert(views(minimal_covering_sets@) =~= views(before).push(all[k as int]));
        }
        proof {
            assert(all.take(k + 1) =~= all.take(k as int).push(all[k as int]));
            all.take(k as int).lemma_filter_push(all[k as int], minimal_among(all));
        }
        k = k + 1;
    }
    proof {
        assert(all.take(k as int) =~= all);
    }
    minimal_covering_sets
}

/// Every minimal covering set determines all argument positions.
pub proof fn law_minimal_covering_sets_cover(fds: Seq<Fd>, count: nat, i: int)
    requires
        0 <= i < minimal_covering_sets(fds, count).len(),
    ensures
        covers(fds, count, minimal_covering_sets(fds, count)[i]),
{
    let all = covering_sets(fds, count);
    let minimal = minimal_covering_sets(fds, count);
    assert(minimal.contains(minimal[i]));
    all.lemma_filter_contains_rev(minimal_among(all), minimal[i]);
    let k = choose|k: int| 0 <= k < all.len() && all[k] == minimal[i];
    position_subsets(count, count).lemma_filter_pred(covering(fds, count), k);
}

/// No minimal covering set contains another one.
pub proof fn law_minimal_covering_sets_minimal(fds: Seq<Fd>, count: nat, i: int, j: int)
    requires
        0 <= i < minimal_covering_sets(fds, count).len(),
        0 <= j < minimal_covering_sets(fds, count).len(),
        minimal_covering_sets(fds, count)[i] != minimal_covering_sets(fds, count)[j],
    ensures
        !minimal_covering_sets(fds, count)[j].subset_of(minimal_covering_sets(fds, count)[i]),
{
    let all = covering_sets(fds, count);
    let minimal = minimal_covering_sets(fds, count);
    all.lemma_filter_pred(minimal_among(all), i);
    assert(minimal.contains(minimal[j]));
    all.lemma_filter_contains_rev(minimal_among(all), minimal[j]);
    let k = choose|k: int| 0 <= k < all.len() && all[k] == minimal[j];
    if minimal[j].subset_of(minimal[i]) {
        assert(all[k].subset_of(minimal[i]));
    }
}

/// The enumeration of the subsets of the last `processed` positions below
/// `count` holds each of them.
proof fn lemma_subsets_enumerated(count: nat, processed: nat, subset: Set<usize>)
    requires
        processed <= count <= usize::MAX,
        forall|position: usize| #[trigger] subset.contains(position) ==> count - processed <= position < count,
    ensures
        position_subsets(count, processed).contains(subset),
    decreases processed,
{
    if processed == 0 {
        assert(subset =~= Set::<usize>::empty());
        assert(position_subsets(count, 0)[0] == subset);
    } else {
        let previous = position_subsets(count, (processed - 1) as nat);
        let position = (count - processed) as usize;
        let add = |set: Set<usize>| set.insert(position);
        assert(position_subsets(count, processed) == previous + previous.map_values(add));
        if subset.contains(position) {
            let rest = subset.remove(position);
            lemma_subsets_enumerated(count, (processed - 1) as nat, rest);
            let k = choose|k: int| 0 <= k < previous.len() && previous[k] == rest;
            assert(rest.insert(position) =~= subset);
            assert((previous + previous.map_values(add))[previous.len() + k] == subset);
        } else {
            lemma_subsets_enumerated(count, (processed - 1) as nat, subset);
            let k = choose|k: int| 0 <= k < previous.len() && previous[k] == subset;
            assert((previous + previous.map_values(add))[k] == subset);
        }
    }
}

/// Every set of argument positions that determines all of them, and
/// contains no other set of argument positions that does, is one of the
/// minimal covering sets: the result holds every inclusion-minimal covering
/// set, not only the smallest ones.
pub proof fn law_minimal_covering_sets_complete(fds: Seq<Fd>, count: nat, candidate: Set<usize>)
    requires
        count <= usize::MAX,
        candidate.subset_of(all_positions(count)),
        covers(fds, count, candidate),
        forall|other: Set<usize>|
            #[trigger] other.subset_of(candidate) && other != candidate ==> !covers(fds, count, other),
    ensures
        minimal_covering_sets(fds, count).contains(candidate),
{
    let subsets = position_subsets(count, count);
    lemma_subsets_enumerated(count, count, candidate);
    let i = choose|i: int| 0 <= i < subsets.len() && subsets[i] == candidate;
    subsets.lemma_filter_contains(covering(fds, count), i);
    let all = covering_sets(fds, count);
    let j = choose|j: int| 0 <= j < all.len() && all[j] == candidate;
    assert(minimal_among(all)(candidate)) by {
        if exists|k: int| 0 <= k < all.len() && all[k] != candidate && #[trigger] all[k].subset_of(candidate) {
            let k = choose|k: int| 0 <= k < all.len() && all[k] != candidate && #[trigger] all[k].subset_of(candidate);
            subsets.lemma_filter_pred(covering(fds, count), k);
            assert(covers(fds, count, all[k]));
        }
    }
    all.lemma_filter_contains(minimal_among(all), j);
}

/// The argument positions whose arguments are known: those not blocked on
/// an unsolved unification variable.
pub open spec fn known_positions(blocked: Seq<bool>) -> Set<usize> {
    Set::new(|position: usize| position < blocked.len() && !blocked[position as int])
}

/// Whether a constraint whose arguments are blocked as `blocked` says
/// (one entry per argument position) can improve them: the functional
/// dependencies determine, from the known positions, some position that is
/// still blocked.
pub fn is_improving(functional_dependencies: &[Fd], blocked: &Vec<bool>) -> (improving: bool)
    ensures
        improving == exists|position: usize|
            #[trigger] closure(functional_dependencies@, known_positions(blocked@)).contains(position) && position
                < blocked@.len() && blocked@[position as int],
{
    let ghost known_spec = known_positions(blocked@);
    if functional_dependencies.len() == 0 {
        proof {
            law_closure_is_least_closed_superset(functional_dependencies@, known_spec);
            assert forall|position: usize| #[trigger] closure(functional_dependencies@, known_spec).contains(position)
                implies !(position < blocked@.len() && blocked@[position as int]) by {
                assert(closed_under(functional_dependencies@, known_spec));
                assert(closure(functional_dependencies@, known_spec).subset_of(known_spec));
            }
        }
        return false;
    }
    let mut known: FxHashSet<usize> = FxHashSet::default();
    let mut position: usize = 0;
    while position < blocked.len()
        invariant
            position <= blocked@.len(),
            known@ == Set::new(|p: usize| p < position && !blocked@[p as int]),
        decreases blocked@.len() - position,
    {
        let ghost before = known@;
        if !blocked[position] {
            set_insert(&mut known, position);
        }
        proof {
            assert(known@ =~= Set::new(|p: usize| p < position + 1 && !blocked@[p as int]));
        }
        position = position + 1;
    }
    proof {
        assert(known@ =~= known_spec);
    }
    let determined = compute_closure(functional_dependencies, &known);
    let candidates = set_elements(&determined);
    let mut k: usize = 0;
    while k < candidates.len()
        invariant
            k <= candidates@.len(),
            known_spec == known_positions(blocked@),
            candidates@.to_set() == closure(functional_dependencies@, known_spec),
            forall|j: int| 0 <= j < k ==> !((#[trigger] candidates@[j]) < blocked@.len() && blocked@[candidates@[j] as int]),
        decreases candidates@.len() - k,
    {
        let candidate = candidates[k];
        if candidate < blocked.len() && blocked[candidate] {
            proof {
                assert(candidates@.to_set().contains(candidate));
                assert(closure(functional_dependencies@, known_positions(blocked@)).contains(candidate));
            }
            return true;
        }
        k = k + 1;
    }
    proof {
        assert forall|position: usize| #[trigger] closure(functional_dependencies@, known_spec).contains(position)
            implies !(position < blocked@.len() && blocked@[position as int]) by {
            assert(candidates@.to_set().contains(position));
            let j = choose|j: int| 0 <= j < candidates@.len() && candidates@[j] == position;
            assert(!(candidates@[j] < blocked@.len() && blocked@[candidates@[j] as int]));
        }
    }
    false
}

} // verus!
