use crate::link_path;
use crate::note_moves;
use crate::note_moves::{
    ItemView, MoveAction, MoveEvent, MoveItem, MoveItemResult, MoveOutcome, PendingMove,
    PendingView, PlanView, ResultView, SourceProbe,
};
use crate::text;
use crate::text_laws::{ascending, lemma_ascending_push};
use vstd::prelude::*;

verus! {

/// Whether `path` goes on behind `folder` with a slash.
pub open spec fn below(path: Seq<char>, folder: Seq<char>) -> bool {
    &&& folder.len() < path.len()
    &&& path.take(folder.len() as int) == folder
    &&& path[folder.len() as int] == '/'
}

/// A path is a descendant of a folder other than the vault root, which has no name, if it is that
/// folder or goes on behind it with a slash.
pub proof fn law_descendant(path: Seq<char>, parent: Seq<char>)
    ensures
        note_moves::descendant(path, parent) <==> parent.len() > 0 && (path == parent || below(
            path,
            parent,
        )),
{
    reveal_strlit("/");
    let p = parent + "/"@;
    if p.is_prefix_of(path) {
        let n = parent.len() as int;
        assert(path.take(n) =~= path.take(n + 1).take(n));
        assert(path.take(n + 1)[n] == path[n]);
        assert(p.take(n) =~= parent);
    }
    if below(path, parent) {
        assert(path.take(p.len() as int) =~= p);
    }
}

/// Whether the item at place `i` is asked for again: one before it has the same path in some case.
pub open spec fn again(items: Seq<ItemView>, i: int) -> bool {
    exists|j: int|
        0 <= j < i && text::unicode_lower((#[trigger] items[j]).path) == text::unicode_lower(
            items[i].path,
        )
}

/// Whether a folder is asked to be moved into itself or into a folder below it.
pub open spec fn into_itself(item: ItemView, target: Seq<char>) -> bool {
    item.is_folder && (target == item.path || below(target, item.path))
}

/// Whether it shows without a look at its place that the item at place `i` cannot be moved.
pub open spec fn hopeless(items: Seq<ItemView>, target: Seq<char>, i: int) -> bool {
    again(items, i) || items[i].path.len() == 0 || into_itself(items[i], target)
}

/// Whether what is at the place of an item is of the kind that was asked for.
pub open spec fn of_its_kind(item: ItemView, probe: SourceProbe) -> bool {
    match probe {
        SourceProbe::Found { is_dir, is_file } => if item.is_folder {
            is_dir
        } else {
            is_file
        },
        _ => false,
    }
}

/// The path of `name` in the folder `target`.
pub open spec fn put_in(target: Seq<char>, name: Seq<char>) -> Seq<char> {
    if target.len() == 0 {
        name
    } else {
        target + "/"@ + name
    }
}

/// Whether the item at place `i` may be moved: it is not the vault root, was not asked for before,
/// is not to go into itself, is there and of its kind, has a name, and is not where it is to go.
pub open spec fn may_move(
    items: Seq<ItemView>,
    leaves: Seq<Option<Seq<char>>>,
    target: Seq<char>,
    probes: Seq<Option<SourceProbe>>,
    i: int,
) -> bool {
    &&& !again(items, i)
    &&& items[i].path.len() > 0
    &&& !into_itself(items[i], target)
    &&& probes[i] is Some
    &&& of_its_kind(items[i], probes[i]->0)
    &&& leaves[i] is Some
    &&& put_in(target, leaves[i]->0) != items[i].path
}

/// Whether each item whose place has to be looked at was looked at.
pub open spec fn looked_at(
    items: Seq<ItemView>,
    target: Seq<char>,
    probes: Seq<Option<SourceProbe>>,
) -> bool {
    forall|i: int| 0 <= i < items.len() && !(#[trigger] hopeless(items, target, i)) ==> probes[i] is Some
}

/// An item is looked at before it is known whether it can be moved, unless it is hopeless.
pub proof fn law_hopeless_items_are_not_looked_at(items: Seq<ItemView>, target: Seq<char>, i: int)
    requires
        0 <= i < items.len(),
    ensures
        note_moves::early_fault(items, target, i) is Some <==> hopeless(items, target, i),
        again(items, i) ==> note_moves::early_fault(items, target, i) == Some(
            "duplicate item path"@,
        ),
        !again(items, i) && items[i].path.len() == 0 ==> note_moves::early_fault(items, target, i)
            == Some("cannot move vault root"@),
        !again(items, i) && items[i].path.len() > 0 && into_itself(items[i], target)
            ==> note_moves::early_fault(items, target, i) == Some(
            "cannot move folder into itself"@,
        ),
{
    law_descendant(target, items[i].path);
    if note_moves::repeated(items, i) {
        let j = choose|j: int|
            0 <= j < i && text::unicode_lower((#[trigger] items[j]).path) == text::unicode_lower(
                items[i].path,
            );
        assert(items[j] == items[j]);
    }
    if again(items, i) {
        let j = choose|j: int|
            0 <= j < i && text::unicode_lower((#[trigger] items[j]).path) == text::unicode_lower(
                items[i].path,
            );
        assert(items[j] == items[j]);
    }
}

/// An item that may be moved is taken up, with the path of its name in the target folder; no other
/// is, and the items stay in order.
pub proof fn law_each_movable_item_is_taken_up(
    items: Seq<ItemView>,
    leaves: Seq<Option<Seq<char>>>,
    target: Seq<char>,
    probes: Seq<Option<SourceProbe>>,
    n: int,
    plan: PlanView,
) -> (places: Seq<int>)
    requires
        0 <= n <= items.len(),
        looked_at(items, target, probes),
        note_moves::plan_of(items, leaves, target, probes, n) == Ok::<PlanView, Seq<char>>(plan),
    ensures
        ascending(places, n),
        forall|i: int|
            0 <= i < n ==> (#[trigger] may_move(items, leaves, target, probes, i)
                <==> places.contains(i)),
        plan.candidates.len() == places.len(),
        forall|k: int|
            0 <= k < places.len() ==> (#[trigger] plan.candidates[k]).item == items[places[k]],
        forall|k: int|
            0 <= k < places.len() ==> (#[trigger] plan.candidates[k]).destination == put_in(
                target,
                leaves[places[k]]->0,
            ),
    decreases n,
{
    if n == 0 {
        Seq::empty()
    } else {
        let before = note_moves::plan_of(items, leaves, target, probes, n - 1)->Ok_0;
        let old = law_each_movable_item_is_taken_up(items, leaves, target, probes, n - 1, before);
        lemma_ascending_push(old, n - 1);
        law_hopeless_items_are_not_looked_at(items, target, n - 1);
        assert(hopeless(items, target, n - 1) || probes[n - 1] is Some);
        let places = if may_move(items, leaves, target, probes, n - 1) {
            old.push(n - 1)
        } else {
            old
        };
        assert(note_moves::plan_step(before, items, leaves, target, probes, n - 1) == Ok::<
            PlanView,
            Seq<char>,
        >(plan));
        assert forall|i: int| 0 <= i < n implies (#[trigger] may_move(
            items,
            leaves,
            target,
            probes,
            i,
        ) <==> places.contains(i)) by {
            text::lemma_push_contains(old, n - 1, i);
            if i == n - 1 && old.contains(i) {
                let a = choose|a: int| 0 <= a < old.len() && old[a] == i;
                assert(old[a] < n - 1);
            }
        }
        assert forall|k: int| 0 <= k < places.len() implies (
        #[trigger] plan.candidates[k]).item == items[places[k]] && plan.candidates[k].destination
            == put_in(target, leaves[places[k]]->0) by {
            if k < old.len() {
                assert(plan.candidates[k] == before.candidates[k]);
            }
        }
        places
    }
}

/// Whether `error` is why the item at place `i` is refused.
pub open spec fn is_reason(
    error: Seq<char>,
    items: Seq<ItemView>,
    target: Seq<char>,
    probes: Seq<Option<SourceProbe>>,
    i: int,
) -> bool {
    if again(items, i) {
        error == "duplicate item path"@
    } else if items[i].path.len() == 0 {
        error == "cannot move vault root"@
    } else if into_itself(items[i], target) {
        error == "cannot move folder into itself"@
    } else {
        match probes[i]->0 {
            SourceProbe::Unresolved(_) => false,
            SourceProbe::Unreadable(e) => error == e@,
            SourceProbe::Found { is_dir, is_file } => {
                &&& items[i].is_folder && !is_dir ==> error == "source is not a directory"@
                &&& !items[i].is_folder && !is_file ==> error == "source is not a file"@
                &&& of_its_kind(items[i], probes[i]->0) ==> error
                    == "item already in target folder"@
            },
        }
    }
}

/// Each item that may not be moved is answered with the reason, and stays where it is.
pub proof fn law_each_other_item_is_refused(
    items: Seq<ItemView>,
    leaves: Seq<Option<Seq<char>>>,
    target: Seq<char>,
    probes: Seq<Option<SourceProbe>>,
    n: int,
    plan: PlanView,
) -> (places: Seq<int>)
    requires
        0 <= n <= items.len(),
        looked_at(items, target, probes),
        note_moves::plan_of(items, leaves, target, probes, n) == Ok::<PlanView, Seq<char>>(plan),
    ensures
        ascending(places, n),
        forall|i: int|
            0 <= i < n ==> (!(#[trigger] may_move(items, leaves, target, probes, i))
                <==> places.contains(i)),
        plan.results.len() == places.len(),
        forall|k: int|
            0 <= k < places.len() ==> {
                let result = #[trigger] plan.results[k];
                &&& result.path == items[places[k]].path
                &&& result.new_path == items[places[k]].path
                &&& !result.success
                &&& result.error is Some
                &&& is_reason(result.error->0, items, target, probes, places[k])
            },
    decreases n,
{
    if n == 0 {
        Seq::empty()
    } else {
        let before = note_moves::plan_of(items, leaves, target, probes, n - 1)->Ok_0;
        let old = law_each_other_item_is_refused(items, leaves, target, probes, n - 1, before);
        lemma_ascending_push(old, n - 1);
        law_hopeless_items_are_not_looked_at(items, target, n - 1);
        assert(hopeless(items, target, n - 1) || probes[n - 1] is Some);
        let places = if may_move(items, leaves, target, probes, n - 1) {
            old
        } else {
            old.push(n - 1)
        };
        assert(note_moves::plan_step(before, items, leaves, target, probes, n - 1) == Ok::<
            PlanView,
            Seq<char>,
        >(plan));
        assert forall|i: int| 0 <= i < n implies (!(#[trigger] may_move(
            items,
            leaves,
            target,
            probes,
            i,
        )) <==> places.contains(i)) by {
            text::lemma_push_contains(old, n - 1, i);
            if i == n - 1 && old.contains(i) {
                let a = choose|a: int| 0 <= a < old.len() && old[a] == i;
                assert(old[a] < n - 1);
            }
        }
        assert forall|k: int| 0 <= k < places.len() implies {
            let result = #[trigger] plan.results[k];
            &&& result.path == items[places[k]].path
            &&& result.new_path == items[places[k]].path
            &&& !result.success
            &&& result.error is Some
            &&& is_reason(result.error->0, items, target, probes, places[k])
        } by {
            if k < old.len() {
                assert(plan.results[k] == before.results[k]);
                assert(places[k] == old[k]);
            }
        }
        places
    }
}

/// Whether the item at place `i` ends the whole move with `error`: its place lies outside the vault,
/// or it could be moved but has no name.
pub open spec fn ends_all(
    error: Seq<char>,
    items: Seq<ItemView>,
    leaves: Seq<Option<Seq<char>>>,
    target: Seq<char>,
    probes: Seq<Option<SourceProbe>>,
    i: int,
) -> bool {
    &&& !hopeless(items, target, i)
    &&& match probes[i]->0 {
        SourceProbe::Unresolved(e) => error == e@,
        _ => of_its_kind(items[i], probes[i]->0) && leaves[i] is None && error
            == "invalid source path"@,
    }
}

/// The whole move ends with an error just if an item ends it, and with the error of the first that
/// does.
pub proof fn law_first_error_ends_the_move(
    items: Seq<ItemView>,
    leaves: Seq<Option<Seq<char>>>,
    target: Seq<char>,
    probes: Seq<Option<SourceProbe>>,
    n: int,
)
    requires
        0 <= n <= items.len(),
        looked_at(items, target, probes),
    ensures
        match note_moves::plan_of(items, leaves, target, probes, n) {
            Ok(_) => forall|i: int, e: Seq<char>|
                0 <= i < n ==> !(#[trigger] ends_all(e, items, leaves, target, probes, i)),
            Err(error) => exists|i: int|
                0 <= i < n && #[trigger] ends_all(error, items, leaves, target, probes, i) && (
                forall|j: int, e: Seq<char>|
                    0 <= j < i ==> !(#[trigger] ends_all(e, items, leaves, target, probes, j))),
        },
    decreases n,
{
    if n > 0 {
        law_first_error_ends_the_move(items, leaves, target, probes, n - 1);
        law_hopeless_items_are_not_looked_at(items, target, n - 1);
        assert(hopeless(items, target, n - 1) || probes[n - 1] is Some);
        match note_moves::plan_of(items, leaves, target, probes, n - 1) {
            Ok(before) => {
                match note_moves::plan_step(before, items, leaves, target, probes, n - 1) {
                    Ok(_) => {},
                    Err(error) => {
                        assert(ends_all(error, items, leaves, target, probes, n - 1));
                    },
                }
            },
            Err(error) => {
                let i = choose|i: int|
                    0 <= i < n - 1 && #[trigger] ends_all(
                        error,
                        items,
                        leaves,
                        target,
                        probes,
                        i,
                    ) && (forall|j: int, e: Seq<char>|
                        0 <= j < i ==> !(#[trigger] ends_all(e, items, leaves, target, probes, j)));
                assert(ends_all(error, items, leaves, target, probes, i));
            },
        }
    }
}

/// The items below a folder are listed just as they stand among all items.
pub proof fn law_nested_paths(items: Seq<ItemView>, folder: Seq<char>, path: Seq<char>)
    ensures
        note_moves::nested_paths(items, folder).contains(path) <==> folder.len() > 0 && below(
            path,
            folder,
        ) && exists|j: int| 0 <= j < items.len() && (#[trigger] items[j]).path == path,
    decreases items.len(),
{
    if items.len() > 0 {
        let front = items.drop_last();
        let before = note_moves::nested_paths(front, folder);
        let last = items.last().path;
        law_nested_paths(front, folder, path);
        law_descendant(last, folder);
        text::lemma_push_contains(before, last, path);
        assert(items[items.len() - 1].path == last);
        if exists|j: int| 0 <= j < items.len() && (#[trigger] items[j]).path == path {
            let j = choose|j: int| 0 <= j < items.len() && (#[trigger] items[j]).path == path;
            if j < front.len() {
                assert(front[j].path == path);
            }
        }
        if exists|j: int| 0 <= j < front.len() && (#[trigger] front[j]).path == path {
            let j = choose|j: int| 0 <= j < front.len() && (#[trigger] front[j]).path == path;
            assert(items[j].path == path);
        }
    }
}

/// Whether the item at place `b` lies in the folder at place `a`, which may be moved itself, and has
/// the path `path` in some case.
pub open spec fn carried_by(
    items: Seq<ItemView>,
    leaves: Seq<Option<Seq<char>>>,
    target: Seq<char>,
    probes: Seq<Option<SourceProbe>>,
    a: int,
    b: int,
    path: Seq<char>,
) -> bool {
    &&& 0 <= a < items.len()
    &&& 0 <= b < items.len()
    &&& may_move(items, leaves, target, probes, a)
    &&& items[a].is_folder
    &&& below(items[b].path, items[a].path)
    &&& text::unicode_lower(items[b].path) == text::unicode_lower(path)
}

/// Whether the item at place `i` lies in a folder that may be moved itself.
pub open spec fn carried(
    items: Seq<ItemView>,
    leaves: Seq<Option<Seq<char>>>,
    target: Seq<char>,
    probes: Seq<Option<SourceProbe>>,
    i: int,
) -> bool {
    exists|a: int, b: int| #[trigger]
        carried_by(items, leaves, target, probes, a, b, items[i].path)
}

proof fn lemma_nested_of_plan(
    items: Seq<ItemView>,
    leaves: Seq<Option<Seq<char>>>,
    target: Seq<char>,
    probes: Seq<Option<SourceProbe>>,
    n: int,
    plan: PlanView,
    path: Seq<char>,
)
    requires
        0 <= n <= items.len(),
        looked_at(items, target, probes),
        note_moves::plan_of(items, leaves, target, probes, n) == Ok::<PlanView, Seq<char>>(plan),
    ensures
        plan.nested.contains(path) <==> exists|a: int|
            0 <= a < n && #[trigger] may_move(items, leaves, target, probes, a)
                && items[a].is_folder && note_moves::nested_paths(items, items[a].path).contains(
                path,
            ),
    decreases n,
{
    if n > 0 {
        let before = note_moves::plan_of(items, leaves, target, probes, n - 1)->Ok_0;
        lemma_nested_of_plan(items, leaves, target, probes, n - 1, before, path);
        law_hopeless_items_are_not_looked_at(items, target, n - 1);
        assert(hopeless(items, target, n - 1) || probes[n - 1] is Some);
        assert(note_moves::plan_step(before, items, leaves, target, probes, n - 1) == Ok::<
            PlanView,
            Seq<char>,
        >(plan));
        if may_move(items, leaves, target, probes, n - 1) && items[n - 1].is_folder {
            let more = note_moves::nested_paths(items, items[n - 1].path);
            assert(plan.nested == before.nested + more);
            if plan.nested.contains(path) {
                let k = choose|k: int| 0 <= k < plan.nested.len() && plan.nested[k] == path;
                if k < before.nested.len() {
                    assert(before.nested[k] == path);
                } else {
                    assert(more[k - before.nested.len()] == path);
                }
            }
            if before.nested.contains(path) {
                let k = choose|k: int| 0 <= k < before.nested.len() && before.nested[k] == path;
                assert(plan.nested[k] == path);
            }
            if more.contains(path) {
                let k = choose|k: int| 0 <= k < more.len() && more[k] == path;
                assert(plan.nested[before.nested.len() + k] == path);
            }
        } else {
            assert(plan.nested == before.nested);
        }
    }
}

proof fn lemma_contained(
    items: Seq<ItemView>,
    leaves: Seq<Option<Seq<char>>>,
    target: Seq<char>,
    probes: Seq<Option<SourceProbe>>,
    plan: PlanView,
    i: int,
    candidate: PendingView,
)
    requires
        0 <= i < items.len(),
        looked_at(items, target, probes),
        note_moves::plan_of(items, leaves, target, probes, items.len() as int) == Ok::<
            PlanView,
            Seq<char>,
        >(plan),
        candidate.item == items[i],
    ensures
        note_moves::contained(plan.nested, candidate) <==> carried(
            items,
            leaves,
            target,
            probes,
            i,
        ),
{
    let n = items.len() as int;
    let nested = plan.nested;
    let low = text::unicode_lower(items[i].path);
    if note_moves::contained(nested, candidate) {
        let k = choose|k: int|
            0 <= k < nested.len() && text::unicode_lower(#[trigger] nested[k]) == low;
        let path = nested[k];
        assert(nested.contains(path));
        lemma_nested_of_plan(items, leaves, target, probes, n, plan, path);
        let a = choose|a: int|
            0 <= a < n && #[trigger] may_move(items, leaves, target, probes, a)
                && items[a].is_folder && note_moves::nested_paths(items, items[a].path).contains(
                path,
            );
        law_nested_paths(items, items[a].path, path);
        let b = choose|b: int| 0 <= b < items.len() && (#[trigger] items[b]).path == path;
        assert(carried_by(items, leaves, target, probes, a, b, items[i].path));
    }
    if carried(items, leaves, target, probes, i) {
        let (a, b) = choose|a: int, b: int| #[trigger]
            carried_by(items, leaves, target, probes, a, b, items[i].path);
        let path = items[b].path;
        law_nested_paths(items, items[a].path, path);
        assert(items[b].path == path);
        lemma_nested_of_plan(items, leaves, target, probes, n, plan, path);
        assert(nested.contains(path));
        let k = choose|k: int| 0 <= k < nested.len() && nested[k] == path;
        assert(text::unicode_lower(nested[k]) == low);
    }
}

proof fn lemma_kept_places(
    items: Seq<ItemView>,
    leaves: Seq<Option<Seq<char>>>,
    target: Seq<char>,
    probes: Seq<Option<SourceProbe>>,
    plan: PlanView,
    all: Seq<int>,
    n: int,
) -> (r: (Seq<int>, Seq<int>))
    requires
        looked_at(items, target, probes),
        note_moves::plan_of(items, leaves, target, probes, items.len() as int) == Ok::<
            PlanView,
            Seq<char>,
        >(plan),
        ascending(all, items.len() as int),
        all.len() == plan.candidates.len(),
        0 <= n <= all.len(),
        forall|k: int|
            0 <= k < all.len() ==> (#[trigger] plan.candidates[k]).item == items[all[k]],
        forall|k: int|
            0 <= k < all.len() ==> (#[trigger] plan.candidates[k]).destination == put_in(
                target,
                leaves[all[k]]->0,
            ),
    ensures
        ascending(r.0, items.len() as int),
        ascending(r.1, items.len() as int),
        n > 0 ==> forall|k: int| 0 <= k < r.0.len() ==> #[trigger] r.0[k] <= all[n - 1],
        n > 0 ==> forall|k: int| 0 <= k < r.1.len() ==> #[trigger] r.1[k] <= all[n - 1],
        n == 0 ==> r.0.len() == 0 && r.1.len() == 0,
        forall|i: int|
            r.0.contains(i) <==> (exists|k: int| 0 <= k < n && #[trigger] all[k] == i) && !carried(
                items,
                leaves,
                target,
                probes,
                i,
            ),
        forall|i: int|
            r.1.contains(i) <==> (exists|k: int| 0 <= k < n && #[trigger] all[k] == i) && carried(
                items,
                leaves,
                target,
                probes,
                i,
            ),
        note_moves::kept_candidates(plan, n).len() == r.0.len(),
        note_moves::contained_results(plan, n).len() == r.1.len(),
        forall|k: int|
            0 <= k < r.0.len() ==> (#[trigger] note_moves::kept_candidates(plan, n)[k]).item
                == items[r.0[k]] && note_moves::kept_candidates(plan, n)[k].destination == put_in(
                target,
                leaves[r.0[k]]->0,
            ),
        forall|k: int|
            0 <= k < r.1.len() ==> (#[trigger] note_moves::contained_results(plan, n)[k]) == (
            ResultView {
                path: items[r.1[k]].path,
                new_path: put_in(target, leaves[r.1[k]]->0),
                success: false,
                error: Some("item is contained within another moved folder"@),
            }),
    decreases n,
{
    if n == 0 {
        (Seq::empty(), Seq::empty())
    } else {
        let (kept, gone) = lemma_kept_places(items, leaves, target, probes, plan, all, n - 1);
        let i = all[n - 1];
        let candidate = plan.candidates[n - 1];
        lemma_contained(items, leaves, target, probes, plan, i, candidate);
        let r = if carried(items, leaves, target, probes, i) {
            (kept, gone.push(i))
        } else {
            (kept.push(i), gone)
        };
        if n > 1 {
            assert(all[n - 2] < all[n - 1]);
        }
        assert forall|x: int|
            r.0.contains(x) <==> (exists|k: int| 0 <= k < n && #[trigger] all[k] == x) && !carried(
                items,
                leaves,
                target,
                probes,
                x,
            ) by {
            text::lemma_push_contains(kept, i, x);
            lemma_among_next(all, n, x);
        }
        assert forall|x: int|
            r.1.contains(x) <==> (exists|k: int| 0 <= k < n && #[trigger] all[k] == x) && carried(
                items,
                leaves,
                target,
                probes,
                x,
            ) by {
            text::lemma_push_contains(gone, i, x);
            lemma_among_next(all, n, x);
        }
        r
    }
}

proof fn lemma_among_next(all: Seq<int>, n: int, x: int)
    requires
        0 < n <= all.len(),
    ensures
        (exists|k: int| 0 <= k < n && #[trigger] all[k] == x) <==> (exists|k: int|
            0 <= k < n - 1 && #[trigger] all[k] == x) || x == all[n - 1],
{
    if exists|k: int| 0 <= k < n && #[trigger] all[k] == x {
        let k = choose|k: int| 0 <= k < n && #[trigger] all[k] == x;
        if k < n - 1 {
            assert(0 <= k < n - 1 && all[k] == x);
        }
    }
    if exists|k: int| 0 <= k < n - 1 && #[trigger] all[k] == x {
        let k = choose|k: int| 0 <= k < n - 1 && #[trigger] all[k] == x;
        assert(0 <= k < n && all[k] == x);
    }
    if x == all[n - 1] {
        assert(0 <= n - 1 < n && all[n - 1] == x);
    }
}

/// What is to be moved is just the items that may be moved and do not lie in a folder that may be
/// moved itself, in order and each to the path of its name in the target folder. Those that lie in
/// such a folder are refused for that.
pub proof fn law_movable_items_are_moved(
    items: Seq<ItemView>,
    leaves: Seq<Option<Seq<char>>>,
    target: Seq<char>,
    probes: Seq<Option<SourceProbe>>,
    plan: PlanView,
) -> (r: (Seq<int>, Seq<int>))
    requires
        looked_at(items, target, probes),
        note_moves::plan_of(items, leaves, target, probes, items.len() as int) == Ok::<
            PlanView,
            Seq<char>,
        >(plan),
    ensures
        ascending(r.0, items.len() as int),
        ascending(r.1, items.len() as int),
        forall|i: int|
            0 <= i < items.len() ==> (r.0.contains(i) <==> #[trigger] may_move(
                items,
                leaves,
                target,
                probes,
                i,
            ) && !carried(items, leaves, target, probes, i)),
        forall|i: int|
            0 <= i < items.len() ==> (r.1.contains(i) <==> #[trigger] may_move(
                items,
                leaves,
                target,
                probes,
                i,
            ) && carried(items, leaves, target, probes, i)),
        ({
            let n = plan.candidates.len() as int;
            let moves = note_moves::kept_candidates(plan, n);
            let refused = note_moves::contained_results(plan, n);
            &&& moves.len() == r.0.len()
            &&& refused.len() == r.1.len()
            &&& forall|k: int|
                0 <= k < r.0.len() ==> (#[trigger] moves[k]).item == items[r.0[k]]
                    && moves[k].destination == put_in(target, leaves[r.0[k]]->0)
            &&& forall|k: int|
                0 <= k < r.1.len() ==> (#[trigger] refused[k]) == (ResultView {
                    path: items[r.1[k]].path,
                    new_path: put_in(target, leaves[r.1[k]]->0),
                    success: false,
                    error: Some("item is contained within another moved folder"@),
                })
        }),
{
    let n = items.len() as int;
    let all = law_each_movable_item_is_taken_up(items, leaves, target, probes, n, plan);
    let r = lemma_kept_places(items, leaves, target, probes, plan, all, all.len() as int);
    assert forall|i: int| 0 <= i < items.len() implies (r.0.contains(i) <==> #[trigger] may_move(
        items,
        leaves,
        target,
        probes,
        i,
    ) && !carried(items, leaves, target, probes, i)) && (r.1.contains(i) <==> may_move(
        items,
        leaves,
        target,
        probes,
        i,
    ) && carried(items, leaves, target, probes, i)) by {
        assert(may_move(items, leaves, target, probes, i) <==> all.contains(i));
        if all.contains(i) {
            let k = choose|k: int| 0 <= k < all.len() && all[k] == i;
            assert(all[k] == i);
        }
        if exists|k: int| 0 <= k < all.len() && #[trigger] all[k] == i {
            let k = choose|k: int| 0 <= k < all.len() && #[trigger] all[k] == i;
            assert(all.contains(i));
        }
    }
    r
}

/// What is at a destination is taken away only if it is to be overwritten; an item is moved only to
/// a place that is free or was made free; and what came of a step is what is told.
pub proof fn law_move_goes_step_by_step(overwrite: bool, event: MoveEvent)
    ensures
        ({
            let action = note_moves::action_after(overwrite, event);
            match event {
                MoveEvent::Checked { exists: there } => {
                    &&& !there ==> action is Rename
                    &&& there && overwrite ==> action is Clear
                    &&& there && !overwrite ==> action == MoveAction::Settle(
                        MoveOutcome::TargetExists,
                    )
                },
                MoveEvent::Cleared(r) => match r {
                    Ok(_) => action is Rename,
                    Err(e) => action == MoveAction::Settle(MoveOutcome::ClearFailed(e)),
                },
                MoveEvent::Renamed(r) => match r {
                    Ok(_) => action == MoveAction::Settle(MoveOutcome::Moved),
                    Err(e) => action == MoveAction::Settle(MoveOutcome::RenameFailed(e)),
                },
            }
        }),
{
}

/// The result of a move names its item and its destination, and is a success just if the item was
/// moved; otherwise it says why it was not.
pub proof fn law_result_tells_the_outcome(pending: PendingView, outcome: MoveOutcome)
    ensures
        ({
            let result = note_moves::settled(pending, outcome);
            &&& result.path == pending.item.path
            &&& result.new_path == pending.destination
            &&& result.success <==> outcome is Moved
            &&& outcome is Moved ==> result.error is None
            &&& outcome is TargetExists ==> result.error == Some("target already exists"@)
            &&& match outcome {
                MoveOutcome::ClearFailed(e) => result.error == Some(e@),
                MoveOutcome::RenameFailed(e) => result.error == Some(e@),
                _ => true,
            }
        }),
{
}

/// A move that was made touches the folder that its item left and the folder that it entered, and
/// no other folder is touched.
pub proof fn law_moves_touch_two_folders(
    pending: Seq<PendingView>,
    outcomes: Seq<MoveOutcome>,
    n: int,
)
    requires
        0 <= n <= pending.len(),
        outcomes.len() == pending.len(),
    ensures
        forall|i: int|
            0 <= i < n && (#[trigger] outcomes[i]) is Moved ==> note_moves::touched(
                pending,
                outcomes,
                link_path::parent_of(pending[i].item.path),
                n,
            ) && note_moves::touched(
                pending,
                outcomes,
                link_path::parent_of(pending[i].destination),
                n,
            ),
        forall|folder: Seq<char>| #[trigger]
            note_moves::touched(pending, outcomes, folder, n) ==> exists|i: int|
                0 <= i < n && (#[trigger] outcomes[i]) is Moved && (folder == link_path::parent_of(
                    pending[i].item.path,
                ) || folder == link_path::parent_of(pending[i].destination)),
{
    assert forall|i: int| 0 <= i < n && (#[trigger] outcomes[i]) is Moved implies note_moves::touched(
        pending,
        outcomes,
        link_path::parent_of(pending[i].item.path),
        n,
    ) && note_moves::touched(pending, outcomes, link_path::parent_of(pending[i].destination), n) by {
        let p = pending[i];
    }
    assert forall|folder: Seq<char>| #[trigger]
        note_moves::touched(pending, outcomes, folder, n) implies exists|i: int|
        0 <= i < n && (#[trigger] outcomes[i]) is Moved && (folder == link_path::parent_of(
            pending[i].item.path,
        ) || folder == link_path::parent_of(pending[i].destination)) by {
        let i = choose|i: int|
            #![trigger pending[i]]
            0 <= i < n && outcomes[i] is Moved && (folder == link_path::parent_of(
                pending[i].item.path,
            ) || folder == link_path::parent_of(pending[i].destination));
        assert(outcomes[i] is Moved);
    }
}

/// What is held of the items, of the results, of the pending moves and of the names of a list is what
/// each of them holds, in order.
pub proof fn law_move_views(
    items: Seq<MoveItem>,
    results: Seq<MoveItemResult>,
    pending: Seq<PendingMove>,
    leaves: Seq<Option<String>>,
    i: int,
)
    ensures
        note_moves::leaf_views(leaves).len() == leaves.len(),
        0 <= i < leaves.len() ==> match leaves[i] {
            Some(name) => note_moves::leaf_views(leaves)[i] == Some(name@),
            None => note_moves::leaf_views(leaves)[i] is None,
        },
        note_moves::item_views(items).len() == items.len(),
        note_moves::result_views(results).len() == results.len(),
        note_moves::pending_views(pending).len() == pending.len(),
        0 <= i < items.len() ==> note_moves::item_views(items)[i] == (ItemView {
            path: items[i].path@,
            is_folder: items[i].is_folder,
        }),
        0 <= i < results.len() ==> {
            let view = note_moves::result_views(results)[i];
            &&& view.path == results[i].path@
            &&& view.new_path == results[i].new_path@
            &&& view.success == results[i].success
            &&& view.error is Some <==> results[i].error is Some
            &&& results[i].error is Some ==> view.error->0 == results[i].error->0@
        },
        0 <= i < pending.len() ==> {
            let view = note_moves::pending_views(pending)[i];
            &&& view.item.path == pending[i].item.path@
            &&& view.item.is_folder == pending[i].item.is_folder
            &&& view.destination == pending[i].destination_path@
        },
{
}

/// An item with a name comes to the path of that name in the target folder; one without a name
/// cannot be moved.
pub proof fn law_target_path(
    r: Result<String, String>,
    target: Seq<char>,
    leaf: Option<Seq<char>>,
)
    requires
        note_moves::is_target_path(r, target, leaf),
    ensures
        match leaf {
            Some(name) => r matches Ok(path) && path@ == put_in(target, name),
            None => r matches Err(e) && e@ == "invalid source path"@,
        },
{
}

/// The places of all items have to be looked at but of those of which it shows without a look that
/// they cannot be moved.
pub proof fn law_places_to_look_at(
    items: Seq<ItemView>,
    target: Seq<char>,
    probes: Seq<Option<SourceProbe>>,
)
    ensures
        note_moves::probed(items, target, probes) <==> probes.len() == items.len() && looked_at(
            items,
            target,
            probes,
        ),
{
    assert forall|i: int| 0 <= i < items.len() implies (#[trigger] note_moves::early_fault(
        items,
        target,
        i,
    ) is None <==> !hopeless(items, target, i)) by {
        law_hopeless_items_are_not_looked_at(items, target, i);
    }
    if note_moves::probed(items, target, probes) {
        assert forall|i: int|
            0 <= i < items.len() && !(#[trigger] hopeless(items, target, i)) implies probes[i] is Some by {
            assert(note_moves::early_fault(items, target, i) is None);
        }
    }
    if probes.len() == items.len() && looked_at(items, target, probes) {
        assert forall|i: int|
            0 <= i < items.len() && (#[trigger] note_moves::early_fault(
                items,
                target,
                i,
            )) is None implies probes[i] is Some by {
            assert(!hopeless(items, target, i));
        }
    }
}

/// The places of the items that are moved, of those that are refused, and of those that go with a
/// folder.
pub struct MovePlaces {
    pub moved: Seq<int>,
    pub refused: Seq<int>,
    pub carried: Seq<int>,
}

/// The answer to a request to move items: it moves just the items that may be moved and do not go
/// with a folder, each to its name in the target folder, and answers each other item with the reason;
/// or it is the error of the first item that ends the whole move.
pub proof fn law_answer_to_a_move(
    r: Result<(Vec<MoveItemResult>, Vec<PendingMove>), String>,
    items: Seq<ItemView>,
    leaves: Seq<Option<Seq<char>>>,
    target: Seq<char>,
    probes: Seq<Option<SourceProbe>>,
) -> (p: MovePlaces)
    requires
        looked_at(items, target, probes),
        note_moves::is_plan(r, items, leaves, target, probes),
    ensures
        match r {
            Ok((results, pending)) => {
                &&& forall|i: int|
                    0 <= i < items.len() ==> (p.moved.contains(i) <==> #[trigger] may_move(
                        items,
                        leaves,
                        target,
                        probes,
                        i,
                    ) && !carried(items, leaves, target, probes, i))
                &&& forall|i: int|
                    0 <= i < items.len() ==> (p.carried.contains(i) <==> #[trigger] may_move(
                        items,
                        leaves,
                        target,
                        probes,
                        i,
                    ) && carried(items, leaves, target, probes, i))
                &&& forall|i: int|
                    0 <= i < items.len() ==> (p.refused.contains(i) <==> !(#[trigger] may_move(
                        items,
                        leaves,
                        target,
                        probes,
                        i,
                    )))
                &&& ascending(p.moved, items.len() as int)
                &&& ascending(p.refused, items.len() as int)
                &&& ascending(p.carried, items.len() as int)
                &&& pending@.len() == p.moved.len()
                &&& results@.len() == p.refused.len() + p.carried.len()
                &&& forall|k: int|
                    0 <= k < p.moved.len() ==> {
                        let one = #[trigger] pending@[k];
                        &&& one.item.path@ == items[p.moved[k]].path
                        &&& one.item.is_folder == items[p.moved[k]].is_folder
                        &&& one.destination_path@ == put_in(target, leaves[p.moved[k]]->0)
                    }
                &&& forall|k: int|
                    0 <= k < p.refused.len() ==> {
                        let one = #[trigger] results@[k];
                        &&& one.path@ == items[p.refused[k]].path
                        &&& one.new_path@ == one.path@
                        &&& !one.success
                        &&& one.error is Some
                        &&& is_reason(one.error->0@, items, target, probes, p.refused[k])
                    }
                &&& forall|k: int|
                    p.refused.len() <= k < results@.len() ==> {
                        let one = #[trigger] results@[k];
                        let at = p.carried[k - p.refused.len()];
                        &&& one.path@ == items[at].path
                        &&& one.new_path@ == put_in(target, leaves[at]->0)
                        &&& !one.success
                        &&& one.error is Some
                        &&& one.error->0@ == "item is contained within another moved folder"@
                    }
            },
            Err(error) => exists|i: int|
                0 <= i < items.len() && #[trigger] ends_all(
                    error@,
                    items,
                    leaves,
                    target,
                    probes,
                    i,
                ) && (forall|j: int, e: Seq<char>|
                    0 <= j < i ==> !(#[trigger] ends_all(e, items, leaves, target, probes, j))),
        },
{
    let n = items.len() as int;
    law_first_error_ends_the_move(items, leaves, target, probes, n);
    match r {
        Ok((results, pending)) => {
            let plan = note_moves::plan_of(items, leaves, target, probes, n)->Ok_0;
            let refused = law_each_other_item_is_refused(items, leaves, target, probes, n, plan);
            let (moved, carried) = law_movable_items_are_moved(items, leaves, target, probes, plan);
            let m = plan.candidates.len() as int;
            let kept = note_moves::kept_candidates(plan, m);
            let inner = note_moves::contained_results(plan, m);
            let answers = note_moves::result_views(results@);
            assert(answers == plan.results + inner);
            assert(answers.len() == results@.len());
            assert forall|k: int| 0 <= k < moved.len() implies {
                let one = #[trigger] pending@[k];
                &&& one.item.path@ == items[moved[k]].path
                &&& one.item.is_folder == items[moved[k]].is_folder
                &&& one.destination_path@ == put_in(target, leaves[moved[k]]->0)
            } by {
                assert(note_moves::pending_views(pending@)[k] == pending@[k]@);
                assert(kept[k] == pending@[k]@);
            }
            assert forall|k: int| 0 <= k < refused.len() implies {
                let one = #[trigger] results@[k];
                &&& one.path@ == items[refused[k]].path
                &&& one.new_path@ == one.path@
                &&& !one.success
                &&& one.error is Some
                &&& is_reason(one.error->0@, items, target, probes, refused[k])
            } by {
                assert(answers[k] == results@[k]@);
                assert(answers[k] == plan.results[k]);
            }
            assert forall|k: int| refused.len() <= k < results@.len() implies {
                let one = #[trigger] results@[k];
                let at = carried[k - refused.len()];
                &&& one.path@ == items[at].path
                &&& one.new_path@ == put_in(target, leaves[at]->0)
                &&& !one.success
                &&& one.error is Some
                &&& one.error->0@ == "item is contained within another moved folder"@
            } by {
                assert(answers[k] == results@[k]@);
                assert(answers[k] == inner[k - refused.len()]);
            }
            MovePlaces { moved, refused, carried }
        },
        Err(_) => MovePlaces { moved: Seq::empty(), refused: Seq::empty(), carried: Seq::empty() },
    }
}

} // verus!
