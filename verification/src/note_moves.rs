use crate::link_path;
use crate::string_map::StringMap;
use crate::text;
use crate::vault_path;
use vstd::prelude::*;

verus! {

/// A note or a folder that is to be moved.
#[derive(Debug)]
pub struct MoveItem {
    pub path: String,
    pub is_folder: bool,
}

impl Clone for MoveItem {
    fn clone(&self) -> (r: Self)
        ensures
            r == *self,
    {
        MoveItem { path: self.path.clone(), is_folder: self.is_folder }
    }
}

/// What a move item holds.
pub struct ItemView {
    pub path: Seq<char>,
    pub is_folder: bool,
}

impl View for MoveItem {
    type V = ItemView;

    open spec fn view(&self) -> ItemView {
        ItemView { path: self.path@, is_folder: self.is_folder }
    }
}

/// What the items of `v` hold.
pub open spec fn item_views(v: Seq<MoveItem>) -> Seq<ItemView> {
    Seq::new(v.len(), |i: int| v[i]@)
}

/// The items that are to be moved, and the folder that they are to be moved to.
#[derive(Debug)]
pub struct MoveItemsArgs {
    pub vault_id: String,
    pub items: Vec<MoveItem>,
    pub target_folder: String,
    pub overwrite: bool,
}

/// What came of the move of one item.
#[derive(Debug, Clone, PartialEq, Eq)]
pub struct MoveItemResult {
    pub path: String,
    pub new_path: String,
    pub success: bool,
    pub error: Option<String>,
}

/// What a move result holds.
pub struct ResultView {
    pub path: Seq<char>,
    pub new_path: Seq<char>,
    pub success: bool,
    pub error: Option<Seq<char>>,
}

impl View for MoveItemResult {
    type V = ResultView;

    open spec fn view(&self) -> ResultView {
        ResultView {
            path: self.path@,
            new_path: self.new_path@,
            success: self.success,
            error: match self.error {
                Some(e) => Some(e@),
                None => None,
            },
        }
    }
}

/// What the results of `v` hold.
pub open spec fn result_views(v: Seq<MoveItemResult>) -> Seq<ResultView> {
    Seq::new(v.len(), |i: int| v[i]@)
}

/// A move that is to be made.
#[derive(Debug)]
pub struct PendingMove {
    pub item: MoveItem,
    pub destination_path: String,
}

/// What a pending move holds.
pub struct PendingView {
    pub item: ItemView,
    pub destination: Seq<char>,
}

impl View for PendingMove {
    type V = PendingView;

    open spec fn view(&self) -> PendingView {
        PendingView { item: self.item@, destination: self.destination_path@ }
    }
}

/// What the pending moves of `v` hold.
pub open spec fn pending_views(v: Seq<PendingMove>) -> Seq<PendingView> {
    Seq::new(v.len(), |i: int| v[i]@)
}

/// What is at the place of an item that is to be moved.
#[derive(Debug)]
pub enum SourceProbe {
    /// Its place could not be found in the vault.
    Unresolved(String),
    /// It could not be looked at.
    Unreadable(String),
    /// It is there.
    Found { is_dir: bool, is_file: bool },
}

/// The path of an item with the name `leaf` once it is in `target_folder`; `None` if it has no name.
pub open spec fn target_path(target_folder: Seq<char>, leaf: Option<Seq<char>>) -> Option<Seq<char>> {
    match leaf {
        Some(name) => Some(
            if target_folder.len() == 0 {
                name
            } else {
                target_folder + "/"@ + name
            },
        ),
        None => None,
    }
}

/// Whether `r` is the path of an item with the name `leaf` once it is in `target_folder`.
pub open spec fn is_target_path(
    r: Result<String, String>,
    target_folder: Seq<char>,
    leaf: Option<Seq<char>>,
) -> bool {
    match r {
        Ok(path) => target_path(target_folder, leaf) == Some(path@),
        Err(e) => target_path(target_folder, leaf) is None && e@ == "invalid source path"@,
    }
}

/// The path of an item with the name `leaf` once it is in `target_folder`.
pub fn path_in_target(target_folder: &str, leaf: &Option<String>) -> (r: Result<String, String>)
    ensures
        is_target_path(r, target_folder@, vault_path::optional_text(*leaf)),
{
    match leaf {
        Some(name) => {
            if target_folder.is_empty() {
                Ok(name.clone())
            } else {
                let mut path = text::chars_of(target_folder);
                let slash = text::chars_of("/");
                let tail = text::chars_of(name.as_str());
                text::append(&mut path, slash.as_slice());
                text::append(&mut path, tail.as_slice());
                Ok(text::string_of(path.as_slice()))
            }
        },
        None => Err("invalid source path".to_owned()),
    }
}

/// The path of the item at `source_path` once it is in `target_folder`.
pub fn move_target_path(target_folder: &str, source_path: &str) -> (r: Result<String, String>)
    ensures
        exists|leaf: Option<Seq<char>>| #[trigger]
            vault_path::reads_leaf(source_path@, leaf) && is_target_path(r, target_folder@, leaf),
{
    let leaf = vault_path::path_file_name(source_path);
    path_in_target(target_folder, &leaf)
}

/// The texts that the optional strings of `v` hold.
pub open spec fn leaf_views(v: Seq<Option<String>>) -> Seq<Option<Seq<char>>> {
    Seq::new(v.len(), |i: int| vault_path::optional_text(v[i]))
}

/// Whether `leaves` can be the names of `items`, as a machine reads their paths.
pub open spec fn leaves_read(items: Seq<ItemView>, leaves: Seq<Option<Seq<char>>>) -> bool {
    &&& leaves.len() == items.len()
    &&& forall|i: int|
        0 <= i < items.len() ==> vault_path::reads_leaf(
            (#[trigger] items[i]).path,
            leaves[i],
        )
}

/// The names of the items, as this machine reads their paths.
pub fn source_leaves(items: &Vec<MoveItem>) -> (r: Vec<Option<String>>)
    ensures
        leaves_read(item_views(items@), leaf_views(r@)),
{
    let mut out: Vec<Option<String>> = Vec::new();
    let mut i: usize = 0;
    while i < items.len()
        invariant
            i <= items@.len(),
            out@.len() == i,
            forall|k: int|
                0 <= k < i ==> vault_path::reads_leaf(
                    (#[trigger] item_views(items@)[k]).path,
                    leaf_views(out@)[k],
                ),
        decreases items.len() - i,
    {
        let ghost before = out@;
        let leaf = vault_path::path_file_name(items[i].path.as_str());
        out.push(leaf);
        proof {
            assert(leaf_views(out@) =~= leaf_views(before).push(vault_path::optional_text(leaf)));
            assert(item_views(items@)[i as int] == items@[i as int]@);
        }
        i += 1;
    }
    out
}

/// Whether `path` is `parent`, other than the vault root, or lies below it.
pub open spec fn descendant(path: Seq<char>, parent: Seq<char>) -> bool {
    parent.len() > 0 && (path == parent || (parent + "/"@).is_prefix_of(path))
}

/// Whether `path` is `parent`, other than the vault root, or lies below it.
pub fn is_descendant_path(path: &str, parent: &str) -> (r: bool)
    ensures
        r == descendant(path@, parent@),
{
    if parent.is_empty() {
        return false;
    }
    let chars = text::chars_of(path);
    let mut below = text::chars_of(parent);
    let slash = text::chars_of("/");
    text::append(&mut below, slash.as_slice());
    text::same_text(path, parent) || text::has_prefix(chars.as_slice(), below.as_slice())
}

/// The result of a move that was not made.
pub open spec fn failure(path: Seq<char>, new_path: Seq<char>, error: Seq<char>) -> ResultView {
    ResultView { path, new_path, success: false, error: Some(error) }
}

/// The result of a move that was not made.
pub fn move_failure(path: &str, new_path: &str, error: &str) -> (r: MoveItemResult)
    ensures
        r@ == failure(path@, new_path@, error@),
{
    MoveItemResult {
        path: path.to_owned(),
        new_path: new_path.to_owned(),
        success: false,
        error: Some(error.to_owned()),
    }
}

/// The result of a move that was made.
pub fn move_success(path: String, new_path: String) -> (r: MoveItemResult)
    ensures
        r@ == (ResultView { path: path@, new_path: new_path@, success: true, error: None }),
{
    MoveItemResult { path, new_path, success: true, error: None }
}

/// The paths of those of `items` that lie below `folder`.
pub open spec fn nested_paths(items: Seq<ItemView>, folder: Seq<char>) -> Seq<Seq<char>>
    decreases items.len(),
{
    if items.len() == 0 {
        Seq::empty()
    } else {
        let before = nested_paths(items.drop_last(), folder);
        let path = items.last().path;
        if path != folder && descendant(path, folder) {
            before.push(path)
        } else {
            before
        }
    }
}

/// Puts the paths of those of `items` that lie below `folder_path` behind `invalid_sources`.
pub fn collect_nested_move_sources(
    items: &Vec<MoveItem>,
    folder_path: &str,
    invalid_sources: &mut Vec<String>,
)
    ensures
        text::texts(final(invalid_sources)@) == text::texts(old(invalid_sources)@) + nested_paths(
            item_views(items@),
            folder_path@,
        ),
{
    let ghost start = text::texts(invalid_sources@);
    let ghost all = item_views(items@);
    let mut i: usize = 0;
    proof {
        assert(all.take(0) =~= Seq::<ItemView>::empty());
        assert(start + Seq::<Seq<char>>::empty() =~= start);
    }
    while i < items.len()
        invariant
            i <= items@.len(),
            all == item_views(items@),
            text::texts(invalid_sources@) == start + nested_paths(
                all.take(i as int),
                folder_path@,
            ),
        decreases items.len() - i,
    {
        let other = &items[i];
        let ghost before = invalid_sources@;
        proof {
            assert(all.take(i + 1).drop_last() =~= all.take(i as int));
            assert(all.take(i + 1).last() == other@);
        }
        if !text::same_text(other.path.as_str(), folder_path) && is_descendant_path(
            other.path.as_str(),
            folder_path,
        ) {
            invalid_sources.push(other.path.clone());
            proof {
                let nested = nested_paths(all.take(i as int), folder_path@);
                assert(text::texts(invalid_sources@) =~= text::texts(before).push(other.path@));
                assert(start + nested.push(other.path@) =~= (start + nested).push(other.path@));
            }
        }
        i += 1;
    }
    proof {
        assert(all.take(items@.len() as int) =~= all);
    }
}

/// Whether an item before the one at place `i` has the same path, in upper or lower case.
pub open spec fn repeated(items: Seq<ItemView>, i: int) -> bool {
    exists|j: int|
        0 <= j < i && text::unicode_lower((#[trigger] items[j]).path) == text::unicode_lower(
            items[i].path,
        )
}

/// Why the item at place `i` cannot be moved, if that shows before its place is looked at.
pub open spec fn early_fault(items: Seq<ItemView>, target: Seq<char>, i: int) -> Option<Seq<char>> {
    if repeated(items, i) {
        Some("duplicate item path"@)
    } else if items[i].path.len() == 0 {
        Some("cannot move vault root"@)
    } else if items[i].is_folder && descendant(target, items[i].path) {
        Some("cannot move folder into itself"@)
    } else {
        None
    }
}

/// Why an item cannot be moved, if that shows at its place.
pub open spec fn late_fault(item: ItemView, probe: SourceProbe) -> Option<Seq<char>> {
    match probe {
        SourceProbe::Unresolved(e) => Some(e@),
        SourceProbe::Unreadable(e) => Some(e@),
        SourceProbe::Found { is_dir, is_file } => if item.is_folder && !is_dir {
            Some("source is not a directory"@)
        } else if !item.is_folder && !is_file {
            Some("source is not a file"@)
        } else {
            None
        },
    }
}

/// What is known of a move of several items on the way: what came of some, which others may be
/// moved, and which paths lie in folders that may be moved.
#[verifier::ext_equal]
pub struct PlanView {
    pub results: Seq<ResultView>,
    pub candidates: Seq<PendingView>,
    pub nested: Seq<Seq<char>>,
}

/// The plan with the item at place `i` added, or the error that ends the whole move.
pub open spec fn plan_step(
    plan: PlanView,
    items: Seq<ItemView>,
    leaves: Seq<Option<Seq<char>>>,
    target: Seq<char>,
    probes: Seq<Option<SourceProbe>>,
    i: int,
) -> Result<PlanView, Seq<char>> {
    let item = items[i];
    let refused = |new_path: Seq<char>, error: Seq<char>|
        PlanView { results: plan.results.push(failure(item.path, new_path, error)), ..plan };
    match early_fault(items, target, i) {
        Some(error) => Ok(refused(item.path, error)),
        None => {
            let probe = probes[i]->0;
            match (late_fault(item, probe), target_path(target, leaves[i])) {
                (Some(error), _) => if probe is Unresolved {
                    Err(error)
                } else {
                    Ok(refused(item.path, error))
                },
                (None, None) => Err("invalid source path"@),
                (None, Some(destination)) => if destination == item.path {
                    Ok(refused(destination, "item already in target folder"@))
                } else {
                    Ok(
                        PlanView {
                            candidates: plan.candidates.push(PendingView { item, destination }),
                            nested: if item.is_folder {
                                plan.nested + nested_paths(items, item.path)
                            } else {
                                plan.nested
                            },
                            ..plan
                        },
                    )
                },
            }
        },
    }
}

/// The plan for the first `n` items, or the error that ends the whole move.
pub open spec fn plan_of(
    items: Seq<ItemView>,
    leaves: Seq<Option<Seq<char>>>,
    target: Seq<char>,
    probes: Seq<Option<SourceProbe>>,
    n: int,
) -> Result<PlanView, Seq<char>>
    decreases n,
{
    if n <= 0 {
        Ok(PlanView { results: Seq::empty(), candidates: Seq::empty(), nested: Seq::empty() })
    } else {
        match plan_of(items, leaves, target, probes, n - 1) {
            Ok(plan) => plan_step(plan, items, leaves, target, probes, n - 1),
            Err(error) => Err(error),
        }
    }
}

/// Whether a candidate lies in a folder that may be moved too.
pub open spec fn contained(nested: Seq<Seq<char>>, candidate: PendingView) -> bool {
    lowered_among(nested, nested.len() as int, text::unicode_lower(candidate.item.path))
}

/// The results of the first `n` candidates that lie in a folder that may be moved too.
pub open spec fn contained_results(plan: PlanView, n: int) -> Seq<ResultView>
    decreases n,
{
    if n <= 0 {
        Seq::empty()
    } else {
        let candidate = plan.candidates[n - 1];
        if contained(plan.nested, candidate) {
            contained_results(plan, n - 1).push(
                failure(
                    candidate.item.path,
                    candidate.destination,
                    "item is contained within another moved folder"@,
                ),
            )
        } else {
            contained_results(plan, n - 1)
        }
    }
}

/// Those of the first `n` candidates that do not lie in a folder that may be moved too.
pub open spec fn kept_candidates(plan: PlanView, n: int) -> Seq<PendingView>
    decreases n,
{
    if n <= 0 {
        Seq::empty()
    } else if contained(plan.nested, plan.candidates[n - 1]) {
        kept_candidates(plan, n - 1)
    } else {
        kept_candidates(plan, n - 1).push(plan.candidates[n - 1])
    }
}

/// Whether the items all have been looked at that have to be.
pub open spec fn probed(
    items: Seq<ItemView>,
    target: Seq<char>,
    probes: Seq<Option<SourceProbe>>,
) -> bool {
    &&& probes.len() == items.len()
    &&& forall|i: int|
        0 <= i < items.len() && (#[trigger] early_fault(items, target, i)) is None
            ==> probes[i] is Some
}

/// Why the item at place `i` cannot be moved, if that shows before its place is looked at. `seen`
/// holds the paths of the items before it in lower case.
fn fault_before_probe(
    items: &Vec<MoveItem>,
    target_folder: &str,
    i: usize,
    seen: &mut StringMap<()>,
) -> (r: Option<&'static str>)
    requires
        i < items@.len(),
        forall|k: Seq<char>| #[trigger]
            old(seen)@.contains_key(k) <==> exists|j: int|
                0 <= j < i && text::unicode_lower((#[trigger] item_views(items@)[j]).path) == k,
    ensures
        match r {
            Some(error) => early_fault(item_views(items@), target_folder@, i as int) == Some(
                error@,
            ),
            None => early_fault(item_views(items@), target_folder@, i as int) is None,
        },
        forall|k: Seq<char>| #[trigger]
            final(seen)@.contains_key(k) <==> exists|j: int|
                0 <= j < i + 1 && text::unicode_lower((#[trigger] item_views(items@)[j]).path) == k,
{
    let ghost all = item_views(items@);
    let item = &items[i];
    let low = text::to_lower(item.path.as_str());
    let ghost before = seen@;
    let known = seen.contains_key(low.as_str());
    assert(all[i as int] == item@);
    seen.insert(low, ());
    proof {
        assert(known == repeated(all, i as int));
        assert forall|k: Seq<char>| #[trigger] seen@.contains_key(k) <==> exists|j: int|
            0 <= j < i + 1 && text::unicode_lower((#[trigger] all[j]).path) == k by {
            if before.contains_key(k) {
                let j = choose|j: int|
                    0 <= j < i && text::unicode_lower((#[trigger] all[j]).path) == k;
                assert(0 <= j < i + 1 && text::unicode_lower(all[j].path) == k);
            }
            if k == low@ {
                assert(text::unicode_lower(all[i as int].path) == k);
            }
            if exists|j: int| 0 <= j < i + 1 && text::unicode_lower((#[trigger] all[j]).path) == k {
                let j = choose|j: int|
                    0 <= j < i + 1 && text::unicode_lower((#[trigger] all[j]).path) == k;
                if j < i {
                    assert(before.contains_key(k));
                }
            }
        }
    }
    if known {
        Some("duplicate item path")
    } else if item.path.as_str().is_empty() {
        Some("cannot move vault root")
    } else if item.is_folder && is_descendant_path(target_folder, item.path.as_str()) {
        Some("cannot move folder into itself")
    } else {
        None
    }
}

/// For each item, whether its place has to be looked at before it is known whether it can be
/// moved.
pub fn sources_to_probe(args: &MoveItemsArgs) -> (r: Vec<bool>)
    ensures
        r@.len() == args.items@.len(),
        forall|i: int|
            0 <= i < r@.len() ==> #[trigger] r@[i] == (early_fault(
                item_views(args.items@),
                args.target_folder@,
                i,
            ) is None),
{
    let mut out: Vec<bool> = Vec::new();
    let mut seen: StringMap<()> = StringMap::new();
    let mut i: usize = 0;
    while i < args.items.len()
        invariant
            i <= args.items@.len(),
            out@.len() == i,
            forall|k: Seq<char>| #[trigger]
                seen@.contains_key(k) <==> exists|j: int|
                    0 <= j < i && text::unicode_lower(
                        (#[trigger] item_views(args.items@)[j]).path,
                    ) == k,
            forall|k: int|
                0 <= k < i ==> #[trigger] out@[k] == (early_fault(
                    item_views(args.items@),
                    args.target_folder@,
                    k,
                ) is None),
        decreases args.items.len() - i,
    {
        let fault = fault_before_probe(&args.items, args.target_folder.as_str(), i, &mut seen);
        out.push(fault.is_none());
        i += 1;
    }
    out
}

/// What is known of a move of several items on the way.
struct MovePlan {
    results: Vec<MoveItemResult>,
    candidates: Vec<PendingMove>,
    nested: Vec<String>,
}

impl View for MovePlan {
    type V = PlanView;

    closed spec fn view(&self) -> PlanView {
        PlanView {
            results: result_views(self.results@),
            candidates: pending_views(self.candidates@),
            nested: text::texts(self.nested@),
        }
    }
}

impl MovePlan {
    /// Records that `path` is not moved.
    fn refuse(&mut self, path: &str, new_path: &str, error: &str)
        ensures
            final(self)@ == (PlanView {
                results: old(self)@.results.push(failure(path@, new_path@, error@)),
                ..old(self)@
            }),
    {
        let ghost before = self.results@;
        self.results.push(move_failure(path, new_path, error));
        proof {
            assert(result_views(self.results@) =~= result_views(before).push(
                failure(path@, new_path@, error@),
            ));
        }
    }

    /// Adds the item at place `i`, whose place was looked at.
    fn add_probed(
        &mut self,
        args: &MoveItemsArgs,
        leaves: &Vec<Option<String>>,
        probes: &Vec<Option<SourceProbe>>,
        i: usize,
    ) -> (r: Result<(), String>)
        requires
            i < args.items@.len(),
            i < leaves@.len(),
            i < probes@.len(),
            probes@[i as int] is Some,
            early_fault(item_views(args.items@), args.target_folder@, i as int) is None,
        ensures
            match r {
                Ok(_) => plan_step(
                    old(self)@,
                    item_views(args.items@),
                    leaf_views(leaves@),
                    args.target_folder@,
                    probes@,
                    i as int,
                ) == Ok::<PlanView, Seq<char>>(final(self)@),
                Err(e) => plan_step(
                    old(self)@,
                    item_views(args.items@),
                    leaf_views(leaves@),
                    args.target_folder@,
                    probes@,
                    i as int,
                ) == Err::<PlanView, Seq<char>>(e@),
            },
    {
        let item = &args.items[i];
        let path = item.path.as_str();
        assert(item_views(args.items@)[i as int] == item@);
        let (is_dir, is_file) = match &probes[i] {
            Some(SourceProbe::Unresolved(e)) => {
                return Err(e.clone());
            },
            Some(SourceProbe::Unreadable(e)) => {
                self.refuse(path, path, e.as_str());
                return Ok(());
            },
            Some(SourceProbe::Found { is_dir, is_file }) => (*is_dir, *is_file),
            None => (false, false),
        };
        if item.is_folder && !is_dir {
            self.refuse(path, path, "source is not a directory");
            return Ok(());
        }
        if !item.is_folder && !is_file {
            self.refuse(path, path, "source is not a file");
            return Ok(());
        }
        assert(leaf_views(leaves@)[i as int] == vault_path::optional_text(leaves@[i as int]));
        let destination_path = match path_in_target(args.target_folder.as_str(), &leaves[i]) {
            Ok(destination) => destination,
            Err(e) => {
                return Err(e);
            },
        };
        if text::same_text(destination_path.as_str(), path) {
            self.refuse(path, destination_path.as_str(), "item already in target folder");
            return Ok(());
        }
        if item.is_folder {
            collect_nested_move_sources(&args.items, path, &mut self.nested);
        }
        let ghost before = self.candidates@;
        let pending = PendingMove { item: item.clone(), destination_path };
        self.candidates.push(pending);
        proof {
            assert(pending_views(self.candidates@) =~= pending_views(before).push(pending@));
        }
        Ok(())
    }
}

/// Once an error has ended the move, it stays ended.
proof fn lemma_plan_stops(
    items: Seq<ItemView>,
    leaves: Seq<Option<Seq<char>>>,
    target: Seq<char>,
    probes: Seq<Option<SourceProbe>>,
    i: int,
    n: int,
)
    requires
        0 <= i <= n,
        plan_of(items, leaves, target, probes, i) is Err,
    ensures
        plan_of(items, leaves, target, probes, n) == plan_of(items, leaves, target, probes, i),
    decreases n - i,
{
    if i < n {
        lemma_plan_stops(items, leaves, target, probes, i, n - 1);
    }
}

/// Whether one of the first `n` of `paths` is `low` in lower case.
pub open spec fn lowered_among(paths: Seq<Seq<char>>, n: int, low: Seq<char>) -> bool {
    exists|k: int| 0 <= k < n && text::unicode_lower(#[trigger] paths[k]) == low
}

/// `paths` in lower case.
fn lowered_set(paths: &Vec<String>) -> (r: StringMap<()>)
    ensures
        forall|low: Seq<char>| #[trigger]
            r@.contains_key(low) <==> lowered_among(
                text::texts(paths@),
                paths@.len() as int,
                low,
            ),
{
    let mut out: StringMap<()> = StringMap::new();
    let ghost all = text::texts(paths@);
    let mut k: usize = 0;
    while k < paths.len()
        invariant
            k <= paths@.len(),
            all == text::texts(paths@),
            forall|low: Seq<char>| #[trigger]
                out@.contains_key(low) <==> lowered_among(all, k as int, low),
        decreases paths.len() - k,
    {
        let ghost before = out@;
        out.insert(text::to_lower(paths[k].as_str()), ());
        proof {
            assert(all[k as int] == paths@[k as int]@);
            assert forall|low: Seq<char>| #[trigger]
                out@.contains_key(low) <==> lowered_among(all, k + 1, low) by {
                if before.contains_key(low) {
                    let m = choose|m: int|
                        0 <= m < k && text::unicode_lower(#[trigger] all[m]) == low;
                    assert(0 <= m < k + 1 && text::unicode_lower(all[m]) == low);
                }
                if lowered_among(all, k + 1, low) {
                    let m = choose|m: int|
                        0 <= m < k + 1 && text::unicode_lower(#[trigger] all[m]) == low;
                    if m < k {
                        assert(lowered_among(all, k as int, low));
                    }
                }
            }
        }
        k += 1;
    }
    out
}

/// Whether `r` says which of the items are to be moved, and what came of the others.
pub open spec fn is_plan(
    r: Result<(Vec<MoveItemResult>, Vec<PendingMove>), String>,
    items: Seq<ItemView>,
    leaves: Seq<Option<Seq<char>>>,
    target: Seq<char>,
    probes: Seq<Option<SourceProbe>>,
) -> bool {
    match r {
        Ok((results, pending)) => match plan_of(
            items,
            leaves,
            target,
            probes,
            items.len() as int,
        ) {
            Ok(plan) => {
                let n = plan.candidates.len() as int;
                &&& result_views(results@) == plan.results + contained_results(plan, n)
                &&& pending_views(pending@) == kept_candidates(plan, n)
            },
            Err(_) => false,
        },
        Err(e) => plan_of(items, leaves, target, probes, items.len() as int) == Err::<
            PlanView,
            Seq<char>,
        >(e@),
    }
}

/// Which of the items are to be moved, and what came of the others. `probes` holds, for each item
/// whose place has to be looked at, what is there.
pub fn collect_pending_moves(args: &MoveItemsArgs, probes: &Vec<Option<SourceProbe>>) -> (r: Result<
    (Vec<MoveItemResult>, Vec<PendingMove>),
    String,
>)
    requires
        probed(item_views(args.items@), args.target_folder@, probes@),
    ensures
        exists|leaves: Seq<Option<Seq<char>>>| #[trigger]
            leaves_read(item_views(args.items@), leaves) && is_plan(
                r,
                item_views(args.items@),
                leaves,
                args.target_folder@,
                probes@,
            ),
{
    let leaves = source_leaves(&args.items);
    let r = collect_named_moves(args, &leaves, probes);
    assert(leaves_read(item_views(args.items@), leaf_views(leaves@)));
    r
}

/// Which of the items, whose names are `leaves`, are to be moved, and what came of the others.
pub fn collect_named_moves(
    args: &MoveItemsArgs,
    leaves: &Vec<Option<String>>,
    probes: &Vec<Option<SourceProbe>>,
) -> (r: Result<(Vec<MoveItemResult>, Vec<PendingMove>), String>)
    requires
        leaves@.len() == args.items@.len(),
        probed(item_views(args.items@), args.target_folder@, probes@),
    ensures
        is_plan(
            r,
            item_views(args.items@),
            leaf_views(leaves@),
            args.target_folder@,
            probes@,
        ),
{
    let ghost items = item_views(args.items@);
    let ghost names = leaf_views(leaves@);
    let ghost target = args.target_folder@;
    let ghost count = args.items@.len() as int;
    let mut plan = MovePlan {
        results: Vec::new(),
        candidates: Vec::new(),
        nested: Vec::new(),
    };
    let mut seen: StringMap<()> = StringMap::new();
    let mut i: usize = 0;
    proof {
        assert(plan@ =~= plan_of(items, names, target, probes@, 0)->Ok_0);
    }
    while i < args.items.len()
        invariant
            i <= args.items@.len(),
            items == item_views(args.items@),
            names == leaf_views(leaves@),
            leaves@.len() == args.items@.len(),
            target == args.target_folder@,
            count == args.items@.len(),
            probed(items, target, probes@),
            forall|k: Seq<char>| #[trigger]
                seen@.contains_key(k) <==> exists|j: int|
                    0 <= j < i && text::unicode_lower(
                        (#[trigger] item_views(args.items@)[j]).path,
                    ) == k,
            plan_of(items, names, target, probes@, i as int) == Ok::<PlanView, Seq<char>>(plan@),
        decreases args.items.len() - i,
    {
        let path = args.items[i].path.as_str();
        assert(items[i as int] == args.items@[i as int]@);
        match fault_before_probe(&args.items, args.target_folder.as_str(), i, &mut seen) {
            Some(error) => {
                plan.refuse(path, path, error);
            },
            None => {
                if let Err(e) = plan.add_probed(args, leaves, probes, i) {
                    proof {
                        lemma_plan_stops(items, names, target, probes@, i + 1, count);
                    }
                    return Err(e);
                }
            },
        }
        i += 1;
    }
    let ghost full = plan@;
    let ghost n = full.candidates.len() as int;
    let MovePlan { results, candidates, nested } = plan;
    let mut results = results;
    let invalid = lowered_set(&nested);
    let mut pending: Vec<PendingMove> = Vec::new();
    let ghost all = candidates@;
    proof {
        assert(pending_views(pending@) =~= Seq::<PendingView>::empty());
        assert(full.results + Seq::<ResultView>::empty() =~= full.results);
    }
    for candidate in it: candidates
        invariant
            it.seq() == all,
            full.candidates == pending_views(all),
            forall|low: Seq<char>| #[trigger]
                invalid@.contains_key(low) <==> lowered_among(
                    full.nested,
                    full.nested.len() as int,
                    low,
                ),
            pending_views(pending@) == kept_candidates(full, it.index()),
            result_views(results@) == full.results + contained_results(full, it.index()),
    {
        let ghost at = it.index();
        let ghost before = pending@;
        let ghost before_results = results@;
        proof {
            assert(full.candidates[at] == candidate@);
        }
        let low = text::to_lower(candidate.item.path.as_str());
        if invalid.contains_key(low.as_str()) {
            let failed = move_failure(
                candidate.item.path.as_str(),
                candidate.destination_path.as_str(),
                "item is contained within another moved folder",
            );
            results.push(failed);
            proof {
                let more = contained_results(full, at);
                assert(result_views(results@) =~= result_views(before_results).push(failed@));
                assert(full.results + more.push(failed@) =~= (full.results + more).push(failed@));
            }
        } else {
            pending.push(candidate);
            assert(pending_views(pending@) =~= pending_views(before).push(candidate@));
        }
    }
    Ok((results, pending))
}

/// What came of one pending move.
#[derive(Debug)]
pub enum MoveOutcome {
    /// Something is at its destination, and that was not to be overwritten.
    TargetExists,
    /// What is at its destination could not be taken away.
    ClearFailed(String),
    /// It could not be moved.
    RenameFailed(String),
    /// It was moved.
    Moved,
}

/// What was found out or done for a pending move.
#[derive(Debug)]
pub enum MoveEvent {
    /// Whether anything is at its destination.
    Checked { exists: bool },
    /// What is at its destination was taken away, or could not be.
    Cleared(Result<(), String>),
    /// It was moved, or could not be.
    Renamed(Result<(), String>),
}

/// What to do next for a pending move.
#[derive(Debug)]
pub enum MoveAction {
    /// Take away what is at its destination.
    Clear,
    /// Move it.
    Rename,
    /// Nothing: this is what came of it.
    Settle(MoveOutcome),
}

/// What to do next for a pending move after `event`.
pub open spec fn action_after(overwrite: bool, event: MoveEvent) -> MoveAction {
    match event {
        MoveEvent::Checked { exists: there } => if !there {
            MoveAction::Rename
        } else if overwrite {
            MoveAction::Clear
        } else {
            MoveAction::Settle(MoveOutcome::TargetExists)
        },
        MoveEvent::Cleared(Ok(_)) => MoveAction::Rename,
        MoveEvent::Cleared(Err(e)) => MoveAction::Settle(MoveOutcome::ClearFailed(e)),
        MoveEvent::Renamed(Ok(_)) => MoveAction::Settle(MoveOutcome::Moved),
        MoveEvent::Renamed(Err(e)) => MoveAction::Settle(MoveOutcome::RenameFailed(e)),
    }
}

/// What to do next for a pending move after `event`. What is at its destination is taken away only
/// if it is to be overwritten.
pub fn next_move_action(overwrite: bool, event: MoveEvent) -> (r: MoveAction)
    ensures
        r == action_after(overwrite, event),
{
    match event {
        MoveEvent::Checked { exists: there } => if !there {
            MoveAction::Rename
        } else if overwrite {
            MoveAction::Clear
        } else {
            MoveAction::Settle(MoveOutcome::TargetExists)
        },
        MoveEvent::Cleared(Ok(_)) => MoveAction::Rename,
        MoveEvent::Cleared(Err(e)) => MoveAction::Settle(MoveOutcome::ClearFailed(e)),
        MoveEvent::Renamed(Ok(_)) => MoveAction::Settle(MoveOutcome::Moved),
        MoveEvent::Renamed(Err(e)) => MoveAction::Settle(MoveOutcome::RenameFailed(e)),
    }
}

/// What has to be taken away before an item is moved onto something else.
#[derive(Debug, Clone, Copy, PartialEq, Eq, Structural)]
pub enum Removal {
    Nothing,
    Folder,
    File,
}

/// What has to be taken away before an item is moved to a place where something is: nothing if
/// that is the item itself, and else what is there, which must be of the same kind.
pub fn remove_existing_move_target(source_is_folder: bool, same_place: bool, target_is_dir: bool)
    -> (r: Result<Removal, String>)
    ensures
        match r {
            Ok(removal) => if same_place {
                removal == Removal::Nothing
            } else {
                source_is_folder == target_is_dir && removal == (if source_is_folder {
                    Removal::Folder
                } else {
                    Removal::File
                })
            },
            Err(e) => !same_place && source_is_folder != target_is_dir && e@
                == if source_is_folder {
                "cannot overwrite file with folder"@
            } else {
                "cannot overwrite folder with note"@
            },
        },
{
    if same_place {
        return Ok(Removal::Nothing);
    }
    if source_is_folder {
        if !target_is_dir {
            return Err("cannot overwrite file with folder".to_owned());
        }
        return Ok(Removal::Folder);
    }
    if target_is_dir {
        return Err("cannot overwrite folder with note".to_owned());
    }
    Ok(Removal::File)
}

/// The result of a pending move of which `outcome` came.
pub open spec fn settled(pending: PendingView, outcome: MoveOutcome) -> ResultView {
    match outcome {
        MoveOutcome::TargetExists => failure(
            pending.item.path,
            pending.destination,
            "target already exists"@,
        ),
        MoveOutcome::ClearFailed(e) => failure(pending.item.path, pending.destination, e@),
        MoveOutcome::RenameFailed(e) => failure(pending.item.path, pending.destination, e@),
        MoveOutcome::Moved => ResultView {
            path: pending.item.path,
            new_path: pending.destination,
            success: true,
            error: None,
        },
    }
}

/// Whether one of the first `n` pending moves was made and left or entered the folder `folder`.
pub open spec fn touched(
    pending: Seq<PendingView>,
    outcomes: Seq<MoveOutcome>,
    folder: Seq<char>,
    n: int,
) -> bool {
    exists|i: int|
        #![trigger pending[i]]
        0 <= i < n && outcomes[i] is Moved && (folder == link_path::parent_of(
            pending[i].item.path,
        ) || folder == link_path::parent_of(pending[i].destination))
}

/// The folder that a note or folder lies in: what stands before the last slash of its path.
pub fn parent_folder_path(path: &str) -> (r: String)
    ensures
        r@ == link_path::parent_of(path@),
{
    link_path::source_dir_from_path(path).to_owned()
}

/// The results of the pending moves of which `outcomes` came. The folders that a moved item left
/// or entered are added to `invalidate_paths`.
pub fn execute_pending_moves(
    pending: Vec<PendingMove>,
    outcomes: &Vec<MoveOutcome>,
    invalidate_paths: &mut StringMap<()>,
) -> (r: Vec<MoveItemResult>)
    requires
        outcomes@.len() == pending@.len(),
    ensures
        r@.len() == pending@.len(),
        forall|i: int|
            0 <= i < r@.len() ==> (#[trigger] r@[i])@ == settled(pending@[i]@, outcomes@[i]),
        forall|folder: Seq<char>| #[trigger]
            final(invalidate_paths)@.contains_key(folder) <==> old(invalidate_paths)@.contains_key(
                folder,
            ) || touched(
                pending_views(pending@),
                outcomes@,
                folder,
                pending@.len() as int,
            ),
{
    let ghost all = pending@;
    let ghost views = pending_views(pending@);
    let ghost start = invalidate_paths@;
    let mut results: Vec<MoveItemResult> = Vec::new();
    for pending_move in it: pending
        invariant
            it.seq() == all,
            views == pending_views(all),
            outcomes@.len() == all.len(),
            results@.len() == it.index(),
            forall|i: int|
                0 <= i < it.index() ==> (#[trigger] results@[i])@ == settled(
                    all[i]@,
                    outcomes@[i],
                ),
            forall|folder: Seq<char>| #[trigger]
                invalidate_paths@.contains_key(folder) <==> start.contains_key(folder) || touched(
                    views,
                    outcomes@,
                    folder,
                    it.index(),
                ),
    {
        let ghost at = it.index();
        let i = results.len();
        assert(views[at] == pending_move@);
        match &outcomes[i] {
            MoveOutcome::Moved => {
                let from_parent = parent_folder_path(pending_move.item.path.as_str());
                let to_parent = parent_folder_path(pending_move.destination_path.as_str());
                invalidate_paths.insert(from_parent, ());
                invalidate_paths.insert(to_parent, ());
                results.push(move_success(pending_move.item.path, pending_move.destination_path));
            },
            MoveOutcome::TargetExists => {
                results.push(
                    move_failure(
                        pending_move.item.path.as_str(),
                        pending_move.destination_path.as_str(),
                        "target already exists",
                    ),
                );
            },
            MoveOutcome::ClearFailed(e) => {
                results.push(
                    move_failure(
                        pending_move.item.path.as_str(),
                        pending_move.destination_path.as_str(),
                        e.as_str(),
                    ),
                );
            },
            MoveOutcome::RenameFailed(e) => {
                results.push(
                    move_failure(
                        pending_move.item.path.as_str(),
                        pending_move.destination_path.as_str(),
                        e.as_str(),
                    ),
                );
            },
        }
        proof {
            assert forall|folder: Seq<char>| #[trigger]
                invalidate_paths@.contains_key(folder) <==> start.contains_key(folder) || touched(
                    views,
                    outcomes@,
                    folder,
                    at + 1,
                ) by {
                lemma_touched_next(views, outcomes@, folder, at);
            }
        }
    }
    results
}

proof fn lemma_touched_next(
    pending: Seq<PendingView>,
    outcomes: Seq<MoveOutcome>,
    folder: Seq<char>,
    n: int,
)
    requires
        0 <= n,
    ensures
        touched(pending, outcomes, folder, n + 1) <==> touched(pending, outcomes, folder, n) || (
        outcomes[n] is Moved && (folder == link_path::parent_of(pending[n].item.path) || folder
            == link_path::parent_of(pending[n].destination))),
{
    if touched(pending, outcomes, folder, n) {
        let i = choose|i: int|
            #![trigger pending[i]]
            0 <= i < n && outcomes[i] is Moved && (folder == link_path::parent_of(
                pending[i].item.path,
            ) || folder == link_path::parent_of(pending[i].destination));
        assert(0 <= i < n + 1 && outcomes[i] is Moved);
        let p = pending[i];
    }
    let last = pending[n];
}

proof fn lemma_split_candidates(plan: PlanView, n: int)
    requires
        0 <= n,
    ensures
        contained_results(plan, n).len() + kept_candidates(plan, n).len() == n,
    decreases n,
{
    if n > 0 {
        lemma_split_candidates(plan, n - 1);
    }
}

/// Each item is answered once: by a result of its own, or by a move that is still to be made and
/// that has a result later.
pub proof fn law_every_item_is_answered(
    items: Seq<ItemView>,
    leaves: Seq<Option<Seq<char>>>,
    target: Seq<char>,
    probes: Seq<Option<SourceProbe>>,
    n: int,
)
    requires
        0 <= n <= items.len(),
    ensures
        match plan_of(items, leaves, target, probes, n) {
            Ok(plan) => {
                let m = plan.candidates.len() as int;
                plan.results.len() + contained_results(plan, m).len() + kept_candidates(
                    plan,
                    m,
                ).len() == n
            },
            Err(_) => true,
        },
    decreases n,
{
    if n > 0 {
        law_every_item_is_answered(items, leaves, target, probes, n - 1);
        if let Ok(before) = plan_of(items, leaves, target, probes, n - 1) {
            lemma_split_candidates(before, before.candidates.len() as int);
        }
    }
    if let Ok(plan) = plan_of(items, leaves, target, probes, n) {
        lemma_split_candidates(plan, plan.candidates.len() as int);
    }
}

proof fn lemma_nested(items: Seq<ItemView>, folder: Seq<char>, j: int)
    requires
        0 <= j < items.len(),
        items[j].path != folder,
        descendant(items[j].path, folder),
    ensures
        nested_paths(items, folder).contains(items[j].path),
    decreases items.len(),
{
    let all = nested_paths(items, folder);
    if j == items.len() - 1 {
        assert(all[all.len() - 1] == items[j].path);
    } else {
        let front = items.drop_last();
        lemma_nested(front, folder, j);
        let before = nested_paths(front, folder);
        let k = choose|k: int| 0 <= k < before.len() && before[k] == front[j].path;
        assert(all[k] == items[j].path);
    }
}

proof fn lemma_candidates(
    items: Seq<ItemView>,
    leaves: Seq<Option<Seq<char>>>,
    target: Seq<char>,
    probes: Seq<Option<SourceProbe>>,
    n: int,
    plan: PlanView,
)
    requires
        0 <= n <= items.len(),
        plan_of(items, leaves, target, probes, n) == Ok::<PlanView, Seq<char>>(plan),
    ensures
        forall|a: int|
            0 <= a < plan.candidates.len() ==> items.contains(
                (#[trigger] plan.candidates[a]).item,
            ),
        forall|a: int, j: int|
            0 <= a < plan.candidates.len() && (#[trigger] plan.candidates[a]).item.is_folder && 0
                <= j < items.len() && (#[trigger] items[j]).path != plan.candidates[a].item.path
                && descendant(items[j].path, plan.candidates[a].item.path)
                ==> plan.nested.contains(items[j].path),
    decreases n,
{
    if n > 0 {
        let before = plan_of(items, leaves, target, probes, n - 1)->Ok_0;
        lemma_candidates(items, leaves, target, probes, n - 1, before);
        assert(plan_step(before, items, leaves, target, probes, n - 1) == Ok::<PlanView, Seq<char>>(plan));
        if plan.candidates.len() > before.candidates.len() {
            let item = items[n - 1];
            assert forall|a: int| 0 <= a < plan.candidates.len() implies items.contains(
                (#[trigger] plan.candidates[a]).item,
            ) by {
                if a < before.candidates.len() {
                    assert(plan.candidates[a] == before.candidates[a]);
                } else {
                    assert(items[n - 1] == plan.candidates[a].item);
                }
            }
            assert forall|a: int, j: int|
                0 <= a < plan.candidates.len() && (#[trigger] plan.candidates[a]).item.is_folder
                    && 0 <= j < items.len() && (#[trigger] items[j]).path
                    != plan.candidates[a].item.path && descendant(
                    items[j].path,
                    plan.candidates[a].item.path,
                ) implies plan.nested.contains(items[j].path) by {
                let path = items[j].path;
                if a < before.candidates.len() {
                    assert(plan.candidates[a] == before.candidates[a]);
                    assert(before.nested.contains(path));
                    let k = choose|k: int| 0 <= k < before.nested.len() && before.nested[k] == path;
                    assert(plan.nested[k] == path);
                } else {
                    lemma_nested(items, item.path, j);
                    let below = nested_paths(items, item.path);
                    let k = choose|k: int| 0 <= k < below.len() && below[k] == path;
                    assert(plan.nested[before.nested.len() + k] == path);
                }
            }
        }
    }
}

proof fn lemma_kept(plan: PlanView, n: int, p: PendingView)
    requires
        0 <= n <= plan.candidates.len(),
        kept_candidates(plan, n).contains(p),
    ensures
        plan.candidates.contains(p),
        !contained(plan.nested, p),
    decreases n,
{
    if n > 0 {
        let kept = kept_candidates(plan, n);
        let before = kept_candidates(plan, n - 1);
        let k = choose|k: int| 0 <= k < kept.len() && kept[k] == p;
        if k < before.len() {
            assert(before[k] == p);
            lemma_kept(plan, n - 1, p);
        } else {
            assert(plan.candidates[n - 1] == p);
        }
    }
}

/// No move is made of an item that lies in a folder which is itself a candidate for moving.
pub proof fn law_no_move_out_of_moved_folder(
    items: Seq<ItemView>,
    leaves: Seq<Option<Seq<char>>>,
    target: Seq<char>,
    probes: Seq<Option<SourceProbe>>,
    plan: PlanView,
    pending: PendingView,
    folder: PendingView,
)
    requires
        plan_of(items, leaves, target, probes, items.len() as int) == Ok::<PlanView, Seq<char>>(plan),
        kept_candidates(plan, plan.candidates.len() as int).contains(pending),
        plan.candidates.contains(folder),
        folder.item.is_folder,
        pending.item.path != folder.item.path,
    ensures
        !descendant(pending.item.path, folder.item.path),
{
    lemma_candidates(items, leaves, target, probes, items.len() as int, plan);
    lemma_kept(plan, plan.candidates.len() as int, pending);
    let a = choose|a: int| 0 <= a < plan.candidates.len() && plan.candidates[a] == folder;
    let b = choose|b: int| 0 <= b < plan.candidates.len() && plan.candidates[b] == pending;
    assert(items.contains(plan.candidates[b].item));
    let j = choose|j: int| 0 <= j < items.len() && items[j] == pending.item;
    if descendant(pending.item.path, folder.item.path) {
        assert(items[j].path == pending.item.path);
        assert(plan.candidates[a].item.is_folder);
        assert(plan.nested.contains(pending.item.path));
        let k = choose|k: int| 0 <= k < plan.nested.len() && plan.nested[k] == pending.item.path;
        assert(text::unicode_lower(plan.nested[k]) == text::unicode_lower(pending.item.path));
        assert(contained(plan.nested, pending));
    }
}

/// Whether the candidate `p` stands for the item at place `i`.
pub open spec fn stands_for(
    p: PendingView,
    items: Seq<ItemView>,
    leaves: Seq<Option<Seq<char>>>,
    target: Seq<char>,
    i: int,
) -> bool {
    &&& 0 <= i < items.len()
    &&& p.item == items[i]
    &&& early_fault(items, target, i) is None
    &&& target_path(target, leaves[i]) == Some(p.destination)
    &&& p.destination != items[i].path
}

proof fn lemma_candidate_stands(
    items: Seq<ItemView>,
    leaves: Seq<Option<Seq<char>>>,
    target: Seq<char>,
    probes: Seq<Option<SourceProbe>>,
    n: int,
    plan: PlanView,
    p: PendingView,
) -> (i: int)
    requires
        0 <= n <= items.len(),
        plan_of(items, leaves, target, probes, n) == Ok::<PlanView, Seq<char>>(plan),
        plan.candidates.contains(p),
    ensures
        i < n,
        stands_for(p, items, leaves, target, i),
    decreases n,
{
    let a = choose|a: int| 0 <= a < plan.candidates.len() && plan.candidates[a] == p;
    if n == 0 {
        0
    } else {
        let before = plan_of(items, leaves, target, probes, n - 1)->Ok_0;
        assert(plan_step(before, items, leaves, target, probes, n - 1) == Ok::<PlanView, Seq<char>>(plan));
        if a < before.candidates.len() {
            assert(before.candidates[a] == p);
            lemma_candidate_stands(items, leaves, target, probes, n - 1, before, p)
        } else {
            n - 1
        }
    }
}

/// A move is made only of an item that was asked for: not of the vault root, not of a folder into
/// itself or into a folder below it, and only to another path, which is the name of the item in the
/// target folder.
pub proof fn law_moves_are_of_movable_items(
    items: Seq<ItemView>,
    leaves: Seq<Option<Seq<char>>>,
    target: Seq<char>,
    probes: Seq<Option<SourceProbe>>,
    plan: PlanView,
    pending: PendingView,
)
    requires
        plan_of(items, leaves, target, probes, items.len() as int) == Ok::<PlanView, Seq<char>>(plan),
        kept_candidates(plan, plan.candidates.len() as int).contains(pending),
    ensures
        items.contains(pending.item),
        pending.item.path.len() > 0,
        pending.item.is_folder ==> !descendant(target, pending.item.path),
        exists|i: int|
            0 <= i < items.len() && #[trigger] items[i] == pending.item && target_path(
                target,
                leaves[i],
            ) == Some(pending.destination),
        pending.destination != pending.item.path,
{
    lemma_kept(plan, plan.candidates.len() as int, pending);
    let i = lemma_candidate_stands(
        items,
        leaves,
        target,
        probes,
        items.len() as int,
        plan,
        pending,
    );
    assert(items[i] == pending.item);
}

/// Whether no two of `moves` are of paths that differ at most in case.
pub open spec fn of_distinct_paths(moves: Seq<PendingView>) -> bool {
    forall|a: int, b: int|
        0 <= a < b < moves.len() ==> text::unicode_lower((#[trigger] moves[a]).item.path)
            != text::unicode_lower((#[trigger] moves[b]).item.path)
}

proof fn lemma_candidates_distinct(
    items: Seq<ItemView>,
    leaves: Seq<Option<Seq<char>>>,
    target: Seq<char>,
    probes: Seq<Option<SourceProbe>>,
    n: int,
    plan: PlanView,
)
    requires
        0 <= n <= items.len(),
        plan_of(items, leaves, target, probes, n) == Ok::<PlanView, Seq<char>>(plan),
    ensures
        of_distinct_paths(plan.candidates),
    decreases n,
{
    if n > 0 {
        let before = plan_of(items, leaves, target, probes, n - 1)->Ok_0;
        lemma_candidates_distinct(items, leaves, target, probes, n - 1, before);
        assert(plan_step(before, items, leaves, target, probes, n - 1) == Ok::<PlanView, Seq<char>>(plan));
        let all = plan.candidates;
        assert forall|a: int, b: int| 0 <= a < b < all.len() implies text::unicode_lower(
            (#[trigger] all[a]).item.path,
        ) != text::unicode_lower((#[trigger] all[b]).item.path) by {
            assert(before.candidates[a] == all[a]);
            if b < before.candidates.len() {
                assert(before.candidates[b] == all[b]);
            } else {
                assert(before.candidates.contains(all[a]));
                let i = lemma_candidate_stands(items, leaves, target, probes, n - 1, before, all[a]);
                assert(!repeated(items, n - 1));
                assert(items[i] == all[a].item);
            }
        }
    }
}

proof fn lemma_kept_place(plan: PlanView, n: int, k: int) -> (a: int)
    requires
        0 <= n <= plan.candidates.len(),
        0 <= k < kept_candidates(plan, n).len(),
    ensures
        0 <= a < n,
        plan.candidates[a] == kept_candidates(plan, n)[k],
    decreases n,
{
    if k < kept_candidates(plan, n - 1).len() {
        lemma_kept_place(plan, n - 1, k)
    } else {
        n - 1
    }
}

proof fn lemma_kept_distinct(plan: PlanView, n: int)
    requires
        0 <= n <= plan.candidates.len(),
        of_distinct_paths(plan.candidates),
    ensures
        of_distinct_paths(kept_candidates(plan, n)),
    decreases n,
{
    if n > 0 {
        lemma_kept_distinct(plan, n - 1);
        let before = kept_candidates(plan, n - 1);
        let kept = kept_candidates(plan, n);
        assert forall|a: int, b: int| 0 <= a < b < kept.len() implies text::unicode_lower(
            (#[trigger] kept[a]).item.path,
        ) != text::unicode_lower((#[trigger] kept[b]).item.path) by {
            assert(kept[a] == before[a]);
            if b < before.len() {
                assert(kept[b] == before[b]);
            } else {
                let i = lemma_kept_place(plan, n - 1, a);
                assert(plan.candidates[i] == kept[a]);
                assert(plan.candidates[n - 1] == kept[b]);
            }
        }
    }
}

/// No item is moved twice, not even when it is asked for again in another case.
pub proof fn law_no_item_moves_twice(
    items: Seq<ItemView>,
    leaves: Seq<Option<Seq<char>>>,
    target: Seq<char>,
    probes: Seq<Option<SourceProbe>>,
    plan: PlanView,
)
    requires
        plan_of(items, leaves, target, probes, items.len() as int) == Ok::<PlanView, Seq<char>>(plan),
    ensures
        of_distinct_paths(kept_candidates(plan, plan.candidates.len() as int)),
{
    lemma_candidates_distinct(items, leaves, target, probes, items.len() as int, plan);
    lemma_kept_distinct(plan, plan.candidates.len() as int);
}

proof fn lemma_last_at(head: Seq<char>, tail: Seq<char>)
    requires
        !tail.contains('/'),
    ensures
        text::last_at(head + seq!['/'] + tail, '/') == head.len(),
    decreases tail.len(),
{
    let whole = head + seq!['/'] + tail;
    if tail.len() > 0 {
        let front = tail.drop_last();
        if front.contains('/') {
            let i = choose|i: int| 0 <= i < front.len() && front[i] == '/';
            assert(tail[i] == '/');
        }
        lemma_last_at(head, front);
        assert(whole.drop_last() =~= head + seq!['/'] + front);
        assert(tail[tail.len() - 1] != '/');
    }
}

proof fn lemma_no_slash(s: Seq<char>)
    requires
        !s.contains('/'),
    ensures
        text::last_at(s, '/') == -1,
    decreases s.len(),
{
    if s.len() > 0 {
        let front = s.drop_last();
        if front.contains('/') {
            let i = choose|i: int| 0 <= i < front.len() && front[i] == '/';
            assert(s[i] == '/');
        }
        lemma_no_slash(front);
        assert(s[s.len() - 1] != '/');
    }
}

/// Whether a name, if there is one, holds no slash.
pub open spec fn without_slash(leaf: Option<Seq<char>>) -> bool {
    match leaf {
        Some(name) => !name.contains('/'),
        None => true,
    }
}

proof fn lemma_inner_without_prefix(parts: Seq<Seq<char>>)
    ensures
        vault_path::without_prefix(vault_path::inner_parts(parts)),
    decreases parts.len(),
{
    if parts.len() > 0 {
        let front = vault_path::inner_parts(parts.drop_last());
        lemma_inner_without_prefix(parts.drop_last());
        assert forall|i: int| 0 <= i < vault_path::inner_parts(parts).len() implies !((
        #[trigger] vault_path::inner_parts(parts)[i]) is Prefix) by {
            if i < front.len() {
                assert(vault_path::inner_parts(parts)[i] == front[i]);
            }
        }
    }
}

/// The name of what a path leads to holds no slash, if all machines read the path alike or it names
/// no volume.
pub proof fn law_leaf_holds_no_slash(path: Seq<char>, reading: vault_path::ReadingView)
    requires
        vault_path::reads(path, reading),
        vault_path::portable(path) || vault_path::without_prefix(reading.parts),
    ensures
        without_slash(vault_path::file_name(reading)),
{
    if vault_path::portable(path) {
        let inner = vault_path::inner_parts(text::split_on(path, '/'));
        let start = reading.parts.len() - inner.len();
        lemma_inner_without_prefix(text::split_on(path, '/'));
        assert forall|i: int| 0 <= i < reading.parts.len() implies !((
        #[trigger] reading.parts[i]) is Prefix) by {
            if i >= start {
                assert(reading.parts[i] == inner[i - start]);
            }
        }
    }
    if reading.parts.len() > 0 {
        assert(reading.parts.last() == reading.parts[reading.parts.len() - 1]);
    }
}

/// An item that is moved comes to lie directly in the target folder and keeps its name. It has no
/// destination only if it has no name. A name that holds a slash is left out.
pub proof fn law_destination_lies_in_target(
    target_folder: Seq<char>,
    source_path: Seq<char>,
    reading: vault_path::ReadingView,
)
    requires
        vault_path::reads(source_path, reading),
        without_slash(vault_path::file_name(reading)),
    ensures
        match target_path(target_folder, vault_path::file_name(reading)) {
            Some(destination) => {
                &&& link_path::parent_of(destination) == target_folder
                &&& vault_path::file_name(reading) == Some(
                    text::split_on(destination, '/').last(),
                )
            },
            None => vault_path::file_name(reading) is None,
        },
{
    if let Some(leaf) = vault_path::file_name(reading) {
        text::lemma_split_whole(leaf, '/');
        if target_folder.len() == 0 {
            lemma_no_slash(leaf);
            assert(target_folder =~= Seq::<char>::empty());
        } else {
            reveal_strlit("/");
            assert("/"@ =~= seq!['/']);
            lemma_last_at(target_folder, leaf);
            let whole = target_folder + seq!['/'] + leaf;
            assert(whole.take(target_folder.len() as int) =~= target_folder);
            text::lemma_split_concat(target_folder, leaf, '/');
        }
    }
}

/// An item that was moved to a folder has the same destination when it is moved to that folder
/// again, if all machines read that destination alike. A name that holds a slash is left out.
pub proof fn law_second_move_changes_nothing(
    target_folder: Seq<char>,
    source_path: Seq<char>,
    reading: vault_path::ReadingView,
    destination: Seq<char>,
    again: vault_path::ReadingView,
)
    requires
        vault_path::reads(source_path, reading),
        without_slash(vault_path::file_name(reading)),
        target_path(target_folder, vault_path::file_name(reading)) == Some(destination),
        vault_path::portable(destination),
        vault_path::reads(destination, again),
    ensures
        vault_path::file_name(again) == vault_path::file_name(reading),
        target_path(target_folder, vault_path::file_name(again)) == Some(destination),
{
    let leaf = vault_path::file_name(reading)->0;
    let texts = text::split_on(destination, '/');
    law_destination_lies_in_target(target_folder, source_path, reading);
    text::lemma_split_nonempty(destination, '/');
    assert(reading.parts.last() == reading.parts[reading.parts.len() - 1]);
    assert(texts.last() == leaf);
    assert(vault_path::inner_parts(texts).last() == vault_path::PartView::Name(leaf));
    assert(again.parts.last() == vault_path::inner_parts(texts).last());
}

} // verus!
