//! What corruptions do to an archive on disk, from the first action to the last.

use crate::corruption;
use crate::corruption::{ActionView, ApplyView, DamageView, EventView, Target};
use crate::damage;
use crate::kinds;
use crate::kinds::Kind;
use crate::ledger;
use crate::paths;
use crate::pick;
use crate::run;
use crate::run::{BrokenView, HoldView, RunView, TouchedView};
use crate::text;
use rand::rngs::StdRng;
use vstd::prelude::*;

verus! {

//=============================================================================
// The disk
//=============================================================================

/// An archive on disk.
#[verifier::ext_equal]
pub struct DiskView {
    /// Where it is.
    pub base: Seq<char>,
    /// What each of its regular files holds, by path.
    pub files: Map<Seq<char>, Seq<u8>>,
    /// The order in which files with these paths are listed.
    pub order: spec_fn(Set<Seq<char>>) -> Seq<Seq<char>>,
    /// The paths of files that can be read.
    pub readable: Set<Seq<char>>,
    /// Whether files can be written and removed.
    pub writable: bool,
}

impl DiskView {
    /// The paths of the files, as they are listed.
    pub open spec fn listing(self) -> Seq<Seq<char>> {
        (self.order)(self.files.dom())
    }

    /// The path of a file.
    pub open spec fn path_of(self, target: Target) -> Seq<char> {
        match target {
            Target::Listed(file) => self.listing()[file as int],
            Target::RootState => corruption::root_state_path(self.base),
        }
    }

    /// What the file at `path` holds, where there is one.
    pub open spec fn holds(self, path: Seq<char>) -> Option<Seq<u8>> {
        if self.files.dom().contains(path) {
            Some(self.files[path])
        } else {
            None
        }
    }

    /// What reading the file at `path` gives.
    pub open spec fn read(self, path: Seq<char>) -> Option<Seq<u8>> {
        if self.readable.contains(path) {
            self.holds(path)
        } else {
            None
        }
    }

    /// What comes of an action.
    pub open spec fn answer(self, action: ActionView) -> EventView {
        match action {
            ActionView::ListFiles => EventView::Listed(self.listing()),
            ActionView::ReadFile(target) => EventView::Contents(self.read(self.path_of(target))),
            _ => EventView::Stored(self.writable),
        }
    }

    /// The disk after an action.
    pub open spec fn performed(self, action: ActionView) -> DiskView {
        match action {
            ActionView::WriteFile(target, data) if self.writable => DiskView {
                files: self.files.insert(self.path_of(target), data),
                ..self
            },
            ActionView::RemoveFile(file) if self.writable => DiskView {
                files: self.files.remove(self.path_of(Target::Listed(file))),
                ..self
            },
            _ => self,
        }
    }

    /// Those of `files` that hold more than one ledger-header entry.
    pub open spec fn with_many_entries(self, files: Seq<usize>) -> Seq<usize>
        decreases files.len(),
    {
        if files.len() == 0 {
            Seq::empty()
        } else {
            let before = self.with_many_entries(files.drop_last());
            if corruption::multi_entry(self.read(self.listing()[files.last() as int])) {
                before.push(files.last())
            } else {
                before
            }
        }
    }

    /// The files that a corruption of this kind picks from.
    pub open spec fn eligible(self, kind: Kind) -> Seq<usize> {
        let files = corruption::matching_files(kind, self.listing());
        if corruption::inspects(kind) {
            self.with_many_entries(files)
        } else {
            files
        }
    }

    /// The file that a corruption of this kind damages: the one with the greatest
    /// path for a broken boundary, else one that is picked with `rng`.
    pub open spec fn damaged_file(self, kind: Kind, rng: StdRng) -> Option<usize> {
        if kind == Kind::CrossChain {
            corruption::greatest_file(
                self.listing(),
                corruption::matching_files(kind, self.listing()),
            )
        } else {
            pick::pick_of(self.eligible(kind), rng)
        }
    }

    /// The generator after a corruption of this kind.
    pub open spec fn rng_after(self, kind: Kind, rng: StdRng) -> StdRng {
        if kind == Kind::CrossChain || kind == Kind::WellKnown {
            rng
        } else {
            pick::rng_after(rng, self.eligible(kind).len())
        }
    }

    /// What is done to a file damaged by a corruption of this kind, where anything
    /// is.
    pub open spec fn change(self, kind: Kind, file: usize) -> Option<ActionView> {
        if kind == Kind::DeleteFile {
            Some(ActionView::RemoveFile(file))
        } else {
            match damage::replacement(kind) {
                Some(data) => Some(ActionView::WriteFile(Target::Listed(file), data)),
                None => match self.read(self.listing()[file as int]) {
                    Some(data) => match damage::damaged_contents(kind, data) {
                        Some(out) => Some(ActionView::WriteFile(Target::Listed(file), out)),
                        None => None,
                    },
                    None => None,
                },
            }
        }
    }

    /// What comes of damaging the file with the key `key` by `action`.
    pub open spec fn stored(
        self,
        kind: Kind,
        key: Seq<char>,
        action: ActionView,
        rng: StdRng,
    ) -> Outcome {
        Outcome {
            damage: if self.writable {
                Some(DamageView { kind: kind.text(), key })
            } else {
                None
            },
            changes: seq![action],
            disk: self.performed(action),
            rng,
        }
    }

    /// What comes of a corruption that changes nothing.
    pub open spec fn unbroken(self, rng: StdRng) -> Outcome {
        Outcome { damage: None, changes: Seq::empty(), disk: self, rng }
    }

    /// What comes of damaging `file`, if there is one to damage.
    pub open spec fn damaging(self, kind: Kind, file: Option<usize>, rng: StdRng) -> Outcome {
        match file {
            Some(file) => match (
                paths::key_below(self.listing()[file as int], self.base),
                self.change(kind, file),
            ) {
                (Some(key), Some(action)) => self.stored(kind, key, action, rng),
                _ => self.unbroken(rng),
            },
            None => self.unbroken(rng),
        }
    }

    /// What comes of the corruption named `name`, with the generator `rng`.
    pub open spec fn outcome(self, name: Seq<char>, rng: StdRng) -> Outcome {
        match Kind::named(name) {
            Some(Kind::WellKnown) => match paths::key_below(
                corruption::root_state_path(self.base),
                self.base,
            ) {
                Some(key) => self.stored(
                    Kind::WellKnown,
                    key,
                    ActionView::WriteFile(Target::RootState, text::ascii_bytes(damage::NOT_JSON@)),
                    rng,
                ),
                None => self.unbroken(rng),
            },
            Some(kind) => self.damaging(
                kind,
                self.damaged_file(kind, rng),
                self.rng_after(kind, rng),
            ),
            None => self.unbroken(rng),
        }
    }
}

/// What a corruption reports, the changes it made to files in order, the disk it
/// leaves, and the generator.
#[verifier::ext_equal]
pub struct Outcome {
    pub damage: Option<DamageView>,
    pub changes: Seq<ActionView>,
    pub disk: DiskView,
    pub rng: StdRng,
}

/// The action changes a file.
pub open spec fn is_change(action: ActionView) -> bool {
    action is WriteFile || action is RemoveFile
}

//=============================================================================
// One corruption
//=============================================================================

/// What comes of a corruption in `state` that asks for `action`, each action being
/// performed on `disk` and answered, for at most `steps` actions. `None` where these
/// are not enough.
pub open spec fn driven(
    disk: DiskView,
    state: ApplyView,
    action: ActionView,
    rng: StdRng,
    steps: nat,
) -> Option<Outcome>
    decreases steps,
{
    match action {
        ActionView::Finished(damage) => Some(
            Outcome { damage, changes: Seq::empty(), disk, rng },
        ),
        _ => if steps == 0 {
            None
        } else {
            let (next, next_action, next_rng) = corruption::advanced(
                state,
                disk.answer(action),
                rng,
            );
            match driven(
                disk.performed(action),
                next,
                next_action,
                next_rng,
                (steps - 1) as nat,
            ) {
                Some(end) => Some(
                    Outcome {
                        changes: if is_change(action) {
                            seq![action] + end.changes
                        } else {
                            end.changes
                        },
                        ..end
                    },
                ),
                None => None,
            }
        },
    }
}

/// From a pick on: the rest of the corruption takes at most two more actions.
proof fn lemma_driven_from_pick(
    disk: DiskView,
    kind: Kind,
    pick: Option<usize>,
    rng: StdRng,
    steps: nat,
)
    requires
        steps >= 2,
        kind != Kind::WellKnown,
    ensures
        ({
            let (state, action) = corruption::picked(kind, disk.base, disk.listing(), pick);
            driven(disk, state, action, rng, steps) == Some(disk.damaging(kind, pick, rng))
        }),
{
    reveal_with_fuel(driven, 4);
    let (state, action) = corruption::picked(kind, disk.base, disk.listing(), pick);
    let end = driven(disk, state, action, rng, steps);
    if let Some(file) = pick {
        if let Some(key) = paths::key_below(disk.listing()[file as int], disk.base) {
            if let Some(change) = disk.change(kind, file) {
                assert(seq![change] + Seq::<ActionView>::empty() =~= seq![change]);
                assert(end->0.changes =~= seq![change]);
            }
        }
    }
}

/// While candidates are read, those kept are the candidates read so far that hold
/// more than one entry.
proof fn lemma_driven_from_inspection(
    disk: DiskView,
    kind: Kind,
    candidates: Seq<usize>,
    at: usize,
    rng: StdRng,
    steps: nat,
)
    requires
        disk.listing().len() < usize::MAX,
        corruption::inspects(kind),
        at < candidates.len() <= disk.listing().len(),
        steps >= candidates.len() - at + 2,
    ensures
        ({
            let state = ApplyView::Inspecting {
                kind,
                base: disk.base,
                paths: disk.listing(),
                candidates,
                kept: disk.with_many_entries(candidates.take(at as int)),
                at,
            };
            let kept = disk.with_many_entries(candidates);
            driven(
                disk,
                state,
                ActionView::ReadFile(Target::Listed(candidates[at as int])),
                rng,
                steps,
            ) == Some(
                disk.damaging(kind, pick::pick_of(kept, rng), pick::rng_after(rng, kept.len())),
            )
        }),
    decreases candidates.len() - at,
{
    let file = candidates[at as int];
    let kept = disk.with_many_entries(candidates);
    assert(candidates.take(at + 1).drop_last() =~= candidates.take(at as int));
    assert(candidates.take(at + 1).last() == file);
    if at + 1 < candidates.len() {
        lemma_driven_from_inspection(
            disk,
            kind,
            candidates,
            (at + 1) as usize,
            rng,
            (steps - 1) as nat,
        );
    } else {
        assert(candidates.take(at + 1) =~= candidates);
        lemma_driven_from_pick(
            disk,
            kind,
            pick::pick_of(kept, rng),
            pick::rng_after(rng, kept.len()),
            (steps - 1) as nat,
        );
    }
}

/// The files that a kind is for are those whose paths suit it, each once and in
/// the order of the listing.
pub proof fn law_matching_files(kind: Kind, paths: Seq<Seq<char>>)
    requires
        paths.len() <= usize::MAX,
    ensures
        ({
            let files = corruption::matching_files(kind, paths);
            &&& files.len() <= paths.len()
            &&& forall|i: int, j: int|
                0 <= i < j < files.len() ==> #[trigger] files[i] < #[trigger] files[j]
            &&& forall|f: usize| #[trigger]
                files.contains(f) <==> f < paths.len() && corruption::suits(kind, paths[f as int])
        }),
    decreases paths.len(),
{
    if paths.len() > 0 {
        let init = paths.drop_last();
        law_matching_files(kind, init);
        let before = corruption::matching_files(kind, init);
        let files = corruption::matching_files(kind, paths);
        let last = (paths.len() - 1) as usize;
        assert forall|f: usize| #[trigger] files.contains(f) <==> f < paths.len()
            && corruption::suits(kind, paths[f as int]) by {
            assert(before.contains(f) <==> f < init.len() && corruption::suits(
                kind,
                init[f as int],
            ));
            if files.contains(f) {
                let i = files.index_of(f);
                if i < before.len() {
                    assert(before[i] == f);
                    assert(before.contains(f));
                }
            }
            if before.contains(f) {
                assert(files[before.index_of(f)] == f);
            }
            if f == last && corruption::suits(kind, paths.last()) {
                assert(files.last() == f);
            }
        }
        assert forall|i: int, j: int| 0 <= i < j < files.len() implies #[trigger] files[i]
            < #[trigger] files[j] by {
            if j == before.len() {
                assert(before.contains(before[i]));
            }
        }
    }
}

/// A file below `.well-known` is never deleted.
pub proof fn law_root_state_is_not_deleted(paths: Seq<Seq<char>>, file: usize)
    requires
        paths.len() <= usize::MAX,
        corruption::matching_files(Kind::DeleteFile, paths).contains(file),
    ensures
        !text::contains_text(paths[file as int], ".well-known"@),
{
    law_matching_files(Kind::DeleteFile, paths);
}

/// The root state file is reported under its path in the archive.
pub proof fn law_root_state_key(base: Seq<char>)
    requires
        base.len() > 0,
        base.len() + 33 < usize::MAX,
    ensures
        paths::key_below(corruption::root_state_path(base), base) == Some(damage::ROOT_STATE@),
{
    let rel = damage::ROOT_STATE@;
    reveal_strlit(".well-known/stellar-history.json");
    let a = rel.take(11);
    let b = rel.skip(12);
    assert(rel.len() == 32);
    assert(forall|i: int| 0 <= i < 32 && i != 11 ==> #[trigger] rel[i] != '/' && rel[i] != '\\');
    assert(rel[11] == '/');
    assert(rel =~= a.push('/') + b);
    assert(!a.contains('/'));
    assert(!b.contains('/'));
    paths::lemma_two_names(a, b);
    assert(!rel.contains('\\'));
    paths::law_key_of_path_below(base, rel);
}

/// Of files with equal paths the last is taken for the greatest.
proof fn lemma_last_greatest(paths: Seq<Seq<char>>, files: Seq<usize>)
    ensures
        corruption::greatest_file(paths, files) matches Some(best) ==> exists|k: int|
            0 <= k < files.len() && #[trigger] files[k] == best && forall|i: int|
                k < i < files.len() ==> paths[(#[trigger] files[i]) as int] != paths[best as int],
    decreases files.len(),
{
    if files.len() > 0 {
        let init = files.drop_last();
        let last = files.len() - 1;
        lemma_last_greatest(paths, init);
        let best = corruption::greatest_file(paths, files)->0;
        match corruption::greatest_file(paths, init) {
            Some(before) if !text::text_le(
                paths[before as int],
                paths[files[last] as int],
            ) => {
                let k = choose|k: int|
                    0 <= k < init.len() && #[trigger] init[k] == before && forall|i: int|
                        k < i < init.len() ==> paths[(#[trigger] init[i]) as int]
                            != paths[before as int];
                text::law_text_le_reflexive(paths[before as int]);
                assert(files[k] == best);
                assert forall|i: int| k < i < files.len() implies paths[(
                #[trigger] files[i]) as int] != paths[best as int] by {
                    if i < init.len() {
                        assert(init[i] == files[i]);
                    }
                }
            },
            _ => {
                assert(files[last] == best);
            },
        }
    }
}

/// The file that breaks a boundary is one of those that can, and none of them
/// comes after it in the order of their paths: with checkpoint numbers of one
/// width in the paths, it is that of the highest checkpoint.
pub proof fn law_greatest_file(paths: Seq<Seq<char>>, files: Seq<usize>)
    ensures
        match corruption::greatest_file(paths, files) {
            Some(best) => files.contains(best) && forall|i: int|
                0 <= i < files.len() ==> text::text_le(
                    paths[(#[trigger] files[i]) as int],
                    paths[best as int],
                ),
            None => files.len() == 0,
        },
        corruption::greatest_file(paths, files) matches Some(best) ==> exists|k: int|
            0 <= k < files.len() && #[trigger] files[k] == best && forall|i: int|
                k < i < files.len() ==> paths[(#[trigger] files[i]) as int] != paths[best as int],
    decreases files.len(),
{
    if files.len() > 0 {
        let init = files.drop_last();
        let last = files.last();
        law_greatest_file(paths, init);
        let best = corruption::greatest_file(paths, files)->0;
        text::law_text_le_reflexive(paths[last as int]);
        lemma_last_greatest(paths, files);
        match corruption::greatest_file(paths, init) {
            Some(before) => {
                text::law_text_le_total(paths[before as int], paths[last as int]);
                assert(files[init.index_of(before)] == before);
                assert forall|i: int| 0 <= i < files.len() implies text::text_le(
                    paths[(#[trigger] files[i]) as int],
                    paths[best as int],
                ) by {
                    if i < init.len() {
                        assert(init[i] == files[i]);
                        if best == last {
                            if text::text_le(paths[before as int], paths[last as int]) {
                                text::law_text_le_transitive(
                                    paths[files[i] as int],
                                    paths[before as int],
                                    paths[last as int],
                                );
                            }
                        }
                    }
                }
            },
            None => {},
        }
    }
}

/// The files that are kept are of those that were read, and hold more than one entry.
pub proof fn law_with_many_entries(disk: DiskView, files: Seq<usize>, file: usize)
    ensures
        disk.with_many_entries(files).contains(file) <==> files.contains(file)
            && corruption::multi_entry(disk.read(disk.listing()[file as int])),
    decreases files.len(),
{
    if files.len() > 0 {
        let init = files.drop_last();
        law_with_many_entries(disk, init, file);
        let before = disk.with_many_entries(init);
        let kept = disk.with_many_entries(files);
        if kept.contains(file) {
            let i = kept.index_of(file);
            if i < before.len() {
                assert(before[i] == file);
                assert(files[init.index_of(file)] == file);
            } else {
                assert(files[files.len() - 1] == file);
            }
        }
        if files.contains(file) && corruption::multi_entry(
            disk.read(disk.listing()[file as int]),
        ) {
            let i = files.index_of(file);
            if i < init.len() {
                assert(init[i] == file);
                assert(kept[before.index_of(file)] == file);
            } else {
                assert(kept[kept.len() - 1] == file);
            }
        }
    }
}

/// The file that a corruption damages is eligible, and suits its kind.
proof fn lemma_damaged_file(disk: DiskView, kind: Kind, rng: StdRng)
    requires
        disk.listing().len() <= usize::MAX,
    ensures
        disk.damaged_file(kind, rng) matches Some(file) ==> disk.eligible(kind).contains(file)
            && file < disk.listing().len() && corruption::suits(
            kind,
            disk.listing()[file as int],
        ),
{
    let files = corruption::matching_files(kind, disk.listing());
    law_matching_files(kind, disk.listing());
    if let Some(file) = disk.damaged_file(kind, rng) {
        if kind == Kind::CrossChain {
            law_greatest_file(disk.listing(), files);
        } else {
            pick::law_pick_is_among(disk.eligible(kind), rng);
            law_with_many_entries(disk, files, file);
        }
        assert(files.contains(file));
    }
}

/// Performing what a corruption asks for ends, whatever the archive holds, after at
/// most three actions more than there are files. It leaves the archive with at most
/// one file changed, by exactly the damage of the kind, and reports that file and kind
/// if, and only if, the change could be made. The file that it damages is one of those
/// that are eligible, and its path suits the kind.
pub proof fn law_corruption_breaks_one_file(disk: DiskView, name: Seq<char>, rng: StdRng)
    requires
        disk.listing().len() < usize::MAX,
    ensures
        ({
            let (state, action) = corruption::started(disk.base, name);
            driven(disk, state, action, rng, disk.listing().len() + 3) == Some(
                disk.outcome(name, rng),
            )
        }),
        disk.outcome(name, rng).changes.len() <= 1,
        disk.outcome(name, rng).damage is Some <==> disk.writable && disk.outcome(
            name,
            rng,
        ).changes.len() == 1,
        Kind::named(name) matches Some(kind) ==> (disk.damaged_file(kind, rng) matches Some(file)
            ==> disk.eligible(kind).contains(file) && file < disk.listing().len()
            && corruption::suits(kind, disk.listing()[file as int])),
{
    let (state, action) = corruption::started(disk.base, name);
    let steps = disk.listing().len() + 3;
    match Kind::named(name) {
        Some(Kind::WellKnown) => {
            lemma_damaged_file(disk, Kind::WellKnown, rng);
            reveal_with_fuel(driven, 2);
            let change = ActionView::WriteFile(
                Target::RootState,
                text::ascii_bytes(damage::NOT_JSON@),
            );
            assert(seq![change] + Seq::<ActionView>::empty() =~= seq![change]);
        },
        Some(kind) => {
            let candidates = corruption::matching_files(kind, disk.listing());
            law_matching_files(kind, disk.listing());
            lemma_damaged_file(disk, kind, rng);
            lemma_driven_from_pick(
                disk,
                kind,
                disk.damaged_file(kind, rng),
                disk.rng_after(kind, rng),
                (steps - 1) as nat,
            );
            if corruption::inspects(kind) && candidates.len() > 0 {
                assert(candidates.take(0) =~= Seq::<usize>::empty());
                lemma_driven_from_inspection(disk, kind, candidates, 0, rng, (steps - 1) as nat);
            }
        },
        None => {},
    }
}

//=============================================================================
// A whole run
//=============================================================================

/// Where a run that asks for `action` ends its round, and the disk it leaves, each
/// action being performed on `disk` and answered, for at most `steps` actions. `None`
/// where these are not enough.
pub open spec fn round_driven(
    run: RunView,
    action: ActionView,
    disk: DiskView,
    steps: nat,
) -> Option<(RunView, DiskView)>
    decreases steps,
{
    if action is Finished {
        Some((run, disk))
    } else if steps == 0 {
        None
    } else {
        let (next, next_action) = run.after(disk.answer(action));
        round_driven(next, next_action, disk.performed(action), (steps - 1) as nat)
    }
}

/// A run and the disk after one more round, each action being performed and answered.
pub open spec fn one_round(run: RunView, disk: DiskView) -> Option<(RunView, DiskView)> {
    let (begun, action) = run.next_round();
    round_driven(begun, action, disk, disk.listing().len() + 4)
}

/// A run and the disk after all rounds that are left.
pub open spec fn ran(run: RunView, disk: DiskView) -> (RunView, DiskView)
    decreases run.left,
{
    if run.left == 0 {
        (run, disk)
    } else {
        match one_round(run, disk) {
            Some((next, left)) if next.left < run.left => ran(next, left),
            _ => (run, disk),
        }
    }
}

impl DiskView {
    /// However many files there are, they can be counted.
    pub open spec fn countable(self) -> bool {
        forall|paths: Set<Seq<char>>| (#[trigger] (self.order)(paths)).len() < usize::MAX
    }

    /// The files that are listed are those that are there.
    pub open spec fn lists_files(self) -> bool {
        forall|paths: Set<Seq<char>>, i: int|
            0 <= i < (self.order)(paths).len() ==> paths.contains(
                #[trigger] (self.order)(paths)[i],
            )
    }

    /// The same archive, apart from what its files hold.
    pub open spec fn same_place(self, other: DiskView) -> bool {
        &&& self.base == other.base
        &&& self.order == other.order
        &&& self.readable == other.readable
        &&& self.writable == other.writable
    }
}

/// `record` with the damage, if there is any, that comes of one more round.
pub open spec fn recorded(
    before: Seq<BrokenView>,
    after: Seq<BrokenView>,
    damage: Option<DamageView>,
) -> bool {
    match damage {
        Some(d) => after.len() == before.len() + 1 && after.drop_last() == before
            && after.last().damage == d,
        None => after == before,
    }
}

/// A run does to the disk what its corruption does, and records what that reports.
proof fn lemma_round_follows(
    run: RunView,
    state: ApplyView,
    action: ActionView,
    disk: DiskView,
    steps: nat,
)
    requires
        driven(disk, state, action, run.rng, steps) is Some,
        is_change(action) <==> state is Storing,
        action matches ActionView::Finished(damage) ==> damage is None,
    ensures
        ({
            let (begun, asked) = run.taken_up(state, action);
            let end = driven(disk, state, action, run.rng, steps)->0;
            round_driven(begun, asked, disk, steps + 1) matches Some((after, left)) && {
                &&& left == end.disk
                &&& after.rng == end.rng
                &&& after.left == run.left
                &&& after.base == run.base
                &&& after.kinds == run.kinds
                &&& after.hold == HoldView::Nothing
                &&& recorded(run.record, after.record, end.damage)
            }
        }),
    decreases steps,
{
    let (begun, asked) = run.taken_up(state, action);
    if action is Finished {
    } else if is_change(action) {
        reveal_with_fuel(round_driven, 3);
        reveal_with_fuel(driven, 2);
        let path = state->Storing_path;
        let kind = state->Storing_kind;
        let key = state->Storing_key;
        let damage = DamageView { kind: kind.text(), key };
        assert(run.record.push(BrokenView { path, damage }).drop_last() =~= run.record);
    } else {
        let (next, next_action, rng) = corruption::advanced(state, disk.answer(action), run.rng);
        lemma_round_follows(
            RunView { rng, ..run },
            next,
            next_action,
            disk,
            (steps - 1) as nat,
        );
        assert(RunView { rng, ..begun }.taken_up(next, next_action) == RunView {
            rng,
            ..run
        }.taken_up(next, next_action));
    }
}

/// Each round of a run is one corruption, of the kind that was picked: it ends, it does
/// to the disk what that corruption does, and the damage that it reports is recorded.
pub proof fn law_round_is_one_corruption(run: RunView, disk: DiskView)
    requires
        run.left > 0,
        run.base == disk.base,
        disk.listing().len() < usize::MAX,
    ensures
        ({
            let rng = pick::rng_after(run.rng, run.kinds.len());
            let end = disk.outcome(run::picked_name(run.kinds, run.rng), rng);
            one_round(run, disk) matches Some((after, left)) && {
                &&& left == end.disk
                &&& after.rng == end.rng
                &&& after.left == run.left - 1
                &&& after.base == run.base
                &&& after.kinds == run.kinds
                &&& after.hold == HoldView::Nothing
                &&& recorded(run.record, after.record, end.damage)
            }
        }),
{
    let name = run::picked_name(run.kinds, run.rng);
    let rng = pick::rng_after(run.rng, run.kinds.len());
    let (state, action) = corruption::started(run.base, name);
    law_corruption_breaks_one_file(disk, name, rng);
    lemma_round_follows(
        RunView { left: (run.left - 1) as usize, rng, ..run },
        state,
        action,
        disk,
        disk.listing().len() + 3,
    );
}

/// A run knows what it has done to the disk: whether each file that it touched is other
/// than it was at the start, and a corruption of every file that is.
pub open spec fn keeps_track(
    run: RunView,
    action: ActionView,
    disk: DiskView,
    start: DiskView,
) -> bool {
    &&& disk.same_place(start)
    &&& run.base == disk.base
    &&& forall|i: int|
        0 <= i < run.touched.len() ==> entry_right(#[trigger] run.touched[i], disk, start)
    &&& forall|i: int, j: int|
        0 <= i < j < run.touched.len() ==> (#[trigger] run.touched[i]).path != (
        #[trigger] run.touched[j]).path
    &&& forall|path: Seq<char>| #[trigger]
        disk.holds(path) != start.holds(path) ==> is_recorded(run.record, path)
    &&& forall|path: Seq<char>|
        (#[trigger] disk.holds(path)) is Some && start.holds(path) is None ==> path
            == corruption::root_state_path(disk.base)
    &&& forall|j: int|
        0 <= j < run.record.len() ==> record_right(#[trigger] run.record[j], run)
    &&& state_right(run.current, disk)
    &&& hold_right(run, action, disk)
}

/// What is kept of a touched file is right: what it held, where it could be read; and
/// whether it is other than it was, where that can be known.
pub open spec fn entry_right(entry: TouchedView, disk: DiskView, start: DiskView) -> bool {
    let before = start.holds(entry.path);
    let after = disk.holds(entry.path);
    &&& entry.original is Some ==> before == entry.original
    &&& entry.original is None ==> start.read(entry.path) is None
    &&& !entry.changed ==> after == before
    &&& entry.changed && entry.original is Some ==> after != before
    &&& entry.changed && after is None ==> before is Some
}

/// There is a corruption of the file at `path` in `record`.
pub open spec fn is_recorded(record: Seq<BrokenView>, path: Seq<char>) -> bool {
    exists|j: int| 0 <= j < record.len() && (#[trigger] record[j]).path == path
}

/// A corruption that is recorded is of a touched file, under its key.
pub open spec fn record_right(broken: BrokenView, run: RunView) -> bool {
    run::find(run.touched, broken.path) is Some && paths::key_below(broken.path, run.base) == Some(
        broken.damage.key,
    )
}

/// The paths, positions and keys that a corruption holds are those of the files on the
/// disk.
pub open spec fn state_right(state: ApplyView, disk: DiskView) -> bool {
    match state {
        ApplyView::Listing { kind, base } => base == disk.base && kind != Kind::WellKnown,
        ApplyView::Inspecting { kind, base, paths, candidates, kept, at } => {
            &&& corruption::inspects(kind)
            &&& base == disk.base
            &&& paths == disk.listing()
            &&& at < candidates.len()
            &&& corruption::in_listing(candidates, paths.len())
            &&& corruption::in_listing(kept, paths.len())
        },
        ApplyView::Reading { file, path, key, .. } => file < disk.listing().len() && path
            == disk.listing()[file as int] && paths::key_below(path, disk.base) == Some(key),
        ApplyView::Storing { path, key, .. } => paths::key_below(path, disk.base) == Some(key),
        ApplyView::Done => true,
    }
}

/// A change is that of the file being damaged, which is on the disk unless it is the
/// root state file; and that one is not removed.
pub open spec fn change_right(state: ApplyView, change: ActionView, disk: DiskView) -> bool {
    &&& is_change(change)
    &&& state matches ApplyView::Storing { path, .. } && path == disk.path_of(
        run::changed_target(change),
    )
    &&& run::changed_target(change) matches Target::Listed(file) ==> file < disk.listing().len()
    &&& change is RemoveFile ==> disk.path_of(run::changed_target(change))
        != corruption::root_state_path(disk.base)
}

/// What a corruption asks for is right: a change where it stores, and else none.
pub open spec fn asks_right(state: ApplyView, action: ActionView, disk: DiskView) -> bool {
    state_right(state, disk) && if is_change(action) {
        change_right(state, action, disk)
    } else {
        !(state is Storing)
    }
}

/// The change under way is right, and is made only once the file was read.
pub open spec fn hold_right(run: RunView, action: ActionView, disk: DiskView) -> bool {
    match run.hold {
        HoldView::Nothing => !is_change(action) && !(run.current is Storing),
        HoldView::Before(change) => change_right(run.current, change, disk) && action
            == ActionView::ReadFile(run::changed_target(change)),
        HoldView::During(changed) => change_right(run.current, action, disk) && {
            let path = disk.path_of(run::changed_target(action));
            run::find(run.touched, path) is Some && changed == run::changes(
                run.touched,
                path,
                run::changed_contents(action),
            )
        },
    }
}

/// The path of the root state file tells that it is below `.well-known`.
proof fn lemma_root_state_path(base: Seq<char>)
    ensures
        text::contains_text(corruption::root_state_path(base), ".well-known"@),
{
    reveal_strlit(".well-known");
    reveal_strlit(".well-known/stellar-history.json");
    let path = corruption::root_state_path(base);
    let at = paths::directory_prefix(base).len() as int;
    assert(path.subrange(at, at + 11) =~= ".well-known"@);
    assert(text::occurs_at(path, ".well-known"@, at));
}

/// What follows a right pick is right.
proof fn lemma_picked_right(disk: DiskView, kind: Kind, pick: Option<usize>)
    requires
        pick matches Some(file) ==> file < disk.listing().len() && (kind == Kind::DeleteFile
            ==> corruption::suits(kind, disk.listing()[file as int])),
    ensures
        ({
            let (state, action) = corruption::picked(kind, disk.base, disk.listing(), pick);
            asks_right(state, action, disk)
        }),
{
    lemma_root_state_path(disk.base);
}

/// Those kept of right candidates are right.
proof fn lemma_kept_right(kept: Seq<usize>, file: usize, n: nat)
    requires
        corruption::in_listing(kept, n),
        file < n,
    ensures
        corruption::in_listing(kept.push(file), n),
{
    let longer = kept.push(file);
    assert forall|i: int| 0 <= i < longer.len() implies (#[trigger] longer[i]) < n by {
        if i < kept.len() {
            assert(kept[i] < n);
        }
    }
}

/// What follows from an event is right.
proof fn lemma_advanced_right(state: ApplyView, action: ActionView, rng: StdRng, disk: DiskView)
    requires
        state_right(state, disk),
        !(state is Storing),
        !is_change(action),
        disk.listing().len() < usize::MAX,
    ensures
        ({
            let (next, asked, _) = corruption::advanced(state, disk.answer(action), rng);
            asks_right(next, asked, disk)
        }),
{
    let event = disk.answer(action);
    match (state, event) {
        (ApplyView::Listing { kind, base }, EventView::Listed(paths)) => {
            let candidates = corruption::matching_files(kind, paths);
            law_matching_files(kind, paths);
            assert forall|i: int| 0 <= i < candidates.len() implies (#[trigger] candidates[i])
                < paths.len() by {
                assert(candidates.contains(candidates[i]));
            }
            if corruption::inspects(kind) {
                if candidates.len() == 0 {
                    lemma_picked_right(disk, kind, None);
                }
            } else if kind == Kind::CrossChain {
                law_greatest_file(paths, candidates);
                lemma_picked_right(disk, kind, corruption::greatest_file(paths, candidates));
            } else {
                pick::law_pick_is_among(candidates, rng);
                lemma_picked_right(disk, kind, pick::pick_of(candidates, rng));
            }
        },
        (
            ApplyView::Inspecting { kind, base, paths, candidates, kept, at },
            EventView::Contents(data),
        ) => {
            let file = candidates[at as int];
            assert(file < paths.len());
            lemma_kept_right(kept, file, paths.len());
            let more = if corruption::multi_entry(data) {
                kept.push(file)
            } else {
                kept
            };
            pick::law_pick_is_among(more, rng);
            if let Some(chosen) = pick::pick_of(more, rng) {
                assert(more[more.index_of(chosen)] < paths.len());
            }
            lemma_picked_right(disk, kind, pick::pick_of(more, rng));
        },
        _ => {},
    }
}

/// Taking up what a corruption asks for keeps track.
proof fn lemma_taken_up_keeps_track(
    run: RunView,
    state: ApplyView,
    action: ActionView,
    disk: DiskView,
    start: DiskView,
)
    requires
        keeps_track(
            RunView { current: ApplyView::Done, hold: HoldView::Nothing, ..run },
            ActionView::Finished(None),
            disk,
            start,
        ),
        asks_right(state, action, disk),
    ensures
        ({
            let (begun, asked) = run.taken_up(state, action);
            keeps_track(begun, asked, disk, start)
        }),
{
    let idle = RunView { current: ApplyView::Done, hold: HoldView::Nothing, ..run };
    let (begun, asked) = run.taken_up(state, action);
    assert forall|j: int| 0 <= j < begun.record.len() implies record_right(
        #[trigger] begun.record[j],
        begun,
    ) by {
        assert(record_right(idle.record[j], idle));
    }
}

/// A run between rounds keeps track.
proof fn lemma_idle_keeps_track(
    run: RunView,
    action: ActionView,
    disk: DiskView,
    start: DiskView,
    rng: StdRng,
    left: usize,
)
    requires
        keeps_track(run, action, disk, start),
    ensures
        keeps_track(
            RunView { current: ApplyView::Done, hold: HoldView::Nothing, rng, left, ..run },
            ActionView::Finished(None),
            disk,
            start,
        ),
{
    let idle = RunView { current: ApplyView::Done, hold: HoldView::Nothing, rng, left, ..run };
    assert forall|j: int| 0 <= j < idle.record.len() implies record_right(
        #[trigger] idle.record[j],
        idle,
    ) by {
        assert(record_right(run.record[j], run));
    }
}

/// Reading a file before it is changed keeps track.
proof fn lemma_read_keeps_track(
    run: RunView,
    change: ActionView,
    disk: DiskView,
    start: DiskView,
)
    requires
        keeps_track(
            run,
            ActionView::ReadFile(run::changed_target(change)),
            disk,
            start,
        ),
        run.hold == HoldView::Before(change),
    ensures
        ({
            let path = disk.path_of(run::changed_target(change));
            let (next, asked) = run.after(EventView::Contents(disk.read(path)));
            keeps_track(next, asked, disk, start)
        }),
{
    let path = disk.path_of(run::changed_target(change));
    let data = disk.read(path);
    let (next, asked) = run.after(EventView::Contents(data));
    run::lemma_find(run.touched, path);
    let touched = run::noted(run.touched, path, data);
    run::lemma_find(touched, path);
    if run::find(run.touched, path) is None {
        assert(disk.holds(path) == start.holds(path)) by {
            if disk.holds(path) != start.holds(path) {
                let j = choose|j: int|
                    0 <= j < run.record.len() && (#[trigger] run.record[j]).path == path;
                assert(record_right(run.record[j], run));
            }
        }
        assert(touched[touched.len() - 1].path == path);
    }
    assert forall|j: int| 0 <= j < next.record.len() implies record_right(
        #[trigger] next.record[j],
        next,
    ) by {
        assert(record_right(run.record[j], run));
        lemma_noted_keeps_found(run.touched, path, data, run.record[j].path);
    }
}

/// Changing a file keeps track.
proof fn lemma_change_keeps_track(
    run: RunView,
    action: ActionView,
    disk: DiskView,
    start: DiskView,
)
    requires
        keeps_track(run, action, disk, start),
        run.hold is During,
        disk.writable,
        disk.lists_files(),
    ensures
        ({
            let (next, asked) = run.after(EventView::Stored(true));
            keeps_track(next, asked, disk.performed(action), start)
        }),
{
    let (next, asked) = run.after(EventView::Stored(true));
    let after = disk.performed(action);
    let path = disk.path_of(run::changed_target(action));
    let changed = run.hold->During_0;
    run::lemma_find(run.touched, path);
    let i = run::find(run.touched, path)->0;
    assert(after.holds(path) == run::changed_contents(action));
    assert forall|other: Seq<char>| other != path implies #[trigger] after.holds(other)
        == disk.holds(other) by {}
    if let Target::Listed(file) = run::changed_target(action) {
        assert((disk.order)(disk.files.dom())[file as int] == path);
        assert(disk.holds(path) is Some);
    }
    assert(entry_right(run.touched[i], disk, start));
    assert(entry_right(TouchedView { changed, ..run.touched[i] }, after, start));
    assert forall|k: int| 0 <= k < next.touched.len() implies entry_right(
        #[trigger] next.touched[k],
        after,
        start,
    ) by {
        assert(entry_right(run.touched[k], disk, start));
        if k < i {
            assert(run.touched[k].path != run.touched[i].path);
        } else if k > i {
            assert(run.touched[i].path != run.touched[k].path);
        }
    }
    assert forall|a: int, c: int| 0 <= a < c < next.touched.len() implies (
    #[trigger] next.touched[a]).path != (#[trigger] next.touched[c]).path by {
        assert(run.touched[a].path != run.touched[c].path);
    }
    let last = next.record[next.record.len() - 1];
    assert(last.path == path);
    assert forall|other: Seq<char>| #[trigger] after.holds(other) != start.holds(
        other,
    ) implies is_recorded(next.record, other) by {
        if other != path {
            assert(disk.holds(other) != start.holds(other));
            let j = choose|j: int|
                0 <= j < run.record.len() && (#[trigger] run.record[j]).path == other;
            assert(next.record[j].path == other);
        }
    }
    assert forall|other: Seq<char>|
        (#[trigger] after.holds(other)) is Some && start.holds(other) is None implies other
        == corruption::root_state_path(after.base) by {
        assert(disk.holds(other) is Some || other == path);
    }
    assert forall|j: int| 0 <= j < next.record.len() implies record_right(
        #[trigger] next.record[j],
        next,
    ) by {
        if j < run.record.len() {
            assert(record_right(run.record[j], run));
        }
        lemma_updated_keeps_found(run.touched, path, changed, next.record[j].path);
    }
}

/// Each step of a run keeps track.
proof fn lemma_step_keeps_track(
    run: RunView,
    action: ActionView,
    disk: DiskView,
    start: DiskView,
)
    requires
        keeps_track(run, action, disk, start),
        !(action is Finished),
        disk.lists_files(),
        disk.listing().len() < usize::MAX,
    ensures
        ({
            let (next, asked) = run.after(disk.answer(action));
            keeps_track(next, asked, disk.performed(action), start)
        }),
{
    match run.hold {
        HoldView::Nothing => {
            let (state, asked, rng) = corruption::advanced(
                run.current,
                disk.answer(action),
                run.rng,
            );
            lemma_advanced_right(run.current, action, run.rng, disk);
            lemma_idle_keeps_track(run, action, disk, start, rng, run.left);
            lemma_taken_up_keeps_track(RunView { rng, ..run }, state, asked, disk, start);
        },
        HoldView::Before(change) => {
            lemma_read_keeps_track(run, change, disk, start);
        },
        HoldView::During(_) => {
            if disk.writable {
                lemma_change_keeps_track(run, action, disk, start);
            } else {
                lemma_idle_keeps_track(run, action, disk, start, run.rng, run.left);
            }
        },
    }
}

/// A file found among those touched is found after one more is noted.
proof fn lemma_noted_keeps_found(
    touched: Seq<TouchedView>,
    path: Seq<char>,
    data: Option<Seq<u8>>,
    other: Seq<char>,
)
    requires
        run::find(touched, other) is Some,
    ensures
        run::find(run::noted(touched, path, data), other) is Some,
{
    let after = run::noted(touched, path, data);
    run::lemma_find(touched, other);
    run::lemma_find(after, other);
    assert(after[run::find(touched, other)->0].path == other);
}

/// A file found among those touched is found after one was updated.
proof fn lemma_updated_keeps_found(
    touched: Seq<TouchedView>,
    path: Seq<char>,
    changed: bool,
    other: Seq<char>,
)
    requires
        run::find(touched, other) is Some,
    ensures
        run::find(run::updated(touched, path, changed), other) is Some,
{
    let after = run::updated(touched, path, changed);
    run::lemma_find(touched, path);
    run::lemma_find(touched, other);
    run::lemma_find(after, other);
    assert(after[run::find(touched, other)->0].path == other);
}

/// Every step of a round keeps track.
proof fn lemma_round_keeps_track(
    run: RunView,
    action: ActionView,
    disk: DiskView,
    start: DiskView,
    steps: nat,
)
    requires
        keeps_track(run, action, disk, start),
        disk.countable(),
        disk.lists_files(),
        round_driven(run, action, disk, steps) is Some,
    ensures
        round_driven(run, action, disk, steps) matches Some((after, left)) && keeps_track(
            after,
            ActionView::Finished(None),
            left,
            start,
        ),
    decreases steps,
{
    if !(action is Finished) {
        assert((disk.order)(disk.files.dom()).len() < usize::MAX);
        lemma_step_keeps_track(run, action, disk, start);
        let (next, asked) = run.after(disk.answer(action));
        lemma_round_keeps_track(
            next,
            asked,
            disk.performed(action),
            start,
            (steps - 1) as nat,
        );
    }
}

/// All rounds of a run keep track.
proof fn lemma_run_keeps_track(run: RunView, disk: DiskView, start: DiskView)
    requires
        keeps_track(run, ActionView::Finished(None), disk, start),
        disk.countable(),
        disk.lists_files(),
    ensures
        keeps_track(ran(run, disk).0, ActionView::Finished(None), ran(run, disk).1, start),
        ran(run, disk).0.left == 0,
    decreases run.left,
{
    if run.left > 0 {
        assert((disk.order)(disk.files.dom()).len() < usize::MAX);
        law_round_is_one_corruption(run, disk);
        let name = run::picked_name(run.kinds, run.rng);
        let rng = pick::rng_after(run.rng, run.kinds.len());
        let begun = RunView { left: (run.left - 1) as usize, rng, ..run };
        let (state, action) = corruption::started(run.base, name);
        lemma_idle_keeps_track(
            run,
            ActionView::Finished(None),
            disk,
            start,
            rng,
            (run.left - 1) as usize,
        );
        lemma_taken_up_keeps_track(begun, state, action, disk, start);
        let (taken, asked) = run.next_round();
        lemma_round_keeps_track(taken, asked, disk, start, disk.listing().len() + 4);
        let (next, left) = one_round(run, disk)->0;
        lemma_run_keeps_track(next, left, start);
    }
}

/// The damage that lasts is that of recorded corruptions of files that differ.
proof fn lemma_lasting(record: Seq<BrokenView>, touched: Seq<TouchedView>, damage: DamageView)
    ensures
        run::lasting(record, touched).contains(damage) <==> exists|j: int|
            0 <= j < record.len() && (#[trigger] record[j]).damage == damage && run::differs(
                touched,
                record[j].path,
            ),
        run::lasting(record, touched).len() <= record.len(),
    decreases record.len(),
{
    if record.len() > 0 {
        let init = record.drop_last();
        lemma_lasting(init, touched, damage);
        let before = run::lasting(init, touched);
        let after = run::lasting(record, touched);
        let last = record.len() - 1;
        if after.contains(damage) {
            let k = after.index_of(damage);
            if k < before.len() {
                assert(before[k] == damage);
                let j = choose|j: int|
                    0 <= j < init.len() && (#[trigger] init[j]).damage == damage && run::differs(
                        touched,
                        init[j].path,
                    );
                assert(record[j].damage == damage);
            } else {
                assert(record[last].damage == damage);
            }
        }
        if exists|j: int|
            0 <= j < record.len() && (#[trigger] record[j]).damage == damage && run::differs(
                touched,
                record[j].path,
            ) {
            let j = choose|j: int|
                0 <= j < record.len() && (#[trigger] record[j]).damage == damage && run::differs(
                    touched,
                    record[j].path,
                );
            if j < init.len() {
                assert(init[j].damage == damage);
                assert(after[before.index_of(damage)] == damage);
            } else {
                assert(after[after.len() - 1] == damage);
            }
        }
    }
}

/// The manifest of a run holds no more than `count` items, each of a kind that may be
/// picked, where the run was to make `count` rounds.
pub proof fn law_manifest_within(run: RunView, count: nat)
    requires
        run.within(count),
    ensures
        run.manifest().len() <= count,
        forall|i: int|
            0 <= i < run.manifest().len() ==> run.kinds.contains(
                (#[trigger] run.manifest()[i]).kind,
            ),
{
    let manifest = run.manifest();
    lemma_lasting(run.record, run.touched, arbitrary());
    assert forall|i: int| 0 <= i < manifest.len() implies run.kinds.contains(
        (#[trigger] manifest[i]).kind,
    ) by {
        lemma_lasting(run.record, run.touched, manifest[i]);
        assert(manifest.contains(manifest[i]));
    }
}

/// A file with this key does not hold what it held at the start, or is not there, or was
/// not.
pub open spec fn is_broken(disk: DiskView, start: DiskView, key: Seq<char>) -> bool {
    exists|path: Seq<char>|
        paths::key_below(path, start.base) == Some(key) && #[trigger] disk.holds(path)
            != start.holds(path)
}

/// The manifest names this key.
pub open spec fn names(manifest: Seq<DamageView>, key: Seq<char>) -> bool {
    exists|i: int| 0 <= i < manifest.len() && (#[trigger] manifest[i]).key == key
}

/// Whether a file with this key was broken can be known: such a file can be read, or is
/// not there at the end.
pub open spec fn knowable(disk: DiskView, start: DiskView, key: Seq<char>) -> bool {
    forall|path: Seq<char>|
        paths::key_below(path, start.base) == Some(key) ==> start.readable.contains(path) || (
        #[trigger] disk.holds(path)) is None
}

/// The manifest of a whole run says exactly which files were broken. It names the key of
/// every file that does not hold at the end what it held at the start; it names no other,
/// but for a file that could not be read and was overwritten, of which nobody can know.
/// Every file that changed has a key, and all rounds were made.
pub proof fn law_manifest_is_exact(
    disk: DiskView,
    kinds: Seq<Seq<char>>,
    count: usize,
    seed: u64,
    key: Seq<char>,
    path: Seq<char>,
)
    requires
        disk.countable(),
        disk.lists_files(),
    ensures
        ({
            let (run, end) = ran(run::fresh(disk.base, kinds, count, seed), disk);
            &&& is_broken(end, disk, key) ==> names(run.manifest(), key)
            &&& names(run.manifest(), key) && knowable(end, disk, key) ==> is_broken(
                end,
                disk,
                key,
            )
            &&& end.holds(path) != disk.holds(path) ==> paths::key_below(path, disk.base) is Some
            &&& run.manifest().len() <= run.record.len()
            &&& run.left == 0
        }),
{
    let start = run::fresh(disk.base, kinds, count, seed);
    assert(keeps_track(start, ActionView::Finished(None), disk, disk));
    lemma_run_keeps_track(start, disk, disk);
    let (run, end) = ran(start, disk);
    let manifest = run.manifest();
    lemma_lasting(run.record, run.touched, arbitrary());
    if names(manifest, key) && knowable(end, disk, key) {
        let i = choose|i: int| 0 <= i < manifest.len() && (#[trigger] manifest[i]).key == key;
        lemma_lasting(run.record, run.touched, manifest[i]);
        assert(manifest.contains(manifest[i]));
        let j = choose|j: int|
            0 <= j < run.record.len() && (#[trigger] run.record[j]).damage == manifest[i]
                && run::differs(run.touched, run.record[j].path);
        let at = run.record[j].path;
        assert(record_right(run.record[j], run));
        run::lemma_find(run.touched, at);
        assert(entry_right(run.touched[run::find(run.touched, at)->0], end, disk));
        assert(disk.readable.contains(at) || end.holds(at) is None);
        assert(end.holds(at) != disk.holds(at));
    }
    if is_broken(end, disk, key) {
        let at = choose|at: Seq<char>|
            paths::key_below(at, disk.base) == Some(key) && #[trigger] end.holds(at) != disk.holds(
                at,
            );
        assert(is_recorded(run.record, at));
        let j = choose|j: int| 0 <= j < run.record.len() && (#[trigger] run.record[j]).path == at;
        assert(record_right(run.record[j], run));
        run::lemma_find(run.touched, at);
        assert(entry_right(run.touched[run::find(run.touched, at)->0], end, disk));
        lemma_lasting(run.record, run.touched, run.record[j].damage);
        assert(manifest[manifest.index_of(run.record[j].damage)].key == key);
    }
    if end.holds(path) != disk.holds(path) {
        assert(is_recorded(run.record, path));
        let j = choose|j: int| 0 <= j < run.record.len() && (#[trigger] run.record[j]).path == path;
        assert(record_right(run.record[j], run));
    }
}

/// The run with `n` rounds left.
pub open spec fn with_left(run: RunView, n: usize) -> RunView {
    RunView { left: n, ..run }
}

/// A round goes the same way whatever number of rounds is left after it.
proof fn lemma_round_with_left(
    run: RunView,
    action: ActionView,
    disk: DiskView,
    steps: nat,
    n: usize,
)
    ensures
        round_driven(with_left(run, n), action, disk, steps) == match round_driven(
            run,
            action,
            disk,
            steps,
        ) {
            Some((after, left)) => Some((with_left(after, n), left)),
            None => None,
        },
    decreases steps,
{
    if !(action is Finished) && steps > 0 {
        let event = disk.answer(action);
        let (next, asked) = run.after(event);
        assert(with_left(run, n).after(event) == (with_left(next, n), asked));
        lemma_round_with_left(next, asked, disk.performed(action), (steps - 1) as nat, n);
    }
}

/// The rest of a run adds to what was recorded.
proof fn lemma_ran_adds(run: RunView, disk: DiskView)
    requires
        run.base == disk.base,
        disk.countable(),
    ensures
        run.record.is_prefix_of(ran(run, disk).0.record),
    decreases run.left,
{
    if run.left > 0 {
        assert((disk.order)(disk.files.dom()).len() < usize::MAX);
        law_round_is_one_corruption(run, disk);
        let (next, left) = one_round(run, disk)->0;
        lemma_ran_adds(next, left);
        let last = ran(next, left).0.record;
        assert(run.record =~= last.subrange(0, run.record.len() as int)) by {
            assert(next.record =~= last.subrange(0, next.record.len() as int));
            assert(run.record =~= next.record.subrange(0, run.record.len() as int));
        }
    }
}

/// A run with more rounds does first what one with fewer does.
proof fn lemma_longer_run(run: RunView, disk: DiskView, n: usize, m: usize)
    requires
        n <= m,
        run.base == disk.base,
        disk.countable(),
    ensures
        ran(with_left(run, n), disk).0.record.is_prefix_of(
            ran(with_left(run, m), disk).0.record,
        ),
    decreases n,
{
    let short = with_left(run, n);
    let long = with_left(run, m);
    if n == 0 {
        lemma_ran_adds(long, disk);
    } else {
        assert((disk.order)(disk.files.dom()).len() < usize::MAX);
        law_round_is_one_corruption(short, disk);
        law_round_is_one_corruption(long, disk);
        let (begun, action) = short.next_round();
        let fewer = (m - 1) as usize;
        assert(long.next_round() == (with_left(begun, fewer), action));
        lemma_round_with_left(begun, action, disk, disk.listing().len() + 4, fewer);
        let (next, left) = one_round(short, disk)->0;
        assert(one_round(long, disk) == Some((with_left(next, fewer), left)));
        assert(with_left(next, (n - 1) as usize) == next);
        lemma_longer_run(next, left, (n - 1) as usize, fewer);
    }
}

/// The seed decides a run: on an archive that is listed in the same order, the
/// corruptions that a run makes are the first of those that a run with more rounds and
/// the same seed makes; with as many rounds they are the same, and so is the disk.
pub proof fn law_seed_repeats_run(
    disk: DiskView,
    kinds: Seq<Seq<char>>,
    n: usize,
    m: usize,
    seed: u64,
)
    requires
        n <= m,
        disk.countable(),
    ensures
        ran(run::fresh(disk.base, kinds, n, seed), disk).0.record.is_prefix_of(
            ran(run::fresh(disk.base, kinds, m, seed), disk).0.record,
        ),
        n == m ==> ran(run::fresh(disk.base, kinds, n, seed), disk) == ran(
            run::fresh(disk.base, kinds, m, seed),
            disk,
        ),
{
    let run = run::fresh(disk.base, kinds, n, seed);
    assert(with_left(run, n) == run);
    assert(with_left(run, m) == run::fresh(disk.base, kinds, m, seed));
    lemma_longer_run(run, disk, n, m);
}

//=============================================================================
// What corruptions are for
//=============================================================================

/// Picking keeps the order of the listing.
proof fn lemma_eligible_order(disk: DiskView, files: Seq<usize>)
    requires
        forall|i: int, j: int|
            0 <= i < j < files.len() ==> #[trigger] files[i] < #[trigger] files[j],
    ensures
        ({
            let kept = disk.with_many_entries(files);
            forall|i: int, j: int|
                0 <= i < j < kept.len() ==> #[trigger] kept[i] < #[trigger] kept[j]
        }),
    decreases files.len(),
{
    if files.len() > 0 {
        let init = files.drop_last();
        lemma_eligible_order(disk, init);
        let before = disk.with_many_entries(init);
        let kept = disk.with_many_entries(files);
        assert forall|i: int, j: int| 0 <= i < j < kept.len() implies #[trigger] kept[i]
            < #[trigger] kept[j] by {
            if j == before.len() {
                law_with_many_entries(disk, init, before[i]);
                assert(before.contains(before[i]));
                let k = init.index_of(before[i]);
                assert(files[k] == before[i]);
                assert(files[files.len() - 1] == kept[j]);
            }
        }
    }
}

/// The files that a corruption picks from: those that are listed, with a path of the sort
/// that the kind is for; and to drop a ledger or break a link inside, those from which
/// more than one entry can be read. They are in the order of the listing.
pub proof fn law_eligible_by_kind(disk: DiskView, file: usize)
    requires
        disk.listing().len() <= usize::MAX,
    ensures
        ({
            let listed = file < disk.listing().len();
            let path = disk.listing()[file as int];
            let slashed = text::slashed(path);
            let ledger_file = listed && text::contains_text(slashed, "/ledger-"@);
            let many = disk.read(path) is Some && (ledger::parsed_file(
                disk.read(path)->0,
            ) matches Some(entries) && entries.len() > 1);
            &&& disk.eligible(Kind::DeleteFile).contains(file) <==> listed && text::contains_text(
                slashed,
                "/"@,
            ) && !text::contains_text(path, ".well-known"@)
            &&& disk.eligible(Kind::Truncate).contains(file) <==> listed && text::contains_text(
                slashed,
                ".xdr.gz"@,
            )
            &&& disk.eligible(Kind::ByteFlip).contains(file) <==> listed && text::contains_text(
                slashed,
                ".xdr.gz"@,
            )
            &&& disk.eligible(Kind::InvalidGzip).contains(file) <==> listed && text::contains_text(
                slashed,
                "/bucket-"@,
            )
            &&& disk.eligible(Kind::BucketHash).contains(file) <==> listed && text::contains_text(
                slashed,
                "/bucket-"@,
            )
            &&& disk.eligible(Kind::LedgerHeaderHash).contains(file) <==> ledger_file
            &&& disk.eligible(Kind::TxsetHash).contains(file) <==> ledger_file
            &&& disk.eligible(Kind::ResultHash).contains(file) <==> ledger_file
            &&& disk.eligible(Kind::CrossChain).contains(file) <==> ledger_file
            &&& disk.eligible(Kind::DropLedger).contains(file) <==> ledger_file && many
            &&& disk.eligible(Kind::IntraChain).contains(file) <==> ledger_file && many
            &&& forall|kind: Kind, i: int, j: int|
                0 <= i < j < disk.eligible(kind).len() ==> #[trigger] disk.eligible(kind)[i]
                    < #[trigger] disk.eligible(kind)[j]
        }),
{
    corruption::law_files_by_kind(disk.listing()[file as int]);
    assert forall|kind: Kind| #[trigger] disk.eligible(kind).contains(file) <==> file
        < disk.listing().len() && corruption::suits(kind, disk.listing()[file as int]) && (
    corruption::inspects(kind) ==> corruption::multi_entry(
        disk.read(disk.listing()[file as int]),
    )) by {
        law_matching_files(kind, disk.listing());
        let files = corruption::matching_files(kind, disk.listing());
        law_with_many_entries(disk, files, file);
        assert(files.contains(file) <==> file < disk.listing().len() && corruption::suits(
            kind,
            disk.listing()[file as int],
        ));
    }
    assert forall|kind: Kind, i: int, j: int|
        0 <= i < j < disk.eligible(kind).len() implies #[trigger] disk.eligible(kind)[i]
        < #[trigger] disk.eligible(kind)[j] by {
        law_matching_files(kind, disk.listing());
        lemma_eligible_order(disk, corruption::matching_files(kind, disk.listing()));
    }
}

/// Which file a corruption is made to, and what it draws. One whose name is that of no kind
/// is made to none. A broken boundary is made to the ledger file with the greatest path,
/// and nothing is drawn. Every other is made to the eligible file at the position drawn,
/// and one number is drawn; without eligible files it is made to none, and nothing is
/// drawn.
pub proof fn law_file_is_drawn(disk: DiskView, name: Seq<char>, rng: StdRng)
    ensures
        Kind::named(name) is None ==> disk.outcome(name, rng) == disk.unbroken(rng),
        Kind::named(name) == Some(Kind::CrossChain) ==> disk.outcome(name, rng) == disk.damaging(
            Kind::CrossChain,
            corruption::greatest_file(disk.listing(), disk.eligible(Kind::CrossChain)),
            rng,
        ),
        Kind::named(name) matches Some(kind) ==> kind != Kind::CrossChain && kind
            != Kind::WellKnown && disk.eligible(kind).len() == 0 ==> disk.outcome(name, rng)
            == disk.unbroken(rng),
        Kind::named(name) matches Some(kind) ==> kind != Kind::CrossChain && kind
            != Kind::WellKnown && disk.eligible(kind).len() > 0 && pick::in_list(
            rng,
            disk.eligible(kind).len(),
        ) ==> disk.outcome(name, rng) == disk.damaging(
            kind,
            Some(disk.eligible(kind)[pick::drawn(rng, disk.eligible(kind).len()).0]),
            pick::drawn(rng, disk.eligible(kind).len()).1,
        ),
{
    if let Some(kind) = Kind::named(name) {
        let n = disk.eligible(kind).len();
        if n > 0 && pick::in_list(rng, n) {
            pick::lemma_position(rng, n);
        }
    }
}

/// A corruption that comes to nothing leaves everything as it was.
pub proof fn law_nothing_broken(disk: DiskView, kind: Kind, rng: StdRng)
    ensures
        disk.unbroken(rng).disk == disk,
        disk.unbroken(rng).damage is None,
        disk.unbroken(rng).changes.len() == 0,
        disk.unbroken(rng).rng == rng,
        disk.damaging(kind, None, rng) == disk.unbroken(rng),
{
}

/// What a corruption leaves of the file that it is made to, by kind: nothing for a removal;
/// no bytes, text, other contents compressed, or every bit inverted for the kinds about
/// whole files; and for the kinds about entries the damaged entries, framed and
/// compressed. It is owed where the disk can be written and the file is fit: it can be read
/// where the kind reads it, is a ledger-header file where the kind is about entries, and has
/// more than one where the kind needs two. All other files are left as they were, and the
/// kind and key are reported if, and only if, the damage was done.
pub proof fn law_damage_to_file(disk: DiskView, kind: Kind, file: usize, rng: StdRng)
    requires
        kind != Kind::WellKnown,
        paths::key_below(disk.listing()[file as int], disk.base) is Some,
    ensures
        ({
            let path = disk.listing()[file as int];
            let held = disk.read(path);
            let entries = if held is Some {
                ledger::parsed_file(held->0)
            } else {
                None
            };
            let end = disk.damaging(kind, Some(file), rng);
            let files = end.disk.files;
            let fit = if kind == Kind::DeleteFile || kind == Kind::Truncate || kind
                == Kind::InvalidGzip || kind == Kind::BucketHash {
                true
            } else if kind == Kind::ByteFlip {
                held is Some
            } else if kind == Kind::DropLedger || kind == Kind::IntraChain {
                entries is Some && entries->0.len() > 1
            } else {
                entries is Some
            };
            &&& end.damage is Some <==> fit && disk.writable
            &&& end.damage is None ==> end.disk == disk
            &&& end.damage matches Some(damage) ==> {
                &&& damage.kind == kind.text()
                &&& Some(damage.key) == paths::key_below(path, disk.base)
                &&& forall|other: Seq<char>|
                    other != path ==> #[trigger] end.disk.holds(other) == disk.holds(other)
                &&& kind == Kind::DeleteFile ==> end.disk.holds(path) is None
                &&& kind != Kind::DeleteFile ==> end.disk.holds(path) is Some
                &&& kind == Kind::Truncate ==> files[path].len() == 0
                &&& kind == Kind::InvalidGzip ==> files[path] == text::ascii_bytes(
                    "not gzip at all"@,
                )
                &&& kind == Kind::BucketHash ==> files[path] == ledger::gzip(
                    text::ascii_bytes("valid gzip wrong content"@),
                )
                &&& kind == Kind::ByteFlip ==> files[path].len() == held->0.len() && forall|i: int|
                    0 <= i < files[path].len() ==> (#[trigger] files[path][i]) + held->0[i] == 255
                &&& ledger_kind(kind) ==> files[path] == ledger::gzip(
                    ledger::framed_entries(damage::damaged_entries(kind, entries->0)->0),
                )
            }
            &&& end.disk.same_place(disk)
            &&& end.rng == rng
        }),
{
    let path = disk.listing()[file as int];
    if let Some(data) = disk.read(path) {
        damage::law_damage_owed(data);
        assert forall|i: int| 0 <= i < data.len() implies damage::flipped(data)[i] + #[trigger] data[i]
            == 255 by {
            damage::law_flip_inverts(data, i);
        }
    }
    damage::law_replacements();
}

/// The kinds about ledger-header entries.
pub open spec fn ledger_kind(kind: Kind) -> bool {
    kind == Kind::LedgerHeaderHash || kind == Kind::DropLedger || kind == Kind::TxsetHash || kind
        == Kind::ResultHash || kind == Kind::IntraChain || kind == Kind::CrossChain
}

/// The corruption of the root state file leaves no JSON in it and all other files as they
/// were, draws nothing, and reports the path of that file in the archive.
pub proof fn law_damage_to_root_state(disk: DiskView, rng: StdRng)
    requires
        disk.writable,
        disk.base.len() > 0,
        disk.base.len() + 33 < usize::MAX,
    ensures
        ({
            let end = disk.outcome("well-known"@, rng);
            let path = corruption::root_state_path(disk.base);
            &&& end.disk.files == disk.files.insert(path, text::ascii_bytes("{ invalid json }}}"@))
            &&& end.disk.same_place(disk)
            &&& end.damage == Some(
                DamageView { kind: "well-known"@, key: ".well-known/stellar-history.json"@ },
            )
            &&& end.rng == rng
        }),
{
    kinds::law_kind_of_name("well-known"@);
    damage::law_replacements();
    law_root_state_key(disk.base);
}

/// How many rounds a run makes on a disk.
pub open spec fn rounds_made(run: RunView, disk: DiskView) -> nat
    decreases run.left,
{
    if run.left == 0 {
        0
    } else {
        match one_round(run, disk) {
            Some((next, left)) if next.left < run.left => 1 + rounds_made(next, left),
            _ => 0,
        }
    }
}

/// A run makes as many rounds as were asked for.
pub proof fn law_rounds_made(disk: DiskView, kinds: Seq<Seq<char>>, count: usize, seed: u64)
    requires
        disk.countable(),
    ensures
        rounds_made(run::fresh(disk.base, kinds, count, seed), disk) == count,
{
    run::law_fresh_run(disk.base, kinds, count, seed);
    lemma_rounds_made(run::fresh(disk.base, kinds, count, seed), disk);
}

proof fn lemma_rounds_made(run: RunView, disk: DiskView)
    requires
        run.base == disk.base,
        disk.countable(),
    ensures
        rounds_made(run, disk) == run.left,
    decreases run.left,
{
    if run.left > 0 {
        assert((disk.order)(disk.files.dom()).len() < usize::MAX);
        law_round_is_one_corruption(run, disk);
        let (next, left) = one_round(run, disk)->0;
        lemma_rounds_made(next, left);
    }
}

/// A run of one round more is a run, and then one round: on what the run left, with the
/// generator that it left. A run of no rounds leaves everything as it was.
pub proof fn law_one_more_round(disk: DiskView, kinds: Seq<Seq<char>>, n: usize, seed: u64)
    requires
        n < usize::MAX,
        disk.countable(),
    ensures
        ran(run::fresh(disk.base, kinds, 0, seed), disk).1 == disk,
        ({
            let (run, left) = ran(run::fresh(disk.base, kinds, n, seed), disk);
            let (more, end) = ran(run::fresh(disk.base, kinds, (n + 1) as usize, seed), disk);
            one_round(with_left(run, 1), left) == Some((more, end))
        }),
{
    let run = run::fresh(disk.base, kinds, n, seed);
    assert(with_left(run, (n + 1) as usize) == run::fresh(
        disk.base,
        kinds,
        (n + 1) as usize,
        seed,
    ));
    lemma_one_more_round(run, disk);
}

proof fn lemma_one_more_round(run: RunView, disk: DiskView)
    requires
        run.left < usize::MAX,
        run.base == disk.base,
        disk.countable(),
    ensures
        ({
            let (end, left) = ran(run, disk);
            one_round(with_left(end, 1), left) == Some(
                ran(with_left(run, (run.left + 1) as usize), disk),
            )
        }),
    decreases run.left,
{
    let long = with_left(run, (run.left + 1) as usize);
    assert((disk.order)(disk.files.dom()).len() < usize::MAX);
    law_round_is_one_corruption(long, disk);
    let (next, left) = one_round(long, disk)->0;
    reveal_with_fuel(ran, 2);
    if run.left == 0 {
        assert(with_left(run, 1) == long);
    } else {
        law_round_is_one_corruption(run, disk);
        let (begun, action) = run.next_round();
        assert(long.next_round() == (with_left(begun, run.left), action));
        lemma_round_with_left(begun, action, disk, disk.listing().len() + 4, run.left);
        let (short, same) = one_round(run, disk)->0;
        assert(next == with_left(short, run.left) && same == left);
        lemma_one_more_round(short, left);
        assert(with_left(short, (short.left + 1) as usize) == next);
    }
}

} // verus!
