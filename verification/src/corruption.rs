//! Applying corruptions to an archive.
//!
//! The file system is not touched here. [`apply`] and [`Apply::resume`] say what
//! to do next, an [`Action`], and take what came of it, an [`Event`]; files are
//! named by their position in the listing that was handed in last.

use crate::damage;
use crate::damage::{damage_contents, replacement_bytes, ROOT_STATE};
use crate::kinds::Kind;
use crate::ledger;
use crate::ledger::read_and_parse_ledger_file;
use crate::paths;
use crate::paths::{lies_below, path_below, rel_key};
use crate::pick;
use crate::pick::pick_one;
use crate::text;
use crate::text::{has_text, has_text_slashed, text_at_most};
use rand::rngs::StdRng;
use vstd::prelude::*;

verus! {

//=============================================================================
// Which files a kind is for
//=============================================================================

/// `kind` is for the file at `path`, by what the path, written with slashes,
/// holds. A file below `.well-known` is never deleted, and the root state file
/// is not looked up by its path.
pub open spec fn suits(kind: Kind, path: Seq<char>) -> bool {
    let slashed = text::slashed(path);
    match kind {
        Kind::DeleteFile => text::contains_text(slashed, "/"@) && !text::contains_text(
            path,
            ".well-known"@,
        ),
        Kind::Truncate | Kind::ByteFlip => text::contains_text(slashed, ".xdr.gz"@),
        Kind::InvalidGzip | Kind::BucketHash => text::contains_text(slashed, "/bucket-"@),
        Kind::WellKnown => false,
        _ => text::contains_text(slashed, "/ledger-"@),
    }
}

/// The positions in `paths` of the files that `kind` is for, in order.
pub open spec fn matching_files(kind: Kind, paths: Seq<Seq<char>>) -> Seq<usize>
    decreases paths.len(),
{
    if paths.len() == 0 {
        Seq::empty()
    } else {
        let before = matching_files(kind, paths.drop_last());
        if suits(kind, paths.last()) {
            before.push((paths.len() - 1) as usize)
        } else {
            before
        }
    }
}

/// The last of the `files` whose path is greatest.
pub open spec fn greatest_file(paths: Seq<Seq<char>>, files: Seq<usize>) -> Option<usize>
    decreases files.len(),
{
    if files.len() == 0 {
        None
    } else {
        match greatest_file(paths, files.drop_last()) {
            Some(best) if !text::text_le(paths[best as int], paths[files.last() as int]) => Some(
                best,
            ),
            _ => Some(files.last()),
        }
    }
}

/// Every position in `files` is one of a list of `n` files.
pub open spec fn in_listing(files: Seq<usize>, n: nat) -> bool {
    forall|i: int| 0 <= i < files.len() ==> (#[trigger] files[i]) < n
}

/// Whether `kind` is for the file at `path`.
fn is_candidate(kind: Kind, path: &str) -> (r: bool)
    ensures
        r == suits(kind, path@),
{
    match kind {
        Kind::DeleteFile => has_text_slashed(path, "/") && !has_text(path, ".well-known"),
        Kind::Truncate | Kind::ByteFlip => has_text_slashed(path, ".xdr.gz"),
        Kind::InvalidGzip | Kind::BucketHash => has_text_slashed(path, "/bucket-"),
        Kind::WellKnown => false,
        _ => has_text_slashed(path, "/ledger-"),
    }
}

/// The positions in `paths` of the files that `kind` is for, in order.
pub fn files_matching(kind: Kind, paths: &Vec<String>) -> (r: Vec<usize>)
    ensures
        r@ == matching_files(kind, text::texts(paths@)),
        in_listing(r@, paths@.len()),
{
    let ghost all = text::texts(paths@);
    let mut r: Vec<usize> = Vec::new();
    let mut i: usize = 0;
    assert(all.take(0) =~= Seq::<Seq<char>>::empty());
    while i < paths.len()
        invariant
            i <= paths.len(),
            all == text::texts(paths@),
            r@ == matching_files(kind, all.take(i as int)),
            in_listing(r@, paths@.len()),
        decreases paths.len() - i,
    {
        assert(all.take(i + 1).drop_last() =~= all.take(i as int));
        assert(all.take(i + 1).last() == paths@[i as int]@);
        if is_candidate(kind, paths[i].as_str()) {
            r.push(i);
        }
        i = i + 1;
    }
    assert(all.take(i as int) =~= all);
    r
}

/// The last of the `files` whose path is greatest.
pub fn last_greatest(paths: &Vec<String>, files: &Vec<usize>) -> (r: Option<usize>)
    requires
        in_listing(files@, paths@.len()),
    ensures
        r == greatest_file(text::texts(paths@), files@),
        r matches Some(f) ==> f < paths@.len(),
{
    let mut best: Option<usize> = None;
    let mut i: usize = 0;
    assert(files@.take(0) =~= Seq::<usize>::empty());
    while i < files.len()
        invariant
            i <= files.len(),
            in_listing(files@, paths@.len()),
            best == greatest_file(text::texts(paths@), files@.take(i as int)),
            best matches Some(f) ==> f < paths@.len(),
        decreases files.len() - i,
    {
        assert(files@.take(i + 1).drop_last() =~= files@.take(i as int));
        let next: usize = files[i];
        assert(files@[i as int] < paths@.len());
        best = match best {
            Some(f) => if text_at_most(paths[f].as_str(), paths[next].as_str()) {
                Some(next)
            } else {
                Some(f)
            },
            None => Some(next),
        };
        i = i + 1;
    }
    assert(files@.take(i as int) =~= files@);
    best
}

//=============================================================================
// Damage
//=============================================================================

/// What one corruption broke.
#[derive(Debug)]
pub struct Damage {
    /// The name of the kind of corruption.
    pub kind: String,
    /// The archive-relative path of the file, with slashes for separators.
    pub key: String,
}

#[verifier::ext_equal]
pub struct DamageView {
    pub kind: Seq<char>,
    pub key: Seq<char>,
}

impl View for Damage {
    type V = DamageView;

    open spec fn view(&self) -> DamageView {
        DamageView { kind: self.kind@, key: self.key@ }
    }
}

impl Clone for Damage {
    fn clone(&self) -> (r: Self)
        ensures
            r@ == self@,
    {
        Damage { kind: self.kind.clone(), key: self.key.clone() }
    }
}

//=============================================================================
// Actions and events
//=============================================================================

/// A file to read or write.
#[derive(Clone, Copy, Debug, PartialEq, Eq, Structural)]
pub enum Target {
    /// The file at this position of the listing.
    Listed(usize),
    /// The root state file, at [`ROOT_STATE`] below the archive.
    RootState,
}

/// What to do next.
pub enum Action {
    /// List every regular file below the archive: [`Event::Listed`] is due.
    ListFiles,
    /// Read a file: [`Event::Contents`] is due.
    ReadFile(Target),
    /// Replace what a file holds: [`Event::Stored`] is due.
    WriteFile(Target, Vec<u8>),
    /// Remove the file at this position: [`Event::Stored`] is due.
    RemoveFile(usize),
    /// Nothing is left to do; this was broken.
    Finished(Option<Damage>),
}

/// What came of an action.
pub enum Event {
    /// The paths of the regular files below the archive.
    Listed(Vec<String>),
    /// What a file holds, if it could be read.
    Contents(Option<Vec<u8>>),
    /// Whether a file was written or removed.
    Stored(bool),
}

#[verifier::ext_equal]
pub enum ActionView {
    ListFiles,
    ReadFile(Target),
    WriteFile(Target, Seq<u8>),
    RemoveFile(usize),
    Finished(Option<DamageView>),
}

#[verifier::ext_equal]
pub enum EventView {
    Listed(Seq<Seq<char>>),
    Contents(Option<Seq<u8>>),
    Stored(bool),
}

/// A value, if any, by its view.
pub open spec fn view_of<T: View>(value: Option<T>) -> Option<T::V> {
    match value {
        Some(x) => Some(x@),
        None => None,
    }
}

impl View for Action {
    type V = ActionView;

    open spec fn view(&self) -> ActionView {
        match *self {
            Action::ListFiles => ActionView::ListFiles,
            Action::ReadFile(target) => ActionView::ReadFile(target),
            Action::WriteFile(target, data) => ActionView::WriteFile(target, data@),
            Action::RemoveFile(file) => ActionView::RemoveFile(file),
            Action::Finished(damage) => ActionView::Finished(view_of(damage)),
        }
    }
}

impl View for Event {
    type V = EventView;

    open spec fn view(&self) -> EventView {
        match *self {
            Event::Listed(paths) => EventView::Listed(text::texts(paths@)),
            Event::Contents(data) => EventView::Contents(view_of(data)),
            Event::Stored(ok) => EventView::Stored(ok),
        }
    }
}

//=============================================================================
// One corruption
//=============================================================================

/// Where a corruption stands.
enum State {
    /// The files of the archive are being listed.
    Listing { kind: Kind, base: String },
    /// The candidates are being read, one after the other, to keep those with more
    /// than one entry.
    Inspecting {
        kind: Kind,
        base: String,
        paths: Vec<String>,
        candidates: Vec<usize>,
        kept: Vec<usize>,
        at: usize,
    },
    /// The file to damage is being read.
    Reading { kind: Kind, file: usize, path: String, key: String },
    /// The damage is being stored.
    Storing { kind: Kind, path: String, key: String },
    /// Nothing is left to do.
    Done,
}

/// A corruption under way.
pub struct Apply {
    state: State,
}

#[verifier::ext_equal]
pub enum ApplyView {
    Listing { kind: Kind, base: Seq<char> },
    Inspecting {
        kind: Kind,
        base: Seq<char>,
        paths: Seq<Seq<char>>,
        candidates: Seq<usize>,
        kept: Seq<usize>,
        at: usize,
    },
    Reading { kind: Kind, file: usize, path: Seq<char>, key: Seq<char> },
    Storing { kind: Kind, path: Seq<char>, key: Seq<char> },
    Done,
}

impl View for State {
    type V = ApplyView;

    closed spec fn view(&self) -> ApplyView {
        match *self {
            State::Listing { kind, base } => ApplyView::Listing { kind, base: base@ },
            State::Inspecting { kind, base, paths, candidates, kept, at } => ApplyView::Inspecting {
                kind,
                base: base@,
                paths: text::texts(paths@),
                candidates: candidates@,
                kept: kept@,
                at,
            },
            State::Reading { kind, file, path, key } => ApplyView::Reading {
                kind,
                file,
                path: path@,
                key: key@,
            },
            State::Storing { kind, path, key } => ApplyView::Storing {
                kind,
                path: path@,
                key: key@,
            },
            State::Done => ApplyView::Done,
        }
    }
}

impl View for Apply {
    type V = ApplyView;

    closed spec fn view(&self) -> ApplyView {
        self.state@
    }
}

impl ApplyView {
    /// The positions held are those of files of the listing, and while candidates
    /// are read there is one being read.
    pub open spec fn valid(self) -> bool {
        match self {
            ApplyView::Inspecting { paths, candidates, kept, at, .. } => {
                &&& at < candidates.len()
                &&& in_listing(candidates, paths.len())
                &&& in_listing(kept, paths.len())
            },
            _ => true,
        }
    }
}

/// What follows from an event: a next action, or first a choice among files.
pub enum Step {
    Act(Apply, Action),
    Pick { kind: Kind, base: String, paths: Vec<String>, candidates: Vec<usize> },
}

#[verifier::ext_equal]
pub enum StepView {
    Act(ApplyView, ActionView),
    Pick { kind: Kind, base: Seq<char>, paths: Seq<Seq<char>>, candidates: Seq<usize> },
}

impl View for Step {
    type V = StepView;

    open spec fn view(&self) -> StepView {
        match *self {
            Step::Act(state, action) => StepView::Act(state@, action@),
            Step::Pick { kind, base, paths, candidates } => StepView::Pick {
                kind,
                base: base@,
                paths: text::texts(paths@),
                candidates: candidates@,
            },
        }
    }
}

/// Stopping with nothing broken.
pub open spec fn given_up() -> (ApplyView, ActionView) {
    (ApplyView::Done, ActionView::Finished(None))
}

/// The path of the root state file of the archive at `base`.
pub open spec fn root_state_path(base: Seq<char>) -> Seq<char> {
    paths::directory_prefix(base) + ROOT_STATE@
}

/// How the corruption named `name` of the archive at `base` starts.
pub open spec fn started(base: Seq<char>, name: Seq<char>) -> (ApplyView, ActionView) {
    match Kind::named(name) {
        Some(Kind::WellKnown) => match paths::key_below(root_state_path(base), base) {
            Some(key) => (
                ApplyView::Storing { kind: Kind::WellKnown, path: root_state_path(base), key },
                ActionView::WriteFile(
                    Target::RootState,
                    text::ascii_bytes(damage::NOT_JSON@),
                ),
            ),
            None => given_up(),
        },
        Some(kind) => (ApplyView::Listing { kind, base }, ActionView::ListFiles),
        None => given_up(),
    }
}

/// `kind` is for files with more than one entry, and reads all to find them.
pub open spec fn inspects(kind: Kind) -> bool {
    kind == Kind::DropLedger || kind == Kind::IntraChain
}

/// The file was read and holds more than one ledger-header entry.
pub open spec fn multi_entry(data: Option<Seq<u8>>) -> bool {
    match data {
        Some(bytes) => match ledger::parsed_file(bytes) {
            Some(entries) => entries.len() > 1,
            None => false,
        },
        None => false,
    }
}

/// What follows once the candidates before `at` were read.
pub open spec fn inspected(
    kind: Kind,
    base: Seq<char>,
    paths: Seq<Seq<char>>,
    candidates: Seq<usize>,
    kept: Seq<usize>,
    at: usize,
) -> StepView {
    if at < candidates.len() {
        StepView::Act(
            ApplyView::Inspecting { kind, base, paths, candidates, kept, at },
            ActionView::ReadFile(Target::Listed(candidates[at as int])),
        )
    } else {
        StepView::Pick { kind, base, paths, candidates: kept }
    }
}

/// What follows once the file to damage was picked, if there was one.
pub open spec fn picked(
    kind: Kind,
    base: Seq<char>,
    paths: Seq<Seq<char>>,
    pick: Option<usize>,
) -> (ApplyView, ActionView) {
    match pick {
        Some(file) => {
            let path = paths[file as int];
            match paths::key_below(path, base) {
                Some(key) => if kind == Kind::DeleteFile {
                    (ApplyView::Storing { kind, path, key }, ActionView::RemoveFile(file))
                } else {
                    match damage::replacement(kind) {
                        Some(data) => (
                            ApplyView::Storing { kind, path, key },
                            ActionView::WriteFile(Target::Listed(file), data),
                        ),
                        None => (
                            ApplyView::Reading { kind, file, path, key },
                            ActionView::ReadFile(Target::Listed(file)),
                        ),
                    }
                },
                None => given_up(),
            }
        },
        None => given_up(),
    }
}

/// What follows from `event` in the state `state`.
pub open spec fn settled(state: ApplyView, event: EventView) -> StepView {
    match (state, event) {
        (ApplyView::Listing { kind, base }, EventView::Listed(paths)) => {
            let candidates = matching_files(kind, paths);
            if inspects(kind) {
                inspected(kind, base, paths, candidates, Seq::empty(), 0)
            } else if kind == Kind::CrossChain {
                let (next, action) = picked(kind, base, paths, greatest_file(paths, candidates));
                StepView::Act(next, action)
            } else {
                StepView::Pick { kind, base, paths, candidates }
            }
        },
        (
            ApplyView::Inspecting { kind, base, paths, candidates, kept, at },
            EventView::Contents(data),
        ) => {
            let kept = if multi_entry(data) {
                kept.push(candidates[at as int])
            } else {
                kept
            };
            inspected(kind, base, paths, candidates, kept, (at + 1) as usize)
        },
        (ApplyView::Reading { kind, file, path, key }, EventView::Contents(Some(data))) => {
            match damage::damaged_contents(kind, data) {
                Some(out) => StepView::Act(
                    ApplyView::Storing { kind, path, key },
                    ActionView::WriteFile(Target::Listed(file), out),
                ),
                None => StepView::Act(given_up().0, given_up().1),
            }
        },
        (ApplyView::Storing { kind, key, .. }, EventView::Stored(true)) => StepView::Act(
            ApplyView::Done,
            ActionView::Finished(Some(DamageView { kind: kind.text(), key })),
        ),
        _ => StepView::Act(given_up().0, given_up().1),
    }
}

/// What follows from `event` in the state `state`, a choice among files being made
/// with the generator `rng`: the next state, the next action, and the generator.
pub open spec fn advanced(state: ApplyView, event: EventView, rng: StdRng) -> (
    ApplyView,
    ActionView,
    StdRng,
) {
    match settled(state, event) {
        StepView::Act(next, action) => (next, action, rng),
        StepView::Pick { kind, base, paths, candidates } => {
            let (next, action) = picked(kind, base, paths, pick::pick_of(candidates, rng));
            (next, action, pick::rng_after(rng, candidates.len()))
        },
    }
}

/// Whether a file that was read holds more than one ledger-header entry.
pub fn has_many_entries(data: &Option<Vec<u8>>) -> (r: bool)
    ensures
        r == multi_entry(view_of(*data)),
{
    match data {
        Some(bytes) => match read_and_parse_ledger_file(bytes.as_slice()) {
            Ok(entries) => entries.len() > 1,
            Err(_) => false,
        },
        None => false,
    }
}

/// A corruption with nothing left to do.
pub fn finished() -> (r: Apply)
    ensures
        r@ == ApplyView::Done,
{
    Apply { state: State::Done }
}

/// Starts the corruption named `kind` of the archive at `archive`.
pub fn apply(archive: &str, kind: &str) -> (r: (Apply, Action))
    ensures
        (r.0@, r.1@) == started(archive@, kind@),
{
    match Kind::parse(kind) {
        Some(Kind::WellKnown) => {
            let path: String = path_below(archive, ROOT_STATE);
            match replacement_bytes(Kind::WellKnown) {
                Some(data) if lies_below(path.as_str(), archive) => {
                    let key: String = rel_key(path.as_str(), archive);
                    (
                        Apply { state: State::Storing { kind: Kind::WellKnown, path, key } },
                        Action::WriteFile(Target::RootState, data),
                    )
                },
                _ => (finished(), Action::Finished(None)),
            }
        },
        Some(kind) => (
            Apply { state: State::Listing { kind, base: archive.to_owned() } },
            Action::ListFiles,
        ),
        None => (finished(), Action::Finished(None)),
    }
}

/// Goes on with the file that was picked, if there was one.
pub fn go_on_with(kind: Kind, base: &str, paths: &Vec<String>, pick: Option<usize>) -> (r: (
    Apply,
    Action,
))
    requires
        pick matches Some(file) ==> file < paths@.len(),
    ensures
        (r.0@, r.1@) == picked(kind, base@, text::texts(paths@), pick),
{
    match pick {
        Some(file) if lies_below(paths[file].as_str(), base) => {
            let path: String = paths[file].clone();
            let key: String = rel_key(path.as_str(), base);
            match kind {
                Kind::DeleteFile => (
                    Apply { state: State::Storing { kind, path, key } },
                    Action::RemoveFile(file),
                ),
                _ => match replacement_bytes(kind) {
                    Some(data) => (
                        Apply { state: State::Storing { kind, path, key } },
                        Action::WriteFile(Target::Listed(file), data),
                    ),
                    None => (
                        Apply { state: State::Reading { kind, file, path, key } },
                        Action::ReadFile(Target::Listed(file)),
                    ),
                },
            }
        },
        _ => (finished(), Action::Finished(None)),
    }
}

/// What follows once the candidates before `at` were read.
fn inspect_next(
    kind: Kind,
    base: String,
    paths: Vec<String>,
    candidates: Vec<usize>,
    kept: Vec<usize>,
    at: usize,
) -> (r: Step)
    requires
        in_listing(candidates@, paths@.len()),
        in_listing(kept@, paths@.len()),
    ensures
        r@ == inspected(kind, base@, text::texts(paths@), candidates@, kept@, at),
{
    if at < candidates.len() {
        let file: usize = candidates[at];
        Step::Act(
            Apply { state: State::Inspecting { kind, base, paths, candidates, kept, at } },
            Action::ReadFile(Target::Listed(file)),
        )
    } else {
        Step::Pick { kind, base, paths, candidates: kept }
    }
}

impl Apply {
    #[verifier::type_invariant]
    spec fn inv(self) -> bool {
        self@.valid()
    }

    /// The path of the file that is being damaged, where the damage is being stored.
    pub fn storing_path(&self) -> (r: Option<String>)
        ensures
            match r {
                Some(path) => self@ matches ApplyView::Storing { path: p, .. } && p == path@,
                None => !(self@ is Storing),
            },
    {
        match &self.state {
            State::Storing { path, .. } => Some(path.clone()),
            _ => None,
        }
    }

    /// What follows from `event`, up to a choice among files.
    pub fn settle(self, event: Event) -> (r: Step)
        ensures
            r@ == settled(self@, event@),
            r@ matches StepView::Pick { paths, candidates, .. } ==> in_listing(
                candidates,
                paths.len(),
            ),
    {
        proof {
            use_type_invariant(&self);
        }
        match (self.state, event) {
            (State::Listing { kind, base }, Event::Listed(paths)) => {
                let candidates: Vec<usize> = files_matching(kind, &paths);
                match kind {
                    Kind::DropLedger | Kind::IntraChain => inspect_next(
                        kind,
                        base,
                        paths,
                        candidates,
                        Vec::new(),
                        0,
                    ),
                    Kind::CrossChain => {
                        let pick: Option<usize> = last_greatest(&paths, &candidates);
                        let (next, action) = go_on_with(kind, base.as_str(), &paths, pick);
                        Step::Act(next, action)
                    },
                    _ => Step::Pick { kind, base, paths, candidates },
                }
            },
            (
                State::Inspecting { kind, base, paths, candidates, kept, at },
                Event::Contents(data),
            ) => {
                let mut kept = kept;
                assert(at < candidates.len());
                assert(candidates@[at as int] < paths@.len());
                if has_many_entries(&data) {
                    kept.push(candidates[at]);
                }
                inspect_next(kind, base, paths, candidates, kept, at + 1)
            },
            (State::Reading { kind, file, path, key }, Event::Contents(Some(data))) => {
                match damage_contents(kind, data.as_slice()) {
                    Some(out) => Step::Act(
                        Apply { state: State::Storing { kind, path, key } },
                        Action::WriteFile(Target::Listed(file), out),
                    ),
                    None => Step::Act(finished(), Action::Finished(None)),
                }
            },
            (State::Storing { kind, key, .. }, Event::Stored(true)) => Step::Act(
                finished(),
                Action::Finished(Some(Damage { kind: kind.name().to_owned(), key })),
            ),
            _ => Step::Act(finished(), Action::Finished(None)),
        }
    }

    /// What follows from `event`. A choice among files is made with `rng`.
    pub fn resume(self, event: Event, rng: &mut StdRng) -> (r: (Apply, Action))
        ensures
            (r.0@, r.1@, *final(rng)) == advanced(self@, event@, *old(rng)),
            settled(self@, event@) matches StepView::Pick { candidates, .. } ==> pick::in_list(
                *old(rng),
                candidates.len(),
            ),
    {
        match self.settle(event) {
            Step::Act(next, action) => (next, action),
            Step::Pick { kind, base, paths, candidates } => {
                let pick: Option<usize> = match pick_one(candidates.as_slice(), rng) {
                    Some(file) => {
                        proof {
                            pick::lemma_position(*old(rng), candidates@.len());
                        }
                        Some(*file)
                    },
                    None => None,
                };
                proof {
                    pick::law_pick_is_among(candidates@, *old(rng));
                }
                go_on_with(kind, base.as_str(), &paths, pick)
            },
        }
    }
}

//=============================================================================
// Laws
//=============================================================================

/// The files that a kind is for, by what their paths hold: any but those below
/// `.well-known` for a removal, XDR files for emptying and flipping, buckets for the two
/// kinds of wrong buckets, and ledger files for the kinds about ledger headers. The kind
/// about the root state file picks from none.
pub proof fn law_files_by_kind(path: Seq<char>)
    ensures
        suits(Kind::DeleteFile, path) <==> text::contains_text(text::slashed(path), "/"@)
            && !text::contains_text(path, ".well-known"@),
        suits(Kind::Truncate, path) <==> text::contains_text(text::slashed(path), ".xdr.gz"@),
        suits(Kind::ByteFlip, path) <==> text::contains_text(text::slashed(path), ".xdr.gz"@),
        suits(Kind::InvalidGzip, path) <==> text::contains_text(text::slashed(path), "/bucket-"@),
        suits(Kind::BucketHash, path) <==> text::contains_text(text::slashed(path), "/bucket-"@),
        suits(Kind::LedgerHeaderHash, path) <==> text::contains_text(
            text::slashed(path),
            "/ledger-"@,
        ),
        suits(Kind::DropLedger, path) <==> text::contains_text(text::slashed(path), "/ledger-"@),
        suits(Kind::TxsetHash, path) <==> text::contains_text(text::slashed(path), "/ledger-"@),
        suits(Kind::ResultHash, path) <==> text::contains_text(text::slashed(path), "/ledger-"@),
        suits(Kind::IntraChain, path) <==> text::contains_text(text::slashed(path), "/ledger-"@),
        suits(Kind::CrossChain, path) <==> text::contains_text(text::slashed(path), "/ledger-"@),
        !suits(Kind::WellKnown, path),
{
}

/// Actions, events and damage are seen as what they hold.
pub proof fn law_views(action: Action, event: Event, damage: Damage)
    ensures
        damage@.kind == damage.kind@,
        damage@.key == damage.key@,
        match action {
            Action::ListFiles => action@ == ActionView::ListFiles,
            Action::ReadFile(target) => action@ == ActionView::ReadFile(target),
            Action::WriteFile(target, data) => action@ == ActionView::WriteFile(target, data@),
            Action::RemoveFile(file) => action@ == ActionView::RemoveFile(file),
            Action::Finished(Some(d)) => action@ == ActionView::Finished(
                Some(DamageView { kind: d.kind@, key: d.key@ }),
            ),
            Action::Finished(None) => action@ == ActionView::Finished(None),
        },
        match event {
            Event::Listed(paths) => event@ matches EventView::Listed(texts) && texts.len()
                == paths@.len() && forall|i: int|
                0 <= i < texts.len() ==> #[trigger] texts[i] == paths@[i]@,
            Event::Contents(Some(data)) => event@ == EventView::Contents(Some(data@)),
            Event::Contents(None) => event@ == EventView::Contents(None),
            Event::Stored(ok) => event@ == EventView::Stored(ok),
        },
{
}

/// A file holds more than one entry if, and only if, it was read and two can be read from
/// it.
pub proof fn law_multi_entry(data: Option<Seq<u8>>)
    ensures
        multi_entry(data) <==> data is Some && (ledger::parsed_file(data->0) matches Some(entries)
            && entries.len() >= 2),
{
}

} // verus!
