//! A run of corruptions, and the manifest of what it broke.
//!
//! Before a file is changed for the first time what it holds is read and kept, so
//! that the manifest can leave out a file that holds at the end what it held at the
//! start. A file that could not be read is taken to be changed by any change to it.

use crate::corruption;
use crate::corruption::{
    apply, finished, Action, ActionView, Apply, ApplyView, Damage, DamageView, Event, EventView,
    Target,
};
use crate::kinds;
use crate::kinds::Kind;
use crate::pick;
use crate::pick::{pick_one, seeded_rng};
use crate::text;
use rand::rngs::StdRng;
use vstd::prelude::*;

verus! {

//=============================================================================
// Model
//=============================================================================

/// Everything that was broken.
#[derive(Debug)]
pub struct Manifest {
    pub items: Vec<Damage>,
}

impl View for Manifest {
    type V = Seq<DamageView>;

    open spec fn view(&self) -> Seq<DamageView> {
        self.items@.map_values(|d: Damage| d@)
    }
}

impl Default for Manifest {
    /// Nothing was broken.
    fn default() -> (r: Self)
        ensures
            r@ == Seq::<DamageView>::empty(),
    {
        let r = Manifest { items: Vec::new() };
        assert(r@ =~= Seq::<DamageView>::empty());
        r
    }
}

/// A file that the run was about to change: its path, what it held before, where it
/// could be read, and whether it was changed since and not changed back.
struct Touched {
    path: String,
    original: Option<Vec<u8>>,
    changed: bool,
}

/// A corruption that was made: the path of the file, and the damage.
struct Broken {
    path: String,
    damage: Damage,
}

/// A change that is under way.
enum Hold {
    /// There is none.
    Nothing,
    /// The file is being read before this change.
    Before(Action),
    /// The change is being made; whether it leaves the file other than it was at first.
    During(bool),
}

/// A run of corruptions of one archive.
pub struct Run {
    /// The archive.
    base: String,
    /// The names of the kinds to pick from.
    kinds: Vec<String>,
    /// How many rounds are still to start.
    left: usize,
    /// The corruption of this round.
    current: Apply,
    /// The change that it is making.
    hold: Hold,
    /// The files that were to be changed so far.
    touched: Vec<Touched>,
    /// The corruptions that were made so far.
    record: Vec<Broken>,
    /// Makes the choices.
    rng: StdRng,
}

#[verifier::ext_equal]
pub struct TouchedView {
    pub path: Seq<char>,
    pub original: Option<Seq<u8>>,
    pub changed: bool,
}

#[verifier::ext_equal]
pub struct BrokenView {
    pub path: Seq<char>,
    pub damage: DamageView,
}

#[verifier::ext_equal]
pub enum HoldView {
    Nothing,
    Before(ActionView),
    During(bool),
}

#[verifier::ext_equal]
pub struct RunView {
    pub base: Seq<char>,
    pub kinds: Seq<Seq<char>>,
    pub left: usize,
    pub current: ApplyView,
    pub hold: HoldView,
    pub touched: Seq<TouchedView>,
    pub record: Seq<BrokenView>,
    pub rng: StdRng,
}

impl View for Touched {
    type V = TouchedView;

    closed spec fn view(&self) -> TouchedView {
        TouchedView {
            path: self.path@,
            original: corruption::view_of(self.original),
            changed: self.changed,
        }
    }
}

impl View for Broken {
    type V = BrokenView;

    closed spec fn view(&self) -> BrokenView {
        BrokenView { path: self.path@, damage: self.damage@ }
    }
}

impl View for Hold {
    type V = HoldView;

    closed spec fn view(&self) -> HoldView {
        match *self {
            Hold::Nothing => HoldView::Nothing,
            Hold::Before(action) => HoldView::Before(action@),
            Hold::During(changes) => HoldView::During(changes),
        }
    }
}

impl View for Run {
    type V = RunView;

    closed spec fn view(&self) -> RunView {
        RunView {
            base: self.base@,
            kinds: text::texts(self.kinds@),
            left: self.left,
            current: self.current@,
            hold: self.hold@,
            touched: self.touched@.map_values(|t: Touched| t@),
            record: self.record@.map_values(|b: Broken| b@),
            rng: self.rng,
        }
    }
}

/// Where the file at `path` stands among those touched.
pub open spec fn find(touched: Seq<TouchedView>, path: Seq<char>) -> Option<int>
    decreases touched.len(),
{
    if touched.len() == 0 {
        None
    } else {
        match find(touched.drop_last(), path) {
            Some(i) => Some(i),
            None => if touched.last().path == path {
                Some(touched.len() - 1)
            } else {
                None
            },
        }
    }
}

/// The files touched once that at `path` was read, and held `data`. What it held
/// the first time stays.
pub open spec fn noted(touched: Seq<TouchedView>, path: Seq<char>, data: Option<Seq<u8>>) -> Seq<
    TouchedView,
> {
    if find(touched, path) is Some {
        touched
    } else {
        touched.push(TouchedView { path, original: data, changed: false })
    }
}

/// The file at `path` is other than it was at first once it holds `after`, or is gone
/// where that is `None`. One that could not be read is taken to be.
pub open spec fn changes(touched: Seq<TouchedView>, path: Seq<char>, after: Option<Seq<u8>>) -> bool {
    match find(touched, path) {
        Some(i) => touched[i].original is None || touched[i].original != after,
        None => true,
    }
}

/// The files touched once that at `path` was changed.
pub open spec fn updated(touched: Seq<TouchedView>, path: Seq<char>, changed: bool) -> Seq<
    TouchedView,
> {
    match find(touched, path) {
        Some(i) => touched.update(i, TouchedView { changed, ..touched[i] }),
        None => touched,
    }
}

/// The file at `path` is other than it was at first.
pub open spec fn differs(touched: Seq<TouchedView>, path: Seq<char>) -> bool {
    match find(touched, path) {
        Some(i) => touched[i].changed,
        None => false,
    }
}

/// The damage in `record` to files that are other than they were at first.
pub open spec fn lasting(record: Seq<BrokenView>, touched: Seq<TouchedView>) -> Seq<DamageView>
    decreases record.len(),
{
    if record.len() == 0 {
        Seq::empty()
    } else {
        let before = lasting(record.drop_last(), touched);
        if differs(touched, record.last().path) {
            before.push(record.last().damage)
        } else {
            before
        }
    }
}

/// The file that a change is made to.
pub open spec fn changed_target(change: ActionView) -> Target {
    match change {
        ActionView::WriteFile(target, _) => target,
        ActionView::RemoveFile(file) => Target::Listed(file),
        _ => Target::RootState,
    }
}

/// What a file holds after a change.
pub open spec fn changed_contents(change: ActionView) -> Option<Seq<u8>> {
    match change {
        ActionView::WriteFile(_, data) => Some(data),
        _ => None,
    }
}

/// The name of the kind that is picked from `kinds`; empty where there are none.
pub open spec fn picked_name(kinds: Seq<Seq<char>>, rng: StdRng) -> Seq<char> {
    match pick::pick_of(kinds, rng) {
        Some(name) => name,
        None => Seq::empty(),
    }
}

/// A run of `count` rounds that has not begun.
pub open spec fn fresh(base: Seq<char>, kinds: Seq<Seq<char>>, count: usize, seed: u64) -> RunView {
    RunView {
        base,
        kinds,
        left: count,
        current: ApplyView::Done,
        hold: HoldView::Nothing,
        touched: Seq::empty(),
        record: Seq::empty(),
        rng: pick::seeded(seed),
    }
}

impl RunView {
    /// The run once its corruption is at `current` and asks for `action`. A change is
    /// held back until the file was read.
    pub open spec fn taken_up(self, current: ApplyView, action: ActionView) -> (
        RunView,
        ActionView,
    ) {
        if action is WriteFile || action is RemoveFile {
            (
                RunView { current, hold: HoldView::Before(action), ..self },
                ActionView::ReadFile(changed_target(action)),
            )
        } else {
            (RunView { current, hold: HoldView::Nothing, ..self }, action)
        }
    }

    /// The run once its round has come to nothing.
    pub open spec fn stopped(self) -> (RunView, ActionView) {
        (
            RunView { current: ApplyView::Done, hold: HoldView::Nothing, ..self },
            ActionView::Finished(None),
        )
    }

    /// The next round: the kind is picked first. There must be rounds left.
    pub open spec fn next_round(self) -> (RunView, ActionView) {
        let (current, action) = corruption::started(
            self.base,
            picked_name(self.kinds, self.rng),
        );
        RunView {
            left: (self.left - 1) as usize,
            rng: pick::rng_after(self.rng, self.kinds.len()),
            ..self
        }.taken_up(current, action)
    }

    /// What follows from `event`.
    pub open spec fn after(self, event: EventView) -> (RunView, ActionView) {
        match self.hold {
            HoldView::Nothing => {
                let (current, action, rng) = corruption::advanced(self.current, event, self.rng);
                RunView { rng, ..self }.taken_up(current, action)
            },
            HoldView::Before(change) => match (self.current, event) {
                (ApplyView::Storing { path, .. }, EventView::Contents(data)) => {
                    let touched = noted(self.touched, path, data);
                    let changed = changes(touched, path, changed_contents(change));
                    (RunView { hold: HoldView::During(changed), touched, ..self }, change)
                },
                _ => self.stopped(),
            },
            HoldView::During(changed) => match (self.current, event) {
                (ApplyView::Storing { kind, path, key }, EventView::Stored(true)) => {
                    let damage = DamageView { kind: kind.text(), key };
                    (
                        RunView {
                            current: ApplyView::Done,
                            hold: HoldView::Nothing,
                            touched: updated(self.touched, path, changed),
                            record: self.record.push(BrokenView { path, damage }),
                            ..self
                        },
                        ActionView::Finished(Some(damage)),
                    )
                },
                _ => self.stopped(),
            },
        }
    }

    /// What the run has broken: the corruptions of files that are other than they were
    /// at the start.
    pub open spec fn manifest(self) -> Seq<DamageView> {
        lasting(self.record, self.touched)
    }

    /// No more was broken than `count` rounds can break, the rounds still due
    /// counted in, and each by a kind that may be picked.
    pub open spec fn within(self, count: nat) -> bool {
        &&& self.record.len() + self.left + (if self.current is Done {
            0nat
        } else {
            1nat
        }) <= count
        &&& kind_of(self.current) matches Some(kind) ==> self.kinds.contains(kind.text())
        &&& forall|i: int|
            0 <= i < self.record.len() ==> self.kinds.contains(
                (#[trigger] self.record[i]).damage.kind,
            )
    }
}

/// The kind of a corruption under way.
pub open spec fn kind_of(state: ApplyView) -> Option<Kind> {
    match state {
        ApplyView::Listing { kind, .. } => Some(kind),
        ApplyView::Inspecting { kind, .. } => Some(kind),
        ApplyView::Reading { kind, .. } => Some(kind),
        ApplyView::Storing { kind, .. } => Some(kind),
        ApplyView::Done => None,
    }
}

//=============================================================================
// Functions
//=============================================================================

/// Where a found entry stands, and that it is that of the path.
pub proof fn lemma_find(touched: Seq<TouchedView>, path: Seq<char>)
    ensures
        match find(touched, path) {
            Some(i) => 0 <= i < touched.len() && touched[i].path == path && forall|j: int|
                0 <= j < i ==> (#[trigger] touched[j]).path != path,
            None => forall|j: int| 0 <= j < touched.len() ==> (#[trigger] touched[j]).path != path,
        },
    decreases touched.len(),
{
    if touched.len() > 0 {
        lemma_find(touched.drop_last(), path);
        let init = touched.drop_last();
        assert forall|j: int| 0 <= j < init.len() implies (#[trigger] touched[j]).path
            == init[j].path by {}
    }
}

/// Where the file at `path` stands among those touched.
fn position_of(touched: &Vec<Touched>, path: &str) -> (r: Option<usize>)
    ensures
        match r {
            Some(i) => i < touched@.len() && find(touched@.map_values(|t: Touched| t@), path@)
                == Some(i as int),
            None => find(touched@.map_values(|t: Touched| t@), path@) is None,
        },
{
    let ghost all = touched@.map_values(|t: Touched| t@);
    let mut i: usize = 0;
    while i < touched.len()
        invariant
            i <= touched.len(),
            all == touched@.map_values(|t: Touched| t@),
            forall|j: int| 0 <= j < i ==> (#[trigger] all[j]).path != path@,
        decreases touched.len() - i,
    {
        assert(all[i as int].path == touched@[i as int].path@);
        if text::same_text(touched[i].path.as_str(), path) {
            proof {
                lemma_find(all, path@);
            }
            return Some(i);
        }
        i = i + 1;
    }
    proof {
        lemma_find(all, path@);
    }
    None
}

/// Whether two files hold the same.
fn same_bytes(a: &[u8], b: &[u8]) -> (r: bool)
    ensures
        r == (a@ == b@),
{
    if a.len() != b.len() {
        return false;
    }
    let mut i: usize = 0;
    while i < a.len()
        invariant
            i <= a.len(),
            a.len() == b.len(),
            forall|k: int| 0 <= k < i ==> a@[k] == b@[k],
        decreases a.len() - i,
    {
        if a[i] != b[i] {
            return false;
        }
        i = i + 1;
    }
    assert(a@ =~= b@);
    true
}

/// A run of `count` rounds on the archive at `archive`, each of a kind picked from
/// `kinds`; `seed` decides what is picked.
pub fn run(archive: &str, kinds: Vec<String>, count: usize, seed: u64) -> (r: Run)
    ensures
        r@ == fresh(archive@, text::texts(kinds@), count, seed),
        r@.within(count as nat),
        r@.base == archive@,
        r@.kinds.len() == kinds@.len(),
        forall|i: int| 0 <= i < kinds@.len() ==> #[trigger] r@.kinds[i] == kinds@[i]@,
        r@.left == count,
        r@.record.len() == 0,
        r@.touched.len() == 0,
        r@.current is Done,
        r@.hold is Nothing,
        r@.rng == pick::seeded(seed),
{
    let r = Run {
        base: archive.to_owned(),
        kinds,
        left: count,
        current: finished(),
        hold: Hold::Nothing,
        touched: Vec::new(),
        record: Vec::new(),
        rng: seeded_rng(seed),
    };
    assert(r@.touched =~= Seq::<TouchedView>::empty());
    assert(r@.record =~= Seq::<BrokenView>::empty());
    r
}

impl Run {
    /// Takes up what the corruption asks for.
    fn take_up(&mut self, current: Apply, action: Action) -> (r: Action)
        ensures
            (final(self)@, r@) == old(self)@.taken_up(current@, action@),
    {
        self.current = current;
        match action {
            Action::WriteFile(target, data) => {
                self.hold = Hold::Before(Action::WriteFile(target, data));
                Action::ReadFile(target)
            },
            Action::RemoveFile(file) => {
                self.hold = Hold::Before(Action::RemoveFile(file));
                Action::ReadFile(Target::Listed(file))
            },
            other => {
                self.hold = Hold::Nothing;
                other
            },
        }
    }

    /// Ends the round with nothing broken.
    fn stop(&mut self) -> (r: Action)
        ensures
            (final(self)@, r@) == old(self)@.stopped(),
    {
        self.current = finished();
        self.hold = Hold::Nothing;
        Action::Finished(None)
    }

    /// Starts the next round, if one is due, of a kind that is picked.
    pub fn next_round(&mut self) -> (r: Option<Action>)
        ensures
            match r {
                Some(action) => old(self)@.left > 0 && (final(self)@, action@)
                    == old(self)@.next_round(),
                None => old(self)@.left == 0 && *final(self) == *old(self),
            },
            r is Some ==> pick::in_list(old(self)@.rng, old(self)@.kinds.len()),
            r is Some <==> old(self)@.left > 0,
            r is Some ==> final(self)@.left == old(self)@.left - 1,
            final(self)@.base == old(self)@.base,
            final(self)@.kinds == old(self)@.kinds,
            final(self)@.record == old(self)@.record,
            final(self)@.touched == old(self)@.touched,
            forall|count: nat| #[trigger]
                old(self)@.within(count) ==> final(self)@.within(count),
    {
        if self.left == 0 {
            return None;
        }
        let name: String = match pick_one(self.kinds.as_slice(), &mut self.rng) {
            Some(kind) => {
                proof {
                    pick::lemma_position(old(self)@.rng, old(self)@.kinds.len());
                }
                kind.clone()
            },
            None => String::new(),
        };
        assert(name@ == picked_name(old(self)@.kinds, old(self)@.rng));
        self.left = self.left - 1;
        let (current, action) = apply(self.base.as_str(), name.as_str());
        let action: Action = self.take_up(current, action);
        assert forall|count: nat| #[trigger] old(self)@.within(count) implies final(self)@.within(
            count,
        ) by {
            lemma_next_round_within(old(self)@, count);
        }
        Some(action)
    }

    /// What follows from `event`.
    pub fn resume(&mut self, event: Event) -> (r: Action)
        ensures
            (final(self)@, r@) == old(self)@.after(event@),
            final(self)@.left == old(self)@.left,
            final(self)@.base == old(self)@.base,
            final(self)@.kinds == old(self)@.kinds,
            old(self)@.hold is During ==> (r matches Action::Finished(Some(damage))
                ==> final(self)@.record.len() == old(self)@.record.len() + 1 && final(self)@.record.drop_last()
                == old(self)@.record && final(self)@.record.last().damage.kind == damage.kind@
                && final(self)@.record.last().damage.key == damage.key@),
            !(old(self)@.hold is During && r matches Action::Finished(Some(_)))
                ==> final(self)@.record == old(self)@.record,
            old(self)@.hold is Nothing ==> (corruption::settled(old(self)@.current, event@) matches
                corruption::StepView::Pick { candidates, .. } ==> pick::in_list(
                old(self)@.rng,
                candidates.len(),
            )),
            forall|count: nat| #[trigger]
                old(self)@.within(count) ==> final(self)@.within(count),
    {
        let mut hold = Hold::Nothing;
        std::mem::swap(&mut self.hold, &mut hold);
        let ghost before = old(self)@;
        match (hold, event) {
            (Hold::Nothing, event) => {
                let mut current = finished();
                std::mem::swap(&mut self.current, &mut current);
                let (current, action) = current.resume(event, &mut self.rng);
                self.take_up(current, action)
            },
            (Hold::Before(change), Event::Contents(data)) => match self.current.storing_path() {
                Some(path) => {
                    let changed: bool = self.note(path, data, &change);
                    self.hold = Hold::During(changed);
                    change
                },
                None => self.stop(),
            },
            (Hold::During(changed), Event::Stored(true)) => match self.current.storing_path() {
                Some(path) => {
                    let mut current = finished();
                    std::mem::swap(&mut self.current, &mut current);
                    let (_, action) = current.resume(Event::Stored(true), &mut self.rng);
                    self.update(path.as_str(), changed);
                    if let Action::Finished(Some(damage)) = &action {
                        let ghost record = self.record@.map_values(|b: Broken| b@);
                        self.record.push(Broken { path, damage: damage.clone() });
                        assert(self.record@.map_values(|b: Broken| b@) =~= record.push(
                            BrokenView { path: path@, damage: damage@ },
                        ));
                        assert(self@.record.drop_last() =~= record);
                    }
                    action
                },
                None => self.stop(),
            },
            _ => self.stop(),
        }
    }

    /// Keeps what the file at `path` held when it was read first, and tells whether
    /// `change` makes it other than that.
    fn note(&mut self, path: String, data: Option<Vec<u8>>, change: &Action) -> (r: bool)
        ensures
            final(self)@ == (RunView {
                touched: noted(old(self)@.touched, path@, corruption::view_of(data)),
                ..old(self)@
            }),
            r == changes(final(self)@.touched, path@, changed_contents(change@)),
    {
        let ghost touched = self.touched@.map_values(|t: Touched| t@);
        let at: usize = match position_of(&self.touched, path.as_str()) {
            Some(i) => i,
            None => {
                let ghost name = path@;
                let entry = Touched { path, original: data, changed: false };
                let i: usize = self.touched.len();
                self.touched.push(entry);
                proof {
                    let after = self.touched@.map_values(|t: Touched| t@);
                    assert(after =~= touched.push(entry@));
                    assert(after.drop_last() =~= touched);
                    assert(find(after, name) == Some(i as int));
                }
                i
            },
        };
        assert(self@.touched[at as int] == self.touched@[at as int]@);
        match (&self.touched[at].original, change) {
            (Some(before), Action::WriteFile(_, out)) => !same_bytes(
                before.as_slice(),
                out.as_slice(),
            ),
            _ => true,
        }
    }

    /// Takes note that the file at `path` was changed.
    fn update(&mut self, path: &str, changed: bool)
        ensures
            final(self)@ == (RunView {
                touched: updated(old(self)@.touched, path@, changed),
                ..old(self)@
            }),
    {
        match position_of(&self.touched, path) {
            Some(i) => {
                let ghost touched = self.touched@.map_values(|t: Touched| t@);
                self.touched[i].changed = changed;
                assert(self.touched@.map_values(|t: Touched| t@) =~= touched.update(
                    i as int,
                    TouchedView { changed, ..touched[i as int] },
                ));
            },
            None => {},
        }
    }

    /// Whether the file at `path` is other than it was at first.
    fn has_changed(&self, path: &str) -> (r: bool)
        ensures
            r == differs(self@.touched, path@),
    {
        match position_of(&self.touched, path) {
            Some(i) => {
                assert(self@.touched[i as int] == self.touched@[i as int]@);
                self.touched[i].changed
            },
            None => false,
        }
    }

    /// What the run has broken: the corruptions of files that are other than they were
    /// at the start.
    pub fn manifest(&self) -> (r: Manifest)
        ensures
            r@ == self@.manifest(),
    {
        let ghost record = self@.record;
        let mut items: Vec<Damage> = Vec::new();
        let mut i: usize = 0;
        assert(record.take(0) =~= Seq::<BrokenView>::empty());
        assert(items@.map_values(|d: Damage| d@) =~= Seq::<DamageView>::empty());
        while i < self.record.len()
            invariant
                i <= self.record.len(),
                record == self@.record,
                record.len() == self.record.len(),
                items@.map_values(|d: Damage| d@) == lasting(
                    record.take(i as int),
                    self@.touched,
                ),
            decreases self.record.len() - i,
        {
            assert(record.take(i + 1).drop_last() =~= record.take(i as int));
            assert(record.take(i + 1).last() == self.record@[i as int]@);
            if self.has_changed(self.record[i].path.as_str()) {
                let ghost before = items@.map_values(|d: Damage| d@);
                let damage = self.record[i].damage.clone();
                items.push(damage);
                assert(items@.map_values(|d: Damage| d@) =~= before.push(damage@));
            }
            i = i + 1;
        }
        assert(record.take(i as int) =~= record);
        Manifest { items }
    }

    /// How many corruptions were made, lasting or not.
    pub fn corruptions_made(&self) -> (r: usize)
        ensures
            r == self@.record.len(),
    {
        self.record.len()
    }

    /// How many rounds are still to start.
    pub fn rounds_left(&self) -> (r: usize)
        ensures
            r == self@.left,
    {
        self.left
    }
}

/// Starting a round keeps what was broken within bounds.
proof fn lemma_next_round_within(run: RunView, count: nat)
    requires
        run.left > 0,
        run.within(count),
    ensures
        run.next_round().0.within(count),
{
    kinds::lemma_names_distinct();
    pick::law_pick_is_among(run.kinds, run.rng);
}

//=============================================================================
// Laws
//=============================================================================

/// A run that has not begun has as many rounds to make as were asked for, has broken
/// nothing, and picks with the generator of its seed.
pub proof fn law_fresh_run(base: Seq<char>, kinds: Seq<Seq<char>>, count: usize, seed: u64)
    ensures
        ({
            let run = fresh(base, kinds, count, seed);
            &&& run.left == count
            &&& run.base == base
            &&& run.kinds == kinds
            &&& run.rng == pick::seeded(seed)
            &&& run.record.len() == 0
            &&& run.manifest().len() == 0
            &&& run.current is Done
        }),
{
}

/// The kind of a round is the one drawn from those to pick from; the generator has then
/// drawn once. Where there are none to pick from, the name is empty and nothing is drawn.
pub proof fn law_kind_is_drawn(run: RunView)
    requires
        run.left > 0,
        pick::in_list(run.rng, run.kinds.len()),
    ensures
        run.kinds.len() > 0 ==> picked_name(run.kinds, run.rng) == run.kinds[pick::drawn(
            run.rng,
            run.kinds.len(),
        ).0],
        run.kinds.len() > 0 ==> run.next_round().0.rng == pick::drawn(run.rng, run.kinds.len()).1,
        run.kinds.len() == 0 ==> picked_name(run.kinds, run.rng) == Seq::<char>::empty(),
        run.kinds.len() == 0 ==> run.next_round().0.rng == run.rng,
        run.next_round().0.left == run.left - 1,
{
    if run.kinds.len() > 0 {
        pick::lemma_position(run.rng, run.kinds.len());
    }
}

/// The manifest is the record of the corruptions without those of files that are as they
/// were at first: in the same order, and none more than once.
pub proof fn law_manifest_is_lasting_record(run: RunView)
    ensures
        run.manifest() == run.record.filter(
            |broken: BrokenView| differs(run.touched, broken.path),
        ).map_values(|broken: BrokenView| broken.damage),
{
    lemma_lasting_is_filter(run.record, run.touched);
}

proof fn lemma_lasting_is_filter(record: Seq<BrokenView>, touched: Seq<TouchedView>)
    ensures
        lasting(record, touched) == record.filter(
            |broken: BrokenView| differs(touched, broken.path),
        ).map_values(|broken: BrokenView| broken.damage),
    decreases record.len(),
{
    reveal(Seq::filter);
    let keeps = |broken: BrokenView| differs(touched, broken.path);
    let damage = |broken: BrokenView| broken.damage;
    if record.len() > 0 {
        lemma_lasting_is_filter(record.drop_last(), touched);
        let before = record.drop_last().filter(keeps);
        assert(before.push(record.last()).map_values(damage) =~= before.map_values(damage).push(
            record.last().damage,
        ));
    }
    assert(lasting(record, touched) =~= record.filter(keeps).map_values(damage));
}

} // verus!
