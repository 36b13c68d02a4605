//! The scan command: what is set up, in which order, and with which settings.
//!
//! [`ScanCmd::run`] and [`ScanRun::resume`] say what to do next, a [`ScanAction`],
//! and take what came of it, a [`ScanEvent`].

use vstd::prelude::*;

verus! {

/// The command line of a scan.
#[derive(Debug)]
pub struct ScanCmd {
    /// The URL of the archive.
    pub archive: String,
    /// The ledger to start from, rounded to a checkpoint.
    pub low: Option<u32>,
    /// The checkpoint to stop at.
    pub high: Option<u32>,
}

/// The settings that all commands share, as far as a scan reads them. `S` is the type
/// of the storage settings, which a scan hands on as they are.
#[derive(Debug)]
pub struct GlobalArgs<'a, S> {
    pub concurrency: usize,
    pub skip_optional: bool,
    pub verify: bool,
    /// Whether the findings of the report that is there are taken up.
    pub resume: bool,
    /// Where the report is written, if one is asked for.
    pub report_path: Option<String>,
    pub checkpoint_interval: usize,
    pub storage_config: &'a S,
}

/// The settings of a pipeline, but for those of the storage.
#[derive(Clone, Copy, Debug, PartialEq, Eq, Structural)]
pub struct PipelineConfig {
    pub concurrency: usize,
    pub skip_optional: bool,
    pub skip_history_and_buckets: bool,
    pub verify: bool,
}

/// A report is written at least this often, in seconds.
pub const BACKSTOP_SECS: u64 = 30;

/// How far a scan has come.
#[derive(Clone, Copy, Debug, PartialEq, Eq, Structural)]
pub enum Stage {
    /// The findings of an earlier run are being loaded, where it is resumed.
    LoadingPrior,
    /// The archive is being opened.
    OpeningSource,
    /// The pipeline is being built.
    Building,
    /// The earlier findings are being put into the pipeline.
    Seeding,
    /// The checkpointer is being put into the pipeline.
    Attaching,
    /// The pipeline is running.
    Running,
    /// The scan is over.
    Over,
}

/// A scan under way.
pub struct ScanRun<'a, S> {
    cmd: ScanCmd,
    args: GlobalArgs<'a, S>,
    stage: Stage,
    /// Whether there are findings of an earlier run.
    prior: bool,
}

/// What to do next.
pub enum ScanAction<'a, S> {
    /// Load the findings of an earlier run from its report, where it is resumed.
    LoadPrior { resume: bool, report_path: Option<String> },
    /// Open the archive at this URL, with these storage settings.
    OpenSource { url: String, storage_config: &'a S },
    /// Build the pipeline of a scan, with these storage settings. There is no
    /// `destination`: a scan writes to no archive.
    BuildPipeline {
        low: Option<u32>,
        high: Option<u32>,
        config: PipelineConfig,
        storage_config: &'a S,
        destination: Option<String>,
        report_path: Option<String>,
    },
    /// Put the earlier findings into the pipeline.
    SeedPrior,
    /// Put a checkpointer into the pipeline, and let signals write its report.
    AttachCheckpointer { path: String, interval: usize, backstop_secs: u64 },
    /// Run the pipeline.
    RunPipeline,
    /// The scan is over.
    Finished(ScanOutcome),
}

/// How a scan ended.
pub enum ScanOutcome {
    /// The pipeline ran through without an error.
    Succeeded,
    /// The archive could not be opened, for this reason.
    SourceFailed(String),
    /// The last action failed: its error is that of the scan.
    ActionFailed,
}

/// What came of an action.
pub enum ScanEvent {
    /// Whether there were findings of an earlier run.
    PriorLoaded(bool),
    /// The action was done.
    ActionDone,
    /// The action failed, for this reason.
    Failed(String),
}

#[verifier::ext_equal]
#[verifier::reject_recursive_types(S)]
pub struct ScanView<S> {
    pub archive: Seq<char>,
    pub low: Option<u32>,
    pub high: Option<u32>,
    pub config: PipelineConfig,
    pub resume: bool,
    pub report_path: Option<Seq<char>>,
    pub interval: usize,
    pub storage_config: S,
    pub stage: Stage,
    pub prior: bool,
}

#[verifier::ext_equal]
#[verifier::reject_recursive_types(S)]
pub enum ScanActionView<S> {
    LoadPrior { resume: bool, report_path: Option<Seq<char>> },
    OpenSource { url: Seq<char>, storage_config: S },
    BuildPipeline {
        low: Option<u32>,
        high: Option<u32>,
        config: PipelineConfig,
        storage_config: S,
        destination: Option<Seq<char>>,
        report_path: Option<Seq<char>>,
    },
    SeedPrior,
    AttachCheckpointer { path: Seq<char>, interval: usize, backstop_secs: u64 },
    RunPipeline,
    Finished(ScanOutcomeView),
}

#[verifier::ext_equal]
pub enum ScanOutcomeView {
    Succeeded,
    SourceFailed(Seq<char>),
    ActionFailed,
}

#[verifier::ext_equal]
pub enum ScanEventView {
    PriorLoaded(bool),
    ActionDone,
    Failed(Seq<char>),
}

/// A path, if any, by its text.
pub open spec fn path_view(path: Option<String>) -> Option<Seq<char>> {
    match path {
        Some(p) => Some(p@),
        None => None,
    }
}

/// The settings of a scan's pipeline: history and buckets are not skipped.
pub open spec fn scan_config<S>(args: GlobalArgs<S>) -> PipelineConfig {
    PipelineConfig {
        concurrency: args.concurrency,
        skip_optional: args.skip_optional,
        skip_history_and_buckets: false,
        verify: args.verify,
    }
}

impl<'a, S> View for ScanRun<'a, S> {
    type V = ScanView<S>;

    closed spec fn view(&self) -> ScanView<S> {
        ScanView {
            archive: self.cmd.archive@,
            low: self.cmd.low,
            high: self.cmd.high,
            config: scan_config(self.args),
            resume: self.args.resume,
            report_path: path_view(self.args.report_path),
            interval: self.args.checkpoint_interval,
            storage_config: *self.args.storage_config,
            stage: self.stage,
            prior: self.prior,
        }
    }
}

impl View for ScanOutcome {
    type V = ScanOutcomeView;

    open spec fn view(&self) -> ScanOutcomeView {
        match *self {
            ScanOutcome::Succeeded => ScanOutcomeView::Succeeded,
            ScanOutcome::SourceFailed(message) => ScanOutcomeView::SourceFailed(message@),
            ScanOutcome::ActionFailed => ScanOutcomeView::ActionFailed,
        }
    }
}

impl<'a, S> View for ScanAction<'a, S> {
    type V = ScanActionView<S>;

    open spec fn view(&self) -> ScanActionView<S> {
        match *self {
            ScanAction::LoadPrior { resume, report_path } => ScanActionView::LoadPrior {
                resume,
                report_path: path_view(report_path),
            },
            ScanAction::OpenSource { url, storage_config } => ScanActionView::OpenSource {
                url: url@,
                storage_config: *storage_config,
            },
            ScanAction::BuildPipeline {
                low,
                high,
                config,
                storage_config,
                destination,
                report_path,
            } => ScanActionView::BuildPipeline {
                low,
                high,
                config,
                storage_config: *storage_config,
                destination: path_view(destination),
                report_path: path_view(report_path),
            },
            ScanAction::SeedPrior => ScanActionView::SeedPrior,
            ScanAction::AttachCheckpointer { path, interval, backstop_secs } => {
                ScanActionView::AttachCheckpointer {
                    path: path@,
                    interval,
                    backstop_secs,
                }
            },
            ScanAction::RunPipeline => ScanActionView::RunPipeline,
            ScanAction::Finished(outcome) => ScanActionView::Finished(outcome@),
        }
    }
}

impl View for ScanEvent {
    type V = ScanEventView;

    open spec fn view(&self) -> ScanEventView {
        match *self {
            ScanEvent::PriorLoaded(found) => ScanEventView::PriorLoaded(found),
            ScanEvent::ActionDone => ScanEventView::ActionDone,
            ScanEvent::Failed(message) => ScanEventView::Failed(message@),
        }
    }
}

impl<S> ScanView<S> {
    /// The stage after the pipeline was built, and after `seeded` its earlier
    /// findings are in it.
    pub open spec fn after_building(self, seeded: bool) -> Stage {
        if self.prior && !seeded {
            Stage::Seeding
        } else if self.report_path is Some {
            Stage::Attaching
        } else {
            Stage::Running
        }
    }

    /// What a scan at this stage asks for.
    pub open spec fn asked(self) -> ScanActionView<S> {
        match self.stage {
            Stage::LoadingPrior => ScanActionView::LoadPrior {
                resume: self.resume,
                report_path: self.report_path,
            },
            Stage::OpeningSource => ScanActionView::OpenSource {
                url: self.archive,
                storage_config: self.storage_config,
            },
            Stage::Building => ScanActionView::BuildPipeline {
                low: self.low,
                high: self.high,
                config: self.config,
                storage_config: self.storage_config,
                destination: None,
                report_path: self.report_path,
            },
            Stage::Seeding => ScanActionView::SeedPrior,
            Stage::Attaching => match self.report_path {
                Some(path) => ScanActionView::AttachCheckpointer {
                    path,
                    interval: self.interval,
                    backstop_secs: BACKSTOP_SECS,
                },
                None => ScanActionView::Finished(ScanOutcomeView::ActionFailed),
            },
            Stage::Running => ScanActionView::RunPipeline,
            Stage::Over => ScanActionView::Finished(ScanOutcomeView::Succeeded),
        }
    }

    /// The scan at `stage`, and what it asks for there.
    pub open spec fn at(self, stage: Stage) -> (ScanView<S>, ScanActionView<S>) {
        let next = ScanView { stage, ..self };
        (next, next.asked())
    }

    /// The end of a scan that came to nothing.
    pub open spec fn failed(self, outcome: ScanOutcomeView) -> (ScanView<S>, ScanActionView<S>) {
        (ScanView { stage: Stage::Over, ..self }, ScanActionView::Finished(outcome))
    }

    /// What follows from `event`.
    pub open spec fn after(self, event: ScanEventView) -> (ScanView<S>, ScanActionView<S>) {
        match (self.stage, event) {
            (Stage::LoadingPrior, ScanEventView::PriorLoaded(found)) => ScanView {
                prior: found,
                ..self
            }.at(Stage::OpeningSource),
            (Stage::OpeningSource, ScanEventView::ActionDone) => self.at(Stage::Building),
            (Stage::Building, ScanEventView::ActionDone) => self.at(self.after_building(false)),
            (Stage::Seeding, ScanEventView::ActionDone) => self.at(self.after_building(true)),
            (Stage::Attaching, ScanEventView::ActionDone) => self.at(Stage::Running),
            (Stage::Running, ScanEventView::ActionDone) => self.at(Stage::Over),
            (Stage::OpeningSource, ScanEventView::Failed(message)) => self.failed(
                ScanOutcomeView::SourceFailed("Failed to create source backend: "@ + message),
            ),
            _ => self.failed(ScanOutcomeView::ActionFailed),
        }
    }
}

impl ScanCmd {
    /// Starts the scan.
    pub fn run<'a, S>(self, args: GlobalArgs<'a, S>) -> (r: (ScanRun<'a, S>, ScanAction<'a, S>))
        ensures
            r.0@ == (ScanView {
                archive: self.archive@,
                low: self.low,
                high: self.high,
                config: scan_config(args),
                resume: args.resume,
                report_path: path_view(args.report_path),
                interval: args.checkpoint_interval,
                storage_config: *args.storage_config,
                stage: Stage::LoadingPrior,
                prior: false,
            }),
            r.1@ == (ScanActionView::<S>::LoadPrior {
                resume: args.resume,
                report_path: path_view(args.report_path),
            }),
            r.0@.archive == self.archive@,
            r.0@.low == self.low,
            r.0@.high == self.high,
            r.0@.config.concurrency == args.concurrency,
            r.0@.config.skip_optional == args.skip_optional,
            r.0@.config.verify == args.verify,
            !r.0@.config.skip_history_and_buckets,
            r.0@.resume == args.resume,
            r.0@.interval == args.checkpoint_interval,
            r.0@.storage_config == *args.storage_config,
            match args.report_path {
                Some(path) => r.0@.report_path == Some(path@),
                None => r.0@.report_path is None,
            },
            r.1 matches ScanAction::LoadPrior { resume, report_path } && resume == args.resume
                && match (report_path, args.report_path) {
                (Some(given), Some(asked)) => given@ == asked@,
                (None, None) => true,
                _ => false,
            },
    {
        let scan = ScanRun { cmd: self, args, stage: Stage::LoadingPrior, prior: false };
        let action = scan.ask();
        (scan, action)
    }
}

impl<'a, S> ScanRun<'a, S> {
    /// The settings of the pipeline.
    fn config(&self) -> (r: PipelineConfig)
        ensures
            r == self@.config,
    {
        PipelineConfig {
            concurrency: self.args.concurrency,
            skip_optional: self.args.skip_optional,
            skip_history_and_buckets: false,
            verify: self.args.verify,
        }
    }

    /// Where the report is written.
    fn report_path(&self) -> (r: Option<String>)
        ensures
            path_view(r) == self@.report_path,
    {
        match &self.args.report_path {
            Some(path) => Some(path.clone()),
            None => None,
        }
    }

    /// What the scan asks for at its stage.
    fn ask(&self) -> (r: ScanAction<'a, S>)
        ensures
            r@ == self@.asked(),
    {
        match self.stage {
            Stage::LoadingPrior => ScanAction::LoadPrior {
                resume: self.args.resume,
                report_path: self.report_path(),
            },
            Stage::OpeningSource => ScanAction::OpenSource {
                url: self.cmd.archive.clone(),
                storage_config: self.args.storage_config,
            },
            Stage::Building => ScanAction::BuildPipeline {
                low: self.cmd.low,
                high: self.cmd.high,
                config: self.config(),
                storage_config: self.args.storage_config,
                destination: None,
                report_path: self.report_path(),
            },
            Stage::Seeding => ScanAction::SeedPrior,
            Stage::Attaching => match self.report_path() {
                Some(path) => ScanAction::AttachCheckpointer {
                    path,
                    interval: self.args.checkpoint_interval,
                    backstop_secs: BACKSTOP_SECS,
                },
                None => ScanAction::Finished(ScanOutcome::ActionFailed),
            },
            Stage::Running => ScanAction::RunPipeline,
            Stage::Over => ScanAction::Finished(ScanOutcome::Succeeded),
        }
    }

    /// The stage after the pipeline was built.
    fn stage_after_building(&self, seeded: bool) -> (r: Stage)
        ensures
            r == self@.after_building(seeded),
    {
        if self.prior && !seeded {
            Stage::Seeding
        } else {
            match &self.args.report_path {
                Some(_) => Stage::Attaching,
                None => Stage::Running,
            }
        }
    }

    /// What follows from `event`.
    pub fn resume(&mut self, event: ScanEvent) -> (r: ScanAction<'a, S>)
        ensures
            (final(self)@, r@) == old(self)@.after(event@),
            r matches ScanAction::OpenSource { url, storage_config } ==> url@ == old(self)@.archive
                && *storage_config == old(self)@.storage_config,
            r matches ScanAction::BuildPipeline {
                low,
                high,
                config,
                storage_config,
                destination,
                report_path,
            } ==> {
                &&& low == old(self)@.low
                &&& high == old(self)@.high
                &&& config == old(self)@.config
                &&& *storage_config == old(self)@.storage_config
                &&& destination is None
                &&& match report_path {
                    Some(path) => old(self)@.report_path == Some(path@),
                    None => old(self)@.report_path is None,
                }
            },
            r matches ScanAction::AttachCheckpointer { path, interval, backstop_secs } ==> {
                &&& old(self)@.report_path == Some(path@)
                &&& interval == old(self)@.interval
                &&& backstop_secs == 30
            },
            r matches ScanAction::Finished(ScanOutcome::Succeeded) ==> event is ActionDone
                && old(self)@.stage == Stage::Running,
            final(self)@.archive == old(self)@.archive,
            final(self)@.low == old(self)@.low,
            final(self)@.high == old(self)@.high,
            final(self)@.config == old(self)@.config,
            final(self)@.storage_config == old(self)@.storage_config,
            final(self)@.report_path == old(self)@.report_path,
            final(self)@.interval == old(self)@.interval,
            final(self)@.resume == old(self)@.resume,
    {
        match (self.stage, event) {
            (Stage::LoadingPrior, ScanEvent::PriorLoaded(found)) => {
                self.prior = found;
                self.stage = Stage::OpeningSource;
                self.ask()
            },
            (Stage::OpeningSource, ScanEvent::ActionDone) => {
                self.stage = Stage::Building;
                self.ask()
            },
            (Stage::Building, ScanEvent::ActionDone) => {
                self.stage = self.stage_after_building(false);
                self.ask()
            },
            (Stage::Seeding, ScanEvent::ActionDone) => {
                self.stage = self.stage_after_building(true);
                self.ask()
            },
            (Stage::Attaching, ScanEvent::ActionDone) => {
                self.stage = Stage::Running;
                self.ask()
            },
            (Stage::Running, ScanEvent::ActionDone) => {
                self.stage = Stage::Over;
                self.ask()
            },
            (Stage::OpeningSource, ScanEvent::Failed(message)) => {
                self.stage = Stage::Over;
                let mut text: String = "Failed to create source backend: ".to_owned();
                text.append(message.as_str());
                ScanAction::Finished(ScanOutcome::SourceFailed(text))
            },
            _ => {
                self.stage = Stage::Over;
                ScanAction::Finished(ScanOutcome::ActionFailed)
            },
        }
    }
}

//=============================================================================
// Laws
//=============================================================================

/// The first of the actions that a scan asks for from here on, each being answered
/// without a failure, for `steps` answers; `found` answers whether there are
/// findings of an earlier run.
pub open spec fn asked_in_turn<S>(
    view: ScanView<S>,
    action: ScanActionView<S>,
    found: bool,
    steps: nat,
) -> Seq<ScanActionView<S>>
    decreases steps,
{
    if steps == 0 || action is Finished {
        seq![action]
    } else {
        let event = if action is LoadPrior {
            ScanEventView::PriorLoaded(found)
        } else {
            ScanEventView::ActionDone
        };
        let (next, next_action) = view.after(event);
        seq![action] + asked_in_turn(next, next_action, found, (steps - 1) as nat)
    }
}

/// A scan that nothing stops loads, opens, builds and runs, in this order; it puts
/// earlier findings into the pipeline if, and only if, there are any, and a
/// checkpointer if, and only if, a report is asked for; and it succeeds. The storage
/// settings reach the archive and the pipeline as they are, and there is no destination.
pub proof fn law_scan_order<S>(start: ScanView<S>, found: bool)
    requires
        start.stage == Stage::LoadingPrior,
    ensures
        ({
            let seeding = if found {
                seq![ScanActionView::<S>::SeedPrior]
            } else {
                Seq::empty()
            };
            let attaching = match start.report_path {
                Some(path) => seq![
                    ScanActionView::AttachCheckpointer {
                        path,
                        interval: start.interval,
                        backstop_secs: 30,
                    },
                ],
                None => Seq::empty(),
            };
            asked_in_turn(start, start.asked(), found, 6) == seq![
                ScanActionView::LoadPrior {
                    resume: start.resume,
                    report_path: start.report_path,
                },
                ScanActionView::OpenSource {
                    url: start.archive,
                    storage_config: start.storage_config,
                },
                ScanActionView::BuildPipeline {
                    low: start.low,
                    high: start.high,
                    config: start.config,
                    storage_config: start.storage_config,
                    destination: None,
                    report_path: start.report_path,
                },
            ] + seeding + attaching + seq![
                ScanActionView::RunPipeline,
                ScanActionView::Finished(ScanOutcomeView::Succeeded),
            ]
        }),
{
    reveal_with_fuel(asked_in_turn, 7);
}

/// A failure ends the scan at once, with nothing more to do; only one to open the
/// archive is told in words of its own.
pub proof fn law_failure_ends_scan<S>(view: ScanView<S>, message: Seq<char>)
    ensures
        ({
            let (next, action) = view.after(ScanEventView::Failed(message));
            next.stage == Stage::Over && action == ScanActionView::<S>::Finished(
                if view.stage == Stage::OpeningSource {
                    ScanOutcomeView::SourceFailed("Failed to create source backend: "@ + message)
                } else {
                    ScanOutcomeView::ActionFailed
                },
            )
        }),
{
}

/// The pipeline of a scan has the settings of the command line: each under its own name,
/// and history and buckets are not skipped.
pub proof fn law_settings_are_those_asked_for<S>(args: GlobalArgs<S>)
    ensures
        scan_config(args).concurrency == args.concurrency,
        scan_config(args).skip_optional == args.skip_optional,
        scan_config(args).verify == args.verify,
        !scan_config(args).skip_history_and_buckets,
{
}

/// Actions, events and outcomes of a scan are seen as what they hold.
pub proof fn law_scan_views<S>(action: ScanAction<S>, event: ScanEvent)
    ensures
        match action {
            ScanAction::LoadPrior { resume, report_path } => action@ == (
            ScanActionView::<S>::LoadPrior {
                resume,
                report_path: match report_path {
                    Some(path) => Some(path@),
                    None => None,
                },
            }),
            ScanAction::OpenSource { url, storage_config } => action@ == (
            ScanActionView::OpenSource { url: url@, storage_config: *storage_config }),
            ScanAction::BuildPipeline {
                low,
                high,
                config,
                storage_config,
                destination,
                report_path,
            } => action@ == (ScanActionView::BuildPipeline {
                low,
                high,
                config,
                storage_config: *storage_config,
                destination: match destination {
                    Some(path) => Some(path@),
                    None => None,
                },
                report_path: match report_path {
                    Some(path) => Some(path@),
                    None => None,
                },
            }),
            ScanAction::SeedPrior => action@ == ScanActionView::<S>::SeedPrior,
            ScanAction::AttachCheckpointer { path, interval, backstop_secs } => action@ == (
            ScanActionView::<S>::AttachCheckpointer { path: path@, interval, backstop_secs }),
            ScanAction::RunPipeline => action@ == ScanActionView::<S>::RunPipeline,
            ScanAction::Finished(ScanOutcome::Succeeded) => action@
                == ScanActionView::<S>::Finished(ScanOutcomeView::Succeeded),
            ScanAction::Finished(ScanOutcome::SourceFailed(message)) => action@
                == ScanActionView::<S>::Finished(ScanOutcomeView::SourceFailed(message@)),
            ScanAction::Finished(ScanOutcome::ActionFailed) => action@
                == ScanActionView::<S>::Finished(ScanOutcomeView::ActionFailed),
        },
        match event {
            ScanEvent::PriorLoaded(found) => event@ == ScanEventView::PriorLoaded(found),
            ScanEvent::ActionDone => event@ == ScanEventView::ActionDone,
            ScanEvent::Failed(message) => event@ == ScanEventView::Failed(message@),
        },
{
}

/// Nothing that a scan was started with changes while it goes on, but whether there are
/// earlier findings, which loading them tells.
pub proof fn law_scan_keeps_settings<S>(view: ScanView<S>, event: ScanEventView)
    ensures
        ({
            let next = view.after(event).0;
            &&& next.archive == view.archive
            &&& next.low == view.low
            &&& next.high == view.high
            &&& next.config == view.config
            &&& next.resume == view.resume
            &&& next.report_path == view.report_path
            &&& next.interval == view.interval
            &&& next.storage_config == view.storage_config
            &&& view.stage == Stage::LoadingPrior && event == ScanEventView::PriorLoaded(true)
                ==> next.prior
            &&& view.stage == Stage::LoadingPrior && event == ScanEventView::PriorLoaded(false)
                ==> !next.prior
            &&& view.stage != Stage::LoadingPrior ==> next.prior == view.prior
        }),
{
}

} // verus!
