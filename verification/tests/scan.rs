use stellar_archivist::scan::{
    GlobalArgs, PipelineConfig, ScanAction, ScanCmd, ScanEvent, ScanOutcome, ScanRun,
};

/// The settings of some storage.
#[derive(Debug, PartialEq)]
struct Settings {
    retries: u32,
}

const SETTINGS: Settings = Settings { retries: 3 };

fn start(report_path: Option<&str>) -> (ScanRun<'static, Settings>, ScanAction<'static, Settings>) {
    let cmd = ScanCmd {
        archive: "file:///archive".to_string(),
        low: Some(63),
        high: None,
    };
    cmd.run(GlobalArgs {
        concurrency: 8,
        skip_optional: true,
        verify: true,
        resume: true,
        report_path: report_path.map(|p| p.to_string()),
        checkpoint_interval: 200,
        storage_config: &SETTINGS,
    })
}

/// The names of the actions of a scan in which nothing fails.
fn actions(report_path: Option<&str>, found: bool) -> Vec<&'static str> {
    let (mut scan, mut action) = start(report_path);
    let mut names = Vec::new();
    loop {
        let (name, event) = match action {
            ScanAction::LoadPrior { resume, report_path: path } => {
                assert!(resume);
                assert_eq!(path.as_deref(), report_path);
                ("load", ScanEvent::PriorLoaded(found))
            }
            ScanAction::OpenSource { url, storage_config } => {
                assert_eq!(url, "file:///archive");
                assert_eq!(*storage_config, SETTINGS);
                ("open", ScanEvent::ActionDone)
            }
            ScanAction::BuildPipeline {
                low,
                high,
                config,
                storage_config,
                destination,
                report_path: path,
            } => {
                assert_eq!(*storage_config, SETTINGS);
                assert_eq!(destination, None);
                assert_eq!((low, high), (Some(63), None));
                assert_eq!(
                    config,
                    PipelineConfig {
                        concurrency: 8,
                        skip_optional: true,
                        skip_history_and_buckets: false,
                        verify: true,
                    }
                );
                assert_eq!(path.as_deref(), report_path);
                ("build", ScanEvent::ActionDone)
            }
            ScanAction::SeedPrior => ("seed", ScanEvent::ActionDone),
            ScanAction::AttachCheckpointer { path, interval, backstop_secs } => {
                assert_eq!(Some(path.as_str()), report_path);
                assert_eq!((interval, backstop_secs), (200, 30));
                ("attach", ScanEvent::ActionDone)
            }
            ScanAction::RunPipeline => ("run", ScanEvent::ActionDone),
            ScanAction::Finished(outcome) => {
                assert!(matches!(outcome, ScanOutcome::Succeeded));
                return names;
            }
        };
        names.push(name);
        action = scan.resume(event);
    }
}

#[test]
fn a_plain_scan_opens_builds_and_runs() {
    assert_eq!(actions(None, false), vec!["load", "open", "build", "run"]);
}

#[test]
fn earlier_findings_are_seeded_and_reports_checkpointed() {
    assert_eq!(actions(None, true), vec!["load", "open", "build", "seed", "run"]);
    assert_eq!(
        actions(Some("r.json"), false),
        vec!["load", "open", "build", "attach", "run"]
    );
    assert_eq!(
        actions(Some("r.json"), true),
        vec!["load", "open", "build", "seed", "attach", "run"]
    );
}

#[test]
fn an_archive_that_cannot_be_opened_is_told() {
    let (mut scan, _) = start(None);
    scan.resume(ScanEvent::PriorLoaded(false));
    match scan.resume(ScanEvent::Failed("no such host".to_string())) {
        ScanAction::Finished(ScanOutcome::SourceFailed(message)) => {
            assert_eq!(message, "Failed to create source backend: no such host");
        }
        _ => panic!("the scan must end"),
    }
}

#[test]
fn another_failure_ends_the_scan() {
    let (mut scan, _) = start(None);
    let action = scan.resume(ScanEvent::Failed("bad report".to_string()));
    assert!(matches!(action, ScanAction::Finished(ScanOutcome::ActionFailed)));
    let (mut scan, _) = start(None);
    scan.resume(ScanEvent::PriorLoaded(false));
    scan.resume(ScanEvent::ActionDone);
    scan.resume(ScanEvent::ActionDone);
    let action = scan.resume(ScanEvent::Failed("3 files missing".to_string()));
    assert!(matches!(action, ScanAction::Finished(ScanOutcome::ActionFailed)));
}
