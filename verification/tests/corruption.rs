use rand::rngs::StdRng;
use rand::seq::SliceRandom;
use rand::SeedableRng;
use stellar_archivist::corruption::{
    apply, files_matching, finished, go_on_with, has_many_entries, last_greatest, Action, Damage,
    Event, Step, Target,
};
use stellar_archivist::kinds::{Kind, ALL_KINDS};
use stellar_archivist::ledger::{
    read_and_parse_ledger_file, recompute_entry_hash, write_ledger_header_entries_to_file,
    LedgerEntry, LedgerHeader,
};
use stellar_archivist::run::{run, Manifest};
use stellar_xdr::curr::{LedgerHeader as XdrHeader, Limits, WriteXdr};

fn ledger_file(first: u32, n: u32) -> Vec<u8> {
    let rest = XdrHeader::default().to_xdr(Limits::none()).unwrap();
    let mut entries: Vec<LedgerEntry> = Vec::new();
    for i in 0..n {
        let mut entry = LedgerEntry {
            hash: [0; 32],
            header: LedgerHeader {
                previous_ledger_hash: entries.last().map_or([0; 32], |e| e.hash),
                tx_set_hash: [1; 32],
                tx_set_result_hash: [2; 32],
                ledger_seq: first + i,
                rest: rest.clone(),
            },
        };
        recompute_entry_hash(&mut entry).unwrap();
        entries.push(entry);
    }
    write_ledger_header_entries_to_file(&entries).unwrap()
}

const ROOT: &str = "/archive/.well-known/stellar-history.json";

/// An archive in memory: paths and contents.
fn archive() -> Vec<(String, Vec<u8>)> {
    let files = vec![
        ("/archive/bucket/aa/bucket-aa.xdr.gz", b"bucket".to_vec()),
        ("/archive/ledger/00/ledger-0000003f.xdr.gz", ledger_file(1, 1)),
        ("/archive/ledger/00/ledger-0000007f.xdr.gz", ledger_file(64, 64)),
        ("/archive/ledger/00/ledger-000000bf.xdr.gz", ledger_file(128, 3)),
        ("/archive/transactions/00/transactions-0000003f.xdr.gz", b"tx".to_vec()),
        (ROOT, b"{}".to_vec()),
    ];
    files.into_iter().map(|(p, d)| (p.to_string(), d)).collect()
}

fn find(files: &[(String, Vec<u8>)], path: &str) -> Option<usize> {
    files.iter().position(|(p, _)| p == path)
}

fn path_of(listing: &[String], target: Target) -> String {
    match target {
        Target::Listed(i) => listing[i].clone(),
        Target::RootState => ROOT.to_string(),
    }
}

/// Performs an action on an archive in memory.
fn perform(files: &mut Vec<(String, Vec<u8>)>, listing: &mut Vec<String>, action: Action) -> Event {
    match action {
        Action::ListFiles => {
            *listing = files.iter().map(|(p, _)| p.clone()).collect();
            Event::Listed(listing.clone())
        }
        Action::ReadFile(target) => {
            let path = path_of(listing, target);
            Event::Contents(find(files, &path).map(|at| files[at].1.clone()))
        }
        Action::WriteFile(target, data) => {
            let path = path_of(listing, target);
            match find(files, &path) {
                Some(at) => {
                    files[at].1 = data;
                    Event::Stored(true)
                }
                None => Event::Stored(false),
            }
        }
        Action::RemoveFile(i) => match find(files, &listing[i]) {
            Some(at) => {
                files.remove(at);
                Event::Stored(true)
            }
            None => Event::Stored(false),
        },
        Action::Finished(_) => panic!("nothing to perform"),
    }
}

fn apply_to(files: &mut Vec<(String, Vec<u8>)>, kind: &str, seed: u64) -> Option<Damage> {
    let mut rng = StdRng::seed_from_u64(seed);
    let mut listing = Vec::new();
    let (mut state, mut action) = apply("/archive", kind);
    loop {
        if let Action::Finished(damage) = action {
            return damage;
        }
        let event = perform(files, &mut listing, action);
        (state, action) = state.resume(event, &mut rng);
    }
}

#[test]
fn each_kind_changes_exactly_the_file_it_reports() {
    for kind in ALL_KINDS {
        for seed in 0..5 {
            let before = archive();
            let mut after = archive();
            let damage = apply_to(&mut after, kind, seed).unwrap();
            assert_eq!(damage.kind, kind);
            let changed: Vec<&str> = before
                .iter()
                .filter(|(p, d)| match find(&after, p) {
                    Some(at) => after[at].1 != *d,
                    None => true,
                })
                .map(|(p, _)| p.as_str())
                .collect();
            assert_eq!(changed, vec![format!("/archive/{}", damage.key).as_str()]);
        }
    }
}

#[test]
fn the_file_is_picked_as_rand_picks_it() {
    for seed in 0..20 {
        let mut files = archive();
        let damage = apply_to(&mut files, "truncate", seed).unwrap();
        let listed: Vec<String> = archive()
            .iter()
            .map(|(p, _)| p.clone())
            .filter(|p| p.contains(".xdr.gz"))
            .collect();
        let mut rng = StdRng::seed_from_u64(seed);
        let expected = listed.choose(&mut rng).unwrap();
        assert_eq!(format!("/archive/{}", damage.key), *expected);
        let at = find(&files, expected).unwrap();
        assert!(files[at].1.is_empty());
    }
}

#[test]
fn kinds_are_for_their_own_files() {
    let paths: Vec<String> = archive().iter().map(|(p, _)| p.clone()).collect();
    assert_eq!(files_matching(Kind::DeleteFile, &paths), vec![0, 1, 2, 3, 4]);
    assert_eq!(files_matching(Kind::Truncate, &paths), vec![0, 1, 2, 3, 4]);
    assert_eq!(files_matching(Kind::InvalidGzip, &paths), vec![0]);
    assert_eq!(files_matching(Kind::DropLedger, &paths), vec![1, 2, 3]);
    assert_eq!(files_matching(Kind::WellKnown, &paths), Vec::<usize>::new());
    let windows = vec!["C:\\a\\ledger-1.xdr.gz".to_string()];
    assert_eq!(files_matching(Kind::CrossChain, &windows), vec![0]);
}

#[test]
fn only_files_with_many_entries_lose_one() {
    for seed in 0..10 {
        let mut files = archive();
        let damage = apply_to(&mut files, "drop-ledger", seed).unwrap();
        assert_ne!(damage.key, "ledger/00/ledger-0000003f.xdr.gz");
    }
    let mut single = archive();
    single.retain(|(p, _)| !p.contains("7f") && !p.contains("bf"));
    assert!(apply_to(&mut single, "drop-ledger", 1).is_none());
    assert!(apply_to(&mut single, "intra-chain", 1).is_none());
}

#[test]
fn a_boundary_is_broken_at_the_highest_checkpoint() {
    let mut files = archive();
    files.swap(1, 3);
    let damage = apply_to(&mut files, "cross-chain", 3).unwrap();
    assert_eq!(damage.key, "ledger/00/ledger-000000bf.xdr.gz");
    let at = find(&files, "/archive/ledger/00/ledger-000000bf.xdr.gz").unwrap();
    let entries = read_and_parse_ledger_file(&files[at].1).unwrap();
    assert_eq!(entries[0].header.previous_ledger_hash, [0xCD; 32]);
    assert_eq!(entries.len(), 3);
}

#[test]
fn of_equal_paths_the_last_is_greatest() {
    let paths: Vec<String> = ["b", "a", "b", "ab"].iter().map(|p| p.to_string()).collect();
    assert_eq!(last_greatest(&paths, &vec![0, 1, 2, 3]), Some(2));
    assert_eq!(last_greatest(&paths, &vec![1, 3]), Some(3));
    assert_eq!(last_greatest(&paths, &vec![]), None);
}

#[test]
fn an_unknown_kind_breaks_nothing() {
    let (_, action) = apply("/archive", "meteor");
    assert!(matches!(action, Action::Finished(None)));
}

#[test]
fn a_file_already_damaged_is_skipped() {
    let mut files = archive();
    for (path, data) in files.iter_mut() {
        if path.contains("/ledger-") {
            *data = b"not gzip at all".to_vec();
        }
    }
    let before = files.clone();
    for kind in ["ledger-header-hash", "drop-ledger", "txset-hash", "result-hash", "intra-chain", "cross-chain"] {
        assert!(apply_to(&mut files, kind, 5).is_none());
    }
    assert_eq!(files, before);
    assert!(!has_many_entries(&Some(b"not gzip at all".to_vec())));
    assert!(!has_many_entries(&None));
    assert!(!has_many_entries(&Some(ledger_file(1, 1))));
    assert!(has_many_entries(&Some(ledger_file(1, 2))));
}

#[test]
fn a_failed_read_or_write_breaks_nothing() {
    let paths: Vec<String> = vec!["/archive/bucket-1.xdr.gz".to_string()];
    let (state, action) = go_on_with(Kind::ByteFlip, "/archive", &paths, Some(0));
    assert!(matches!(action, Action::ReadFile(Target::Listed(0))));
    match state.settle(Event::Contents(None)) {
        Step::Act(_, Action::Finished(None)) => {}
        _ => panic!("nothing was read"),
    }
    let (state, action) = go_on_with(Kind::DeleteFile, "/archive", &paths, Some(0));
    assert!(matches!(action, Action::RemoveFile(0)));
    match state.settle(Event::Stored(false)) {
        Step::Act(_, Action::Finished(None)) => {}
        _ => panic!("nothing was removed"),
    }
    let (_, action) = go_on_with(Kind::DeleteFile, "/elsewhere", &paths, Some(0));
    assert!(matches!(action, Action::Finished(None)));
    let (_, action) = go_on_with(Kind::DeleteFile, "/archive", &paths, None);
    assert!(matches!(action, Action::Finished(None)));
}

#[test]
fn a_choice_is_left_to_the_caller_of_settle() {
    let (state, _) = apply("/archive", "invalid-gzip");
    let listing = archive().iter().map(|(p, _)| p.clone()).collect();
    match state.settle(Event::Listed(listing)) {
        Step::Pick { kind, candidates, .. } => {
            assert_eq!(kind, Kind::InvalidGzip);
            assert_eq!(candidates, vec![0]);
        }
        _ => panic!("a file is to be picked"),
    }
}

fn run_on(files: &mut Vec<(String, Vec<u8>)>, kinds: &[&str], count: usize, seed: u64) -> Manifest {
    let names = kinds.iter().map(|k| k.to_string()).collect();
    let mut run = run("/archive", names, count, seed);
    let mut listing = Vec::new();
    while let Some(mut action) = run.next_round() {
        while !matches!(action, Action::Finished(_)) {
            let event = perform(files, &mut listing, action);
            action = run.resume(event);
        }
    }
    assert_eq!(run.rounds_left(), 0);
    run.manifest()
}

#[test]
fn a_run_breaks_at_most_count_files() {
    let mut files = archive();
    let manifest = run_on(&mut files, &ALL_KINDS, 15, 3);
    assert!(manifest.items.len() <= 15);
    assert!(!manifest.items.is_empty());
    for damage in &manifest.items {
        assert!(ALL_KINDS.contains(&damage.kind.as_str()));
    }
}

#[test]
fn a_run_is_repeated_by_its_seed() {
    let mut first = archive();
    let mut second = archive();
    let a = run_on(&mut first, &ALL_KINDS, 10, 1);
    let b = run_on(&mut second, &ALL_KINDS, 10, 1);
    let pairs = |m: &Manifest| -> Vec<(String, String)> {
        m.items.iter().map(|d| (d.kind.clone(), d.key.clone())).collect()
    };
    assert_eq!(pairs(&a), pairs(&b));
    assert_eq!(first, second);
}

#[test]
fn a_run_picks_its_kinds_by_the_seed() {
    for seed in 0..20 {
        let manifest = run_on(&mut archive(), &ALL_KINDS, 1, seed);
        let mut rng = StdRng::seed_from_u64(seed);
        let expected = ALL_KINDS.choose(&mut rng).unwrap();
        assert_eq!(manifest.items.len(), 1);
        assert_eq!(manifest.items[0].kind, *expected);
    }
}

#[test]
fn a_longer_run_goes_on_from_a_shorter() {
    let pairs = |m: &Manifest| -> Vec<(String, String)> {
        m.items.iter().map(|d| (d.kind.clone(), d.key.clone())).collect()
    };
    // No kind in these undoes another, so the manifest is the record of the rounds.
    let kinds = ["delete-file", "ledger-header-hash"];
    let long = pairs(&run_on(&mut archive(), &kinds, 4, 2));
    for n in 0..4 {
        let short = pairs(&run_on(&mut archive(), &kinds, n, 2));
        assert_eq!(short[..], long[..short.len()]);
    }
}

/// The paths whose contents differ.
fn differing(before: &[(String, Vec<u8>)], after: &[(String, Vec<u8>)]) -> Vec<String> {
    let mut paths: Vec<String> = before.iter().chain(after).map(|(p, _)| p.clone()).collect();
    paths.sort();
    paths.dedup();
    let held = |files: &[(String, Vec<u8>)], p: &str| find(files, p).map(|at| files[at].1.clone());
    paths.into_iter().filter(|p| held(before, p) != held(after, p)).collect()
}

#[test]
fn the_manifest_names_exactly_the_files_that_changed() {
    for seed in 0..30 {
        for kinds in [&ALL_KINDS[..], &["byte-flip"][..], &["byte-flip", "truncate"][..]] {
            let before = archive();
            let mut after = archive();
            let manifest = run_on(&mut after, kinds, 12, seed);
            let mut named: Vec<String> =
                manifest.items.iter().map(|d| format!("/archive/{}", d.key)).collect();
            named.sort();
            named.dedup();
            assert_eq!(named, differing(&before, &after));
        }
    }
}

#[test]
fn a_file_flipped_twice_is_not_in_the_manifest() {
    let one = || vec![("/archive/a.xdr.gz".to_string(), vec![1u8, 2, 3])];
    let mut files = one();
    assert!(run_on(&mut files, &["byte-flip"], 2, 5).items.is_empty());
    assert_eq!(files, one());
    assert_eq!(run_on(&mut files, &["byte-flip"], 3, 5).items.len(), 3);
    assert_eq!(files[0].1, vec![254, 253, 252]);
    let mut empty = vec![("/archive/a.xdr.gz".to_string(), Vec::new())];
    assert!(run_on(&mut empty, &["truncate"], 1, 5).items.is_empty());
}

#[test]
fn a_file_that_cannot_be_read_is_named_once_it_is_changed() {
    // The only file is listed, cannot be read, and is removed.
    let mut r = run("/archive", vec!["delete-file".to_string()], 1, 1);
    assert!(matches!(r.next_round(), Some(Action::ListFiles)));
    let listing = Event::Listed(vec!["/archive/a.xdr.gz".to_string()]);
    assert!(matches!(r.resume(listing), Action::ReadFile(Target::Listed(0))));
    assert!(matches!(r.resume(Event::Contents(None)), Action::RemoveFile(0)));
    assert!(matches!(r.resume(Event::Stored(true)), Action::Finished(Some(_))));
    assert_eq!(r.manifest().items.len(), 1);
    assert_eq!(r.manifest().items[0].key, "a.xdr.gz");

    // It could not be removed.
    let mut r = run("/archive", vec!["delete-file".to_string()], 1, 1);
    r.next_round();
    r.resume(Event::Listed(vec!["/archive/a.xdr.gz".to_string()]));
    r.resume(Event::Contents(None));
    assert!(matches!(r.resume(Event::Stored(false)), Action::Finished(None)));
    assert!(r.manifest().items.is_empty());
    assert_eq!(r.corruptions_made(), 0);

    // It is emptied first, and removed afterwards.
    let kinds = vec!["truncate".to_string(), "delete-file".to_string()];
    let seed = (0..1000)
        .find(|seed| {
            let mut rng = StdRng::seed_from_u64(*seed);
            let first = kinds.choose(&mut rng) == Some(&kinds[0]);
            let _ = [0].choose(&mut rng);
            first && kinds.choose(&mut rng) == Some(&kinds[1])
        })
        .unwrap();
    let mut r = run("/archive", kinds, 2, seed);
    for _ in 0..2 {
        assert!(matches!(r.next_round(), Some(Action::ListFiles)));
        r.resume(Event::Listed(vec!["/archive/a.xdr.gz".to_string()]));
        r.resume(Event::Contents(None));
        assert!(matches!(r.resume(Event::Stored(true)), Action::Finished(Some(_))));
    }
    assert_eq!(r.corruptions_made(), 2);
    let named: Vec<String> = r.manifest().items.iter().map(|d| d.kind.clone()).collect();
    assert_eq!(named, vec!["truncate", "delete-file"]);
}

#[test]
fn an_archive_that_is_a_file_is_damaged_itself() {
    let listing = vec!["/tmp/a.xdr.gz".to_string()];
    let (state, action) = go_on_with(Kind::Truncate, "/tmp/a.xdr.gz", &listing, Some(0));
    assert!(matches!(action, Action::WriteFile(Target::Listed(0), _)));
    match state.settle(Event::Stored(true)) {
        Step::Act(_, Action::Finished(Some(damage))) => assert_eq!(damage.key, ""),
        _ => panic!("the file was damaged"),
    }
}

#[test]
fn a_run_without_known_kinds_breaks_nothing() {
    let mut files = archive();
    assert!(run_on(&mut files, &[], 4, 1).items.is_empty());
    assert!(run_on(&mut files, &["meteor"], 4, 1).items.is_empty());
    assert!(run_on(&mut files, &["truncate"], 0, 1).items.is_empty());
    assert_eq!(files, archive());
}

#[test]
fn a_file_is_read_before_it_is_changed() {
    let mut r = run("/archive", vec!["well-known".to_string()], 1, 1);
    let action = r.next_round().unwrap();
    assert!(matches!(action, Action::ReadFile(Target::RootState)));
    match r.resume(Event::Contents(None)) {
        Action::WriteFile(Target::RootState, data) => {
            assert_eq!(data, b"{ invalid json }}}".to_vec());
        }
        _ => panic!("the root state file is to be written"),
    }
    match r.resume(Event::Stored(true)) {
        Action::Finished(Some(damage)) => {
            assert_eq!(damage.kind, "well-known");
            assert_eq!(damage.key, ".well-known/stellar-history.json");
        }
        _ => panic!("the round is over"),
    }
    assert_eq!(r.manifest().items.len(), 1);
    assert!(r.next_round().is_none());
    assert!(finished().storing_path().is_none());
    assert!(Manifest::default().items.is_empty());
}
