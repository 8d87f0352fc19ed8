use project_scout::catalog::default_catalog;
use project_scout::paths::ScanPath;
use project_scout::scan::{candidates_for, run_scan, Report, ScanState};

fn sp(segments: &[&str]) -> ScanPath {
    ScanPath::new(segments.iter().map(|s| s.to_string()).collect())
}

fn paths(list: &[&[&str]]) -> Vec<ScanPath> {
    list.iter().map(|segs| sp(segs)).collect()
}

fn report_pairs(reports: &[Report]) -> Vec<(String, Vec<String>)> {
    reports
        .iter()
        .map(|r| (r.project_name.clone(), r.root.segments.clone()))
        .collect()
}

fn owned(segs: &[&str]) -> Vec<String> {
    segs.iter().map(|s| s.to_string()).collect()
}

#[test]
fn default_catalog_contents() {
    let cat = default_catalog();
    let names: Vec<String> = cat.iter().map(|p| p.name.clone()).collect();
    assert_eq!(names, vec!["Javascript", "PHP", "Python", "Rust", "Swift"]);
    assert_eq!(cat[2].configurations.len(), 2);
    assert_eq!(cat[0].configurations[0].relative_targets, vec!["node_modules".to_string()]);
    assert_eq!(cat[2].configurations[1].relative_targets, vec!["".to_string()]);
}

#[test]
fn candidates_for_a_manifest() {
    let cat = default_catalog();
    let cands = candidates_for(&cat, &sp(&["root", "pkgA", "package.json"]));
    assert_eq!(cands.len(), 1);
    assert_eq!(cands[0].project_name, "Javascript");
    assert_eq!(cands[0].root.segments, owned(&["root", "pkgA"]));
    assert_eq!(cands[0].target.segments, owned(&["root", "pkgA", "node_modules"]));
}

#[test]
fn candidates_for_empty_relative_target() {
    // pyvenv.cfg probes its own directory: the empty relative target.
    let cat = default_catalog();
    let cands = candidates_for(&cat, &sp(&["root", "a", "pyvenv.cfg"]));
    assert_eq!(cands.len(), 1);
    assert_eq!(cands[0].project_name, "Python");
    assert_eq!(cands[0].root.segments, owned(&["root", "a"]));
    assert_eq!(cands[0].target.segments, owned(&["root", "a"]));
}

#[test]
fn candidates_for_non_manifest_entry() {
    let cat = default_catalog();
    let cands = candidates_for(&cat, &sp(&["root", "pkgA", "index.js"]));
    assert_eq!(cands.len(), 0);
}

#[test]
fn offer_reports_only_existing_targets() {
    let mut state = ScanState::new();
    assert!(!state.offer(&sp(&["a", "target"]), false));
    assert!(state.last_reported.is_none());
    assert!(state.offer(&sp(&["a", "target"]), true));
    assert_eq!(state.last_reported.as_ref().unwrap().segments, owned(&["a", "target"]));
}

#[test]
fn offer_suppresses_nested_and_equal_candidates() {
    let mut state = ScanState::new();
    assert!(state.offer(&sp(&["a", "node_modules"]), true));
    // Equal to the last reported artifact directory: suppressed.
    assert!(!state.offer(&sp(&["a", "node_modules"]), true));
    // Nested under it: suppressed.
    assert!(!state.offer(&sp(&["a", "node_modules", "sub", "node_modules"]), true));
    // State unchanged by suppressed candidates.
    assert_eq!(state.last_reported.as_ref().unwrap().segments, owned(&["a", "node_modules"]));
}

#[test]
fn offer_judges_against_latest_report_only() {
    let mut state = ScanState::new();
    assert!(state.offer(&sp(&["a", "node_modules"]), true));
    // An intervening report elsewhere replaces the last artifact directory.
    assert!(state.offer(&sp(&["b", "target"]), true));
    // A candidate nested under the first report is no longer suppressed.
    assert!(state.offer(&sp(&["a", "node_modules", "sub", "node_modules"]), true));
}

#[test]
fn scenario_manifest_with_existing_artifact_dir() {
    let cat = default_catalog();
    let entries = paths(&[
        &["root"],
        &["root", "pkgA"],
        &["root", "pkgA", "package.json"],
        &["root", "pkgA", "node_modules"],
    ]);
    let existing = paths(&[
        &["root"],
        &["root", "pkgA"],
        &["root", "pkgA", "package.json"],
        &["root", "pkgA", "node_modules"],
    ]);
    let reports = run_scan(&cat, &entries, &existing);
    assert_eq!(
        report_pairs(&reports),
        vec![("Javascript".to_string(), owned(&["root", "pkgA"]))]
    );
}

#[test]
fn scenario_nested_manifest_without_own_artifact_dir() {
    let cat = default_catalog();
    let entries = paths(&[
        &["root"],
        &["root", "pkgA"],
        &["root", "pkgA", "package.json"],
        &["root", "pkgA", "node_modules"],
        &["root", "pkgA", "node_modules", "sub"],
        &["root", "pkgA", "node_modules", "sub", "package.json"],
    ]);
    // No node_modules next to sub: its candidate target does not exist.
    let existing = paths(&[
        &["root"],
        &["root", "pkgA"],
        &["root", "pkgA", "package.json"],
        &["root", "pkgA", "node_modules"],
        &["root", "pkgA", "node_modules", "sub"],
        &["root", "pkgA", "node_modules", "sub", "package.json"],
    ]);
    let reports = run_scan(&cat, &entries, &existing);
    assert_eq!(
        report_pairs(&reports),
        vec![("Javascript".to_string(), owned(&["root", "pkgA"]))]
    );
}

#[test]
fn scenario_nested_manifest_with_existing_artifact_dir_is_suppressed() {
    let cat = default_catalog();
    let entries = paths(&[
        &["root", "pkgA", "package.json"],
        &["root", "pkgA", "node_modules", "sub", "package.json"],
    ]);
    let existing = paths(&[
        &["root", "pkgA", "node_modules"],
        &["root", "pkgA", "node_modules", "sub", "node_modules"],
    ]);
    let reports = run_scan(&cat, &entries, &existing);
    // The nested manifest's target exists but lies inside the reported
    // artifact directory, so only the outer project is reported.
    assert_eq!(
        report_pairs(&reports),
        vec![("Javascript".to_string(), owned(&["root", "pkgA"]))]
    );
}

#[test]
fn scenario_missing_artifact_dir_means_no_report() {
    let cat = default_catalog();
    let entries = paths(&[
        &["root"],
        &["root", "proj"],
        &["root", "proj", "Cargo.toml"],
        &["root", "proj", "src"],
    ]);
    let existing = paths(&[
        &["root"],
        &["root", "proj"],
        &["root", "proj", "Cargo.toml"],
        &["root", "proj", "src"],
    ]);
    let reports = run_scan(&cat, &entries, &existing);
    assert!(reports.is_empty());
}

#[test]
fn scenario_empty_relative_target_reports_own_directory() {
    let cat = default_catalog();
    let entries = paths(&[
        &["root"],
        &["root", "a"],
        &["root", "a", "pyvenv.cfg"],
    ]);
    let existing = paths(&[
        &["root"],
        &["root", "a"],
        &["root", "a", "pyvenv.cfg"],
    ]);
    let reports = run_scan(&cat, &entries, &existing);
    assert_eq!(
        report_pairs(&reports),
        vec![("Python".to_string(), owned(&["root", "a"]))]
    );
}

#[test]
fn scenario_two_sibling_projects_both_reported() {
    let cat = default_catalog();
    let entries = paths(&[
        &["root"],
        &["root", "x"],
        &["root", "x", "Cargo.toml"],
        &["root", "x", "target"],
        &["root", "y"],
        &["root", "y", "package.json"],
        &["root", "y", "node_modules"],
    ]);
    let existing = paths(&[
        &["root"],
        &["root", "x"],
        &["root", "x", "Cargo.toml"],
        &["root", "x", "target"],
        &["root", "y"],
        &["root", "y", "package.json"],
        &["root", "y", "node_modules"],
    ]);
    let reports = run_scan(&cat, &entries, &existing);
    assert_eq!(
        report_pairs(&reports),
        vec![
            ("Rust".to_string(), owned(&["root", "x"])),
            ("Javascript".to_string(), owned(&["root", "y"])),
        ]
    );
}

#[test]
fn scenario_pycache_candidate_is_relative_to_the_matched_entry() {
    // A matched .pyc file sits inside __pycache__, so the probed candidate is
    // __pycache__/__pycache__: the rule reports only when that exists.
    let cat = default_catalog();
    let entries = paths(&[
        &["root", "proj", "__pycache__", "mod.pyc"],
    ]);
    let existing = paths(&[
        &["root", "proj", "__pycache__"],
        &["root", "proj", "__pycache__", "mod.pyc"],
    ]);
    let reports = run_scan(&cat, &entries, &existing);
    assert!(reports.is_empty());

    let existing_nested = paths(&[
        &["root", "proj", "__pycache__"],
        &["root", "proj", "__pycache__", "mod.pyc"],
        &["root", "proj", "__pycache__", "__pycache__"],
    ]);
    let reports_nested = run_scan(&cat, &entries, &existing_nested);
    assert_eq!(
        report_pairs(&reports_nested),
        vec![("Python".to_string(), owned(&["root", "proj", "__pycache__"]))]
    );
}
