use vstd::prelude::*;

verus! {

use crate::paths::ScanPath;
use crate::paths::is_prefix;
use crate::paths::is_prefix_of;
use crate::paths::path_eq;
use crate::paths::spec_join;
use crate::project::Configuration;
use crate::project::Project;
use crate::project::spec_matches;

/// One match to probe: the ecosystem's name, the directory holding the
/// matched entry, and the artifact directory whose existence decides whether
/// the match is reported.
pub struct Candidate {
    pub project_name: String,
    pub root: ScanPath,
    pub target: ScanPath,
}

/// The mathematical shadow of a `Candidate`.
pub struct CandidateModel {
    pub project_name: Seq<char>,
    pub root: Seq<Seq<char>>,
    pub target: Seq<Seq<char>>,
}

impl View for Candidate {
    type V = CandidateModel;

    open spec fn view(&self) -> CandidateModel {
        CandidateModel {
            project_name: self.project_name@,
            root: self.root@,
            target: self.target@,
        }
    }
}

impl DeepView for Candidate {
    type V = CandidateModel;

    open spec fn deep_view(&self) -> CandidateModel {
        self.view()
    }
}

/// One emitted detection: the ecosystem's name and the directory that holds
/// the matched entry.
pub struct Report {
    pub project_name: String,
    pub root: ScanPath,
}

/// The mathematical shadow of a `Report`.
pub struct ReportModel {
    pub project_name: Seq<char>,
    pub root: Seq<Seq<char>>,
}

impl View for Report {
    type V = ReportModel;

    open spec fn view(&self) -> ReportModel {
        ReportModel { project_name: self.project_name@, root: self.root@ }
    }
}

impl DeepView for Report {
    type V = ReportModel;

    open spec fn deep_view(&self) -> ReportModel {
        self.view()
    }
}

/// The one mutable value of a scan: the artifact directory of the most
/// recently emitted report, or nothing before the first report.
pub struct ScanState {
    pub last_reported: Option<ScanPath>,
}

impl View for ScanState {
    type V = Option<Seq<Seq<char>>>;

    open spec fn view(&self) -> Option<Seq<Seq<char>>> {
        match self.last_reported {
            Some(p) => Some(p@),
            None => None,
        }
    }
}

/// A candidate is suppressed when it equals, or lies inside, the artifact
/// directory of the most recent report; an empty state suppresses nothing.
pub open spec fn suppressed_by(last: Option<Seq<Seq<char>>>, candidate: Seq<Seq<char>>) -> bool {
    match last {
        Some(l) => is_prefix(l, candidate),
        None => false,
    }
}

/// Whether offering a candidate whose target exists iff `present` emits a
/// report, given the last reported artifact directory.
pub open spec fn step_emit(
    last: Option<Seq<Seq<char>>>,
    candidate: Seq<Seq<char>>,
    present: bool,
) -> bool {
    present && !suppressed_by(last, candidate)
}

/// The last-reported artifact directory after offering a candidate: the
/// candidate itself on emission, unchanged otherwise.
pub open spec fn step_next(
    last: Option<Seq<Seq<char>>>,
    candidate: Seq<Seq<char>>,
    present: bool,
) -> Option<Seq<Seq<char>>> {
    if step_emit(last, candidate, present) {
        Some(candidate)
    } else {
        last
    }
}

impl ScanState {
    pub fn new() -> (r: ScanState)
        ensures
            r@ == None::<Seq<Seq<char>>>,
    {
        ScanState { last_reported: None }
    }

    /// Decide one candidate artifact directory: report it iff it exists
    /// (`present`) and is not suppressed by the last reported one; on a
    /// report, it becomes the last reported artifact directory.
    pub fn offer(&mut self, candidate: &ScanPath, present: bool) -> (emit: bool)
        ensures
            emit == step_emit(old(self)@, candidate@, present),
            final(self)@ == step_next(old(self)@, candidate@, present),
    {
        let suppressed: bool = match &self.last_reported {
            None => false,
            Some(l) => is_prefix_of(l, candidate),
        };
        if present && !suppressed {
            self.last_reported = Some(candidate.duplicate());
            true
        } else {
            false
        }
    }
}

/// Once artifact directory `a` has been reported, every later candidate that
/// equals `a` or lies nested under it is not reported, and leaves the state
/// unchanged, for as long as no other report intervenes.
pub proof fn lemma_dedup_suppresses(a: Seq<Seq<char>>, b: Seq<Seq<char>>, present: bool)
    requires
        is_prefix(a, b),
    ensures
        !step_emit(Some(a), b, present),
        step_next(Some(a), b, present) == Some(a),
{
}

/// A candidate that is not reported leaves the state unchanged, so the last
/// reported artifact directory stands until the next report, however many
/// suppressed or absent candidates come in between.
pub proof fn lemma_no_report_keeps_state(
    last: Option<Seq<Seq<char>>>,
    candidate: Seq<Seq<char>>,
    present: bool,
)
    requires
        !step_emit(last, candidate, present),
    ensures
        step_next(last, candidate, present) == last,
{
}

/// After an intervening report of artifact directory `c`, a candidate `b` is
/// judged against `c` alone: it is emitted iff it exists and does not lie
/// under `c`, however `b` relates to the earlier artifact directory `a`.
pub proof fn lemma_dedup_after_intervening(
    a: Seq<Seq<char>>,
    c: Seq<Seq<char>>,
    b: Seq<Seq<char>>,
    present_c: bool,
    present_b: bool,
)
    requires
        step_emit(Some(a), c, present_c),
    ensures
        step_next(Some(a), c, present_c) == Some(c),
        step_emit(step_next(Some(a), c, present_c), b, present_b) == (present_b && !is_prefix(
            c,
            b,
        )),
{
}

/// The candidates a matched rule contributes: one per relative target, in
/// the rule's order, all rooted at the matched entry's directory.
pub open spec fn targets_candidates(
    name: Seq<char>,
    root: Seq<Seq<char>>,
    targets: Seq<Seq<char>>,
) -> Seq<CandidateModel>
    decreases targets.len(),
{
    if targets.len() == 0 {
        Seq::empty()
    } else {
        targets_candidates(name, root, targets.drop_last()) + seq![
            CandidateModel { project_name: name, root, target: spec_join(root, targets.last()) },
        ]
    }
}

/// The candidates one rule contributes for one entry: none unless its
/// matcher accepts the entry, one per relative target otherwise.
pub open spec fn config_candidates(
    name: Seq<char>,
    cfg: Configuration,
    path: Seq<Seq<char>>,
) -> Seq<CandidateModel> {
    if spec_matches(cfg.identifier, path) && path.len() >= 1 {
        targets_candidates(name, path.drop_last(), cfg.relative_targets.deep_view())
    } else {
        Seq::empty()
    }
}

/// The candidates a project's rules contribute for one entry, in rule order.
pub open spec fn configs_candidates(
    name: Seq<char>,
    cfgs: Seq<Configuration>,
    path: Seq<Seq<char>>,
) -> Seq<CandidateModel>
    decreases cfgs.len(),
{
    if cfgs.len() == 0 {
        Seq::empty()
    } else {
        configs_candidates(name, cfgs.drop_last(), path) + config_candidates(
            name,
            cfgs.last(),
            path,
        )
    }
}

/// The candidates the whole catalog contributes for one entry, in catalog
/// order.
pub open spec fn catalog_candidates(projects: Seq<Project>, path: Seq<Seq<char>>) -> Seq<
    CandidateModel,
>
    decreases projects.len(),
{
    if projects.len() == 0 {
        Seq::empty()
    } else {
        catalog_candidates(projects.drop_last(), path) + configs_candidates(
            projects.last().name@,
            projects.last().configurations@,
            path,
        )
    }
}

proof fn lemma_targets_candidates_step(
    name: Seq<char>,
    root: Seq<Seq<char>>,
    targets: Seq<Seq<char>>,
    k: int,
)
    requires
        0 <= k < targets.len(),
    ensures
        targets_candidates(name, root, targets.subrange(0, k + 1)) == targets_candidates(
            name,
            root,
            targets.subrange(0, k),
        ) + seq![
            CandidateModel { project_name: name, root, target: spec_join(root, targets[k]) },
        ],
{
    let s = targets.subrange(0, k + 1);
    assert(s.drop_last() =~= targets.subrange(0, k));
    assert(s.last() == targets[k]);
}

proof fn lemma_configs_candidates_step(
    name: Seq<char>,
    cfgs: Seq<Configuration>,
    path: Seq<Seq<char>>,
    j: int,
)
    requires
        0 <= j < cfgs.len(),
    ensures
        configs_candidates(name, cfgs.subrange(0, j + 1), path) == configs_candidates(
            name,
            cfgs.subrange(0, j),
            path,
        ) + config_candidates(name, cfgs[j], path),
{
    let s = cfgs.subrange(0, j + 1);
    assert(s.drop_last() =~= cfgs.subrange(0, j));
    assert(s.last() == cfgs[j]);
}

proof fn lemma_catalog_candidates_step(projects: Seq<Project>, path: Seq<Seq<char>>, i: int)
    requires
        0 <= i < projects.len(),
    ensures
        catalog_candidates(projects.subrange(0, i + 1), path) == catalog_candidates(
            projects.subrange(0, i),
            path,
        ) + configs_candidates(projects[i].name@, projects[i].configurations@, path),
{
    let s = projects.subrange(0, i + 1);
    assert(s.drop_last() =~= projects.subrange(0, i));
    assert(s.last() == projects[i]);
}

/// Every candidate the catalog yields for one visited entry, in catalog
/// order: for each project, for each of its rules whose matcher accepts the
/// entry, one candidate per relative target.
pub fn candidates_for(projects: &Vec<Project>, entry: &ScanPath) -> (r: Vec<Candidate>)
    ensures
        r.deep_view() == catalog_candidates(projects@, entry@),
{
    let mut out: Vec<Candidate> = Vec::new();
    proof {
        assert(projects@.subrange(0, 0) =~= Seq::<Project>::empty());
        assert(out.deep_view() =~= catalog_candidates(projects@.subrange(0, 0), entry@));
    }
    let mut i: usize = 0;
    while i < projects.len()
        invariant
            i <= projects@.len(),
            out.deep_view() == catalog_candidates(projects@.subrange(0, i as int), entry@),
        decreases projects@.len() - i,
    {
        let proj = &projects[i];
        proof {
            assert(proj.configurations@.subrange(0, 0) =~= Seq::<Configuration>::empty());
        }
        let mut j: usize = 0;
        while j < proj.configurations.len()
            invariant
                i < projects@.len(),
                j <= proj.configurations@.len(),
                proj == projects@[i as int],
                out.deep_view() == catalog_candidates(projects@.subrange(0, i as int), entry@)
                    + configs_candidates(
                    proj.name@,
                    proj.configurations@.subrange(0, j as int),
                    entry@,
                ),
            decreases proj.configurations@.len() - j,
        {
            let cfg = &proj.configurations[j];
            if cfg.matches(entry) {
                match entry.parent() {
                    Some(root) => {
                        proof {
                            assert(root@ == entry@.drop_last());
                            assert(cfg.relative_targets.deep_view().subrange(0, 0) =~= Seq::<
                                Seq<char>,
                            >::empty());
                        }
                        let ghost base = out.deep_view();
                        let mut k: usize = 0;
                        while k < cfg.relative_targets.len()
                            invariant
                                k <= cfg.relative_targets@.len(),
                                i < projects@.len(),
                                j < projects@[i as int].configurations@.len(),
                                proj == projects@[i as int],
                                cfg == projects@[i as int].configurations@[j as int],
                                root@ == entry@.drop_last(),
                                cfg.relative_targets.deep_view().len()
                                    == cfg.relative_targets@.len(),
                                out.deep_view() == base + targets_candidates(
                                    projects@[i as int].name@,
                                    root@,
                                    cfg.relative_targets.deep_view().subrange(0, k as int),
                                ),
                            decreases cfg.relative_targets@.len() - k,
                        {
                            let target = root.join_segment(&cfg.relative_targets[k]);
                            let c = Candidate {
                                project_name: proj.name.clone(),
                                root: root.duplicate(),
                                target,
                            };
                            proof {
                                assert(cfg.relative_targets.deep_view()[k as int]
                                    == cfg.relative_targets@[k as int]@);
                                lemma_targets_candidates_step(
                                    projects@[i as int].name@,
                                    root@,
                                    cfg.relative_targets.deep_view(),
                                    k as int,
                                );
                            }
                            let ghost pre = out.deep_view();
                            let ghost cv = c@;
                            out.push(c);
                            proof {
                                let nm = projects@[i as int].name@;
                                let tgts = cfg.relative_targets.deep_view();
                                assert(out.deep_view() =~= pre.push(cv));
                                assert(cv == CandidateModel {
                                    project_name: nm,
                                    root: root@,
                                    target: spec_join(root@, tgts[k as int]),
                                });
                                assert(out.deep_view() =~= base + targets_candidates(
                                    nm,
                                    root@,
                                    tgts.subrange(0, k as int + 1),
                                ));
                            }
                            k += 1;
                        }
                        proof {
                            assert(cfg.relative_targets.deep_view().subrange(
                                0,
                                cfg.relative_targets@.len() as int,
                            ) =~= cfg.relative_targets.deep_view());
                            assert(config_candidates(proj.name@, *cfg, entry@)
                                == targets_candidates(
                                proj.name@,
                                root@,
                                cfg.relative_targets.deep_view(),
                            ));
                        }
                    },
                    None => {
                        proof {
                            assert(false);
                        }
                    },
                }
            } else {
                proof {
                    assert(config_candidates(proj.name@, *cfg, entry@) =~= Seq::<
                        CandidateModel,
                    >::empty());
                }
            }
            proof {
                lemma_configs_candidates_step(
                    proj.name@,
                    proj.configurations@,
                    entry@,
                    j as int,
                );
            }
            j += 1;
        }
        proof {
            assert(proj.configurations@.subrange(0, proj.configurations@.len() as int)
                =~= proj.configurations@);
            lemma_catalog_candidates_step(projects@, entry@, i as int);
        }
        i += 1;
    }
    proof {
        assert(projects@.subrange(0, projects@.len() as int) =~= projects@);
    }
    out
}

/// The scan state and the reports after deciding a sequence of candidates in
/// order, starting from `last`, where a candidate's target exists iff it is
/// among `existing`.
pub open spec fn candidates_scan(
    last: Option<Seq<Seq<char>>>,
    cands: Seq<CandidateModel>,
    existing: Seq<Seq<Seq<char>>>,
) -> (Option<Seq<Seq<char>>>, Seq<ReportModel>)
    decreases cands.len(),
{
    if cands.len() == 0 {
        (last, Seq::empty())
    } else {
        let prev = candidates_scan(last, cands.drop_last(), existing);
        let c = cands.last();
        let present = existing.contains(c.target);
        if step_emit(prev.0, c.target, present) {
            (
                Some(c.target),
                prev.1.push(ReportModel { project_name: c.project_name, root: c.root }),
            )
        } else {
            prev
        }
    }
}

/// The scan state and the reports after visiting a sequence of entries in
/// order: each entry contributes its catalog candidates, decided in order.
pub open spec fn entries_scan(
    last: Option<Seq<Seq<char>>>,
    projects: Seq<Project>,
    entries: Seq<Seq<Seq<char>>>,
    existing: Seq<Seq<Seq<char>>>,
) -> (Option<Seq<Seq<char>>>, Seq<ReportModel>)
    decreases entries.len(),
{
    if entries.len() == 0 {
        (last, Seq::empty())
    } else {
        let prev = entries_scan(last, projects, entries.drop_last(), existing);
        let step = candidates_scan(
            prev.0,
            catalog_candidates(projects, entries.last()),
            existing,
        );
        (step.0, prev.1 + step.1)
    }
}

/// The full scan: the ordered reports for a catalog, a traversal's entries
/// in traversal order, and the set of paths that exist, starting with no
/// report emitted.
pub open spec fn spec_scan(
    projects: Seq<Project>,
    entries: Seq<Seq<Seq<char>>>,
    existing: Seq<Seq<Seq<char>>>,
) -> Seq<ReportModel> {
    entries_scan(None, projects, entries, existing).1
}

proof fn lemma_candidates_scan_step(
    last: Option<Seq<Seq<char>>>,
    cands: Seq<CandidateModel>,
    existing: Seq<Seq<Seq<char>>>,
    k: int,
)
    requires
        0 <= k < cands.len(),
    ensures
        candidates_scan(last, cands.subrange(0, k + 1), existing) == ({
            let prev = candidates_scan(last, cands.subrange(0, k), existing);
            let c = cands[k];
            let present = existing.contains(c.target);
            if step_emit(prev.0, c.target, present) {
                (
                    Some(c.target),
                    prev.1.push(ReportModel { project_name: c.project_name, root: c.root }),
                )
            } else {
                prev
            }
        }),
{
    let s = cands.subrange(0, k + 1);
    assert(s.drop_last() =~= cands.subrange(0, k));
    assert(s.last() == cands[k]);
}

proof fn lemma_entries_scan_step(
    last: Option<Seq<Seq<char>>>,
    projects: Seq<Project>,
    entries: Seq<Seq<Seq<char>>>,
    existing: Seq<Seq<Seq<char>>>,
    i: int,
)
    requires
        0 <= i < entries.len(),
    ensures
        entries_scan(last, projects, entries.subrange(0, i + 1), existing) == ({
            let prev = entries_scan(last, projects, entries.subrange(0, i), existing);
            let step = candidates_scan(
                prev.0,
                catalog_candidates(projects, entries[i]),
                existing,
            );
            (step.0, prev.1 + step.1)
        }),
{
    let s = entries.subrange(0, i + 1);
    assert(s.drop_last() =~= entries.subrange(0, i));
    assert(s.last() == entries[i]);
}

/// Whether `p` is among `existing`: the model of an existence check against
/// a recorded set of live paths.
pub fn contains_path(existing: &Vec<ScanPath>, p: &ScanPath) -> (r: bool)
    ensures
        r == existing.deep_view().contains(p@),
{
    let mut i: usize = 0;
    while i < existing.len()
        invariant
            i <= existing@.len(),
            forall|j: int| 0 <= j < i ==> existing.deep_view()[j] != p@,
        decreases existing@.len() - i,
    {
        if path_eq(&existing[i], p) {
            proof {
                assert(existing.deep_view()[i as int] == p@);
            }
            return true;
        }
        i += 1;
    }
    proof {
        assert forall|j: int| 0 <= j < existing.deep_view().len() implies existing.deep_view()[j]
            != p@ by {
        }
    }
    false
}

/// Run the whole scan over a recorded traversal: `entries` in traversal
/// order, `existing` the paths that exist on the filesystem. Produces the
/// ordered reports of `spec_scan`: per entry, per catalog rule that matches,
/// per relative target in rule order, a report iff the target exists and is
/// not suppressed by the most recently reported artifact directory.
pub fn run_scan(projects: &Vec<Project>, entries: &Vec<ScanPath>, existing: &Vec<ScanPath>) -> (r:
    Vec<Report>)
    ensures
        r.deep_view() == spec_scan(projects@, entries.deep_view(), existing.deep_view()),
{
    let mut state = ScanState::new();
    let mut reports: Vec<Report> = Vec::new();
    proof {
        assert(entries.deep_view().subrange(0, 0) =~= Seq::<Seq<Seq<char>>>::empty());
        assert(reports.deep_view() =~= Seq::<ReportModel>::empty());
    }
    let mut i: usize = 0;
    while i < entries.len()
        invariant
            i <= entries@.len(),
            entries.deep_view().len() == entries@.len(),
            state@ == entries_scan(
                None,
                projects@,
                entries.deep_view().subrange(0, i as int),
                existing.deep_view(),
            ).0,
            reports.deep_view() == entries_scan(
                None,
                projects@,
                entries.deep_view().subrange(0, i as int),
                existing.deep_view(),
            ).1,
        decreases entries@.len() - i,
    {
        let entry = &entries[i];
        let cands = candidates_for(projects, entry);
        let ghost prev = entries_scan(
            None,
            projects@,
            entries.deep_view().subrange(0, i as int),
            existing.deep_view(),
        );
        proof {
            assert(entry@ == entries.deep_view()[i as int]);
            assert(cands.deep_view().subrange(0, 0) =~= Seq::<CandidateModel>::empty());
        }
        let mut k: usize = 0;
        while k < cands.len()
            invariant
                k <= cands@.len(),
                cands.deep_view().len() == cands@.len(),
                prev == entries_scan(
                    None,
                    projects@,
                    entries.deep_view().subrange(0, i as int),
                    existing.deep_view(),
                ),
                state@ == candidates_scan(
                    prev.0,
                    cands.deep_view().subrange(0, k as int),
                    existing.deep_view(),
                ).0,
                reports.deep_view() == prev.1 + candidates_scan(
                    prev.0,
                    cands.deep_view().subrange(0, k as int),
                    existing.deep_view(),
                ).1,
            decreases cands@.len() - k,
        {
            let c = &cands[k];
            let present = contains_path(existing, &c.target);
            proof {
                assert(c@ == cands.deep_view()[k as int]);
                lemma_candidates_scan_step(
                    prev.0,
                    cands.deep_view(),
                    existing.deep_view(),
                    k as int,
                );
            }
            let emit = state.offer(&c.target, present);
            if emit {
                let report = Report { project_name: c.project_name.clone(), root: c.root.duplicate() };
                let ghost pre = reports.deep_view();
                let ghost rv = report@;
                reports.push(report);
                proof {
                    assert(reports.deep_view() =~= pre.push(rv));
                }
            }
            k += 1;
        }
        proof {
            assert(cands.deep_view().subrange(0, cands@.len() as int) =~= cands.deep_view());
            lemma_entries_scan_step(
                None,
                projects@,
                entries.deep_view(),
                existing.deep_view(),
                i as int,
            );
        }
        i += 1;
    }
    proof {
        assert(entries.deep_view().subrange(0, entries@.len() as int) =~= entries.deep_view());
    }
    reports
}

} // verus!
