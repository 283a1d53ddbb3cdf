//! The record of repair attempts: what was tried in each run, and which
//! strategies a new run need not try again.
use crate::text::{
    clone_option, decimal, decimal_text, eq_ignore_ascii_case, same_name, text_eq, trim, trimmed,
};
use vstd::prelude::*;

verus! {

broadcast use vstd::seq_lib::group_seq_properties;

// ---------------------------------------------------------------------------
// Kinds
// ---------------------------------------------------------------------------

/// How a repair changes what the solver is given.
#[derive(Debug, Clone, Copy, PartialEq, Eq, Structural, PartialOrd, Ord, Hash)]
pub enum Strategy {
    WidenConda,
    Conda,
    PypiDep,
    PypiOverride,
}

impl DeepView for Strategy {
    type V = Strategy;

    open spec fn deep_view(&self) -> Strategy {
        *self
    }
}

/// The name of a strategy.
pub open spec fn strategy_name(s: Strategy) -> Seq<char> {
    match s {
        Strategy::WidenConda => "widen-conda"@,
        Strategy::Conda => "conda"@,
        Strategy::PypiDep => "pypi_dep"@,
        Strategy::PypiOverride => "pypi_override"@,
    }
}

impl Strategy {
    /// The name under which the strategy is recorded.
    pub fn as_str(self) -> (r: &'static str)
        ensures
            r@ == strategy_name(self),
    {
        match self {
            Strategy::WidenConda => "widen-conda",
            Strategy::Conda => "conda",
            Strategy::PypiDep => "pypi_dep",
            Strategy::PypiOverride => "pypi_override",
        }
    }
}

/// The strategy recorded under a name; an unknown name is read as `Conda`.
pub open spec fn strategy_named(raw: Seq<char>) -> Strategy {
    if raw == "widen-conda"@ {
        Strategy::WidenConda
    } else if raw == "pypi_dep"@ {
        Strategy::PypiDep
    } else if raw == "pypi_override"@ {
        Strategy::PypiOverride
    } else {
        Strategy::Conda
    }
}

/// The strategy recorded under a name; an unknown name is read as `Conda`.
pub fn parse_strategy(raw: &str) -> (r: Strategy)
    ensures
        r == strategy_named(raw@),
{
    if text_eq(raw, "widen-conda") {
        Strategy::WidenConda
    } else if text_eq(raw, "pypi_dep") {
        Strategy::PypiDep
    } else if text_eq(raw, "pypi_override") {
        Strategy::PypiOverride
    } else {
        Strategy::Conda
    }
}

/// Reading back the name of a strategy gives the strategy.
pub proof fn law_strategy_names_round_trip(s: Strategy)
    ensures
        strategy_named(strategy_name(s)) == s,
{
    reveal_strlit("widen-conda");
    reveal_strlit("conda");
    reveal_strlit("pypi_dep");
    reveal_strlit("pypi_override");
    assert("widen-conda"@.len() == 11);
    assert("conda"@.len() == 5);
    assert("pypi_dep"@.len() == 8);
    assert("pypi_override"@.len() == 13);
}

/// Why a pin was written.
#[derive(Debug, Clone, Copy, PartialEq, Eq, Structural)]
pub enum Reason {
    CondaBoundary,
    PypiInternal,
    NoCandidatesEscalation,
}

/// The name of a reason.
pub open spec fn reason_slug(r: Reason) -> Seq<char> {
    match r {
        Reason::CondaBoundary => "conda-boundary"@,
        Reason::PypiInternal => "pypi-internal"@,
        Reason::NoCandidatesEscalation => "no-candidates-escalation"@,
    }
}

impl Reason {
    /// The name that the reason has in a manifest.
    pub fn slug(self) -> (r: &'static str)
        ensures
            r@ == reason_slug(self),
    {
        match self {
            Reason::CondaBoundary => "conda-boundary",
            Reason::PypiInternal => "pypi-internal",
            Reason::NoCandidatesEscalation => "no-candidates-escalation",
        }
    }
}

/// Which side of a conflict between a conda pin and a wheel's requirement is
/// relaxed first.
#[derive(Debug, Clone, Copy, PartialEq, Eq, Structural)]
pub enum RelaxPreference {
    Conda,
    Pypi,
}

impl RelaxPreference {
    /// `Pypi` for the word `pypi` in any case; `Conda` for anything else.
    pub fn from_config_str(s: &str) -> (r: Self)
        ensures
            (r == RelaxPreference::Pypi) <==> same_name(s@, "pypi"@),
    {
        if eq_ignore_ascii_case(s, "pypi") {
            RelaxPreference::Pypi
        } else {
            RelaxPreference::Conda
        }
    }
}

/// A table of a manifest.
#[derive(Debug, Clone, Copy, PartialEq, Eq, Structural, PartialOrd, Ord)]
pub enum TableKind {
    Conda,
    Pypi,
    Override,
}

impl DeepView for TableKind {
    type V = TableKind;

    open spec fn deep_view(&self) -> TableKind {
        *self
    }
}

// ---------------------------------------------------------------------------
// Entries of a manifest
// ---------------------------------------------------------------------------

/// An entry of a manifest's table at one moment: its value where that is a
/// string, and what follows the value on its line.
#[derive(Debug)]
pub struct EntrySnapshot {
    pub value: Option<String>,
    pub suffix: Option<String>,
}

/// What an `EntrySnapshot` says.
#[verifier::ext_equal]
pub struct SnapshotView {
    pub value: Option<Seq<char>>,
    pub suffix: Option<Seq<char>>,
}

impl DeepView for EntrySnapshot {
    type V = SnapshotView;

    open spec fn deep_view(&self) -> SnapshotView {
        SnapshotView { value: self.value.deep_view(), suffix: self.suffix.deep_view() }
    }
}

impl Clone for EntrySnapshot {
    fn clone(&self) -> (r: Self)
        ensures
            r.deep_view() == self.deep_view(),
    {
        EntrySnapshot { value: clone_option(&self.value), suffix: clone_option(&self.suffix) }
    }
}

/// One change made to a manifest, with what stood there before.
#[derive(Debug)]
pub struct AppliedEdit {
    pub feature: String,
    pub package: String,
    pub strategy: Strategy,
    pub table: TableKind,
    pub before: EntrySnapshot,
}

/// What an `AppliedEdit` says.
#[verifier::ext_equal]
pub struct EditView {
    pub feature: Seq<char>,
    pub package: Seq<char>,
    pub strategy: Strategy,
    pub table: TableKind,
    pub before: SnapshotView,
}

impl DeepView for AppliedEdit {
    type V = EditView;

    open spec fn deep_view(&self) -> EditView {
        EditView {
            feature: self.feature@,
            package: self.package@,
            strategy: self.strategy,
            table: self.table,
            before: self.before.deep_view(),
        }
    }
}

impl Clone for AppliedEdit {
    fn clone(&self) -> (r: Self)
        ensures
            r.deep_view() == self.deep_view(),
    {
        AppliedEdit {
            feature: self.feature.clone(),
            package: self.package.clone(),
            strategy: self.strategy,
            table: self.table,
            before: self.before.clone(),
        }
    }
}

// ---------------------------------------------------------------------------
// Attempts and runs
// ---------------------------------------------------------------------------

/// One repair that was tried.
#[derive(Debug)]
pub struct LedgerAttempt {
    pub iter: u32,
    pub package: String,
    pub version: Option<String>,
    pub tier: String,
    pub strategy: String,
    pub conflict: String,
    pub source: String,
    pub ts: String,
    pub old_spec: Option<String>,
    pub new_spec: Option<String>,
    pub ceiling_policy: Option<String>,
    pub before: Option<EntrySnapshot>,
    pub failed: bool,
}

/// What a `LedgerAttempt` says.
#[verifier::ext_equal]
pub struct AttemptView {
    pub iter: u32,
    pub package: Seq<char>,
    pub version: Option<Seq<char>>,
    pub tier: Seq<char>,
    pub strategy: Seq<char>,
    pub conflict: Seq<char>,
    pub source: Seq<char>,
    pub ts: Seq<char>,
    pub old_spec: Option<Seq<char>>,
    pub new_spec: Option<Seq<char>>,
    pub ceiling_policy: Option<Seq<char>>,
    pub before: Option<SnapshotView>,
    pub failed: bool,
}

impl DeepView for LedgerAttempt {
    type V = AttemptView;

    open spec fn deep_view(&self) -> AttemptView {
        AttemptView {
            iter: self.iter,
            package: self.package@,
            version: self.version.deep_view(),
            tier: self.tier@,
            strategy: self.strategy@,
            conflict: self.conflict@,
            source: self.source@,
            ts: self.ts@,
            old_spec: self.old_spec.deep_view(),
            new_spec: self.new_spec.deep_view(),
            ceiling_policy: self.ceiling_policy.deep_view(),
            before: self.before.deep_view(),
            failed: self.failed,
        }
    }
}

/// An edit that was taken back.
#[derive(Debug)]
pub struct RevertedEdit {
    pub package: String,
    pub strategy: String,
}

impl DeepView for RevertedEdit {
    type V = (Seq<char>, Seq<char>);

    open spec fn deep_view(&self) -> (Seq<char>, Seq<char>) {
        (self.package@, self.strategy@)
    }
}

/// One run of the repair loop.
#[derive(Debug)]
pub struct LedgerRun {
    pub started: String,
    pub env: String,
    pub manifest_sha256: String,
    pub pixi_version: Option<String>,
    pub attempts: Vec<LedgerAttempt>,
    pub outcome: String,
    pub smoke_failed: bool,
    pub kept_pins: Option<usize>,
    pub reverted: Vec<RevertedEdit>,
}

/// What a `LedgerRun` says.
#[verifier::ext_equal]
pub struct RunView {
    pub started: Seq<char>,
    pub env: Seq<char>,
    pub manifest_sha256: Seq<char>,
    pub pixi_version: Option<Seq<char>>,
    pub attempts: Seq<AttemptView>,
    pub outcome: Seq<char>,
    pub smoke_failed: bool,
    pub kept_pins: Option<usize>,
    pub reverted: Seq<(Seq<char>, Seq<char>)>,
}

impl DeepView for LedgerRun {
    type V = RunView;

    open spec fn deep_view(&self) -> RunView {
        RunView {
            started: self.started@,
            env: self.env@,
            manifest_sha256: self.manifest_sha256@,
            pixi_version: self.pixi_version.deep_view(),
            attempts: self.attempts.deep_view(),
            outcome: self.outcome@,
            smoke_failed: self.smoke_failed,
            kept_pins: self.kept_pins,
            reverted: self.reverted.deep_view(),
        }
    }
}

/// The record of every run on one manifest.
#[derive(Debug)]
pub struct SolveLedger {
    pub version: u32,
    pub manifest: String,
    pub runs: Vec<LedgerRun>,
}

/// What a `SolveLedger` says.
#[verifier::ext_equal]
pub struct LedgerView {
    pub version: u32,
    pub manifest: Seq<char>,
    pub runs: Seq<RunView>,
}

impl DeepView for SolveLedger {
    type V = LedgerView;

    open spec fn deep_view(&self) -> LedgerView {
        LedgerView { version: self.version, manifest: self.manifest@, runs: self.runs.deep_view() }
    }
}

/// A run that has just begun.
pub open spec fn new_run(
    started: Seq<char>,
    env: Seq<char>,
    manifest_sha256: Seq<char>,
    pixi_version: Option<Seq<char>>,
) -> RunView {
    RunView {
        started,
        env,
        manifest_sha256,
        pixi_version,
        attempts: Seq::empty(),
        outcome: "running"@,
        smoke_failed: false,
        kept_pins: None,
        reverted: Seq::empty(),
    }
}

/// `f` applied to the run at `idx`, where there is one.
pub open spec fn with_run(l: LedgerView, idx: int, f: spec_fn(RunView) -> RunView) -> LedgerView {
    if 0 <= idx < l.runs.len() {
        LedgerView { runs: l.runs.update(idx, f(l.runs[idx])), ..l }
    } else {
        l
    }
}

/// The position of the last attempt before `end` to widen `package`.
pub open spec fn last_widen(attempts: Seq<AttemptView>, package: Seq<char>, end: int) -> Option<int>
    decreases end,
{
    if end <= 0 || end > attempts.len() {
        None
    } else if attempts[end - 1].package == package && attempts[end - 1].strategy == strategy_name(
        Strategy::WidenConda,
    ) {
        Some(end - 1)
    } else {
        last_widen(attempts, package, end - 1)
    }
}

/// The run with the last attempt to widen `package` marked as failed.
pub open spec fn widen_failed(run: RunView, package: Seq<char>) -> RunView {
    match last_widen(run.attempts, package, run.attempts.len() as int) {
        Some(i) => RunView {
            attempts: run.attempts.update(i, AttemptView { failed: true, ..run.attempts[i] }),
            ..run
        },
        None => run,
    }
}

/// The ledger that a solve goes on with, on what its file held: the same runs, or none
/// where there was no file, at the present version and under the manifest's present
/// name.
pub open spec fn ledger_from(held: Option<LedgerView>, manifest: Seq<char>) -> LedgerView {
    LedgerView {
        version: 1,
        manifest,
        runs: match held {
            Some(l) => l.runs,
            None => Seq::empty(),
        },
    }
}

/// A ledger that was written is read with all its runs, whatever version and manifest
/// it was written under; reading what was read changes nothing more; and where there
/// was no file there are no runs.
pub proof fn law_reading_keeps_the_runs(written: LedgerView, manifest: Seq<char>)
    ensures
        ({
            let read = ledger_from(Some(written), manifest);
            &&& read.runs == written.runs
            &&& read.manifest == manifest
            &&& read.version == 1
            &&& ledger_from(Some(read), manifest) == read
        }),
        ledger_from(None, manifest).runs.len() == 0,
        ledger_from(None, manifest).manifest == manifest,
        ledger_from(None, manifest).version == 1,
{
}

impl SolveLedger {
    /// The ledger that a solve goes on with, on what its file held.
    pub fn load(held: Option<SolveLedger>, manifest_display: String) -> (r: Self)
        ensures
            r.deep_view() == ledger_from(held.deep_view(), manifest_display@),
    {
        match held {
            Some(l) => l.adopted(manifest_display),
            None => Self::empty(manifest_display),
        }
    }

    /// A ledger without runs.
    pub fn empty(manifest_display: String) -> (r: Self)
        ensures
            r.deep_view() == (LedgerView {
                version: 1,
                manifest: manifest_display@,
                runs: Seq::empty(),
            }),
    {
        let r = SolveLedger { version: 1, manifest: manifest_display, runs: Vec::new() };
        assert(r.runs.deep_view() =~= Seq::<RunView>::empty());
        r
    }

    /// The ledger read from a file: at the present version, under the manifest's
    /// present name.
    pub fn adopted(self, manifest_display: String) -> (r: Self)
        ensures
            r.deep_view() == (LedgerView {
                version: 1,
                manifest: manifest_display@,
                runs: self.deep_view().runs,
            }),
    {
        SolveLedger { version: 1, manifest: manifest_display, runs: self.runs }
    }

    /// Begins a run and gives its position.
    pub fn start_run(
        &mut self,
        started: String,
        env: String,
        manifest_sha256: String,
        pixi_version: Option<String>,
    ) -> (idx: usize)
        ensures
            idx == old(self).runs@.len(),
            final(self).deep_view() == (LedgerView {
                runs: old(self).deep_view().runs.push(
                    new_run(started@, env@, manifest_sha256@, pixi_version.deep_view()),
                ),
                ..old(self).deep_view()
            }),
    {
        let ghost before = self.runs.deep_view();
        let run = LedgerRun {
            started,
            env,
            manifest_sha256,
            pixi_version,
            attempts: Vec::new(),
            outcome: "running".to_owned(),
            smoke_failed: false,
            kept_pins: None,
            reverted: Vec::new(),
        };
        assert(run.attempts.deep_view() =~= Seq::<AttemptView>::empty());
        assert(run.reverted.deep_view() =~= Seq::<(Seq<char>, Seq<char>)>::empty());
        let ghost view = run.deep_view();
        self.runs.push(run);
        assert(self.runs.deep_view() =~= before.push(view));
        self.runs.len() - 1
    }

    /// Records how a run ended.
    pub fn finish_run(&mut self, run_idx: usize, outcome: &str)
        ensures
            final(self).deep_view() == with_run(
                old(self).deep_view(),
                run_idx as int,
                |r: RunView| RunView { outcome: outcome@, ..r },
            ),
    {
        let ghost before = self.runs.deep_view();
        if run_idx < self.runs.len() {
            let text: String = outcome.to_owned();
            self.runs[run_idx].outcome = text;
            assert(self.runs.deep_view() =~= before.update(
                run_idx as int,
                RunView { outcome: outcome@, ..before[run_idx as int] },
            ));
        }
    }
}

/// Records an attempt in a run.
pub fn append_attempt(ledger: &mut SolveLedger, run_idx: usize, attempt: LedgerAttempt)
    ensures
        final(ledger).deep_view() == with_run(
            old(ledger).deep_view(),
            run_idx as int,
            |r: RunView| RunView { attempts: r.attempts.push(attempt.deep_view()), ..r },
        ),
{
    let ghost before = ledger.runs.deep_view();
    if run_idx < ledger.runs.len() {
        let ghost attempts = ledger.runs@[run_idx as int].attempts.deep_view();
        ledger.runs[run_idx].attempts.push(attempt);
        assert(ledger.runs@[run_idx as int].attempts.deep_view() =~= attempts.push(
            attempt.deep_view(),
        ));
        assert(ledger.runs.deep_view() =~= before.update(
            run_idx as int,
            RunView { attempts: attempts.push(attempt.deep_view()), ..before[run_idx as int] },
        ));
    }
}

/// The ledger with a run's outcome.
pub open spec fn finished(l: LedgerView, idx: int, outcome: Seq<char>) -> LedgerView {
    with_run(l, idx, |r: RunView| RunView { outcome, ..r })
}

/// The ledger with an attempt.
pub open spec fn with_attempt(l: LedgerView, idx: int, attempt: AttemptView) -> LedgerView {
    with_run(l, idx, |r: RunView| RunView { attempts: r.attempts.push(attempt), ..r })
}

/// The ledger with attempts.
pub open spec fn with_attempts(l: LedgerView, idx: int, attempts: Seq<AttemptView>) -> LedgerView
    decreases attempts.len(),
{
    if attempts.len() == 0 {
        l
    } else {
        with_attempt(with_attempts(l, idx, attempts.drop_last()), idx, attempts.last())
    }
}

/// Records attempts in a run, in their order.
pub fn add_attempts(ledger: &mut SolveLedger, run_idx: usize, attempts: Vec<LedgerAttempt>)
    ensures
        final(ledger).deep_view() == with_attempts(
            old(ledger).deep_view(),
            run_idx as int,
            attempts.deep_view(),
        ),
{
    let ghost before = ledger.deep_view();
    let ghost all = attempts.deep_view();
    let n: usize = attempts.len();
    let mut rest: Vec<LedgerAttempt> = attempts;
    let mut i: usize = 0;
    assert(rest.deep_view() =~= all.skip(0));
    while i < n
        invariant
            i <= n,
            n == all.len(),
            n - i == rest@.len(),
            rest.deep_view() == all.skip(i as int),
            ledger.deep_view() == with_attempts(before, run_idx as int, all.take(i as int)),
        decreases n - i,
    {
        assert(all.take(i + 1).drop_last() =~= all.take(i as int));
        let a = rest.remove(0);
        assert(a.deep_view() == all[i as int]);
        assert(rest.deep_view() =~= all.skip(i + 1));
        append_attempt(ledger, run_idx, a);
        i = i + 1;
    }
    assert(all.take(n as int) =~= all);
}

/// Marks the last attempt of a run to widen `package` as failed.
pub fn mark_last_widen_failed(ledger: &mut SolveLedger, run_idx: usize, package: &str)
    ensures
        final(ledger).deep_view() == with_run(
            old(ledger).deep_view(),
            run_idx as int,
            |r: RunView| widen_failed(r, package@),
        ),
{
    let ghost before = ledger.runs.deep_view();
    if run_idx < ledger.runs.len() {
        let ghost attempts = ledger.runs@[run_idx as int].attempts.deep_view();
        let mut i: usize = ledger.runs[run_idx].attempts.len();
        while i > 0
            invariant
                run_idx < ledger.runs@.len(),
                ledger.deep_view() == old(ledger).deep_view(),
                before == ledger.runs.deep_view(),
                attempts == ledger.runs@[run_idx as int].attempts.deep_view(),
                i <= attempts.len(),
                last_widen(attempts, package@, attempts.len() as int) == last_widen(
                    attempts,
                    package@,
                    i as int,
                ),
            decreases i,
        {
            i = i - 1;
            assert(attempts[i as int] == ledger.runs@[run_idx as int].attempts@[i as int].deep_view());
            let hit: bool = text_eq(&ledger.runs[run_idx].attempts[i].package, package) && text_eq(
                &ledger.runs[run_idx].attempts[i].strategy,
                Strategy::WidenConda.as_str(),
            );
            if hit {
                ledger.runs[run_idx].attempts[i].failed = true;
                let ghost marked = attempts.update(
                    i as int,
                    AttemptView { failed: true, ..attempts[i as int] },
                );
                assert(ledger.runs@[run_idx as int].attempts.deep_view() =~= marked);
                assert(ledger.runs.deep_view() =~= before.update(
                    run_idx as int,
                    RunView { attempts: marked, ..before[run_idx as int] },
                ));
                return;
            }
        }
        assert(before.update(run_idx as int, before[run_idx as int]) =~= before);
    }
}

// ---------------------------------------------------------------------------
// What has been tried
// ---------------------------------------------------------------------------

/// The strategies that have been tried on each package, and those that failed.
#[derive(Debug)]
pub struct TriedState {
    tried: Vec<(String, Strategy)>,
    failed: Vec<(String, Strategy)>,
}

fn holds_pair(v: &Vec<(String, Strategy)>, package: &str, strategy: Strategy) -> (r: bool)
    ensures
        r == v.deep_view().contains((package@, strategy)),
{
    let mut i: usize = 0;
    while i < v.len()
        invariant
            i <= v@.len(),
            forall|k: int| 0 <= k < i ==> v.deep_view()[k] != (package@, strategy),
        decreases v@.len() - i,
    {
        assert(v.deep_view()[i as int] == v@[i as int].deep_view());
        if v[i].1 == strategy && text_eq(&v[i].0, package) {
            assert(v.deep_view()[i as int] == (package@, strategy));
            return true;
        }
        i = i + 1;
    }
    false
}

fn add_pair(v: &mut Vec<(String, Strategy)>, package: &str, strategy: Strategy)
    requires
        old(v).deep_view().no_duplicates(),
    ensures
        final(v).deep_view().no_duplicates(),
        final(v).deep_view().to_set() == old(v).deep_view().to_set().insert((package@, strategy)),
{
    let ghost before = v.deep_view();
    if !holds_pair(v, package, strategy) {
        v.push((package.to_owned(), strategy));
        assert(v.deep_view() =~= before.push((package@, strategy)));
    } else {
        assert(before.to_set().insert((package@, strategy)) =~= before.to_set());
    }
    assert(v.deep_view().to_set() =~= before.to_set().insert((package@, strategy)));
}

impl TriedState {
    /// The pairs of package and strategy that have been tried.
    pub closed spec fn tried_set(&self) -> Set<(Seq<char>, Strategy)> {
        self.tried.deep_view().to_set()
    }

    /// The pairs of package and strategy that have failed.
    pub closed spec fn failed_set(&self) -> Set<(Seq<char>, Strategy)> {
        self.failed.deep_view().to_set()
    }

    /// No pair is held twice.
    #[verifier::type_invariant]
    closed spec fn well_formed(&self) -> bool {
        self.tried.deep_view().no_duplicates() && self.failed.deep_view().no_duplicates()
    }

    /// Whether `strategy` has been tried on `package`.
    pub fn has(&self, package: &str, strategy: Strategy) -> (r: bool)
        ensures
            r == self.tried_set().contains((package@, strategy)),
    {
        holds_pair(&self.tried, package, strategy)
    }

    /// Records that `strategy` was tried on `package`, and whether it failed.
    pub fn mark(&mut self, package: &str, strategy: Strategy, failed: bool)
        ensures
            final(self).tried_set() == old(self).tried_set().insert((package@, strategy)),
            final(self).failed_set() == if failed {
                old(self).failed_set().insert((package@, strategy))
            } else {
                old(self).failed_set()
            },
    {
        proof {
            use_type_invariant(&*self);
        }
        let mut tried: Vec<(String, Strategy)> = Vec::new();
        let mut bad: Vec<(String, Strategy)> = Vec::new();
        std::mem::swap(&mut tried, &mut self.tried);
        std::mem::swap(&mut bad, &mut self.failed);
        add_pair(&mut tried, package, strategy);
        if failed {
            add_pair(&mut bad, package, strategy);
        }
        *self = TriedState { tried, failed: bad };
    }
}

impl Default for TriedState {
    /// Nothing has been tried.
    fn default() -> (r: Self)
        ensures
            r.tried_set() == Set::<(Seq<char>, Strategy)>::empty(),
            r.failed_set() == Set::<(Seq<char>, Strategy)>::empty(),
    {
        let r = TriedState { tried: Vec::new(), failed: Vec::new() };
        assert(r.tried.deep_view() =~= Seq::<(Seq<char>, Strategy)>::empty());
        assert(r.failed.deep_view() =~= Seq::<(Seq<char>, Strategy)>::empty());
        assert(r.tried_set() =~= Set::<(Seq<char>, Strategy)>::empty());
        assert(r.failed_set() =~= Set::<(Seq<char>, Strategy)>::empty());
        r
    }
}

/// The repairs that a run has begun: a key, the spec that was set for it, and
/// the strategy.
#[derive(Debug)]
pub struct AttemptSet {
    items: Vec<(String, String, Strategy)>,
}

impl AttemptSet {
    /// The repairs.
    pub closed spec fn set(&self) -> Set<(Seq<char>, Seq<char>, Strategy)> {
        self.items.deep_view().to_set()
    }

    /// No repair is held twice.
    #[verifier::type_invariant]
    closed spec fn well_formed(&self) -> bool {
        self.items.deep_view().no_duplicates()
    }

    /// No repair has begun.
    pub fn new() -> (r: Self)
        ensures
            r.set() == Set::<(Seq<char>, Seq<char>, Strategy)>::empty(),
    {
        let items: Vec<(String, String, Strategy)> = Vec::new();
        assert(items.deep_view() =~= Seq::<(Seq<char>, Seq<char>, Strategy)>::empty());
        let r = AttemptSet { items };
        assert(r.set() =~= Set::<(Seq<char>, Seq<char>, Strategy)>::empty());
        r
    }

    /// Whether the repair has begun.
    pub fn holds(&self, key: &str, spec: &str, strategy: Strategy) -> (r: bool)
        ensures
            r == self.set().contains((key@, spec@, strategy)),
    {
        let ghost all = self.items.deep_view();
        let mut i: usize = 0;
        while i < self.items.len()
            invariant
                i <= self.items@.len(),
                all == self.items.deep_view(),
                forall|k: int| 0 <= k < i ==> all[k] != (key@, spec@, strategy),
            decreases self.items@.len() - i,
        {
            assert(all[i as int] == self.items@[i as int].deep_view());
            if self.items[i].2 == strategy && text_eq(&self.items[i].0, key) && text_eq(
                &self.items[i].1,
                spec,
            ) {
                assert(all[i as int] == (key@, spec@, strategy));
                return true;
            }
            i = i + 1;
        }
        false
    }

    /// Records that a repair begins; says whether it had not begun before.
    pub fn insert(&mut self, key: &str, spec: &str, strategy: Strategy) -> (fresh: bool)
        ensures
            fresh == !old(self).set().contains((key@, spec@, strategy)),
            final(self).set() == old(self).set().insert((key@, spec@, strategy)),
    {
        proof {
            use_type_invariant(&*self);
        }
        let ghost before = self.items.deep_view();
        let ghost item = (key@, spec@, strategy);
        if self.holds(key, spec, strategy) {
            assert(before.to_set().insert(item) =~= before.to_set());
            return false;
        }
        let mut items: Vec<(String, String, Strategy)> = Vec::new();
        std::mem::swap(&mut items, &mut self.items);
        items.push((key.to_owned(), spec.to_owned(), strategy));
        assert(items.deep_view() =~= before.push(item));
        assert(items.deep_view().to_set() =~= before.to_set().insert(item));
        *self = AttemptSet { items };
        true
    }
}

/// The failed attempts of one run, as pairs of package and strategy.
pub open spec fn failed_pairs(attempts: Seq<AttemptView>) -> Set<(Seq<char>, Strategy)> {
    Set::new(
        |p: (Seq<char>, Strategy)|
            exists|i: int|
                0 <= i < attempts.len() && (#[trigger] attempts[i]).failed && p == (
                    attempts[i].package,
                    strategy_named(attempts[i].strategy),
                ),
    )
}

/// The failed attempts of every run.
pub open spec fn all_failed_pairs(runs: Seq<RunView>) -> Set<(Seq<char>, Strategy)> {
    Set::new(
        |p: (Seq<char>, Strategy)|
            exists|r: int| 0 <= r < runs.len() && failed_pairs(#[trigger] runs[r].attempts).contains(p),
    )
}

/// Whether the last run was on a manifest of this digest.
pub open spec fn last_run_matches(l: LedgerView, manifest_sha256: Seq<char>) -> bool {
    l.runs.len() > 0 && l.runs.last().manifest_sha256 == manifest_sha256
}

impl SolveLedger {
    /// What a new run counts as tried. On the manifest of the last run: what
    /// failed in any run; a repair that worked but was not kept is tried again.
    /// On another manifest: the entries that carry a sentinel.
    pub fn seed_tried_state(
        &self,
        manifest_sha256: &str,
        sentinels: &Vec<(String, Strategy)>,
    ) -> (state: TriedState)
        ensures
            state.tried_set() == if last_run_matches(self.deep_view(), manifest_sha256@) {
                all_failed_pairs(self.deep_view().runs)
            } else {
                sentinels.deep_view().to_set()
            },
            state.failed_set() == if last_run_matches(self.deep_view(), manifest_sha256@) {
                all_failed_pairs(self.deep_view().runs)
            } else {
                Set::<(Seq<char>, Strategy)>::empty()
            },
    {
        let ghost runs = self.runs.deep_view();
        let n: usize = self.runs.len();
        let mut state = TriedState::default();
        let same: bool = n > 0 && text_eq(&self.runs[n - 1].manifest_sha256, manifest_sha256);
        assert(n > 0 ==> runs.last() == self.runs@[n - 1].deep_view());
        if same {
            let mut r: usize = 0;
            assert(all_failed_pairs(runs.take(0)) =~= Set::<(Seq<char>, Strategy)>::empty());
            while r < n
                invariant
                    r <= n,
                    n == self.runs@.len(),
                    runs == self.runs.deep_view(),
                    state.tried_set() == all_failed_pairs(runs.take(r as int)),
                    state.failed_set() == all_failed_pairs(runs.take(r as int)),
                decreases n - r,
            {
                let attempts: &Vec<LedgerAttempt> = &self.runs[r].attempts;
                let ghost a = attempts.deep_view();
                assert(a == runs[r as int].attempts);
                let ghost base = all_failed_pairs(runs.take(r as int));
                let m: usize = attempts.len();
                let mut i: usize = 0;
                assert(base.union(failed_pairs(a.take(0))) =~= base);
                while i < m
                    invariant
                        i <= m,
                        m == attempts@.len(),
                        a == attempts.deep_view(),
                        state.tried_set() == base.union(failed_pairs(a.take(i as int))),
                        state.failed_set() == base.union(failed_pairs(a.take(i as int))),
                    decreases m - i,
                {
                    assert(a[i as int] == attempts@[i as int].deep_view());
                    let ghost here = (a[i as int].package, strategy_named(a[i as int].strategy));
                    if attempts[i].failed {
                        state.mark(
                            &attempts[i].package,
                            parse_strategy(&attempts[i].strategy),
                            true,
                        );
                    }
                    proof {
                        let before = failed_pairs(a.take(i as int));
                        let after = failed_pairs(a.take(i + 1));
                        assert forall|p: (Seq<char>, Strategy)| after.contains(p) == (
                        before.contains(p) || (a[i as int].failed && p == here)) by {
                            if before.contains(p) {
                                let k = choose|k: int|
                                    0 <= k < a.take(i as int).len() && (#[trigger] a.take(
                                        i as int,
                                    )[k]).failed && p == (
                                        a.take(i as int)[k].package,
                                        strategy_named(a.take(i as int)[k].strategy),
                                    );
                                assert(a.take(i + 1)[k] == a.take(i as int)[k]);
                            }
                            if a[i as int].failed && p == here {
                                assert(a.take(i + 1)[i as int] == a[i as int]);
                            }
                            if after.contains(p) {
                                let k = choose|k: int|
                                    0 <= k < a.take(i + 1).len() && (#[trigger] a.take(i + 1)[k]).failed
                                        && p == (
                                        a.take(i + 1)[k].package,
                                        strategy_named(a.take(i + 1)[k].strategy),
                                    );
                                if k < i {
                                    assert(a.take(i as int)[k] == a.take(i + 1)[k]);
                                }
                            }
                        }
                        assert(state.tried_set() =~= base.union(after));
                        assert(state.failed_set() =~= base.union(after));
                    }
                    i = i + 1;
                }
                assert(a.take(m as int) =~= a);
                proof {
                    let after = all_failed_pairs(runs.take(r + 1));
                    assert forall|p: (Seq<char>, Strategy)| after.contains(p) == base.union(
                        failed_pairs(a),
                    ).contains(p) by {
                        if base.contains(p) {
                            let k = choose|k: int|
                                0 <= k < runs.take(r as int).len() && failed_pairs(
                                    #[trigger] runs.take(r as int)[k].attempts,
                                ).contains(p);
                            assert(runs.take(r + 1)[k] == runs.take(r as int)[k]);
                            assert(failed_pairs(runs.take(r + 1)[k].attempts).contains(p));
                        }
                        if failed_pairs(a).contains(p) {
                            assert(runs.take(r + 1)[r as int].attempts == a);
                        }
                        if after.contains(p) {
                            let k = choose|k: int|
                                0 <= k < runs.take(r + 1).len() && failed_pairs(
                                    #[trigger] runs.take(r + 1)[k].attempts,
                                ).contains(p);
                            if k < r {
                                assert(runs.take(r as int)[k] == runs.take(r + 1)[k]);
                                assert(failed_pairs(runs.take(r as int)[k].attempts).contains(p));
                            }
                        }
                    }
                    assert(after =~= base.union(failed_pairs(a)));
                }
                r = r + 1;
            }
            assert(runs.take(n as int) =~= runs);
        } else {
            let ghost s = sentinels.deep_view();
            let m: usize = sentinels.len();
            let mut i: usize = 0;
            assert(s.take(0).to_set() =~= Set::<(Seq<char>, Strategy)>::empty());
            while i < m
                invariant
                    i <= m,
                    m == sentinels@.len(),
                    s == sentinels.deep_view(),
                    state.tried_set() == s.take(i as int).to_set(),
                    state.failed_set() == Set::<(Seq<char>, Strategy)>::empty(),
                decreases m - i,
            {
                assert(s[i as int] == sentinels@[i as int].deep_view());
                state.mark(&sentinels[i].0, sentinels[i].1, false);
                assert(s.take(i + 1) =~= s.take(i as int).push(s[i as int]));
                assert(s.take(i + 1).to_set() =~= s.take(i as int).to_set().insert(s[i as int]));
                i = i + 1;
            }
            assert(s.take(m as int) =~= s);
        }
        state
    }
}

// ---------------------------------------------------------------------------
// Time
// ---------------------------------------------------------------------------

/// `std::time::SystemTime::elapsed` on `std::time::UNIX_EPOCH`: the whole
/// seconds since then, or 0 where the clock stands before it. Nothing is claimed
/// of the number.
#[verifier::external_body]
fn epoch_seconds() -> (secs: u64) {
    std::time::UNIX_EPOCH.elapsed().map(|d| d.as_secs()).unwrap_or(0)
}

/// The present time, in whole seconds since 1970.
pub fn timestamp() -> (r: String)
    ensures
        exists|secs: u64| r@ == #[trigger] decimal(secs as nat),
{
    let secs: u64 = epoch_seconds();
    decimal_text(secs)
}

/// The day that the machine reports, or the first day of its clock where it reports
/// none.
pub open spec fn day_of(reported: Option<Seq<char>>) -> Seq<char> {
    match reported {
        Some(text) => if trimmed(text).len() > 0 {
            trimmed(text)
        } else {
            "1970-01-01"@
        },
        None => "1970-01-01"@,
    }
}

/// The day that the machine reports, or the first day of its clock where it reports
/// none.
pub fn local_date(reported: Option<&str>) -> (r: String)
    ensures
        r@ == day_of(reported.deep_view()),
{
    match reported {
        Some(text) => {
            let day: String = trim(text);
            if day.as_str().is_empty() {
                "1970-01-01".to_owned()
            } else {
                day
            }
        },
        None => "1970-01-01".to_owned(),
    }
}

// ---------------------------------------------------------------------------
// Laws
// ---------------------------------------------------------------------------

/// A record names one strategy: each has its own name, and any text that is none of the
/// other three's is read as the pin of a conda package.
pub proof fn law_strategies_go_by_their_names(s: Strategy, raw: Seq<char>)
    ensures
        strategy_name(s) == "widen-conda"@ <==> s == Strategy::WidenConda,
        strategy_name(s) == "conda"@ <==> s == Strategy::Conda,
        strategy_name(s) == "pypi_dep"@ <==> s == Strategy::PypiDep,
        strategy_name(s) == "pypi_override"@ <==> s == Strategy::PypiOverride,
        strategy_named(raw) == Strategy::Conda <==> raw != "widen-conda"@ && raw != "pypi_dep"@
            && raw != "pypi_override"@,
        strategy_named(raw) == Strategy::WidenConda <==> raw == "widen-conda"@,
        strategy_named(raw) == Strategy::PypiDep <==> raw == "pypi_dep"@,
        strategy_named(raw) == Strategy::PypiOverride <==> raw == "pypi_override"@,
{
    reveal_strlit("widen-conda");
    reveal_strlit("conda");
    reveal_strlit("pypi_dep");
    reveal_strlit("pypi_override");
    assert("widen-conda"@.len() == 11);
    assert("conda"@.len() == 5);
    assert("pypi_dep"@.len() == 8);
    assert("pypi_override"@.len() == 13);
}

/// A mark tells one reason from another.
pub proof fn law_reasons_go_by_their_names(r: Reason)
    ensures
        reason_slug(r) == "conda-boundary"@ <==> r == Reason::CondaBoundary,
        reason_slug(r) == "pypi-internal"@ <==> r == Reason::PypiInternal,
        reason_slug(r) == "no-candidates-escalation"@ <==> r == Reason::NoCandidatesEscalation,
{
    reveal_strlit("conda-boundary");
    reveal_strlit("pypi-internal");
    reveal_strlit("no-candidates-escalation");
    assert("conda-boundary"@.len() == 14);
    assert("pypi-internal"@.len() == 13);
    assert("no-candidates-escalation"@.len() == 24);
}

/// Whether two ledgers are the same but for the run at `idx`.
pub open spec fn differ_at_most_in(a: LedgerView, b: LedgerView, idx: int) -> bool {
    &&& a.version == b.version && a.manifest == b.manifest && a.runs.len() == b.runs.len()
    &&& forall|k: int| 0 <= k < a.runs.len() && k != idx ==> #[trigger] a.runs[k] == b.runs[k]
}

/// An attempt is recorded behind the others of its run, and nothing else changes; a run
/// that is not there takes none.
pub proof fn law_attempt_is_recorded_last(l: LedgerView, idx: int, attempt: AttemptView)
    ensures
        differ_at_most_in(with_attempt(l, idx, attempt), l, idx),
        0 <= idx < l.runs.len() ==> {
            let run = with_attempt(l, idx, attempt).runs[idx];
            &&& run.attempts.len() == l.runs[idx].attempts.len() + 1
            &&& run.attempts.last() == attempt
            &&& run.attempts.drop_last() == l.runs[idx].attempts
            &&& run.outcome == l.runs[idx].outcome && run.env == l.runs[idx].env
            &&& run.manifest_sha256 == l.runs[idx].manifest_sha256
        },
        !(0 <= idx < l.runs.len()) ==> with_attempt(l, idx, attempt) == l,
{
    if 0 <= idx < l.runs.len() {
        assert(with_attempt(l, idx, attempt).runs[idx].attempts.drop_last()
            =~= l.runs[idx].attempts);
    }
}

/// Attempts are recorded in their order, behind the others of their run, and nothing else
/// changes.
pub proof fn law_attempts_are_recorded_in_order(
    l: LedgerView,
    idx: int,
    attempts: Seq<AttemptView>,
)
    requires
        0 <= idx < l.runs.len(),
    ensures
        differ_at_most_in(with_attempts(l, idx, attempts), l, idx),
        with_attempts(l, idx, attempts).runs[idx].attempts == l.runs[idx].attempts + attempts,
        with_attempts(l, idx, attempts).runs[idx].outcome == l.runs[idx].outcome,
    decreases attempts.len(),
{
    if attempts.len() > 0 {
        let short = attempts.drop_last();
        law_attempts_are_recorded_in_order(l, idx, short);
        let mid = with_attempts(l, idx, short);
        law_attempt_is_recorded_last(mid, idx, attempts.last());
        assert(with_attempts(l, idx, attempts).runs[idx].attempts =~= l.runs[idx].attempts
            + attempts);
    } else {
        assert(l.runs[idx].attempts + attempts =~= l.runs[idx].attempts);
    }
}

/// The end of a run is recorded in that run alone, which keeps its attempts.
pub proof fn law_outcome_is_the_runs_own(l: LedgerView, idx: int, outcome: Seq<char>)
    ensures
        differ_at_most_in(finished(l, idx, outcome), l, idx),
        0 <= idx < l.runs.len() ==> {
            let run = finished(l, idx, outcome).runs[idx];
            &&& run.outcome == outcome
            &&& run.attempts == l.runs[idx].attempts && run.env == l.runs[idx].env
            &&& run.manifest_sha256 == l.runs[idx].manifest_sha256
            &&& run.smoke_failed == l.runs[idx].smoke_failed
        },
{
}

/// Of the attempts to widen a package the last is marked as failed, and no other: those
/// of other packages, those of other strategies and those before it stay as they were.
pub proof fn law_last_widening_is_marked(run: RunView, package: Seq<char>, i: int)
    requires
        0 <= i < run.attempts.len(),
        run.attempts[i].package == package,
        run.attempts[i].strategy == "widen-conda"@,
        forall|j: int|
            i < j < run.attempts.len() && (#[trigger] run.attempts[j]).package == package
                ==> run.attempts[j].strategy != "widen-conda"@,
    ensures
        ({
            let after = widen_failed(run, package);
            &&& after.attempts.len() == run.attempts.len()
            &&& after.attempts[i].failed
            &&& after.attempts[i].package == package && after.attempts[i].new_spec
                == run.attempts[i].new_spec
            &&& forall|j: int|
                0 <= j < run.attempts.len() && j != i ==> #[trigger] after.attempts[j]
                    == run.attempts[j]
            &&& after.outcome == run.outcome && after.env == run.env
        }),
{
    lemma_last_widen_at(run.attempts, package, i, run.attempts.len() as int);
}

proof fn lemma_last_widen_at(attempts: Seq<AttemptView>, package: Seq<char>, i: int, end: int)
    requires
        0 <= i < end <= attempts.len(),
        attempts[i].package == package,
        attempts[i].strategy == "widen-conda"@,
        forall|j: int|
            i < j < attempts.len() && (#[trigger] attempts[j]).package == package
                ==> attempts[j].strategy != "widen-conda"@,
    ensures
        last_widen(attempts, package, end) == Some(i),
    decreases end,
{
    if end - 1 > i {
        assert(attempts[end - 1].package == package ==> attempts[end - 1].strategy
            != "widen-conda"@);
        lemma_last_widen_at(attempts, package, i, end - 1);
    }
}

/// Where no attempt was to widen a package, none is marked.
pub proof fn law_nothing_widened_is_nothing_marked(run: RunView, package: Seq<char>)
    requires
        forall|j: int|
            0 <= j < run.attempts.len() && (#[trigger] run.attempts[j]).package == package
                ==> run.attempts[j].strategy != "widen-conda"@,
    ensures
        widen_failed(run, package) == run,
{
    lemma_no_widen(run.attempts, package, run.attempts.len() as int);
}

proof fn lemma_no_widen(attempts: Seq<AttemptView>, package: Seq<char>, end: int)
    requires
        forall|j: int|
            0 <= j < attempts.len() && (#[trigger] attempts[j]).package == package
                ==> attempts[j].strategy != "widen-conda"@,
    ensures
        last_widen(attempts, package, end) is None,
    decreases end,
{
    if 0 < end <= attempts.len() {
        assert(attempts[end - 1].package == package ==> attempts[end - 1].strategy
            != "widen-conda"@);
        lemma_no_widen(attempts, package, end - 1);
    }
}

/// A run begins with no attempt, runs, and has failed nothing.
pub proof fn law_run_begins_empty(
    started: Seq<char>,
    env: Seq<char>,
    manifest_sha256: Seq<char>,
    pixi_version: Option<Seq<char>>,
)
    ensures
        ({
            let r = new_run(started, env, manifest_sha256, pixi_version);
            &&& r.started == started && r.env == env && r.manifest_sha256 == manifest_sha256
            &&& r.pixi_version == pixi_version && r.outcome == "running"@
            &&& r.attempts.len() == 0 && r.reverted.len() == 0
            &&& !r.smoke_failed && r.kept_pins is None
        }),
{
}

/// What failed in any run is known to have failed, and nothing else is.
pub proof fn law_failures_of_every_run_count(runs: Seq<RunView>, package: Seq<char>, s: Strategy)
    ensures
        all_failed_pairs(runs).contains((package, s)) <==> exists|r: int, i: int|
            0 <= r < runs.len() && 0 <= i < runs[r].attempts.len() && (#[trigger]
            runs[r].attempts[i]).failed && runs[r].attempts[i].package == package
                && strategy_named(runs[r].attempts[i].strategy) == s,
{
    if all_failed_pairs(runs).contains((package, s)) {
        let r = choose|r: int|
            0 <= r < runs.len() && failed_pairs(#[trigger] runs[r].attempts).contains((package, s));
        let i = choose|i: int|
            0 <= i < runs[r].attempts.len() && (#[trigger] runs[r].attempts[i]).failed && (
            package,
            s,
        ) == (runs[r].attempts[i].package, strategy_named(runs[r].attempts[i].strategy));
        assert(runs[r].attempts[i].failed);
    }
    if exists|r: int, i: int|
        0 <= r < runs.len() && 0 <= i < runs[r].attempts.len() && (#[trigger]
        runs[r].attempts[i]).failed && runs[r].attempts[i].package == package && strategy_named(
            runs[r].attempts[i].strategy,
        ) == s {
        let (r, i) = choose|r: int, i: int|
            0 <= r < runs.len() && 0 <= i < runs[r].attempts.len() && (#[trigger]
            runs[r].attempts[i]).failed && runs[r].attempts[i].package == package
                && strategy_named(runs[r].attempts[i].strategy) == s;
        assert(failed_pairs(runs[r].attempts).contains((package, s)));
    }
}

/// Only the last run decides whether a manifest is the one that was solved last.
pub proof fn law_last_run_decides(l: LedgerView, r: RunView, sha: Seq<char>)
    ensures
        last_run_matches(LedgerView { runs: l.runs.push(r), ..l }, sha) <==> r.manifest_sha256
            == sha,
        l.runs.len() == 0 ==> !last_run_matches(l, sha),
{
}

/// A day that the machine reports is recorded without the blanks around it; where it
/// reports none, the first day of its clock is.
pub proof fn law_day_is_what_is_reported(text: Seq<char>)
    ensures
        trimmed(text).len() > 0 ==> day_of(Some(text)) == trimmed(text),
        trimmed(text).len() == 0 ==> day_of(Some(text)) == "1970-01-01"@,
        day_of(None) == "1970-01-01"@,
{
}

} // verus!
