//! The repair ladder: for each kind of conflict the next change to try, and no
//! change twice.
use crate::solve::document::is_sound;
use crate::solve::ladder::{
    boundary_step, chain_override, conda_pin_step, env_version, nested_cap_step, no_candidates_step,
    override_from_conda_step, override_pin_step, pack_candidate, pack_key, pack_override_target,
    pin_name_in, pin_owner, pin_owner_from, pinned_candidate, pinned_variant, pypi_pin_step,
    range_vs_pin_step, repair_step, target_for, try_pack_step, upstream_pin_step, widen_needed_step,
    widen_or_pin_step, widen_step, workspace_override, workspace_widen_step, LadderView, PlanView,
};
use crate::solve::ledger::{
    law_strategy_names_round_trip, strategy_name, strategy_named, AppliedEdit, AttemptSet,
    AttemptView, EditView, EntrySnapshot, LedgerAttempt, Reason, RelaxPreference, SnapshotView,
    Strategy, TableKind, TriedState,
};
use crate::solve::manifest::{lemma_removal_keeps_the_way, ManifestEditor};
use crate::solve::parse::{Conflict, ConflictView};
use crate::solve::ranges::{
    can_widen, exact_pin_version, intersect_range_with_cap, strip_version_op,
    translate_conda_range_to_pep440, widen_spec, WidenCeilingPolicy,
};
use crate::solve::workspace::{
    canonical_conda_name, canonical_name, conda_name_family, find_key, lookup, name_family, Facts,
    PypiToCondaMap,
};
use crate::text::{clone_option, clone_texts, ends_with, push_view, starts_with, text_eq};
use vstd::prelude::*;

verus! {

broadcast use vstd::seq_lib::group_seq_properties;

// ---------------------------------------------------------------------------
// Anchors
// ---------------------------------------------------------------------------

/// The packages that fix the interface to the machine.
pub open spec fn anchor_names() -> Seq<Seq<char>> {
    seq![
        "python"@,
        "python_abi"@,
        "pypy"@,
        "libc"@,
        "glibc"@,
        "__glibc"@,
        "libstdcxx-ng"@,
        "libstdcxx"@,
        "libcxx"@,
        "libcxx-devel"@,
        "cuda-version"@,
        "__cuda"@,
    ]
}

/// The beginnings of the names of compilers and their libraries for one machine.
pub open spec fn anchor_prefixes() -> Seq<Seq<char>> {
    seq![
        "__"@,
        "gcc_"@,
        "gxx_"@,
        "g++_"@,
        "gfortran_"@,
        "clang_"@,
        "clangxx_"@,
        "binutils_"@,
        "ld_"@,
        "sysroot_"@,
    ]
}

/// Whether a package fixes the interface to the machine: a listed name, a
/// virtual package, a compiler or a library of one.
pub open spec fn is_anchor(name: Seq<char>) -> bool {
    anchor_names().contains(name) || "_compiler"@.is_suffix_of(name) || exists|i: int|
        0 <= i < anchor_prefixes().len() && (#[trigger] anchor_prefixes()[i]).is_prefix_of(name)
}

/// Whether a package fixes the interface to the machine. Such a package is never
/// pinned, widened or overridden.
pub fn is_abi_anchor(name: &str) -> (r: bool)
    ensures
        r == is_anchor(name@),
{
    let names: Vec<&str> = vec![
        "python",
        "python_abi",
        "pypy",
        "libc",
        "glibc",
        "__glibc",
        "libstdcxx-ng",
        "libstdcxx",
        "libcxx",
        "libcxx-devel",
        "cuda-version",
        "__cuda",
    ];
    assert(names.deep_view() =~= anchor_names());
    let prefixes: Vec<&str> = vec![
        "__",
        "gcc_",
        "gxx_",
        "g++_",
        "gfortran_",
        "clang_",
        "clangxx_",
        "binutils_",
        "ld_",
        "sysroot_",
    ];
    assert(prefixes.deep_view() =~= anchor_prefixes());
    let mut i: usize = 0;
    while i < names.len()
        invariant
            i <= names@.len(),
            names.deep_view() == anchor_names(),
            forall|k: int| 0 <= k < i ==> anchor_names()[k] != name@,
        decreases names@.len() - i,
    {
        assert(anchor_names()[i as int] == names@[i as int]@);
        if text_eq(names[i], name) {
            return true;
        }
        i = i + 1;
    }
    assert(!anchor_names().contains(name@)) by {
        assert(names.deep_view().len() == names@.len());
    }
    if ends_with(name, "_compiler") {
        return true;
    }
    let mut k: usize = 0;
    while k < prefixes.len()
        invariant
            k <= prefixes@.len(),
            prefixes.deep_view() == anchor_prefixes(),
            !anchor_names().contains(name@),
            !"_compiler"@.is_suffix_of(name@),
            forall|j: int| 0 <= j < k ==> !(#[trigger] anchor_prefixes()[j]).is_prefix_of(name@),
        decreases prefixes@.len() - k,
    {
        assert(anchor_prefixes()[k as int] == prefixes@[k as int]@);
        if starts_with(name, prefixes[k]) {
            return true;
        }
        k = k + 1;
    }
    assert(prefixes.deep_view().len() == prefixes@.len());
    false
}

// ---------------------------------------------------------------------------
// Outcomes
// ---------------------------------------------------------------------------

/// Where a pack's override is recorded.
#[derive(Debug, Clone, Copy, PartialEq, Eq, Structural)]
pub enum PackOverrideKind {
    /// Among the specs that the pack's closure is given.
    Override,
    /// Among the packages that stay wheels; there is no spec.
    Unroute,
}

/// An override to be recorded for a pack.
#[derive(Debug)]
pub struct PackOverrideWrite {
    pub bundle: String,
    pub pack_pixi: String,
    pub package: String,
    pub spec: String,
    pub kind: PackOverrideKind,
}

/// What a `PackOverrideWrite` says.
#[verifier::ext_equal]
pub struct WriteView {
    pub bundle: Seq<char>,
    pub pack_pixi: Seq<char>,
    pub package: Seq<char>,
    pub spec: Seq<char>,
    pub kind: PackOverrideKind,
}

impl DeepView for PackOverrideWrite {
    type V = WriteView;

    open spec fn deep_view(&self) -> WriteView {
        WriteView {
            bundle: self.bundle@,
            pack_pixi: self.pack_pixi@,
            package: self.package@,
            spec: self.spec@,
            kind: self.kind,
        }
    }
}

/// A repair: what is recorded of it, the edits of the manifest, and the override
/// that the caller is to record.
#[derive(Debug)]
pub struct RepairOutcome {
    pub attempt: LedgerAttempt,
    pub extra_attempts: Vec<LedgerAttempt>,
    pub applied: Vec<AppliedEdit>,
    pub summary_line: String,
    pub pack_override: Option<PackOverrideWrite>,
}

/// What a `RepairOutcome` says.
#[verifier::ext_equal]
pub struct OutcomeView {
    pub attempt: AttemptView,
    pub extra_attempts: Seq<AttemptView>,
    pub applied: Seq<EditView>,
    pub summary_line: Seq<char>,
    pub pack_override: Option<WriteView>,
}

impl DeepView for RepairOutcome {
    type V = OutcomeView;

    open spec fn deep_view(&self) -> OutcomeView {
        OutcomeView {
            attempt: self.attempt.deep_view(),
            extra_attempts: self.extra_attempts.deep_view(),
            applied: self.applied.deep_view(),
            summary_line: self.summary_line@,
            pack_override: self.pack_override.deep_view(),
        }
    }
}

/// What the result of a repair says: its outcome, or the package for which
/// nothing is left to try.
pub open spec fn result_view(r: Result<RepairOutcome, String>) -> Result<OutcomeView, Seq<char>> {
    match r {
        Ok(out) => Ok(out.deep_view()),
        Err(package) => Err(package@),
    }
}

/// The package and version that a repair is about, and the conflict that it
/// answers.
pub struct PinTarget {
    pub package: String,
    pub version: String,
    pub iter: u32,
    pub conflict: String,
}

/// What a `PinTarget` says.
#[verifier::ext_equal]
pub struct TargetView {
    pub package: Seq<char>,
    pub version: Seq<char>,
    pub iter: u32,
    pub conflict: Seq<char>,
}

impl DeepView for PinTarget {
    type V = TargetView;

    open spec fn deep_view(&self) -> TargetView {
        TargetView {
            package: self.package@,
            version: self.version@,
            iter: self.iter,
            conflict: self.conflict@,
        }
    }
}

/// What is recorded of an attempt besides its target.
pub struct AttemptDetails {
    pub old_spec: Option<String>,
    pub new_spec: Option<String>,
    pub ceiling_policy: Option<String>,
    pub before: Option<EntrySnapshot>,
}

/// What an `AttemptDetails` says.
#[verifier::ext_equal]
pub struct DetailsView {
    pub old_spec: Option<Seq<char>>,
    pub new_spec: Option<Seq<char>>,
    pub ceiling_policy: Option<Seq<char>>,
    pub before: Option<SnapshotView>,
}

impl DeepView for AttemptDetails {
    type V = DetailsView;

    open spec fn deep_view(&self) -> DetailsView {
        DetailsView {
            old_spec: self.old_spec.deep_view(),
            new_spec: self.new_spec.deep_view(),
            ceiling_policy: self.ceiling_policy.deep_view(),
            before: self.before.deep_view(),
        }
    }
}

/// Nothing is recorded but the target.
pub open spec fn no_details() -> DetailsView {
    DetailsView { old_spec: None, new_spec: None, ceiling_policy: None, before: None }
}

fn bare_details() -> (r: AttemptDetails)
    ensures
        r.deep_view() == no_details(),
{
    AttemptDetails { old_spec: None, new_spec: None, ceiling_policy: None, before: None }
}

/// What is recorded of an override from one spec to another.
pub open spec fn override_details(old_spec: Option<Seq<char>>, new_spec: Seq<char>) -> DetailsView {
    DetailsView { old_spec, new_spec: Some(new_spec), ceiling_policy: None, before: None }
}

/// The record of an attempt.
pub open spec fn attempt_record(
    t: TargetView,
    strategy: Strategy,
    source: Seq<char>,
    details: DetailsView,
    now: Seq<char>,
) -> AttemptView {
    AttemptView {
        iter: t.iter,
        package: t.package,
        version: Some(t.version),
        tier: strategy_name(strategy),
        strategy: strategy_name(strategy),
        conflict: t.conflict,
        source,
        ts: now,
        old_spec: details.old_spec,
        new_spec: details.new_spec,
        ceiling_policy: details.ceiling_policy,
        before: details.before,
        failed: false,
    }
}

/// The name of a table as a manifest's header has it.
pub open spec fn table_name(feature: Seq<char>, kind: TableKind) -> Seq<char> {
    let below = match kind {
        TableKind::Conda => "dependencies"@,
        TableKind::Pypi => "pypi-dependencies"@,
        TableKind::Override => "pypi-options.dependency-overrides"@,
    };
    if feature == "default"@ {
        below
    } else {
        "feature."@ + feature + "."@ + below
    }
}

/// The name of a table as a manifest's header has it.
pub fn table_label(feature: &str, kind: TableKind) -> (r: String)
    ensures
        r@ == table_name(feature@, kind),
{
    let below: &str = match kind {
        TableKind::Conda => "dependencies",
        TableKind::Pypi => "pypi-dependencies",
        TableKind::Override => "pypi-options.dependency-overrides",
    };
    if text_eq(feature, "default") {
        return below.to_owned();
    }
    let mut s: String = "feature.".to_owned();
    s.append(feature);
    s.append(".");
    s.append(below);
    s
}

/// One line on an attempt that was recorded and not made.
pub open spec fn attempt_line(a: AttemptView) -> Seq<char> {
    "recorded "@ + a.package + " "@ + a.strategy + " from "@ + a.source
}

/// One line on an attempt that was recorded and not made.
pub fn describe_attempt(attempt: &LedgerAttempt) -> (r: String)
    ensures
        r@ == attempt_line(attempt.deep_view()),
{
    let mut s: String = "recorded ".to_owned();
    s.append(&attempt.package);
    s.append(" ");
    s.append(&attempt.strategy);
    s.append(" from ");
    s.append(&attempt.source);
    s
}

/// The table that a strategy writes to.
pub open spec fn strategy_table(strategy: Strategy) -> TableKind {
    match strategy {
        Strategy::WidenConda => TableKind::Conda,
        Strategy::Conda => TableKind::Conda,
        Strategy::PypiDep => TableKind::Pypi,
        Strategy::PypiOverride => TableKind::Override,
    }
}

/// One line on an edit of the manifest.
pub open spec fn edit_line(
    feature: Seq<char>,
    t: TargetView,
    strategy: Strategy,
    details: DetailsView,
) -> Seq<char> {
    let spec = match strategy {
        Strategy::WidenConda => match details.new_spec {
            Some(s) => s,
            None => ""@,
        },
        _ => "=="@ + t.version,
    };
    "would add ["@ + table_name(feature, strategy_table(strategy)) + "] "@ + t.package + " = \""@
        + spec + "\"  (tier: "@ + strategy_name(strategy) + ")"@
}

/// One line on an override of a pack.
pub open spec fn override_line(
    bundle: Seq<char>,
    package: Seq<char>,
    spec: Seq<char>,
    why: Seq<char>,
) -> Seq<char> {
    "would add ["@ + bundle + " :: retread-overrides] "@ + package + " = \""@ + spec
        + "\"  (tier: pypi_override; "@ + why + "; .retread/auto-overrides.json ledger)"@
}

fn describe_override(bundle: &str, package: &str, spec: &str, why: &str) -> (r: String)
    ensures
        r@ == override_line(bundle@, package@, spec@, why@),
{
    let mut s: String = "would add [".to_owned();
    s.append(bundle);
    s.append(" :: retread-overrides] ");
    s.append(package);
    s.append(" = \"");
    s.append(spec);
    s.append("\"  (tier: pypi_override; ");
    s.append(why);
    s.append("; .retread/auto-overrides.json ledger)");
    s
}

/// The outcome of an edit of the manifest.
pub open spec fn edit_outcome(
    feature: Seq<char>,
    t: TargetView,
    strategy: Strategy,
    applied: Seq<EditView>,
    details: DetailsView,
    now: Seq<char>,
) -> OutcomeView {
    OutcomeView {
        attempt: attempt_record(t, strategy, "retread"@, details, now),
        extra_attempts: Seq::empty(),
        applied,
        summary_line: edit_line(feature, t, strategy, details),
        pack_override: None,
    }
}

/// The outcome of an override of a pack.
pub open spec fn override_outcome(
    t: TargetView,
    bundle: Seq<char>,
    pack_pixi: Seq<char>,
    old_spec: Option<Seq<char>>,
    spec: Seq<char>,
    why: Seq<char>,
    now: Seq<char>,
) -> OutcomeView {
    OutcomeView {
        attempt: attempt_record(
            t,
            Strategy::PypiOverride,
            "retread"@,
            override_details(old_spec, spec),
            now,
        ),
        extra_attempts: Seq::empty(),
        applied: Seq::empty(),
        summary_line: override_line(bundle, t.package, spec, why),
        pack_override: Some(
            WriteView {
                bundle,
                pack_pixi,
                package: t.package,
                spec,
                kind: PackOverrideKind::Override,
            },
        ),
    }
}

fn ledger_attempt(
    t: &PinTarget,
    strategy: Strategy,
    source: &str,
    details: AttemptDetails,
    now: &str,
) -> (r: LedgerAttempt)
    ensures
        r.deep_view() == attempt_record(
            t.deep_view(),
            strategy,
            source@,
            details.deep_view(),
            now@,
        ),
{
    LedgerAttempt {
        iter: t.iter,
        package: t.package.clone(),
        version: Some(t.version.clone()),
        tier: strategy.as_str().to_owned(),
        strategy: strategy.as_str().to_owned(),
        conflict: t.conflict.clone(),
        source: source.to_owned(),
        ts: now.to_owned(),
        old_spec: details.old_spec,
        new_spec: details.new_spec,
        ceiling_policy: details.ceiling_policy,
        before: details.before,
        failed: false,
    }
}

fn outcome_of_edit(
    feature: &str,
    t: &PinTarget,
    strategy: Strategy,
    applied: Vec<AppliedEdit>,
    details: AttemptDetails,
    now: &str,
) -> (r: RepairOutcome)
    ensures
        r.deep_view() == edit_outcome(
            feature@,
            t.deep_view(),
            strategy,
            applied.deep_view(),
            details.deep_view(),
            now@,
        ),
{
    let kind: TableKind = match strategy {
        Strategy::WidenConda => TableKind::Conda,
        Strategy::Conda => TableKind::Conda,
        Strategy::PypiDep => TableKind::Pypi,
        Strategy::PypiOverride => TableKind::Override,
    };
    let spec: String = match strategy {
        Strategy::WidenConda => match &details.new_spec {
            Some(s) => s.clone(),
            None => "".to_owned(),
        },
        _ => "==".to_owned().concat(&t.version),
    };
    let mut line: String = "would add [".to_owned();
    line.append(&table_label(feature, kind));
    line.append("] ");
    line.append(&t.package);
    line.append(" = \"");
    line.append(&spec);
    line.append("\"  (tier: ");
    line.append(strategy.as_str());
    line.append(")");
    let extra_attempts: Vec<LedgerAttempt> = Vec::new();
    assert(extra_attempts.deep_view() =~= Seq::<AttemptView>::empty());
    RepairOutcome {
        attempt: ledger_attempt(t, strategy, "retread", details, now),
        extra_attempts,
        applied,
        summary_line: line,
        pack_override: None,
    }
}

fn outcome_of_override(
    t: &PinTarget,
    bundle: &str,
    pack_pixi: String,
    old_spec: Option<String>,
    spec: String,
    why: &str,
    now: &str,
) -> (r: RepairOutcome)
    ensures
        r.deep_view() == override_outcome(
            t.deep_view(),
            bundle@,
            pack_pixi@,
            old_spec.deep_view(),
            spec@,
            why@,
            now@,
        ),
{
    let details = AttemptDetails {
        old_spec,
        new_spec: Some(spec.clone()),
        ceiling_policy: None,
        before: None,
    };
    let extra_attempts: Vec<LedgerAttempt> = Vec::new();
    assert(extra_attempts.deep_view() =~= Seq::<AttemptView>::empty());
    let applied: Vec<AppliedEdit> = Vec::new();
    assert(applied.deep_view() =~= Seq::<EditView>::empty());
    RepairOutcome {
        attempt: ledger_attempt(t, Strategy::PypiOverride, "retread", details, now),
        extra_attempts,
        applied,
        summary_line: describe_override(bundle, &t.package, &spec, why),
        pack_override: Some(
            PackOverrideWrite {
                bundle: bundle.to_owned(),
                pack_pixi,
                package: t.package.clone(),
                spec,
                kind: PackOverrideKind::Override,
            },
        ),
    }
}

impl PinTarget {
    fn of(package: &str, version: &str, iter: u32, conflict: &Conflict) -> (r: PinTarget)
        ensures
            r.deep_view() == target_for(package@, version@, iter, conflict.deep_view()),
    {
        PinTarget {
            package: package.to_owned(),
            version: version.to_owned(),
            iter,
            conflict: conflict.kind().to_owned(),
        }
    }
}

fn tried_key(package: &str, pack: &str) -> (r: String)
    ensures
        r@ == pack_key(package@, pack@),
{
    let mut s: String = package.to_owned();
    s.append("@");
    s.append(pack);
    s
}

// ---------------------------------------------------------------------------
// The planner
// ---------------------------------------------------------------------------

/// Plans the repairs of one run.
pub struct RepairPlanner {
    pub feature: String,
    pub ceiling_policy: WidenCeilingPolicy,
    pub relax_preference: RelaxPreference,
    pub current_run_attempts: AttemptSet,
    pub conda_name_map: PypiToCondaMap,
}

/// Whether a repair edited the manifest.
pub open spec fn has_edits(out: Result<OutcomeView, Seq<char>>) -> bool {
    out matches Ok(o) && o.applied.len() > 0
}

/// What a repair leaves besides its outcome: the ladder's new state, with the
/// planner's setup, the manifest's place and the failures as they were. Where it did
/// not edit the manifest, that is as it was altogether.
pub open spec fn moved(
    p: RepairPlanner,
    e: ManifestEditor,
    t: TriedState,
    p2: RepairPlanner,
    e2: ManifestEditor,
    t2: TriedState,
    after: LadderView,
    edited: bool,
) -> bool {
    &&& !edited ==> e2 == e
    &&& p2.ladder(e2, t2) == after
    &&& p2.feature@ == p.feature@
    &&& p2.ceiling_policy == p.ceiling_policy
    &&& p2.relax_preference == p.relax_preference
    &&& p2.names() == p.names()
    &&& e2.file() == e.file()
    &&& e2.dir() == e.dir()
    &&& is_sound(e2.nodes())
    &&& t2.failed_set() == t.failed_set()
}

impl RepairPlanner {
    /// The repairs begun in this run.
    pub open spec fn attempts(&self) -> Set<(Seq<char>, Seq<char>, Strategy)> {
        self.current_run_attempts.set()
    }

    /// The conda names of wheels.
    pub open spec fn names(&self) -> Seq<(Seq<char>, Seq<Seq<char>>)> {
        self.conda_name_map.pairs()
    }

    /// What stays as it is while the planner repairs a conflict in `feature`.
    pub open spec fn plan_in(&self, feature: Seq<char>, e: ManifestEditor, facts: Facts) -> PlanView {
        PlanView {
            feature,
            policy: self.ceiling_policy,
            preference: self.relax_preference,
            names: self.names(),
            dir: e.dir(),
            features: e.features(),
            facts: facts.deep_view(),
        }
    }

    /// What stays as it is while the planner repairs a conflict.
    pub open spec fn plan(&self, e: ManifestEditor, facts: Facts) -> PlanView {
        self.plan_in(self.feature@, e, facts)
    }

    /// What a repair changes.
    pub open spec fn ladder(&self, e: ManifestEditor, t: TriedState) -> LadderView {
        LadderView {
            attempts: self.attempts(),
            tried: t.tried_set(),
            nodes: e.nodes(),
            orders: e.orders(),
            refused: e.refused(),
        }
    }

    /// A planner for a feature, which prefers conda and widens below the next
    /// major version.
    pub fn new(feature: String) -> (r: Self)
        ensures
            r.feature@ == feature@,
            r.ceiling_policy == WidenCeilingPolicy::NextMajor,
            r.relax_preference == RelaxPreference::Conda,
            r.attempts() == Set::<(Seq<char>, Seq<char>, Strategy)>::empty(),
            r.names() == Seq::<(Seq<char>, Seq<Seq<char>>)>::empty(),
    {
        RepairPlanner {
            feature,
            ceiling_policy: WidenCeilingPolicy::NextMajor,
            relax_preference: RelaxPreference::Conda,
            current_run_attempts: AttemptSet::new(),
            conda_name_map: PypiToCondaMap::new(),
        }
    }

    /// The planner with the conda names of wheels.
    pub fn with_conda_name_map(self, map: PypiToCondaMap) -> (r: Self)
        ensures
            r.feature@ == self.feature@,
            r.ceiling_policy == self.ceiling_policy,
            r.relax_preference == self.relax_preference,
            r.attempts() == self.attempts(),
            r.names() == map.pairs(),
    {
        RepairPlanner {
            feature: self.feature,
            ceiling_policy: self.ceiling_policy,
            relax_preference: self.relax_preference,
            current_run_attempts: self.current_run_attempts,
            conda_name_map: map,
        }
    }

    /// A planner for a feature, with the conda names of wheels and the side that
    /// is relaxed first.
    pub fn configured(
        feature: String,
        conda_name_map: PypiToCondaMap,
        relax_preference: RelaxPreference,
    ) -> (r: Self)
        ensures
            r.feature@ == feature@,
            r.ceiling_policy == WidenCeilingPolicy::NextMajor,
            r.relax_preference == relax_preference,
            r.attempts() == Set::<(Seq<char>, Seq<char>, Strategy)>::empty(),
            r.names() == conda_name_map.pairs(),
    {
        Self::new(feature).with_relax_preference(relax_preference).with_conda_name_map(
            conda_name_map,
        )
    }

    /// The planner with the side that is relaxed first.
    pub fn with_relax_preference(self, pref: RelaxPreference) -> (r: Self)
        ensures
            r.feature@ == self.feature@,
            r.ceiling_policy == self.ceiling_policy,
            r.relax_preference == pref,
            r.attempts() == self.attempts(),
            r.names() == self.names(),
    {
        RepairPlanner {
            feature: self.feature,
            ceiling_policy: self.ceiling_policy,
            relax_preference: pref,
            current_run_attempts: self.current_run_attempts,
            conda_name_map: self.conda_name_map,
        }
    }

    /// Begins a repair, unless it has begun before.
    pub fn guard_oscillation(&mut self, key: &str, version_or_spec: &str, strategy: Strategy) -> (fresh:
        bool)
        ensures
            fresh == !old(self).attempts().contains((key@, version_or_spec@, strategy)),
            final(self).attempts() == old(self).attempts().insert(
                (key@, version_or_spec@, strategy),
            ),
            !fresh ==> final(self).attempts() == old(self).attempts(),
            final(self).feature@ == old(self).feature@,
            final(self).ceiling_policy == old(self).ceiling_policy,
            final(self).relax_preference == old(self).relax_preference,
            final(self).names() == old(self).names(),
    {
        let ghost before = self.attempts();
        let fresh: bool = self.current_run_attempts.insert(key, version_or_spec, strategy);
        assert(!fresh ==> before.insert((key@, version_or_spec@, strategy)) =~= before);
        fresh
    }

    fn conda_pin(
        &mut self,
        editor: &mut ManifestEditor,
        tried: &mut TriedState,
        facts: &Facts,
        feature: &str,
        target: &PinTarget,
        reason: Reason,
    ) -> (r: Result<RepairOutcome, String>)
        requires
            is_sound(old(editor).nodes()),
        ensures
            ({
                let (after, out) = conda_pin_step(
                    old(self).plan_in(feature@, *old(editor), *facts),
                    old(self).ladder(*old(editor), *old(tried)),
                    target.deep_view(),
                    reason,
                );
                result_view(r) == out && moved(
                    *old(self),
                    *old(editor),
                    *old(tried),
                    *final(self),
                    *final(editor),
                    *final(tried),
                    after,
                    has_edits(out),
                )
            }),
    {
        if is_abi_anchor(&target.package) {
            return Err(target.package.clone());
        }
        if !self.guard_oscillation(&target.package, &target.version, Strategy::Conda) {
            return Err(target.package.clone());
        }
        let edit = editor.set_conda_pin(
            feature,
            &target.package,
            &target.version,
            reason,
            &facts.today,
        );
        tried.mark(&target.package, Strategy::Conda, false);
        let ghost view = edit.deep_view();
        let applied: Vec<AppliedEdit> = vec![edit];
        assert(applied.deep_view() =~= seq![view]);
        Ok(
            outcome_of_edit(
                feature,
                target,
                Strategy::Conda,
                applied,
                bare_details(),
                &facts.now,
            ),
        )
    }

    fn pypi_pin(
        &mut self,
        editor: &mut ManifestEditor,
        tried: &mut TriedState,
        facts: &Facts,
        feature: &str,
        target: &PinTarget,
        reason: Reason,
    ) -> (r: Result<RepairOutcome, String>)
        requires
            is_sound(old(editor).nodes()),
        ensures
            ({
                let (after, out) = pypi_pin_step(
                    old(self).plan_in(feature@, *old(editor), *facts),
                    old(self).ladder(*old(editor), *old(tried)),
                    target.deep_view(),
                    reason,
                );
                result_view(r) == out && moved(
                    *old(self),
                    *old(editor),
                    *old(tried),
                    *final(self),
                    *final(editor),
                    *final(tried),
                    after,
                    has_edits(out),
                )
            }),
    {
        if is_abi_anchor(&target.package) {
            return Err(target.package.clone());
        }
        if !self.guard_oscillation(&target.package, &target.version, Strategy::PypiDep) {
            return Err(target.package.clone());
        }
        let mut edits: Vec<AppliedEdit> = Vec::new();
        assert(edits.deep_view() =~= Seq::<EditView>::empty());
        proof {
            lemma_removal_keeps_the_way(
                editor.nodes(),
                feature@,
                TableKind::Conda,
                target.package@,
                feature@,
                TableKind::Pypi,
            );
        }
        match editor.remove_retread_entry(feature, TableKind::Conda, &target.package) {
            Some(edit) => {
                let ghost view = edit.deep_view();
                push_view(&mut edits, edit);
                assert(edits.deep_view() =~= seq![view]);
            },
            None => {},
        }
        let pin = editor.set_pypi_pin(
            feature,
            &target.package,
            &target.version,
            reason,
            &facts.today,
        );
        push_view(&mut edits, pin);
        tried.mark(&target.package, Strategy::PypiDep, false);
        Ok(
            outcome_of_edit(
                feature,
                target,
                Strategy::PypiDep,
                edits,
                bare_details(),
                &facts.now,
            ),
        )
    }

    fn override_pin(
        &mut self,
        editor: &mut ManifestEditor,
        tried: &mut TriedState,
        facts: &Facts,
        feature: &str,
        target: &PinTarget,
        reason: Reason,
    ) -> (r: Result<RepairOutcome, String>)
        requires
            is_sound(old(editor).nodes()),
        ensures
            ({
                let (after, out) = override_pin_step(
                    old(self).plan_in(feature@, *old(editor), *facts),
                    old(self).ladder(*old(editor), *old(tried)),
                    target.deep_view(),
                    reason,
                );
                result_view(r) == out && moved(
                    *old(self),
                    *old(editor),
                    *old(tried),
                    *final(self),
                    *final(editor),
                    *final(tried),
                    after,
                    has_edits(out),
                )
            }),
    {
        if is_abi_anchor(&target.package) {
            return Err(target.package.clone());
        }
        if tried.has(&target.package, Strategy::PypiOverride) {
            return Err(target.package.clone());
        }
        if !self.guard_oscillation(&target.package, &target.version, Strategy::PypiOverride) {
            return Err(target.package.clone());
        }
        let mut edits: Vec<AppliedEdit> = Vec::new();
        assert(edits.deep_view() =~= Seq::<EditView>::empty());
        proof {
            lemma_removal_keeps_the_way(
                editor.nodes(),
                feature@,
                TableKind::Pypi,
                target.package@,
                feature@,
                TableKind::Override,
            );
        }
        match editor.remove_retread_entry(feature, TableKind::Pypi, &target.package) {
            Some(edit) => {
                let ghost view = edit.deep_view();
                push_view(&mut edits, edit);
                assert(edits.deep_view() =~= seq![view]);
            },
            None => {},
        }
        let pin = editor.set_pypi_override(
            feature,
            &target.package,
            &target.version,
            reason,
            &facts.today,
        );
        push_view(&mut edits, pin);
        tried.mark(&target.package, Strategy::PypiOverride, false);
        Ok(
            outcome_of_edit(
                feature,
                target,
                Strategy::PypiOverride,
                edits,
                bare_details(),
                &facts.now,
            ),
        )
    }

    fn widen(
        &mut self,
        editor: &mut ManifestEditor,
        tried: &mut TriedState,
        facts: &Facts,
        feature: &str,
        target: &PinTarget,
        op: &str,
        conda_name: &str,
    ) -> (r: Result<RepairOutcome, String>)
        requires
            is_sound(old(editor).nodes()),
            can_widen(target.version@, old(self).ceiling_policy),
        ensures
            ({
                let (after, out) = widen_step(
                    old(self).plan_in(feature@, *old(editor), *facts),
                    old(self).ladder(*old(editor), *old(tried)),
                    target.deep_view(),
                    op@,
                    conda_name@,
                );
                result_view(r) == out && moved(
                    *old(self),
                    *old(editor),
                    *old(tried),
                    *final(self),
                    *final(editor),
                    *final(tried),
                    after,
                    has_edits(out),
                )
            }),
    {
        if is_abi_anchor(conda_name) {
            return Err(conda_name.to_owned());
        }
        let spec = widen_spec(op, &target.version, self.ceiling_policy);
        if !self.guard_oscillation(&target.package, &spec, Strategy::WidenConda) {
            return Err(target.package.clone());
        }
        let edit = editor.set_conda_widen(feature, conda_name, &spec, &facts.today);
        tried.mark(&target.package, Strategy::WidenConda, false);
        let details = AttemptDetails {
            old_spec: clone_option(&edit.before.value),
            new_spec: Some(spec),
            ceiling_policy: Some(self.ceiling_policy.as_str().to_owned()),
            before: Some(edit.before.clone()),
        };
        let ghost view = edit.deep_view();
        let applied: Vec<AppliedEdit> = vec![edit];
        assert(applied.deep_view() =~= seq![view]);
        Ok(outcome_of_edit(feature, target, Strategy::WidenConda, applied, details, &facts.now))
    }

    fn boundary(
        &mut self,
        editor: &mut ManifestEditor,
        tried: &mut TriedState,
        facts: &Facts,
        feature: &str,
        target: &PinTarget,
        reason: Reason,
    ) -> (r: Result<RepairOutcome, String>)
        requires
            is_sound(old(editor).nodes()),
        ensures
            ({
                let (after, out) = boundary_step(
                    old(self).plan_in(feature@, *old(editor), *facts),
                    old(self).ladder(*old(editor), *old(tried)),
                    target.deep_view(),
                    reason,
                );
                result_view(r) == out && moved(
                    *old(self),
                    *old(editor),
                    *old(tried),
                    *final(self),
                    *final(editor),
                    *final(tried),
                    after,
                    has_edits(out),
                )
            }),
    {
        if !tried.has(&target.package, Strategy::Conda) {
            if editor.has_user_entry(feature, TableKind::Conda, &target.package) {
                tried.mark(&target.package, Strategy::Conda, false);
                let attempt = ledger_attempt(
                    target,
                    Strategy::Conda,
                    "user",
                    bare_details(),
                    &facts.now,
                );
                return match self.pypi_pin(editor, tried, facts, feature, target, reason) {
                    Ok(out) => {
                        let mut line: String = describe_attempt(&attempt);
                        line.append("; skipped user-owned conda pin and ");
                        line.append(&out.summary_line);
                        let mut extra_attempts = out.extra_attempts;
                        push_view(&mut extra_attempts, attempt);
                        Ok(
                            RepairOutcome {
                                attempt: out.attempt,
                                extra_attempts,
                                applied: out.applied,
                                summary_line: line,
                                pack_override: out.pack_override,
                            },
                        )
                    },
                    Err(e) => Err(e),
                };
            }
            return self.conda_pin(editor, tried, facts, feature, target, reason);
        }
        if !tried.has(&target.package, Strategy::PypiDep) {
            return self.pypi_pin(editor, tried, facts, feature, target, reason);
        }
        if !tried.has(&target.package, Strategy::PypiOverride) {
            return self.override_pin(editor, tried, facts, feature, target, reason);
        }
        Err(target.package.clone())
    }

    fn no_candidates(
        &mut self,
        editor: &mut ManifestEditor,
        tried: &mut TriedState,
        facts: &Facts,
        feature: &str,
        target: &PinTarget,
    ) -> (r: Result<RepairOutcome, String>)
        requires
            is_sound(old(editor).nodes()),
        ensures
            ({
                let (after, out) = no_candidates_step(
                    old(self).plan_in(feature@, *old(editor), *facts),
                    old(self).ladder(*old(editor), *old(tried)),
                    target.deep_view(),
                );
                result_view(r) == out && moved(
                    *old(self),
                    *old(editor),
                    *old(tried),
                    *final(self),
                    *final(editor),
                    *final(tried),
                    after,
                    has_edits(out),
                )
            }),
    {
        let reason = Reason::NoCandidatesEscalation;
        if tried.has(&target.package, Strategy::Conda) && !tried.has(
            &target.package,
            Strategy::PypiDep,
        ) {
            self.pypi_pin(editor, tried, facts, feature, target, reason)
        } else if tried.has(&target.package, Strategy::PypiDep) && !tried.has(
            &target.package,
            Strategy::PypiOverride,
        ) {
            self.override_pin(editor, tried, facts, feature, target, reason)
        } else {
            Err(target.package.clone())
        }
    }

    fn pypi_override_from_conda(
        &mut self,
        editor: &mut ManifestEditor,
        tried: &mut TriedState,
        facts: &Facts,
        feature: &str,
        target: &PinTarget,
        conda_version: &str,
    ) -> (r: Result<RepairOutcome, String>)
        requires
            is_sound(old(editor).nodes()),
        ensures
            ({
                let (after, out) = override_from_conda_step(
                    old(self).plan_in(feature@, *old(editor), *facts),
                    old(self).ladder(*old(editor), *old(tried)),
                    target.deep_view(),
                    conda_version@,
                );
                result_view(r) == out && moved(
                    *old(self),
                    *old(editor),
                    *old(tried),
                    *final(self),
                    *final(editor),
                    *final(tried),
                    after,
                    has_edits(out),
                )
            }),
    {
        if is_abi_anchor(&target.package) {
            return Err(target.package.clone());
        }
        let version = strip_version_op(conda_version);
        if !self.guard_oscillation(&target.package, &version, Strategy::PypiOverride) {
            return Err(target.package.clone());
        }
        let edit = editor.set_pypi_override_from_conda(feature, &target.package, &version);
        tried.mark(&target.package, Strategy::PypiOverride, false);
        let details = AttemptDetails {
            old_spec: clone_option(&edit.before.value),
            new_spec: Some("==".to_owned().concat(&version)),
            ceiling_policy: None,
            before: None,
        };
        let mut line: String = "would add [".to_owned();
        line.append(&table_label(feature, TableKind::Override));
        line.append("] ");
        line.append(&target.package);
        line.append(" = \"==");
        line.append(&version);
        line.append("\"  (tier: pypi_override; conda-as-truth)");
        let ghost view = edit.deep_view();
        let applied: Vec<AppliedEdit> = vec![edit];
        assert(applied.deep_view() =~= seq![view]);
        let extra_attempts: Vec<LedgerAttempt> = Vec::new();
        assert(extra_attempts.deep_view() =~= Seq::<AttemptView>::empty());
        Ok(
            RepairOutcome {
                attempt: ledger_attempt(
                    target,
                    Strategy::PypiOverride,
                    "retread",
                    details,
                    &facts.now,
                ),
                extra_attempts,
                applied,
                summary_line: line,
                pack_override: None,
            },
        )
    }

    fn resolve_conda_pin_name_or_variant(
        &self,
        editor: &ManifestEditor,
        feature: &str,
        name: &str,
    ) -> (r: Option<String>)
        ensures
            r.deep_view() == pinned_variant(editor.nodes(), feature@, name@),
    {
        if editor.has_user_entry(feature, TableKind::Conda, name) {
            return Some(name.to_owned());
        }
        if !ends_with(name, "-gpu") {
            let gpu: String = name.to_owned().concat("-gpu");
            if editor.has_user_entry(feature, TableKind::Conda, &gpu) {
                return Some(gpu);
            }
        }
        if !ends_with(name, "-cpu") {
            let cpu: String = name.to_owned().concat("-cpu");
            if editor.has_user_entry(feature, TableKind::Conda, &cpu) {
                return Some(cpu);
            }
        }
        None
    }

    fn resolve_conda_pin_name_in(&self, editor: &ManifestEditor, feature: &str, package: &str) -> (r:
        Option<String>)
        ensures
            r.deep_view() == pin_name_in(editor.nodes(), self.names(), feature@, package@),
    {
        let canon = canonical_conda_name(package);
        match self.conda_name_map.get(&canon) {
            Some(candidates) => {
                let ghost all = candidates.deep_view();
                let n: usize = candidates.len();
                let mut i: usize = 0;
                while i < n
                    invariant
                        i <= n,
                        n == candidates@.len(),
                        all == candidates.deep_view(),
                        lookup(self.names(), canonical_name(package@)) == Some(all),
                        pinned_candidate(editor.nodes(), feature@, all, 0) == pinned_candidate(
                            editor.nodes(),
                            feature@,
                            all,
                            i as int,
                        ),
                    decreases n - i,
                {
                    assert(all[i as int] == candidates@[i as int].deep_view());
                    let found = self.resolve_conda_pin_name_or_variant(
                        editor,
                        feature,
                        &candidates[i],
                    );
                    if found.is_some() {
                        return found;
                    }
                    i = i + 1;
                }
            },
            None => {},
        }
        self.resolve_conda_pin_name_or_variant(editor, feature, package)
    }

    fn resolve_conda_pin_owner(&self, editor: &ManifestEditor, package: &str) -> (r: Option<
        (String, String),
    >)
        ensures
            r.deep_view() == pin_owner(
                editor.features(),
                self.feature@,
                self.names(),
                editor.nodes(),
                package@,
            ),
    {
        match self.resolve_conda_pin_name_in(editor, &self.feature, package) {
            Some(name) => {
                return Some((self.feature.clone(), name));
            },
            None => {},
        }
        let features = editor.feature_names();
        let ghost all = features.deep_view();
        let n: usize = features.len();
        let mut i: usize = 0;
        while i < n
            invariant
                i <= n,
                n == features@.len(),
                all == features.deep_view(),
                pin_owner(editor.features(), self.feature@, self.names(), editor.nodes(), package@)
                    == pin_owner_from(
                    all,
                    self.feature@,
                    self.names(),
                    editor.nodes(),
                    package@,
                    i as int,
                ),
            decreases n - i,
        {
            assert(all[i as int] == features@[i as int].deep_view());
            if !text_eq(&features[i], &self.feature) {
                match self.resolve_conda_pin_name_in(editor, &features[i], package) {
                    Some(name) => {
                        return Some((features[i].clone(), name));
                    },
                    None => {},
                }
            }
            i = i + 1;
        }
        None
    }

    fn exact_env_version(&self, deps: &Vec<(String, Vec<String>)>, package: &str) -> (r: Option<
        String,
    >)
        ensures
            r.deep_view() == env_version(
                deps.deep_view(),
                name_family(package@, self.names()),
                0,
            ),
    {
        let family = conda_name_family(package, &self.conda_name_map);
        let ghost all = family.deep_view();
        let ghost pairs = deps.deep_view();
        let n: usize = family.len();
        let mut i: usize = 0;
        while i < n
            invariant
                i <= n,
                n == family@.len(),
                all == family.deep_view(),
                pairs == deps.deep_view(),
                all == name_family(package@, self.names()),
                env_version(pairs, all, 0) == env_version(pairs, all, i as int),
            decreases n - i,
        {
            assert(all[i as int] == family@[i as int].deep_view());
            match find_key(deps, &family[i]) {
                Some(k) => match exact_pin_version(&deps[k].1) {
                    Some(v) => {
                        return Some(v);
                    },
                    None => {},
                },
                None => {},
            }
            i = i + 1;
        }
        None
    }

    fn resolve_pack_override(
        &self,
        editor: &ManifestEditor,
        tried: &TriedState,
        facts: &Facts,
        conflict_package: &str,
        requiring_chain: &Vec<String>,
        pack_name: &str,
    ) -> (r: Option<(String, String)>)
        ensures
            r.deep_view() == pack_override_target(
                self.plan(*editor, *facts),
                self.ladder(*editor, *tried),
                conflict_package@,
                requiring_chain.deep_view(),
                pack_name@,
            ),
    {
        let ghost plan = self.plan(*editor, *facts);
        let ghost st = self.ladder(*editor, *tried);
        let dir = match facts.dir_of(editor.project_dir(), pack_name) {
            Some(d) => d,
            None => {
                return None;
            },
        };
        let none: Vec<(String, Vec<String>)> = Vec::new();
        assert(none.deep_view() =~= Seq::<(Seq<char>, Seq<Seq<char>>)>::empty());
        let deps: &Vec<(String, Vec<String>)> = match find_key(&facts.packs, &dir) {
            Some(i) => &facts.packs[i].1.env_dependencies,
            None => &none,
        };
        let ghost pairs = deps.deep_view();
        let mut candidates: Vec<String> = vec![conflict_package.to_owned()];
        assert(candidates.deep_view() =~= seq![conflict_package@]);
        let mut chain = clone_texts(requiring_chain);
        candidates.append(&mut chain);
        let ghost all = candidates.deep_view();
        assert(all =~= seq![conflict_package@] + requiring_chain.deep_view());
        let n: usize = candidates.len();
        let mut i: usize = 0;
        while i < n
            invariant
                i <= n,
                n == candidates@.len(),
                all == candidates.deep_view(),
                pairs == deps.deep_view(),
                plan == self.plan(*editor, *facts),
                st == self.ladder(*editor, *tried),
                pack_override_target(
                    plan,
                    st,
                    conflict_package@,
                    requiring_chain.deep_view(),
                    pack_name@,
                ) == pack_candidate(plan, st, pairs, all, 0),
                pack_candidate(plan, st, pairs, all, 0) == pack_candidate(
                    plan,
                    st,
                    pairs,
                    all,
                    i as int,
                ),
            decreases n - i,
        {
            assert(all[i as int] == candidates@[i as int].deep_view());
            if !tried.has(&candidates[i], Strategy::PypiOverride) && !is_abi_anchor(&candidates[i]) {
                match self.exact_env_version(deps, &candidates[i]) {
                    Some(v) => {
                        return Some((candidates[i].clone(), v));
                    },
                    None => {},
                }
            }
            i = i + 1;
        }
        None
    }

    fn try_pack_override(
        &mut self,
        editor: &ManifestEditor,
        tried: &mut TriedState,
        facts: &Facts,
        target: &PinTarget,
        pkg: &str,
        version: &str,
        bundle: &str,
    ) -> (r: Option<RepairOutcome>)
        requires
            is_sound(editor.nodes()),
        ensures
            ({
                let (after, out) = try_pack_step(
                    old(self).plan(*editor, *facts),
                    old(self).ladder(*editor, *old(tried)),
                    target.deep_view(),
                    pkg@,
                    version@,
                    bundle@,
                );
                r.deep_view() == out && moved(
                    *old(self),
                    *editor,
                    *old(tried),
                    *final(self),
                    *editor,
                    *final(tried),
                    after,
                    (out matches Some(o) && o.applied.len() > 0),
                )
            }),
    {
        if is_abi_anchor(pkg) {
            return None;
        }
        if !self.guard_oscillation(pkg, version, Strategy::PypiOverride) {
            return None;
        }
        let pack_pixi = match facts.manifest_of(editor.project_dir(), bundle) {
            Some(p) => p,
            None => {
                return None;
            },
        };
        tried.mark(pkg, Strategy::PypiOverride, false);
        let attributed = PinTarget {
            package: pkg.to_owned(),
            version: version.to_owned(),
            iter: target.iter,
            conflict: target.conflict.clone(),
        };
        let spec: String = "==".to_owned().concat(version);
        Some(
            outcome_of_override(
                &attributed,
                bundle,
                pack_pixi,
                None,
                spec,
                "conda-as-truth",
                &facts.now,
            ),
        )
    }

    fn chain_pypi_override(
        &mut self,
        editor: &mut ManifestEditor,
        tried: &mut TriedState,
        facts: &Facts,
        target: &PinTarget,
        requiring_chain: &Vec<String>,
    ) -> (r: Option<RepairOutcome>)
        requires
            is_sound(old(editor).nodes()),
        ensures
            ({
                let st = old(self).ladder(*old(editor), *old(tried));
                let (after, out) = match chain_override(
                    old(self).plan(*old(editor), *facts),
                    st,
                    target.deep_view(),
                    requiring_chain.deep_view(),
                    0,
                ) {
                    Some((after, out)) => (after, Some(out)),
                    None => (st, None),
                };
                r.deep_view() == out && moved(
                    *old(self),
                    *old(editor),
                    *old(tried),
                    *final(self),
                    *final(editor),
                    *final(tried),
                    after,
                    (out matches Some(o) && o.applied.len() > 0),
                )
            }),
    {
        let ghost plan = self.plan(*editor, *facts);
        let ghost st = self.ladder(*editor, *tried);
        let ghost all = requiring_chain.deep_view();
        let ghost t = target.deep_view();
        let n: usize = requiring_chain.len();
        let mut i: usize = 0;
        while i < n
            invariant
                i <= n,
                n == requiring_chain@.len(),
                all == requiring_chain.deep_view(),
                t == target.deep_view(),
                plan == old(self).plan(*old(editor), *facts),
                st == old(self).ladder(*old(editor), *old(tried)),
                *editor == *old(editor),
                plan == self.plan(*editor, *facts),
                moved(*old(self), *old(editor), *old(tried), *self, *editor, *tried, st, false),
                chain_override(plan, st, t, all, 0) == chain_override(plan, st, t, all, i as int),
            decreases n - i,
        {
            let requirer = &requiring_chain[i];
            assert(all[i as int] == requirer.deep_view());
            if !tried.has(requirer, Strategy::PypiOverride) {
                match self.resolve_conda_pin_owner(editor, requirer) {
                    Some((feature, conda_name)) => {
                        let snap = editor.entry_snapshot(&feature, TableKind::Conda, &conda_name);
                        match snap.value {
                            Some(pin) => {
                                let attributed = PinTarget {
                                    package: requirer.clone(),
                                    version: target.version.clone(),
                                    iter: target.iter,
                                    conflict: target.conflict.clone(),
                                };
                                let ghost there = self.plan_in(feature@, *editor, *facts);
                                assert(there == PlanView { feature: feature@, ..plan });
                                match self.pypi_override_from_conda(
                                    editor,
                                    tried,
                                    facts,
                                    &feature,
                                    &attributed,
                                    &pin,
                                ) {
                                    Ok(out) => {
                                        return Some(out);
                                    },
                                    Err(_) => {},
                                }
                            },
                            None => {},
                        }
                    },
                    None => {},
                }
            }
            i = i + 1;
        }
        None
    }

    fn widen_or_pin(
        &mut self,
        editor: &mut ManifestEditor,
        tried: &mut TriedState,
        facts: &Facts,
        target: &PinTarget,
        op: &str,
        owner: Option<(String, String)>,
    ) -> (r: Result<RepairOutcome, String>)
        requires
            is_sound(old(editor).nodes()),
            can_widen(target.version@, old(self).ceiling_policy),
        ensures
            ({
                let (after, out) = widen_or_pin_step(
                    old(self).plan(*old(editor), *facts),
                    old(self).ladder(*old(editor), *old(tried)),
                    target.deep_view(),
                    op@,
                    owner.deep_view(),
                );
                result_view(r) == out && moved(
                    *old(self),
                    *old(editor),
                    *old(tried),
                    *final(self),
                    *final(editor),
                    *final(tried),
                    after,
                    has_edits(out),
                )
            }),
    {
        let (feature, name) = match owner {
            Some(o) => o,
            None => (self.feature.clone(), target.package.clone()),
        };
        if !tried.has(&target.package, Strategy::WidenConda) {
            self.widen(editor, tried, facts, &feature, target, op, &name)
        } else {
            self.boundary(editor, tried, facts, &feature, target, Reason::CondaBoundary)
        }
    }

    fn workspace_pypi_override(
        &mut self,
        editor: &mut ManifestEditor,
        tried: &mut TriedState,
        facts: &Facts,
        target: &PinTarget,
        conda_version: &str,
        requiring_chain: &Vec<String>,
        owner: &Option<(String, String)>,
    ) -> (r: Option<RepairOutcome>)
        requires
            is_sound(old(editor).nodes()),
        ensures
            ({
                let st = old(self).ladder(*old(editor), *old(tried));
                let (after, out) = match workspace_override(
                    old(self).plan(*old(editor), *facts),
                    st,
                    target.deep_view(),
                    conda_version@,
                    requiring_chain.deep_view(),
                    owner.deep_view(),
                ) {
                    Some((after, out)) => (after, Some(out)),
                    None => (st, None),
                };
                r.deep_view() == out && moved(
                    *old(self),
                    *old(editor),
                    *old(tried),
                    *final(self),
                    *final(editor),
                    *final(tried),
                    after,
                    (out matches Some(o) && o.applied.len() > 0),
                )
            }),
    {
        match owner {
            Some((feature, _)) => {
                if tried.has(&target.package, Strategy::PypiOverride) {
                    return None;
                }
                match self.pypi_override_from_conda(
                    editor,
                    tried,
                    facts,
                    feature,
                    target,
                    conda_version,
                ) {
                    Ok(out) => Some(out),
                    Err(_) => None,
                }
            },
            None => self.chain_pypi_override(editor, tried, facts, target, requiring_chain),
        }
    }

    fn workspace_widen(
        &mut self,
        editor: &mut ManifestEditor,
        tried: &mut TriedState,
        facts: &Facts,
        target: &PinTarget,
        op: &str,
        conda_version: &str,
        requiring_chain: &Vec<String>,
        pack_name: &Option<String>,
    ) -> (r: Result<RepairOutcome, String>)
        requires
            is_sound(old(editor).nodes()),
            can_widen(target.version@, old(self).ceiling_policy),
        ensures
            ({
                let (after, out) = workspace_widen_step(
                    old(self).plan(*old(editor), *facts),
                    old(self).ladder(*old(editor), *old(tried)),
                    target.deep_view(),
                    op@,
                    conda_version@,
                    requiring_chain.deep_view(),
                    pack_name.deep_view(),
                );
                result_view(r) == out && moved(
                    *old(self),
                    *old(editor),
                    *old(tried),
                    *final(self),
                    *final(editor),
                    *final(tried),
                    after,
                    has_edits(out),
                )
            }),
    {
        let owner = self.resolve_conda_pin_owner(editor, &target.package);
        if self.relax_preference == RelaxPreference::Conda && pack_name.is_none() {
            match self.workspace_pypi_override(
                editor,
                tried,
                facts,
                target,
                conda_version,
                requiring_chain,
                &owner,
            ) {
                Some(out) => {
                    return Ok(out);
                },
                None => {},
            }
        }
        self.widen_or_pin(editor, tried, facts, target, op, owner)
    }

    fn conda_widen_needed(
        &mut self,
        editor: &mut ManifestEditor,
        tried: &mut TriedState,
        facts: &Facts,
        target: &PinTarget,
        op: &str,
        conda_version: &str,
        requiring_chain: &Vec<String>,
        pack_name: &Option<String>,
    ) -> (r: Result<RepairOutcome, String>)
        requires
            is_sound(old(editor).nodes()),
            can_widen(target.version@, old(self).ceiling_policy),
        ensures
            ({
                let (after, out) = widen_needed_step(
                    old(self).plan(*old(editor), *facts),
                    old(self).ladder(*old(editor), *old(tried)),
                    target.deep_view(),
                    op@,
                    conda_version@,
                    requiring_chain.deep_view(),
                    pack_name.deep_view(),
                );
                result_view(r) == out && moved(
                    *old(self),
                    *old(editor),
                    *old(tried),
                    *final(self),
                    *final(editor),
                    *final(tried),
                    after,
                    has_edits(out),
                )
            }),
    {
        if self.relax_preference == RelaxPreference::Conda {
            match pack_name {
                Some(bundle) => match self.resolve_pack_override(
                    editor,
                    tried,
                    facts,
                    &target.package,
                    requiring_chain,
                    bundle,
                ) {
                    Some((pkg, version)) => match self.try_pack_override(
                        editor,
                        tried,
                        facts,
                        target,
                        &pkg,
                        &version,
                        bundle,
                    ) {
                        Some(out) => {
                            return Ok(out);
                        },
                        None => {},
                    },
                    None => {},
                },
                None => {},
            }
        }
        self.workspace_widen(
            editor,
            tried,
            facts,
            target,
            op,
            conda_version,
            requiring_chain,
            pack_name,
        )
    }

    fn upstream_pin_conflict(
        &mut self,
        editor: &ManifestEditor,
        tried: &mut TriedState,
        facts: &Facts,
        target: &PinTarget,
        pinned_version: &str,
        new_spec: String,
        pack_name: &Option<String>,
        why: &str,
    ) -> (r: Result<RepairOutcome, String>)
        requires
            is_sound(editor.nodes()),
        ensures
            ({
                let (after, out) = upstream_pin_step(
                    old(self).plan(*editor, *facts),
                    old(self).ladder(*editor, *old(tried)),
                    target.deep_view(),
                    pinned_version@,
                    new_spec@,
                    pack_name.deep_view(),
                    why@,
                );
                result_view(r) == out && moved(
                    *old(self),
                    *editor,
                    *old(tried),
                    *final(self),
                    *editor,
                    *final(tried),
                    after,
                    has_edits(out),
                )
            }),
    {
        if is_abi_anchor(&target.package) {
            return Err(target.package.clone());
        }
        let bundle = match pack_name {
            Some(b) => b,
            None => {
                return Err(target.package.clone());
            },
        };
        if !self.guard_oscillation(&target.package, &new_spec, Strategy::PypiOverride) {
            return Err(target.package.clone());
        }
        if tried.has(&target.package, Strategy::PypiOverride) {
            return Err(target.package.clone());
        }
        let dir = editor.project_dir();
        if !facts.deps_from_owns_exact_pin(dir, bundle, &target.package) {
            return Err(target.package.clone());
        }
        let pack_pixi = match facts.manifest_of(dir, bundle) {
            Some(p) => p,
            None => {
                return Err(target.package.clone());
            },
        };
        tried.mark(&target.package, Strategy::PypiOverride, false);
        let old_spec: String = "==".to_owned().concat(pinned_version);
        Ok(
            outcome_of_override(
                target,
                bundle,
                pack_pixi,
                Some(old_spec),
                new_spec,
                why,
                &facts.now,
            ),
        )
    }

    fn deps_from_pin_conflict(
        &mut self,
        editor: &ManifestEditor,
        tried: &mut TriedState,
        facts: &Facts,
        target: &PinTarget,
        pinned_version: &str,
        op: &str,
        pack_name: &Option<String>,
    ) -> (r: Result<RepairOutcome, String>)
        requires
            is_sound(editor.nodes()),
        ensures
            ({
                let (after, out) = upstream_pin_step(
                    old(self).plan(*editor, *facts),
                    old(self).ladder(*editor, *old(tried)),
                    target.deep_view(),
                    pinned_version@,
                    op@ + target.version@,
                    pack_name.deep_view(),
                    "deps-from-advisory"@,
                );
                result_view(r) == out && moved(
                    *old(self),
                    *editor,
                    *old(tried),
                    *final(self),
                    *editor,
                    *final(tried),
                    after,
                    has_edits(out),
                )
            }),
    {
        let new_spec: String = op.to_owned().concat(&target.version);
        self.upstream_pin_conflict(
            editor,
            tried,
            facts,
            target,
            pinned_version,
            new_spec,
            pack_name,
            "deps-from-advisory",
        )
    }

    fn no_wheel_transitive_conflict(
        &mut self,
        editor: &ManifestEditor,
        tried: &mut TriedState,
        facts: &Facts,
        target: &PinTarget,
        pack_name: &Option<String>,
    ) -> (r: Result<RepairOutcome, String>)
        requires
            is_sound(editor.nodes()),
        ensures
            ({
                let (after, out) = upstream_pin_step(
                    old(self).plan(*editor, *facts),
                    old(self).ladder(*editor, *old(tried)),
                    target.deep_view(),
                    target.version@,
                    ">="@ + target.version@,
                    pack_name.deep_view(),
                    "deps-from-advisory; no-wheel-transitive"@,
                );
                result_view(r) == out && moved(
                    *old(self),
                    *editor,
                    *old(tried),
                    *final(self),
                    *editor,
                    *final(tried),
                    after,
                    has_edits(out),
                )
            }),
    {
        let new_spec: String = ">=".to_owned().concat(&target.version);
        self.upstream_pin_conflict(
            editor,
            tried,
            facts,
            target,
            &target.version,
            new_spec,
            pack_name,
            "deps-from-advisory; no-wheel-transitive",
        )
    }

    fn conda_range_vs_pack_pin(
        &mut self,
        editor: &ManifestEditor,
        tried: &mut TriedState,
        facts: &Facts,
        target: &PinTarget,
        conda_range: &str,
        pack_name: &str,
    ) -> (r: Result<RepairOutcome, String>)
        requires
            is_sound(editor.nodes()),
        ensures
            ({
                let (after, out) = range_vs_pin_step(
                    old(self).plan(*editor, *facts),
                    old(self).ladder(*editor, *old(tried)),
                    target.deep_view(),
                    conda_range@,
                    pack_name@,
                );
                result_view(r) == out && moved(
                    *old(self),
                    *editor,
                    *old(tried),
                    *final(self),
                    *editor,
                    *final(tried),
                    after,
                    has_edits(out),
                )
            }),
    {
        if is_abi_anchor(&target.package) {
            return Err(target.package.clone());
        }
        let pack_pixi = match facts.manifest_of(editor.project_dir(), pack_name) {
            Some(p) => p,
            None => {
                return Err(target.package.clone());
            },
        };
        let new_spec = translate_conda_range_to_pep440(conda_range);
        let key = tried_key(&target.package, pack_name);
        if !self.guard_oscillation(&key, &new_spec, Strategy::PypiOverride) {
            return Err(key);
        }
        if tried.has(&key, Strategy::PypiOverride) {
            return Err(target.package.clone());
        }
        tried.mark(&key, Strategy::PypiOverride, false);
        let old_spec: String = "==".to_owned().concat(&target.version);
        Ok(
            outcome_of_override(
                target,
                pack_name,
                pack_pixi,
                Some(old_spec),
                new_spec,
                "workspace-range-vs-auto-routed-pin",
                &facts.now,
            ),
        )
    }

    fn nested_conda_cap(
        &mut self,
        editor: &ManifestEditor,
        tried: &mut TriedState,
        facts: &Facts,
        target: &PinTarget,
        pack_name: &str,
        cap_op: &str,
        cap_version: &str,
    ) -> (r: Result<RepairOutcome, String>)
        requires
            is_sound(editor.nodes()),
        ensures
            ({
                let (after, out) = nested_cap_step(
                    old(self).plan(*editor, *facts),
                    old(self).ladder(*editor, *old(tried)),
                    target.deep_view(),
                    pack_name@,
                    cap_op@,
                    cap_version@,
                );
                result_view(r) == out && moved(
                    *old(self),
                    *editor,
                    *old(tried),
                    *final(self),
                    *editor,
                    *final(tried),
                    after,
                    has_edits(out),
                )
            }),
    {
        if is_abi_anchor(&target.package) {
            return Err(target.package.clone());
        }
        let dir = editor.project_dir();
        let pack_dir = match facts.dir_of(dir, pack_name) {
            Some(d) => d,
            None => {
                return Err(target.package.clone());
            },
        };
        let pack_pixi = match facts.manifest_of(dir, pack_name) {
            Some(p) => p,
            None => {
                return Err(target.package.clone());
            },
        };
        let existing = match facts.override_of(&pack_dir, &target.package) {
            Some(spec) => spec,
            None => {
                return Err(target.package.clone());
            },
        };
        let narrowed = match intersect_range_with_cap(&existing, cap_op, cap_version) {
            Ok(spec) => spec,
            Err(_) => {
                return Err(target.package.clone());
            },
        };
        let key: String = tried_key(&target.package, pack_name).concat("#narrow");
        if !self.guard_oscillation(&key, &narrowed, Strategy::PypiOverride) {
            return Err(key);
        }
        tried.mark(&key, Strategy::PypiOverride, false);
        Ok(
            outcome_of_override(
                target,
                pack_name,
                pack_pixi,
                Some(existing),
                narrowed,
                "nested-cap-intersection",
                &facts.now,
            ),
        )
    }

    /// Answers a conflict with the next step of the ladder: the manifest is
    /// edited, or the outcome says which override is to be recorded. The error is
    /// what nothing is left to try for.
    pub fn repair(
        &mut self,
        editor: &mut ManifestEditor,
        tried: &mut TriedState,
        facts: &Facts,
        conflict: &Conflict,
        iter: u32,
    ) -> (r: Result<RepairOutcome, String>)
        requires
            is_sound(old(editor).nodes()),
            conflict.deep_view() matches ConflictView::CondaWidenNeeded { floor, .. } ==> can_widen(
                floor,
                old(self).ceiling_policy,
            ),
        ensures
            ({
                let (after, out) = repair_step(
                    old(self).plan(*old(editor), *facts),
                    old(self).ladder(*old(editor), *old(tried)),
                    conflict.deep_view(),
                    iter,
                );
                result_view(r) == out && moved(
                    *old(self),
                    *old(editor),
                    *old(tried),
                    *final(self),
                    *final(editor),
                    *final(tried),
                    after,
                    has_edits(out),
                )
            }),
    {
        let feature: String = self.feature.clone();
        match conflict {
            Conflict::NoCandidates { package, version } => {
                let target = PinTarget::of(package, version, iter, conflict);
                self.no_candidates(editor, tried, facts, &feature, &target)
            },
            Conflict::CondaBoundary { package, version } => {
                let target = PinTarget::of(package, version, iter, conflict);
                self.boundary(editor, tried, facts, &feature, &target, Reason::CondaBoundary)
            },
            Conflict::PypiInternal { package, version } => {
                let target = PinTarget::of(package, version, iter, conflict);
                self.override_pin(editor, tried, facts, &feature, &target, Reason::PypiInternal)
            },
            Conflict::CondaWidenNeeded {
                package,
                op,
                floor,
                conda_version,
                requiring_chain,
                pack_name,
            } => {
                let target = PinTarget::of(package, floor, iter, conflict);
                self.conda_widen_needed(
                    editor,
                    tried,
                    facts,
                    &target,
                    op,
                    conda_version,
                    requiring_chain,
                    pack_name,
                )
            },
            Conflict::DepsFromPin { package, pinned_version, op, floor, requirer: _, pack_name } => {
                let target = PinTarget::of(package, floor, iter, conflict);
                self.deps_from_pin_conflict(
                    editor,
                    tried,
                    facts,
                    &target,
                    pinned_version,
                    op,
                    pack_name,
                )
            },
            Conflict::NoWheelTransitive {
                package: _,
                range: _,
                requirer,
                requirer_pin,
                pack_name,
            } => {
                let target = PinTarget::of(requirer, requirer_pin, iter, conflict);
                self.no_wheel_transitive_conflict(editor, tried, facts, &target, pack_name)
            },
            Conflict::CondaRangeVsPackPin { package, conda_range, pack_demand, pack_name } => {
                let target = PinTarget::of(package, pack_demand, iter, conflict);
                self.conda_range_vs_pack_pin(
                    editor,
                    tried,
                    facts,
                    &target,
                    conda_range,
                    pack_name,
                )
            },
            Conflict::NestedCondaCap {
                package,
                pack_name,
                pack_demand,
                cap_op,
                cap_version,
                via: _,
            } => {
                let target = PinTarget::of(package, pack_demand, iter, conflict);
                self.nested_conda_cap(
                    editor,
                    tried,
                    facts,
                    &target,
                    pack_name,
                    cap_op,
                    cap_version,
                )
            },
        }
    }
}

// ---------------------------------------------------------------------------
// Laws
// ---------------------------------------------------------------------------

/// Whether a name begins with a text.
pub open spec fn name_begins(name: Seq<char>, start: Seq<char>) -> bool {
    exists|rest: Seq<char>| name == #[trigger] (start + rest)
}

/// Whether a name is one of those that the interface to the machine is known by.
pub open spec fn is_machine_name(name: Seq<char>) -> bool {
    ||| name == "python"@
    ||| name == "python_abi"@
    ||| name == "pypy"@
    ||| name == "libc"@
    ||| name == "glibc"@
    ||| name == "libstdcxx-ng"@
    ||| name == "libstdcxx"@
    ||| name == "libcxx"@
    ||| name == "libcxx-devel"@
    ||| name == "cuda-version"@
}

proof fn lemma_begins(name: Seq<char>, start: Seq<char>)
    ensures
        start.is_prefix_of(name) <==> name_begins(name, start),
{
    if start.is_prefix_of(name) {
        let rest = name.skip(start.len() as int);
        assert(name =~= start + rest);
    }
    if name_begins(name, start) {
        let rest = choose|rest: Seq<char>| name == #[trigger] (start + rest);
        assert(name.subrange(0, start.len() as int) =~= start);
    }
}

proof fn lemma_machine_names(name: Seq<char>)
    ensures
        anchor_names().contains(name) ==> is_machine_name(name) || name == "__glibc"@ || name
            == "__cuda"@,
        is_machine_name(name) ==> anchor_names().contains(name),
{
    let all = anchor_names();
    assert(all[0] == "python"@ && all[1] == "python_abi"@ && all[2] == "pypy"@ && all[3]
        == "libc"@);
    assert(all[4] == "glibc"@ && all[5] == "__glibc"@ && all[6] == "libstdcxx-ng"@ && all[7]
        == "libstdcxx"@);
    assert(all[8] == "libcxx"@ && all[9] == "libcxx-devel"@ && all[10] == "cuda-version"@
        && all[11] == "__cuda"@);
}

proof fn lemma_anchor_prefixes(name: Seq<char>)
    ensures
        (exists|i: int|
            0 <= i < anchor_prefixes().len() && (#[trigger] anchor_prefixes()[i]).is_prefix_of(name))
            <==> ("__"@.is_prefix_of(name) || "gcc_"@.is_prefix_of(name) || "gxx_"@.is_prefix_of(
            name,
        ) || "g++_"@.is_prefix_of(name) || "gfortran_"@.is_prefix_of(name) || "clang_"@.is_prefix_of(
            name,
        ) || "clangxx_"@.is_prefix_of(name) || "binutils_"@.is_prefix_of(name)
            || "ld_"@.is_prefix_of(name) || "sysroot_"@.is_prefix_of(name)),
{
    let all = anchor_prefixes();
    assert(all[0] == "__"@ && all[1] == "gcc_"@ && all[2] == "gxx_"@ && all[3] == "g++_"@);
    assert(all[4] == "gfortran_"@ && all[5] == "clang_"@ && all[6] == "clangxx_"@);
    assert(all[7] == "binutils_"@ && all[8] == "ld_"@ && all[9] == "sysroot_"@);
}

/// What fixes the interface to the machine is a name that is known to, a virtual package,
/// a compiler, or a library of a compiler for one machine; and nothing else is.
pub proof fn law_anchors_fix_the_machine(name: Seq<char>)
    ensures
        is_anchor(name) <==> {
            ||| is_machine_name(name)
            ||| name_begins(name, "__"@)
            ||| exists|start: Seq<char>| name == #[trigger] (start + "_compiler"@)
            ||| name_begins(name, "gcc_"@)
            ||| name_begins(name, "gxx_"@)
            ||| name_begins(name, "g++_"@)
            ||| name_begins(name, "gfortran_"@)
            ||| name_begins(name, "clang_"@)
            ||| name_begins(name, "clangxx_"@)
            ||| name_begins(name, "binutils_"@)
            ||| name_begins(name, "ld_"@)
            ||| name_begins(name, "sysroot_"@)
        },
{
    lemma_machine_names(name);
    lemma_anchor_prefixes(name);
    lemma_begins(name, "__"@);
    lemma_begins(name, "gcc_"@);
    lemma_begins(name, "gxx_"@);
    lemma_begins(name, "g++_"@);
    lemma_begins(name, "gfortran_"@);
    lemma_begins(name, "clang_"@);
    lemma_begins(name, "clangxx_"@);
    lemma_begins(name, "binutils_"@);
    lemma_begins(name, "ld_"@);
    lemma_begins(name, "sysroot_"@);
    reveal_strlit("__");
    reveal_strlit("__glibc");
    reveal_strlit("__cuda");
    reveal_strlit("_compiler");
    assert("__glibc"@ =~= "__"@ + "__glibc"@.skip(2));
    assert("__cuda"@ =~= "__"@ + "__cuda"@.skip(2));
    if "_compiler"@.is_suffix_of(name) {
        let start = name.take(name.len() - "_compiler"@.len());
        assert(name =~= start + "_compiler"@);
    }
    if exists|start: Seq<char>| name == #[trigger] (start + "_compiler"@) {
        let start = choose|start: Seq<char>| name == #[trigger] (start + "_compiler"@);
        assert(name.subrange(start.len() as int, name.len() as int) =~= "_compiler"@);
    }
}

/// A table's name is that of its kind, behind the feature's own unless that is the
/// default one: no two tables of a feature have one name.
pub proof fn law_table_names_tell_the_tables(feature: Seq<char>)
    requires
        feature != "default"@,
    ensures
        table_name("default"@, TableKind::Conda) == "dependencies"@,
        table_name("default"@, TableKind::Pypi) == "pypi-dependencies"@,
        table_name("default"@, TableKind::Override) == "pypi-options.dependency-overrides"@,
        table_name(feature, TableKind::Conda) == "feature."@ + feature + ".dependencies"@,
        table_name(feature, TableKind::Pypi) == "feature."@ + feature + ".pypi-dependencies"@,
        table_name(feature, TableKind::Override) == "feature."@ + feature
            + ".pypi-options.dependency-overrides"@,
{
    reveal_strlit(".");
    reveal_strlit("dependencies");
    reveal_strlit(".dependencies");
    reveal_strlit("pypi-dependencies");
    reveal_strlit(".pypi-dependencies");
    reveal_strlit("pypi-options.dependency-overrides");
    reveal_strlit(".pypi-options.dependency-overrides");
    let head = "feature."@ + feature;
    assert(head + "."@ + "dependencies"@ =~= head + ".dependencies"@);
    assert(head + "."@ + "pypi-dependencies"@ =~= head + ".pypi-dependencies"@);
    assert(head + "."@ + "pypi-options.dependency-overrides"@ =~= head
        + ".pypi-options.dependency-overrides"@);
}

/// The line on an edit shows the table that it is made in, the package, and the spec that
/// is written: the widened one, or the pinned version.
pub proof fn law_edit_line_shows_what_is_written(
    feature: Seq<char>,
    t: TargetView,
    details: DetailsView,
    spec: Seq<char>,
)
    requires
        details.new_spec == Some(spec),
    ensures
        edit_line(feature, t, Strategy::WidenConda, details) == "would add ["@ + table_name(
            feature,
            TableKind::Conda,
        ) + "] "@ + t.package + " = \""@ + spec + "\"  (tier: "@ + "widen-conda"@ + ")"@,
        edit_line(feature, t, Strategy::Conda, details) == "would add ["@ + table_name(
            feature,
            TableKind::Conda,
        ) + "] "@ + t.package + " = \""@ + ("=="@ + t.version) + "\"  (tier: "@ + "conda"@ + ")"@,
        edit_line(feature, t, Strategy::PypiDep, details) == "would add ["@ + table_name(
            feature,
            TableKind::Pypi,
        ) + "] "@ + t.package + " = \""@ + ("=="@ + t.version) + "\"  (tier: "@ + "pypi_dep"@
            + ")"@,
        edit_line(feature, t, Strategy::PypiOverride, details) == "would add ["@ + table_name(
            feature,
            TableKind::Override,
        ) + "] "@ + t.package + " = \""@ + ("=="@ + t.version) + "\"  (tier: "@ + "pypi_override"@
            + ")"@,
{
}

/// The record of an attempt says of its target what the target says, names its strategy
/// and its tier alike, and is not marked as failed.
pub proof fn law_record_says_what_was_attempted(
    t: TargetView,
    strategy: Strategy,
    source: Seq<char>,
    details: DetailsView,
    now: Seq<char>,
)
    ensures
        ({
            let a = attempt_record(t, strategy, source, details, now);
            &&& a.package == t.package && a.version == Some(t.version) && a.iter == t.iter
            &&& a.conflict == t.conflict && a.source == source && a.ts == now && !a.failed
            &&& strategy_named(a.strategy) == strategy && a.tier == a.strategy
            &&& a.old_spec == details.old_spec && a.new_spec == details.new_spec
            &&& a.ceiling_policy == details.ceiling_policy && a.before == details.before
        }),
{
    law_strategy_names_round_trip(strategy);
}

} // verus!
