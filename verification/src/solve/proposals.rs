//! What a check proposes for the packs: which pack each proposal is for, and what is
//! recorded when they are taken.
use crate::solve::audit::{
    blocker, clash_count, AuditReport, ClashView, FailureView, ReportView,
    RetreadConflictSuggestion, RetreadMutuallyUnsatisfiable, SuggestionView,
};
use crate::solve::order::{
    all_placed, in_their_order, law_placed_texts_are_in_order, lemma_lists_total,
    lemma_lists_transitive, lists_before, lists_come_before, place_text, same_lists, text_placed,
};
use crate::solve::workspace::{canonical_conda_name, canonical_name, join_path, path_joined};
use crate::text::{
    decimal, decimal_text, in_order, join, joined, lemma_before_total, pieces, push_view, split,
    text_before, text_eq,
};
use vstd::prelude::*;

verus! {

broadcast use vstd::seq_lib::group_seq_properties;

// ---------------------------------------------------------------------------
// The pack that a proposal is for
// ---------------------------------------------------------------------------

/// The paths that tables of path dependencies give for a bundle, whose name may be
/// written in any way.
pub open spec fn paths_of_bundle(table: Seq<(Seq<char>, Seq<char>)>, bundle: Seq<char>) -> Seq<
    Seq<char>,
>
    decreases table.len(),
{
    if table.len() == 0 {
        Seq::empty()
    } else {
        let before = paths_of_bundle(table.drop_last(), bundle);
        if canonical_name(table.last().0) == canonical_name(bundle) {
            text_placed(before, table.last().1)
        } else {
            before
        }
    }
}

/// The entries of tables, one table after the other.
pub open spec fn entries_of(tables: Seq<Seq<(Seq<char>, Seq<char>)>>) -> Seq<
    (Seq<char>, Seq<char>),
>
    decreases tables.len(),
{
    if tables.len() == 0 {
        Seq::empty()
    } else {
        entries_of(tables.drop_last()) + tables.last()
    }
}

/// The paths that the tables of path dependencies of a workspace give for a bundle,
/// in order and each once.
pub fn matching_paths(tables: &Vec<Vec<(String, String)>>, bundle: &str) -> (r: Vec<String>)
    ensures
        r.deep_view() == paths_of_bundle(entries_of(tables.deep_view()), bundle@),
{
    let name: String = canonical_conda_name(bundle);
    let ghost all = tables.deep_view();
    let mut out: Vec<String> = Vec::new();
    assert(out.deep_view() =~= Seq::<Seq<char>>::empty());
    let n: usize = tables.len();
    let mut i: usize = 0;
    while i < n
        invariant
            i <= n,
            n == tables@.len(),
            all == tables.deep_view(),
            name@ == canonical_name(bundle@),
            out.deep_view() == paths_of_bundle(entries_of(all.take(i as int)), bundle@),
        decreases n - i,
    {
        assert(all.take(i + 1).drop_last() =~= all.take(i as int));
        assert(all.take(i + 1).last() == all[i as int]);
        assert(all[i as int] == tables@[i as int].deep_view());
        let ghost before = entries_of(all.take(i as int));
        let ghost table = all[i as int];
        let m: usize = tables[i].len();
        let mut k: usize = 0;
        assert(before + table.take(0) =~= before);
        while k < m
            invariant
                i < n,
                n == tables@.len(),
                k <= m,
                m == tables@[i as int]@.len(),
                table == tables@[i as int].deep_view(),
                name@ == canonical_name(bundle@),
                out.deep_view() == paths_of_bundle(before + table.take(k as int), bundle@),
            decreases m - k,
        {
            let ghost seen = before + table.take(k + 1);
            assert(seen.drop_last() =~= before + table.take(k as int));
            assert(seen.last() == table[k as int]);
            assert(table[k as int] == tables@[i as int]@[k as int].deep_view());
            if text_eq(&canonical_conda_name(&tables[i][k].0), &name) {
                place_text(&mut out, tables[i][k].1.clone());
            }
            k = k + 1;
        }
        assert(table.take(m as int) =~= table);
        i = i + 1;
    }
    assert(all.take(n as int) =~= all);
    out
}

/// The manifest of the pack at a path.
pub fn pack_manifest_at(project_dir: &str, raw: &str) -> (r: String)
    ensures
        r@ == path_joined(path_joined(project_dir@, raw@), "pixi.toml"@),
{
    join_path(&join_path(project_dir, raw), "pixi.toml")
}

/// The manifest that a proposal is written for, where the manifests that the bundle
/// resolves to, the proposed one and where it lies are given: the one that owns the
/// bundle.
pub open spec fn owner_of_bundle(
    owned: Seq<Seq<char>>,
    suggested: Option<Seq<char>>,
    suggested_path: Seq<char>,
    bundle: Seq<char>,
    manifest: Seq<char>,
) -> Result<Seq<char>, Seq<char>> {
    let owners = all_placed(owned);
    if owners.len() == 0 {
        Err(
            "retread solve: bundle `"@ + bundle + "` is not an existing path dependency in "@
                + manifest,
        )
    } else if owners.len() > 1 {
        Err(
            "retread solve: bundle `"@ + bundle + "` resolves to "@ + decimal(owners.len())
                + " different pack manifests in "@ + manifest
                + "; refusing an ambiguous ledger write"@,
        )
    } else {
        match suggested {
            None => Err(
                "retread solve: proposed pack manifest "@ + suggested_path + " for bundle `"@
                    + bundle + "` does not exist"@,
            ),
            Some(path) => if path != owners[0] {
                Err(
                    "retread solve: proposed pack manifest "@ + path + " does not own bundle `"@
                        + bundle + "`; "@ + owners[0] + " does"@,
                )
            } else {
                Ok(owners[0])
            },
        }
    }
}

/// The manifest that a proposal is written for. `owned` are the manifests that the
/// bundle resolves to, `suggested` is the proposed one where it exists, and
/// `suggested_path` is where it was looked for.
pub fn resolve_audit_pack_manifest(
    owned: &Vec<String>,
    suggested: Option<&str>,
    suggested_path: &str,
    bundle: &str,
    manifest: &str,
) -> (r: Result<String, String>)
    ensures
        match owner_of_bundle(
            owned.deep_view(),
            suggested.deep_view(),
            suggested_path@,
            bundle@,
            manifest@,
        ) {
            Ok(path) => r matches Ok(p) && p@ == path,
            Err(text) => r matches Err(e) && e@ == text,
        },
{
    let owners = in_their_order(owned);
    assert(owners.deep_view().len() == owners@.len());
    if owners.len() == 0 {
        let mut s: String = "retread solve: bundle `".to_owned();
        s.append(bundle);
        s.append("` is not an existing path dependency in ");
        s.append(manifest);
        return Err(s);
    }
    if owners.len() > 1 {
        let mut s: String = "retread solve: bundle `".to_owned();
        s.append(bundle);
        s.append("` resolves to ");
        s.append(&decimal_text(owners.len() as u64));
        s.append(" different pack manifests in ");
        s.append(manifest);
        s.append("; refusing an ambiguous ledger write");
        return Err(s);
    }
    assert(owners.deep_view()[0] == owners@[0].deep_view());
    match suggested {
        None => {
            let mut s: String = "retread solve: proposed pack manifest ".to_owned();
            s.append(suggested_path);
            s.append(" for bundle `");
            s.append(bundle);
            s.append("` does not exist");
            Err(s)
        },
        Some(path) => {
            if !text_eq(path, &owners[0]) {
                let mut s: String = "retread solve: proposed pack manifest ".to_owned();
                s.append(path);
                s.append(" does not own bundle `");
                s.append(bundle);
                s.append("`; ");
                s.append(&owners[0]);
                s.append(" does");
                return Err(s);
            }
            Ok(owners[0].clone())
        },
    }
}

// ---------------------------------------------------------------------------
// Proposals
// ---------------------------------------------------------------------------

/// What is recorded for a package of a pack.
#[derive(Debug)]
#[allow(inconsistent_fields)]
pub enum AuditLedgerChoice {
    DropDependency,
    Override { spec: String },
    RootPin { spec: String, bundle_group: String },
}

/// What an `AuditLedgerChoice` says.
#[verifier::ext_equal]
pub enum ChoiceView {
    DropDependency,
    Override { spec: Seq<char> },
    RootPin { spec: Seq<char>, bundle_group: Seq<char> },
}

impl DeepView for AuditLedgerChoice {
    type V = ChoiceView;

    open spec fn deep_view(&self) -> ChoiceView {
        match self {
            AuditLedgerChoice::DropDependency => ChoiceView::DropDependency,
            AuditLedgerChoice::Override { spec } => ChoiceView::Override { spec: spec@ },
            AuditLedgerChoice::RootPin { spec, bundle_group } => ChoiceView::RootPin {
                spec: spec@,
                bundle_group: bundle_group@,
            },
        }
    }
}

/// A text in quotes, with its special characters escaped.
pub uninterp spec fn quoted_text(s: Seq<char>) -> Seq<char>;

/// The `Debug` form of a `str`.
#[verifier::external_body]
fn quote(s: &str) -> (r: String)
    ensures
        r@ == quoted_text(s@),
{
    format!("{:?}", s)
}

/// How a choice is told.
pub open spec fn choice_text(c: ChoiceView) -> Seq<char> {
    match c {
        ChoiceView::DropDependency => "DropDependency"@,
        ChoiceView::Override { spec } => "Override { spec: "@ + quoted_text(spec) + " }"@,
        ChoiceView::RootPin { spec, bundle_group } => "RootPin { spec: "@ + quoted_text(spec)
            + ", bundle_group: "@ + quoted_text(bundle_group) + " }"@,
    }
}

fn describe_choice(c: &AuditLedgerChoice) -> (r: String)
    ensures
        r@ == choice_text(c.deep_view()),
{
    match c {
        AuditLedgerChoice::DropDependency => "DropDependency".to_owned(),
        AuditLedgerChoice::Override { spec } => {
            let mut s: String = "Override { spec: ".to_owned();
            s.append(&quote(spec));
            s.append(" }");
            s
        },
        AuditLedgerChoice::RootPin { spec, bundle_group } => {
            let mut s: String = "RootPin { spec: ".to_owned();
            s.append(&quote(spec));
            s.append(", bundle_group: ");
            s.append(&quote(bundle_group));
            s.append(" }");
            s
        },
    }
}

fn same_choice(a: &AuditLedgerChoice, b: &AuditLedgerChoice) -> (r: bool)
    ensures
        r == (a.deep_view() == b.deep_view()),
{
    match (a, b) {
        (AuditLedgerChoice::DropDependency, AuditLedgerChoice::DropDependency) => true,
        (AuditLedgerChoice::Override { spec: x }, AuditLedgerChoice::Override { spec: y }) => {
            text_eq(x, y)
        },
        (
            AuditLedgerChoice::RootPin { spec: x, bundle_group: g },
            AuditLedgerChoice::RootPin { spec: y, bundle_group: h },
        ) => text_eq(x, y) && text_eq(g, h),
        _ => false,
    }
}

/// The package that a suggestion is about, and what would be recorded for it.
pub open spec fn choice_of(c: ClashView) -> (Seq<char>, ChoiceView) {
    match c.suggestion {
        SuggestionView::DropDependency { .. } => (c.package, ChoiceView::DropDependency),
        SuggestionView::Override { package, spec, .. } => (package, ChoiceView::Override { spec }),
        SuggestionView::RootPin { package, spec, bundle_group, .. } => (
            package,
            ChoiceView::RootPin { spec, bundle_group },
        ),
    }
}

fn pick(c: &RetreadMutuallyUnsatisfiable) -> (r: (String, AuditLedgerChoice))
    ensures
        (r.0@, r.1.deep_view()) == choice_of(c.deep_view()),
{
    match &c.suggestion {
        RetreadConflictSuggestion::DropDependency { .. } => {
            (c.package.clone(), AuditLedgerChoice::DropDependency)
        },
        RetreadConflictSuggestion::Override { package, spec, .. } => {
            (package.clone(), AuditLedgerChoice::Override { spec: spec.clone() })
        },
        RetreadConflictSuggestion::RootPin { package, spec, bundle_group, .. } => {
            (
                package.clone(),
                AuditLedgerChoice::RootPin {
                    spec: spec.clone(),
                    bundle_group: bundle_group.clone(),
                },
            )
        },
    }
}

/// What is known of the pack that a clash is about: its manifest and the directory
/// that it is told apart by, or why there is none.
#[derive(Debug)]
#[allow(inconsistent_fields)]
pub enum PackLookup {
    Owned { pack_pixi: String, identity: String },
    Unowned(String),
}

/// What a `PackLookup` says.
pub enum PackView {
    Owned { pack_pixi: Seq<char>, identity: Seq<char> },
    Unowned(Seq<char>),
}

impl DeepView for PackLookup {
    type V = PackView;

    open spec fn deep_view(&self) -> PackView {
        match self {
            PackLookup::Owned { pack_pixi, identity } => PackView::Owned {
                pack_pixi: pack_pixi@,
                identity: identity@,
            },
            PackLookup::Unowned(text) => PackView::Unowned(text@),
        }
    }
}

/// What is proposed for one package of one pack: what it is told apart and ordered
/// by, what is recorded, and the bundles and places that it comes from.
#[derive(Debug)]
struct Proposal {
    key: Vec<Vec<String>>,
    pack_pixi: String,
    package: String,
    choice: AuditLedgerChoice,
    bundles: Vec<String>,
    provenance: Vec<String>,
}

/// What is proposed for one package of one pack.
#[verifier::ext_equal]
pub struct ProposalView {
    pub key: Seq<Seq<Seq<char>>>,
    pub pack_pixi: Seq<char>,
    pub package: Seq<char>,
    pub choice: ChoiceView,
    pub bundles: Seq<Seq<char>>,
    pub provenance: Seq<Seq<char>>,
}

impl DeepView for Proposal {
    type V = ProposalView;

    closed spec fn deep_view(&self) -> ProposalView {
        ProposalView {
            key: self.key.deep_view(),
            pack_pixi: self.pack_pixi@,
            package: self.package@,
            choice: self.choice.deep_view(),
            bundles: self.bundles.deep_view(),
            provenance: self.provenance.deep_view(),
        }
    }
}

/// What a proposal is told apart and ordered by: the names of the directory that the
/// pack lies in, and the package.
pub open spec fn proposal_key(identity: Seq<char>, package: Seq<char>) -> Seq<Seq<Seq<char>>> {
    seq![pieces(identity, '/'), seq![canonical_name(package)]]
}

/// What a clash proposes for its pack.
pub open spec fn proposal_of(c: ClashView, pack_pixi: Seq<char>, identity: Seq<char>) -> ProposalView {
    let (package, choice) = choice_of(c);
    ProposalView {
        key: proposal_key(identity, package),
        pack_pixi,
        package,
        choice,
        bundles: seq![c.bundle],
        provenance: seq![c.provenance],
    }
}

/// What is told of two proposals that differ.
pub open spec fn divergence(p: ProposalView, other: ChoiceView) -> Seq<char> {
    "retread solve: divergent Track-2 suggestions target `"@ + p.package + "` in "@ + p.pack_pixi
        + " ("@ + choice_text(other) + " versus "@ + choice_text(p.choice)
        + "); no ledger entries were written"@
}

/// Proposals with one more. Two for the same package of a pack become one where they
/// propose the same.
pub open spec fn merged(proposals: Seq<ProposalView>, p: ProposalView) -> Result<
    Seq<ProposalView>,
    Seq<char>,
>
    decreases proposals.len(),
{
    if proposals.len() == 0 {
        Ok(seq![p])
    } else {
        let last = proposals.last();
        if last.key == p.key {
            if last.choice == p.choice {
                Ok(
                    proposals.drop_last().push(
                        ProposalView {
                            bundles: text_placed(last.bundles, p.bundles[0]),
                            provenance: text_placed(last.provenance, p.provenance[0]),
                            ..last
                        },
                    ),
                )
            } else {
                Err(divergence(p, last.choice))
            }
        } else if lists_before(last.key, p.key) {
            Ok(proposals.push(p))
        } else {
            match merged(proposals.drop_last(), p) {
                Ok(rest) => Ok(rest.push(last)),
                Err(e) => Err(e),
            }
        }
    }
}

/// What is told of a clash for which the backend suggests nothing.
pub open spec fn no_suggestion(package: Seq<char>) -> Seq<char> {
    "retread solve: `"@ + package
        + "` has no embedded Track-2 suggestion; refusing to infer an --apply-ledger action (the read-only fallback remains available)"@
}

/// What clashes propose, each for the pack that was found for it; or what is wrong
/// with the first that proposes nothing that can be recorded.
pub open spec fn proposed(clashes: Seq<ClashView>, packs: Seq<PackView>) -> Result<
    Seq<ProposalView>,
    Seq<char>,
>
    decreases clashes.len(),
{
    if clashes.len() == 0 {
        Ok(Seq::empty())
    } else {
        let i = clashes.len() - 1;
        match proposed(clashes.drop_last(), packs) {
            Err(e) => Err(e),
            Ok(before) => if !clashes[i].suggestion_from_backend {
                Err(no_suggestion(clashes[i].package))
            } else {
                match packs[i] {
                    PackView::Unowned(e) => Err(e),
                    PackView::Owned { pack_pixi, identity } => merged(
                        before,
                        proposal_of(clashes[i], pack_pixi, identity),
                    ),
                }
            },
        }
    }
}

/// What is recorded for a package of a pack: with the first of the bundles that it
/// comes from, and every place that it comes from.
#[derive(Debug)]
pub struct LedgerUpdate {
    pub pack_pixi: String,
    pub bundle: String,
    pub package: String,
    pub provenance: String,
    pub action: AuditLedgerChoice,
}

/// What a `LedgerUpdate` says.
#[verifier::ext_equal]
pub struct UpdateView {
    pub pack_pixi: Seq<char>,
    pub bundle: Seq<char>,
    pub package: Seq<char>,
    pub provenance: Seq<char>,
    pub action: ChoiceView,
}

impl DeepView for LedgerUpdate {
    type V = UpdateView;

    open spec fn deep_view(&self) -> UpdateView {
        UpdateView {
            pack_pixi: self.pack_pixi@,
            bundle: self.bundle@,
            package: self.package@,
            provenance: self.provenance@,
            action: self.action.deep_view(),
        }
    }
}

/// What is recorded when a check's proposals are taken, and the other bundles whose
/// metadata is out of date then.
#[derive(Debug)]
pub struct LedgerPlan {
    pub updates: Vec<LedgerUpdate>,
    pub also_invalidate: Vec<String>,
}

/// What a `LedgerPlan` says.
#[verifier::ext_equal]
pub struct LedgerPlanView {
    pub updates: Seq<UpdateView>,
    pub also_invalidate: Seq<Seq<char>>,
}

impl DeepView for LedgerPlan {
    type V = LedgerPlanView;

    open spec fn deep_view(&self) -> LedgerPlanView {
        LedgerPlanView {
            updates: self.updates.deep_view(),
            also_invalidate: self.also_invalidate.deep_view(),
        }
    }
}

/// What is recorded of a proposal.
pub open spec fn update_of(p: ProposalView) -> UpdateView {
    UpdateView {
        pack_pixi: p.pack_pixi,
        bundle: p.bundles[0],
        package: p.package,
        provenance: joined(p.provenance, "; "@),
        action: p.choice,
    }
}

/// Texts in order with others but for one.
pub open spec fn others_placed(texts: Seq<Seq<char>>, more: Seq<Seq<char>>, but: Seq<char>) -> Seq<
    Seq<char>,
>
    decreases more.len(),
{
    if more.len() == 0 {
        texts
    } else {
        let before = others_placed(texts, more.drop_last(), but);
        if more.last() == but {
            before
        } else {
            text_placed(before, more.last())
        }
    }
}

/// The bundles of proposals but for the first of each.
pub open spec fn other_bundles(proposals: Seq<ProposalView>) -> Seq<Seq<char>>
    decreases proposals.len(),
{
    if proposals.len() == 0 {
        Seq::empty()
    } else {
        let p = proposals.last();
        others_placed(other_bundles(proposals.drop_last()), p.bundles, p.bundles[0])
    }
}

/// The clashes of a report, one scope after the other.
pub open spec fn clashes_in(scopes: Seq<(Seq<char>, FailureView)>) -> Seq<ClashView>
    decreases scopes.len(),
{
    if scopes.len() == 0 {
        Seq::empty()
    } else {
        clashes_in(scopes.drop_last()) + scopes.last().1.conflicts
    }
}

/// What is recorded when what a check proposes is taken.
pub open spec fn ledger_plan(v: ReportView, packs: Seq<PackView>) -> Result<
    LedgerPlanView,
    Seq<char>,
> {
    match blocker(v) {
        Some(reason) => Err("retread solve: --apply-ledger refused: "@ + reason),
        None => match proposed(clashes_in(v.scopes), packs) {
            Err(e) => Err(e),
            Ok(proposals) => Ok(
                LedgerPlanView {
                    updates: proposals.map_values(|p: ProposalView| update_of(p)),
                    also_invalidate: other_bundles(proposals),
                },
            ),
        },
    }
}

// ---------------------------------------------------------------------------
// Taking them
// ---------------------------------------------------------------------------

fn propose(c: &RetreadMutuallyUnsatisfiable, pack_pixi: &str, identity: &str) -> (r: Proposal)
    ensures
        r.deep_view() == proposal_of(c.deep_view(), pack_pixi@, identity@),
{
    let (package, choice) = pick(c);
    let names = split(identity, '/');
    let mut own: Vec<String> = Vec::new();
    assert(own.deep_view() =~= Seq::<Seq<char>>::empty());
    push_view(&mut own, canonical_conda_name(&package));
    assert(own.deep_view() =~= seq![canonical_name(package@)]);
    let mut key: Vec<Vec<String>> = Vec::new();
    assert(key.deep_view() =~= Seq::<Seq<Seq<char>>>::empty());
    push_view(&mut key, names);
    push_view(&mut key, own);
    assert(key.deep_view() =~= proposal_key(identity@, package@));
    let mut bundles: Vec<String> = Vec::new();
    assert(bundles.deep_view() =~= Seq::<Seq<char>>::empty());
    push_view(&mut bundles, c.bundle.clone());
    assert(bundles.deep_view() =~= seq![c.bundle@]);
    let mut provenance: Vec<String> = Vec::new();
    assert(provenance.deep_view() =~= Seq::<Seq<char>>::empty());
    push_view(&mut provenance, c.provenance.clone());
    assert(provenance.deep_view() =~= seq![c.provenance@]);
    Proposal { key, pack_pixi: pack_pixi.to_owned(), package, choice, bundles, provenance }
}

fn describe_divergence(p: &Proposal, other: &AuditLedgerChoice) -> (r: String)
    ensures
        r@ == divergence(p.deep_view(), other.deep_view()),
{
    let mut s: String = "retread solve: divergent Track-2 suggestions target `".to_owned();
    s.append(&p.package);
    s.append("` in ");
    s.append(&p.pack_pixi);
    s.append(" (");
    s.append(&describe_choice(other));
    s.append(" versus ");
    s.append(&describe_choice(&p.choice));
    s.append("); no ledger entries were written");
    s
}

/// How two results of `merged` are read when the last proposals do not matter.
spec fn extended(r: Result<Seq<ProposalView>, Seq<char>>, more: Seq<ProposalView>) -> Result<
    Seq<ProposalView>,
    Seq<char>,
> {
    match r {
        Ok(s) => Ok(s + more),
        Err(e) => Err(e),
    }
}

fn merge(proposals: &mut Vec<Proposal>, p: Proposal) -> (r: Result<(), String>)
    requires
        p.deep_view().bundles.len() == 1,
        p.deep_view().provenance.len() == 1,
    ensures
        match merged(old(proposals).deep_view(), p.deep_view()) {
            Ok(after) => r is Ok && final(proposals).deep_view() == after,
            Err(text) => r matches Err(e) && e@ == text,
        },
{
    let ghost all = proposals.deep_view();
    let ghost v = p.deep_view();
    let n: usize = proposals.len();
    let mut i: usize = n;
    assert(all.take(n as int) =~= all);
    proof {
        match merged(all, v) {
            Ok(s) => {
                assert(s + all.skip(n as int) =~= s);
            },
            Err(_) => {},
        }
    }
    while i > 0
        invariant
            i <= n,
            n == proposals@.len(),
            all == proposals.deep_view(),
            *proposals == *old(proposals),
            v == p.deep_view(),
            v.bundles.len() == 1,
            v.provenance.len() == 1,
            merged(all, v) == extended(merged(all.take(i as int), v), all.skip(i as int)),
        decreases i,
    {
        let ghost head = all.take(i as int);
        assert(head.last() == all[i - 1]);
        assert(head.drop_last() =~= all.take(i - 1));
        assert(all[i - 1] == proposals@[i - 1].deep_view());
        if same_lists(&proposals[i - 1].key, &p.key) {
            if !same_choice(&proposals[i - 1].choice, &p.choice) {
                return Err(describe_divergence(&p, &proposals[i - 1].choice));
            }
            let Proposal { bundles, provenance, .. } = p;
            assert(bundles.deep_view().len() == bundles@.len());
            assert(provenance.deep_view().len() == provenance@.len());
            assert(bundles.deep_view()[0] == bundles@[0].deep_view());
            assert(provenance.deep_view()[0] == provenance@[0].deep_view());
            place_text(&mut proposals[i - 1].bundles, bundles[0].clone());
            place_text(&mut proposals[i - 1].provenance, provenance[0].clone());
            proof {
                let last = all[i - 1];
                let changed = ProposalView {
                    bundles: text_placed(last.bundles, v.bundles[0]),
                    provenance: text_placed(last.provenance, v.provenance[0]),
                    ..last
                };
                assert(proposals@[i - 1].deep_view() == changed);
                assert(proposals.deep_view() =~= all.update(i - 1, changed));
                assert(all.update(i - 1, changed) =~= head.drop_last().push(changed) + all.skip(
                    i as int,
                ));
            }
            return Ok(());
        }
        if lists_come_before(&proposals[i - 1].key, &p.key) {
            proposals.insert(i, p);
            assert(proposals.deep_view() =~= all.insert(i as int, v));
            assert(all.insert(i as int, v) =~= head.push(v) + all.skip(i as int));
            return Ok(());
        }
        proof {
            match merged(all.take(i - 1), v) {
                Ok(s) => {
                    assert(s.push(all[i - 1]) + all.skip(i as int) =~= s + all.skip(i - 1));
                },
                Err(_) => {},
            }
        }
        i = i - 1;
    }
    proposals.insert(0, p);
    assert(proposals.deep_view() =~= all.insert(0, v));
    assert(all.insert(0, v) =~= seq![v] + all.skip(0));
    Ok(())
}

fn add_others(texts: &mut Vec<String>, more: &Vec<String>, but: &str)
    ensures
        final(texts).deep_view() == others_placed(
            old(texts).deep_view(),
            more.deep_view(),
            but@,
        ),
{
    let ghost before = texts.deep_view();
    let ghost all = more.deep_view();
    let n: usize = more.len();
    let mut i: usize = 0;
    while i < n
        invariant
            i <= n,
            n == more@.len(),
            all == more.deep_view(),
            texts.deep_view() == others_placed(before, all.take(i as int), but@),
        decreases n - i,
    {
        assert(all.take(i + 1).drop_last() =~= all.take(i as int));
        assert(all.take(i + 1).last() == all[i as int]);
        assert(all[i as int] == more@[i as int].deep_view());
        if !text_eq(&more[i], but) {
            place_text(texts, more[i].clone());
        }
        i = i + 1;
    }
    assert(all.take(n as int) =~= all);
}

/// Whether every proposal comes from a bundle.
spec fn have_bundles(proposals: Seq<ProposalView>) -> bool {
    forall|i: int| 0 <= i < proposals.len() ==> (#[trigger] proposals[i]).bundles.len() > 0
}

proof fn lemma_placed_not_empty(texts: Seq<Seq<char>>, x: Seq<char>)
    ensures
        text_placed(texts, x).len() > 0,
    decreases texts.len(),
{
    if texts.len() > 0 {
        lemma_placed_not_empty(texts.drop_last(), x);
    }
}

proof fn lemma_merged_have_bundles(proposals: Seq<ProposalView>, p: ProposalView)
    requires
        have_bundles(proposals),
        p.bundles.len() > 0,
        merged(proposals, p) is Ok,
    ensures
        have_bundles(merged(proposals, p)->Ok_0),
    decreases proposals.len(),
{
    if proposals.len() > 0 {
        let last = proposals.last();
        assert(proposals[proposals.len() - 1] == last);
        assert(have_bundles(proposals.drop_last()));
        if last.key == p.key {
            lemma_placed_not_empty(last.bundles, p.bundles[0]);
        } else if !lists_before(last.key, p.key) {
            lemma_merged_have_bundles(proposals.drop_last(), p);
        }
    }
}

fn record_all(proposals: Vec<Proposal>) -> (r: LedgerPlan)
    requires
        have_bundles(proposals.deep_view()),
    ensures
        r.deep_view() == (LedgerPlanView {
            updates: proposals.deep_view().map_values(|p: ProposalView| update_of(p)),
            also_invalidate: other_bundles(proposals.deep_view()),
        }),
{
    let ghost all = proposals.deep_view();
    let ghost f = |p: ProposalView| update_of(p);
    let n: usize = proposals.len();
    let mut rest: Vec<Proposal> = proposals;
    let mut updates: Vec<LedgerUpdate> = Vec::new();
    let mut also: Vec<String> = Vec::new();
    assert(updates.deep_view() =~= all.take(0).map_values(f));
    assert(also.deep_view() =~= Seq::<Seq<char>>::empty());
    assert(rest.deep_view() =~= all.skip(0));
    let mut i: usize = 0;
    while i < n
        invariant
            i <= n,
            n == all.len(),
            n - i == rest@.len(),
            rest.deep_view() == all.skip(i as int),
            have_bundles(all),
            f == (|p: ProposalView| update_of(p)),
            updates.deep_view() == all.take(i as int).map_values(f),
            also.deep_view() == other_bundles(all.take(i as int)),
        decreases n - i,
    {
        assert(all.take(i + 1).drop_last() =~= all.take(i as int));
        assert(all.take(i + 1).last() == all[i as int]);
        let p = rest.remove(0);
        assert(p.deep_view() == all[i as int]);
        assert(rest.deep_view() =~= all.skip(i + 1));
        assert(p.bundles.deep_view().len() == p.bundles@.len());
        assert(p.bundles.deep_view()[0] == p.bundles@[0].deep_view());
        let bundle: String = p.bundles[0].clone();
        add_others(&mut also, &p.bundles, &bundle);
        let provenance: String = join(&p.provenance, "; ");
        push_view(
            &mut updates,
            LedgerUpdate {
                pack_pixi: p.pack_pixi,
                bundle,
                package: p.package,
                provenance,
                action: p.choice,
            },
        );
        assert(updates.deep_view() =~= all.take(i + 1).map_values(f));
        i = i + 1;
    }
    assert(all.take(n as int) =~= all);
    LedgerPlan { updates, also_invalidate: also }
}

fn take_clash(
    proposals: &mut Vec<Proposal>,
    c: &RetreadMutuallyUnsatisfiable,
    pack: &PackLookup,
) -> (r: Result<(), String>)
    requires
        have_bundles(old(proposals).deep_view()),
    ensures
        ({
            let v = c.deep_view();
            let want = if !v.suggestion_from_backend {
                Err(no_suggestion(v.package))
            } else {
                match pack.deep_view() {
                    PackView::Unowned(e) => Err(e),
                    PackView::Owned { pack_pixi, identity } => merged(
                        old(proposals).deep_view(),
                        proposal_of(v, pack_pixi, identity),
                    ),
                }
            };
            match want {
                Ok(after) => r is Ok && final(proposals).deep_view() == after && have_bundles(after),
                Err(text) => r matches Err(e) && e@ == text,
            }
        }),
{
    if !c.suggestion_from_backend {
        let mut s: String = "retread solve: `".to_owned();
        s.append(&c.package);
        s.append(
            "` has no embedded Track-2 suggestion; refusing to infer an --apply-ledger action (the read-only fallback remains available)",
        );
        return Err(s);
    }
    match pack {
        PackLookup::Unowned(e) => Err(e.clone()),
        PackLookup::Owned { pack_pixi, identity } => {
            let p = propose(c, pack_pixi, identity);
            proof {
                if merged(proposals.deep_view(), p.deep_view()) is Ok {
                    lemma_merged_have_bundles(proposals.deep_view(), p.deep_view());
                }
            }
            merge(proposals, p)
        },
    }
}

proof fn lemma_first_fault_stays(clashes: Seq<ClashView>, packs: Seq<PackView>, n: int)
    requires
        0 <= n <= clashes.len(),
        proposed(clashes.take(n), packs) is Err,
    ensures
        proposed(clashes, packs) == proposed(clashes.take(n), packs),
    decreases clashes.len() - n,
{
    if n < clashes.len() {
        assert(clashes.take(n + 1).drop_last() =~= clashes.take(n));
        lemma_first_fault_stays(clashes, packs, n + 1);
    } else {
        assert(clashes.take(n) =~= clashes);
    }
}

proof fn lemma_clashes_begin(scopes: Seq<(Seq<char>, FailureView)>, n: int)
    requires
        0 <= n <= scopes.len(),
    ensures
        clashes_in(scopes.take(n)).is_prefix_of(clashes_in(scopes)),
    decreases scopes.len() - n,
{
    if n < scopes.len() {
        lemma_clashes_begin(scopes, n + 1);
        let a = clashes_in(scopes.take(n));
        let b = clashes_in(scopes.take(n + 1));
        let c = clashes_in(scopes);
        assert(scopes.take(n + 1).drop_last() =~= scopes.take(n));
        assert(b.subrange(0, a.len() as int) =~= a);
        assert(c.subrange(0, b.len() as int) == b);
        assert(c.subrange(0, a.len() as int) =~= b.subrange(0, a.len() as int));
    } else {
        assert(scopes.take(n) =~= scopes);
        assert(clashes_in(scopes).subrange(0, clashes_in(scopes).len() as int) =~= clashes_in(
            scopes,
        ));
    }
}

proof fn lemma_clashes_counted(scopes: Seq<(Seq<char>, FailureView)>)
    ensures
        clashes_in(scopes).len() == clash_count(scopes),
    decreases scopes.len(),
{
    if scopes.len() > 0 {
        lemma_clashes_counted(scopes.drop_last());
    }
}

/// What is recorded when what a check proposes is taken. `packs` holds for each
/// clash of the report, one scope after the other, the pack that it is about.
pub fn plan_audit_ledger(report: &AuditReport, packs: &Vec<PackLookup>) -> (r: Result<
    LedgerPlan,
    String,
>)
    requires
        packs@.len() == clash_count(report.deep_view().scopes),
    ensures
        match ledger_plan(report.deep_view(), packs.deep_view()) {
            Ok(plan) => r matches Ok(p) && p.deep_view() == plan,
            Err(text) => r matches Err(e) && e@ == text,
        },
{
    match report.apply_blocker() {
        Some(reason) => {
            return Err("retread solve: --apply-ledger refused: ".to_owned().concat(&reason));
        },
        None => {},
    }
    let ghost scopes = report.scopes.deep_view();
    let ghost all = clashes_in(scopes);
    let ghost found = packs.deep_view();
    proof {
        lemma_clashes_counted(scopes);
    }
    let mut proposals: Vec<Proposal> = Vec::new();
    assert(proposals.deep_view() =~= Seq::<ProposalView>::empty());
    let count: usize = packs.len();
    let n: usize = report.scopes.len();
    let mut at: usize = 0;
    let mut i: usize = 0;
    assert(all.take(0) =~= Seq::<ClashView>::empty());
    while i < n
        invariant
            i <= n,
            n == report.scopes@.len(),
            scopes == report.scopes.deep_view(),
            blocker(report.deep_view()) is None,
            all == clashes_in(scopes),
            found == packs.deep_view(),
            packs@.len() == all.len(),
            count == packs@.len(),
            at == clashes_in(scopes.take(i as int)).len(),
            at <= all.len(),
            have_bundles(proposals.deep_view()),
            proposed(all.take(at as int), found) == Ok::<Seq<ProposalView>, Seq<char>>(
                proposals.deep_view(),
            ),
        decreases n - i,
    {
        let ghost before = clashes_in(scopes.take(i as int));
        let ghost own = scopes[i as int].1.conflicts;
        proof {
            assert(scopes.take(i + 1).drop_last() =~= scopes.take(i as int));
            assert(scopes.take(i + 1).last() == scopes[i as int]);
            assert(scopes[i as int] == report.scopes@[i as int].deep_view());
            lemma_clashes_begin(scopes, i + 1);
            let with_own = clashes_in(scopes.take(i + 1));
            assert(all.subrange(0, with_own.len() as int) == with_own);
            assert forall|k: int| 0 <= k < own.len() implies all[before.len() + k] == own[k] by {
                assert(with_own[before.len() + k] == own[k]);
                assert(all.subrange(0, with_own.len() as int)[before.len() + k] == all[before.len()
                    + k]);
            }
            assert(with_own.len() == before.len() + own.len());
        }
        let m: usize = report.scopes[i].1.conflicts.len();
        let mut k: usize = 0;
        while k < m
            invariant
                i < n,
                n == report.scopes@.len(),
                scopes == report.scopes.deep_view(),
                blocker(report.deep_view()) is None,
                all == clashes_in(scopes),
                found == packs.deep_view(),
                packs@.len() == all.len(),
                count == packs@.len(),
                k <= m,
                m == report.scopes@[i as int].1.conflicts@.len(),
                own == report.scopes@[i as int].1.conflicts.deep_view(),
                at == before.len() + k,
                before.len() + m <= all.len(),
                forall|j: int| 0 <= j < own.len() ==> all[before.len() + j] == own[j],
                have_bundles(proposals.deep_view()),
                proposed(all.take(at as int), found) == Ok::<Seq<ProposalView>, Seq<char>>(
                    proposals.deep_view(),
                ),
            decreases m - k,
        {
            assert(all.take(at + 1).drop_last() =~= all.take(at as int));
            assert(all.take(at + 1)[at as int] == all[at as int]);
            assert(all[before.len() + k] == own[k as int]);
            assert(own[k as int] == report.scopes@[i as int].1.conflicts@[k as int].deep_view());
            assert(found[at as int] == packs@[at as int].deep_view());
            match take_clash(&mut proposals, &report.scopes[i].1.conflicts[k], &packs[at]) {
                Ok(_) => {},
                Err(e) => {
                    proof {
                        lemma_first_fault_stays(all, found, at + 1);
                    }
                    return Err(e);
                },
            }
            k = k + 1;
            at = at + 1;
        }
        i = i + 1;
    }
    assert(scopes.take(n as int) =~= scopes);
    assert(all.take(at as int) =~= all);
    Ok(record_all(proposals))
}

// ---------------------------------------------------------------------------
// Laws
// ---------------------------------------------------------------------------

/// Whether proposals stand in the order of what they are told apart by, each once.
pub open spec fn proposals_in_order(proposals: Seq<ProposalView>) -> bool {
    forall|i: int, j: int|
        0 <= i < j < proposals.len() ==> lists_before(proposals[i].key, proposals[j].key)
}

proof fn lemma_merged_in_order(proposals: Seq<ProposalView>, p: ProposalView)
    requires
        proposals_in_order(proposals),
        merged(proposals, p) is Ok,
    ensures
        proposals_in_order(merged(proposals, p)->Ok_0),
        forall|i: int|
            0 <= i < merged(proposals, p)->Ok_0.len() ==> (#[trigger] merged(
                proposals,
                p,
            )->Ok_0[i]).key == p.key || exists|k: int|
                0 <= k < proposals.len() && proposals[k].key == merged(proposals, p)->Ok_0[i].key,
    decreases proposals.len(),
{
    let after = merged(proposals, p)->Ok_0;
    if proposals.len() > 0 {
        let last = proposals.last();
        let rest = proposals.drop_last();
        assert(proposals[proposals.len() - 1] == last);
        assert(proposals_in_order(rest));
        if last.key == p.key {
            assert forall|i: int| 0 <= i < after.len() implies (#[trigger] after[i]).key == p.key
                || exists|k: int|
                0 <= k < proposals.len() && proposals[k].key == after[i].key by {
                if i < rest.len() {
                    assert(proposals[i].key == after[i].key);
                }
            }
            assert forall|i: int, j: int| 0 <= i < j < after.len() implies lists_before(
                after[i].key,
                after[j].key,
            ) by {
                assert(after[i].key == proposals[i].key && after[j].key == proposals[j].key);
            }
        } else if lists_before(last.key, p.key) {
            assert forall|i: int, j: int| 0 <= i < j < after.len() implies lists_before(
                after[i].key,
                after[j].key,
            ) by {
                if j == proposals.len() && i < proposals.len() - 1 {
                    lemma_lists_transitive(after[i].key, last.key, p.key);
                }
            }
            assert forall|i: int| 0 <= i < after.len() implies (#[trigger] after[i]).key == p.key
                || exists|k: int|
                0 <= k < proposals.len() && proposals[k].key == after[i].key by {
                if i < proposals.len() {
                    assert(proposals[i].key == after[i].key);
                }
            }
        } else {
            lemma_merged_in_order(rest, p);
            lemma_lists_total(last.key, p.key);
            let inner = merged(rest, p)->Ok_0;
            assert forall|i: int, j: int| 0 <= i < j < after.len() implies lists_before(
                after[i].key,
                after[j].key,
            ) by {
                assert(after[i] == inner[i]);
                if j == inner.len() {
                    if inner[i].key != p.key {
                        let k = choose|k: int| 0 <= k < rest.len() && rest[k].key == inner[i].key;
                        assert(proposals[k] == rest[k]);
                    }
                } else {
                    assert(after[j] == inner[j]);
                }
            }
            assert forall|i: int| 0 <= i < after.len() implies (#[trigger] after[i]).key == p.key
                || exists|k: int|
                0 <= k < proposals.len() && proposals[k].key == after[i].key by {
                if i < inner.len() {
                    assert(after[i] == inner[i]);
                    if inner[i].key != p.key {
                        let k = choose|k: int| 0 <= k < rest.len() && rest[k].key == inner[i].key;
                        assert(proposals[k] == rest[k]);
                    }
                }
            }
        }
    }
}

/// Whether a proposal answers a clash.
pub open spec fn answers(p: ProposalView, c: ProposalView) -> bool {
    p.key == c.key && p.choice == c.choice && p.bundles.contains(c.bundles[0])
}

proof fn lemma_placed_holds(texts: Seq<Seq<char>>, x: Seq<char>)
    ensures
        text_placed(texts, x).contains(x),
        forall|t: Seq<char>| texts.contains(t) ==> #[trigger] text_placed(texts, x).contains(t),
    decreases texts.len(),
{
    let after = text_placed(texts, x);
    if texts.len() == 0 {
        assert(after[0] == x);
    } else if texts.last() == x {
        assert(texts[texts.len() - 1] == x);
    } else if text_before(texts.last(), x) {
        assert(after[after.len() - 1] == x);
        assert forall|t: Seq<char>| texts.contains(t) implies #[trigger] after.contains(t) by {
            let k = choose|k: int| 0 <= k < texts.len() && texts[k] == t;
            assert(after[k] == t);
        }
    } else {
        let rest = texts.drop_last();
        lemma_placed_holds(rest, x);
        let inner = text_placed(rest, x);
        assert(after =~= inner.push(texts.last()));
        assert forall|t: Seq<char>| inner.contains(t) implies after.contains(t) by {
            let k = choose|k: int| 0 <= k < inner.len() && inner[k] == t;
            assert(after[k] == t);
        }
        assert forall|t: Seq<char>| texts.contains(t) implies #[trigger] after.contains(t) by {
            let k = choose|k: int| 0 <= k < texts.len() && texts[k] == t;
            if k < rest.len() {
                assert(rest[k] == t);
                assert(inner.contains(t));
            } else {
                assert(after[after.len() - 1] == t);
            }
        }
        assert(inner.contains(x));
    }
}

proof fn lemma_merged_answers(proposals: Seq<ProposalView>, p: ProposalView, c: ProposalView)
    requires
        merged(proposals, p) is Ok,
        p.bundles.len() == 1,
        c == p || exists|k: int| 0 <= k < proposals.len() && answers(#[trigger] proposals[k], c),
    ensures
        exists|k: int|
            0 <= k < merged(proposals, p)->Ok_0.len() && answers(
                #[trigger] merged(proposals, p)->Ok_0[k],
                c,
            ),
    decreases proposals.len(),
{
    let after = merged(proposals, p)->Ok_0;
    assert(p.bundles[0] == p.bundles[0] && p.bundles.contains(p.bundles[0]));
    if proposals.len() == 0 {
        assert(answers(after[0], c));
    } else {
        let last = proposals.last();
        let rest = proposals.drop_last();
        if last.key == p.key {
            lemma_placed_holds(last.bundles, p.bundles[0]);
            if c == p {
                assert(answers(after[after.len() - 1], c));
            } else {
                let k = choose|k: int|
                    0 <= k < proposals.len() && answers(#[trigger] proposals[k], c);
                if k < rest.len() {
                    assert(after[k] == proposals[k]);
                } else {
                    assert(answers(after[after.len() - 1], c));
                }
            }
        } else if lists_before(last.key, p.key) {
            if c == p {
                assert(answers(after[after.len() - 1], c));
            } else {
                let k = choose|k: int|
                    0 <= k < proposals.len() && answers(#[trigger] proposals[k], c);
                assert(after[k] == proposals[k]);
            }
        } else {
            let inner = merged(rest, p)->Ok_0;
            if c != p {
                let k = choose|k: int|
                    0 <= k < proposals.len() && answers(#[trigger] proposals[k], c);
                if k < rest.len() {
                    assert(rest[k] == proposals[k]);
                    lemma_merged_answers(rest, p, c);
                } else {
                    assert(after[after.len() - 1] == last);
                    assert(answers(after[after.len() - 1], c));
                }
            } else {
                lemma_merged_answers(rest, p, c);
            }
            if exists|k: int| 0 <= k < inner.len() && answers(#[trigger] inner[k], c) {
                let k = choose|k: int| 0 <= k < inner.len() && answers(#[trigger] inner[k], c);
                assert(after[k] == inner[k]);
            }
        }
    }
}

/// What is proposed stands in order, and decides each package of a pack once.
pub proof fn law_each_package_is_decided_once(clashes: Seq<ClashView>, packs: Seq<PackView>)
    requires
        proposed(clashes, packs) is Ok,
    ensures
        proposals_in_order(proposed(clashes, packs)->Ok_0),
    decreases clashes.len(),
{
    if clashes.len() > 0 {
        let i = clashes.len() - 1;
        law_each_package_is_decided_once(clashes.drop_last(), packs);
        let p = proposal_of(clashes[i], packs[i]->pack_pixi, packs[i]->identity);
        lemma_merged_in_order(proposed(clashes.drop_last(), packs)->Ok_0, p);
    }
}

/// Every clash is answered as its backend suggests: for its package and pack, with its
/// choice, and with its bundle among those that the answer comes from.
pub proof fn law_every_clash_is_answered(clashes: Seq<ClashView>, packs: Seq<PackView>, at: int)
    requires
        proposed(clashes, packs) is Ok,
        0 <= at < clashes.len(),
    ensures
        clashes[at].suggestion_from_backend,
        packs[at] is Owned,
        exists|k: int|
            0 <= k < proposed(clashes, packs)->Ok_0.len() && answers(
                #[trigger] proposed(clashes, packs)->Ok_0[k],
                proposal_of(clashes[at], packs[at]->pack_pixi, packs[at]->identity),
            ),
    decreases clashes.len(),
{
    let i = clashes.len() - 1;
    let rest = clashes.drop_last();
    let p = proposal_of(clashes[i], packs[i]->pack_pixi, packs[i]->identity);
    let c = proposal_of(clashes[at], packs[at]->pack_pixi, packs[at]->identity);
    if at < i {
        law_every_clash_is_answered(rest, packs, at);
        assert(rest[at] == clashes[at]);
    }
    lemma_merged_answers(proposed(rest, packs)->Ok_0, p, c);
}

/// Two clashes that suggest different things for the same package of a pack are
/// refused together.
pub proof fn law_divergent_suggestions_are_refused(
    clashes: Seq<ClashView>,
    packs: Seq<PackView>,
    a: int,
    b: int,
)
    requires
        0 <= a < clashes.len(),
        0 <= b < clashes.len(),
        packs[a] is Owned,
        packs[b] is Owned,
        proposal_of(clashes[a], packs[a]->pack_pixi, packs[a]->identity).key == proposal_of(
            clashes[b],
            packs[b]->pack_pixi,
            packs[b]->identity,
        ).key,
        choice_of(clashes[a]).1 != choice_of(clashes[b]).1,
    ensures
        proposed(clashes, packs) is Err,
{
    if proposed(clashes, packs) is Ok {
        let all = proposed(clashes, packs)->Ok_0;
        let x = proposal_of(clashes[a], packs[a]->pack_pixi, packs[a]->identity);
        let y = proposal_of(clashes[b], packs[b]->pack_pixi, packs[b]->identity);
        law_each_package_is_decided_once(clashes, packs);
        law_every_clash_is_answered(clashes, packs, a);
        law_every_clash_is_answered(clashes, packs, b);
        let i = choose|k: int| 0 <= k < all.len() && answers(#[trigger] all[k], x);
        let j = choose|k: int| 0 <= k < all.len() && answers(#[trigger] all[k], y);
        lemma_lists_total(all[i].key, all[j].key);
        if i < j {
            assert(lists_before(all[i].key, all[j].key));
        } else if j < i {
            assert(lists_before(all[j].key, all[i].key));
        }
    }
}

/// The package that a clash's suggestion is about: the one that it names, or the clash's
/// own where it says to drop that.
pub open spec fn suggested_package(c: ClashView) -> Seq<char> {
    match c.suggestion {
        SuggestionView::DropDependency { .. } => c.package,
        SuggestionView::Override { package, .. } => package,
        SuggestionView::RootPin { package, .. } => package,
    }
}

/// Whether an action does what is suggested, with the suggestion's own values.
pub open spec fn carries_out(action: ChoiceView, suggestion: SuggestionView) -> bool {
    match (action, suggestion) {
        (ChoiceView::DropDependency, SuggestionView::DropDependency { .. }) => true,
        (ChoiceView::Override { spec }, SuggestionView::Override { spec: wanted, .. }) => spec
            == wanted,
        (
            ChoiceView::RootPin { bundle_group, spec },
            SuggestionView::RootPin { spec: wanted, bundle_group: group, .. },
        ) => spec == wanted && bundle_group == group,
        _ => false,
    }
}

/// Whether an update records what a clash suggests, for the package that it is about.
pub open spec fn records(u: UpdateView, c: ClashView) -> bool {
    carries_out(u.action, c.suggestion) && canonical_name(u.package) == canonical_name(
        suggested_package(c),
    )
}

spec fn proposal_at(clashes: Seq<ClashView>, packs: Seq<PackView>, at: int) -> ProposalView {
    proposal_of(clashes[at], packs[at]->pack_pixi, packs[at]->identity)
}

/// Whether a proposal is that of the clash at `at`, for its pack, and with what it comes
/// from only from clashes that propose the same.
spec fn stems_from(
    p: ProposalView,
    clashes: Seq<ClashView>,
    packs: Seq<PackView>,
    n: int,
    at: int,
) -> bool {
    let own = proposal_at(clashes, packs, at);
    &&& 0 <= at < n
    &&& packs[at] is Owned
    &&& p.key == own.key
    &&& p.pack_pixi == own.pack_pixi
    &&& p.package == own.package
    &&& p.choice == own.choice
}

spec fn all_stem(ps: Seq<ProposalView>, clashes: Seq<ClashView>, packs: Seq<PackView>, n: int) -> bool {
    forall|k: int|
        0 <= k < ps.len() ==> (exists|at: int| #[trigger]
            stems_from(ps[k], clashes, packs, n, at)) && sources_hold(
            #[trigger] ps[k],
            clashes,
            packs,
            n,
        )
}

/// Whether all that a proposal comes from are clashes that propose the same.
spec fn sources_hold(
    p: ProposalView,
    clashes: Seq<ClashView>,
    packs: Seq<PackView>,
    n: int,
) -> bool {
    &&& p.bundles.len() > 0
    &&& forall|b: Seq<char>| #[trigger]
        p.bundles.contains(b) ==> exists|at: int|
            0 <= at < n && #[trigger] clashes[at].bundle == b && proposal_at(clashes, packs, at).key
                == p.key && proposal_at(clashes, packs, at).choice == p.choice
    &&& forall|t: Seq<char>| #[trigger]
        p.provenance.contains(t) ==> exists|at: int|
            0 <= at < n && #[trigger] clashes[at].provenance == t && proposal_at(
                clashes,
                packs,
                at,
            ).key == p.key && proposal_at(clashes, packs, at).choice == p.choice
}

proof fn lemma_placed_only(texts: Seq<Seq<char>>, x: Seq<char>)
    ensures
        forall|t: Seq<char>| #[trigger]
            text_placed(texts, x).contains(t) ==> t == x || texts.contains(t),
    decreases texts.len(),
{
    let after = text_placed(texts, x);
    assert forall|t: Seq<char>| #[trigger] after.contains(t) implies t == x || texts.contains(
        t,
    ) by {
        let k = choose|k: int| 0 <= k < after.len() && after[k] == t;
        if texts.len() == 0 {
            assert(after[0] == x);
        } else if texts.last() == x {
        } else if text_before(texts.last(), x) {
            if k < texts.len() {
                assert(texts[k] == t);
            }
        } else {
            let rest = texts.drop_last();
            lemma_placed_only(rest, x);
            let inner = text_placed(rest, x);
            if k < inner.len() {
                assert(inner[k] == t);
                assert(inner.contains(t));
                if rest.contains(t) {
                    let j = choose|j: int| 0 <= j < rest.len() && rest[j] == t;
                    assert(texts[j] == t);
                }
            } else {
                assert(texts[texts.len() - 1] == t);
            }
        }
    }
}

proof fn lemma_sources_grow(
    p: ProposalView,
    clashes: Seq<ClashView>,
    packs: Seq<PackView>,
    n: int,
)
    requires
        sources_hold(p, clashes, packs, n),
    ensures
        sources_hold(p, clashes, packs, n + 1),
{
    assert forall|b: Seq<char>| #[trigger] p.bundles.contains(b) implies exists|at: int|
        0 <= at < n + 1 && #[trigger] clashes[at].bundle == b && proposal_at(
            clashes,
            packs,
            at,
        ).key == p.key && proposal_at(clashes, packs, at).choice == p.choice by {
        let at = choose|at: int|
            0 <= at < n && #[trigger] clashes[at].bundle == b && proposal_at(clashes, packs, at).key
                == p.key && proposal_at(clashes, packs, at).choice == p.choice;
        assert(clashes[at].bundle == b);
    }
    assert forall|t: Seq<char>| #[trigger] p.provenance.contains(t) implies exists|at: int|
        0 <= at < n + 1 && #[trigger] clashes[at].provenance == t && proposal_at(
            clashes,
            packs,
            at,
        ).key == p.key && proposal_at(clashes, packs, at).choice == p.choice by {
        let at = choose|at: int|
            0 <= at < n && #[trigger] clashes[at].provenance == t && proposal_at(
                clashes,
                packs,
                at,
            ).key == p.key && proposal_at(clashes, packs, at).choice == p.choice;
        assert(clashes[at].provenance == t);
    }
}

proof fn lemma_merged_stem(
    ps: Seq<ProposalView>,
    clashes: Seq<ClashView>,
    packs: Seq<PackView>,
    n: int,
)
    requires
        0 <= n,
        packs[n] is Owned,
        all_stem(ps, clashes, packs, n),
        merged(ps, proposal_at(clashes, packs, n)) is Ok,
    ensures
        all_stem(merged(ps, proposal_at(clashes, packs, n))->Ok_0, clashes, packs, n + 1),
    decreases ps.len(),
{
    let p = proposal_at(clashes, packs, n);
    let after = merged(ps, p)->Ok_0;
    assert(stems_from(p, clashes, packs, n + 1, n));
    assert(sources_hold(p, clashes, packs, n + 1)) by {
        assert(clashes[n].bundle == p.bundles[0]);
        assert(clashes[n].provenance == p.provenance[0]);
    }
    assert forall|k: int| 0 <= k < ps.len() implies (exists|at: int| #[trigger]
        stems_from(ps[k], clashes, packs, n + 1, at)) && sources_hold(
        #[trigger] ps[k],
        clashes,
        packs,
        n + 1,
    ) by {
        let at = choose|at: int| #[trigger] stems_from(ps[k], clashes, packs, n, at);
        assert(stems_from(ps[k], clashes, packs, n + 1, at));
        lemma_sources_grow(ps[k], clashes, packs, n);
    }
    if ps.len() > 0 {
        let last = ps.last();
        let rest = ps.drop_last();
        assert(ps[ps.len() - 1] == last);
        assert(all_stem(rest, clashes, packs, n)) by {
            assert forall|k: int| 0 <= k < rest.len() implies (exists|at: int| #[trigger]
                stems_from(rest[k], clashes, packs, n, at)) && sources_hold(
                #[trigger] rest[k],
                clashes,
                packs,
                n,
            ) by {
                assert(rest[k] == ps[k]);
            }
        }
        if last.key == p.key {
            let changed = ProposalView {
                bundles: text_placed(last.bundles, p.bundles[0]),
                provenance: text_placed(last.provenance, p.provenance[0]),
                ..last
            };
            lemma_placed_only(last.bundles, p.bundles[0]);
            lemma_placed_only(last.provenance, p.provenance[0]);
            lemma_placed_not_empty(last.bundles, p.bundles[0]);
            let at = choose|at: int| #[trigger] stems_from(last, clashes, packs, n + 1, at);
            assert(stems_from(changed, clashes, packs, n + 1, at));
            assert(sources_hold(changed, clashes, packs, n + 1)) by {
                assert forall|b: Seq<char>| #[trigger] changed.bundles.contains(b) implies exists|
                    at: int,
                |
                    0 <= at < n + 1 && #[trigger] clashes[at].bundle == b && proposal_at(
                        clashes,
                        packs,
                        at,
                    ).key == p.key && proposal_at(clashes, packs, at).choice == p.choice by {
                    if b == p.bundles[0] {
                        assert(clashes[n].bundle == b);
                    } else {
                        assert(last.bundles.contains(b));
                    }
                }
                assert forall|t: Seq<char>| #[trigger] changed.provenance.contains(t) implies exists|
                    at: int,
                |
                    0 <= at < n + 1 && #[trigger] clashes[at].provenance == t && proposal_at(
                        clashes,
                        packs,
                        at,
                    ).key == p.key && proposal_at(clashes, packs, at).choice == p.choice by {
                    if t == p.provenance[0] {
                        assert(clashes[n].provenance == t);
                    } else {
                        assert(last.provenance.contains(t));
                    }
                }
            }
            assert(after =~= rest.push(changed));
            assert forall|k: int| 0 <= k < after.len() implies (exists|at: int| #[trigger]
                stems_from(after[k], clashes, packs, n + 1, at)) && sources_hold(
                #[trigger] after[k],
                clashes,
                packs,
                n + 1,
            ) by {
                if k < rest.len() {
                    assert(after[k] == ps[k]);
                } else {
                    assert(after[k] == changed);
                }
            }
        } else if lists_before(last.key, p.key) {
            assert forall|k: int| 0 <= k < after.len() implies (exists|at: int| #[trigger]
                stems_from(after[k], clashes, packs, n + 1, at)) && sources_hold(
                #[trigger] after[k],
                clashes,
                packs,
                n + 1,
            ) by {
                if k < ps.len() {
                    assert(after[k] == ps[k]);
                } else {
                    assert(after[k] == p);
                }
            }
        } else {
            lemma_merged_stem(rest, clashes, packs, n);
            let inner = merged(rest, p)->Ok_0;
            assert forall|k: int| 0 <= k < after.len() implies (exists|at: int| #[trigger]
                stems_from(after[k], clashes, packs, n + 1, at)) && sources_hold(
                #[trigger] after[k],
                clashes,
                packs,
                n + 1,
            ) by {
                if k < inner.len() {
                    assert(after[k] == inner[k]);
                } else {
                    assert(after[k] == ps[ps.len() - 1]);
                }
            }
        }
    } else {
        assert(after =~= seq![p]);
    }
}

proof fn lemma_proposed_stem(clashes: Seq<ClashView>, packs: Seq<PackView>, n: int)
    requires
        0 <= n <= clashes.len(),
        proposed(clashes.take(n), packs) is Ok,
    ensures
        all_stem(proposed(clashes.take(n), packs)->Ok_0, clashes, packs, n),
    decreases n,
{
    if n > 0 {
        let now = clashes.take(n);
        assert(now.drop_last() =~= clashes.take(n - 1));
        assert(now[n - 1] == clashes[n - 1]);
        lemma_proposed_stem(clashes, packs, n - 1);
        assert(proposal_at(now, packs, n - 1) == proposal_at(clashes, packs, n - 1));
        lemma_merged_stem(
            proposed(clashes.take(n - 1), packs)->Ok_0,
            clashes,
            packs,
            n - 1,
        );
    }
}

proof fn lemma_others_hold(texts: Seq<Seq<char>>, more: Seq<Seq<char>>, but: Seq<char>)
    ensures
        forall|t: Seq<char>|
            texts.contains(t) ==> #[trigger] others_placed(texts, more, but).contains(t),
        forall|t: Seq<char>|
            more.contains(t) && t != but ==> #[trigger] others_placed(texts, more, but).contains(t),
        forall|t: Seq<char>| #[trigger]
            others_placed(texts, more, but).contains(t) ==> texts.contains(t) || more.contains(t),
    decreases more.len(),
{
    if more.len() > 0 {
        let rest = more.drop_last();
        lemma_others_hold(texts, rest, but);
        let before = others_placed(texts, rest, but);
        lemma_placed_holds(before, more.last());
        lemma_placed_only(before, more.last());
        assert forall|t: Seq<char>| more.contains(t) && t != more.last() implies rest.contains(
            t,
        ) by {
            let k = choose|k: int| 0 <= k < more.len() && more[k] == t;
            assert(rest[k] == t);
        }
        assert forall|t: Seq<char>| rest.contains(t) implies more.contains(t) by {
            let k = choose|k: int| 0 <= k < rest.len() && rest[k] == t;
            assert(more[k] == t);
        }
        assert(more[more.len() - 1] == more.last());
    }
}

proof fn lemma_bundles_hold(ps: Seq<ProposalView>, k: int, b: Seq<char>)
    requires
        0 <= k < ps.len(),
        ps[k].bundles.contains(b),
    ensures
        b == ps[k].bundles[0] || other_bundles(ps).contains(b),
    decreases ps.len(),
{
    let p = ps.last();
    lemma_others_hold(other_bundles(ps.drop_last()), p.bundles, p.bundles[0]);
    if k < ps.len() - 1 {
        lemma_bundles_hold(ps.drop_last(), k, b);
    }
}

proof fn lemma_update_records(
    ps: Seq<ProposalView>,
    clashes: Seq<ClashView>,
    packs: Seq<PackView>,
    k: int,
    at: int,
)
    requires
        all_stem(ps, clashes, packs, clashes.len() as int),
        0 <= k < ps.len(),
        0 <= at < clashes.len(),
        proposal_at(clashes, packs, at).key == ps[k].key,
        proposal_at(clashes, packs, at).choice == ps[k].choice,
    ensures
        records(update_of(ps[k]), clashes[at]),
{
    let own = proposal_at(clashes, packs, at);
    let n = clashes.len() as int;
    assert(sources_hold(ps[k], clashes, packs, n));
    let from = choose|from: int| #[trigger] stems_from(ps[k], clashes, packs, n, from);
    assert(own.key[1][0] == canonical_name(own.package));
    assert(proposal_at(clashes, packs, from).key[1][0] == canonical_name(ps[k].package));
}

proof fn lemma_bundle_comes_from(
    ps: Seq<ProposalView>,
    clashes: Seq<ClashView>,
    packs: Seq<PackView>,
    k: int,
) -> (at: int)
    requires
        all_stem(ps, clashes, packs, clashes.len() as int),
        0 <= k < ps.len(),
    ensures
        0 <= at < clashes.len(),
        clashes[at].bundle == ps[k].bundles[0],
        proposal_at(clashes, packs, at).key == ps[k].key,
        proposal_at(clashes, packs, at).choice == ps[k].choice,
{
    let n = clashes.len() as int;
    assert(sources_hold(ps[k], clashes, packs, n));
    let b = ps[k].bundles[0];
    assert(ps[k].bundles.contains(b));
    choose|at: int|
        0 <= at < n && #[trigger] clashes[at].bundle == b && proposal_at(clashes, packs, at).key
            == ps[k].key && proposal_at(clashes, packs, at).choice == ps[k].choice
}

proof fn lemma_place_comes_from(
    ps: Seq<ProposalView>,
    clashes: Seq<ClashView>,
    packs: Seq<PackView>,
    k: int,
    t: Seq<char>,
) -> (at: int)
    requires
        all_stem(ps, clashes, packs, clashes.len() as int),
        0 <= k < ps.len(),
        ps[k].provenance.contains(t),
    ensures
        0 <= at < clashes.len(),
        clashes[at].provenance == t,
        proposal_at(clashes, packs, at).key == ps[k].key,
        proposal_at(clashes, packs, at).choice == ps[k].choice,
{
    let n = clashes.len() as int;
    assert(sources_hold(ps[k], clashes, packs, n));
    choose|at: int|
        0 <= at < n && #[trigger] clashes[at].provenance == t && proposal_at(
            clashes,
            packs,
            at,
        ).key == ps[k].key && proposal_at(clashes, packs, at).choice == ps[k].choice
}

proof fn lemma_planned(v: ReportView, packs: Seq<PackView>)
    requires
        ledger_plan(v, packs) is Ok,
    ensures
        ({
            let ps = proposed(clashes_in(v.scopes), packs)->Ok_0;
            let plan = ledger_plan(v, packs)->Ok_0;
            &&& proposed(clashes_in(v.scopes), packs) is Ok
            &&& plan.updates.len() == ps.len()
            &&& forall|k: int| 0 <= k < ps.len() ==> #[trigger] plan.updates[k] == update_of(ps[k])
            &&& plan.also_invalidate == other_bundles(ps)
            &&& all_stem(ps, clashes_in(v.scopes), packs, clashes_in(v.scopes).len() as int)
        }),
{
    let clashes = clashes_in(v.scopes);
    assert(clashes.take(clashes.len() as int) =~= clashes);
    lemma_proposed_stem(clashes, packs, clashes.len() as int);
}

/// Every clash has an update that carries its suggestion out, with the suggestion's own
/// values, for the package that it is about; and the clash's bundle is the update's or
/// is invalidated too.
pub proof fn law_every_suggestion_is_planned(v: ReportView, packs: Seq<PackView>, at: int)
    requires
        ledger_plan(v, packs) is Ok,
        0 <= at < clashes_in(v.scopes).len(),
    ensures
        ({
            let clash = clashes_in(v.scopes)[at];
            let plan = ledger_plan(v, packs)->Ok_0;
            exists|k: int|
                {
                    &&& 0 <= k < plan.updates.len()
                    &&& records(#[trigger] plan.updates[k], clash)
                    &&& plan.updates[k].bundle == clash.bundle || plan.also_invalidate.contains(
                        clash.bundle,
                    )
                }
        }),
{
    let clashes = clashes_in(v.scopes);
    let ps = proposed(clashes, packs)->Ok_0;
    let plan = ledger_plan(v, packs)->Ok_0;
    lemma_planned(v, packs);
    law_every_clash_is_answered(clashes, packs, at);
    let own = proposal_at(clashes, packs, at);
    let k = choose|k: int| 0 <= k < ps.len() && answers(#[trigger] ps[k], own);
    lemma_bundles_hold(ps, k, clashes[at].bundle);
    lemma_update_records(ps, clashes, packs, k, at);
    assert(plan.updates[k] == update_of(ps[k]));
}

/// Every update carries out the suggestion of a clash, in the pack that was found for
/// it and under the name that the suggestion has for the package.
pub proof fn law_every_update_was_suggested(v: ReportView, packs: Seq<PackView>, k: int)
    requires
        ledger_plan(v, packs) is Ok,
        0 <= k < ledger_plan(v, packs)->Ok_0.updates.len(),
    ensures
        ({
            let clashes = clashes_in(v.scopes);
            let update = ledger_plan(v, packs)->Ok_0.updates[k];
            exists|at: int|
                {
                    &&& 0 <= at < clashes.len()
                    &&& records(update, #[trigger] clashes[at])
                    &&& update.package == suggested_package(clashes[at])
                    &&& packs[at] matches PackView::Owned { pack_pixi, .. } && pack_pixi
                        == update.pack_pixi
                }
        }),
{
    let clashes = clashes_in(v.scopes);
    let ps = proposed(clashes, packs)->Ok_0;
    let plan = ledger_plan(v, packs)->Ok_0;
    lemma_planned(v, packs);
    assert(sources_hold(ps[k], clashes, packs, clashes.len() as int));
    let at = choose|at: int| #[trigger]
        stems_from(ps[k], clashes, packs, clashes.len() as int, at);
    lemma_update_records(ps, clashes, packs, k, at);
    assert(plan.updates[k] == update_of(ps[k]));
}

/// The bundle of an update, and every place that it is said to come from, is that of a
/// clash whose suggestion it carries out.
pub proof fn law_updates_name_their_clashes(v: ReportView, packs: Seq<PackView>, k: int)
    requires
        ledger_plan(v, packs) is Ok,
        0 <= k < ledger_plan(v, packs)->Ok_0.updates.len(),
    ensures
        ({
            let clashes = clashes_in(v.scopes);
            let update = ledger_plan(v, packs)->Ok_0.updates[k];
            &&& exists|at: int|
                0 <= at < clashes.len() && records(update, #[trigger] clashes[at]) && update.bundle
                    == clashes[at].bundle
            &&& exists|places: Seq<Seq<char>>|
                {
                    &&& update.provenance == #[trigger] joined(places, "; "@)
                    &&& forall|t: Seq<char>| #[trigger]
                        places.contains(t) ==> exists|at: int|
                            0 <= at < clashes.len() && #[trigger] clashes[at].provenance == t
                                && records(update, clashes[at])
                }
        }),
{
    let clashes = clashes_in(v.scopes);
    let ps = proposed(clashes, packs)->Ok_0;
    let plan = ledger_plan(v, packs)->Ok_0;
    lemma_planned(v, packs);
    let update = plan.updates[k];
    assert(update == update_of(ps[k]));
    let at = lemma_bundle_comes_from(ps, clashes, packs, k);
    lemma_update_records(ps, clashes, packs, k, at);
    let places = ps[k].provenance;
    assert(update.provenance == joined(places, "; "@));
    assert forall|t: Seq<char>| #[trigger] places.contains(t) implies exists|at: int|
        0 <= at < clashes.len() && #[trigger] clashes[at].provenance == t && records(
            update,
            clashes[at],
        ) by {
        let from = lemma_place_comes_from(ps, clashes, packs, k, t);
        lemma_update_records(ps, clashes, packs, k, from);
        assert(clashes[from].provenance == t);
    }
}

/// The clashes of a report are those of its scopes, one scope after the other: the place
/// of a clash is how many the scopes before its own hold, and its place in its own.
pub proof fn law_clashes_stand_scope_by_scope(
    scopes: Seq<(Seq<char>, FailureView)>,
    scope: int,
    at: int,
)
    requires
        0 <= scope < scopes.len(),
        0 <= at < scopes[scope].1.conflicts.len(),
    ensures
        clash_count(scopes.take(scope)) + at < clashes_in(scopes).len(),
        clashes_in(scopes)[clash_count(scopes.take(scope)) + at] == scopes[scope].1.conflicts[at],
        clashes_in(scopes).len() == clash_count(scopes),
    decreases scopes.len(),
{
    let rest = scopes.drop_last();
    lemma_clashes_counted(scopes);
    lemma_clashes_counted(rest);
    if scope < rest.len() {
        law_clashes_stand_scope_by_scope(rest, scope, at);
        assert(rest.take(scope) =~= scopes.take(scope));
    } else {
        assert(scopes.take(scope) =~= rest);
    }
}

/// The plan of one clash alone records that clash's suggestion and nothing else.
pub proof fn law_one_clash_has_one_update(
    v: ReportView,
    packs: Seq<PackView>,
    clash: ClashView,
    pixi: Seq<char>,
    place: Seq<char>,
)
    requires
        blocker(v) is None,
        clashes_in(v.scopes) == seq![clash],
        packs.len() == 1,
        packs[0] == (PackView::Owned { pack_pixi: pixi, identity: place }),
        clash.suggestion_from_backend,
    ensures
        ({
            let plan = ledger_plan(v, packs)->Ok_0;
            &&& ledger_plan(v, packs) is Ok
            &&& plan.updates.len() == 1
            &&& carries_out(plan.updates[0].action, clash.suggestion)
            &&& plan.updates[0].package == suggested_package(clash)
            &&& plan.updates[0].pack_pixi == pixi
            &&& plan.updates[0].bundle == clash.bundle
            &&& plan.updates[0].provenance == clash.provenance
            &&& plan.also_invalidate.len() == 0
        }),
{
    let clashes = seq![clash];
    assert(clashes.drop_last() =~= Seq::empty());
    let p = proposal_of(clash, pixi, place);
    let none = Seq::<ProposalView>::empty();
    assert(proposed(clashes.drop_last(), packs) == Ok::<Seq<ProposalView>, Seq<char>>(none));
    assert(merged(none, p) == Ok::<Seq<ProposalView>, Seq<char>>(seq![p]));
    assert(proposed(clashes, packs) == Ok::<Seq<ProposalView>, Seq<char>>(seq![p]));
    assert(seq![p].drop_last() =~= none);
    let more = p.bundles;
    assert(more.drop_last() =~= Seq::empty());
    assert(others_placed(Seq::empty(), more.drop_last(), p.bundles[0]) =~= Seq::empty());
    assert(other_bundles(none) =~= Seq::empty());
    assert(other_bundles(seq![p]) =~= Seq::empty());
    assert(joined(p.provenance, "; "@) =~= clash.provenance) by {
        assert(p.provenance.drop_last() =~= Seq::empty());
    }
}

proof fn lemma_merged_agrees(ps: Seq<ProposalView>, p: ProposalView)
    requires
        forall|k: int|
            0 <= k < ps.len() && (#[trigger] ps[k]).key == p.key ==> ps[k].choice == p.choice,
    ensures
        merged(ps, p) is Ok,
    decreases ps.len(),
{
    if ps.len() > 0 {
        assert(ps[ps.len() - 1] == ps.last());
        lemma_merged_agrees(ps.drop_last(), p);
    }
}

/// Clashes that all have a suggestion and a pack, and agree on each package of a pack,
/// are all taken.
pub proof fn law_agreeing_suggestions_are_taken(v: ReportView, packs: Seq<PackView>)
    requires
        blocker(v) is None,
        ({
            let clashes = clashes_in(v.scopes);
            &&& forall|at: int|
                0 <= at < clashes.len() ==> (#[trigger] clashes[at]).suggestion_from_backend
                    && packs[at] is Owned
            &&& forall|a: int, b: int|
                0 <= a < clashes.len() && 0 <= b < clashes.len() && pieces(
                    packs[a]->identity,
                    '/',
                ) == pieces(packs[b]->identity, '/') && canonical_name(
                    suggested_package(#[trigger] clashes[a]),
                ) == canonical_name(suggested_package(#[trigger] clashes[b]))
                    ==> exists|action: ChoiceView| #[trigger]
                    carries_out(action, clashes[a].suggestion) && carries_out(
                        action,
                        clashes[b].suggestion,
                    )
        }),
    ensures
        ledger_plan(v, packs) is Ok,
{
    lemma_taken(clashes_in(v.scopes), packs, clashes_in(v.scopes).len() as int);
    assert(clashes_in(v.scopes).take(clashes_in(v.scopes).len() as int) =~= clashes_in(v.scopes));
}

proof fn lemma_taken(clashes: Seq<ClashView>, packs: Seq<PackView>, n: int)
    requires
        0 <= n <= clashes.len(),
        forall|at: int|
            0 <= at < clashes.len() ==> (#[trigger] clashes[at]).suggestion_from_backend
                && packs[at] is Owned,
        forall|a: int, b: int|
            0 <= a < clashes.len() && 0 <= b < clashes.len() && pieces(packs[a]->identity, '/')
                == pieces(packs[b]->identity, '/') && canonical_name(
                suggested_package(#[trigger] clashes[a]),
            ) == canonical_name(suggested_package(#[trigger] clashes[b]))
                ==> exists|action: ChoiceView| #[trigger]
                carries_out(action, clashes[a].suggestion) && carries_out(
                    action,
                    clashes[b].suggestion,
                ),
    ensures
        proposed(clashes.take(n), packs) is Ok,
    decreases n,
{
    if n > 0 {
        lemma_taken(clashes, packs, n - 1);
        let now = clashes.take(n);
        assert(now.drop_last() =~= clashes.take(n - 1));
        assert(now[n - 1] == clashes[n - 1]);
        lemma_proposed_stem(clashes, packs, n - 1);
        let ps = proposed(clashes.take(n - 1), packs)->Ok_0;
        let p = proposal_at(clashes, packs, n - 1);
        assert forall|k: int| 0 <= k < ps.len() && (#[trigger] ps[k]).key == p.key implies ps[k].choice
            == p.choice by {
            let at = choose|at: int| #[trigger] stems_from(ps[k], clashes, packs, n - 1, at);
            let own = proposal_at(clashes, packs, at);
            assert(own.key[0] == p.key[0]);
            assert(own.key[1][0] == p.key[1][0]);
            assert(clashes[at].suggestion_from_backend && clashes[n - 1].suggestion_from_backend);
            let action = choose|action: ChoiceView| #[trigger]
                carries_out(action, clashes[at].suggestion) && carries_out(
                    action,
                    clashes[n - 1].suggestion,
                );
            assert(own.choice == action);
            assert(p.choice == action);
        }
        lemma_merged_agrees(ps, p);
    }
}

/// A bundle is that of the one pack that owns it, and only where the suggestion is for
/// that pack: without an owner, with two, or with a suggestion for another pack it is
/// refused.
pub proof fn law_bundle_has_one_owner(
    owned: Seq<Seq<char>>,
    suggested: Option<Seq<char>>,
    suggested_path: Seq<char>,
    bundle: Seq<char>,
    manifest: Seq<char>,
    owner: Seq<char>,
)
    ensures
        owner_of_bundle(owned, suggested, suggested_path, bundle, manifest) == Ok::<
            Seq<char>,
            Seq<char>,
        >(owner) <==> owned.contains(owner) && suggested == Some(owner) && (forall|i: int|
            0 <= i < owned.len() ==> #[trigger] owned[i] == owner),
        owner_of_bundle(owned, suggested, suggested_path, bundle, manifest) matches Ok(p)
            ==> owned.contains(p) && suggested == Some(p),
{
    lemma_all_placed_texts(owned);
    let owners = all_placed(owned);
    if owners.len() == 1 {
        assert(owners.contains(owners[0]));
        assert forall|i: int| 0 <= i < owned.len() implies #[trigger] owned[i] == owners[0] by {
            assert(owned.contains(owned[i]));
            assert(owners.contains(owned[i]));
        }
    }
    if owners.len() > 1 {
        assert(owners.contains(owners[0]) && owners.contains(owners[1]));
        lemma_before_total(owners[0], owners[1]);
        assert(text_before(owners[0], owners[1]));
        let a = choose|a: int| 0 <= a < owned.len() && owned[a] == owners[0];
        let b = choose|b: int| 0 <= b < owned.len() && owned[b] == owners[1];
        assert(owned[a] != owned[b]);
    }
    if owners.len() == 0 {
        if owned.contains(owner) {
            assert(owners.contains(owner));
        }
    }
}

proof fn lemma_all_placed_texts(texts: Seq<Seq<char>>)
    ensures
        in_order(all_placed(texts)),
        forall|t: Seq<char>| #[trigger] all_placed(texts).contains(t) <==> texts.contains(t),
    decreases texts.len(),
{
    if texts.len() > 0 {
        let rest = texts.drop_last();
        lemma_all_placed_texts(rest);
        law_placed_texts_are_in_order(all_placed(rest), texts.last());
        assert(texts =~= rest.push(texts.last()));
    }
}

/// The paths of a bundle are those that the tables give under its name, however that is
/// spelled, and no others.
pub proof fn law_bundle_goes_by_its_name(
    table: Seq<(Seq<char>, Seq<char>)>,
    bundle: Seq<char>,
    path: Seq<char>,
)
    ensures
        paths_of_bundle(table, bundle).contains(path) <==> exists|i: int|
            0 <= i < table.len() && canonical_name((#[trigger] table[i]).0) == canonical_name(
                bundle,
            ) && table[i].1 == path,
        in_order(paths_of_bundle(table, bundle)),
    decreases table.len(),
{
    if table.len() > 0 {
        let short = table.drop_last();
        law_bundle_goes_by_its_name(short, bundle, path);
        let before = paths_of_bundle(short, bundle);
        law_placed_texts_are_in_order(before, table.last().1);
        let last = table.len() - 1;
        assert(table[last] == table.last());
        if exists|i: int|
            0 <= i < short.len() && canonical_name((#[trigger] short[i]).0) == canonical_name(
                bundle,
            ) && short[i].1 == path {
            let i = choose|i: int|
                0 <= i < short.len() && canonical_name((#[trigger] short[i]).0) == canonical_name(
                    bundle,
                ) && short[i].1 == path;
            assert(table[i] == short[i]);
        }
        if exists|i: int|
            0 <= i < table.len() && canonical_name((#[trigger] table[i]).0) == canonical_name(
                bundle,
            ) && table[i].1 == path {
            let i = choose|i: int|
                0 <= i < table.len() && canonical_name((#[trigger] table[i]).0) == canonical_name(
                    bundle,
                ) && table[i].1 == path;
            if i < short.len() {
                assert(short[i] == table[i]);
            }
        }
    }
}

/// What tables hold is what each of them holds.
pub proof fn law_entries_of_every_table_count(
    tables: Seq<Seq<(Seq<char>, Seq<char>)>>,
    e: (Seq<char>, Seq<char>),
)
    ensures
        entries_of(tables).contains(e) <==> exists|t: int|
            0 <= t < tables.len() && (#[trigger] tables[t]).contains(e),
    decreases tables.len(),
{
    if tables.len() > 0 {
        let short = tables.drop_last();
        law_entries_of_every_table_count(short, e);
        let before = entries_of(short);
        let own = tables.last();
        let last = tables.len() - 1;
        assert(tables[last] == own);
        assert((before + own).contains(e) <==> before.contains(e) || own.contains(e)) by {
            if before.contains(e) {
                let j = choose|j: int| 0 <= j < before.len() && before[j] == e;
                assert((before + own)[j] == e);
            }
            if own.contains(e) {
                let j = choose|j: int| 0 <= j < own.len() && own[j] == e;
                assert((before + own)[before.len() + j] == e);
            }
        }
        if exists|t: int| 0 <= t < short.len() && (#[trigger] short[t]).contains(e) {
            let t = choose|t: int| 0 <= t < short.len() && (#[trigger] short[t]).contains(e);
            assert(tables[t] == short[t]);
        }
        if exists|t: int| 0 <= t < tables.len() && (#[trigger] tables[t]).contains(e) {
            let t = choose|t: int| 0 <= t < tables.len() && (#[trigger] tables[t]).contains(e);
            if t < short.len() {
                assert(short[t] == tables[t]);
            }
        }
    }
}

} // verus!
