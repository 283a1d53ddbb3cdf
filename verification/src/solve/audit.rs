//! The check of every environment that changes nothing: what it finds, and how it is
//! told.
use crate::solve::driver::collapse_diagnostic_whitespace;
use crate::solve::error::{EXIT_EXHAUSTED, EXIT_INTERRUPTED, EXIT_OK, EXIT_UNPARSEABLE};
use crate::solve::lock::without_colours;
use crate::solve::order::{
    lemma_lists_total, lemma_lists_transitive, lists_before, lists_come_before, same_lists,
    texts_before,
};
use crate::solve::parse::{tail, tail_of, RegexConflictParser};

use crate::text::{
    comes_before, decimal, decimal_text, join, joined, lemma_before_total, lemma_before_transitive,
    line_pieces, lines, push_view, text_before, text_eq, trim_end, trimmed_end, words,
};
use vstd::prelude::*;

verus! {

broadcast use vstd::seq_lib::group_seq_properties;

// ---------------------------------------------------------------------------
// What a backend reports
// ---------------------------------------------------------------------------

/// A requirement that takes part in a clash, and who makes it.
#[derive(Debug, Clone)]
pub struct RetreadConflictRequirement {
    pub spec: String,
    pub source: String,
}

impl DeepView for RetreadConflictRequirement {
    type V = (Seq<char>, Seq<char>);

    open spec fn deep_view(&self) -> (Seq<char>, Seq<char>) {
        (self.spec@, self.source@)
    }
}

/// What would settle a clash, and in which pack's manifest it would be written.
#[derive(Debug, Clone)]
#[allow(inconsistent_fields)]
pub enum RetreadConflictSuggestion {
    DropDependency { pack_manifest: String, alternatives: Vec<String> },
    Override { pack_manifest: String, package: String, spec: String },
    RootPin { pack_manifest: String, package: String, spec: String, bundle_group: String },
}

/// What a `RetreadConflictSuggestion` says.
#[verifier::ext_equal]
pub enum SuggestionView {
    DropDependency { pack_manifest: Seq<char>, alternatives: Seq<Seq<char>> },
    Override { pack_manifest: Seq<char>, package: Seq<char>, spec: Seq<char> },
    RootPin {
        pack_manifest: Seq<char>,
        package: Seq<char>,
        spec: Seq<char>,
        bundle_group: Seq<char>,
    },
}

impl DeepView for RetreadConflictSuggestion {
    type V = SuggestionView;

    open spec fn deep_view(&self) -> SuggestionView {
        match self {
            RetreadConflictSuggestion::DropDependency { pack_manifest, alternatives } => {
                SuggestionView::DropDependency {
                    pack_manifest: pack_manifest@,
                    alternatives: alternatives.deep_view(),
                }
            },
            RetreadConflictSuggestion::Override { pack_manifest, package, spec } => {
                SuggestionView::Override {
                    pack_manifest: pack_manifest@,
                    package: package@,
                    spec: spec@,
                }
            },
            RetreadConflictSuggestion::RootPin { pack_manifest, package, spec, bundle_group } => {
                SuggestionView::RootPin {
                    pack_manifest: pack_manifest@,
                    package: package@,
                    spec: spec@,
                    bundle_group: bundle_group@,
                }
            },
        }
    }
}

/// The manifest that a suggestion would be written in.
pub open spec fn suggested_manifest(s: SuggestionView) -> Seq<char> {
    match s {
        SuggestionView::DropDependency { pack_manifest, .. } => pack_manifest,
        SuggestionView::Override { pack_manifest, .. } => pack_manifest,
        SuggestionView::RootPin { pack_manifest, .. } => pack_manifest,
    }
}

impl RetreadConflictSuggestion {
    /// The manifest that the suggestion would be written in.
    pub fn pack_manifest(&self) -> (r: &String)
        ensures
            r@ == suggested_manifest(self.deep_view()),
    {
        match self {
            RetreadConflictSuggestion::DropDependency { pack_manifest, .. } => pack_manifest,
            RetreadConflictSuggestion::Override { pack_manifest, .. } => pack_manifest,
            RetreadConflictSuggestion::RootPin { pack_manifest, .. } => pack_manifest,
        }
    }
}

/// Requirements of a pack that cannot be met together: where they meet, what they
/// are, what would settle them, whether the backend suggests that itself, how the
/// suggestion reads as TOML, and where it comes from.
#[derive(Debug, Clone)]
pub struct RetreadMutuallyUnsatisfiable {
    pub scope: String,
    pub bundle: String,
    pub platform: String,
    pub python: String,
    pub package: String,
    pub requirements: Vec<RetreadConflictRequirement>,
    pub suggestion: RetreadConflictSuggestion,
    pub suggestion_from_backend: bool,
    pub relaxation: String,
    pub provenance: String,
}

/// What a `RetreadMutuallyUnsatisfiable` says.
#[verifier::ext_equal]
pub struct ClashView {
    pub scope: Seq<char>,
    pub bundle: Seq<char>,
    pub platform: Seq<char>,
    pub python: Seq<char>,
    pub package: Seq<char>,
    pub requirements: Seq<(Seq<char>, Seq<char>)>,
    pub suggestion: SuggestionView,
    pub suggestion_from_backend: bool,
    pub relaxation: Seq<char>,
    pub provenance: Seq<char>,
}

impl DeepView for RetreadMutuallyUnsatisfiable {
    type V = ClashView;

    open spec fn deep_view(&self) -> ClashView {
        ClashView {
            scope: self.scope@,
            bundle: self.bundle@,
            platform: self.platform@,
            python: self.python@,
            package: self.package@,
            requirements: self.requirements.deep_view(),
            suggestion: self.suggestion.deep_view(),
            suggestion_from_backend: self.suggestion_from_backend,
            relaxation: self.relaxation@,
            provenance: self.provenance@,
        }
    }
}

// ---------------------------------------------------------------------------
// Their order
// ---------------------------------------------------------------------------

/// The texts of requirements, one after the other.
pub open spec fn requirement_texts(reqs: Seq<(Seq<char>, Seq<char>)>) -> Seq<Seq<char>>
    decreases reqs.len(),
{
    if reqs.len() == 0 {
        Seq::empty()
    } else {
        requirement_texts(reqs.drop_last()).push(reqs.last().0).push(reqs.last().1)
    }
}

/// The texts of a suggestion, after one that tells its kind.
pub open spec fn suggestion_texts(s: SuggestionView) -> Seq<Seq<char>> {
    match s {
        SuggestionView::DropDependency { pack_manifest, alternatives } => seq![
            "0"@,
            pack_manifest,
        ] + alternatives,
        SuggestionView::Override { pack_manifest, package, spec } => seq![
            "1"@,
            pack_manifest,
            package,
            spec,
        ],
        SuggestionView::RootPin { pack_manifest, package, spec, bundle_group } => seq![
            "2"@,
            pack_manifest,
            package,
            spec,
            bundle_group,
        ],
    }
}

/// What a clash is ordered by: its parts, one after the other.
pub open spec fn clash_key(c: ClashView) -> Seq<Seq<Seq<char>>> {
    seq![
        seq![c.scope, c.bundle, c.platform, c.python, c.package],
        requirement_texts(c.requirements),
        suggestion_texts(c.suggestion),
        seq![
            if c.suggestion_from_backend {
                "1"@
            } else {
                "0"@
            },
            c.relaxation,
            c.provenance,
        ],
    ]
}

proof fn lemma_requirement_texts_differ(
    a: Seq<(Seq<char>, Seq<char>)>,
    b: Seq<(Seq<char>, Seq<char>)>,
)
    requires
        requirement_texts(a) == requirement_texts(b),
    ensures
        a == b,
    decreases a.len(),
{
    let x = requirement_texts(a);
    let y = requirement_texts(b);
    if a.len() == 0 || b.len() == 0 {
        if a.len() > 0 {
            assert(x.len() >= 2);
        }
        if b.len() > 0 {
            assert(y.len() >= 2);
        }
        assert(a =~= b);
    } else {
        assert(x.last() == a.last().1 && y.last() == b.last().1);
        assert(x[x.len() - 2] == a.last().0 && y[y.len() - 2] == b.last().0);
        assert(x.drop_last().drop_last() =~= requirement_texts(a.drop_last()));
        assert(y.drop_last().drop_last() =~= requirement_texts(b.drop_last()));
        lemma_requirement_texts_differ(a.drop_last(), b.drop_last());
        assert(a =~= a.drop_last().push(a.last()));
        assert(b =~= b.drop_last().push(b.last()));
    }
}

proof fn lemma_suggestion_texts_differ(a: SuggestionView, b: SuggestionView)
    requires
        suggestion_texts(a) == suggestion_texts(b),
    ensures
        a == b,
{
    let x = suggestion_texts(a);
    let y = suggestion_texts(b);
    reveal_strlit("0");
    reveal_strlit("1");
    reveal_strlit("2");
    assert("0"@[0] == '0');
    assert("1"@[0] == '1');
    assert("2"@[0] == '2');
    assert(x[0] == y[0]);
    assert(x[1] == y[1]);
    match (a, b) {
        (
            SuggestionView::DropDependency { alternatives: p, .. },
            SuggestionView::DropDependency { alternatives: q, .. },
        ) => {
            assert(p =~= x.skip(2));
            assert(q =~= y.skip(2));
        },
        (
            SuggestionView::Override { package: p, spec: s, .. },
            SuggestionView::Override { package: q, spec: t, .. },
        ) => {
            assert(x[2] == p && y[2] == q && x[3] == s && y[3] == t);
        },
        (
            SuggestionView::RootPin { package: p, spec: s, bundle_group: g, .. },
            SuggestionView::RootPin { package: q, spec: t, bundle_group: h, .. },
        ) => {
            assert(x[2] == p && y[2] == q && x[3] == s && y[3] == t && x[4] == g && y[4] == h);
        },
        _ => {},
    }
}

/// Two clashes that differ are ordered by different keys.
pub proof fn lemma_keys_differ(a: ClashView, b: ClashView)
    requires
        clash_key(a) == clash_key(b),
    ensures
        a == b,
{
    let x = clash_key(a);
    let y = clash_key(b);
    assert(x[0] == y[0] && x[1] == y[1] && x[2] == y[2] && x[3] == y[3]);
    assert(x[0][0] == y[0][0] && x[0][1] == y[0][1] && x[0][2] == y[0][2] && x[0][3] == y[0][3]
        && x[0][4] == y[0][4]);
    assert(x[3][0] == y[3][0] && x[3][1] == y[3][1] && x[3][2] == y[3][2]);
    reveal_strlit("0");
    reveal_strlit("1");
    assert("0"@[0] == '0');
    assert("1"@[0] == '1');
    lemma_requirement_texts_differ(a.requirements, b.requirements);
    lemma_suggestion_texts_differ(a.suggestion, b.suggestion);
    assert(a =~= b);
}

fn texts_of_requirements(reqs: &Vec<RetreadConflictRequirement>) -> (r: Vec<String>)
    ensures
        r.deep_view() == requirement_texts(reqs.deep_view()),
{
    let ghost all = reqs.deep_view();
    let mut out: Vec<String> = Vec::new();
    assert(out.deep_view() =~= Seq::<Seq<char>>::empty());
    let n: usize = reqs.len();
    let mut i: usize = 0;
    while i < n
        invariant
            i <= n,
            n == reqs@.len(),
            all == reqs.deep_view(),
            out.deep_view() == requirement_texts(all.take(i as int)),
        decreases n - i,
    {
        assert(all.take(i + 1).drop_last() =~= all.take(i as int));
        assert(all.take(i + 1).last() == all[i as int]);
        assert(all[i as int] == reqs@[i as int].deep_view());
        push_view(&mut out, reqs[i].spec.clone());
        push_view(&mut out, reqs[i].source.clone());
        i = i + 1;
    }
    assert(all.take(n as int) =~= all);
    out
}

fn texts_of_suggestion(s: &RetreadConflictSuggestion) -> (r: Vec<String>)
    ensures
        r.deep_view() == suggestion_texts(s.deep_view()),
{
    let mut out: Vec<String> = Vec::new();
    assert(out.deep_view() =~= Seq::<Seq<char>>::empty());
    match s {
        RetreadConflictSuggestion::DropDependency { pack_manifest, alternatives } => {
            push_view(&mut out, "0".to_owned());
            push_view(&mut out, pack_manifest.clone());
            let ghost all = alternatives.deep_view();
            let n: usize = alternatives.len();
            let mut i: usize = 0;
            assert(out.deep_view() =~= seq!["0"@, pack_manifest@] + all.take(0));
            while i < n
                invariant
                    i <= n,
                    n == alternatives@.len(),
                    all == alternatives.deep_view(),
                    out.deep_view() == seq!["0"@, pack_manifest@] + all.take(i as int),
                decreases n - i,
            {
                assert(all[i as int] == alternatives@[i as int].deep_view());
                push_view(&mut out, alternatives[i].clone());
                assert(out.deep_view() =~= seq!["0"@, pack_manifest@] + all.take(i + 1));
                i = i + 1;
            }
            assert(all.take(n as int) =~= all);
        },
        RetreadConflictSuggestion::Override { pack_manifest, package, spec } => {
            push_view(&mut out, "1".to_owned());
            push_view(&mut out, pack_manifest.clone());
            push_view(&mut out, package.clone());
            push_view(&mut out, spec.clone());
            assert(out.deep_view() =~= suggestion_texts(s.deep_view()));
        },
        RetreadConflictSuggestion::RootPin { pack_manifest, package, spec, bundle_group } => {
            push_view(&mut out, "2".to_owned());
            push_view(&mut out, pack_manifest.clone());
            push_view(&mut out, package.clone());
            push_view(&mut out, spec.clone());
            push_view(&mut out, bundle_group.clone());
            assert(out.deep_view() =~= suggestion_texts(s.deep_view()));
        },
    }
    out
}

fn key_of(c: &RetreadMutuallyUnsatisfiable) -> (r: Vec<Vec<String>>)
    ensures
        r.deep_view() == clash_key(c.deep_view()),
{
    let mut names: Vec<String> = Vec::new();
    assert(names.deep_view() =~= Seq::<Seq<char>>::empty());
    push_view(&mut names, c.scope.clone());
    push_view(&mut names, c.bundle.clone());
    push_view(&mut names, c.platform.clone());
    push_view(&mut names, c.python.clone());
    push_view(&mut names, c.package.clone());
    let mut rest: Vec<String> = Vec::new();
    assert(rest.deep_view() =~= Seq::<Seq<char>>::empty());
    if c.suggestion_from_backend {
        push_view(&mut rest, "1".to_owned());
    } else {
        push_view(&mut rest, "0".to_owned());
    }
    push_view(&mut rest, c.relaxation.clone());
    push_view(&mut rest, c.provenance.clone());
    let ghost first = names.deep_view();
    let ghost last = rest.deep_view();
    assert(first =~= clash_key(c.deep_view())[0]);
    assert(last =~= clash_key(c.deep_view())[3]);
    let mut out: Vec<Vec<String>> = Vec::new();
    assert(out.deep_view() =~= Seq::<Seq<Seq<char>>>::empty());
    push_view(&mut out, names);
    push_view(&mut out, texts_of_requirements(&c.requirements));
    push_view(&mut out, texts_of_suggestion(&c.suggestion));
    push_view(&mut out, rest);
    assert(out.deep_view() =~= clash_key(c.deep_view()));
    out
}

/// Whether a clash comes before another.
pub open spec fn clash_before(a: ClashView, b: ClashView) -> bool {
    lists_before(clash_key(a), clash_key(b))
}

fn precedes(a: &RetreadMutuallyUnsatisfiable, b: &RetreadMutuallyUnsatisfiable) -> (r: bool)
    ensures
        r == clash_before(a.deep_view(), b.deep_view()),
{
    lists_come_before(&key_of(a), &key_of(b))
}

fn same_clash(a: &RetreadMutuallyUnsatisfiable, b: &RetreadMutuallyUnsatisfiable) -> (r: bool)
    ensures
        r == (a.deep_view() == b.deep_view()),
{
    let r: bool = same_lists(&key_of(a), &key_of(b));
    proof {
        if r {
            lemma_keys_differ(a.deep_view(), b.deep_view());
        }
    }
    r
}

// ---------------------------------------------------------------------------
// The report
// ---------------------------------------------------------------------------

/// What was found in one scope: the clashes, or why it could not be told.
#[derive(Debug, Clone)]
pub struct AuditScopeFailure {
    pub conflicts: Vec<RetreadMutuallyUnsatisfiable>,
    pub fallback: Option<String>,
}

/// What an `AuditScopeFailure` says.
#[verifier::ext_equal]
pub struct FailureView {
    pub conflicts: Seq<ClashView>,
    pub fallback: Option<Seq<char>>,
}

impl DeepView for AuditScopeFailure {
    type V = FailureView;

    open spec fn deep_view(&self) -> FailureView {
        FailureView {
            conflicts: self.conflicts.deep_view(),
            fallback: self.fallback.deep_view(),
        }
    }
}

/// Nothing was found.
pub open spec fn no_failure() -> FailureView {
    FailureView { conflicts: Seq::empty(), fallback: None }
}

impl Default for AuditScopeFailure {
    fn default() -> (r: Self)
        ensures
            r.deep_view() == no_failure(),
    {
        let conflicts: Vec<RetreadMutuallyUnsatisfiable> = Vec::new();
        assert(conflicts.deep_view() =~= Seq::<ClashView>::empty());
        AuditScopeFailure { conflicts, fallback: None }
    }
}

/// What the check of every environment found: how many were checked, what was found
/// in each scope, in the order of their names, and whether the user stopped it.
#[derive(Debug, Clone)]
pub struct AuditReport {
    pub checked: usize,
    pub scopes: Vec<(String, AuditScopeFailure)>,
    pub interrupted: bool,
}

/// What an `AuditReport` says.
#[verifier::ext_equal]
pub struct ReportView {
    pub checked: usize,
    pub scopes: Seq<(Seq<char>, FailureView)>,
    pub interrupted: bool,
}

impl DeepView for AuditReport {
    type V = ReportView;

    open spec fn deep_view(&self) -> ReportView {
        ReportView {
            checked: self.checked,
            scopes: self.scopes.deep_view(),
            interrupted: self.interrupted,
        }
    }
}

/// Whether the scopes stand in the order of their names, each once.
pub open spec fn scopes_in_order(scopes: Seq<(Seq<char>, FailureView)>) -> bool {
    forall|i: int, j: int| 0 <= i < j < scopes.len() ==> text_before(scopes[i].0, scopes[j].0)
}

impl Default for AuditReport {
    fn default() -> (r: Self)
        ensures
            r.deep_view() == (ReportView {
                checked: 0,
                scopes: Seq::empty(),
                interrupted: false,
            }),
    {
        let scopes: Vec<(String, AuditScopeFailure)> = Vec::new();
        assert(scopes.deep_view() =~= Seq::<(Seq<char>, FailureView)>::empty());
        AuditReport { checked: 0, scopes, interrupted: false }
    }
}

/// The scopes with what was found in one of them, in place of what was there before.
pub open spec fn with_scope(
    scopes: Seq<(Seq<char>, FailureView)>,
    name: Seq<char>,
    failure: FailureView,
) -> Seq<(Seq<char>, FailureView)>
    decreases scopes.len(),
{
    if scopes.len() == 0 {
        seq![(name, failure)]
    } else {
        let last = scopes.last();
        if last.0 == name {
            scopes.drop_last().push((name, failure))
        } else if text_before(last.0, name) {
            scopes.push((name, failure))
        } else {
            with_scope(scopes.drop_last(), name, failure).push(last)
        }
    }
}

/// What was found in a scope.
pub open spec fn failure_in(scopes: Seq<(Seq<char>, FailureView)>, name: Seq<char>) -> FailureView
    decreases scopes.len(),
{
    if scopes.len() == 0 {
        no_failure()
    } else if scopes.last().0 == name {
        scopes.last().1
    } else if text_before(scopes.last().0, name) {
        no_failure()
    } else {
        failure_in(scopes.drop_last(), name)
    }
}

/// The clashes with one more, which comes after those that it does not come before.
pub open spec fn placed(clashes: Seq<ClashView>, c: ClashView) -> Seq<ClashView>
    decreases clashes.len(),
{
    if clashes.len() == 0 || !clash_before(c, clashes.last()) {
        clashes.push(c)
    } else {
        placed(clashes.drop_last(), c).push(clashes.last())
    }
}

/// The clashes in order.
pub open spec fn ordered(clashes: Seq<ClashView>) -> Seq<ClashView>
    decreases clashes.len(),
{
    if clashes.len() == 0 {
        clashes
    } else {
        placed(ordered(clashes.drop_last()), clashes.last())
    }
}

/// The clashes of a scope with one more, unless it is there already.
pub open spec fn joined_by(clashes: Seq<ClashView>, c: ClashView) -> Seq<ClashView> {
    if clashes.contains(c) {
        clashes
    } else {
        ordered(clashes.push(c))
    }
}

/// The scopes with one more clash, under the scope that it names.
pub open spec fn recorded(scopes: Seq<(Seq<char>, FailureView)>, c: ClashView) -> Seq<
    (Seq<char>, FailureView),
> {
    let failure = failure_in(scopes, c.scope);
    with_scope(
        scopes,
        c.scope,
        FailureView { conflicts: joined_by(failure.conflicts, c), ..failure },
    )
}

/// The scopes with more clashes.
pub open spec fn all_recorded(scopes: Seq<(Seq<char>, FailureView)>, clashes: Seq<ClashView>) -> Seq<
    (Seq<char>, FailureView),
>
    decreases clashes.len(),
{
    if clashes.len() == 0 {
        scopes
    } else {
        recorded(all_recorded(scopes, clashes.drop_last()), clashes.last())
    }
}

/// How many clashes the scopes hold.
pub open spec fn clash_count(scopes: Seq<(Seq<char>, FailureView)>) -> nat
    decreases scopes.len(),
{
    if scopes.len() == 0 {
        0
    } else {
        clash_count(scopes.drop_last()) + scopes.last().1.conflicts.len()
    }
}

/// How many scopes hold a clash.
pub open spec fn clashing_scopes(scopes: Seq<(Seq<char>, FailureView)>) -> nat
    decreases scopes.len(),
{
    if scopes.len() == 0 {
        0
    } else {
        clashing_scopes(scopes.drop_last()) + if scopes.last().1.conflicts.len() > 0 {
            1nat
        } else {
            0nat
        }
    }
}

/// The names of the scopes of which nothing could be told, each in quotes.
pub open spec fn untold_scopes(scopes: Seq<(Seq<char>, FailureView)>) -> Seq<Seq<char>>
    decreases scopes.len(),
{
    if scopes.len() == 0 {
        Seq::empty()
    } else {
        let before = untold_scopes(scopes.drop_last());
        if scopes.last().1.fallback is Some {
            before.push("`"@ + scopes.last().0 + "`"@)
        } else {
            before
        }
    }
}

/// Why what a check proposes cannot be recorded.
pub open spec fn blocker(v: ReportView) -> Option<Seq<char>> {
    if v.interrupted {
        Some("the audit was interrupted; no ledger entries were written"@)
    } else if untold_scopes(v.scopes).len() == 0 {
        None
    } else {
        Some(
            "the audit did not produce structured conflicts for "@ + joined(
                untold_scopes(v.scopes),
                ", "@,
            ) + "; no ledger entries were written"@,
        )
    }
}

/// The exit code of a check.
pub open spec fn report_code(v: ReportView) -> i32 {
    if v.interrupted {
        EXIT_INTERRUPTED
    } else if untold_scopes(v.scopes).len() > 0 {
        EXIT_UNPARSEABLE
    } else if v.scopes.len() > 0 {
        EXIT_EXHAUSTED
    } else {
        EXIT_OK
    }
}

fn set_scope(scopes: &mut Vec<(String, AuditScopeFailure)>, name: &str, failure: AuditScopeFailure)
    ensures
        final(scopes).deep_view() == with_scope(
            old(scopes).deep_view(),
            name@,
            failure.deep_view(),
        ),
{
    let ghost all = scopes.deep_view();
    let ghost f = failure.deep_view();
    let n: usize = scopes.len();
    let mut i: usize = n;
    assert(all.take(n as int) =~= all);
    assert(all.skip(n as int) =~= Seq::<(Seq<char>, FailureView)>::empty());
    assert(with_scope(all, name@, f) =~= with_scope(all.take(n as int), name@, f) + all.skip(
        n as int,
    ));
    while i > 0
        invariant
            i <= n,
            n == scopes@.len(),
            all == scopes.deep_view(),
            scopes@ == old(scopes)@,
            f == failure.deep_view(),
            with_scope(all, name@, f) == with_scope(all.take(i as int), name@, f) + all.skip(
                i as int,
            ),
        decreases i,
    {
        let ghost t = all.take(i as int);
        assert(t.last() == all[i - 1]);
        assert(t.drop_last() =~= all.take(i - 1));
        assert(all[i - 1] == scopes@[i - 1].deep_view());
        if text_eq(&scopes[i - 1].0, name) {
            scopes[i - 1].1 = failure;
            assert(scopes.deep_view() =~= all.update(i - 1, (name@, f)));
            assert(all.update(i - 1, (name@, f)) =~= t.drop_last().push((name@, f)) + all.skip(
                i as int,
            ));
            return;
        }
        if comes_before(&scopes[i - 1].0, name) {
            scopes.insert(i, (name.to_owned(), failure));
            assert(scopes.deep_view() =~= all.insert(i as int, (name@, f)));
            assert(all.insert(i as int, (name@, f)) =~= t.push((name@, f)) + all.skip(i as int));
            return;
        }
        assert(with_scope(t, name@, f) + all.skip(i as int) =~= with_scope(
            all.take(i - 1),
            name@,
            f,
        ) + all.skip(i - 1));
        i = i - 1;
    }
    scopes.insert(0, (name.to_owned(), failure));
    assert(scopes.deep_view() =~= all.insert(0, (name@, f)));
    assert(all.insert(0, (name@, f)) =~= with_scope(all.take(0), name@, f) + all.skip(0));
}

fn take_scope(scopes: &mut Vec<(String, AuditScopeFailure)>, name: &str) -> (r: AuditScopeFailure)
    ensures
        r.deep_view() == failure_in(old(scopes).deep_view(), name@),
        forall|f: FailureView|
            with_scope(final(scopes).deep_view(), name@, f) == #[trigger] with_scope(
                old(scopes).deep_view(),
                name@,
                f,
            ),
{
    let ghost all = scopes.deep_view();
    let n: usize = scopes.len();
    let mut i: usize = n;
    assert(all.take(n as int) =~= all);
    while i > 0
        invariant
            i <= n,
            n == scopes@.len(),
            all == scopes.deep_view(),
            *scopes == *old(scopes),
            failure_in(all, name@) == failure_in(all.take(i as int), name@),
            forall|k: int|
                i <= k < n ==> (#[trigger] all[k]).0 != name@ && !text_before(all[k].0, name@),
        decreases i,
    {
        let ghost t = all.take(i as int);
        assert(t.last() == all[i - 1]);
        assert(t.drop_last() =~= all.take(i - 1));
        assert(all[i - 1] == scopes@[i - 1].deep_view());
        if text_eq(&scopes[i - 1].0, name) {
            let mut out = AuditScopeFailure::default();
            let ghost empty = out.deep_view();
            std::mem::swap(&mut out, &mut scopes[i - 1].1);
            assert(scopes.deep_view() =~= all.update(i - 1, (name@, empty)));
            assert forall|f: FailureView| with_scope(scopes.deep_view(), name@, f)
                == #[trigger] with_scope(all, name@, f) by {
                lemma_with_scope_forgets(all, i - 1, name@, empty, f);
            }
            return out;
        }
        if comes_before(&scopes[i - 1].0, name) {
            return AuditScopeFailure::default();
        }
        i = i - 1;
    }
    AuditScopeFailure::default()
}

/// What stood under a name does not matter to what is put there.
proof fn lemma_with_scope_forgets(
    scopes: Seq<(Seq<char>, FailureView)>,
    at: int,
    name: Seq<char>,
    other: FailureView,
    f: FailureView,
)
    requires
        0 <= at < scopes.len(),
        scopes[at].0 == name,
        forall|k: int|
            at < k < scopes.len() ==> (#[trigger] scopes[k]).0 != name && !text_before(
                scopes[k].0,
                name,
            ),
    ensures
        with_scope(scopes.update(at, (name, other)), name, f) == with_scope(scopes, name, f),
    decreases scopes.len(),
{
    let changed = scopes.update(at, (name, other));
    if at == scopes.len() - 1 {
        assert(changed.drop_last() =~= scopes.drop_last());
    } else {
        assert(changed.last() == scopes.last());
        assert(scopes.last() == scopes[scopes.len() - 1]);
        assert(changed.drop_last() =~= scopes.drop_last().update(at, (name, other)));
        lemma_with_scope_forgets(scopes.drop_last(), at, name, other, f);
    }
}

/// A clash is placed before those that it comes before.
proof fn lemma_placed_at(clashes: Seq<ClashView>, c: ClashView, at: int)
    requires
        0 <= at <= clashes.len(),
        forall|k: int| at <= k < clashes.len() ==> clash_before(c, #[trigger] clashes[k]),
        at > 0 ==> !clash_before(c, clashes[at - 1]),
    ensures
        placed(clashes, c) == clashes.insert(at, c),
    decreases clashes.len(),
{
    if at == clashes.len() {
        assert(clashes.insert(at, c) =~= clashes.push(c));
    } else {
        let rest = clashes.drop_last();
        assert(clashes.last() == clashes[clashes.len() - 1]);
        lemma_placed_at(rest, c, at);
        assert(rest.insert(at, c).push(clashes.last()) =~= clashes.insert(at, c));
    }
}

fn place(clashes: &mut Vec<RetreadMutuallyUnsatisfiable>, c: RetreadMutuallyUnsatisfiable)
    ensures
        final(clashes).deep_view() == placed(old(clashes).deep_view(), c.deep_view()),
{
    let ghost all = clashes.deep_view();
    let ghost v = c.deep_view();
    let mut i: usize = clashes.len();
    while i > 0
        invariant_except_break
            i <= all.len(),
            all.len() == clashes@.len(),
            all == clashes.deep_view(),
            *clashes == *old(clashes),
            v == c.deep_view(),
            forall|k: int| i <= k < all.len() ==> clash_before(v, #[trigger] all[k]),
        ensures
            i <= all.len(),
            all == clashes.deep_view(),
            v == c.deep_view(),
            *clashes == *old(clashes),
            forall|k: int| i <= k < all.len() ==> clash_before(v, #[trigger] all[k]),
            i > 0 ==> !clash_before(v, all[i - 1]),
        decreases i,
    {
        assert(all[i - 1] == clashes@[i - 1].deep_view());
        if !precedes(&c, &clashes[i - 1]) {
            break;
        }
        i = i - 1;
    }
    proof {
        lemma_placed_at(all, v, i as int);
    }
    clashes.insert(i, c);
    assert(clashes.deep_view() =~= all.insert(i as int, v));
}

fn put_in_order(clashes: Vec<RetreadMutuallyUnsatisfiable>) -> (r: Vec<
    RetreadMutuallyUnsatisfiable,
>)
    ensures
        r.deep_view() == ordered(clashes.deep_view()),
{
    let ghost all = clashes.deep_view();
    let n: usize = clashes.len();
    let mut rest: Vec<RetreadMutuallyUnsatisfiable> = clashes;
    let mut out: Vec<RetreadMutuallyUnsatisfiable> = Vec::new();
    assert(out.deep_view() =~= Seq::<ClashView>::empty());
    assert(ordered(all.take(0)) =~= Seq::<ClashView>::empty());
    assert(rest.deep_view() =~= all.skip(0));
    let mut i: usize = 0;
    while i < n
        invariant
            i <= n,
            n == all.len(),
            n - i == rest@.len(),
            rest.deep_view() == all.skip(i as int),
            out.deep_view() == ordered(all.take(i as int)),
        decreases n - i,
    {
        assert(all.take(i + 1).drop_last() =~= all.take(i as int));
        assert(all.take(i + 1).last() == all[i as int]);
        let c = rest.remove(0);
        assert(c.deep_view() == all[i as int]);
        assert(rest.deep_view() =~= all.skip(i + 1));
        place(&mut out, c);
        i = i + 1;
    }
    assert(all.take(n as int) =~= all);
    out
}

fn holds_clash(
    clashes: &Vec<RetreadMutuallyUnsatisfiable>,
    c: &RetreadMutuallyUnsatisfiable,
) -> (r: bool)
    ensures
        r == clashes.deep_view().contains(c.deep_view()),
{
    let ghost all = clashes.deep_view();
    let n: usize = clashes.len();
    let mut i: usize = 0;
    while i < n
        invariant
            i <= n,
            n == clashes@.len(),
            all == clashes.deep_view(),
            forall|k: int| 0 <= k < i ==> all[k] != c.deep_view(),
        decreases n - i,
    {
        assert(all[i as int] == clashes@[i as int].deep_view());
        if same_clash(&clashes[i], c) {
            return true;
        }
        i = i + 1;
    }
    false
}

fn record(scopes: &mut Vec<(String, AuditScopeFailure)>, c: RetreadMutuallyUnsatisfiable)
    ensures
        final(scopes).deep_view() == recorded(old(scopes).deep_view(), c.deep_view()),
{
    let name: String = c.scope.clone();
    let failure = take_scope(scopes, &name);
    let AuditScopeFailure { conflicts, fallback } = failure;
    let mut clashes: Vec<RetreadMutuallyUnsatisfiable> = conflicts;
    if !holds_clash(&clashes, &c) {
        push_view(&mut clashes, c);
        clashes = put_in_order(clashes);
    }
    set_scope(scopes, &name, AuditScopeFailure { conflicts: clashes, fallback });
}

/// What is done with what a check proposes.
#[derive(Debug, Clone, Copy, PartialEq, Eq, Structural)]
pub enum AuditApplication {
    NotRequested,
    Applied,
    Refused,
}

impl AuditReport {
    /// Records clashes, each once, under the scopes that they name.
    pub fn record_conflicts(&mut self, conflicts: Vec<RetreadMutuallyUnsatisfiable>)
        ensures
            final(self).deep_view() == (ReportView {
                scopes: all_recorded(old(self).deep_view().scopes, conflicts.deep_view()),
                ..old(self).deep_view()
            }),
    {
        let ghost before = self.scopes.deep_view();
        let ghost all = conflicts.deep_view();
        let n: usize = conflicts.len();
        let mut rest: Vec<RetreadMutuallyUnsatisfiable> = conflicts;
        let mut i: usize = 0;
        assert(rest.deep_view() =~= all.skip(0));
        while i < n
            invariant
                i <= n,
                n == all.len(),
                n - i == rest@.len(),
                rest.deep_view() == all.skip(i as int),
                self.scopes.deep_view() == all_recorded(before, all.take(i as int)),
                self.checked == old(self).checked,
                self.interrupted == old(self).interrupted,
            decreases n - i,
        {
            assert(all.take(i + 1).drop_last() =~= all.take(i as int));
            assert(all.take(i + 1).last() == all[i as int]);
            let c = rest.remove(0);
            assert(c.deep_view() == all[i as int]);
            assert(rest.deep_view() =~= all.skip(i + 1));
            record(&mut self.scopes, c);
            i = i + 1;
        }
        assert(all.take(n as int) =~= all);
    }

    /// How many clashes were found.
    pub fn conflict_count(&self) -> (r: usize)
        requires
            clash_count(self.deep_view().scopes) <= usize::MAX,
        ensures
            r == clash_count(self.deep_view().scopes),
    {
        let ghost all = self.scopes.deep_view();
        let n: usize = self.scopes.len();
        let mut count: usize = 0;
        let mut i: usize = 0;
        while i < n
            invariant
                i <= n,
                n == self.scopes@.len(),
                all == self.scopes.deep_view(),
                clash_count(all) <= usize::MAX,
                count == clash_count(all.take(i as int)),
            decreases n - i,
        {
            assert(all.take(i + 1).drop_last() =~= all.take(i as int));
            assert(all.take(i + 1).last() == all[i as int]);
            assert(all[i as int] == self.scopes@[i as int].deep_view());
            assert(all[i as int].1.conflicts.len() == self.scopes@[i as int].1.conflicts@.len());
            proof {
                lemma_count_grows(all, i + 1);
            }
            count = count + self.scopes[i].1.conflicts.len();
            i = i + 1;
        }
        assert(all.take(n as int) =~= all);
        count
    }

    /// How many scopes have a clash.
    pub fn conflicting_scope_count(&self) -> (r: usize)
        ensures
            r == clashing_scopes(self.deep_view().scopes),
    {
        let ghost all = self.scopes.deep_view();
        let n: usize = self.scopes.len();
        let mut count: usize = 0;
        let mut i: usize = 0;
        while i < n
            invariant
                i <= n,
                n == self.scopes@.len(),
                all == self.scopes.deep_view(),
                count <= i,
                count == clashing_scopes(all.take(i as int)),
            decreases n - i,
        {
            assert(all.take(i + 1).drop_last() =~= all.take(i as int));
            assert(all.take(i + 1).last() == all[i as int]);
            assert(all[i as int] == self.scopes@[i as int].deep_view());
            assert(all[i as int].1.conflicts.len() == self.scopes@[i as int].1.conflicts@.len());
            if self.scopes[i].1.conflicts.len() > 0 {
                count = count + 1;
            }
            i = i + 1;
        }
        assert(all.take(n as int) =~= all);
        count
    }

    fn untold(&self) -> (r: Vec<String>)
        ensures
            r.deep_view() == untold_scopes(self.deep_view().scopes),
    {
        let ghost all = self.scopes.deep_view();
        let n: usize = self.scopes.len();
        let mut out: Vec<String> = Vec::new();
        assert(out.deep_view() =~= Seq::<Seq<char>>::empty());
        let mut i: usize = 0;
        while i < n
            invariant
                i <= n,
                n == self.scopes@.len(),
                all == self.scopes.deep_view(),
                out.deep_view() == untold_scopes(all.take(i as int)),
            decreases n - i,
        {
            assert(all.take(i + 1).drop_last() =~= all.take(i as int));
            assert(all.take(i + 1).last() == all[i as int]);
            assert(all[i as int] == self.scopes@[i as int].deep_view());
            if self.scopes[i].1.fallback.is_some() {
                let mut name: String = "`".to_owned();
                name.append(&self.scopes[i].0);
                name.append("`");
                push_view(&mut out, name);
            }
            i = i + 1;
        }
        assert(all.take(n as int) =~= all);
        out
    }

    /// Why what the check proposes cannot be recorded.
    pub fn apply_blocker(&self) -> (r: Option<String>)
        ensures
            r.deep_view() == blocker(self.deep_view()),
    {
        if self.interrupted {
            return Some("the audit was interrupted; no ledger entries were written".to_owned());
        }
        let names = self.untold();
        assert(names.deep_view().len() == names@.len());
        if names.len() == 0 {
            return None;
        }
        let mut s: String = "the audit did not produce structured conflicts for ".to_owned();
        s.append(&join(&names, ", "));
        s.append("; no ledger entries were written");
        Some(s)
    }

    /// The exit code of the check.
    pub fn exit_code(&self) -> (r: i32)
        ensures
            r == report_code(self.deep_view()),
    {
        if self.interrupted {
            return EXIT_INTERRUPTED;
        }
        let names = self.untold();
        assert(names.deep_view().len() == names@.len());
        assert(self.scopes.deep_view().len() == self.scopes@.len());
        if names.len() > 0 {
            EXIT_UNPARSEABLE
        } else if self.scopes.len() > 0 {
            EXIT_EXHAUSTED
        } else {
            EXIT_OK
        }
    }
}

proof fn lemma_count_grows(scopes: Seq<(Seq<char>, FailureView)>, n: int)
    requires
        0 <= n <= scopes.len(),
    ensures
        clash_count(scopes.take(n)) <= clash_count(scopes),
    decreases scopes.len() - n,
{
    if n < scopes.len() {
        lemma_count_grows(scopes, n + 1);
        assert(scopes.take(n + 1).drop_last() =~= scopes.take(n));
    } else {
        assert(scopes.take(n) =~= scopes);
    }
}

// ---------------------------------------------------------------------------
// How it is told
// ---------------------------------------------------------------------------

/// What is told of requirements.
pub open spec fn requirement_lines(reqs: Seq<(Seq<char>, Seq<char>)>) -> Seq<Seq<char>> {
    reqs.map_values(
        |r: (Seq<char>, Seq<char>)| "      - `"@ + r.0 + "` required by "@ + r.1,
    )
}

/// Lines, each set in.
pub open spec fn set_in(texts: Seq<Seq<char>>, indent: Seq<char>) -> Seq<Seq<char>> {
    texts.map_values(|l: Seq<char>| indent + l)
}

/// What is told of a clash.
pub open spec fn clash_lines(c: ClashView, applied: bool) -> Seq<Seq<char>> {
    seq![
        "  pack `"@ + suggested_manifest(c.suggestion) + "` (bundle `"@ + c.bundle
            + "`, platform "@ + c.platform + ", python "@ + c.python + "):"@,
        "    package `"@ + c.package + "`"@,
        "    conflicting wheels/requirements:"@,
    ] + requirement_lines(c.requirements) + seq![
        if applied {
            "    applied to pack-overrides ledger:"@
        } else {
            "    proposed relaxation (not applied):"@
        },
    ] + set_in(line_pieces(trimmed_end(c.relaxation)), "      "@)
}

/// What is told of clashes.
pub open spec fn all_clash_lines(clashes: Seq<ClashView>, applied: bool) -> Seq<Seq<char>>
    decreases clashes.len(),
{
    if clashes.len() == 0 {
        Seq::empty()
    } else {
        all_clash_lines(clashes.drop_last(), applied) + clash_lines(clashes.last(), applied)
    }
}

/// What is told of a scope.
pub open spec fn scope_lines(name: Seq<char>, f: FailureView, applied: bool) -> Seq<Seq<char>> {
    seq![""@, "scope "@ + name + ":"@] + all_clash_lines(f.conflicts, applied) + match f.fallback {
        Some(text) => seq![
            "  solve failed without a scoped dependency conflict:"@,
            "    "@ + text,
        ],
        None => Seq::empty(),
    }
}

/// What is told of scopes.
pub open spec fn all_scope_lines(scopes: Seq<(Seq<char>, FailureView)>, applied: bool) -> Seq<
    Seq<char>,
>
    decreases scopes.len(),
{
    if scopes.len() == 0 {
        Seq::empty()
    } else {
        all_scope_lines(scopes.drop_last(), applied) + scope_lines(
            scopes.last().0,
            scopes.last().1,
            applied,
        )
    }
}

/// What is told at the end of a check that found something.
pub open spec fn closing_line(interrupted: bool, application: AuditApplication) -> Seq<char> {
    if interrupted {
        "audit interrupted"@
    } else {
        match application {
            AuditApplication::Applied =>
                "retread solve: ledger proposals applied; pixi.toml was not modified"@,
            AuditApplication::Refused =>
                "retread solve: no changes applied because the audit was incomplete"@,
            AuditApplication::NotRequested =>
                "retread solve: no changes applied; rerun with --apply-ledger to persist these proposals"@,
        }
    }
}

/// What is told of a check.
pub open spec fn report_lines(v: ReportView, application: AuditApplication) -> Seq<Seq<char>> {
    if v.scopes.len() == 0 && !v.interrupted {
        seq![
            "retread solve: read-only audit passed for all "@ + decimal(v.checked as nat)
                + " environments"@,
        ]
    } else {
        seq![
            "retread solve: read-only audit checked "@ + decimal(v.checked as nat)
                + " environments; "@ + decimal(clash_count(v.scopes))
                + " dependency conflicts across "@ + decimal(clashing_scopes(v.scopes))
                + " scopes"@,
        ] + all_scope_lines(v.scopes, application == AuditApplication::Applied) + seq![
            ""@,
            closing_line(v.interrupted, application),
        ]
    }
}

/// Lines as a text, with an end of line after each.
pub open spec fn as_text(texts: Seq<Seq<char>>) -> Seq<char>
    decreases texts.len(),
{
    if texts.len() == 0 {
        Seq::empty()
    } else {
        as_text(texts.drop_last()) + texts.last() + "\n"@
    }
}

fn add_requirements(out: &mut Vec<String>, reqs: &Vec<RetreadConflictRequirement>)
    ensures
        final(out).deep_view() == old(out).deep_view() + requirement_lines(reqs.deep_view()),
{
    let ghost before = out.deep_view();
    let ghost all = reqs.deep_view();
    let n: usize = reqs.len();
    let mut i: usize = 0;
    assert(out.deep_view() =~= before + requirement_lines(all.take(0)));
    while i < n
        invariant
            i <= n,
            n == reqs@.len(),
            all == reqs.deep_view(),
            out.deep_view() == before + requirement_lines(all.take(i as int)),
        decreases n - i,
    {
        assert(all[i as int] == reqs@[i as int].deep_view());
        let mut line: String = "      - `".to_owned();
        line.append(&reqs[i].spec);
        line.append("` required by ");
        line.append(&reqs[i].source);
        push_view(out, line);
        assert(out.deep_view() =~= before + requirement_lines(all.take(i + 1)));
        i = i + 1;
    }
    assert(all.take(n as int) =~= all);
}

pub(crate) fn add_set_in(out: &mut Vec<String>, texts: &Vec<String>, indent: &str)
    ensures
        final(out).deep_view() == old(out).deep_view() + set_in(texts.deep_view(), indent@),
{
    let ghost before = out.deep_view();
    let ghost all = texts.deep_view();
    let n: usize = texts.len();
    let mut i: usize = 0;
    assert(out.deep_view() =~= before + set_in(all.take(0), indent@));
    while i < n
        invariant
            i <= n,
            n == texts@.len(),
            all == texts.deep_view(),
            out.deep_view() == before + set_in(all.take(i as int), indent@),
        decreases n - i,
    {
        assert(all[i as int] == texts@[i as int].deep_view());
        push_view(out, indent.to_owned().concat(&texts[i]));
        assert(out.deep_view() =~= before + set_in(all.take(i + 1), indent@));
        i = i + 1;
    }
    assert(all.take(n as int) =~= all);
}

fn add_clash(out: &mut Vec<String>, c: &RetreadMutuallyUnsatisfiable, applied: bool)
    ensures
        final(out).deep_view() == old(out).deep_view() + clash_lines(c.deep_view(), applied),
{
    let ghost before = out.deep_view();
    let mut first: String = "  pack `".to_owned();
    first.append(c.suggestion.pack_manifest());
    first.append("` (bundle `");
    first.append(&c.bundle);
    first.append("`, platform ");
    first.append(&c.platform);
    first.append(", python ");
    first.append(&c.python);
    first.append("):");
    let mut second: String = "    package `".to_owned();
    second.append(&c.package);
    second.append("`");
    push_view(out, first);
    push_view(out, second);
    push_view(out, "    conflicting wheels/requirements:".to_owned());
    add_requirements(out, &c.requirements);
    if applied {
        push_view(out, "    applied to pack-overrides ledger:".to_owned());
    } else {
        push_view(out, "    proposed relaxation (not applied):".to_owned());
    }
    add_set_in(out, &lines(&trim_end(&c.relaxation)), "      ");
    assert(out.deep_view() =~= before + clash_lines(c.deep_view(), applied));
}

fn add_scope(out: &mut Vec<String>, name: &str, failure: &AuditScopeFailure, applied: bool)
    ensures
        final(out).deep_view() == old(out).deep_view() + scope_lines(
            name@,
            failure.deep_view(),
            applied,
        ),
{
    let ghost before = out.deep_view();
    push_view(out, "".to_owned());
    let mut head: String = "scope ".to_owned();
    head.append(name);
    head.append(":");
    let ghost told = head@;
    push_view(out, head);
    let ghost opened = out.deep_view();
    assert(opened =~= before + seq![""@, told]);
    let ghost all = failure.conflicts.deep_view();
    let n: usize = failure.conflicts.len();
    let mut i: usize = 0;
    assert(out.deep_view() =~= opened + all_clash_lines(all.take(0), applied));
    while i < n
        invariant
            i <= n,
            n == failure.conflicts@.len(),
            all == failure.conflicts.deep_view(),
            out.deep_view() == opened + all_clash_lines(all.take(i as int), applied),
        decreases n - i,
    {
        assert(all[i as int] == failure.conflicts@[i as int].deep_view());
        assert(all.take(i + 1).drop_last() =~= all.take(i as int));
        assert(all.take(i + 1).last() == all[i as int]);
        add_clash(out, &failure.conflicts[i], applied);
        assert(out.deep_view() =~= opened + all_clash_lines(all.take(i + 1), applied));
        i = i + 1;
    }
    assert(all.take(n as int) =~= all);
    match &failure.fallback {
        Some(text) => {
            push_view(out, "  solve failed without a scoped dependency conflict:".to_owned());
            push_view(out, "    ".to_owned().concat(text));
        },
        None => {},
    }
    assert(out.deep_view() =~= before + scope_lines(name@, failure.deep_view(), applied));
}

fn text_of(texts: &Vec<String>) -> (r: String)
    ensures
        r@ == as_text(texts.deep_view()),
{
    let ghost all = texts.deep_view();
    let mut out: String = String::new();
    let n: usize = texts.len();
    let mut i: usize = 0;
    assert(out@ =~= as_text(all.take(0)));
    while i < n
        invariant
            i <= n,
            n == texts@.len(),
            all == texts.deep_view(),
            out@ == as_text(all.take(i as int)),
        decreases n - i,
    {
        assert(all[i as int] == texts@[i as int].deep_view());
        assert(all.take(i + 1).drop_last() =~= all.take(i as int));
        assert(all.take(i + 1).last() == all[i as int]);
        out.append(&texts[i]);
        out.append("\n");
        i = i + 1;
    }
    assert(all.take(n as int) =~= all);
    out
}

impl AuditReport {
    /// What is told of the check.
    pub fn render(&self, application: AuditApplication) -> (r: String)
        requires
            clash_count(self.deep_view().scopes) <= usize::MAX,
        ensures
            r@ == as_text(report_lines(self.deep_view(), application)),
    {
        let mut out: Vec<String> = Vec::new();
        assert(out.deep_view() =~= Seq::<Seq<char>>::empty());
        assert(self.scopes.deep_view().len() == self.scopes@.len());
        if self.scopes.len() == 0 && !self.interrupted {
            let mut line: String = "retread solve: read-only audit passed for all ".to_owned();
            line.append(&decimal_text(self.checked as u64));
            line.append(" environments");
            push_view(&mut out, line);
            assert(out.deep_view() =~= report_lines(self.deep_view(), application));
            return text_of(&out);
        }
        let mut head: String = "retread solve: read-only audit checked ".to_owned();
        head.append(&decimal_text(self.checked as u64));
        head.append(" environments; ");
        head.append(&decimal_text(self.conflict_count() as u64));
        head.append(" dependency conflicts across ");
        head.append(&decimal_text(self.conflicting_scope_count() as u64));
        head.append(" scopes");
        push_view(&mut out, head);
        let applied: bool = application == AuditApplication::Applied;
        let ghost opened = out.deep_view();
        let ghost all = self.scopes.deep_view();
        let n: usize = self.scopes.len();
        let mut i: usize = 0;
        assert(out.deep_view() =~= opened + all_scope_lines(all.take(0), applied));
        while i < n
            invariant
                i <= n,
                n == self.scopes@.len(),
                all == self.scopes.deep_view(),
                out.deep_view() == opened + all_scope_lines(all.take(i as int), applied),
            decreases n - i,
        {
            assert(all[i as int] == self.scopes@[i as int].deep_view());
            assert(all.take(i + 1).drop_last() =~= all.take(i as int));
            assert(all.take(i + 1).last() == all[i as int]);
            add_scope(&mut out, &self.scopes[i].0, &self.scopes[i].1, applied);
            assert(out.deep_view() =~= opened + all_scope_lines(all.take(i + 1), applied));
            i = i + 1;
        }
        assert(all.take(n as int) =~= all);
        push_view(&mut out, "".to_owned());
        let closing: &str = if self.interrupted {
            "audit interrupted"
        } else {
            match application {
                AuditApplication::Applied => {
                    "retread solve: ledger proposals applied; pixi.toml was not modified"
                },
                AuditApplication::Refused => {
                    "retread solve: no changes applied because the audit was incomplete"
                },
                AuditApplication::NotRequested => {
                    "retread solve: no changes applied; rerun with --apply-ledger to persist these proposals"
                },
            }
        };
        push_view(&mut out, closing.to_owned());
        assert(out.deep_view() =~= report_lines(self.deep_view(), application));
        text_of(&out)
    }
}

// ---------------------------------------------------------------------------
// The check
// ---------------------------------------------------------------------------

/// What came of checking an environment.
#[derive(Debug)]
pub enum AuditEvent {
    /// It could not be checked at all.
    Unchecked(String),
    /// The user stopped it.
    Interrupted,
    /// The solver ran: whether it succeeded, what it wrote, and the clashes that
    /// it reports.
    Solved { success: bool, raw_stderr: String, conflicts: Vec<RetreadMutuallyUnsatisfiable> },
}

/// What an `AuditEvent` says.
pub enum EventView {
    Unchecked(Seq<char>),
    Interrupted,
    Solved { success: bool, raw_stderr: Seq<char>, conflicts: Seq<ClashView> },
}

impl DeepView for AuditEvent {
    type V = EventView;

    open spec fn deep_view(&self) -> EventView {
        match self {
            AuditEvent::Unchecked(text) => EventView::Unchecked(text@),
            AuditEvent::Interrupted => EventView::Interrupted,
            AuditEvent::Solved { success, raw_stderr, conflicts } => EventView::Solved {
                success: *success,
                raw_stderr: raw_stderr@,
                conflicts: conflicts.deep_view(),
            },
        }
    }
}

/// The scope of one environment.
pub open spec fn environment_scope_name(environment: Seq<char>) -> Seq<char> {
    "in environment '"@ + environment + "'"@
}

/// What is told of a solve that fails without a clash: the end of what it wrote.
pub open spec fn untold_text(raw: Seq<char>) -> Seq<char> {
    let flat = joined(words(without_colours(raw)), " "@);
    if flat.len() == 0 {
        "pixi update --dry-run failed without stderr"@
    } else {
        tail_of(flat, 2000)
    }
}

/// The report with an environment of which nothing could be told.
pub open spec fn with_untold(v: ReportView, environment: Seq<char>, text: Seq<char>) -> ReportView {
    ReportView {
        scopes: with_scope(
            v.scopes,
            environment_scope_name(environment),
            FailureView { conflicts: Seq::empty(), fallback: Some(text) },
        ),
        ..v
    }
}

/// The report with what came of one more environment.
pub open spec fn audited(v: ReportView, environment: Seq<char>, event: EventView) -> ReportView {
    let counted = ReportView { checked: (v.checked + 1) as usize, ..v };
    match event {
        EventView::Unchecked(text) => with_untold(counted, environment, text),
        EventView::Interrupted => ReportView {
            interrupted: true,
            ..with_untold(counted, environment, "pixi audit solve was interrupted"@)
        },
        EventView::Solved { success, raw_stderr, conflicts } => if conflicts.len() > 0 {
            ReportView { scopes: all_recorded(counted.scopes, conflicts), ..counted }
        } else if success {
            counted
        } else {
            with_untold(counted, environment, untold_text(raw_stderr))
        },
    }
}

impl AuditReport {
    fn set_untold(&mut self, environment: &str, text: String)
        ensures
            final(self).deep_view() == with_untold(old(self).deep_view(), environment@, text@),
    {
        let mut name: String = "in environment '".to_owned();
        name.append(environment);
        name.append("'");
        let conflicts: Vec<RetreadMutuallyUnsatisfiable> = Vec::new();
        assert(conflicts.deep_view() =~= Seq::<ClashView>::empty());
        set_scope(
            &mut self.scopes,
            &name,
            AuditScopeFailure { conflicts, fallback: Some(text) },
        );
    }

    /// Records what came of one more environment; whether to go on to the next.
    pub fn take_environment(&mut self, environment: &str, event: AuditEvent) -> (go_on: bool)
        requires
            old(self).checked < usize::MAX,
        ensures
            final(self).deep_view() == audited(
                old(self).deep_view(),
                environment@,
                event.deep_view(),
            ),
            go_on == !(event is Interrupted),
    {
        self.checked = self.checked + 1;
        match event {
            AuditEvent::Unchecked(text) => {
                self.set_untold(environment, text);
                true
            },
            AuditEvent::Interrupted => {
                self.set_untold(environment, "pixi audit solve was interrupted".to_owned());
                self.interrupted = true;
                false
            },
            AuditEvent::Solved { success, raw_stderr, conflicts } => {
                assert(conflicts.deep_view().len() == conflicts@.len());
                if conflicts.len() > 0 {
                    self.record_conflicts(conflicts);
                } else if !success {
                    let parser = RegexConflictParser::new();
                    let flat: String = collapse_diagnostic_whitespace(
                        &parser.strip_ansi(&raw_stderr),
                    );
                    let text: String = if flat.as_str().is_empty() {
                        "pixi update --dry-run failed without stderr".to_owned()
                    } else {
                        tail(&flat, 2000)
                    };
                    self.set_untold(environment, text);
                }
                true
            },
        }
    }

    /// What is done with what the check proposes, why it is refused, and the exit
    /// code of the solve.
    pub fn verdict(&self, apply_ledger: bool) -> (r: (AuditApplication, Option<String>, i32))
        ensures
            ({
                let why = blocker(self.deep_view());
                if !apply_ledger {
                    r.0 == AuditApplication::NotRequested && r.1 is None && r.2 == report_code(
                        self.deep_view(),
                    )
                } else if why is None {
                    r.0 == AuditApplication::Applied && r.1 is None && r.2 == EXIT_OK
                } else {
                    r.0 == AuditApplication::Refused && r.1.deep_view() == Some(
                        "retread solve: --apply-ledger refused: "@ + why->0,
                    ) && r.2 == report_code(self.deep_view())
                }
            }),
    {
        if !apply_ledger {
            return (AuditApplication::NotRequested, None, self.exit_code());
        }
        match self.apply_blocker() {
            Some(reason) => (
                AuditApplication::Refused,
                Some("retread solve: --apply-ledger refused: ".to_owned().concat(&reason)),
                self.exit_code(),
            ),
            None => (AuditApplication::Applied, None, EXIT_OK),
        }
    }
}

// ---------------------------------------------------------------------------
// Laws
// ---------------------------------------------------------------------------

proof fn lemma_scope_is_there(
    scopes: Seq<(Seq<char>, FailureView)>,
    name: Seq<char>,
    f: FailureView,
)
    ensures
        failure_in(with_scope(scopes, name, f), name) == f,
        with_scope(with_scope(scopes, name, f), name, f) == with_scope(scopes, name, f),
    decreases scopes.len(),
{
    let after = with_scope(scopes, name, f);
    if scopes.len() == 0 {
        assert(after.last() == (name, f));
        assert(after.drop_last().push((name, f)) =~= after);
    } else {
        let last = scopes.last();
        if last.0 == name {
            assert(after.drop_last() =~= scopes.drop_last());
        } else if text_before(last.0, name) {
            assert(after.drop_last() =~= scopes);
        } else {
            lemma_scope_is_there(scopes.drop_last(), name, f);
            assert(after.drop_last() =~= with_scope(scopes.drop_last(), name, f));
        }
    }
}

proof fn lemma_placed_members(clashes: Seq<ClashView>, c: ClashView)
    ensures
        placed(clashes, c).to_multiset() == clashes.push(c).to_multiset(),
        placed(clashes, c).len() == clashes.len() + 1,
    decreases clashes.len(),
{
    broadcast use vstd::seq_lib::group_to_multiset_ensures;

    if clashes.len() > 0 && clash_before(c, clashes.last()) {
        let rest = clashes.drop_last();
        lemma_placed_members(rest, c);
        assert(clashes =~= rest.push(clashes.last()));
        assert(placed(clashes, c).to_multiset() =~= clashes.push(c).to_multiset());
    }
}

proof fn lemma_placed_in_order(clashes: Seq<ClashView>, c: ClashView)
    requires
        forall|i: int, j: int|
            0 <= i < j < clashes.len() ==> !clash_before(#[trigger] clashes[j], #[trigger] clashes[i]),
    ensures
        forall|i: int, j: int|
            0 <= i < j < placed(clashes, c).len() ==> !clash_before(
                #[trigger] placed(clashes, c)[j],
                #[trigger] placed(clashes, c)[i],
            ),
        forall|i: int|
            0 <= i < placed(clashes, c).len() ==> #[trigger] placed(clashes, c)[i] == c
                || clashes.contains(placed(clashes, c)[i]),
    decreases clashes.len(),
{
    let after = placed(clashes, c);
    if clashes.len() == 0 || !clash_before(c, clashes.last()) {
        assert(after =~= clashes.push(c));
        assert forall|i: int, j: int| 0 <= i < j < after.len() implies !clash_before(
            #[trigger] after[j],
            #[trigger] after[i],
        ) by {
            if j == clashes.len() {
                if clash_before(c, clashes[i]) {
                    if i < clashes.len() - 1 {
                        lemma_lists_total(clash_key(clashes[i]), clash_key(clashes.last()));
                        if clash_key(clashes[i]) != clash_key(clashes.last()) {
                            assert(!clash_before(clashes[clashes.len() - 1], clashes[i]));
                            lemma_lists_transitive(
                                clash_key(c),
                                clash_key(clashes[i]),
                                clash_key(clashes.last()),
                            );
                        }
                    }
                }
            } else {
                assert(after[i] == clashes[i] && after[j] == clashes[j]);
            }
        }
        assert forall|i: int| 0 <= i < after.len() implies #[trigger] after[i] == c
            || clashes.contains(after[i]) by {
            if i < clashes.len() {
                assert(after[i] == clashes[i]);
            }
        }
    } else {
        let rest = clashes.drop_last();
        let last = clashes.last();
        lemma_placed_in_order(rest, c);
        lemma_placed_members(rest, c);
        let inner = placed(rest, c);
        assert(after =~= inner.push(last));
        assert forall|i: int, j: int| 0 <= i < j < after.len() implies !clash_before(
            #[trigger] after[j],
            #[trigger] after[i],
        ) by {
            assert(after[i] == inner[i]);
            if j == inner.len() {
                if inner[i] == c {
                    lemma_lists_total(clash_key(c), clash_key(last));
                } else {
                    let k = choose|k: int| 0 <= k < rest.len() && rest[k] == inner[i];
                    assert(clashes[k] == inner[i]);
                    assert(clashes[clashes.len() - 1] == last);
                }
            } else {
                assert(after[j] == inner[j]);
            }
        }
        assert forall|i: int| 0 <= i < after.len() implies #[trigger] after[i] == c
            || clashes.contains(after[i]) by {
            if i < inner.len() {
                assert(after[i] == inner[i]);
                if inner[i] != c {
                    let k = choose|k: int| 0 <= k < rest.len() && rest[k] == inner[i];
                    assert(clashes[k] == inner[i]);
                }
            } else {
                assert(clashes[clashes.len() - 1] == last);
            }
        }
    }
}

/// Clashes that are put in order are the same ones, and none stands behind one that
/// it comes before.
pub proof fn law_clashes_stand_in_order(clashes: Seq<ClashView>)
    ensures
        ordered(clashes).to_multiset() == clashes.to_multiset(),
        forall|i: int, j: int|
            0 <= i < j < ordered(clashes).len() ==> !clash_before(
                #[trigger] ordered(clashes)[j],
                #[trigger] ordered(clashes)[i],
            ),
    decreases clashes.len(),
{
    broadcast use vstd::seq_lib::group_to_multiset_ensures;

    if clashes.len() > 0 {
        let rest = clashes.drop_last();
        law_clashes_stand_in_order(rest);
        lemma_placed_in_order(ordered(rest), clashes.last());
        lemma_placed_members(ordered(rest), clashes.last());
        assert(clashes =~= rest.push(clashes.last()));
        assert(ordered(clashes).to_multiset() =~= clashes.to_multiset());
    }
}

/// Recording a clash once more changes nothing.
pub proof fn law_recording_again_changes_nothing(
    scopes: Seq<(Seq<char>, FailureView)>,
    c: ClashView,
)
    ensures
        recorded(recorded(scopes, c), c) == recorded(scopes, c),
{
    broadcast use vstd::seq_lib::group_to_multiset_ensures;

    let before = failure_in(scopes, c.scope);
    let f = FailureView { conflicts: joined_by(before.conflicts, c), ..before };
    lemma_scope_is_there(scopes, c.scope, f);
    if !before.conflicts.contains(c) {
        let more = before.conflicts.push(c);
        law_clashes_stand_in_order(more);
        assert(more.last() == c);
        assert(more.contains(c));
        assert(more.to_multiset().count(c) > 0);
        assert(ordered(more).to_multiset().count(c) > 0);
        assert(f.conflicts.contains(c));
    }
}

/// What was found is recorded: the clash stands in its scope, with all that stood
/// there before.
pub proof fn law_recording_keeps_what_was_found(
    scopes: Seq<(Seq<char>, FailureView)>,
    c: ClashView,
    other: ClashView,
)
    requires
        other == c || failure_in(scopes, c.scope).conflicts.contains(other),
    ensures
        failure_in(recorded(scopes, c), c.scope).conflicts.contains(other),
        failure_in(recorded(scopes, c), c.scope).fallback == failure_in(scopes, c.scope).fallback,
{
    broadcast use vstd::seq_lib::group_to_multiset_ensures;

    let before = failure_in(scopes, c.scope);
    let f = FailureView { conflicts: joined_by(before.conflicts, c), ..before };
    lemma_scope_is_there(scopes, c.scope, f);
    if !before.conflicts.contains(c) {
        let more = before.conflicts.push(c);
        law_clashes_stand_in_order(more);
        assert(more.last() == c);
        if other != c {
            let k = choose|k: int| 0 <= k < before.conflicts.len() && before.conflicts[k] == other;
            assert(more[k] == other);
        }
        assert(more.contains(other));
        assert(more.to_multiset().count(other) > 0);
        assert(ordered(more).to_multiset().count(other) > 0);
    }
}

/// The scopes of a report stay in the order of their names, whatever is recorded.
pub proof fn law_scopes_stay_in_order(
    scopes: Seq<(Seq<char>, FailureView)>,
    name: Seq<char>,
    f: FailureView,
)
    requires
        scopes_in_order(scopes),
    ensures
        scopes_in_order(with_scope(scopes, name, f)),
        forall|i: int|
            0 <= i < with_scope(scopes, name, f).len() ==> (#[trigger] with_scope(
                scopes,
                name,
                f,
            )[i]).0 == name || exists|k: int|
                0 <= k < scopes.len() && scopes[k] == with_scope(scopes, name, f)[i],
    decreases scopes.len(),
{
    let after = with_scope(scopes, name, f);
    if scopes.len() > 0 {
        let last = scopes.last();
        let rest = scopes.drop_last();
        assert(scopes_in_order(rest));
        if last.0 == name {
            assert(after =~= rest.push((name, f)));
            assert forall|i: int| 0 <= i < after.len() implies (#[trigger] after[i]).0 == name
                || exists|k: int| 0 <= k < scopes.len() && scopes[k] == after[i] by {
                if i < rest.len() {
                    assert(scopes[i] == after[i]);
                }
            }
        } else if text_before(last.0, name) {
            assert(after =~= scopes.push((name, f)));
            assert forall|i: int, j: int| 0 <= i < j < after.len() implies text_before(
                after[i].0,
                after[j].0,
            ) by {
                if j == scopes.len() && i < scopes.len() - 1 {
                    lemma_before_transitive(after[i].0, last.0, name);
                }
            }
            assert forall|i: int| 0 <= i < after.len() implies (#[trigger] after[i]).0 == name
                || exists|k: int| 0 <= k < scopes.len() && scopes[k] == after[i] by {
                if i < scopes.len() {
                    assert(scopes[i] == after[i]);
                }
            }
        } else {
            law_scopes_stay_in_order(rest, name, f);
            lemma_before_total(last.0, name);
            let inner = with_scope(rest, name, f);
            assert(after =~= inner.push(last));
            assert forall|i: int, j: int| 0 <= i < j < after.len() implies text_before(
                after[i].0,
                after[j].0,
            ) by {
                assert(after[i] == inner[i]);
                if j == inner.len() {
                    if inner[i].0 != name {
                        let k = choose|k: int| 0 <= k < rest.len() && rest[k] == inner[i];
                        assert(scopes[k] == rest[k]);
                        assert(scopes[scopes.len() - 1] == last);
                    }
                } else {
                    assert(after[j] == inner[j]);
                }
            }
            assert forall|i: int| 0 <= i < after.len() implies (#[trigger] after[i]).0 == name
                || exists|k: int| 0 <= k < scopes.len() && scopes[k] == after[i] by {
                if i < inner.len() {
                    assert(after[i] == inner[i]);
                    if inner[i].0 != name {
                        let k = choose|k: int| 0 <= k < rest.len() && rest[k] == inner[i];
                        assert(scopes[k] == rest[k]);
                    }
                } else {
                    assert(scopes[scopes.len() - 1] == last);
                }
            }
        }
    }
}

/// Whether clashes stand in order, each once.
pub open spec fn clashes_in_order(clashes: Seq<ClashView>) -> bool {
    forall|i: int, j: int|
        0 <= i < j < clashes.len() ==> clash_before(#[trigger] clashes[i], #[trigger] clashes[j])
}

proof fn lemma_other_scope(
    scopes: Seq<(Seq<char>, FailureView)>,
    name: Seq<char>,
    f: FailureView,
    other: Seq<char>,
)
    requires
        other != name,
    ensures
        failure_in(with_scope(scopes, name, f), other) == failure_in(scopes, other),
    decreases scopes.len(),
{
    let after = with_scope(scopes, name, f);
    if scopes.len() == 0 {
        assert(after.drop_last() =~= scopes);
    } else {
        let last = scopes.last();
        if last.0 == name {
            assert(after.drop_last() =~= scopes.drop_last());
        } else if text_before(last.0, name) {
            assert(after.drop_last() =~= scopes);
            if text_before(name, other) {
                lemma_before_transitive(last.0, name, other);
                lemma_before_total(last.0, other);
            }
        } else {
            lemma_other_scope(scopes.drop_last(), name, f, other);
            assert(after.drop_last() =~= with_scope(scopes.drop_last(), name, f));
        }
    }
}

proof fn lemma_scope_as_it_was(scopes: Seq<(Seq<char>, FailureView)>, name: Seq<char>)
    requires
        failure_in(scopes, name).conflicts.len() > 0,
    ensures
        with_scope(scopes, name, failure_in(scopes, name)) == scopes,
    decreases scopes.len(),
{
    if scopes.len() > 0 && scopes.last().0 != name && !text_before(scopes.last().0, name) {
        lemma_scope_as_it_was(scopes.drop_last(), name);
    }
    assert(with_scope(scopes, name, failure_in(scopes, name)) =~= scopes);
}

proof fn lemma_joined(clashes: Seq<ClashView>, c: ClashView)
    ensures
        forall|x: ClashView|
            #![trigger joined_by(clashes, c).contains(x)]
            joined_by(clashes, c).contains(x) <==> clashes.contains(x) || x == c,
        joined_by(clashes, c).len() == clashes.len() + if clashes.contains(c) {
            0int
        } else {
            1int
        },
        clashes_in_order(clashes) ==> clashes_in_order(joined_by(clashes, c)),
{
    broadcast use vstd::seq_lib::group_to_multiset_ensures;

    let after = joined_by(clashes, c);
    if !clashes.contains(c) {
        let more = clashes.push(c);
        law_clashes_stand_in_order(more);
        assert(after.to_multiset().len() == more.to_multiset().len());
        assert forall|x: ClashView| #[trigger] after.contains(x) <==> clashes.contains(x) || x
            == c by {
            assert(after.contains(x) <==> after.to_multiset().count(x) > 0);
            assert(more.contains(x) <==> more.to_multiset().count(x) > 0);
            if clashes.contains(x) {
                let k = choose|k: int| 0 <= k < clashes.len() && clashes[k] == x;
                assert(more[k] == x);
            }
            if x == c {
                assert(more[clashes.len() as int] == c);
            }
            if more.contains(x) && x != c {
                let k = choose|k: int| 0 <= k < more.len() && more[k] == x;
                assert(clashes[k] == x);
            }
        }
        if clashes_in_order(clashes) {
            assert(more.no_duplicates()) by {
                assert forall|i: int, j: int|
                    0 <= i < more.len() && 0 <= j < more.len() && i != j implies more[i]
                    != more[j] by {
                    if i < clashes.len() && j < clashes.len() {
                        lemma_lists_total(clash_key(clashes[i]), clash_key(clashes[j]));
                        lemma_lists_total(clash_key(clashes[j]), clash_key(clashes[i]));
                        if i < j {
                            assert(clash_before(clashes[i], clashes[j]));
                        } else {
                            assert(clash_before(clashes[j], clashes[i]));
                        }
                    } else if i < clashes.len() {
                        assert(clashes.contains(clashes[i]));
                    } else {
                        assert(clashes.contains(clashes[j]));
                    }
                }
            }
            more.lemma_multiset_has_no_duplicates();
            after.lemma_multiset_has_no_duplicates_conv();
            assert forall|i: int, j: int| 0 <= i < j < after.len() implies clash_before(
                #[trigger] after[i],
                #[trigger] after[j],
            ) by {
                assert(!clash_before(ordered(more)[j], ordered(more)[i]));
                lemma_lists_total(clash_key(after[i]), clash_key(after[j]));
                if clash_key(after[i]) == clash_key(after[j]) {
                    lemma_keys_differ(after[i], after[j]);
                }
            }
        }
    }
}

proof fn lemma_recorded(scopes: Seq<(Seq<char>, FailureView)>, c: ClashView, name: Seq<char>)
    ensures
        failure_in(recorded(scopes, c), name) == (if name == c.scope {
            FailureView {
                conflicts: joined_by(failure_in(scopes, name).conflicts, c),
                ..failure_in(scopes, name)
            }
        } else {
            failure_in(scopes, name)
        }),
{
    let before = failure_in(scopes, c.scope);
    let f = FailureView { conflicts: joined_by(before.conflicts, c), ..before };
    if name == c.scope {
        lemma_scope_is_there(scopes, c.scope, f);
    } else {
        lemma_other_scope(scopes, c.scope, f, name);
    }
}

/// Once clashes are recorded, a scope holds those that it held and those of them that
/// name it, and no others; they stand in order, each once, where they did before; and
/// what could not be told of the scope stays as it was.
pub proof fn law_scope_holds_what_was_recorded(
    scopes: Seq<(Seq<char>, FailureView)>,
    found: Seq<ClashView>,
    name: Seq<char>,
)
    ensures
        ({
            let before = failure_in(scopes, name);
            let after = failure_in(all_recorded(scopes, found), name);
            &&& after.fallback == before.fallback
            &&& forall|c: ClashView| #[trigger]
                after.conflicts.contains(c) <==> before.conflicts.contains(c) || found.contains(c)
                    && c.scope == name
            &&& clashes_in_order(before.conflicts) ==> clashes_in_order(after.conflicts)
            &&& (forall|c: ClashView| #[trigger] found.contains(c) ==> c.scope != name) ==> after
                == before
        }),
    decreases found.len(),
{
    if found.len() > 0 {
        let rest = found.drop_last();
        let last = found.last();
        let between = all_recorded(scopes, rest);
        law_scope_holds_what_was_recorded(scopes, rest, name);
        lemma_recorded(between, last, name);
        lemma_joined(failure_in(between, name).conflicts, last);
        assert forall|c: ClashView| #[trigger] found.contains(c) <==> rest.contains(c) || c
            == last by {
            if found.contains(c) && c != last {
                let k = choose|k: int| 0 <= k < found.len() && found[k] == c;
                assert(rest[k] == c);
            }
            if rest.contains(c) {
                let k = choose|k: int| 0 <= k < rest.len() && rest[k] == c;
                assert(found[k] == c);
            }
            if c == last {
                assert(found[found.len() - 1] == c);
            }
        }
        if forall|c: ClashView| #[trigger] found.contains(c) ==> c.scope != name {
            assert forall|c: ClashView| #[trigger] rest.contains(c) implies c.scope != name by {
                assert(found.contains(c));
            }
            assert(found.contains(last));
        }
    }
}

proof fn lemma_scope_found(scopes: Seq<(Seq<char>, FailureView)>, i: int)
    requires
        scopes_in_order(scopes),
        0 <= i < scopes.len(),
    ensures
        failure_in(scopes, scopes[i].0) == scopes[i].1,
    decreases scopes.len(),
{
    if i < scopes.len() - 1 {
        lemma_before_total(scopes[i].0, scopes.last().0);
        lemma_scope_found(scopes.drop_last(), i);
    }
}

proof fn lemma_count_with_scope(
    scopes: Seq<(Seq<char>, FailureView)>,
    name: Seq<char>,
    f: FailureView,
)
    ensures
        clash_count(with_scope(scopes, name, f)) + failure_in(scopes, name).conflicts.len()
            == clash_count(scopes) + f.conflicts.len(),
    decreases scopes.len(),
{
    let after = with_scope(scopes, name, f);
    if scopes.len() == 0 {
        assert(after.drop_last() =~= scopes);
        assert(after.last() == (name, f));
    } else {
        let last = scopes.last();
        if last.0 == name {
            assert(after.drop_last() =~= scopes.drop_last());
        } else if text_before(last.0, name) {
            assert(after.drop_last() =~= scopes);
        } else {
            lemma_count_with_scope(scopes.drop_last(), name, f);
            assert(after.drop_last() =~= with_scope(scopes.drop_last(), name, f));
        }
    }
}

/// A report that was empty holds exactly what was recorded: each scope, in the order of
/// their names, the clashes that name it, in order, each once, and nothing that could
/// not be told. So it counts as many clashes as differ, and only scopes that a clash
/// names stand in it.
pub proof fn law_report_holds_what_was_recorded(found: Seq<ClashView>)
    ensures
        ({
            let scopes = all_recorded(Seq::empty(), found);
            &&& scopes_in_order(scopes)
            &&& clash_count(scopes) == found.to_set().len()
            &&& forall|i: int|
                0 <= i < scopes.len() ==> {
                    let (name, failure) = #[trigger] scopes[i];
                    &&& failure.fallback is None
                    &&& failure.conflicts.len() > 0
                    &&& clashes_in_order(failure.conflicts)
                    &&& forall|c: ClashView| #[trigger]
                        failure.conflicts.contains(c) <==> found.contains(c) && c.scope == name
                }
            &&& forall|c: ClashView| #[trigger]
                found.contains(c) ==> exists|i: int|
                    0 <= i < scopes.len() && (#[trigger] scopes[i]).0 == c.scope
        }),
    decreases found.len(),
{
    let scopes = all_recorded(Seq::empty(), found);
    lemma_report_scopes(found);
    lemma_report_count(found);
    assert forall|i: int| 0 <= i < scopes.len() implies {
        let (name, failure) = #[trigger] scopes[i];
        &&& failure.fallback is None
        &&& failure.conflicts.len() > 0
        &&& clashes_in_order(failure.conflicts)
        &&& forall|c: ClashView| #[trigger]
            failure.conflicts.contains(c) <==> found.contains(c) && c.scope == name
    } by {
        lemma_scope_found(scopes, i);
        law_scope_holds_what_was_recorded(Seq::empty(), found, scopes[i].0);
        let c = choose|c: ClashView| #[trigger] found.contains(c) && c.scope == scopes[i].0;
        assert(scopes[i].1.conflicts.contains(c));
    }
}

proof fn lemma_report_scopes(found: Seq<ClashView>)
    ensures
        ({
            let scopes = all_recorded(Seq::empty(), found);
            &&& scopes_in_order(scopes)
            &&& forall|i: int|
                0 <= i < scopes.len() ==> exists|c: ClashView| #[trigger]
                    found.contains(c) && c.scope == (#[trigger] scopes[i]).0
            &&& forall|c: ClashView| #[trigger]
                found.contains(c) ==> exists|i: int|
                    0 <= i < scopes.len() && (#[trigger] scopes[i]).0 == c.scope
        }),
    decreases found.len(),
{
    if found.len() > 0 {
        let rest = found.drop_last();
        let last = found.last();
        let between = all_recorded(Seq::empty(), rest);
        let scopes = all_recorded(Seq::empty(), found);
        lemma_report_scopes(rest);
        let before = failure_in(between, last.scope);
        let f = FailureView { conflicts: joined_by(before.conflicts, last), ..before };
        law_scopes_stay_in_order(between, last.scope, f);
        assert(found[found.len() - 1] == last);
        assert(found.contains(last));
        assert forall|i: int| 0 <= i < scopes.len() implies exists|c: ClashView| #[trigger]
            found.contains(c) && c.scope == (#[trigger] scopes[i]).0 by {
            if scopes[i].0 != last.scope {
                let k = choose|k: int| 0 <= k < between.len() && between[k] == scopes[i];
                let c = choose|c: ClashView| #[trigger]
                    rest.contains(c) && c.scope == between[k].0;
                let j = choose|j: int| 0 <= j < rest.len() && rest[j] == c;
                assert(found[j] == c);
                assert(found.contains(c));
            }
        }
        assert forall|c: ClashView| #[trigger] found.contains(c) implies exists|i: int|
            0 <= i < scopes.len() && (#[trigger] scopes[i]).0 == c.scope by {
            if c.scope == last.scope {
                lemma_scope_stands(between, last.scope, f, last.scope);
            } else {
                let j = choose|j: int| 0 <= j < found.len() && found[j] == c;
                assert(rest[j] == c);
                assert(rest.contains(c));
                lemma_scope_stands(between, last.scope, f, c.scope);
            }
        }
    }
}

proof fn lemma_scope_stands(
    scopes: Seq<(Seq<char>, FailureView)>,
    name: Seq<char>,
    f: FailureView,
    wanted: Seq<char>,
)
    requires
        wanted == name || exists|k: int| 0 <= k < scopes.len() && (#[trigger] scopes[k]).0 == wanted,
    ensures
        exists|i: int|
            0 <= i < with_scope(scopes, name, f).len() && (#[trigger] with_scope(
                scopes,
                name,
                f,
            )[i]).0 == wanted,
    decreases scopes.len(),
{
    let after = with_scope(scopes, name, f);
    if scopes.len() == 0 {
        assert(after[0].0 == wanted);
    } else {
        let last = scopes.last();
        let rest = scopes.drop_last();
        let end = after.len() - 1;
        if wanted == name && (last.0 == name || text_before(last.0, name)) {
            assert(after[end].0 == wanted);
        } else if wanted != name && (last.0 == name || text_before(last.0, name)) {
            let k = choose|k: int| 0 <= k < scopes.len() && (#[trigger] scopes[k]).0 == wanted;
            assert(after[k].0 == wanted);
        } else if wanted == last.0 {
            assert(after[end].0 == wanted);
        } else {
            if wanted != name {
                let k = choose|k: int| 0 <= k < scopes.len() && (#[trigger] scopes[k]).0 == wanted;
                assert(rest[k].0 == wanted);
            }
            lemma_scope_stands(rest, name, f, wanted);
            let inner = with_scope(rest, name, f);
            let i = choose|i: int| 0 <= i < inner.len() && (#[trigger] inner[i]).0 == wanted;
            assert(after[i] == inner[i]);
        }
    }
}

proof fn lemma_report_count(found: Seq<ClashView>)
    ensures
        clash_count(all_recorded(Seq::empty(), found)) == found.to_set().len(),
    decreases found.len(),
{
    if found.len() > 0 {
        let rest = found.drop_last();
        let last = found.last();
        let between = all_recorded(Seq::empty(), rest);
        lemma_report_count(rest);
        let before = failure_in(between, last.scope);
        let f = FailureView { conflicts: joined_by(before.conflicts, last), ..before };
        lemma_count_with_scope(between, last.scope, f);
        lemma_joined(before.conflicts, last);
        law_scope_holds_what_was_recorded(Seq::empty(), rest, last.scope);
        assert(found =~= rest.push(last));
        assert(found.to_set() =~= rest.to_set().insert(last));
        assert(rest.to_set().contains(last) <==> rest.contains(last));
    } else {
        assert(found.to_set() =~= Set::<ClashView>::empty());
    }
}

/// Recording in two goes is recording all at once; and recording what stands there
/// already changes nothing.
pub proof fn law_recording_adds_up(
    scopes: Seq<(Seq<char>, FailureView)>,
    first: Seq<ClashView>,
    second: Seq<ClashView>,
)
    ensures
        all_recorded(all_recorded(scopes, first), second) == all_recorded(scopes, first + second),
        (forall|c: ClashView| #[trigger] second.contains(c) ==> first.contains(c)) ==> all_recorded(
            all_recorded(scopes, first),
            second,
        ) == all_recorded(scopes, first),
    decreases second.len(),
{
    if second.len() == 0 {
        assert(first + second =~= first);
    } else {
        let rest = second.drop_last();
        let last = second.last();
        assert((first + second).drop_last() =~= first + rest);
        assert((first + second).last() == last);
        law_recording_adds_up(scopes, first, rest);
        if forall|c: ClashView| #[trigger] second.contains(c) ==> first.contains(c) {
            assert forall|c: ClashView| #[trigger] rest.contains(c) implies first.contains(c) by {
                let k = choose|k: int| 0 <= k < rest.len() && rest[k] == c;
                assert(second[k] == c);
                assert(second.contains(c));
            }
            assert(second[second.len() - 1] == last);
            assert(second.contains(last));
            let after = all_recorded(scopes, first);
            law_scope_holds_what_was_recorded(scopes, first, last.scope);
            assert(failure_in(after, last.scope).conflicts.contains(last));
            lemma_scope_as_it_was(after, last.scope);
        }
    }
}

/// A check ends well where it found nothing and was not stopped, and only there; and
/// what it proposes cannot be recorded where it was stopped or something of it could
/// not be told, and only there.
pub proof fn law_exit_code_tells_what_was_found(v: ReportView)
    ensures
        report_code(v) == EXIT_OK <==> v.scopes.len() == 0 && !v.interrupted,
        blocker(v) is Some <==> report_code(v) == EXIT_INTERRUPTED || report_code(v)
            == EXIT_UNPARSEABLE,
{
    if v.scopes.len() == 0 {
        assert(untold_scopes(v.scopes).len() == 0);
    }
}

// ---------------------------------------------------------------------------
// Laws of what is told
// ---------------------------------------------------------------------------

/// Clashes stand by their scopes first, then by their packs, platforms, pythons and
/// packages.
pub proof fn law_clashes_stand_by_scope_first(a: ClashView, b: ClashView)
    ensures
        text_before(a.scope, b.scope) ==> clash_before(a, b),
        a.scope == b.scope && text_before(a.bundle, b.bundle) ==> clash_before(a, b),
        a.scope == b.scope && a.bundle == b.bundle && text_before(a.platform, b.platform)
            ==> clash_before(a, b),
        a.scope == b.scope && a.bundle == b.bundle && a.platform == b.platform && text_before(
            a.python,
            b.python,
        ) ==> clash_before(a, b),
        a.scope == b.scope && a.bundle == b.bundle && a.platform == b.platform && a.python
            == b.python && text_before(a.package, b.package) ==> clash_before(a, b),
{
    lemma_before_total(a.scope, b.scope);
    lemma_before_total(a.bundle, b.bundle);
    lemma_before_total(a.platform, b.platform);
    lemma_before_total(a.python, b.python);
    lemma_before_total(a.package, b.package);
    let x = seq![a.scope, a.bundle, a.platform, a.python, a.package];
    let y = seq![b.scope, b.bundle, b.platform, b.python, b.package];
    assert(clash_key(a)[0] == x && clash_key(b)[0] == y);
    assert(x.drop_first() =~= seq![a.bundle, a.platform, a.python, a.package]);
    assert(y.drop_first() =~= seq![b.bundle, b.platform, b.python, b.package]);
    assert(x.drop_first().drop_first() =~= seq![a.platform, a.python, a.package]);
    assert(y.drop_first().drop_first() =~= seq![b.platform, b.python, b.package]);
    assert(x.drop_first().drop_first().drop_first() =~= seq![a.python, a.package]);
    assert(y.drop_first().drop_first().drop_first() =~= seq![b.python, b.package]);
    assert(seq![a.python, a.package].drop_first() =~= seq![a.package]);
    assert(seq![b.python, b.package].drop_first() =~= seq![b.package]);
    reveal_with_fuel(texts_before, 6);
    assert(x[0] == a.scope && x[1] == a.bundle && x[2] == a.platform && x[3] == a.python && x[4]
        == a.package);
    assert(y[0] == b.scope && y[1] == b.bundle && y[2] == b.platform && y[3] == b.python && y[4]
        == b.package);
}

/// Each environment that is checked counts once. One that solves without a clash leaves
/// the report as it was; of one that could not be checked, was stopped or fails without a
/// clash, the report says so under its own name, and nothing else of the report changes.
pub proof fn law_checked_environment_counts(
    v: ReportView,
    environment: Seq<char>,
    raw: Seq<char>,
    text: Seq<char>,
    other: Seq<char>,
)
    requires
        v.checked < usize::MAX,
        other != "in environment '"@ + environment + "'"@,
    ensures
        ({
            let none = Seq::<ClashView>::empty();
            let well = audited(
                v,
                environment,
                EventView::Solved { success: true, raw_stderr: raw, conflicts: none },
            );
            let ill = audited(
                v,
                environment,
                EventView::Solved { success: false, raw_stderr: raw, conflicts: none },
            );
            let not = audited(v, environment, EventView::Unchecked(text));
            let stopped = audited(v, environment, EventView::Interrupted);
            let name = "in environment '"@ + environment + "'"@;
            &&& well.checked == v.checked + 1 && ill.checked == v.checked + 1 && not.checked
                == v.checked + 1 && stopped.checked == v.checked + 1
            &&& well.scopes == v.scopes && well.interrupted == v.interrupted
            &&& ill.interrupted == v.interrupted && not.interrupted == v.interrupted
            &&& stopped.interrupted
            &&& failure_in(ill.scopes, name).fallback is Some
            &&& failure_in(not.scopes, name).fallback == Some(text)
            &&& failure_in(stopped.scopes, name).fallback == Some(
                "pixi audit solve was interrupted"@,
            )
            &&& failure_in(not.scopes, name).conflicts.len() == 0
            &&& failure_in(ill.scopes, name).conflicts.len() == 0
            &&& failure_in(ill.scopes, other) == failure_in(v.scopes, other)
            &&& failure_in(not.scopes, other) == failure_in(v.scopes, other)
            &&& failure_in(stopped.scopes, other) == failure_in(v.scopes, other)
        }),
{
    let name = environment_scope_name(environment);
    let ill = FailureView { conflicts: Seq::empty(), fallback: Some(untold_text(raw)) };
    let not = FailureView { conflicts: Seq::empty(), fallback: Some(text) };
    let stopped = FailureView {
        conflicts: Seq::empty(),
        fallback: Some("pixi audit solve was interrupted"@),
    };
    lemma_scope_is_there(v.scopes, name, ill);
    lemma_scope_is_there(v.scopes, name, not);
    lemma_scope_is_there(v.scopes, name, stopped);
    lemma_other_scope(v.scopes, name, ill, other);
    lemma_other_scope(v.scopes, name, not, other);
    lemma_other_scope(v.scopes, name, stopped, other);
}

/// An environment whose solve tells of clashes adds these to the report, whether or not it
/// succeeded, and nothing is said of it under its own name.
pub proof fn law_told_clashes_are_recorded(
    v: ReportView,
    environment: Seq<char>,
    success: bool,
    raw: Seq<char>,
    clashes: Seq<ClashView>,
)
    requires
        v.checked < usize::MAX,
        clashes.len() > 0,
    ensures
        ({
            let after = audited(
                v,
                environment,
                EventView::Solved { success, raw_stderr: raw, conflicts: clashes },
            );
            &&& after.checked == v.checked + 1 && after.interrupted == v.interrupted
            &&& failure_in(after.scopes, clashes.last().scope).conflicts.contains(clashes.last())
            &&& after.scopes == all_recorded(v.scopes, clashes)
        }),
{
    law_recording_keeps_what_was_found(
        all_recorded(v.scopes, clashes.drop_last()),
        clashes.last(),
        clashes.last(),
    );
}

/// A solve that fails without a clash is told by the end of what it wrote, without its
/// colours and on one line; where it wrote nothing, that is told.
pub proof fn law_failure_is_told_by_its_end(raw: Seq<char>)
    ensures
        words(without_colours(raw)).len() == 0 ==> untold_text(raw)
            == "pixi update --dry-run failed without stderr"@,
        joined(words(without_colours(raw)), seq![' ']).len() > 0 ==> untold_text(raw) == tail_of(
            joined(words(without_colours(raw)), seq![' ']),
            2000,
        ),
{
    reveal_strlit(" ");
    assert(" "@ =~= seq![' ']);
}

proof fn lemma_untold(scopes: Seq<(Seq<char>, FailureView)>, name: Seq<char>)
    ensures
        untold_scopes(scopes).contains(name) <==> exists|i: int|
            0 <= i < scopes.len() && (#[trigger] scopes[i]).1.fallback is Some && name == "`"@
                + scopes[i].0 + "`"@,
        untold_scopes(scopes).len() == 0 <==> forall|i: int|
            0 <= i < scopes.len() ==> (#[trigger] scopes[i]).1.fallback is None,
    decreases scopes.len(),
{
    if scopes.len() > 0 {
        let short = scopes.drop_last();
        lemma_untold(short, name);
        let last = scopes.len() - 1;
        assert(scopes[last] == scopes.last());
        assert forall|i: int| 0 <= i < short.len() implies #[trigger] scopes[i] == short[i] by {}
        if exists|i: int|
            0 <= i < short.len() && (#[trigger] short[i]).1.fallback is Some && name == "`"@
                + short[i].0 + "`"@ {
            let i = choose|i: int|
                0 <= i < short.len() && (#[trigger] short[i]).1.fallback is Some && name == "`"@
                    + short[i].0 + "`"@;
            assert(scopes[i] == short[i]);
        }
        if exists|i: int|
            0 <= i < scopes.len() && (#[trigger] scopes[i]).1.fallback is Some && name == "`"@
                + scopes[i].0 + "`"@ {
            let i = choose|i: int|
                0 <= i < scopes.len() && (#[trigger] scopes[i]).1.fallback is Some && name == "`"@
                    + scopes[i].0 + "`"@;
            if i < short.len() {
                assert(short[i] == scopes[i]);
            }
        }
        if forall|i: int| 0 <= i < scopes.len() ==> (#[trigger] scopes[i]).1.fallback is None {
            assert forall|i: int| 0 <= i < short.len() implies (#[trigger] short[i]).1.fallback
                is None by {
                assert(scopes[i].1.fallback is None);
            }
        }
        if untold_scopes(scopes).len() == 0 {
            assert forall|i: int| 0 <= i < scopes.len() implies (#[trigger] scopes[i]).1.fallback
                is None by {
                if i < short.len() {
                    assert(short[i].1.fallback is None);
                }
            }
        }
    }
}

/// A check that was stopped ends as one that the user stopped; one that could not tell of
/// a scope as one whose message cannot be read; one that found clashes alone as one for
/// which nothing is left to try.
pub proof fn law_exit_code_is_the_gravest(v: ReportView)
    ensures
        v.interrupted ==> report_code(v) == 130,
        !v.interrupted && (exists|i: int|
            0 <= i < v.scopes.len() && (#[trigger] v.scopes[i]).1.fallback is Some) ==> report_code(
            v,
        ) == 2,
        !v.interrupted && v.scopes.len() > 0 && (forall|i: int|
            0 <= i < v.scopes.len() ==> (#[trigger] v.scopes[i]).1.fallback is None) ==> report_code(
            v,
        ) == 3,
        !v.interrupted && v.scopes.len() == 0 ==> report_code(v) == 0,
{
    lemma_untold(v.scopes, Seq::empty());
}

/// What keeps proposals from being recorded is told: that the check was stopped, or the
/// scopes that it could not tell of, and only those.
pub proof fn law_blocker_names_the_untold(v: ReportView, name: Seq<char>)
    ensures
        v.interrupted ==> blocker(v) == Some(
            "the audit was interrupted; no ledger entries were written"@,
        ),
        !v.interrupted && (forall|i: int|
            0 <= i < v.scopes.len() ==> (#[trigger] v.scopes[i]).1.fallback is None) ==> blocker(v)
            is None,
        !v.interrupted && blocker(v) is Some ==> exists|names: Seq<Seq<char>>|
            {
                &&& blocker(v) == Some(
                    "the audit did not produce structured conflicts for "@ + #[trigger] joined(
                        names,
                        ", "@,
                    ) + "; no ledger entries were written"@,
                )
                &&& names.contains(name) <==> exists|i: int|
                    0 <= i < v.scopes.len() && (#[trigger] v.scopes[i]).1.fallback is Some && name
                        == "`"@ + v.scopes[i].0 + "`"@
            },
{
    lemma_untold(v.scopes, name);
    let names = untold_scopes(v.scopes);
    assert(joined(names, ", "@) == joined(untold_scopes(v.scopes), ", "@));
}

proof fn lemma_clash_is_told(clashes: Seq<ClashView>, applied: bool, k: int, line: Seq<char>)
    requires
        0 <= k < clashes.len(),
        clash_lines(clashes[k], applied).contains(line),
    ensures
        all_clash_lines(clashes, applied).contains(line),
    decreases clashes.len(),
{
    let short = clashes.drop_last();
    let before = all_clash_lines(short, applied);
    let own = clash_lines(clashes.last(), applied);
    if k < short.len() {
        assert(short[k] == clashes[k]);
        lemma_clash_is_told(short, applied, k, line);
        let j = choose|j: int| 0 <= j < before.len() && before[j] == line;
        assert((before + own)[j] == line);
    } else {
        let j = choose|j: int| 0 <= j < own.len() && own[j] == line;
        assert((before + own)[before.len() + j] == line);
    }
}

proof fn lemma_scope_is_told(
    scopes: Seq<(Seq<char>, FailureView)>,
    applied: bool,
    i: int,
    line: Seq<char>,
)
    requires
        0 <= i < scopes.len(),
        scope_lines(scopes[i].0, scopes[i].1, applied).contains(line),
    ensures
        all_scope_lines(scopes, applied).contains(line),
    decreases scopes.len(),
{
    let short = scopes.drop_last();
    let before = all_scope_lines(short, applied);
    let own = scope_lines(scopes.last().0, scopes.last().1, applied);
    if i < short.len() {
        assert(short[i] == scopes[i]);
        lemma_scope_is_told(short, applied, i, line);
        let j = choose|j: int| 0 <= j < before.len() && before[j] == line;
        assert((before + own)[j] == line);
    } else {
        let j = choose|j: int| 0 <= j < own.len() && own[j] == line;
        assert((before + own)[before.len() + j] == line);
    }
}

proof fn lemma_report_tells(v: ReportView, application: AuditApplication, line: Seq<char>)
    requires
        v.scopes.len() > 0 || v.interrupted,
        all_scope_lines(v.scopes, application == AuditApplication::Applied).contains(line),
    ensures
        report_lines(v, application).contains(line),
{
    let body = all_scope_lines(v.scopes, application == AuditApplication::Applied);
    let j = choose|j: int| 0 <= j < body.len() && body[j] == line;
    assert(report_lines(v, application)[j + 1] == line);
}

/// Every clash that was found is told: the pack whose manifest would settle it, the
/// package, each requirement and who makes it, and, line by line, what would settle it or,
/// once that was applied, what did.
pub proof fn law_every_clash_is_told(
    v: ReportView,
    application: AuditApplication,
    i: int,
    k: int,
    r: int,
    l: int,
)
    requires
        0 <= i < v.scopes.len(),
        0 <= k < v.scopes[i].1.conflicts.len(),
        0 <= r < v.scopes[i].1.conflicts[k].requirements.len(),
        0 <= l < line_pieces(trimmed_end(v.scopes[i].1.conflicts[k].relaxation)).len(),
    ensures
        ({
            let c = v.scopes[i].1.conflicts[k];
            let told = report_lines(v, application);
            &&& told.contains("scope "@ + v.scopes[i].0 + ":"@)
            &&& told.contains("    package `"@ + c.package + "`"@)
            &&& told.contains(
                "  pack `"@ + suggested_manifest(c.suggestion) + "` (bundle `"@ + c.bundle
                    + "`, platform "@ + c.platform + ", python "@ + c.python + "):"@,
            )
            &&& told.contains(
                "      - `"@ + c.requirements[r].0 + "` required by "@ + c.requirements[r].1,
            )
            &&& told.contains("      "@ + line_pieces(trimmed_end(c.relaxation))[l])
            &&& application == AuditApplication::Applied ==> told.contains(
                "    applied to pack-overrides ledger:"@,
            )
            &&& application != AuditApplication::Applied ==> told.contains(
                "    proposed relaxation (not applied):"@,
            )
        }),
{
    let applied = application == AuditApplication::Applied;
    let f = v.scopes[i].1;
    let c = f.conflicts[k];
    let own = clash_lines(c, applied);
    let reqs = requirement_lines(c.requirements);
    let head = seq![
        "  pack `"@ + suggested_manifest(c.suggestion) + "` (bundle `"@ + c.bundle
            + "`, platform "@ + c.platform + ", python "@ + c.python + "):"@,
        "    package `"@ + c.package + "`"@,
        "    conflicting wheels/requirements:"@,
    ];
    let mid = if applied {
        "    applied to pack-overrides ledger:"@
    } else {
        "    proposed relaxation (not applied):"@
    };
    let body = set_in(line_pieces(trimmed_end(c.relaxation)), "      "@);
    assert(own == head + reqs + seq![mid] + body);
    assert(own[0] == head[0] && own[1] == head[1]);
    assert(own[3 + r] == reqs[r]);
    let n: int = reqs.len() as int;
    assert(own[3 + n] == mid);
    assert(own[4 + n + l] == body[l]);
    lemma_clash_line(v, application, i, k, own[0]);
    lemma_clash_line(v, application, i, k, own[1]);
    lemma_clash_line(v, application, i, k, own[3 + r]);
    lemma_clash_line(v, application, i, k, mid);
    lemma_clash_line(v, application, i, k, body[l]);
    let scope = scope_lines(v.scopes[i].0, f, applied);
    assert(scope[1] == "scope "@ + v.scopes[i].0 + ":"@);
    lemma_scope_is_told(v.scopes, applied, i, scope[1]);
    lemma_report_tells(v, application, scope[1]);
}

proof fn lemma_clash_line(
    v: ReportView,
    application: AuditApplication,
    i: int,
    k: int,
    line: Seq<char>,
)
    requires
        0 <= i < v.scopes.len(),
        0 <= k < v.scopes[i].1.conflicts.len(),
        clash_lines(
            v.scopes[i].1.conflicts[k],
            application == AuditApplication::Applied,
        ).contains(line),
    ensures
        report_lines(v, application).contains(line),
{
    let applied = application == AuditApplication::Applied;
    let f = v.scopes[i].1;
    lemma_clash_is_told(f.conflicts, applied, k, line);
    let mid = all_clash_lines(f.conflicts, applied);
    let j = choose|j: int| 0 <= j < mid.len() && mid[j] == line;
    let scope = scope_lines(v.scopes[i].0, f, applied);
    assert(scope[2 + j] == line);
    lemma_scope_is_told(v.scopes, applied, i, line);
    lemma_report_tells(v, application, line);
}

/// A scope that could not be told of is named, with what is known of it.
pub proof fn law_untold_scope_is_named(
    v: ReportView,
    application: AuditApplication,
    i: int,
    text: Seq<char>,
)
    requires
        0 <= i < v.scopes.len(),
        v.scopes[i].1.fallback == Some(text),
    ensures
        report_lines(v, application).contains("scope "@ + v.scopes[i].0 + ":"@),
        report_lines(v, application).contains(
            "  solve failed without a scoped dependency conflict:"@,
        ),
        report_lines(v, application).contains("    "@ + text),
{
    let applied = application == AuditApplication::Applied;
    let f = v.scopes[i].1;
    let scope = scope_lines(v.scopes[i].0, f, applied);
    let n: int = all_clash_lines(f.conflicts, applied).len() as int + 2;
    assert(scope[1] == "scope "@ + v.scopes[i].0 + ":"@);
    assert(scope[n] == "  solve failed without a scoped dependency conflict:"@);
    assert(scope[n + 1] == "    "@ + text);
    lemma_scope_is_told(v.scopes, applied, i, scope[1]);
    lemma_scope_is_told(v.scopes, applied, i, scope[n]);
    lemma_scope_is_told(v.scopes, applied, i, scope[n + 1]);
    lemma_report_tells(v, application, scope[1]);
    lemma_report_tells(v, application, scope[n]);
    lemma_report_tells(v, application, scope[n + 1]);
}

/// A check ends with whether anything was recorded; one that found nothing says only
/// that, and how many environments it checked.
pub proof fn law_report_ends_with_what_was_done(v: ReportView, application: AuditApplication)
    ensures
        v.scopes.len() == 0 && !v.interrupted ==> report_lines(v, application) == seq![
            "retread solve: read-only audit passed for all "@ + decimal(v.checked as nat)
                + " environments"@,
        ],
        v.interrupted ==> report_lines(v, application).last() == "audit interrupted"@,
        v.scopes.len() > 0 && !v.interrupted && application == AuditApplication::Applied
            ==> report_lines(v, application).last()
            == "retread solve: ledger proposals applied; pixi.toml was not modified"@,
        v.scopes.len() > 0 && !v.interrupted && application == AuditApplication::Refused
            ==> report_lines(v, application).last()
            == "retread solve: no changes applied because the audit was incomplete"@,
        v.scopes.len() > 0 && !v.interrupted && application == AuditApplication::NotRequested
            ==> report_lines(v, application).last()
            == "retread solve: no changes applied; rerun with --apply-ledger to persist these proposals"@,
{
}

/// As a text, lines stand one after the other, each with an end of line behind it.
pub proof fn law_lines_end_each(texts: Seq<Seq<char>>, more: Seq<Seq<char>>, line: Seq<char>)
    ensures
        as_text(texts + more) == as_text(texts) + as_text(more),
        as_text(seq![line]) == line.push('\n'),
    decreases more.len(),
{
    reveal_strlit("\n");
    let one = seq![line];
    assert(one.drop_last() =~= Seq::<Seq<char>>::empty());
    assert(as_text(one.drop_last()) =~= Seq::<char>::empty());
    assert(as_text(one) =~= line.push('\n'));
    if more.len() > 0 {
        assert((texts + more).drop_last() =~= texts + more.drop_last());
        law_lines_end_each(texts, more.drop_last(), line);
        assert(as_text(texts + more) =~= as_text(texts) + as_text(more));
    } else {
        assert(texts + more =~= texts);
        assert(as_text(texts) + as_text(more) =~= as_text(texts));
    }
}

} // verus!
