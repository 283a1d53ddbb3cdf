//! The last resort: a package stays a wheel in every pack of the environment that
//! fails.
use crate::patterns::{find, group_text};
use crate::solve::ledger::{strategy_name, AttemptView, LedgerAttempt, Strategy};
use crate::solve::manifest::ManifestEditor;
use crate::solve::ownership::{
    environment_scope, family_pinned, pinned_in, pinned_in_any, users_entry, SceneView,
};
use crate::solve::parse::{found, reads, silent};
use crate::solve::repair::{
    is_abi_anchor, is_anchor, PackOverrideKind, PackOverrideWrite, RepairPlanner, WriteView,
};
use crate::solve::workspace::{
    conda_name_family, find_key, is_first_with, law_first_pair_counts, lemma_lookup_found, lookup,
    name_family, pack_dir, path_joined, EnvironmentDef, EnvironmentView, Facts, WorkspaceManifest,
    WorkspaceView,
};
use crate::text::{clone_texts, in_order, insert_in_order, push_view, text_before};
use vstd::prelude::*;

verus! {

broadcast use vstd::seq_lib::group_seq_properties;

/// How a message names the environment that fails.
pub const FAILING_ENVIRONMENT: &'static str = "environment '([^']+)'";

/// The environment that a message says fails.
pub open spec fn failing_environment(stderr: Seq<char>) -> Option<Seq<char>> {
    match found(FAILING_ENVIRONMENT@, stderr) {
        Some(m) => Some(group_text(m, 1)),
        None => None,
    }
}

/// The environment that a message says fails.
pub fn environment_of(stderr: &str) -> (r: Option<String>)
    ensures
        r.deep_view() == failing_environment(stderr@),
{
    match find(FAILING_ENVIRONMENT, stderr) {
        Some(Some(m)) => Some(m.group(1)),
        _ => None,
    }
}

/// The keys of a list of pairs.
pub open spec fn keys_of(pairs: Seq<(Seq<char>, Seq<char>)>) -> Set<Seq<char>> {
    pairs.map_values(|p: (Seq<char>, Seq<char>)| p.0).to_set()
}

/// The packs that the features of these names depend on.
pub open spec fn packs_of_features(ws: WorkspaceView, names: Seq<Seq<char>>) -> Set<Seq<char>>
    decreases names.len(),
{
    if names.len() == 0 {
        Set::empty()
    } else {
        let before = packs_of_features(ws, names.drop_last());
        match lookup(ws.features, names.last()) {
            Some(deps) => before.union(keys_of(deps)),
            None => before,
        }
    }
}

/// The packs that these features depend on.
pub open spec fn packs_of_all(
    features: Seq<(Seq<char>, Seq<(Seq<char>, Seq<char>)>)>,
) -> Set<Seq<char>>
    decreases features.len(),
{
    if features.len() == 0 {
        Set::empty()
    } else {
        packs_of_all(features.drop_last()).union(keys_of(features.last().1))
    }
}

/// The packs of an environment, or of the whole workspace where the environment
/// is not known.
pub open spec fn packs_in_scope(ws: WorkspaceView, env: Option<EnvironmentView>) -> Set<Seq<char>> {
    match env {
        Some(e) => if e.no_default_feature {
            packs_of_features(ws, e.features)
        } else {
            packs_of_features(ws, e.features).union(keys_of(ws.path_dependencies))
        },
        None => packs_of_all(ws.features).union(keys_of(ws.path_dependencies)),
    }
}

/// The environment of this name.
pub open spec fn environment_named(ws: WorkspaceView, name: Option<Seq<char>>) -> Option<
    EnvironmentView,
> {
    match name {
        Some(n) => lookup(ws.environments, n),
        None => None,
    }
}

/// Whether a pin of the user's own, under any name of the package's family, bears
/// on the environment, or stands anywhere where the environment is not known.
pub open spec fn is_vetoed(sc: SceneView, env: Option<EnvironmentView>, package: Seq<char>) -> bool {
    match env {
        Some(e) => {
            let family = name_family(package, sc.names);
            exists|i: int|
                0 <= i < family.len() && pinned_in_any(
                    sc.nodes,
                    environment_scope(e),
                    #[trigger] family[i],
                )
        },
        None => family_pinned(sc, package),
    }
}

/// What is recorded for one pack.
pub open spec fn kept_wheel(
    ws: WorkspaceView,
    dir: Seq<char>,
    package: Seq<char>,
    bundle: Seq<char>,
) -> WriteView {
    WriteView {
        bundle,
        pack_pixi: path_joined(pack_dir(ws, dir, bundle)->0, "pixi.toml"@),
        package,
        spec: ""@,
        kind: PackOverrideKind::Unroute,
    }
}

/// The names of the packs that something is recorded for.
pub open spec fn bundles_of(writes: Seq<WriteView>) -> Seq<Seq<char>> {
    writes.map_values(|w: WriteView| w.bundle)
}

/// Whether `writes` is what is recorded to keep a package a wheel: for each pack in
/// scope whose directory is known one, in the order of their names.
pub open spec fn keeps_wheel(
    sc: SceneView,
    ws: WorkspaceView,
    env: Option<EnvironmentView>,
    package: Seq<char>,
    writes: Seq<WriteView>,
) -> bool {
    &&& in_order(bundles_of(writes))
    &&& forall|b: Seq<char>| #[trigger]
        bundles_of(writes).contains(b) <==> packs_in_scope(ws, env).contains(b) && pack_dir(
            ws,
            sc.dir,
            b,
        ) is Some
    &&& forall|i: int|
        0 <= i < writes.len() ==> #[trigger] writes[i] == kept_wheel(
            ws,
            sc.dir,
            package,
            writes[i].bundle,
        )
}

/// Whether `writes` is what is left to do for a package when all else was tried:
/// nothing for an anchor, for a package that the user pins, or without a
/// workspace.
pub open spec fn is_last_resort(
    sc: SceneView,
    env_name: Option<Seq<char>>,
    package: Seq<char>,
    writes: Seq<WriteView>,
) -> bool {
    match sc.facts.workspace {
        None => writes.len() == 0,
        Some(ws) => {
            let env = environment_named(ws, env_name);
            if is_anchor(package) || is_vetoed(sc, env, package) {
                writes.len() == 0
            } else {
                keeps_wheel(sc, ws, env, package, writes)
            }
        },
    }
}

fn add_keys(names: &mut Vec<String>, pairs: &Vec<(String, String)>)
    requires
        in_order(old(names).deep_view()),
    ensures
        in_order(final(names).deep_view()),
        final(names).deep_view().to_set() == old(names).deep_view().to_set().union(
            keys_of(pairs.deep_view()),
        ),
{
    let ghost before = names.deep_view().to_set();
    let ghost all = pairs.deep_view();
    let n: usize = pairs.len();
    let mut i: usize = 0;
    assert(names.deep_view().to_set() =~= before.union(keys_of(all.take(0))));
    while i < n
        invariant
            i <= n,
            n == pairs@.len(),
            all == pairs.deep_view(),
            in_order(names.deep_view()),
            names.deep_view().to_set() == before.union(keys_of(all.take(i as int))),
        decreases n - i,
    {
        assert(all[i as int] == pairs@[i as int].deep_view());
        let ghost f = |p: (Seq<char>, Seq<char>)| p.0;
        assert(all.take(i + 1).map_values(f) =~= all.take(i as int).map_values(f).push(
            all[i as int].0,
        ));
        let ghost short = all.take(i as int).map_values(f);
        assert(short.push(all[i as int].0).to_set() =~= short.to_set().insert(all[i as int].0)) by {
            assert forall|x: Seq<char>|
                short.push(all[i as int].0).contains(x) <==> short.contains(x) || x
                    == all[i as int].0 by {
                if short.contains(x) {
                    let k = short.index_of(x);
                    assert(short.push(all[i as int].0)[k] == x);
                }
                if x == all[i as int].0 {
                    assert(short.push(all[i as int].0)[short.len() as int] == x);
                }
            }
        }
        insert_in_order(names, pairs[i].0.clone());
        assert(names.deep_view().to_set() =~= before.union(keys_of(all.take(i + 1))));
        i = i + 1;
    }
    assert(all.take(n as int) =~= all);
}

fn scope_packs(ws: &WorkspaceManifest, env: Option<&EnvironmentDef>) -> (r: Vec<String>)
    ensures
        in_order(r.deep_view()),
        r.deep_view().to_set() == packs_in_scope(ws.deep_view(), env.deep_view()),
{
    let ghost w = ws.deep_view();
    let mut names: Vec<String> = Vec::new();
    assert(names.deep_view().to_set() =~= Set::<Seq<char>>::empty());
    match env {
        Some(e) => {
            let ghost all = e.features.deep_view();
            let n: usize = e.features.len();
            let mut i: usize = 0;
            assert(packs_of_features(w, all.take(0)) =~= Set::<Seq<char>>::empty());
            while i < n
                invariant
                    i <= n,
                    n == e.features@.len(),
                    w == ws.deep_view(),
                    all == e.features.deep_view(),
                    in_order(names.deep_view()),
                    names.deep_view().to_set() == packs_of_features(w, all.take(i as int)),
                decreases n - i,
            {
                assert(all[i as int] == e.features@[i as int].deep_view());
                assert(all.take(i + 1).drop_last() =~= all.take(i as int));
                match find_key(&ws.features, &e.features[i]) {
                    Some(k) => {
                        add_keys(&mut names, &ws.features[k].1.path_dependencies);
                    },
                    None => {},
                }
                i = i + 1;
            }
            assert(all.take(n as int) =~= all);
            if !e.no_default_feature {
                add_keys(&mut names, &ws.path_dependencies);
            }
        },
        None => {
            let ghost all = ws.features.deep_view();
            let n: usize = ws.features.len();
            let mut i: usize = 0;
            assert(packs_of_all(all.take(0)) =~= Set::<Seq<char>>::empty());
            while i < n
                invariant
                    i <= n,
                    n == ws.features@.len(),
                    w == ws.deep_view(),
                    all == ws.features.deep_view(),
                    in_order(names.deep_view()),
                    names.deep_view().to_set() == packs_of_all(all.take(i as int)),
                decreases n - i,
            {
                assert(all[i as int] == ws.features@[i as int].deep_view());
                assert(all.take(i + 1).drop_last() =~= all.take(i as int));
                add_keys(&mut names, &ws.features[i].1.path_dependencies);
                i = i + 1;
            }
            assert(all.take(n as int) =~= all);
            add_keys(&mut names, &ws.path_dependencies);
        },
    }
    names
}

fn no_writes() -> (r: Vec<PackOverrideWrite>)
    ensures
        r.deep_view().len() == 0,
{
    let none: Vec<PackOverrideWrite> = Vec::new();
    assert(none.deep_view() =~= Seq::<WriteView>::empty());
    none
}

impl RepairPlanner {
    fn vetoed(
        &self,
        editor: &ManifestEditor,
        facts: &Facts,
        env: Option<&EnvironmentDef>,
        package: &str,
    ) -> (r: bool)
        ensures
            r == is_vetoed(self.scene(*editor, *facts), env.deep_view(), package@),
    {
        let e: &EnvironmentDef = match env {
            Some(e) => e,
            None => {
                return self.has_workspace_pin_family(editor, facts, package);
            },
        };
        let ghost sc = self.scene(*editor, *facts);
        let mut features = clone_texts(&e.features);
        if !e.no_default_feature {
            push_view(&mut features, "default".to_owned());
        }
        let family = conda_name_family(package, &self.conda_name_map);
        let ghost all = family.deep_view();
        let n: usize = family.len();
        let mut i: usize = 0;
        while i < n
            invariant
                i <= n,
                n == family@.len(),
                all == family.deep_view(),
                sc == self.scene(*editor, *facts),
                all == name_family(package@, sc.names),
                features.deep_view() == environment_scope(e.deep_view()),
                env.deep_view() == Some(e.deep_view()),
                forall|k: int|
                    0 <= k < i ==> !pinned_in_any(
                        sc.nodes,
                        features.deep_view(),
                        #[trigger] all[k],
                    ),
            decreases n - i,
        {
            assert(all[i as int] == family@[i as int].deep_view());
            if self.pinned_among(editor, &features, &family[i]) {
                return true;
            }
            i = i + 1;
        }
        false
    }

    /// What is left to do for a package when all else was tried: it stays a wheel
    /// in every pack of the failing environment.
    pub fn unroute_in_environment(
        &self,
        editor: &ManifestEditor,
        facts: &Facts,
        env_name: Option<&str>,
        package: &str,
    ) -> (r: Vec<PackOverrideWrite>)
        ensures
            is_last_resort(
                self.scene(*editor, *facts),
                env_name.deep_view(),
                package@,
                r.deep_view(),
            ),
    {
        let ghost sc = self.scene(*editor, *facts);
        let ws: &WorkspaceManifest = match &facts.workspace {
            Some(ws) => ws,
            None => {
                return no_writes();
            },
        };
        let ghost w = ws.deep_view();
        let env: Option<&EnvironmentDef> = match env_name {
            Some(name) => match find_key(&ws.environments, name) {
                Some(k) => Some(&ws.environments[k].1),
                None => None,
            },
            None => None,
        };
        assert(env.deep_view() == environment_named(w, env_name.deep_view()));
        if is_abi_anchor(package) || self.vetoed(editor, facts, env, package) {
            return no_writes();
        }
        let names = scope_packs(ws, env);
        let ghost all = names.deep_view();
        let ghost dir = editor.dir();
        let mut out: Vec<PackOverrideWrite> = Vec::new();
        let n: usize = names.len();
        let mut i: usize = 0;
        let ghost kept = Seq::<Seq<char>>::empty();
        assert(bundles_of(out.deep_view()) =~= kept);
        while i < n
            invariant
                i <= n,
                n == names@.len(),
                w == ws.deep_view(),
                all == names.deep_view(),
                dir == editor.dir(),
                in_order(all),
                in_order(bundles_of(out.deep_view())),
                forall|b: Seq<char>| #[trigger]
                    bundles_of(out.deep_view()).contains(b) <==> all.take(i as int).contains(b)
                        && pack_dir(w, dir, b) is Some,
                forall|k: int|
                    0 <= k < out.deep_view().len() ==> #[trigger] out.deep_view()[k] == kept_wheel(
                        w,
                        dir,
                        package@,
                        out.deep_view()[k].bundle,
                    ),
            decreases n - i,
        {
            let ghost before = out.deep_view();
            let ghost name = all[i as int];
            assert(name == names@[i as int].deep_view());
            assert(all.take(i + 1) =~= all.take(i as int).push(name));
            assert(all.take(i as int).push(name).last() == name);
            assert forall|b: Seq<char>| #[trigger]
                all.take(i + 1).contains(b) <==> all.take(i as int).contains(b) || b == name by {
                if all.take(i as int).contains(b) {
                    let k = all.take(i as int).index_of(b);
                    assert(all.take(i + 1)[k] == b);
                }
                if b == name {
                    assert(all.take(i + 1)[i as int] == b);
                }
            }
            match crate::solve::workspace::resolve_pack_dir(ws, editor.project_dir(), &names[i]) {
                Some(d) => {
                    let write = PackOverrideWrite {
                        bundle: names[i].clone(),
                        pack_pixi: crate::solve::workspace::join_path(&d, "pixi.toml"),
                        package: package.to_owned(),
                        spec: "".to_owned(),
                        kind: PackOverrideKind::Unroute,
                    };
                    let ghost view = write.deep_view();
                    push_view(&mut out, write);
                    assert(bundles_of(before.push(view)) =~= bundles_of(before).push(name));
                    assert forall|b: Seq<char>| #[trigger]
                        bundles_of(out.deep_view()).contains(b) <==> bundles_of(before).contains(b)
                            || b == name by {
                        if bundles_of(before).contains(b) {
                            let k = bundles_of(before).index_of(b);
                            assert(bundles_of(out.deep_view())[k] == b);
                        }
                        if b == name {
                            assert(bundles_of(out.deep_view())[before.len() as int] == b);
                        }
                    }
                    assert forall|k: int| 0 <= k < bundles_of(before).len() implies
                        crate::text::text_before(#[trigger] bundles_of(before)[k], name) by {
                        assert(bundles_of(before).contains(bundles_of(before)[k]));
                        let j = all.take(i as int).index_of(bundles_of(before)[k]);
                        assert(all[j] == bundles_of(before)[k]);
                    }
                },
                None => {},
            }
            i = i + 1;
        }
        assert(all.take(n as int) =~= all);
        assert forall|b: Seq<char>| #[trigger]
            bundles_of(out.deep_view()).contains(b) <==> packs_in_scope(
                w,
                environment_named(w, env_name.deep_view()),
            ).contains(b) && pack_dir(w, sc.dir, b) is Some by {
            assert(all.to_set().contains(b) <==> all.contains(b));
        }
        out
    }

    /// What is left to do for a package when all else was tried: it stays a wheel
    /// in every pack of the environment that the message names.
    pub fn terminal_unroute_writes(
        &self,
        editor: &ManifestEditor,
        facts: &Facts,
        stderr: &str,
        package: &str,
    ) -> (r: Vec<PackOverrideWrite>)
        ensures
            is_last_resort(
                self.scene(*editor, *facts),
                failing_environment(stderr@),
                package@,
                r.deep_view(),
            ),
    {
        let env_name = environment_of(stderr);
        let name: Option<&str> = match &env_name {
            Some(e) => Some(e.as_str()),
            None => None,
        };
        self.unroute_in_environment(editor, facts, name, package)
    }

    /// The record of one such pack.
    pub fn terminal_unroute_attempt(iter: u32, package: &str, bundle: &str, now: &str) -> (r:
        LedgerAttempt)
        ensures
            r.deep_view() == (AttemptView {
                iter,
                package: package@,
                version: None,
                tier: "terminal_unroute"@,
                strategy: strategy_name(Strategy::PypiOverride),
                conflict: "Exhausted"@,
                source: "retread lock terminal un-route (pack `"@ + bundle@ + "`)"@,
                ts: now@,
                old_spec: None,
                new_spec: Some("keep-pypi"@),
                ceiling_policy: None,
                before: None,
                failed: false,
            }),
    {
        let mut source: String = "retread lock terminal un-route (pack `".to_owned();
        source.append(bundle);
        source.append("`)");
        LedgerAttempt {
            iter,
            package: package.to_owned(),
            version: None,
            tier: "terminal_unroute".to_owned(),
            strategy: Strategy::PypiOverride.as_str().to_owned(),
            conflict: "Exhausted".to_owned(),
            source,
            ts: now.to_owned(),
            old_spec: None,
            new_spec: Some("keep-pypi".to_owned()),
            ceiling_policy: None,
            before: None,
            failed: false,
        }
    }
}

// ---------------------------------------------------------------------------
// Laws
// ---------------------------------------------------------------------------

/// The environment that fails is the one that the message has between quotes behind
/// the word; where it has none, none is known.
pub proof fn law_failing_environment_is_the_quoted_one(stderr: Seq<char>, name: Seq<char>)
    ensures
        reads("environment '([^']+)'"@, stderr, seq![name]) ==> failing_environment(stderr)
            == Some(name),
        silent("environment '([^']+)'"@, stderr) ==> failing_environment(stderr) is None,
{
    if reads("environment '([^']+)'"@, stderr, seq![name]) {
        let m = found("environment '([^']+)'"@, stderr)->0;
        let i: int = 0;
        assert(m.groups[i + 1] == Some(seq![name][i]));
    }
}

/// Whether a list names a pack.
pub open spec fn names_pack(pairs: Seq<(Seq<char>, Seq<char>)>, pack: Seq<char>) -> bool {
    exists|i: int| 0 <= i < pairs.len() && (#[trigger] pairs[i]).0 == pack
}

proof fn lemma_keys(pairs: Seq<(Seq<char>, Seq<char>)>, pack: Seq<char>)
    ensures
        keys_of(pairs).contains(pack) <==> names_pack(pairs, pack),
{
    let keys = pairs.map_values(|p: (Seq<char>, Seq<char>)| p.0);
    if keys.contains(pack) {
        let i = choose|i: int| 0 <= i < keys.len() && keys[i] == pack;
        assert(pairs[i].0 == pack);
    }
    if names_pack(pairs, pack) {
        let i = choose|i: int| 0 <= i < pairs.len() && (#[trigger] pairs[i]).0 == pack;
        assert(keys[i] == pack);
    }
}

/// Whether the feature of a name, the first where there are two, names a pack.
pub open spec fn feature_names_pack(
    ws: WorkspaceView,
    feature: Seq<char>,
    pack: Seq<char>,
) -> bool {
    exists|i: int| #[trigger]
        is_first_with(ws.features, feature, i) && names_pack(ws.features[i].1, pack)
}

proof fn lemma_feature(ws: WorkspaceView, feature: Seq<char>, pack: Seq<char>)
    ensures
        feature_names_pack(ws, feature, pack) <==> (lookup(ws.features, feature) matches Some(deps)
            && keys_of(deps).contains(pack)),
{
    lemma_lookup_found(ws.features, feature);
    if feature_names_pack(ws, feature, pack) {
        let i = choose|i: int| #[trigger]
            is_first_with(ws.features, feature, i) && names_pack(ws.features[i].1, pack);
        law_first_pair_counts(ws.features, feature, i);
        lemma_keys(ws.features[i].1, pack);
    }
    if lookup(ws.features, feature) is Some {
        let i = lemma_first_of(ws.features, feature);
        law_first_pair_counts(ws.features, feature, i);
        lemma_keys(ws.features[i].1, pack);
    }
}

proof fn lemma_first_of(
    features: Seq<(Seq<char>, Seq<(Seq<char>, Seq<char>)>)>,
    key: Seq<char>,
) -> (i: int)
    requires
        lookup(features, key) is Some,
    ensures
        is_first_with(features, key, i),
    decreases features.len(),
{
    if features[0].0 == key {
        0
    } else {
        let rest = features.drop_first();
        let k = lemma_first_of(rest, key);
        assert(features[k + 1] == rest[k]);
        assert forall|j: int| 0 <= j < k + 1 implies (#[trigger] features[j]).0 != key by {
            if j > 0 {
                assert(rest[j - 1] == features[j]);
            }
        }
        k + 1
    }
}

proof fn lemma_packs_of_features(ws: WorkspaceView, names: Seq<Seq<char>>, pack: Seq<char>)
    ensures
        packs_of_features(ws, names).contains(pack) <==> exists|k: int|
            0 <= k < names.len() && feature_names_pack(ws, #[trigger] names[k], pack),
    decreases names.len(),
{
    if names.len() > 0 {
        let short = names.drop_last();
        lemma_packs_of_features(ws, short, pack);
        lemma_feature(ws, names.last(), pack);
        assert(names[names.len() - 1] == names.last());
        if exists|k: int| 0 <= k < short.len() && feature_names_pack(ws, #[trigger] short[k], pack) {
            let k = choose|k: int|
                0 <= k < short.len() && feature_names_pack(ws, #[trigger] short[k], pack);
            assert(names[k] == short[k]);
        }
        if exists|k: int| 0 <= k < names.len() && feature_names_pack(ws, #[trigger] names[k], pack) {
            let k = choose|k: int|
                0 <= k < names.len() && feature_names_pack(ws, #[trigger] names[k], pack);
            if k < short.len() {
                assert(short[k] == names[k]);
            }
        }
    }
}

proof fn lemma_packs_of_all(
    features: Seq<(Seq<char>, Seq<(Seq<char>, Seq<char>)>)>,
    pack: Seq<char>,
)
    ensures
        packs_of_all(features).contains(pack) <==> exists|k: int|
            0 <= k < features.len() && names_pack((#[trigger] features[k]).1, pack),
    decreases features.len(),
{
    if features.len() > 0 {
        let short = features.drop_last();
        lemma_packs_of_all(short, pack);
        lemma_keys(features.last().1, pack);
        assert(features[features.len() - 1] == features.last());
        if exists|k: int| 0 <= k < short.len() && names_pack((#[trigger] short[k]).1, pack) {
            let k = choose|k: int|
                0 <= k < short.len() && names_pack((#[trigger] short[k]).1, pack);
            assert(features[k] == short[k]);
        }
        if exists|k: int| 0 <= k < features.len() && names_pack((#[trigger] features[k]).1, pack) {
            let k = choose|k: int|
                0 <= k < features.len() && names_pack((#[trigger] features[k]).1, pack);
            if k < short.len() {
                assert(short[k] == features[k]);
            }
        }
    }
}

/// The packs of an environment are those that its features name and, unless it does
/// without the default feature, those that the top-level tables name.
pub proof fn law_environment_has_its_features_packs(
    ws: WorkspaceView,
    e: EnvironmentView,
    pack: Seq<char>,
)
    ensures
        packs_in_scope(ws, Some(e)).contains(pack) <==> (exists|k: int|
            0 <= k < e.features.len() && feature_names_pack(ws, #[trigger] e.features[k], pack))
            || (!e.no_default_feature && names_pack(ws.path_dependencies, pack)),
{
    lemma_packs_of_features(ws, e.features, pack);
    lemma_keys(ws.path_dependencies, pack);
}

/// Where the environment is not known, every pack that the workspace names anywhere
/// is taken.
pub proof fn law_unknown_environment_has_every_pack(ws: WorkspaceView, pack: Seq<char>)
    ensures
        packs_in_scope(ws, None).contains(pack) <==> (exists|k: int|
            0 <= k < ws.features.len() && names_pack((#[trigger] ws.features[k]).1, pack))
            || names_pack(ws.path_dependencies, pack),
{
    lemma_packs_of_all(ws.features, pack);
    lemma_keys(ws.path_dependencies, pack);
}

/// Whether the user has an entry of one of these names in a feature that the
/// environment takes.
pub open spec fn user_has_entry_in(
    sc: SceneView,
    e: EnvironmentView,
    names: Seq<Seq<char>>,
) -> bool {
    exists|f: Seq<char>, i: int|
        0 <= i < names.len() && (e.features.contains(f) || (!e.no_default_feature && f
            == "default"@)) && #[trigger] users_entry(sc.nodes, f, #[trigger] names[i])
}

proof fn lemma_veto(sc: SceneView, e: EnvironmentView, package: Seq<char>)
    ensures
        is_vetoed(sc, Some(e), package) <==> user_has_entry_in(
            sc,
            e,
            name_family(package, sc.names),
        ),
{
    let family = name_family(package, sc.names);
    let scope = environment_scope(e);
    assert forall|f: Seq<char>| #[trigger] scope.contains(f) <==> (e.features.contains(f) || (
    !e.no_default_feature && f == "default"@)) by {}
    if is_vetoed(sc, Some(e), package) {
        let i = choose|i: int|
            0 <= i < family.len() && pinned_in_any(sc.nodes, scope, #[trigger] family[i]);
        let k = choose|k: int|
            0 <= k < scope.len() && pinned_in(sc.nodes, #[trigger] scope[k], family[i]);
        assert(scope.contains(scope[k]));
        assert(users_entry(sc.nodes, scope[k], family[i]));
    }
    if user_has_entry_in(sc, e, family) {
        let (f, i) = choose|f: Seq<char>, i: int|
            0 <= i < family.len() && (e.features.contains(f) || (!e.no_default_feature && f
                == "default"@)) && #[trigger] users_entry(sc.nodes, f, #[trigger] family[i]);
        assert(scope.contains(f));
        let k = choose|k: int| 0 <= k < scope.len() && scope[k] == f;
        assert(pinned_in(sc.nodes, scope[k], family[i]));
        assert(pinned_in_any(sc.nodes, scope, family[i]));
    }
}

/// As a last resort a package is kept a wheel in every pack of the failing environment
/// that lies somewhere, and in no other pack: in each by one entry of the pack's own
/// `pixi.toml`, that names the package and no version.
pub proof fn law_last_resort_keeps_the_wheel(
    sc: SceneView,
    ws: WorkspaceView,
    env: Seq<char>,
    at: int,
    package: Seq<char>,
    writes: Seq<WriteView>,
    pack: Seq<char>,
)
    requires
        sc.facts.workspace == Some(ws),
        is_first_with(ws.environments, env, at),
        !is_anchor(package),
        !user_has_entry_in(sc, ws.environments[at].1, name_family(package, sc.names)),
        is_last_resort(sc, Some(env), package, writes),
    ensures
        match pack_dir(ws, sc.dir, pack) {
            Some(d) if packs_in_scope(ws, Some(ws.environments[at].1)).contains(pack) => exists|
                i: int,
            |
                0 <= i < writes.len() && #[trigger] writes[i] == (WriteView {
                    bundle: pack,
                    pack_pixi: path_joined(d, "pixi.toml"@),
                    package,
                    spec: ""@,
                    kind: PackOverrideKind::Unroute,
                }),
            _ => forall|i: int| 0 <= i < writes.len() ==> (#[trigger] writes[i]).bundle != pack,
        },
        forall|i: int|
            0 <= i < writes.len() ==> (#[trigger] writes[i]).package == package && writes[i].spec
                == ""@ && writes[i].kind == PackOverrideKind::Unroute,
        forall|i: int, j: int|
            0 <= i < j < writes.len() ==> text_before(
                (#[trigger] writes[i]).bundle,
                (#[trigger] writes[j]).bundle,
            ),
{
    let e = ws.environments[at].1;
    law_first_pair_counts(ws.environments, env, at);
    lemma_veto(sc, e, package);
    let bundles = bundles_of(writes);
    assert forall|i: int| 0 <= i < writes.len() implies #[trigger] bundles[i]
        == writes[i].bundle by {}
    assert(bundles.contains(pack) <==> packs_in_scope(ws, Some(e)).contains(pack) && pack_dir(
        ws,
        sc.dir,
        pack,
    ) is Some);
    if bundles.contains(pack) {
        let i = choose|i: int| 0 <= i < bundles.len() && bundles[i] == pack;
        assert(writes[i].bundle == pack);
        assert(writes[i] == kept_wheel(ws, sc.dir, package, pack));
    } else {
        assert forall|i: int| 0 <= i < writes.len() implies (#[trigger] writes[i]).bundle
            != pack by {
            assert(bundles[i] == writes[i].bundle);
        }
    }
    assert forall|i: int, j: int| 0 <= i < j < writes.len() implies text_before(
        (#[trigger] writes[i]).bundle,
        (#[trigger] writes[j]).bundle,
    ) by {
        assert(text_before(bundles[i], bundles[j]));
    }
}

/// Nothing is done as a last resort for an anchor, for a package that the user has an
/// entry of in the failing environment, or where no workspace can be read.
pub proof fn law_last_resort_spares_the_users_own(
    sc: SceneView,
    env: Option<Seq<char>>,
    package: Seq<char>,
    writes: Seq<WriteView>,
)
    requires
        is_last_resort(sc, env, package, writes),
    ensures
        is_anchor(package) || sc.facts.workspace is None ==> writes.len() == 0,
        forall|ws: WorkspaceView, at: int|
            #![trigger ws.environments[at]]
            sc.facts.workspace == Some(ws) && (env matches Some(n) && is_first_with(
                ws.environments,
                n,
                at,
            )) && user_has_entry_in(
                sc,
                ws.environments[at].1,
                name_family(package, sc.names),
            ) ==> writes.len() == 0,
        env is None && (exists|i: int, k: int|
            0 <= i < sc.features.len() && 0 <= k < name_family(package, sc.names).len()
                && #[trigger] users_entry(
                sc.nodes,
                sc.features[i],
                name_family(package, sc.names)[k],
            )) ==> writes.len() == 0,
{
    assert forall|ws: WorkspaceView, at: int|
        #![trigger ws.environments[at]]
        sc.facts.workspace == Some(ws) && (env matches Some(n) && is_first_with(
            ws.environments,
            n,
            at,
        )) && user_has_entry_in(
            sc,
            ws.environments[at].1,
            name_family(package, sc.names),
        ) implies writes.len() == 0 by {
        law_first_pair_counts(ws.environments, env->0, at);
        lemma_veto(sc, ws.environments[at].1, package);
    }
    let family = name_family(package, sc.names);
    if env is None && exists|i: int, k: int|
        0 <= i < sc.features.len() && 0 <= k < family.len() && #[trigger] users_entry(
            sc.nodes,
            sc.features[i],
            family[k],
        ) {
        let (i, k) = choose|i: int, k: int|
            0 <= i < sc.features.len() && 0 <= k < family.len() && #[trigger] users_entry(
                sc.nodes,
                sc.features[i],
                family[k],
            );
        assert(pinned_in(sc.nodes, sc.features[i], family[k]));
        assert(pinned_in_any(sc.nodes, sc.features, family[k]));
        assert(family_pinned(sc, package));
    }
}

} // verus!
