//! What a repair needs to know of the workspace: the packs that it composes,
//! the environments that compose them, and the conda names of a wheel.
use crate::text::{
    chars_of, ends_with, holds_text, lower, lowered_char, push_view, starts_with, text_eq,
};
use vstd::prelude::*;

verus! {

broadcast use vstd::seq_lib::group_seq_properties;

// ---------------------------------------------------------------------------
// Lists of named things
// ---------------------------------------------------------------------------

/// The value that the first pair with the key `key` has.
pub open spec fn lookup<V>(pairs: Seq<(Seq<char>, V)>, key: Seq<char>) -> Option<V>
    decreases pairs.len(),
{
    if pairs.len() == 0 {
        None
    } else if pairs[0].0 == key {
        Some(pairs[0].1)
    } else {
        lookup(pairs.drop_first(), key)
    }
}

/// A key has a value where a pair has it.
pub proof fn lemma_lookup_found<V>(pairs: Seq<(Seq<char>, V)>, key: Seq<char>)
    ensures
        lookup(pairs, key) is Some <==> exists|i: int|
            0 <= i < pairs.len() && (#[trigger] pairs[i]).0 == key,
    decreases pairs.len(),
{
    if pairs.len() > 0 {
        let rest = pairs.drop_first();
        lemma_lookup_found(rest, key);
        if pairs[0].0 != key {
            if lookup(rest, key) is Some {
                let i = choose|i: int| 0 <= i < rest.len() && (#[trigger] rest[i]).0 == key;
                assert(pairs[i + 1] == rest[i]);
            }
            if exists|i: int| 0 <= i < pairs.len() && (#[trigger] pairs[i]).0 == key {
                let i = choose|i: int| 0 <= i < pairs.len() && (#[trigger] pairs[i]).0 == key;
                assert(rest[i - 1] == pairs[i]);
            }
        }
    }
}

/// The position of the first pair with the key `key`.
pub fn find_key<T: DeepView>(pairs: &Vec<(String, T)>, key: &str) -> (r: Option<usize>)
    ensures
        match r {
            Some(i) => i < pairs@.len() && lookup(pairs.deep_view(), key@) == Some(
                pairs@[i as int].1.deep_view(),
            ) && pairs@[i as int].0@ == key@,
            None => lookup(pairs.deep_view(), key@) is None,
        },
{
    let ghost all = pairs.deep_view();
    let n: usize = pairs.len();
    let mut i: usize = 0;
    assert(all.skip(0) =~= all);
    while i < n
        invariant
            i <= n,
            n == pairs@.len(),
            all == pairs.deep_view(),
            lookup(all, key@) == lookup(all.skip(i as int), key@),
        decreases n - i,
    {
        assert(all.skip(i as int)[0] == pairs@[i as int].deep_view());
        if text_eq(&pairs[i].0, key) {
            return Some(i);
        }
        assert(all.skip(i as int).drop_first() =~= all.skip(i + 1));
        i = i + 1;
    }
    None
}

// ---------------------------------------------------------------------------
// Paths
// ---------------------------------------------------------------------------

/// The path `rel` as seen from the directory `dir`: itself where it is absolute.
pub open spec fn path_joined(dir: Seq<char>, rel: Seq<char>) -> Seq<char> {
    if "/"@.is_prefix_of(rel) || dir.len() == 0 {
        rel
    } else if "/"@.is_suffix_of(dir) {
        dir + rel
    } else {
        dir + "/"@ + rel
    }
}

/// The path `rel` as seen from the directory `dir`, with `/` between names:
/// itself where it is absolute.
pub fn join_path(dir: &str, rel: &str) -> (r: String)
    ensures
        r@ == path_joined(dir@, rel@),
{
    if starts_with(rel, "/") || dir.is_empty() {
        return rel.to_owned();
    }
    let mut out: String = dir.to_owned();
    if !ends_with(dir, "/") {
        out.append("/");
    }
    out.append(rel);
    out
}

// ---------------------------------------------------------------------------
// The workspace
// ---------------------------------------------------------------------------

/// A feature of the workspace: its name and the packs that it depends on by
/// path.
#[derive(Debug)]
pub struct FeatureDef {
    pub path_dependencies: Vec<(String, String)>,
}

/// An environment: the features that it composes, and whether the top-level
/// tables stay out of it.
#[derive(Debug)]
pub struct EnvironmentDef {
    pub features: Vec<String>,
    pub no_default_feature: bool,
}

/// The workspace manifest, as far as repairs read it. Each list is in the order of
/// names, and has no name twice.
#[derive(Debug)]
pub struct WorkspaceManifest {
    pub path_dependencies: Vec<(String, String)>,
    pub features: Vec<(String, FeatureDef)>,
    pub environments: Vec<(String, EnvironmentDef)>,
}

/// What a `FeatureDef` says.
pub type FeatureView = Seq<(Seq<char>, Seq<char>)>;

impl DeepView for FeatureDef {
    type V = Seq<(Seq<char>, Seq<char>)>;

    open spec fn deep_view(&self) -> Seq<(Seq<char>, Seq<char>)> {
        self.path_dependencies.deep_view()
    }
}

/// What an `EnvironmentDef` says.
#[verifier::ext_equal]
pub struct EnvironmentView {
    pub features: Seq<Seq<char>>,
    pub no_default_feature: bool,
}

impl DeepView for EnvironmentDef {
    type V = EnvironmentView;

    open spec fn deep_view(&self) -> EnvironmentView {
        EnvironmentView {
            features: self.features.deep_view(),
            no_default_feature: self.no_default_feature,
        }
    }
}

/// What a `WorkspaceManifest` says.
#[verifier::ext_equal]
pub struct WorkspaceView {
    pub path_dependencies: FeatureView,
    pub features: Seq<(Seq<char>, FeatureView)>,
    pub environments: Seq<(Seq<char>, EnvironmentView)>,
}

impl DeepView for WorkspaceManifest {
    type V = WorkspaceView;

    open spec fn deep_view(&self) -> WorkspaceView {
        WorkspaceView {
            path_dependencies: self.path_dependencies.deep_view(),
            features: self.features.deep_view(),
            environments: self.environments.deep_view(),
        }
    }
}

/// The path that the first feature from `from` on to depend on the pack gives
/// for it.
pub open spec fn feature_path_from(
    features: Seq<(Seq<char>, FeatureView)>,
    pack: Seq<char>,
    from: int,
) -> Option<Seq<char>>
    decreases features.len() - from,
{
    if from < 0 || from >= features.len() {
        None
    } else {
        match lookup(features[from].1, pack) {
            Some(path) => Some(path),
            None => feature_path_from(features, pack, from + 1),
        }
    }
}

/// The name of the first feature from `from` on to depend on the pack.
pub open spec fn owner_from(
    features: Seq<(Seq<char>, FeatureView)>,
    pack: Seq<char>,
    from: int,
) -> Option<Seq<char>>
    decreases features.len() - from,
{
    if from < 0 || from >= features.len() {
        None
    } else if lookup(features[from].1, pack) is Some {
        Some(features[from].0)
    } else {
        owner_from(features, pack, from + 1)
    }
}

/// The directory of a pack: where the top-level tables depend on it, or else the
/// first feature that does.
pub open spec fn pack_dir(ws: WorkspaceView, dir: Seq<char>, pack: Seq<char>) -> Option<Seq<char>> {
    let raw = match lookup(ws.path_dependencies, pack) {
        Some(path) => Some(path),
        None => feature_path_from(ws.features, pack, 0),
    };
    match raw {
        Some(path) => Some(path_joined(dir, path)),
        None => None,
    }
}

/// The feature that declares a pack: `default` for the top-level tables.
pub open spec fn pack_feature(ws: WorkspaceView, pack: Seq<char>) -> Option<Seq<char>> {
    if lookup(ws.path_dependencies, pack) is Some {
        Some("default"@)
    } else {
        owner_from(ws.features, pack, 0)
    }
}

/// The directory of a pack that the workspace composes: where the top-level
/// tables depend on it, or else the first feature that does.
pub fn resolve_pack_dir(ws: &WorkspaceManifest, workspace_dir: &str, pack_name: &str) -> (r: Option<
    String,
>)
    ensures
        r.deep_view() == pack_dir(ws.deep_view(), workspace_dir@, pack_name@),
{
    match find_key(&ws.path_dependencies, pack_name) {
        Some(i) => {
            return Some(join_path(workspace_dir, &ws.path_dependencies[i].1));
        },
        None => {},
    }
    let ghost all = ws.features.deep_view();
    let n: usize = ws.features.len();
    let mut k: usize = 0;
    while k < n
        invariant
            k <= n,
            n == ws.features@.len(),
            all == ws.features.deep_view(),
            lookup(ws.path_dependencies.deep_view(), pack_name@) is None,
            feature_path_from(all, pack_name@, 0) == feature_path_from(all, pack_name@, k as int),
        decreases n - k,
    {
        assert(all[k as int] == ws.features@[k as int].deep_view());
        match find_key(&ws.features[k].1.path_dependencies, pack_name) {
            Some(i) => {
                return Some(join_path(workspace_dir, &ws.features[k].1.path_dependencies[i].1));
            },
            None => {},
        }
        k = k + 1;
    }
    None
}

/// The feature that declares a pack: `default` for the top-level tables.
pub fn resolve_pack_feature(ws: &WorkspaceManifest, pack_name: &str) -> (r: Option<String>)
    ensures
        r.deep_view() == pack_feature(ws.deep_view(), pack_name@),
{
    if find_key(&ws.path_dependencies, pack_name).is_some() {
        return Some("default".to_owned());
    }
    let ghost all = ws.features.deep_view();
    let n: usize = ws.features.len();
    let mut k: usize = 0;
    while k < n
        invariant
            k <= n,
            n == ws.features@.len(),
            all == ws.features.deep_view(),
            lookup(ws.path_dependencies.deep_view(), pack_name@) is None,
            owner_from(all, pack_name@, 0) == owner_from(all, pack_name@, k as int),
        decreases n - k,
    {
        assert(all[k as int] == ws.features@[k as int].deep_view());
        if find_key(&ws.features[k].1.path_dependencies, pack_name).is_some() {
            return Some(ws.features[k].0.clone());
        }
        k = k + 1;
    }
    None
}

/// A pack has a directory where a feature declares it, and only there.
pub proof fn law_declared_packs_resolve(ws: WorkspaceView, dir: Seq<char>, pack: Seq<char>)
    ensures
        pack_dir(ws, dir, pack) is Some <==> pack_feature(ws, pack) is Some,
{
    lemma_owner_has_path(ws.features, pack, 0);
}

proof fn lemma_owner_has_path(
    features: Seq<(Seq<char>, FeatureView)>,
    pack: Seq<char>,
    from: int,
)
    ensures
        feature_path_from(features, pack, from) is Some <==> owner_from(features, pack, from)
            is Some,
    decreases features.len() - from,
{
    if 0 <= from < features.len() {
        lemma_owner_has_path(features, pack, from + 1);
    }
}

// ---------------------------------------------------------------------------
// Conda names
// ---------------------------------------------------------------------------

/// Whether `c` separates the words of a package name.
pub open spec fn is_separator(c: char) -> bool {
    c == '-' || c == '_' || c == '.'
}

/// A package name in small letters, with one hyphen for each run of separators.
pub open spec fn canonical_name(name: Seq<char>) -> Seq<char>
    decreases name.len(),
{
    if name.len() == 0 {
        name
    } else {
        let before = canonical_name(name.drop_last());
        let c = name.last();
        if !is_separator(c) {
            before.push(lowered_char(c))
        } else if name.len() > 1 && is_separator(name[name.len() - 2]) {
            before
        } else {
            before.push('-')
        }
    }
}

/// A package name in small letters, with one hyphen for each run of separators.
pub fn canonical_conda_name(name: &str) -> (r: String)
    ensures
        r@ == canonical_name(name@),
{
    let v = chars_of(name);
    let low = chars_of(&lower(name));
    let n: usize = v.len();
    let mut out: String = String::new();
    let mut i: usize = 0;
    assert(v@.take(0) =~= out@);
    while i < n
        invariant
            i <= n,
            n == v@.len(),
            low@.len() == n,
            forall|k: int| 0 <= k < n ==> low@[k] == lowered_char(v@[k]),
            out@ == canonical_name(v@.take(i as int)),
        decreases n - i,
    {
        let c: char = v[i];
        let ghost t = v@.take(i + 1);
        assert(t.drop_last() =~= v@.take(i as int));
        assert(t.last() == c);
        if i > 0 {
            assert(t[t.len() - 2] == v@[i - 1]);
        }
        if !(c == '-' || c == '_' || c == '.') {
            out.push(low[i]);
        } else if i > 0 && (v[i - 1] == '-' || v[i - 1] == '_' || v[i - 1] == '.') {
        } else {
            out.push('-');
        }
        i = i + 1;
    }
    assert(v@.take(n as int) =~= v@);
    out
}

/// For each wheel, by its canonical name, the conda packages that provide it.
#[derive(Debug)]
pub struct PypiToCondaMap {
    entries: Vec<(String, Vec<String>)>,
}

impl PypiToCondaMap {
    /// The pairs of the map.
    pub closed spec fn pairs(&self) -> Seq<(Seq<char>, Seq<Seq<char>>)> {
        self.entries.deep_view()
    }

    /// A map without entries.
    pub fn new() -> (r: Self)
        ensures
            r.pairs() == Seq::<(Seq<char>, Seq<Seq<char>>)>::empty(),
    {
        let r = PypiToCondaMap { entries: Vec::new() };
        assert(r.pairs() =~= Seq::<(Seq<char>, Seq<Seq<char>>)>::empty());
        r
    }

    /// Sets the conda names of `name`.
    pub fn insert(&mut self, name: String, conda: Vec<String>)
        ensures
            forall|k: Seq<char>| #[trigger]
                lookup(final(self).pairs(), k) == if k == name@ {
                    Some(conda.deep_view())
                } else {
                    lookup(old(self).pairs(), k)
                },
    {
        let ghost before = self.entries.deep_view();
        let ghost pair = (name@, conda.deep_view());
        self.entries.insert(0, (name, conda));
        let ghost after = self.entries.deep_view();
        assert(after =~= before.insert(0, pair));
        assert(after[0] == pair);
        assert(after.drop_first() =~= before);
    }

    /// The conda names of `name`.
    pub fn get(&self, name: &str) -> (r: Option<&Vec<String>>)
        ensures
            r.deep_view() == lookup(self.pairs(), name@),
    {
        match find_key(&self.entries, name) {
            Some(i) => Some(&self.entries[i].1),
            None => None,
        }
    }
}

/// A conda name and its variants for an accelerator, the name itself first. A
/// name that is such a variant is not varied again by the same word.
pub open spec fn name_variants(name: Seq<char>) -> Seq<Seq<char>> {
    let gpu = if "-gpu"@.is_suffix_of(name) {
        Seq::<Seq<char>>::empty()
    } else {
        seq![name + "-gpu"@]
    };
    let cpu = if "-cpu"@.is_suffix_of(name) {
        Seq::<Seq<char>>::empty()
    } else {
        seq![name + "-cpu"@]
    };
    seq![name] + gpu + cpu
}

/// A conda name and its variants for an accelerator, the name itself first.
pub fn variants_of(name: &str) -> (r: Vec<String>)
    ensures
        r.deep_view() == name_variants(name@),
{
    let mut out: Vec<String> = Vec::new();
    assert(out.deep_view() =~= Seq::<Seq<char>>::empty());
    push_view(&mut out, name.to_owned());
    if !ends_with(name, "-gpu") {
        push_view(&mut out, name.to_owned().concat("-gpu"));
    }
    if !ends_with(name, "-cpu") {
        push_view(&mut out, name.to_owned().concat("-cpu"));
    }
    assert(out.deep_view() =~= name_variants(name@));
    out
}

/// `out` with those of `names` that are not in it, in order.
pub open spec fn with_new(out: Seq<Seq<char>>, names: Seq<Seq<char>>) -> Seq<Seq<char>>
    decreases names.len(),
{
    if names.len() == 0 {
        out
    } else {
        let before = with_new(out, names.drop_last());
        if before.contains(names.last()) {
            before
        } else {
            before.push(names.last())
        }
    }
}

/// `out` with the variants of each of `names` that are not in it.
pub open spec fn with_variants(out: Seq<Seq<char>>, names: Seq<Seq<char>>) -> Seq<Seq<char>>
    decreases names.len(),
{
    if names.len() == 0 {
        out
    } else {
        with_new(with_variants(out, names.drop_last()), name_variants(names.last()))
    }
}

/// The conda names under which a wheel may be pinned: those of the map with
/// their variants, then its own name with its variants, each once.
pub open spec fn name_family(
    name: Seq<char>,
    map: Seq<(Seq<char>, Seq<Seq<char>>)>,
) -> Seq<Seq<char>> {
    let mapped = match lookup(map, canonical_name(name)) {
        Some(names) => with_variants(Seq::empty(), names),
        None => Seq::empty(),
    };
    with_new(mapped, name_variants(name))
}

fn push_new(out: &mut Vec<String>, name: &str)
    ensures
        final(out).deep_view() == with_new(old(out).deep_view(), name_variants(name@)),
{
    let names = variants_of(name);
    let ghost start = out.deep_view();
    let ghost all = names.deep_view();
    let n: usize = names.len();
    let mut i: usize = 0;
    while i < n
        invariant
            i <= n,
            n == names@.len(),
            all == names.deep_view(),
            out.deep_view() == with_new(start, all.take(i as int)),
        decreases n - i,
    {
        assert(all.take(i + 1).drop_last() =~= all.take(i as int));
        assert(all[i as int] == names@[i as int]@);
        if !holds_text(out, &names[i]) {
            push_view(out, names[i].clone());
        }
        i = i + 1;
    }
    assert(all.take(n as int) =~= all);
}

/// The conda names under which a wheel may be pinned: those of the map with
/// their variants, then its own name with its variants, each once.
pub fn conda_name_family(pkg: &str, name_map: &PypiToCondaMap) -> (r: Vec<String>)
    ensures
        r.deep_view() == name_family(pkg@, name_map.pairs()),
{
    let mut out: Vec<String> = Vec::new();
    assert(out.deep_view() =~= Seq::<Seq<char>>::empty());
    let canon = canonical_conda_name(pkg);
    match name_map.get(&canon) {
        Some(names) => {
            let ghost all = names.deep_view();
            let n: usize = names.len();
            let mut i: usize = 0;
            while i < n
                invariant
                    i <= n,
                    n == names@.len(),
                    all == names.deep_view(),
                    out.deep_view() == with_variants(Seq::empty(), all.take(i as int)),
                decreases n - i,
            {
                assert(all.take(i + 1).drop_last() =~= all.take(i as int));
                assert(all[i as int] == names@[i as int]@);
                push_new(&mut out, &names[i]);
                i = i + 1;
            }
            assert(all.take(n as int) =~= all);
        },
        None => {},
    }
    push_new(&mut out, pkg);
    out
}

proof fn lemma_with_new_distinct(out: Seq<Seq<char>>, names: Seq<Seq<char>>)
    requires
        out.no_duplicates(),
    ensures
        with_new(out, names).no_duplicates(),
        forall|x: Seq<char>| #[trigger]
            with_new(out, names).contains(x) <==> out.contains(x) || names.contains(x),
    decreases names.len(),
{
    if names.len() > 0 {
        let short = names.drop_last();
        lemma_with_new_distinct(out, short);
        let before = with_new(out, short);
        let after = with_new(out, names);
        assert forall|x: Seq<char>| #[trigger] after.contains(x) <==> out.contains(x)
            || names.contains(x) by {
            assert(names =~= short.push(names.last()));
            if names.contains(x) && x != names.last() {
                let i = choose|i: int| 0 <= i < names.len() && names[i] == x;
                assert(short[i] == x);
            }
            if short.contains(x) {
                let i = choose|i: int| 0 <= i < short.len() && short[i] == x;
                assert(names[i] == x);
            }
            assert(names[names.len() - 1] == names.last());
            if before.contains(x) {
                let i = choose|i: int| 0 <= i < before.len() && before[i] == x;
                assert(after[i] == x);
            }
            if after.contains(x) && !before.contains(x) {
                let i = choose|i: int| 0 <= i < after.len() && after[i] == x;
                assert(i == before.len());
            }
            if x == names.last() && !before.contains(x) {
                assert(after[before.len() as int] == x);
            }
        }
    }
}

proof fn lemma_with_variants_distinct(out: Seq<Seq<char>>, names: Seq<Seq<char>>)
    requires
        out.no_duplicates(),
    ensures
        with_variants(out, names).no_duplicates(),
    decreases names.len(),
{
    if names.len() > 0 {
        lemma_with_variants_distinct(out, names.drop_last());
        lemma_with_new_distinct(
            with_variants(out, names.drop_last()),
            name_variants(names.last()),
        );
    }
}

/// The family of a name holds no name twice, and holds the name itself.
pub proof fn law_name_family_is_distinct(
    name: Seq<char>,
    map: Seq<(Seq<char>, Seq<Seq<char>>)>,
)
    ensures
        name_family(name, map).no_duplicates(),
        name_family(name, map).contains(name),
{
    let mapped = match lookup(map, canonical_name(name)) {
        Some(names) => with_variants(Seq::empty(), names),
        None => Seq::empty(),
    };
    if let Some(names) = lookup(map, canonical_name(name)) {
        lemma_with_variants_distinct(Seq::empty(), names);
    }
    lemma_with_new_distinct(mapped, name_variants(name));
    assert(name_variants(name)[0] == name);
}

// ---------------------------------------------------------------------------
// What is known of the packs
// ---------------------------------------------------------------------------

/// What is known of one pack, by its directory: the overrides that its ledger
/// holds, the names that its upstream requirements pin exactly, and what the
/// environments that consume it depend on.
#[derive(Debug)]
pub struct PackFacts {
    pub overrides: Vec<(String, String)>,
    pub exact_pins: Vec<String>,
    pub env_dependencies: Vec<(String, Vec<String>)>,
}

/// What a `PackFacts` says.
#[verifier::ext_equal]
pub struct PackView {
    pub overrides: Seq<(Seq<char>, Seq<char>)>,
    pub exact_pins: Seq<Seq<char>>,
    pub env_dependencies: Seq<(Seq<char>, Seq<Seq<char>>)>,
}

impl DeepView for PackFacts {
    type V = PackView;

    open spec fn deep_view(&self) -> PackView {
        PackView {
            overrides: self.overrides.deep_view(),
            exact_pins: self.exact_pins.deep_view(),
            env_dependencies: self.env_dependencies.deep_view(),
        }
    }
}

/// What a repair is told of its surroundings: the time and the date, the
/// workspace where its manifest can be read, and the packs by their directories.
#[derive(Debug)]
pub struct Facts {
    pub now: String,
    pub today: String,
    pub workspace: Option<WorkspaceManifest>,
    pub packs: Vec<(String, PackFacts)>,
}

/// What a `Facts` says.
#[verifier::ext_equal]
pub struct FactsView {
    pub now: Seq<char>,
    pub today: Seq<char>,
    pub workspace: Option<WorkspaceView>,
    pub packs: Seq<(Seq<char>, PackView)>,
}

impl DeepView for Facts {
    type V = FactsView;

    open spec fn deep_view(&self) -> FactsView {
        FactsView {
            now: self.now@,
            today: self.today@,
            workspace: self.workspace.deep_view(),
            packs: self.packs.deep_view(),
        }
    }
}

/// The directory of a pack, where the workspace composes it.
pub open spec fn known_dir(facts: FactsView, dir: Seq<char>, pack: Seq<char>) -> Option<Seq<char>> {
    match facts.workspace {
        Some(ws) => pack_dir(ws, dir, pack),
        None => None,
    }
}

/// The manifest of a pack, where the workspace composes it.
pub open spec fn pack_manifest(facts: FactsView, dir: Seq<char>, pack: Seq<char>) -> Option<
    Seq<char>,
> {
    match known_dir(facts, dir, pack) {
        Some(d) => Some(path_joined(d, "pixi.toml"@)),
        None => None,
    }
}

/// The override that the ledger holds for a package of the pack in a directory.
pub open spec fn ledgered(facts: FactsView, at: Seq<char>, package: Seq<char>) -> Option<
    Seq<char>,
> {
    match lookup(facts.packs, at) {
        Some(p) => lookup(p.overrides, package),
        None => None,
    }
}

/// Whether the upstream requirements of a composed pack pin a package exactly.
pub open spec fn owns_exact_pin(
    facts: FactsView,
    dir: Seq<char>,
    pack: Seq<char>,
    package: Seq<char>,
) -> bool {
    match known_dir(facts, dir, pack) {
        Some(d) => match lookup(facts.packs, d) {
            Some(p) => p.exact_pins.contains(canonical_name(package)),
            None => false,
        },
        None => false,
    }
}

impl Facts {
    /// The directory of a pack, where the workspace composes it.
    pub fn dir_of(&self, dir: &str, pack: &str) -> (r: Option<String>)
        ensures
            r.deep_view() == known_dir(self.deep_view(), dir@, pack@),
    {
        match &self.workspace {
            Some(ws) => resolve_pack_dir(ws, dir, pack),
            None => None,
        }
    }

    /// The manifest of a pack, where the workspace composes it.
    pub fn manifest_of(&self, dir: &str, pack: &str) -> (r: Option<String>)
        ensures
            r.deep_view() == pack_manifest(self.deep_view(), dir@, pack@),
    {
        match self.dir_of(dir, pack) {
            Some(d) => Some(join_path(&d, "pixi.toml")),
            None => None,
        }
    }

    /// The override that the ledger holds for a package of the pack in `at`.
    pub fn override_of(&self, at: &str, package: &str) -> (r: Option<String>)
        ensures
            r.deep_view() == ledgered(self.deep_view(), at@, package@),
    {
        match find_key(&self.packs, at) {
            Some(i) => match find_key(&self.packs[i].1.overrides, package) {
                Some(j) => Some(self.packs[i].1.overrides[j].1.clone()),
                None => None,
            },
            None => None,
        }
    }

    /// Whether the upstream requirements of a composed pack pin a package exactly.
    pub fn deps_from_owns_exact_pin(&self, dir: &str, bundle: &str, package: &str) -> (r: bool)
        ensures
            r == owns_exact_pin(self.deep_view(), dir@, bundle@, package@),
    {
        match self.dir_of(dir, bundle) {
            Some(d) => match find_key(&self.packs, &d) {
                Some(i) => {
                    let canon = canonical_conda_name(package);
                    holds_text(&self.packs[i].1.exact_pins, &canon)
                },
                None => false,
            },
            None => false,
        }
    }
}

// ---------------------------------------------------------------------------
// Laws
// ---------------------------------------------------------------------------

/// Whether the pair at `i` is the first with the key `key`.
pub open spec fn is_first_with<V>(pairs: Seq<(Seq<char>, V)>, key: Seq<char>, i: int) -> bool {
    &&& 0 <= i < pairs.len()
    &&& pairs[i].0 == key
    &&& forall|j: int| 0 <= j < i ==> (#[trigger] pairs[j]).0 != key
}

/// Where a key is given twice, the first pair counts.
pub proof fn law_first_pair_counts<V>(pairs: Seq<(Seq<char>, V)>, key: Seq<char>, i: int)
    requires
        is_first_with(pairs, key, i),
    ensures
        lookup(pairs, key) == Some(pairs[i].1),
    decreases i,
{
    if i > 0 {
        let rest = pairs.drop_first();
        assert(pairs[0].0 != key);
        assert forall|j: int| 0 <= j < i - 1 implies (#[trigger] rest[j]).0 != key by {
            assert(rest[j] == pairs[j + 1]);
        }
        assert(rest[i - 1] == pairs[i]);
        law_first_pair_counts(rest, key, i - 1);
    }
}

/// Whether no pair has the key `key`.
pub open spec fn lacks<V>(pairs: Seq<(Seq<char>, V)>, key: Seq<char>) -> bool {
    forall|j: int| 0 <= j < pairs.len() ==> (#[trigger] pairs[j]).0 != key
}

/// A relative path lies below the directory that it is read in, behind one slash.
pub proof fn law_relative_path_lies_below(dir: Seq<char>, rel: Seq<char>)
    requires
        dir.len() > 0,
        rel.len() == 0 || rel[0] != '/',
    ensures
        dir.last() != '/' ==> path_joined(dir, rel) == dir.push('/') + rel,
        dir.last() == '/' ==> path_joined(dir, rel) == dir + rel,
{
    reveal_strlit("/");
    if dir.last() == '/' {
        assert(dir.subrange(dir.len() - 1, dir.len() as int) =~= "/"@);
    } else {
        assert("/"@[0] == '/');
        assert(dir + "/"@ + rel =~= dir.push('/') + rel);
    }
    if rel.len() > 0 {
        assert(rel.subrange(0, 1)[0] == rel[0]);
    }
}

/// An absolute path is left as it is, whatever directory it is read in.
pub proof fn law_absolute_path_is_kept(dir: Seq<char>, rel: Seq<char>)
    requires
        rel.len() > 0,
        rel[0] == '/',
    ensures
        path_joined(dir, rel) == rel,
{
    reveal_strlit("/");
    assert(rel.subrange(0, 1) =~= "/"@);
}

/// A pack that the top-level tables name lies at the path that they give, and is
/// of the default feature, whatever the features say of it.
pub proof fn law_top_level_pack_comes_first(
    ws: WorkspaceView,
    dir: Seq<char>,
    pack: Seq<char>,
    i: int,
)
    requires
        is_first_with(ws.path_dependencies, pack, i),
    ensures
        pack_dir(ws, dir, pack) == Some(path_joined(dir, ws.path_dependencies[i].1)),
        pack_feature(ws, pack) == Some("default"@),
{
    law_first_pair_counts(ws.path_dependencies, pack, i);
}

/// A pack that only features name lies at the path that the first of them gives,
/// and is of that feature.
pub proof fn law_first_feature_has_the_pack(
    ws: WorkspaceView,
    dir: Seq<char>,
    pack: Seq<char>,
    k: int,
    i: int,
)
    requires
        lacks(ws.path_dependencies, pack),
        0 <= k < ws.features.len(),
        forall|j: int| 0 <= j < k ==> lacks((#[trigger] ws.features[j]).1, pack),
        is_first_with(ws.features[k].1, pack, i),
    ensures
        pack_dir(ws, dir, pack) == Some(path_joined(dir, ws.features[k].1[i].1)),
        pack_feature(ws, pack) == Some(ws.features[k].0),
{
    lemma_lookup_found(ws.path_dependencies, pack);
    law_first_pair_counts(ws.features[k].1, pack, i);
    lemma_features_before(ws.features, pack, 0, k);
}

proof fn lemma_features_before(
    features: Seq<(Seq<char>, FeatureView)>,
    pack: Seq<char>,
    from: int,
    k: int,
)
    requires
        0 <= from <= k < features.len(),
        forall|j: int| 0 <= j < k ==> lacks((#[trigger] features[j]).1, pack),
        lookup(features[k].1, pack) is Some,
    ensures
        feature_path_from(features, pack, from) == lookup(features[k].1, pack),
        owner_from(features, pack, from) == Some(features[k].0),
    decreases k - from,
{
    if from < k {
        lemma_lookup_found(features[from].1, pack);
        assert(lacks(features[from].1, pack));
        lemma_features_before(features, pack, from + 1, k);
    }
}

/// A pack that nothing names has no directory and no feature.
pub proof fn law_unnamed_pack_is_nowhere(ws: WorkspaceView, dir: Seq<char>, pack: Seq<char>)
    requires
        lacks(ws.path_dependencies, pack),
        forall|j: int| 0 <= j < ws.features.len() ==> lacks((#[trigger] ws.features[j]).1, pack),
    ensures
        pack_dir(ws, dir, pack) is None,
        pack_feature(ws, pack) is None,
{
    lemma_lookup_found(ws.path_dependencies, pack);
    lemma_no_feature_has(ws.features, pack, 0);
}

proof fn lemma_no_feature_has(features: Seq<(Seq<char>, FeatureView)>, pack: Seq<char>, from: int)
    requires
        0 <= from,
        forall|j: int| 0 <= j < features.len() ==> lacks((#[trigger] features[j]).1, pack),
    ensures
        feature_path_from(features, pack, from) is None,
        owner_from(features, pack, from) is None,
    decreases features.len() - from,
{
    if from < features.len() {
        lemma_lookup_found(features[from].1, pack);
        assert(lacks(features[from].1, pack));
        lemma_no_feature_has(features, pack, from + 1);
    }
}

/// The override of a package is the one that the ledger of its pack holds, and
/// the manifest of a pack is the `pixi.toml` in its directory.
pub proof fn law_overrides_are_the_packs_own(
    facts: FactsView,
    dir: Seq<char>,
    pack: Seq<char>,
    at: Seq<char>,
    package: Seq<char>,
    i: int,
    j: int,
)
    requires
        is_first_with(facts.packs, at, i),
        is_first_with(facts.packs[i].1.overrides, package, j),
        known_dir(facts, dir, pack) == Some(at),
        at.len() > 0,
        at.last() != '/',
    ensures
        ledgered(facts, at, package) == Some(facts.packs[i].1.overrides[j].1),
        pack_manifest(facts, dir, pack) == Some(at + "/pixi.toml"@),
{
    law_first_pair_counts(facts.packs, at, i);
    law_first_pair_counts(facts.packs[i].1.overrides, package, j);
    reveal_strlit("pixi.toml");
    reveal_strlit("/pixi.toml");
    law_relative_path_lies_below(at, "pixi.toml"@);
    assert(at.push('/') + "pixi.toml"@ =~= at + "/pixi.toml"@);
}

/// Of a pack that its ledger says nothing of there is no override, and without a
/// workspace there is no pack.
pub proof fn law_nothing_known_is_nothing_found(
    facts: FactsView,
    dir: Seq<char>,
    pack: Seq<char>,
    at: Seq<char>,
    package: Seq<char>,
)
    ensures
        lacks(facts.packs, at) ==> ledgered(facts, at, package) is None,
        forall|i: int|
            #![trigger facts.packs[i]]
            is_first_with(facts.packs, at, i) && lacks(facts.packs[i].1.overrides, package)
                ==> ledgered(facts, at, package) is None,
        facts.workspace is None ==> known_dir(facts, dir, pack) is None && pack_manifest(
            facts,
            dir,
            pack,
        ) is None && !owns_exact_pin(facts, dir, pack, package),
{
    lemma_lookup_found(facts.packs, at);
    assert forall|i: int|
        #![trigger facts.packs[i]]
        is_first_with(facts.packs, at, i) && lacks(
            facts.packs[i].1.overrides,
            package,
        ) implies ledgered(facts, at, package) is None by {
        law_first_pair_counts(facts.packs, at, i);
        lemma_lookup_found(facts.packs[i].1.overrides, package);
    }
}

/// A pack pins a package exactly where one of the names that it pins is the
/// package's name in its canonical form.
pub proof fn law_exact_pins_go_by_canonical_names(
    facts: FactsView,
    dir: Seq<char>,
    pack: Seq<char>,
    at: Seq<char>,
    package: Seq<char>,
    i: int,
)
    requires
        known_dir(facts, dir, pack) == Some(at),
        is_first_with(facts.packs, at, i),
    ensures
        owns_exact_pin(facts, dir, pack, package) <==> exists|j: int|
            0 <= j < facts.packs[i].1.exact_pins.len() && #[trigger] facts.packs[i].1.exact_pins[j]
                == canonical_name(package),
{
    law_first_pair_counts(facts.packs, at, i);
}

/// A name of letters, digits and the like is made small and is otherwise kept,
/// letter for letter.
pub proof fn law_plain_name_is_made_small(name: Seq<char>)
    requires
        forall|i: int|
            0 <= i < name.len() ==> #[trigger] name[i] != '-' && name[i] != '_' && name[i] != '.',
    ensures
        canonical_name(name).len() == name.len(),
        forall|i: int|
            0 <= i < name.len() ==> #[trigger] canonical_name(name)[i] == lowered_char(name[i]),
    decreases name.len(),
{
    if name.len() > 0 {
        law_plain_name_is_made_small(name.drop_last());
    }
}

/// A hyphen, an underscore and a dot are one and the same in a name, and so are a
/// letter and its capital.
pub proof fn law_spelling_does_not_matter(a: Seq<char>, b: Seq<char>)
    requires
        a.len() == b.len(),
        forall|i: int|
            0 <= i < a.len() ==> {
                ||| is_separator(#[trigger] a[i]) && is_separator(b[i])
                ||| !is_separator(a[i]) && !is_separator(b[i]) && lowered_char(a[i])
                    == lowered_char(b[i])
            },
    ensures
        canonical_name(a) == canonical_name(b),
    decreases a.len(),
{
    if a.len() > 0 {
        let n = a.len() - 1;
        assert(a[n] == a.last() && b[n] == b.last());
        if n > 0 {
            assert(is_separator(a[n - 1]) == is_separator(b[n - 1]));
        }
        assert forall|i: int| 0 <= i < a.drop_last().len() implies {
            ||| is_separator(#[trigger] a.drop_last()[i]) && is_separator(b.drop_last()[i])
            ||| !is_separator(a.drop_last()[i]) && !is_separator(b.drop_last()[i]) && lowered_char(
                a.drop_last()[i],
            ) == lowered_char(b.drop_last()[i])
        } by {
            assert(a.drop_last()[i] == a[i] && b.drop_last()[i] == b[i]);
        }
        law_spelling_does_not_matter(a.drop_last(), b.drop_last());
    }
}

/// A run of separators counts as one: two words that `many` keeps apart have the
/// same name as with one hyphen between them.
pub proof fn law_run_of_separators_is_one_hyphen(
    left: Seq<char>,
    many: Seq<char>,
    right: Seq<char>,
)
    requires
        many.len() > 0,
        forall|i: int| 0 <= i < many.len() ==> is_separator(#[trigger] many[i]),
        left.len() == 0 || !is_separator(left.last()),
        right.len() == 0 || !is_separator(right[0]),
    ensures
        canonical_name(left + many + right) == canonical_name(left).push('-') + canonical_name(
            right,
        ),
    decreases many.len() + right.len(),
{
    let whole = left + many + right;
    if right.len() > 0 {
        let short = right.drop_last();
        assert(whole.drop_last() =~= left + many + short);
        assert(whole.last() == right.last());
        law_run_of_separators_is_one_hyphen(left, many, short);
        if short.len() > 0 {
            assert(whole[whole.len() - 2] == right[right.len() - 2]);
        }
        let before = canonical_name(left).push('-');
        if !is_separator(right.last()) {
            assert(before + canonical_name(short).push(lowered_char(right.last())) =~= (before
                + canonical_name(short)).push(lowered_char(right.last())));
        } else {
            assert(short.len() > 0);
            if !is_separator(right[right.len() - 2]) {
                assert(before + canonical_name(short).push('-') =~= (before + canonical_name(
                    short,
                )).push('-'));
            }
        }
    } else {
        assert(whole =~= left + many);
        assert(whole.last() == many.last());
        assert(canonical_name(right) =~= Seq::<char>::empty());
        assert(canonical_name(left).push('-') + canonical_name(right) =~= canonical_name(left).push(
            '-',
        ));
        assert(is_separator(many[many.len() - 1]));
        if many.len() == 1 {
            assert(whole.drop_last() =~= left);
            if left.len() > 0 {
                assert(whole[whole.len() - 2] == left.last());
            }
        } else {
            let fewer = many.drop_last();
            assert(whole.drop_last() =~= left + fewer + right);
            assert(is_separator(many[many.len() - 2]));
            assert(whole[whole.len() - 2] == many[many.len() - 2]);
            assert forall|i: int| 0 <= i < fewer.len() implies is_separator(#[trigger] fewer[i]) by {
                assert(fewer[i] == many[i]);
            }
            law_run_of_separators_is_one_hyphen(left, fewer, right);
        }
    }
}

/// Whether `x` is `base`, or `base` said to be for an accelerator or for none,
/// where `base` does not say that itself.
pub open spec fn is_variant_of(x: Seq<char>, base: Seq<char>) -> bool {
    ||| x == base
    ||| x == base + "-gpu"@ && !(exists|s: Seq<char>| base == s + "-gpu"@)
    ||| x == base + "-cpu"@ && !(exists|s: Seq<char>| base == s + "-cpu"@)
}

proof fn lemma_ends(name: Seq<char>, word: Seq<char>)
    ensures
        word.is_suffix_of(name) <==> exists|s: Seq<char>| name == s + word,
{
    if word.is_suffix_of(name) {
        let s = name.take(name.len() - word.len());
        assert(name =~= s + word);
    }
    if exists|s: Seq<char>| name == s + word {
        let s = choose|s: Seq<char>| name == s + word;
        assert(name.subrange(name.len() - word.len(), name.len() as int) =~= word);
    }
}

proof fn lemma_variants(x: Seq<char>, base: Seq<char>)
    ensures
        name_variants(base).contains(x) <==> is_variant_of(x, base),
{
    lemma_ends(base, "-gpu"@);
    lemma_ends(base, "-cpu"@);
    let all = name_variants(base);
    assert(all[0] == base);
    if !"-gpu"@.is_suffix_of(base) {
        assert(all[1] == base + "-gpu"@);
    }
    if !"-cpu"@.is_suffix_of(base) {
        assert(all[all.len() - 1] == base + "-cpu"@);
    }
    if all.contains(x) {
        let i = choose|i: int| 0 <= i < all.len() && all[i] == x;
        assert(i == 0 || i == 1 || i == 2);
    }
}

proof fn lemma_with_variants_holds(names: Seq<Seq<char>>, x: Seq<char>)
    ensures
        with_variants(Seq::empty(), names).contains(x) <==> exists|i: int|
            0 <= i < names.len() && is_variant_of(x, #[trigger] names[i]),
    decreases names.len(),
{
    if names.len() > 0 {
        let short = names.drop_last();
        lemma_with_variants_holds(short, x);
        lemma_with_variants_distinct(Seq::empty(), short);
        lemma_with_new_distinct(with_variants(Seq::empty(), short), name_variants(names.last()));
        lemma_variants(x, names.last());
        assert(names[names.len() - 1] == names.last());
        if exists|i: int| 0 <= i < short.len() && is_variant_of(x, #[trigger] short[i]) {
            let i = choose|i: int| 0 <= i < short.len() && is_variant_of(x, #[trigger] short[i]);
            assert(names[i] == short[i]);
        }
        if exists|i: int| 0 <= i < names.len() && is_variant_of(x, #[trigger] names[i]) {
            let i = choose|i: int| 0 <= i < names.len() && is_variant_of(x, #[trigger] names[i]);
            if i < short.len() {
                assert(short[i] == names[i]);
            }
        }
    }
}

/// The family of a wheel is its own name, the conda names that provide it, and
/// their variants, and nothing else.
pub proof fn law_family_is_the_names_and_their_variants(
    name: Seq<char>,
    map: Seq<(Seq<char>, Seq<Seq<char>>)>,
    at: int,
    x: Seq<char>,
)
    requires
        is_first_with(map, canonical_name(name), at),
    ensures
        name_family(name, map).contains(x) <==> is_variant_of(x, name) || exists|i: int|
            0 <= i < map[at].1.len() && is_variant_of(x, #[trigger] map[at].1[i]),
{
    law_first_pair_counts(map, canonical_name(name), at);
    lemma_with_variants_distinct(Seq::empty(), map[at].1);
    lemma_with_variants_holds(map[at].1, x);
    lemma_with_new_distinct(with_variants(Seq::empty(), map[at].1), name_variants(name));
    lemma_variants(x, name);
}

/// The family of a wheel that the map does not know is its own name and its
/// variants.
pub proof fn law_unmapped_family_is_the_name(
    name: Seq<char>,
    map: Seq<(Seq<char>, Seq<Seq<char>>)>,
    x: Seq<char>,
)
    requires
        lacks(map, canonical_name(name)),
    ensures
        name_family(name, map).contains(x) <==> is_variant_of(x, name),
        name_family(name, map)[0] == name,
{
    lemma_lookup_found(map, canonical_name(name));
    lemma_with_new_distinct(Seq::empty(), name_variants(name));
    lemma_variants(x, name);
    lemma_with_new_starts(Seq::empty(), name_variants(name));
}

proof fn lemma_with_new_starts(out: Seq<Seq<char>>, names: Seq<Seq<char>>)
    ensures
        with_new(out, names).len() >= out.len(),
        forall|i: int| 0 <= i < out.len() ==> #[trigger] with_new(out, names)[i] == out[i],
        out.len() == 0 && names.len() > 0 ==> with_new(out, names).len() > 0 && with_new(
            out,
            names,
        )[0] == names[0],
    decreases names.len(),
{
    if names.len() > 0 {
        lemma_with_new_starts(out, names.drop_last());
    }
}

proof fn lemma_with_variants_starts(names: Seq<Seq<char>>)
    ensures
        names.len() > 0 ==> with_variants(Seq::empty(), names).len() > 0 && with_variants(
            Seq::empty(),
            names,
        )[0] == names[0],
    decreases names.len(),
{
    if names.len() > 0 {
        let short = names.drop_last();
        lemma_with_variants_starts(short);
        lemma_with_new_starts(with_variants(Seq::empty(), short), name_variants(names.last()));
        assert(name_variants(names.last())[0] == names.last());
    }
}

/// The family begins with the first conda name that the map gives for a wheel.
pub proof fn law_mapped_name_comes_first(
    name: Seq<char>,
    map: Seq<(Seq<char>, Seq<Seq<char>>)>,
    at: int,
)
    requires
        is_first_with(map, canonical_name(name), at),
        map[at].1.len() > 0,
    ensures
        name_family(name, map)[0] == map[at].1[0],
{
    law_first_pair_counts(map, canonical_name(name), at);
    lemma_with_variants_starts(map[at].1);
    lemma_with_new_starts(with_variants(Seq::empty(), map[at].1), name_variants(name));
}

} // verus!
