//! The conda solver, and what it is told of the machine.
use crate::text::{chars_of, contains, holds_text, occurs, push_view, text_eq};
use crate::versions::{parse_fault, version_fault};
use rattler_conda_types::package::BuildString;
use rattler_conda_types::{
    GenericVirtualPackage, MatchSpec, MatchSpecCondition, PackageName, PackageNameMatcher,
    ParseMatchSpecOptions, ParseStrictness, RepoDataRecord, RepodataRevision, Version,
};
use rattler_solve::resolvo::Solver;
use rattler_solve::{ChannelPriority, SolveError, SolveStrategy, SolverImpl, SolverTask};
use std::str::FromStr;
use std::time::Duration;
use vstd::prelude::*;

verus! {

broadcast use vstd::seq_lib::group_seq_properties;

// ---------------------------------------------------------------------------
// What is told of the machine
// ---------------------------------------------------------------------------

/// A package that stands for a property of the machine.
#[derive(Debug)]
pub struct VirtualPackage {
    pub name: String,
    pub version: String,
    pub build_string: String,
}

/// What a `VirtualPackage` says.
#[verifier::ext_equal]
pub struct VirtualView {
    pub name: Seq<char>,
    pub version: Seq<char>,
    pub build_string: Seq<char>,
}

impl DeepView for VirtualPackage {
    type V = VirtualView;

    open spec fn deep_view(&self) -> VirtualView {
        VirtualView {
            name: self.name@,
            version: self.version@,
            build_string: self.build_string@,
        }
    }
}

impl Clone for VirtualPackage {
    fn clone(&self) -> (r: Self)
        ensures
            r.deep_view() == self.deep_view(),
    {
        VirtualPackage {
            name: self.name.clone(),
            version: self.version.clone(),
            build_string: self.build_string.clone(),
        }
    }
}

/// Whether a machine may be found to have these packages. Machines differ, and one
/// machine changes.
pub uninterp spec fn host_may_report(host: Seq<VirtualView>) -> bool;

/// `rattler_virtual_packages::VirtualPackage::detect`, with no overrides and no
/// cache: what it finds on this machine, and nothing where it fails. That depends on
/// the machine, so nothing is claimed of it but that it was found.
#[verifier::external_body]
fn detect_host() -> (r: Vec<VirtualPackage>)
    ensures
        host_may_report(r.deep_view()),
{
    let overrides = rattler_virtual_packages::VirtualPackageOverrides::default();
    let found = rattler_virtual_packages::VirtualPackage::detect(&overrides, None);
    let generic = found.unwrap_or_default().into_iter().map(GenericVirtualPackage::from);
    let plain = generic.map(|p| VirtualPackage {
        name: p.name.as_normalized().to_string(),
        version: p.version.to_string(),
        build_string: p.build_string.to_string(),
    });
    plain.collect()
}

/// The packages without those of this name.
pub open spec fn without_name(list: Seq<VirtualView>, name: Seq<char>) -> Seq<VirtualView>
    decreases list.len(),
{
    if list.len() == 0 {
        list
    } else {
        let before = without_name(list.drop_last(), name);
        if list.last().name == name {
            before
        } else {
            before.push(list.last())
        }
    }
}

/// The packages with one in place of all of its name.
pub open spec fn with_virtual(list: Seq<VirtualView>, p: VirtualView) -> Seq<VirtualView> {
    without_name(list, p.name).push(p)
}

/// The virtual package that a system requirement is about, and whether its value is
/// a build string whatever it looks like.
pub open spec fn requirement_name(key: Seq<char>) -> Option<(Seq<char>, bool)> {
    if key == "cuda"@ {
        Some(("__cuda"@, false))
    } else if key == "libc"@ || key == "glibc"@ {
        Some(("__glibc"@, false))
    } else if key == "macos"@ || key == "osx"@ {
        Some(("__osx"@, false))
    } else if key == "archspec"@ {
        Some(("__archspec"@, true))
    } else if key == "linux"@ {
        Some(("__linux"@, false))
    } else {
        None
    }
}

/// The virtual package of a system requirement: the value is its version, or its
/// build string where it is no version.
pub open spec fn required_virtual(key: Seq<char>, value: Seq<char>) -> Option<VirtualView> {
    match requirement_name(key) {
        None => None,
        Some((name, is_build)) => if !is_build && version_fault(value) is None {
            Some(VirtualView { name, version: value, build_string: ""@ })
        } else if version_fault("1.0"@) is None {
            Some(VirtualView { name, version: "1.0"@, build_string: value })
        } else {
            None
        },
    }
}

/// The packages with those of the system requirements, in their order.
pub open spec fn with_requirements(
    list: Seq<VirtualView>,
    requirements: Seq<(Seq<char>, Seq<char>)>,
) -> Seq<VirtualView>
    decreases requirements.len(),
{
    if requirements.len() == 0 {
        list
    } else {
        let before = with_requirements(list, requirements.drop_last());
        match required_virtual(requirements.last().0, requirements.last().1) {
            Some(p) => with_virtual(before, p),
            None => before,
        }
    }
}

/// What the solver is told of a machine that has `host`: the workspace's python and
/// system requirements come before what the machine has.
pub open spec fn virtual_packages(
    host: Seq<VirtualView>,
    target_python: Seq<char>,
    requirements: Seq<(Seq<char>, Seq<char>)>,
) -> Seq<VirtualView> {
    let start = if version_fault(target_python) is None {
        with_virtual(
            host,
            VirtualView { name: "__cpython"@, version: target_python, build_string: ""@ },
        )
    } else {
        host
    };
    with_requirements(start, requirements)
}

fn put_virtual(list: Vec<VirtualPackage>, p: VirtualPackage) -> (r: Vec<VirtualPackage>)
    ensures
        r.deep_view() == with_virtual(list.deep_view(), p.deep_view()),
{
    let ghost all = list.deep_view();
    let ghost name = p.name@;
    let mut out: Vec<VirtualPackage> = Vec::new();
    let n: usize = list.len();
    let mut i: usize = 0;
    assert(out.deep_view() =~= without_name(all.take(0), name));
    while i < n
        invariant
            i <= n,
            n == list@.len(),
            all == list.deep_view(),
            name == p.name@,
            out.deep_view() == without_name(all.take(i as int), name),
        decreases n - i,
    {
        assert(all[i as int] == list@[i as int].deep_view());
        assert(all.take(i + 1).drop_last() =~= all.take(i as int));
        if !text_eq(&list[i].name, &p.name) {
            push_view(&mut out, list[i].clone());
        }
        i = i + 1;
    }
    assert(all.take(n as int) =~= all);
    push_view(&mut out, p);
    out
}

fn name_of_requirement(key: &str) -> (r: Option<(String, bool)>)
    ensures
        r.deep_view() == requirement_name(key@),
{
    if text_eq(key, "cuda") {
        Some(("__cuda".to_owned(), false))
    } else if text_eq(key, "libc") || text_eq(key, "glibc") {
        Some(("__glibc".to_owned(), false))
    } else if text_eq(key, "macos") || text_eq(key, "osx") {
        Some(("__osx".to_owned(), false))
    } else if text_eq(key, "archspec") {
        Some(("__archspec".to_owned(), true))
    } else if text_eq(key, "linux") {
        Some(("__linux".to_owned(), false))
    } else {
        None
    }
}

fn virtual_of_requirement(key: &str, value: &str) -> (r: Option<VirtualPackage>)
    ensures
        r.deep_view() == required_virtual(key@, value@),
{
    match name_of_requirement(key) {
        None => None,
        Some((name, is_build)) => {
            if !is_build && parse_fault(value).is_none() {
                return Some(
                    VirtualPackage {
                        name,
                        version: value.to_owned(),
                        build_string: "".to_owned(),
                    },
                );
            }
            if parse_fault("1.0").is_some() {
                return None;
            }
            Some(
                VirtualPackage {
                    name,
                    version: "1.0".to_owned(),
                    build_string: value.to_owned(),
                },
            )
        },
    }
}

/// What the solver is told of a machine that has `host`.
pub fn virtual_packages_over(
    host: Vec<VirtualPackage>,
    target_python: &str,
    system_requirements: &Vec<(String, String)>,
) -> (r: Vec<VirtualPackage>)
    ensures
        r.deep_view() == virtual_packages(
            host.deep_view(),
            target_python@,
            system_requirements.deep_view(),
        ),
{
    let mut out: Vec<VirtualPackage> = host;
    if parse_fault(target_python).is_none() {
        out = put_virtual(
            out,
            VirtualPackage {
                name: "__cpython".to_owned(),
                version: target_python.to_owned(),
                build_string: "".to_owned(),
            },
        );
    }
    let ghost start = out.deep_view();
    let ghost all = system_requirements.deep_view();
    let n: usize = system_requirements.len();
    let mut i: usize = 0;
    assert(with_requirements(start, all.take(0)) =~= start);
    while i < n
        invariant
            i <= n,
            n == system_requirements@.len(),
            all == system_requirements.deep_view(),
            out.deep_view() == with_requirements(start, all.take(i as int)),
        decreases n - i,
    {
        assert(all[i as int] == system_requirements@[i as int].deep_view());
        assert(all.take(i + 1).drop_last() =~= all.take(i as int));
        match virtual_of_requirement(&system_requirements[i].0, &system_requirements[i].1) {
            Some(p) => {
                out = put_virtual(out, p);
            },
            None => {},
        }
        i = i + 1;
    }
    assert(all.take(n as int) =~= all);
    out
}

/// What the solver is told of this machine.
pub fn build_virtual_packages(
    target_python: &str,
    system_requirements: &Vec<(String, String)>,
) -> (r: Vec<VirtualPackage>)
    ensures
        exists|host: Seq<VirtualView>|
            host_may_report(host) && r.deep_view() == #[trigger] virtual_packages(
                host,
                target_python@,
                system_requirements.deep_view(),
            ),
{
    let host = detect_host();
    let ghost h = host.deep_view();
    let r = virtual_packages_over(host, target_python, system_requirements);
    assert(r.deep_view() == virtual_packages(h, target_python@, system_requirements.deep_view()));
    r
}

/// How many packages of a name there are.
pub open spec fn count_named(list: Seq<VirtualView>, name: Seq<char>) -> nat
    decreases list.len(),
{
    if list.len() == 0 {
        0
    } else {
        count_named(list.drop_last(), name) + if list.last().name == name {
            1nat
        } else {
            0nat
        }
    }
}

/// A system requirement replaces what the machine has: there is one package of its
/// name, whatever was there before.
pub proof fn law_requirement_replaces(list: Seq<VirtualView>, p: VirtualView)
    ensures
        count_named(with_virtual(list, p), p.name) == 1,
        with_virtual(list, p).last() == p,
{
    lemma_without_name(list, p.name);
    assert(with_virtual(list, p).drop_last() =~= without_name(list, p.name));
}

proof fn lemma_without_name(list: Seq<VirtualView>, name: Seq<char>)
    ensures
        count_named(without_name(list, name), name) == 0,
    decreases list.len(),
{
    if list.len() > 0 {
        lemma_without_name(list.drop_last(), name);
        let before = without_name(list.drop_last(), name);
        assert(before.push(list.last()).drop_last() =~= before);
    }
}

/// A key that is not known changes nothing.
pub proof fn law_unknown_requirement_is_ignored(
    list: Seq<VirtualView>,
    requirements: Seq<(Seq<char>, Seq<char>)>,
    key: Seq<char>,
    value: Seq<char>,
)
    requires
        requirement_name(key) is None,
    ensures
        with_requirements(list, requirements.push((key, value))) == with_requirements(
            list,
            requirements,
        ),
{
    assert(requirements.push((key, value)).drop_last() =~= requirements);
}

// ---------------------------------------------------------------------------
// Specs
// ---------------------------------------------------------------------------

#[verifier::external_type_specification]
#[verifier::external_body]
pub struct ExMatchSpec(rattler_conda_types::MatchSpec);

/// Whether a text may read as this spec, or as none. A channel that is written as a
/// path is read from the directory that the program runs in.
pub uninterp spec fn spec_may_read(text: Seq<char>, read: Option<MatchSpec>) -> bool;

/// `rattler_conda_types::MatchSpec::from_str` with `ParseStrictness::Lenient`: the
/// spec that it gives, if any. It goes by the text, and for a channel that is written
/// as a path by the program's surroundings too, so what it gives is one of the
/// readings that the text may have.
#[verifier::external_body]
fn read_spec(text: &str) -> (r: Option<MatchSpec>)
    ensures
        spec_may_read(text@, r),
{
    MatchSpec::from_str(text, ParseStrictness::Lenient).ok()
}

/// Whether the name in a spec is exact, and whether the spec is under no condition.
pub uninterp spec fn spec_shape(spec: MatchSpec) -> (bool, bool);

/// The fields `name` and `condition` of `rattler_conda_types::MatchSpec`: whether the
/// name is `PackageNameMatcher::Exact`, and whether there is no condition. A name that
/// was read off the file name of a URL need not be exact.
#[verifier::external_body]
fn shape_of(spec: &MatchSpec) -> (r: (bool, bool))
    ensures
        r == spec_shape(*spec),
{
    (matches!(spec.name, PackageNameMatcher::Exact(_)), spec.condition.is_none())
}

/// How a spec is written out.
pub uninterp spec fn spec_text(spec: MatchSpec) -> Seq<char>;

/// `to_string` on a `rattler_conda_types::MatchSpec`.
#[verifier::external_body]
fn text_of_spec(spec: &MatchSpec) -> (r: String)
    ensures
        r@ == spec_text(*spec),
{
    spec.to_string()
}

/// Whether the texts may read as these specs, each as one or as none.
pub open spec fn may_read(texts: Seq<Seq<char>>, read: Seq<Option<MatchSpec>>) -> bool {
    &&& read.len() == texts.len()
    &&& forall|i: int| 0 <= i < texts.len() ==> spec_may_read(texts[i], #[trigger] read[i])
}

/// The specs that the texts read as, in their order; those that are no specs are left
/// out.
pub fn parse_match_specs(specs: &Vec<String>) -> (r: Vec<MatchSpec>)
    ensures
        exists|read: Seq<Option<MatchSpec>>| #[trigger]
            may_read(specs.deep_view(), read) && r@ == read.filter_map(
                |s: Option<MatchSpec>| s,
            ),
{
    let ghost all = specs.deep_view();
    let ghost f = |s: Option<MatchSpec>| s;
    let ghost mut read: Seq<Option<MatchSpec>> = Seq::empty();
    let mut out: Vec<MatchSpec> = Vec::new();
    let n: usize = specs.len();
    let mut i: usize = 0;
    assert(out@ =~= read.filter_map(f));
    while i < n
        invariant
            i <= n,
            n == specs@.len(),
            all == specs.deep_view(),
            f == (|s: Option<MatchSpec>| s),
            read.len() == i,
            forall|k: int| 0 <= k < i ==> spec_may_read(all[k], #[trigger] read[k]),
            out@ == read.filter_map(f),
        decreases n - i,
    {
        assert(all[i as int] == specs@[i as int].deep_view());
        let one = read_spec(&specs[i]);
        proof {
            let longer = read.push(one);
            longer.lemma_filter_map_take_succ(f, i as int);
            assert(longer.take(i as int) =~= read);
            assert(longer.take(i + 1) =~= longer);
            if one is None {
                assert(longer.filter_map(f) =~= read.filter_map(f));
            }
            read = longer;
        }
        match one {
            Some(spec) => {
                out.push(spec);
            },
            None => {},
        }
        i = i + 1;
    }
    assert(may_read(all, read));
    out
}

/// Whether the solver can be asked for a spec: it names its package exactly, and is
/// under no condition.
pub open spec fn can_be_asked(spec: MatchSpec) -> bool {
    spec_shape(spec) == (true, true)
}

/// The first spec from `from` on that the solver cannot be asked for.
pub open spec fn first_unasked(specs: Seq<MatchSpec>, from: int) -> Option<MatchSpec>
    decreases specs.len() - from,
{
    if from < 0 || from >= specs.len() {
        None
    } else if can_be_asked(specs[from]) {
        first_unasked(specs, from + 1)
    } else {
        Some(specs[from])
    }
}

/// Why there is no selection where the solver cannot be asked for a spec.
pub open spec fn unasked_reason(spec: MatchSpec) -> Seq<char> {
    "solver error: the spec `"@ + spec_text(spec) + "` does not name one package exactly"@
}

fn find_unasked(specs: &Vec<MatchSpec>) -> (r: Option<String>)
    ensures
        match r {
            Some(reason) => first_unasked(specs@, 0) matches Some(spec) && reason@
                == unasked_reason(spec),
            None => first_unasked(specs@, 0) is None && forall|i: int|
                0 <= i < specs@.len() ==> can_be_asked(#[trigger] specs@[i]),
        },
{
    let n: usize = specs.len();
    let mut i: usize = 0;
    while i < n
        invariant
            i <= n,
            n == specs@.len(),
            first_unasked(specs@, 0) == first_unasked(specs@, i as int),
            forall|k: int| 0 <= k < i ==> can_be_asked(#[trigger] specs@[k]),
        decreases n - i,
    {
        let (exact, unconditional): (bool, bool) = shape_of(&specs[i]);
        if !(exact && unconditional) {
            let mut reason: String = "solver error: the spec `".to_owned();
            reason.append(&text_of_spec(&specs[i]));
            reason.append("` does not name one package exactly");
            return Some(reason);
        }
        i = i + 1;
    }
    None
}

// ---------------------------------------------------------------------------
// Dependencies of records
// ---------------------------------------------------------------------------

#[verifier::external_type_specification]
#[verifier::external_body]
pub struct ExRepoDataRecord(rattler_conda_types::RepoDataRecord);

#[verifier::external_type_specification]
#[verifier::external_body]
pub struct ExMatchSpecCondition(rattler_conda_types::MatchSpecCondition);

/// How many colons a text has.
pub open spec fn colons(text: Seq<char>) -> nat
    decreases text.len(),
{
    if text.len() == 0 {
        0
    } else {
        colons(text.drop_last()) + if text.last() == ':' {
            1nat
        } else {
            0nat
        }
    }
}

/// Whether a text names no channel by a path. A channel stands before two colons, or
/// under a key of its own in brackets; and a path has a slash or begins with two dots.
pub open spec fn is_settled(text: Seq<char>) -> bool {
    ||| colons(text) < 2 && !occurs(text, "channel"@)
    ||| !occurs(text, "/"@) && !occurs(text, "\\"@) && !occurs(text, ".."@) && !occurs(text, "["@)
}

fn settled(text: &str) -> (r: bool)
    ensures
        r == is_settled(text@),
{
    let v = chars_of(text);
    let n: usize = v.len();
    let mut count: usize = 0;
    let mut i: usize = 0;
    assert(v@.take(0) =~= Seq::<char>::empty());
    while i < n
        invariant
            i <= n,
            n == v@.len(),
            count <= i,
            count == colons(v@.take(i as int)),
        decreases n - i,
    {
        assert(v@.take(i + 1).drop_last() =~= v@.take(i as int));
        if v[i] == ':' {
            count = count + 1;
        }
        i = i + 1;
    }
    assert(v@.take(n as int) =~= text@);
    (count < 2 && !contains(text, "channel")) || (!contains(text, "/") && !contains(text, "\\")
        && !contains(text, "..") && !contains(text, "["))
}

/// How a text that names no channel by a path reads as a dependency of a record, where
/// it does: whether it names the package exactly, and the condition that it holds
/// under.
pub uninterp spec fn dependency_read(text: Seq<char>) -> Option<
    (bool, Option<MatchSpecCondition>),
>;

/// `rattler_conda_types::MatchSpec::from_str`, lenient and with the syntax of the
/// third revision of repodata, which is how the solver reads what the records depend
/// on: whether the name in the spec is exact, and its condition. It goes by the text
/// alone, but for a channel that is written as a path.
#[verifier::external_body]
fn read_dependency(text: &str) -> (r: Option<(bool, Option<MatchSpecCondition>)>)
    requires
        is_settled(text@),
    ensures
        r == dependency_read(text@),
{
    let options = ParseMatchSpecOptions::lenient().with_repodata_revision(RepodataRevision::V3);
    let read = MatchSpec::from_str(text, options).ok();
    read.map(|s| (matches!(s.name, PackageNameMatcher::Exact(_)), s.condition))
}

/// What a condition is made of.
#[derive(Debug)]
pub enum ConditionParts {
    /// A spec that is to be met, as it is written.
    Leaf(String),
    /// Two conditions, of which both or one are to hold.
    Two(MatchSpecCondition, MatchSpecCondition),
}

/// What a `ConditionParts` says.
pub enum PartsView {
    Leaf(Seq<char>),
    Two(MatchSpecCondition, MatchSpecCondition),
}

impl DeepView for ConditionParts {
    type V = PartsView;

    open spec fn deep_view(&self) -> PartsView {
        match *self {
            ConditionParts::Leaf(text) => PartsView::Leaf(text@),
            ConditionParts::Two(a, b) => PartsView::Two(a, b),
        }
    }
}

/// What a condition is made of.
pub uninterp spec fn condition_parts(c: MatchSpecCondition) -> PartsView;

/// The variants of `rattler_conda_types::MatchSpecCondition`: the spec of a leaf, by
/// its `to_string`, or the two conditions that are joined.
#[verifier::external_body]
fn parts_of_condition(c: MatchSpecCondition) -> (r: ConditionParts)
    ensures
        r.deep_view() == condition_parts(c),
{
    match c {
        MatchSpecCondition::MatchSpec(s) => ConditionParts::Leaf(s.to_string()),
        MatchSpecCondition::And(a, b) => ConditionParts::Two(*a, *b),
        MatchSpecCondition::Or(a, b) => ConditionParts::Two(*a, *b),
    }
}

/// Whether the solver can read a condition that is no more than `depth` deep: each of
/// its leaves names a package exactly, and is under no condition itself.
pub open spec fn is_sound_condition(c: MatchSpecCondition, depth: nat) -> bool
    decreases depth,
{
    depth > 0 && match condition_parts(c) {
        PartsView::Leaf(text) => is_settled(text) && dependency_read(text) == Some(
            (true, None::<MatchSpecCondition>),
        ),
        PartsView::Two(a, b) => is_sound_condition(a, (depth - 1) as nat) && is_sound_condition(
            b,
            (depth - 1) as nat,
        ),
    }
}

/// Whether the solver can read a dependency, or sees that it cannot, wherever the
/// program runs. A condition is never deeper than its text is long.
pub open spec fn is_sound_dependency(text: Seq<char>) -> bool {
    is_settled(text) && match dependency_read(text) {
        None => true,
        Some((exact, condition)) => exact && match condition {
            None => true,
            Some(c) => is_sound_condition(c, text.len()),
        },
    }
}

fn sound_condition(c: MatchSpecCondition, depth: usize) -> (r: bool)
    ensures
        r == is_sound_condition(c, depth as nat),
    decreases depth,
{
    if depth == 0 {
        return false;
    }
    match parts_of_condition(c) {
        ConditionParts::Leaf(text) => settled(&text) && matches!(
            read_dependency(&text),
            Some((true, None))
        ),
        ConditionParts::Two(a, b) => sound_condition(a, depth - 1) && sound_condition(
            b,
            depth - 1,
        ),
    }
}

fn sound_dependency(text: &str) -> (r: bool)
    ensures
        r == is_sound_dependency(text@),
{
    settled(text) && match read_dependency(text) {
        None => true,
        Some((exact, condition)) => exact && match condition {
            None => true,
            Some(c) => sound_condition(c, chars_of(text).len()),
        },
    }
}

/// The texts of what a record depends on.
pub uninterp spec fn record_dependencies(record: RepoDataRecord) -> Seq<Seq<char>>;

/// The fields `depends`, `constrains` and `extra_depends` of
/// `rattler_conda_types::PackageRecord`, one behind the other: all the texts that the
/// solver reads as dependencies of a record.
#[verifier::external_body]
fn dependencies_of(record: &RepoDataRecord) -> (r: Vec<String>)
    ensures
        r.deep_view() == record_dependencies(*record),
{
    let r = &record.package_record;
    let extra = r.extra_depends.values().flatten();
    r.depends.iter().chain(&r.constrains).chain(extra).cloned().collect()
}

/// Whether the solver can read all that a record depends on.
pub open spec fn is_sound_record(record: RepoDataRecord) -> bool {
    forall|i: int|
        0 <= i < record_dependencies(record).len() ==> is_sound_dependency(
            #[trigger] record_dependencies(record)[i],
        )
}

fn sound_record(record: &RepoDataRecord) -> (r: bool)
    ensures
        r == is_sound_record(*record),
{
    let texts = dependencies_of(record);
    let ghost all = texts.deep_view();
    let n: usize = texts.len();
    let mut i: usize = 0;
    while i < n
        invariant
            i <= n,
            n == texts@.len(),
            all == texts.deep_view(),
            all == record_dependencies(*record),
            forall|k: int| 0 <= k < i ==> is_sound_dependency(#[trigger] all[k]),
        decreases n - i,
    {
        assert(all[i as int] == texts@[i as int].deep_view());
        if !sound_dependency(&texts[i]) {
            assert(!is_sound_dependency(record_dependencies(*record)[i as int]));
            return false;
        }
        i = i + 1;
    }
    true
}

/// Those of the records whose dependencies the solver can read, in their order.
pub open spec fn sound_records(records: Seq<RepoDataRecord>) -> Seq<RepoDataRecord>
    decreases records.len(),
{
    if records.len() == 0 {
        records
    } else {
        let before = sound_records(records.drop_last());
        if is_sound_record(records.last()) {
            before.push(records.last())
        } else {
            before
        }
    }
}

fn records_to_offer(records: &Vec<RepoDataRecord>) -> (r: Vec<&RepoDataRecord>)
    ensures
        r@.unref() == sound_records(records@),
        forall|i: int| 0 <= i < r@.len() ==> is_sound_record(*#[trigger] r@[i]),
        forall|i: int| 0 <= i < r@.len() ==> records@.contains(*#[trigger] r@[i]),
{
    let ghost all = records@;
    let mut out: Vec<&RepoDataRecord> = Vec::new();
    let n: usize = records.len();
    let mut i: usize = 0;
    assert(out@.unref() =~= sound_records(all.take(0)));
    while i < n
        invariant
            i <= n,
            n == records@.len(),
            all == records@,
            out@.unref() == sound_records(all.take(i as int)),
            forall|k: int| 0 <= k < out@.len() ==> is_sound_record(*#[trigger] out@[k]),
            forall|k: int| 0 <= k < out@.len() ==> all.contains(*#[trigger] out@[k]),
        decreases n - i,
    {
        assert(all.take(i + 1).drop_last() =~= all.take(i as int));
        if sound_record(&records[i]) {
            let ghost before = out@.unref();
            out.push(&records[i]);
            assert(out@.unref() =~= before.push(all[i as int]));
        }
        i = i + 1;
    }
    assert(all.take(n as int) =~= all);
    out
}

// ---------------------------------------------------------------------------
// Solving
// ---------------------------------------------------------------------------

#[verifier::external_type_specification]
#[verifier::external_body]
pub struct ExChannelPriority(rattler_solve::ChannelPriority);

#[verifier::external_type_specification]
#[verifier::external_body]
pub struct ExSolveStrategy(rattler_solve::SolveStrategy);

/// How the solver failed.
#[derive(Debug)]
pub enum SolverFailure {
    /// There is no solution; why.
    Unsolvable(Vec<String>),
    /// Something else went wrong.
    Other(String),
}

/// What a `SolverFailure` says.
pub enum FailureView {
    Unsolvable(Seq<Seq<char>>),
    Other(Seq<char>),
}

impl DeepView for SolverFailure {
    type V = FailureView;

    open spec fn deep_view(&self) -> FailureView {
        match *self {
            SolverFailure::Unsolvable(reasons) => FailureView::Unsolvable(reasons.deep_view()),
            SolverFailure::Other(text) => FailureView::Other(text@),
        }
    }
}

/// The reasons that are given of a failure.
pub open spec fn failure_reasons(f: FailureView) -> Seq<Seq<char>> {
    match f {
        FailureView::Unsolvable(reasons) => reasons,
        FailureView::Other(text) => seq!["solver error: "@ + text],
    }
}

/// The reasons that are given of a failure.
pub fn reasons_of(f: SolverFailure) -> (r: Vec<String>)
    ensures
        r.deep_view() == failure_reasons(f.deep_view()),
{
    match f {
        SolverFailure::Unsolvable(reasons) => reasons,
        SolverFailure::Other(text) => {
            let v: Vec<String> = vec!["solver error: ".to_owned().concat(&text)];
            assert(v.deep_view() =~= seq!["solver error: "@ + text@]);
            v
        },
    }
}

/// Whether the solver may give this answer when it is asked this. There may be several
/// answers to the same question: the solver gives up when its time is over.
pub uninterp spec fn solver_may_answer(
    specs: Seq<MatchSpec>,
    records: Seq<RepoDataRecord>,
    virtuals: Seq<VirtualView>,
    seconds: u64,
    channel_priority: ChannelPriority,
    strategy: SolveStrategy,
    answer: Result<Seq<RepoDataRecord>, FailureView>,
) -> bool;

/// What the solver answered.
pub open spec fn answer_view(r: Result<Vec<RepoDataRecord>, SolverFailure>) -> Result<
    Seq<RepoDataRecord>,
    FailureView,
> {
    match r {
        Ok(selected) => Ok(selected@),
        Err(f) => Err(f.deep_view()),
    }
}

/// `rattler_solve::resolvo::Solver::solve`, on a task with these specs, records,
/// virtual packages, time limit, channel priority and strategy, and nothing else set:
/// the answer is one that it may give when it is asked that. What it selects are
/// records that it was handed. It panics on a spec or a dependency that does not name
/// its package exactly and on a condition under a condition, so these are not handed to
/// it. Which records it selects, and whether it selects any, depends on the time that
/// it is given, and is not claimed.
#[verifier::external_body]
fn run_solver(
    specs: &Vec<MatchSpec>,
    records: Vec<&RepoDataRecord>,
    virtuals: &Vec<VirtualPackage>,
    seconds: u64,
    channel_priority: ChannelPriority,
    strategy: SolveStrategy,
) -> (r: Result<Vec<RepoDataRecord>, SolverFailure>)
    requires
        forall|i: int| 0 <= i < specs@.len() ==> can_be_asked(#[trigger] specs@[i]),
        forall|i: int| 0 <= i < records@.len() ==> is_sound_record(*#[trigger] records@[i]),
        forall|i: int|
            0 <= i < virtuals@.len() ==> version_fault((#[trigger] virtuals@[i]).version@) is None,
        seconds <= 86400,
    ensures
        solver_may_answer(
            specs@,
            records@.unref(),
            virtuals.deep_view(),
            seconds,
            channel_priority,
            strategy,
            answer_view(r),
        ),
        r matches Ok(selected) ==> forall|i: int|
            0 <= i < selected@.len() ==> records@.unref().contains(#[trigger] selected@[i]),
{
    let mut task = SolverTask::from_iter([records]);
    task.specs = specs.clone();
    task.virtual_packages = virtuals.iter().map(|v| GenericVirtualPackage {
        name: PackageName::new_unchecked(&v.name),
        version: Version::from_str(&v.version).unwrap(),
        build_string: BuildString::new_unchecked(&*v.build_string),
    }).collect();
    task.timeout = Some(Duration::from_secs(seconds));
    task.channel_priority = channel_priority;
    task.strategy = strategy;
    Solver.solve(task).map(|s| s.records).map_err(|e| match e {
        SolveError::Unsolvable(reasons) => SolverFailure::Unsolvable(reasons),
        other => SolverFailure::Other(other.to_string()),
    })
}

/// Those of the packages whose version can be read, in their order.
pub open spec fn with_versions_only(list: Seq<VirtualView>) -> Seq<VirtualView>
    decreases list.len(),
{
    if list.len() == 0 {
        list
    } else {
        let before = with_versions_only(list.drop_last());
        if version_fault(list.last().version) is None {
            before.push(list.last())
        } else {
            before
        }
    }
}

fn readable_virtuals(list: Vec<VirtualPackage>) -> (r: Vec<VirtualPackage>)
    ensures
        r.deep_view() == with_versions_only(list.deep_view()),
        forall|i: int|
            0 <= i < r@.len() ==> version_fault((#[trigger] r@[i]).version@) is None,
{
    let ghost all = list.deep_view();
    let mut out: Vec<VirtualPackage> = Vec::new();
    let n: usize = list.len();
    let mut i: usize = 0;
    assert(out.deep_view() =~= with_versions_only(all.take(0)));
    while i < n
        invariant
            i <= n,
            n == list@.len(),
            all == list.deep_view(),
            out.deep_view() == with_versions_only(all.take(i as int)),
            forall|k: int|
                0 <= k < out@.len() ==> version_fault((#[trigger] out@[k]).version@) is None,
        decreases n - i,
    {
        assert(all[i as int] == list@[i as int].deep_view());
        assert(all.take(i + 1).drop_last() =~= all.take(i as int));
        if parse_fault(&list[i].version).is_none() {
            let p = list[i].clone();
            assert(p.deep_view().version == all[i as int].version);
            push_view(&mut out, p);
        }
        i = i + 1;
    }
    assert(all.take(n as int) =~= all);
    out
}

/// Whether the solver may give this answer when it is asked, on a machine that has
/// `host`, for the specs. It is offered those of the records whose dependencies it can
/// read, is told of the machine what has a version that can be read, and has a minute.
pub open spec fn may_be_answered(
    specs: Seq<MatchSpec>,
    records: Seq<RepoDataRecord>,
    host: Seq<VirtualView>,
    target_python: Seq<char>,
    requirements: Seq<(Seq<char>, Seq<char>)>,
    channel_priority: ChannelPriority,
    strategy: SolveStrategy,
    answer: Result<Seq<RepoDataRecord>, FailureView>,
) -> bool {
    host_may_report(host) && solver_may_answer(
        specs,
        sound_records(records),
        with_versions_only(virtual_packages(host, target_python, requirements)),
        60,
        channel_priority,
        strategy,
        answer,
    )
}

/// Whether a selection is the solver's answer: the records that it selected, or the
/// reasons of its failure.
pub open spec fn is_selection_of(
    r: Result<Vec<RepoDataRecord>, Vec<String>>,
    answer: Result<Seq<RepoDataRecord>, FailureView>,
) -> bool {
    match answer {
        Ok(selected) => r matches Ok(records) && records@ == selected,
        Err(f) => r matches Err(reasons) && reasons.deep_view() == failure_reasons(f),
    }
}

/// The records that the solver answered with, or the reasons of its failure.
pub fn selection_of(answer: Result<Vec<RepoDataRecord>, SolverFailure>) -> (r: Result<
    Vec<RepoDataRecord>,
    Vec<String>,
>)
    ensures
        is_selection_of(r, answer_view(answer)),
{
    match answer {
        Ok(records) => Ok(records),
        Err(f) => Err(reasons_of(f)),
    }
}

/// The packages that the solver selects for the specs out of `all_records`, or why
/// there is no selection. The solver decides which; it has a minute. A record whose
/// dependencies it cannot read is not offered to it, and where it cannot be asked for
/// one of the specs it is not asked.
pub fn solve_selected_records_from_records(
    specs: &Vec<MatchSpec>,
    all_records: &Vec<RepoDataRecord>,
    target_python: &str,
    channel_priority: ChannelPriority,
    system_requirements: &Vec<(String, String)>,
    strategy: SolveStrategy,
) -> (r: Result<Vec<RepoDataRecord>, Vec<String>>)
    ensures
        match first_unasked(specs@, 0) {
            Some(spec) => r matches Err(reasons) && reasons.deep_view() == seq![
                unasked_reason(spec),
            ],
            None => exists|
                host: Seq<VirtualView>,
                answer: Result<Seq<RepoDataRecord>, FailureView>,
            |
                {
                    &&& #[trigger] may_be_answered(
                        specs@,
                        all_records@,
                        host,
                        target_python@,
                        system_requirements.deep_view(),
                        channel_priority,
                        strategy,
                        answer,
                    )
                    &&& is_selection_of(r, answer)
                },
        },
        r matches Ok(selected) ==> forall|i: int|
            0 <= i < selected@.len() ==> all_records@.contains(#[trigger] selected@[i]),
{
    match find_unasked(specs) {
        Some(reason) => {
            let ghost told = reason@;
            let reasons: Vec<String> = vec![reason];
            assert(reasons.deep_view() =~= seq![told]);
            return Err(reasons);
        },
        None => {},
    }
    let offered = records_to_offer(all_records);
    let all = build_virtual_packages(target_python, system_requirements);
    let ghost told = all.deep_view();
    let ghost requirements = system_requirements.deep_view();
    let ghost host = choose|host: Seq<VirtualView>|
        host_may_report(host) && told == #[trigger] virtual_packages(
            host,
            target_python@,
            requirements,
        );
    let virtuals = readable_virtuals(all);
    let answer = run_solver(specs, offered, &virtuals, 60, channel_priority, strategy);
    assert(may_be_answered(
        specs@,
        all_records@,
        host,
        target_python@,
        requirements,
        channel_priority,
        strategy,
        answer_view(answer),
    ));
    selection_of(answer)
}

// ---------------------------------------------------------------------------
// Records
// ---------------------------------------------------------------------------

/// Where each file name comes first.
pub open spec fn first_places(names: Seq<Seq<char>>) -> Seq<int>
    decreases names.len(),
{
    if names.len() == 0 {
        Seq::empty()
    } else {
        let before = first_places(names.drop_last());
        if names.drop_last().contains(names.last()) {
            before
        } else {
            before.push(names.len() - 1)
        }
    }
}

/// Where each file name comes first: of the records that several channels have, the
/// solver is handed that of the first channel alone.
pub fn first_seen(names: &Vec<String>) -> (r: Vec<usize>)
    ensures
        r@.len() == first_places(names.deep_view()).len(),
        forall|i: int|
            0 <= i < r@.len() ==> #[trigger] r@[i] == first_places(names.deep_view())[i],
{
    let ghost all = names.deep_view();
    let mut out: Vec<usize> = Vec::new();
    let mut seen: Vec<String> = Vec::new();
    let n: usize = names.len();
    let mut i: usize = 0;
    assert(seen.deep_view() =~= all.take(0));
    while i < n
        invariant
            i <= n,
            n == names@.len(),
            all == names.deep_view(),
            seen.deep_view() == all.take(i as int),
            out@.len() == first_places(all.take(i as int)).len(),
            forall|k: int|
                0 <= k < out@.len() ==> #[trigger] out@[k] == first_places(all.take(i as int))[k],
        decreases n - i,
    {
        assert(all[i as int] == names@[i as int].deep_view());
        assert(all.take(i + 1).drop_last() =~= all.take(i as int));
        if !holds_text(&seen, &names[i]) {
            out.push(i);
        }
        push_view(&mut seen, names[i].clone());
        assert(seen.deep_view() =~= all.take(i + 1));
        i = i + 1;
    }
    assert(all.take(n as int) =~= all);
    out
}

// ---------------------------------------------------------------------------
// Laws
// ---------------------------------------------------------------------------

/// Whether a package of this name, version and build string is the only one of its
/// name in a list.
pub open spec fn is_only_one(
    list: Seq<VirtualView>,
    name: Seq<char>,
    version: Seq<char>,
    build_string: Seq<char>,
) -> bool {
    &&& exists|i: int| 0 <= i < list.len() && (#[trigger] list[i]).name == name
    &&& forall|i: int|
        0 <= i < list.len() && (#[trigger] list[i]).name == name ==> list[i].version == version
            && list[i].build_string == build_string
}

proof fn lemma_without_name_keeps(list: Seq<VirtualView>, name: Seq<char>, p: VirtualView)
    ensures
        without_name(list, name).contains(p) <==> list.contains(p) && p.name != name,
    decreases list.len(),
{
    if list.len() > 0 {
        let short = list.drop_last();
        lemma_without_name_keeps(short, name, p);
        let before = without_name(short, name);
        assert(list =~= short.push(list.last()));
    }
}

proof fn lemma_put_is_only_one(list: Seq<VirtualView>, p: VirtualView)
    ensures
        is_only_one(with_virtual(list, p), p.name, p.version, p.build_string),
        forall|q: VirtualView| #[trigger]
            with_virtual(list, p).contains(q) <==> q == p || list.contains(q) && q.name != p.name,
{
    let after = with_virtual(list, p);
    let kept = without_name(list, p.name);
    assert(after[kept.len() as int] == p);
    assert forall|i: int| 0 <= i < after.len() && (#[trigger] after[i]).name == p.name implies
        after[i].version == p.version && after[i].build_string == p.build_string by {
        if i < kept.len() {
            assert(kept.contains(kept[i]));
            lemma_without_name_keeps(list, p.name, kept[i]);
        }
    }
    assert forall|q: VirtualView| #[trigger] after.contains(q) <==> q == p || list.contains(q)
        && q.name != p.name by {
        lemma_without_name_keeps(list, p.name, q);
    }
}

/// A requirement on the machine that has a version is what the solver is told of
/// that virtual package, whatever the machine has, and all else stays as it was.
pub proof fn law_required_version_is_told(
    list: Seq<VirtualView>,
    requirements: Seq<(Seq<char>, Seq<char>)>,
    value: Seq<char>,
)
    requires
        version_fault(value) is None,
    ensures
        is_only_one(
            with_requirements(list, requirements.push(("cuda"@, value))),
            "__cuda"@,
            value,
            ""@,
        ),
        is_only_one(
            with_requirements(list, requirements.push(("libc"@, value))),
            "__glibc"@,
            value,
            ""@,
        ),
        is_only_one(
            with_requirements(list, requirements.push(("glibc"@, value))),
            "__glibc"@,
            value,
            ""@,
        ),
        is_only_one(
            with_requirements(list, requirements.push(("macos"@, value))),
            "__osx"@,
            value,
            ""@,
        ),
        is_only_one(
            with_requirements(list, requirements.push(("osx"@, value))),
            "__osx"@,
            value,
            ""@,
        ),
        is_only_one(
            with_requirements(list, requirements.push(("linux"@, value))),
            "__linux"@,
            value,
            ""@,
        ),
{
    lemma_last_requirement(list, requirements, "cuda"@, value);
    lemma_last_requirement(list, requirements, "libc"@, value);
    lemma_last_requirement(list, requirements, "glibc"@, value);
    lemma_last_requirement(list, requirements, "macos"@, value);
    lemma_last_requirement(list, requirements, "osx"@, value);
    lemma_last_requirement(list, requirements, "linux"@, value);
    lemma_keys_differ();
}

proof fn lemma_keys_differ()
    ensures
        "cuda"@ != "libc"@,
        "cuda"@ != "glibc"@,
        "cuda"@ != "macos"@,
        "cuda"@ != "osx"@,
        "cuda"@ != "archspec"@,
        "cuda"@ != "linux"@,
        "libc"@ != "macos"@,
        "libc"@ != "osx"@,
        "libc"@ != "archspec"@,
        "libc"@ != "linux"@,
        "glibc"@ != "macos"@,
        "glibc"@ != "osx"@,
        "glibc"@ != "archspec"@,
        "glibc"@ != "linux"@,
        "macos"@ != "archspec"@,
        "macos"@ != "linux"@,
        "osx"@ != "archspec"@,
        "osx"@ != "linux"@,
        "archspec"@ != "linux"@,
{
    reveal_strlit("cuda");
    reveal_strlit("libc");
    reveal_strlit("glibc");
    reveal_strlit("macos");
    reveal_strlit("osx");
    reveal_strlit("archspec");
    reveal_strlit("linux");
    assert("cuda"@[0] == 'c' && "libc"@[0] == 'l' && "glibc"@[0] == 'g' && "macos"@[0] == 'm');
    assert("osx"@[0] == 'o' && "archspec"@[0] == 'a' && "linux"@[0] == 'l');
    assert("libc"@[2] == 'b' && "linux"@[2] == 'n');
}

proof fn lemma_last_requirement(
    list: Seq<VirtualView>,
    requirements: Seq<(Seq<char>, Seq<char>)>,
    key: Seq<char>,
    value: Seq<char>,
)
    ensures
        match required_virtual(key, value) {
            Some(p) => is_only_one(
                with_requirements(list, requirements.push((key, value))),
                p.name,
                p.version,
                p.build_string,
            ),
            None => with_requirements(list, requirements.push((key, value))) == with_requirements(
                list,
                requirements,
            ),
        },
{
    assert(requirements.push((key, value)).drop_last() =~= requirements);
    if let Some(p) = required_virtual(key, value) {
        lemma_put_is_only_one(with_requirements(list, requirements), p);
    }
}

/// What is required of the processor is a build string, never a version; and a
/// required value that is no version is a build string too.
pub proof fn law_required_build_is_told(
    list: Seq<VirtualView>,
    requirements: Seq<(Seq<char>, Seq<char>)>,
    value: Seq<char>,
)
    requires
        version_fault("1.0"@) is None,
    ensures
        is_only_one(
            with_requirements(list, requirements.push(("archspec"@, value))),
            "__archspec"@,
            "1.0"@,
            value,
        ),
        version_fault(value) is Some ==> is_only_one(
            with_requirements(list, requirements.push(("cuda"@, value))),
            "__cuda"@,
            "1.0"@,
            value,
        ),
{
    lemma_keys_differ();
    lemma_last_requirement(list, requirements, "archspec"@, value);
    lemma_last_requirement(list, requirements, "cuda"@, value);
}

/// A requirement on the machine leaves the packages of other names as they were.
pub proof fn law_requirement_leaves_the_rest(
    list: Seq<VirtualView>,
    requirements: Seq<(Seq<char>, Seq<char>)>,
    key: Seq<char>,
    value: Seq<char>,
    p: VirtualView,
)
    requires
        key == "cuda"@ ==> p.name != "__cuda"@,
        key == "libc"@ || key == "glibc"@ ==> p.name != "__glibc"@,
        key == "macos"@ || key == "osx"@ ==> p.name != "__osx"@,
        key == "archspec"@ ==> p.name != "__archspec"@,
        key == "linux"@ ==> p.name != "__linux"@,
    ensures
        with_requirements(list, requirements.push((key, value))).contains(p)
            <==> with_requirements(list, requirements).contains(p),
{
    lemma_keys_differ();
    assert(requirements.push((key, value)).drop_last() =~= requirements);
    if let Some(q) = required_virtual(key, value) {
        lemma_put_is_only_one(with_requirements(list, requirements), q);
    }
}

/// The python that a workspace asks for is what the solver is told of it, whatever
/// the machine has; one that is no version tells it nothing.
pub proof fn law_asked_python_is_told(host: Seq<VirtualView>, python: Seq<char>)
    ensures
        version_fault(python) is None ==> is_only_one(
            virtual_packages(host, python, Seq::empty()),
            "__cpython"@,
            python,
            ""@,
        ),
        version_fault(python) is Some ==> virtual_packages(host, python, Seq::empty()) == host,
{
    if version_fault(python) is None {
        lemma_put_is_only_one(
            host,
            VirtualView { name: "__cpython"@, version: python, build_string: ""@ },
        );
    }
}

/// Whether the name at a place stands nowhere before it.
pub open spec fn is_new_at(names: Seq<Seq<char>>, i: int) -> bool {
    forall|j: int| 0 <= j < i ==> #[trigger] names[j] != names[i]
}

/// Of the records of one file name the first alone is handed on: each of them has its
/// place among the first ones once, in order, and nothing else has one.
pub proof fn law_first_places_are_the_first(names: Seq<Seq<char>>)
    ensures
        forall|i: int| #[trigger]
            first_places(names).contains(i) <==> 0 <= i < names.len() && is_new_at(names, i),
        forall|k: int, l: int|
            0 <= k < l < first_places(names).len() ==> #[trigger] first_places(names)[k]
                < #[trigger] first_places(names)[l],
    decreases names.len(),
{
    if names.len() > 0 {
        let short = names.drop_last();
        law_first_places_are_the_first(short);
        let before = first_places(short);
        let after = first_places(names);
        let n = short.len() as int;
        assert(names[n] == names.last());
        if short.contains(names.last()) {
            let j = choose|j: int| 0 <= j < short.len() && short[j] == names.last();
            assert(names[j] == names[n]);
            assert(!is_new_at(names, n));
        } else {
            assert forall|j: int| 0 <= j < n implies #[trigger] names[j] != names[n] by {
                assert(short[j] == names[j]);
                assert(short.contains(short[j]));
            }
            assert(is_new_at(names, n));
        }
        assert forall|i: int| #[trigger] after.contains(i) <==> 0 <= i < names.len() && is_new_at(
            names,
            i,
        ) by {
            assert(before.contains(i) <==> 0 <= i < n && is_new_at(short, i));
            if 0 <= i < n {
                assert(short[i] == names[i]);
                assert(is_new_at(short, i) == is_new_at(names, i)) by {
                    assert forall|j: int| 0 <= j < i implies short[j] == #[trigger] names[j] by {}
                    if is_new_at(names, i) {
                        assert forall|j: int| 0 <= j < i implies #[trigger] short[j] != short[i] by {
                            assert(names[j] != names[i]);
                        }
                    }
                }
            }
        }
        assert forall|k: int, l: int| 0 <= k < l < after.len() implies #[trigger] after[k]
            < #[trigger] after[l] by {
            assert(after[k] == before[k]);
            assert(before.contains(before[k]));
        }
    } else {
        assert(first_places(names) =~= Seq::<int>::empty());
    }
}

/// A record is handed on where the solver can read all that it depends on, and only
/// there.
pub proof fn law_readable_records_are_kept(records: Seq<RepoDataRecord>, r: RepoDataRecord)
    ensures
        sound_records(records).contains(r) <==> records.contains(r) && is_sound_record(r),
    decreases records.len(),
{
    if records.len() > 0 {
        let short = records.drop_last();
        law_readable_records_are_kept(short, r);
        assert(records =~= short.push(records.last()));
    }
}

/// A package that the solver is told of has a version that can be read, and none that
/// has one is left out.
pub proof fn law_readable_versions_are_told(list: Seq<VirtualView>, p: VirtualView)
    ensures
        with_versions_only(list).contains(p) <==> list.contains(p) && version_fault(p.version)
            is None,
    decreases list.len(),
{
    if list.len() > 0 {
        let short = list.drop_last();
        law_readable_versions_are_told(short, p);
        assert(list =~= short.push(list.last()));
    }
}

/// The first spec that the solver cannot be asked for is the one that is told.
pub proof fn law_first_unasked_is_told(specs: Seq<MatchSpec>, i: int)
    requires
        0 <= i < specs.len(),
        spec_shape(specs[i]) != (true, true),
        forall|j: int| 0 <= j < i ==> spec_shape(#[trigger] specs[j]) == (true, true),
    ensures
        first_unasked(specs, 0) == Some(specs[i]),
{
    lemma_unasked_from(specs, 0, i);
}

proof fn lemma_unasked_from(specs: Seq<MatchSpec>, from: int, i: int)
    requires
        0 <= from <= i < specs.len(),
        spec_shape(specs[i]) != (true, true),
        forall|j: int| 0 <= j < i ==> spec_shape(#[trigger] specs[j]) == (true, true),
    ensures
        first_unasked(specs, from) == Some(specs[i]),
    decreases i - from,
{
    if from < i {
        assert(spec_shape(specs[from]) == (true, true));
        lemma_unasked_from(specs, from + 1, i);
    }
}

/// Where there is no selection, the solver's own reasons are given, as they are; any other
/// failure is told as the solver's.
pub proof fn law_reasons_are_the_solvers(reasons: Seq<Seq<char>>, text: Seq<char>, spec: MatchSpec)
    ensures
        failure_reasons(FailureView::Unsolvable(reasons)) == reasons,
        failure_reasons(FailureView::Other(text)).len() == 1,
        failure_reasons(FailureView::Other(text))[0] == "solver error: "@ + text,
        unasked_reason(spec) == "solver error: the spec `"@ + spec_text(spec)
            + "` does not name one package exactly"@,
{
}

} // verus!
