//! Version specs: the clauses they are made of, how a range is narrowed, and
//! when two ranges have no version in common.
use crate::text::{
    after_prefix, chars_of, decimal, decimal_text, is_digit, is_space, join, joined, occurs,
    parse_number, parsed_number, pieces, push_view, split, starts_with, strip_prefix, text_eq,
    text_from, trim, trimmed, trimmed_end, trimmed_start,
};
use crate::versions::{
    is_version_char, is_version_text, less, parse_fault, same, version_fault, version_less,
    version_same,
};
use vstd::prelude::*;

verus! {

broadcast use vstd::seq_lib::group_seq_properties;

// ---------------------------------------------------------------------------
// Clauses
// ---------------------------------------------------------------------------

/// The first of `ops` that `clause` begins with, and the trimmed text that
/// follows it.
pub open spec fn leading_op(clause: Seq<char>, ops: Seq<Seq<char>>) -> Option<
    (Seq<char>, Seq<char>),
>
    decreases ops.len(),
{
    if ops.len() == 0 {
        None
    } else {
        match after_prefix(clause, ops[0]) {
            Some(rest) => Some((ops[0], trimmed(rest))),
            None => leading_op(clause, ops.drop_first()),
        }
    }
}

fn find_op(clause: &str, ops: &Vec<&str>) -> (r: Option<(String, String)>)
    ensures
        r.deep_view() == leading_op(clause@, ops.deep_view()),
{
    let ghost all = ops.deep_view();
    let n: usize = ops.len();
    let mut i: usize = 0;
    assert(all.skip(0) =~= all);
    while i < n
        invariant
            i <= n,
            n == ops@.len(),
            all == ops.deep_view(),
            leading_op(clause@, all) == leading_op(clause@, all.skip(i as int)),
        decreases n - i,
    {
        let op: &str = ops[i];
        assert(all.skip(i as int)[0] == op@);
        assert(all.skip(i as int).drop_first() =~= all.skip(i + 1));
        match strip_prefix(clause, op) {
            Some(rest) => {
                return Some((op.to_owned(), trim(&rest)));
            },
            None => {},
        }
        i = i + 1;
    }
    None
}

/// The operators of a conda clause, a longer one before those it begins with.
pub open spec fn conda_ops() -> Seq<Seq<char>> {
    seq![">="@, "<="@, "=="@, ">"@, "<"@, "="@]
}

/// The operators of a clause in a requirement of a wheel.
pub open spec fn clause_ops() -> Seq<Seq<char>> {
    seq![">="@, "<="@, "=="@, ">"@, "<"@]
}

/// The operators that bound a version, equality first.
pub open spec fn bound_ops() -> Seq<Seq<char>> {
    seq!["=="@, ">="@, "<="@, ">"@, "<"@]
}

/// The operators that bound a version from above.
pub open spec fn cap_ops() -> Seq<Seq<char>> {
    seq!["<="@, "<"@]
}

/// A conda clause with its bare `=` written `==`, and no white space round the
/// version; a clause without an operator is left as it is.
pub open spec fn pep440_clause(clause: Seq<char>) -> Seq<char> {
    match leading_op(clause, conda_ops()) {
        Some((op, rest)) => if op == "="@ {
            "=="@ + rest
        } else {
            op + rest
        },
        None => clause,
    }
}

/// A conda range as a requirement of a wheel states it, clause by clause.
pub open spec fn pep440_range(range: Seq<char>) -> Seq<char> {
    joined(
        pieces(range, ',').map_values(|clause: Seq<char>| pep440_clause(trimmed(clause))),
        ","@,
    )
}

/// A conda clause as a requirement of a wheel states it.
pub fn translate_conda_clause_to_pep440(clause: &str) -> (r: String)
    ensures
        r@ == pep440_clause(clause@),
{
    let ops: Vec<&str> = vec![">=", "<=", "==", ">", "<", "="];
    assert(ops.deep_view() =~= conda_ops());
    match find_op(clause, &ops) {
        Some((op, rest)) => {
            let normalized: String = if text_eq(&op, "=") {
                "==".to_owned()
            } else {
                op
            };
            normalized.concat(&rest)
        },
        None => clause.to_owned(),
    }
}

/// Translates a conda range such as `>=68,<81` into the spec of an override for
/// a wheel: conda's bare `=` becomes `==`; a glob and a clause without an
/// operator pass through.
pub fn translate_conda_range_to_pep440(range: &str) -> (r: String)
    ensures
        r@ == pep440_range(range@),
{
    let parts = split(range, ',');
    let n: usize = parts.len();
    let ghost p = parts.deep_view();
    let ghost f = |clause: Seq<char>| pep440_clause(trimmed(clause));
    let mut out: Vec<String> = Vec::new();
    let mut i: usize = 0;
    assert(out.deep_view() =~= p.take(0).map_values(f));
    while i < n
        invariant
            i <= n,
            n == parts@.len(),
            p == parts.deep_view(),
            f == (|clause: Seq<char>| pep440_clause(trimmed(clause))),
            out.deep_view() == p.take(i as int).map_values(f),
        decreases n - i,
    {
        let clause = trim(&parts[i]);
        push_view(&mut out, translate_conda_clause_to_pep440(&clause));
        assert(p.take(i + 1).map_values(f) =~= p.take(i as int).map_values(f).push(f(p[i as int])));
        i = i + 1;
    }
    assert(p.take(n as int) =~= p);
    join(&out, ",")
}

/// The operator and version of the first clause of a spec.
pub open spec fn first_clause(spec: Seq<char>) -> Option<(Seq<char>, Seq<char>)> {
    leading_op(trimmed(pieces(spec, ',')[0]), clause_ops())
}

/// The operator and version of the first clause of a spec: `>=68,<81` gives
/// `>=` and `68`.
pub fn leading_clause(spec: &str) -> (r: Option<(String, String)>)
    ensures
        r.deep_view() == first_clause(spec@),
{
    let parts = split(spec, ',');
    assert(parts.deep_view()[0] == parts@[0]@);
    let clause = trim(&parts[0]);
    let ops: Vec<&str> = vec![">=", "<=", "==", ">", "<"];
    assert(ops.deep_view() =~= clause_ops());
    find_op(&clause, &ops)
}

/// The first clause from position `from` on that bounds from above.
pub open spec fn cap_from(clauses: Seq<Seq<char>>, from: int) -> Option<(Seq<char>, Seq<char>)>
    decreases clauses.len() - from,
{
    if from >= clauses.len() || from < 0 {
        None
    } else {
        match leading_op(trimmed(clauses[from]), cap_ops()) {
            Some(cap) => Some(cap),
            None => cap_from(clauses, from + 1),
        }
    }
}

/// The first clause of a spec that bounds the version from above.
pub open spec fn cap_clause(spec: Seq<char>) -> Option<(Seq<char>, Seq<char>)> {
    cap_from(pieces(spec, ','), 0)
}

/// The first clause of a spec that bounds the version from above:
/// `<11.0,>=9.2.0` gives `<` and `11.0`.
pub fn extract_cap_clause(spec: &str) -> (r: Option<(String, String)>)
    ensures
        r.deep_view() == cap_clause(spec@),
{
    let parts = split(spec, ',');
    let n: usize = parts.len();
    let ghost p = parts.deep_view();
    let ops: Vec<&str> = vec!["<=", "<"];
    assert(ops.deep_view() =~= cap_ops());
    let mut i: usize = 0;
    while i < n
        invariant
            i <= n,
            n == parts@.len(),
            p == parts.deep_view(),
            p == pieces(spec@, ','),
            ops.deep_view() == cap_ops(),
            cap_from(p, 0) == cap_from(p, i as int),
        decreases n - i,
    {
        let clause = trim(&parts[i]);
        assert(p[i as int] == parts@[i as int]@);
        let found = find_op(&clause, &ops);
        if found.is_some() {
            return found;
        }
        i = i + 1;
    }
    None
}

// ---------------------------------------------------------------------------
// The specs that a pack emits
// ---------------------------------------------------------------------------

/// The two clauses of a spec that has no more than two.
pub open spec fn one_or_two(spec: Seq<char>) -> Option<(Seq<char>, Option<Seq<char>>)> {
    let p = pieces(spec, ',');
    if p.len() == 1 {
        Some((trimmed(p[0]), None))
    } else if p.len() == 2 {
        Some((trimmed(p[0]), Some(trimmed(p[1]))))
    } else {
        None
    }
}

fn two_clauses(spec: &str) -> (r: Option<(String, Option<String>)>)
    ensures
        r.deep_view() == one_or_two(spec@),
{
    let parts = split(spec, ',');
    let ghost p = parts.deep_view();
    let n: usize = parts.len();
    assert(p[0] == parts@[0]@);
    if n == 1 {
        Some((trim(&parts[0]), None))
    } else if n == 2 {
        assert(p[1] == parts@[1]@);
        Some((trim(&parts[0]), Some(trim(&parts[1]))))
    } else {
        None
    }
}

/// The lowest version of a spec of the two shapes that a pack emits: an exact
/// pin `==X`, or a bounded range `>=X,<Y`.
pub open spec fn emitted_floor(spec: Seq<char>) -> Option<Seq<char>> {
    match one_or_two(spec) {
        None => None,
        Some((first, second)) => match after_prefix(first, "=="@) {
            Some(v) => if second is None {
                Some(trimmed(v))
            } else {
                None
            },
            None => match (after_prefix(first, ">="@), second) {
                (Some(v), Some(s)) => if "<"@.is_prefix_of(s) && !"<="@.is_prefix_of(s) {
                    Some(trimmed(v))
                } else {
                    None
                },
                _ => None,
            },
        },
    }
}

/// The lowest version of a spec of the two shapes that a pack emits: an exact
/// pin `==X`, or a bounded range `>=X,<Y`. A bare floor, a lone cap, a range closed
/// by `<=` and a spec of three clauses are neither.
pub fn pack_emitted_pin_floor(spec: &str) -> (r: Option<String>)
    ensures
        r.deep_view() == emitted_floor(spec@),
{
    match two_clauses(spec) {
        None => None,
        Some((first, second)) => match strip_prefix(&first, "==") {
            Some(v) => if second.is_none() {
                Some(trim(&v))
            } else {
                None
            },
            None => match (strip_prefix(&first, ">="), second) {
                (Some(v), Some(s)) => if starts_with(&s, "<") && !starts_with(&s, "<=") {
                    Some(trim(&v))
                } else {
                    None
                },
                _ => None,
            },
        },
    }
}

/// The lowest version of a spec that is a single `>=X`.
pub open spec fn floor_alone(spec: Seq<char>) -> Option<Seq<char>> {
    match after_prefix(trimmed(spec), ">="@) {
        Some(rest) => if occurs(rest, ","@) {
            None
        } else {
            Some(trimmed(rest))
        },
        None => None,
    }
}

/// The lowest version of a spec that is a single `>=X`, with no cap.
pub fn bare_floor(spec: &str) -> (r: Option<String>)
    ensures
        r.deep_view() == floor_alone(spec@),
{
    let t = trim(spec);
    match strip_prefix(&t, ">=") {
        Some(rest) => if crate::text::contains(&rest, ",") {
            None
        } else {
            Some(trim(&rest))
        },
        None => None,
    }
}

/// Whether `version` is the sentinel that the solver prints as a cap where a
/// dependency excludes every version of a package.
pub open spec fn is_sentinel(version: Seq<char>) -> bool {
    let v = trimmed(version);
    v == "0.0a0"@ || v == "0a0"@ || v == "0.0.0a0"@
}

/// Whether `version` is the sentinel that the solver prints as a cap where a
/// dependency excludes every version of a package. It is no bound.
pub fn is_exclusion_sentinel_version(version: &str) -> (r: bool)
    ensures
        r == is_sentinel(version@),
{
    let v = trim(version);
    text_eq(&v, "0.0a0") || text_eq(&v, "0a0") || text_eq(&v, "0.0.0a0")
}

/// The versions from `floor` up to `cap`, with `cap` itself where `inclusive`.
pub struct PinInterval {
    pub floor: String,
    pub cap: String,
    pub inclusive: bool,
}

/// What a `PinInterval` says.
pub struct IntervalView {
    pub floor: Seq<char>,
    pub cap: Seq<char>,
    pub inclusive: bool,
}

impl DeepView for PinInterval {
    type V = IntervalView;

    open spec fn deep_view(&self) -> IntervalView {
        IntervalView { floor: self.floor@, cap: self.cap@, inclusive: self.inclusive }
    }
}

/// The interval of a spec of the two shapes that a pack emits, where its
/// versions can be read.
pub open spec fn pin_interval(spec: Seq<char>) -> Option<IntervalView> {
    match one_or_two(spec) {
        None => None,
        Some((first, None)) => match after_prefix(first, "=="@) {
            Some(v) => if version_fault(trimmed(v)) is None {
                Some(IntervalView { floor: trimmed(v), cap: trimmed(v), inclusive: true })
            } else {
                None
            },
            None => None,
        },
        Some((first, Some(second))) => match (
            after_prefix(first, ">="@),
            after_prefix(second, "<"@),
        ) {
            (Some(f), Some(c)) => if !"="@.is_prefix_of(c) && version_fault(trimmed(f)) is None
                && version_fault(trimmed(c)) is None {
                Some(IntervalView { floor: trimmed(f), cap: trimmed(c), inclusive: false })
            } else {
                None
            },
            _ => None,
        },
    }
}

/// The interval of a spec of the two shapes that a pack emits: `==X` is the one
/// version `X`, and `>=X,<Y` runs from `X` up to `Y` without it.
pub fn pack_pin_interval(spec: &str) -> (r: Option<PinInterval>)
    ensures
        r.deep_view() == pin_interval(spec@),
{
    match two_clauses(spec) {
        None => None,
        Some((first, None)) => match strip_prefix(&first, "==") {
            Some(v) => {
                let v = trim(&v);
                if parse_fault(&v).is_none() {
                    Some(PinInterval { floor: v.clone(), cap: v, inclusive: true })
                } else {
                    None
                }
            },
            None => None,
        },
        Some((first, Some(second))) => match (
            strip_prefix(&first, ">="),
            strip_prefix(&second, "<"),
        ) {
            (Some(f), Some(c)) => {
                if starts_with(&c, "=") {
                    return None;
                }
                let floor = trim(&f);
                let cap = trim(&c);
                if parse_fault(&floor).is_none() && parse_fault(&cap).is_none() {
                    Some(PinInterval { floor, cap, inclusive: false })
                } else {
                    None
                }
            },
            _ => None,
        },
    }
}

/// Whether every version of `a` is below every version of `b`.
pub open spec fn lies_below(a: IntervalView, b: IntervalView) -> bool {
    version_less(a.cap, b.floor) || (version_same(a.cap, b.floor) && !a.inclusive)
}

/// Whether two intervals have no version in common.
pub open spec fn disjoint(a: IntervalView, b: IntervalView) -> bool {
    lies_below(a, b) || lies_below(b, a)
}

/// Whether two intervals have no version in common.
pub fn pack_pin_intervals_disjoint(a: &PinInterval, b: &PinInterval) -> (r: bool)
    ensures
        r == disjoint(a.deep_view(), b.deep_view()),
{
    let a_below: bool = less(&a.cap, &b.floor) || (same(&a.cap, &b.floor) && !a.inclusive);
    let b_below: bool = less(&b.cap, &a.floor) || (same(&b.cap, &a.floor) && !b.inclusive);
    a_below || b_below
}

/// That two intervals have no version in common does not depend on which is
/// named first.
pub proof fn law_disjoint_is_symmetric(a: IntervalView, b: IntervalView)
    ensures
        disjoint(a, b) == disjoint(b, a),
{
}

// ---------------------------------------------------------------------------
// Pins and widening
// ---------------------------------------------------------------------------

/// The version of an exact pin, where the spec is one with a version.
pub open spec fn exact_version(spec: Seq<char>) -> Option<Seq<char>> {
    match after_prefix(trimmed(spec), "=="@) {
        Some(v) => if trimmed(v).len() == 0 {
            None
        } else {
            Some(trimmed(v))
        },
        None => None,
    }
}

/// The version of the one exact pin among `specs`.
pub open spec fn only_exact(specs: Seq<Seq<char>>) -> Option<Seq<char>> {
    let exacts = specs.filter_map(|s: Seq<char>| exact_version(s));
    if exacts.len() == 1 {
        Some(exacts[0])
    } else {
        None
    }
}

fn exact_pin(spec: &str) -> (r: Option<String>)
    ensures
        r.deep_view() == exact_version(spec@),
{
    let t = trim(spec);
    match strip_prefix(&t, "==") {
        Some(v) => {
            let v = trim(&v);
            if v.as_str().is_empty() {
                None
            } else {
                Some(v)
            }
        },
        None => None,
    }
}

/// The version of the one exact pin among `specs`; `None` where there is none,
/// or more than one.
pub fn exact_pin_version(specs: &Vec<String>) -> (r: Option<String>)
    ensures
        r.deep_view() == only_exact(specs.deep_view()),
{
    let ghost all = specs.deep_view();
    let ghost f = |s: Seq<char>| exact_version(s);
    let n: usize = specs.len();
    let mut found: Vec<String> = Vec::new();
    let mut i: usize = 0;
    assert(found.deep_view() =~= all.take(0).filter_map(f));
    while i < n
        invariant
            i <= n,
            n == specs@.len(),
            all == specs.deep_view(),
            f == (|s: Seq<char>| exact_version(s)),
            found.deep_view() == all.take(i as int).filter_map(f),
        decreases n - i,
    {
        assert(all[i as int] == specs@[i as int]@);
        proof {
            all.lemma_filter_map_take_succ(f, i as int);
        }
        match exact_pin(&specs[i]) {
            Some(v) => {
                push_view(&mut found, v);
            },
            None => {
                assert(found.deep_view() =~= all.take(i + 1).filter_map(f));
            },
        }
        i = i + 1;
    }
    assert(all.take(n as int) =~= all);
    assert(found.deep_view().len() == found@.len());
    if found.len() == 1 {
        assert(found.deep_view()[0] == found@[0]@);
        Some(found[0].clone())
    } else {
        None
    }
}

/// `spec` from its first digit on.
pub open spec fn from_first_digit(spec: Seq<char>) -> Seq<char>
    decreases spec.len(),
{
    if spec.len() == 0 || is_digit(spec[0]) {
        spec
    } else {
        from_first_digit(spec.drop_first())
    }
}

/// `spec` without what stands before its first digit: `==2.10.0` gives
/// `2.10.0`.
pub fn strip_version_op(spec: &str) -> (r: String)
    ensures
        r@ == from_first_digit(spec@),
{
    let v = chars_of(spec);
    let n: usize = v.len();
    let mut i: usize = 0;
    assert(v@.subrange(0, n as int) =~= spec@);
    while i < n && !('0' <= v[i] && v[i] <= '9')
        invariant
            i <= n,
            n == v@.len(),
            v@ == spec@,
            from_first_digit(spec@) == from_first_digit(v@.subrange(i as int, n as int)),
        decreases n - i,
    {
        assert(v@.subrange(i as int, n as int).drop_first() =~= v@.subrange(i + 1, n as int));
        i = i + 1;
    }
    text_from(&v, i, n)
}

/// The number that the part of `version` at `at` writes.
pub open spec fn version_part(version: Seq<char>, at: int) -> Option<nat> {
    parsed_number(pieces(version, '.')[at], u64::MAX as nat)
}

/// The major version after that of `version`.
pub open spec fn major_after(version: Seq<char>) -> Option<Seq<char>> {
    match version_part(version, 0) {
        Some(major) => Some(decimal(major + 1)),
        None => None,
    }
}

/// The minor version of `version`; a version without one has minor version 0.
pub open spec fn minor_part(version: Seq<char>) -> Option<nat> {
    if pieces(version, '.').len() > 1 {
        version_part(version, 1)
    } else {
        Some(0)
    }
}

/// The minor version after that of `version`.
pub open spec fn minor_after(version: Seq<char>) -> Option<Seq<char>> {
    match (version_part(version, 0), minor_part(version)) {
        (Some(major), Some(minor)) => Some(decimal(major) + "."@ + decimal(minor + 1)),
        _ => None,
    }
}

/// Whether the major version of `version` has a successor of 64 bits.
pub open spec fn major_steps(version: Seq<char>) -> bool {
    version_part(version, 0) != Some(u64::MAX as nat)
}

/// Whether the minor version of `version` has a successor of 64 bits.
pub open spec fn minor_steps(version: Seq<char>) -> bool {
    version_part(version, 0) is None || minor_part(version) != Some(u64::MAX as nat)
}

/// The major version after that of `version`.
pub fn next_major(version: &str) -> (r: Option<String>)
    requires
        major_steps(version@),
    ensures
        r.deep_view() == major_after(version@),
{
    let parts = split(version, '.');
    assert(parts.deep_view()[0] == parts@[0]@);
    match parse_number(&parts[0], u64::MAX) {
        Some(major) => Some(decimal_text(major + 1)),
        None => None,
    }
}

/// The minor version after that of `version`.
pub fn next_minor(version: &str) -> (r: Option<String>)
    requires
        minor_steps(version@),
    ensures
        r.deep_view() == minor_after(version@),
{
    let parts = split(version, '.');
    assert(parts.deep_view()[0] == parts@[0]@);
    assert(parts.deep_view().len() == parts@.len());
    let major: u64 = match parse_number(&parts[0], u64::MAX) {
        Some(major) => major,
        None => {
            return None;
        },
    };
    let minor: u64 = if parts.len() > 1 {
        assert(parts.deep_view()[1] == parts@[1]@);
        match parse_number(&parts[1], u64::MAX) {
            Some(minor) => minor,
            None => {
                return None;
            },
        }
    } else {
        0
    };
    let mut out: String = decimal_text(major);
    out.append(".");
    out.append(&decimal_text(minor + 1));
    Some(out)
}

/// How far above its floor a widened pin may go.
#[derive(Debug, Clone, Copy, PartialEq, Eq, Structural)]
pub enum WidenCeilingPolicy {
    NextMajor,
    Unbounded,
    SameMinor,
}

/// The name of a ceiling policy.
pub open spec fn policy_name(policy: WidenCeilingPolicy) -> Seq<char> {
    match policy {
        WidenCeilingPolicy::NextMajor => "next-major"@,
        WidenCeilingPolicy::Unbounded => "none"@,
        WidenCeilingPolicy::SameMinor => "same-minor"@,
    }
}

impl WidenCeilingPolicy {
    /// The name of the policy.
    pub fn as_str(self) -> (r: &'static str)
        ensures
            r@ == policy_name(self),
    {
        match self {
            WidenCeilingPolicy::NextMajor => "next-major",
            WidenCeilingPolicy::Unbounded => "none",
            WidenCeilingPolicy::SameMinor => "same-minor",
        }
    }
}

/// The spec of a pin widened to a floor, below the ceiling that the policy sets.
pub open spec fn widened(op: Seq<char>, floor: Seq<char>, policy: WidenCeilingPolicy) -> Seq<char> {
    let ceil = match policy {
        WidenCeilingPolicy::Unbounded => None,
        WidenCeilingPolicy::NextMajor => major_after(floor),
        WidenCeilingPolicy::SameMinor => minor_after(floor),
    };
    match ceil {
        Some(c) => op + floor + ",<"@ + c,
        None => op + floor,
    }
}

/// Whether the ceiling that the policy sets above `floor` is a number of 64 bits.
pub open spec fn can_widen(floor: Seq<char>, policy: WidenCeilingPolicy) -> bool {
    match policy {
        WidenCeilingPolicy::Unbounded => true,
        WidenCeilingPolicy::NextMajor => major_steps(floor),
        WidenCeilingPolicy::SameMinor => minor_steps(floor),
    }
}

/// Whether the ceiling that the policy sets above `floor` is a number of 64 bits.
pub fn widenable(floor: &str, policy: WidenCeilingPolicy) -> (r: bool)
    ensures
        r == can_widen(floor@, policy),
{
    let parts = split(floor, '.');
    assert(parts.deep_view()[0] == parts@[0]@);
    assert(parts.deep_view().len() == parts@.len());
    let major: Option<u64> = parse_number(&parts[0], u64::MAX);
    let minor: Option<u64> = if parts.len() > 1 {
        assert(parts.deep_view()[1] == parts@[1]@);
        parse_number(&parts[1], u64::MAX)
    } else {
        Some(0)
    };
    match policy {
        WidenCeilingPolicy::Unbounded => true,
        WidenCeilingPolicy::NextMajor => major != Some(u64::MAX),
        WidenCeilingPolicy::SameMinor => major.is_none() || minor != Some(u64::MAX),
    }
}

/// The spec of a pin widened to a floor, below the ceiling that the policy sets.
pub fn widen_spec(op: &str, floor: &str, policy: WidenCeilingPolicy) -> (r: String)
    requires
        can_widen(floor@, policy),
    ensures
        r@ == widened(op@, floor@, policy),
{
    let mut out: String = op.to_owned().concat(floor);
    let ceil: Option<String> = match policy {
        WidenCeilingPolicy::Unbounded => None,
        WidenCeilingPolicy::NextMajor => next_major(floor),
        WidenCeilingPolicy::SameMinor => next_minor(floor),
    };
    match ceil {
        Some(c) => {
            out.append(",<");
            out.append(&c);
        },
        None => {},
    }
    out
}

// ---------------------------------------------------------------------------
// Narrowing
// ---------------------------------------------------------------------------

/// What the clauses of a range say: the last floor, the last ceiling and the
/// last exact version among them.
pub struct RangeBounds {
    pub floor: Option<(String, String)>,
    pub ceil: Option<(String, String)>,
    pub exact: Option<String>,
}

/// What a `RangeBounds` says.
pub struct BoundsView {
    pub floor: Option<(Seq<char>, Seq<char>)>,
    pub ceil: Option<(Seq<char>, Seq<char>)>,
    pub exact: Option<Seq<char>>,
}

impl DeepView for RangeBounds {
    type V = BoundsView;

    open spec fn deep_view(&self) -> BoundsView {
        BoundsView {
            floor: self.floor.deep_view(),
            ceil: self.ceil.deep_view(),
            exact: self.exact.deep_view(),
        }
    }
}

/// The bounds with one clause more.
pub open spec fn with_clause(b: BoundsView, clause: Seq<char>) -> BoundsView {
    match leading_op(clause, bound_ops()) {
        Some((op, v)) => if op == ">="@ || op == ">"@ {
            BoundsView { floor: Some((op, v)), ..b }
        } else if op == "<="@ || op == "<"@ {
            BoundsView { ceil: Some((op, v)), ..b }
        } else {
            BoundsView { exact: Some(v), ..b }
        },
        None => b,
    }
}

/// What the clauses say together: of each sort of bound the last.
pub open spec fn clause_bounds(clauses: Seq<Seq<char>>) -> BoundsView
    decreases clauses.len(),
{
    if clauses.len() == 0 {
        BoundsView { floor: None, ceil: None, exact: None }
    } else {
        with_clause(clause_bounds(clauses.drop_last()), trimmed(clauses.last()))
    }
}

/// What the clauses of a range say.
pub open spec fn bounds_of(range: Seq<char>) -> BoundsView {
    clause_bounds(pieces(range, ','))
}

/// Reads the bounds of a range.
pub fn range_bounds(range: &str) -> (r: RangeBounds)
    ensures
        r.deep_view() == bounds_of(range@),
{
    let parts = split(range, ',');
    let n: usize = parts.len();
    let ghost p = parts.deep_view();
    let ops: Vec<&str> = vec!["==", ">=", "<=", ">", "<"];
    assert(ops.deep_view() =~= bound_ops());
    let mut out = RangeBounds { floor: None, ceil: None, exact: None };
    let mut i: usize = 0;
    while i < n
        invariant
            i <= n,
            n == parts@.len(),
            p == parts.deep_view(),
            ops.deep_view() == bound_ops(),
            out.deep_view() == clause_bounds(p.take(i as int)),
        decreases n - i,
    {
        let clause = trim(&parts[i]);
        assert(p[i as int] == parts@[i as int]@);
        assert(p.take(i + 1).drop_last() =~= p.take(i as int));
        match find_op(&clause, &ops) {
            Some((op, v)) => {
                if text_eq(&op, ">=") || text_eq(&op, ">") {
                    out.floor = Some((op, v));
                } else if text_eq(&op, "<=") || text_eq(&op, "<") {
                    out.ceil = Some((op, v));
                } else {
                    out.exact = Some(v);
                }
            },
            None => {},
        }
        i = i + 1;
    }
    assert(p.take(n as int) =~= p);
    out
}

/// Whether the ceiling `op v` admits no version that the cap does not admit: it lies
/// below, or at the same version, where `<` is tighter than `<=`.
pub open spec fn is_within_cap(
    op: Seq<char>,
    v: Seq<char>,
    cap_op: Seq<char>,
    cap_version: Seq<char>,
) -> bool {
    version_less(v, cap_version) || (!version_less(cap_version, v) && !(op == "<="@ && cap_op
        == "<"@))
}

/// The tighter of a range's own ceiling and the cap: its own where that is a
/// version and lies within the cap.
pub open spec fn tighter_ceil(
    ceil: Option<(Seq<char>, Seq<char>)>,
    cap_op: Seq<char>,
    cap_version: Seq<char>,
) -> (Seq<char>, Seq<char>) {
    match ceil {
        Some((op, v)) => if version_fault(v) is None && is_within_cap(op, v, cap_op, cap_version) {
            (op, v)
        } else {
            (cap_op, cap_version)
        },
        None => (cap_op, cap_version),
    }
}

/// Whether no version is above the floor and below the ceiling, or at them where
/// both admit it.
pub open spec fn nothing_between(
    floor_op: Seq<char>,
    floor: Seq<char>,
    ceil_op: Seq<char>,
    ceil: Seq<char>,
) -> bool {
    if ceil_op == "<"@ || (ceil_op == "<="@ && floor_op == ">"@) {
        !version_less(floor, ceil)
    } else {
        ceil_op == "<="@ && version_less(ceil, floor)
    }
}

/// A range of a floor and a ceiling.
pub open spec fn range_text(
    floor: Option<(Seq<char>, Seq<char>)>,
    ceil: (Seq<char>, Seq<char>),
) -> Seq<char> {
    match floor {
        Some((op, v)) => if (op + v).len() == 0 {
            ceil.0 + ceil.1
        } else {
            op + v + ","@ + ceil.0 + ceil.1
        },
        None => ceil.0 + ceil.1,
    }
}

/// The range `existing` with the cap added: the floor is kept, and the tighter
/// ceiling; an exact pin is kept where the cap admits it. An error says why
/// nothing is left, or which version cannot be read.
pub open spec fn intersected(
    existing: Seq<char>,
    cap_op: Seq<char>,
    cap_version: Seq<char>,
) -> Result<Seq<char>, Seq<char>> {
    let b = bounds_of(existing);
    match version_fault(cap_version) {
        Some(e) => Err("unparseable cap version "@ + cap_version + ": "@ + e),
        None => match b.exact {
            Some(exact) => match version_fault(exact) {
                Some(e) => Err("unparseable exact version "@ + exact + ": "@ + e),
                None => if (cap_op == "<"@ && !version_less(exact, cap_version)) || (cap_op != "<"@
                    && version_less(cap_version, exact)) {
                    Err("exact pin =="@ + exact + " vs cap "@ + cap_op + cap_version)
                } else {
                    Ok(existing)
                },
            },
            None => {
                let ceil = tighter_ceil(b.ceil, cap_op, cap_version);
                match b.floor {
                    None => Ok(range_text(None, ceil)),
                    Some((floor_op, floor)) => match version_fault(floor) {
                        Some(e) => Err("unparseable floor version "@ + floor + ": "@ + e),
                        None => match version_fault(ceil.1) {
                            Some(e) => Err("unparseable ceiling version "@ + ceil.1 + ": "@ + e),
                            None => if nothing_between(floor_op, floor, ceil.0, ceil.1) {
                                Err(
                                    "floor "@ + floor_op + floor + " vs narrowed ceiling "@ + ceil.0
                                        + ceil.1,
                                )
                            } else {
                                Ok(range_text(Some((floor_op, floor)), ceil))
                            },
                        },
                    },
                }
            },
        },
    }
}

fn faulty(what: &str, version: &str, fault: &str) -> (r: String)
    ensures
        r@ == what@ + version@ + ": "@ + fault@,
{
    let mut m: String = what.to_owned();
    m.append(version);
    m.append(": ");
    m.append(fault);
    m
}

/// Intersects a range with an upper bound. The floor is kept as it is, and of
/// the two ceilings the tighter, so that a looser cap changes nothing, nor the same cap
/// once more. The error says why no version can satisfy both.
pub fn intersect_range_with_cap(existing: &str, cap_op: &str, cap_version: &str) -> (r: Result<
    String,
    String,
>)
    ensures
        match r {
            Ok(text) => intersected(existing@, cap_op@, cap_version@) == Ok::<Seq<char>, Seq<char>>(
                text@,
            ),
            Err(text) => intersected(existing@, cap_op@, cap_version@) == Err::<
                Seq<char>,
                Seq<char>,
            >(text@),
        },
        is_ceil_op(cap_op@) ==> (r matches Ok(text) ==> is_narrowed(
            text@,
            existing@,
            cap_op@,
            cap_version@,
        )),
{
    match parse_fault(cap_version) {
        Some(e) => {
            return Err(faulty("unparseable cap version ", cap_version, &e));
        },
        None => {},
    }
    let b = range_bounds(existing);
    match &b.exact {
        Some(exact) => {
            match parse_fault(exact) {
                Some(e) => {
                    return Err(faulty("unparseable exact version ", exact, &e));
                },
                None => {},
            }
            let excluded: bool = if text_eq(cap_op, "<") {
                !less(exact, cap_version)
            } else {
                less(cap_version, exact)
            };
            if excluded {
                let mut m: String = "exact pin ==".to_owned();
                m.append(exact);
                m.append(" vs cap ");
                m.append(cap_op);
                m.append(cap_version);
                return Err(m);
            }
            return Ok(existing.to_owned());
        },
        None => {},
    }
    let (ceil_op, ceil): (String, String) = match &b.ceil {
        Some((op, v)) => if parse_fault(v).is_none() && (less(v, cap_version) || (!less(
            cap_version,
            v,
        ) && !(text_eq(op, "<=") && text_eq(cap_op, "<")))) {
            (op.clone(), v.clone())
        } else {
            (cap_op.to_owned(), cap_version.to_owned())
        },
        None => (cap_op.to_owned(), cap_version.to_owned()),
    };
    assert((ceil_op@, ceil@) == tighter_ceil(b.deep_view().ceil, cap_op@, cap_version@));
    let mut out: String = String::new();
    match &b.floor {
        Some((floor_op, floor)) => {
            match parse_fault(floor) {
                Some(e) => {
                    return Err(faulty("unparseable floor version ", floor, &e));
                },
                None => {},
            }
            match parse_fault(&ceil) {
                Some(e) => {
                    return Err(faulty("unparseable ceiling version ", &ceil, &e));
                },
                None => {},
            }
            let empty: bool = if text_eq(&ceil_op, "<") || (text_eq(&ceil_op, "<=") && text_eq(
                floor_op,
                ">",
            )) {
                !less(floor, &ceil)
            } else {
                text_eq(&ceil_op, "<=") && less(&ceil, floor)
            };
            if empty {
                let mut m: String = "floor ".to_owned();
                m.append(floor_op);
                m.append(floor);
                m.append(" vs narrowed ceiling ");
                m.append(&ceil_op);
                m.append(&ceil);
                return Err(m);
            }
            out = floor_op.clone().concat(floor);
        },
        None => {},
    }
    if !out.as_str().is_empty() {
        out.append(",");
    }
    out.append(&ceil_op);
    out.append(&ceil);
    proof {
        if is_ceil_op(cap_op@) {
            lemma_version_is_plain(cap_version@);
            match b.deep_view().floor {
                Some((_, v)) => {
                    lemma_version_is_plain(v);
                },
                None => {},
            }
            match b.deep_view().ceil {
                Some((_, v)) => {
                    if version_fault(v) is None {
                        lemma_version_is_plain(v);
                    }
                },
                None => {},
            }
            law_narrowing_keeps_the_floor(existing@, cap_op@, cap_version@);
            law_narrowing_again_changes_nothing(existing@, cap_op@, cap_version@);
        }
    }
    Ok(out)
}

// ---------------------------------------------------------------------------
// Laws of narrowing
// ---------------------------------------------------------------------------

/// Whether a version can stand behind any operator: it holds no comma, no white space
/// at its ends, and does not begin with what would belong to the operator.
pub open spec fn is_plain(v: Seq<char>) -> bool {
    &&& !v.contains(',')
    &&& trimmed(v) == v
    &&& v.len() > 0 ==> v[0] != '='
}

proof fn lemma_trimmed_lengths(s: Seq<char>)
    ensures
        trimmed_start(s).len() <= s.len(),
        trimmed_end(s).len() <= s.len(),
    decreases s.len(),
{
    if s.len() > 0 {
        lemma_trimmed_lengths(s.drop_first());
        lemma_trimmed_lengths(s.drop_last());
    }
}

proof fn lemma_trimmed_ends(v: Seq<char>)
    requires
        trimmed(v) == v,
        v.len() > 0,
    ensures
        !is_space(v[0]),
        !is_space(v.last()),
{
    lemma_trimmed_lengths(v);
    lemma_trimmed_lengths(trimmed_start(v));
    if is_space(v[0]) {
        lemma_trimmed_lengths(v.drop_first());
        lemma_trimmed_lengths(trimmed_start(v.drop_first()));
    }
    if is_space(v.last()) {
        assert(trimmed_start(v) == v);
        lemma_trimmed_lengths(v.drop_last());
    }
}

proof fn lemma_one_piece(s: Seq<char>, c: char)
    requires
        !s.contains(c),
    ensures
        pieces(s, c) == seq![s],
    decreases s.len(),
{
    if s.len() == 0 {
        assert(s =~= Seq::<char>::empty());
    } else {
        let rest = s.drop_last();
        assert forall|k: int| 0 <= k < rest.len() implies rest[k] != c by {
            assert(rest[k] == s[k]);
        }
        lemma_one_piece(rest, c);
        assert(s[s.len() - 1] == s.last());
        assert(rest.push(s.last()) =~= s);
        assert(pieces(s, c) =~= seq![s]);
    }
}

proof fn lemma_two_pieces(a: Seq<char>, b: Seq<char>, c: char)
    requires
        !a.contains(c),
        !b.contains(c),
    ensures
        pieces(a + seq![c] + b, c) == seq![a, b],
    decreases b.len(),
{
    let s = a + seq![c] + b;
    if b.len() == 0 {
        assert(s.drop_last() =~= a);
        assert(s.last() == c);
        lemma_one_piece(a, c);
        assert(b =~= Seq::<char>::empty());
        assert(pieces(s, c) =~= seq![a, b]);
    } else {
        let rest = b.drop_last();
        assert forall|k: int| 0 <= k < rest.len() implies rest[k] != c by {
            assert(rest[k] == b[k]);
        }
        lemma_two_pieces(a, rest, c);
        assert(s.drop_last() =~= a + seq![c] + rest);
        assert(s.last() == b.last());
        assert(b[b.len() - 1] == b.last());
        assert(rest.push(b.last()) =~= b);
        assert(pieces(s, c) =~= seq![a, b]);
    }
}

/// Whether a text is the operator of a floor.
pub open spec fn is_floor_op(op: Seq<char>) -> bool {
    op == ">="@ || op == ">"@
}

/// Whether a text is the operator of a ceiling.
pub open spec fn is_ceil_op(op: Seq<char>) -> bool {
    op == "<="@ || op == "<"@
}

proof fn lemma_clause_reads_back(op: Seq<char>, v: Seq<char>)
    requires
        is_floor_op(op) || is_ceil_op(op),
        is_plain(v),
    ensures
        trimmed(op + v) == op + v,
        leading_op(op + v, bound_ops()) == Some((op, v)),
        !(op + v).contains(','),
{
    reveal_strlit("==");
    reveal_strlit(">=");
    reveal_strlit("<=");
    reveal_strlit(">");
    reveal_strlit("<");
    let s = op + v;
    if v.len() > 0 {
        lemma_trimmed_ends(v);
        assert(s.last() == v.last());
    } else {
        assert(s =~= op);
        assert(s.last() == op.last());
    }
    assert(s[0] == op[0]);
    assert(!is_space(s[0]) && !is_space(s.last()));
    assert(trimmed(s) == s);
    assert forall|k: int| 0 <= k < s.len() implies s[k] != ',' by {
        if k >= op.len() {
            assert(s[k] == v[k - op.len()]);
            assert(v.contains(v[k - op.len()]));
        }
    }
    reveal_with_fuel(leading_op, 6);
    let ops = bound_ops();
    assert(ops[0] == "=="@ && ops[1] == ">="@ && ops[2] == "<="@ && ops[3] == ">"@ && ops[4]
        == "<"@);
    assert(ops.drop_first()[0] == ">="@);
    assert(ops.drop_first().drop_first()[0] == "<="@);
    assert(ops.drop_first().drop_first().drop_first()[0] == ">"@);
    assert(ops.drop_first().drop_first().drop_first().drop_first()[0] == "<"@);
    assert(s.skip(op.len() as int) =~= v);
    assert(s.take(op.len() as int) =~= op);
    assert forall|p: Seq<char>| #[trigger] p.is_prefix_of(s) && p.len() > 0 implies p[0] == s[0]
        && (p.len() > 1 ==> p[1] == s[1]) by {
        assert(s.subrange(0, p.len() as int) == p);
    }
    assert(op.is_prefix_of(s));
    if op.len() == 1 && v.len() > 0 {
        assert(s[1] == v[0]);
    }
}

proof fn lemma_bound_ops(clauses: Seq<Seq<char>>)
    ensures
        clause_bounds(clauses).floor matches Some((op, _)) ==> is_floor_op(op),
        clause_bounds(clauses).ceil matches Some((op, _)) ==> is_ceil_op(op),
    decreases clauses.len(),
{
    if clauses.len() > 0 {
        lemma_bound_ops(clauses.drop_last());
    }
}

/// Whether a text can stand behind any operator if it is a version. Conda versions
/// can, all of them.
pub open spec fn reads_back(v: Seq<char>) -> bool {
    version_fault(v) is None ==> is_plain(v)
}

/// Whether a range is what narrowing `existing` by the cap gives for good: it has the
/// same floor, and the same cap narrows it no further.
pub open spec fn is_narrowed(
    range: Seq<char>,
    existing: Seq<char>,
    cap_op: Seq<char>,
    cap_version: Seq<char>,
) -> bool {
    &&& bounds_of(range).floor == bounds_of(existing).floor
    &&& intersected(range, cap_op, cap_version) == Ok::<Seq<char>, Seq<char>>(range)
}

proof fn lemma_version_is_plain(v: Seq<char>)
    requires
        is_version_text(v),
    ensures
        is_plain(v),
{
    assert(is_version_char(v[0]) && is_version_char(v.last()));
    assert(!is_space(v[0]) && !is_space(v.last()));
    assert forall|k: int| 0 <= k < v.len() implies v[k] != ',' by {
        assert(is_version_char(v[k]));
    }
}

/// Narrowing a range keeps its floor as it is, and of its ceiling and the cap the
/// tighter: so a cap that is looser than the range changes nothing. An exact pin
/// stays as it is.
pub proof fn law_narrowing_keeps_the_floor(
    existing: Seq<char>,
    cap_op: Seq<char>,
    cap_version: Seq<char>,
)
    requires
        bounds_of(existing).floor matches Some((_, v)) ==> reads_back(v),
        bounds_of(existing).ceil matches Some((_, v)) ==> reads_back(v),
        reads_back(cap_version),
        is_ceil_op(cap_op),
        intersected(existing, cap_op, cap_version) is Ok,
    ensures
        ({
            let before = bounds_of(existing);
            let narrowed = intersected(existing, cap_op, cap_version)->Ok_0;
            let after = bounds_of(narrowed);
            &&& after.floor == before.floor
            &&& after.exact == before.exact
            &&& before.exact is Some ==> narrowed == existing
            &&& before.exact is None ==> after.ceil == Some(
                tighter_ceil(before.ceil, cap_op, cap_version),
            )
            &&& (before.ceil matches Some((op, v)) && version_fault(v) is None && is_within_cap(
                op,
                v,
                cap_op,
                cap_version,
            )) ==> after == before
        }),
{
    let b = bounds_of(existing);
    if b.exact is None {
        let ceil = tighter_ceil(b.ceil, cap_op, cap_version);
        let r = intersected(existing, cap_op, cap_version)->Ok_0;
        lemma_bound_ops(pieces(existing, ','));
        let c = ceil.0 + ceil.1;
        lemma_clause_reads_back(ceil.0, ceil.1);
        reveal_with_fuel(clause_bounds, 3);
        reveal_strlit(">=");
        reveal_strlit(">");
        reveal_strlit("<=");
        reveal_strlit("<");
        assert(">="@[0] == '>' && ">"@[0] == '>' && "<="@[0] == '<' && "<"@[0] == '<');
        match b.floor {
            None => {
                lemma_one_piece(c, ',');
                assert(seq![c].drop_last() =~= Seq::<Seq<char>>::empty());
                assert(seq![c].last() == c);
            },
            Some((op, v)) => {
                lemma_clause_reads_back(op, v);
                let f = op + v;
                assert(f.len() > 0);
                reveal_strlit(",");
                assert(r =~= f + seq![','] + c);
                lemma_two_pieces(f, c, ',');
                let two = seq![f, c];
                assert(two.last() == c);
                assert(two.drop_last() =~= seq![f]);
                assert(seq![f].last() == f);
                assert(seq![f].drop_last() =~= Seq::<Seq<char>>::empty());
            },
        }
    }
}

/// Narrowing a range once more by the same cap changes nothing.
pub proof fn law_narrowing_again_changes_nothing(
    existing: Seq<char>,
    cap_op: Seq<char>,
    cap_version: Seq<char>,
)
    requires
        bounds_of(existing).floor matches Some((_, v)) ==> reads_back(v),
        bounds_of(existing).ceil matches Some((_, v)) ==> reads_back(v),
        reads_back(cap_version),
        is_ceil_op(cap_op),
        intersected(existing, cap_op, cap_version) is Ok,
    ensures
        is_narrowed(
            intersected(existing, cap_op, cap_version)->Ok_0,
            existing,
            cap_op,
            cap_version,
        ),
{
    law_narrowing_keeps_the_floor(existing, cap_op, cap_version);
}

// ---------------------------------------------------------------------------
// What specs say
// ---------------------------------------------------------------------------

/// Whether a text is an operator of a requirement.
pub open spec fn is_clause_op(op: Seq<char>) -> bool {
    op == ">="@ || op == "<="@ || op == "=="@ || op == ">"@ || op == "<"@
}

proof fn lemma_clause_text(op: Seq<char>, v: Seq<char>)
    requires
        is_clause_op(op),
        is_plain(v),
    ensures
        trimmed(op + v) == op + v,
        !(op + v).contains(','),
        leading_op(op + v, clause_ops()) == Some((op, v)),
        leading_op(op + v, conda_ops()) == Some((op, v)),
        leading_op(op + v, cap_ops()) == if op == "<"@ || op == "<="@ {
            Some((op, v))
        } else {
            None
        },
{
    reveal_strlit("==");
    reveal_strlit(">=");
    reveal_strlit("<=");
    reveal_strlit(">");
    reveal_strlit("<");
    reveal_strlit("=");
    let s = op + v;
    if v.len() > 0 {
        lemma_trimmed_ends(v);
        assert(s.last() == v.last());
    } else {
        assert(s =~= op);
        assert(s.last() == op.last());
    }
    assert(s[0] == op[0]);
    assert(!is_space(s[0]) && !is_space(s.last()));
    assert(trimmed(s) == s);
    assert forall|k: int| 0 <= k < s.len() implies s[k] != ',' by {
        if k >= op.len() {
            assert(s[k] == v[k - op.len()]);
            assert(v.contains(v[k - op.len()]));
        }
    }
    reveal_with_fuel(leading_op, 7);
    assert(s.skip(op.len() as int) =~= v);
    assert(s.take(op.len() as int) =~= op);
    assert forall|p: Seq<char>| #[trigger] p.is_prefix_of(s) && p.len() > 0 implies p[0] == s[0]
        && (p.len() > 1 ==> p[1] == s[1]) by {
        assert(s.subrange(0, p.len() as int) == p);
    }
    assert(op.is_prefix_of(s));
    if op.len() == 1 && v.len() > 0 {
        assert(s[1] == v[0]);
    }
    let ops = clause_ops();
    assert(ops[0] == ">="@ && ops.drop_first()[0] == "<="@);
    assert(ops.drop_first().drop_first()[0] == "=="@);
    assert(ops.drop_first().drop_first().drop_first()[0] == ">"@);
    assert(ops.drop_first().drop_first().drop_first().drop_first()[0] == "<"@);
    let more = conda_ops();
    assert(more[0] == ">="@ && more.drop_first()[0] == "<="@);
    assert(more.drop_first().drop_first()[0] == "=="@);
    assert(more.drop_first().drop_first().drop_first()[0] == ">"@);
    assert(more.drop_first().drop_first().drop_first().drop_first()[0] == "<"@);
    let caps = cap_ops();
    assert(caps[0] == "<="@ && caps.drop_first()[0] == "<"@);
    assert(caps.drop_first().drop_first().len() == 0);
}

proof fn lemma_head_piece(a: Seq<char>, rest: Seq<char>, c: char)
    requires
        !a.contains(c),
    ensures
        pieces(a + seq![c] + rest, c).len() > 1,
        pieces(a + seq![c] + rest, c)[0] == a,
    decreases rest.len(),
{
    let s = a + seq![c] + rest;
    if rest.len() == 0 {
        assert(s.drop_last() =~= a);
        lemma_one_piece(a, c);
    } else {
        lemma_head_piece(a, rest.drop_last(), c);
        assert(s.drop_last() =~= a + seq![c] + rest.drop_last());
        assert(s.last() == rest.last());
    }
}

/// The first clause of a spec is what stands before its first comma, an operator and a
/// version; and it is a cap where the operator bounds from above.
pub proof fn law_first_clause_is_read(op: Seq<char>, v: Seq<char>, rest: Seq<char>)
    requires
        is_clause_op(op),
        is_plain(v),
    ensures
        first_clause(op + v) == Some((op, v)),
        first_clause(op + v + seq![','] + rest) == Some((op, v)),
        cap_clause(op + v) == if op == "<"@ || op == "<="@ {
            Some((op, v))
        } else {
            None
        },
        op == "<"@ || op == "<="@ ==> cap_clause(op + v + seq![','] + rest) == Some((op, v)),
{
    let s = op + v;
    lemma_clause_text(op, v);
    lemma_one_piece(s, ',');
    lemma_head_piece(s, rest, ',');
    reveal_with_fuel(cap_from, 2);
    assert(seq![s][0] == s);
}

/// The floor of a pin as packs emit them is the version of an exact pin, or the lower
/// end of a range that is open above; a floor alone is no such pin.
pub proof fn law_emitted_floors_are_read(v: Seq<char>, w: Seq<char>)
    requires
        is_plain(v),
        is_plain(w),
    ensures
        emitted_floor("=="@ + v) == Some(v),
        emitted_floor(">="@ + v + seq![','] + ("<"@ + w)) == Some(v),
        emitted_floor(">="@ + v + seq![','] + ("<="@ + w)) is None,
        emitted_floor(">="@ + v) is None,
        floor_alone(">="@ + v) == Some(v),
        floor_alone(">="@ + v + seq![','] + ("<"@ + w)) is None,
{
    lemma_emitted_alone(v);
    lemma_emitted_range(v, w);
    lemma_floor_stands_alone(v);
    lemma_floor_under_a_cap(v, w);
}

proof fn lemma_emitted_alone(v: Seq<char>)
    requires
        is_plain(v),
    ensures
        emitted_floor("=="@ + v) == Some(v),
        emitted_floor(">="@ + v) is None,
{
    reveal_strlit("==");
    reveal_strlit(">=");
    let exact = "=="@ + v;
    let floor = ">="@ + v;
    lemma_clause_text("=="@, v);
    lemma_clause_text(">="@, v);
    lemma_one_piece(exact, ',');
    lemma_one_piece(floor, ',');
    lemma_prefixes("=="@, v);
    lemma_prefixes(">="@, v);
    if "=="@.is_prefix_of(floor) {
        assert(floor.subrange(0, 2)[0] == floor[0]);
    }
}

proof fn lemma_emitted_range(v: Seq<char>, w: Seq<char>)
    requires
        is_plain(v),
        is_plain(w),
    ensures
        emitted_floor(">="@ + v + seq![','] + ("<"@ + w)) == Some(v),
        emitted_floor(">="@ + v + seq![','] + ("<="@ + w)) is None,
{
    reveal_strlit("==");
    reveal_strlit(">=");
    reveal_strlit("<=");
    reveal_strlit("<");
    let floor = ">="@ + v;
    let below = "<"@ + w;
    let upto = "<="@ + w;
    lemma_clause_text(">="@, v);
    lemma_clause_text("<"@, w);
    lemma_clause_text("<="@, w);
    lemma_two_pieces(floor, below, ',');
    lemma_two_pieces(floor, upto, ',');
    lemma_prefixes(">="@, v);
    assert(below.subrange(0, 1) =~= "<"@);
    assert(upto.subrange(0, 2) =~= "<="@);
    if "=="@.is_prefix_of(floor) {
        assert(floor.subrange(0, 2)[0] == floor[0]);
    }
    if "<="@.is_prefix_of(below) {
        assert(below.subrange(0, 2)[1] == below[1]);
        assert(below[1] == w[0]);
    }
}

proof fn lemma_floor_stands_alone(v: Seq<char>)
    requires
        is_plain(v),
    ensures
        floor_alone(">="@ + v) == Some(v),
{
    reveal_strlit(",");
    lemma_clause_text(">="@, v);
    lemma_prefixes(">="@, v);
    if occurs(v, ","@) {
        let i = choose|i: int| crate::text::occurs_at(v, ","@, i);
        assert(v.subrange(i, i + 1)[0] == v[i]);
        assert(v.contains(v[i]));
    }
}

proof fn lemma_floor_under_a_cap(v: Seq<char>, w: Seq<char>)
    requires
        is_plain(v),
        is_plain(w),
    ensures
        floor_alone(">="@ + v + seq![','] + ("<"@ + w)) is None,
{
    reveal_strlit(",");
    reveal_strlit(">=");
    reveal_strlit("<");
    let below = "<"@ + w;
    let both = ">="@ + v + seq![','] + below;
    lemma_clause_text("<"@, w);
    lemma_trimmed_ends(below);
    assert(both[0] == '>');
    assert(both.last() == below.last());
    assert(trimmed(both) == both);
    assert(both.subrange(0, 2) =~= ">="@);
    let rest = both.skip(2);
    assert(rest =~= v + seq![','] + below);
    assert(rest.subrange(v.len() as int, v.len() as int + 1) =~= ","@);
    assert(crate::text::occurs_at(rest, ","@, v.len() as int));
}

proof fn lemma_prefixes(op: Seq<char>, v: Seq<char>)
    requires
        is_plain(v),
    ensures
        after_prefix(op + v, op) == Some(v),
        trimmed(v) == v,
{
    assert((op + v).subrange(0, op.len() as int) =~= op);
    assert((op + v).skip(op.len() as int) =~= v);
}

/// The interval of a pin as packs emit them runs from its version to its version, with
/// that; or from the lower to the upper end of a range, without the upper.
pub proof fn law_intervals_are_read(v: Seq<char>, w: Seq<char>)
    requires
        is_plain(v),
        is_plain(w),
        version_fault(v) is None,
        version_fault(w) is None,
    ensures
        pin_interval("=="@ + v) matches Some(i) && i.floor == v && i.cap == v && i.inclusive,
        pin_interval(">="@ + v + seq![','] + ("<"@ + w)) matches Some(i) && i.floor == v && i.cap
            == w && !i.inclusive,
{
    reveal_strlit("==");
    reveal_strlit(">=");
    reveal_strlit("<");
    reveal_strlit("=");
    lemma_clause_text("=="@, v);
    lemma_clause_text(">="@, v);
    lemma_clause_text("<"@, w);
    lemma_one_piece("=="@ + v, ',');
    lemma_two_pieces(">="@ + v, "<"@ + w, ',');
    lemma_prefixes("=="@, v);
    lemma_prefixes(">="@, v);
    lemma_prefixes("<"@, w);
    if "="@.is_prefix_of(w) {
        assert(w.subrange(0, 1)[0] == w[0]);
    }
}

/// Two intervals have no version in common where one ends below where the other begins,
/// or just there without its end; and only there.
pub proof fn law_disjoint_intervals_do_not_meet(a: IntervalView, b: IntervalView)
    ensures
        version_less(a.cap, b.floor) ==> disjoint(a, b),
        version_less(b.cap, a.floor) ==> disjoint(a, b),
        version_same(a.cap, b.floor) && !a.inclusive ==> disjoint(a, b),
        version_same(b.cap, a.floor) && !b.inclusive ==> disjoint(a, b),
        disjoint(a, b) ==> version_less(a.cap, b.floor) || version_less(b.cap, a.floor) || (
        version_same(a.cap, b.floor) && !a.inclusive) || (version_same(b.cap, a.floor)
            && !b.inclusive),
{
}

/// A conda range says the same as a requirement of a wheel, clause by clause; only a bare
/// `=` is written `==`.
pub proof fn law_translation_keeps_the_clauses(
    op: Seq<char>,
    v: Seq<char>,
    op2: Seq<char>,
    w: Seq<char>,
)
    requires
        is_clause_op(op),
        is_clause_op(op2),
        is_plain(v),
        is_plain(w),
    ensures
        pep440_range(op + v) == op + v,
        pep440_range("="@ + v) == "=="@ + v,
        pep440_range(op + v + seq![','] + (op2 + w)) == op + v + seq![','] + (op2 + w),
{
    lemma_translated_clause(op, v);
    lemma_translated_clause(op2, w);
    lemma_translated_equals(v);
    lemma_translated_one(op + v, op + v);
    lemma_translated_one("="@ + v, "=="@ + v);
    lemma_translated_two(op + v, op2 + w);
}

proof fn lemma_translated_clause(op: Seq<char>, v: Seq<char>)
    requires
        is_clause_op(op),
        is_plain(v),
    ensures
        pep440_clause(trimmed(op + v)) == op + v,
        !(op + v).contains(','),
{
    lemma_clause_text(op, v);
    lemma_ops_are_not_equals(op);
}

proof fn lemma_translated_equals(v: Seq<char>)
    requires
        is_plain(v),
    ensures
        pep440_clause(trimmed("="@ + v)) == "=="@ + v,
        !("="@ + v).contains(','),
{
    lemma_bare_equals(v);
}

proof fn lemma_translated_one(a: Seq<char>, t: Seq<char>)
    requires
        pep440_clause(trimmed(a)) == t,
        !a.contains(','),
    ensures
        pep440_range(a) == t,
{
    reveal_strlit(",");
    let f = |clause: Seq<char>| pep440_clause(trimmed(clause));
    lemma_one_piece(a, ',');
    assert(f(a) == t);
    assert(seq![a].map_values(f) =~= seq![t]);
    lemma_join_one(t);
}

proof fn lemma_translated_two(a: Seq<char>, b: Seq<char>)
    requires
        pep440_clause(trimmed(a)) == a,
        pep440_clause(trimmed(b)) == b,
        !a.contains(','),
        !b.contains(','),
    ensures
        pep440_range(a + seq![','] + b) == a + seq![','] + b,
{
    reveal_strlit(",");
    let f = |clause: Seq<char>| pep440_clause(trimmed(clause));
    lemma_two_pieces(a, b, ',');
    assert(f(a) == a && f(b) == b);
    assert(seq![a, b].map_values(f) =~= seq![a, b]);
    lemma_join_two(a, b);
    assert(a + ","@ + b =~= a + seq![','] + b);
}

proof fn lemma_ops_are_not_equals(op: Seq<char>)
    requires
        is_clause_op(op),
    ensures
        op != "="@,
{
    reveal_strlit("==");
    reveal_strlit(">=");
    reveal_strlit("<=");
    reveal_strlit(">");
    reveal_strlit("<");
    reveal_strlit("=");
    assert("="@[0] == '=' && "="@.len() == 1);
    assert(">"@[0] == '>' && "<"@[0] == '<');
}

proof fn lemma_bare_equals(v: Seq<char>)
    requires
        is_plain(v),
    ensures
        trimmed("="@ + v) == "="@ + v,
        !("="@ + v).contains(','),
        leading_op("="@ + v, conda_ops()) == Some(("="@, v)),
{
    reveal_strlit("==");
    reveal_strlit(">=");
    reveal_strlit("<=");
    reveal_strlit(">");
    reveal_strlit("<");
    reveal_strlit("=");
    let s = "="@ + v;
    if v.len() > 0 {
        lemma_trimmed_ends(v);
        assert(s.last() == v.last());
        assert(s[1] == v[0]);
    } else {
        assert(s.last() == '=');
    }
    assert(s[0] == '=');
    assert(trimmed(s) == s);
    assert forall|k: int| 0 <= k < s.len() implies s[k] != ',' by {
        if k >= 1 {
            assert(s[k] == v[k - 1]);
            assert(v.contains(v[k - 1]));
        }
    }
    reveal_with_fuel(leading_op, 7);
    assert(s.skip(1) =~= v);
    assert(s.subrange(0, 1) =~= "="@);
    assert forall|p: Seq<char>| #[trigger] p.is_prefix_of(s) && p.len() > 0 implies p[0] == s[0]
        && (p.len() > 1 ==> p[1] == s[1]) by {
        assert(s.subrange(0, p.len() as int) == p);
    }
    let more = conda_ops();
    assert(more[0] == ">="@ && more.drop_first()[0] == "<="@);
    assert(more.drop_first().drop_first()[0] == "=="@);
    assert(more.drop_first().drop_first().drop_first()[0] == ">"@);
    assert(more.drop_first().drop_first().drop_first().drop_first()[0] == "<"@);
    assert(more.drop_first().drop_first().drop_first().drop_first().drop_first()[0] == "="@);
}

proof fn lemma_join_one(a: Seq<char>)
    ensures
        joined(seq![a], ","@) == a,
{
    reveal_with_fuel(joined, 2);
    assert(seq![a].drop_last() =~= Seq::empty());
    assert(joined(seq![a], ","@) =~= a);
}

proof fn lemma_join_two(a: Seq<char>, b: Seq<char>)
    ensures
        joined(seq![a, b], ","@) == a + ","@ + b,
{
    reveal_with_fuel(joined, 3);
    lemma_join_one(a);
    assert(seq![a, b].drop_last() =~= seq![a]);
    assert(joined(seq![a, b], ","@) =~= a + ","@ + b);
}

/// A widened pin begins at the floor that was asked for. Without a ceiling it says no
/// more; with one it ends below the next major version, or below the next minor version
/// of the same major one, where the floor has these numbers.
pub proof fn law_widening_starts_at_the_floor(
    op: Seq<char>,
    major: Seq<char>,
    minor: Seq<char>,
    m: nat,
    n: nat,
)
    requires
        !major.contains('.'),
        !minor.contains('.'),
        parsed_number(major, u64::MAX as nat) == Some(m),
        parsed_number(minor, u64::MAX as nat) == Some(n),
    ensures
        forall|floor: Seq<char>|
            #![trigger widened(op, floor, WidenCeilingPolicy::Unbounded)]
            widened(op, floor, WidenCeilingPolicy::Unbounded) == op + floor,
        widened(op, major, WidenCeilingPolicy::NextMajor) == op + major + ",<"@ + decimal(m + 1),
        widened(op, major, WidenCeilingPolicy::SameMinor) == op + major + ",<"@ + (decimal(m)
            + "."@ + decimal(1)),
        ({
            let floor = major + seq!['.'] + minor;
            &&& widened(op, floor, WidenCeilingPolicy::NextMajor) == op + floor + ",<"@ + decimal(
                m + 1,
            )
            &&& widened(op, floor, WidenCeilingPolicy::SameMinor) == op + floor + ",<"@ + (decimal(
                m,
            ) + "."@ + decimal(n + 1))
        }),
{
    lemma_one_piece(major, '.');
    lemma_two_pieces(major, minor, '.');
}

/// What is left of a pin without its operator begins with the first digit.
pub proof fn law_version_begins_at_its_first_digit(op: Seq<char>, version: Seq<char>)
    requires
        forall|k: int| 0 <= k < op.len() ==> !is_digit(#[trigger] op[k]),
        version.len() == 0 || is_digit(version[0]),
    ensures
        from_first_digit(op + version) == version,
    decreases op.len(),
{
    if op.len() > 0 {
        assert((op + version).drop_first() =~= op.drop_first() + version);
        assert forall|k: int| 0 <= k < op.drop_first().len() implies !is_digit(
            #[trigger] op.drop_first()[k],
        ) by {
            assert(op.drop_first()[k] == op[k + 1]);
        }
        law_version_begins_at_its_first_digit(op.drop_first(), version);
    } else {
        assert(op + version =~= version);
    }
}

/// Where there is one exact pin among specs, its version is the only one; where there are
/// two or none, there is no such version.
pub proof fn law_only_exact_pin_counts(specs: Seq<Seq<char>>, v: Seq<char>)
    requires
        is_plain(v),
        v.len() > 0,
        forall|i: int| 0 <= i < specs.len() ==> exact_version(#[trigger] specs[i]) is None,
    ensures
        only_exact(specs) is None,
        only_exact(specs.push("=="@ + v)) == Some(v),
        only_exact(specs.push("=="@ + v).push("=="@ + v)) is None,
{
    lemma_exact_version(v);
    lemma_counted(specs, "=="@ + v, v);
}

proof fn lemma_exact_version(v: Seq<char>)
    requires
        is_plain(v),
        v.len() > 0,
    ensures
        exact_version("=="@ + v) == Some(v),
{
    lemma_clause_text("=="@, v);
    lemma_prefixes("=="@, v);
}

proof fn lemma_counted(specs: Seq<Seq<char>>, pin: Seq<char>, v: Seq<char>)
    requires
        forall|i: int| 0 <= i < specs.len() ==> exact_version(#[trigger] specs[i]) is None,
        exact_version(pin) == Some(v),
    ensures
        only_exact(specs) is None,
        only_exact(specs.push(pin)) == Some(v),
        only_exact(specs.push(pin).push(pin)) is None,
{
    let f = |s: Seq<char>| exact_version(s);
    let one = specs.push(pin);
    let two = one.push(pin);
    lemma_none_left(specs, specs.len() as int);
    assert(specs.take(specs.len() as int) =~= specs);
    one.lemma_filter_map_take_succ(f, specs.len() as int);
    assert(one.take(specs.len() as int) =~= specs);
    assert(one.take(specs.len() as int + 1) =~= one);
    two.lemma_filter_map_take_succ(f, one.len() as int);
    assert(two.take(one.len() as int) =~= one);
    assert(two.take(one.len() as int + 1) =~= two);
    assert(one.filter_map(f) =~= seq![v]);
    assert(two.filter_map(f) =~= seq![v, v]);
}

proof fn lemma_none_left(specs: Seq<Seq<char>>, n: int)
    requires
        0 <= n <= specs.len(),
        forall|i: int| 0 <= i < specs.len() ==> exact_version(#[trigger] specs[i]) is None,
    ensures
        specs.take(n).filter_map(|s: Seq<char>| exact_version(s)).len() == 0,
    decreases n,
{
    let f = |s: Seq<char>| exact_version(s);
    if n > 0 {
        lemma_none_left(specs, n - 1);
        specs.lemma_filter_map_take_succ(f, n - 1);
        assert(exact_version(specs[n - 1]) is None);
    } else {
        assert(specs.take(0).filter_map(f) =~= Seq::<Seq<char>>::empty());
    }
}

/// What narrowing leaves admits nothing that the cap excludes: its ceiling is the cap, or
/// its own that lies below it or with it, and is then no wider; something is left between
/// floor and ceiling; and an exact pin is left only where the cap admits it.
pub proof fn law_narrowed_range_is_within_the_cap(
    existing: Seq<char>,
    cap_op: Seq<char>,
    cap_version: Seq<char>,
)
    requires
        bounds_of(existing).floor matches Some((_, v)) ==> reads_back(v),
        bounds_of(existing).ceil matches Some((_, v)) ==> reads_back(v),
        reads_back(cap_version),
        is_ceil_op(cap_op),
        intersected(existing, cap_op, cap_version) is Ok,
    ensures
        ({
            let before = bounds_of(existing);
            let after = bounds_of(intersected(existing, cap_op, cap_version)->Ok_0);
            &&& version_fault(cap_version) is None
            &&& match before.exact {
                Some(v) => if cap_op == "<"@ {
                    version_less(v, cap_version)
                } else {
                    !version_less(cap_version, v)
                },
                None => match after.ceil {
                    None => false,
                    Some((op, v)) => {
                        &&& (op, v) == (cap_op, cap_version) || before.ceil == Some((op, v)) && (
                        version_less(v, cap_version) || !version_less(cap_version, v) && (cap_op
                            == "<"@ ==> op == "<"@))
                        &&& match after.floor {
                            None => true,
                            Some((floor_op, floor)) => if op == "<"@ || floor_op == ">"@ {
                                version_less(floor, v)
                            } else {
                                !version_less(v, floor)
                            },
                        }
                    },
                },
            }
        }),
{
    law_narrowing_keeps_the_floor(existing, cap_op, cap_version);
    lemma_bound_ops(pieces(existing, ','));
    reveal_strlit("<");
    reveal_strlit("<=");
    reveal_strlit(">");
    reveal_strlit(">=");
    assert("<"@.len() == 1 && "<="@.len() == 2);
}

/// A floor that a cap leaves nothing above is refused, and so is an exact pin that the cap
/// excludes.
pub proof fn law_contradiction_is_refused(
    existing: Seq<char>,
    cap_op: Seq<char>,
    cap_version: Seq<char>,
)
    requires
        is_ceil_op(cap_op),
        ({
            let b = bounds_of(existing);
            match b.exact {
                Some(v) => if cap_op == "<"@ {
                    !version_less(v, cap_version)
                } else {
                    version_less(cap_version, v)
                },
                None => match b.floor {
                    None => false,
                    Some((floor_op, floor)) => b.ceil is None && if cap_op == "<"@ || floor_op
                        == ">"@ {
                        !version_less(floor, cap_version)
                    } else {
                        version_less(cap_version, floor)
                    },
                },
            }
        }),
    ensures
        intersected(existing, cap_op, cap_version) is Err,
{
    reveal_strlit("<");
    reveal_strlit("<=");
    assert("<"@.len() == 1 && "<="@.len() == 2);
}

/// A record tells how far the ceiling of a widening reaches.
pub proof fn law_ceilings_go_by_their_names(policy: WidenCeilingPolicy)
    ensures
        policy_name(policy) == "next-major"@ <==> policy == WidenCeilingPolicy::NextMajor,
        policy_name(policy) == "none"@ <==> policy == WidenCeilingPolicy::Unbounded,
        policy_name(policy) == "same-minor"@ <==> policy == WidenCeilingPolicy::SameMinor,
{
    reveal_strlit("next-major");
    reveal_strlit("none");
    reveal_strlit("same-minor");
    assert("next-major"@.len() == 10 && "none"@.len() == 4 && "same-minor"@.len() == 10);
    assert("next-major"@[0] == 'n' && "same-minor"@[0] == 's');
}

/// A bound at the lowest version that there is excludes everything, and is no bound that a
/// package states; it may be written in three ways, with blanks around it.
pub proof fn law_lowest_version_is_no_bound(version: Seq<char>)
    ensures
        is_sentinel(version) <==> trimmed(version) == "0a0"@ || trimmed(version) == "0.0a0"@
            || trimmed(version) == "0.0.0a0"@,
{
}

} // verus!
