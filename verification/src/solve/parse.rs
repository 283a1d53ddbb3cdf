//! What a solver's message says: the conflict that it reports, the packages and
//! versions that it mentions, and the pack that it was raised in.
use crate::patterns::{
    escape, find, find_all, group_text, lies_in, regex_all, regex_escaped, regex_first,
    regex_replaced_all, regex_replaced_first, replace_all, replace_first, MatchView, RegexMatch,
};
use crate::text::{
    clone_option, contains, eq_ignore_ascii_case, holds_text, is_space, last_at, last_before,
    law_trimming_takes_blanks_off, line_pieces, lines, occurs, occurs_at, push_view, replace,
    replaced, rfind, same_name, skip_chars, take_chars, text_eq, trim, trimmed,
};
use vstd::prelude::*;
use vstd::utf8::encode_utf8;

verus! {

broadcast use vstd::seq_lib::group_seq_properties;

// ---------------------------------------------------------------------------
// What messages say
// ---------------------------------------------------------------------------

/// A package with a version spec, found somewhere in a message.
#[derive(Debug)]
pub struct Mention {
    /// The name as written.
    pub package: String,
    /// The spec, with a bare `=` written `==`.
    pub spec: String,
    /// The subject of the nearest clause before it that states a requirement.
    pub requirer: Option<String>,
}

/// What a `Mention` says.
#[verifier::ext_equal]
pub struct MentionView {
    pub package: Seq<char>,
    pub spec: Seq<char>,
    pub requirer: Option<Seq<char>>,
}

impl DeepView for Mention {
    type V = MentionView;

    open spec fn deep_view(&self) -> MentionView {
        MentionView {
            package: self.package@,
            spec: self.spec@,
            requirer: self.requirer.deep_view(),
        }
    }
}

/// One fact of a failed solve that a repair can act on.
#[derive(Debug, PartialEq, Eq)]
#[allow(inconsistent_fields)]
pub enum Conflict {
    /// A pin has no candidate in the ecosystem just tried.
    NoCandidates { package: String, version: String },
    /// A version that conda pins clashes with a requirement of a wheel.
    CondaBoundary { package: String, version: String },
    /// The conflict lies among wheels alone.
    PypiInternal { package: String, version: String },
    /// A requirement of a wheel needs a range that a conda pin blocks. The chain
    /// leads from the package to those that require it, nearest first. The pack is
    /// the one whose closure the conflict was raised in.
    CondaWidenNeeded {
        package: String,
        op: String,
        floor: String,
        conda_version: String,
        requiring_chain: Vec<String>,
        pack_name: Option<String>,
    },
    /// An exact pin of upstream requirements blocks what another wheel requires.
    DepsFromPin {
        package: String,
        pinned_version: String,
        op: String,
        floor: String,
        requirer: String,
        pack_name: Option<String>,
    },
    /// An exact pin requires a package that has no wheel in the required range.
    NoWheelTransitive {
        package: String,
        range: String,
        requirer: String,
        requirer_pin: String,
        pack_name: Option<String>,
    },
    /// The workspace's own conda range excludes the version that a pack demands.
    CondaRangeVsPackPin {
        package: String,
        conda_range: String,
        pack_demand: String,
        pack_name: String,
    },
    /// A dependency below a pack caps a package that the pack demands.
    NestedCondaCap {
        package: String,
        pack_name: String,
        pack_demand: String,
        cap_op: String,
        cap_version: String,
        via: String,
    },
}

/// What a `Conflict` says.
#[verifier::ext_equal]
#[allow(inconsistent_fields)]
pub enum ConflictView {
    NoCandidates { package: Seq<char>, version: Seq<char> },
    CondaBoundary { package: Seq<char>, version: Seq<char> },
    PypiInternal { package: Seq<char>, version: Seq<char> },
    CondaWidenNeeded {
        package: Seq<char>,
        op: Seq<char>,
        floor: Seq<char>,
        conda_version: Seq<char>,
        requiring_chain: Seq<Seq<char>>,
        pack_name: Option<Seq<char>>,
    },
    DepsFromPin {
        package: Seq<char>,
        pinned_version: Seq<char>,
        op: Seq<char>,
        floor: Seq<char>,
        requirer: Seq<char>,
        pack_name: Option<Seq<char>>,
    },
    NoWheelTransitive {
        package: Seq<char>,
        range: Seq<char>,
        requirer: Seq<char>,
        requirer_pin: Seq<char>,
        pack_name: Option<Seq<char>>,
    },
    CondaRangeVsPackPin {
        package: Seq<char>,
        conda_range: Seq<char>,
        pack_demand: Seq<char>,
        pack_name: Seq<char>,
    },
    NestedCondaCap {
        package: Seq<char>,
        pack_name: Seq<char>,
        pack_demand: Seq<char>,
        cap_op: Seq<char>,
        cap_version: Seq<char>,
        via: Seq<char>,
    },
}

impl DeepView for Conflict {
    type V = ConflictView;

    open spec fn deep_view(&self) -> ConflictView {
        match self {
            Conflict::NoCandidates { package, version } => ConflictView::NoCandidates {
                package: package@,
                version: version@,
            },
            Conflict::CondaBoundary { package, version } => ConflictView::CondaBoundary {
                package: package@,
                version: version@,
            },
            Conflict::PypiInternal { package, version } => ConflictView::PypiInternal {
                package: package@,
                version: version@,
            },
            Conflict::CondaWidenNeeded {
                package,
                op,
                floor,
                conda_version,
                requiring_chain,
                pack_name,
            } => ConflictView::CondaWidenNeeded {
                package: package@,
                op: op@,
                floor: floor@,
                conda_version: conda_version@,
                requiring_chain: requiring_chain.deep_view(),
                pack_name: pack_name.deep_view(),
            },
            Conflict::DepsFromPin { package, pinned_version, op, floor, requirer, pack_name } =>
                ConflictView::DepsFromPin {
                package: package@,
                pinned_version: pinned_version@,
                op: op@,
                floor: floor@,
                requirer: requirer@,
                pack_name: pack_name.deep_view(),
            },
            Conflict::NoWheelTransitive { package, range, requirer, requirer_pin, pack_name } =>
                ConflictView::NoWheelTransitive {
                package: package@,
                range: range@,
                requirer: requirer@,
                requirer_pin: requirer_pin@,
                pack_name: pack_name.deep_view(),
            },
            Conflict::CondaRangeVsPackPin { package, conda_range, pack_demand, pack_name } =>
                ConflictView::CondaRangeVsPackPin {
                package: package@,
                conda_range: conda_range@,
                pack_demand: pack_demand@,
                pack_name: pack_name@,
            },
            Conflict::NestedCondaCap {
                package,
                pack_name,
                pack_demand,
                cap_op,
                cap_version,
                via,
            } => ConflictView::NestedCondaCap {
                package: package@,
                pack_name: pack_name@,
                pack_demand: pack_demand@,
                cap_op: cap_op@,
                cap_version: cap_version@,
                via: via@,
            },
        }
    }
}

/// The name of a conflict's kind.
pub open spec fn kind_name(c: ConflictView) -> Seq<char> {
    match c {
        ConflictView::NoCandidates { .. } => "NoCandidates"@,
        ConflictView::CondaBoundary { .. } => "CondaBoundary"@,
        ConflictView::PypiInternal { .. } => "PypiInternal"@,
        ConflictView::CondaWidenNeeded { .. } => "CondaWidenNeeded"@,
        ConflictView::DepsFromPin { .. } => "DepsFromPin"@,
        ConflictView::NoWheelTransitive { .. } => "NoWheelTransitive"@,
        ConflictView::CondaRangeVsPackPin { .. } => "CondaRangeVsPackPin"@,
        ConflictView::NestedCondaCap { .. } => "NestedCondaCap"@,
    }
}

impl Conflict {
    /// The name of the conflict's kind.
    pub fn kind(&self) -> (r: &'static str)
        ensures
            r@ == kind_name(self.deep_view()),
    {
        match self {
            Conflict::NoCandidates { .. } => "NoCandidates",
            Conflict::CondaBoundary { .. } => "CondaBoundary",
            Conflict::PypiInternal { .. } => "PypiInternal",
            Conflict::CondaWidenNeeded { .. } => "CondaWidenNeeded",
            Conflict::DepsFromPin { .. } => "DepsFromPin",
            Conflict::NoWheelTransitive { .. } => "NoWheelTransitive",
            Conflict::CondaRangeVsPackPin { .. } => "CondaRangeVsPackPin",
            Conflict::NestedCondaCap { .. } => "NestedCondaCap",
        }
    }
}

/// A reader of solver messages.
pub trait ConflictParser {
    /// The conflict that a message reports; `None` where it reports none that is
    /// known.
    fn parse(&self, stderr: &str) -> Option<Conflict>;
}

// ---------------------------------------------------------------------------
// Patterns
// ---------------------------------------------------------------------------

pub const ANSI: &'static str = r"\x1b\[[0-9;]*m";

pub const NO_CANDIDATES: &'static str =
    r"No candidates were found for ([a-zA-Z0-9_-]+)\s*==\s*([0-9][0-9a-zA-Z.]*[0-9a-zA-Z])";

pub const HELP_CONDA: &'static str =
    r"(?s)pinned by the conda solve.*?\n\s+([a-zA-Z0-9_-]+)==([0-9][0-9a-zA-Z._-]*)";

pub const UV_CLOSURE_MESSAGE: &'static str = r#"(?s)message: "(.*?)",[\s│├╰▶─×]*data:"#;

pub const GUTTER: &'static str = r"(?m)^[\s│├╰▶─×]+";

pub const WHITESPACE: &'static str = r"\s+";

pub const CONDA_PROVENANCE: &'static str =
    r"package `([a-zA-Z0-9_.-]+)` is named in the conflict but conda pins `[a-zA-Z0-9_.-]+\s*(>=|>|==)\s*([0-9][0-9a-zA-Z.]*)";

pub const NO_CONDA_CONSTRAINT: &'static str =
    r"no generated conda constraint was named in uv's message";

pub const NO_VERSION_OF: &'static str =
    r"there is no version of ([a-zA-Z0-9_-]+)\s*==\s*([0-9][0-9a-zA-Z.]*(?:rc|a|b|dev)?[0-9a-zA-Z.]*)";

pub const REQUIRING_CHAIN: &'static str =
    r"(?i)because ([a-zA-Z0-9_.\[\]-]+)==[0-9a-zA-Z.]+ depends on ([a-zA-Z0-9_.\[\]-]+)";

pub const UV_CLOSURE_BUNDLE: &'static str = r"computing uv closure for bundle `([^`]+)`";

pub const CONDA_INCOMPATIBLE: &'static str =
    r"(?s)([a-zA-Z0-9_-]+)\s*(<|<=)\s*([0-9][0-9a-zA-Z.]*)[\s│├╰└─▶]+cannot be installed[\s│├╰└─▶]+because there are no viable options";

pub const CONDA_INCOMPATIBLE_EXACT: &'static str =
    r"(?s)([a-zA-Z0-9_-]+)\s*(==|=)\s*([0-9][0-9a-zA-Z.]*)[\s│├╰└─▶]+cannot\s+be\s+installed[\s│├╰└─▶]+because\s+there\s+are\s+no\s+viable\s+options";

pub const CONDA_INCOMPATIBLE_RANGE: &'static str =
    r"(?s)([a-zA-Z0-9_-]+)\s*(>=|>)\s*([0-9][0-9a-zA-Z.]*)\s*,\s*(<|<=)\s*([0-9][0-9a-zA-Z.]*)[\s│├╰└─▶]+cannot\s+be\s+installed[\s│├╰└─▶]+because\s+there\s+are\s+no\s+viable\s+options";

pub const DEPS_FROM_BECAUSE: &'static str =
    r"(?i)because\s+([a-zA-Z0-9_.\[\]-]+)==[0-9a-zA-Z.]+\s+depends\s+on\s+([a-zA-Z0-9_.\[\]-]+)(?:\[[^\]]*\])?\s*(>=|>)\s*([0-9][0-9a-zA-Z.]*)";

pub const NO_USABLE_WHEELS: &'static str =
    r"(?i)([a-zA-Z0-9][a-zA-Z0-9._-]*)((?:>=|<=|==|>|<)\S*)\s+has no usable wheels";

pub const PACK_DEMAND: &'static str =
    r"(?s)([a-zA-Z][a-zA-Z0-9_.-]*)\s+[0-9][0-9a-zA-Z.]*\s+would\s+require[\s│├╰└─▶]*([a-zA-Z0-9_-]+)\s*(?:==|=)\s*([0-9][0-9a-zA-Z.]*)";

pub const MENTION: &'static str =
    r"(?i)\b([A-Za-z][A-Za-z0-9._-]{1,60}?)\s*(>=|<=|==|=|>|<)\s*([0-9][0-9A-Za-z.]*\*?)(?:\s*,\s*(>=|<=|==|=|>|<)\s*([0-9][0-9A-Za-z.]*\*?))?";

pub const REQUIRER: &'static str =
    r"(?i)\b([A-Za-z][A-Za-z0-9._-]*)\s*(?:==|=)?\s*[0-9][0-9A-Za-z.]*(?:\s*\|\s*[0-9A-Za-z.]+)*\s+(?:would\s+require|depends\s+on)";

pub const WOULD_REQUIRE: &'static str =
    r"(?s)([a-zA-Z][a-zA-Z0-9_.-]*)\s+[0-9][0-9a-zA-Z.]*\s+would\s+require";

pub const ABI_BUILD_TAIL: &'static str =
    r"(?s)([A-Za-z][A-Za-z0-9._-]*)\s*==\s*([0-9][0-9A-Za-z.]*)\s+cannot be\s+installed because there are no viable options:.{0,400}?would require[\s│├╰└─▶]*python_abi\s+([0-9.]+)\.\*\s+\*_cp(\d+),\s*for which no\s+candidates were found";

pub const RENAMED_COMPANION: &'static str =
    r"(?s)([A-Za-z][A-Za-z0-9._-]*)\s*==\s*([0-9][0-9A-Za-z.]*)\s+cannot be\s+installed because there are no viable\s+options:.{0,200}?would constrain[\s│├╰└─▶]*([A-Za-z][A-Za-z0-9._-]*)\s*==\s*([0-9][0-9A-Za-z.]*)\|[0-9][0-9A-Za-z.]*\.\*,\s*which conflicts with any\s+installable\s+versions previously reported";

pub const DUAL_RANGE_TAIL: &'static str =
    r"(?:\{[^}]*\})?\s*(>=|>)\s*([0-9][0-9a-zA-Z.]*),<[0-9a-zA-Z.]+";

pub const PROJECT_PIN_TAIL: &'static str = r"(?:\[[^\]]*\])?\s*(==|===)\s*([0-9][0-9a-zA-Z.]*)";

pub const WHEEL_REQUIRER_HEAD: &'static str =
    r"(?i)because\s+([a-zA-Z0-9_.\[\]-]+)==([0-9][0-9a-zA-Z.]*)\s+depends\s+on\s+";

pub const WHEEL_REQUIRER_TAIL: &'static str = r"(?:\[[^\]]*\])?\s*(==|===)\s*[0-9a-zA-Z.*]+";

pub const REQUIRE_HEAD: &'static str = r"(?s)would require[\s│├╰└─▶]*";

pub const PACK_REQUIRE_HEAD: &'static str =
    r"(?s)([a-zA-Z][a-zA-Z0-9_.-]*)\s+[0-9][0-9a-zA-Z.]*\s+would require[\s│├╰└─▶]*";

pub const NESTED_HEAD: &'static str =
    r"(?s)([a-zA-Z][a-zA-Z0-9_.-]*)\s+[0-9.]+(?:\s*\|\s*[0-9.]+)*\s+would\s+require[\s│├╰└─▶]*";

pub const FLOOR_TAIL: &'static str = r"\s*(>=|>)\s*([0-9][0-9a-zA-Z.]*)";

pub const EXACT_TAIL: &'static str = r"\s*(==|=)\s*([0-9][0-9a-zA-Z.]*)";

pub const ANY_FLOOR_TAIL: &'static str = r"\s*(==|=|>=|>)\s*([0-9][0-9a-zA-Z.]*)";

pub const CAP_TAIL: &'static str = r"\s*(<=|<)\s*([0-9][0-9a-zA-Z.]*)";

pub const LONG_FLOOR_TAIL: &'static str = r"\s*(>=|>)\s*([0-9][0-9a-zA-Z._-]*)";

pub const NEEDED_TAIL: &'static str = r"\s*(>=|>)\s*([0-9][0-9a-zA-Z._-]*)\s+is needed";

pub const LONG_PIN_TAIL: &'static str = r"==([0-9][0-9a-zA-Z._-]*)";

fn around(head: &str, name: &str, tail: &str) -> (r: String)
    ensures
        r@ == head@ + name@ + tail@,
{
    let mut s: String = head.to_owned();
    s.append(name);
    s.append(tail);
    s
}

/// The first match of a pattern that is a regular expression.
pub open spec fn found(pattern: Seq<char>, text: Seq<char>) -> Option<MatchView> {
    match regex_first(pattern, text) {
        Some(m) => m,
        None => None,
    }
}

fn search(pattern: &str, text: &str) -> (r: Option<RegexMatch>)
    ensures
        r.deep_view() == found(pattern@, text@),
        match r {
            Some(m) => lies_in(m.deep_view(), text@),
            None => true,
        },
{
    match find(pattern, text) {
        Some(m) => m,
        None => None,
    }
}

// ---------------------------------------------------------------------------
// Flattening
// ---------------------------------------------------------------------------

/// Lines as one: with a space between two, unless what comes before is empty or
/// ends in a hyphen, where a name was broken.
pub open spec fn rejoined(parts: Seq<Seq<char>>) -> Seq<char>
    decreases parts.len(),
{
    if parts.len() == 0 {
        Seq::empty()
    } else {
        let before = rejoined(parts.drop_last());
        if before.len() > 0 && before.last() != '-' {
            before.push(' ') + parts.last()
        } else {
            before + parts.last()
        }
    }
}

/// Lines as one: with a space between two, unless what comes before is empty or
/// ends in a hyphen, where a name was broken.
pub fn rejoin_lines(parts: &Vec<String>) -> (r: String)
    ensures
        r@ == rejoined(parts.deep_view()),
{
    let ghost all = parts.deep_view();
    let n: usize = parts.len();
    let mut out: String = String::new();
    let mut i: usize = 0;
    while i < n
        invariant
            i <= n,
            n == parts@.len(),
            all == parts.deep_view(),
            out@ == rejoined(all.take(i as int)),
        decreases n - i,
    {
        assert(all.take(i + 1).drop_last() =~= all.take(i as int));
        assert(all[i as int] == parts@[i as int]@);
        let hyphen: bool = crate::text::ends_with(&out, "-");
        proof {
            reveal_strlit("-");
            assert("-"@ =~= seq!['-']);
            if out@.len() > 0 {
                assert(out@.subrange(out@.len() - 1, out@.len() as int) =~= seq![out@.last()]);
                assert("-"@.is_suffix_of(out@) ==> out@.last() == '-') by {
                    if "-"@.is_suffix_of(out@) {
                        assert(seq![out@.last()][0] == "-"@[0]);
                    }
                }
            }
        }
        if !out.as_str().is_empty() && !hyphen {
            out.push(' ');
        }
        out.append(&parts[i]);
        i = i + 1;
    }
    assert(all.take(n as int) =~= all);
    out
}

/// The lines of a text without what is drawn before each.
pub open spec fn ungutted(text: Seq<char>) -> Seq<Seq<char>> {
    line_pieces(text).map_values(|l: Seq<char>| regex_replaced_first(GUTTER@, l, ""@))
}

fn strip_gutters(text: &str) -> (r: Vec<String>)
    ensures
        r.deep_view() == ungutted(text@),
{
    let parts = lines(text);
    let ghost all = parts.deep_view();
    let ghost f = |l: Seq<char>| regex_replaced_first(GUTTER@, l, ""@);
    let n: usize = parts.len();
    let mut out: Vec<String> = Vec::new();
    let mut i: usize = 0;
    assert(out.deep_view() =~= all.take(0).map_values(f));
    while i < n
        invariant
            i <= n,
            n == parts@.len(),
            all == parts.deep_view(),
            f == (|l: Seq<char>| regex_replaced_first(GUTTER@, l, ""@)),
            out.deep_view() == all.take(i as int).map_values(f),
        decreases n - i,
    {
        assert(all[i as int] == parts@[i as int]@);
        push_view(&mut out, replace_first(GUTTER, &parts[i], ""));
        assert(all.take(i + 1).map_values(f) =~= all.take(i as int).map_values(f).push(
            f(all[i as int]),
        ));
        i = i + 1;
    }
    assert(all.take(n as int) =~= all);
    out
}

/// The resolver's message in the report of a build backend, as one line.
pub open spec fn uv_message(stderr: Seq<char>) -> Option<Seq<char>> {
    match found(UV_CLOSURE_MESSAGE@, stderr) {
        Some(m) => Some(
            trimmed(
                regex_replaced_all(
                    WHITESPACE@,
                    replaced(rejoined(ungutted(group_text(m, 1))), "\\n"@, " "@),
                    " "@,
                ),
            ),
        ),
        None => None,
    }
}

/// A message as one line.
pub open spec fn flattened(stderr: Seq<char>) -> Seq<char> {
    match uv_message(stderr) {
        Some(msg) => msg,
        None => trimmed(
            regex_replaced_all(
                WHITESPACE@,
                rejoined(ungutted(regex_replaced_all(ANSI@, stderr, ""@))),
                " "@,
            ),
        ),
    }
}

// ---------------------------------------------------------------------------
// Who requires a package
// ---------------------------------------------------------------------------

/// The names found so far, and those found in this round.
pub type ChainState = (Seq<Seq<char>>, Seq<Seq<char>>);

/// The state after one requirement, a pair of requirer and package, was held
/// against `current`.
pub open spec fn chain_step(
    footer: Seq<char>,
    current: Seq<char>,
    pair: (Seq<char>, Seq<char>),
    state: ChainState,
) -> ChainState {
    if same_name(pair.1, current) && pair.0 != footer && !state.0.contains(pair.0) {
        (state.0.push(pair.0), state.1.push(pair.0))
    } else {
        state
    }
}

/// The state after every requirement was held against `current`.
pub open spec fn chain_scan(
    footer: Seq<char>,
    current: Seq<char>,
    pairs: Seq<(Seq<char>, Seq<char>)>,
    state: ChainState,
) -> ChainState
    decreases pairs.len(),
{
    if pairs.len() == 0 {
        state
    } else {
        chain_step(
            footer,
            current,
            pairs.last(),
            chain_scan(footer, current, pairs.drop_last(), state),
        )
    }
}

/// The state after every requirement was held against each of `frontier`.
pub open spec fn chain_round(
    footer: Seq<char>,
    frontier: Seq<Seq<char>>,
    pairs: Seq<(Seq<char>, Seq<char>)>,
    state: ChainState,
) -> ChainState
    decreases frontier.len(),
{
    if frontier.len() == 0 {
        state
    } else {
        chain_scan(
            footer,
            frontier.last(),
            pairs,
            chain_round(footer, frontier.drop_last(), pairs, state),
        )
    }
}

/// The names found after as many rounds as `hops`, or until one finds none.
pub open spec fn chain_walk(
    footer: Seq<char>,
    frontier: Seq<Seq<char>>,
    pairs: Seq<(Seq<char>, Seq<char>)>,
    chain: Seq<Seq<char>>,
    hops: nat,
) -> Seq<Seq<char>>
    decreases hops,
{
    if hops == 0 {
        chain
    } else {
        let (found, next) = chain_round(footer, frontier, pairs, (chain, Seq::empty()));
        if next.len() == 0 {
            found
        } else {
            chain_walk(footer, next, pairs, found, (hops - 1) as nat)
        }
    }
}

/// How many rounds of requirers are followed.
pub const MAX_HOPS: usize = 6;

/// The packages that require `footer`, directly and through others, nearest
/// first: every requirer of a round, in the order of the message, before those
/// that require it.
pub fn requirers_of(pairs: &Vec<(String, String)>, footer: &str) -> (r: Vec<String>)
    ensures
        r.deep_view() == chain_walk(
            footer@,
            seq![footer@],
            pairs.deep_view(),
            Seq::empty(),
            MAX_HOPS as nat,
        ),
{
    let ghost p = pairs.deep_view();
    let m: usize = pairs.len();
    let mut chain: Vec<String> = Vec::new();
    assert(chain.deep_view() =~= Seq::<Seq<char>>::empty());
    let mut frontier: Vec<String> = Vec::new();
    assert(frontier.deep_view() =~= Seq::<Seq<char>>::empty());
    push_view(&mut frontier, footer.to_owned());
    assert(frontier.deep_view() =~= seq![footer@]);
    let ghost whole = chain_walk(footer@, seq![footer@], p, Seq::empty(), MAX_HOPS as nat);
    let mut hop: usize = 0;
    while hop < MAX_HOPS
        invariant
            hop <= MAX_HOPS,
            m == pairs@.len(),
            p == pairs.deep_view(),
            whole == chain_walk(footer@, seq![footer@], p, Seq::empty(), MAX_HOPS as nat),
            whole == chain_walk(
                footer@,
                frontier.deep_view(),
                p,
                chain.deep_view(),
                (MAX_HOPS - hop) as nat,
            ),
        decreases MAX_HOPS - hop,
    {
        let ghost before = (chain.deep_view(), Seq::<Seq<char>>::empty());
        let ghost fr = frontier.deep_view();
        let n: usize = frontier.len();
        let mut next: Vec<String> = Vec::new();
        assert(next.deep_view() =~= Seq::<Seq<char>>::empty());
        let mut i: usize = 0;
        while i < n
            invariant
                i <= n,
                n == frontier@.len(),
                m == pairs@.len(),
                p == pairs.deep_view(),
                fr == frontier.deep_view(),
                (chain.deep_view(), next.deep_view()) == chain_round(
                    footer@,
                    fr.take(i as int),
                    p,
                    before,
                ),
            decreases n - i,
        {
            let ghost start = (chain.deep_view(), next.deep_view());
            assert(fr[i as int] == frontier@[i as int]@);
            assert(fr.take(i + 1).drop_last() =~= fr.take(i as int));
            let mut k: usize = 0;
            while k < m
                invariant
                    k <= m,
                    i < n,
                    n == frontier@.len(),
                    m == pairs@.len(),
                    p == pairs.deep_view(),
                    fr == frontier.deep_view(),
                    (chain.deep_view(), next.deep_view()) == chain_scan(
                        footer@,
                        fr[i as int],
                        p.take(k as int),
                        start,
                    ),
                decreases m - k,
            {
                assert(p[k as int] == pairs@[k as int].deep_view());
                assert(fr[i as int] == frontier@[i as int]@);
                assert(p.take(k + 1).drop_last() =~= p.take(k as int));
                if eq_ignore_ascii_case(&pairs[k].1, &frontier[i]) && !text_eq(
                    &pairs[k].0,
                    footer,
                ) && !holds_text(&chain, &pairs[k].0) {
                    push_view(&mut chain, pairs[k].0.clone());
                    push_view(&mut next, pairs[k].0.clone());
                }
                k = k + 1;
            }
            assert(p.take(m as int) =~= p);
            i = i + 1;
        }
        assert(fr.take(n as int) =~= fr);
        if next.len() == 0 {
            assert(next.deep_view().len() == 0);
            return chain;
        }
        assert(next.deep_view().len() > 0);
        frontier = next;
        hop = hop + 1;
    }
    chain
}

proof fn lemma_chain_step_distinct(
    footer: Seq<char>,
    current: Seq<char>,
    pairs: Seq<(Seq<char>, Seq<char>)>,
    state: ChainState,
)
    requires
        state.0.no_duplicates(),
        !state.0.contains(footer),
    ensures
        chain_scan(footer, current, pairs, state).0.no_duplicates(),
        !chain_scan(footer, current, pairs, state).0.contains(footer),
    decreases pairs.len(),
{
    if pairs.len() > 0 {
        lemma_chain_step_distinct(footer, current, pairs.drop_last(), state);
    }
}

proof fn lemma_chain_round_distinct(
    footer: Seq<char>,
    frontier: Seq<Seq<char>>,
    pairs: Seq<(Seq<char>, Seq<char>)>,
    state: ChainState,
)
    requires
        state.0.no_duplicates(),
        !state.0.contains(footer),
    ensures
        chain_round(footer, frontier, pairs, state).0.no_duplicates(),
        !chain_round(footer, frontier, pairs, state).0.contains(footer),
    decreases frontier.len(),
{
    if frontier.len() > 0 {
        lemma_chain_round_distinct(footer, frontier.drop_last(), pairs, state);
        lemma_chain_step_distinct(
            footer,
            frontier.last(),
            pairs,
            chain_round(footer, frontier.drop_last(), pairs, state),
        );
    }
}

/// The chain of requirers names no package twice, and never the package that it
/// starts from.
pub proof fn law_requirers_are_distinct(
    footer: Seq<char>,
    frontier: Seq<Seq<char>>,
    pairs: Seq<(Seq<char>, Seq<char>)>,
    chain: Seq<Seq<char>>,
    hops: nat,
)
    requires
        chain.no_duplicates(),
        !chain.contains(footer),
    ensures
        chain_walk(footer, frontier, pairs, chain, hops).no_duplicates(),
        !chain_walk(footer, frontier, pairs, chain, hops).contains(footer),
    decreases hops,
{
    if hops > 0 {
        let state = chain_round(footer, frontier, pairs, (chain, Seq::empty()));
        lemma_chain_round_distinct(footer, frontier, pairs, (chain, Seq::empty()));
        if state.1.len() > 0 {
            law_requirers_are_distinct(footer, state.1, pairs, state.0, (hops - 1) as nat);
        }
    }
}

// ---------------------------------------------------------------------------
// Conflicts that a build backend reports
// ---------------------------------------------------------------------------

/// The first two groups of a match.
pub open spec fn two_groups(m: MatchView) -> (Seq<char>, Seq<char>) {
    (group_text(m, 1), group_text(m, 2))
}

/// The requirements that a message states, as pairs of requirer and package.
pub open spec fn requirements(msg: Seq<char>) -> Seq<(Seq<char>, Seq<char>)> {
    regex_all(REQUIRING_CHAIN@, msg).map_values(|m: MatchView| two_groups(m))
}

/// The packages that require `footer` by what a message states.
pub open spec fn requiring_chain(msg: Seq<char>, footer: Seq<char>) -> Seq<Seq<char>> {
    chain_walk(footer, seq![footer], requirements(msg), Seq::empty(), MAX_HOPS as nat)
}

/// Of two floors, the one that conda does not pin: the second where the first is
/// conda's.
pub open spec fn unmet_side(
    conda: (Seq<char>, Seq<char>),
    a: (Seq<char>, Seq<char>),
    b: (Seq<char>, Seq<char>),
) -> (Seq<char>, Seq<char>) {
    if a == conda {
        b
    } else {
        a
    }
}

/// The conflict of a conda pin with the one of two ranges that it does not
/// state.
pub open spec fn provenance_conflict(
    provenance: MatchView,
    dual: MatchView,
    chain: Seq<Seq<char>>,
    pack_name: Option<Seq<char>>,
) -> ConflictView {
    let conda = (group_text(provenance, 2), group_text(provenance, 3));
    let (op, floor) = unmet_side(
        conda,
        (group_text(dual, 1), group_text(dual, 2)),
        (group_text(dual, 3), group_text(dual, 4)),
    );
    ConflictView::CondaWidenNeeded {
        package: group_text(provenance, 1),
        op,
        floor,
        conda_version: conda.0 + conda.1,
        requiring_chain: chain,
        pack_name,
    }
}

/// Builds the conflict of a conda pin from the match that names the pin and the
/// match of the two ranges that clash.
pub fn conflict_from_provenance(
    provenance: &RegexMatch,
    dual: &RegexMatch,
    chain: Vec<String>,
    pack_name: Option<String>,
) -> (r: Conflict)
    ensures
        r.deep_view() == provenance_conflict(
            provenance.deep_view(),
            dual.deep_view(),
            chain.deep_view(),
            pack_name.deep_view(),
        ),
{
    let conda_op = provenance.group(2);
    let conda_floor = provenance.group(3);
    let op1 = dual.group(1);
    let floor1 = dual.group(2);
    let first_is_conda: bool = text_eq(&op1, &conda_op) && text_eq(&floor1, &conda_floor);
    let (op, floor): (String, String) = if first_is_conda {
        (dual.group(3), dual.group(4))
    } else {
        (op1, floor1)
    };
    Conflict::CondaWidenNeeded {
        package: provenance.group(1),
        op,
        floor,
        conda_version: conda_op.concat(&conda_floor),
        requiring_chain: chain,
        pack_name,
    }
}

/// The pattern of two ranges of a package that one requirement states.
pub open spec fn dual_range_pattern(escaped: Seq<char>) -> Seq<char> {
    "depends on "@ + escaped + DUAL_RANGE_TAIL@ + r"\s+and\s+"@ + escaped + DUAL_RANGE_TAIL@
}

/// The conflict with an exact pin of upstream requirements that a message
/// reports.
pub open spec fn deps_from_conflict(msg: Seq<char>, pack_name: Option<Seq<char>>) -> Option<
    ConflictView,
> {
    match found(DEPS_FROM_BECAUSE@, msg) {
        Some(c) => match found(
            "(?i)your project depends on "@ + regex_escaped(group_text(c, 2)) + PROJECT_PIN_TAIL@,
            msg,
        ) {
            Some(p) => Some(
                ConflictView::DepsFromPin {
                    package: group_text(c, 2),
                    pinned_version: group_text(p, 2),
                    op: group_text(c, 3),
                    floor: group_text(c, 4),
                    requirer: group_text(c, 1),
                    pack_name,
                },
            ),
            None => None,
        },
        None => None,
    }
}

/// The requirement of a package without wheels that a message reports.
pub open spec fn no_wheel_conflict(msg: Seq<char>, pack_name: Option<Seq<char>>) -> Option<
    ConflictView,
> {
    match found(NO_USABLE_WHEELS@, msg) {
        Some(c) => match found(
            WHEEL_REQUIRER_HEAD@ + regex_escaped(group_text(c, 1)) + WHEEL_REQUIRER_TAIL@,
            msg,
        ) {
            Some(q) => Some(
                ConflictView::NoWheelTransitive {
                    package: group_text(c, 1),
                    range: group_text(c, 2),
                    requirer: group_text(q, 1),
                    requirer_pin: group_text(q, 2),
                    pack_name,
                },
            ),
            None => None,
        },
        None => None,
    }
}

/// The pack whose closure a message names.
pub open spec fn closure_pack(msg: Seq<char>) -> Option<Seq<char>> {
    match found(UV_CLOSURE_BUNDLE@, msg) {
        Some(m) => Some(group_text(m, 1)),
        None => None,
    }
}

/// The conflict that a resolver's message, as one line, reports.
pub open spec fn uv_conflict(msg: Seq<char>) -> Option<ConflictView> {
    let pack_name = closure_pack(msg);
    match found(CONDA_PROVENANCE@, msg) {
        Some(c) => match found(dual_range_pattern(regex_escaped(group_text(c, 1))), msg) {
            Some(d) => Some(
                provenance_conflict(c, d, requiring_chain(msg, group_text(c, 1)), pack_name),
            ),
            None => None,
        },
        None => if found(NO_CONDA_CONSTRAINT@, msg) is None {
            None
        } else {
            match found(NO_VERSION_OF@, msg) {
                Some(c) => Some(
                    ConflictView::PypiInternal {
                        package: group_text(c, 1),
                        version: group_text(c, 2),
                    },
                ),
                None => match deps_from_conflict(msg, pack_name) {
                    Some(c) => Some(c),
                    None => no_wheel_conflict(msg, pack_name),
                },
            }
        },
    }
}

// ---------------------------------------------------------------------------
// Conflicts that the conda solver reports
// ---------------------------------------------------------------------------

/// What one shape of message comes to: `None` ends the search without a
/// conflict, and `Some(None)` passes on to the next shape.
pub type Shape = Option<Option<ConflictView>>;

/// A conda pin from above against a demand from below.
pub open spec fn widen_shape(stderr: Seq<char>) -> Shape {
    match found(CONDA_INCOMPATIBLE@, stderr) {
        None => Some(None),
        Some(c) => match regex_first(
            REQUIRE_HEAD@ + regex_escaped(group_text(c, 1)) + FLOOR_TAIL@,
            stderr,
        ) {
            None => None,
            Some(None) => Some(None),
            Some(Some(q)) => Some(
                Some(
                    ConflictView::CondaWidenNeeded {
                        package: group_text(c, 1),
                        op: group_text(q, 1),
                        floor: group_text(q, 2),
                        conda_version: group_text(c, 2) + group_text(c, 3),
                        requiring_chain: Seq::empty(),
                        pack_name: None,
                    },
                ),
            ),
        },
    }
}

/// An exact conda pin against the exact demand of a pack.
pub open spec fn exact_shape(stderr: Seq<char>) -> Shape {
    match found(CONDA_INCOMPATIBLE_EXACT@, stderr) {
        None => Some(None),
        Some(c) => match regex_first(
            PACK_REQUIRE_HEAD@ + regex_escaped(group_text(c, 1)) + EXACT_TAIL@,
            stderr,
        ) {
            None => None,
            Some(None) => Some(None),
            Some(Some(q)) => Some(
                Some(
                    ConflictView::CondaWidenNeeded {
                        package: group_text(c, 1),
                        op: group_text(q, 2),
                        floor: group_text(q, 3),
                        conda_version: group_text(c, 2) + group_text(c, 3),
                        requiring_chain: Seq::empty(),
                        pack_name: Some(group_text(q, 1)),
                    },
                ),
            ),
        },
    }
}

/// A conda range against the exact demand of a pack, or against any demand.
pub open spec fn range_shape(stderr: Seq<char>) -> Shape {
    match found(CONDA_INCOMPATIBLE_RANGE@, stderr) {
        None => Some(None),
        Some(c) => {
            let escaped = regex_escaped(group_text(c, 1));
            match regex_first(PACK_REQUIRE_HEAD@ + escaped + EXACT_TAIL@, stderr) {
                None => None,
                Some(Some(q)) => Some(
                    Some(
                        ConflictView::CondaRangeVsPackPin {
                            package: group_text(c, 1),
                            conda_range: group_text(c, 2) + group_text(c, 3) + ","@ + group_text(
                                c,
                                4,
                            ) + group_text(c, 5),
                            pack_demand: group_text(q, 3),
                            pack_name: group_text(q, 1),
                        },
                    ),
                ),
                Some(None) => match regex_first(REQUIRE_HEAD@ + escaped + ANY_FLOOR_TAIL@, stderr) {
                    None => None,
                    Some(None) => Some(None),
                    Some(Some(q)) => Some(
                        Some(
                            ConflictView::CondaWidenNeeded {
                                package: group_text(c, 1),
                                op: ">="@,
                                floor: group_text(q, 2),
                                conda_version: group_text(c, 4) + group_text(c, 5),
                                requiring_chain: Seq::empty(),
                                pack_name: None,
                            },
                        ),
                    ),
                },
            }
        },
    }
}

/// A demand of a pack, and below it a cap on the same package.
pub open spec fn nested_cap(stderr: Seq<char>) -> Option<ConflictView> {
    match found(PACK_DEMAND@, stderr) {
        None => None,
        Some(o) => match found(
            NESTED_HEAD@ + regex_escaped(group_text(o, 2)) + CAP_TAIL@,
            stderr.skip(o.end as int),
        ) {
            None => None,
            Some(n) => Some(
                ConflictView::NestedCondaCap {
                    package: group_text(o, 2),
                    pack_name: group_text(o, 1),
                    pack_demand: group_text(o, 3),
                    cap_op: group_text(n, 2),
                    cap_version: group_text(n, 3),
                    via: group_text(n, 1),
                },
            ),
        },
    }
}

/// The conflict that the report of the conda solver states: the first of the
/// shapes that it has.
pub open spec fn conda_conflict(stderr: Seq<char>) -> Option<ConflictView> {
    match widen_shape(stderr) {
        None => None,
        Some(Some(c)) => Some(c),
        Some(None) => match exact_shape(stderr) {
            None => None,
            Some(Some(c)) => Some(c),
            Some(None) => match range_shape(stderr) {
                None => None,
                Some(Some(c)) => Some(c),
                Some(None) => nested_cap(stderr),
            },
        },
    }
}

/// Of two pinned versions, the one that conda does not pin.
pub open spec fn wanted_version(conda: Seq<char>, a: Seq<char>, b: Seq<char>) -> Seq<char> {
    if conda == b {
        a
    } else if conda == a {
        b
    } else {
        a
    }
}

/// Of two pinned versions, the one that conda does not pin: the first where
/// conda pins neither.
pub fn unpinned_version(conda: &str, a: String, b: String) -> (r: String)
    ensures
        r@ == wanted_version(conda@, a@, b@),
{
    if text_eq(conda, &b) {
        a
    } else if text_eq(conda, &a) {
        b
    } else {
        a
    }
}

/// The conflict of a package that the conda solve pinned to `conda_version`.
pub open spec fn pinned_conflict(
    stderr: Seq<char>,
    package: Seq<char>,
    conda_version: Seq<char>,
) -> Option<ConflictView> {
    let escaped = regex_escaped(package);
    match regex_first("depends on "@ + escaped + LONG_FLOOR_TAIL@, stderr) {
        None => None,
        Some(Some(m)) => Some(
            ConflictView::CondaWidenNeeded {
                package,
                op: group_text(m, 1),
                floor: group_text(m, 2),
                conda_version,
                requiring_chain: Seq::empty(),
                pack_name: None,
            },
        ),
        Some(None) => match regex_first(escaped + NEEDED_TAIL@, stderr) {
            None => None,
            Some(Some(m)) => Some(
                ConflictView::CondaWidenNeeded {
                    package,
                    op: group_text(m, 1),
                    floor: group_text(m, 2),
                    conda_version,
                    requiring_chain: Seq::empty(),
                    pack_name: None,
                },
            ),
            Some(None) => match regex_first(
                "depends on "@ + escaped + LONG_PIN_TAIL@ + " and "@ + escaped + LONG_PIN_TAIL@,
                stderr,
            ) {
                None => None,
                Some(Some(m)) => Some(
                    ConflictView::CondaBoundary {
                        package,
                        version: wanted_version(conda_version, group_text(m, 1), group_text(m, 2)),
                    },
                ),
                Some(None) => if occurs(stderr, "we know from (1)"@) {
                    Some(ConflictView::PypiInternal { package, version: conda_version })
                } else {
                    Some(ConflictView::CondaBoundary { package, version: conda_version })
                },
            },
        },
    }
}

/// The conflict that a message reports. What a build backend reports is read as
/// the resolver's message and as nothing else.
pub open spec fn parsed_conflict(stderr: Seq<char>) -> Option<ConflictView> {
    match uv_message(stderr) {
        Some(msg) => uv_conflict(msg),
        None => match conda_conflict(stderr) {
            Some(c) => Some(c),
            None => match found(NO_CANDIDATES@, stderr) {
                Some(m) => Some(
                    ConflictView::NoCandidates {
                        package: group_text(m, 1),
                        version: group_text(m, 2),
                    },
                ),
                None => match found(HELP_CONDA@, stderr) {
                    None => None,
                    Some(h) => pinned_conflict(stderr, group_text(h, 1), group_text(h, 2)),
                },
            },
        },
    }
}

// ---------------------------------------------------------------------------
// Mentions
// ---------------------------------------------------------------------------

/// An operator with a bare `=` written `==`.
pub open spec fn plain_op(op: Seq<char>) -> Seq<char> {
    if op == "="@ {
        "=="@
    } else {
        op
    }
}

/// The spec that a match states: one clause, or two.
pub open spec fn mention_spec(m: MatchView) -> Seq<char> {
    let one = plain_op(group_text(m, 2)) + group_text(m, 3);
    if m.groups.len() > 5 && m.groups[4] is Some && m.groups[5] is Some {
        one + ","@ + plain_op(group_text(m, 4)) + group_text(m, 5)
    } else {
        one
    }
}

/// Of the requirers before `start` other than the package itself, the one that
/// starts last.
pub open spec fn nearest_requirer(
    requirers: Seq<(usize, Seq<char>)>,
    start: usize,
    package: Seq<char>,
) -> Option<(usize, Seq<char>)>
    decreases requirers.len(),
{
    if requirers.len() == 0 {
        None
    } else {
        let best = nearest_requirer(requirers.drop_last(), start, package);
        let r = requirers.last();
        if r.0 < start && !same_name(r.1, package) && (best is None || (best->0).0 <= r.0) {
            Some(r)
        } else {
            best
        }
    }
}

/// What a match mentions.
pub open spec fn mention_of(m: MatchView, requirers: Seq<(usize, Seq<char>)>) -> MentionView {
    MentionView {
        package: group_text(m, 1),
        spec: mention_spec(m),
        requirer: match nearest_requirer(requirers, m.start, group_text(m, 1)) {
            Some(r) => Some(r.1),
            None => None,
        },
    }
}

/// The length of a text in bytes.
pub open spec fn byte_len(s: Seq<char>) -> usize {
    encode_utf8(s).len() as usize
}

/// Whether a list of mentions has one of the package with the spec.
pub open spec fn mentioned(list: Seq<MentionView>, package: Seq<char>, spec: Seq<char>) -> bool {
    exists|i: int|
        0 <= i < list.len() && (#[trigger] list[i]).package == package && list[i].spec == spec
}

/// What the matches mention: each package with each spec once, and no name of
/// less than two bytes.
pub open spec fn mentions_of(
    matches: Seq<MatchView>,
    requirers: Seq<(usize, Seq<char>)>,
) -> Seq<MentionView>
    decreases matches.len(),
{
    if matches.len() == 0 {
        Seq::empty()
    } else {
        let before = mentions_of(matches.drop_last(), requirers);
        let m = mention_of(matches.last(), requirers);
        if byte_len(m.package) < 2 || mentioned(before, m.package, m.spec) {
            before
        } else {
            before.push(m)
        }
    }
}

/// The requirers that a text names, with where each clause starts.
pub open spec fn requirers_in(text: Seq<char>) -> Seq<(usize, Seq<char>)> {
    regex_all(REQUIRER@, text).map_values(|m: MatchView| (m.start, group_text(m, 1)))
}

/// The mentions of a message.
pub open spec fn generic_mentions(stderr: Seq<char>) -> Seq<MentionView> {
    let text = flattened(stderr);
    mentions_of(regex_all(MENTION@, text), requirers_in(text))
}

fn norm_op(op: String) -> (r: String)
    ensures
        r@ == plain_op(op@),
{
    if text_eq(&op, "=") {
        "==".to_owned()
    } else {
        op
    }
}

fn spec_of_match(m: &RegexMatch) -> (r: String)
    ensures
        r@ == mention_spec(m.deep_view()),
{
    let mut out: String = norm_op(m.group(2)).concat(&m.group(3));
    assert(m.deep_view().groups.len() == m.groups@.len());
    if m.groups.len() > 5 {
        assert(m.deep_view().groups[4] == m.groups@[4].deep_view());
        assert(m.deep_view().groups[5] == m.groups@[5].deep_view());
        if m.groups[4].is_some() && m.groups[5].is_some() {
            out.append(",");
            out.append(&norm_op(m.group(4)));
            out.append(&m.group(5));
        }
    }
    out
}

fn requirer_of(requirers: &Vec<(usize, String)>, start: usize, package: &str) -> (r: Option<String>)
    ensures
        r.deep_view() == match nearest_requirer(requirers.deep_view(), start, package@) {
            Some(q) => Some(q.1),
            None => None,
        },
{
    let ghost all = requirers.deep_view();
    let n: usize = requirers.len();
    let mut best: Option<usize> = None;
    let mut i: usize = 0;
    while i < n
        invariant
            i <= n,
            n == requirers@.len(),
            all == requirers.deep_view(),
            match best {
                Some(b) => b < i && nearest_requirer(all.take(i as int), start, package@) == Some(
                    all[b as int],
                ),
                None => nearest_requirer(all.take(i as int), start, package@) is None,
            },
        decreases n - i,
    {
        assert(all.take(i + 1).drop_last() =~= all.take(i as int));
        assert(all[i as int] == requirers@[i as int].deep_view());
        if requirers[i].0 < start && !eq_ignore_ascii_case(&requirers[i].1, package) {
            match best {
                Some(b) => {
                    assert(all[b as int] == requirers@[b as int].deep_view());
                    if requirers[b].0 <= requirers[i].0 {
                        best = Some(i);
                    }
                },
                None => {
                    best = Some(i);
                },
            }
        }
        i = i + 1;
    }
    assert(all.take(n as int) =~= all);
    match best {
        Some(b) => {
            assert(all[b as int] == requirers@[b as int].deep_view());
            Some(requirers[b].1.clone())
        },
        None => None,
    }
}

fn has_mention(list: &Vec<Mention>, package: &str, spec: &str) -> (r: bool)
    ensures
        r == mentioned(list.deep_view(), package@, spec@),
{
    let ghost all = list.deep_view();
    let mut i: usize = 0;
    while i < list.len()
        invariant
            i <= list@.len(),
            all == list.deep_view(),
            forall|k: int|
                0 <= k < i ==> !((#[trigger] all[k]).package == package@ && all[k].spec == spec@),
        decreases list@.len() - i,
    {
        assert(all[i as int] == list@[i as int].deep_view());
        if text_eq(&list[i].package, package) && text_eq(&list[i].spec, spec) {
            return true;
        }
        i = i + 1;
    }
    false
}

/// What the matches mention, with the requirers that their clauses name: each
/// package with each spec once.
pub fn mentions_from_matches(
    matches: &Vec<RegexMatch>,
    requirers: &Vec<(usize, String)>,
) -> (r: Vec<Mention>)
    ensures
        r.deep_view() == mentions_of(matches.deep_view(), requirers.deep_view()),
{
    let ghost all = matches.deep_view();
    let ghost reqs = requirers.deep_view();
    let n: usize = matches.len();
    let mut out: Vec<Mention> = Vec::new();
    assert(out.deep_view() =~= Seq::<MentionView>::empty());
    let mut i: usize = 0;
    while i < n
        invariant
            i <= n,
            n == matches@.len(),
            all == matches.deep_view(),
            reqs == requirers.deep_view(),
            out.deep_view() == mentions_of(all.take(i as int), reqs),
        decreases n - i,
    {
        assert(all.take(i + 1).drop_last() =~= all.take(i as int));
        assert(all[i as int] == matches@[i as int].deep_view());
        let m: &RegexMatch = &matches[i];
        let package = m.group(1);
        let spec = spec_of_match(m);
        if package.as_str().len() >= 2 && !has_mention(&out, &package, &spec) {
            let requirer = requirer_of(requirers, m.start, &package);
            push_view(&mut out, Mention { package, spec, requirer });
        }
        i = i + 1;
    }
    assert(all.take(n as int) =~= all);
    out
}

proof fn lemma_mentions_grow(matches: Seq<MatchView>, requirers: Seq<(usize, Seq<char>)>)
    ensures
        forall|i: int, j: int|
            0 <= i < j < mentions_of(matches, requirers).len() ==> !((
            #[trigger] mentions_of(matches, requirers)[i]).package == (
            #[trigger] mentions_of(matches, requirers)[j]).package && mentions_of(
                matches,
                requirers,
            )[i].spec == mentions_of(matches, requirers)[j].spec),
    decreases matches.len(),
{
    if matches.len() > 0 {
        lemma_mentions_grow(matches.drop_last(), requirers);
        let before = mentions_of(matches.drop_last(), requirers);
        let after = mentions_of(matches, requirers);
        if after != before {
            let m = mention_of(matches.last(), requirers);
            assert forall|i: int, j: int| 0 <= i < j < after.len() implies !((
            #[trigger] after[i]).package == (#[trigger] after[j]).package && after[i].spec
                == after[j].spec) by {
                if j == before.len() {
                    assert(after[j] == m);
                    assert(after[i] == before[i]);
                } else {
                    assert(after[i] == before[i]);
                    assert(after[j] == before[j]);
                }
            }
        }
    }
}

/// No two mentions of a message are of the same package with the same spec.
pub proof fn law_mentions_are_distinct(stderr: Seq<char>, i: int, j: int)
    requires
        0 <= i < j < generic_mentions(stderr).len(),
    ensures
        generic_mentions(stderr)[i].package != generic_mentions(stderr)[j].package
            || generic_mentions(stderr)[i].spec != generic_mentions(stderr)[j].spec,
{
    let text = flattened(stderr);
    lemma_mentions_grow(regex_all(MENTION@, text), requirers_in(text));
}

// ---------------------------------------------------------------------------
// The pack that a message is about
// ---------------------------------------------------------------------------

/// Whether the nearest branch before `start` is one that cannot be installed.
pub open spec fn in_dead_end(text: Seq<char>, start: int) -> bool {
    match (
        last_at(text.take(start), "cannot be installed"@),
        last_at(text.take(start), "can be installed"@),
    ) {
        (Some(c), Some(k)) => c > k,
        (Some(_), None) => true,
        _ => false,
    }
}

/// The subject of the first match from `from` on that stands in a dead end.
pub open spec fn dead_end_from(text: Seq<char>, matches: Seq<MatchView>, from: int) -> Option<
    Seq<char>,
>
    decreases matches.len() - from,
{
    if from < 0 || from >= matches.len() {
        None
    } else if in_dead_end(text, matches[from].start as int) {
        Some(group_text(matches[from], 1))
    } else {
        dead_end_from(text, matches, from + 1)
    }
}

/// The subject of the first match in a dead end, or else of the first match.
pub open spec fn bundle_of(text: Seq<char>, matches: Seq<MatchView>) -> Option<Seq<char>> {
    match dead_end_from(text, matches, 0) {
        Some(name) => Some(name),
        None => if matches.len() > 0 {
            Some(group_text(matches[0], 1))
        } else {
            None
        },
    }
}

/// The pack that a message is about.
pub open spec fn bundle_name(stderr: Seq<char>) -> Option<Seq<char>> {
    match closure_pack(stderr) {
        Some(name) => Some(name),
        None => bundle_of(flattened(stderr), regex_all(WOULD_REQUIRE@, flattened(stderr))),
    }
}

/// Of the subjects that require something, the first in a branch that cannot be
/// installed, or else the first: a branch that can be installed is shown for
/// context alone.
pub fn bundle_from_matches(text: &str, matches: &Vec<RegexMatch>) -> (r: Option<String>)
    requires
        forall|i: int|
            0 <= i < matches@.len() ==> (#[trigger] matches.deep_view()[i]).start <= text@.len(),
    ensures
        r.deep_view() == bundle_of(text@, matches.deep_view()),
{
    let ghost all = matches.deep_view();
    let n: usize = matches.len();
    let mut i: usize = 0;
    while i < n
        invariant
            i <= n,
            n == matches@.len(),
            all == matches.deep_view(),
            forall|k: int| 0 <= k < n ==> (#[trigger] all[k]).start <= text@.len(),
            dead_end_from(text@, all, 0) == dead_end_from(text@, all, i as int),
        decreases n - i,
    {
        assert(all[i as int] == matches@[i as int].deep_view());
        let preceding = take_chars(text, matches[i].start);
        let cannot_pos = rfind(&preceding, "cannot be installed");
        let can_pos = rfind(&preceding, "can be installed");
        let dead: bool = match (cannot_pos, can_pos) {
            (Some(c), Some(k)) => c > k,
            (Some(_), None) => true,
            _ => false,
        };
        if dead {
            return Some(matches[i].group(1));
        }
        i = i + 1;
    }
    if n > 0 {
        assert(all[0] == matches@[0].deep_view());
        Some(matches[0].group(1))
    } else {
        None
    }
}

// ---------------------------------------------------------------------------
// The parser
// ---------------------------------------------------------------------------

/// The reader of the messages of `pixi` and of the resolvers below it.
pub struct RegexConflictParser;

fn match_pairs(matches: &Vec<RegexMatch>) -> (r: Vec<(String, String)>)
    ensures
        r.deep_view() == matches.deep_view().map_values(|m: MatchView| two_groups(m)),
{
    let ghost all = matches.deep_view();
    let ghost f = |m: MatchView| two_groups(m);
    let n: usize = matches.len();
    let mut out: Vec<(String, String)> = Vec::new();
    let mut i: usize = 0;
    assert(out.deep_view() =~= all.take(0).map_values(f));
    while i < n
        invariant
            i <= n,
            n == matches@.len(),
            all == matches.deep_view(),
            f == (|m: MatchView| two_groups(m)),
            out.deep_view() == all.take(i as int).map_values(f),
        decreases n - i,
    {
        assert(all[i as int] == matches@[i as int].deep_view());
        push_view(&mut out, (matches[i].group(1), matches[i].group(2)));
        assert(all.take(i + 1).map_values(f) =~= all.take(i as int).map_values(f).push(
            f(all[i as int]),
        ));
        i = i + 1;
    }
    assert(all.take(n as int) =~= all);
    out
}

fn match_starts(matches: &Vec<RegexMatch>) -> (r: Vec<(usize, String)>)
    ensures
        r.deep_view() == matches.deep_view().map_values(
            |m: MatchView| (m.start, group_text(m, 1)),
        ),
{
    let ghost all = matches.deep_view();
    let ghost f = |m: MatchView| (m.start, group_text(m, 1));
    let n: usize = matches.len();
    let mut out: Vec<(usize, String)> = Vec::new();
    let mut i: usize = 0;
    assert(out.deep_view() =~= all.take(0).map_values(f));
    while i < n
        invariant
            i <= n,
            n == matches@.len(),
            all == matches.deep_view(),
            f == (|m: MatchView| (m.start, group_text(m, 1))),
            out.deep_view() == all.take(i as int).map_values(f),
        decreases n - i,
    {
        assert(all[i as int] == matches@[i as int].deep_view());
        push_view(&mut out, (matches[i].start, matches[i].group(1)));
        assert(all.take(i + 1).map_values(f) =~= all.take(i as int).map_values(f).push(
            f(all[i as int]),
        ));
        i = i + 1;
    }
    assert(all.take(n as int) =~= all);
    out
}

impl RegexConflictParser {
    /// A parser.
    pub fn new() -> (r: Self) {
        RegexConflictParser
    }

    /// The releases of `pixi` whose messages the parser is calibrated on.
    pub fn calibrated() -> (r: Vec<&'static str>)
        ensures
            r.deep_view() == seq!["0.70"@],
    {
        let r: Vec<&'static str> = vec!["0.70"];
        assert(r.deep_view() =~= seq!["0.70"@]);
        r
    }

    /// The text without the colours of a terminal.
    pub fn strip_ansi(&self, stderr: &str) -> (r: String)
        ensures
            r@ == regex_replaced_all(ANSI@, stderr@, ""@),
    {
        replace_all(ANSI, stderr, "")
    }

    fn extract_uv_closure_message(&self, stderr: &str) -> (r: Option<String>)
        ensures
            r.deep_view() == uv_message(stderr@),
    {
        let m = match search(UV_CLOSURE_MESSAGE, stderr) {
            Some(m) => m,
            None => {
                return None;
            },
        };
        let parts = strip_gutters(&m.group(1));
        let joined = rejoin_lines(&parts);
        proof {
            reveal_strlit("\\n");
        }
        let unescaped = replace(&joined, "\\n", " ");
        let collapsed = replace_all(WHITESPACE, &unescaped, " ");
        Some(trim(&collapsed))
    }

    fn flatten_for_generic_scan(&self, stderr: &str) -> (r: String)
        ensures
            r@ == flattened(stderr@),
    {
        match self.extract_uv_closure_message(stderr) {
            Some(msg) => msg,
            None => {
                let stripped = self.strip_ansi(stderr);
                let parts = strip_gutters(&stripped);
                let joined = rejoin_lines(&parts);
                let collapsed = replace_all(WHITESPACE, &joined, " ");
                trim(&collapsed)
            },
        }
    }

    fn extract_requiring_chain(&self, msg: &str, footer_package: &str) -> (r: Vec<String>)
        ensures
            r.deep_view() == requiring_chain(msg@, footer_package@),
    {
        let matches = find_all(REQUIRING_CHAIN, msg);
        let pairs = match_pairs(&matches);
        requirers_of(&pairs, footer_package)
    }

    fn closure_bundle(&self, msg: &str) -> (r: Option<String>)
        ensures
            r.deep_view() == closure_pack(msg@),
    {
        match search(UV_CLOSURE_BUNDLE, msg) {
            Some(m) => Some(m.group(1)),
            None => None,
        }
    }

    fn parse_deps_from(&self, msg: &str, pack_name: &Option<String>) -> (r: Option<Conflict>)
        ensures
            r.deep_view() == deps_from_conflict(msg@, pack_name.deep_view()),
    {
        let c = match search(DEPS_FROM_BECAUSE, msg) {
            Some(c) => c,
            None => {
                return None;
            },
        };
        let escaped = escape(&c.group(2));
        let pattern = around("(?i)your project depends on ", &escaped, PROJECT_PIN_TAIL);
        match search(&pattern, msg) {
            Some(p) => Some(
                Conflict::DepsFromPin {
                    package: c.group(2),
                    pinned_version: p.group(2),
                    op: c.group(3),
                    floor: c.group(4),
                    requirer: c.group(1),
                    pack_name: clone_option(pack_name),
                },
            ),
            None => None,
        }
    }

    fn parse_no_wheel(&self, msg: &str, pack_name: &Option<String>) -> (r: Option<Conflict>)
        ensures
            r.deep_view() == no_wheel_conflict(msg@, pack_name.deep_view()),
    {
        let c = match search(NO_USABLE_WHEELS, msg) {
            Some(c) => c,
            None => {
                return None;
            },
        };
        let escaped = escape(&c.group(1));
        let pattern = around(WHEEL_REQUIRER_HEAD, &escaped, WHEEL_REQUIRER_TAIL);
        match search(&pattern, msg) {
            Some(q) => Some(
                Conflict::NoWheelTransitive {
                    package: c.group(1),
                    range: c.group(2),
                    requirer: q.group(1),
                    requirer_pin: q.group(2),
                    pack_name: clone_option(pack_name),
                },
            ),
            None => None,
        }
    }

    /// The conflict that a resolver's message, as one line, reports.
    fn parse_uv_closure_message(&self, msg: &str) -> (r: Option<Conflict>)
        ensures
            r.deep_view() == uv_conflict(msg@),
    {
        let pack_name = self.closure_bundle(msg);
        match search(CONDA_PROVENANCE, msg) {
            Some(c) => {
                let package = c.group(1);
                let escaped = escape(&package);
                let mut pattern = around("depends on ", &escaped, DUAL_RANGE_TAIL);
                pattern.append(r"\s+and\s+");
                pattern.append(&escaped);
                pattern.append(DUAL_RANGE_TAIL);
                return match search(&pattern, msg) {
                    Some(d) => {
                        let chain = self.extract_requiring_chain(msg, &package);
                        Some(conflict_from_provenance(&c, &d, chain, pack_name))
                    },
                    None => None,
                };
            },
            None => {},
        }
        if search(NO_CONDA_CONSTRAINT, msg).is_none() {
            return None;
        }
        match search(NO_VERSION_OF, msg) {
            Some(c) => {
                return Some(
                    Conflict::PypiInternal { package: c.group(1), version: c.group(2) },
                );
            },
            None => {},
        }
        let deps_from = self.parse_deps_from(msg, &pack_name);
        if deps_from.is_some() {
            return deps_from;
        }
        self.parse_no_wheel(msg, &pack_name)
    }

    fn parse_widen_shape(&self, stderr: &str) -> (r: Option<Option<Conflict>>)
        ensures
            r.deep_view() == widen_shape(stderr@),
    {
        let c = match search(CONDA_INCOMPATIBLE, stderr) {
            Some(c) => c,
            None => {
                return Some(None);
            },
        };
        let escaped = escape(&c.group(1));
        let pattern = around(REQUIRE_HEAD, &escaped, FLOOR_TAIL);
        match find(&pattern, stderr) {
            None => None,
            Some(None) => Some(None),
            Some(Some(q)) => {
                let chain: Vec<String> = Vec::new();
                assert(chain.deep_view() =~= Seq::<Seq<char>>::empty());
                Some(
                    Some(
                        Conflict::CondaWidenNeeded {
                            package: c.group(1),
                            op: q.group(1),
                            floor: q.group(2),
                            conda_version: c.group(2).concat(&c.group(3)),
                            requiring_chain: chain,
                            pack_name: None,
                        },
                    ),
                )
            },
        }
    }

    fn parse_exact_shape(&self, stderr: &str) -> (r: Option<Option<Conflict>>)
        ensures
            r.deep_view() == exact_shape(stderr@),
    {
        let c = match search(CONDA_INCOMPATIBLE_EXACT, stderr) {
            Some(c) => c,
            None => {
                return Some(None);
            },
        };
        let escaped = escape(&c.group(1));
        let pattern = around(PACK_REQUIRE_HEAD, &escaped, EXACT_TAIL);
        match find(&pattern, stderr) {
            None => None,
            Some(None) => Some(None),
            Some(Some(q)) => {
                let chain: Vec<String> = Vec::new();
                assert(chain.deep_view() =~= Seq::<Seq<char>>::empty());
                Some(
                    Some(
                        Conflict::CondaWidenNeeded {
                            package: c.group(1),
                            op: q.group(2),
                            floor: q.group(3),
                            conda_version: c.group(2).concat(&c.group(3)),
                            requiring_chain: chain,
                            pack_name: Some(q.group(1)),
                        },
                    ),
                )
            },
        }
    }

    fn parse_range_shape(&self, stderr: &str) -> (r: Option<Option<Conflict>>)
        ensures
            r.deep_view() == range_shape(stderr@),
    {
        let c = match search(CONDA_INCOMPATIBLE_RANGE, stderr) {
            Some(c) => c,
            None => {
                return Some(None);
            },
        };
        let escaped = escape(&c.group(1));
        let pattern = around(PACK_REQUIRE_HEAD, &escaped, EXACT_TAIL);
        match find(&pattern, stderr) {
            None => {
                return None;
            },
            Some(Some(q)) => {
                let mut range: String = c.group(2).concat(&c.group(3));
                range.append(",");
                range.append(&c.group(4));
                range.append(&c.group(5));
                return Some(
                    Some(
                        Conflict::CondaRangeVsPackPin {
                            package: c.group(1),
                            conda_range: range,
                            pack_demand: q.group(3),
                            pack_name: q.group(1),
                        },
                    ),
                );
            },
            Some(None) => {},
        }
        let pattern = around(REQUIRE_HEAD, &escaped, ANY_FLOOR_TAIL);
        match find(&pattern, stderr) {
            None => None,
            Some(None) => Some(None),
            Some(Some(q)) => {
                let chain: Vec<String> = Vec::new();
                assert(chain.deep_view() =~= Seq::<Seq<char>>::empty());
                Some(
                    Some(
                        Conflict::CondaWidenNeeded {
                            package: c.group(1),
                            op: ">=".to_owned(),
                            floor: q.group(2),
                            conda_version: c.group(4).concat(&c.group(5)),
                            requiring_chain: chain,
                            pack_name: None,
                        },
                    ),
                )
            },
        }
    }

    fn parse_nested_conda_cap(&self, stderr: &str) -> (r: Option<Conflict>)
        ensures
            r.deep_view() == nested_cap(stderr@),
    {
        let o = match search(PACK_DEMAND, stderr) {
            Some(o) => o,
            None => {
                return None;
            },
        };
        let escaped = escape(&o.group(2));
        let pattern = around(NESTED_HEAD, &escaped, CAP_TAIL);
        let rest = skip_chars(stderr, o.end);
        match search(&pattern, &rest) {
            Some(n) => Some(
                Conflict::NestedCondaCap {
                    package: o.group(2),
                    pack_name: o.group(1),
                    pack_demand: o.group(3),
                    cap_op: n.group(2),
                    cap_version: n.group(3),
                    via: n.group(1),
                },
            ),
            None => None,
        }
    }

    /// The conflict that the report of the conda solver states.
    fn parse_conda_incompatible(&self, stderr: &str) -> (r: Option<Conflict>)
        ensures
            r.deep_view() == conda_conflict(stderr@),
    {
        match self.parse_widen_shape(stderr) {
            None => {
                return None;
            },
            Some(Some(c)) => {
                return Some(c);
            },
            Some(None) => {},
        }
        match self.parse_exact_shape(stderr) {
            None => {
                return None;
            },
            Some(Some(c)) => {
                return Some(c);
            },
            Some(None) => {},
        }
        match self.parse_range_shape(stderr) {
            None => None,
            Some(Some(c)) => Some(c),
            Some(None) => self.parse_nested_conda_cap(stderr),
        }
    }

    fn parse_pinned(&self, stderr: &str, package: String, conda_version: String) -> (r: Option<
        Conflict,
    >)
        ensures
            r.deep_view() == pinned_conflict(stderr@, package@, conda_version@),
    {
        let escaped = escape(&package);
        let chain: Vec<String> = Vec::new();
        assert(chain.deep_view() =~= Seq::<Seq<char>>::empty());
        let demand = around("depends on ", &escaped, LONG_FLOOR_TAIL);
        match find(&demand, stderr) {
            None => {
                return None;
            },
            Some(Some(m)) => {
                return Some(
                    Conflict::CondaWidenNeeded {
                        package,
                        op: m.group(1),
                        floor: m.group(2),
                        conda_version,
                        requiring_chain: chain,
                        pack_name: None,
                    },
                );
            },
            Some(None) => {},
        }
        let needed: String = escaped.clone().concat(NEEDED_TAIL);
        match find(&needed, stderr) {
            None => {
                return None;
            },
            Some(Some(m)) => {
                return Some(
                    Conflict::CondaWidenNeeded {
                        package,
                        op: m.group(1),
                        floor: m.group(2),
                        conda_version,
                        requiring_chain: chain,
                        pack_name: None,
                    },
                );
            },
            Some(None) => {},
        }
        let mut dual = around("depends on ", &escaped, LONG_PIN_TAIL);
        dual.append(" and ");
        dual.append(&escaped);
        dual.append(LONG_PIN_TAIL);
        match find(&dual, stderr) {
            None => {
                return None;
            },
            Some(Some(m)) => {
                let version = unpinned_version(&conda_version, m.group(1), m.group(2));
                return Some(Conflict::CondaBoundary { package, version });
            },
            Some(None) => {},
        }
        if contains(stderr, "we know from (1)") {
            Some(Conflict::PypiInternal { package, version: conda_version })
        } else {
            Some(Conflict::CondaBoundary { package, version: conda_version })
        }
    }

    /// Every package that a message mentions with a version spec, whatever the
    /// words round it.
    pub fn extract_generic_mentions(&self, stderr: &str) -> (r: Vec<Mention>)
        ensures
            r.deep_view() == generic_mentions(stderr@),
    {
        let text = self.flatten_for_generic_scan(stderr);
        let clauses = find_all(REQUIRER, &text);
        let requirers = match_starts(&clauses);
        let matches = find_all(MENTION, &text);
        mentions_from_matches(&matches, &requirers)
    }

    /// The pack that a message is about: the one whose closure it names, or else
    /// the one in a branch that cannot be installed.
    pub fn extract_bundle_name(&self, stderr: &str) -> (r: Option<String>)
        ensures
            r.deep_view() == bundle_name(stderr@),
    {
        let named = self.closure_bundle(stderr);
        if named.is_some() {
            return named;
        }
        let text = self.flatten_for_generic_scan(stderr);
        let matches = find_all(WOULD_REQUIRE, &text);
        bundle_from_matches(&text, &matches)
    }

    /// Whether the conda solver reports that the request has no solution.
    pub fn is_post_widen_conda_unsat(stderr: &str) -> (r: bool)
        ensures
            r == is_conda_unsat(stderr@),
    {
        contains(stderr, "Cannot solve the request because of") || contains(
            stderr,
            "The following packages are incompatible",
        )
    }
}

impl Default for RegexConflictParser {
    fn default() -> (r: Self) {
        RegexConflictParser
    }
}

impl ConflictParser for RegexConflictParser {
    fn parse(&self, stderr: &str) -> (r: Option<Conflict>)
        ensures
            r.deep_view() == parsed_conflict(stderr@),
    {
        match self.extract_uv_closure_message(stderr) {
            Some(msg) => {
                return self.parse_uv_closure_message(&msg);
            },
            None => {},
        }
        let conda = self.parse_conda_incompatible(stderr);
        if conda.is_some() {
            return conda;
        }
        match search(NO_CANDIDATES, stderr) {
            Some(m) => {
                return Some(
                    Conflict::NoCandidates { package: m.group(1), version: m.group(2) },
                );
            },
            None => {},
        }
        match search(HELP_CONDA, stderr) {
            Some(h) => self.parse_pinned(stderr, h.group(1), h.group(2)),
            None => None,
        }
    }
}

// ---------------------------------------------------------------------------
// Diagnoses
// ---------------------------------------------------------------------------

/// Why a pin reaches only builds for another python.
pub open spec fn abi_tail_text(m: MatchView) -> Seq<char> {
    let pkg = group_text(m, 1);
    "retread lock: diagnosis -- the workspace pin `"@ + pkg + " =="@ + group_text(m, 2)
        + "` only reaches builds for python "@ + group_text(m, 3) + " (cp"@ + group_text(m, 4)
        + "); every build matching the env's python was excluded by constraints resolvo does not show (typically a sibling pack's emitted torch-family range at a different version, e.g. run 34/38's `pytorch >=2.10.0,<3`). The workspace pin is hand-written truth and is not repaired; the fix is route-time (the pack's uv closure must be constrained to the consuming envs' hand-written versions -- check the pack renders' emitted ranges for the "@
        + pkg + " family)."@
}

/// Says why a pin reaches only builds for another python.
pub fn describe_abi_tail(m: &RegexMatch) -> (r: String)
    ensures
        r@ == abi_tail_text(m.deep_view()),
{
    let pkg = m.group(1);
    let mut s: String = "retread lock: diagnosis -- the workspace pin `".to_owned();
    s.append(&pkg);
    s.append(" ==");
    s.append(&m.group(2));
    s.append("` only reaches builds for python ");
    s.append(&m.group(3));
    s.append(" (cp");
    s.append(&m.group(4));
    s.append(
        "); every build matching the env's python was excluded by constraints resolvo does not show (typically a sibling pack's emitted torch-family range at a different version, e.g. run 34/38's `pytorch >=2.10.0,<3`). The workspace pin is hand-written truth and is not repaired; the fix is route-time (the pack's uv closure must be constrained to the consuming envs' hand-written versions -- check the pack renders' emitted ranges for the ",
    );
    s.append(&pkg);
    s.append(" family).");
    s
}

/// What is said of a message about an exact pin whose only builds are for another
/// python.
pub open spec fn abi_tail_diagnosis(stderr: Seq<char>) -> Option<Seq<char>> {
    match found(ABI_BUILD_TAIL@, stderr) {
        Some(m) => Some(abi_tail_text(m)),
        None => None,
    }
}

/// Recognizes an exact pin whose only builds are for another python, and says
/// why.
pub fn diagnose_abi_build_tail(stderr: &str) -> (r: Option<String>)
    ensures
        r.deep_view() == abi_tail_diagnosis(stderr@),
{
    match search(ABI_BUILD_TAIL, stderr) {
        Some(m) => Some(describe_abi_tail(&m)),
        None => None,
    }
}

/// Why an anchor constrains a package that no longer has such builds.
pub open spec fn renamed_companion_text(m: MatchView) -> Seq<char> {
    let anchor = group_text(m, 1);
    let ver = group_text(m, 2);
    let companion = group_text(m, 3);
    "retread lock: diagnosis -- the ABI anchor `"@ + anchor + " =="@ + ver + "` run_constrains `"@
        + companion + "` to "@ + ver + ", but no such "@ + companion
        + " build exists (renamed/discontinued line). Some package's SELECTED build variant is an old one depending on `"@
        + companion + "` because its newer `"@ + anchor
        + "`-based builds were excluded by other constraints earlier in this same tree (build-variant exclusion, run 38/40 pattern). The anchor is immutable; the excluding constraint in the branches above this clause is what must yield (widen/un-route the owning pack's emission)."@
}

/// Says why an anchor constrains a package that no longer has such builds.
pub fn describe_renamed_companion(m: &RegexMatch) -> (r: String)
    ensures
        r@ == renamed_companion_text(m.deep_view()),
{
    let anchor = m.group(1);
    let ver = m.group(2);
    let companion = m.group(3);
    let mut s: String = "retread lock: diagnosis -- the ABI anchor `".to_owned();
    s.append(&anchor);
    s.append(" ==");
    s.append(&ver);
    s.append("` run_constrains `");
    s.append(&companion);
    s.append("` to ");
    s.append(&ver);
    s.append(", but no such ");
    s.append(&companion);
    s.append(
        " build exists (renamed/discontinued line). Some package's SELECTED build variant is an old one depending on `",
    );
    s.append(&companion);
    s.append("` because its newer `");
    s.append(&anchor);
    s.append(
        "`-based builds were excluded by other constraints earlier in this same tree (build-variant exclusion, run 38/40 pattern). The anchor is immutable; the excluding constraint in the branches above this clause is what must yield (widen/un-route the owning pack's emission).",
    );
    s
}

/// Recognizes an anchor that constrains a renamed package, and says why the
/// solve fails.
pub fn diagnose_constrained_renamed_companion(stderr: &str) -> (r: Option<String>)
    ensures
        r.deep_view() == match found(RENAMED_COMPANION@, stderr@) {
            Some(m) => Some(renamed_companion_text(m)),
            None => None,
        },
{
    match search(RENAMED_COMPANION, stderr) {
        Some(m) => Some(describe_renamed_companion(&m)),
        None => None,
    }
}

/// Whether the conda solver reports that the request has no solution.
pub open spec fn is_conda_unsat(stderr: Seq<char>) -> bool {
    occurs(stderr, "Cannot solve the request because of"@) || occurs(
        stderr,
        "The following packages are incompatible"@,
    )
}

/// The last `max_chars` characters of a text.
pub open spec fn tail_of(s: Seq<char>, max_chars: nat) -> Seq<char> {
    if s.len() <= max_chars {
        s
    } else {
        s.skip(s.len() - max_chars)
    }
}

/// The last `max_chars` characters of a text.
pub fn tail(s: &str, max_chars: usize) -> (r: String)
    ensures
        r@ == tail_of(s@, max_chars as nat),
{
    let len: usize = s.unicode_len();
    if len <= max_chars {
        return s.to_owned();
    }
    skip_chars(s, len - max_chars)
}

// ---------------------------------------------------------------------------
// What conflicts say
// ---------------------------------------------------------------------------

/// Whether a text reads as a pattern says, with these texts in the pattern's groups, at
/// the first place where it does.
pub open spec fn reads(pattern: Seq<char>, text: Seq<char>, groups: Seq<Seq<char>>) -> bool {
    regex_first(pattern, text) matches Some(Some(m)) && m.groups.len() == groups.len() + 1
        && forall|i: int|
        0 <= i < groups.len() ==> #[trigger] m.groups[i + 1] == Some(groups[i])
}

/// Whether a text reads nowhere as a pattern says.
pub open spec fn silent(pattern: Seq<char>, text: Seq<char>) -> bool {
    !(regex_first(pattern, text) matches Some(Some(_)))
}

/// Whether a report is not that of a build backend.
pub open spec fn is_plain_report(report: Seq<char>) -> bool {
    silent(r#"(?s)message: "(.*?)",[\s│├╰▶─×]*data:"#@, report)
}

/// Whether a report says of no package that a cap, a pin or a range of it cannot be
/// installed.
pub open spec fn blames_no_conda_pin(report: Seq<char>) -> bool {
    &&& silent(r"(?s)([a-zA-Z0-9_-]+)\s*(<|<=)\s*([0-9][0-9a-zA-Z.]*)[\s│├╰└─▶]+cannot be installed[\s│├╰└─▶]+because there are no viable options"@, report)
    &&& silent(r"(?s)([a-zA-Z0-9_-]+)\s*(==|=)\s*([0-9][0-9a-zA-Z.]*)[\s│├╰└─▶]+cannot\s+be\s+installed[\s│├╰└─▶]+because\s+there\s+are\s+no\s+viable\s+options"@, report)
    &&& silent(r"(?s)([a-zA-Z0-9_-]+)\s*(>=|>)\s*([0-9][0-9a-zA-Z.]*)\s*,\s*(<|<=)\s*([0-9][0-9a-zA-Z.]*)[\s│├╰└─▶]+cannot\s+be\s+installed[\s│├╰└─▶]+because\s+there\s+are\s+no\s+viable\s+options"@, report)
}

proof fn lemma_group(pattern: Seq<char>, text: Seq<char>, groups: Seq<Seq<char>>, i: int)
    requires
        reads(pattern, text, groups),
        0 <= i < groups.len(),
    ensures
        found(pattern, text) is Some,
        group_text(found(pattern, text)->0, i + 1) == groups[i],
{
    let m = regex_first(pattern, text)->0->0;
    assert(m.groups[i + 1] == Some(groups[i]));
}

/// Where a report says that a package below a cap cannot be installed, and that it
/// would be required from a floor on, the floor of the conflict is the one that is
/// required, and the cap is what conda has.
pub proof fn law_floor_is_what_is_required(
    report: Seq<char>,
    package: Seq<char>,
    cap_op: Seq<char>,
    cap: Seq<char>,
    op: Seq<char>,
    floor: Seq<char>,
)
    requires
        is_plain_report(report),
        reads(r"(?s)([a-zA-Z0-9_-]+)\s*(<|<=)\s*([0-9][0-9a-zA-Z.]*)[\s│├╰└─▶]+cannot be installed[\s│├╰└─▶]+because there are no viable options"@, report, seq![package, cap_op, cap]),
        reads(
            r"(?s)would require[\s│├╰└─▶]*"@ + regex_escaped(package) + r"\s*(>=|>)\s*([0-9][0-9a-zA-Z.]*)"@,
            report,
            seq![op, floor],
        ),
    ensures
        parsed_conflict(report) == Some(
            ConflictView::CondaWidenNeeded {
                package,
                op,
                floor,
                conda_version: cap_op + cap,
                requiring_chain: Seq::empty(),
                pack_name: None,
            },
        ),
{
    let pin = seq![package, cap_op, cap];
    let demand = r"(?s)would require[\s│├╰└─▶]*"@ + regex_escaped(package) + r"\s*(>=|>)\s*([0-9][0-9a-zA-Z.]*)"@;
    lemma_group(CONDA_INCOMPATIBLE@, report, pin, 0);
    lemma_group(CONDA_INCOMPATIBLE@, report, pin, 1);
    lemma_group(CONDA_INCOMPATIBLE@, report, pin, 2);
    lemma_group(demand, report, seq![op, floor], 0);
    lemma_group(demand, report, seq![op, floor], 1);
}

/// Where a report says that a package at an exact version cannot be installed, and
/// that a pack would require another exact version of it, that other version is the
/// floor, and the pack is the one that requires it.
pub proof fn law_exact_demand_names_its_pack(
    report: Seq<char>,
    package: Seq<char>,
    pin_op: Seq<char>,
    pin: Seq<char>,
    pack: Seq<char>,
    op: Seq<char>,
    floor: Seq<char>,
)
    requires
        is_plain_report(report),
        silent(r"(?s)([a-zA-Z0-9_-]+)\s*(<|<=)\s*([0-9][0-9a-zA-Z.]*)[\s│├╰└─▶]+cannot be installed[\s│├╰└─▶]+because there are no viable options"@, report),
        reads(r"(?s)([a-zA-Z0-9_-]+)\s*(==|=)\s*([0-9][0-9a-zA-Z.]*)[\s│├╰└─▶]+cannot\s+be\s+installed[\s│├╰└─▶]+because\s+there\s+are\s+no\s+viable\s+options"@, report, seq![package, pin_op, pin]),
        reads(
            r"(?s)([a-zA-Z][a-zA-Z0-9_.-]*)\s+[0-9][0-9a-zA-Z.]*\s+would require[\s│├╰└─▶]*"@ + regex_escaped(package) + r"\s*(==|=)\s*([0-9][0-9a-zA-Z.]*)"@,
            report,
            seq![pack, op, floor],
        ),
    ensures
        parsed_conflict(report) == Some(
            ConflictView::CondaWidenNeeded {
                package,
                op,
                floor,
                conda_version: pin_op + pin,
                requiring_chain: Seq::empty(),
                pack_name: Some(pack),
            },
        ),
{
    let own = seq![package, pin_op, pin];
    let demand = r"(?s)([a-zA-Z][a-zA-Z0-9_.-]*)\s+[0-9][0-9a-zA-Z.]*\s+would require[\s│├╰└─▶]*"@ + regex_escaped(package) + r"\s*(==|=)\s*([0-9][0-9a-zA-Z.]*)"@;
    lemma_group(CONDA_INCOMPATIBLE_EXACT@, report, own, 0);
    lemma_group(CONDA_INCOMPATIBLE_EXACT@, report, own, 1);
    lemma_group(CONDA_INCOMPATIBLE_EXACT@, report, own, 2);
    lemma_group(demand, report, seq![pack, op, floor], 0);
    lemma_group(demand, report, seq![pack, op, floor], 1);
    lemma_group(demand, report, seq![pack, op, floor], 2);
}

/// Where a report says that a package in a range cannot be installed, and that a pack
/// would require an exact version of it, the conflict is between that range and that
/// version of that pack.
pub proof fn law_range_stands_against_a_packs_pin(
    report: Seq<char>,
    package: Seq<char>,
    low_op: Seq<char>,
    low: Seq<char>,
    high_op: Seq<char>,
    high: Seq<char>,
    pack: Seq<char>,
    op: Seq<char>,
    demand: Seq<char>,
)
    requires
        is_plain_report(report),
        silent(r"(?s)([a-zA-Z0-9_-]+)\s*(<|<=)\s*([0-9][0-9a-zA-Z.]*)[\s│├╰└─▶]+cannot be installed[\s│├╰└─▶]+because there are no viable options"@, report),
        silent(r"(?s)([a-zA-Z0-9_-]+)\s*(==|=)\s*([0-9][0-9a-zA-Z.]*)[\s│├╰└─▶]+cannot\s+be\s+installed[\s│├╰└─▶]+because\s+there\s+are\s+no\s+viable\s+options"@, report),
        reads(r"(?s)([a-zA-Z0-9_-]+)\s*(>=|>)\s*([0-9][0-9a-zA-Z.]*)\s*,\s*(<|<=)\s*([0-9][0-9a-zA-Z.]*)[\s│├╰└─▶]+cannot\s+be\s+installed[\s│├╰└─▶]+because\s+there\s+are\s+no\s+viable\s+options"@, report, seq![package, low_op, low, high_op, high]),
        reads(
            r"(?s)([a-zA-Z][a-zA-Z0-9_.-]*)\s+[0-9][0-9a-zA-Z.]*\s+would require[\s│├╰└─▶]*"@ + regex_escaped(package) + r"\s*(==|=)\s*([0-9][0-9a-zA-Z.]*)"@,
            report,
            seq![pack, op, demand],
        ),
    ensures
        parsed_conflict(report) == Some(
            ConflictView::CondaRangeVsPackPin {
                package,
                conda_range: low_op + low + ","@ + high_op + high,
                pack_demand: demand,
                pack_name: pack,
            },
        ),
{
    let own = seq![package, low_op, low, high_op, high];
    let pattern = r"(?s)([a-zA-Z][a-zA-Z0-9_.-]*)\s+[0-9][0-9a-zA-Z.]*\s+would require[\s│├╰└─▶]*"@ + regex_escaped(package) + r"\s*(==|=)\s*([0-9][0-9a-zA-Z.]*)"@;
    lemma_group(CONDA_INCOMPATIBLE_RANGE@, report, own, 0);
    lemma_group(CONDA_INCOMPATIBLE_RANGE@, report, own, 1);
    lemma_group(CONDA_INCOMPATIBLE_RANGE@, report, own, 2);
    lemma_group(CONDA_INCOMPATIBLE_RANGE@, report, own, 3);
    lemma_group(CONDA_INCOMPATIBLE_RANGE@, report, own, 4);
    lemma_group(pattern, report, seq![pack, op, demand], 0);
    lemma_group(pattern, report, seq![pack, op, demand], 1);
    lemma_group(pattern, report, seq![pack, op, demand], 2);
}

/// Where a report says that a package in a range cannot be installed, and no pack is
/// named that would require an exact version of it, but that some version would be
/// required, that version is the floor, and the upper end of the range is what conda
/// has.
pub proof fn law_range_gives_way_to_what_is_required(
    report: Seq<char>,
    package: Seq<char>,
    low_op: Seq<char>,
    low: Seq<char>,
    high_op: Seq<char>,
    high: Seq<char>,
    op: Seq<char>,
    floor: Seq<char>,
)
    requires
        is_plain_report(report),
        silent(r"(?s)([a-zA-Z0-9_-]+)\s*(<|<=)\s*([0-9][0-9a-zA-Z.]*)[\s│├╰└─▶]+cannot be installed[\s│├╰└─▶]+because there are no viable options"@, report),
        silent(r"(?s)([a-zA-Z0-9_-]+)\s*(==|=)\s*([0-9][0-9a-zA-Z.]*)[\s│├╰└─▶]+cannot\s+be\s+installed[\s│├╰└─▶]+because\s+there\s+are\s+no\s+viable\s+options"@, report),
        reads(r"(?s)([a-zA-Z0-9_-]+)\s*(>=|>)\s*([0-9][0-9a-zA-Z.]*)\s*,\s*(<|<=)\s*([0-9][0-9a-zA-Z.]*)[\s│├╰└─▶]+cannot\s+be\s+installed[\s│├╰└─▶]+because\s+there\s+are\s+no\s+viable\s+options"@, report, seq![package, low_op, low, high_op, high]),
        regex_first(
            r"(?s)([a-zA-Z][a-zA-Z0-9_.-]*)\s+[0-9][0-9a-zA-Z.]*\s+would require[\s│├╰└─▶]*"@ + regex_escaped(package) + r"\s*(==|=)\s*([0-9][0-9a-zA-Z.]*)"@,
            report,
        ) == Some(None::<MatchView>),
        reads(
            r"(?s)would require[\s│├╰└─▶]*"@ + regex_escaped(package) + r"\s*(==|=|>=|>)\s*([0-9][0-9a-zA-Z.]*)"@,
            report,
            seq![op, floor],
        ),
    ensures
        parsed_conflict(report) == Some(
            ConflictView::CondaWidenNeeded {
                package,
                op: ">="@,
                floor,
                conda_version: high_op + high,
                requiring_chain: Seq::empty(),
                pack_name: None,
            },
        ),
{
    let own = seq![package, low_op, low, high_op, high];
    let pattern = r"(?s)would require[\s│├╰└─▶]*"@ + regex_escaped(package) + r"\s*(==|=|>=|>)\s*([0-9][0-9a-zA-Z.]*)"@;
    lemma_group(CONDA_INCOMPATIBLE_RANGE@, report, own, 0);
    lemma_group(CONDA_INCOMPATIBLE_RANGE@, report, own, 3);
    lemma_group(CONDA_INCOMPATIBLE_RANGE@, report, own, 4);
    lemma_group(pattern, report, seq![op, floor], 0);
    lemma_group(pattern, report, seq![op, floor], 1);
}

/// Where a report names a pack that would require an exact version of a package, and
/// behind that what would require a cap on the same package, the conflict is that cap,
/// through what requires it, against what the pack demands.
pub proof fn law_cap_below_a_pack_is_read(
    report: Seq<char>,
    demanded: MatchView,
    pack: Seq<char>,
    package: Seq<char>,
    demand: Seq<char>,
    via: Seq<char>,
    cap_op: Seq<char>,
    cap: Seq<char>,
)
    requires
        is_plain_report(report),
        blames_no_conda_pin(report),
        regex_first(r"(?s)([a-zA-Z][a-zA-Z0-9_.-]*)\s+[0-9][0-9a-zA-Z.]*\s+would\s+require[\s│├╰└─▶]*([a-zA-Z0-9_-]+)\s*(?:==|=)\s*([0-9][0-9a-zA-Z.]*)"@, report) == Some(Some(demanded)),
        reads(r"(?s)([a-zA-Z][a-zA-Z0-9_.-]*)\s+[0-9][0-9a-zA-Z.]*\s+would\s+require[\s│├╰└─▶]*([a-zA-Z0-9_-]+)\s*(?:==|=)\s*([0-9][0-9a-zA-Z.]*)"@, report, seq![pack, package, demand]),
        reads(
            r"(?s)([a-zA-Z][a-zA-Z0-9_.-]*)\s+[0-9.]+(?:\s*\|\s*[0-9.]+)*\s+would\s+require[\s│├╰└─▶]*"@ + regex_escaped(package) + r"\s*(<=|<)\s*([0-9][0-9a-zA-Z.]*)"@,
            report.skip(demanded.end as int),
            seq![via, cap_op, cap],
        ),
    ensures
        parsed_conflict(report) == Some(
            ConflictView::NestedCondaCap {
                package,
                pack_name: pack,
                pack_demand: demand,
                cap_op,
                cap_version: cap,
                via,
            },
        ),
{
    let pattern = r"(?s)([a-zA-Z][a-zA-Z0-9_.-]*)\s+[0-9.]+(?:\s*\|\s*[0-9.]+)*\s+would\s+require[\s│├╰└─▶]*"@ + regex_escaped(package) + r"\s*(<=|<)\s*([0-9][0-9a-zA-Z.]*)"@;
    let rest = report.skip(demanded.end as int);
    lemma_group(PACK_DEMAND@, report, seq![pack, package, demand], 0);
    lemma_group(PACK_DEMAND@, report, seq![pack, package, demand], 1);
    lemma_group(PACK_DEMAND@, report, seq![pack, package, demand], 2);
    lemma_group(pattern, rest, seq![via, cap_op, cap], 0);
    lemma_group(pattern, rest, seq![via, cap_op, cap], 1);
    lemma_group(pattern, rest, seq![via, cap_op, cap], 2);
}

/// Where a report of no other shape says that no candidates were found for a version
/// of a package, the conflict is about that version of that package.
pub proof fn law_missing_candidates_are_named(
    report: Seq<char>,
    package: Seq<char>,
    version: Seq<char>,
)
    requires
        is_plain_report(report),
        blames_no_conda_pin(report),
        silent(r"(?s)([a-zA-Z][a-zA-Z0-9_.-]*)\s+[0-9][0-9a-zA-Z.]*\s+would\s+require[\s│├╰└─▶]*([a-zA-Z0-9_-]+)\s*(?:==|=)\s*([0-9][0-9a-zA-Z.]*)"@, report),
        reads(r"No candidates were found for ([a-zA-Z0-9_-]+)\s*==\s*([0-9][0-9a-zA-Z.]*[0-9a-zA-Z])"@, report, seq![package, version]),
    ensures
        parsed_conflict(report) == Some(ConflictView::NoCandidates { package, version }),
{
    lemma_group(NO_CANDIDATES@, report, seq![package, version], 0);
    lemma_group(NO_CANDIDATES@, report, seq![package, version], 1);
}

/// Whether a report, of no other shape, says that the conda solve pinned a package to a
/// version.
pub open spec fn pins(report: Seq<char>, package: Seq<char>, pin: Seq<char>) -> bool {
    &&& is_plain_report(report)
    &&& blames_no_conda_pin(report)
    &&& silent(r"(?s)([a-zA-Z][a-zA-Z0-9_.-]*)\s+[0-9][0-9a-zA-Z.]*\s+would\s+require[\s│├╰└─▶]*([a-zA-Z0-9_-]+)\s*(?:==|=)\s*([0-9][0-9a-zA-Z.]*)"@, report)
    &&& silent(r"No candidates were found for ([a-zA-Z0-9_-]+)\s*==\s*([0-9][0-9a-zA-Z.]*[0-9a-zA-Z])"@, report)
    &&& reads(r"(?s)pinned by the conda solve.*?\n\s+([a-zA-Z0-9_-]+)==([0-9][0-9a-zA-Z._-]*)"@, report, seq![package, pin])
}

/// Where a wheel depends on a package from a floor on that the conda solve pinned, the
/// floor is what the wheel depends on, and the pin is what conda has.
pub proof fn law_pin_gives_way_to_a_dependency(
    report: Seq<char>,
    package: Seq<char>,
    pin: Seq<char>,
    op: Seq<char>,
    floor: Seq<char>,
)
    requires
        pins(report, package, pin),
        ({
            ||| reads(
                "depends on "@ + regex_escaped(package) + r"\s*(>=|>)\s*([0-9][0-9a-zA-Z._-]*)"@,
                report,
                seq![op, floor],
            )
            ||| regex_first(
                "depends on "@ + regex_escaped(package) + r"\s*(>=|>)\s*([0-9][0-9a-zA-Z._-]*)"@,
                report,
            ) == Some(None::<MatchView>) && reads(
                regex_escaped(package) + r"\s*(>=|>)\s*([0-9][0-9a-zA-Z._-]*)\s+is needed"@,
                report,
                seq![op, floor],
            )
        }),
    ensures
        parsed_conflict(report) == Some(
            ConflictView::CondaWidenNeeded {
                package,
                op,
                floor,
                conda_version: pin,
                requiring_chain: Seq::empty(),
                pack_name: None,
            },
        ),
{
    let depends = "depends on "@ + regex_escaped(package) + LONG_FLOOR_TAIL@;
    let needed = regex_escaped(package) + NEEDED_TAIL@;
    lemma_group(HELP_CONDA@, report, seq![package, pin], 0);
    lemma_group(HELP_CONDA@, report, seq![package, pin], 1);
    if reads(depends, report, seq![op, floor]) {
        lemma_group(depends, report, seq![op, floor], 0);
        lemma_group(depends, report, seq![op, floor], 1);
    } else {
        lemma_group(needed, report, seq![op, floor], 0);
        lemma_group(needed, report, seq![op, floor], 1);
    }
}

/// Where two versions of a package are depended on, the conflict is about the one that
/// the conda solve did not pin.
pub proof fn law_boundary_is_about_the_unpinned_version(
    report: Seq<char>,
    package: Seq<char>,
    pin: Seq<char>,
    a: Seq<char>,
    b: Seq<char>,
)
    requires
        pins(report, package, pin),
        regex_first("depends on "@ + regex_escaped(package) + r"\s*(>=|>)\s*([0-9][0-9a-zA-Z._-]*)"@, report) == Some(
            None::<MatchView>,
        ),
        regex_first(regex_escaped(package) + r"\s*(>=|>)\s*([0-9][0-9a-zA-Z._-]*)\s+is needed"@, report) == Some(None::<MatchView>),
        reads(
            "depends on "@ + regex_escaped(package) + r"==([0-9][0-9a-zA-Z._-]*)"@ + " and "@ + regex_escaped(
                package,
            ) + r"==([0-9][0-9a-zA-Z._-]*)"@,
            report,
            seq![a, b],
        ),
        a != b,
        pin == a || pin == b,
    ensures
        parsed_conflict(report) matches Some(ConflictView::CondaBoundary { package: p, version })
            && p == package && version != pin && (version == a || version == b),
{
    let both = "depends on "@ + regex_escaped(package) + LONG_PIN_TAIL@ + " and "@ + regex_escaped(
        package,
    ) + LONG_PIN_TAIL@;
    lemma_group(HELP_CONDA@, report, seq![package, pin], 0);
    lemma_group(HELP_CONDA@, report, seq![package, pin], 1);
    lemma_group(both, report, seq![a, b], 0);
    lemma_group(both, report, seq![a, b], 1);
}

/// Where nothing more is said of a package that the conda solve pinned, the conflict is
/// about the pin: among wheels where the report says that it follows from the pin, and
/// between conda and wheels where it does not.
pub proof fn law_bare_pin_is_the_version(report: Seq<char>, package: Seq<char>, pin: Seq<char>)
    requires
        pins(report, package, pin),
        regex_first("depends on "@ + regex_escaped(package) + r"\s*(>=|>)\s*([0-9][0-9a-zA-Z._-]*)"@, report) == Some(
            None::<MatchView>,
        ),
        regex_first(regex_escaped(package) + r"\s*(>=|>)\s*([0-9][0-9a-zA-Z._-]*)\s+is needed"@, report) == Some(None::<MatchView>),
        regex_first(
            "depends on "@ + regex_escaped(package) + r"==([0-9][0-9a-zA-Z._-]*)"@ + " and "@ + regex_escaped(
                package,
            ) + r"==([0-9][0-9a-zA-Z._-]*)"@,
            report,
        ) == Some(None::<MatchView>),
    ensures
        (exists|i: int| occurs_at(report, "we know from (1)"@, i)) ==> parsed_conflict(report)
            == Some(ConflictView::PypiInternal { package, version: pin }),
        (forall|i: int| !occurs_at(report, "we know from (1)"@, i)) ==> parsed_conflict(report)
            == Some(ConflictView::CondaBoundary { package, version: pin }),
{
    lemma_group(HELP_CONDA@, report, seq![package, pin], 0);
    lemma_group(HELP_CONDA@, report, seq![package, pin], 1);
}

/// Where a backend's message names what conda pins of a package, and two ranges of it
/// that one requirement states, the floor is that of the range that conda does not
/// state, with the message's pack and the requirers of the package.
pub proof fn law_floor_is_not_condas_own(
    report: Seq<char>,
    message: Seq<char>,
    package: Seq<char>,
    conda_op: Seq<char>,
    conda: Seq<char>,
    a: (Seq<char>, Seq<char>),
    b: (Seq<char>, Seq<char>),
)
    requires
        uv_message(report) == Some(message),
        reads(r"package `([a-zA-Z0-9_.-]+)` is named in the conflict but conda pins `[a-zA-Z0-9_.-]+\s*(>=|>|==)\s*([0-9][0-9a-zA-Z.]*)"@, message, seq![package, conda_op, conda]),
        reads(
            "depends on "@ + regex_escaped(package) + r"(?:\{[^}]*\})?\s*(>=|>)\s*([0-9][0-9a-zA-Z.]*),<[0-9a-zA-Z.]+"@ + r"\s+and\s+"@
                + regex_escaped(package) + r"(?:\{[^}]*\})?\s*(>=|>)\s*([0-9][0-9a-zA-Z.]*),<[0-9a-zA-Z.]+"@,
            message,
            seq![a.0, a.1, b.0, b.1],
        ),
        a == (conda_op, conda) || b == (conda_op, conda),
    ensures
        parsed_conflict(report) matches Some(
            ConflictView::CondaWidenNeeded { package: p, op, floor, conda_version, .. },
        ) && p == package && conda_version == conda_op + conda && ((op, floor) == a || (op, floor)
            == b) && (a != b ==> (op, floor) != (conda_op, conda)),
{
    let own = seq![package, conda_op, conda];
    let both = seq![a.0, a.1, b.0, b.1];
    let dual = dual_range_pattern(regex_escaped(package));
    lemma_group(CONDA_PROVENANCE@, message, own, 0);
    lemma_group(CONDA_PROVENANCE@, message, own, 1);
    lemma_group(CONDA_PROVENANCE@, message, own, 2);
    lemma_group(dual, message, both, 0);
    lemma_group(dual, message, both, 1);
    lemma_group(dual, message, both, 2);
    lemma_group(dual, message, both, 3);
}

/// Whether a backend's message, of a build whose conda pins have no part in the
/// conflict, is this.
pub open spec fn is_wheel_message(report: Seq<char>, message: Seq<char>) -> bool {
    &&& uv_message(report) == Some(message)
    &&& silent(r"package `([a-zA-Z0-9_.-]+)` is named in the conflict but conda pins `[a-zA-Z0-9_.-]+\s*(>=|>|==)\s*([0-9][0-9a-zA-Z.]*)"@, message)
    &&& !silent(r"no generated conda constraint was named in uv's message"@, message)
}

/// The pack of a conflict is the bundle whose closure the backend's message says it
/// computes.
pub proof fn law_conflict_names_the_bundle(
    report: Seq<char>,
    message: Seq<char>,
    bundle: Seq<char>,
)
    requires
        uv_message(report) == Some(message),
        reads(r"computing uv closure for bundle `([^`]+)`"@, message, seq![bundle]),
    ensures
        match parsed_conflict(report) {
            Some(ConflictView::CondaWidenNeeded { pack_name, .. }) => pack_name == Some(bundle),
            Some(ConflictView::DepsFromPin { pack_name, .. }) => pack_name == Some(bundle),
            Some(ConflictView::NoWheelTransitive { pack_name, .. }) => pack_name == Some(bundle),
            _ => true,
        },
{
    lemma_group(UV_CLOSURE_BUNDLE@, message, seq![bundle], 0);
}

/// A version that no wheel has is a conflict among wheels about that version of that
/// package.
pub proof fn law_version_without_wheel_is_internal(
    report: Seq<char>,
    message: Seq<char>,
    package: Seq<char>,
    version: Seq<char>,
)
    requires
        is_wheel_message(report, message),
        reads(r"there is no version of ([a-zA-Z0-9_-]+)\s*==\s*([0-9][0-9a-zA-Z.]*(?:rc|a|b|dev)?[0-9a-zA-Z.]*)"@, message, seq![package, version]),
    ensures
        parsed_conflict(report) == Some(ConflictView::PypiInternal { package, version }),
{
    lemma_group(NO_VERSION_OF@, message, seq![package, version], 0);
    lemma_group(NO_VERSION_OF@, message, seq![package, version], 1);
}

/// Where a wheel depends on a package from a floor on that the project pins exactly,
/// the conflict has the floor of the one and the version of the other.
pub proof fn law_upstream_pin_stands_against_its_floor(
    report: Seq<char>,
    message: Seq<char>,
    requirer: Seq<char>,
    package: Seq<char>,
    op: Seq<char>,
    floor: Seq<char>,
    pin_op: Seq<char>,
    pin: Seq<char>,
)
    requires
        is_wheel_message(report, message),
        silent(r"there is no version of ([a-zA-Z0-9_-]+)\s*==\s*([0-9][0-9a-zA-Z.]*(?:rc|a|b|dev)?[0-9a-zA-Z.]*)"@, message),
        reads(r"(?i)because\s+([a-zA-Z0-9_.\[\]-]+)==[0-9a-zA-Z.]+\s+depends\s+on\s+([a-zA-Z0-9_.\[\]-]+)(?:\[[^\]]*\])?\s*(>=|>)\s*([0-9][0-9a-zA-Z.]*)"@, message, seq![requirer, package, op, floor]),
        reads(
            "(?i)your project depends on "@ + regex_escaped(package) + r"(?:\[[^\]]*\])?\s*(==|===)\s*([0-9][0-9a-zA-Z.]*)"@,
            message,
            seq![pin_op, pin],
        ),
    ensures
        parsed_conflict(report) matches Some(
            ConflictView::DepsFromPin { package: p, pinned_version, op: o, floor: f, requirer: r, .. },
        ) && p == package && pinned_version == pin && o == op && f == floor && r == requirer,
{
    let because = seq![requirer, package, op, floor];
    let project = "(?i)your project depends on "@ + regex_escaped(package) + PROJECT_PIN_TAIL@;
    lemma_group(DEPS_FROM_BECAUSE@, message, because, 0);
    lemma_group(DEPS_FROM_BECAUSE@, message, because, 1);
    lemma_group(DEPS_FROM_BECAUSE@, message, because, 2);
    lemma_group(DEPS_FROM_BECAUSE@, message, because, 3);
    lemma_group(project, message, seq![pin_op, pin], 0);
    lemma_group(project, message, seq![pin_op, pin], 1);
}

/// Where a package has no usable wheels, the conflict has the range of it that has
/// none, and the exact version of what depends on it.
pub proof fn law_missing_wheel_names_its_requirer(
    report: Seq<char>,
    message: Seq<char>,
    package: Seq<char>,
    range: Seq<char>,
    requirer: Seq<char>,
    pin: Seq<char>,
    op: Seq<char>,
)
    requires
        is_wheel_message(report, message),
        silent(r"there is no version of ([a-zA-Z0-9_-]+)\s*==\s*([0-9][0-9a-zA-Z.]*(?:rc|a|b|dev)?[0-9a-zA-Z.]*)"@, message),
        silent(r"(?i)because\s+([a-zA-Z0-9_.\[\]-]+)==[0-9a-zA-Z.]+\s+depends\s+on\s+([a-zA-Z0-9_.\[\]-]+)(?:\[[^\]]*\])?\s*(>=|>)\s*([0-9][0-9a-zA-Z.]*)"@, message),
        reads(r"(?i)([a-zA-Z0-9][a-zA-Z0-9._-]*)((?:>=|<=|==|>|<)\S*)\s+has no usable wheels"@, message, seq![package, range]),
        reads(
            r"(?i)because\s+([a-zA-Z0-9_.\[\]-]+)==([0-9][0-9a-zA-Z.]*)\s+depends\s+on\s+"@ + regex_escaped(package) + r"(?:\[[^\]]*\])?\s*(==|===)\s*[0-9a-zA-Z.*]+"@,
            message,
            seq![requirer, pin, op],
        ),
    ensures
        parsed_conflict(report) matches Some(
            ConflictView::NoWheelTransitive { package: p, range: g, requirer: r, requirer_pin, .. },
        ) && p == package && g == range && r == requirer && requirer_pin == pin,
{
    let required = WHEEL_REQUIRER_HEAD@ + regex_escaped(package) + WHEEL_REQUIRER_TAIL@;
    lemma_group(NO_USABLE_WHEELS@, message, seq![package, range], 0);
    lemma_group(NO_USABLE_WHEELS@, message, seq![package, range], 1);
    lemma_group(required, message, seq![requirer, pin, op], 0);
    lemma_group(required, message, seq![requirer, pin, op], 1);
}

/// Whether a message states that `requirer` depends on a package of this name.
pub open spec fn states_dependency(message: Seq<char>, requirer: Seq<char>, name: Seq<char>) -> bool {
    let all = regex_all(
        r"(?i)because ([a-zA-Z0-9_.\[\]-]+)==[0-9a-zA-Z.]+ depends on ([a-zA-Z0-9_.\[\]-]+)"@,
        message,
    );
    exists|i: int|
        0 <= i < all.len() && group_text(#[trigger] all[i], 1) == requirer && same_name(
            group_text(all[i], 2),
            name,
        )
}

spec fn pair_requires(
    pairs: Seq<(Seq<char>, Seq<char>)>,
    requirer: Seq<char>,
    name: Seq<char>,
) -> bool {
    exists|i: int|
        0 <= i < pairs.len() && (#[trigger] pairs[i]).0 == requirer && same_name(pairs[i].1, name)
}

/// Whether each name of a chain requires where it starts from or another of the chain.
spec fn chain_holds(
    footer: Seq<char>,
    pairs: Seq<(Seq<char>, Seq<char>)>,
    chain: Seq<Seq<char>>,
) -> bool {
    forall|x: Seq<char>| #[trigger]
        chain.contains(x) ==> exists|y: Seq<char>|
            (y == footer || chain.contains(y)) && #[trigger] pair_requires(pairs, x, y)
}

proof fn lemma_scan_holds(
    footer: Seq<char>,
    current: Seq<char>,
    pairs: Seq<(Seq<char>, Seq<char>)>,
    n: int,
    state: ChainState,
)
    requires
        0 <= n <= pairs.len(),
        chain_holds(footer, pairs, state.0),
        current == footer || state.0.contains(current),
        forall|x: Seq<char>| state.1.contains(x) ==> state.0.contains(x),
    ensures
        ({
            let after = chain_scan(footer, current, pairs.take(n), state);
            &&& chain_holds(footer, pairs, after.0)
            &&& forall|x: Seq<char>| state.0.contains(x) ==> #[trigger] after.0.contains(x)
            &&& forall|x: Seq<char>| after.1.contains(x) ==> after.0.contains(x)
            &&& forall|i: int|
                0 <= i < n && same_name((#[trigger] pairs[i]).1, current) && pairs[i].0 != footer
                    ==> after.0.contains(pairs[i].0)
        }),
    decreases n,
{
    if n > 0 {
        lemma_scan_holds(footer, current, pairs, n - 1, state);
        assert(pairs.take(n).drop_last() =~= pairs.take(n - 1));
        assert(pairs.take(n).last() == pairs[n - 1]);
        let before = chain_scan(footer, current, pairs.take(n - 1), state);
        let after = chain_scan(footer, current, pairs.take(n), state);
        let pair = pairs[n - 1];
        if after != before {
            assert(after.0 == before.0.push(pair.0));
            assert forall|x: Seq<char>| before.0.contains(x) implies #[trigger] after.0.contains(
                x,
            ) by {
                let k = choose|k: int| 0 <= k < before.0.len() && before.0[k] == x;
                assert(after.0[k] == x);
            }
            assert(after.0[before.0.len() as int] == pair.0);
            assert(after.0.contains(pair.0));
            assert(pair_requires(pairs, pair.0, current));
            assert forall|x: Seq<char>| #[trigger] after.0.contains(x) implies exists|y: Seq<char>|
                (y == footer || after.0.contains(y)) && #[trigger] pair_requires(pairs, x, y) by {
                if before.0.contains(x) {
                    let y = choose|y: Seq<char>|
                        (y == footer || before.0.contains(y)) && #[trigger] pair_requires(
                            pairs,
                            x,
                            y,
                        );
                    assert(y == footer || after.0.contains(y));
                } else {
                    let k = choose|k: int| 0 <= k < after.0.len() && after.0[k] == x;
                    if k < before.0.len() {
                        assert(before.0[k] == x);
                    }
                    assert(x == pair.0);
                    assert(current == footer || after.0.contains(current));
                }
            }
            assert forall|x: Seq<char>| after.1.contains(x) implies after.0.contains(x) by {
                let k = choose|k: int| 0 <= k < after.1.len() && after.1[k] == x;
                if k < before.1.len() {
                    assert(before.1[k] == x);
                    assert(before.1.contains(x));
                }
            }
        }
    } else {
        assert(pairs.take(0) =~= Seq::empty());
    }
}

proof fn lemma_round_holds(
    footer: Seq<char>,
    frontier: Seq<Seq<char>>,
    pairs: Seq<(Seq<char>, Seq<char>)>,
    state: ChainState,
)
    requires
        chain_holds(footer, pairs, state.0),
        forall|x: Seq<char>| frontier.contains(x) ==> x == footer || state.0.contains(x),
        forall|x: Seq<char>| state.1.contains(x) ==> state.0.contains(x),
    ensures
        ({
            let after = chain_round(footer, frontier, pairs, state);
            &&& chain_holds(footer, pairs, after.0)
            &&& forall|x: Seq<char>| state.0.contains(x) ==> #[trigger] after.0.contains(x)
            &&& forall|x: Seq<char>| after.1.contains(x) ==> after.0.contains(x)
            &&& forall|i: int, k: int|
                0 <= i < pairs.len() && 0 <= k < frontier.len() && same_name(
                    (#[trigger] pairs[i]).1,
                    #[trigger] frontier[k],
                ) && pairs[i].0 != footer ==> after.0.contains(pairs[i].0)
        }),
    decreases frontier.len(),
{
    if frontier.len() > 0 {
        let rest = frontier.drop_last();
        assert forall|x: Seq<char>| rest.contains(x) implies x == footer || state.0.contains(x) by {
            let k = choose|k: int| 0 <= k < rest.len() && rest[k] == x;
            assert(frontier[k] == x);
            assert(frontier.contains(x));
        }
        lemma_round_holds(footer, rest, pairs, state);
        let between = chain_round(footer, rest, pairs, state);
        assert(frontier[frontier.len() - 1] == frontier.last());
        assert(frontier.contains(frontier.last()));
        lemma_scan_holds(footer, frontier.last(), pairs, pairs.len() as int, between);
        assert(pairs.take(pairs.len() as int) =~= pairs);
        let after = chain_round(footer, frontier, pairs, state);
        assert forall|i: int, k: int|
            0 <= i < pairs.len() && 0 <= k < frontier.len() && same_name(
                (#[trigger] pairs[i]).1,
                #[trigger] frontier[k],
            ) && pairs[i].0 != footer implies after.0.contains(pairs[i].0) by {
            if k < rest.len() {
                assert(rest[k] == frontier[k]);
                assert(between.0.contains(pairs[i].0));
            }
        }
    }
}

proof fn lemma_walk_holds(
    footer: Seq<char>,
    frontier: Seq<Seq<char>>,
    pairs: Seq<(Seq<char>, Seq<char>)>,
    chain: Seq<Seq<char>>,
    hops: nat,
)
    requires
        chain_holds(footer, pairs, chain),
        forall|x: Seq<char>| frontier.contains(x) ==> x == footer || chain.contains(x),
    ensures
        chain_holds(footer, pairs, chain_walk(footer, frontier, pairs, chain, hops)),
        forall|x: Seq<char>|
            chain.contains(x) ==> #[trigger] chain_walk(
                footer,
                frontier,
                pairs,
                chain,
                hops,
            ).contains(x),
        hops > 0 ==> forall|i: int, k: int|
            0 <= i < pairs.len() && 0 <= k < frontier.len() && same_name(
                (#[trigger] pairs[i]).1,
                #[trigger] frontier[k],
            ) && pairs[i].0 != footer ==> chain_walk(
                footer,
                frontier,
                pairs,
                chain,
                hops,
            ).contains(pairs[i].0),
    decreases hops,
{
    if hops > 0 {
        let state = (chain, Seq::<Seq<char>>::empty());
        lemma_round_holds(footer, frontier, pairs, state);
        let after = chain_round(footer, frontier, pairs, state);
        if after.1.len() > 0 {
            lemma_walk_holds(footer, after.1, pairs, after.0, (hops - 1) as nat);
        }
    }
}

/// The requirers of a package that a message states are in its chain, and each in the
/// chain depends, by what the message states, on the package or on another in the
/// chain.
pub proof fn law_chain_holds_requirers(message: Seq<char>, package: Seq<char>)
    ensures
        ({
            let chain = requiring_chain(message, package);
            &&& forall|x: Seq<char>|
                x != package && #[trigger] states_dependency(message, x, package)
                    ==> chain.contains(x)
            &&& forall|x: Seq<char>| #[trigger]
                chain.contains(x) ==> exists|y: Seq<char>|
                    (y == package || chain.contains(y)) && #[trigger] states_dependency(
                        message,
                        x,
                        y,
                    )
        }),
{
    let pairs = requirements(message);
    let chain = requiring_chain(message, package);
    let all = regex_all(REQUIRING_CHAIN@, message);
    assert(Seq::<Seq<char>>::empty().len() == 0);
    lemma_walk_holds(package, seq![package], pairs, Seq::empty(), MAX_HOPS as nat);
    assert forall|x: Seq<char>|
        x != package && #[trigger] states_dependency(message, x, package) implies chain.contains(
        x,
    ) by {
        let i = choose|i: int|
            0 <= i < all.len() && group_text(#[trigger] all[i], 1) == x && same_name(
                group_text(all[i], 2),
                package,
            );
        assert(pairs[i] == two_groups(all[i]));
        assert(seq![package][0] == package);
    }
    assert forall|x: Seq<char>| #[trigger] chain.contains(x) implies exists|y: Seq<char>|
        (y == package || chain.contains(y)) && #[trigger] states_dependency(message, x, y) by {
        let y = choose|y: Seq<char>|
            (y == package || chain.contains(y)) && #[trigger] pair_requires(pairs, x, y);
        let i = choose|i: int|
            0 <= i < pairs.len() && (#[trigger] pairs[i]).0 == x && same_name(pairs[i].1, y);
        assert(pairs[i] == two_groups(all[i]));
        assert(states_dependency(message, x, y));
    }
}

/// Whether a mention says what a match does: the package of its first group; the
/// operator and the version of the next two, a bare `=` being written `==`; behind a
/// comma those of the last two, where both took part; and the requirer, other than the
/// package itself, that starts last before it.
pub open spec fn mentions(
    m: MatchView,
    requirers: Seq<(usize, Seq<char>)>,
    mention: MentionView,
) -> bool {
    let plain = |op: Seq<char>|
        if op == "="@ {
            "=="@
        } else {
            op
        };
    let first = plain(group_text(m, 2)) + group_text(m, 3);
    &&& mention.package == group_text(m, 1)
    &&& mention.spec == if m.groups.len() > 5 && m.groups[4] is Some && m.groups[5] is Some {
        first + ","@ + plain(m.groups[4]->0) + m.groups[5]->0
    } else {
        first
    }
    &&& match mention.requirer {
        None => forall|i: int|
            0 <= i < requirers.len() ==> (#[trigger] requirers[i]).0 >= m.start || same_name(
                requirers[i].1,
                mention.package,
            ),
        Some(name) => exists|k: int|
            {
                &&& 0 <= k < requirers.len()
                &&& (#[trigger] requirers[k]).1 == name
                &&& requirers[k].0 < m.start
                &&& !same_name(name, mention.package)
                &&& forall|i: int|
                    0 <= i < requirers.len() && (#[trigger] requirers[i]).0 < m.start && !same_name(
                        requirers[i].1,
                        mention.package,
                    ) ==> requirers[i].0 <= requirers[k].0
            },
    }
}

proof fn lemma_nearest(requirers: Seq<(usize, Seq<char>)>, n: int, start: usize, package: Seq<char>)
    requires
        0 <= n <= requirers.len(),
    ensures
        match nearest_requirer(requirers.take(n), start, package) {
            None => forall|i: int|
                0 <= i < n ==> (#[trigger] requirers[i]).0 >= start || same_name(
                    requirers[i].1,
                    package,
                ),
            Some(best) => exists|k: int|
                {
                    &&& 0 <= k < n
                    &&& #[trigger] requirers[k] == best
                    &&& best.0 < start
                    &&& !same_name(best.1, package)
                    &&& forall|i: int|
                        0 <= i < n && (#[trigger] requirers[i]).0 < start && !same_name(
                            requirers[i].1,
                            package,
                        ) ==> requirers[i].0 <= best.0
                },
        },
    decreases n,
{
    if n > 0 {
        lemma_nearest(requirers, n - 1, start, package);
        assert(requirers.take(n).drop_last() =~= requirers.take(n - 1));
        let r = requirers[n - 1];
        assert(requirers.take(n).last() == r);
        let best = nearest_requirer(requirers.take(n), start, package);
        if best == Some(r) && r.0 < start && !same_name(r.1, package) {
            assert(requirers[n - 1] == r);
        }
    }
}

proof fn lemma_mention_of(m: MatchView, requirers: Seq<(usize, Seq<char>)>)
    ensures
        mentions(m, requirers, mention_of(m, requirers)),
{
    let n = requirers.len() as int;
    lemma_nearest(requirers, n, m.start, group_text(m, 1));
    assert(requirers.take(n) =~= requirers);
    match nearest_requirer(requirers, m.start, group_text(m, 1)) {
        Some(best) => {
            let k = choose|k: int|
                {
                    &&& 0 <= k < n
                    &&& #[trigger] requirers[k] == best
                    &&& best.0 < m.start
                    &&& !same_name(best.1, group_text(m, 1))
                    &&& forall|i: int|
                        0 <= i < n && (#[trigger] requirers[i]).0 < m.start && !same_name(
                            requirers[i].1,
                            group_text(m, 1),
                        ) ==> requirers[i].0 <= best.0
                };
            assert(requirers[k].1 == best.1);
        },
        None => {},
    }
}

proof fn lemma_mentions_come_from(
    matches: Seq<MatchView>,
    requirers: Seq<(usize, Seq<char>)>,
    n: int,
)
    requires
        0 <= n <= matches.len(),
    ensures
        ({
            let list = mentions_of(matches.take(n), requirers);
            &&& forall|i: int|
                0 <= i < list.len() ==> exists|k: int|
                    0 <= k < n && mentions(
                        #[trigger] matches[k],
                        requirers,
                        #[trigger] list[i],
                    )
            &&& forall|k: int|
                0 <= k < n && byte_len(group_text(#[trigger] matches[k], 1)) >= 2
                    ==> mentioned(
                    list,
                    mention_of(matches[k], requirers).package,
                    mention_of(matches[k], requirers).spec,
                )
        }),
    decreases n,
{
    if n > 0 {
        lemma_mentions_come_from(matches, requirers, n - 1);
        assert(matches.take(n).drop_last() =~= matches.take(n - 1));
        assert(matches.take(n).last() == matches[n - 1]);
        lemma_mention_of(matches[n - 1], requirers);
        let before = mentions_of(matches.take(n - 1), requirers);
        let list = mentions_of(matches.take(n), requirers);
        let m = mention_of(matches[n - 1], requirers);
        assert forall|i: int| 0 <= i < list.len() implies exists|k: int|
            0 <= k < n && mentions(#[trigger] matches[k], requirers, #[trigger] list[i]) by {
            if i < before.len() {
                assert(list[i] == before[i]);
                let k = choose|k: int|
                    0 <= k < n - 1 && mentions(#[trigger] matches[k], requirers, before[i]);
                assert(mentions(matches[k], requirers, list[i]));
            } else {
                assert(list[i] == m);
                assert(mentions(matches[n - 1], requirers, list[i]));
            }
        }
        assert forall|k: int|
            0 <= k < n && byte_len(group_text(#[trigger] matches[k], 1)) >= 2 implies mentioned(
            list,
            mention_of(matches[k], requirers).package,
            mention_of(matches[k], requirers).spec,
        ) by {
            let w = mention_of(matches[k], requirers);
            if mentioned(before, w.package, w.spec) {
                let i = choose|i: int|
                    0 <= i < before.len() && (#[trigger] before[i]).package == w.package
                        && before[i].spec == w.spec;
                assert(list[i] == before[i]);
            } else {
                assert(k == n - 1);
                assert(list[before.len() as int] == m);
            }
        }
    }
}

/// Every mention of a report comes from a place in it, with the spec and the requirer
/// that stand there; and every package that stands there with a spec, but for names of
/// less than two bytes, is mentioned with it.
pub proof fn law_mentions_say_what_stands_there(report: Seq<char>)
    ensures
        ({
            let text = flattened(report);
            let list = generic_mentions(report);
            let matches = regex_all(
                r"(?i)\b([A-Za-z][A-Za-z0-9._-]{1,60}?)\s*(>=|<=|==|=|>|<)\s*([0-9][0-9A-Za-z.]*\*?)(?:\s*,\s*(>=|<=|==|=|>|<)\s*([0-9][0-9A-Za-z.]*\*?))?"@,
                text,
            );
            let requirers = regex_all(
                r"(?i)\b([A-Za-z][A-Za-z0-9._-]*)\s*(?:==|=)?\s*[0-9][0-9A-Za-z.]*(?:\s*\|\s*[0-9A-Za-z.]+)*\s+(?:would\s+require|depends\s+on)"@,
                text,
            ).map_values(|m: MatchView| (m.start, group_text(m, 1)));
            &&& forall|i: int|
                0 <= i < list.len() ==> exists|k: int|
                    0 <= k < matches.len() && mentions(
                        #[trigger] matches[k],
                        requirers,
                        #[trigger] list[i],
                    )
            &&& forall|k: int|
                0 <= k < matches.len() && byte_len(group_text(#[trigger] matches[k], 1)) >= 2
                    ==> exists|i: int, w: MentionView|
                    0 <= i < list.len() && #[trigger] mentions(matches[k], requirers, w) && (
                    #[trigger] list[i]).package == w.package && list[i].spec == w.spec
        }),
{
    let text = flattened(report);
    let list = generic_mentions(report);
    let matches = regex_all(MENTION@, text);
    let requirers = requirers_in(text);
    assert(requirers =~= regex_all(REQUIRER@, text).map_values(
        |m: MatchView| (m.start, group_text(m, 1)),
    ));
    lemma_mentions_come_from(matches, requirers, matches.len() as int);
    assert(matches.take(matches.len() as int) =~= matches);
    assert forall|k: int|
        0 <= k < matches.len() && byte_len(group_text(#[trigger] matches[k], 1)) >= 2 implies exists|
        i: int,
        w: MentionView,
    |
        0 <= i < list.len() && #[trigger] mentions(matches[k], requirers, w) && (
        #[trigger] list[i]).package == w.package && list[i].spec == w.spec by {
        let w = mention_of(matches[k], requirers);
        lemma_mention_of(matches[k], requirers);
        assert(mentioned(list, w.package, w.spec));
        let i = choose|i: int|
            0 <= i < list.len() && (#[trigger] list[i]).package == w.package && list[i].spec
                == w.spec;
        assert(mentions(matches[k], requirers, w) && list[i].package == w.package);
    }
}

/// Whether what stands at `start` is in a branch that cannot be installed: the last
/// branch before it that is said to be one or the other.
pub open spec fn stands_in_dead_end(text: Seq<char>, start: int) -> bool {
    exists|c: int| #[trigger]
        occurs_at(text.take(start), "cannot be installed"@, c) && forall|k: int| #[trigger]
            occurs_at(text.take(start), "can be installed"@, k) ==> k < c
}

proof fn lemma_last_before(s: Seq<char>, part: Seq<char>, end: int)
    ensures
        match last_before(s, part, end) {
            Some(i) => i < end && occurs_at(s, part, i) && forall|k: int|
                i < k < end ==> !occurs_at(s, part, k),
            None => forall|k: int| k < end ==> !occurs_at(s, part, k),
        },
    decreases end,
{
    if end > 0 {
        lemma_last_before(s, part, end - 1);
    }
}

proof fn lemma_dead_end(text: Seq<char>, start: int)
    requires
        0 <= start <= text.len(),
    ensures
        in_dead_end(text, start) == stands_in_dead_end(text, start),
{
    let s = text.take(start);
    let bad = "cannot be installed"@;
    let good = "can be installed"@;
    reveal_strlit("cannot be installed");
    reveal_strlit("can be installed");
    lemma_last_before(s, bad, s.len() as int + 1);
    lemma_last_before(s, good, s.len() as int + 1);
    if in_dead_end(text, start) {
        let c = last_at(s, bad)->0;
        assert(occurs_at(s, bad, c));
    }
    if stands_in_dead_end(text, start) {
        let c = choose|c: int| #[trigger]
            occurs_at(s, bad, c) && forall|k: int| #[trigger] occurs_at(s, good, k) ==> k < c;
        assert(last_at(s, bad) is Some);
    }
}

proof fn lemma_dead_end_from(text: Seq<char>, matches: Seq<MatchView>, from: int)
    requires
        0 <= from <= matches.len(),
        forall|i: int| 0 <= i < matches.len() ==> (#[trigger] matches[i]).start <= text.len(),
    ensures
        match dead_end_from(text, matches, from) {
            Some(name) => exists|i: int|
                from <= i < matches.len() && name == group_text(#[trigger] matches[i], 1)
                    && stands_in_dead_end(text, matches[i].start as int) && forall|k: int|
                    from <= k < i ==> !stands_in_dead_end(
                        text,
                        (#[trigger] matches[k]).start as int,
                    ),
            None => forall|k: int|
                from <= k < matches.len() ==> !stands_in_dead_end(
                    text,
                    (#[trigger] matches[k]).start as int,
                ),
        },
    decreases matches.len() - from,
{
    if from < matches.len() {
        lemma_dead_end(text, matches[from].start as int);
        lemma_dead_end_from(text, matches, from + 1);
    }
}

/// The pack that a text is about is the first that requires something in a branch that
/// cannot be installed; where none does, it is the first that requires something.
pub proof fn law_bundle_is_in_a_dead_end(text: Seq<char>, matches: Seq<MatchView>)
    requires
        forall|i: int| 0 <= i < matches.len() ==> (#[trigger] matches[i]).start <= text.len(),
    ensures
        matches.len() == 0 <==> bundle_of(text, matches) is None,
        bundle_of(text, matches) matches Some(name) ==> exists|i: int|
            {
                &&& 0 <= i < matches.len()
                &&& name == group_text(#[trigger] matches[i], 1)
                &&& forall|k: int|
                    0 <= k < i ==> !stands_in_dead_end(
                        text,
                        (#[trigger] matches[k]).start as int,
                    )
                &&& stands_in_dead_end(text, matches[i].start as int) || i == 0 && forall|k: int|
                    0 <= k < matches.len() ==> !stands_in_dead_end(
                        text,
                        (#[trigger] matches[k]).start as int,
                    )
            },
{
    lemma_dead_end_from(text, matches, 0);
    if dead_end_from(text, matches, 0) is None && matches.len() > 0 {
        assert(group_text(matches[0], 1) == group_text(matches[0], 1));
    }
}

/// The end of a text has its last characters, as many as are asked for where it has
/// more.
pub proof fn law_tail_is_the_end(s: Seq<char>, max_chars: nat)
    ensures
        tail_of(s, max_chars).len() <= max_chars,
        tail_of(s, max_chars).len() == max_chars || tail_of(s, max_chars) == s,
        tail_of(s, max_chars).is_suffix_of(s),
{
    let t = tail_of(s, max_chars);
    assert(s.subrange(s.len() - t.len(), s.len() as int) =~= t);
}

/// Whether a text begins with another.
pub open spec fn text_begins(text: Seq<char>, start: Seq<char>) -> bool {
    text.len() >= start.len() && text.take(start.len() as int) == start
}

/// A pin that reaches only the builds for another python is diagnosed: the pin, its
/// version, and the python that its builds are for, as the report has them.
pub proof fn law_pin_for_another_python_is_diagnosed(
    report: Seq<char>,
    package: Seq<char>,
    version: Seq<char>,
    python: Seq<char>,
    tag: Seq<char>,
)
    ensures
        reads(
            r"(?s)([A-Za-z][A-Za-z0-9._-]*)\s*==\s*([0-9][0-9A-Za-z.]*)\s+cannot be\s+installed because there are no viable options:.{0,400}?would require[\s│├╰└─▶]*python_abi\s+([0-9.]+)\.\*\s+\*_cp(\d+),\s*for which no\s+candidates were found"@,
            report,
            seq![package, version, python, tag],
        ) ==> (abi_tail_diagnosis(report) matches Some(text) && text_begins(
            text,
            "retread lock: diagnosis -- the workspace pin `"@ + package + " =="@ + version
                + "` only reaches builds for python "@ + python + " (cp"@ + tag,
        )),
        silent(
            r"(?s)([A-Za-z][A-Za-z0-9._-]*)\s*==\s*([0-9][0-9A-Za-z.]*)\s+cannot be\s+installed because there are no viable options:.{0,400}?would require[\s│├╰└─▶]*python_abi\s+([0-9.]+)\.\*\s+\*_cp(\d+),\s*for which no\s+candidates were found"@,
            report,
        ) ==> abi_tail_diagnosis(report) is None,
{
    let pattern =
        r"(?s)([A-Za-z][A-Za-z0-9._-]*)\s*==\s*([0-9][0-9A-Za-z.]*)\s+cannot be\s+installed because there are no viable options:.{0,400}?would require[\s│├╰└─▶]*python_abi\s+([0-9.]+)\.\*\s+\*_cp(\d+),\s*for which no\s+candidates were found"@;
    let groups = seq![package, version, python, tag];
    if reads(pattern, report, groups) {
        lemma_group(pattern, report, groups, 0);
        lemma_group(pattern, report, groups, 1);
        lemma_group(pattern, report, groups, 2);
        lemma_group(pattern, report, groups, 3);
        let text = abi_tail_diagnosis(report)->0;
        let start = "retread lock: diagnosis -- the workspace pin `"@ + package + " =="@ + version
            + "` only reaches builds for python "@ + python + " (cp"@ + tag;
        assert(text.take(start.len() as int) =~= start);
    }
}

/// A report on the closure of a pack's wheels is about that pack, whatever else it says.
pub proof fn law_closure_names_its_pack(report: Seq<char>, pack: Seq<char>)
    ensures
        reads(r"computing uv closure for bundle `([^`]+)`"@, report, seq![pack]) ==> bundle_name(
            report,
        ) == Some(pack),
        silent(r"computing uv closure for bundle `([^`]+)`"@, report) ==> bundle_name(report)
            == bundle_of(
            flattened(report),
            regex_all(
                r"(?s)([a-zA-Z][a-zA-Z0-9_.-]*)\s+[0-9][0-9a-zA-Z.]*\s+would\s+require"@,
                flattened(report),
            ),
        ),
{
    let pattern = r"computing uv closure for bundle `([^`]+)`"@;
    if reads(pattern, report, seq![pack]) {
        lemma_group(pattern, report, seq![pack], 0);
    }
}

/// Whether a text has another in it.
pub open spec fn text_has(text: Seq<char>, part: Seq<char>) -> bool {
    exists|before: Seq<char>, after: Seq<char>| text == #[trigger] (before + part + after)
}

proof fn lemma_text_has(text: Seq<char>, part: Seq<char>)
    ensures
        occurs(text, part) <==> text_has(text, part),
{
    if occurs(text, part) {
        let i = choose|i: int| occurs_at(text, part, i);
        let before = text.take(i);
        let after = text.skip(i + part.len());
        assert(text =~= before + part + after);
    }
    if text_has(text, part) {
        let (before, after) = choose|before: Seq<char>, after: Seq<char>|
            text == #[trigger] (before + part + after);
        let at: int = before.len() as int;
        assert(text.subrange(at, at + part.len()) =~= part);
        assert(occurs_at(text, part, at));
    }
}

/// The conda solver refuses where it says one of two things, and only there.
pub proof fn law_refusal_is_one_of_two_sentences(report: Seq<char>)
    ensures
        is_conda_unsat(report) <==> text_has(report, "Cannot solve the request because of"@)
            || text_has(report, "The following packages are incompatible"@),
{
    lemma_text_has(report, "Cannot solve the request because of"@);
    lemma_text_has(report, "The following packages are incompatible"@);
}

/// A ledger tells the kinds of conflict apart.
pub proof fn law_kinds_go_by_their_names(c: ConflictView)
    ensures
        kind_name(c) == "NoCandidates"@ <==> c is NoCandidates,
        kind_name(c) == "CondaBoundary"@ <==> c is CondaBoundary,
        kind_name(c) == "PypiInternal"@ <==> c is PypiInternal,
        kind_name(c) == "CondaWidenNeeded"@ <==> c is CondaWidenNeeded,
        kind_name(c) == "DepsFromPin"@ <==> c is DepsFromPin,
        kind_name(c) == "NoWheelTransitive"@ <==> c is NoWheelTransitive,
        kind_name(c) == "CondaRangeVsPackPin"@ <==> c is CondaRangeVsPackPin,
        kind_name(c) == "NestedCondaCap"@ <==> c is NestedCondaCap,
{
    reveal_strlit("NoCandidates");
    reveal_strlit("CondaBoundary");
    reveal_strlit("PypiInternal");
    reveal_strlit("CondaWidenNeeded");
    reveal_strlit("DepsFromPin");
    reveal_strlit("NoWheelTransitive");
    reveal_strlit("CondaRangeVsPackPin");
    reveal_strlit("NestedCondaCap");
    assert("NoCandidates"@.len() == 12 && "CondaBoundary"@.len() == 13 && "PypiInternal"@.len()
        == 12);
    assert("CondaWidenNeeded"@.len() == 16 && "DepsFromPin"@.len() == 11
        && "NoWheelTransitive"@.len() == 17);
    assert("CondaRangeVsPackPin"@.len() == 19 && "NestedCondaCap"@.len() == 14);
    assert("NoCandidates"@[0] == 'N' && "PypiInternal"@[0] == 'P');
}

/// Lines of a message are joined by a blank, but where a line ends in a hyphen: there the
/// word goes on in the next one.
pub proof fn law_hyphenated_words_are_joined(parts: Seq<Seq<char>>, next: Seq<char>)
    requires
        rejoined(parts).len() > 0,
    ensures
        rejoined(parts).last() == '-' ==> rejoined(parts.push(next)) == rejoined(parts) + next,
        rejoined(parts).last() != '-' ==> rejoined(parts.push(next)) == rejoined(parts) + seq![' ']
            + next,
{
    assert(parts.push(next).drop_last() =~= parts);
    assert(rejoined(parts).push(' ') =~= rejoined(parts) + seq![' ']);
}

/// A report of a build backend is read without its frame, on one line; any other report is
/// read as it is.
pub proof fn law_backends_message_is_read_alone(report: Seq<char>, body: Seq<char>)
    ensures
        reads(r#"(?s)message: "(.*?)",[\s│├╰▶─×]*data:"#@, report, seq![body]) ==> (uv_message(
            report,
        ) matches Some(msg) && flattened(report) == msg && parsed_conflict(report) == uv_conflict(
            msg,
        ) && (msg.len() > 0 ==> !is_space(msg[0]) && !is_space(msg.last()))),
        silent(r#"(?s)message: "(.*?)",[\s│├╰▶─×]*data:"#@, report) ==> uv_message(report) is None,
{
    let pattern = r#"(?s)message: "(.*?)",[\s│├╰▶─×]*data:"#@;
    if reads(pattern, report, seq![body]) {
        lemma_group(pattern, report, seq![body], 0);
        law_trimming_takes_blanks_off(
            regex_replaced_all(
                WHITESPACE@,
                replaced(
                    rejoined(ungutted(group_text(found(pattern, report)->0, 1))),
                    "\\n"@,
                    " "@,
                ),
                " "@,
            ),
        );
    }
}

} // verus!
