//! The command line of a solve.
use crate::solve::error::SolveError;
use crate::text::{
    holds_text, parse_number, parsed_number, pieces, push_view, split, text_eq, trim, trimmed,
};
use vstd::prelude::*;

verus! {

broadcast use vstd::seq_lib::group_seq_properties;

/// What the user asks of a solve.
#[derive(Debug)]
pub struct SolveArgs {
    pub manifest: String,
    pub environments: Vec<String>,
    pub feature: Option<String>,
    pub max_iters: u32,
    pub no_smoke_test: bool,
    pub keep_going: bool,
    pub smoke_modules: Vec<String>,
    pub dry_run: bool,
    pub clean_pins: bool,
    /// Check every environment and change nothing, which is done anyway where
    /// nothing else is asked for.
    pub audit: bool,
    /// Record what the check proposes for the packs. This never edits a manifest.
    pub apply_ledger: bool,
    /// Let the manifest be edited. Nothing edits it without this.
    pub edit_manifest: bool,
    /// Relax the conda pin before the wheel's requirement.
    pub prefer_pypi: bool,
}

/// What a `SolveArgs` says.
#[verifier::ext_equal]
pub struct ArgsView {
    pub manifest: Seq<char>,
    pub environments: Seq<Seq<char>>,
    pub feature: Option<Seq<char>>,
    pub max_iters: u32,
    pub no_smoke_test: bool,
    pub keep_going: bool,
    pub smoke_modules: Seq<Seq<char>>,
    pub dry_run: bool,
    pub clean_pins: bool,
    pub audit: bool,
    pub apply_ledger: bool,
    pub edit_manifest: bool,
    pub prefer_pypi: bool,
}

impl DeepView for SolveArgs {
    type V = ArgsView;

    open spec fn deep_view(&self) -> ArgsView {
        ArgsView {
            manifest: self.manifest@,
            environments: self.environments.deep_view(),
            feature: self.feature.deep_view(),
            max_iters: self.max_iters,
            no_smoke_test: self.no_smoke_test,
            keep_going: self.keep_going,
            smoke_modules: self.smoke_modules.deep_view(),
            dry_run: self.dry_run,
            clean_pins: self.clean_pins,
            audit: self.audit,
            apply_ledger: self.apply_ledger,
            edit_manifest: self.edit_manifest,
            prefer_pypi: self.prefer_pypi,
        }
    }
}

/// What is asked for where the command line says nothing.
pub open spec fn default_args() -> ArgsView {
    ArgsView {
        manifest: "pixi.toml"@,
        environments: Seq::empty(),
        feature: None,
        max_iters: 50,
        no_smoke_test: false,
        keep_going: false,
        smoke_modules: Seq::empty(),
        dry_run: false,
        clean_pins: false,
        audit: false,
        apply_ledger: false,
        edit_manifest: false,
        prefer_pypi: false,
    }
}

impl Default for SolveArgs {
    fn default() -> (r: Self)
        ensures
            r.deep_view() == default_args(),
    {
        let environments: Vec<String> = Vec::new();
        assert(environments.deep_view() =~= Seq::<Seq<char>>::empty());
        let smoke_modules: Vec<String> = Vec::new();
        assert(smoke_modules.deep_view() =~= Seq::<Seq<char>>::empty());
        SolveArgs {
            manifest: "pixi.toml".to_owned(),
            environments,
            feature: None,
            max_iters: 50,
            no_smoke_test: false,
            keep_going: false,
            smoke_modules,
            dry_run: false,
            clean_pins: false,
            audit: false,
            apply_ledger: false,
            edit_manifest: false,
            prefer_pypi: false,
        }
    }
}

// ---------------------------------------------------------------------------
// Reading the flags
// ---------------------------------------------------------------------------

/// What has been read of a command line: what it asks for, whether it has a
/// repair flag other than `--clean-pins`, and its first repair flag.
#[verifier::ext_equal]
pub struct ScanView {
    pub args: ArgsView,
    pub other_repair: bool,
    pub repair_flag: Option<Seq<char>>,
}

/// Whether a flag belongs to the repair of a manifest.
pub open spec fn is_repair_flag(flag: Seq<char>) -> bool {
    flag == "-e"@ || flag == "--environment"@ || flag == "--feature"@ || flag == "--max-iters"@
        || flag == "--no-smoke-test"@ || flag == "--keep-going"@ || flag == "--smoke"@ || flag
        == "--dry-run"@ || flag == "--clean-pins"@ || flag == "--prefer-pypi"@
}

/// What has been read with a flag noted.
pub open spec fn noted(st: ScanView, flag: Seq<char>) -> ScanView {
    if is_repair_flag(flag) {
        ScanView {
            other_repair: st.other_repair || flag != "--clean-pins"@,
            repair_flag: if st.repair_flag is Some {
                st.repair_flag
            } else {
                Some(flag)
            },
            ..st
        }
    } else {
        st
    }
}

/// What is told where a flag's value is missing; `None` for a flag without one.
pub open spec fn missing_value(flag: Seq<char>) -> Option<Seq<char>> {
    if flag == "--manifest"@ {
        Some("--manifest <path> required"@)
    } else if flag == "-e"@ || flag == "--environment"@ {
        Some(flag + " <env> required"@)
    } else if flag == "--feature"@ {
        Some("--feature <name> required"@)
    } else if flag == "--max-iters"@ {
        Some("--max-iters <N> required"@)
    } else if flag == "--smoke"@ {
        Some("--smoke <module>[,<module>...] required"@)
    } else {
        None
    }
}

/// The modules with those of `names` that are new and not blank.
pub open spec fn with_modules(modules: Seq<Seq<char>>, names: Seq<Seq<char>>) -> Seq<Seq<char>>
    decreases names.len(),
{
    if names.len() == 0 {
        modules
    } else {
        let before = with_modules(modules, names.drop_last());
        let name = trimmed(names.last());
        if name.len() == 0 || before.contains(name) {
            before
        } else {
            before.push(name)
        }
    }
}

/// What is asked for with the value of a flag.
pub open spec fn with_value(args: ArgsView, flag: Seq<char>, value: Seq<char>) -> Result<
    ArgsView,
    Seq<char>,
> {
    if flag == "--manifest"@ {
        Ok(ArgsView { manifest: value, ..args })
    } else if flag == "-e"@ || flag == "--environment"@ {
        Ok(ArgsView { environments: args.environments.push(value), ..args })
    } else if flag == "--feature"@ {
        Ok(ArgsView { feature: Some(value), ..args })
    } else if flag == "--max-iters"@ {
        match parsed_number(value, u32::MAX as nat) {
            Some(n) => Ok(ArgsView { max_iters: n as u32, ..args }),
            None => Err("retread solve: bad --max-iters value "@ + value),
        }
    } else {
        Ok(
            ArgsView {
                smoke_modules: with_modules(args.smoke_modules, pieces(value, ',')),
                ..args
            },
        )
    }
}

/// What is asked for with a flag that has no value; `None` where there is no such
/// flag.
pub open spec fn with_flag(args: ArgsView, flag: Seq<char>) -> Option<ArgsView> {
    if flag == "--no-smoke-test"@ {
        Some(ArgsView { no_smoke_test: true, ..args })
    } else if flag == "--keep-going"@ {
        Some(ArgsView { keep_going: true, ..args })
    } else if flag == "--dry-run"@ {
        Some(ArgsView { dry_run: true, ..args })
    } else if flag == "--clean-pins"@ {
        Some(ArgsView { clean_pins: true, ..args })
    } else if flag == "--audit"@ || flag == "--all-environments"@ {
        Some(ArgsView { audit: true, ..args })
    } else if flag == "--apply-ledger"@ {
        Some(ArgsView { apply_ledger: true, ..args })
    } else if flag == "--edit-manifest"@ {
        Some(ArgsView { edit_manifest: true, ..args })
    } else if flag == "--prefer-pypi"@ {
        Some(ArgsView { prefer_pypi: true, ..args })
    } else {
        None
    }
}

/// What a command line says from `at` on.
pub open spec fn scanned(argv: Seq<Seq<char>>, at: int, st: ScanView) -> Result<ScanView, Seq<char>>
    decreases argv.len() - at,
{
    if at < 0 || at >= argv.len() {
        Ok(st)
    } else {
        let flag = argv[at];
        match missing_value(flag) {
            Some(complaint) => if at + 1 >= argv.len() {
                Err(complaint)
            } else {
                match with_value(st.args, flag, argv[at + 1]) {
                    Ok(args) => scanned(argv, at + 2, ScanView { args, ..noted(st, flag) }),
                    Err(e) => Err(e),
                }
            },
            None => match with_flag(st.args, flag) {
                Some(args) => scanned(argv, at + 1, ScanView { args, ..noted(st, flag) }),
                None => Err("retread solve: unknown arg "@ + flag),
            },
        }
    }
}

/// Why what a command line asks for is refused, where it is.
pub open spec fn refusal(st: ScanView) -> Option<Seq<char>> {
    let a = st.args;
    if a.clean_pins && st.other_repair {
        Some(
            "retread solve: --clean-pins is mutually exclusive with every flag except --manifest and its required --edit-manifest opt-in"@,
        )
    } else if a.audit && st.repair_flag is Some {
        Some("retread solve: --audit is mutually exclusive with "@ + st.repair_flag->0)
    } else if a.edit_manifest && a.audit {
        Some("retread solve: --edit-manifest is mutually exclusive with --audit"@)
    } else if a.edit_manifest && a.apply_ledger {
        Some("retread solve: --apply-ledger never authorizes --edit-manifest"@)
    } else if a.audit && a.apply_ledger {
        Some(
            "retread solve: --audit is explicitly read-only and cannot be combined with --apply-ledger; use --apply-ledger by itself"@,
        )
    } else if a.apply_ledger && st.repair_flag is Some {
        Some(
            "retread solve: --apply-ledger is mutually exclusive with legacy repair flag "@
                + st.repair_flag->0,
        )
    } else if a.clean_pins && !a.edit_manifest {
        Some(
            "retread solve: --clean-pins requires the separate discouraged --edit-manifest opt-in"@,
        )
    } else if !a.edit_manifest && st.repair_flag is Some {
        Some(
            "retread solve: legacy repair flag "@ + st.repair_flag->0
                + " requires the separate discouraged --edit-manifest opt-in; omit legacy flags for the default read-only audit"@,
        )
    } else {
        None
    }
}

/// What a command line asks for, or why it is refused.
pub open spec fn parsed_args(argv: Seq<Seq<char>>) -> Result<ArgsView, Seq<char>> {
    match scanned(
        argv,
        0,
        ScanView { args: default_args(), other_repair: false, repair_flag: None },
    ) {
        Err(e) => Err(e),
        Ok(st) => match refusal(st) {
            Some(why) => Err(why),
            None => Ok(st.args),
        },
    }
}

fn add_modules(modules: &mut Vec<String>, raw: &str)
    ensures
        final(modules).deep_view() == with_modules(old(modules).deep_view(), pieces(raw@, ',')),
{
    let names = split(raw, ',');
    let ghost all = names.deep_view();
    let ghost before = modules.deep_view();
    let n: usize = names.len();
    let mut i: usize = 0;
    assert(with_modules(before, all.take(0)) =~= before);
    while i < n
        invariant
            i <= n,
            n == names@.len(),
            all == names.deep_view(),
            modules.deep_view() == with_modules(before, all.take(i as int)),
        decreases n - i,
    {
        assert(all[i as int] == names@[i as int].deep_view());
        assert(all.take(i + 1).drop_last() =~= all.take(i as int));
        let name = trim(&names[i]);
        if !name.as_str().is_empty() && !holds_text(modules, &name) {
            push_view(modules, name);
        }
        i = i + 1;
    }
    assert(all.take(n as int) =~= all);
}

struct Scan {
    args: SolveArgs,
    other_repair: bool,
    repair_flag: Option<String>,
}

impl Scan {
    spec fn view(&self) -> ScanView {
        ScanView {
            args: self.args.deep_view(),
            other_repair: self.other_repair,
            repair_flag: self.repair_flag.deep_view(),
        }
    }

    fn note(&mut self, flag: &str)
        ensures
            final(self).view() == noted(old(self).view(), flag@),
    {
        let clean: bool = text_eq(flag, "--clean-pins");
        if text_eq(flag, "-e") || text_eq(flag, "--environment") || text_eq(flag, "--feature")
            || text_eq(flag, "--max-iters") || text_eq(flag, "--no-smoke-test") || text_eq(
            flag,
            "--keep-going",
        ) || text_eq(flag, "--smoke") || text_eq(flag, "--dry-run") || clean || text_eq(
            flag,
            "--prefer-pypi",
        ) {
            if !clean {
                self.other_repair = true;
            }
            if self.repair_flag.is_none() {
                self.repair_flag = Some(flag.to_owned());
            }
        }
    }

    fn take_value(&mut self, flag: &str, value: &str) -> (r: Result<(), String>)
        requires
            missing_value(flag@) is Some,
        ensures
            match r {
                Ok(()) => with_value(old(self).view().args, flag@, value@) == Ok::<
                    ArgsView,
                    Seq<char>,
                >(final(self).view().args),
                Err(e) => with_value(old(self).view().args, flag@, value@) == Err::<
                    ArgsView,
                    Seq<char>,
                >(e@),
            },
            final(self).other_repair == old(self).other_repair,
            final(self).repair_flag == old(self).repair_flag,
    {
        if text_eq(flag, "--manifest") {
            self.args.manifest = value.to_owned();
        } else if text_eq(flag, "-e") || text_eq(flag, "--environment") {
            push_view(&mut self.args.environments, value.to_owned());
        } else if text_eq(flag, "--feature") {
            self.args.feature = Some(value.to_owned());
        } else if text_eq(flag, "--max-iters") {
            match parse_number(value, u32::MAX as u64) {
                Some(n) => {
                    assert(n <= u32::MAX) by {
                        assert(parsed_number(value@, u32::MAX as nat) == Some(n as nat));
                    }
                    self.args.max_iters = n as u32;
                },
                None => {
                    return Err("retread solve: bad --max-iters value ".to_owned().concat(value));
                },
            }
        } else {
            add_modules(&mut self.args.smoke_modules, value);
        }
        Ok(())
    }

    fn take_flag(&mut self, flag: &str) -> (known: bool)
        ensures
            match with_flag(old(self).view().args, flag@) {
                Some(args) => known && final(self).view().args == args,
                None => !known,
            },
            final(self).other_repair == old(self).other_repair,
            final(self).repair_flag == old(self).repair_flag,
    {
        if text_eq(flag, "--no-smoke-test") {
            self.args.no_smoke_test = true;
        } else if text_eq(flag, "--keep-going") {
            self.args.keep_going = true;
        } else if text_eq(flag, "--dry-run") {
            self.args.dry_run = true;
        } else if text_eq(flag, "--clean-pins") {
            self.args.clean_pins = true;
        } else if text_eq(flag, "--audit") || text_eq(flag, "--all-environments") {
            self.args.audit = true;
        } else if text_eq(flag, "--apply-ledger") {
            self.args.apply_ledger = true;
        } else if text_eq(flag, "--edit-manifest") {
            self.args.edit_manifest = true;
        } else if text_eq(flag, "--prefer-pypi") {
            self.args.prefer_pypi = true;
        } else {
            return false;
        }
        true
    }

    fn refused(&self) -> (r: Option<String>)
        ensures
            r.deep_view() == refusal(self.view()),
    {
        let a = &self.args;
        if a.clean_pins && self.other_repair {
            return Some(
                "retread solve: --clean-pins is mutually exclusive with every flag except --manifest and its required --edit-manifest opt-in".to_owned(),
            );
        }
        if a.audit {
            match &self.repair_flag {
                Some(flag) => {
                    return Some(
                        "retread solve: --audit is mutually exclusive with ".to_owned().concat(
                            flag,
                        ),
                    );
                },
                None => {},
            }
        }
        if a.edit_manifest && a.audit {
            return Some(
                "retread solve: --edit-manifest is mutually exclusive with --audit".to_owned(),
            );
        }
        if a.edit_manifest && a.apply_ledger {
            return Some(
                "retread solve: --apply-ledger never authorizes --edit-manifest".to_owned(),
            );
        }
        if a.audit && a.apply_ledger {
            return Some(
                "retread solve: --audit is explicitly read-only and cannot be combined with --apply-ledger; use --apply-ledger by itself".to_owned(),
            );
        }
        if a.apply_ledger {
            match &self.repair_flag {
                Some(flag) => {
                    return Some(
                        "retread solve: --apply-ledger is mutually exclusive with legacy repair flag ".to_owned().concat(
                        flag),
                    );
                },
                None => {},
            }
        }
        if a.clean_pins && !a.edit_manifest {
            return Some(
                "retread solve: --clean-pins requires the separate discouraged --edit-manifest opt-in".to_owned(),
            );
        }
        if !a.edit_manifest {
            match &self.repair_flag {
                Some(flag) => {
                    let mut s: String = "retread solve: legacy repair flag ".to_owned();
                    s.append(flag);
                    s.append(
                        " requires the separate discouraged --edit-manifest opt-in; omit legacy flags for the default read-only audit",
                    );
                    return Some(s);
                },
                None => {},
            }
        }
        None
    }
}

fn complaint(flag: &str) -> (r: Option<String>)
    ensures
        r.deep_view() == missing_value(flag@),
{
    if text_eq(flag, "--manifest") {
        Some("--manifest <path> required".to_owned())
    } else if text_eq(flag, "-e") || text_eq(flag, "--environment") {
        Some(flag.to_owned().concat(" <env> required"))
    } else if text_eq(flag, "--feature") {
        Some("--feature <name> required".to_owned())
    } else if text_eq(flag, "--max-iters") {
        Some("--max-iters <N> required".to_owned())
    } else if text_eq(flag, "--smoke") {
        Some("--smoke <module>[,<module>...] required".to_owned())
    } else {
        None
    }
}

/// Reads a command line.
pub fn parse(argv: &Vec<String>) -> (r: Result<SolveArgs, SolveError>)
    ensures
        match parsed_args(argv.deep_view()) {
            Ok(args) => r matches Ok(a) && a.deep_view() == args,
            Err(text) => r matches Err(SolveError::Usage(e)) && e@ == text,
        },
{
    let ghost all = argv.deep_view();
    let mut scan = Scan { args: SolveArgs::default(), other_repair: false, repair_flag: None };
    let n: usize = argv.len();
    let mut i: usize = 0;
    let ghost start = ScanView { args: default_args(), other_repair: false, repair_flag: None };
    while i < n
        invariant
            i <= n,
            n == argv@.len(),
            all == argv.deep_view(),
            start == (ScanView { args: default_args(), other_repair: false, repair_flag: None }),
            scanned(all, 0, start) == scanned(all, i as int, scan.view()),
        decreases n - i,
    {
        assert(all[i as int] == argv@[i as int].deep_view());
        let flag = &argv[i];
        let ghost before = scan.view();
        scan.note(flag);
        match complaint(flag) {
            Some(text) => {
                if i + 1 >= n {
                    return Err(SolveError::Usage(text));
                }
                assert(all[i + 1] == argv@[i + 1].deep_view());
                match scan.take_value(flag, &argv[i + 1]) {
                    Ok(()) => {},
                    Err(e) => {
                        return Err(SolveError::Usage(e));
                    },
                }
                assert(scan.view() == (ScanView {
                    args: scan.view().args,
                    ..noted(before, flag@)
                }));
                i = i + 2;
            },
            None => {
                if !scan.take_flag(flag) {
                    return Err(
                        SolveError::Usage("retread solve: unknown arg ".to_owned().concat(flag)),
                    );
                }
                assert(scan.view() == (ScanView {
                    args: scan.view().args,
                    ..noted(before, flag@)
                }));
                i = i + 1;
            },
        }
    }
    match scan.refused() {
        Some(why) => Err(SolveError::Usage(why)),
        None => Ok(scan.args),
    }
}

// ---------------------------------------------------------------------------
// Laws
// ---------------------------------------------------------------------------

/// Whether the part of a command line that repairs manifests was left alone.
pub open spec fn asks_no_repair(a: ArgsView) -> bool {
    let d = default_args();
    a.environments == d.environments && a.feature == d.feature && a.max_iters == d.max_iters
        && !a.no_smoke_test && !a.keep_going && a.smoke_modules == d.smoke_modules && !a.dry_run
        && !a.clean_pins && !a.prefer_pypi
}

spec fn scan_ok(st: ScanView) -> bool {
    &&& st.repair_flag is None ==> asks_no_repair(st.args)
    &&& !st.other_repair ==> asks_no_repair(ArgsView { clean_pins: false, ..st.args })
}

proof fn lemma_scanned(argv: Seq<Seq<char>>, at: int, st: ScanView)
    requires
        scan_ok(st),
    ensures
        scanned(argv, at, st) matches Ok(after) ==> scan_ok(after),
    decreases argv.len() - at,
{
    if 0 <= at < argv.len() {
        let flag = argv[at];
        match missing_value(flag) {
            Some(_) => {
                if at + 1 < argv.len() {
                    match with_value(st.args, flag, argv[at + 1]) {
                        Ok(args) => {
                            lemma_flags_differ();
                            lemma_scanned(argv, at + 2, ScanView { args, ..noted(st, flag) });
                        },
                        Err(_) => {},
                    }
                }
            },
            None => {
                match with_flag(st.args, flag) {
                    Some(args) => {
                        lemma_flags_differ();
                        lemma_scanned(argv, at + 1, ScanView { args, ..noted(st, flag) });
                    },
                    None => {},
                }
            },
        }
    }
}

proof fn lemma_flags_differ()
    ensures
        "--clean-pins"@ != "-e"@,
        "--clean-pins"@ != "--environment"@,
        "--clean-pins"@ != "--feature"@,
        "--clean-pins"@ != "--max-iters"@,
        "--clean-pins"@ != "--smoke"@,
        "--clean-pins"@ != "--no-smoke-test"@,
        "--clean-pins"@ != "--keep-going"@,
        "--clean-pins"@ != "--dry-run"@,
        "--clean-pins"@ != "--prefer-pypi"@,
{
    reveal_strlit("--clean-pins");
    reveal_strlit("-e");
    reveal_strlit("--environment");
    reveal_strlit("--feature");
    reveal_strlit("--max-iters");
    reveal_strlit("--smoke");
    reveal_strlit("--no-smoke-test");
    reveal_strlit("--keep-going");
    reveal_strlit("--dry-run");
    reveal_strlit("--prefer-pypi");
    assert("-e"@.len() == 2);
    assert("--clean-pins"@.len() == 12);
    assert("--clean-pins"@[2] == 'c');
    assert("--environment"@[2] == 'e');
    assert("--feature"@[2] == 'f');
    assert("--max-iters"@[2] == 'm');
    assert("--smoke"@[2] == 's');
    assert("--no-smoke-test"@[2] == 'n');
    assert("--keep-going"@[2] == 'k');
    assert("--dry-run"@[2] == 'd');
    assert("--prefer-pypi"@[2] == 'p');
}

/// Nothing that repairs a manifest is ever asked for without the flag that lets
/// it be edited.
pub proof fn law_repair_needs_opt_in(argv: Seq<Seq<char>>)
    ensures
        parsed_args(argv) matches Ok(a) ==> (!a.edit_manifest ==> asks_no_repair(a)),
{
    lemma_scanned(
        argv,
        0,
        ScanView { args: default_args(), other_repair: false, repair_flag: None },
    );
}

/// The check that changes nothing, the record of its proposals and the edit of
/// the manifest exclude each other.
pub proof fn law_modes_exclude_each_other(argv: Seq<Seq<char>>)
    ensures
        parsed_args(argv) matches Ok(a) ==> !(a.audit && a.apply_ledger) && !(a.audit
            && a.edit_manifest) && !(a.apply_ledger && a.edit_manifest),
{
}

/// Pins are cleaned only where the manifest may be edited, and nothing else is
/// asked for with it.
pub proof fn law_cleaning_stands_alone(argv: Seq<Seq<char>>)
    ensures
        parsed_args(argv) matches Ok(a) ==> (a.clean_pins ==> a.edit_manifest && asks_no_repair(
            ArgsView { clean_pins: false, ..a },
        )),
{
    lemma_scanned(
        argv,
        0,
        ScanView { args: default_args(), other_repair: false, repair_flag: None },
    );
}

// ---------------------------------------------------------------------------
// The order of the flags
// ---------------------------------------------------------------------------

/// What has been read before anything was.
spec fn nothing_read() -> ScanView {
    ScanView { args: default_args(), other_repair: false, repair_flag: None }
}

/// Whether texts are a flag with its value, or a flag or anything else that takes none.
pub open spec fn is_group(g: Seq<Seq<char>>) -> bool {
    ||| g.len() == 2 && missing_value(g[0]) is Some
    ||| g.len() == 1 && missing_value(g[0]) is None
}

/// The command line of groups.
pub open spec fn command_line(groups: Seq<Seq<Seq<char>>>) -> Seq<Seq<char>>
    decreases groups.len(),
{
    if groups.len() == 0 {
        Seq::empty()
    } else {
        groups[0] + command_line(groups.drop_first())
    }
}

/// What has been read with one more group.
spec fn with_group(st: ScanView, g: Seq<Seq<char>>) -> Result<ScanView, Seq<char>> {
    if g.len() == 2 {
        match with_value(st.args, g[0], g[1]) {
            Ok(args) => Ok(ScanView { args, ..noted(st, g[0]) }),
            Err(e) => Err(e),
        }
    } else {
        match with_flag(st.args, g[0]) {
            Some(args) => Ok(ScanView { args, ..noted(st, g[0]) }),
            None => Err("retread solve: unknown arg "@ + g[0]),
        }
    }
}

/// What has been read with more groups.
spec fn with_groups(st: ScanView, groups: Seq<Seq<Seq<char>>>) -> Result<
    ScanView,
    Seq<char>,
>
    decreases groups.len(),
{
    if groups.len() == 0 {
        Ok(st)
    } else {
        match with_group(st, groups[0]) {
            Ok(next) => with_groups(next, groups.drop_first()),
            Err(e) => Err(e),
        }
    }
}

proof fn lemma_scan_from(argv: Seq<Seq<char>>, at: int, st: ScanView)
    requires
        0 <= at <= argv.len(),
    ensures
        scanned(argv, at, st) == scanned(argv.skip(at), 0, st),
    decreases argv.len() - at,
{
    let rest = argv.skip(at);
    if at < argv.len() {
        assert(rest[0] == argv[at]);
        match missing_value(argv[at]) {
            Some(_) => {
                if at + 1 < argv.len() {
                    assert(rest[1] == argv[at + 1]);
                    match with_value(st.args, argv[at], argv[at + 1]) {
                        Ok(args) => {
                            let next = ScanView { args, ..noted(st, argv[at]) };
                            lemma_scan_from(argv, at + 2, next);
                            lemma_scan_from(rest, 2, next);
                            assert(rest.skip(2) =~= argv.skip(at + 2));
                        },
                        Err(_) => {},
                    }
                }
            },
            None => match with_flag(st.args, argv[at]) {
                Some(args) => {
                    let next = ScanView { args, ..noted(st, argv[at]) };
                    lemma_scan_from(argv, at + 1, next);
                    if at > 0 {
                        lemma_scan_from(rest, 1, next);
                    }
                    assert(rest.skip(1) =~= argv.skip(at + 1));
                },
                None => {},
            },
        }
    }
}

proof fn lemma_scan_groups(groups: Seq<Seq<Seq<char>>>, st: ScanView)
    requires
        forall|i: int| 0 <= i < groups.len() ==> is_group(#[trigger] groups[i]),
    ensures
        scanned(command_line(groups), 0, st) == with_groups(st, groups),
    decreases groups.len(),
{
    if groups.len() > 0 {
        let g = groups[0];
        let rest = groups.drop_first();
        let line = command_line(groups);
        let tail = command_line(rest);
        assert(is_group(g));
        assert(line[0] == g[0]);
        assert(line.skip(g.len() as int) =~= tail);
        if g.len() == 2 {
            assert(line[1] == g[1]);
        }
        match with_group(st, g) {
            Ok(next) => {
                lemma_scan_groups(rest, next);
                lemma_scan_from(line, g.len() as int, next);
            },
            Err(_) => {},
        }
    }
}

/// What a command line can be found to say in any order.
enum Mark {
    EditManifest,
    Audit,
    ApplyLedger,
    CleanPins,
    DryRun,
    KeepGoing,
    NoSmokeTest,
    PreferPypi,
    Repair,
    OtherRepair,
}

/// Whether it has been said.
spec fn said(st: ScanView, m: Mark) -> bool {
    match m {
        Mark::EditManifest => st.args.edit_manifest,
        Mark::Audit => st.args.audit,
        Mark::ApplyLedger => st.args.apply_ledger,
        Mark::CleanPins => st.args.clean_pins,
        Mark::DryRun => st.args.dry_run,
        Mark::KeepGoing => st.args.keep_going,
        Mark::NoSmokeTest => st.args.no_smoke_test,
        Mark::PreferPypi => st.args.prefer_pypi,
        Mark::Repair => st.repair_flag is Some,
        Mark::OtherRepair => st.other_repair,
    }
}

/// Whether a group can be read, whatever has been read before.
spec fn readable(g: Seq<Seq<char>>) -> bool {
    with_group(nothing_read(), g) is Ok
}

/// Whether a group says it by itself.
spec fn says(g: Seq<Seq<char>>, m: Mark) -> bool {
    match with_group(nothing_read(), g) {
        Ok(st) => said(st, m),
        Err(_) => false,
    }
}

/// Whether one of the groups says it.
spec fn one_says(groups: Seq<Seq<Seq<char>>>, m: Mark) -> bool {
    exists|g: Seq<Seq<char>>| groups.contains(g) && #[trigger] says(g, m)
}

/// Whether every group can be read.
spec fn all_readable(groups: Seq<Seq<Seq<char>>>) -> bool {
    forall|g: Seq<Seq<char>>| groups.contains(g) ==> #[trigger] readable(g)
}

proof fn lemma_value_group(st: ScanView, g: Seq<Seq<char>>, m: Mark)
    requires
        is_group(g),
        g.len() == 2,
    ensures
        with_group(st, g) is Ok <==> readable(g),
        with_group(st, g) matches Ok(after) ==> said(after, m) == (said(st, m) || says(g, m)),
{
    assert(with_value(st.args, g[0], g[1]) is Ok <==> with_value(default_args(), g[0], g[1]) is Ok);
}

proof fn lemma_flag_group(st: ScanView, g: Seq<Seq<char>>, m: Mark)
    requires
        is_group(g),
        g.len() == 1,
    ensures
        with_group(st, g) is Ok <==> readable(g),
        with_group(st, g) matches Ok(after) ==> said(after, m) == (said(st, m) || says(g, m)),
{
    assert(with_flag(st.args, g[0]) is Some <==> with_flag(default_args(), g[0]) is Some);
}

proof fn lemma_groups(st: ScanView, groups: Seq<Seq<Seq<char>>>, m: Mark)
    requires
        forall|i: int| 0 <= i < groups.len() ==> is_group(#[trigger] groups[i]),
    ensures
        with_groups(st, groups) is Ok <==> all_readable(groups),
        with_groups(st, groups) matches Ok(after) ==> said(after, m) == (said(st, m) || one_says(
            groups,
            m,
        )),
    decreases groups.len(),
{
    if groups.len() > 0 {
        let g = groups[0];
        let rest = groups.drop_first();
        assert(is_group(g));
        if g.len() == 2 {
            lemma_value_group(st, g, m);
        } else {
            lemma_flag_group(st, g, m);
        }
        assert(groups.contains(g));
        assert forall|h: Seq<Seq<char>>| #[trigger] groups.contains(h) <==> h == g || rest.contains(
            h,
        ) by {
            if groups.contains(h) && h != g {
                let k = choose|k: int| 0 <= k < groups.len() && groups[k] == h;
                assert(rest[k - 1] == h);
            }
            if rest.contains(h) {
                let k = choose|k: int| 0 <= k < rest.len() && rest[k] == h;
                assert(groups[k + 1] == h);
            }
        }
        match with_group(st, g) {
            Ok(next) => {
                lemma_groups(next, rest, m);
                if all_readable(groups) {
                    assert forall|h: Seq<Seq<char>>| rest.contains(h) implies #[trigger] readable(
                        h,
                    ) by {
                        assert(groups.contains(h));
                    }
                }
                if one_says(rest, m) {
                    let h = choose|h: Seq<Seq<char>>| rest.contains(h) && #[trigger] says(h, m);
                    assert(groups.contains(h));
                }
            },
            Err(_) => {
                assert(!readable(g));
            },
        }
    }
}

/// Whether two lists are of the same groups, in whatever order.
pub open spec fn same_groups(a: Seq<Seq<Seq<char>>>, b: Seq<Seq<Seq<char>>>) -> bool {
    forall|g: Seq<Seq<char>>|
        #![trigger a.contains(g)]
        #![trigger b.contains(g)]
        a.contains(g) <==> b.contains(g)
}

/// Whether a command line asks for what can be asked for without a value as another
/// does.
pub open spec fn same_switches(a: ArgsView, b: ArgsView) -> bool {
    &&& a.edit_manifest == b.edit_manifest
    &&& a.audit == b.audit
    &&& a.apply_ledger == b.apply_ledger
    &&& a.clean_pins == b.clean_pins
    &&& a.dry_run == b.dry_run
    &&& a.keep_going == b.keep_going
    &&& a.no_smoke_test == b.no_smoke_test
    &&& a.prefer_pypi == b.prefer_pypi
}

proof fn lemma_marks_decide(a: ScanView, b: ScanView)
    requires
        forall|m: Mark| #[trigger] said(a, m) == said(b, m),
    ensures
        same_switches(a.args, b.args),
        refusal(a) is Some <==> refusal(b) is Some,
{
    assert(said(a, Mark::EditManifest) == said(b, Mark::EditManifest));
    assert(said(a, Mark::Audit) == said(b, Mark::Audit));
    assert(said(a, Mark::ApplyLedger) == said(b, Mark::ApplyLedger));
    assert(said(a, Mark::CleanPins) == said(b, Mark::CleanPins));
    assert(said(a, Mark::DryRun) == said(b, Mark::DryRun));
    assert(said(a, Mark::KeepGoing) == said(b, Mark::KeepGoing));
    assert(said(a, Mark::NoSmokeTest) == said(b, Mark::NoSmokeTest));
    assert(said(a, Mark::PreferPypi) == said(b, Mark::PreferPypi));
    assert(said(a, Mark::Repair) == said(b, Mark::Repair));
    assert(said(a, Mark::OtherRepair) == said(b, Mark::OtherRepair));
}

/// In which order the flags of a command line stand, each with its value, does not
/// change whether it is accepted, nor what it asks for with flags that take no value.
pub proof fn law_order_does_not_change_switches(
    a: Seq<Seq<Seq<char>>>,
    b: Seq<Seq<Seq<char>>>,
)
    requires
        forall|i: int| 0 <= i < a.len() ==> is_group(#[trigger] a[i]),
        forall|i: int| 0 <= i < b.len() ==> is_group(#[trigger] b[i]),
        same_groups(a, b),
    ensures
        ({
            let x = parsed_args(command_line(a));
            let y = parsed_args(command_line(b));
            &&& x is Ok <==> y is Ok
            &&& x is Ok ==> same_switches(x->Ok_0, y->Ok_0)
        }),
{
    lemma_scan_groups(a, nothing_read());
    lemma_scan_groups(b, nothing_read());
    lemma_groups(nothing_read(), a, Mark::Audit);
    lemma_groups(nothing_read(), b, Mark::Audit);
    if all_readable(a) {
        assert forall|g: Seq<Seq<char>>| b.contains(g) implies #[trigger] readable(g) by {
            assert(a.contains(g));
        }
        let x = with_groups(nothing_read(), a)->Ok_0;
        let y = with_groups(nothing_read(), b)->Ok_0;
        assert forall|m: Mark| #[trigger] said(x, m) == said(y, m) by {
            lemma_groups(nothing_read(), a, m);
            lemma_groups(nothing_read(), b, m);
            if one_says(a, m) {
                let g = choose|g: Seq<Seq<char>>| a.contains(g) && #[trigger] says(g, m);
                assert(b.contains(g));
            }
            if one_says(b, m) {
                let g = choose|g: Seq<Seq<char>>| b.contains(g) && #[trigger] says(g, m);
                assert(a.contains(g));
            }
        }
        lemma_marks_decide(x, y);
    } else if all_readable(b) {
        assert forall|g: Seq<Seq<char>>| a.contains(g) implies #[trigger] readable(g) by {
            assert(b.contains(g));
        }
    }
}

/// What a flag sets: two flags name environments.
pub open spec fn setting(flag: Seq<char>) -> Seq<char> {
    if flag == "-e"@ {
        "--environment"@
    } else {
        flag
    }
}

/// Whether no two of the groups set the same.
pub open spec fn sets_each_once(groups: Seq<Seq<Seq<char>>>) -> bool {
    forall|i: int, j: int|
        0 <= i < j < groups.len() ==> setting((#[trigger] groups[i])[0]) != setting(
            (#[trigger] groups[j])[0],
        )
}

/// The value that the groups give for what is set, where they do.
spec fn value_for(groups: Seq<Seq<Seq<char>>>, what: Seq<char>) -> Option<Seq<char>>
    decreases groups.len(),
{
    if groups.len() == 0 {
        None
    } else if setting(groups[0][0]) == what {
        Some(groups[0][1])
    } else {
        value_for(groups.drop_first(), what)
    }
}

/// What is asked for with the values that the groups give.
spec fn with_values(args: ArgsView, groups: Seq<Seq<Seq<char>>>) -> ArgsView {
    ArgsView {
        manifest: match value_for(groups, "--manifest"@) {
            Some(v) => v,
            None => args.manifest,
        },
        environments: match value_for(groups, "--environment"@) {
            Some(v) => args.environments.push(v),
            None => args.environments,
        },
        feature: match value_for(groups, "--feature"@) {
            Some(v) => Some(v),
            None => args.feature,
        },
        max_iters: match value_for(groups, "--max-iters"@) {
            Some(v) => parsed_number(v, u32::MAX as nat)->0 as u32,
            None => args.max_iters,
        },
        smoke_modules: match value_for(groups, "--smoke"@) {
            Some(v) => with_modules(args.smoke_modules, pieces(v, ',')),
            None => args.smoke_modules,
        },
        ..args
    }
}

proof fn lemma_settings_differ()
    ensures
        "--manifest"@.len() == 10,
        "--environment"@.len() == 13,
        "--feature"@.len() == 9,
        "--max-iters"@.len() == 11,
        "--smoke"@.len() == 7,
        "-e"@.len() == 2,
{
    reveal_strlit("--manifest");
    reveal_strlit("--environment");
    reveal_strlit("--feature");
    reveal_strlit("--max-iters");
    reveal_strlit("--smoke");
    reveal_strlit("-e");
}

proof fn lemma_value_for(groups: Seq<Seq<Seq<char>>>, what: Seq<char>)
    ensures
        match value_for(groups, what) {
            Some(v) => exists|g: Seq<Seq<char>>| #[trigger]
                groups.contains(g) && setting(g[0]) == what && g[1] == v,
            None => forall|i: int|
                0 <= i < groups.len() ==> setting((#[trigger] groups[i])[0]) != what,
        },
    decreases groups.len(),
{
    if groups.len() > 0 {
        let rest = groups.drop_first();
        if setting(groups[0][0]) == what {
            assert(groups.contains(groups[0]));
        } else {
            lemma_value_for(rest, what);
            match value_for(rest, what) {
                Some(v) => {
                    let g = choose|g: Seq<Seq<char>>| #[trigger]
                        rest.contains(g) && setting(g[0]) == what && g[1] == v;
                    let k = choose|k: int| 0 <= k < rest.len() && rest[k] == g;
                    assert(groups[k + 1] == g);
                    assert(groups.contains(g));
                },
                None => {
                    assert forall|i: int| 0 <= i < groups.len() implies setting(
                        (#[trigger] groups[i])[0],
                    ) != what by {
                        if i > 0 {
                            assert(groups[i] == rest[i - 1]);
                        }
                    }
                },
            }
        }
    }
}

proof fn lemma_same_value(
    a: Seq<Seq<Seq<char>>>,
    b: Seq<Seq<Seq<char>>>,
    what: Seq<char>,
)
    requires
        same_groups(a, b),
        sets_each_once(b),
    ensures
        value_for(a, what) == value_for(b, what),
{
    lemma_value_for(a, what);
    lemma_value_for(b, what);
    match value_for(a, what) {
        Some(v) => {
            let g = choose|g: Seq<Seq<char>>| #[trigger]
                a.contains(g) && setting(g[0]) == what && g[1] == v;
            assert(b.contains(g));
            let i = choose|i: int| 0 <= i < b.len() && b[i] == g;
            assert(setting(b[i][0]) == what);
            let h = choose|h: Seq<Seq<char>>| #[trigger]
                b.contains(h) && setting(h[0]) == what && h[1] == value_for(b, what)->0;
            let j = choose|j: int| 0 <= j < b.len() && b[j] == h;
            assert(setting(b[j][0]) == what);
            assert(i == j);
        },
        None => {
            if value_for(b, what) is Some {
                let h = choose|h: Seq<Seq<char>>| #[trigger]
                    b.contains(h) && setting(h[0]) == what && h[1] == value_for(b, what)->0;
                assert(a.contains(h));
                let j = choose|j: int| 0 <= j < a.len() && a[j] == h;
                assert(setting(a[j][0]) == what);
            }
        },
    }
}

proof fn lemma_values(st: ScanView, groups: Seq<Seq<Seq<char>>>)
    requires
        forall|i: int| 0 <= i < groups.len() ==> is_group(#[trigger] groups[i]),
        sets_each_once(groups),
    ensures
        with_groups(st, groups) matches Ok(after) ==> ({
            let want = with_values(st.args, groups);
            &&& after.args.manifest == want.manifest
            &&& after.args.environments == want.environments
            &&& after.args.feature == want.feature
            &&& after.args.max_iters == want.max_iters
            &&& after.args.smoke_modules == want.smoke_modules
        }),
    decreases groups.len(),
{
    if groups.len() > 0 {
        let g = groups[0];
        let rest = groups.drop_first();
        assert(is_group(g));
        lemma_settings_differ();
        assert forall|i: int, j: int| 0 <= i < j < rest.len() implies setting(
            (#[trigger] rest[i])[0],
        ) != setting((#[trigger] rest[j])[0]) by {
            assert(rest[i] == groups[i + 1] && rest[j] == groups[j + 1]);
        }
        match with_group(st, g) {
            Ok(next) => {
                lemma_values(next, rest);
                lemma_value_for(rest, setting(g[0]));
                if value_for(rest, setting(g[0])) is Some {
                    let h = choose|h: Seq<Seq<char>>| #[trigger]
                        rest.contains(h) && setting(h[0]) == setting(g[0]) && h[1] == value_for(
                            rest,
                            setting(g[0]),
                        )->0;
                    let k = choose|k: int| 0 <= k < rest.len() && rest[k] == h;
                    assert(groups[k + 1] == h && groups[0] == g);
                }
            },
            Err(_) => {},
        }
    }
}

/// Where no flag is repeated, the order in which the flags of a command line stand,
/// each with its value, changes nothing of what it asks for.
pub proof fn law_order_of_flags_does_not_matter(
    a: Seq<Seq<Seq<char>>>,
    b: Seq<Seq<Seq<char>>>,
)
    requires
        forall|i: int| 0 <= i < a.len() ==> is_group(#[trigger] a[i]),
        forall|i: int| 0 <= i < b.len() ==> is_group(#[trigger] b[i]),
        same_groups(a, b),
        sets_each_once(a),
        sets_each_once(b),
    ensures
        ({
            let x = parsed_args(command_line(a));
            let y = parsed_args(command_line(b));
            &&& x is Ok <==> y is Ok
            &&& x is Ok ==> x == y
        }),
{
    law_order_does_not_change_switches(a, b);
    lemma_scan_groups(a, nothing_read());
    lemma_scan_groups(b, nothing_read());
    lemma_values(nothing_read(), a);
    lemma_values(nothing_read(), b);
    lemma_same_value(a, b, "--manifest"@);
    lemma_same_value(a, b, "--environment"@);
    lemma_same_value(a, b, "--feature"@);
    lemma_same_value(a, b, "--max-iters"@);
    lemma_same_value(a, b, "--smoke"@);
    if parsed_args(command_line(a)) is Ok {
        let x = parsed_args(command_line(a))->Ok_0;
        let y = parsed_args(command_line(b))->Ok_0;
        assert(x =~= y);
    }
}

// ---------------------------------------------------------------------------
// What each flag does
// ---------------------------------------------------------------------------

proof fn lemma_flag_texts()
    ensures
        "--manifest"@.len() == 10 && "--manifest"@[2] == 'm',
        "--environment"@.len() == 13 && "--environment"@[2] == 'e',
        "-e"@.len() == 2,
        "--feature"@.len() == 9 && "--feature"@[2] == 'f',
        "--max-iters"@.len() == 11 && "--max-iters"@[2] == 'm',
        "--smoke"@.len() == 7 && "--smoke"@[2] == 's',
        "--no-smoke-test"@.len() == 15 && "--no-smoke-test"@[2] == 'n',
        "--keep-going"@.len() == 12 && "--keep-going"@[2] == 'k',
        "--dry-run"@.len() == 9 && "--dry-run"@[2] == 'd',
        "--clean-pins"@.len() == 12 && "--clean-pins"@[2] == 'c',
        "--audit"@.len() == 7 && "--audit"@[2] == 'a',
        "--all-environments"@.len() == 18 && "--all-environments"@[2] == 'a',
        "--apply-ledger"@.len() == 14 && "--apply-ledger"@[2] == 'a',
        "--edit-manifest"@.len() == 15 && "--edit-manifest"@[2] == 'e',
        "--prefer-pypi"@.len() == 13 && "--prefer-pypi"@[2] == 'p',
{
    reveal_strlit("--manifest");
    reveal_strlit("--environment");
    reveal_strlit("-e");
    reveal_strlit("--feature");
    reveal_strlit("--max-iters");
    reveal_strlit("--smoke");
    reveal_strlit("--no-smoke-test");
    reveal_strlit("--keep-going");
    reveal_strlit("--dry-run");
    reveal_strlit("--clean-pins");
    reveal_strlit("--audit");
    reveal_strlit("--all-environments");
    reveal_strlit("--apply-ledger");
    reveal_strlit("--edit-manifest");
    reveal_strlit("--prefer-pypi");
}

/// A command line that says nothing asks for a check that changes nothing, of every
/// environment of the manifest at hand.
pub proof fn law_nothing_said_asks_for_a_check(argv: Seq<Seq<char>>)
    requires
        argv.len() == 0,
    ensures
        parsed_args(argv) matches Ok(a) && a.manifest == "pixi.toml"@ && a.environments.len() == 0
            && a.feature is None && a.max_iters == 50 && a.smoke_modules.len() == 0
            && !a.no_smoke_test && !a.keep_going && !a.dry_run && !a.clean_pins && !a.audit
            && !a.apply_ledger && !a.edit_manifest && !a.prefer_pypi,
{
}

proof fn lemma_switch(g: Seq<Seq<char>>, flag: Seq<char>, m: Mark)
    requires
        is_group(g),
        (m == Mark::EditManifest && flag == "--edit-manifest"@) || (m == Mark::ApplyLedger && flag
            == "--apply-ledger"@) || (m == Mark::CleanPins && flag == "--clean-pins"@) || (m
            == Mark::DryRun && flag == "--dry-run"@) || (m == Mark::KeepGoing && flag
            == "--keep-going"@) || (m == Mark::NoSmokeTest && flag == "--no-smoke-test"@) || (m
            == Mark::PreferPypi && flag == "--prefer-pypi"@),
    ensures
        says(g, m) <==> g == seq![flag],
{
    lemma_flag_texts();
    if g.len() == 1 {
        assert(g =~= seq![g[0]]);
    }
}

proof fn lemma_audit_switch(g: Seq<Seq<char>>)
    requires
        is_group(g),
    ensures
        says(g, Mark::Audit) <==> g == seq!["--audit"@] || g == seq!["--all-environments"@],
{
    lemma_flag_texts();
    if g.len() == 1 {
        assert(g =~= seq![g[0]]);
    }
}

proof fn lemma_switch_said(groups: Seq<Seq<Seq<char>>>, flag: Seq<char>, m: Mark)
    requires
        forall|i: int| 0 <= i < groups.len() ==> is_group(#[trigger] groups[i]),
        (m == Mark::EditManifest && flag == "--edit-manifest"@) || (m == Mark::ApplyLedger && flag
            == "--apply-ledger"@) || (m == Mark::CleanPins && flag == "--clean-pins"@) || (m
            == Mark::DryRun && flag == "--dry-run"@) || (m == Mark::KeepGoing && flag
            == "--keep-going"@) || (m == Mark::NoSmokeTest && flag == "--no-smoke-test"@) || (m
            == Mark::PreferPypi && flag == "--prefer-pypi"@),
    ensures
        one_says(groups, m) <==> groups.contains(seq![flag]),
{
    if one_says(groups, m) {
        let g = choose|g: Seq<Seq<char>>| groups.contains(g) && #[trigger] says(g, m);
        let i = choose|i: int| 0 <= i < groups.len() && groups[i] == g;
        assert(is_group(groups[i]));
        lemma_switch(g, flag, m);
    }
    if groups.contains(seq![flag]) {
        let i = choose|i: int| 0 <= i < groups.len() && groups[i] == seq![flag];
        assert(is_group(groups[i]));
        lemma_switch(seq![flag], flag, m);
    }
}

/// What takes no value is asked for where its flag stands on the command line, and only
/// there; two flags ask for the check.
pub proof fn law_switches_are_what_was_said(groups: Seq<Seq<Seq<char>>>)
    requires
        forall|i: int| 0 <= i < groups.len() ==> is_group(#[trigger] groups[i]),
    ensures
        parsed_args(command_line(groups)) matches Ok(a) ==> {
            &&& a.dry_run <==> groups.contains(seq!["--dry-run"@])
            &&& a.keep_going <==> groups.contains(seq!["--keep-going"@])
            &&& a.no_smoke_test <==> groups.contains(seq!["--no-smoke-test"@])
            &&& a.clean_pins <==> groups.contains(seq!["--clean-pins"@])
            &&& a.apply_ledger <==> groups.contains(seq!["--apply-ledger"@])
            &&& a.edit_manifest <==> groups.contains(seq!["--edit-manifest"@])
            &&& a.prefer_pypi <==> groups.contains(seq!["--prefer-pypi"@])
            &&& a.audit <==> groups.contains(seq!["--audit"@]) || groups.contains(
                seq!["--all-environments"@],
            )
        },
{
    let st = nothing_read();
    lemma_scan_groups(groups, st);
    if let Ok(a) = parsed_args(command_line(groups)) {
        let after = with_groups(st, groups)->Ok_0;
        assert(a == after.args);
        lemma_groups(st, groups, Mark::DryRun);
        lemma_groups(st, groups, Mark::KeepGoing);
        lemma_groups(st, groups, Mark::NoSmokeTest);
        lemma_groups(st, groups, Mark::CleanPins);
        lemma_groups(st, groups, Mark::ApplyLedger);
        lemma_groups(st, groups, Mark::EditManifest);
        lemma_groups(st, groups, Mark::PreferPypi);
        lemma_groups(st, groups, Mark::Audit);
        assert(said(after, Mark::DryRun) == one_says(groups, Mark::DryRun));
        assert(said(after, Mark::KeepGoing) == one_says(groups, Mark::KeepGoing));
        assert(said(after, Mark::NoSmokeTest) == one_says(groups, Mark::NoSmokeTest));
        assert(said(after, Mark::CleanPins) == one_says(groups, Mark::CleanPins));
        assert(said(after, Mark::ApplyLedger) == one_says(groups, Mark::ApplyLedger));
        assert(said(after, Mark::EditManifest) == one_says(groups, Mark::EditManifest));
        assert(said(after, Mark::PreferPypi) == one_says(groups, Mark::PreferPypi));
        assert(said(after, Mark::Audit) == one_says(groups, Mark::Audit));
        lemma_switch_said(groups, "--dry-run"@, Mark::DryRun);
        lemma_switch_said(groups, "--keep-going"@, Mark::KeepGoing);
        lemma_switch_said(groups, "--no-smoke-test"@, Mark::NoSmokeTest);
        lemma_switch_said(groups, "--clean-pins"@, Mark::CleanPins);
        lemma_switch_said(groups, "--apply-ledger"@, Mark::ApplyLedger);
        lemma_switch_said(groups, "--edit-manifest"@, Mark::EditManifest);
        lemma_switch_said(groups, "--prefer-pypi"@, Mark::PreferPypi);
        if one_says(groups, Mark::Audit) {
            let g = choose|g: Seq<Seq<char>>|
                groups.contains(g) && #[trigger] says(g, Mark::Audit);
            let i = choose|i: int| 0 <= i < groups.len() && groups[i] == g;
            assert(is_group(groups[i]));
            lemma_audit_switch(g);
        }
        assert forall|g: Seq<Seq<char>>|
            groups.contains(g) && (g == seq!["--audit"@] || g == seq![
                "--all-environments"@,
            ]) implies #[trigger] says(g, Mark::Audit) by {
            let i = choose|i: int| 0 <= i < groups.len() && groups[i] == g;
            assert(is_group(groups[i]));
            lemma_audit_switch(g);
        }
        if groups.contains(seq!["--audit"@]) {
            assert(says(seq!["--audit"@], Mark::Audit));
        }
        if groups.contains(seq!["--all-environments"@]) {
            assert(says(seq!["--all-environments"@], Mark::Audit));
        }
    }
}

proof fn lemma_last_group(st: ScanView, groups: Seq<Seq<Seq<char>>>, g: Seq<Seq<char>>)
    ensures
        with_groups(st, groups.push(g)) == match with_groups(st, groups) {
            Ok(next) => with_group(next, g),
            Err(e) => Err(e),
        },
    decreases groups.len(),
{
    let more = groups.push(g);
    if groups.len() == 0 {
        assert(more.drop_first() =~= Seq::<Seq<Seq<char>>>::empty());
        assert(more[0] == g);
        if let Ok(next) = with_group(st, g) {
            assert(with_groups(next, more.drop_first()) == Ok::<ScanView, Seq<char>>(next));
        }
    } else {
        assert(more[0] == groups[0]);
        assert(more.drop_first() =~= groups.drop_first().push(g));
        if let Ok(next) = with_group(st, groups[0]) {
            lemma_last_group(next, groups.drop_first(), g);
        }
    }
}

/// Whether two command lines, each of groups, are both accepted, and the second is the
/// first with one group more.
pub open spec fn both_accepted(groups: Seq<Seq<Seq<char>>>, flag: Seq<char>, value: Seq<char>) -> bool {
    &&& forall|i: int| 0 <= i < groups.len() ==> is_group(#[trigger] groups[i])
    &&& parsed_args(command_line(groups)) is Ok
    &&& parsed_args(command_line(groups.push(seq![flag, value]))) is Ok
}

proof fn lemma_one_value_more(groups: Seq<Seq<Seq<char>>>, flag: Seq<char>, value: Seq<char>)
    requires
        both_accepted(groups, flag, value),
        missing_value(flag) is Some,
    ensures
        with_value(parsed_args(command_line(groups))->Ok_0, flag, value) == Ok::<
            ArgsView,
            Seq<char>,
        >(parsed_args(command_line(groups.push(seq![flag, value])))->Ok_0),
{
    let st = nothing_read();
    let g = seq![flag, value];
    let more = groups.push(g);
    assert(g[0] == flag && g[1] == value);
    assert forall|i: int| 0 <= i < more.len() implies is_group(#[trigger] more[i]) by {
        if i < groups.len() {
            assert(more[i] == groups[i]);
        }
    }
    lemma_scan_groups(groups, st);
    lemma_scan_groups(more, st);
    lemma_last_group(st, groups, g);
}

/// A value that stands last on a command line sets what its flag is for, over what was set
/// before, and nothing else; an environment is added to those before it.
pub proof fn law_last_value_sets_its_own(groups: Seq<Seq<Seq<char>>>, value: Seq<char>)
    ensures
        both_accepted(groups, "--manifest"@, value) ==> parsed_args(
            command_line(groups.push(seq!["--manifest"@, value])),
        )->Ok_0 == (ArgsView {
            manifest: value,
            ..parsed_args(command_line(groups))->Ok_0
        }),
        both_accepted(groups, "--feature"@, value) ==> parsed_args(
            command_line(groups.push(seq!["--feature"@, value])),
        )->Ok_0 == (ArgsView {
            feature: Some(value),
            ..parsed_args(command_line(groups))->Ok_0
        }),
        both_accepted(groups, "-e"@, value) ==> parsed_args(
            command_line(groups.push(seq!["-e"@, value])),
        )->Ok_0 == (ArgsView {
            environments: parsed_args(command_line(groups))->Ok_0.environments.push(value),
            ..parsed_args(command_line(groups))->Ok_0
        }),
        both_accepted(groups, "--environment"@, value) ==> parsed_args(
            command_line(groups.push(seq!["--environment"@, value])),
        )->Ok_0 == (ArgsView {
            environments: parsed_args(command_line(groups))->Ok_0.environments.push(value),
            ..parsed_args(command_line(groups))->Ok_0
        }),
        both_accepted(groups, "--max-iters"@, value) ==> (parsed_number(value, u32::MAX as nat)
            matches Some(n) && parsed_args(
            command_line(groups.push(seq!["--max-iters"@, value])),
        )->Ok_0 == (ArgsView {
            max_iters: n as u32,
            ..parsed_args(command_line(groups))->Ok_0
        })),
{
    lemma_flag_texts();
    if both_accepted(groups, "--manifest"@, value) {
        lemma_one_value_more(groups, "--manifest"@, value);
    }
    if both_accepted(groups, "--feature"@, value) {
        lemma_one_value_more(groups, "--feature"@, value);
    }
    if both_accepted(groups, "-e"@, value) {
        lemma_one_value_more(groups, "-e"@, value);
    }
    if both_accepted(groups, "--environment"@, value) {
        lemma_one_value_more(groups, "--environment"@, value);
    }
    if both_accepted(groups, "--max-iters"@, value) {
        lemma_one_value_more(groups, "--max-iters"@, value);
    }
}

proof fn lemma_modules(modules: Seq<Seq<char>>, names: Seq<Seq<char>>, m: Seq<char>)
    ensures
        with_modules(modules, names).contains(m) <==> modules.contains(m) || (m.len() > 0
            && exists|i: int| 0 <= i < names.len() && trimmed(#[trigger] names[i]) == m),
    decreases names.len(),
{
    if names.len() > 0 {
        let short = names.drop_last();
        lemma_modules(modules, short, m);
        let last = names.len() - 1;
        assert(names[last] == names.last());
        if exists|i: int| 0 <= i < short.len() && trimmed(#[trigger] short[i]) == m {
            let i = choose|i: int| 0 <= i < short.len() && trimmed(#[trigger] short[i]) == m;
            assert(names[i] == short[i]);
        }
        if exists|i: int| 0 <= i < names.len() && trimmed(#[trigger] names[i]) == m {
            let i = choose|i: int| 0 <= i < names.len() && trimmed(#[trigger] names[i]) == m;
            if i < short.len() {
                assert(short[i] == names[i]);
            }
        }
    }
}

/// Modules to import are named between commas, more than once if need be: each that is
/// named is imported, without the blanks around it, and nothing else changes.
pub proof fn law_named_modules_are_imported(
    groups: Seq<Seq<Seq<char>>>,
    value: Seq<char>,
    m: Seq<char>,
)
    requires
        both_accepted(groups, "--smoke"@, value),
    ensures
        ({
            let before = parsed_args(command_line(groups))->Ok_0;
            let after = parsed_args(command_line(groups.push(seq!["--smoke"@, value])))->Ok_0;
            let names = pieces(value, ',');
            &&& after.smoke_modules.contains(m) <==> before.smoke_modules.contains(m) || (m.len()
                > 0 && exists|i: int| 0 <= i < names.len() && trimmed(#[trigger] names[i]) == m)
            &&& after == (ArgsView { smoke_modules: after.smoke_modules, ..before })
        }),
{
    lemma_flag_texts();
    lemma_one_value_more(groups, "--smoke"@, value);
    let before = parsed_args(command_line(groups))->Ok_0;
    lemma_modules(before.smoke_modules, pieces(value, ','), m);
}

/// A text that is no flag is refused, and is what is told; so is a number of rounds that
/// is none.
pub proof fn law_what_is_no_flag_is_refused(groups: Seq<Seq<Seq<char>>>, text: Seq<char>)
    requires
        forall|i: int| 0 <= i < groups.len() ==> is_group(#[trigger] groups[i]),
        parsed_args(command_line(groups)) is Ok,
    ensures
        text.len() < 2 || text[0] != '-' ==> parsed_args(command_line(groups.push(seq![text])))
            == Err::<ArgsView, Seq<char>>("retread solve: unknown arg "@ + text),
        parsed_number(text, u32::MAX as nat) is None ==> parsed_args(
            command_line(groups.push(seq!["--max-iters"@, text])),
        ) == Err::<ArgsView, Seq<char>>("retread solve: bad --max-iters value "@ + text),
{
    let st = nothing_read();
    lemma_flag_texts();
    lemma_scan_groups(groups, st);
    if text.len() < 2 || text[0] != '-' {
        lemma_dashes();
        let g = seq![text];
        let more = groups.push(g);
        assert(g[0] == text);
        assert forall|i: int| 0 <= i < more.len() implies is_group(#[trigger] more[i]) by {
            if i < groups.len() {
                assert(more[i] == groups[i]);
            }
        }
        lemma_scan_groups(more, st);
        lemma_last_group(st, groups, g);
    }
    if parsed_number(text, u32::MAX as nat) is None {
        let g = seq!["--max-iters"@, text];
        let more = groups.push(g);
        assert(g[0] == "--max-iters"@ && g[1] == text);
        assert forall|i: int| 0 <= i < more.len() implies is_group(#[trigger] more[i]) by {
            if i < groups.len() {
                assert(more[i] == groups[i]);
            }
        }
        lemma_scan_groups(more, st);
        lemma_last_group(st, groups, g);
    }
}

proof fn lemma_dashes()
    ensures
        "--manifest"@[0] == '-' && "--environment"@[0] == '-' && "-e"@[0] == '-' && "--feature"@[0]
            == '-',
        "--max-iters"@[0] == '-' && "--smoke"@[0] == '-' && "--no-smoke-test"@[0] == '-'
            && "--keep-going"@[0] == '-',
        "--dry-run"@[0] == '-' && "--clean-pins"@[0] == '-' && "--audit"@[0] == '-'
            && "--all-environments"@[0] == '-',
        "--apply-ledger"@[0] == '-' && "--edit-manifest"@[0] == '-' && "--prefer-pypi"@[0] == '-',
{
    reveal_strlit("--manifest");
    reveal_strlit("--environment");
    reveal_strlit("-e");
    reveal_strlit("--feature");
    reveal_strlit("--max-iters");
    reveal_strlit("--smoke");
    reveal_strlit("--no-smoke-test");
    reveal_strlit("--keep-going");
    reveal_strlit("--dry-run");
    reveal_strlit("--clean-pins");
    reveal_strlit("--audit");
    reveal_strlit("--all-environments");
    reveal_strlit("--apply-ledger");
    reveal_strlit("--edit-manifest");
    reveal_strlit("--prefer-pypi");
}

} // verus!
