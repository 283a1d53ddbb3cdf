//! The command line of a lock.
use crate::solve::lock::{default_lock_args, LockArgs, LockArgsView};
use crate::text::{parse_number, parsed_number, text_eq};
use vstd::prelude::*;

verus! {

broadcast use vstd::seq_lib::group_seq_properties;

/// What a command line says from `at` on, over what it said before.
pub open spec fn scanned(argv: Seq<Seq<char>>, at: int, args: LockArgsView) -> Result<
    LockArgsView,
    Seq<char>,
>
    decreases argv.len() - at,
{
    if at < 0 || at >= argv.len() {
        Ok(args)
    } else if argv[at] == "--manifest"@ {
        if at + 1 >= argv.len() {
            Err("retread lock: --manifest <path> required"@)
        } else {
            scanned(argv, at + 2, LockArgsView { manifest: argv[at + 1], ..args })
        }
    } else if argv[at] == "--max-repairs"@ {
        if at + 1 >= argv.len() {
            Err("retread lock: --max-repairs <N> required"@)
        } else {
            match parsed_number(argv[at + 1], u32::MAX as nat) {
                Some(n) => scanned(argv, at + 2, LockArgsView { max_repairs: n as u32, ..args }),
                None => Err("retread lock: bad --max-repairs value "@ + argv[at + 1]),
            }
        }
    } else if argv[at] == "--no-repair"@ {
        scanned(argv, at + 1, LockArgsView { no_repair: true, ..args })
    } else {
        Err("retread lock: unknown arg "@ + argv[at])
    }
}

/// Reads a command line.
pub fn parse(argv: &Vec<String>) -> (r: Result<LockArgs, String>)
    ensures
        match scanned(argv.deep_view(), 0, default_lock_args()) {
            Ok(args) => r matches Ok(a) && a.deep_view() == args,
            Err(text) => r matches Err(e) && e@ == text,
        },
{
    let ghost all = argv.deep_view();
    let mut args = LockArgs::default();
    let n: usize = argv.len();
    let mut i: usize = 0;
    while i < n
        invariant
            i <= n,
            n == argv@.len(),
            all == argv.deep_view(),
            scanned(all, 0, default_lock_args()) == scanned(all, i as int, args.deep_view()),
        decreases n - i,
    {
        assert(all[i as int] == argv@[i as int].deep_view());
        if text_eq(&argv[i], "--manifest") {
            if i + 1 >= n {
                return Err("retread lock: --manifest <path> required".to_owned());
            }
            assert(all[i + 1] == argv@[i + 1].deep_view());
            args.manifest = argv[i + 1].clone();
            i = i + 2;
        } else if text_eq(&argv[i], "--max-repairs") {
            if i + 1 >= n {
                return Err("retread lock: --max-repairs <N> required".to_owned());
            }
            assert(all[i + 1] == argv@[i + 1].deep_view());
            match parse_number(&argv[i + 1], u32::MAX as u64) {
                Some(k) => {
                    assert(k <= u32::MAX) by {
                        assert(parsed_number(all[i + 1], u32::MAX as nat) == Some(k as nat));
                    }
                    args.max_repairs = k as u32;
                },
                None => {
                    return Err(
                        "retread lock: bad --max-repairs value ".to_owned().concat(&argv[i + 1]),
                    );
                },
            }
            i = i + 2;
        } else if text_eq(&argv[i], "--no-repair") {
            args.no_repair = true;
            i = i + 1;
        } else {
            return Err("retread lock: unknown arg ".to_owned().concat(&argv[i]));
        }
    }
    Ok(args)
}

// ---------------------------------------------------------------------------
// Laws
// ---------------------------------------------------------------------------

proof fn lemma_flags()
    ensures
        "--manifest"@.len() == 10,
        "--max-repairs"@.len() == 13,
        "--no-repair"@.len() == 11,
        "--manifest"@[0] == '-',
        "--max-repairs"@[0] == '-',
        "--no-repair"@[0] == '-',
{
    reveal_strlit("--manifest");
    reveal_strlit("--max-repairs");
    reveal_strlit("--no-repair");
}

proof fn lemma_scan_prefix(argv: Seq<Seq<char>>, more: Seq<Seq<char>>, at: int, args: LockArgsView)
    requires
        0 <= at <= argv.len(),
        scanned(argv, at, args) is Ok,
    ensures
        scanned(argv + more, at, args) == scanned(
            argv + more,
            argv.len() as int,
            scanned(argv, at, args)->Ok_0,
        ),
    decreases argv.len() - at,
{
    let all = argv + more;
    if at < argv.len() {
        assert(all[at] == argv[at]);
        if argv[at] == "--manifest"@ {
            assert(all[at + 1] == argv[at + 1]);
            lemma_scan_prefix(argv, more, at + 2, LockArgsView { manifest: argv[at + 1], ..args });
        } else if argv[at] == "--max-repairs"@ {
            assert(all[at + 1] == argv[at + 1]);
            let n = parsed_number(argv[at + 1], u32::MAX as nat)->0;
            lemma_scan_prefix(argv, more, at + 2, LockArgsView { max_repairs: n as u32, ..args });
        } else {
            lemma_scan_prefix(argv, more, at + 1, LockArgsView { no_repair: true, ..args });
        }
    }
}

/// Whether a command line is accepted and asks for this.
pub open spec fn asks_for(argv: Seq<Seq<char>>, args: LockArgsView) -> bool {
    scanned(argv, 0, default_lock_args()) == Ok::<LockArgsView, Seq<char>>(args)
}

/// A command line that says nothing asks for the manifest at hand and fifty repairs.
pub proof fn law_nothing_said_asks_for_repairs(argv: Seq<Seq<char>>)
    requires
        argv.len() == 0,
    ensures
        asks_for(
            argv,
            LockArgsView { manifest: "pixi.toml"@, max_repairs: 50, no_repair: false },
        ),
{
}

/// What stands last on a command line sets what its flag is for, over what was set before,
/// and nothing else.
pub proof fn law_last_flag_sets_its_own(
    argv: Seq<Seq<char>>,
    args: LockArgsView,
    value: Seq<char>,
)
    requires
        asks_for(argv, args),
    ensures
        asks_for(
            argv + seq!["--manifest"@, value],
            LockArgsView { manifest: value, ..args },
        ),
        asks_for(argv + seq!["--no-repair"@], LockArgsView { no_repair: true, ..args }),
        parsed_number(value, u32::MAX as nat) matches Some(n) ==> asks_for(
            argv + seq!["--max-repairs"@, value],
            LockArgsView { max_repairs: n as u32, ..args },
        ),
{
    lemma_flags();
    let start = default_lock_args();
    let n = argv.len() as int;
    let a = argv + seq!["--manifest"@, value];
    lemma_scan_prefix(argv, seq!["--manifest"@, value], 0, start);
    assert(a[n] == "--manifest"@ && a[n + 1] == value);
    assert(scanned(a, n + 2, LockArgsView { manifest: value, ..args }) is Ok);
    let b = argv + seq!["--no-repair"@];
    lemma_scan_prefix(argv, seq!["--no-repair"@], 0, start);
    assert(b[n] == "--no-repair"@);
    assert(scanned(b, n + 1, LockArgsView { no_repair: true, ..args }) is Ok);
    let c = argv + seq!["--max-repairs"@, value];
    lemma_scan_prefix(argv, seq!["--max-repairs"@, value], 0, start);
    assert(c[n] == "--max-repairs"@ && c[n + 1] == value);
    if let Some(k) = parsed_number(value, u32::MAX as nat) {
        assert(scanned(c, n + 2, LockArgsView { max_repairs: k as u32, ..args }) is Ok);
    }
}

/// A flag without its value, a number that is none and a text that is no flag are refused,
/// and are what is told.
pub proof fn law_what_is_amiss_is_told(argv: Seq<Seq<char>>, args: LockArgsView, text: Seq<char>)
    requires
        asks_for(argv, args),
    ensures
        scanned(argv.push("--manifest"@), 0, default_lock_args()) == Err::<
            LockArgsView,
            Seq<char>,
        >("retread lock: --manifest <path> required"@),
        scanned(argv.push("--max-repairs"@), 0, default_lock_args()) == Err::<
            LockArgsView,
            Seq<char>,
        >("retread lock: --max-repairs <N> required"@),
        parsed_number(text, u32::MAX as nat) is None ==> scanned(
            argv + seq!["--max-repairs"@, text],
            0,
            default_lock_args(),
        ) == Err::<LockArgsView, Seq<char>>("retread lock: bad --max-repairs value "@ + text),
        text.len() == 0 || text[0] != '-' ==> scanned(argv.push(text), 0, default_lock_args())
            == Err::<LockArgsView, Seq<char>>("retread lock: unknown arg "@ + text),
{
    lemma_flags();
    let start = default_lock_args();
    let n = argv.len() as int;
    assert(argv.push("--manifest"@) =~= argv + seq!["--manifest"@]);
    assert(argv.push("--max-repairs"@) =~= argv + seq!["--max-repairs"@]);
    assert(argv.push(text) =~= argv + seq![text]);
    lemma_scan_prefix(argv, seq!["--manifest"@], 0, start);
    lemma_scan_prefix(argv, seq!["--max-repairs"@], 0, start);
    lemma_scan_prefix(argv, seq!["--max-repairs"@, text], 0, start);
    lemma_scan_prefix(argv, seq![text], 0, start);
    assert((argv + seq!["--manifest"@])[n] == "--manifest"@);
    assert((argv + seq!["--max-repairs"@])[n] == "--max-repairs"@);
    assert((argv + seq!["--max-repairs"@, text])[n] == "--max-repairs"@);
    assert((argv + seq!["--max-repairs"@, text])[n + 1] == text);
    assert((argv + seq![text])[n] == text);
}

} // verus!
