//! The test that an environment's modules import.
use crate::solve::error::SolveError;
use crate::text::{chars_of, join, joined, push_view};
use vstd::prelude::*;

verus! {

broadcast use vstd::seq_lib::group_seq_properties;

/// Whether a module's name may begin with a character.
pub open spec fn begins_name(c: char) -> bool {
    'A' <= c <= 'Z' || 'a' <= c <= 'z' || c == '_'
}

/// Whether a text can be the name of a module: letters, digits, `_` and `.` of
/// ASCII, with a letter or `_` first.
pub open spec fn is_module_name(name: Seq<char>) -> bool {
    name.len() > 0 && begins_name(name[0]) && forall|i: int|
        0 < i < name.len() ==> begins_name(#[trigger] name[i]) || '0' <= name[i] <= '9' || name[i]
            == '.'
}

/// The first of the texts from `from` on that cannot be the name of a module.
pub open spec fn bad_module(modules: Seq<Seq<char>>, from: int) -> Option<Seq<char>>
    decreases modules.len() - from,
{
    if from < 0 || from >= modules.len() {
        None
    } else if !is_module_name(modules[from]) {
        Some(modules[from])
    } else {
        bad_module(modules, from + 1)
    }
}

/// The code that imports the modules.
pub open spec fn import_code(modules: Seq<Seq<char>>) -> Seq<char> {
    joined(modules.map_values(|m: Seq<char>| "import "@ + m), "; "@)
}

/// The arguments with which `pixi` runs the code.
pub open spec fn smoke_command(env: Option<Seq<char>>, modules: Seq<Seq<char>>) -> Seq<Seq<char>> {
    let head = match env {
        Some(e) => seq!["run"@, "-e"@, e],
        None => seq!["run"@],
    };
    head + seq!["--color=never"@, "python"@, "-c"@, import_code(modules)]
}

fn module_name(name: &str) -> (r: bool)
    ensures
        r == is_module_name(name@),
{
    let v = chars_of(name);
    let n: usize = v.len();
    if n == 0 {
        return false;
    }
    let first: char = v[0];
    if !(('A' <= first && first <= 'Z') || ('a' <= first && first <= 'z') || first == '_') {
        return false;
    }
    let mut i: usize = 1;
    while i < n
        invariant
            1 <= i <= n,
            n == v@.len(),
            v@ == name@,
            begins_name(v@[0]),
            forall|k: int|
                0 < k < i ==> begins_name(#[trigger] v@[k]) || '0' <= v@[k] <= '9' || v@[k] == '.',
        decreases n - i,
    {
        let c: char = v[i];
        if !(('A' <= c && c <= 'Z') || ('a' <= c && c <= 'z') || c == '_' || ('0' <= c && c <= '9')
            || c == '.') {
            assert(!(begins_name(name@[i as int]) || '0' <= name@[i as int] <= '9' || name@[i as int]
                == '.'));
            return false;
        }
        i = i + 1;
    }
    true
}

fn code_of_imports(modules: &Vec<String>) -> (r: String)
    ensures
        r@ == import_code(modules.deep_view()),
{
    let ghost all = modules.deep_view();
    let ghost f = |m: Seq<char>| "import "@ + m;
    let mut parts: Vec<String> = Vec::new();
    let n: usize = modules.len();
    let mut i: usize = 0;
    assert(parts.deep_view() =~= all.take(0).map_values(f));
    while i < n
        invariant
            i <= n,
            n == modules@.len(),
            all == modules.deep_view(),
            f == (|m: Seq<char>| "import "@ + m),
            parts.deep_view() == all.take(i as int).map_values(f),
        decreases n - i,
    {
        assert(all[i as int] == modules@[i as int].deep_view());
        push_view(&mut parts, "import ".to_owned().concat(&modules[i]));
        assert(parts.deep_view() =~= all.take(i + 1).map_values(f));
        i = i + 1;
    }
    assert(all.take(n as int) =~= all);
    join(&parts, "; ")
}

/// The arguments with which `pixi` tests that the modules import in an
/// environment; `None` where there is no module to test, and an error where a text
/// cannot be the name of one.
pub fn smoke_arguments(env: &Option<String>, modules: &Vec<String>) -> (r: Result<
    Option<Vec<String>>,
    SolveError,
>)
    ensures
        match r {
            Ok(None) => modules@.len() == 0,
            Ok(Some(args)) => modules@.len() > 0 && bad_module(modules.deep_view(), 0) is None
                && args.deep_view() == smoke_command(env.deep_view(), modules.deep_view()),
            Err(e) => bad_module(modules.deep_view(), 0) matches Some(m) && (e matches SolveError::Usage(
                text,
            ) && text@ == "retread solve: invalid smoke module "@ + m),
        },
{
    if modules.len() == 0 {
        return Ok(None);
    }
    let ghost all = modules.deep_view();
    let n: usize = modules.len();
    let mut i: usize = 0;
    while i < n
        invariant
            i <= n,
            n == modules@.len(),
            all == modules.deep_view(),
            bad_module(all, 0) == bad_module(all, i as int),
        decreases n - i,
    {
        assert(all[i as int] == modules@[i as int].deep_view());
        if !module_name(&modules[i]) {
            return Err(
                SolveError::Usage(
                    "retread solve: invalid smoke module ".to_owned().concat(&modules[i]),
                ),
            );
        }
        i = i + 1;
    }
    let mut args: Vec<String> = Vec::new();
    assert(args.deep_view() =~= Seq::<Seq<char>>::empty());
    push_view(&mut args, "run".to_owned());
    match env {
        Some(e) => {
            push_view(&mut args, "-e".to_owned());
            push_view(&mut args, e.clone());
        },
        None => {},
    }
    push_view(&mut args, "--color=never".to_owned());
    push_view(&mut args, "python".to_owned());
    push_view(&mut args, "-c".to_owned());
    push_view(&mut args, code_of_imports(modules));
    assert(args.deep_view() =~= smoke_command(env.deep_view(), all));
    Ok(Some(args))
}

/// The failure of a test of the modules.
pub fn smoke_failure(modules: &Vec<String>, stderr_tail: String) -> (r: SolveError)
    ensures
        r matches SolveError::SmokeFailed { module, stderr_tail: t } && module@ == joined(
            modules.deep_view(),
            ","@,
        ) && t@ == stderr_tail@,
{
    SolveError::SmokeFailed { module: join(modules, ","), stderr_tail }
}

/// Whether a text is made of ASCII letters, digits, `_` and `.`, and does not begin
/// with a digit or a dot.
pub open spec fn can_be_imported(name: Seq<char>) -> bool {
    &&& name.len() > 0
    &&& !('0' <= name[0] <= '9') && name[0] != '.'
    &&& forall|i: int|
        0 <= i < name.len() ==> {
            ||| 'a' <= #[trigger] name[i] <= 'z'
            ||| 'A' <= name[i] <= 'Z'
            ||| '0' <= name[i] <= '9'
            ||| name[i] == '_'
            ||| name[i] == '.'
        }
}

proof fn lemma_importable(name: Seq<char>)
    ensures
        is_module_name(name) <==> can_be_imported(name),
{
    if is_module_name(name) {
        assert forall|i: int| 0 <= i < name.len() implies {
            ||| 'a' <= #[trigger] name[i] <= 'z'
            ||| 'A' <= name[i] <= 'Z'
            ||| '0' <= name[i] <= '9'
            ||| name[i] == '_'
            ||| name[i] == '.'
        } by {
            if i > 0 {
                assert(begins_name(name[i]) || '0' <= name[i] <= '9' || name[i] == '.');
            }
        }
    }
    if can_be_imported(name) {
        assert(begins_name(name[0]));
        assert forall|i: int| 0 < i < name.len() implies begins_name(#[trigger] name[i]) || '0'
            <= name[i] <= '9' || name[i] == '.' by {
            assert('a' <= name[i] <= 'z' || 'A' <= name[i] <= 'Z' || '0' <= name[i] <= '9'
                || name[i] == '_' || name[i] == '.');
        }
    }
}

/// A list of modules is refused for the first of them that cannot be imported, and
/// only for one.
pub proof fn law_first_bad_module_is_named(modules: Seq<Seq<char>>)
    ensures
        (forall|i: int| 0 <= i < modules.len() ==> can_be_imported(#[trigger] modules[i])) <==>
            bad_module(modules, 0) is None,
        forall|i: int|
            0 <= i < modules.len() && !can_be_imported(#[trigger] modules[i]) && (forall|j: int|
                0 <= j < i ==> can_be_imported(#[trigger] modules[j])) ==> bad_module(modules, 0)
                == Some(modules[i]),
{
    assert forall|i: int|
        0 <= i < modules.len() && !can_be_imported(#[trigger] modules[i]) && (forall|j: int|
            0 <= j < i ==> can_be_imported(#[trigger] modules[j])) implies bad_module(modules, 0)
        == Some(modules[i]) by {
        lemma_bad_at(modules, 0, i);
    }
    lemma_bad_from(modules, 0);
}

proof fn lemma_bad_at(modules: Seq<Seq<char>>, from: int, i: int)
    requires
        0 <= from <= i < modules.len(),
        !can_be_imported(modules[i]),
        forall|j: int| 0 <= j < i ==> can_be_imported(#[trigger] modules[j]),
    ensures
        bad_module(modules, from) == Some(modules[i]),
    decreases i - from,
{
    lemma_importable(modules[from]);
    if from < i {
        lemma_bad_at(modules, from + 1, i);
    }
}

proof fn lemma_bad_from(modules: Seq<Seq<char>>, from: int)
    requires
        0 <= from <= modules.len(),
    ensures
        bad_module(modules, from) is None <==> forall|i: int|
            from <= i < modules.len() ==> can_be_imported(#[trigger] modules[i]),
    decreases modules.len() - from,
{
    if from < modules.len() {
        lemma_importable(modules[from]);
        lemma_bad_from(modules, from + 1);
    }
}

/// The modules are imported by the environment's own python, each by a statement of
/// its own, in their order.
pub proof fn law_modules_are_imported_one_by_one(
    env: Seq<char>,
    modules: Seq<Seq<char>>,
    module: Seq<char>,
)
    ensures
        smoke_command(Some(env), modules).len() == 7,
        smoke_command(Some(env), modules)[0] == "run"@,
        smoke_command(Some(env), modules)[1] == "-e"@,
        smoke_command(Some(env), modules)[2] == env,
        smoke_command(Some(env), modules)[3] == "--color=never"@,
        smoke_command(Some(env), modules)[4] == "python"@,
        smoke_command(Some(env), modules)[5] == "-c"@,
        smoke_command(Some(env), modules)[6] == import_code(modules),
        smoke_command(None, modules) == seq![
            "run"@,
            "--color=never"@,
            "python"@,
            "-c"@,
            import_code(modules),
        ],
        import_code(seq![module]) == "import "@ + module,
        modules.len() > 0 ==> import_code(modules.push(module)) == import_code(modules)
            + "; import "@ + module,
{
    let f = |m: Seq<char>| "import "@ + m;
    let one = seq![module].map_values(f);
    assert(one =~= seq!["import "@ + module]);
    assert(one.drop_last() =~= Seq::<Seq<char>>::empty());
    let all = modules.map_values(f);
    let more = modules.push(module).map_values(f);
    assert(more =~= all.push("import "@ + module));
    assert(more.drop_last() =~= all);
    reveal_strlit("; ");
    reveal_strlit("import ");
    reveal_strlit("; import ");
    assert("; "@ + "import "@ =~= "; import "@);
    if modules.len() > 0 {
        assert(import_code(modules.push(module)) =~= import_code(modules) + "; import "@ + module);
    }
}

} // verus!
