//! Where a solve keeps its records, and what identifies a manifest.
use crate::solve::workspace::{join_path, path_joined};
use crate::text::{chars_of, decimal, decimal_text, digit_char};
use sha2::{Digest, Sha256};
use vstd::prelude::*;

verus! {

broadcast use vstd::seq_lib::group_seq_properties;

/// The SHA-256 digest of some bytes, as 64 hexadecimal digits in small letters.
pub uninterp spec fn sha256_text(bytes: Seq<u8>) -> Seq<char>;

/// `sha2::Sha256::digest`, written out with `{:x}`: two digits for each of its 32
/// bytes.
#[verifier::external_body]
fn digest_text(bytes: &[u8]) -> (r: String)
    ensures
        r@ == sha256_text(bytes@),
        r@.len() == 64,
{
    format!("{:x}", Sha256::digest(bytes))
}

/// What identifies a manifest with these bytes.
pub fn manifest_sha256(bytes: &[u8]) -> (r: String)
    ensures
        r@ == sha256_text(bytes@),
        r@.len() == 64,
{
    digest_text(bytes)
}

/// Whether a character is a letter or a number.
pub uninterp spec fn is_alphanumeric(c: char) -> bool;

/// `char::is_alphanumeric`: Unicode says of every character whether it is a letter
/// or a number; of the first 128, these are the letters and the digits of ASCII.
pub assume_specification[ char::is_alphanumeric ](c: char) -> (r: bool)
    ensures
        r == is_alphanumeric(c),
        (c as u32) < 128 ==> r == ('0' <= c <= '9' || 'a' <= c <= 'z' || 'A' <= c <= 'Z'),
;

/// The directory of a solve's records.
pub fn retread_dir(project_dir: &str) -> (r: String)
    ensures
        r@ == path_joined(project_dir@, ".retread"@),
{
    join_path(project_dir, ".retread")
}

/// The file of the attempts.
pub fn ledger_path(project_dir: &str) -> (r: String)
    ensures
        r@ == path_joined(path_joined(project_dir@, ".retread"@), "solve-ledger.json"@),
{
    join_path(&retread_dir(project_dir), "solve-ledger.json")
}

/// The copy of the manifest as it was before the first edit.
pub fn snapshot_path(project_dir: &str) -> (r: String)
    ensures
        r@ == path_joined(path_joined(project_dir@, ".retread"@), "pixi.toml.bak"@),
{
    join_path(&retread_dir(project_dir), "pixi.toml.bak")
}

/// The directory of the messages of failed rounds.
pub fn conflict_trace_dir(project_dir: &str) -> (r: String)
    ensures
        r@ == path_joined(path_joined(project_dir@, ".retread"@), "solve-conflicts"@),
{
    join_path(&retread_dir(project_dir), "solve-conflicts")
}

/// A run's name with `_` for each character that has no place in a file's name.
pub open spec fn safe_name(run: Seq<char>) -> Seq<char> {
    run.map_values(
        |c: char|
            if is_alphanumeric(c) || c == '-' || c == '_' {
                c
            } else {
                '_'
            },
    )
}

/// The name of the file of the message of one round of a run.
pub open spec fn trace_name(run: Seq<char>, iter: u32) -> Seq<char> {
    safe_name(run) + "-"@ + decimal(iter as nat) + ".txt"@
}

/// The file of the message of one round of a run.
pub open spec fn trace_path(project_dir: Seq<char>, run: Seq<char>, iter: u32) -> Seq<char> {
    path_joined(
        path_joined(path_joined(project_dir, ".retread"@), "solve-conflicts"@),
        trace_name(run, iter),
    )
}

proof fn lemma_no_slash_in_number(n: nat)
    ensures
        !decimal(n).contains('/'),
    decreases n,
{
    if n >= 10 {
        lemma_no_slash_in_number(n / 10);
        let d = digit_char(n % 10);
        assert(d != '/');
        assert forall|k: int| 0 <= k < decimal(n).len() implies decimal(n)[k] != '/' by {
            if k < decimal(n / 10).len() {
                assert(decimal(n / 10).contains(decimal(n / 10)[k]));
            }
        }
    } else {
        assert(digit_char(n) != '/');
    }
}

/// The file of the message of one round of a run. Whatever the run is called, the file
/// stands in the directory of the messages itself.
pub fn conflict_trace_path(project_dir: &str, run: &str, iter: u32) -> (r: String)
    ensures
        r@ == trace_path(project_dir@, run@, iter),
        !trace_name(run@, iter).contains('/'),
{
    let v = chars_of(run);
    let ghost f = |c: char|
        if is_alphanumeric(c) || c == '-' || c == '_' {
            c
        } else {
            '_'
        };
    let mut name: String = String::new();
    let n: usize = v.len();
    let mut i: usize = 0;
    assert(name@ =~= v@.take(0).map_values(f));
    while i < n
        invariant
            i <= n,
            n == v@.len(),
            f == (|c: char|
                if is_alphanumeric(c) || c == '-' || c == '_' {
                    c
                } else {
                    '_'
                }),
            name@ == v@.take(i as int).map_values(f),
            !name@.contains('/'),
        decreases n - i,
    {
        let c: char = v[i];
        let ghost before = name@;
        if c.is_alphanumeric() || c == '-' || c == '_' {
            name.push(c);
        } else {
            name.push('_');
        }
        assert(name@ =~= v@.take(i + 1).map_values(f));
        assert forall|k: int| 0 <= k < name@.len() implies name@[k] != '/' by {
            if k < before.len() {
                assert(before.contains(before[k]));
            }
        }
        i = i + 1;
    }
    assert(v@.take(n as int) =~= run@);
    let ghost safe = name@;
    name.append("-");
    name.append(&decimal_text(iter as u64));
    name.append(".txt");
    proof {
        lemma_no_slash_in_number(iter as nat);
        reveal_strlit("-");
        reveal_strlit(".txt");
        let number = decimal(iter as nat);
        assert forall|k: int| 0 <= k < name@.len() implies name@[k] != '/' by {
            if k < safe.len() {
                assert(safe.contains(safe[k]));
            } else if safe.len() < k <= safe.len() + number.len() {
                assert(number.contains(number[k - safe.len() - 1]));
            }
        }
    }
    join_path(&conflict_trace_dir(project_dir), &name)
}

/// The name of the file of a round has a character for each of the run's: the same where
/// that is a letter, a number, a hyphen or an underscore, and an underscore otherwise.
/// Behind it stand the round's number and what kind of file it is.
pub proof fn law_file_names_keep_the_runs(run: Seq<char>, iter: u32)
    ensures
        forall|i: int|
            0 <= i < run.len() && (is_alphanumeric(run[i]) || run[i] == '-' || run[i] == '_')
                ==> #[trigger] trace_name(run, iter)[i] == run[i],
        forall|i: int|
            0 <= i < run.len() && !is_alphanumeric(run[i]) && run[i] != '-' ==> #[trigger]
                trace_name(run, iter)[i] == '_',
        trace_name(run, iter).skip(run.len() as int) == "-"@ + decimal(iter as nat) + ".txt"@,
{
    let safe = safe_name(run);
    let tail = "-"@ + decimal(iter as nat) + ".txt"@;
    assert(trace_name(run, iter) =~= safe + tail);
    assert((safe + tail).skip(run.len() as int) =~= tail);
}

} // verus!
