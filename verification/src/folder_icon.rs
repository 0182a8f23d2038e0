use vstd::prelude::*;

verus! {

/// How many more times writing `desktop.ini` is tried after a failed write.
pub const WRITE_RETRIES: usize = 3;

/// The views of a list of strings.
pub open spec fn strings_view(v: Seq<String>) -> Seq<Seq<char>> {
    v.map_values(|s: String| s@)
}

/// The path of the `desktop.ini` file that gives a folder its icon.
pub fn desktop_ini_path(folder: &str) -> (res: String)
    ensures
        res@ == folder@ + "\\desktop.ini"@,
{
    let mut s = String::from_str(folder);
    s.append("\\desktop.ini");
    s
}

/// The contents of a `desktop.ini` that takes the folder's icon from the first
/// icon of an executable.
pub fn desktop_ini_content(exe: &str) -> (res: String)
    ensures
        res@ == "[.ShellClassInfo]\r\nIconResource="@ + exe@ + ",0\r\n"@,
{
    let mut s = String::from_str("[.ShellClassInfo]\r\nIconResource=");
    s.append(exe);
    s.append(",0\r\n");
    s
}

/// Whether a failed write is tried again, given how many retries were made
/// (the step that `attempts_made` repeats).
pub fn should_retry(retries_done: usize, succeeded: bool) -> (res: bool)
    ensures
        res == (!succeeded && retries_done < WRITE_RETRIES),
{
    !succeeded && retries_done < WRITE_RETRIES
}

/// The number of attempts the write-and-retry loop makes when attempt `k`
/// (counting from 0) succeeds exactly when `outcomes[k]` holds, given that
/// `done` retries were made and attempt `done` just ended.
pub open spec fn attempts_made(outcomes: Seq<bool>, done: nat) -> nat
    decreases WRITE_RETRIES - done,
{
    if !outcomes[done as int] && done < WRITE_RETRIES {
        attempts_made(outcomes, done + 1)
    } else {
        done + 1
    }
}

/// Whether the loop ends with a successful attempt.
pub open spec fn retry_succeeds(outcomes: Seq<bool>) -> bool {
    outcomes[attempts_made(outcomes, 0) - 1]
}

/// Writing is attempted until it succeeds, at most once plus `WRITE_RETRIES`
/// times: with the first success at attempt `s`, `s + 1` attempts are made; with
/// none among the first four, four attempts are made and the loop ends failed.
pub proof fn law_retry_attempts(outcomes: Seq<bool>)
    requires
        outcomes.len() > WRITE_RETRIES,
    ensures
        1 <= attempts_made(outcomes, 0) <= WRITE_RETRIES + 1,
        forall|s: int|
            #![trigger outcomes[s]]
            0 <= s <= WRITE_RETRIES && outcomes[s] && (forall|j: int| 0 <= j < s ==> !outcomes[j])
                ==> attempts_made(outcomes, 0) == s + 1 && retry_succeeds(outcomes),
        (forall|j: int| 0 <= j <= WRITE_RETRIES ==> !outcomes[j]) ==> attempts_made(outcomes, 0)
            == WRITE_RETRIES + 1 && !retry_succeeds(outcomes),
{
    reveal_with_fuel(attempts_made, 5);
}

/// `attrib` arguments that take the hidden, system and read-only attributes off a file.
pub fn clear_file_attrs_args(path: &str) -> (res: Vec<String>)
    ensures
        strings_view(res@) == seq!["-h"@, "-s"@, "-r"@, path@],
{
    let res = vec![String::from_str("-h"), String::from_str("-s"), String::from_str("-r"), String::from_str(path)];
    assert(strings_view(res@) =~= seq!["-h"@, "-s"@, "-r"@, path@]);
    res
}

/// `attrib` arguments that make a file hidden and a system file.
pub fn hide_file_args(path: &str) -> (res: Vec<String>)
    ensures
        strings_view(res@) == seq!["+h"@, "+s"@, path@],
{
    let res = vec![String::from_str("+h"), String::from_str("+s"), String::from_str(path)];
    assert(strings_view(res@) =~= seq!["+h"@, "+s"@, path@]);
    res
}

/// `attrib` arguments that make a folder read-only, which Windows needs before it
/// reads the folder's `desktop.ini`.
pub fn set_folder_readonly_args(folder: &str) -> (res: Vec<String>)
    ensures
        strings_view(res@) == seq!["+r"@, folder@],
{
    let res = vec![String::from_str("+r"), String::from_str(folder)];
    assert(strings_view(res@) =~= seq!["+r"@, folder@]);
    res
}

/// `attrib` arguments that take the read-only attribute off a folder.
pub fn clear_folder_readonly_args(folder: &str) -> (res: Vec<String>)
    ensures
        strings_view(res@) == seq!["-r"@, folder@],
{
    let res = vec![String::from_str("-r"), String::from_str(folder)];
    assert(strings_view(res@) =~= seq!["-r"@, folder@]);
    res
}

} // verus!
