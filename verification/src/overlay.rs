use vstd::prelude::*;
use vstd::string::StringExecFns;

verus! {

/// The commit date that reproducible builds stamp on every commit.
pub open spec fn reproducible_date() -> Seq<char> {
    "1980-01-01"@
}

/// The version line shown in a corner of the screen: the program's name and
/// the `git describe` output, then the commit date in parentheses, or a star
/// when the build carries the reproducible-build date instead of a real one.
pub fn version_message(git_describe: &str, git_commit_date: &str) -> (r: String)
    ensures
        r@ == "rg "@ + git_describe@ + if git_commit_date@ == reproducible_date() {
            "*"@
        } else {
            " ("@ + git_commit_date@ + ")"@
        },
{
    let mut msg = String::from_str("rg ");
    msg.append(git_describe);
    let date = String::from_str(git_commit_date);
    let reproducible = String::from_str("1980-01-01");
    if date == reproducible {
        msg.append("*");
    } else {
        msg.append(" (");
        msg.append(git_commit_date);
        msg.append(")");
    }
    msg
}

} // verus!
