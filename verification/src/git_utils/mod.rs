//! The rebuilder and what it rests on, and the texts that a push needs.

pub mod id_map;
pub mod object;
pub mod order;
pub mod path;
pub mod policy;
pub mod rebuilder;
pub mod rewrite;
pub mod store;

use vstd::prelude::*;
use vstd::string::StringExecFns;

verus! {

/// What the name of every branch begins with that points at a rebuilt commit
/// while it is pushed.
pub const WORKING_BRANCH_NAME: &'static str = "git-publish_working_branch";

/// The key that the push offers, below the home directory.
pub const SSH_KEY_FILE: &'static str = "/.ssh/id_ed25519";

/// The refspec that pushes `source` to `destination`: both names with a colon
/// between them, and a plus sign in front where the push is forced.
pub open spec fn refspec(source: Seq<char>, destination: Seq<char>, force: bool) -> Seq<char> {
    (if force {
        seq!['+']
    } else {
        Seq::empty()
    }) + source + seq![':'] + destination
}

/// What is reported of one pushed reference: success, or the failure with the
/// remote's words.
pub open spec fn push_report(reference: Seq<char>, failure: Option<Seq<char>>) -> Seq<char> {
    match failure {
        Some(message) => "/!\\ failed to push "@ + reference + ": "@ + message,
        None => "Successfully pushed "@ + reference,
    }
}

/// The refspec for a push of `src_reference` to `dst_reference`. Without
/// `force` the remote refuses an update that is not a fast-forward.
pub fn push_refspec(src_reference: &str, dst_reference: &str, force: bool) -> (spec: String)
    ensures
        spec@ == refspec(src_reference@, dst_reference@, force),
{
    let mut spec = String::new();
    if force {
        proof {
            reveal_strlit("+");
        }
        spec.append("+");
    }
    spec.append(src_reference);
    proof {
        reveal_strlit(":");
    }
    spec.append(":");
    spec.append(dst_reference);
    spec
}

/// The name of the branch that points at a rebuilt commit while it is pushed:
/// the common beginning, an underscore and `token`, which tells one push from
/// another.
pub fn working_branch_name(token: &str) -> (name: String)
    ensures
        name@ == WORKING_BRANCH_NAME@ + seq!['_'] + token@,
{
    let mut name = String::new();
    name.append(WORKING_BRANCH_NAME);
    proof {
        reveal_strlit("_");
    }
    name.append("_");
    name.append(token);
    name
}

/// The file that holds the key for the push, for the home directory `home`.
pub fn ssh_key_path(home: &str) -> (path: String)
    ensures
        path@ == home@ + SSH_KEY_FILE@,
{
    let mut path = String::new();
    path.append(home);
    path.append(SSH_KEY_FILE);
    path
}

/// The line that reports how the push of `reference` ended: `status` holds the
/// remote's words where it refused the update.
pub fn push_status_line(reference: &str, status: Option<&str>) -> (line: String)
    ensures
        line@ == push_report(
            reference@,
            match status {
                Some(message) => Some(message@),
                None => None,
            },
        ),
{
    let mut line = String::new();
    match status {
        Some(message) => {
            line.append("/!\\ failed to push ");
            line.append(reference);
            line.append(": ");
            line.append(message);
        },
        None => {
            line.append("Successfully pushed ");
            line.append(reference);
        },
    }
    line
}

} // verus!
