//! The Git commands that make a profile the global identity.

use crate::profile::Profile;
use crate::text::texts;
use vstd::prelude::*;
use vstd::string::StringExecFns;

verus! {

/// The arguments that set the global Git setting `key` to `value`.
pub open spec fn config_args(key: Seq<char>, value: Seq<char>) -> Seq<Seq<char>> {
    seq!["config"@, "--global"@, key, value]
}

fn global_setting(key: &str, value: &str) -> (args: Vec<String>)
    ensures
        texts(args@) == config_args(key@, value@),
{
    let mut args: Vec<String> = Vec::new();
    args.push(String::from_str("config"));
    args.push(String::from_str("--global"));
    args.push(String::from_str(key));
    args.push(String::from_str(value));
    assert(texts(args@) =~= config_args(key@, value@));
    args
}

/// The argument lists of the two `git` invocations that record the profile
/// as the global identity: first the name, then the email.
pub fn update_git_config(profile: &Profile) -> (commands: Vec<Vec<String>>)
    ensures
        commands@.len() == 2,
        texts(commands@[0]@) == config_args("user.name"@, profile@.name),
        texts(commands@[1]@) == config_args("user.email"@, profile@.email),
{
    let mut commands: Vec<Vec<String>> = Vec::new();
    commands.push(global_setting("user.name", profile.name.as_str()));
    commands.push(global_setting("user.email", profile.email.as_str()));
    commands
}

} // verus!
