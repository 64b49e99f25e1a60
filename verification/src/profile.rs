//! Profiles and the store that holds them.

use vstd::prelude::*;

verus! {

/// A named Git identity: the name and email that Git records, and the
/// private key that SSH offers. `current` marks the profile in use.
#[derive(Debug, PartialEq, Eq)]
pub struct Profile {
    pub name: String,
    pub email: String,
    pub ssh_key: String,
    pub current: bool,
}

/// What a [`Profile`] holds, as mathematical values.
pub struct ProfileView {
    pub name: Seq<char>,
    pub email: Seq<char>,
    pub ssh_key: Seq<char>,
    pub current: bool,
}

impl View for Profile {
    type V = ProfileView;

    open spec fn view(&self) -> ProfileView {
        ProfileView {
            name: self.name@,
            email: self.email@,
            ssh_key: self.ssh_key@,
            current: self.current,
        }
    }
}

impl Clone for Profile {
    fn clone(&self) -> (copy: Profile)
        ensures
            copy@ == self@,
    {
        Profile {
            name: self.name.clone(),
            email: self.email.clone(),
            ssh_key: self.ssh_key.clone(),
            current: self.current,
        }
    }
}

/// The profiles, in the order in which they were added.
#[derive(Debug, PartialEq, Eq)]
pub struct Config {
    pub profiles: Vec<Profile>,
}

impl View for Config {
    type V = Seq<ProfileView>;

    open spec fn view(&self) -> Seq<ProfileView> {
        Seq::new(self.profiles@.len(), |i: int| self.profiles@[i]@)
    }
}

impl Config {
    /// A store with no profile.
    pub fn new() -> (config: Config)
        ensures
            config@.len() == 0,
    {
        Config { profiles: Vec::new() }
    }
}

/// Why an operation on the store was refused.
#[derive(Debug, Clone, Copy, PartialEq, Eq, Structural)]
pub enum ProfileError {
    /// A required field is empty, or the SSH key file does not exist.
    Validation,
    /// Another profile already has the name.
    Conflict,
    /// The selection is not the number of a profile.
    Range,
}

} // verus!
