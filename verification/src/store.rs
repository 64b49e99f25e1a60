//! The rules of the profile store: switching to the next profile, and
//! adding, editing and removing profiles.
//!
//! What each operation does is defined by a function on sequences of
//! [`ProfileView`]; the executable function changes a [`Config`] accordingly.
//! A store is well-formed when at most one of its profiles is current. Every
//! operation keeps a well-formed store well-formed, and keeps the names
//! unique where they were.

use crate::input::{affirmative, is_affirmative, optional_text};
use crate::profile::{Config, Profile, ProfileError, ProfileView};
use crate::text::{trim, trimmed};
use vstd::prelude::*;

verus! {

/// The profile with its `current` flag set to `current`.
pub open spec fn with_current(p: ProfileView, current: bool) -> ProfileView {
    ProfileView { name: p.name, email: p.email, ssh_key: p.ssh_key, current }
}

/// At most one profile is flagged as current.
pub open spec fn well_formed(s: Seq<ProfileView>) -> bool {
    forall|i: int, j: int|
        0 <= i < s.len() && 0 <= j < s.len() && (#[trigger] s[i]).current && (#[trigger] s[j]).current
            ==> i == j
}

/// No two profiles share a name.
pub open spec fn names_unique(s: Seq<ProfileView>) -> bool {
    forall|i: int, j: int|
        0 <= i < s.len() && 0 <= j < s.len() && (#[trigger] s[i]).name == (#[trigger] s[j]).name
            ==> i == j
}

/// Some profile has the name.
pub open spec fn has_name(s: Seq<ProfileView>, name: Seq<char>) -> bool {
    exists|i: int| 0 <= i < s.len() && (#[trigger] s[i]).name == name
}

/// Position of the first profile flagged as current, or `s.len()` if none is.
pub open spec fn first_current(s: Seq<ProfileView>) -> nat
    decreases s.len(),
{
    if s.len() == 0 || s[0].current {
        0
    } else {
        1 + first_current(s.skip(1))
    }
}

/// The profiles with the flag of profile `i` set to `current`.
pub open spec fn flagged(s: Seq<ProfileView>, i: int, current: bool) -> Seq<ProfileView> {
    s.update(i, with_current(s[i], current))
}

/// The profiles with every flag cleared.
pub open spec fn all_cleared(s: Seq<ProfileView>) -> Seq<ProfileView> {
    Seq::new(s.len(), |i: int| with_current(s[i], false))
}

/// Position of the profile that a switch makes current: the one after the
/// first that is flagged, wrapping round, or the first if none is flagged.
pub open spec fn next_index(s: Seq<ProfileView>) -> nat {
    let c = first_current(s);
    if c < s.len() {
        ((c + 1) % s.len()) as nat
    } else {
        0
    }
}

/// The store after a switch. With fewer than two profiles nothing changes.
/// Otherwise the first flagged profile loses its flag and the profile at
/// [`next_index`] gains it.
pub open spec fn switched(s: Seq<ProfileView>) -> Seq<ProfileView> {
    if s.len() <= 1 {
        s
    } else {
        let c = first_current(s);
        let cleared = if c < s.len() {
            flagged(s, c as int, false)
        } else {
            s
        };
        flagged(cleared, next_index(s) as int, true)
    }
}

/// What a switch did.
#[derive(Debug, Clone, Copy, PartialEq, Eq, Structural)]
pub enum Switch {
    /// The store is empty; nothing changed.
    NoProfiles,
    /// The store holds one profile; nothing changed.
    OnlyOne,
    /// The profile at this position is now current.
    To(usize),
}

/// What a switch reports for a store.
pub open spec fn switch_outcome(s: Seq<ProfileView>) -> Switch {
    if s.len() == 0 {
        Switch::NoProfiles
    } else if s.len() == 1 {
        Switch::OnlyOne
    } else {
        Switch::To(next_index(s) as usize)
    }
}

/// `first_current(s)` is the one position before which no profile is flagged
/// and at which `s` ends or holds a flagged one.
pub proof fn lemma_first_current_is(s: Seq<ProfileView>, c: int)
    requires
        0 <= c <= s.len(),
        forall|j: int| 0 <= j < c ==> !(#[trigger] s[j]).current,
        c == s.len() || s[c].current,
    ensures
        first_current(s) == c,
    decreases c,
{
    if c > 0 {
        let t = s.skip(1);
        assert forall|j: int| 0 <= j < c - 1 implies !(#[trigger] t[j]).current by {
            assert(t[j] == s[j + 1]);
        }
        lemma_first_current_is(t, c - 1);
    }
}

/// Before position `first_current(s)` no profile is flagged, and at it `s`
/// ends or holds a flagged one.
pub proof fn lemma_first_current_bound(s: Seq<ProfileView>)
    ensures
        first_current(s) <= s.len(),
        forall|j: int| 0 <= j < first_current(s) ==> !(#[trigger] s[j]).current,
        first_current(s) < s.len() ==> s[first_current(s) as int].current,
    decreases s.len(),
{
    if !(s.len() == 0 || s[0].current) {
        let t = s.skip(1);
        lemma_first_current_bound(t);
        assert forall|j: int| 0 <= j < first_current(s) implies !(#[trigger] s[j]).current by {
            if j > 0 {
                assert(s[j] == t[j - 1]);
            }
        }
        if first_current(s) < s.len() {
            assert(s[first_current(s) as int] == t[first_current(t) as int]);
        }
    }
}

/// Makes the profile after the current one current: see [`switched`].
pub fn switch_profile(config: &mut Config) -> (outcome: Switch)
    ensures
        final(config)@ == switched(old(config)@),
        outcome == switch_outcome(old(config)@),
        old(config)@.len() <= 1 ==> final(config)@ == old(config)@,
        well_formed(old(config)@) ==> well_formed(final(config)@),
        well_formed(old(config)@) && old(config)@.len() >= 2 ==> one_current(final(config)@),
        names_unique(old(config)@) ==> names_unique(final(config)@),
{
    proof {
        if names_unique(config@) {
            lemma_switched_names_unique(config@);
        }
    }
    let n = config.profiles.len();
    if n == 0 {
        return Switch::NoProfiles;
    }
    if n == 1 {
        return Switch::OnlyOne;
    }
    let ghost before = config@;
    proof {
        if well_formed(before) {
            lemma_switched_one_current(before);
        }
    }
    let mut c: usize = 0;
    while c < n && !config.profiles[c].current
        invariant
            c <= n,
            n == config.profiles.len(),
            config@ == before,
            forall|j: int| 0 <= j < c ==> !(#[trigger] before[j]).current,
        decreases n - c,
    {
        c += 1;
    }
    proof {
        lemma_first_current_is(before, c as int);
    }
    let next: usize = if c < n {
        config.profiles[c].current = false;
        (c + 1) % n
    } else {
        0
    };
    let ghost cleared = config@;
    assert(cleared =~= if c < n {
        flagged(before, c as int, false)
    } else {
        before
    });
    config.profiles[next].current = true;
    assert(config@ =~= flagged(cleared, next as int, true));
    Switch::To(next)
}

/// The store after a successful setup, or why the setup is refused. The name
/// and email are taken without surrounding whitespace. A missing key file or
/// an empty name is a validation error; a name already in the store is a
/// conflict. The new profile goes to the end and is the only current one.
pub open spec fn setup_outcome(
    s: Seq<ProfileView>,
    name: Seq<char>,
    email: Seq<char>,
    ssh_key: Option<Seq<char>>,
    key_exists: bool,
) -> Result<Seq<ProfileView>, ProfileError> {
    if ssh_key is None || !key_exists || trimmed(name).len() == 0 {
        Err(ProfileError::Validation)
    } else if has_name(s, trimmed(name)) {
        Err(ProfileError::Conflict)
    } else {
        Ok(
            all_cleared(s).push(
                ProfileView {
                    name: trimmed(name),
                    email: trimmed(email),
                    ssh_key: ssh_key->0,
                    current: true,
                },
            ),
        )
    }
}

/// Whether some profile in the store has the name.
pub fn name_taken(config: &Config, name: &String) -> (taken: bool)
    ensures
        taken == has_name(config@, name@),
{
    let n = config.profiles.len();
    let mut i: usize = 0;
    while i < n
        invariant
            i <= n,
            n == config.profiles.len(),
            forall|j: int| 0 <= j < i ==> (#[trigger] config@[j]).name != name@,
        decreases n - i,
    {
        if config.profiles[i].name == *name {
            assert(config@[i as int].name == name@);
            return true;
        }
        i += 1;
    }
    false
}

/// Adds a profile and makes it current: see [`setup_outcome`]. `ssh_key` is
/// the path of the private key, `None` if none was given, and `key_exists`
/// says whether a file is there.
pub fn setup_profile(
    config: &mut Config,
    name: &str,
    email: &str,
    ssh_key: Option<String>,
    key_exists: bool,
) -> (result: Result<(), ProfileError>)
    ensures
        match setup_outcome(old(config)@, name@, email@, optional_text(ssh_key), key_exists) {
            Ok(after) => result is Ok && final(config)@ == after,
            Err(e) => result == Err::<(), ProfileError>(e) && final(config)@ == old(config)@,
        },
        !key_exists ==> result == Err::<(), ProfileError>(ProfileError::Validation),
        result is Ok ==> one_current(final(config)@),
        names_unique(old(config)@) ==> names_unique(final(config)@),
{
    proof {
        if setup_outcome(old(config)@, name@, email@, optional_text(ssh_key), key_exists) is Ok {
            lemma_setup_one_current(old(config)@, name@, email@, optional_text(ssh_key), key_exists);
        }
    }
    let name = trim(name);
    let email = trim(email);
    if !key_exists || name.as_str().is_empty() {
        return Err(ProfileError::Validation);
    }
    let key = match ssh_key {
        Some(k) => k,
        None => {
            return Err(ProfileError::Validation);
        },
    };
    if name_taken(config, &name) {
        return Err(ProfileError::Conflict);
    }
    let ghost before = config@;
    let n = config.profiles.len();
    let mut i: usize = 0;
    while i < n
        invariant
            i <= n,
            n == config.profiles.len(),
            n == before.len(),
            forall|j: int| 0 <= j < i ==> config@[j] == with_current(before[j], false),
            forall|j: int| i <= j < n ==> config@[j] == before[j],
        decreases n - i,
    {
        let ghost prev = config@;
        config.profiles[i].current = false;
        assert(config@ =~= flagged(prev, i as int, false));
        i += 1;
    }
    assert(config@ =~= all_cleared(before));
    let profile = Profile { name, email, ssh_key: key, current: true };
    config.profiles.push(profile);
    assert(config@ =~= all_cleared(before).push(profile@));
    Ok(())
}

/// The value of a field after an edit: the old one where the input is blank,
/// else the input without surrounding whitespace.
pub open spec fn kept_or(old_value: Seq<char>, input: Seq<char>) -> Seq<char> {
    if trimmed(input).len() == 0 {
        old_value
    } else {
        trimmed(input)
    }
}

/// A profile after an edit. A key that is given replaces the old one.
pub open spec fn edited(
    p: ProfileView,
    name: Seq<char>,
    email: Seq<char>,
    ssh_key: Option<Seq<char>>,
) -> ProfileView {
    ProfileView {
        name: kept_or(p.name, name),
        email: kept_or(p.email, email),
        ssh_key: match ssh_key {
            Some(k) => k,
            None => p.ssh_key,
        },
        current: p.current,
    }
}

/// Some profile other than the one at `index` has the name.
pub open spec fn taken_by_other(s: Seq<ProfileView>, index: int, name: Seq<char>) -> bool {
    exists|j: int| 0 <= j < s.len() && j != index && (#[trigger] s[j]).name == name
}

/// The store after a successful edit of profile `index`, or why the edit is
/// refused: a position outside the store is a range error, a key that is
/// given but whose file is missing is a validation error, and a name that
/// another profile has is a conflict.
pub open spec fn edit_outcome(
    s: Seq<ProfileView>,
    index: int,
    name: Seq<char>,
    email: Seq<char>,
    ssh_key: Option<Seq<char>>,
    key_exists: bool,
) -> Result<Seq<ProfileView>, ProfileError> {
    if !(0 <= index < s.len()) {
        Err(ProfileError::Range)
    } else if ssh_key is Some && !key_exists {
        Err(ProfileError::Validation)
    } else if taken_by_other(s, index, kept_or(s[index].name, name)) {
        Err(ProfileError::Conflict)
    } else {
        Ok(s.update(index, edited(s[index], name, email, ssh_key)))
    }
}

/// Whether some profile other than the one at `index` has the name.
pub fn name_taken_by_other(config: &Config, index: usize, name: &String) -> (taken: bool)
    ensures
        taken == taken_by_other(config@, index as int, name@),
{
    let n = config.profiles.len();
    let mut j: usize = 0;
    while j < n
        invariant
            j <= n,
            n == config.profiles.len(),
            forall|k: int| 0 <= k < j && k != index ==> (#[trigger] config@[k]).name != name@,
        decreases n - j,
    {
        if j != index && config.profiles[j].name == *name {
            assert(config@[j as int].name == name@);
            return true;
        }
        j += 1;
    }
    false
}

/// Edits the profile at `index`: see [`edit_outcome`]. On success the result
/// says whether the edited profile is the current one.
pub fn edit_profile(
    config: &mut Config,
    index: usize,
    name: &str,
    email: &str,
    ssh_key: Option<String>,
    key_exists: bool,
) -> (result: Result<bool, ProfileError>)
    ensures
        match edit_outcome(old(config)@, index as int, name@, email@, optional_text(ssh_key), key_exists) {
            Ok(after) => result == Ok::<bool, ProfileError>(old(config)@[index as int].current)
                && final(config)@ == after,
            Err(e) => result == Err::<bool, ProfileError>(e) && final(config)@ == old(config)@,
        },
        well_formed(old(config)@) ==> well_formed(final(config)@),
        names_unique(old(config)@) ==> names_unique(final(config)@),
{
    proof {
        if edit_outcome(old(config)@, index as int, name@, email@, optional_text(ssh_key), key_exists)
            is Ok {
            lemma_edit_keeps_flags(
                old(config)@,
                index as int,
                name@,
                email@,
                optional_text(ssh_key),
                key_exists,
            );
        }
    }
    if index >= config.profiles.len() {
        return Err(ProfileError::Range);
    }
    if ssh_key.is_some() && !key_exists {
        return Err(ProfileError::Validation);
    }
    let ghost before = config@;
    let typed_name = trim(name);
    let new_name = if typed_name.as_str().is_empty() {
        config.profiles[index].name.clone()
    } else {
        typed_name
    };
    assert(new_name@ == kept_or(before[index as int].name, name@));
    if name_taken_by_other(config, index, &new_name) {
        return Err(ProfileError::Conflict);
    }
    let new_email = trim(email);
    config.profiles[index].name = new_name;
    if !new_email.as_str().is_empty() {
        config.profiles[index].email = new_email;
    }
    match ssh_key {
        Some(k) => {
            config.profiles[index].ssh_key = k;
        },
        None => {},
    }
    assert(config@ =~= before.update(
        index as int,
        edited(before[index as int], name@, email@, optional_text(ssh_key)),
    ));
    Ok(config.profiles[index].current)
}

/// The store without the profile at `index`. If that profile was current and
/// others remain, the first of them becomes current.
pub open spec fn removed(s: Seq<ProfileView>, index: int) -> Seq<ProfileView> {
    let rest = s.remove(index);
    if s[index].current && rest.len() > 0 {
        flagged(rest, 0, true)
    } else {
        rest
    }
}

/// What a removal did.
#[derive(Debug, Clone, Copy, PartialEq, Eq, Structural)]
pub enum Removal {
    /// A confirmation was withheld; nothing changed.
    Aborted,
    /// The profile is gone. `promoted` says whether the first remaining
    /// profile became current in its place.
    Removed { promoted: bool },
}

/// Whether a removal goes ahead: the position is in the store and both
/// answers confirm.
pub open spec fn removal_confirmed(
    s: Seq<ProfileView>,
    index: int,
    first: Seq<char>,
    second: Seq<char>,
) -> bool {
    0 <= index < s.len() && affirmative(first) && affirmative(second)
}

/// What a removal reports: a range error for a position outside the store,
/// else `Aborted` unless both answers confirm.
pub open spec fn removal_outcome(
    s: Seq<ProfileView>,
    index: int,
    first: Seq<char>,
    second: Seq<char>,
) -> Result<Removal, ProfileError> {
    if !(0 <= index < s.len()) {
        Err(ProfileError::Range)
    } else if !(affirmative(first) && affirmative(second)) {
        Ok(Removal::Aborted)
    } else {
        Ok(Removal::Removed { promoted: s[index].current && s.len() > 1 })
    }
}

/// Removes the profile at `index` if both answers confirm: see [`removed`]
/// and [`removal_outcome`]. In every other case the store is unchanged.
pub fn remove_profile(config: &mut Config, index: usize, first: &str, second: &str) -> (result:
    Result<Removal, ProfileError>)
    ensures
        result == removal_outcome(old(config)@, index as int, first@, second@),
        final(config)@ == if removal_confirmed(old(config)@, index as int, first@, second@) {
            removed(old(config)@, index as int)
        } else {
            old(config)@
        },
        !(affirmative(first@) && affirmative(second@)) ==> final(config)@ == old(config)@,
        well_formed(old(config)@) ==> well_formed(final(config)@),
        names_unique(old(config)@) ==> names_unique(final(config)@),
{
    proof {
        if well_formed(old(config)@) && index < old(config)@.len() {
            lemma_removed_well_formed(old(config)@, index as int);
        }
        if names_unique(old(config)@) && index < old(config)@.len() {
            lemma_removed_names_unique(old(config)@, index as int);
        }
    }
    if index >= config.profiles.len() {
        return Err(ProfileError::Range);
    }
    if !is_affirmative(first) {
        return Ok(Removal::Aborted);
    }
    if !is_affirmative(second) {
        return Ok(Removal::Aborted);
    }
    let ghost before = config@;
    let gone = config.profiles.remove(index);
    assert(gone@ == before[index as int]);
    assert(config@ =~= before.remove(index as int));
    let promoted = gone.current && config.profiles.len() > 0;
    if promoted {
        let ghost rest = config@;
        config.profiles[0].current = true;
        assert(config@ =~= flagged(rest, 0, true));
    }
    Ok(Removal::Removed { promoted })
}

/// The store after `k` switches.
pub open spec fn switch_times(s: Seq<ProfileView>, k: nat) -> Seq<ProfileView>
    decreases k,
{
    if k == 0 {
        s
    } else {
        switched(switch_times(s, (k - 1) as nat))
    }
}

/// The profiles of `s` with the flag on the profile at `c` and on no other.
pub open spec fn only_current(s: Seq<ProfileView>, c: int) -> Seq<ProfileView> {
    Seq::new(s.len(), |i: int| with_current(s[i], i == c))
}

/// Exactly one profile is flagged as current.
pub open spec fn one_current(s: Seq<ProfileView>) -> bool {
    well_formed(s) && first_current(s) < s.len()
}

/// The position that holds the flag after `k` switches from position `c`
/// among `n` profiles.
pub open spec fn holder_after(c: int, k: int, n: int) -> int {
    (c + k) % n
}

proof fn lemma_only_current(s: Seq<ProfileView>, c: int)
    requires
        0 <= c < s.len(),
    ensures
        one_current(only_current(s, c)),
        first_current(only_current(s, c)) == c,
{
    lemma_first_current_is(only_current(s, c), c);
}

proof fn lemma_one_is_only(s: Seq<ProfileView>)
    requires
        one_current(s),
    ensures
        s == only_current(s, first_current(s) as int),
{
    lemma_first_current_bound(s);
    let c = first_current(s) as int;
    assert forall|i: int| 0 <= i < s.len() implies s[i] == only_current(s, c)[i] by {
        if s[i].current {
            assert(s[c].current);
        }
    }
    assert(s =~= only_current(s, c));
}

proof fn lemma_switched_only(s: Seq<ProfileView>, c: int)
    requires
        s.len() >= 2,
        0 <= c < s.len(),
    ensures
        switched(only_current(s, c)) == only_current(s, (c + 1) % (s.len() as int)),
{
    let t = only_current(s, c);
    lemma_only_current(s, c);
    vstd::arithmetic::div_mod::lemma_mod_bound(c + 1, s.len() as int);
    assert(switched(t) =~= only_current(s, (c + 1) % (s.len() as int)));
}

proof fn lemma_switch_steps(s: Seq<ProfileView>, k: nat)
    requires
        s.len() >= 2,
        one_current(s),
    ensures
        switch_times(s, k) == only_current(
            s,
            holder_after(first_current(s) as int, k as int, s.len() as int),
        ),
        0 <= holder_after(first_current(s) as int, k as int, s.len() as int) < s.len(),
    decreases k,
{
    let n = s.len() as int;
    let c = first_current(s) as int;
    lemma_one_is_only(s);
    vstd::arithmetic::div_mod::lemma_small_mod(c as nat, n as nat);
    vstd::arithmetic::div_mod::lemma_mod_bound(c + k, n);
    if k > 0 {
        let j = (k - 1) as nat;
        lemma_switch_steps(s, j);
        let h = holder_after(c, j as int, n);
        lemma_switched_only(s, h);
        vstd::arithmetic::div_mod::lemma_add_mod_noop(c + j, 1, n);
        vstd::arithmetic::div_mod::lemma_small_mod(1, n as nat);
        assert((h + 1) % n == (c + k) % n);
    }
}

/// In a store of two or more profiles with exactly one current profile, at
/// position `c`, `k` switches change nothing but the flag, which the profile
/// at `(c + k) mod n` then holds alone. The flag so passes from each profile
/// to the next in order, and `n` switches give back the store as it was.
pub proof fn lemma_switch_cycle(s: Seq<ProfileView>, k: nat)
    requires
        s.len() >= 2,
        one_current(s),
    ensures
        switch_times(s, k) == only_current(
            s,
            holder_after(first_current(s) as int, k as int, s.len() as int),
        ),
        one_current(switch_times(s, k)),
        first_current(switch_times(s, k)) == holder_after(
            first_current(s) as int,
            k as int,
            s.len() as int,
        ),
        switch_times(s, s.len()) == s,
{
    let n = s.len() as int;
    let c = first_current(s) as int;
    lemma_switch_steps(s, k);
    lemma_only_current(s, holder_after(c, k as int, n));
    lemma_switch_steps(s, s.len());
    lemma_one_is_only(s);
    vstd::arithmetic::div_mod::lemma_mod_add_multiples_vanish(c, n);
    vstd::arithmetic::div_mod::lemma_small_mod(c as nat, n as nat);
}

/// Within one round of switches no profile holds the flag twice: after
/// different numbers of switches, both less than the number of profiles,
/// different profiles are current.
pub proof fn lemma_switch_visits_each_once(s: Seq<ProfileView>, j: nat, k: nat)
    requires
        s.len() >= 2,
        one_current(s),
        j < k < s.len(),
    ensures
        first_current(switch_times(s, j)) != first_current(switch_times(s, k)),
{
    let n = s.len() as int;
    let c = first_current(s) as int;
    lemma_switch_cycle(s, j);
    lemma_switch_cycle(s, k);
    lemma_first_current_bound(s);
    lemma_mod_below_twice(c + j, n);
    lemma_mod_below_twice(c + k, n);
}

proof fn lemma_mod_below_twice(x: int, n: int)
    requires
        0 < n,
        0 <= x < 2 * n,
    ensures
        x % n == if x < n {
            x
        } else {
            x - n
        },
{
    if x < n {
        vstd::arithmetic::div_mod::lemma_small_mod(x as nat, n as nat);
    } else {
        vstd::arithmetic::div_mod::lemma_mod_add_multiples_vanish(x - n, n);
        vstd::arithmetic::div_mod::lemma_small_mod((x - n) as nat, n as nat);
    }
}

/// A switch in a well-formed store of two or more profiles leaves exactly
/// one profile current, the one at [`next_index`].
pub proof fn lemma_switched_one_current(s: Seq<ProfileView>)
    requires
        s.len() >= 2,
        well_formed(s),
    ensures
        one_current(switched(s)),
        first_current(switched(s)) == next_index(s),
{
    lemma_first_current_bound(s);
    let c = first_current(s) as int;
    let n = s.len() as int;
    if c < n {
        vstd::arithmetic::div_mod::lemma_mod_bound(c + 1, n);
    }
    let next = next_index(s) as int;
    let t = switched(s);
    assert forall|i: int| 0 <= i < n && i != next implies !(#[trigger] t[i]).current by {
        if s[i].current {
            assert(s[c].current);
        }
    }
    assert(t[next].current);
    lemma_first_current_is(t, next);
}

/// A successful setup keeps the profiles that were there, in order, and
/// leaves the new profile, at the end, as the only current one. Names that
/// were unique stay unique.
pub proof fn lemma_setup_one_current(
    s: Seq<ProfileView>,
    name: Seq<char>,
    email: Seq<char>,
    ssh_key: Option<Seq<char>>,
    key_exists: bool,
)
    requires
        setup_outcome(s, name, email, ssh_key, key_exists) is Ok,
    ensures
        ({
            let after = setup_outcome(s, name, email, ssh_key, key_exists)->Ok_0;
            &&& after.len() == s.len() + 1
            &&& one_current(after)
            &&& first_current(after) == s.len()
            &&& forall|i: int| 0 <= i < s.len() ==> after[i] == with_current(s[i], false)
            &&& names_unique(s) ==> names_unique(after)
        }),
{
    let after = setup_outcome(s, name, email, ssh_key, key_exists)->Ok_0;
    lemma_first_current_is(after, s.len() as int);
    if names_unique(s) {
        assert forall|i: int, j: int|
            0 <= i < after.len() && 0 <= j < after.len() && (#[trigger] after[i]).name == (
            #[trigger] after[j]).name implies i == j by {
            if i < s.len() && j < s.len() {
                assert(s[i].name == s[j].name);
            } else if i < s.len() {
                assert(s[i].name == trimmed(name));
            } else if j < s.len() {
                assert(s[j].name == trimmed(name));
            }
        }
    }
}

/// With an empty store, a key file that exists and a name that is not blank,
/// setup succeeds and the store then holds the new profile, current, alone.
pub proof fn lemma_first_setup(
    name: Seq<char>,
    email: Seq<char>,
    ssh_key: Seq<char>,
)
    requires
        trimmed(name).len() > 0,
    ensures
        setup_outcome(Seq::empty(), name, email, Some(ssh_key), true) == Ok::<
            Seq<ProfileView>,
            ProfileError,
        >(
            seq![
                ProfileView {
                    name: trimmed(name),
                    email: trimmed(email),
                    ssh_key: ssh_key,
                    current: true,
                },
            ],
        ),
{
    let none = Seq::<ProfileView>::empty();
    assert(!has_name(none, trimmed(name)));
    let new = ProfileView {
        name: trimmed(name),
        email: trimmed(email),
        ssh_key: ssh_key,
        current: true,
    };
    assert(all_cleared(none).push(new) =~= seq![new]);
}

/// A successful edit changes no flag and no profile but the edited one, so a
/// well-formed store stays well-formed, and names that were unique stay
/// unique.
pub proof fn lemma_edit_keeps_flags(
    s: Seq<ProfileView>,
    index: int,
    name: Seq<char>,
    email: Seq<char>,
    ssh_key: Option<Seq<char>>,
    key_exists: bool,
)
    requires
        edit_outcome(s, index, name, email, ssh_key, key_exists) is Ok,
    ensures
        ({
            let after = edit_outcome(s, index, name, email, ssh_key, key_exists)->Ok_0;
            &&& after.len() == s.len()
            &&& forall|i: int| 0 <= i < s.len() ==> (#[trigger] after[i]).current == s[i].current
            &&& forall|i: int| 0 <= i < s.len() && i != index ==> after[i] == s[i]
            &&& well_formed(s) ==> well_formed(after)
            &&& first_current(after) == first_current(s)
            &&& !taken_by_other(after, index, after[index].name)
            &&& names_unique(s) ==> names_unique(after)
        }),
{
    let after = edit_outcome(s, index, name, email, ssh_key, key_exists)->Ok_0;
    let kept = kept_or(s[index].name, name);
    lemma_first_current_bound(s);
    lemma_first_current_is(after, first_current(s) as int);
    if well_formed(s) {
        assert forall|i: int, j: int|
            0 <= i < after.len() && 0 <= j < after.len() && (#[trigger] after[i]).current && (
            #[trigger] after[j]).current implies i == j by {
            assert(s[i].current && s[j].current);
        }
    }
    assert forall|j: int| 0 <= j < s.len() && j != index implies (#[trigger] s[j]).name != kept by {
        if s[j].name == kept {
            assert(taken_by_other(s, index, kept));
        }
    }
    assert(!taken_by_other(after, index, after[index].name)) by {
        if taken_by_other(after, index, after[index].name) {
            let j = choose|j: int|
                0 <= j < after.len() && j != index && (#[trigger] after[j]).name
                    == after[index].name;
            assert(after[j] == s[j]);
            assert(s[j].name == kept);
        }
    }
    if names_unique(s) {
        assert forall|i: int, j: int|
            0 <= i < after.len() && 0 <= j < after.len() && (#[trigger] after[i]).name == (
            #[trigger] after[j]).name implies i == j by {
            if i != index && j != index {
                assert(s[i].name == s[j].name);
            } else if i != index {
                assert(s[i].name != kept);
            } else if j != index {
                assert(s[j].name != kept);
            }
        }
    }
}

/// A name that is kept in an edit conflicts with no other profile where the
/// names are unique: such an edit is refused only for a position outside the
/// store or a key whose file is missing.
pub proof fn lemma_edit_keeping_name(
    s: Seq<ProfileView>,
    index: int,
    name: Seq<char>,
    email: Seq<char>,
    ssh_key: Option<Seq<char>>,
    key_exists: bool,
)
    requires
        names_unique(s),
        0 <= index < s.len(),
        trimmed(name).len() == 0 || trimmed(name) == s[index].name,
        ssh_key is Some ==> key_exists,
    ensures
        edit_outcome(s, index, name, email, ssh_key, key_exists) is Ok,
{
    let kept = kept_or(s[index].name, name);
    assert(kept == s[index].name);
    if taken_by_other(s, index, kept) {
        let j = choose|j: int| 0 <= j < s.len() && j != index && (#[trigger] s[j]).name == kept;
        assert(s[j].name == s[index].name);
    }
}

/// An edit that asks for the name of another profile is a conflict, where
/// the position is in the store and no key is given whose file is missing.
pub proof fn lemma_edit_taken_name(
    s: Seq<ProfileView>,
    index: int,
    other: int,
    name: Seq<char>,
    email: Seq<char>,
    ssh_key: Option<Seq<char>>,
    key_exists: bool,
)
    requires
        0 <= index < s.len(),
        0 <= other < s.len(),
        other != index,
        trimmed(name).len() > 0,
        s[other].name == trimmed(name),
        ssh_key is Some ==> key_exists,
    ensures
        edit_outcome(s, index, name, email, ssh_key, key_exists) == Err::<
            Seq<ProfileView>,
            ProfileError,
        >(ProfileError::Conflict),
{
    assert(taken_by_other(s, index, kept_or(s[index].name, name)));
}

/// Removing a profile leaves unique names unique.
pub proof fn lemma_removed_names_unique(s: Seq<ProfileView>, index: int)
    requires
        0 <= index < s.len(),
        names_unique(s),
    ensures
        names_unique(removed(s, index)),
{
    let after = removed(s, index);
    assert forall|i: int, j: int|
        0 <= i < after.len() && 0 <= j < after.len() && (#[trigger] after[i]).name == (
        #[trigger] after[j]).name implies i == j by {
        let si = if i < index {
            i
        } else {
            i + 1
        };
        let sj = if j < index {
            j
        } else {
            j + 1
        };
        assert(s[si].name == s[sj].name);
    }
}

/// A switch leaves every name as it is, so unique names stay unique.
pub proof fn lemma_switched_names_unique(s: Seq<ProfileView>)
    requires
        names_unique(s),
    ensures
        names_unique(switched(s)),
{
    let after = switched(s);
    lemma_first_current_bound(s);
    if s.len() >= 2 {
        let n = s.len() as int;
        if first_current(s) < s.len() {
            vstd::arithmetic::div_mod::lemma_mod_bound(first_current(s) as int + 1, n);
        }
        assert forall|i: int, j: int|
            0 <= i < after.len() && 0 <= j < after.len() && (#[trigger] after[i]).name == (
            #[trigger] after[j]).name implies i == j by {
            assert(after[i].name == s[i].name);
            assert(after[j].name == s[j].name);
        }
    }
}

/// Removing a profile keeps the others in order. A well-formed store stays
/// well-formed, unique names stay unique, and if a profile was current and
/// any profile remains, exactly one profile is current afterwards.
pub proof fn lemma_removed_well_formed(s: Seq<ProfileView>, index: int)
    requires
        0 <= index < s.len(),
        well_formed(s),
    ensures
        removed(s, index).len() == s.len() - 1,
        forall|i: int|
            0 <= i < s.len() - 1 ==> (#[trigger] removed(s, index)[i]).name == (if i < index {
                s[i]
            } else {
                s[i + 1]
            }).name,
        well_formed(removed(s, index)),
        names_unique(s) ==> names_unique(removed(s, index)),
        first_current(s) < s.len() && s.len() > 1 ==> one_current(removed(s, index)),
{
    let rest = s.remove(index);
    let after = removed(s, index);
    lemma_first_current_bound(s);
    let c = first_current(s) as int;
    assert forall|i: int| 0 <= i < rest.len() implies #[trigger] rest[i] == (if i < index {
        s[i]
    } else {
        s[i + 1]
    }) by {}
    assert forall|i: int, j: int|
        0 <= i < after.len() && 0 <= j < after.len() && (#[trigger] after[i]).current && (
        #[trigger] after[j]).current implies i == j by {
        if s[index].current {
            if i != 0 {
                assert(rest[i].current);
                assert(s[if i < index { i } else { i + 1 }].current);
            }
            if j != 0 {
                assert(rest[j].current);
                assert(s[if j < index { j } else { j + 1 }].current);
            }
        } else {
            assert(s[if i < index { i } else { i + 1 }].current);
            assert(s[if j < index { j } else { j + 1 }].current);
        }
    }
    if names_unique(s) {
        assert forall|i: int, j: int|
            0 <= i < after.len() && 0 <= j < after.len() && (#[trigger] after[i]).name == (
            #[trigger] after[j]).name implies i == j by {
            let si = if i < index { i } else { i + 1 };
            let sj = if j < index { j } else { j + 1 };
            assert(s[si].name == s[sj].name);
        }
    }
    if c < s.len() && s.len() > 1 {
        if s[index].current {
            lemma_first_current_is(after, 0);
        } else {
            let at = if c < index { c } else { c - 1 };
            assert(after[at] == s[c]);
            assert forall|i: int| 0 <= i < at implies !(#[trigger] after[i]).current by {
                if after[i].current {
                    assert(s[if i < index { i } else { i + 1 }].current);
                }
            }
            lemma_first_current_is(after, at);
        }
    }
}

} // verus!
