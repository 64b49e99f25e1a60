use gitswitch::profile::{Config, Profile, ProfileError};
use gitswitch::store::{
    edit_profile, name_taken, name_taken_by_other, remove_profile, setup_profile, switch_profile,
    Removal, Switch,
};

fn profile(name: &str, current: bool) -> Profile {
    Profile {
        name: name.to_string(),
        email: format!("{}@example.com", name.to_lowercase()),
        ssh_key: format!("/keys/{}", name.to_lowercase()),
        current,
    }
}

fn store(entries: &[(&str, bool)]) -> Config {
    Config { profiles: entries.iter().map(|(n, c)| profile(n, *c)).collect() }
}

fn flags(config: &Config) -> Vec<bool> {
    config.profiles.iter().map(|p| p.current).collect()
}

#[test]
fn switch_example_with_two_profiles() {
    let mut config = store(&[("A", true), ("B", false)]);
    assert_eq!(switch_profile(&mut config), Switch::To(1));
    assert_eq!(config, store(&[("A", false), ("B", true)]));
    assert_eq!(switch_profile(&mut config), Switch::To(0));
    assert_eq!(config, store(&[("A", true), ("B", false)]));
}

#[test]
fn switch_does_nothing_with_one_profile() {
    for current in [true, false] {
        let mut config = store(&[("A", current)]);
        assert_eq!(switch_profile(&mut config), Switch::OnlyOne);
        assert_eq!(config, store(&[("A", current)]));
    }
}

#[test]
fn switch_does_nothing_with_no_profile() {
    let mut config = store(&[]);
    assert_eq!(switch_profile(&mut config), Switch::NoProfiles);
    assert_eq!(config, store(&[]));
}

#[test]
fn switching_as_often_as_there_are_profiles_comes_back() {
    let start = store(&[("A", false), ("B", false), ("C", true), ("D", false)]);
    let mut config = store(&[("A", false), ("B", false), ("C", true), ("D", false)]);
    let mut visited = Vec::new();
    for _ in 0..4 {
        match switch_profile(&mut config) {
            Switch::To(i) => {
                assert_eq!(flags(&config).iter().filter(|c| **c).count(), 1);
                assert!(config.profiles[i].current);
                visited.push(i);
            }
            other => panic!("unexpected {:?}", other),
        }
    }
    assert_eq!(visited, vec![3, 0, 1, 2]);
    assert_eq!(config, start);
}

#[test]
fn switch_without_a_current_profile_takes_the_first() {
    let mut config = store(&[("A", false), ("B", false), ("C", false)]);
    assert_eq!(switch_profile(&mut config), Switch::To(0));
    assert_eq!(flags(&config), vec![true, false, false]);
}

#[test]
fn switch_goes_by_the_first_flagged_profile() {
    let mut config = store(&[("A", false), ("B", true), ("C", false), ("D", true)]);
    assert_eq!(switch_profile(&mut config), Switch::To(2));
    assert_eq!(flags(&config), vec![false, false, true, true]);
}

#[test]
fn switch_wraps_round_from_the_last() {
    let mut config = store(&[("A", false), ("B", false), ("C", true)]);
    assert_eq!(switch_profile(&mut config), Switch::To(0));
    assert_eq!(flags(&config), vec![true, false, false]);
}

#[test]
fn setup_fails_when_the_key_file_is_missing() {
    let mut config = store(&[("A", true)]);
    let result = setup_profile(&mut config, "B", "b@example.com", Some("/keys/b".to_string()), false);
    assert_eq!(result, Err(ProfileError::Validation));
    assert_eq!(config, store(&[("A", true)]));
}

#[test]
fn setup_fails_when_no_key_is_given() {
    let mut config = store(&[]);
    let result = setup_profile(&mut config, "B", "b@example.com", None, true);
    assert_eq!(result, Err(ProfileError::Validation));
    assert_eq!(config, store(&[]));
}

#[test]
fn setup_fails_on_a_blank_name() {
    let mut config = store(&[]);
    let result = setup_profile(&mut config, "  \n", "b@example.com", Some("/keys/b".to_string()), true);
    assert_eq!(result, Err(ProfileError::Validation));
    assert_eq!(config, store(&[]));
}

#[test]
fn setup_fails_on_a_name_that_is_taken() {
    let mut config = store(&[("A", true), ("B", false)]);
    let result = setup_profile(&mut config, " B \n", "x@example.com", Some("/keys/x".to_string()), true);
    assert_eq!(result, Err(ProfileError::Conflict));
    assert_eq!(config, store(&[("A", true), ("B", false)]));
}

#[test]
fn a_missing_key_is_reported_before_a_taken_name() {
    let mut config = store(&[("A", true)]);
    let result = setup_profile(&mut config, "A", "x@example.com", Some("/keys/x".to_string()), false);
    assert_eq!(result, Err(ProfileError::Validation));
}

#[test]
fn the_first_profile_becomes_current() {
    let mut config = store(&[]);
    let result = setup_profile(&mut config, "A\n", " a@example.com \n", Some("/keys/a".to_string()), true);
    assert_eq!(result, Ok(()));
    assert_eq!(config, store(&[("A", true)]));
}

#[test]
fn a_later_profile_becomes_the_only_current_one() {
    let mut config = store(&[("A", true), ("B", false)]);
    let result = setup_profile(&mut config, "C", "c@example.com", Some("/keys/c".to_string()), true);
    assert_eq!(result, Ok(()));
    assert_eq!(config, store(&[("A", false), ("B", false), ("C", true)]));
}

#[test]
fn names_differ_by_case() {
    let mut config = store(&[("A", true)]);
    let result = setup_profile(&mut config, "a", "a@example.com", Some("/keys/a".to_string()), true);
    assert_eq!(result, Ok(()));
    assert_eq!(config.profiles.len(), 2);
    assert!(name_taken(&config, &"a".to_string()));
    assert!(!name_taken(&config, &"b".to_string()));
}

#[test]
fn edit_rejects_a_position_outside_the_store() {
    let mut config = store(&[("A", true)]);
    let result = edit_profile(&mut config, 1, "X", "", None, false);
    assert_eq!(result, Err(ProfileError::Range));
    assert_eq!(config, store(&[("A", true)]));
}

#[test]
fn edit_rejects_a_key_whose_file_is_missing() {
    let mut config = store(&[("A", true)]);
    let result = edit_profile(&mut config, 0, "X", "x@example.com", Some("/nowhere".to_string()), false);
    assert_eq!(result, Err(ProfileError::Validation));
    assert_eq!(config, store(&[("A", true)]));
}

#[test]
fn edit_keeps_what_is_left_blank() {
    let mut config = store(&[("A", false), ("B", true)]);
    let result = edit_profile(&mut config, 1, "\n", "  new@example.com\n", None, false);
    assert_eq!(result, Ok(true));
    assert_eq!(config.profiles[0], profile("A", false));
    assert_eq!(
        config.profiles[1],
        Profile {
            name: "B".to_string(),
            email: "new@example.com".to_string(),
            ssh_key: "/keys/b".to_string(),
            current: true,
        }
    );
}

#[test]
fn edit_replaces_every_field_that_is_given() {
    let mut config = store(&[("A", false), ("B", true)]);
    let result = edit_profile(&mut config, 0, " Z ", "z@example.com", Some("/keys/z".to_string()), true);
    assert_eq!(result, Ok(false));
    assert_eq!(
        config.profiles[0],
        Profile {
            name: "Z".to_string(),
            email: "z@example.com".to_string(),
            ssh_key: "/keys/z".to_string(),
            current: false,
        }
    );
    assert_eq!(config.profiles[1], profile("B", true));
}

#[test]
fn remove_needs_both_confirmations() {
    let answers = [
        ("n", "y"),
        ("y", "n"),
        ("", ""),
        ("yes", ""),
        ("y", "yess"),
        ("ok", "yes"),
        ("Y", "no"),
    ];
    for (first, second) in answers {
        let mut config = store(&[("A", true), ("B", false)]);
        let result = remove_profile(&mut config, 0, first, second);
        assert_eq!(result, Ok(Removal::Aborted), "{:?} {:?}", first, second);
        assert_eq!(config, store(&[("A", true), ("B", false)]));
    }
}

#[test]
fn remove_accepts_y_and_yes_in_any_case() {
    let answers = [("y", "y"), ("Y\n", " yes "), ("YES", "Yes"), ("yEs\r\n", "y")];
    for (first, second) in answers {
        let mut config = store(&[("A", false), ("B", true)]);
        let result = remove_profile(&mut config, 0, first, second);
        assert_eq!(result, Ok(Removal::Removed { promoted: false }), "{:?} {:?}", first, second);
        assert_eq!(config, store(&[("B", true)]));
    }
}

#[test]
fn remove_rejects_a_position_outside_the_store() {
    let mut config = store(&[("A", true)]);
    assert_eq!(remove_profile(&mut config, 1, "y", "y"), Err(ProfileError::Range));
    assert_eq!(remove_profile(&mut config, 7, "n", "n"), Err(ProfileError::Range));
    assert_eq!(config, store(&[("A", true)]));
}

#[test]
fn removing_the_current_profile_promotes_the_first_that_remains() {
    let mut config = store(&[("A", false), ("B", true), ("C", false)]);
    let result = remove_profile(&mut config, 1, "y", "yes");
    assert_eq!(result, Ok(Removal::Removed { promoted: true }));
    assert_eq!(config, store(&[("A", true), ("C", false)]));
}

#[test]
fn removing_the_first_and_current_profile_promotes_the_next() {
    let mut config = store(&[("A", true), ("B", false), ("C", false)]);
    let result = remove_profile(&mut config, 0, "y", "y");
    assert_eq!(result, Ok(Removal::Removed { promoted: true }));
    assert_eq!(config, store(&[("B", true), ("C", false)]));
}

#[test]
fn removing_the_last_profile_leaves_an_empty_store() {
    let mut config = store(&[("A", true)]);
    let result = remove_profile(&mut config, 0, "y", "y");
    assert_eq!(result, Ok(Removal::Removed { promoted: false }));
    assert_eq!(config, store(&[]));
}

#[test]
fn removal_keeps_the_order_of_the_rest() {
    let mut config = store(&[("A", false), ("B", false), ("C", true), ("D", false)]);
    let result = remove_profile(&mut config, 1, "y", "y");
    assert_eq!(result, Ok(Removal::Removed { promoted: false }));
    assert_eq!(config, store(&[("A", false), ("C", true), ("D", false)]));
}

#[test]
fn a_profile_clones_field_for_field() {
    let p = profile("A", true);
    assert_eq!(p.clone(), p);
}

#[test]
fn a_new_store_is_empty() {
    assert_eq!(Config::new(), store(&[]));
}

#[test]
fn edit_rejects_the_name_of_another_profile() {
    let mut config = store(&[("A", true), ("B", false), ("C", false)]);
    let result = edit_profile(&mut config, 2, " A \n", "new@example.com", None, false);
    assert_eq!(result, Err(ProfileError::Conflict));
    assert_eq!(config, store(&[("A", true), ("B", false), ("C", false)]));
    let result = edit_profile(&mut config, 0, "B", "", Some("/keys/x".to_string()), true);
    assert_eq!(result, Err(ProfileError::Conflict));
    assert_eq!(config, store(&[("A", true), ("B", false), ("C", false)]));
}

#[test]
fn edit_accepts_the_profiles_own_name() {
    let mut config = store(&[("A", true), ("B", false)]);
    let result = edit_profile(&mut config, 1, "B", "other@example.com", None, false);
    assert_eq!(result, Ok(false));
    assert_eq!(config.profiles[1].name, "B");
    assert_eq!(config.profiles[1].email, "other@example.com");
    assert_eq!(config.profiles[0], profile("A", true));
}

#[test]
fn edit_accepts_a_name_that_differs_by_case() {
    let mut config = store(&[("A", true), ("B", false)]);
    let result = edit_profile(&mut config, 1, "a", "", None, false);
    assert_eq!(result, Ok(false));
    assert_eq!(config.profiles[1].name, "a");
}

#[test]
fn a_missing_key_is_reported_before_a_taken_name_in_edit() {
    let mut config = store(&[("A", true), ("B", false)]);
    let result = edit_profile(&mut config, 1, "A", "", Some("/nowhere".to_string()), false);
    assert_eq!(result, Err(ProfileError::Validation));
    let result = edit_profile(&mut config, 5, "A", "", Some("/nowhere".to_string()), false);
    assert_eq!(result, Err(ProfileError::Range));
    assert_eq!(config, store(&[("A", true), ("B", false)]));
}

#[test]
fn a_kept_name_that_another_profile_shares_is_a_conflict() {
    let mut config = store(&[("A", true), ("A", false)]);
    let result = edit_profile(&mut config, 1, "", "new@example.com", None, false);
    assert_eq!(result, Err(ProfileError::Conflict));
    assert_eq!(config, store(&[("A", true), ("A", false)]));
    let result = edit_profile(&mut config, 1, "B", "", None, false);
    assert_eq!(result, Ok(false));
    assert_eq!(config.profiles[1].name, "B");
}

#[test]
fn a_name_is_taken_by_another_profile_only() {
    let config = store(&[("A", true), ("B", false)]);
    assert!(name_taken_by_other(&config, 0, &"B".to_string()));
    assert!(!name_taken_by_other(&config, 1, &"B".to_string()));
    assert!(!name_taken_by_other(&config, 0, &"C".to_string()));
    assert!(name_taken_by_other(&config, 7, &"A".to_string()));
}
