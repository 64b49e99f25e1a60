use gitswitch::profile::Profile;
use gitswitch::ssh::{patch_lines, update_ssh_config};

fn profile(key: &str) -> Profile {
    Profile {
        name: "Work".to_string(),
        email: "work@example.com".to_string(),
        ssh_key: key.to_string(),
        current: true,
    }
}

fn strings(items: &[&str]) -> Vec<String> {
    items.iter().map(|s| s.to_string()).collect()
}

#[test]
fn empty_config_gets_exactly_one_block() {
    let out = update_ssh_config("", &profile("/home/u/.ssh/id_a"));
    assert_eq!(
        out,
        "Host github.com\n    HostName github.com\n    User git\n    IdentityFile /home/u/.ssh/id_a"
    );
}

#[test]
fn identity_file_of_the_github_block_is_replaced() {
    let before = "Host github.com\n    HostName github.com\n    User git\n    IdentityFile /old/key\n";
    let out = update_ssh_config(before, &profile("/new/key"));
    assert_eq!(
        out,
        "Host github.com\n    HostName github.com\n    User git\n    IdentityFile /new/key"
    );
}

#[test]
fn other_blocks_and_lines_are_left_alone() {
    let before = "# my hosts\nHost example.org\n  IdentityFile ~/.ssh/example\n\nHost github.com\n\tUser git\n\tIdentityFile ~/.ssh/old\nHost gitlab.com\n  IdentityFile ~/.ssh/gitlab\n";
    let out = update_ssh_config(before, &profile("/k"));
    assert_eq!(
        out,
        "# my hosts\nHost example.org\n  IdentityFile ~/.ssh/example\n\nHost github.com\n\tUser git\n    IdentityFile /k\nHost gitlab.com\n  IdentityFile ~/.ssh/gitlab"
    );
}

#[test]
fn a_host_line_that_mentions_github_among_others_opens_the_block() {
    let before = "Host github.com gitlab.com\n  IdentityFile old";
    let out = update_ssh_config(before, &profile("/k"));
    assert_eq!(out, "Host github.com gitlab.com\n    IdentityFile /k");
}

#[test]
fn host_matching_is_by_substring() {
    let before = "Host my.github.com.example\n  IdentityFile old";
    let out = update_ssh_config(before, &profile("/k"));
    assert_eq!(out, "Host my.github.com.example\n    IdentityFile /k");
}

#[test]
fn every_identity_file_line_in_the_block_is_rewritten() {
    let before = "Host github.com\n  IdentityFile a\n  IdentityFile b\n  User git";
    let out = update_ssh_config(before, &profile("/k"));
    assert_eq!(
        out,
        "Host github.com\n    IdentityFile /k\n    IdentityFile /k\n  User git"
    );
}

#[test]
fn a_line_that_only_mentions_identity_file_is_rewritten_too() {
    let before = "Host github.com\n  # IdentityFile was here";
    let out = update_ssh_config(before, &profile("/k"));
    assert_eq!(out, "Host github.com\n    IdentityFile /k");
}

#[test]
fn a_block_without_identity_file_gets_a_new_block_at_the_end() {
    let before = "Host github.com\n  User git";
    let out = update_ssh_config(before, &profile("/k"));
    assert_eq!(
        out,
        "Host github.com\n  User git\n\nHost github.com\n    HostName github.com\n    User git\n    IdentityFile /k"
    );
}

#[test]
fn no_separator_after_a_blank_last_line() {
    let before = "Host example.org\n  User me\n\n";
    let out = update_ssh_config(before, &profile("/k"));
    assert_eq!(
        out,
        "Host example.org\n  User me\n\nHost github.com\n    HostName github.com\n    User git\n    IdentityFile /k"
    );
}

#[test]
fn separator_after_a_last_line_that_only_ends_in_a_line_feed() {
    let before = "Host example.org\n  User me\n";
    let out = update_ssh_config(before, &profile("/k"));
    assert_eq!(
        out,
        "Host example.org\n  User me\n\nHost github.com\n    HostName github.com\n    User git\n    IdentityFile /k"
    );
}

#[test]
fn a_last_line_of_spaces_counts_as_not_empty() {
    let before = "Host example.org\n   ";
    let out = update_ssh_config(before, &profile("/k"));
    assert_eq!(
        out,
        "Host example.org\n   \n\nHost github.com\n    HostName github.com\n    User git\n    IdentityFile /k"
    );
}

#[test]
fn identity_file_outside_any_github_block_is_not_touched() {
    let before = "IdentityFile ~/.ssh/default\nHost other\n  IdentityFile ~/.ssh/other";
    let out = update_ssh_config(before, &profile("/k"));
    assert_eq!(
        out,
        "IdentityFile ~/.ssh/default\nHost other\n  IdentityFile ~/.ssh/other\n\nHost github.com\n    HostName github.com\n    User git\n    IdentityFile /k"
    );
}

#[test]
fn another_host_line_closes_the_block() {
    let before = "Host github.com\nHost other\n  IdentityFile ~/.ssh/other";
    let out = update_ssh_config(before, &profile("/k"));
    assert_eq!(
        out,
        "Host github.com\nHost other\n  IdentityFile ~/.ssh/other\n\nHost github.com\n    HostName github.com\n    User git\n    IdentityFile /k"
    );
}

#[test]
fn host_needs_a_name_after_it() {
    let before = "Host\n  IdentityFile x\nHostName github.com\n  IdentityFile y";
    let out = update_ssh_config(before, &profile("/k"));
    assert_eq!(
        out,
        "Host\n  IdentityFile x\nHostName github.com\n  IdentityFile y\n\nHost github.com\n    HostName github.com\n    User git\n    IdentityFile /k"
    );
}

#[test]
fn indented_host_lines_count() {
    let before = "   Host github.com   \n IdentityFile x";
    let out = update_ssh_config(before, &profile("/k"));
    assert_eq!(out, "   Host github.com   \n    IdentityFile /k");
}

#[test]
fn carriage_returns_before_line_feeds_are_dropped() {
    let before = "Host github.com\r\n  IdentityFile old\r\n  User git\r\n";
    let out = update_ssh_config(before, &profile("/k"));
    assert_eq!(out, "Host github.com\n    IdentityFile /k\n  User git");
}

#[test]
fn patching_twice_is_patching_once() {
    let samples = [
        "",
        "Host github.com\n  IdentityFile old\n",
        "Host github.com\n  User git\n",
        "Host a\n  IdentityFile x\n\nHost github.com gitlab.com\n  IdentityFile y\n  IdentityFile z\nHost b\n",
        "# nothing here",
    ];
    for before in samples {
        let once = update_ssh_config(before, &profile("/home/u/.ssh/id_a"));
        let twice = update_ssh_config(&once, &profile("/home/u/.ssh/id_a"));
        assert_eq!(twice, once, "{:?}", before);
    }
}

#[test]
fn a_trailing_blank_line_is_lost_on_the_second_patch() {
    let before = "Host github.com\n  IdentityFile old\n\n";
    let once = update_ssh_config(before, &profile("/k"));
    assert_eq!(once, "Host github.com\n    IdentityFile /k\n");
    let twice = update_ssh_config(&once, &profile("/k"));
    assert_eq!(twice, "Host github.com\n    IdentityFile /k");
}

#[test]
fn patch_lines_rewrites_in_place() {
    let lines = strings(&["Host github.com", "  IdentityFile old", "", "Host x"]);
    assert_eq!(
        patch_lines(&lines, "/k"),
        strings(&["Host github.com", "    IdentityFile /k", "", "Host x"])
    );
}

#[test]
fn patch_lines_appends_a_block() {
    assert_eq!(
        patch_lines(&strings(&[]), "/k"),
        strings(&[
            "Host github.com",
            "    HostName github.com",
            "    User git",
            "    IdentityFile /k"
        ])
    );
    assert_eq!(
        patch_lines(&strings(&["Host x"]), "/k"),
        strings(&[
            "Host x",
            "",
            "Host github.com",
            "    HostName github.com",
            "    User git",
            "    IdentityFile /k"
        ])
    );
    assert_eq!(
        patch_lines(&strings(&["Host x", ""]), "/k"),
        strings(&[
            "Host x",
            "",
            "Host github.com",
            "    HostName github.com",
            "    User git",
            "    IdentityFile /k"
        ])
    );
}

#[test]
fn patch_lines_is_idempotent_even_on_odd_lines() {
    let lines = strings(&["Host github.com\r", "IdentityFile a\nHost b", ""]);
    let once = patch_lines(&lines, "k\n");
    let twice = patch_lines(&once, "k\n");
    assert_eq!(twice, once);
}

#[test]
fn the_key_is_written_as_given() {
    let out = update_ssh_config("", &profile("  ~/my keys/id  "));
    assert_eq!(
        out,
        "Host github.com\n    HostName github.com\n    User git\n    IdentityFile   ~/my keys/id  "
    );
}

#[test]
fn a_carriage_return_on_a_line_that_stays_is_lost_on_the_second_patch() {
    let before = "Host github.com\r\r\n  IdentityFile old\nHost other";
    let once = update_ssh_config(before, &profile("/k"));
    assert_eq!(once, "Host github.com\r\n    IdentityFile /k\nHost other");
    let twice = update_ssh_config(&once, &profile("/k"));
    assert_eq!(twice, "Host github.com\n    IdentityFile /k\nHost other");
}

#[test]
fn a_key_that_ends_in_a_carriage_return_is_restored_by_the_second_patch() {
    let before = "Host github.com\n  IdentityFile old\nHost other";
    let once = update_ssh_config(before, &profile("/k\r"));
    assert_eq!(once, "Host github.com\n    IdentityFile /k\r\nHost other");
    let twice = update_ssh_config(&once, &profile("/k\r"));
    assert_eq!(twice, once);
}
