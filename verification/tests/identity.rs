use forkstack::stack::identity::{
    add_identity, body_without_identity, identity_from_message, identity_trailer_value,
};
use forkstack::stack::names::{parse_owner_repo, valid_branch_name};

#[test]
fn parses_identity_and_removes_it_from_body() {
    let message = "subject\n\nbody\n\nfs-branch: draft/2\n";
    assert_eq!(
        identity_from_message(message).unwrap(),
        Some("draft/2".into())
    );
    assert_eq!(
        body_without_identity("body\n\nfs-branch: draft/2\n"),
        "body"
    );
}

#[test]
fn identity_trailers_require_one_non_whitespace_value() {
    for invalid in [
        "subject\n\nfs-branch:\n",
        "subject\n\nfs-branch:   \n",
        "subject\n\nfs-branch: two words\n",
        "subject\n\n fs-branch: draft/1\n",
    ] {
        assert_eq!(identity_from_message(invalid).unwrap(), None);
    }
    assert_eq!(
        body_without_identity("body\nfs-branch: two words\nfs-branch:\n"),
        "body\nfs-branch: two words\nfs-branch:"
    );
    assert_eq!(
        identity_from_message("fs-branch:\tvalid/1  ").unwrap(),
        Some("valid/1".into())
    );
    assert_eq!(
        body_without_identity("before\nfs-branch: valid/1\nafter\n"),
        "before\n\nafter"
    );
}

#[test]
fn two_different_identities_are_an_error() {
    let error = identity_from_message("subject\n\nfs-branch: a/1\nfs-branch: a/2\n").unwrap_err();
    assert!(error.contains("fs-branch"), "{error}");
}

#[test]
fn an_added_identity_is_found_and_added_once() {
    let message = "subject\n\nbody\n";
    let tagged = add_identity(message, "draft/7").unwrap();
    assert_eq!(
        identity_from_message(&tagged).unwrap(),
        Some("draft/7".into())
    );
    assert_eq!(add_identity(&tagged, "draft/7").unwrap(), tagged);
    let bare = add_identity("subject\n", "draft/7").unwrap();
    assert_eq!(
        identity_from_message(&bare).unwrap(),
        Some("draft/7".into())
    );
}

#[test]
fn a_body_without_an_identity_holds_none() {
    let body = body_without_identity("one\n\nfs-branch: x/1\n\ntwo\n");
    assert_eq!(identity_from_message(&body).unwrap(), None);
    assert_eq!(body_without_identity(&body), body);
}

#[test]
fn trailer_values_are_read_from_a_line() {
    assert_eq!(
        identity_trailer_value("fs-branch: topic/1"),
        Some("topic/1".into())
    );
    assert_eq!(identity_trailer_value("fs-branch topic/1"), None);
    assert_eq!(identity_trailer_value("Signed-off-by: someone"), None);
}

#[test]
fn in_process_branch_validation_matches_git() {
    let valid = ["draft/1", "topic", "a.b", "a@b", "a-b", "a_b", "@"];
    let invalid = [
        "",
        "-draft",
        "/draft",
        "draft/",
        "draft.",
        "draft..x",
        "draft@{x",
        "draft//x",
        ".draft",
        "draft/.x",
        "draft/x.lock",
        "draft lock",
        "draft~x",
        "draft^x",
        "draft:x",
        "draft?x",
        "draft*x",
        "draft[x",
        "draft\\x",
    ];
    for branch in valid {
        assert!(valid_branch_name(branch), "{branch}");
    }
    for branch in invalid {
        assert!(!valid_branch_name(branch), "{branch}");
    }
}

#[test]
fn owners_and_names_are_read_from_remote_urls() {
    for url in [
        "git@github.com:owner/repo.git",
        "https://github.com/owner/repo",
        "https://github.com/owner/repo.git",
        "ssh://git@github.com/owner/repo.git",
    ] {
        assert_eq!(parse_owner_repo(url), Some("owner/repo".into()), "{url}");
    }
    assert_eq!(parse_owner_repo("nowhere"), None);
}

#[test]
fn an_added_identity_is_taken_out_again() {
    for message in ["subject", "subject\n\nbody  \n", "", "a\r\nb"] {
        let tagged = add_identity(message, "draft/2").unwrap();
        assert_eq!(body_without_identity(&tagged), message.trim_end());
    }
}
