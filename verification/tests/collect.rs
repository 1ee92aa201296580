use gh_enterprise_repos::collect::{Archived, Filter, Forks, Visibility};
use gh_enterprise_repos::model::RepoNode;

fn filter(visibility: Visibility, archived: Archived, forks: Forks) -> Filter {
    Filter {
        visibility,
        archived,
        forks,
    }
}

fn repo(visibility: &str, archived: bool, fork: bool) -> RepoNode {
    RepoNode {
        name: "example".into(),
        name_with_owner: None,
        url: None,
        description: None,
        visibility: Some(visibility.into()),
        is_archived: Some(archived),
        is_fork: Some(fork),
        is_template: None,
        is_empty: None,
        stargazer_count: None,
        fork_count: None,
        created_at: None,
        updated_at: None,
        pushed_at: None,
        default_branch_ref: None,
        primary_language: None,
        license_info: None,
        repository_topics: None,
    }
}

#[test]
fn the_default_filter_is_public_and_unarchived() {
    let default = filter(Visibility::default(), Archived::default(), Forks::default());
    assert_eq!(default.visibility_arg(), Some("PUBLIC"));
    assert_eq!(default.is_archived_arg(), Some(false));
    assert_eq!(default.is_fork_arg(), None);

    assert!(default.keep(&repo("PUBLIC", false, false)));
    assert!(default.keep(&repo("PUBLIC", false, true)));
    assert!(!default.keep(&repo("PUBLIC", true, false)));
    assert!(!default.keep(&repo("PRIVATE", false, false)));
    assert!(!default.keep(&repo("INTERNAL", false, false)));
}

#[test]
fn all_visibility_sends_no_argument_and_keeps_everything() {
    let any = filter(Visibility::All, Archived::Include, Forks::Include);
    assert_eq!(any.visibility_arg(), None);
    assert_eq!(any.is_archived_arg(), None);
    assert!(any.keep(&repo("PRIVATE", true, true)));
    assert!(any.keep(&repo("PUBLIC", false, false)));
}

#[test]
fn only_variants_invert_the_filter() {
    let archived_only = filter(Visibility::All, Archived::Only, Forks::Include);
    assert_eq!(archived_only.is_archived_arg(), Some(true));
    assert!(archived_only.keep(&repo("PUBLIC", true, false)));
    assert!(!archived_only.keep(&repo("PUBLIC", false, false)));

    let forks_only = filter(Visibility::All, Archived::Include, Forks::Only);
    assert_eq!(forks_only.is_fork_arg(), Some(true));
    assert!(forks_only.keep(&repo("PUBLIC", false, true)));
    assert!(!forks_only.keep(&repo("PUBLIC", false, false)));

    let no_forks = filter(Visibility::All, Archived::Include, Forks::Exclude);
    assert_eq!(no_forks.is_fork_arg(), Some(false));
    assert!(!no_forks.keep(&repo("PUBLIC", false, true)));
}

#[test]
fn unreadable_fields_do_not_drop_a_repository() {
    let default = filter(Visibility::Public, Archived::Exclude, Forks::Include);
    let mut sparse = repo("PUBLIC", false, false);
    sparse.visibility = None;
    sparse.is_archived = None;
    sparse.is_fork = None;
    // Unknown visibility is kept; a null `isArchived` reads as not archived.
    assert!(default.keep(&sparse));
}

#[test]
fn filters_are_described_in_lowercase() {
    let described = filter(Visibility::Internal, Archived::Only, Forks::Exclude).describe();
    assert_eq!(described.visibility, "internal");
    assert_eq!(described.archived, "only");
    assert_eq!(described.forks, "exclude");
}
