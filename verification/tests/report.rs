use gh_enterprise_repos::args::Args;
use gh_enterprise_repos::collect::{Archived, Forks, OrgSnapshot, Visibility};
use gh_enterprise_repos::model::{
    is_false, LicenseNode, NamedNode, RefNode, RepoNode, Report, RepositoryTopic, TopicConnection,
};
use gh_enterprise_repos::report::{build_report, repository, text};

/// The arguments of a run on the enterprise `example`, with the filters given as on a command line.
fn args(extra: &[&str]) -> Args {
    let mut args = Args {
        enterprise: vec!["example".to_string()],
        output: None,
        visibility: Visibility::Public,
        archived: Archived::Exclude,
        forks: Forks::Include,
        topics: false,
        api_url: None,
        hostname: None,
        concurrency: 3,
        max_retries: 5,
        batch_size: 100,
    };
    for pair in extra.chunks(2) {
        match (pair[0], pair[1]) {
            ("--visibility", "all") => args.visibility = Visibility::All,
            ("--archived", "include") => args.archived = Archived::Include,
            ("--forks", "exclude") => args.forks = Forks::Exclude,
            other => panic!("unexpected arguments {:?}", other),
        }
    }
    args
}

fn repo_node(name: &str) -> RepoNode {
    RepoNode {
        name: name.to_string(),
        name_with_owner: Some(format!("acme/{name}")),
        url: Some(format!("https://github.com/acme/{name}")),
        description: Some(format!("the {name} repository")),
        visibility: Some("PUBLIC".into()),
        is_archived: Some(false),
        is_fork: Some(false),
        is_template: Some(false),
        is_empty: Some(false),
        stargazer_count: Some(7),
        fork_count: Some(2),
        created_at: Some("2020-01-01T00:00:00Z".into()),
        updated_at: Some("2026-01-01T00:00:00Z".into()),
        pushed_at: Some("2026-01-02T00:00:00Z".into()),
        default_branch_ref: Some(RefNode {
            name: "main".into(),
        }),
        primary_language: Some(NamedNode {
            name: "Rust".into(),
        }),
        license_info: Some(LicenseNode {
            spdx_id: Some("Apache-2.0".into()),
            name: Some("Apache License 2.0".into()),
        }),
        repository_topics: None,
    }
}

fn snapshot(login: &str, repos: Vec<RepoNode>) -> OrgSnapshot {
    OrgSnapshot {
        login: login.to_string(),
        repositories: repos,
    }
}

fn report(snapshots: Vec<OrgSnapshot>) -> Report {
    build_report(
        &args(&[]),
        "https://api.github.com/graphql",
        "example",
        snapshots,
        Vec::new(),
    )
}

fn topic(name: &str) -> Option<RepositoryTopic> {
    Some(RepositoryTopic {
        topic: Some(NamedNode { name: name.into() }),
    })
}

#[test]
fn repositories_are_ordered_by_org_then_name_case_insensitively() {
    let report = report(vec![
        snapshot("Zulu", vec![repo_node("beta"), repo_node("Alpha")]),
        snapshot("alpha", vec![repo_node("zeta")]),
    ]);
    let listed: Vec<String> = report
        .repositories
        .iter()
        .map(|r| format!("{}/{}", r.org, r.name))
        .collect();
    assert_eq!(listed, ["alpha/zeta", "Zulu/Alpha", "Zulu/beta"]);
    assert_eq!(report.organizations, ["alpha", "Zulu"]);
    assert_eq!(report.totals.repositories, 3);
    assert_eq!(report.totals.organizations, 2);
}

#[test]
fn an_org_with_no_repositories_is_still_listed() {
    let report = report(vec![snapshot("empty-org", vec![])]);
    assert_eq!(report.organizations, ["empty-org"]);
    assert!(report.repositories.is_empty());
}

#[test]
fn an_unreadable_org_is_listed_and_flagged() {
    let report = build_report(
        &args(&[]),
        "https://api.github.com/graphql",
        "example",
        vec![snapshot("readable", vec![repo_node("one")])],
        vec!["locked-down".into()],
    );
    assert_eq!(report.organizations, ["locked-down", "readable"]);
    assert_eq!(
        report.organizations_without_repository_data,
        ["locked-down"]
    );
    assert_eq!(report.totals.organizations, 2);
    assert_eq!(report.totals.repositories, 1);
}

#[test]
fn topics_are_sorted_and_absent_when_not_requested() {
    let mut with_topics = repo_node("one");
    with_topics.repository_topics = Some(TopicConnection {
        nodes: vec![
            Some(RepositoryTopic {
                topic: Some(NamedNode {
                    name: "rust".into(),
                }),
            }),
            Some(RepositoryTopic {
                topic: Some(NamedNode {
                    name: "Cryptography".into(),
                }),
            }),
            Some(RepositoryTopic { topic: None }),
        ],
    });
    let report = report(vec![snapshot("acme", vec![with_topics, repo_node("two")])]);
    assert_eq!(report.repositories[0].topics, ["Cryptography", "rust"]);
    assert!(report.repositories[1].topics.is_empty());
}

#[test]
fn unmappable_licenses_fall_back_to_the_license_name() {
    let mut other = repo_node("one");
    other.license_info = Some(LicenseNode {
        spdx_id: Some("NOASSERTION".into()),
        name: Some("Other".into()),
    });
    let report = report(vec![snapshot("acme", vec![other])]);
    assert_eq!(report.repositories[0].license.as_deref(), Some("Other"));
}

#[test]
fn blank_and_missing_fields_are_omitted() {
    let mut sparse = repo_node("one");
    sparse.description = Some("   ".into());
    sparse.url = None;
    sparse.default_branch_ref = None;
    sparse.license_info = None;
    sparse.primary_language = None;
    let report = report(vec![snapshot("acme", vec![sparse])]);

    let repo = &report.repositories[0];
    assert_eq!(repo.description, None);
    assert_eq!(repo.url, None);
    assert_eq!(repo.default_branch, None);
    assert_eq!(repo.license, None);
    assert_eq!(repo.language, None);
}

#[test]
fn the_filter_the_run_used_is_recorded() {
    let report = build_report(
        &args(&[
            "--visibility",
            "all",
            "--archived",
            "include",
            "--forks",
            "exclude",
        ]),
        "https://api.github.com/graphql",
        "example",
        vec![snapshot("acme", vec![repo_node("one")])],
        Vec::new(),
    );
    assert_eq!(report.source.filters.visibility, "all");
    assert_eq!(report.source.filters.archived, "include");
    assert_eq!(report.source.filters.forks, "exclude");
    assert_eq!(report.source.enterprise, "example");
}

#[test]
fn yaml_round_trips_to_the_documented_shape() {
    let report = report(vec![snapshot("acme", vec![repo_node("one")])]);
    let yaml = report.to_yaml();
    let parsed: serde_yaml_ng::Value = serde_yaml_ng::from_str(&yaml).expect("parses");

    assert_eq!(parsed["source"]["enterprise"].as_str(), Some("example"));
    assert_eq!(
        parsed["source"]["filters"]["visibility"].as_str(),
        Some("public")
    );
    let repo = &parsed["repositories"][0];
    assert_eq!(repo["org"].as_str(), Some("acme"));
    assert_eq!(repo["name"].as_str(), Some("one"));
    assert_eq!(repo["full_name"].as_str(), Some("acme/one"));
    assert_eq!(repo["archived"].as_bool(), Some(false));
    assert_eq!(repo["license"].as_str(), Some("Apache-2.0"));
    assert_eq!(repo["default_branch"].as_str(), Some("main"));
    // False flags and empty lists are absent, not null.
    assert!(repo.get("template").is_none());
    assert!(repo.get("topics").is_none());
    assert!(
        parsed
            .get("organizations_without_repository_data")
            .is_none()
    );
}

#[test]
fn a_report_is_written_field_by_field() {
    let mut one = repo_node("one");
    one.is_template = Some(true);
    one.is_empty = Some(true);
    one.repository_topics = Some(TopicConnection {
        nodes: vec![topic("yaml"), None, topic("Go")],
    });
    let mut bare = repo_node("two");
    bare.name_with_owner = None;
    bare.url = None;
    bare.description = None;
    bare.visibility = None;
    bare.is_archived = None;
    bare.is_fork = None;
    bare.is_template = None;
    bare.is_empty = None;
    bare.stargazer_count = None;
    bare.fork_count = None;
    bare.created_at = None;
    bare.updated_at = None;
    bare.pushed_at = None;
    bare.default_branch_ref = None;
    bare.primary_language = None;
    bare.license_info = None;
    let report = build_report(
        &args(&[]),
        "https://api.github.com/graphql",
        "example",
        vec![snapshot("acme", vec![bare, one])],
        vec!["locked".into()],
    );
    assert_eq!(
        report.to_yaml(),
        "source:
  api_url: https://api.github.com/graphql
  enterprise: example
  filters:
    visibility: public
    archived: exclude
    forks: include
organizations:
  - acme
  - locked
organizations_without_repository_data:
  - locked
totals:
  organizations: 2
  repositories: 2
repositories:
  - org: acme
    name: one
    full_name: acme/one
    url: https://github.com/acme/one
    description: the one repository
    visibility: PUBLIC
    archived: false
    fork: false
    template: true
    empty: true
    default_branch: main
    language: Rust
    license: Apache-2.0
    stars: 7
    forks: 2
    topics:
      - Go
      - yaml
    created_at: 2020-01-01T00:00:00Z
    updated_at: 2026-01-01T00:00:00Z
    pushed_at: 2026-01-02T00:00:00Z
  - org: acme
    name: two
    archived: false
    fork: false
"
    );
}

#[test]
fn a_report_without_repositories_has_an_empty_list() {
    let report = report(vec![snapshot("empty-org", vec![])]);
    assert!(report
        .to_yaml()
        .ends_with("totals:\n  organizations: 1\n  repositories: 0\nrepositories: []\n"));
}

#[test]
fn topics_that_differ_in_case_alone_keep_their_order() {
    let mut node = repo_node("one");
    node.repository_topics = Some(TopicConnection {
        nodes: vec![
            topic("b"),
            topic("B"),
            topic("a"),
            topic("b"),
            topic("a"),
            None,
        ],
    });
    // Only neighbours that are equal are dropped.
    assert_eq!(repository("acme", node).topics, ["a", "b", "B", "b"]);
}

#[test]
fn a_license_has_its_id_or_else_its_name() {
    let licensed = |spdx_id: Option<&str>, name: Option<&str>| {
        let mut node = repo_node("one");
        node.license_info = Some(LicenseNode {
            spdx_id: spdx_id.map(str::to_string),
            name: name.map(str::to_string),
        });
        repository("acme", node).license
    };
    assert_eq!(licensed(Some("MIT"), Some("MIT License")).as_deref(), Some("MIT"));
    assert_eq!(licensed(None, Some("Custom")).as_deref(), Some("Custom"));
    assert_eq!(licensed(Some("NOASSERTION"), None), None);
    assert_eq!(licensed(None, None), None);
    // An empty id is an id.
    assert_eq!(licensed(Some(""), Some("Custom")).as_deref(), Some(""));
}

#[test]
fn texts_are_trimmed_and_blank_ones_dropped() {
    assert_eq!(text(None), None);
    assert_eq!(text(Some("".into())), None);
    assert_eq!(text(Some(" \t\u{a0}\n".into())), None);
    assert_eq!(
        text(Some("\u{2003} kept as is \n".into())).as_deref(),
        Some("kept as is")
    );
    let mut node = repo_node(" spaced ");
    node.default_branch_ref = Some(RefNode { name: " main ".into() });
    let listed = repository(" acme ", node);
    assert_eq!(listed.name, " spaced ");
    assert_eq!(listed.org, " acme ");
    assert_eq!(listed.default_branch.as_deref(), Some(" main "));
    assert_eq!(listed.full_name.as_deref(), Some("acme/ spaced"));
}

#[test]
fn flags_that_could_not_be_read_are_not_set() {
    let mut node = repo_node("one");
    node.is_archived = None;
    node.is_fork = Some(true);
    node.is_template = None;
    node.is_empty = None;
    let listed = repository("acme", node);
    assert!(!listed.archived && listed.fork && !listed.template && !listed.empty);
    assert!(is_false(&listed.archived));
    assert!(!is_false(&listed.fork));
}

#[test]
fn the_order_of_arrival_does_not_show() {
    let first = report(vec![
        snapshot("b", vec![repo_node("x"), repo_node("X")]),
        snapshot("A", vec![repo_node("y")]),
        snapshot("c", vec![]),
    ]);
    let second = report(vec![
        snapshot("c", vec![]),
        snapshot("A", vec![repo_node("y")]),
        snapshot("b", vec![repo_node("x"), repo_node("X")]),
    ]);
    assert_eq!(first.to_yaml(), second.to_yaml());
    assert_eq!(first.organizations, ["A", "b", "c"]);
    assert_eq!(first.repositories[1].name, "x");
    assert_eq!(first.repositories[2].name, "X");
}

#[test]
fn case_is_folded_beyond_ascii() {
    let report = report(vec![
        snapshot("éclair", vec![]),
        snapshot("ÉCLAIR-a", vec![]),
        snapshot("Éclair", vec![]),
        snapshot("zulu", vec![]),
    ]);
    assert_eq!(
        report.organizations,
        ["zulu", "éclair", "Éclair", "ÉCLAIR-a"]
    );
}

#[test]
fn a_written_report_reads_back() {
    let mut node = repo_node("true");
    node.description = Some("ends with: \u{1F314} 'quoted' # not\na comment:".into());
    node.default_branch_ref = Some(RefNode { name: "1e5".into() });
    let report = report(vec![snapshot("0755", vec![node])]);
    let parsed: serde_yaml_ng::Value =
        serde_yaml_ng::from_str(&report.to_yaml()).expect("parses");
    let repo = &parsed["repositories"][0];
    assert_eq!(repo["org"].as_str(), Some("0755"));
    assert_eq!(repo["name"].as_str(), Some("true"));
    assert_eq!(repo["default_branch"].as_str(), Some("1e5"));
    assert_eq!(
        repo["description"].as_str(),
        Some("ends with: \u{1F314} 'quoted' # not\na comment:")
    );
    assert_eq!(parsed["totals"]["repositories"].as_u64(), Some(1));
}
