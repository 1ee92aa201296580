use gh_enterprise_repos::collect::{
    Archived, Argument, Collector, Filter, Forks, OrgListing, OrgSnapshot, RepoListing, Request,
    Step, Visibility, AUTHENTICATING, ENTERPRISE_ORGS, ORG_REPOS, VIEWER,
};
use gh_enterprise_repos::model::{
    EnterpriseNode, EnterpriseOrgsData, OrgConnection, OrgNode, OrgReposData, OrgReposNode,
    PageInfo, RepoConnection, RepoNode, ViewerData, ViewerNode,
};

fn collector(batch_size: u32) -> Collector {
    Collector::new(
        Filter {
            visibility: Visibility::Public,
            archived: Archived::Exclude,
            forks: Forks::Include,
        },
        true,
        batch_size,
    )
}

fn page(has_next_page: bool, end_cursor: Option<&str>) -> PageInfo {
    PageInfo {
        has_next_page,
        end_cursor: end_cursor.map(str::to_string),
    }
}

fn orgs(logins: &[Option<&str>], page_info: PageInfo) -> EnterpriseOrgsData {
    EnterpriseOrgsData {
        enterprise: Some(EnterpriseNode {
            organizations: OrgConnection {
                page_info,
                nodes: logins
                    .iter()
                    .map(|l| l.map(|l| OrgNode { login: l.to_string() }))
                    .collect(),
            },
        }),
    }
}

fn repo(name: &str, visibility: &str) -> Option<RepoNode> {
    Some(RepoNode {
        name: name.to_string(),
        name_with_owner: None,
        url: None,
        description: None,
        visibility: Some(visibility.to_string()),
        is_archived: None,
        is_fork: None,
        is_template: None,
        is_empty: None,
        stargazer_count: None,
        fork_count: None,
        created_at: None,
        updated_at: None,
        pushed_at: None,
        default_branch_ref: None,
        primary_language: None,
        license_info: None,
        repository_topics: None,
    })
}

fn repos(nodes: Vec<Option<RepoNode>>, page_info: PageInfo) -> OrgReposData {
    OrgReposData {
        organization: Some(OrgReposNode {
            repositories: RepoConnection { page_info, nodes },
        }),
    }
}

fn shown(request: &Request) -> Vec<String> {
    request
        .variables
        .iter()
        .map(|(name, argument)| match argument {
            Argument::Null => format!("{name}=null"),
            Argument::Flag(b) => format!("{name}={b}"),
            Argument::Number(n) => format!("{name}={n}"),
            Argument::Text(s) => format!("{name}={s:?}"),
        })
        .collect()
}

fn more(step: Step<OrgListing, Vec<String>>) -> OrgListing {
    match step {
        Step::More(listing) => listing,
        Step::Done(logins) => panic!("done with {logins:?}"),
    }
}

fn done(step: Step<OrgListing, Vec<String>>) -> Vec<String> {
    match step {
        Step::More(listing) => panic!("more of {listing:?}"),
        Step::Done(logins) => logins,
    }
}

fn more_repos(step: Step<RepoListing, OrgSnapshot>) -> RepoListing {
    match step {
        Step::More(listing) => listing,
        Step::Done(snapshot) => panic!("done with {snapshot:?}"),
    }
}

fn names(step: Step<RepoListing, OrgSnapshot>) -> (String, Vec<String>) {
    match step {
        Step::More(listing) => panic!("more of {listing:?}"),
        Step::Done(snapshot) => (
            snapshot.login,
            snapshot.repositories.into_iter().map(|r| r.name).collect(),
        ),
    }
}

#[test]
fn the_viewer_is_asked_for_first() {
    let request = collector(100).viewer();
    assert_eq!(request.query, VIEWER);
    assert_eq!(VIEWER, "query { viewer { login } }");
    assert!(request.variables.is_empty());
    let data = ViewerData {
        viewer: ViewerNode { login: "octocat".to_string() },
    };
    assert_eq!(collector(100).viewer_login(data), "octocat");
    assert_eq!(AUTHENTICATING, "could not authenticate to the GraphQL endpoint");
}

#[test]
fn organizations_are_listed_page_by_page() {
    let listing = collector(2).enterprise_orgs("acme");
    assert_eq!(
        listing.activity(),
        "listing organizations in enterprise `acme`"
    );
    let request = listing.request();
    assert_eq!(request.query, ENTERPRISE_ORGS);
    assert_eq!(shown(&request), ["slug=\"acme\"", "cursor=null", "batchSize=2"]);

    let answer = orgs(&[Some("b"), None], page(true, Some("c1")));
    let listing = more(listing.accept(answer).expect("visible"));
    assert_eq!(
        shown(&listing.request()),
        ["slug=\"acme\"", "cursor=\"c1\"", "batchSize=2"]
    );
    let listing = more(
        listing
            .accept(orgs(&[], page(true, Some("c2"))))
            .expect("visible"),
    );
    assert_eq!(shown(&listing.request())[1], "cursor=\"c2\"");
    let logins = done(
        listing
            .accept(orgs(&[Some("a")], page(false, Some("c3"))))
            .expect("visible"),
    );
    assert_eq!(logins, ["b", "a"]);
}

#[test]
fn a_next_page_without_a_cursor_is_the_end() {
    let listing = collector(100).enterprise_orgs("acme");
    let logins = done(
        listing
            .accept(orgs(&[Some("a")], page(true, None)))
            .expect("visible"),
    );
    assert_eq!(logins, ["a"]);
}

#[test]
fn an_invisible_enterprise_is_an_error() {
    let listing = collector(100).enterprise_orgs("acme");
    let error = listing
        .accept(EnterpriseOrgsData { enterprise: None })
        .err()
        .expect("invisible");
    assert_eq!(
        error.message(),
        "no enterprise named `acme` is visible to this token"
    );
}

#[test]
fn repositories_are_checked_against_the_filter() {
    let listing = collector(1000).org_snapshot("acme");
    assert_eq!(listing.activity(), "listing repositories of `acme`");
    let request = listing.request();
    assert_eq!(request.query, ORG_REPOS);
    assert_eq!(
        shown(&request),
        [
            "login=\"acme\"",
            "cursor=null",
            "batchSize=100",
            "visibility=\"PUBLIC\"",
            "isArchived=false",
            "isFork=null",
            "withTopics=true",
        ]
    );
    let listing = more_repos(
        listing
            .accept(repos(
                vec![repo("one", "PUBLIC"), repo("two", "PRIVATE"), None],
                page(true, Some("next")),
            ))
            .expect("visible"),
    );
    assert_eq!(shown(&listing.request())[1], "cursor=\"next\"");
    assert_eq!(shown(&listing.request())[3], "visibility=\"PUBLIC\"");
    let (login, listed) = names(
        listing
            .accept(repos(
                vec![repo("three", "public"), repo("four", "INTERNAL")],
                page(false, None),
            ))
            .expect("visible"),
    );
    assert_eq!(login, "acme");
    assert_eq!(listed, ["one", "three"]);
}

#[test]
fn arguments_that_do_not_filter_are_null() {
    let any = Filter {
        visibility: Visibility::All,
        archived: Archived::Include,
        forks: Forks::Only,
    };
    let request = Collector::new(any, false, 7).org_snapshot("o").request();
    assert_eq!(
        shown(&request)[2..],
        [
            "batchSize=7",
            "visibility=null",
            "isArchived=null",
            "isFork=true",
            "withTopics=false",
        ]
    );
}

#[test]
fn an_invisible_organization_is_an_error() {
    let error = collector(100)
        .org_snapshot("acme")
        .accept(OrgReposData { organization: None })
        .err()
        .expect("invisible");
    assert_eq!(
        error.message(),
        "no organization named `acme` is visible to this token"
    );
}

#[test]
fn the_size_of_a_page_is_kept_in_bounds() {
    for (asked, sent) in [(0, 1), (1, 1), (3, 3), (100, 100), (101, 100), (u32::MAX, 100)] {
        let request = collector(asked).enterprise_orgs("acme").request();
        assert_eq!(shown(&request)[2], format!("batchSize={sent}"));
    }
}

#[test]
fn the_size_of_a_page_does_not_show() {
    let all = ["one", "two", "three", "four", "five"];
    let listed = |size: usize| {
        let mut listing = collector(size as u32).org_snapshot("acme");
        let chunks: Vec<&[&str]> = all.chunks(size).collect();
        for (i, chunk) in chunks.iter().enumerate() {
            let nodes = chunk.iter().map(|n| repo(n, "PUBLIC")).collect();
            let last = i + 1 == chunks.len();
            let cursor = format!("{i}");
            let step = listing
                .accept(repos(nodes, page(!last, Some(&cursor))))
                .expect("visible");
            match step {
                Step::More(next) => listing = next,
                done => return names(done).1,
            }
        }
        unreachable!("the last page ends the listing")
    };
    assert_eq!(listed(1), all);
    assert_eq!(listed(3), all);
    assert_eq!(listed(100), all);
}

#[test]
fn queries_name_their_variables() {
    assert!(ENTERPRISE_ORGS.starts_with("\nquery($slug: String!, $cursor: String, $batchSize: Int!) {"));
    assert!(ENTERPRISE_ORGS.contains("organizations(first: $batchSize, after: $cursor, orderBy: {field: LOGIN, direction: ASC})"));
    assert!(ORG_REPOS.contains("ownerAffiliations: [OWNER]"));
    assert!(ORG_REPOS.contains("repositoryTopics(first: 20) @include(if: $withTopics)"));
}
