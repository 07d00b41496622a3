use gram::git_graph::parser::{parse, Branch, Commit};

#[test]
fn test_perfect_input() {
    let input = "\
commit     init
commit     core

branch     dev
commit     setup
commit     config
commit     refactor

branch     feature-search
commit     ui
commit     api

checkout   dev
merge      feature-search
commit     stabilize

checkout   main
merge      dev";

    let git_graph = parse(input).unwrap();
    for branch in vec!["main", "dev", "feature-search"] {
        assert!(git_graph.contains_key(branch));
    }

    let expected_main_branch = Branch {
        base_commit: None,
        commits: vec![
            Commit {
                index: 0,
                message: "init".to_string(),
                merged_from: None,
            },
            Commit {
                index: 1,
                message: "core".to_string(),
                merged_from: None,
            },
            Commit {
                index: 9,
                message: "Merge branch dev into branch main".to_string(),
                merged_from: Some("dev".to_string()),
            },
        ],
    };
    assert_eq!(git_graph.get("main").unwrap(), &expected_main_branch);

    let expected_dev_branch = Branch {
        commits: vec![
            Commit {
                index: 2,
                message: "setup".to_string(),
                merged_from: None,
            },
            Commit {
                index: 3,
                message: "config".to_string(),
                merged_from: None,
            },
            Commit {
                index: 4,
                message: "refactor".to_string(),
                merged_from: None,
            },
            Commit {
                index: 7,
                message: "Merge branch feature-search into branch dev".to_string(),
                merged_from: Some("feature-search".to_string()),
            },
            Commit {
                index: 8,
                message: "stabilize".to_string(),
                merged_from: None,
            },
        ],
        base_commit: Some(1),
    };
    assert_eq!(git_graph.get("dev").unwrap(), &expected_dev_branch);

    let expected_featute_search_branch = Branch {
        commits: vec![
            Commit {
                index: 5,
                message: "ui".to_string(),
                merged_from: None,
            },
            Commit {
                index: 6,
                message: "api".to_string(),
                merged_from: None,
            },
        ],
        base_commit: Some(4),
    };

    assert_eq!(
        git_graph.get("feature-search").unwrap(),
        &expected_featute_search_branch
    );
}

#[test]
fn git_errors() {
    assert_eq!(parse("branch dev").err().unwrap().message, "Cannot create a new branch. Current branch (main) has no commits yet");
    assert_eq!(parse("commit a\nbranch main").err().unwrap().message, "Cannot create new branch. Branch main already exists");
    assert_eq!(parse("checkout dev").err().unwrap().message, "Branch dev does not exist");
    assert_eq!(parse("merge main").err().unwrap().message, "Cannot merge branch main into itself");
    let err = parse("commit a\nbranch dev\ncheckout main\nmerge dev").err().unwrap();
    assert_eq!(err.line, 4);
    assert_eq!(err.message, "Cannot merge branch dev because it has no commits");
    assert_eq!(parse("push x").err().unwrap().message, "Invalid syntax: expected '<action> <name>'");
    assert_eq!(parse("commit").err().unwrap().message, "Invalid syntax");
}
