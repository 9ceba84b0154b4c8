use changen::commit_parser::{parse_commit, FormattedCommit};

#[test]
fn commit_parser_test() {
    assert_eq!(
        parse_commit("fix(hello): hihi").unwrap(),
        FormattedCommit {
            section: String::from("fix"),
            scope: Some(String::from("hello")),
            message: String::from("hihi")
        }
    );

    parse_commit("fix(hello: hihi").unwrap_err();

    parse_commit("feat").unwrap_err();

    assert_eq!(
        parse_commit("improve (ignore) : hihi").unwrap(),
        FormattedCommit {
            section: String::from("improve"),
            scope: Some(String::from("ignore")),
            message: String::from("hihi")
        }
    );
}

#[test]
fn commit_without_scope() {
    assert_eq!(
        parse_commit("feat: add the thing").unwrap(),
        FormattedCommit {
            section: String::from("feat"),
            scope: None,
            message: String::from("add the thing")
        }
    );
}
