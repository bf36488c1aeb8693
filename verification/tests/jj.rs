use jj_hunk_tool::jj::{
    ancestors_in, ancestors_touching_file_request, annotations_request, current_op_id_request,
    diff_from_to_request, diff_request, failed, mutable_ancestors_request, read_ancestors_touching_file,
    read_annotations, read_current_op_id, read_diff, read_mutable_ancestors, read_repo_root,
    repo_root_request, JjError, JjReply,
};

fn success(stdout: &str) -> JjReply {
    JjReply { success: true, stdout: stdout.as_bytes().to_vec(), stderr: Vec::new() }
}

fn failure(stderr: &[u8]) -> JjReply {
    JjReply { success: false, stdout: b"ignored".to_vec(), stderr: stderr.to_vec() }
}

#[test]
fn requests() {
    assert_eq!(repo_root_request(), vec!["root", "--no-pager"]);
    assert_eq!(
        annotations_request("@-", "src/x.rs"),
        vec![
            "file",
            "annotate",
            "--no-pager",
            "-r",
            "@-",
            "-T",
            "commit.change_id().shortest(8) ++ \"\\n\"",
            "src/x.rs",
        ]
    );
    assert_eq!(
        mutable_ancestors_request("@"),
        vec![
            "log",
            "--no-pager",
            "--no-graph",
            "-r",
            "immutable_heads()..(@-)",
            "-T",
            r#"change_id.shortest(8) ++ "\t" ++ description.first_line() ++ "\n""#,
        ]
    );
    assert_eq!(
        ancestors_touching_file_request("@", "a b.txt"),
        vec![
            "log",
            "--no-pager",
            "--no-graph",
            "-r",
            "(immutable_heads()..(@-)) & files(\"a b.txt\")",
            "-T",
            "change_id.shortest(8) ++ \"\\n\"",
        ]
    );
    assert_eq!(
        current_op_id_request(),
        vec!["op", "log", "--no-pager", "--no-graph", "--limit", "1", "-T", "self.id().short(16)"]
    );
    assert_eq!(diff_request(None), vec!["diff", "--git", "--no-pager"]);
    assert_eq!(diff_request(Some("x")), vec!["diff", "--git", "--no-pager", "-r", "x"]);
    assert_eq!(
        diff_from_to_request("x", "y"),
        vec!["diff", "--git", "--no-pager", "--from", "x", "--to", "y"]
    );
}

#[test]
fn replies() {
    assert_eq!(read_repo_root(success("/home/me/repo \n")), Ok("/home/me/repo".to_string()));
    assert_eq!(
        read_annotations(success("aaa\nbbb\r\naaa")),
        Ok(vec!["aaa".to_string(), "bbb".to_string(), "aaa".to_string()])
    );
    assert_eq!(
        read_ancestors_touching_file(success("ccc\n")),
        Ok(vec!["ccc".to_string()])
    );
    assert_eq!(read_current_op_id(success("\t0123456789abcdef\n")), Ok("0123456789abcdef".to_string()));
    assert_eq!(read_diff(success("-é\r\n+f\n")), Ok("-é\r\r\n+f\n".to_string()));
}

#[test]
fn failures_name_the_command() {
    assert_eq!(
        read_repo_root(failure(b"no repo\n")),
        Err(JjError::Failed("jj root failed: no repo\n".into()))
    );
    assert_eq!(
        read_annotations(failure(b"x")),
        Err(JjError::Failed("jj file annotate failed: x".into()))
    );
    assert_eq!(
        read_mutable_ancestors(failure(b"x")),
        Err(JjError::Failed("jj log failed: x".into()))
    );
    assert_eq!(
        read_ancestors_touching_file(failure(b"x")),
        Err(JjError::Failed("jj log failed: x".into()))
    );
    assert_eq!(
        read_current_op_id(failure(b"x")),
        Err(JjError::Failed("jj op log failed: x".into()))
    );
    assert_eq!(
        read_diff(failure(b"caf\xff")),
        Err(JjError::Failed("jj diff failed: caf\u{fffd}".into()))
    );
    assert_eq!(failed("jj diff", "why").message(), "jj diff failed: why");
}

#[test]
fn output_that_is_not_utf8_is_refused() {
    let reply = JjReply { success: true, stdout: b"a\xff".to_vec(), stderr: Vec::new() };
    let error = read_diff(reply).unwrap_err();
    assert_eq!(
        error,
        JjError::NotUtf8("invalid utf-8 sequence of 1 bytes from index 1".into())
    );
    assert_eq!(error.message(), "invalid utf-8 sequence of 1 bytes from index 1");
}

#[test]
fn ancestors_of_a_listing() {
    let ancestors = ancestors_in("aaa\tfirst\tpart\nno tab\nbbb\t\naaa\tagain\n");
    assert_eq!(ancestors.entries.len(), 3);
    assert_eq!(ancestors.ids(), vec!["aaa", "bbb"]);
    assert!(ancestors.contains("bbb"));
    assert!(!ancestors.contains("no tab"));
    assert_eq!(ancestors.description("aaa"), "again");
    assert_eq!(ancestors.description("bbb"), "");
    assert_eq!(ancestors.description("ccc"), "");
    assert_eq!(ancestors_in("aaa\tfirst\tpart\n").description("aaa"), "first\tpart");
    assert_eq!(read_mutable_ancestors(success("aaa\tx\n")), Ok(ancestors_in("aaa\tx\n")));
}
