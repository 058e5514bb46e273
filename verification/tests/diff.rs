use diff_fuse::diff::Diff;
use diff_fuse::lines::Lines;

fn block(name: &str, hunks: &str) -> String {
    format!(
        "Index: {name}\n===================================================================\n--- {name}\n+++ {name}\n{hunks}"
    )
}

#[test]
fn diff_text_reads_back() {
    let text = block("b.txt", "@@ -1 +1 @@\n-a\n+b\n@@ -7,2 +7 @@\n c\n-d\n")
        + &block("a.txt", "@@ -0,0 +1 @@\n+new\n")
        + &block("empty", "");
    let diff = Diff::parse(&text).unwrap();
    assert_eq!(diff.to_string(), text);
    let again = Diff::parse(&diff.to_string()).unwrap();
    assert_eq!(again.to_string(), text);
    assert_eq!(diff.files().len(), 3);
    assert_eq!(diff.files()[0].header().file_name(), "b.txt");
}

#[test]
fn diff_of_nothing_is_empty() {
    let diff = Diff::parse("").unwrap();
    assert!(diff.files().is_empty());
    assert_eq!(diff.to_string(), "");
}

#[test]
fn diff_rejects_second_block_for_a_file() {
    let text = block("x", "@@ -1 +1 @@\n-a\n+b\n") + &block("y", "") + &block("x", "");
    assert!(Diff::parse(&text).is_err());
}

#[test]
fn diff_rejects_stray_lines() {
    assert!(Diff::parse("hello\n").is_err());
    assert!(Diff::parse(&(block("x", "@@ -1 +1 @@\n-a\n+b\n") + "stray\n")).is_err());
}

#[test]
fn diff_reads_crlf_text() {
    let text = block("x", "@@ -1 +1 @@\n-a\n+b\n").replace('\n', "\r\n");
    let diff = Diff::parse(&text).unwrap();
    assert_eq!(diff.to_string(), block("x", "@@ -1 +1 @@\n-a\n+b\n"));
}

#[test]
fn diff_rejects_mixed_line_ends() {
    let text = block("x", "@@ -1 +1 @@\r\n-a\n+b\n");
    assert!(Diff::parse(&text).is_err());
}

#[test]
fn lines_split_like_the_text() {
    let all = |text: &str| {
        let mut lines = Lines::from_text(text).unwrap();
        let mut out = Vec::new();
        while let Some(line) = lines.next() {
            out.push(line);
        }
        out
    };
    assert_eq!(all(""), Vec::<String>::new());
    assert_eq!(all("a"), vec!["a"]);
    assert_eq!(all("a\n"), vec!["a"]);
    assert_eq!(all("a\n\nb"), vec!["a", "", "b"]);
    assert_eq!(all("\n"), vec![""]);
    assert_eq!(all("a\r\nb\r\n"), vec!["a", "b"]);
    assert_eq!(all("a\r\nb\r"), vec!["a", "b\r"]);
    assert_eq!(all("a\rb\n"), vec!["a\rb"]);
    assert!(Lines::from_text("a\r\nb\n").is_err());
    assert!(Lines::from_text("\na\r\n").is_err());
}

#[test]
fn merge_joins_files_by_name() {
    let a = Diff::parse(&(block("x.txt", "@@ -1 +1 @@\n-a\n+b\n"))).unwrap();
    let b = Diff::parse(&(block("y.txt", "@@ -1 +1 @@\n-c\n+d\n"))).unwrap();
    let fused = a.merge(b).unwrap();
    assert_eq!(
        fused.to_string(),
        block("x.txt", "@@ -1 +1 @@\n-a\n+b\n") + &block("y.txt", "@@ -1 +1 @@\n-c\n+d\n")
    );
}

#[test]
fn merge_orders_files_by_name() {
    let a = Diff::parse(&(block("m", "") + &block("c", "") + &block("z", ""))).unwrap();
    let b = Diff::parse(&(block("y", "") + &block("a", "") + &block("m", ""))).unwrap();
    let fused = a.merge(b).unwrap();
    let names: Vec<&str> = fused.files().iter().map(|f| f.header().file_name()).collect();
    assert_eq!(names, vec!["a", "c", "m", "y", "z"]);
}

#[test]
fn merge_fuses_common_files() {
    let a = Diff::parse(&(block("t", "@@ -1 +1 @@\n-a\n+b\n") + &block("only_a",
        "@@ -1 +1,2 @@\n x\n+y\n")))
        .unwrap();
    let b = Diff::parse(&(block("t", "@@ -1 +1 @@\n-b\n+c\n"))).unwrap();
    let fused = a.merge(b).unwrap();
    assert_eq!(
        fused.to_string(),
        block("only_a", "@@ -1 +1,2 @@\n x\n+y\n") + &block("t", "@@ -1 +1 @@\n-a\n+c\n")
    );
}

#[test]
fn merge_with_empty_diff_changes_nothing() {
    let text = block("a", "@@ -1,1 +1,1 @@\n-a\n+b\n") + &block("b", "@@ -3 +3 @@\n c\n");
    let fused = Diff::parse(&text).unwrap().merge(Diff::parse("").unwrap()).unwrap();
    assert_eq!(fused.to_string(), text);
    let fused = Diff::parse("").unwrap().merge(Diff::parse(&text).unwrap()).unwrap();
    assert_eq!(fused.to_string(), text);
}

#[test]
fn merge_fails_where_a_file_cannot_be_fused() {
    let a = Diff::parse(&block("t", "@@ -1 +1 @@\n a\n")).unwrap();
    let b = Diff::parse(&block("t", "@@ -1 +1 @@\n b\n")).unwrap();
    assert!(a.merge(b).is_err());
}

#[test]
fn diff_line_iter_lists_every_line() {
    let text = block("a", "@@ -1 +1 @@\n-a\n+b\n") + &block("b", "");
    let diff = Diff::parse(&text).unwrap();
    let mut it = diff.line_iter();
    let mut n = 0;
    let mut last = String::new();
    while let Some(line) = it.next() {
        n += 1;
        last = line.clone();
    }
    assert_eq!(n, 11);
    assert_eq!(last, "+++ b");
}

#[test]
fn errors_show_their_kind() {
    let parse = diff_fuse::error::ParseErr::from("bad header".to_string());
    assert_eq!(parse.to_string(), "ParseError: bad header");
    let merge = diff_fuse::error::MergeErr::from("no overlap".to_string());
    assert_eq!(merge.to_string(), "MergeError: no overlap");
}

#[test]
fn merge_of_three_diffs_on_different_files_does_not_depend_on_grouping() {
    let a = || Diff::parse(&block("b", "@@ -1 +1 @@\n-a\n+b\n")).unwrap();
    let b = || Diff::parse(&(block("c", "@@ -2 +2,2 @@\n x\n+y\n") + &block("a", ""))).unwrap();
    let c = || Diff::parse(&block("d", "@@ -3 +2,0 @@\n-z\n")).unwrap();
    let left = a().merge(b()).unwrap().merge(c()).unwrap();
    let right = a().merge(b().merge(c()).unwrap()).unwrap();
    assert_eq!(left.to_string(), right.to_string());
    let names: Vec<&str> = left.files().iter().map(|f| f.header().file_name()).collect();
    assert_eq!(names, vec!["a", "b", "c", "d"]);
}

#[test]
fn merge_keeps_one_block_per_file() {
    let a = Diff::parse(&(block("x", "@@ -1 +1 @@\n-a\n+b\n") + &block("y", ""))).unwrap();
    let b = Diff::parse(&(block("y", "") + &block("x", "@@ -1 +1 @@\n-b\n+c\n"))).unwrap();
    let fused = a.merge(b).unwrap();
    let names: Vec<&str> = fused.files().iter().map(|f| f.header().file_name()).collect();
    assert_eq!(names, vec!["x", "y"]);
}

#[test]
fn diff_parses_from_str() {
    let text = block("x", "@@ -1 +1 @@\n-a\n+b\n");
    let diff: Diff = text.parse().unwrap();
    assert_eq!(diff.to_string(), text);
    assert!("nonsense".parse::<Diff>().is_err());
}
