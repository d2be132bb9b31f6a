//! The loader's decisions: source order of a file's requests, and the walk over files.

use crisol::loader::{in_source_order, Findings, Request};

fn request(specifier: &str, at: u32) -> Request {
    Request { specifier: specifier.to_owned(), at }
}

#[test]
fn requests_are_put_back_into_source_order() {
    let merged = vec![request("./b", 40), request("./a", 3), request("./c", 77), request("./d", 12)];
    let ordered = in_source_order(merged);
    let names: Vec<&str> = ordered.iter().map(|r| r.specifier.as_str()).collect();
    assert_eq!(names, ["./a", "./d", "./b", "./c"]);
}

#[test]
fn requests_at_the_same_position_keep_their_order() {
    let merged = vec![request("first", 5), request("early", 1), request("second", 5)];
    let ordered = in_source_order(merged);
    let names: Vec<&str> = ordered.iter().map(|r| r.specifier.as_str()).collect();
    assert_eq!(names, ["early", "first", "second"]);
}

#[test]
fn no_requests_stay_no_requests() {
    assert!(in_source_order(Vec::new()).is_empty());
}

#[test]
fn a_walk_reads_each_file_once_and_builds_the_graph() {
    // main -> a, b; a -> b; b -> main. Every file is read once, every edge recorded.
    let tree: &[(&str, &[&str])] = &[
        ("/main.js", &["/a.js", "/b.js"]),
        ("/a.js", &["/b.js"]),
        ("/b.js", &["/main.js"]),
    ];
    let mut findings = Findings::new();
    let (mut walk, root) = findings.begin("/main.js");
    let mut read = Vec::new();
    while let Some((path, id)) = walk.next_file() {
        read.push(path.clone());
        findings.parsed_file(path.clone(), 0);
        let imports = tree.iter().find(|(file, _)| *file == path).map(|(_, i)| *i).unwrap_or(&[]);
        for target in imports {
            findings.resolved(&mut walk, id, target);
        }
    }
    read.sort();
    assert_eq!(read, ["/a.js", "/b.js", "/main.js"]);
    assert_eq!(findings.parsed, 3);
    assert_eq!(findings.graph.len(), 3);
    let order: Vec<&str> = findings
        .graph
        .evaluation_order(root)
        .iter()
        .map(|id| findings.graph.specifier(*id).unwrap_or("?"))
        .collect();
    assert_eq!(order, ["/b.js", "/a.js", "/main.js"]);
}

#[test]
fn what_cannot_be_read_or_resolved_is_recorded_not_fatal() {
    let mut findings = Findings::new();
    let (mut walk, _) = findings.begin("/entry.js");
    let (path, _) = walk.next_file().expect("the entry");
    findings.unreadable(path.clone());
    findings.unresolvable(path.clone(), "left-pad".to_owned(), "not found".to_owned());
    findings.parsed_file("/other.js".to_owned(), 3);
    assert!(walk.next_file().is_none());
    assert_eq!(findings.parse_errors[0], ("/entry.js".to_owned(), "could not be read".to_owned()));
    assert_eq!(findings.parse_errors[1], ("/other.js".to_owned(), "3 syntax errors".to_owned()));
    assert_eq!(findings.unresolved.len(), 1);
    assert_eq!(findings.unresolved[0].specifier, "left-pad");
}
