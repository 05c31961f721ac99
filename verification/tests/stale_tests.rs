use stalecheck::stale::{
    archive_name, find_artifact, resolve_header, should_rebuild, EvalError, FsEntry, SearchDir,
    SourceFile,
};

fn entry(name: &str, mtime: u64) -> FsEntry {
    FsEntry { name: name.to_string(), mtime }
}

fn readable(mtime: u64, content: &str) -> SourceFile {
    SourceFile::Readable { mtime, content: content.to_string() }
}

#[test]
fn test_archive_name_synthesized() {
    assert_eq!(archive_name("mylib"), "libmylib.a".to_string());
    assert_eq!(archive_name("x"), "libx.a".to_string());
}

#[test]
fn test_archive_name_already_formed() {
    assert_eq!(archive_name("libfoo.a"), "libfoo.a".to_string());
}

#[test]
fn test_find_artifact_none() {
    let entries = vec![entry("other.o", 5)];
    let r = find_artifact(&entries, &"libfoo.a".to_string());
    assert_eq!(r, Ok(None));
}

#[test]
fn test_find_artifact_one() {
    let entries = vec![entry("other.o", 5), entry("libfoo.a", 42)];
    let r = find_artifact(&entries, &"libfoo.a".to_string());
    assert_eq!(r, Ok(Some(42)));
}

#[test]
fn test_find_artifact_ambiguous() {
    let entries = vec![entry("libfoo.a", 42), entry("libfoo.a", 43)];
    let r = find_artifact(&entries, &"libfoo.a".to_string());
    assert_eq!(r, Err(EvalError::AmbiguousArtifact));
}

#[test]
fn test_resolve_first_directory_wins() {
    let search = vec![
        SearchDir { files: vec![entry("h.h", 50)] },
        SearchDir { files: vec![entry("h.h", 200)] },
    ];
    assert_eq!(resolve_header(&search, &"h.h".to_string()), Some(50));
    assert_eq!(resolve_header(&search, &"absent.h".to_string()), None);
}

#[test]
fn test_missing_artifact_rebuilds() {
    let sources = vec![readable(1, "int main() { return 0; }")];
    let search: Vec<SearchDir> = Vec::new();
    let artifacts = vec![entry("unrelated.txt", 999)];
    let r = should_rebuild(&sources, &search, &artifacts, "foo");
    assert_eq!(r, Ok(true));
}

#[test]
fn test_fresh_artifact_no_rebuild() {
    let sources = vec![readable(50, "#include \"dep.h\"\nint main() { return 0; }")];
    let search = vec![SearchDir { files: vec![entry("dep.h", 60)] }];
    let artifacts = vec![entry("libfoo.a", 100)];
    let r = should_rebuild(&sources, &search, &artifacts, "foo");
    assert_eq!(r, Ok(false));
}

#[test]
fn test_newer_header_rebuilds() {
    let sources = vec![readable(50, "#include \"dep.h\"\nint main() { return 0; }")];
    let search = vec![SearchDir { files: vec![entry("dep.h", 150)] }];
    let artifacts = vec![entry("libfoo.a", 100)];
    let r = should_rebuild(&sources, &search, &artifacts, "foo");
    assert_eq!(r, Ok(true));
}

#[test]
fn test_ambiguous_artifact_fatal() {
    let sources = vec![readable(50, "")];
    let search: Vec<SearchDir> = Vec::new();
    let artifacts = vec![entry("libfoo.a", 100), entry("libfoo.a", 101)];
    let r = should_rebuild(&sources, &search, &artifacts, "foo");
    assert_eq!(r, Err(EvalError::AmbiguousArtifact));
}

#[test]
fn test_unresolved_header_harmless() {
    let sources = vec![readable(50, "#include <nosuch.h>")];
    let search = vec![SearchDir { files: vec![entry("other.h", 10)] }];
    let artifacts = vec![entry("libfoo.a", 100)];
    let r = should_rebuild(&sources, &search, &artifacts, "foo");
    assert_eq!(r, Ok(false));
}

#[test]
fn test_missing_source_rebuilds() {
    let sources = vec![SourceFile::Missing];
    let search: Vec<SearchDir> = Vec::new();
    let artifacts = vec![entry("libfoo.a", 100)];
    let r = should_rebuild(&sources, &search, &artifacts, "foo");
    assert_eq!(r, Ok(true));
}

#[test]
fn test_unreadable_source_rebuilds() {
    let sources = vec![SourceFile::Unreadable { mtime: 10 }];
    let search: Vec<SearchDir> = Vec::new();
    let artifacts = vec![entry("libfoo.a", 100)];
    let r = should_rebuild(&sources, &search, &artifacts, "foo");
    assert_eq!(r, Ok(true));
}

#[test]
fn test_newer_source_rebuilds() {
    let sources = vec![readable(200, "")];
    let search: Vec<SearchDir> = Vec::new();
    let artifacts = vec![entry("libfoo.a", 100)];
    let r = should_rebuild(&sources, &search, &artifacts, "foo");
    assert_eq!(r, Ok(true));
}

#[test]
fn test_prefixed_output_name_accepted() {
    let sources = vec![readable(50, "")];
    let search: Vec<SearchDir> = Vec::new();
    let artifacts = vec![entry("libfoo.a", 100)];
    let r = should_rebuild(&sources, &search, &artifacts, "libfoo.a");
    assert_eq!(r, Ok(false));
}

#[test]
fn test_headers_of_later_source_checked() {
    let sources = vec![readable(10, ""), readable(20, "#include \"late.h\"")];
    let search = vec![SearchDir { files: vec![entry("late.h", 500)] }];
    let artifacts = vec![entry("libfoo.a", 100)];
    let r = should_rebuild(&sources, &search, &artifacts, "foo");
    assert_eq!(r, Ok(true));
}

#[test]
fn test_equal_times_no_rebuild() {
    let sources = vec![readable(100, "#include \"dep.h\"")];
    let search = vec![SearchDir { files: vec![entry("dep.h", 100)] }];
    let artifacts = vec![entry("libfoo.a", 100)];
    let r = should_rebuild(&sources, &search, &artifacts, "foo");
    assert_eq!(r, Ok(false));
}
