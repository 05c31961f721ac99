//! The staleness evaluator: given what is known of the source files, of the
//! header search directories and of the candidate artifacts, decides whether
//! the previously built archive must be rebuilt.
//!
//! The evaluation is a pure function of its inputs: the caller gathers a
//! snapshot of the relevant files (names, modification times, source text)
//! and the evaluator compares modification times against the artifact's.

use vstd::prelude::*;

verus! {

/// One file visible to the evaluator: its name — for an artifact candidate
/// the bare file name, for a header the search-root-relative path — and its
/// modification time.
pub struct FsEntry {
    pub name: String,
    pub mtime: u64,
}

/// What is known of one source file of the compilation unit.
pub enum SourceFile {
    /// The file is absent from disk.
    Missing,
    /// The file exists but its text could not be read.
    Unreadable { mtime: u64 },
    /// The file exists and its text was read.
    Readable { mtime: u64, content: String },
}

/// One directory of the header search path: the files under it, each under
/// its path relative to the directory.
pub struct SearchDir {
    pub files: Vec<FsEntry>,
}

/// The one fatal outcome: several artifact candidates bear the expected
/// name, and picking either could link stale code silently.
#[derive(Clone, Copy, Debug, PartialEq, Eq, Structural)]
pub enum EvalError {
    AmbiguousArtifact,
}

/// Does the name already follow the archive naming convention `lib<...>.a`?
pub open spec fn is_archive_form(n: Seq<char>) -> bool {
    &&& n.len() >= 5
    &&& n[0] == 'l'
    &&& n[1] == 'i'
    &&& n[2] == 'b'
    &&& n[n.len() - 2] == '.'
    &&& n[n.len() - 1] == 'a'
}

/// The archive file name expected for a logical output name: the name
/// itself when already of the conventional form, else `lib<name>.a`.
pub open spec fn archive_name_spec(n: Seq<char>) -> Seq<char> {
    if is_archive_form(n) {
        n
    } else {
        seq!['l', 'i', 'b'] + n + seq!['.', 'a']
    }
}

/// How many entries from position `i` on bear the given name.
pub open spec fn matches_from(entries: Seq<FsEntry>, name: Seq<char>, i: int) -> nat
    decreases entries.len() - i when 0 <= i <= entries.len()
{
    if i >= entries.len() {
        0
    } else {
        (if entries[i].name@ == name {
            1nat
        } else {
            0nat
        }) + matches_from(entries, name, i + 1)
    }
}

/// The modification time of the first entry from position `i` on that bears
/// the given name, if any.
pub open spec fn first_match_from(entries: Seq<FsEntry>, name: Seq<char>, i: int) -> Option<u64>
    decreases entries.len() - i when 0 <= i <= entries.len()
{
    if i >= entries.len() {
        None
    } else if entries[i].name@ == name {
        Some(entries[i].mtime)
    } else {
        first_match_from(entries, name, i + 1)
    }
}

/// Locating the artifact among the entries under the build-output root:
/// no candidate (nothing to compare against), exactly one (its modification
/// time is the baseline), or fatally many.
pub open spec fn locate_spec(entries: Seq<FsEntry>, name: Seq<char>) -> Result<
    Option<u64>,
    EvalError,
> {
    match first_match_from(entries, name, 0) {
        None => Ok(None),
        Some(m) => if matches_from(entries, name, 0) == 1 {
            Ok(Some(m))
        } else {
            Err(EvalError::AmbiguousArtifact)
        },
    }
}

/// The resolution of a header reference: the modification time recorded for
/// it under the first search directory that holds a file of that relative
/// path, or nothing when no directory does.
pub open spec fn resolve_from(dirs: Seq<SearchDir>, name: Seq<char>, i: int) -> Option<u64>
    decreases dirs.len() - i when 0 <= i <= dirs.len()
{
    if i >= dirs.len() {
        None
    } else {
        match first_match_from(dirs[i].files@, name, 0) {
            Some(m) => Some(m),
            None => resolve_from(dirs, name, i + 1),
        }
    }
}

/// First-match-wins resolution over the whole ordered search path.
pub open spec fn resolve_spec(dirs: Seq<SearchDir>, name: Seq<char>) -> Option<u64> {
    resolve_from(dirs, name, 0)
}

/// Does this source file by itself force a rebuild against baseline
/// `since`? A missing or unreadable file always does; a readable one does
/// when strictly newer than the baseline.
pub open spec fn source_stale(s: SourceFile, since: u64) -> bool {
    match s {
        SourceFile::Missing => true,
        SourceFile::Unreadable { .. } => true,
        SourceFile::Readable { mtime, .. } => mtime > since,
    }
}

/// The header references one source contributes to the accumulated list.
pub open spec fn source_headers(s: SourceFile) -> Seq<Seq<char>> {
    match s {
        SourceFile::Readable { content, .. } => crate::scan::cpp_dep_spec(content@),
        _ => Seq::empty(),
    }
}

/// Does some source from position `i` on force a rebuild?
pub open spec fn any_source_stale_from(sources: Seq<SourceFile>, since: u64, i: int) -> bool
    decreases sources.len() - i when 0 <= i <= sources.len()
{
    if i >= sources.len() {
        false
    } else {
        source_stale(sources[i], since) || any_source_stale_from(sources, since, i + 1)
    }
}

/// The header references of all sources from position `i` on, in source
/// order, duplicates kept.
pub open spec fn headers_from(sources: Seq<SourceFile>, i: int) -> Seq<Seq<char>>
    decreases sources.len() - i when 0 <= i <= sources.len()
{
    if i >= sources.len() {
        Seq::empty()
    } else {
        source_headers(sources[i]) + headers_from(sources, i + 1)
    }
}

/// Is the reference resolved to a file strictly newer than the baseline?
/// An unresolved reference never is.
pub open spec fn header_newer(dirs: Seq<SearchDir>, h: Seq<char>, since: u64) -> bool {
    match resolve_spec(dirs, h) {
        Some(m) => m > since,
        None => false,
    }
}

/// Is some reference from position `j` on resolved to a file strictly
/// newer than the baseline?
pub open spec fn any_header_newer_from(
    dirs: Seq<SearchDir>,
    hs: Seq<Seq<char>>,
    since: u64,
    j: int,
) -> bool
    decreases hs.len() - j when 0 <= j <= hs.len()
{
    if j >= hs.len() {
        false
    } else {
        header_newer(dirs, hs[j], since) || any_header_newer_from(dirs, hs, since, j + 1)
    }
}

/// Rebuild needed against baseline `since`: some source forces it, or some
/// accumulated header reference resolves to a newer file.
pub open spec fn stale_spec(sources: Seq<SourceFile>, dirs: Seq<SearchDir>, since: u64) -> bool {
    any_source_stale_from(sources, since, 0) || any_header_newer_from(
        dirs,
        headers_from(sources, 0),
        since,
        0,
    )
}

/// The whole evaluation: locate the artifact (aborting when several
/// candidates bear the expected name), rebuild when none exists, else
/// compare everything against its modification time.
pub open spec fn should_rebuild_spec(
    sources: Seq<SourceFile>,
    dirs: Seq<SearchDir>,
    artifacts: Seq<FsEntry>,
    output_name: Seq<char>,
) -> Result<bool, EvalError> {
    match locate_spec(artifacts, archive_name_spec(output_name)) {
        Err(e) => Err(e),
        Ok(None) => Ok(true),
        Ok(Some(since)) => Ok(stale_spec(sources, dirs, since)),
    }
}

/// The archive file name expected for a logical output name.
pub fn archive_name(output_name: &str) -> (r: String)
    ensures
        r@ == archive_name_spec(output_name@),
{
    let n = output_name.unicode_len();
    let formed = n >= 5 && output_name.get_char(0) == 'l' && output_name.get_char(1) == 'i'
        && output_name.get_char(2) == 'b' && output_name.get_char(n - 2) == '.'
        && output_name.get_char(n - 1) == 'a';
    if formed {
        output_name.to_owned()
    } else {
        let mut s = "lib".to_owned();
        s.append(output_name);
        s.append(".a");
        proof {
            reveal_strlit("lib");
            reveal_strlit(".a");
            assert(("lib")@ =~= seq!['l', 'i', 'b']);
            assert((".a")@ =~= seq!['.', 'a']);
        }
        s
    }
}

/// Locates the artifact among the entries found under the build-output
/// root: the modification time of the one entry bearing the expected name,
/// `None` when no entry does, and the fatal error when several do.
pub fn find_artifact(entries: &Vec<FsEntry>, name: &String) -> (r: Result<Option<u64>, EvalError>)
    ensures
        r == locate_spec(entries@, name@),
{
    let mut count: usize = 0;
    let mut found: Option<u64> = None;
    let mut i: usize = 0;
    while i < entries.len()
        invariant
            0 <= i <= entries@.len(),
            count <= i,
            matches_from(entries@, name@, 0) == count + matches_from(entries@, name@, i as int),
            match found {
                None => count == 0 && first_match_from(entries@, name@, 0) == first_match_from(
                    entries@,
                    name@,
                    i as int,
                ),
                Some(m) => count >= 1 && first_match_from(entries@, name@, 0) == Some(m),
            },
        decreases entries@.len() - i,
    {
        if entries[i].name == *name {
            if count == 0 {
                found = Some(entries[i].mtime);
            }
            count = count + 1;
        }
        i = i + 1;
    }
    match found {
        None => Ok(None),
        Some(m) => if count == 1 {
            Ok(Some(m))
        } else {
            Err(EvalError::AmbiguousArtifact)
        },
    }
}

/// The first entry of the directory listing bearing the given relative
/// path, if any.
fn dir_lookup(files: &Vec<FsEntry>, name: &String) -> (r: Option<u64>)
    ensures
        r == first_match_from(files@, name@, 0),
{
    let mut j: usize = 0;
    while j < files.len()
        invariant
            0 <= j <= files@.len(),
            first_match_from(files@, name@, 0) == first_match_from(files@, name@, j as int),
        decreases files@.len() - j,
    {
        if files[j].name == *name {
            return Some(files[j].mtime);
        }
        j = j + 1;
    }
    None
}

/// Resolves a header reference against the ordered search path: the first
/// directory holding a file of that relative path wins; a reference no
/// directory holds resolves to nothing.
pub fn resolve_header(search: &Vec<SearchDir>, name: &String) -> (r: Option<u64>)
    ensures
        r == resolve_spec(search@, name@),
{
    let mut i: usize = 0;
    while i < search.len()
        invariant
            0 <= i <= search@.len(),
            resolve_from(search@, name@, 0) == resolve_from(search@, name@, i as int),
        decreases search@.len() - i,
    {
        let hit = dir_lookup(&search[i].files, name);
        match hit {
            Some(m) => {
                return Some(m);
            },
            None => {},
        }
        i = i + 1;
    }
    None
}

/// Decides whether the archive named by `output_name` must be rebuilt.
///
/// The artifact is located among `artifacts`, the entries found under the
/// build-output root; with no candidate the answer is rebuild, with several
/// the evaluation aborts. Otherwise the answer is rebuild exactly when some
/// source is missing, unreadable or newer than the artifact, or when some
/// header reference of a readable source resolves under `search` to a file
/// newer than the artifact. Unresolved references are skipped.
pub fn should_rebuild(
    sources: &Vec<SourceFile>,
    search: &Vec<SearchDir>,
    artifacts: &Vec<FsEntry>,
    output_name: &str,
) -> (r: Result<bool, EvalError>)
    ensures
        r == should_rebuild_spec(sources@, search@, artifacts@, output_name@),
{
    let name = archive_name(output_name);
    let since = match find_artifact(artifacts, &name) {
        Err(e) => {
            return Err(e);
        },
        Ok(None) => {
            return Ok(true);
        },
        Ok(Some(m)) => m,
    };
    let mut headers: Vec<String> = Vec::new();
    let mut i: usize = 0;
    while i < sources.len()
        invariant
            0 <= i <= sources@.len(),
            since == locate_spec(artifacts@, archive_name_spec(output_name@))->Ok_0->0,
            locate_spec(artifacts@, archive_name_spec(output_name@)) == Ok::<
                Option<u64>,
                EvalError,
            >(Some(since)),
            any_source_stale_from(sources@, since, 0) == any_source_stale_from(
                sources@,
                since,
                i as int,
            ),
            headers_from(sources@, 0) == headers.deep_view() + headers_from(sources@, i as int),
        decreases sources@.len() - i,
    {
        match &sources[i] {
            SourceFile::Missing => {
                return Ok(true);
            },
            SourceFile::Unreadable { .. } => {
                return Ok(true);
            },
            SourceFile::Readable { mtime, content } => {
                if *mtime > since {
                    return Ok(true);
                }
                let mut deps = crate::scan::cpp_dep(content.as_str());
                let ghost old_hs = headers.deep_view();
                let ghost new_hs = deps.deep_view();
                headers.append(&mut deps);
                proof {
                    assert(headers.deep_view() =~= old_hs + new_hs);
                    assert(headers_from(sources@, 0) =~= (old_hs + new_hs) + headers_from(
                        sources@,
                        i + 1,
                    ));
                }
            },
        }
        i = i + 1;
    }
    proof {
        assert(headers.deep_view() =~= headers_from(sources@, 0));
    }
    let mut j: usize = 0;
    while j < headers.len()
        invariant
            0 <= j <= headers@.len(),
            headers.deep_view() == headers_from(sources@, 0),
            since == locate_spec(artifacts@, archive_name_spec(output_name@))->Ok_0->0,
            locate_spec(artifacts@, archive_name_spec(output_name@)) == Ok::<
                Option<u64>,
                EvalError,
            >(Some(since)),
            !any_source_stale_from(sources@, since, 0),
            any_header_newer_from(search@, headers.deep_view(), since, 0)
                == any_header_newer_from(search@, headers.deep_view(), since, j as int),
        decreases headers@.len() - j,
    {
        let resolved = resolve_header(search, &headers[j]);
        match resolved {
            Some(m) => {
                if m > since {
                    return Ok(true);
                }
            },
            None => {},
        }
        j = j + 1;
    }
    Ok(false)
}

/// With no matching entry from position `i` on, there is no first match.
proof fn lemma_no_match_first_none(entries: Seq<FsEntry>, name: Seq<char>, i: int)
    requires
        0 <= i <= entries.len(),
        forall|k: int| i <= k < entries.len() ==> (#[trigger] entries[k].name)@ != name,
    ensures
        first_match_from(entries, name, i) is None,
    decreases entries.len() - i,
{
    if i < entries.len() {
        lemma_no_match_first_none(entries, name, i + 1);
    }
}

/// Two distinct matching entries make the match count at least two.
proof fn lemma_two_matches(entries: Seq<FsEntry>, name: Seq<char>, i: int, k1: int, k2: int)
    requires
        0 <= i <= k1 < k2 < entries.len(),
        entries[k1].name@ == name,
        entries[k2].name@ == name,
    ensures
        matches_from(entries, name, i) >= 2,
    decreases k1 - i,
{
    if i < k1 {
        lemma_two_matches(entries, name, i + 1, k1, k2);
    } else {
        lemma_one_match(entries, name, i + 1, k2);
    }
}

/// A matching entry makes the match count at least one, and the first
/// match exists.
proof fn lemma_one_match(entries: Seq<FsEntry>, name: Seq<char>, i: int, k: int)
    requires
        0 <= i <= k < entries.len(),
        entries[k].name@ == name,
    ensures
        matches_from(entries, name, i) >= 1,
        first_match_from(entries, name, i) is Some,
    decreases k - i,
{
    if i < k && entries[i].name@ != name {
        lemma_one_match(entries, name, i + 1, k);
    }
}

/// With no source forcing a rebuild from position `i` on, none does.
proof fn lemma_no_source_stale(sources: Seq<SourceFile>, since: u64, i: int)
    requires
        0 <= i <= sources.len(),
        forall|k: int| i <= k < sources.len() ==> !source_stale(#[trigger] sources[k], since),
    ensures
        !any_source_stale_from(sources, since, i),
    decreases sources.len() - i,
{
    if i < sources.len() {
        lemma_no_source_stale(sources, since, i + 1);
    }
}

/// With no reference resolving newer from position `j` on, none does.
proof fn lemma_no_header_newer(dirs: Seq<SearchDir>, hs: Seq<Seq<char>>, since: u64, j: int)
    requires
        0 <= j <= hs.len(),
        forall|k: int| j <= k < hs.len() ==> !header_newer(dirs, #[trigger] hs[k], since),
    ensures
        !any_header_newer_from(dirs, hs, since, j),
    decreases hs.len() - j,
{
    if j < hs.len() {
        lemma_no_header_newer(dirs, hs, since, j + 1);
    }
}

/// One reference resolving newer suffices.
proof fn lemma_some_header_newer(dirs: Seq<SearchDir>, hs: Seq<Seq<char>>, since: u64, j: int, k: int)
    requires
        0 <= j <= k < hs.len(),
        header_newer(dirs, hs[k], since),
    ensures
        any_header_newer_from(dirs, hs, since, j),
    decreases k - j,
{
    if j < k {
        lemma_some_header_newer(dirs, hs, since, j + 1, k);
    }
}

/// If no artifact candidate bears the expected archive name, the decision
/// is rebuild, whatever the sources and search path hold.
pub proof fn lemma_missing_artifact_rebuilds(
    sources: Seq<SourceFile>,
    dirs: Seq<SearchDir>,
    artifacts: Seq<FsEntry>,
    output_name: Seq<char>,
)
    requires
        forall|k: int|
            0 <= k < artifacts.len() ==> (#[trigger] artifacts[k].name)@ != archive_name_spec(
                output_name,
            ),
    ensures
        should_rebuild_spec(sources, dirs, artifacts, output_name) == Ok::<bool, EvalError>(true),
{
    lemma_no_match_first_none(artifacts, archive_name_spec(output_name), 0);
}

/// If exactly one candidate bears the expected name and nothing — no
/// source, no resolved reference — is newer than it, the decision is no
/// rebuild.
pub proof fn lemma_current_artifact_keeps(
    sources: Seq<SourceFile>,
    dirs: Seq<SearchDir>,
    artifacts: Seq<FsEntry>,
    output_name: Seq<char>,
    since: u64,
)
    requires
        matches_from(artifacts, archive_name_spec(output_name), 0) == 1,
        first_match_from(artifacts, archive_name_spec(output_name), 0) == Some(since),
        forall|k: int| 0 <= k < sources.len() ==> !source_stale(#[trigger] sources[k], since),
        forall|j: int|
            0 <= j < headers_from(sources, 0).len() ==> !header_newer(
                dirs,
                #[trigger] headers_from(sources, 0)[j],
                since,
            ),
    ensures
        should_rebuild_spec(sources, dirs, artifacts, output_name) == Ok::<bool, EvalError>(false),
{
    lemma_no_source_stale(sources, since, 0);
    lemma_no_header_newer(dirs, headers_from(sources, 0), since, 0);
}

/// If exactly one candidate bears the expected name and some accumulated
/// reference resolves to a file newer than it, the decision is rebuild —
/// however old or fresh the sources themselves are.
pub proof fn lemma_newer_header_rebuilds(
    sources: Seq<SourceFile>,
    dirs: Seq<SearchDir>,
    artifacts: Seq<FsEntry>,
    output_name: Seq<char>,
    since: u64,
    h: Seq<char>,
)
    requires
        matches_from(artifacts, archive_name_spec(output_name), 0) == 1,
        first_match_from(artifacts, archive_name_spec(output_name), 0) == Some(since),
        headers_from(sources, 0).contains(h),
        header_newer(dirs, h, since),
    ensures
        should_rebuild_spec(sources, dirs, artifacts, output_name) == Ok::<bool, EvalError>(true),
{
    let hs = headers_from(sources, 0);
    let k = choose|k: int| 0 <= k < hs.len() && hs[k] == h;
    lemma_some_header_newer(dirs, hs, since, 0, k);
}

/// Two candidates bearing the exact expected name end the evaluation
/// fatally: the result is the ambiguity error, never a boolean.
pub proof fn lemma_ambiguous_artifact_fatal(
    sources: Seq<SourceFile>,
    dirs: Seq<SearchDir>,
    artifacts: Seq<FsEntry>,
    output_name: Seq<char>,
    k1: int,
    k2: int,
)
    requires
        0 <= k1 < k2 < artifacts.len(),
        artifacts[k1].name@ == archive_name_spec(output_name),
        artifacts[k2].name@ == archive_name_spec(output_name),
    ensures
        should_rebuild_spec(sources, dirs, artifacts, output_name) == Err::<bool, EvalError>(
            EvalError::AmbiguousArtifact,
        ),
{
    let name = archive_name_spec(output_name);
    lemma_two_matches(artifacts, name, 0, k1, k2);
    lemma_one_match(artifacts, name, 0, k1);
}

/// A reference no search directory holds resolves to nothing, raises no
/// error, and leaves the decision exactly as it was without it.
pub proof fn lemma_unresolved_reference_harmless(
    dirs: Seq<SearchDir>,
    hs: Seq<Seq<char>>,
    h: Seq<char>,
    since: u64,
)
    requires
        forall|i: int, j: int|
            0 <= i < dirs.len() && 0 <= j < dirs[i].files@.len() ==> (#[trigger] dirs[i].files@[j].name)@
                != h,
    ensures
        resolve_spec(dirs, h) is None,
        !header_newer(dirs, h, since),
        any_header_newer_from(dirs, hs.push(h), since, 0) == any_header_newer_from(
            dirs,
            hs,
            since,
            0,
        ),
{
    lemma_resolve_absent(dirs, h, 0);
    lemma_push_no_effect(dirs, hs, h, since, 0);
}

/// A reference held by no directory from position `i` on resolves to
/// nothing there.
proof fn lemma_resolve_absent(dirs: Seq<SearchDir>, h: Seq<char>, i: int)
    requires
        0 <= i <= dirs.len(),
        forall|k: int, j: int|
            0 <= k < dirs.len() && 0 <= j < dirs[k].files@.len() ==> (#[trigger] dirs[k].files@[j].name)@
                != h,
    ensures
        resolve_from(dirs, h, i) is None,
    decreases dirs.len() - i,
{
    if i < dirs.len() {
        lemma_no_match_first_none(dirs[i].files@, h, 0);
        lemma_resolve_absent(dirs, h, i + 1);
    }
}

/// Appending a reference that never resolves newer leaves the outcome of
/// the reference walk unchanged.
proof fn lemma_push_no_effect(
    dirs: Seq<SearchDir>,
    hs: Seq<Seq<char>>,
    h: Seq<char>,
    since: u64,
    j: int,
)
    requires
        0 <= j <= hs.len(),
        !header_newer(dirs, h, since),
    ensures
        any_header_newer_from(dirs, hs.push(h), since, j) == any_header_newer_from(
            dirs,
            hs,
            since,
            j,
        ),
    decreases hs.len() - j,
{
    if j < hs.len() {
        assert(hs.push(h)[j] == hs[j]);
        lemma_push_no_effect(dirs, hs, h, since, j + 1);
    } else {
        assert(hs.push(h)[j] == h);
        assert(!any_header_newer_from(dirs, hs.push(h), since, j + 1));
    }
}

/// The first matching entry is the match: earlier entries miss, this one
/// hits.
proof fn lemma_first_match_at(files: Seq<FsEntry>, name: Seq<char>, i: int, j: int)
    requires
        0 <= i <= j < files.len(),
        files[j].name@ == name,
        forall|k: int| i <= k < j ==> (#[trigger] files[k].name)@ != name,
    ensures
        first_match_from(files, name, i) == Some(files[j].mtime),
    decreases j - i,
{
    if i < j {
        lemma_first_match_at(files, name, i + 1, j);
    }
}

/// First match wins, in directory order and within a directory in listing
/// order: a reference resolves to the first file bearing its relative path
/// under the first directory that holds one, independent of anything later
/// on the search path.
pub proof fn lemma_first_directory_wins(dirs: Seq<SearchDir>, h: Seq<char>, i: int, j: int)
    requires
        0 <= i < dirs.len(),
        0 <= j < dirs[i].files@.len(),
        dirs[i].files@[j].name@ == h,
        forall|k: int, jj: int|
            0 <= k < i && 0 <= jj < dirs[k].files@.len() ==> (#[trigger] dirs[k].files@[jj].name)@
                != h,
        forall|jj: int| 0 <= jj < j ==> (#[trigger] dirs[i].files@[jj].name)@ != h,
    ensures
        resolve_spec(dirs, h) == Some(dirs[i].files@[j].mtime),
{
    lemma_first_match_at(dirs[i].files@, h, 0, j);
    lemma_resolve_to(dirs, h, 0, i);
}

/// Resolution walks past directories that hold nothing for the reference.
proof fn lemma_resolve_to(dirs: Seq<SearchDir>, h: Seq<char>, lo: int, i: int)
    requires
        0 <= lo <= i < dirs.len(),
        first_match_from(dirs[i].files@, h, 0) is Some,
        forall|k: int, jj: int|
            lo <= k < i && 0 <= jj < dirs[k].files@.len() ==> (#[trigger] dirs[k].files@[jj].name)@
                != h,
    ensures
        resolve_from(dirs, h, lo) == first_match_from(dirs[i].files@, h, 0),
    decreases i - lo,
{
    if lo < i {
        lemma_no_match_first_none(dirs[lo].files@, h, 0);
        lemma_resolve_to(dirs, h, lo + 1, i);
    }
}

} // verus!
