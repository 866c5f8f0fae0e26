//! Reading a spilled result back: the tool's request, finding the artifact
//! of a call, and the excerpt of its lines.
use vstd::prelude::*;

use crate::spill::{
    artifact_file_name_of, is_spill_of, lemma_spill_artifact_file_name_is_last_component, safe_component, safe_component_of, SpilledToolResult,
    ToolResultSpillConfig,
};
use crate::text::{ends_with, is_blank, is_blank_str, lines_of, split_lines, starts_with, string_views};

verus! {

broadcast use vstd::string::group_string_axioms;

/// Why a spilled result could not be read back.
#[derive(Clone, Debug)]
pub enum ToolArtifactError {
    /// No artifact belongs to the call.
    NoArtifactForCallId { call_id: String },
    /// More than one artifact belongs to the call.
    MultipleArtifactsForCallId { call_id: String },
    /// The request names neither an artifact nor a call.
    MissingArtifactOrCallId,
}

impl ToolArtifactError {
    /// The text that describes the error.
    pub fn message(&self) -> (r: String)
        ensures
            r@ == match self {
                ToolArtifactError::NoArtifactForCallId { call_id } => "no tool artifact found for call_id="@
                    + call_id@,
                ToolArtifactError::MultipleArtifactsForCallId { call_id } =>
                    "multiple tool artifacts found for call_id="@ + call_id@
                    + "; pass artifact path explicitly"@,
                ToolArtifactError::MissingArtifactOrCallId => "provide either artifact or call_id"@,
            },
    {
        match self {
            ToolArtifactError::NoArtifactForCallId { call_id } => {
                let mut s = "no tool artifact found for call_id=".to_string();
                s.append(call_id.as_str());
                s
            },
            ToolArtifactError::MultipleArtifactsForCallId { call_id } => {
                let mut s = "multiple tool artifacts found for call_id=".to_string();
                s.append(call_id.as_str());
                s.append("; pass artifact path explicitly");
                s
            },
            ToolArtifactError::MissingArtifactOrCallId => "provide either artifact or call_id".to_string(),
        }
    }
}

/// A file found under the artifact directory: its path, and its file name
/// when it has one that is valid UTF-8.
#[derive(Clone, Debug)]
pub struct ArtifactFile {
    pub path: String,
    pub file_name: Option<String>,
}

/// Whether `file` is an artifact of the call whose path component is
/// `safe_call_id`: its name starts with it and ends in `.txt`.
pub open spec fn is_call_artifact(file: ArtifactFile, safe_call_id: Seq<char>) -> bool {
    match file.file_name {
        Some(name) => safe_call_id.is_prefix_of(name@) && ".txt"@.is_suffix_of(name@),
        None => false,
    }
}

/// The paths of the artifacts of the call among `files`, in order.
pub open spec fn call_artifacts(files: Seq<ArtifactFile>, safe_call_id: Seq<char>) -> Seq<Seq<char>>
    decreases files.len(),
{
    if files.len() == 0 {
        seq![]
    } else {
        call_artifacts(files.drop_last(), safe_call_id) + if is_call_artifact(
            files.last(),
            safe_call_id,
        ) {
            seq![files.last().path@]
        } else {
            seq![]
        }
    }
}

/// Whether `file` is an artifact of the call whose path component is
/// `safe_call_id`.
pub fn is_call_artifact_file(file: &ArtifactFile, safe_call_id: &str) -> (r: bool)
    ensures
        r == is_call_artifact(*file, safe_call_id@),
{
    match &file.file_name {
        Some(name) => starts_with(name.as_str(), safe_call_id) && ends_with(name.as_str(), ".txt"),
        None => false,
    }
}

/// What finding the artifact of `call_id` among `files` gives: the path of
/// the one artifact of the call, or an error when there is none or more
/// than one.
pub open spec fn found_artifact(
    call_id: Seq<char>,
    files: Seq<ArtifactFile>,
    r: Result<String, ToolArtifactError>,
) -> bool {
    let found = call_artifacts(files, safe_component_of(call_id));
    if found.len() == 0 {
        r matches Err(ToolArtifactError::NoArtifactForCallId { call_id: c }) && c@ == call_id
    } else if found.len() == 1 {
        r matches Ok(p) && p@ == found[0]
    } else {
        r matches Err(ToolArtifactError::MultipleArtifactsForCallId { call_id: c }) && c@ == call_id
    }
}

/// The artifact of the call `call_id` among the files found under the
/// artifact directory.
pub fn find_artifact_by_call_id(call_id: &str, files: &[ArtifactFile]) -> (r: Result<
    String,
    ToolArtifactError,
>)
    ensures
        found_artifact(call_id@, files@, r),
{
    let safe = safe_component(call_id);
    let mut matches: Vec<String> = Vec::new();
    let mut i: usize = 0;
    while i < files.len()
        invariant
            i <= files@.len(),
            safe@ == safe_component_of(call_id@),
            string_views(matches@) == call_artifacts(files@.take(i as int), safe@),
        decreases files.len() - i,
    {
        if is_call_artifact_file(&files[i], safe.as_str()) {
            matches.push(files[i].path.clone());
        }
        assert(files@.take(i + 1).drop_last() =~= files@.take(i as int));
        assert(files@.take(i + 1).last() == files@[i as int]);
        i = i + 1;
        assert(string_views(matches@) =~= call_artifacts(files@.take(i as int), safe@));
    }
    assert(files@.take(files@.len() as int) =~= files@);
    if matches.len() == 0 {
        Err(ToolArtifactError::NoArtifactForCallId { call_id: call_id.to_string() })
    } else if matches.len() == 1 {
        assert(string_views(matches@)[0] == matches@[0]@);
        Ok(matches[0].clone())
    } else {
        Err(ToolArtifactError::MultipleArtifactsForCallId { call_id: call_id.to_string() })
    }
}

/// The file name of an artifact passes the lookup's filter for its call:
/// it starts with the call's path component and ends in `.txt`.
pub proof fn lemma_artifact_file_name_matches_call(tool_call_id: Seq<char>, sha256: Seq<char>)
    ensures
        forall|path: String, name: String|
            name@ == artifact_file_name_of(tool_call_id, sha256) ==> #[trigger] is_call_artifact(
                ArtifactFile { path, file_name: Some(name) },
                safe_component_of(tool_call_id),
            ),
{
    let safe = safe_component_of(tool_call_id);
    let n = artifact_file_name_of(tool_call_id, sha256);
    let mid = safe.push('-') + vstd::utf8::decode_utf8(
        vstd::utf8::encode_utf8(sha256).subrange(0, 12),
    );
    assert(n == mid + ".txt"@);
    assert(safe.is_prefix_of(n)) by {
        assert(n.subrange(0, safe.len() as int) =~= safe);
    }
    assert(".txt"@.is_suffix_of(n)) by {
        assert(n.subrange(n.len() - ".txt"@.len(), n.len() as int) =~= ".txt"@);
    }
}

/// Among files none of which is an artifact of the call, the lookup finds
/// nothing.
proof fn lemma_call_artifacts_none(files: Seq<ArtifactFile>, safe_call_id: Seq<char>)
    requires
        forall|j: int| 0 <= j < files.len() ==> !is_call_artifact(#[trigger] files[j], safe_call_id),
    ensures
        call_artifacts(files, safe_call_id) == Seq::<Seq<char>>::empty(),
    decreases files.len(),
{
    if files.len() > 0 {
        let f = files.drop_last();
        assert forall|j: int| 0 <= j < f.len() implies !is_call_artifact(#[trigger] f[j], safe_call_id) by {
            assert(f[j] == files[j]);
        }
        lemma_call_artifacts_none(f, safe_call_id);
        assert(call_artifacts(files, safe_call_id) =~= Seq::<Seq<char>>::empty());
    }
}

/// Among files exactly one of which, the `k`-th, is an artifact of the
/// call, the lookup finds exactly that file's path.
proof fn lemma_call_artifacts_single(files: Seq<ArtifactFile>, safe_call_id: Seq<char>, k: int)
    requires
        0 <= k < files.len(),
        is_call_artifact(files[k], safe_call_id),
        forall|j: int|
            0 <= j < files.len() && j != k ==> !is_call_artifact(#[trigger] files[j], safe_call_id),
    ensures
        call_artifacts(files, safe_call_id) == seq![files[k].path@],
    decreases files.len(),
{
    let f = files.drop_last();
    if k == files.len() - 1 {
        assert forall|j: int| 0 <= j < f.len() implies !is_call_artifact(#[trigger] f[j], safe_call_id) by {
            assert(f[j] == files[j]);
        }
        lemma_call_artifacts_none(f, safe_call_id);
        assert(call_artifacts(files, safe_call_id) =~= seq![files[k].path@]);
    } else {
        assert(f[k] == files[k]);
        assert forall|j: int|
            0 <= j < f.len() && j != k implies !is_call_artifact(#[trigger] f[j], safe_call_id) by {
            assert(f[j] == files[j]);
        }
        lemma_call_artifacts_single(f, safe_call_id, k);
        assert(!is_call_artifact(files.last(), safe_call_id));
        assert(call_artifacts(files, safe_call_id) =~= seq![files[k].path@]);
    }
}

/// Whether `name` is the last component of `path`: `path` is a
/// directory, `/`, and `name`, which holds no `/` (what `Path::file_name`
/// gives for such a path).
pub open spec fn is_last_component(path: Seq<char>, name: Seq<char>) -> bool {
    &&& forall|i: int| 0 <= i < name.len() ==> #[trigger] name[i] != '/'
    &&& exists|dir: Seq<char>| path == dir + seq!['/'] + name
}

/// A path has at most one last component.
proof fn lemma_last_component_unique(path: Seq<char>, n1: Seq<char>, n2: Seq<char>)
    requires
        is_last_component(path, n1),
        is_last_component(path, n2),
    ensures
        n1 == n2,
{
    let d1 = choose|dir: Seq<char>| path == dir + seq!['/'] + n1;
    let d2 = choose|dir: Seq<char>| path == dir + seq!['/'] + n2;
    assert(path == d1 + seq!['/'] + n1);
    assert(path == d2 + seq!['/'] + n2);
    assert(path.len() == d1.len() + 1 + n1.len());
    assert(path.len() == d2.len() + 1 + n2.len());
    if n1.len() < n2.len() {
        let i = n2.len() - n1.len() - 1;
        assert(path[d2.len() + 1 + i] == n2[i]);
        assert(path[d2.len() + 1 + i] == path[path.len() - n1.len() - 1]);
        assert(path[d1.len() as int] == '/');
    } else if n2.len() < n1.len() {
        let i = n1.len() - n2.len() - 1;
        assert(path[d1.len() + 1 + i] == n1[i]);
        assert(path[d1.len() + 1 + i] == path[path.len() - n2.len() - 1]);
        assert(path[d2.len() as int] == '/');
    } else {
        assert(d1.len() == d2.len());
        assert forall|i: int| 0 <= i < n1.len() implies n1[i] == n2[i] by {
            assert(path[d1.len() + 1 + i] == n1[i]);
            assert(path[d2.len() + 1 + i] == n2[i]);
        }
        assert(n1 =~= n2);
    }
}

/// A spilled artifact is found again by its call id: when the files found
/// under the artifact directory hold the file at the spill's artifact path,
/// named by the last component of that path, and no other artifact of the
/// same call, the lookup of the call gives the spill's artifact path.
pub proof fn lemma_spilled_artifact_found_by_call_id(
    r: SpilledToolResult,
    cfg: ToolResultSpillConfig,
    session_id: Seq<char>,
    tool_call_id: Seq<char>,
    tool_name: Seq<char>,
    raw_text: Seq<char>,
    files: Seq<ArtifactFile>,
    k: int,
)
    requires
        is_spill_of(r, cfg, session_id, tool_call_id, tool_name, raw_text),
        r.sha256@.len() == 64,
        0 <= k < files.len(),
        files[k].path@ == r.artifact_path@,
        files[k].file_name matches Some(name) && is_last_component(r.artifact_path@, name@),
        forall|j: int|
            0 <= j < files.len() && j != k ==> !is_call_artifact(
                #[trigger] files[j],
                safe_component_of(tool_call_id),
            ),
    ensures
        is_last_component(r.artifact_path@, artifact_file_name_of(tool_call_id, r.sha256@)),
        call_artifacts(files, safe_component_of(tool_call_id)) == seq![r.artifact_path@],
        forall|res: Result<String, ToolArtifactError>|
            #[trigger] found_artifact(tool_call_id, files, res) ==> (res matches Ok(p) && p@
                == r.artifact_path@),
{
    lemma_spill_artifact_file_name_is_last_component(
        r,
        cfg,
        session_id,
        tool_call_id,
        tool_name,
        raw_text,
    );
    let fname = artifact_file_name_of(tool_call_id, r.sha256@);
    let dir = crate::text::path_join(cfg.artifact_dir@, safe_component_of(session_id));
    assert(r.artifact_path@ == dir + seq!['/'] + fname);
    assert(is_last_component(r.artifact_path@, fname));
    let name = files[k].file_name->0;
    lemma_last_component_unique(r.artifact_path@, name@, fname);
    lemma_artifact_file_name_matches_call(tool_call_id, r.sha256@);
    assert(is_call_artifact(
        ArtifactFile { path: files[k].path, file_name: Some(name) },
        safe_component_of(tool_call_id),
    ));
    assert(files[k] == ArtifactFile { path: files[k].path, file_name: Some(name) });
    lemma_call_artifacts_single(files, safe_component_of(tool_call_id), k);
}

/// `lines`, each followed by `'\n'`, one after the other.
pub open spec fn terminated_lines(lines: Seq<Seq<char>>) -> Seq<char>
    decreases lines.len(),
{
    if lines.len() == 0 {
        seq![]
    } else {
        terminated_lines(lines.drop_last()) + lines.last().push('\n')
    }
}

/// The excerpt of an artifact: its whole text when no line range is given;
/// otherwise its lines numbered from `start_line` (at least 1, 1 by
/// default) to `end_line` (no limit by default), each followed by `'\n'`.
pub open spec fn artifact_excerpt(
    content: Seq<char>,
    start_line: Option<usize>,
    end_line: Option<usize>,
) -> Seq<char> {
    if start_line is None && end_line is None {
        content
    } else {
        let lines = lines_of(content);
        let start: int = match start_line {
            Some(s) => if s >= 1 {
                s as int
            } else {
                1
            },
            None => 1,
        };
        let end: int = match end_line {
            Some(e) => e as int,
            None => usize::MAX as int,
        };
        let hi: int = if end < lines.len() {
            end
        } else {
            lines.len() as int
        };
        let lo: int = if start - 1 < hi {
            start - 1
        } else {
            hi
        };
        terminated_lines(lines.subrange(lo, hi))
    }
}

/// The lines `start_line..=end_line` of an artifact's text (numbered from
/// 1), or the whole text when no range is given.
pub fn select_artifact_lines(content: &str, start_line: Option<usize>, end_line: Option<usize>) -> (r:
    String)
    ensures
        r@ == artifact_excerpt(content@, start_line, end_line),
{
    if start_line.is_none() && end_line.is_none() {
        return content.to_owned();
    }
    let lines = split_lines(content);
    let start: usize = match start_line {
        Some(s) => if s >= 1 {
            s
        } else {
            1
        },
        None => 1,
    };
    let end: usize = match end_line {
        Some(e) => e,
        None => usize::MAX,
    };
    let hi = if end < lines.len() {
        end
    } else {
        lines.len()
    };
    let lo = if start - 1 < hi {
        start - 1
    } else {
        hi
    };
    let ghost lv = string_views(lines@);
    let mut out = String::new();
    let mut i = lo;
    while i < hi
        invariant
            lo <= i <= hi <= lines@.len(),
            lv == string_views(lines@),
            out@ == terminated_lines(lv.subrange(lo as int, i as int)),
        decreases hi - i,
    {
        out.append(lines[i].as_str());
        crate::text::push_char(&mut out, '\n');
        proof {
            assert(lv.subrange(lo as int, i + 1).drop_last() =~= lv.subrange(lo as int, i as int));
            assert(lv.subrange(lo as int, i + 1).last() == lines@[i as int]@);
        }
        i = i + 1;
    }
    out
}

/// Without a range the excerpt is the whole text, and with the range from
/// line 1 on it is every line, each followed by `'\n'`.
pub proof fn lemma_excerpt_full_range(content: Seq<char>)
    requires
        content.len() <= usize::MAX,
    ensures
        artifact_excerpt(content, None, None) == content,
        artifact_excerpt(content, Some(1usize), None) == terminated_lines(lines_of(content)),
{
    let lines = lines_of(content);
    assert(lines.len() <= usize::MAX) by {
        lemma_lines_of_len(content);
    }
    assert(lines.subrange(0, lines.len() as int) =~= lines);
}

/// An end line at or past the last line reads the same as no end line:
/// the range is cut off at the last line.
pub proof fn lemma_excerpt_end_past_last_line(
    content: Seq<char>,
    start_line: Option<usize>,
    end_line: usize,
)
    requires
        content.len() <= usize::MAX,
        end_line >= lines_of(content).len(),
    ensures
        start_line is Some ==> artifact_excerpt(content, start_line, Some(end_line))
            == artifact_excerpt(content, start_line, None),
        artifact_excerpt(content, None, Some(end_line)) == artifact_excerpt(
            content,
            Some(1usize),
            None,
        ),
{
    lemma_lines_of_len(content);
}

/// A missing start line, and a start line of 0, both read from line 1.
pub proof fn lemma_excerpt_start_defaults(content: Seq<char>, end_line: Option<usize>)
    ensures
        artifact_excerpt(content, Some(0usize), end_line) == artifact_excerpt(
            content,
            Some(1usize),
            end_line,
        ),
        end_line is Some ==> artifact_excerpt(content, None, end_line) == artifact_excerpt(
            content,
            Some(1usize),
            end_line,
        ),
{
}

/// The range of one line `n` holds line `n` followed by `'\n'` when the
/// text has that line, and nothing when it does not.
pub proof fn lemma_excerpt_single_line(content: Seq<char>, n: usize)
    requires
        1 <= n,
    ensures
        n <= lines_of(content).len() ==> artifact_excerpt(content, Some(n), Some(n))
            == lines_of(content)[n - 1].push('\n'),
        n > lines_of(content).len() ==> artifact_excerpt(content, Some(n), Some(n)) == Seq::<
            char,
        >::empty(),
{
    let lines = lines_of(content);
    if n <= lines.len() {
        let one = lines.subrange(n - 1, n as int);
        assert(one.drop_last() =~= Seq::<Seq<char>>::empty());
        assert(one.last() == lines[n - 1]);
        assert(terminated_lines(one) == terminated_lines(one.drop_last()) + one.last().push('\n'));
        assert(terminated_lines(Seq::<Seq<char>>::empty()) =~= Seq::<char>::empty());
        assert(terminated_lines(one) =~= lines[n - 1].push('\n'));
    } else {
        let none = lines.subrange(lines.len() as int, lines.len() as int);
        assert(none =~= Seq::<Seq<char>>::empty());
    }
}

/// A range whose start line comes after its end line reads nothing.
pub proof fn lemma_excerpt_empty_when_start_after_end(content: Seq<char>, s: usize, e: usize)
    requires
        s > e,
    ensures
        artifact_excerpt(content, Some(s), Some(e)) == Seq::<char>::empty(),
{
    let lines = lines_of(content);
    let hi: int = if e < lines.len() {
        e as int
    } else {
        lines.len() as int
    };
    assert(lines.subrange(hi, hi) =~= Seq::<Seq<char>>::empty());
}

/// Joining lines and then appending is joining the concatenated lines.
proof fn lemma_terminated_lines_concat(a: Seq<Seq<char>>, b: Seq<Seq<char>>)
    ensures
        terminated_lines(a + b) == terminated_lines(a) + terminated_lines(b),
    decreases b.len(),
{
    if b.len() == 0 {
        assert(a + b =~= a);
        assert(terminated_lines(a) + terminated_lines(b) =~= terminated_lines(a));
    } else {
        lemma_terminated_lines_concat(a, b.drop_last());
        assert((a + b).drop_last() =~= a + b.drop_last());
        assert((a + b).last() == b.last());
        assert(terminated_lines(a + b) =~= terminated_lines(a) + terminated_lines(b));
    }
}

/// Two adjacent line ranges read one after the other give the range that
/// spans both: lines `s..=m` followed by lines `m + 1..=e` are lines
/// `s..=e`.
pub proof fn lemma_excerpt_split(content: Seq<char>, s: usize, m: usize, e: usize)
    requires
        1 <= s <= m + 1,
        m < e,
    ensures
        artifact_excerpt(content, Some(s), Some(m)) + artifact_excerpt(
            content,
            Some((m + 1) as usize),
            Some(e),
        ) == artifact_excerpt(content, Some(s), Some(e)),
{
    let lines = lines_of(content);
    let n = lines.len() as int;
    let hi1: int = if m < n {
        m as int
    } else {
        n
    };
    let hi: int = if e < n {
        e as int
    } else {
        n
    };
    let lo: int = if s - 1 < hi {
        s - 1
    } else {
        hi
    };
    assert(lo <= hi1 <= hi);
    assert(lines.subrange(lo, hi1) + lines.subrange(hi1, hi) =~= lines.subrange(lo, hi));
    lemma_terminated_lines_concat(lines.subrange(lo, hi1), lines.subrange(hi1, hi));
}

/// A text has at most as many lines as characters.
pub proof fn lemma_lines_of_len(s: Seq<char>)
    ensures
        lines_of(s).len() <= s.len(),
    decreases s.len(),
{
    if s.len() > 0 {
        let k = crate::text::newline_offset(s);
        if k < s.len() {
            lemma_lines_of_len(s.skip(k + 1 as int));
        }
    }
}

/// The request of the tool that reads spilled results back.
#[derive(Clone, Debug)]
pub struct ReadToolArtifactInput {
    pub call_id: Option<String>,
    pub artifact: Option<String>,
    pub start_line: Option<usize>,
    pub end_line: Option<usize>,
}

/// What the request reads: an artifact given by its path, or the artifact
/// of a call.
#[derive(Clone, Debug)]
pub enum ArtifactTarget {
    Path(String),
    CallId(String),
}

/// The target of a request: its artifact path unless that is missing or
/// blank, else its call id unless that is missing or blank.
pub open spec fn target_of(input: ReadToolArtifactInput, r: Result<ArtifactTarget, ToolArtifactError>) -> bool {
    if input.artifact is Some && !is_blank(input.artifact->0@) {
        r matches Ok(ArtifactTarget::Path(p)) && p@ == input.artifact->0@
    } else if input.call_id is Some && !is_blank(input.call_id->0@) {
        r matches Ok(ArtifactTarget::CallId(c)) && c@ == input.call_id->0@
    } else {
        r matches Err(ToolArtifactError::MissingArtifactOrCallId)
    }
}

/// What the request `input` reads.
pub fn artifact_target(input: &ReadToolArtifactInput) -> (r: Result<ArtifactTarget, ToolArtifactError>)
    ensures
        target_of(*input, r),
{
    if let Some(artifact) = &input.artifact {
        if !is_blank_str(artifact.as_str()) {
            return Ok(ArtifactTarget::Path(artifact.clone()));
        }
    }
    if let Some(call_id) = &input.call_id {
        if !is_blank_str(call_id.as_str()) {
            return Ok(ArtifactTarget::CallId(call_id.clone()));
        }
    }
    Err(ToolArtifactError::MissingArtifactOrCallId)
}

/// The title of the tool's output for the artifact at `path`.
pub fn artifact_title(path: &str) -> (r: String)
    ensures
        r@ == "tool artifact: "@ + path@,
{
    let mut s = "tool artifact: ".to_string();
    s.append(path);
    s
}

/// The tool that reads the full text of a spilled tool result.
#[derive(Clone, Copy, Debug)]
pub struct ReadToolArtifactTool;

impl ReadToolArtifactTool {
    /// The tool.
    pub fn new() -> (r: Self)
        ensures
            r == ReadToolArtifactTool,
    {
        ReadToolArtifactTool
    }

    /// The tool's name.
    pub fn name(&self) -> (r: &'static str)
        ensures
            r@ == "read_tool_artifact"@,
    {
        "read_tool_artifact"
    }

    /// The tool's description.
    pub fn description(&self) -> (r: &'static str)
        ensures
            r@ == "Read the full raw output for a spilled tool result artifact, by artifact path or unique call_id. Supports optional 1-based line ranges."@,
    {
        "Read the full raw output for a spilled tool result artifact, by artifact path or unique call_id. Supports optional 1-based line ranges."
    }
}

} // verus!
