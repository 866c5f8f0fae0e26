//! Spilling one tool result: the artifact's path and digest, the preview,
//! and the inline text that replaces the result in the conversation.
use vstd::prelude::*;
use vstd::string::StringSliceAdditionalSpecFns;
use vstd::utf8::*;

use crate::preview::{head_tail_preview, preview_of};
use crate::text::{
    chars_of, decimal, has_prefix_at, hex_digit, hex_lower, is_blank, is_blank_str, is_white_space,
    is_white_space_char, join_path, lines_of, path_join, push_char, push_decimal, replace_all,
    replace_str, split_lines, starts_with, string_from_range, to_hex_lower, trim_start, utf8_len,
};
use sha2::{Digest, Sha256};

verus! {

broadcast use {vstd::string::group_string_axioms, vstd::utf8::group_utf8_lib};

/// The first line of every spilled tool result.
pub const SPILLED_MARKER: &'static str = "[tool result spilled]";

/// Totals of one compaction pass.
#[derive(Clone, Copy, Debug, PartialEq, Eq, Structural)]
pub struct SpillStats {
    pub count: usize,
    pub original_bytes: usize,
    pub inline_bytes: usize,
}

impl SpillStats {
    /// The bytes that the pass took out of the conversation.
    pub fn saved_bytes(&self) -> (r: usize)
        ensures
            r == (if self.original_bytes >= self.inline_bytes {
                self.original_bytes - self.inline_bytes
            } else {
                0
            }),
    {
        self.original_bytes.saturating_sub(self.inline_bytes)
    }
}

/// One spilled tool result: where its full text is kept, and what stands
/// for it in the conversation.
#[derive(Clone, Debug)]
pub struct SpilledToolResult {
    pub artifact_path: String,
    pub sha256: String,
    pub original_bytes: usize,
    pub original_lines: usize,
    pub inline_replacement: String,
}

/// The settings of spilling.
#[derive(Clone, Debug)]
pub struct ToolResultSpillConfig {
    pub enabled: bool,
    pub inline_threshold_bytes: usize,
    pub preview_head_bytes: usize,
    pub preview_tail_bytes: usize,
    pub artifact_dir: String,
}

/// The feature settings that the spill configuration is read from.
#[derive(Clone, Debug)]
pub struct SpillFeatures {
    pub tool_result_spill_enabled: bool,
    pub tool_result_inline_threshold_bytes: usize,
    pub tool_result_preview_head_bytes: usize,
    pub tool_result_preview_tail_bytes: usize,
    pub tool_result_artifact_dir: Option<String>,
}

/// The view of an optional string.
pub open spec fn opt_view(o: Option<String>) -> Option<Seq<char>> {
    match o {
        Some(s) => Some(s@),
        None => None,
    }
}

/// The directory that artifacts go to: a configured directory that is not
/// blank (with a leading `~/` taken from the home directory when there is
/// one), else `tool-artifacts` under the jcode directory, else under
/// `.jcode` in the home directory, else under `./.jcode`.
pub open spec fn artifact_dir_of(
    configured: Option<Seq<char>>,
    home: Option<Seq<char>>,
    jcode_dir: Option<Seq<char>>,
) -> Seq<char> {
    if configured is Some && !is_blank(configured->0) {
        let path = configured->0;
        if "~/"@.is_prefix_of(path) && home is Some {
            path_join(home->0, path.skip("~/"@.len() as int))
        } else {
            path
        }
    } else {
        let base = match jcode_dir {
            Some(d) => d,
            None => path_join(
                match home {
                    Some(h) => h,
                    None => "."@,
                },
                ".jcode"@,
            ),
        };
        path_join(base, "tool-artifacts"@)
    }
}

/// A configured directory `~/rest` is `rest` under the home directory, whatever
/// the jcode directory is; without a home directory it stays as written.
pub proof fn lemma_configured_home_dir_expands_against_home(
    rest: Seq<char>,
    home: Option<Seq<char>>,
    jcode_dir: Option<Seq<char>>,
    other_jcode_dir: Option<Seq<char>>,
)
    ensures
        home is Some ==> artifact_dir_of(Some("~/"@ + rest), home, jcode_dir) == path_join(
            home->0,
            rest,
        ),
        home is None ==> artifact_dir_of(Some("~/"@ + rest), home, jcode_dir) == "~/"@ + rest,
        artifact_dir_of(Some("~/"@ + rest), home, jcode_dir) == artifact_dir_of(
            Some("~/"@ + rest),
            home,
            other_jcode_dir,
        ),
{
    reveal_strlit("~/");
    let path = "~/"@ + rest;
    assert(!is_blank(path)) by {
        assert(path[0] == '~');
        assert(!is_white_space(path[0]));
    }
    assert("~/"@.is_prefix_of(path)) by {
        assert(path.take(2) =~= "~/"@);
    }
    assert(path.skip("~/"@.len() as int) =~= rest);
}

/// Whether resolving the artifact directory reads the home directory.
pub open spec fn artifact_dir_needs_home(
    configured: Option<Seq<char>>,
    jcode_dir: Option<Seq<char>>,
) -> bool {
    if configured is Some && !is_blank(configured->0) {
        "~/"@.is_prefix_of(configured->0)
    } else {
        jcode_dir is None
    }
}

/// `dirs::home_dir`, as a string (a path that is not valid UTF-8 is
/// converted lossily). It reads the environment, so nothing is stated of
/// what it returns.
#[verifier::external_body]
fn home_dir() -> (r: Option<String>) {
    match dirs::home_dir() {
        Some(p) => Some(p.to_string_lossy().into_owned()),
        None => None,
    }
}

/// The artifact directory for the given configured directory, home
/// directory and jcode directory.
pub fn resolve_artifact_dir(
    configured: Option<String>,
    home: Option<String>,
    jcode_dir: Option<String>,
) -> (r: String)
    ensures
        r@ == artifact_dir_of(opt_view(configured), opt_view(home), opt_view(jcode_dir)),
{
    if let Some(path) = configured {
        if !is_blank_str(path.as_str()) {
            if starts_with(path.as_str(), "~/") {
                if let Some(h) = home {
                    let cs = chars_of(path.as_str());
                    proof {
                        reveal_strlit("~/");
                    }
                    let rest = string_from_range(&cs, 2, cs.len());
                    assert(rest@ =~= path@.skip("~/"@.len() as int));
                    return join_path(h.as_str(), rest.as_str());
                }
            }
            return path;
        }
    }
    let base = match jcode_dir {
        Some(d) => d,
        None => {
            let h = match home {
                Some(h) => h,
                None => ".".to_string(),
            };
            join_path(h.as_str(), ".jcode")
        },
    };
    join_path(base.as_str(), "tool-artifacts")
}

/// The artifact directory for a configured directory and a jcode
/// directory; the home directory is read only where the result depends on
/// it.
pub fn artifact_dir_from_config(configured: Option<String>, jcode_dir: Option<String>) -> (r:
    String)
    ensures
        exists|home: Option<Seq<char>>|
            r@ == artifact_dir_of(opt_view(configured), home, opt_view(jcode_dir)),
        !artifact_dir_needs_home(opt_view(configured), opt_view(jcode_dir)) ==> r@
            == artifact_dir_of(opt_view(configured), None, opt_view(jcode_dir)),
{
    let needs_home = match &configured {
        Some(path) => if !is_blank_str(path.as_str()) {
            starts_with(path.as_str(), "~/")
        } else {
            jcode_dir.is_none()
        },
        None => jcode_dir.is_none(),
    };
    let home = if needs_home {
        home_dir()
    } else {
        None
    };
    let ghost cv = opt_view(configured);
    let ghost jv = opt_view(jcode_dir);
    let r = resolve_artifact_dir(configured, home, jcode_dir);
    assert(r@ == artifact_dir_of(cv, opt_view(home), jv));
    r
}

impl ToolResultSpillConfig {
    /// The spill configuration of the given feature settings.
    pub fn load(features: &SpillFeatures, jcode_dir: Option<String>) -> (r: Self)
        ensures
            r.enabled == features.tool_result_spill_enabled,
            r.inline_threshold_bytes == features.tool_result_inline_threshold_bytes,
            r.preview_head_bytes == features.tool_result_preview_head_bytes,
            r.preview_tail_bytes == features.tool_result_preview_tail_bytes,
            exists|home: Option<Seq<char>>|
                r.artifact_dir@ == artifact_dir_of(
                    opt_view(features.tool_result_artifact_dir),
                    home,
                    opt_view(jcode_dir),
                ),
            !artifact_dir_needs_home(opt_view(features.tool_result_artifact_dir), opt_view(jcode_dir))
                ==> r.artifact_dir@ == artifact_dir_of(
                opt_view(features.tool_result_artifact_dir),
                None,
                opt_view(jcode_dir),
            ),
    {
        let configured = match &features.tool_result_artifact_dir {
            Some(d) => Some(d.clone()),
            None => None,
        };
        ToolResultSpillConfig {
            enabled: features.tool_result_spill_enabled,
            inline_threshold_bytes: features.tool_result_inline_threshold_bytes,
            preview_head_bytes: features.tool_result_preview_head_bytes,
            preview_tail_bytes: features.tool_result_preview_tail_bytes,
            artifact_dir: artifact_dir_from_config(configured, jcode_dir),
        }
    }
}

/// Whether `content`, after its leading white space, starts with the
/// spilled marker.
pub open spec fn is_spilled(content: Seq<char>) -> bool {
    SPILLED_MARKER@.is_prefix_of(trim_start(content))
}

proof fn lemma_trim_start_skip(s: Seq<char>, i: int)
    requires
        0 <= i <= s.len(),
        forall|j: int| 0 <= j < i ==> is_white_space(#[trigger] s[j]),
        i == s.len() || !is_white_space(s[i]),
    ensures
        trim_start(s) == s.skip(i),
    decreases i,
{
    if i == 0 {
        assert(s.skip(0) =~= s);
    } else {
        let t = s.drop_first();
        assert forall|j: int| 0 <= j < i - 1 implies is_white_space(#[trigger] t[j]) by {
            assert(t[j] == s[j + 1]);
        }
        lemma_trim_start_skip(t, i - 1);
        assert(t.skip(i - 1) =~= s.skip(i));
    }
}

/// Whether `content` is already a spilled tool result.
pub fn is_spilled_tool_result(content: &str) -> (r: bool)
    ensures
        r == is_spilled(content@),
{
    let cs = chars_of(content);
    let marker = chars_of(SPILLED_MARKER);
    let mut i: usize = 0;
    while i < cs.len() && is_white_space_char(cs[i])
        invariant
            i <= cs@.len(),
            forall|j: int| 0 <= j < i ==> is_white_space(#[trigger] cs@[j]),
        decreases cs.len() - i,
    {
        i = i + 1;
    }
    proof {
        lemma_trim_start_skip(cs@, i as int);
    }
    has_prefix_at(&cs, i, &marker)
}

/// Whether `c` is kept as it is in a path component.
pub open spec fn is_safe_char(c: char) -> bool {
    ||| 'a' <= c <= 'z'
    ||| 'A' <= c <= 'Z'
    ||| '0' <= c <= '9'
    ||| c == '-'
    ||| c == '_'
    ||| c == '.'
}

/// `c` as it stands in a path component.
pub open spec fn safe_char(c: char) -> char {
    if is_safe_char(c) {
        c
    } else {
        '_'
    }
}

/// The longest a path component gets, in characters.
pub const MAX_COMPONENT_CHARS: usize = 120;

/// The path component for `input`: each character that is not an ASCII
/// letter or digit, `-`, `_` or `.` becomes `_`, at most the first 120
/// characters are kept, and an empty result becomes `unknown`.
pub open spec fn safe_component_of(input: Seq<char>) -> Seq<char> {
    if input.len() == 0 {
        "unknown"@
    } else {
        input.map_values(|c: char| safe_char(c)).take(
            if input.len() < MAX_COMPONENT_CHARS {
                input.len() as int
            } else {
                MAX_COMPONENT_CHARS as int
            },
        )
    }
}

/// `input` made safe to stand as one component of a path.
pub fn safe_component(input: &str) -> (r: String)
    ensures
        r@ == safe_component_of(input@),
{
    let cs = chars_of(input);
    if cs.len() == 0 {
        return "unknown".to_string();
    }
    let mut out = String::new();
    let mut i: usize = 0;
    while i < cs.len() && i < MAX_COMPONENT_CHARS
        invariant
            i <= cs@.len(),
            i <= MAX_COMPONENT_CHARS,
            out@ == cs@.map_values(|c: char| safe_char(c)).take(i as int),
        decreases cs.len() - i,
    {
        let c = cs[i];
        let keep = ('a' <= c && c <= 'z') || ('A' <= c && c <= 'Z') || ('0' <= c && c <= '9') || c
            == '-' || c == '_' || c == '.';
        if keep {
            push_char(&mut out, c);
        } else {
            push_char(&mut out, '_');
        }
        i = i + 1;
        assert(out@ =~= cs@.map_values(|c: char| safe_char(c)).take(i as int));
    }
    out
}

/// A path component is never empty, holds at most 120 characters, and
/// only ASCII letters and digits, `-`, `_` and `.`.
pub proof fn lemma_safe_component_is_safe(input: Seq<char>)
    ensures
        0 < safe_component_of(input).len() <= MAX_COMPONENT_CHARS,
        forall|i: int|
            0 <= i < safe_component_of(input).len() ==> is_safe_char(
                #[trigger] safe_component_of(input)[i],
            ),
{
    reveal_strlit("unknown");
}

/// Making a path component safe twice changes nothing more.
pub proof fn lemma_safe_component_idempotent(input: Seq<char>)
    ensures
        safe_component_of(safe_component_of(input)) == safe_component_of(input),
{
    reveal_strlit("unknown");
    let s = safe_component_of(input);
    lemma_safe_component_is_safe(input);
    assert(safe_component_of(s) =~= s);
}

/// The number of lines of `text` (`str::lines`).
pub fn count_lines(text: &str) -> (r: usize)
    ensures
        r == lines_of(text@).len(),
{
    let lines = split_lines(text);
    lines.len()
}

/// The SHA-256 digest of `data`. It takes pages to state, so it is named
/// and not written out.
pub uninterp spec fn sha256_digest_of(data: Seq<u8>) -> Seq<u8>;

/// `sha2::Sha256::digest`: the SHA-256 digest of `data`, 32 bytes long.
#[verifier::external_body]
fn sha256_digest(data: &[u8]) -> (r: Vec<u8>)
    ensures
        r@ == sha256_digest_of(data@),
        r@.len() == 32,
{
    Sha256::digest(data).to_vec()
}

/// The lowercase hexadecimal SHA-256 digest of `bytes`.
pub fn sha256_hex(bytes: &[u8]) -> (r: String)
    ensures
        r@ == hex_lower(sha256_digest_of(bytes@)),
        r@.len() == 64,
{
    let digest = sha256_digest(bytes);
    to_hex_lower(digest.as_slice())
}

/// The path of the artifact: the directory of the session under `root`,
/// and in it a file named after the call and the first 12 bytes of the
/// digest.
pub open spec fn artifact_path_of(
    root: Seq<char>,
    session_id: Seq<char>,
    tool_call_id: Seq<char>,
    sha256: Seq<char>,
) -> Seq<char> {
    path_join(
        path_join(root, safe_component_of(session_id)),
        artifact_file_name_of(tool_call_id, sha256),
    )
}

/// The file name of an artifact: the call's path component, `-`, the first
/// 12 bytes of the digest, and `.txt`.
pub open spec fn artifact_file_name_of(tool_call_id: Seq<char>, sha256: Seq<char>) -> Seq<char> {
    safe_component_of(tool_call_id).push('-') + decode_utf8(encode_utf8(sha256).subrange(0, 12))
        + ".txt"@
}

/// The path of the artifact of one tool result.
pub fn artifact_path(root: &str, session_id: &str, tool_call_id: &str, sha256: &str) -> (r: String)
    requires
        is_char_boundary(encode_utf8(sha256@), 12),
    ensures
        r@ == artifact_path_of(root@, session_id@, tool_call_id@, sha256@),
{
    let session_dir = join_path(root, safe_component(session_id).as_str());
    let mut file_name = safe_component(tool_call_id);
    push_char(&mut file_name, '-');
    let (prefix, _) = sha256.split_at(12);
    file_name.append(prefix);
    file_name.append(".txt");
    proof {
        assert(prefix@ == decode_utf8(prefix.spec_bytes()));
    }
    join_path(session_dir.as_str(), file_name.as_str())
}

/// Every character of the hexadecimal encoding is ASCII.
proof fn lemma_hex_lower_ascii(bytes: Seq<u8>)
    ensures
        is_ascii_chars(hex_lower(bytes)),
    decreases bytes.len(),
{
    if bytes.len() > 0 {
        lemma_hex_lower_ascii(bytes.drop_last());
        let h = hex_lower(bytes);
        let rest = hex_lower(bytes.drop_last());
        let b = bytes.last();
        assert(h =~= rest + seq![hex_digit(b / 16), hex_digit(b % 16)]);
        assert forall|i: int| 0 <= i < h.len() implies '\0' <= #[trigger] h[i] <= '\u{7f}' by {
            if i >= rest.len() {
                assert(h[i] == hex_digit(b / 16) || h[i] == hex_digit(b % 16));
            } else {
                assert(h[i] == rest[i]);
            }
        }
    }
}

/// No character of the hexadecimal encoding is `/`.
proof fn lemma_hex_lower_no_slash(bytes: Seq<u8>)
    ensures
        forall|i: int| 0 <= i < hex_lower(bytes).len() ==> #[trigger] hex_lower(bytes)[i] != '/',
    decreases bytes.len(),
{
    if bytes.len() > 0 {
        lemma_hex_lower_no_slash(bytes.drop_last());
        let h = hex_lower(bytes);
        let rest = hex_lower(bytes.drop_last());
        let b = bytes.last();
        assert(h =~= rest + seq![hex_digit(b / 16), hex_digit(b % 16)]);
        assert forall|i: int| 0 <= i < h.len() implies #[trigger] h[i] != '/' by {
            if i >= rest.len() {
                assert(h[i] == hex_digit(b / 16) || h[i] == hex_digit(b % 16));
            } else {
                assert(h[i] == rest[i]);
            }
        }
    }
}

/// The first `k` bytes of an ASCII text decode to its first `k`
/// characters.
proof fn lemma_ascii_prefix_decode(s: Seq<char>, k: int)
    requires
        is_ascii_chars(s),
        0 <= k <= s.len(),
    ensures
        decode_utf8(encode_utf8(s).subrange(0, k)) == s.take(k),
{
    is_ascii_chars_encode_utf8(s);
    let t = s.take(k);
    assert(is_ascii_chars(t)) by {
        assert forall|i: int| 0 <= i < t.len() implies '\0' <= #[trigger] t[i] <= '\u{7f}' by {
            assert(t[i] == s[i]);
        }
    }
    is_ascii_chars_encode_utf8(t);
    assert(encode_utf8(t) =~= encode_utf8(s).subrange(0, k)) by {
        assert forall|i: int| 0 <= i < k implies encode_utf8(t)[i] == encode_utf8(s).subrange(0, k)[i] by {
            assert(t[i] == s[i]);
        }
    }
}

/// The artifact of a spill is a file in the session's directory: its path
/// is a directory, `/`, and the artifact's file name, which holds no `/`.
pub proof fn lemma_spill_artifact_file_name_is_last_component(
    r: SpilledToolResult,
    cfg: ToolResultSpillConfig,
    session_id: Seq<char>,
    tool_call_id: Seq<char>,
    tool_name: Seq<char>,
    raw_text: Seq<char>,
)
    requires
        is_spill_of(r, cfg, session_id, tool_call_id, tool_name, raw_text),
        r.sha256@.len() == 64,
    ensures
        forall|i: int|
            0 <= i < artifact_file_name_of(tool_call_id, r.sha256@).len() ==> #[trigger] artifact_file_name_of(
                tool_call_id,
                r.sha256@,
            )[i] != '/',
        r.artifact_path@ == path_join(cfg.artifact_dir@, safe_component_of(session_id)) + seq!['/']
            + artifact_file_name_of(tool_call_id, r.sha256@),
{
    reveal_strlit(".txt");
    let sha = r.sha256@;
    let digest = sha256_digest_of(encode_utf8(raw_text));
    lemma_hex_lower_ascii(digest);
    lemma_hex_lower_no_slash(digest);
    crate::text::lemma_hex_lower_len(digest);
    lemma_ascii_prefix_decode(sha, 12);
    lemma_safe_component_is_safe(tool_call_id);
    lemma_safe_component_is_safe(session_id);
    let safe_call = safe_component_of(tool_call_id);
    let safe_session = safe_component_of(session_id);
    let name = artifact_file_name_of(tool_call_id, sha);
    let head = safe_call.push('-');
    assert(name =~= head + sha.take(12) + ".txt"@);
    assert(".txt"@.len() == 4);
    assert forall|i: int| 0 <= i < name.len() implies #[trigger] name[i] != '/' by {
        if i < safe_call.len() {
            assert(is_safe_char(safe_call[i]));
        } else if i == safe_call.len() {
        } else if i < safe_call.len() + 13 {
            assert(name[i] == sha.take(12)[i - head.len()]);
            assert(sha.take(12)[i - head.len()] == sha[i - head.len()]);
        } else {
            assert(name[i] == ".txt"@[i - head.len() - 12]);
        }
    }
    let dir = path_join(cfg.artifact_dir@, safe_session);
    assert(is_safe_char(safe_session[0]));
    assert(is_safe_char(safe_session.last()));
    assert(dir.len() > 0 && dir.last() == safe_session.last());
    assert(is_safe_char(safe_call[0]));
    assert(name[0] == safe_call[0]);
}

/// In an ASCII text every byte index up to the end is a character
/// boundary.
proof fn lemma_ascii_char_boundary(s: Seq<char>, i: int)
    requires
        is_ascii_chars(s),
        0 <= i <= s.len(),
    ensures
        is_char_boundary(encode_utf8(s), i),
{
    is_ascii_chars_encode_utf8(s);
    let b = encode_utf8(s);
    if i < s.len() {
        assert(s[i] as u8 == b[i]);
        assert(b[i] < 0x80) by {
            assert((s[i] as nat) < 128);
        }
        is_char_boundary_iff_not_is_continuation_byte(b, i);
    } else {
        is_char_boundary_start_end_of_seq(b);
    }
}

/// The inline text that stands for a spilled result before its own length
/// is filled in.
pub open spec fn replacement_template(
    tool_name: Seq<char>,
    tool_call_id: Seq<char>,
    original_bytes: nat,
    original_lines: nat,
    artifact_path: Seq<char>,
    sha256: Seq<char>,
    preview: Seq<char>,
) -> Seq<char> {
    SPILLED_MARKER@ + "\ntool="@ + tool_name + "\ncall_id="@ + tool_call_id + "\noriginal_bytes="@
        + decimal(original_bytes) + "\noriginal_lines="@ + decimal(original_lines)
        + "\ninline_bytes=0\nartifact="@ + artifact_path + "\nsha256="@ + sha256
        + "\npreview_strategy=head_tail\npreview:\n"@ + preview
}

/// The inline text with its `inline_bytes=0` filled in with the byte
/// length of the template.
pub open spec fn fill_inline_bytes(template: Seq<char>) -> Seq<char> {
    replace_all(
        template,
        "inline_bytes=0"@,
        "inline_bytes="@ + decimal(encode_utf8(template).len()),
    )
}

/// The digest of a tool result's text, in hexadecimal.
pub open spec fn spill_sha256_of(raw_text: Seq<char>) -> Seq<char> {
    hex_lower(sha256_digest_of(encode_utf8(raw_text)))
}

/// The inline text that stands for the spill of `raw_text`, whose digest
/// in hexadecimal is `sha256`.
pub open spec fn spill_replacement_with(
    cfg: ToolResultSpillConfig,
    session_id: Seq<char>,
    tool_call_id: Seq<char>,
    tool_name: Seq<char>,
    raw_text: Seq<char>,
    sha256: Seq<char>,
) -> Seq<char> {
    fill_inline_bytes(
        replacement_template(
            tool_name,
            tool_call_id,
            encode_utf8(raw_text).len(),
            lines_of(raw_text).len(),
            artifact_path_of(cfg.artifact_dir@, session_id, tool_call_id, sha256),
            sha256,
            preview_of(raw_text, cfg.preview_head_bytes as nat, cfg.preview_tail_bytes as nat),
        ),
    )
}

/// Whether `r` is the spill of `raw_text`, the result of the call
/// `tool_call_id` of the tool `tool_name` in the session `session_id`,
/// given the digest `sha256` of `raw_text` in hexadecimal.
pub open spec fn is_spill_with(
    r: SpilledToolResult,
    cfg: ToolResultSpillConfig,
    session_id: Seq<char>,
    tool_call_id: Seq<char>,
    tool_name: Seq<char>,
    raw_text: Seq<char>,
    sha256: Seq<char>,
) -> bool {
    &&& r.original_bytes == encode_utf8(raw_text).len()
    &&& r.original_lines == lines_of(raw_text).len()
    &&& r.sha256@ == sha256
    &&& r.artifact_path@ == artifact_path_of(cfg.artifact_dir@, session_id, tool_call_id, sha256)
    &&& r.inline_replacement@ == spill_replacement_with(
        cfg,
        session_id,
        tool_call_id,
        tool_name,
        raw_text,
        sha256,
    )
}

/// Whether `r` is the spill of `raw_text`, the result of the call
/// `tool_call_id` of the tool `tool_name` in the session `session_id`.
pub open spec fn is_spill_of(
    r: SpilledToolResult,
    cfg: ToolResultSpillConfig,
    session_id: Seq<char>,
    tool_call_id: Seq<char>,
    tool_name: Seq<char>,
    raw_text: Seq<char>,
) -> bool {
    is_spill_with(r, cfg, session_id, tool_call_id, tool_name, raw_text, spill_sha256_of(raw_text))
}

/// The spill of a tool result: its artifact path and digest, and the inline
/// text that replaces it. Writing `raw_text` to the artifact is the
/// caller's part.
pub fn spill_tool_result(
    session_id: &str,
    tool_call_id: &str,
    tool_name: &str,
    raw_text: &str,
    cfg: &ToolResultSpillConfig,
) -> (r: SpilledToolResult)
    ensures
        is_spill_of(r, *cfg, session_id@, tool_call_id@, tool_name@, raw_text@),
        is_spilled(r.inline_replacement@),
        r.sha256@.len() == 64,
{
    let sha256 = sha256_hex(raw_text.as_bytes());
    proof {
        lemma_hex_lower_ascii(sha256_digest_of(encode_utf8(raw_text@)));
        lemma_ascii_char_boundary(sha256@, 12);
    }
    spill_with_sha256(session_id, tool_call_id, tool_name, raw_text, sha256, cfg)
}

/// The spill of a tool result whose digest in hexadecimal is `sha256`.
pub fn spill_with_sha256(
    session_id: &str,
    tool_call_id: &str,
    tool_name: &str,
    raw_text: &str,
    sha256: String,
    cfg: &ToolResultSpillConfig,
) -> (r: SpilledToolResult)
    requires
        is_char_boundary(encode_utf8(sha256@), 12),
    ensures
        is_spill_with(r, *cfg, session_id@, tool_call_id@, tool_name@, raw_text@, sha256@),
        is_spilled(r.inline_replacement@),
{
    let original_bytes = utf8_len(raw_text);
    let original_lines = count_lines(raw_text);
    let artifact_path = artifact_path(cfg.artifact_dir.as_str(), session_id, tool_call_id, sha256.as_str());
    let preview = head_tail_preview(raw_text, cfg.preview_head_bytes, cfg.preview_tail_bytes);
    let mut t = SPILLED_MARKER.to_string();
    t.append("\ntool=");
    t.append(tool_name);
    t.append("\ncall_id=");
    t.append(tool_call_id);
    t.append("\noriginal_bytes=");
    push_decimal(&mut t, original_bytes);
    t.append("\noriginal_lines=");
    push_decimal(&mut t, original_lines);
    t.append("\ninline_bytes=0\nartifact=");
    t.append(artifact_path.as_str());
    t.append("\nsha256=");
    t.append(sha256.as_str());
    t.append("\npreview_strategy=head_tail\npreview:\n");
    t.append(preview.as_str());
    let inline_bytes = utf8_len(t.as_str());
    let mut filled = "inline_bytes=".to_string();
    push_decimal(&mut filled, inline_bytes);
    proof {
        reveal_strlit("inline_bytes=0");
    }
    let inline_replacement = replace_str(t.as_str(), "inline_bytes=0", filled.as_str());
    proof {
        lemma_spill_replacement_is_spilled(
            *cfg,
            session_id@,
            tool_call_id@,
            tool_name@,
            raw_text@,
            sha256@,
        );
    }
    SpilledToolResult { artifact_path, sha256, original_bytes, original_lines, inline_replacement }
}

/// The inline text of every spill is recognised as spilled, so a later
/// compaction leaves it alone.
pub proof fn lemma_spill_replacement_is_spilled(
    cfg: ToolResultSpillConfig,
    session_id: Seq<char>,
    tool_call_id: Seq<char>,
    tool_name: Seq<char>,
    raw_text: Seq<char>,
    sha256: Seq<char>,
)
    ensures
        is_spilled(
            spill_replacement_with(cfg, session_id, tool_call_id, tool_name, raw_text, sha256),
        ),
{
    let t = replacement_template(
        tool_name,
        tool_call_id,
        encode_utf8(raw_text).len(),
        lines_of(raw_text).len(),
        artifact_path_of(cfg.artifact_dir@, session_id, tool_call_id, sha256),
        sha256,
        preview_of(raw_text, cfg.preview_head_bytes as nat, cfg.preview_tail_bytes as nat),
    );
    reveal_strlit("\ntool=");
    reveal_strlit("\n");
    reveal_strlit("[tool result spilled]");
    let t0 = SPILLED_MARKER@ + "\ntool="@;
    assert((SPILLED_MARKER@ + "\n"@).is_prefix_of(t0));
    assert forall|i: int| 0 <= i < t0.len() implies t[i] == t0[i] by {}
    assert((SPILLED_MARKER@ + "\n"@).is_prefix_of(t));
    lemma_replacement_is_spilled(t, "inline_bytes="@ + decimal(encode_utf8(t).len()));
}

/// Replacing matches of a pattern leaves alone a prefix in which no match
/// starts.
pub proof fn lemma_replace_all_keeps_prefix(s: Seq<char>, pat: Seq<char>, rep: Seq<char>, k: int)
    requires
        0 <= k <= s.len(),
        pat.len() > 0,
        forall|p: int| 0 <= p < k ==> !pat.is_prefix_of(#[trigger] s.skip(p)),
    ensures
        replace_all(s, pat, rep) == s.take(k) + replace_all(s.skip(k), pat, rep),
    decreases k,
{
    if k == 0 {
        assert(s.skip(0) =~= s);
        assert(s.take(0) + replace_all(s, pat, rep) =~= replace_all(s, pat, rep));
    } else {
        let t = s.drop_first();
        assert(s.skip(0) =~= s);
        assert forall|p: int| 0 <= p < k - 1 implies !pat.is_prefix_of(#[trigger] t.skip(p)) by {
            assert(t.skip(p) =~= s.skip(p + 1));
        }
        lemma_replace_all_keeps_prefix(t, pat, rep, k - 1);
        assert(t.skip(k - 1) =~= s.skip(k));
        assert(s.take(k) =~= seq![s[0]] + t.take(k - 1));
    }
}

/// A text that starts with the spilled marker and a line break still starts
/// with them after `inline_bytes=0` is filled in, so it is recognised as
/// spilled.
proof fn lemma_replacement_is_spilled(template: Seq<char>, filled: Seq<char>)
    requires
        (SPILLED_MARKER@ + "\n"@).is_prefix_of(template),
    ensures
        is_spilled(replace_all(template, "inline_bytes=0"@, filled)),
{
    reveal_strlit("[tool result spilled]");
    reveal_strlit("\n");
    reveal_strlit("inline_bytes=0");
    let pat = "inline_bytes=0"@;
    let m = SPILLED_MARKER@;
    let k = m.len() as int;
    let q = m + "\n"@;
    assert forall|j: int| 0 <= j < q.len() implies #[trigger] template[j] == q[j] by {
        assert(template.subrange(0, q.len() as int)[j] == template[j]);
    }
    assert forall|p: int| 0 <= p < k implies !pat.is_prefix_of(#[trigger] template.skip(p)) by {
        assert(template[p] == q[p]);
        if p == 15 {
            assert(template[p + 1] == q[p + 1]);
            assert(template.skip(p)[1] != pat[1]);
        } else {
            assert(template.skip(p)[0] != pat[0]);
        }
    }
    lemma_replace_all_keeps_prefix(template, pat, filled, k);
    let r = replace_all(template, pat, filled);
    assert(template.take(k) =~= m);
    assert(r[0] == '[');
    assert(trim_start(r) == r) by {
        lemma_trim_start_skip(r, 0);
        assert(r.skip(0) =~= r);
    }
    assert(r.take(k) =~= m);
}

} // verus!
