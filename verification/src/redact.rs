//! Redaction of memory text before it leaves the machine: session file
//! paths, loopback and private-network addresses, absolute file paths
//! written in plain text, and inline code that names addresses, commands
//! or paths are replaced by neutral wording.
//!
//! Pattern matching is done by the `regex` crate; what each match is
//! replaced with is decided and proved here.
use vstd::prelude::*;
use vstd::string::StringSliceAdditionalSpecFns;
use vstd::utf8::{
    decode_utf8, decode_utf8_split, encode_utf8, encode_utf8_decode_utf8, encode_utf8_valid_utf8,
    is_char_boundary, is_char_boundary_iff_not_is_continuation_byte,
    is_char_boundary_start_end_of_seq, valid_utf8, valid_utf8_split,
};
use crate::text::{
    chars_of, contains, contains_spec, is_white_space, is_white_space_char, push_all, starts_with,
    starts_with_spec, string_from_chars,
};

verus! {

broadcast use vstd::string::group_string_axioms;

pub const SESSION_JSONL_TICKED: &'static str = r"`~\/\.codex\/sessions\/[^`]*?\.jsonl`";

pub const SESSION_JSONL_PLAIN: &'static str = r"~\/\.codex\/sessions\/\S*?\.jsonl";

pub const LOOPBACK_URL: &'static str =
    r"`?https?:\/\/(?:127\.0\.0\.1|localhost)(?::(?P<port>\d+))?(?:\/[^`\s]*)?`?";

pub const LOOPBACK_HOST: &'static str = r"`?(?:127\.0\.0\.1|localhost)(?::(?P<port>\d+))?`?";

pub const PRIVATE_URL: &'static str = r"`?https?:\/\/(?:10(?:\.\d{1,3}){3}|192\.168(?:\.\d{1,3}){2}|172\.(?:1[6-9]|2\d|3[0-1])(?:\.\d{1,3}){2})(?::(?P<port>\d+))?(?:\/[^`\s]*)?`?";

pub const PRIVATE_HOST: &'static str = r"`?(?:10(?:\.\d{1,3}){3}|192\.168(?:\.\d{1,3}){2}|172\.(?:1[6-9]|2\d|3[0-1])(?:\.\d{1,3}){2})(?::(?P<port>\d+))?`?";

pub const INLINE_CODE: &'static str = r"`([^`]+)`";

pub const EXPLICIT_PATH: &'static str = r"^(~|\./|\.\./|/)[^\s]*$";

/// One piece of a text cut at the matches of a pattern: either text
/// between matches, or a match together with its first capture group.
pub struct MatchSegment {
    pub text: String,
    pub matched: bool,
    pub group: Option<String>,
}

/// The plain value of an optional string.
pub open spec fn opt_chars(o: Option<String>) -> Option<Seq<char>> {
    match o {
        Some(s) => Some(s@),
        None => None,
    }
}

/// The plain value of a segment: its text, whether it is a match, and
/// the text of the first capture group of that match.
pub open spec fn segment_view(s: MatchSegment) -> (Seq<char>, bool, Option<Seq<char>>) {
    (s.text@, s.matched, opt_chars(s.group))
}

/// The plain values of a sequence of segments.
pub open spec fn segments_view(s: Seq<MatchSegment>) -> Seq<(Seq<char>, bool, Option<Seq<char>>)> {
    s.map_values(|x: MatchSegment| segment_view(x))
}

/// Where one match of a pattern lies in a text: the byte offsets of its
/// start and end, and the text of its capture group 1 when that took part.
pub struct CaptureSpan {
    pub start: usize,
    pub end: usize,
    pub group: Option<String>,
}

/// The plain value of a match's place.
pub open spec fn span_view(s: CaptureSpan) -> (int, int, Option<Seq<char>>) {
    (s.start as int, s.end as int, opt_chars(s.group))
}

/// The plain values of a sequence of match places.
pub open spec fn spans_view(s: Seq<CaptureSpan>) -> Seq<(int, int, Option<Seq<char>>)> {
    s.map_values(|x: CaptureSpan| span_view(x))
}

/// The successive non-overlapping matches of the regular expression
/// `pattern` in `haystack` (as `Regex::captures_iter` finds them), each
/// by its byte offsets and its capture group 1, or `None` when `pattern`
/// is not a valid expression.
pub uninterp spec fn regex_capture_spans(pattern: Seq<char>, haystack: Seq<char>) -> Option<
    Seq<(int, int, Option<Seq<char>>)>,
>;

/// Match places that lie in the UTF-8 text `bytes` in order: each starts
/// no later than it ends, no later than the next one starts, and both its
/// ends are character boundaries of the text.
pub open spec fn spans_fit(bytes: Seq<u8>, spans: Seq<(int, int, Option<Seq<char>>)>) -> bool {
    &&& forall|k: int|
        0 <= k < spans.len() ==> {
            &&& 0 <= (#[trigger] spans[k]).0 <= spans[k].1 <= bytes.len()
            &&& is_char_boundary(bytes, spans[k].0)
            &&& is_char_boundary(bytes, spans[k].1)
        }
    &&& forall|k: int| 0 < k < spans.len() ==> (#[trigger] spans[k - 1]).1 <= spans[k].0
}

/// Whether the regular expression `pattern` matches somewhere in
/// `haystack` (`Regex::is_match`), or `None` when `pattern` is not a valid
/// expression.
pub uninterp spec fn regex_is_match_result(pattern: Seq<char>, haystack: Seq<char>) -> Option<bool>;

/// Unicode lower-casing of `s` (`str::to_lowercase`).
pub uninterp spec fn unicode_lowercase(s: Seq<char>) -> Seq<char>;

/// The texts of the segments put back together.
pub open spec fn segments_text(segs: Seq<(Seq<char>, bool, Option<Seq<char>>)>) -> Seq<char>
    decreases segs.len(),
{
    if segs.len() == 0 {
        seq![]
    } else {
        segments_text(segs.drop_last()) + segs.last().0
    }
}

/// Compiles `pattern` with `regex::Regex::new` and lists the matches
/// that `Regex::captures_iter` yields over `haystack`: the byte offsets of
/// each whole match (`Match::start`, `Match::end`) and the text of its
/// capture group 1.
///
/// The result is named (`regex_capture_spans`); the contract adds what the
/// crate documents of these offsets: a match starts no later than it ends,
/// the matches are successive and do not overlap, and every offset is a
/// character boundary of the haystack, so that it can slice it.
#[verifier::external_body]
fn find_captures(pattern: &str, haystack: &str) -> (res: Option<Vec<CaptureSpan>>)
    ensures
        match res {
            Some(spans) => regex_capture_spans(pattern@, haystack@) == Some(spans_view(spans@))
                && spans_fit(haystack.spec_bytes(), spans_view(spans@)),
            None => regex_capture_spans(pattern@, haystack@) is None,
        },
{
    let re = match regex::Regex::new(pattern) {
        Ok(re) => re,
        Err(_) => return None,
    };
    Some(
        re.captures_iter(haystack).map(|caps| {
            let whole = caps.get(0).unwrap();
            CaptureSpan {
                start: whole.start(),
                end: whole.end(),
                group: caps.get(1).map(|g| g.as_str().to_string()),
            }
        }).collect(),
    )
}

/// Compiles `pattern` with `regex::Regex::new` and asks `Regex::is_match`
/// whether it matches `haystack`. The result is named
/// (`regex_is_match_result`); `None` stands for a pattern that does not
/// compile.
#[verifier::external_body]
fn pattern_matches(pattern: &str, haystack: &str) -> (res: Option<bool>)
    ensures
        res == regex_is_match_result(pattern@, haystack@),
{
    match regex::Regex::new(pattern) {
        Ok(re) => Some(re.is_match(haystack)),
        Err(_) => None,
    }
}

/// `str::to_lowercase`. The result is named (`unicode_lowercase`): the
/// Unicode case mapping is not restated here.
#[verifier::external_body]
fn lowercase(s: &str) -> (res: String)
    ensures
        res@ == unicode_lowercase(s@),
{
    s.to_lowercase()
}

/// What the matches of one redaction pattern are replaced with.
#[derive(Clone, Copy, Debug, PartialEq, Eq)]
pub enum Redaction {
    /// A Codex session rollout file path.
    SessionFile,
    /// A loopback URL or host, with its port when one is given.
    Loopback,
    /// A private-network URL or host, with its port when one is given.
    PrivateNetwork,
    /// Inline code, simplified by what it names.
    InlineCode,
}

/// The plain value of an optional string slice.
pub open spec fn opt_str(o: Option<&str>) -> Option<Seq<char>> {
    match o {
        Some(s) => Some(s@),
        None => None,
    }
}

/// `label`, followed by ` (port P)` when a port `P` is known.
pub open spec fn with_port(label: Seq<char>, port: Option<Seq<char>>) -> Seq<char> {
    match port {
        Some(p) => label + " (port "@ + p + ")"@,
        None => label,
    }
}

/// The words that replace a loopback address.
pub open spec fn loopback_text(port: Option<Seq<char>>) -> Seq<char> {
    with_port("loopback address"@, port)
}

/// The words that replace a private-network address.
pub open spec fn private_text(port: Option<Seq<char>>) -> Seq<char> {
    with_port("private network address"@, port)
}

/// The lower-cased code names an address.
pub open spec fn names_address(lowered: Seq<char>) -> bool {
    ||| contains_spec(lowered, "http://"@)
    ||| contains_spec(lowered, "https://"@)
    ||| contains_spec(lowered, "127.0.0.1"@)
    ||| contains_spec(lowered, "localhost"@)
}

/// The lower-cased code mentions a command-line tool (or an `@`).
pub open spec fn names_command(lowered: Seq<char>) -> bool {
    ||| contains_spec(lowered, "curl"@)
    ||| contains_spec(lowered, "git"@)
    ||| contains_spec(lowered, "npm"@)
    ||| contains_spec(lowered, "npx"@)
    ||| contains_spec(lowered, "pnpm"@)
    ||| contains_spec(lowered, "node"@)
    ||| contains_spec(lowered, "python"@)
    ||| contains_spec(lowered, "codex"@)
    ||| contains_spec(lowered, "gh "@)
    ||| contains_spec(lowered, "mvn"@)
    ||| contains_spec(lowered, "launchctl"@)
    ||| contains_spec(lowered, "@"@)
}

/// What a piece of inline code becomes, given its lower-cased form and
/// whether the explicit-path pattern matches it (`None`: the pattern does
/// not compile): a neutral phrase when it names an address, a command, a
/// command argument or an explicit path, else the code itself.
pub open spec fn simplified_with(code: Seq<char>, lowered: Seq<char>, path_match: Option<bool>) -> Seq<
    char,
> {
    if names_address(lowered) {
        "related address"@
    } else if names_command(lowered) {
        "related command"@
    } else if starts_with_spec(code, "--"@) {
        "related command argument"@
    } else if path_match == Some(true) {
        "related path"@
    } else {
        code
    }
}

/// The lower-cased code names an address by one of the four markers.
pub open spec fn has_address_marker(lowered: Seq<char>) -> bool {
    contains_spec(lowered, "http://"@) || contains_spec(lowered, "https://"@) || contains_spec(
        lowered,
        "127.0.0.1"@,
    ) || contains_spec(lowered, "localhost"@)
}

/// The lower-cased code holds one of the command markers.
pub open spec fn has_command_marker(lowered: Seq<char>) -> bool {
    contains_spec(lowered, "curl"@) || contains_spec(lowered, "git"@) || contains_spec(
        lowered,
        "npm"@,
    ) || contains_spec(lowered, "npx"@) || contains_spec(lowered, "pnpm"@) || contains_spec(
        lowered,
        "node"@,
    ) || contains_spec(lowered, "python"@) || contains_spec(lowered, "codex"@) || contains_spec(
        lowered,
        "gh "@,
    ) || contains_spec(lowered, "mvn"@) || contains_spec(lowered, "launchctl"@) || contains_spec(
        lowered,
        "@"@,
    )
}

/// Law (inline code): code whose lower-cased text holds `http://`,
/// `https://`, `127.0.0.1` or `localhost` becomes `related address`;
/// otherwise code holding a command marker becomes `related command`;
/// otherwise code starting with `--` becomes `related command argument`;
/// otherwise code the explicit-path pattern matches becomes `related
/// path`; any other code is kept as it is.
pub proof fn lemma_inline_code_rules(code: Seq<char>, lowered: Seq<char>, path_match: Option<bool>)
    ensures
        has_address_marker(lowered) ==> simplified_with(code, lowered, path_match)
            == "related address"@,
        !has_address_marker(lowered) && has_command_marker(lowered) ==> simplified_with(
            code,
            lowered,
            path_match,
        ) == "related command"@,
        !has_address_marker(lowered) && !has_command_marker(lowered) && starts_with_spec(
            code,
            "--"@,
        ) ==> simplified_with(code, lowered, path_match) == "related command argument"@,
        !has_address_marker(lowered) && !has_command_marker(lowered) && !starts_with_spec(
            code,
            "--"@,
        ) && path_match == Some(true) ==> simplified_with(code, lowered, path_match)
            == "related path"@,
        !has_address_marker(lowered) && !has_command_marker(lowered) && !starts_with_spec(
            code,
            "--"@,
        ) && path_match != Some(true) ==> simplified_with(code, lowered, path_match) == code,
{
}

/// Law: inline code that, lower-cased, holds an address marker (such as
/// `https://`) is always replaced by `related address`.
pub proof fn lemma_inline_address_code_replaced(code: Seq<char>)
    ensures
        has_address_marker(unicode_lowercase(code)) ==> simplified_code(code)
            == "related address"@,
{
    lemma_inline_code_rules(code, unicode_lowercase(code), regex_is_match_result(EXPLICIT_PATH@, code));
}

/// What a piece of inline code becomes (see `simplified_with`).
pub open spec fn simplified_code(code: Seq<char>) -> Seq<char> {
    simplified_with(code, unicode_lowercase(code), regex_is_match_result(EXPLICIT_PATH@, code))
}

/// What one match is replaced with, given its first capture group.
pub open spec fn replacement(kind: Redaction, group: Option<Seq<char>>) -> Seq<char> {
    match kind {
        Redaction::SessionFile => "Codex session rollout JSONL file"@,
        Redaction::Loopback => loopback_text(group),
        Redaction::PrivateNetwork => private_text(group),
        Redaction::InlineCode => simplified_code(
            match group {
                Some(g) => g,
                None => seq![],
            },
        ),
    }
}

/// The segments put back together with every match replaced.
pub open spec fn rebuild(segs: Seq<(Seq<char>, bool, Option<Seq<char>>)>, kind: Redaction) -> Seq<
    char,
>
    decreases segs.len(),
{
    if segs.len() == 0 {
        seq![]
    } else {
        let last = segs.last();
        rebuild(segs.drop_last(), kind) + if last.1 {
            replacement(kind, last.2)
        } else {
            last.0
        }
    }
}

/// The characters that the bytes `bytes[a..b]` of a UTF-8 text spell.
pub open spec fn byte_text(bytes: Seq<u8>, a: int, b: int) -> Seq<char> {
    decode_utf8(bytes.subrange(a, b))
}

/// Where the text between matches resumes after the first `k` matches.
pub open spec fn resume_at(spans: Seq<(int, int, Option<Seq<char>>)>, k: int) -> int {
    if k <= 0 {
        0
    } else {
        spans[k - 1].1
    }
}

/// The segments for the first `k` matches: for each, the text since the
/// previous match, then the match with its capture group 1.
pub open spec fn segments_upto(
    bytes: Seq<u8>,
    spans: Seq<(int, int, Option<Seq<char>>)>,
    k: nat,
) -> Seq<(Seq<char>, bool, Option<Seq<char>>)>
    decreases k,
{
    if k == 0 {
        seq![]
    } else {
        let m = spans[k - 1];
        segments_upto(bytes, spans, (k - 1) as nat) + seq![
            (byte_text(bytes, resume_at(spans, k - 1), m.0), false, None),
            (byte_text(bytes, m.0, m.1), true, m.2),
        ]
    }
}

/// The UTF-8 text `bytes` cut at the matches `spans` (the walk of
/// `Regex::replace_all`): the text before each match, the match with its
/// capture group 1, and the text after the last match.
pub open spec fn match_segments(bytes: Seq<u8>, spans: Seq<(int, int, Option<Seq<char>>)>) -> Seq<
    (Seq<char>, bool, Option<Seq<char>>),
> {
    segments_upto(bytes, spans, spans.len()) + seq![
        (byte_text(bytes, resume_at(spans, spans.len() as int), bytes.len() as int), false, None),
    ]
}

/// `text` with every match of `pattern` replaced as `kind` says
/// (`Regex::replace_all`); unchanged when the pattern does not compile.
pub open spec fn redaction_step(pattern: Seq<char>, kind: Redaction, text: Seq<char>) -> Seq<char> {
    match regex_capture_spans(pattern, text) {
        Some(spans) => rebuild(match_segments(encode_utf8(text), spans), kind),
        None => text,
    }
}

/// In a UTF-8 text, a character boundary `a` of the text from `i` on is
/// a character boundary of that part, counted from `i`.
proof fn lemma_boundary_in_suffix(bytes: Seq<u8>, i: int, a: int)
    requires
        valid_utf8(bytes),
        0 <= i <= a <= bytes.len(),
        is_char_boundary(bytes, i),
        is_char_boundary(bytes, a),
    ensures
        valid_utf8(bytes.subrange(i, bytes.len() as int)),
        is_char_boundary(bytes.subrange(i, bytes.len() as int), a - i),
{
    let t = bytes.subrange(i, bytes.len() as int);
    valid_utf8_split(bytes, i);
    if a == bytes.len() {
        is_char_boundary_start_end_of_seq(t);
        assert(t.len() == a - i);
    } else {
        is_char_boundary_iff_not_is_continuation_byte(bytes, a);
        assert(t[a - i] == bytes[a]);
        is_char_boundary_iff_not_is_continuation_byte(t, a - i);
    }
}

/// In a UTF-8 text, a character boundary `a` up to `k` is a character
/// boundary of the text's first `k` bytes.
proof fn lemma_boundary_in_prefix(bytes: Seq<u8>, k: int, a: int)
    requires
        valid_utf8(bytes),
        0 <= a <= k <= bytes.len(),
        is_char_boundary(bytes, k),
        is_char_boundary(bytes, a),
    ensures
        valid_utf8(bytes.subrange(0, k)),
        is_char_boundary(bytes.subrange(0, k), a),
{
    let t = bytes.subrange(0, k);
    valid_utf8_split(bytes, k);
    if a == k {
        is_char_boundary_start_end_of_seq(t);
    } else {
        is_char_boundary_iff_not_is_continuation_byte(bytes, a);
        assert(t[a] == bytes[a]);
        is_char_boundary_iff_not_is_continuation_byte(t, a);
    }
}

/// In a UTF-8 text, the bytes between two character boundaries are UTF-8,
/// and a boundary between them stays one, counted from the first.
proof fn lemma_boundary_in_range(bytes: Seq<u8>, i: int, a: int, k: int)
    requires
        valid_utf8(bytes),
        0 <= i <= a <= k <= bytes.len(),
        is_char_boundary(bytes, i),
        is_char_boundary(bytes, a),
        is_char_boundary(bytes, k),
    ensures
        valid_utf8(bytes.subrange(i, k)),
        is_char_boundary(bytes.subrange(i, k), a - i),
{
    let t = bytes.subrange(i, bytes.len() as int);
    lemma_boundary_in_suffix(bytes, i, a);
    lemma_boundary_in_suffix(bytes, i, k);
    lemma_boundary_in_prefix(t, k - i, a - i);
    assert(t.subrange(0, k - i) =~= bytes.subrange(i, k));
}

/// The characters of `bytes[i..k]` are those of `bytes[i..a]` followed by
/// those of `bytes[a..k]`, for character boundaries `i <= a <= k`.
proof fn lemma_byte_text_concat(bytes: Seq<u8>, i: int, a: int, k: int)
    requires
        valid_utf8(bytes),
        0 <= i <= a <= k <= bytes.len(),
        is_char_boundary(bytes, i),
        is_char_boundary(bytes, a),
        is_char_boundary(bytes, k),
    ensures
        byte_text(bytes, i, k) == byte_text(bytes, i, a) + byte_text(bytes, a, k),
{
    let t = bytes.subrange(i, k);
    lemma_boundary_in_range(bytes, i, a, k);
    decode_utf8_split(t, a - i);
    assert(t.subrange(0, a - i) =~= bytes.subrange(i, a));
    assert(t.subrange(a - i, t.len() as int) =~= bytes.subrange(a, k));
}

/// The segments for the first `k` matches spell the text up to the end
/// of the `k`-th match.
proof fn lemma_segments_upto_text(
    bytes: Seq<u8>,
    spans: Seq<(int, int, Option<Seq<char>>)>,
    k: nat,
)
    requires
        valid_utf8(bytes),
        spans_fit(bytes, spans),
        k <= spans.len(),
    ensures
        segments_text(segments_upto(bytes, spans, k)) == byte_text(bytes, 0, resume_at(spans, k as int)),
        0 <= resume_at(spans, k as int) <= bytes.len(),
        is_char_boundary(bytes, resume_at(spans, k as int)),
    decreases k,
{
    if k == 0 {
        is_char_boundary_start_end_of_seq(bytes);
        assert(bytes.subrange(0, 0) =~= Seq::<u8>::empty());
        assert(valid_utf8(Seq::<u8>::empty()));
        assert(decode_utf8(Seq::<u8>::empty()) =~= Seq::<char>::empty());
    } else {
        lemma_segments_upto_text(bytes, spans, (k - 1) as nat);
        let m = spans[k - 1];
        let r = resume_at(spans, k - 1);
        assert(r <= m.0) by {
            if k > 1 {
                assert(spans[(k - 1) - 1].1 <= spans[k - 1].0);
            }
        }
        is_char_boundary_start_end_of_seq(bytes);
        lemma_byte_text_concat(bytes, 0, r, m.0);
        lemma_byte_text_concat(bytes, 0, m.0, m.1);
        let segs = segments_upto(bytes, spans, k);
        let prev = segments_upto(bytes, spans, (k - 1) as nat);
        assert(segs.drop_last() =~= prev.push((byte_text(bytes, r, m.0), false, None)));
        assert(segs.drop_last().drop_last() =~= prev);
        assert(segments_text(segs.drop_last()) == segments_text(prev) + byte_text(bytes, r, m.0));
        assert(segments_text(segs) == segments_text(segs.drop_last()) + byte_text(bytes, m.0, m.1));
    }
}

/// Cut at its matches, a text is spelled by its segments.
pub proof fn lemma_match_segments_spell_text(bytes: Seq<u8>, spans: Seq<(int, int, Option<Seq<char>>)>)
    requires
        valid_utf8(bytes),
        spans_fit(bytes, spans),
    ensures
        segments_text(match_segments(bytes, spans)) == decode_utf8(bytes),
{
    lemma_segments_upto_text(bytes, spans, spans.len());
    let r = resume_at(spans, spans.len() as int);
    is_char_boundary_start_end_of_seq(bytes);
    lemma_byte_text_concat(bytes, 0, r, bytes.len() as int);
    let segs = match_segments(bytes, spans);
    assert(segs.drop_last() =~= segments_upto(bytes, spans, spans.len()));
    assert(bytes.subrange(0, bytes.len() as int) =~= bytes);
}

/// The number of characters before the first white space of `s`: the
/// length of the word that `s` starts with.
pub open spec fn word_len(s: Seq<char>) -> nat
    decreases s.len(),
{
    if s.len() == 0 || is_white_space(s[0]) {
        0
    } else {
        1 + word_len(s.drop_first())
    }
}

/// A word that is an absolute file path written out in plain text: it
/// starts with `/`, has more after it, and holds no backtick (so that it
/// is not part of inline code).
pub open spec fn is_plain_path(word: Seq<char>) -> bool {
    &&& word.len() >= 2
    &&& word[0] == '/'
    &&& !word.contains('`')
}

/// `text` with every plain absolute path among its white-space separated
/// words replaced by `related path`; the white space is kept as it is.
pub open spec fn plain_paths_redacted(text: Seq<char>) -> Seq<char>
    decreases text.len(),
{
    if text.len() == 0 {
        seq![]
    } else if is_white_space(text[0]) {
        seq![text[0]] + plain_paths_redacted(text.drop_first())
    } else {
        let n = word_len(text);
        proof {
            lemma_word_len_bounds(text);
        }
        let word = text.take(n as int);
        (if is_plain_path(word) {
            "related path"@
        } else {
            word
        }) + plain_paths_redacted(text.skip(n as int))
    }
}

/// A word is at least one character long when the text starts with one,
/// and never longer than the text.
pub proof fn lemma_word_len_bounds(s: Seq<char>)
    ensures
        word_len(s) <= s.len(),
        s.len() > 0 && !is_white_space(s[0]) ==> word_len(s) >= 1,
    decreases s.len(),
{
    if s.len() > 0 && !is_white_space(s[0]) {
        lemma_word_len_bounds(s.drop_first());
    }
}

/// Law: text without a `/` holds no plain path, and the plain-path step
/// gives it back unchanged.
pub proof fn lemma_text_without_slash_unchanged(text: Seq<char>)
    requires
        !text.contains('/'),
    ensures
        plain_paths_redacted(text) == text,
    decreases text.len(),
{
    if text.len() > 0 {
        if is_white_space(text[0]) {
            assert(!text.drop_first().contains('/')) by {
                if text.drop_first().contains('/') {
                    let k = choose|k: int| 0 <= k < text.drop_first().len() && text.drop_first()[k] == '/';
                    assert(text[k + 1] == '/');
                }
            }
            lemma_text_without_slash_unchanged(text.drop_first());
            assert(seq![text[0]] + text.drop_first() =~= text);
        } else {
            lemma_word_len_bounds(text);
            let n = word_len(text) as int;
            assert(text[0] != '/') by {
                if text[0] == '/' {
                    assert(text.contains('/'));
                }
            }
            assert(text.take(n)[0] == text[0]);
            assert(!text.skip(n).contains('/')) by {
                if text.skip(n).contains('/') {
                    let k = choose|k: int| 0 <= k < text.skip(n).len() && text.skip(n)[k] == '/';
                    assert(text[k + n] == '/');
                }
            }
            lemma_text_without_slash_unchanged(text.skip(n));
            assert(text.take(n) + text.skip(n) =~= text);
        }
    }
}

/// Where a pattern finds no match, its step gives the text back.
pub proof fn lemma_step_without_match(pattern: Seq<char>, kind: Redaction, text: Seq<char>)
    requires
        regex_capture_spans(pattern, text) == Some(Seq::<(int, int, Option<Seq<char>>)>::empty()),
    ensures
        redaction_step(pattern, kind, text) == text,
{
    let bytes = encode_utf8(text);
    let spans = Seq::<(int, int, Option<Seq<char>>)>::empty();
    let segs = match_segments(bytes, spans);
    assert(bytes.subrange(0, bytes.len() as int) =~= bytes);
    encode_utf8_decode_utf8(text);
    assert(segs =~= seq![(text, false, Option::<Seq<char>>::None)]);
    assert(segs.drop_last() =~= Seq::<(Seq<char>, bool, Option<Seq<char>>)>::empty());
    assert(rebuild(segs.drop_last(), kind) =~= Seq::<char>::empty());
    assert(rebuild(segs, kind) =~= text);
}

/// Where a pattern's one match is the whole text, its step gives that
/// match's replacement.
pub proof fn lemma_step_whole_match(
    pattern: Seq<char>,
    kind: Redaction,
    text: Seq<char>,
    group: Option<Seq<char>>,
)
    requires
        regex_capture_spans(pattern, text) == Some(seq![(0int, encode_utf8(text).len() as int, group)]),
    ensures
        redaction_step(pattern, kind, text) == replacement(kind, group),
{
    let bytes = encode_utf8(text);
    let n = bytes.len() as int;
    let spans = seq![(0int, n, group)];
    assert(bytes.subrange(0, 0) =~= Seq::<u8>::empty());
    assert(bytes.subrange(n, n) =~= Seq::<u8>::empty());
    assert(valid_utf8(Seq::<u8>::empty()));
    assert(decode_utf8(Seq::<u8>::empty()) =~= Seq::<char>::empty());
    let segs = match_segments(bytes, spans);
    let e = Seq::<char>::empty();
    let m = byte_text(bytes, 0, n);
    let none = Option::<Seq<char>>::None;
    assert(segments_upto(bytes, spans, 0) =~= Seq::<(Seq<char>, bool, Option<Seq<char>>)>::empty());
    assert(segs =~= seq![(e, false, none), (m, true, group), (e, false, none)]);
    assert(segs.drop_last() =~= seq![(e, false, none), (m, true, group)]);
    assert(segs.drop_last().drop_last() =~= seq![(e, false, none)]);
    assert(segs.drop_last().drop_last().drop_last() =~= Seq::<(Seq<char>, bool, Option<Seq<char>>)>::empty());
    let s1 = segs.drop_last().drop_last();
    let s2 = segs.drop_last();
    assert(rebuild(s1.drop_last(), kind) =~= Seq::<char>::empty());
    assert(rebuild(s1, kind) =~= e);
    assert(rebuild(s2, kind) =~= replacement(kind, group));
    assert(rebuild(segs, kind) =~= replacement(kind, group));
}

/// The words that replace a loopback address, written out.
pub open spec fn loopback_words(port: Option<Seq<char>>) -> Seq<char> {
    match port {
        Some(p) => "loopback address (port "@ + p + ")"@,
        None => "loopback address"@,
    }
}

/// Law (loopback URLs go whole): when the loopback-URL pattern matches
/// the whole text (and no session path is found), the text becomes
/// `loopback address` with the URL's port, and nothing of the URL — its
/// scheme or its path — is left: the later patterns see only the
/// replacement words.
pub proof fn lemma_loopback_url_redacted_whole(text: Seq<char>, port: Option<Seq<char>>)
    requires
        regex_capture_spans(SESSION_JSONL_TICKED@, text) == Some(
            Seq::<(int, int, Option<Seq<char>>)>::empty(),
        ),
        regex_capture_spans(SESSION_JSONL_PLAIN@, text) == Some(
            Seq::<(int, int, Option<Seq<char>>)>::empty(),
        ),
        regex_capture_spans(LOOPBACK_URL@, text) == Some(
            seq![(0int, encode_utf8(text).len() as int, port)],
        ),
        regex_capture_spans(LOOPBACK_HOST@, loopback_words(port)) == Some(
            Seq::<(int, int, Option<Seq<char>>)>::empty(),
        ),
        regex_capture_spans(PRIVATE_URL@, loopback_words(port)) == Some(
            Seq::<(int, int, Option<Seq<char>>)>::empty(),
        ),
        regex_capture_spans(PRIVATE_HOST@, loopback_words(port)) == Some(
            Seq::<(int, int, Option<Seq<char>>)>::empty(),
        ),
        regex_capture_spans(INLINE_CODE@, loopback_words(port)) == Some(
            Seq::<(int, int, Option<Seq<char>>)>::empty(),
        ),
        port matches Some(p) ==> !p.contains('/'),
    ensures
        sanitized(text) == loopback_words(port),
{
    lemma_step_without_match(SESSION_JSONL_TICKED@, Redaction::SessionFile, text);
    lemma_step_without_match(SESSION_JSONL_PLAIN@, Redaction::SessionFile, text);
    lemma_step_whole_match(LOOPBACK_URL@, Redaction::Loopback, text, port);
    let r = loopback_words(port);
    assert(loopback_text(port) == r) by {
        reveal_strlit("loopback address (port ");
        reveal_strlit("loopback address");
        reveal_strlit(" (port ");
        match port {
            Some(p) => {
                assert("loopback address"@ + " (port "@ =~= "loopback address (port "@);
                assert("loopback address"@ + " (port "@ + p + ")"@ =~= "loopback address (port "@ + p
                    + ")"@);
            },
            None => {},
        }
    }
    lemma_step_without_match(LOOPBACK_HOST@, Redaction::Loopback, r);
    lemma_step_without_match(PRIVATE_URL@, Redaction::PrivateNetwork, r);
    lemma_step_without_match(PRIVATE_HOST@, Redaction::PrivateNetwork, r);
    assert(!r.contains('/')) by {
        reveal_strlit("loopback address (port ");
        reveal_strlit(")");
        reveal_strlit("loopback address");
        if r.contains('/') {
            let k = choose|k: int| 0 <= k < r.len() && r[k] == '/';
            match port {
                Some(p) => {
                    let a = "loopback address (port "@;
                    if k < a.len() {
                        assert(r[k] == a[k]);
                    } else if k < a.len() + p.len() {
                        assert(r[k] == p[k - a.len()]);
                    } else {
                        assert(r[k] == ")"@[k - a.len() - p.len()]);
                    }
                },
                None => {},
            }
        }
    }
    lemma_text_without_slash_unchanged(r);
    lemma_step_without_match(INLINE_CODE@, Redaction::InlineCode, r);
}

/// The words that replace a private-network address, written out.
pub open spec fn private_words(port: Option<Seq<char>>) -> Seq<char> {
    match port {
        Some(p) => "private network address (port "@ + p + ")"@,
        None => "private network address"@,
    }
}

/// Law (private-network URLs go whole): when the private-URL pattern
/// matches the whole text (and no session path or loopback address is
/// found), the text becomes `private network address` with the URL's
/// port, and nothing of the URL is left: the host pattern and the later
/// ones see only the replacement words.
pub proof fn lemma_private_url_redacted_whole(text: Seq<char>, port: Option<Seq<char>>)
    requires
        regex_capture_spans(SESSION_JSONL_TICKED@, text) == Some(
            Seq::<(int, int, Option<Seq<char>>)>::empty(),
        ),
        regex_capture_spans(SESSION_JSONL_PLAIN@, text) == Some(
            Seq::<(int, int, Option<Seq<char>>)>::empty(),
        ),
        regex_capture_spans(LOOPBACK_URL@, text) == Some(Seq::<(int, int, Option<Seq<char>>)>::empty()),
        regex_capture_spans(LOOPBACK_HOST@, text) == Some(
            Seq::<(int, int, Option<Seq<char>>)>::empty(),
        ),
        regex_capture_spans(PRIVATE_URL@, text) == Some(
            seq![(0int, encode_utf8(text).len() as int, port)],
        ),
        regex_capture_spans(PRIVATE_HOST@, private_words(port)) == Some(
            Seq::<(int, int, Option<Seq<char>>)>::empty(),
        ),
        regex_capture_spans(INLINE_CODE@, private_words(port)) == Some(
            Seq::<(int, int, Option<Seq<char>>)>::empty(),
        ),
        port matches Some(p) ==> !p.contains('/'),
    ensures
        sanitized(text) == private_words(port),
{
    lemma_step_without_match(SESSION_JSONL_TICKED@, Redaction::SessionFile, text);
    lemma_step_without_match(SESSION_JSONL_PLAIN@, Redaction::SessionFile, text);
    lemma_step_without_match(LOOPBACK_URL@, Redaction::Loopback, text);
    lemma_step_without_match(LOOPBACK_HOST@, Redaction::Loopback, text);
    lemma_step_whole_match(PRIVATE_URL@, Redaction::PrivateNetwork, text, port);
    let r = private_words(port);
    assert(private_text(port) == r) by {
        reveal_strlit("private network address (port ");
        reveal_strlit("private network address");
        reveal_strlit(" (port ");
        match port {
            Some(p) => {
                assert("private network address"@ + " (port "@ =~= "private network address (port "@);
                assert("private network address"@ + " (port "@ + p + ")"@
                    =~= "private network address (port "@ + p + ")"@);
            },
            None => {},
        }
    }
    lemma_step_without_match(PRIVATE_HOST@, Redaction::PrivateNetwork, r);
    assert(!r.contains('/')) by {
        reveal_strlit("private network address (port ");
        reveal_strlit(")");
        reveal_strlit("private network address");
        if r.contains('/') {
            let k = choose|k: int| 0 <= k < r.len() && r[k] == '/';
            match port {
                Some(p) => {
                    let a = "private network address (port "@;
                    if k < a.len() {
                        assert(r[k] == a[k]);
                    } else if k < a.len() + p.len() {
                        assert(r[k] == p[k - a.len()]);
                    } else {
                        assert(r[k] == ")"@[k - a.len() - p.len()]);
                    }
                },
                None => {},
            }
        }
    }
    lemma_text_without_slash_unchanged(r);
    lemma_step_without_match(INLINE_CODE@, Redaction::InlineCode, r);
}

/// Law (quoted session paths go whole): when the pattern for a session
/// path in backticks matches the whole text, the text becomes `Codex
/// session rollout JSONL file` — backticks included in what is replaced —
/// as long as the later patterns find nothing in those words.
pub proof fn lemma_ticked_session_path_redacted_whole(text: Seq<char>, group: Option<Seq<char>>)
    requires
        regex_capture_spans(SESSION_JSONL_TICKED@, text) == Some(
            seq![(0int, encode_utf8(text).len() as int, group)],
        ),
        forall|p: Seq<char>|
            p == SESSION_JSONL_PLAIN@ || p == LOOPBACK_URL@ || p == LOOPBACK_HOST@ || p
                == PRIVATE_URL@ || p == PRIVATE_HOST@ || p == INLINE_CODE@ ==> #[trigger] regex_capture_spans(
                p,
                "Codex session rollout JSONL file"@,
            ) == Some(Seq::<(int, int, Option<Seq<char>>)>::empty()),
    ensures
        sanitized(text) == "Codex session rollout JSONL file"@,
{
    let r = "Codex session rollout JSONL file"@;
    lemma_step_whole_match(SESSION_JSONL_TICKED@, Redaction::SessionFile, text, group);
    assert(regex_capture_spans(SESSION_JSONL_PLAIN@, r) == Some(Seq::<(int, int, Option<Seq<char>>)>::empty()));
    assert(regex_capture_spans(LOOPBACK_URL@, r) == Some(Seq::<(int, int, Option<Seq<char>>)>::empty()));
    assert(regex_capture_spans(LOOPBACK_HOST@, r) == Some(Seq::<(int, int, Option<Seq<char>>)>::empty()));
    assert(regex_capture_spans(PRIVATE_URL@, r) == Some(Seq::<(int, int, Option<Seq<char>>)>::empty()));
    assert(regex_capture_spans(PRIVATE_HOST@, r) == Some(Seq::<(int, int, Option<Seq<char>>)>::empty()));
    assert(regex_capture_spans(INLINE_CODE@, r) == Some(Seq::<(int, int, Option<Seq<char>>)>::empty()));
    lemma_step_without_match(SESSION_JSONL_PLAIN@, Redaction::SessionFile, r);
    lemma_step_without_match(LOOPBACK_URL@, Redaction::Loopback, r);
    lemma_step_without_match(LOOPBACK_HOST@, Redaction::Loopback, r);
    lemma_step_without_match(PRIVATE_URL@, Redaction::PrivateNetwork, r);
    lemma_step_without_match(PRIVATE_HOST@, Redaction::PrivateNetwork, r);
    assert(!r.contains('/')) by {
        reveal_strlit("Codex session rollout JSONL file");
        if r.contains('/') {
            let k = choose|k: int| 0 <= k < r.len() && r[k] == '/';
        }
    }
    lemma_text_without_slash_unchanged(r);
    lemma_step_without_match(INLINE_CODE@, Redaction::InlineCode, r);
}

/// A sequence with one more item contains `x` when it did before or when
/// the new item is `x`.
proof fn lemma_push_contains(s: Seq<char>, c: char, x: char)
    ensures
        s.push(c).contains(x) == (s.contains(x) || c == x),
{
    let t = s.push(c);
    if s.contains(x) {
        let k = choose|k: int| 0 <= k < s.len() && s[k] == x;
        assert(t[k] == x);
    }
    if c == x {
        assert(t[s.len() as int] == x);
    }
    if t.contains(x) {
        let k = choose|k: int| 0 <= k < t.len() && t[k] == x;
        if k < s.len() {
            assert(s[k] == x);
        }
    }
}

/// The redacted form of `text`: the session, loopback and private-network
/// patterns applied in turn, then plain absolute paths, then inline code.
pub open spec fn sanitized(text: Seq<char>) -> Seq<char> {
    let t1 = redaction_step(SESSION_JSONL_TICKED@, Redaction::SessionFile, text);
    let t2 = redaction_step(SESSION_JSONL_PLAIN@, Redaction::SessionFile, t1);
    let t3 = redaction_step(LOOPBACK_URL@, Redaction::Loopback, t2);
    let t4 = redaction_step(LOOPBACK_HOST@, Redaction::Loopback, t3);
    let t5 = redaction_step(PRIVATE_URL@, Redaction::PrivateNetwork, t4);
    let t6 = redaction_step(PRIVATE_HOST@, Redaction::PrivateNetwork, t5);
    let t7 = plain_paths_redacted(t6);
    redaction_step(INLINE_CODE@, Redaction::InlineCode, t7)
}

/// `label`, followed by ` (port P)` when a port is given.
fn with_port_exec(label: &str, port: Option<&str>) -> (res: String)
    ensures
        res@ == with_port(label@, opt_str(port)),
{
    let mut out = chars_of(label);
    match port {
        Some(p) => {
            push_all(&mut out, chars_of(" (port ").as_slice());
            push_all(&mut out, chars_of(p).as_slice());
            push_all(&mut out, chars_of(")").as_slice());
        },
        None => {},
    }
    string_from_chars(out.as_slice())
}

/// The words that replace a loopback address.
pub fn replace_loopback(port: Option<&str>) -> (res: String)
    ensures
        res@ == loopback_text(opt_str(port)),
{
    with_port_exec("loopback address", port)
}

/// The words that replace a private-network address.
pub fn replace_private(port: Option<&str>) -> (res: String)
    ensures
        res@ == private_text(opt_str(port)),
{
    with_port_exec("private network address", port)
}

/// `s` contains the text `p`.
fn mentions(s: &[char], p: &str) -> (res: bool)
    ensures
        res == contains_spec(s@, p@),
{
    contains(s, chars_of(p).as_slice())
}

/// What a piece of inline code becomes, given its lower-cased form and
/// whether the explicit-path pattern matches it (see `simplified_with`).
pub fn simplify_with(code: &str, lowered: &str, path_match: Option<bool>) -> (res: String)
    ensures
        res@ == simplified_with(code@, lowered@, path_match),
        has_address_marker(lowered@) ==> res@ == "related address"@,
        !has_address_marker(lowered@) && has_command_marker(lowered@) ==> res@
            == "related command"@,
{
    let lowered_chars = chars_of(lowered);
    let l = lowered_chars.as_slice();
    if mentions(l, "http://") || mentions(l, "https://") || mentions(l, "127.0.0.1") || mentions(
        l,
        "localhost",
    ) {
        return "related address".to_string();
    }
    if mentions(l, "curl") || mentions(l, "git") || mentions(l, "npm") || mentions(l, "npx")
        || mentions(l, "pnpm") || mentions(l, "node") || mentions(l, "python") || mentions(
        l,
        "codex",
    ) || mentions(l, "gh ") || mentions(l, "mvn") || mentions(l, "launchctl") || mentions(l, "@") {
        return "related command".to_string();
    }
    let code_chars = chars_of(code);
    if starts_with(code_chars.as_slice(), chars_of("--").as_slice()) {
        return "related command argument".to_string();
    }
    if path_match == Some(true) {
        return "related path".to_string();
    }
    code.to_string()
}

/// What a piece of inline code becomes (see `simplified_code`): the code
/// is lower-cased (`str::to_lowercase`) and matched against
/// `EXPLICIT_PATH`, then simplified.
pub fn simplify_inline_code(code: &str) -> (res: String)
    ensures
        res@ == simplified_code(code@),
        has_address_marker(unicode_lowercase(code@)) ==> res@ == "related address"@,
{
    let lowered = lowercase(code);
    let path_match = pattern_matches(EXPLICIT_PATH, code);
    simplify_with(code, lowered.as_str(), path_match)
}

/// What one match is replaced with, given its first capture group.
pub fn replacement_for(kind: Redaction, group: &Option<String>) -> (res: String)
    ensures
        res@ == replacement(kind, opt_chars(*group)),
{
    match kind {
        Redaction::SessionFile => "Codex session rollout JSONL file".to_string(),
        Redaction::Loopback => match group {
            Some(g) => replace_loopback(Some(g.as_str())),
            None => replace_loopback(None),
        },
        Redaction::PrivateNetwork => match group {
            Some(g) => replace_private(Some(g.as_str())),
            None => replace_private(None),
        },
        Redaction::InlineCode => match group {
            Some(g) => simplify_inline_code(g.as_str()),
            None => {
                proof {
                    reveal_strlit("");
                }
                assert(""@ =~= Seq::<char>::empty());
                simplify_inline_code("")
            },
        },
    }
}

/// The segments of a text put back together, with every match replaced
/// as `kind` says.
pub fn apply_redaction(segments: &Vec<MatchSegment>, kind: Redaction) -> (res: String)
    ensures
        res@ == rebuild(segments_view(segments@), kind),
{
    let mut out: Vec<char> = Vec::new();
    let mut i: usize = 0;
    while i < segments.len()
        invariant
            i <= segments@.len(),
            out@ == rebuild(segments_view(segments@).take(i as int), kind),
        decreases segments@.len() - i,
    {
        assert(segments_view(segments@).take(i + 1).drop_last() =~= segments_view(segments@).take(
            i as int,
        ));
        let seg = &segments[i];
        if seg.matched {
            let r = replacement_for(kind, &seg.group);
            push_all(&mut out, chars_of(r.as_str()).as_slice());
        } else {
            push_all(&mut out, chars_of(seg.text.as_str()).as_slice());
        }
        i = i + 1;
    }
    assert(segments_view(segments@).take(segments@.len() as int) =~= segments_view(segments@));
    string_from_chars(out.as_slice())
}

/// The characters of `text` between the byte offsets `a` and `b`, both
/// character boundaries.
fn byte_slice(text: &str, a: usize, b: usize) -> (res: String)
    requires
        a <= b <= text.spec_bytes().len(),
        is_char_boundary(text.spec_bytes(), a as int),
        is_char_boundary(text.spec_bytes(), b as int),
    ensures
        res@ == byte_text(text.spec_bytes(), a as int, b as int),
{
    let ghost bytes = text.spec_bytes();
    proof {
        encode_utf8_valid_utf8(text@);
        lemma_boundary_in_suffix(bytes, a as int, b as int);
    }
    let (_, rest) = text.split_at(a);
    let (piece, _) = rest.split_at(b - a);
    proof {
        assert(piece.spec_bytes() =~= bytes.subrange(a as int, b as int));
        encode_utf8_decode_utf8(piece@);
    }
    piece.to_string()
}

/// The text cut at the matches `spans` (see `match_segments`): the text
/// before each match, the match with its capture group 1, and the text
/// after the last match. Together the segments spell the text.
pub fn segments_from_spans(text: &str, spans: &Vec<CaptureSpan>) -> (res: Vec<MatchSegment>)
    requires
        spans_fit(text.spec_bytes(), spans_view(spans@)),
    ensures
        segments_view(res@) == match_segments(text.spec_bytes(), spans_view(spans@)),
        segments_text(segments_view(res@)) == text@,
{
    let ghost bytes = text.spec_bytes();
    let ghost sv = spans_view(spans@);
    proof {
        encode_utf8_valid_utf8(text@);
        is_char_boundary_start_end_of_seq(bytes);
    }
    let mut out: Vec<MatchSegment> = Vec::new();
    let mut last: usize = 0;
    let mut k: usize = 0;
    while k < spans.len()
        invariant
            k <= spans@.len(),
            bytes == text.spec_bytes(),
            sv == spans_view(spans@),
            spans_fit(bytes, sv),
            is_char_boundary(bytes, 0),
            is_char_boundary(bytes, bytes.len() as int),
            last as int == resume_at(sv, k as int),
            last <= bytes.len(),
            segments_view(out@) == segments_upto(bytes, sv, k as nat),
        decreases spans@.len() - k,
    {
        let span = &spans[k];
        assert(sv[k as int] == span_view(*span));
        assert(last <= span.start) by {
            if k > 0 {
                assert(sv[(k + 1) - 1 - 1].1 <= sv[k as int].0);
            }
        }
        let before = byte_slice(text, last, span.start);
        let matched = byte_slice(text, span.start, span.end);
        let group = match &span.group {
            Some(g) => Some(g.clone()),
            None => None,
        };
        let ghost prev = segments_view(out@);
        out.push(MatchSegment { text: before, matched: false, group: None });
        out.push(MatchSegment { text: matched, matched: true, group });
        assert(segments_view(out@) =~= segments_upto(bytes, sv, (k + 1) as nat));
        last = span.end;
        k = k + 1;
    }
    let n = text.as_bytes().len();
    let tail = byte_slice(text, last, n);
    let ghost prev = segments_view(out@);
    let ghost tail_text = tail@;
    out.push(MatchSegment { text: tail, matched: false, group: None });
    proof {
        assert(sv.len() == k);
        assert(segments_view(out@) =~= prev.push((tail_text, false, None)));
        assert(segments_view(out@) =~= match_segments(bytes, sv));
        lemma_match_segments_spell_text(bytes, sv);
        encode_utf8_decode_utf8(text@);
    }
    out
}

/// `text` with every match of `pattern` replaced as `kind` says; the text
/// is returned unchanged when the pattern does not compile.
pub fn redact_matches(pattern: &str, kind: Redaction, text: &str) -> (res: String)
    ensures
        res@ == redaction_step(pattern@, kind, text@),
{
    match find_captures(pattern, text) {
        Some(spans) => {
            let segments = segments_from_spans(text, &spans);
            apply_redaction(&segments, kind)
        },
        None => text.to_string(),
    }
}

/// `text` with every plain absolute path among its white-space separated
/// words replaced by `related path` (see `plain_paths_redacted`).
pub fn redact_plain_paths(text: &str) -> (res: String)
    ensures
        res@ == plain_paths_redacted(text@),
{
    let chars = chars_of(text);
    let s = chars.as_slice();
    let ghost t = s@;
    let mut out: Vec<char> = Vec::new();
    let mut i: usize = 0;
    assert(t.skip(0) =~= t);
    while i < s.len()
        invariant
            t == s@,
            i <= s@.len(),
            out@ + plain_paths_redacted(t.skip(i as int)) == plain_paths_redacted(t),
        decreases s@.len() - i,
    {
        let c = s[i];
        assert(t.skip(i as int).drop_first() =~= t.skip(i + 1));
        if is_white_space_char(c) {
            out.push(c);
            i = i + 1;
            assert(out@ + plain_paths_redacted(t.skip(i as int)) =~= plain_paths_redacted(t));
        } else {
            let mut j: usize = i + 1;
            let mut has_tick: bool = c == '`';
            assert(t.subrange(i as int, i + 1) =~= seq![c]);
            proof {
                if c == '`' {
                    assert(t.subrange(i as int, i + 1)[0] == '`');
                }
            }
            while j < s.len() && !is_white_space_char(s[j])
                invariant
                    t == s@,
                    i < j <= s@.len(),
                    !is_white_space(t[i as int]),
                    word_len(t.skip(i as int)) == (j - i) + word_len(t.skip(j as int)),
                    has_tick == t.subrange(i as int, j as int).contains('`'),
                decreases s@.len() - j,
            {
                assert(t.skip(j as int).drop_first() =~= t.skip(j + 1));
                proof {
                    lemma_push_contains(t.subrange(i as int, j as int), t[j as int], '`');
                }
                assert(t.subrange(i as int, j + 1) =~= t.subrange(i as int, j as int).push(t[j as int]));
                if s[j] == '`' {
                    has_tick = true;
                }
                j = j + 1;
            }
            assert(word_len(t.skip(j as int)) == 0);
            assert(t.skip(i as int).take((j - i) as int) =~= t.subrange(i as int, j as int));
            assert(t.skip(i as int).skip((j - i) as int) =~= t.skip(j as int));
            if j - i >= 2 && c == '/' && !has_tick {
                push_all(&mut out, chars_of("related path").as_slice());
            } else {
                push_all(&mut out, &s[i..j]);
            }
            i = j;
            assert(out@ + plain_paths_redacted(t.skip(i as int)) =~= plain_paths_redacted(t));
        }
    }
    assert(t.skip(i as int) =~= Seq::<char>::empty());
    string_from_chars(out.as_slice())
}

/// The redacted form of memory text: session rollout paths, loopback and
/// private-network addresses, plain absolute paths and revealing inline
/// code are replaced by neutral wording.
pub fn sanitize_mem9_content(value: &str) -> (res: String)
    ensures
        res@ == sanitized(value@),
{
    let t1 = redact_matches(SESSION_JSONL_TICKED, Redaction::SessionFile, value);
    let t2 = redact_matches(SESSION_JSONL_PLAIN, Redaction::SessionFile, t1.as_str());
    let t3 = redact_matches(LOOPBACK_URL, Redaction::Loopback, t2.as_str());
    let t4 = redact_matches(LOOPBACK_HOST, Redaction::Loopback, t3.as_str());
    let t5 = redact_matches(PRIVATE_URL, Redaction::PrivateNetwork, t4.as_str());
    let t6 = redact_matches(PRIVATE_HOST, Redaction::PrivateNetwork, t5.as_str());
    let t7 = redact_plain_paths(t6.as_str());
    redact_matches(INLINE_CODE, Redaction::InlineCode, t7.as_str())
}

/// Law: where a pattern matches nothing, redaction puts the text back
/// together unchanged.
pub proof fn lemma_unmatched_text_unchanged(
    segs: Seq<(Seq<char>, bool, Option<Seq<char>>)>,
    kind: Redaction,
)
    requires
        forall|i: int| 0 <= i < segs.len() ==> !(#[trigger] segs[i]).1,
    ensures
        rebuild(segs, kind) == segments_text(segs),
    decreases segs.len(),
{
    if segs.len() > 0 {
        assert forall|i: int| 0 <= i < segs.drop_last().len() implies !(#[trigger] segs.drop_last()[i]).1 by {
            assert(segs.drop_last()[i] == segs[i]);
        }
        lemma_unmatched_text_unchanged(segs.drop_last(), kind);
        assert(!segs[segs.len() - 1].1);
    }
}

} // verus!
