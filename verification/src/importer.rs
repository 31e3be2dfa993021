//! Reading memory items out of Codex memory markdown, and deciding which
//! of them still have to be stored.
use vstd::prelude::*;
use crate::paths::{
    components, components_exec, components_order, components_order_exec, file_name_exec,
    file_name_spec, is_normal_component, is_normal_component_exec, lemma_insert_sorted,
    relative_text, relative_text_exec, sorted_keys,
};
use crate::fingerprint::{fingerprint_spec, fingerprint_value};
use crate::fingerprint_set::{
    fingerprint_entries, fingerprint_set_at, fingerprint_set_insert, fingerprint_set_len,
    fingerprint_sets_equal, new_fingerprint_set,
};
use crate::redact::{sanitize_mem9_content, sanitized};
use crate::config::RuntimeConfig;
use crate::mem9::StorePayload;
use crate::state::{
    lemma_marked_is_recorded, lemma_run_marks_all_recorded, marked, marked_all, SyncState,
    MAX_IMPORTED_FINGERPRINTS,
};
use indexmap::IndexSet;
use crate::text::{
    chars_eq, chars_of, eq_ignore_ascii_case, join_chars, join_spec,
    lemma_trim_has_no_outer_white_space, replace_char,
    replace_char_spec, eq_ignore_ascii_case_spec, is_white_space, line_pieces,
    push_all, seqs_of, split_lines, starts_with, starts_with_spec, string_from_chars,
    strip_all_prefixes, strip_all_prefixes_index, trim_end_len, trim_end_spec, trim_spec,
    trim_start_index, trim_start_spec,
};

verus! {

/// One memory item read from a markdown file.
#[derive(Clone, Debug)]
pub struct ImportItem {
    /// The item as written: `"<label>: <text>"`.
    pub raw_content: String,
    /// The redacted form of `raw_content`, the text that is stored.
    pub content: String,
    pub tags: Vec<String>,
    /// Where the item comes from: `codex-memory:<path under the root>`.
    pub source: String,
    /// Sources that earlier releases gave the same item.
    pub legacy_sources: Vec<String>,
}

/// The plain value of an import item.
pub struct ImportItemView {
    pub raw_content: Seq<char>,
    pub content: Seq<char>,
    pub tags: Seq<Seq<char>>,
    pub source: Seq<char>,
    pub legacy_sources: Seq<Seq<char>>,
}

/// The plain values of a sequence of strings.
pub open spec fn strings_view(v: Seq<String>) -> Seq<Seq<char>> {
    v.map_values(|s: String| s@)
}

/// The plain values of a sequence of string slices.
pub open spec fn strs_view(v: Seq<&str>) -> Seq<Seq<char>> {
    v.map_values(|s: &str| s@)
}

impl View for ImportItem {
    type V = ImportItemView;

    open spec fn view(&self) -> ImportItemView {
        ImportItemView {
            raw_content: self.raw_content@,
            content: self.content@,
            tags: strings_view(self.tags@),
            source: self.source@,
            legacy_sources: strings_view(self.legacy_sources@),
        }
    }
}

/// The plain values of a sequence of items.
pub open spec fn items_view(v: Seq<ImportItem>) -> Seq<ImportItemView> {
    v.map_values(|i: ImportItem| i@)
}

/// The number of `#` characters that open `s`.
pub open spec fn heading_level(s: Seq<char>) -> nat
    decreases s.len(),
{
    if s.len() > 0 && s[0] == '#' {
        1 + heading_level(s.drop_first())
    } else {
        0
    }
}

/// `s` is a markdown heading: one or more `#` followed by a space.
pub open spec fn is_heading(s: Seq<char>) -> bool {
    let k = heading_level(s);
    k > 0 && k < s.len() && s[k as int] == ' '
}

/// What one line does to the scan: the heading that is open after it,
/// and the text of the bullet it holds, if any.
///
/// A heading of the wanted level opens (its trimmed text); a heading of
/// another level closes `heading` when `heading` is open; a line that
/// starts with `- ` under `heading` is a bullet, whose text is what is
/// left once every leading `- ` and the surrounding white space are
/// removed. Empty bullets hold no text.
pub open spec fn bullet_step(current: Seq<char>, raw_line: Seq<char>, heading: Seq<char>) -> (Seq<
    char,
>, Option<Seq<char>>) {
    let line = trim_end_spec(raw_line);
    if is_heading(line) {
        if heading_level(line) == heading_level(heading) {
            (trim_spec(line), None)
        } else if eq_ignore_ascii_case_spec(current, heading) {
            (seq![], None)
        } else {
            (current, None)
        }
    } else if eq_ignore_ascii_case_spec(current, heading) && starts_with_spec(line, "- "@) {
        let text = trim_spec(strip_all_prefixes(line, "- "@));
        if text.len() > 0 {
            (current, Some(text))
        } else {
            (current, None)
        }
    } else {
        (current, None)
    }
}

/// Reads the lines in order (see `bullet_step`): the heading open after
/// the last line, and the bullet texts found under `heading`.
pub open spec fn bullet_scan(lines: Seq<Seq<char>>, heading: Seq<char>) -> (Seq<char>, Seq<
    Seq<char>,
>)
    decreases lines.len(),
{
    if lines.len() == 0 {
        (seq![], seq![])
    } else {
        let (current, texts) = bullet_scan(lines.drop_last(), heading);
        let (next, found) = bullet_step(current, lines.last(), heading);
        match found {
            Some(t) => (next, texts.push(t)),
            None => (next, texts),
        }
    }
}

/// The texts of the bullets under `heading` in `markdown`.
pub open spec fn bullet_texts(markdown: Seq<char>, heading: Seq<char>) -> Seq<Seq<char>> {
    bullet_scan(line_pieces(markdown), heading).1
}

/// The item made of one bullet text.
pub open spec fn bullet_item(
    text: Seq<char>,
    label: Seq<char>,
    tags: Seq<Seq<char>>,
    source: Seq<char>,
    legacy_sources: Seq<Seq<char>>,
) -> ImportItemView {
    let raw = label + ": "@ + text;
    ImportItemView {
        raw_content: raw,
        content: sanitized(raw),
        tags,
        source,
        legacy_sources,
    }
}

/// The items of the bullets under `heading` in `markdown`.
pub open spec fn bullet_items(
    markdown: Seq<char>,
    heading: Seq<char>,
    label: Seq<char>,
    tags: Seq<Seq<char>>,
    source: Seq<char>,
    legacy_sources: Seq<Seq<char>>,
) -> Seq<ImportItemView> {
    bullet_texts(markdown, heading).map_values(
        |t: Seq<char>| bullet_item(t, label, tags, source, legacy_sources),
    )
}

/// Line `h` opens the wanted section: a heading of the wanted level whose
/// trimmed text is `heading`, up to ASCII case.
pub open spec fn opens_section(lines: Seq<Seq<char>>, heading: Seq<char>, h: int) -> bool {
    let line = trim_end_spec(lines[h]);
    &&& is_heading(line)
    &&& heading_level(line) == heading_level(heading)
    &&& eq_ignore_ascii_case_spec(trim_spec(line), heading)
}

/// Line `j` lies under the wanted heading: the nearest heading before it,
/// of any level, opens the wanted section.
pub open spec fn under_heading(lines: Seq<Seq<char>>, heading: Seq<char>, j: int) -> bool {
    exists|h: int|
        0 <= h < j && #[trigger] opens_section(lines, heading, h) && forall|m: int|
            h < m < j ==> !is_heading(trim_end_spec(#[trigger] lines[m]))
}

/// The text of a bullet line: without its trailing white space, every
/// leading `- `, and the white space left around it.
pub open spec fn bullet_text_of(raw_line: Seq<char>) -> Seq<char> {
    trim_spec(strip_all_prefixes(trim_end_spec(raw_line), "- "@))
}

/// Law: the scan is under the wanted section after `j` lines exactly when
/// the nearest heading among them opens it.
pub proof fn lemma_scan_section_is_nearest_heading(lines: Seq<Seq<char>>, heading: Seq<char>, j: int)
    requires
        heading_level(heading) > 0,
        0 <= j <= lines.len(),
    ensures
        eq_ignore_ascii_case_spec(bullet_scan(lines.take(j), heading).0, heading) <==> under_heading(
            lines,
            heading,
            j,
        ),
    decreases j,
{
    if j == 0 {
        assert(lines.take(0) =~= Seq::<Seq<char>>::empty());
    } else {
        let k = j - 1;
        lemma_scan_section_is_nearest_heading(lines, heading, k);
        assert(lines.take(j).drop_last() =~= lines.take(k));
        assert(lines.take(j).last() == lines[k]);
        let line = trim_end_spec(lines[k]);
        if is_heading(line) {
            assert(under_heading(lines, heading, j) <==> opens_section(lines, heading, k)) by {
                if under_heading(lines, heading, j) {
                    let h = choose|h: int|
                        0 <= h < j && #[trigger] opens_section(lines, heading, h) && forall|m: int|
                            h < m < j ==> !is_heading(trim_end_spec(#[trigger] lines[m]));
                    if h < k {
                        assert(!is_heading(trim_end_spec(lines[k])));
                    }
                }
                if opens_section(lines, heading, k) {
                    assert(0 <= k < j && opens_section(lines, heading, k));
                }
            }
        } else {
            assert(under_heading(lines, heading, j) <==> under_heading(lines, heading, k)) by {
                if under_heading(lines, heading, j) {
                    let h = choose|h: int|
                        0 <= h < j && #[trigger] opens_section(lines, heading, h) && forall|m: int|
                            h < m < j ==> !is_heading(trim_end_spec(#[trigger] lines[m]));
                    assert(h != k);
                    assert forall|m: int| h < m < k implies !is_heading(trim_end_spec(
                        #[trigger] lines[m],
                    )) by {}
                    assert(0 <= h < k && opens_section(lines, heading, h));
                }
                if under_heading(lines, heading, k) {
                    let h = choose|h: int|
                        0 <= h < k && #[trigger] opens_section(lines, heading, h) && forall|m: int|
                            h < m < k ==> !is_heading(trim_end_spec(#[trigger] lines[m]));
                    assert forall|m: int| h < m < j implies !is_heading(trim_end_spec(
                        #[trigger] lines[m],
                    )) by {
                        if m == k {
                        }
                    }
                    assert(0 <= h < j && opens_section(lines, heading, h));
                }
            }
        }
    }
}

/// Law: line `j` gives an item exactly when it lies under the wanted
/// heading and is a `- ` bullet with some text; the item's text is the
/// bullet's text.
pub proof fn lemma_bullet_collected_under_heading(lines: Seq<Seq<char>>, heading: Seq<char>, j: int)
    requires
        heading_level(heading) > 0,
        0 <= j < lines.len(),
    ensures
        bullet_scan(lines.take(j + 1), heading).1 == if under_heading(lines, heading, j)
            && starts_with_spec(trim_end_spec(lines[j]), "- "@) && bullet_text_of(lines[j]).len()
            > 0 {
            bullet_scan(lines.take(j), heading).1.push(bullet_text_of(lines[j]))
        } else {
            bullet_scan(lines.take(j), heading).1
        },
{
    lemma_scan_section_is_nearest_heading(lines, heading, j);
    assert(lines.take(j + 1).drop_last() =~= lines.take(j));
    assert(lines.take(j + 1).last() == lines[j]);
    let line = trim_end_spec(lines[j]);
    if starts_with_spec(line, "- "@) {
        reveal_strlit("- ");
        assert(line.subrange(0, 2)[0] == line[0]);
        assert(line[0] == '-');
        assert(heading_level(line) == 0);
    }
}

proof fn lemma_heading_level_prefix(s: Seq<char>, i: int)
    requires
        0 <= i <= s.len(),
        forall|j: int| 0 <= j < i ==> s[j] == '#',
    ensures
        heading_level(s) == i + heading_level(s.skip(i)),
    decreases i,
{
    if i > 0 {
        lemma_heading_level_prefix(s.drop_first(), i - 1);
        assert(s.drop_first().skip(i - 1) =~= s.skip(i));
    } else {
        assert(s.skip(0) =~= s);
    }
}

/// The number of `#` characters that open `s[..n]`.
fn heading_level_exec(s: &[char], n: usize) -> (res: usize)
    requires
        n <= s@.len(),
    ensures
        res == heading_level(s@.subrange(0, n as int)),
        res <= n,
{
    let ghost t = s@.subrange(0, n as int);
    let mut i: usize = 0;
    while i < n && s[i] == '#'
        invariant
            i <= n <= s@.len(),
            t == s@.subrange(0, n as int),
            forall|j: int| 0 <= j < i ==> t[j] == '#',
        decreases n - i,
    {
        i = i + 1;
    }
    proof {
        lemma_heading_level_prefix(t, i as int);
    }
    i
}

/// Bounds of `s[from..to]` with white space removed at both ends.
fn trim_range(s: &[char], from: usize, to: usize) -> (res: (usize, usize))
    requires
        from <= to <= s@.len(),
    ensures
        from <= res.0 <= res.1 <= to,
        s@.subrange(res.0 as int, res.1 as int) == trim_spec(s@.subrange(from as int, to as int)),
{
    let part = &s[from..to];
    let len = trim_end_len(part);
    let end = from + len;
    assert(s@.subrange(from as int, end as int) =~= part@.subrange(0, len as int));
    let start = trim_start_index(s, from, end);
    (start, end)
}

/// The characters `s[from..to]`.
fn copy_range(s: &[char], from: usize, to: usize) -> (res: Vec<char>)
    requires
        from <= to <= s@.len(),
    ensures
        res@ == s@.subrange(from as int, to as int),
{
    let mut res: Vec<char> = Vec::new();
    push_all(&mut res, &s[from..to]);
    res
}

/// Copies of the string slices in `v`.
fn to_strings(v: &[&str]) -> (res: Vec<String>)
    ensures
        strings_view(res@) == strs_view(v@),
{
    let mut res: Vec<String> = Vec::new();
    let mut i: usize = 0;
    while i < v.len()
        invariant
            i <= v@.len(),
            strings_view(res@) == strs_view(v@).take(i as int),
        decreases v@.len() - i,
    {
        let ghost before = strings_view(res@);
        res.push(v[i].to_string());
        assert(strings_view(res@) =~= before.push(v@[i as int]@));
        assert(strs_view(v@).take(i + 1) =~= strs_view(v@).take(i as int).push(v@[i as int]@));
        i = i + 1;
    }
    assert(strs_view(v@).take(v@.len() as int) =~= strs_view(v@));
    res
}

/// Copies of the strings in `v`.
fn clone_strings(v: &[String]) -> (res: Vec<String>)
    ensures
        strings_view(res@) == strings_view(v@),
{
    let mut res: Vec<String> = Vec::new();
    let mut i: usize = 0;
    while i < v.len()
        invariant
            i <= v@.len(),
            strings_view(res@) == strings_view(v@).take(i as int),
        decreases v@.len() - i,
    {
        let ghost before = strings_view(res@);
        res.push(v[i].clone());
        assert(strings_view(res@) =~= before.push(v@[i as int]@));
        assert(strings_view(v@).take(i + 1) =~= strings_view(v@).take(i as int).push(
            v@[i as int]@,
        ));
        i = i + 1;
    }
    assert(strings_view(v@).take(v@.len() as int) =~= strings_view(v@));
    res
}

/// One step of the bullet scan (see `bullet_step`): updates `current`
/// and returns the bullet text the line holds.
fn scan_line(current: &mut Vec<char>, line: &[char], heading: &[char], wanted_level: usize) -> (res:
    Option<Vec<char>>)
    requires
        wanted_level == heading_level(heading@),
    ensures
        (final(current)@, match res {
            Some(t) => Some(t@),
            None => None,
        }) == bullet_step(old(current)@, line@, heading@),
{
    let n = trim_end_len(line);
    let ghost lt = line@.subrange(0, n as int);
    let level = heading_level_exec(line, n);
    if level > 0 && level < n && line[level] == ' ' {
        assert(is_heading(lt));
        if level == wanted_level {
            let (a, b) = trim_range(line, 0, n);
            *current = copy_range(line, a, b);
        } else if eq_ignore_ascii_case(current.as_slice(), heading) {
            *current = Vec::new();
        }
        return None;
    }
    assert(!is_heading(lt));
    let dash = chars_of("- ");
    if eq_ignore_ascii_case(current.as_slice(), heading) && starts_with(&line[0..n], dash.as_slice()) {
        let k = strip_all_prefixes_index(line, 0, n, dash.as_slice());
        let (a, b) = trim_range(line, k, n);
        if a < b {
            return Some(copy_range(line, a, b));
        }
    }
    None
}

/// The items of the bullets under `heading` in `markdown`: each bullet
/// text becomes `"<label>: <text>"`, redacted for storage, with the given
/// tags and sources.
pub fn collect_tagged_bullets(
    markdown: &str,
    heading: &str,
    label: &str,
    tags: &[&str],
    source: &str,
    legacy_sources: &[String],
) -> (res: Vec<ImportItem>)
    ensures
        items_view(res@) == bullet_items(
            markdown@,
            heading@,
            label@,
            strs_view(tags@),
            source@,
            strings_view(legacy_sources@),
        ),
{
    let text = chars_of(markdown);
    let lines = split_lines(text.as_slice());
    let heading_chars = chars_of(heading);
    let wanted_level = heading_level_exec(heading_chars.as_slice(), heading_chars.len());
    assert(heading_chars@.subrange(0, heading_chars@.len() as int) =~= heading_chars@);
    let ghost tag_view = strs_view(tags@);
    let ghost legacy_view = strings_view(legacy_sources@);
    let mut items: Vec<ImportItem> = Vec::new();
    let mut current: Vec<char> = Vec::new();
    let mut i: usize = 0;
    assert(seqs_of(lines@).take(0) =~= Seq::<Seq<char>>::empty());
    while i < lines.len()
        invariant
            i <= lines@.len(),
            wanted_level == heading_level(heading@),
            heading_chars@ == heading@,
            seqs_of(lines@) == line_pieces(markdown@),
            tag_view == strs_view(tags@),
            legacy_view == strings_view(legacy_sources@),
            current@ == bullet_scan(seqs_of(lines@).take(i as int), heading@).0,
            items_view(items@) == bullet_scan(seqs_of(lines@).take(i as int), heading@).1.map_values(
                |t: Seq<char>| bullet_item(t, label@, tag_view, source@, legacy_view),
            ),
        decreases lines@.len() - i,
    {
        assert(seqs_of(lines@).take(i + 1).drop_last() =~= seqs_of(lines@).take(i as int));
        assert(seqs_of(lines@).take(i + 1).last() == lines@[i as int]@);
        let found = scan_line(&mut current, lines[i].as_slice(), heading_chars.as_slice(), wanted_level);
        match found {
            Some(t) => {
                let mut raw = chars_of(label);
                push_all(&mut raw, chars_of(": ").as_slice());
                push_all(&mut raw, t.as_slice());
                let raw_content = string_from_chars(raw.as_slice());
                let content = sanitize_mem9_content(raw_content.as_str());
                let item = ImportItem {
                    raw_content,
                    content,
                    tags: to_strings(tags),
                    source: source.to_string(),
                    legacy_sources: clone_strings(legacy_sources),
                };
                let ghost before = items_view(items@);
                items.push(item);
                assert(items_view(items@) =~= before.push(
                    bullet_item(t@, label@, tag_view, source@, legacy_view),
                ));
            },
            None => {},
        }
        i = i + 1;
    }
    assert(seqs_of(lines@).take(lines@.len() as int) =~= seqs_of(lines@));
    items
}

/// The source of an item in the file at `path` under the memory root
/// `root`: `codex-memory:` and the path relative to the root, with
/// backslashes turned into slashes.
pub open spec fn source_spec(root: Seq<char>, path: Seq<char>) -> Seq<char> {
    "codex-memory:"@ + replace_char_spec(relative_text(root, path), '\\', '/')
}

/// The file and directory names of the path, from its last `memories`
/// directory (or from the start, when there is none) to its end.
pub open spec fn legacy_parts(comps: Seq<Seq<char>>) -> Seq<Seq<char>>
    decreases comps.len(),
{
    if comps.len() == 0 {
        seq![]
    } else {
        let last = comps.last();
        if !is_normal_component(last) {
            legacy_parts(comps.drop_last())
        } else if last == "memories"@ {
            seq![last]
        } else {
            legacy_parts(comps.drop_last()).push(last)
        }
    }
}

/// The source that earlier releases gave items of the file at `path`:
/// `codex-memory:` and the names from the `memories` directory down.
pub open spec fn legacy_source_spec(path: Seq<char>) -> Seq<char> {
    "codex-memory:"@ + join_spec(legacy_parts(components(path)), "/"@)
}

/// Law: every source, current or legacy, is `codex-memory:` followed by
/// path text that holds no backslash in the current form.
pub proof fn lemma_sources_are_codex_memory(root: Seq<char>, path: Seq<char>)
    ensures
        starts_with_spec(source_spec(root, path), "codex-memory:"@),
        starts_with_spec(legacy_source_spec(path), "codex-memory:"@),
        !source_spec(root, path).skip("codex-memory:"@.len() as int).contains('\\'),
{
    let p = "codex-memory:"@;
    let rel = replace_char_spec(relative_text(root, path), '\\', '/');
    assert((p + rel).subrange(0, p.len() as int) =~= p);
    assert((p + rel).skip(p.len() as int) =~= rel);
    let legacy = join_spec(legacy_parts(components(path)), "/"@);
    assert((p + legacy).subrange(0, p.len() as int) =~= p);
    if rel.contains('\\') {
        let k = choose|k: int| 0 <= k < rel.len() && rel[k] == '\\';
    }
}

/// The source of an item in the file at `path` under the memory root
/// `root`.
pub fn build_source(root: &str, path: &str) -> (res: String)
    ensures
        res@ == source_spec(root@, path@),
{
    let root_chars = chars_of(root);
    let path_chars = chars_of(path);
    let relative = relative_text_exec(root_chars.as_slice(), path_chars.as_slice());
    let cleaned = replace_char(relative.as_slice(), '\\', '/');
    let mut out = chars_of("codex-memory:");
    push_all(&mut out, cleaned.as_slice());
    string_from_chars(out.as_slice())
}

/// The source that earlier releases gave items of the file at `path`.
pub fn build_legacy_source(path: &str) -> (res: String)
    ensures
        res@ == legacy_source_spec(path@),
{
    let path_chars = chars_of(path);
    let comps = components_exec(path_chars.as_slice());
    let ghost all = seqs_of(comps@);
    let mut parts: Vec<Vec<char>> = Vec::new();
    let mut i: usize = comps.len();
    assert(all.take(i as int) =~= all);
    while i > 0
        invariant
            i <= comps@.len(),
            all == seqs_of(comps@),
            all == components(path@),
            legacy_parts(all) == legacy_parts(all.take(i as int)) + seqs_of(parts@),
        ensures
            i == 0,
        decreases i,
    {
        let c = &comps[i - 1];
        assert(all.take(i as int).drop_last() =~= all.take(i - 1));
        assert(all.take(i as int).last() == c@);
        if is_normal_component_exec(c) {
            let is_root_dir = chars_eq(c.as_slice(), chars_of("memories").as_slice());
            let ghost before = seqs_of(parts@);
            parts.insert(0, c.clone());
            assert(seqs_of(parts@) =~= seq![c@] + before);
            if is_root_dir {
                assert(legacy_parts(all.take(i as int)) == seq![c@]);
                i = 0;
                assert(legacy_parts(all) == legacy_parts(all.take(0)) + seqs_of(parts@));
                break;
            }
        }
        i = i - 1;
    }
    assert(all.take(0) =~= Seq::<Seq<char>>::empty());
    let mut out = chars_of("codex-memory:");
    let joined = join_chars(&parts, chars_of("/").as_slice());
    push_all(&mut out, joined.as_slice());
    string_from_chars(out.as_slice())
}

/// The sources earlier releases may have given the items of one file:
/// the legacy source, unless it is the current source itself.
pub open spec fn legacy_sources_for(source: Seq<char>, legacy: Seq<char>) -> Seq<Seq<char>> {
    if legacy == source {
        seq![]
    } else {
        seq![legacy]
    }
}

/// The items of one memory file, by the file's name: learnings of
/// `MEMORY.md`; user preferences then general tips of
/// `memory_summary.md`; learnings of any other (rollout summary) file.
pub open spec fn file_items(root: Seq<char>, path: Seq<char>, markdown: Seq<char>) -> Seq<
    ImportItemView,
> {
    let source = source_spec(root, path);
    let legacy = legacy_sources_for(source, legacy_source_spec(path));
    let name = match file_name_spec(path) {
        Some(n) => n,
        None => seq![],
    };
    if name == "MEMORY.md"@ {
        bullet_items(
            markdown,
            "### learnings"@,
            "Learning"@,
            seq!["codex-memory"@, "learning"@],
            source,
            legacy,
        )
    } else if name == "memory_summary.md"@ {
        bullet_items(
            markdown,
            "## User preferences"@,
            "User preference"@,
            seq!["codex-memory"@, "user-preference"@],
            source,
            legacy,
        ) + bullet_items(
            markdown,
            "## General Tips"@,
            "General tip"@,
            seq!["codex-memory"@, "general-tip"@],
            source,
            legacy,
        )
    } else {
        bullet_items(
            markdown,
            "### learnings"@,
            "Learning"@,
            seq!["codex-memory"@, "rollout-learning"@],
            source,
            legacy,
        )
    }
}

/// Every item of a bullet section carries the section's tags, its raw
/// content opens with `<label>: `, and its content is that raw content
/// redacted.
proof fn lemma_bullet_items_tagged(
    markdown: Seq<char>,
    heading: Seq<char>,
    label: Seq<char>,
    tags: Seq<Seq<char>>,
    source: Seq<char>,
    legacy_sources: Seq<Seq<char>>,
)
    ensures
        forall|k: int|
            0 <= k < bullet_items(markdown, heading, label, tags, source, legacy_sources).len() ==> {
                let item = #[trigger] bullet_items(
                    markdown,
                    heading,
                    label,
                    tags,
                    source,
                    legacy_sources,
                )[k];
                &&& item.tags == tags
                &&& starts_with_spec(item.raw_content, label + ": "@)
                &&& item.content == sanitized(item.raw_content)
                &&& item.source == source
            },
{
    let items = bullet_items(markdown, heading, label, tags, source, legacy_sources);
    let texts = bullet_texts(markdown, heading);
    assert forall|k: int| 0 <= k < items.len() implies {
        let item = #[trigger] items[k];
        &&& item.tags == tags
        &&& starts_with_spec(item.raw_content, label + ": "@)
        &&& item.content == sanitized(item.raw_content)
        &&& item.source == source
    } by {
        let prefix = label + ": "@;
        assert(items[k] == bullet_item(texts[k], label, tags, source, legacy_sources));
        assert((prefix + texts[k]).subrange(0, prefix.len() as int) =~= prefix);
        assert(label + ": "@ + texts[k] =~= prefix + texts[k]);
    }
}

/// Law (tags by file): items read from `MEMORY.md` are learnings tagged
/// `codex-memory`, `learning`; items read from `memory_summary.md` are
/// user preferences tagged `codex-memory`, `user-preference` or general
/// tips tagged `codex-memory`, `general-tip`; items read from any other
/// file are learnings tagged `codex-memory`, `rollout-learning`. Every
/// item's content is its raw content redacted.
pub proof fn lemma_file_items_tags(root: Seq<char>, path: Seq<char>, markdown: Seq<char>)
    ensures
        forall|k: int|
            0 <= k < file_items(root, path, markdown).len() ==> {
                let item = #[trigger] file_items(root, path, markdown)[k];
                &&& item.content == sanitized(item.raw_content)
                &&& file_name_spec(path) == Some("MEMORY.md"@) ==> item.tags == seq![
                    "codex-memory"@,
                    "learning"@,
                ] && starts_with_spec(item.raw_content, "Learning: "@)
                &&& file_name_spec(path) == Some("memory_summary.md"@) ==> (item.tags == seq![
                    "codex-memory"@,
                    "user-preference"@,
                ] && starts_with_spec(item.raw_content, "User preference: "@)) || (item.tags
                    == seq!["codex-memory"@, "general-tip"@] && starts_with_spec(
                    item.raw_content,
                    "General tip: "@,
                ))
                &&& file_name_spec(path) != Some("MEMORY.md"@) && file_name_spec(path) != Some(
                    "memory_summary.md"@,
                ) ==> item.tags == seq!["codex-memory"@, "rollout-learning"@] && starts_with_spec(
                    item.raw_content,
                    "Learning: "@,
                )
            },
{
    reveal_strlit("Learning");
    reveal_strlit("Learning: ");
    reveal_strlit("User preference");
    reveal_strlit("User preference: ");
    reveal_strlit("General tip");
    reveal_strlit("General tip: ");
    reveal_strlit(": ");
    reveal_strlit("MEMORY.md");
    reveal_strlit("memory_summary.md");
    assert("Learning"@ + ": "@ =~= "Learning: "@);
    assert("User preference"@ + ": "@ =~= "User preference: "@);
    assert("General tip"@ + ": "@ =~= "General tip: "@);
    assert("MEMORY.md"@ != "memory_summary.md"@) by {
        assert("MEMORY.md"@.len() != "memory_summary.md"@.len());
    }
    let learning_tags = seq!["codex-memory"@, "learning"@];
    let preference_tags = seq!["codex-memory"@, "user-preference"@];
    let tip_tags = seq!["codex-memory"@, "general-tip"@];
    let rollout_tags = seq!["codex-memory"@, "rollout-learning"@];
    let source = source_spec(root, path);
    let legacy = legacy_sources_for(source, legacy_source_spec(path));
    let items = file_items(root, path, markdown);
    let name = match file_name_spec(path) {
        Some(n) => n,
        None => seq![],
    };
    if name == "MEMORY.md"@ {
        lemma_bullet_items_tagged(
            markdown,
            "### learnings"@,
            "Learning"@,
            learning_tags,
            source,
            legacy,
        );
    } else if name == "memory_summary.md"@ {
        let a = bullet_items(
            markdown,
            "## User preferences"@,
            "User preference"@,
            preference_tags,
            source,
            legacy,
        );
        let b = bullet_items(
            markdown,
            "## General Tips"@,
            "General tip"@,
            tip_tags,
            source,
            legacy,
        );
        lemma_bullet_items_tagged(
            markdown,
            "## User preferences"@,
            "User preference"@,
            preference_tags,
            source,
            legacy,
        );
        lemma_bullet_items_tagged(
            markdown,
            "## General Tips"@,
            "General tip"@,
            tip_tags,
            source,
            legacy,
        );
        assert(items == a + b);
        assert forall|k: int| 0 <= k < items.len() implies (#[trigger] items[k] == a[k] && k < a.len())
            || (items[k] == b[k - a.len()] && k >= a.len()) by {}
    } else {
        lemma_bullet_items_tagged(
            markdown,
            "### learnings"@,
            "Learning"@,
            rollout_tags,
            source,
            legacy,
        );
    }
}

/// The two tags `a`, `b`.
fn tag_pair<'a>(a: &'a str, b: &'a str) -> (res: Vec<&'a str>)
    ensures
        strs_view(res@) == seq![a@, b@],
{
    let mut v: Vec<&str> = Vec::new();
    v.push(a);
    v.push(b);
    assert(strs_view(v@) =~= seq![a@, b@]);
    v
}

/// Appends the items `more` to `items`.
fn append_items(items: &mut Vec<ImportItem>, more: Vec<ImportItem>)
    ensures
        items_view(final(items)@) == items_view(old(items)@) + items_view(more@),
{
    let mut rest = more;
    let ghost start = items@;
    let ghost extra = rest@;
    items.append(&mut rest);
    assert(items_view(items@) =~= items_view(start) + items_view(extra));
}

/// The items of the memory file at `path` (under the memory root `root`)
/// whose text is `markdown`.
pub fn collect_from_file(root: &str, path: &str, markdown: &str) -> (res: Vec<ImportItem>)
    ensures
        items_view(res@) == file_items(root@, path@, markdown@),
{
    let source = build_source(root, path);
    let legacy_source = build_legacy_source(path);
    let path_chars = chars_of(path);
    let name = match file_name_exec(path_chars.as_slice()) {
        Some(n) => n,
        None => Vec::new(),
    };
    let mut legacy_sources: Vec<String> = Vec::new();
    if !chars_eq(chars_of(legacy_source.as_str()).as_slice(), chars_of(source.as_str()).as_slice()) {
        legacy_sources.push(legacy_source);
    }
    assert(strings_view(legacy_sources@) =~= legacy_sources_for(
        source_spec(root@, path@),
        legacy_source_spec(path@),
    ));
    let mut items: Vec<ImportItem> = Vec::new();
    if chars_eq(name.as_slice(), chars_of("MEMORY.md").as_slice()) {
        let tags = tag_pair("codex-memory", "learning");
        items = collect_tagged_bullets(
            markdown,
            "### learnings",
            "Learning",
            tags.as_slice(),
            source.as_str(),
            legacy_sources.as_slice(),
        );
    } else if chars_eq(name.as_slice(), chars_of("memory_summary.md").as_slice()) {
        let tags = tag_pair("codex-memory", "user-preference");
        items = collect_tagged_bullets(
            markdown,
            "## User preferences",
            "User preference",
            tags.as_slice(),
            source.as_str(),
            legacy_sources.as_slice(),
        );
        let tips_tags = tag_pair("codex-memory", "general-tip");
        let tips = collect_tagged_bullets(
            markdown,
            "## General Tips",
            "General tip",
            tips_tags.as_slice(),
            source.as_str(),
            legacy_sources.as_slice(),
        );
        append_items(&mut items, tips);
    } else {
        let tags = tag_pair("codex-memory", "rollout-learning");
        items = collect_tagged_bullets(
            markdown,
            "### learnings",
            "Learning",
            tags.as_slice(),
            source.as_str(),
            legacy_sources.as_slice(),
        );
    }
    items
}

/// Position of the last `.` in `name`, or -1.
pub open spec fn last_dot(name: Seq<char>) -> int
    decreases name.len(),
{
    if name.len() == 0 {
        -1
    } else if name.last() == '.' {
        name.len() - 1
    } else {
        last_dot(name.drop_last())
    }
}

/// The extension of a file name (`Path::extension`): what follows its
/// last `.`, unless the name has no `.`, starts with its only `.`, or is
/// `..`.
pub open spec fn extension_spec(name: Seq<char>) -> Option<Seq<char>> {
    if name == ".."@ {
        None
    } else if last_dot(name) <= 0 {
        None
    } else {
        Some(name.skip(last_dot(name) + 1))
    }
}

/// A file whose items are imported: a `.md` file other than
/// `raw_memories.md`.
pub open spec fn is_memory_file(path: Seq<char>) -> bool {
    match file_name_spec(path) {
        Some(n) => n != "raw_memories.md"@ && extension_spec(n) == Some("md"@),
        None => false,
    }
}

/// The memory files among `paths`, in their order.
pub open spec fn memory_files(paths: Seq<Seq<char>>) -> Seq<Seq<char>>
    decreases paths.len(),
{
    if paths.len() == 0 {
        seq![]
    } else {
        memory_files(paths.drop_last()) + if is_memory_file(paths.last()) {
            seq![paths.last()]
        } else {
            seq![]
        }
    }
}

/// Position of the last `.` in `name`, or -1.
fn last_dot_exec(name: &[char]) -> (res: Option<usize>)
    ensures
        match res {
            Some(d) => d == last_dot(name@) && d < name@.len(),
            None => last_dot(name@) == -1,
        },
{
    let mut i: usize = name.len();
    assert(name@.take(i as int) =~= name@);
    while i > 0
        invariant
            i <= name@.len(),
            last_dot(name@) == last_dot(name@.take(i as int)),
        decreases i,
    {
        assert(name@.take(i as int).drop_last() =~= name@.take(i - 1));
        if name[i - 1] == '.' {
            return Some(i - 1);
        }
        i = i - 1;
    }
    None
}

/// Whether the file at `path` is a memory file to import.
pub fn is_memory_file_exec(path: &str) -> (res: bool)
    ensures
        res == is_memory_file(path@),
{
    let path_chars = chars_of(path);
    match file_name_exec(path_chars.as_slice()) {
        Some(n) => {
            if chars_eq(n.as_slice(), chars_of("raw_memories.md").as_slice()) {
                return false;
            }
            if chars_eq(n.as_slice(), chars_of("..").as_slice()) {
                return false;
            }
            let d = match last_dot_exec(n.as_slice()) {
                Some(d) => d,
                None => return false,
            };
            if d == 0 {
                return false;
            }
            let len = n.len();
            let ext = copy_range(n.as_slice(), d + 1, len);
            assert(ext@ =~= n@.skip(d + 1));
            chars_eq(ext.as_slice(), chars_of("md").as_slice())
        },
        None => false,
    }
}

/// The order of two path texts as `Path` values (component by
/// component): negative, zero or positive.
pub open spec fn path_order(a: Seq<char>, b: Seq<char>) -> int {
    components_order(components(a), components(b))
}

/// `x` placed into the sorted `sorted` after every path that does not
/// sort after it.
pub open spec fn insert_in_order(sorted: Seq<Seq<char>>, x: Seq<char>) -> Seq<Seq<char>>
    decreases sorted.len(),
{
    if sorted.len() == 0 || path_order(sorted.last(), x) <= 0 {
        sorted.push(x)
    } else {
        insert_in_order(sorted.drop_last(), x).push(sorted.last())
    }
}

/// `paths` in `Path` order, paths that compare equal keeping their order
/// (a stable sort, as `slice::sort` is).
pub open spec fn sorted_paths(paths: Seq<Seq<char>>) -> Seq<Seq<char>>
    decreases paths.len(),
{
    if paths.len() == 0 {
        seq![]
    } else {
        insert_in_order(sorted_paths(paths.drop_last()), paths.last())
    }
}

/// Placing `x` after every path that does not sort after it is inserting
/// it at `j`, when every path from `j` on sorts after it and the one
/// before `j` does not.
proof fn lemma_insert_in_order_at(s: Seq<Seq<char>>, x: Seq<char>, j: int)
    requires
        0 <= j <= s.len(),
        forall|k: int| j <= k < s.len() ==> path_order(#[trigger] s[k], x) > 0,
        j == 0 || path_order(s[j - 1], x) <= 0,
    ensures
        insert_in_order(s, x) == s.insert(j, x),
    decreases s.len(),
{
    if s.len() == 0 {
        assert(s.push(x) =~= s.insert(j, x));
    } else if path_order(s.last(), x) <= 0 {
        if j < s.len() {
            assert(path_order(s[s.len() - 1], x) > 0);
        }
        assert(s.push(x) =~= s.insert(j, x));
    } else {
        assert(j < s.len());
        let init = s.drop_last();
        assert forall|k: int| j <= k < init.len() implies path_order(#[trigger] init[k], x) > 0 by {
            assert(init[k] == s[k]);
        }
        if j > 0 {
            assert(init[j - 1] == s[j - 1]);
        }
        lemma_insert_in_order_at(init, x, j);
        assert(init.insert(j, x).push(s.last()) =~= s.insert(j, x));
    }
}

/// The memory files among `paths`, sorted the way `Path` values sort
/// (component by component), equal ones in their order.
#[verifier::rlimit(30)]
pub fn select_memory_files(paths: &Vec<String>) -> (res: Vec<String>)
    ensures
        strings_view(res@) == sorted_paths(memory_files(strings_view(paths@))),
        strings_view(res@).to_multiset() == memory_files(strings_view(paths@)).to_multiset(),
        forall|a: int, b: int|
            0 <= a < b < res@.len() ==> components_order(
                components(#[trigger] res@[a]@),
                components(#[trigger] res@[b]@),
            ) <= 0,
{
    let ghost all = strings_view(paths@);
    let mut out: Vec<String> = Vec::new();
    let mut keys: Vec<Vec<Vec<char>>> = Vec::new();
    let mut i: usize = 0;
    assert(all.take(0) =~= Seq::<Seq<char>>::empty());
    assert(strings_view(out@) =~= memory_files(all.take(0)));
    while i < paths.len()
        invariant
            i <= paths@.len(),
            all == strings_view(paths@),
            out@.len() == keys@.len(),
            forall|k: int| 0 <= k < keys@.len() ==> seqs_of(#[trigger] keys@[k]@) == components(
                out@[k]@,
            ),
            sorted_keys(keys@.map_values(|k: Vec<Vec<char>>| seqs_of(k@))),
            strings_view(out@).to_multiset() == memory_files(all.take(i as int)).to_multiset(),
            strings_view(out@) == sorted_paths(memory_files(all.take(i as int))),
        decreases paths@.len() - i,
    {
        assert(all.take(i + 1).drop_last() =~= all.take(i as int));
        assert(all.take(i + 1).last() == paths@[i as int]@);
        let p = &paths[i];
        if is_memory_file_exec(p.as_str()) {
            let key = components_exec(chars_of(p.as_str()).as_slice());
            let ghost ks = keys@.map_values(|k: Vec<Vec<char>>| seqs_of(k@));
            let mut j: usize = keys.len();
            while j > 0 && components_order_exec(&keys[j - 1], &key) > 0
                invariant
                    j <= keys@.len(),
                    ks == keys@.map_values(|k: Vec<Vec<char>>| seqs_of(k@)),
                    forall|k: int| j <= k < ks.len() ==> components_order(#[trigger] ks[k], seqs_of(key@))
                        > 0,
                decreases j,
            {
                j = j - 1;
            }
            proof {
                lemma_insert_sorted(ks, j as int, seqs_of(key@));
            }
            let ghost old_out = strings_view(out@);
            let ghost old_keys = keys@;
            assert(insert_in_order(old_out, p@) == old_out.insert(j as int, p@)) by {
                assert forall|k: int| j <= k < old_out.len() implies path_order(
                    #[trigger] old_out[k],
                    p@,
                ) > 0 by {
                    assert(ks[k] == seqs_of(old_keys[k]@));
                }
                if j > 0 {
                    assert(ks[j - 1] == seqs_of(old_keys[j - 1]@));
                }
                lemma_insert_in_order_at(old_out, p@, j as int);
            }
            out.insert(j, p.clone());
            keys.insert(j, key);
            assert(keys@.map_values(|k: Vec<Vec<char>>| seqs_of(k@)) =~= ks.insert(j as int, seqs_of(key@)));
            assert(strings_view(out@) =~= old_out.insert(j as int, p@));
            assert forall|k: int| 0 <= k < keys@.len() implies seqs_of(#[trigger] keys@[k]@) == components(
                out@[k]@,
            ) by {
                if k < j {
                    assert(keys@[k] == old_keys[k]);
                } else if k > j {
                    assert(keys@[k] == old_keys[k - 1]);
                }
            }
            proof {
                let mf = memory_files(all.take(i + 1));
                assert(mf =~= memory_files(all.take(i as int)).push(p@));
                assert(mf.drop_last() =~= memory_files(all.take(i as int)));
                assert(strings_view(out@).to_multiset() == mf.to_multiset()) by {
                    vstd::seq_lib::to_multiset_insert(old_out, j as int, p@);
                    vstd::seq_lib::to_multiset_build(memory_files(all.take(i as int)), p@);
                }
            }
        } else {
            assert(memory_files(all.take(i + 1)) =~= memory_files(all.take(i as int)));
        }
        i = i + 1;
    }
    assert(all.take(paths@.len() as int) =~= all);
    proof {
        let ks = keys@.map_values(|k: Vec<Vec<char>>| seqs_of(k@));
        assert forall|a: int, b: int| 0 <= a < b < out@.len() implies components_order(
            components(#[trigger] out@[a]@),
            components(#[trigger] out@[b]@),
        ) <= 0 by {
            assert(ks[a] == seqs_of(keys@[a]@));
            assert(ks[b] == seqs_of(keys@[b]@));
        }
    }
    out
}

/// A memory file read from disk: its path and its text.
pub struct MemoryDocument {
    pub path: String,
    pub markdown: String,
}

/// The items of the documents, file after file.
pub open spec fn documents_items(root: Seq<char>, docs: Seq<MemoryDocument>) -> Seq<ImportItemView>
    decreases docs.len(),
{
    if docs.len() == 0 {
        seq![]
    } else {
        documents_items(root, docs.drop_last()) + file_items(
            root,
            docs.last().path@,
            docs.last().markdown@,
        )
    }
}

/// The items of the memory files `documents` (read in the order that
/// `select_memory_files` gives) under the memory root `root`.
pub fn collect_import_entries(root: &str, documents: &Vec<MemoryDocument>) -> (res: Vec<ImportItem>)
    ensures
        items_view(res@) == documents_items(root@, documents@),
{
    let mut items: Vec<ImportItem> = Vec::new();
    let mut i: usize = 0;
    assert(documents@.take(0) =~= Seq::<MemoryDocument>::empty());
    while i < documents.len()
        invariant
            i <= documents@.len(),
            items_view(items@) == documents_items(root@, documents@.take(i as int)),
        decreases documents@.len() - i,
    {
        assert(documents@.take(i + 1).drop_last() =~= documents@.take(i as int));
        let doc = &documents[i];
        let more = collect_from_file(root, doc.path.as_str(), doc.markdown.as_str());
        append_items(&mut items, more);
        i = i + 1;
    }
    assert(documents@.take(documents@.len() as int) =~= documents@);
    items
}

/// The fingerprint under which an item is recorded: that of its raw
/// (unredacted) content and its source.
pub open spec fn canonical_fingerprint(item: ImportItemView) -> Seq<char> {
    fingerprint_spec(item.source, item.raw_content)
}

/// The fingerprints that earlier releases recorded for an item, after the
/// first `n` legacy sources: that of the redacted content under the
/// current source, then that of the redacted content under each legacy
/// source; the canonical fingerprint and repeats are left out.
pub open spec fn legacy_scan(item: ImportItemView, n: nat) -> Seq<Seq<char>>
    decreases n,
{
    let canonical = canonical_fingerprint(item);
    if n == 0 {
        let redacted = fingerprint_spec(item.source, item.content);
        if redacted != canonical {
            seq![redacted]
        } else {
            seq![]
        }
    } else {
        let prev = legacy_scan(item, (n - 1) as nat);
        let legacy = fingerprint_spec(item.legacy_sources[n - 1], item.content);
        if legacy != canonical && !prev.contains(legacy) {
            prev.push(legacy)
        } else {
            prev
        }
    }
}

/// The fingerprints that earlier releases recorded for an item.
pub open spec fn legacy_candidates(item: ImportItemView) -> Seq<Seq<char>> {
    legacy_scan(item, item.legacy_sources.len())
}

/// The fingerprint under which `item` is recorded.
pub fn canonical_fingerprint_for(item: &ImportItem) -> (res: String)
    ensures
        res@ == canonical_fingerprint(item@),
{
    fingerprint_value(item.source.as_str(), item.raw_content.as_str())
}

/// Whether `v` holds a string equal to `s`.
fn strings_contain(v: &Vec<String>, s: &String) -> (res: bool)
    ensures
        res == strings_view(v@).contains(s@),
{
    let mut i: usize = 0;
    while i < v.len()
        invariant
            i <= v@.len(),
            forall|k: int| 0 <= k < i ==> v@[k]@ != s@,
        decreases v@.len() - i,
    {
        if v[i] == *s {
            assert(strings_view(v@)[i as int] == s@);
            return true;
        }
        i = i + 1;
    }
    assert forall|k: int| 0 <= k < strings_view(v@).len() implies strings_view(v@)[k] != s@ by {
        assert(strings_view(v@)[k] == v@[k]@);
    }
    false
}

/// The fingerprints that earlier releases recorded for `item`.
pub fn legacy_fingerprint_candidates(item: &ImportItem) -> (res: Vec<String>)
    ensures
        strings_view(res@) == legacy_candidates(item@),
{
    let canonical = canonical_fingerprint_for(item);
    let mut fingerprints: Vec<String> = Vec::new();
    let redacted = fingerprint_value(item.source.as_str(), item.content.as_str());
    if redacted != canonical {
        fingerprints.push(redacted);
    }
    assert(strings_view(fingerprints@) =~= legacy_scan(item@, 0));
    let mut i: usize = 0;
    while i < item.legacy_sources.len()
        invariant
            i <= item.legacy_sources@.len(),
            canonical@ == canonical_fingerprint(item@),
            strings_view(fingerprints@) == legacy_scan(item@, i as nat),
        decreases item.legacy_sources@.len() - i,
    {
        let legacy = fingerprint_value(item.legacy_sources[i].as_str(), item.content.as_str());
        assert(item@.legacy_sources[i as int] == item.legacy_sources@[i as int]@);
        if legacy != canonical && !strings_contain(&fingerprints, &legacy) {
            let ghost before = strings_view(fingerprints@);
            fingerprints.push(legacy);
            assert(strings_view(fingerprints@) =~= before.push(legacy@));
        }
        i = i + 1;
    }
    fingerprints
}

/// Law: an item's legacy fingerprints never include its canonical
/// fingerprint and never repeat.
pub proof fn lemma_legacy_candidates_distinct(item: ImportItemView)
    ensures
        !legacy_candidates(item).contains(canonical_fingerprint(item)),
        legacy_candidates(item).no_duplicates(),
{
    lemma_legacy_scan_distinct(item, item.legacy_sources.len());
}

proof fn lemma_legacy_scan_distinct(item: ImportItemView, n: nat)
    ensures
        !legacy_scan(item, n).contains(canonical_fingerprint(item)),
        legacy_scan(item, n).no_duplicates(),
    decreases n,
{
    let canonical = canonical_fingerprint(item);
    if n == 0 {
        let r = legacy_scan(item, 0);
        if r.len() > 0 {
            assert(r[0] != canonical);
        }
    } else {
        lemma_legacy_scan_distinct(item, (n - 1) as nat);
        let prev = legacy_scan(item, (n - 1) as nat);
        let legacy = fingerprint_spec(item.legacy_sources[n - 1], item.content);
        let r = legacy_scan(item, n);
        if legacy != canonical && !prev.contains(legacy) {
            assert(r == prev.push(legacy));
            assert forall|i: int, j: int| 0 <= i < r.len() && 0 <= j < r.len() && i != j implies r[i]
                != r[j] by {
                if i == prev.len() as int {
                    assert(prev[j] == r[j]);
                } else if j == prev.len() as int {
                    assert(prev[i] == r[i]);
                } else {
                    assert(prev[i] == r[i] && prev[j] == r[j]);
                }
            }
            if r.contains(canonical) {
                let k = choose|k: int| 0 <= k < r.len() && r[k] == canonical;
                if k < prev.len() {
                    assert(prev[k] == canonical);
                }
            }
        }
    }
}

/// An item's canonical fingerprint together with its legacy ones.
pub open spec fn item_aliases(item: ImportItemView) -> (Seq<char>, Seq<Seq<char>>) {
    (canonical_fingerprint(item), legacy_candidates(item))
}

/// `canonical` once for every legacy fingerprint in `aliases` equal to `f`.
pub open spec fn hits_in(aliases: Seq<Seq<char>>, f: Seq<char>, canonical: Seq<char>) -> Seq<
    Seq<char>,
>
    decreases aliases.len(),
{
    if aliases.len() == 0 {
        seq![]
    } else {
        hits_in(aliases.drop_last(), f, canonical) + if aliases.last() == f {
            seq![canonical]
        } else {
            seq![]
        }
    }
}

/// The canonical fingerprints whose items list `f` as a legacy
/// fingerprint, item after item.
pub open spec fn hits_over(pairs: Seq<(Seq<char>, Seq<Seq<char>>)>, f: Seq<char>) -> Seq<Seq<char>>
    decreases pairs.len(),
{
    if pairs.len() == 0 {
        seq![]
    } else {
        hits_over(pairs.drop_last(), f) + hits_in(pairs.last().1, f, pairs.last().0)
    }
}

/// The canonical fingerprints of the items that list `f` as a legacy
/// fingerprint.
pub open spec fn alias_hits(items: Seq<ImportItemView>, f: Seq<char>) -> Seq<Seq<char>> {
    hits_over(item_alias_pairs(items), f)
}

/// Every item's canonical fingerprint with its legacy ones, in order.
pub open spec fn item_alias_pairs(items: Seq<ImportItemView>) -> Seq<(Seq<char>, Seq<Seq<char>>)> {
    items.map_values(|i: ImportItemView| item_aliases(i))
}

/// `s` with `x` appended unless already present (`IndexSet::insert`).
pub open spec fn insert_unique(s: Seq<Seq<char>>, x: Seq<char>) -> Seq<Seq<char>> {
    if s.contains(x) {
        s
    } else {
        s.push(x)
    }
}

/// Rewrites recorded fingerprints, oldest first, given each item's
/// canonical fingerprint with its legacy ones: a recorded fingerprint
/// that exactly one item lists as a legacy fingerprint becomes that
/// item's canonical fingerprint; one that several items list is dropped,
/// being ambiguous; any other is kept. Also tells whether an alias was
/// met.
pub open spec fn migrate_scan(existing: Seq<Seq<char>>, pairs: Seq<(Seq<char>, Seq<Seq<char>>)>) -> (Seq<
    Seq<char>,
>, bool)
    decreases existing.len(),
{
    if existing.len() == 0 {
        (seq![], false)
    } else {
        let (acc, changed) = migrate_scan(existing.drop_last(), pairs);
        let f = existing.last();
        let hits = hits_over(pairs, f);
        if hits.len() == 1 {
            (insert_unique(acc, hits[0]), true)
        } else if hits.len() > 1 {
            (acc, true)
        } else {
            (insert_unique(acc, f), changed)
        }
    }
}

/// Same members, order aside (`PartialEq for IndexSet`).
pub open spec fn same_members(a: Seq<Seq<char>>, b: Seq<Seq<char>>) -> bool {
    a.len() == b.len() && forall|x: Seq<char>| #[trigger] a.contains(x) ==> b.contains(x)
}

/// The migrated record and whether it differs from the recorded one,
/// given each item's canonical fingerprint with its legacy ones.
pub open spec fn migration_of_pairs(existing: Seq<Seq<char>>, pairs: Seq<(Seq<char>, Seq<Seq<char>>)>) -> (Seq<
    Seq<char>,
>, bool) {
    let (updated, changed) = migrate_scan(existing, pairs);
    (updated, changed || !same_members(updated, existing))
}

/// The migrated record and whether it differs from the recorded one.
pub open spec fn migration(existing: Seq<Seq<char>>, items: Seq<ImportItemView>) -> (Seq<
    Seq<char>,
>, bool) {
    migration_of_pairs(existing, item_alias_pairs(items))
}

/// An item's canonical fingerprint and its legacy fingerprints.
pub struct PreparedItem {
    pub canonical: String,
    pub aliases: Vec<String>,
}

/// The plain values of prepared items.
pub open spec fn prepared_view(p: Seq<PreparedItem>) -> Seq<(Seq<char>, Seq<Seq<char>>)> {
    p.map_values(|x: PreparedItem| (x.canonical@, strings_view(x.aliases@)))
}

/// The canonical and legacy fingerprints of every item.
pub fn prepare_items(items: &[ImportItem]) -> (res: Vec<PreparedItem>)
    ensures
        prepared_view(res@) == item_alias_pairs(items_view(items@)),
{
    let ghost target = item_alias_pairs(items_view(items@));
    let mut res: Vec<PreparedItem> = Vec::new();
    let mut i: usize = 0;
    while i < items.len()
        invariant
            i <= items@.len(),
            target == item_alias_pairs(items_view(items@)),
            prepared_view(res@) == target.take(i as int),
        decreases items@.len() - i,
    {
        let canonical = canonical_fingerprint_for(&items[i]);
        let aliases = legacy_fingerprint_candidates(&items[i]);
        let ghost before = prepared_view(res@);
        assert(items_view(items@)[i as int] == items@[i as int]@);
        assert(target[i as int] == item_aliases(items@[i as int]@));
        res.push(PreparedItem { canonical, aliases });
        assert(prepared_view(res@) =~= before.push(target[i as int]));
        assert(target.take(i + 1) =~= target.take(i as int).push(target[i as int]));
        i = i + 1;
    }
    assert(target.take(items@.len() as int) =~= target);
    res
}

/// The canonical fingerprints of the prepared items that list `f` as a
/// legacy fingerprint.
fn alias_hits_exec(prepared: &Vec<PreparedItem>, f: &String) -> (res: Vec<String>)
    ensures
        strings_view(res@) == hits_over(prepared_view(prepared@), f@),
{
    let ghost pv = prepared_view(prepared@);
    let mut res: Vec<String> = Vec::new();
    let mut i: usize = 0;
    assert(pv.take(0) =~= Seq::<(Seq<char>, Seq<Seq<char>>)>::empty());
    while i < prepared.len()
        invariant
            i <= prepared@.len(),
            pv == prepared_view(prepared@),
            strings_view(res@) == hits_over(pv.take(i as int), f@),
        decreases prepared@.len() - i,
    {
        assert(pv.take(i + 1).drop_last() =~= pv.take(i as int));
        let p = &prepared[i];
        let ghost base = strings_view(res@);
        let ghost al = strings_view(p.aliases@);
        let mut k: usize = 0;
        assert(al.take(0) =~= Seq::<Seq<char>>::empty());
        while k < p.aliases.len()
            invariant
                k <= p.aliases@.len(),
                al == strings_view(p.aliases@),
                strings_view(res@) == base + hits_in(al.take(k as int), f@, p.canonical@),
            decreases p.aliases@.len() - k,
        {
            assert(al.take(k + 1).drop_last() =~= al.take(k as int));
            assert(al.take(k + 1).last() == p.aliases@[k as int]@);
            if p.aliases[k] == *f {
                let ghost before = strings_view(res@);
                res.push(p.canonical.clone());
                assert(strings_view(res@) =~= before.push(p.canonical@));
            }
            k = k + 1;
        }
        assert(al.take(p.aliases@.len() as int) =~= al);
        i = i + 1;
    }
    assert(pv.take(prepared@.len() as int) =~= pv);
    res
}

/// Rewrites the recorded fingerprints `existing` given each item's
/// canonical fingerprint with its legacy ones (see `migrate_scan`), and
/// tells whether the result differs from them.
pub fn migrate_prepared(existing: &IndexSet<String>, prepared: &Vec<PreparedItem>) -> (res: (
    IndexSet<String>,
    bool,
))
    ensures
        (fingerprint_entries(res.0), res.1) == migration_of_pairs(
            fingerprint_entries(*existing),
            prepared_view(prepared@),
        ),
        fingerprint_entries(*existing).no_duplicates(),
        res.1 <==> exists|i: int|
            0 <= i < fingerprint_entries(*existing).len() && hits_over(
                prepared_view(prepared@),
                #[trigger] fingerprint_entries(*existing)[i],
            ).len() > 0,
        !res.1 ==> fingerprint_entries(res.0) == fingerprint_entries(*existing),
{
    let ghost e = fingerprint_entries(*existing);
    let ghost pv = prepared_view(prepared@);
    let mut updated = new_fingerprint_set();
    let mut changed = false;
    let n = fingerprint_set_len(existing);
    let mut i: usize = 0;
    assert(e.take(0) =~= Seq::<Seq<char>>::empty());
    while i < n
        invariant
            i <= n,
            n == e.len(),
            e == fingerprint_entries(*existing),
            pv == prepared_view(prepared@),
            (fingerprint_entries(updated), changed) == migrate_scan(e.take(i as int), pv),
            forall|a: int, b: int|
                0 <= a < i && 0 <= b < e.len() && a != b ==> #[trigger] e[a] != #[trigger] e[b],
        decreases n - i,
    {
        assert(e.take(i + 1).drop_last() =~= e.take(i as int));
        let f = fingerprint_set_at(existing, i);
        assert(e.take(i + 1).last() == f@);
        let hits = alias_hits_exec(prepared, f);
        if hits.len() == 1 {
            changed = true;
            assert(strings_view(hits@)[0] == hits@[0]@);
            fingerprint_set_insert(&mut updated, hits[0].clone());
        } else if hits.len() > 1 {
            changed = true;
        } else {
            fingerprint_set_insert(&mut updated, f.clone());
        }
        i = i + 1;
    }
    assert(e.take(n as int) =~= e);
    assert(e.no_duplicates());
    if !changed && !fingerprint_sets_equal(&updated, existing) {
        changed = true;
    }
    proof {
        lemma_migration_changed_iff_alias(e, pv);
    }
    (updated, changed)
}

/// Rewrites the recorded fingerprints `existing` for the current items
/// (see `migrate_scan`), and tells whether the result differs from them.
pub fn migrate_fingerprints(existing: &IndexSet<String>, items: &[ImportItem]) -> (res: (
    IndexSet<String>,
    bool,
))
    ensures
        (fingerprint_entries(res.0), res.1) == migration(
            fingerprint_entries(*existing),
            items_view(items@),
        ),
        fingerprint_entries(*existing).no_duplicates(),
        res.1 <==> exists|i: int|
            0 <= i < fingerprint_entries(*existing).len() && alias_hits(
                items_view(items@),
                #[trigger] fingerprint_entries(*existing)[i],
            ).len() > 0,
        !res.1 ==> fingerprint_entries(res.0) == fingerprint_entries(*existing),
{
    let prepared = prepare_items(items);
    migrate_prepared(existing, &prepared)
}

/// Rewrites the fingerprints recorded in `state` for the current items
/// (see `migrate_scan`); the record is replaced only when the result
/// differs. Tells whether it did.
pub fn migrate_state_fingerprints(state: &mut SyncState, items: &[ImportItem]) -> (res: bool)
    ensures
        res == migration(old(state).entries(), items_view(items@)).1,
        final(state).entries() == if res {
            migration(old(state).entries(), items_view(items@)).0
        } else {
            old(state).entries()
        },
        res <==> exists|i: int|
            0 <= i < old(state).entries().len() && alias_hits(
                items_view(items@),
                #[trigger] old(state).entries()[i],
            ).len() > 0,
{
    let (updated, changed) = migrate_fingerprints(state.imported_fingerprints(), items);
    if changed {
        state.replace_imported_fingerprints(updated);
    }
    changed
}

/// Counts of one sync run.
#[derive(Clone, Copy, Debug)]
pub struct SyncStats {
    /// Items read.
    pub total: usize,
    /// Items stored by this run.
    pub imported: usize,
    /// Items already recorded as stored.
    pub skipped: usize,
}

impl SyncStats {
    /// All counts zero.
    pub fn new() -> (res: Self)
        ensures
            res.total == 0 && res.imported == 0 && res.skipped == 0,
    {
        SyncStats { total: 0, imported: 0, skipped: 0 }
    }
}

impl Default for SyncStats {
    fn default() -> (res: Self)
        ensures
            res.total == 0 && res.imported == 0 && res.skipped == 0,
    {
        SyncStats::new()
    }
}

/// What to do with one item of a sync run.
pub enum SyncAction {
    /// The item is recorded as stored already.
    Skip,
    /// Send `payload`; when the service accepts it, record `fingerprint`.
    Store { fingerprint: String, payload: StorePayload },
}

/// The key sent to the service: the API key, else the tenant ID.
pub fn effective_api_key(config: &RuntimeConfig) -> (res: String)
    ensures
        res@ == match config.api_key {
            Some(k) => k@,
            None => config.tenant_id@,
        },
{
    match &config.api_key {
        Some(k) => k.clone(),
        None => config.tenant_id.clone(),
    }
}

/// Counts `item` and decides what to do with it: skip it when its
/// canonical fingerprint is recorded, else store its redacted content
/// with its tags and source.
pub fn plan_item(state: &SyncState, stats: &mut SyncStats, item: &ImportItem) -> (res: SyncAction)
    requires
        old(stats).total < usize::MAX,
        old(stats).skipped < usize::MAX,
    ensures
        final(stats).total == old(stats).total + 1,
        final(stats).imported == old(stats).imported,
        state.entries().contains(canonical_fingerprint(item@)) ==> {
            &&& res is Skip
            &&& final(stats).skipped == old(stats).skipped + 1
        },
        !state.entries().contains(canonical_fingerprint(item@)) ==> {
            &&& final(stats).skipped == old(stats).skipped
            &&& res matches SyncAction::Store { fingerprint, payload } && fingerprint@
                == canonical_fingerprint(item@) && payload.content@ == item.content@
                && strings_view(payload.tags@) == strings_view(item.tags@) && payload.source@
                == item.source@
        },
{
    stats.total = stats.total + 1;
    let fingerprint = canonical_fingerprint_for(item);
    if state.contains(fingerprint.as_str()) {
        stats.skipped = stats.skipped + 1;
        return SyncAction::Skip;
    }
    let payload = StorePayload {
        content: item.content.clone(),
        tags: clone_strings(item.tags.as_slice()),
        source: item.source.clone(),
    };
    SyncAction::Store { fingerprint, payload }
}

/// Takes in the service's answer to a store: when it accepted the item,
/// its fingerprint is recorded and counted as imported; otherwise nothing
/// changes. Tells whether the record changed (and must be saved).
pub fn record_store_outcome(
    state: &mut SyncState,
    stats: &mut SyncStats,
    fingerprint: String,
    accepted: bool,
) -> (res: bool)
    requires
        old(stats).imported < usize::MAX,
    ensures
        res == accepted,
        final(stats).total == old(stats).total,
        final(stats).skipped == old(stats).skipped,
        accepted ==> {
            &&& final(state).entries() == marked(old(state).entries(), fingerprint@)
            &&& final(stats).imported == old(stats).imported + 1
        },
        !accepted ==> {
            &&& final(state).entries() == old(state).entries()
            &&& final(stats).imported == old(stats).imported
        },
{
    if accepted {
        state.mark_imported(fingerprint);
        stats.imported = stats.imported + 1;
    }
    accepted
}

/// Where each migrated fingerprint comes from: the canonical fingerprint
/// of an entry's only item, or an entry no item lists.
proof fn lemma_migrate_scan_members(
    existing: Seq<Seq<char>>,
    pairs: Seq<(Seq<char>, Seq<Seq<char>>)>,
)
    ensures
        forall|x: Seq<char>|
            #[trigger] migrate_scan(existing, pairs).0.contains(x) ==> exists|i: int|
                0 <= i < existing.len() && ((hits_over(pairs, #[trigger] existing[i]).len() == 1
                    && x == hits_over(pairs, existing[i])[0]) || (hits_over(pairs,
                    existing[i],
                ).len() == 0 && x == existing[i])),
        migrate_scan(existing, pairs).0.no_duplicates(),
    decreases existing.len(),
{
    if existing.len() > 0 {
        let init = existing.drop_last();
        lemma_migrate_scan_members(init, pairs);
        let (acc, _) = migrate_scan(init, pairs);
        let f = existing.last();
        let hits = hits_over(pairs, f);
        let res = migrate_scan(existing, pairs).0;
        assert forall|x: Seq<char>| #[trigger] res.contains(x) implies exists|i: int|
            0 <= i < existing.len() && ((hits_over(pairs, #[trigger] existing[i]).len() == 1 && x
                == hits_over(pairs, existing[i])[0]) || (hits_over(pairs, existing[i]).len() == 0
                && x == existing[i])) by {
            if acc.contains(x) {
                let i = choose|i: int|
                    0 <= i < init.len() && ((hits_over(pairs, #[trigger] init[i]).len() == 1 && x
                        == hits_over(pairs, init[i])[0]) || (hits_over(pairs, init[i]).len() == 0
                        && x == init[i]));
                assert(existing[i] == init[i]);
            } else {
                assert(existing[existing.len() - 1] == f);
            }
        }
        assert(res.no_duplicates()) by {
            if res.len() == acc.len() + 1 {
                assert forall|i: int, j: int| 0 <= i < res.len() && 0 <= j < res.len() && i != j
                    implies res[i] != res[j] by {
                    if i == acc.len() as int {
                        assert(acc[j] == res[j]);
                    } else if j == acc.len() as int {
                        assert(acc[i] == res[i]);
                    } else {
                        assert(acc[i] == res[i] && acc[j] == res[j]);
                    }
                }
            }
        }
    }
}

/// Law: migrating a record none of whose fingerprints any item lists as
/// a legacy fingerprint (items given by their canonical fingerprint with
/// their legacy ones) leaves it as it is and reports no change.
pub proof fn lemma_migration_without_aliases(
    existing: Seq<Seq<char>>,
    pairs: Seq<(Seq<char>, Seq<Seq<char>>)>,
)
    requires
        existing.no_duplicates(),
        forall|i: int| 0 <= i < existing.len() ==> hits_over(pairs, #[trigger] existing[i]).len() == 0,
    ensures
        migration_of_pairs(existing, pairs) == (existing, false),
    decreases existing.len(),
{
    if existing.len() > 0 {
        let init = existing.drop_last();
        assert forall|i: int| 0 <= i < init.len() implies hits_over(pairs, #[trigger] init[i]).len() == 0 by {
            assert(init[i] == existing[i]);
        }
        lemma_migration_without_aliases(init, pairs);
        assert(hits_over(pairs, existing[existing.len() - 1]).len() == 0);
        assert(!init.contains(existing.last())) by {
            if init.contains(existing.last()) {
                let k = choose|k: int| 0 <= k < init.len() && init[k] == existing.last();
                assert(existing[k] == existing[existing.len() - 1]);
            }
        }
        assert(init.push(existing.last()) =~= existing);
    } else {
        assert(migrate_scan(existing, pairs).0 =~= existing);
    }
}

/// Law: migration reports a change exactly when some recorded
/// fingerprint is listed as a legacy fingerprint by an item; a record
/// reported unchanged comes back as it was, order included.
pub proof fn lemma_migration_changed_iff_alias(
    existing: Seq<Seq<char>>,
    pairs: Seq<(Seq<char>, Seq<Seq<char>>)>,
)
    requires
        existing.no_duplicates(),
    ensures
        migration_of_pairs(existing, pairs).1 <==> exists|i: int|
            0 <= i < existing.len() && hits_over(pairs, #[trigger] existing[i]).len() > 0,
        !migration_of_pairs(existing, pairs).1 ==> migration_of_pairs(existing, pairs).0
            == existing,
{
    if exists|i: int| 0 <= i < existing.len() && hits_over(pairs, #[trigger] existing[i]).len() > 0 {
        let i = choose|i: int| 0 <= i < existing.len() && hits_over(pairs, #[trigger] existing[i]).len() > 0;
        lemma_scan_changed_by_alias(existing, pairs, i);
    } else {
        lemma_migration_without_aliases(existing, pairs);
    }
}

/// A recorded fingerprint that some item lists as a legacy fingerprint
/// makes the scan report a change.
proof fn lemma_scan_changed_by_alias(
    existing: Seq<Seq<char>>,
    pairs: Seq<(Seq<char>, Seq<Seq<char>>)>,
    i: int,
)
    requires
        0 <= i < existing.len(),
        hits_over(pairs, existing[i]).len() > 0,
    ensures
        migrate_scan(existing, pairs).1,
    decreases existing.len(),
{
    if i < existing.len() - 1 {
        let init = existing.drop_last();
        assert(init[i] == existing[i]);
        lemma_scan_changed_by_alias(init, pairs, i);
    }
}

/// Law: the migrated record holds exactly the canonical fingerprints of
/// recorded fingerprints that exactly one item claims as a legacy
/// fingerprint, and the recorded fingerprints that no item claims; a
/// fingerprint claimed by several items is not kept for its own sake.
pub proof fn lemma_migration_members(
    existing: Seq<Seq<char>>,
    pairs: Seq<(Seq<char>, Seq<Seq<char>>)>,
)
    ensures
        forall|x: Seq<char>|
            #[trigger] migration_of_pairs(existing, pairs).0.contains(x) <==> exists|i: int|
                0 <= i < existing.len() && ((hits_over(pairs, #[trigger] existing[i]).len() == 1
                    && x == hits_over(pairs, existing[i])[0]) || (hits_over(
                    pairs,
                    existing[i],
                ).len() == 0 && x == existing[i])),
{
    lemma_migrate_scan_members(existing, pairs);
    assert forall|x: Seq<char>|
        (exists|i: int|
            0 <= i < existing.len() && ((hits_over(pairs, #[trigger] existing[i]).len() == 1 && x
                == hits_over(pairs, existing[i])[0]) || (hits_over(pairs, existing[i]).len() == 0
                && x == existing[i]))) implies #[trigger] migration_of_pairs(
        existing,
        pairs,
    ).0.contains(x) by {
        let i = choose|i: int|
            0 <= i < existing.len() && ((hits_over(pairs, #[trigger] existing[i]).len() == 1 && x
                == hits_over(pairs, existing[i])[0]) || (hits_over(pairs, existing[i]).len() == 0
                && x == existing[i]));
        let e1 = existing.take(i + 1);
        assert(e1.drop_last() =~= existing.take(i));
        assert(e1.last() == existing[i]);
        let acc = migrate_scan(existing.take(i), pairs).0;
        let r = migrate_scan(e1, pairs).0;
        assert(r == insert_unique(acc, x));
        if !acc.contains(x) {
            assert(r[r.len() - 1] == x);
        }
        assert(r.contains(x));
        lemma_scan_keeps_members(existing, pairs, i + 1);
    }
}

/// Law: a migrated record never holds the same fingerprint twice.
pub proof fn lemma_migration_no_duplicates(
    existing: Seq<Seq<char>>,
    pairs: Seq<(Seq<char>, Seq<Seq<char>>)>,
)
    ensures
        migration_of_pairs(existing, pairs).0.no_duplicates(),
{
    lemma_migrate_scan_members(existing, pairs);
}

/// Law: a recorded fingerprint that exactly one item lists as a legacy
/// fingerprint is replaced by that item's canonical fingerprint, and the
/// change is reported.
pub proof fn lemma_unique_alias_migrated(
    existing: Seq<Seq<char>>,
    pairs: Seq<(Seq<char>, Seq<Seq<char>>)>,
    f: Seq<char>,
)
    requires
        existing.contains(f),
        hits_over(pairs, f).len() == 1,
    ensures
        migration_of_pairs(existing, pairs).0.contains(hits_over(pairs, f)[0]),
        migration_of_pairs(existing, pairs).1,
{
    lemma_scan_unique_alias(existing, pairs, f);
}

proof fn lemma_scan_unique_alias(
    existing: Seq<Seq<char>>,
    pairs: Seq<(Seq<char>, Seq<Seq<char>>)>,
    f: Seq<char>,
)
    requires
        existing.contains(f),
        hits_over(pairs, f).len() == 1,
    ensures
        migrate_scan(existing, pairs).0.contains(hits_over(pairs, f)[0]),
        migrate_scan(existing, pairs).1,
    decreases existing.len(),
{
    let init = existing.drop_last();
    assert(existing.take(existing.len() - 1) =~= init);
    if existing.last() == f {
        let acc = migrate_scan(init, pairs).0;
        let r = migrate_scan(existing, pairs).0;
        assert(r == insert_unique(acc, hits_over(pairs, f)[0]));
        if !acc.contains(hits_over(pairs, f)[0]) {
            assert(r[r.len() - 1] == hits_over(pairs, f)[0]);
        }
    } else {
        assert(init.contains(f)) by {
            let k = choose|k: int| 0 <= k < existing.len() && existing[k] == f;
            assert(k != existing.len() - 1);
            assert(init[k] == f);
        }
        lemma_scan_unique_alias(init, pairs, f);
        lemma_scan_keeps_members(existing, pairs, existing.len() - 1);
        lemma_scan_changed_stays(existing, pairs, existing.len() - 1);
    }
}

/// Fingerprints once migrated stay in the record as later entries are
/// read.
proof fn lemma_scan_keeps_members(
    existing: Seq<Seq<char>>,
    pairs: Seq<(Seq<char>, Seq<Seq<char>>)>,
    k: int,
)
    requires
        0 <= k <= existing.len(),
    ensures
        forall|x: Seq<char>|
            #[trigger] migrate_scan(existing.take(k), pairs).0.contains(x) ==> migrate_scan(
                existing,
                pairs,
            ).0.contains(x),
    decreases existing.len() - k,
{
    if k == existing.len() {
        assert(existing.take(k) =~= existing);
    } else {
        let e1 = existing.take(k + 1);
        assert(e1.drop_last() =~= existing.take(k));
        lemma_scan_keeps_members(existing, pairs, k + 1);
        assert forall|x: Seq<char>| #[trigger] migrate_scan(existing.take(k), pairs).0.contains(x)
            implies migrate_scan(e1, pairs).0.contains(x) by {
            let acc = migrate_scan(existing.take(k), pairs).0;
            let i = choose|i: int| 0 <= i < acc.len() && acc[i] == x;
            let r = migrate_scan(e1, pairs).0;
            if r.len() > acc.len() {
                assert(r[i] == acc[i]);
            }
        }
    }
}

/// Once an alias is met, the change stays reported.
proof fn lemma_scan_changed_stays(
    existing: Seq<Seq<char>>,
    pairs: Seq<(Seq<char>, Seq<Seq<char>>)>,
    k: int,
)
    requires
        0 <= k <= existing.len(),
        migrate_scan(existing.take(k), pairs).1,
    ensures
        migrate_scan(existing, pairs).1,
    decreases existing.len() - k,
{
    if k == existing.len() {
        assert(existing.take(k) =~= existing);
    } else {
        let e1 = existing.take(k + 1);
        assert(e1.drop_last() =~= existing.take(k));
        lemma_scan_changed_stays(existing, pairs, k + 1);
    }
}

/// Law: a recorded fingerprint that several items list as a legacy
/// fingerprint is dropped (it cannot tell which item it stood for),
/// unless it is itself the migrated fingerprint of another entry.
pub proof fn lemma_ambiguous_alias_dropped(
    existing: Seq<Seq<char>>,
    pairs: Seq<(Seq<char>, Seq<Seq<char>>)>,
    f: Seq<char>,
)
    requires
        hits_over(pairs, f).len() > 1,
        forall|i: int|
            0 <= i < existing.len() && hits_over(pairs, #[trigger] existing[i]).len() == 1
                ==> hits_over(pairs, existing[i])[0] != f,
    ensures
        !migration_of_pairs(existing, pairs).0.contains(f),
{
    lemma_migrate_scan_members(existing, pairs);
}

/// Law (no duplicate stores): once the service accepted an item and its
/// fingerprint was recorded, planning the same item again skips it, as
/// long as the record kept that fingerprint (it drops only the oldest
/// entries beyond its capacity).
pub proof fn lemma_stored_item_is_skipped(entries: Seq<Seq<char>>, item: ImportItemView)
    requires
        entries.len() <= MAX_IMPORTED_FINGERPRINTS || !entries.subrange(
            0,
            entries.len() - MAX_IMPORTED_FINGERPRINTS,
        ).contains(canonical_fingerprint(item)),
    ensures
        marked(entries, canonical_fingerprint(item)).contains(canonical_fingerprint(item)),
{
    lemma_marked_is_recorded(entries, canonical_fingerprint(item));
}

/// Law (no duplicate stores across runs): while the record stays within
/// its capacity, every item stored in a run is recorded, and so skipped by
/// the next run (`plan_item` skips an item whose canonical fingerprint is
/// recorded).
pub proof fn lemma_run_items_skipped_next_run(entries: Seq<Seq<char>>, stored: Seq<ImportItemView>)
    requires
        entries.len() + stored.len() <= MAX_IMPORTED_FINGERPRINTS,
    ensures
        forall|k: int|
            0 <= k < stored.len() ==> marked_all(
                entries,
                stored.map_values(|i: ImportItemView| canonical_fingerprint(i)),
            ).contains(canonical_fingerprint(#[trigger] stored[k])),
{
    let fps = stored.map_values(|i: ImportItemView| canonical_fingerprint(i));
    lemma_run_marks_all_recorded(entries, fps);
    assert forall|k: int| 0 <= k < stored.len() implies marked_all(entries, fps).contains(
        canonical_fingerprint(#[trigger] stored[k]),
    ) by {
        assert(fps[k] == canonical_fingerprint(stored[k]));
    }
}

/// Law: every bullet text collected is non-empty and has no white space
/// at either end.
pub proof fn lemma_bullet_texts_trimmed(lines: Seq<Seq<char>>, heading: Seq<char>)
    ensures
        forall|i: int|
            0 <= i < bullet_scan(lines, heading).1.len() ==> {
                let t = #[trigger] bullet_scan(lines, heading).1[i];
                t.len() > 0 && !is_white_space(t[0]) && !is_white_space(t.last())
            },
    decreases lines.len(),
{
    if lines.len() > 0 {
        lemma_bullet_texts_trimmed(lines.drop_last(), heading);
        let (current, texts) = bullet_scan(lines.drop_last(), heading);
        let line = trim_end_spec(lines.last());
        lemma_trim_has_no_outer_white_space(strip_all_prefixes(line, "- "@));
        let r = bullet_scan(lines, heading).1;
        assert forall|i: int| 0 <= i < r.len() implies {
            let t = #[trigger] r[i];
            t.len() > 0 && !is_white_space(t[0]) && !is_white_space(t.last())
        } by {
            if i < texts.len() {
                assert(r[i] == texts[i]);
            }
        }
    }
}

/// Law: `raw_memories.md` is never imported, and every imported file is a
/// `.md` file.
pub proof fn lemma_only_markdown_memory_files(paths: Seq<Seq<char>>)
    ensures
        forall|i: int|
            0 <= i < memory_files(paths).len() ==> {
                let p = #[trigger] memory_files(paths)[i];
                file_name_spec(p) matches Some(n) && n != "raw_memories.md"@ && extension_spec(n)
                    == Some("md"@)
            },
    decreases paths.len(),
{
    if paths.len() > 0 {
        lemma_only_markdown_memory_files(paths.drop_last());
        let prev = memory_files(paths.drop_last());
        let r = memory_files(paths);
        assert forall|i: int| 0 <= i < r.len() implies {
            let p = #[trigger] r[i];
            file_name_spec(p) matches Some(n) && n != "raw_memories.md"@ && extension_spec(n)
                == Some("md"@)
        } by {
            if i < prev.len() {
                assert(r[i] == prev[i]);
            }
        }
    }
}

} // verus!
