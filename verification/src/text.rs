//! Character-level text utilities: the views of strings are `Seq<char>`,
//! and every operation here is stated over those sequences.
use vstd::prelude::*;

verus! {

/// Unicode `White_Space` property, the set that `char::is_whitespace`
/// documents.
pub open spec fn is_white_space(c: char) -> bool {
    let v = c as u32;
    ||| (0x9 <= v && v <= 0xD)
    ||| v == 0x20
    ||| v == 0x85
    ||| v == 0xA0
    ||| v == 0x1680
    ||| (0x2000 <= v && v <= 0x200A)
    ||| v == 0x2028
    ||| v == 0x2029
    ||| v == 0x202F
    ||| v == 0x205F
    ||| v == 0x3000
}

/// `s` with its trailing white space removed.
pub open spec fn trim_end_spec(s: Seq<char>) -> Seq<char>
    decreases s.len(),
{
    if s.len() > 0 && is_white_space(s.last()) {
        trim_end_spec(s.drop_last())
    } else {
        s
    }
}

/// `s` with its leading white space removed.
pub open spec fn trim_start_spec(s: Seq<char>) -> Seq<char>
    decreases s.len(),
{
    if s.len() > 0 && is_white_space(s[0]) {
        trim_start_spec(s.drop_first())
    } else {
        s
    }
}

/// `s` with white space removed at both ends.
pub open spec fn trim_spec(s: Seq<char>) -> Seq<char> {
    trim_start_spec(trim_end_spec(s))
}

/// ASCII lower-casing of one character; other characters are unchanged.
pub open spec fn ascii_lower(c: char) -> char {
    if 'A' <= c && c <= 'Z' {
        ((c as u32) + 32) as char
    } else {
        c
    }
}

/// Equality up to ASCII case, as `str::eq_ignore_ascii_case` compares.
pub open spec fn eq_ignore_ascii_case_spec(a: Seq<char>, b: Seq<char>) -> bool {
    &&& a.len() == b.len()
    &&& forall|i: int| 0 <= i < a.len() ==> ascii_lower(#[trigger] a[i]) == ascii_lower(b[i])
}

/// `p` is a prefix of `s`.
pub open spec fn starts_with_spec(s: Seq<char>, p: Seq<char>) -> bool {
    p.len() <= s.len() && s.subrange(0, p.len() as int) == p
}

/// `p` is a suffix of `s`.
pub open spec fn ends_with_spec(s: Seq<char>, p: Seq<char>) -> bool {
    p.len() <= s.len() && s.subrange(s.len() - p.len(), s.len() as int) == p
}

/// `p` occurs in `s` at position `i`.
pub open spec fn occurs_at(s: Seq<char>, p: Seq<char>, i: int) -> bool {
    0 <= i && i + p.len() <= s.len() && s.subrange(i, i + p.len()) == p
}

/// `p` occurs somewhere in `s`.
pub open spec fn contains_spec(s: Seq<char>, p: Seq<char>) -> bool {
    exists|i: int| occurs_at(s, p, i)
}

/// `s` with the prefix `p` removed as many times as it occurs
/// (`str::trim_start_matches` with a non-empty string pattern).
pub open spec fn strip_all_prefixes(s: Seq<char>, p: Seq<char>) -> Seq<char>
    decreases s.len(),
{
    if p.len() > 0 && starts_with_spec(s, p) {
        strip_all_prefixes(s.subrange(p.len() as int, s.len() as int), p)
    } else {
        s
    }
}

/// `s` with `p` removed from its end as many times as it occurs
/// (`str::trim_end_matches` with a non-empty string pattern).
pub open spec fn strip_all_suffixes(s: Seq<char>, p: Seq<char>) -> Seq<char>
    decreases s.len(),
{
    if p.len() > 0 && ends_with_spec(s, p) {
        strip_all_suffixes(s.subrange(0, s.len() - p.len()), p)
    } else {
        s
    }
}

/// Left-to-right split of `s` at each `sep`: the finished pieces and the
/// piece still being read.
pub open spec fn split_state(s: Seq<char>, sep: char) -> (Seq<Seq<char>>, Seq<char>)
    decreases s.len(),
{
    if s.len() == 0 {
        (seq![], seq![])
    } else {
        let (done, cur) = split_state(s.drop_last(), sep);
        if s.last() == sep {
            (done.push(cur), seq![])
        } else {
            (done, cur.push(s.last()))
        }
    }
}

/// All pieces of `s` between occurrences of `sep` (`str::split`).
pub open spec fn split_all(s: Seq<char>, sep: char) -> Seq<Seq<char>> {
    let (done, cur) = split_state(s, sep);
    done.push(cur)
}

/// The lines of `s` as `str::split_inclusive('\n')` cuts them, without
/// their line feed: a final empty piece after the last line feed is not
/// a line.
pub open spec fn line_pieces(s: Seq<char>) -> Seq<Seq<char>> {
    let (done, cur) = split_state(s, '\n');
    if cur.len() > 0 {
        done.push(cur)
    } else {
        done
    }
}

/// The pieces of a split put back together with the separator give the
/// text.
pub proof fn lemma_split_state_spells(s: Seq<char>, sep: char)
    ensures
        join_spec(split_state(s, sep).0.push(split_state(s, sep).1), seq![sep]) == s,
    decreases s.len(),
{
    if s.len() > 0 {
        let init = s.drop_last();
        assert(init.push(s.last()) =~= s);
        lemma_split_state_spells(init, sep);
        let (done, cur) = split_state(init, sep);
        let all = done.push(cur);
        if s.last() == sep {
            let next = all.push(Seq::<char>::empty());
            assert(next.drop_last() == all);
            assert(join_spec(next, seq![sep]) =~= init + seq![sep]);
        } else {
            let next = done.push(cur.push(s.last()));
            assert(next.drop_last() == done);
            if done.len() == 0 {
                assert(join_spec(all, seq![sep]) == cur);
                assert(next.len() == 1 && next[0] == cur.push(s.last()));
                assert(join_spec(next, seq![sep]) == cur.push(s.last()));
                assert(cur == init);
                assert(join_spec(next, seq![sep]) =~= s);
            } else {
                assert(all.drop_last() == done);
                assert(join_spec(next, seq![sep]) =~= join_spec(done, seq![sep]) + seq![sep] + cur.push(
                    s.last(),
                ));
                assert(join_spec(next, seq![sep]) =~= s);
            }
        }
        assert(init.push(s.last()) =~= s);
    }
}

/// The piece still being read ends the text: it is empty exactly when
/// the text is empty or ends with the separator.
proof fn lemma_split_state_last_piece(s: Seq<char>, sep: char)
    ensures
        split_state(s, sep).1.len() == 0 <==> (s.len() == 0 || s.last() == sep),
    decreases s.len(),
{
}

/// Law (no line is lost): the lines of a text joined with line feeds give
/// back the text, with its final line feed when it ends with one; so a
/// last line without a line feed is a line too.
pub proof fn lemma_line_pieces_spell_text(s: Seq<char>)
    ensures
        s.len() > 0 && s.last() == '\n' ==> join_spec(line_pieces(s), seq!['\n']) + seq!['\n'] == s,
        !(s.len() > 0 && s.last() == '\n') ==> join_spec(line_pieces(s), seq!['\n']) == s,
{
    lemma_split_state_spells(s, '\n');
    lemma_split_state_last_piece(s, '\n');
    let (done, cur) = split_state(s, '\n');
    let all = done.push(cur);
    if cur.len() == 0 {
        if s.len() > 0 {
            assert(all.drop_last() == done);
            if done.len() == 0 {
                assert(join_spec(all, seq!['\n']) == cur);
            } else {
                assert(join_spec(all, seq!['\n']) =~= join_spec(done, seq!['\n']) + seq!['\n']);
            }
        } else {
            assert(join_spec(done, seq!['\n']) =~= s) by {
                assert(done.len() == 0);
            }
        }
    }
}

/// Concatenation of a sequence of strings, each followed by nothing.
pub open spec fn concat_all(parts: Seq<Seq<char>>) -> Seq<char>
    decreases parts.len(),
{
    if parts.len() == 0 {
        seq![]
    } else {
        concat_all(parts.drop_last()) + parts.last()
    }
}

/// The strings of `parts` joined with `sep` between them.
pub open spec fn join_spec(parts: Seq<Seq<char>>, sep: Seq<char>) -> Seq<char>
    decreases parts.len(),
{
    if parts.len() == 0 {
        seq![]
    } else if parts.len() == 1 {
        parts[0]
    } else {
        join_spec(parts.drop_last(), sep) + sep + parts.last()
    }
}

/// Every occurrence of `from` in `s` replaced with `to`.
pub open spec fn replace_char_spec(s: Seq<char>, from: char, to: char) -> Seq<char> {
    Seq::new(s.len(), |i: int| if s[i] == from { to } else { s[i] })
}

/// The characters of `s`, in order.
pub fn chars_of(s: &str) -> (res: Vec<char>)
    ensures
        res@ == s@,
{
    let mut res: Vec<char> = Vec::new();
    for c in it: s.chars()
        invariant
            res@ == it.seq().take(it.index() as int),
    {
        res.push(c);
    }
    res
}

/// A `String` holding the characters `chars`.
///
/// Calls std's `FromIterator<&char> for String`; the contract claims that
/// the string holds exactly those characters, in order.
#[verifier::external_body]
pub(crate) fn string_from_chars(chars: &[char]) -> (res: String)
    ensures
        res@ == chars@,
{
    chars.iter().collect()
}

/// `char::is_whitespace`: membership in the Unicode `White_Space` set.
pub fn is_white_space_char(c: char) -> (res: bool)
    ensures
        res == is_white_space(c),
{
    let v = c as u32;
    (0x9 <= v && v <= 0xD) || v == 0x20 || v == 0x85 || v == 0xA0 || v == 0x1680 || (0x2000
        <= v && v <= 0x200A) || v == 0x2028 || v == 0x2029 || v == 0x202F || v == 0x205F || v
        == 0x3000
}

proof fn lemma_trim_end_is_prefix(s: Seq<char>)
    ensures
        trim_end_spec(s).len() <= s.len(),
        trim_end_spec(s) == s.subrange(0, trim_end_spec(s).len() as int),
    decreases s.len(),
{
    if s.len() > 0 && is_white_space(s.last()) {
        lemma_trim_end_is_prefix(s.drop_last());
        assert(s.drop_last().subrange(0, trim_end_spec(s).len() as int) =~= s.subrange(
            0,
            trim_end_spec(s).len() as int,
        ));
    } else {
        assert(s.subrange(0, s.len() as int) =~= s);
    }
}

/// Length of `s` once its trailing white space is removed.
pub fn trim_end_len(s: &[char]) -> (res: usize)
    ensures
        res <= s@.len(),
        s@.subrange(0, res as int) == trim_end_spec(s@),
{
    let mut n = s.len();
    assert(s@.subrange(0, n as int) =~= s@);
    while n > 0 && is_white_space_char(s[n - 1])
        invariant
            n <= s@.len(),
            trim_end_spec(s@.subrange(0, n as int)) == trim_end_spec(s@),
        decreases n,
    {
        assert(s@.subrange(0, n as int).drop_last() =~= s@.subrange(0, n - 1));
        n = n - 1;
    }
    n
}

/// Index of the first character of `s[from..to]` that is not white space
/// (or `to` when there is none).
pub fn trim_start_index(s: &[char], from: usize, to: usize) -> (res: usize)
    requires
        from <= to <= s@.len(),
    ensures
        from <= res <= to,
        s@.subrange(res as int, to as int) == trim_start_spec(s@.subrange(from as int, to as int)),
{
    let mut i = from;
    while i < to && is_white_space_char(s[i])
        invariant
            from <= i <= to <= s@.len(),
            trim_start_spec(s@.subrange(i as int, to as int)) == trim_start_spec(
                s@.subrange(from as int, to as int),
            ),
        decreases to - i,
    {
        assert(s@.subrange(i as int, to as int).drop_first() =~= s@.subrange(i + 1, to as int));
        i = i + 1;
    }
    i
}

/// `str::starts_with` on character sequences.
pub fn starts_with(s: &[char], p: &[char]) -> (res: bool)
    ensures
        res == starts_with_spec(s@, p@),
{
    if p.len() > s.len() {
        return false;
    }
    let mut i: usize = 0;
    while i < p.len()
        invariant
            p@.len() <= s@.len(),
            i <= p@.len(),
            forall|j: int| 0 <= j < i ==> s@[j] == p@[j],
        decreases p@.len() - i,
    {
        if s[i] != p[i] {
            assert(s@.subrange(0, p@.len() as int)[i as int] != p@[i as int]);
            return false;
        }
        i = i + 1;
    }
    assert(s@.subrange(0, p@.len() as int) =~= p@);
    true
}

/// `p` occurs in `s` at position `at`.
pub fn occurs_at_exec(s: &[char], p: &[char], at: usize) -> (res: bool)
    ensures
        res == occurs_at(s@, p@, at as int),
{
    if at > s.len() || p.len() > s.len() - at {
        return false;
    }
    let n = s.len();
    let mut i: usize = 0;
    while i < p.len()
        invariant
            n == s@.len(),
            at + p@.len() <= s@.len(),
            i <= p@.len(),
            forall|j: int| 0 <= j < i ==> s@[at + j] == p@[j],
        decreases p@.len() - i,
    {
        assert(at + i < s@.len());
        if s[at + i] != p[i] {
            assert(s@.subrange(at as int, at + p@.len())[i as int] != p@[i as int]);
            return false;
        }
        i = i + 1;
    }
    assert(s@.subrange(at as int, at + p@.len()) =~= p@);
    true
}

/// `str::contains` with a string pattern, on character sequences.
pub fn contains(s: &[char], p: &[char]) -> (res: bool)
    ensures
        res == contains_spec(s@, p@),
{
    if p.len() > s.len() {
        return false;
    }
    let limit = s.len() - p.len();
    let mut at: usize = 0;
    loop
        invariant
            p@.len() <= s@.len(),
            limit == s@.len() - p@.len(),
            at <= limit,
            forall|k: int| 0 <= k < at ==> !occurs_at(s@, p@, k),
        decreases limit - at,
    {
        if occurs_at_exec(s, p, at) {
            return true;
        }
        if at == limit {
            assert forall|k: int| !occurs_at(s@, p@, k) by {
                if 0 <= k && k + p@.len() <= s@.len() {
                    assert(k <= at);
                }
            }
            return false;
        }
        at = at + 1;
    }
}

/// `str::eq_ignore_ascii_case` on character sequences.
pub fn eq_ignore_ascii_case(a: &[char], b: &[char]) -> (res: bool)
    ensures
        res == eq_ignore_ascii_case_spec(a@, b@),
{
    if a.len() != b.len() {
        return false;
    }
    let mut i: usize = 0;
    while i < a.len()
        invariant
            a@.len() == b@.len(),
            i <= a@.len(),
            forall|j: int| 0 <= j < i ==> ascii_lower(#[trigger] a@[j]) == ascii_lower(b@[j]),
        decreases a@.len() - i,
    {
        if to_ascii_lower(a[i]) != to_ascii_lower(b[i]) {
            return false;
        }
        i = i + 1;
    }
    true
}

/// `char::to_ascii_lowercase`.
pub fn to_ascii_lower(c: char) -> (res: char)
    ensures
        res == ascii_lower(c),
{
    if 'A' <= c && c <= 'Z' {
        let v = (c as u32) + 32;
        assert(0x61 <= v <= 0x7a);
        char_from_ascii(v as u8)
    } else {
        c
    }
}

/// The character whose code is the ASCII byte `b`.
pub fn char_from_ascii(b: u8) -> (res: char)
    requires
        b < 128,
    ensures
        res == b as char,
        res as u32 == b as u32,
{
    b as char
}

/// The views of a sequence of character vectors.
pub open spec fn seqs_of(v: Seq<Vec<char>>) -> Seq<Seq<char>> {
    v.map_values(|x: Vec<char>| x@)
}

/// The lines of `s`, cut at line feeds as `line_pieces` states.
pub fn split_lines(s: &[char]) -> (res: Vec<Vec<char>>)
    ensures
        seqs_of(res@) == line_pieces(s@),
        s@.len() > 0 && s@.last() == '\n' ==> join_spec(seqs_of(res@), seq!['\n']) + seq!['\n']
            == s@,
        !(s@.len() > 0 && s@.last() == '\n') ==> join_spec(seqs_of(res@), seq!['\n']) == s@,
{
    proof {
        lemma_line_pieces_spell_text(s@);
    }
    let (mut done, cur) = split_at_separator(s, '\n');
    if cur.len() > 0 {
        let ghost before = done@;
        let ghost last = cur@;
        done.push(cur);
        assert(seqs_of(done@) =~= seqs_of(before).push(last));
    }
    done
}

/// All pieces of `s` between occurrences of `sep` (`str::split`).
pub fn split_all_exec(s: &[char], sep: char) -> (res: Vec<Vec<char>>)
    ensures
        seqs_of(res@) == split_all(s@, sep),
        res@.len() > 0,
{
    let (mut done, cur) = split_at_separator(s, sep);
    let ghost before = done@;
    let ghost last = cur@;
    done.push(cur);
    assert(seqs_of(done@) =~= seqs_of(before).push(last));
    done
}

/// The finished pieces of `s` and the piece after the last `sep`.
pub fn split_at_separator(s: &[char], sep: char) -> (res: (Vec<Vec<char>>, Vec<char>))
    ensures
        (seqs_of(res.0@), res.1@) == split_state(s@, sep),
{
    let mut done: Vec<Vec<char>> = Vec::new();
    let mut cur: Vec<char> = Vec::new();
    let mut i: usize = 0;
    assert(s@.take(0) =~= Seq::<char>::empty());
    while i < s.len()
        invariant
            i <= s@.len(),
            (seqs_of(done@), cur@) == split_state(s@.take(i as int), sep),
        decreases s@.len() - i,
    {
        assert(s@.take(i + 1).drop_last() =~= s@.take(i as int));
        let c = s[i];
        if c == sep {
            let ghost before = done@;
            let ghost finished = cur@;
            done.push(cur);
            cur = Vec::new();
            assert(seqs_of(done@) =~= seqs_of(before).push(finished));
        } else {
            cur.push(c);
        }
        i = i + 1;
    }
    assert(s@.take(s@.len() as int) =~= s@);
    (done, cur)
}

/// Index at which `s[from..to]` starts once every leading copy of `p` is
/// removed (`str::trim_start_matches`).
pub fn strip_all_prefixes_index(s: &[char], from: usize, to: usize, p: &[char]) -> (res: usize)
    requires
        from <= to <= s@.len(),
    ensures
        from <= res <= to,
        s@.subrange(res as int, to as int) == strip_all_prefixes(
            s@.subrange(from as int, to as int),
            p@,
        ),
{
    if p.len() == 0 {
        return from;
    }
    let mut i = from;
    loop
        invariant
            from <= i <= to <= s@.len(),
            p@.len() > 0,
            strip_all_prefixes(s@.subrange(i as int, to as int), p@) == strip_all_prefixes(
                s@.subrange(from as int, to as int),
                p@,
            ),
        decreases to - i,
    {
        let hit = to - i >= p.len() && occurs_at_exec(s, p, i);
        proof {
            let t = s@.subrange(i as int, to as int);
            if to - i >= p@.len() {
                assert(t.subrange(0, p@.len() as int) =~= s@.subrange(i as int, i + p@.len()));
                assert(t.subrange(p@.len() as int, t.len() as int) =~= s@.subrange(
                    i + p@.len(),
                    to as int,
                ));
            }
        }
        if !hit {
            return i;
        }
        i = i + p.len();
    }
}

/// Appends the characters `s` to `v`.
pub fn push_all(v: &mut Vec<char>, s: &[char])
    ensures
        final(v)@ == old(v)@ + s@,
{
    let ghost start = v@;
    let mut i: usize = 0;
    while i < s.len()
        invariant
            i <= s@.len(),
            v@ == start + s@.take(i as int),
        decreases s@.len() - i,
    {
        assert(s@.take(i + 1) =~= s@.take(i as int).push(s@[i as int]));
        v.push(s[i]);
        i = i + 1;
    }
    assert(s@.take(s@.len() as int) =~= s@);
}

/// The characters of `s` with every occurrence of `from` replaced by `to`.
pub fn replace_char(s: &[char], from: char, to: char) -> (res: Vec<char>)
    ensures
        res@ == replace_char_spec(s@, from, to),
{
    let mut res: Vec<char> = Vec::new();
    let mut i: usize = 0;
    while i < s.len()
        invariant
            i <= s@.len(),
            res@ =~= replace_char_spec(s@.take(i as int), from, to),
        decreases s@.len() - i,
    {
        if s[i] == from {
            res.push(to);
        } else {
            res.push(s[i]);
        }
        i = i + 1;
    }
    assert(s@.take(s@.len() as int) =~= s@);
    res
}

/// The character vectors of `parts` joined with `sep` between them.
pub fn join_chars(parts: &Vec<Vec<char>>, sep: &[char]) -> (res: Vec<char>)
    ensures
        res@ == join_spec(seqs_of(parts@), sep@),
{
    let mut res: Vec<char> = Vec::new();
    let mut i: usize = 0;
    while i < parts.len()
        invariant
            i <= parts@.len(),
            res@ == join_spec(seqs_of(parts@).take(i as int), sep@),
        decreases parts@.len() - i,
    {
        let ghost taken = seqs_of(parts@).take(i + 1);
        assert(taken.drop_last() =~= seqs_of(parts@).take(i as int));
        if i > 0 {
            push_all(&mut res, sep);
        }
        push_all(&mut res, parts[i].as_slice());
        proof {
            if i == 0 {
                assert(res@ =~= taken[0]);
            }
        }
        i = i + 1;
    }
    assert(seqs_of(parts@).take(parts@.len() as int) =~= seqs_of(parts@));
    res
}

/// Equality of two character sequences.
pub fn chars_eq(a: &[char], b: &[char]) -> (res: bool)
    ensures
        res == (a@ == b@),
{
    if a.len() != b.len() {
        return false;
    }
    let mut i: usize = 0;
    while i < a.len()
        invariant
            a@.len() == b@.len(),
            i <= a@.len(),
            forall|j: int| 0 <= j < i ==> a@[j] == b@[j],
        decreases a@.len() - i,
    {
        if a[i] != b[i] {
            return false;
        }
        i = i + 1;
    }
    assert(a@ =~= b@);
    true
}

/// Length of `s` once every trailing copy of `p` is removed
/// (`str::trim_end_matches`).
pub fn strip_all_suffixes_len(s: &[char], p: &[char]) -> (res: usize)
    ensures
        res <= s@.len(),
        s@.subrange(0, res as int) == strip_all_suffixes(s@, p@),
{
    if p.len() == 0 {
        assert(s@.subrange(0, s@.len() as int) =~= s@);
        return s.len();
    }
    let mut n = s.len();
    assert(s@.subrange(0, n as int) =~= s@);
    loop
        invariant
            n <= s@.len(),
            p@.len() > 0,
            strip_all_suffixes(s@.subrange(0, n as int), p@) == strip_all_suffixes(s@, p@),
        decreases n,
    {
        let hit = n >= p.len() && occurs_at_exec(s, p, n - p.len());
        proof {
            let t = s@.subrange(0, n as int);
            if n >= p@.len() {
                assert(t.subrange(t.len() - p@.len(), t.len() as int) =~= s@.subrange(
                    n - p@.len(),
                    n as int,
                ));
                assert(t.subrange(0, t.len() - p@.len()) =~= s@.subrange(0, n - p@.len()));
            }
        }
        if !hit {
            return n;
        }
        n = n - p.len();
    }
}

/// `trim_start_spec(s)` is what remains of `s` after some leading
/// characters.
pub proof fn lemma_trim_start_is_suffix(s: Seq<char>)
    ensures
        trim_start_spec(s).len() <= s.len(),
        trim_start_spec(s) == s.skip(s.len() - trim_start_spec(s).len()),
    decreases s.len(),
{
    if s.len() > 0 && is_white_space(s[0]) {
        lemma_trim_start_is_suffix(s.drop_first());
        assert(s.drop_first().skip(s.drop_first().len() - trim_start_spec(s).len()) =~= s.skip(
            s.len() - trim_start_spec(s).len(),
        ));
    } else {
        assert(s.skip(0) =~= s);
    }
}

/// Trimmed text neither starts nor ends with white space.
pub proof fn lemma_trim_has_no_outer_white_space(s: Seq<char>)
    ensures
        trim_spec(s).len() > 0 ==> !is_white_space(trim_spec(s)[0]) && !is_white_space(
            trim_spec(s).last(),
        ),
{
    let e = trim_end_spec(s);
    lemma_trim_end_last(s);
    lemma_trim_start_first(e);
    lemma_trim_start_is_suffix(e);
    if trim_spec(s).len() > 0 {
        let t = trim_spec(s);
        assert(t.last() == e.last());
    }
}

proof fn lemma_trim_end_last(s: Seq<char>)
    ensures
        trim_end_spec(s).len() > 0 ==> !is_white_space(trim_end_spec(s).last()),
    decreases s.len(),
{
    if s.len() > 0 && is_white_space(s.last()) {
        lemma_trim_end_last(s.drop_last());
    }
}

proof fn lemma_trim_start_first(s: Seq<char>)
    ensures
        trim_start_spec(s).len() > 0 ==> !is_white_space(trim_start_spec(s)[0]),
    decreases s.len(),
{
    if s.len() > 0 && is_white_space(s[0]) {
        lemma_trim_start_first(s.drop_first());
    }
}

} // verus!
