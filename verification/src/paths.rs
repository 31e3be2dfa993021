//! Unix path text, modelled as the sequence of its components the way
//! `std::path::Path::components` reads it: a leading `/` is the root
//! component `"/"`, a leading `.` piece is the current-directory
//! component `"."`, empty and later `.` pieces are dropped, and every
//! other piece between slashes is a component of its own.
use vstd::prelude::*;
use crate::text::{chars_eq, join_chars, join_spec, push_all, seqs_of, split_all, split_all_exec};

verus! {

/// The root component.
pub open spec fn root_component() -> Seq<char> {
    seq!['/']
}

/// A component that names a file or directory (not `/`, `.` or `..`).
pub open spec fn is_normal_component(c: Seq<char>) -> bool {
    c != seq!['/'] && c != seq!['.'] && c != seq!['.', '.']
}

/// The pieces between slashes that stand as components: every non-empty
/// piece other than `.`.
pub open spec fn kept_pieces(pieces: Seq<Seq<char>>) -> Seq<Seq<char>>
    decreases pieces.len(),
{
    if pieces.len() == 0 {
        seq![]
    } else {
        let last = pieces.last();
        kept_pieces(pieces.drop_last()) + if last.len() > 0 && last != seq!['.'] {
            seq![last]
        } else {
            seq![]
        }
    }
}

/// The leading component that is not a piece between slashes: the root
/// for an absolute path, `.` for a path that starts with a `.` piece.
pub open spec fn leading_components(p: Seq<char>) -> Seq<Seq<char>> {
    if p.len() > 0 && p[0] == '/' {
        seq![root_component()]
    } else if split_all(p, '/')[0] == seq!['.'] {
        seq![seq!['.']]
    } else {
        seq![]
    }
}

/// The components of the path text `p`.
pub open spec fn components(p: Seq<char>) -> Seq<Seq<char>> {
    leading_components(p) + kept_pieces(split_all(p, '/'))
}

/// `prefix` is a leading run of `comps`.
pub open spec fn is_component_prefix(prefix: Seq<Seq<char>>, comps: Seq<Seq<char>>) -> bool {
    prefix.len() <= comps.len() && comps.take(prefix.len() as int) == prefix
}

/// A piece between slashes that `Components` passes over inside a path:
/// an empty one or `.`.
pub open spec fn is_skipped_piece(piece: Seq<char>) -> bool {
    piece.len() == 0 || piece == seq!['.']
}

/// The pieces that follow the `k`-th piece that stands as a component
/// (all of `pieces` when `k` is zero, none when there are fewer).
pub open spec fn drop_components(pieces: Seq<Seq<char>>, k: nat) -> Seq<Seq<char>>
    decreases pieces.len(),
{
    if k == 0 || pieces.len() == 0 {
        if k == 0 {
            pieces
        } else {
            seq![]
        }
    } else if is_skipped_piece(pieces[0]) {
        drop_components(pieces.drop_first(), k)
    } else {
        drop_components(pieces.drop_first(), (k - 1) as nat)
    }
}

/// `pieces` without the skipped pieces at its start.
pub open spec fn trim_leading_pieces(pieces: Seq<Seq<char>>) -> Seq<Seq<char>>
    decreases pieces.len(),
{
    if pieces.len() > 0 && is_skipped_piece(pieces[0]) {
        trim_leading_pieces(pieces.drop_first())
    } else {
        pieces
    }
}

/// `pieces` without the skipped pieces at its end.
pub open spec fn trim_trailing_pieces(pieces: Seq<Seq<char>>) -> Seq<Seq<char>>
    decreases pieces.len(),
{
    if pieces.len() > 0 && is_skipped_piece(pieces.last()) {
        trim_trailing_pieces(pieces.drop_last())
    } else {
        pieces
    }
}

/// The path text that is left of `p` once its first `k` components are
/// read (`Components::as_path`). With none read, only trailing slashes and
/// `.` pieces go, never the leading `/` or `.`; after one or more, the
/// text after the last one read, without slashes and `.` pieces at either
/// end.
pub open spec fn remaining_text(p: Seq<char>, k: nat) -> Seq<char> {
    let pieces = split_all(p, '/');
    if k == 0 {
        if p.len() > 0 && p[0] == '/' {
            seq!['/'] + join_spec(trim_trailing_pieces(pieces.drop_first()), seq!['/'])
        } else if pieces[0] == seq!['.'] {
            let t = trim_trailing_pieces(pieces.drop_first());
            if t.len() == 0 {
                seq!['.']
            } else {
                seq!['.', '/'] + join_spec(t, seq!['/'])
            }
        } else {
            join_spec(trim_trailing_pieces(pieces), seq!['/'])
        }
    } else {
        let rest = if leading_components(p).len() > 0 {
            drop_components(pieces.drop_first(), (k - 1) as nat)
        } else {
            drop_components(pieces, k)
        };
        join_spec(trim_trailing_pieces(trim_leading_pieces(rest)), seq!['/'])
    }
}

/// The text of `path` relative to `root` (`Path::strip_prefix` then
/// `to_string_lossy`), or the whole of `path` when `root` is not one of
/// its ancestors.
pub open spec fn relative_text(root: Seq<char>, path: Seq<char>) -> Seq<char> {
    let r = components(root);
    if is_component_prefix(r, components(path)) {
        remaining_text(path, r.len())
    } else {
        path
    }
}

/// The last component of `path` when it names a file (`Path::file_name`).
pub open spec fn file_name_spec(path: Seq<char>) -> Option<Seq<char>> {
    let comps = components(path);
    if comps.len() > 0 && is_normal_component(comps.last()) {
        Some(comps.last())
    } else {
        None
    }
}

/// `base` joined with the relative path `name` (`Path::join`): a slash is
/// put between them unless `base` is empty or already ends with one.
pub open spec fn join_path(base: Seq<char>, name: Seq<char>) -> Seq<char> {
    if base.len() == 0 || base.last() == '/' {
        base + name
    } else {
        base + seq!['/'] + name
    }
}

/// The component texts of `pieces` that the kept-pieces rule keeps.
proof fn lemma_kept_pieces_step(pieces: Seq<Seq<char>>, i: int)
    requires
        0 <= i < pieces.len(),
    ensures
        kept_pieces(pieces.take(i + 1)) == kept_pieces(pieces.take(i)) + if pieces[i].len() > 0
            && pieces[i] != seq!['.'] {
            seq![pieces[i]]
        } else {
            seq![]
        },
{
    assert(pieces.take(i + 1).drop_last() =~= pieces.take(i));
}

/// The character vector `['/']`.
fn root_component_exec() -> (res: Vec<char>)
    ensures
        res@ == root_component(),
{
    let mut v: Vec<char> = Vec::new();
    v.push('/');
    assert(v@ =~= root_component());
    v
}

/// True when `c` is the single character `.`.
fn is_dot(c: &Vec<char>) -> (res: bool)
    ensures
        res == (c@ == seq!['.']),
{
    let r = c.len() == 1 && c[0] == '.';
    proof {
        if c@.len() == 1 && c@[0] == '.' {
            assert(c@ =~= seq!['.']);
        }
    }
    r
}

/// True when `c` names a file or directory.
pub fn is_normal_component_exec(c: &Vec<char>) -> (res: bool)
    ensures
        res == is_normal_component(c@),
{
    let is_root = c.len() == 1 && c[0] == '/';
    let is_cur = c.len() == 1 && c[0] == '.';
    let is_parent = c.len() == 2 && c[0] == '.' && c[1] == '.';
    proof {
        if c@.len() == 1 && c@[0] == '/' {
            assert(c@ =~= seq!['/']);
        }
        if c@.len() == 1 && c@[0] == '.' {
            assert(c@ =~= seq!['.']);
        }
        if c@.len() == 2 && c@[0] == '.' && c@[1] == '.' {
            assert(c@ =~= seq!['.', '.']);
        }
    }
    !is_root && !is_cur && !is_parent
}

/// The components of the path text `p`.
pub fn components_exec(p: &[char]) -> (res: Vec<Vec<char>>)
    ensures
        seqs_of(res@) == components(p@),
{
    let pieces = split_all_exec(p, '/');
    let mut res: Vec<Vec<char>> = Vec::new();
    assert(seqs_of(pieces@)[0] == pieces@[0]@);
    if p.len() > 0 && p[0] == '/' {
        res.push(root_component_exec());
    } else if is_dot(&pieces[0]) {
        let mut dot: Vec<char> = Vec::new();
        dot.push('.');
        assert(dot@ =~= seq!['.']);
        res.push(dot);
    }
    assert(seqs_of(res@) =~= leading_components(p@));
    let ghost lead = seqs_of(res@);
    let mut i: usize = 0;
    assert(seqs_of(pieces@).take(0) =~= Seq::<Seq<char>>::empty());
    while i < pieces.len()
        invariant
            i <= pieces@.len(),
            lead == leading_components(p@),
            seqs_of(res@) == lead + kept_pieces(seqs_of(pieces@).take(i as int)),
        decreases pieces@.len() - i,
    {
        proof {
            lemma_kept_pieces_step(seqs_of(pieces@), i as int);
        }
        if pieces[i].len() > 0 && !is_dot(&pieces[i]) {
            let ghost before = seqs_of(res@);
            res.push(pieces[i].clone());
            assert(seqs_of(res@) =~= before.push(pieces@[i as int]@));
        }
        i = i + 1;
    }
    assert(seqs_of(pieces@).take(pieces@.len() as int) =~= seqs_of(pieces@));
    res
}

/// True when `prefix` is a leading run of `comps`.
pub fn is_component_prefix_exec(prefix: &Vec<Vec<char>>, comps: &Vec<Vec<char>>) -> (res: bool)
    ensures
        res == is_component_prefix(seqs_of(prefix@), seqs_of(comps@)),
{
    if prefix.len() > comps.len() {
        return false;
    }
    let mut i: usize = 0;
    while i < prefix.len()
        invariant
            prefix@.len() <= comps@.len(),
            i <= prefix@.len(),
            forall|j: int| 0 <= j < i ==> prefix@[j]@ == comps@[j]@,
        decreases prefix@.len() - i,
    {
        if !chars_eq(prefix[i].as_slice(), comps[i].as_slice()) {
            assert(seqs_of(comps@).take(prefix@.len() as int)[i as int] != seqs_of(prefix@)[i as int]);
            return false;
        }
        i = i + 1;
    }
    assert(seqs_of(comps@).take(prefix@.len() as int) =~= seqs_of(prefix@));
    true
}

/// True when `piece` is empty or `.`.
fn is_skipped_piece_exec(piece: &Vec<char>) -> (res: bool)
    ensures
        res == is_skipped_piece(piece@),
{
    piece.len() == 0 || is_dot(piece)
}

/// Index of the first piece after the `k`-th component among
/// `pieces[from..]` (see `drop_components`).
fn drop_components_index(pieces: &Vec<Vec<char>>, from: usize, k: usize) -> (res: usize)
    requires
        from <= pieces@.len(),
    ensures
        from <= res <= pieces@.len(),
        seqs_of(pieces@).skip(res as int) == drop_components(seqs_of(pieces@).skip(from as int), k as nat),
{
    let ghost all = seqs_of(pieces@);
    let mut i: usize = from;
    let mut left: usize = k;
    while left > 0 && i < pieces.len()
        invariant
            from <= i <= pieces@.len(),
            all == seqs_of(pieces@),
            drop_components(all.skip(i as int), left as nat) == drop_components(
                all.skip(from as int),
                k as nat,
            ),
        decreases pieces@.len() - i,
    {
        assert(all.skip(i as int).drop_first() =~= all.skip(i + 1));
        assert(all.skip(i as int)[0] == pieces@[i as int]@);
        if !is_skipped_piece_exec(&pieces[i]) {
            left = left - 1;
        }
        i = i + 1;
    }
    if left > 0 {
        assert(all.skip(i as int) =~= Seq::<Seq<char>>::empty());
    }
    i
}

/// Index of the first piece of `pieces[from..]` that is not skipped (see
/// `trim_leading_pieces`).
fn trim_leading_index(pieces: &Vec<Vec<char>>, from: usize) -> (res: usize)
    requires
        from <= pieces@.len(),
    ensures
        from <= res <= pieces@.len(),
        seqs_of(pieces@).skip(res as int) == trim_leading_pieces(seqs_of(pieces@).skip(from as int)),
{
    let ghost all = seqs_of(pieces@);
    let mut i: usize = from;
    while i < pieces.len() && is_skipped_piece_exec(&pieces[i])
        invariant
            from <= i <= pieces@.len(),
            all == seqs_of(pieces@),
            trim_leading_pieces(all.skip(i as int)) == trim_leading_pieces(all.skip(from as int)),
        decreases pieces@.len() - i,
    {
        assert(all.skip(i as int).drop_first() =~= all.skip(i + 1));
        assert(all.skip(i as int)[0] == pieces@[i as int]@);
        i = i + 1;
    }
    if i < pieces.len() {
        assert(all.skip(i as int)[0] == pieces@[i as int]@);
    }
    i
}

/// End of `pieces[from..]` once the skipped pieces at its end are left
/// out (see `trim_trailing_pieces`).
fn trim_trailing_index(pieces: &Vec<Vec<char>>, from: usize) -> (res: usize)
    requires
        from <= pieces@.len(),
    ensures
        from <= res <= pieces@.len(),
        seqs_of(pieces@).subrange(from as int, res as int) == trim_trailing_pieces(
            seqs_of(pieces@).skip(from as int),
        ),
{
    let ghost all = seqs_of(pieces@);
    let mut end: usize = pieces.len();
    assert(all.subrange(from as int, end as int) =~= all.skip(from as int));
    while end > from && is_skipped_piece_exec(&pieces[end - 1])
        invariant
            from <= end <= pieces@.len(),
            all == seqs_of(pieces@),
            trim_trailing_pieces(all.subrange(from as int, end as int)) == trim_trailing_pieces(
                all.skip(from as int),
            ),
        decreases end,
    {
        assert(all.subrange(from as int, end as int).drop_last() =~= all.subrange(
            from as int,
            end - 1,
        ));
        assert(all.subrange(from as int, end as int).last() == pieces@[end - 1]@);
        end = end - 1;
    }
    if end > from {
        assert(all.subrange(from as int, end as int).last() == pieces@[end - 1]@);
    }
    end
}

/// The pieces `pieces[from..to]` joined with slashes.
fn join_piece_range(pieces: &Vec<Vec<char>>, from: usize, to: usize) -> (res: Vec<char>)
    requires
        from <= to <= pieces@.len(),
    ensures
        res@ == join_spec(seqs_of(pieces@).subrange(from as int, to as int), seq!['/']),
{
    let mut part: Vec<Vec<char>> = Vec::new();
    let mut i: usize = from;
    while i < to
        invariant
            from <= i <= to <= pieces@.len(),
            seqs_of(part@) == seqs_of(pieces@).subrange(from as int, i as int),
        decreases to - i,
    {
        let ghost before = seqs_of(part@);
        part.push(pieces[i].clone());
        assert(seqs_of(part@) =~= before.push(pieces@[i as int]@));
        assert(seqs_of(pieces@).subrange(from as int, i + 1) =~= seqs_of(pieces@).subrange(
            from as int,
            i as int,
        ).push(pieces@[i as int]@));
        i = i + 1;
    }
    join_chars(&part, root_component_exec().as_slice())
}

/// The path text left of `p` once its first `k` components are read (see
/// `remaining_text`).
fn remaining_text_exec(p: &[char], k: usize) -> (res: Vec<char>)
    ensures
        res@ == remaining_text(p@, k as nat),
{
    let pieces = split_all_exec(p, '/');
    let ghost all = seqs_of(pieces@);
    assert(all[0] == pieces@[0]@);
    let n = pieces.len();
    if k == 0 {
        if p.len() > 0 && p[0] == '/' {
            let end = trim_trailing_index(&pieces, 1);
            assert(all.skip(1) =~= all.drop_first());
            let mut res = root_component_exec();
            let joined = join_piece_range(&pieces, 1, end);
            push_all(&mut res, joined.as_slice());
            res
        } else if is_dot(&pieces[0]) {
            let end = trim_trailing_index(&pieces, 1);
            assert(all.skip(1) =~= all.drop_first());
            let mut res: Vec<char> = Vec::new();
            res.push('.');
            if end > 1 {
                res.push('/');
                let joined = join_piece_range(&pieces, 1, end);
                push_all(&mut res, joined.as_slice());
                assert(res@ =~= seq!['.', '/'] + joined@);
            } else {
                assert(res@ =~= seq!['.']);
            }
            res
        } else {
            let end = trim_trailing_index(&pieces, 0);
            assert(all.skip(0) =~= all);
            join_piece_range(&pieces, 0, end)
        }
    } else {
        let lead = (p.len() > 0 && p[0] == '/') || is_dot(&pieces[0]);
        assert(lead == (leading_components(p@).len() > 0));
        let start = if lead {
            assert(all.skip(1) =~= all.drop_first());
            drop_components_index(&pieces, 1, k - 1)
        } else {
            assert(all.skip(0) =~= all);
            drop_components_index(&pieces, 0, k)
        };
        let a = trim_leading_index(&pieces, start);
        let b = trim_trailing_index(&pieces, a);
        join_piece_range(&pieces, a, b)
    }
}

/// The text of `path` relative to `root` (`Path::strip_prefix`), or all
/// of `path` when `root` is not one of its ancestors.
pub fn relative_text_exec(root: &[char], path: &[char]) -> (res: Vec<char>)
    ensures
        res@ == relative_text(root@, path@),
{
    let r = components_exec(root);
    let p = components_exec(path);
    if is_component_prefix_exec(&r, &p) {
        remaining_text_exec(path, r.len())
    } else {
        let mut res: Vec<char> = Vec::new();
        push_all(&mut res, path);
        res
    }
}

/// The last component of `path` when it names a file (`Path::file_name`).
pub fn file_name_exec(path: &[char]) -> (res: Option<Vec<char>>)
    ensures
        match res {
            Some(n) => file_name_spec(path@) == Some(n@),
            None => file_name_spec(path@) is None,
        },
{
    let comps = components_exec(path);
    if comps.len() > 0 {
        let last = &comps[comps.len() - 1];
        assert(last@ == seqs_of(comps@).last());
        if is_normal_component_exec(last) {
            return Some(last.clone());
        }
    }
    None
}

/// `base` joined with the relative path `name` (`Path::join`).
pub fn join_path_exec(base: &[char], name: &[char]) -> (res: Vec<char>)
    ensures
        res@ == join_path(base@, name@),
{
    let mut res: Vec<char> = Vec::new();
    push_all(&mut res, base);
    if base.len() > 0 && base[base.len() - 1] != '/' {
        res.push('/');
    }
    push_all(&mut res, name);
    res
}

/// Code-point order of two character sequences (the order of their UTF-8
/// bytes): negative, zero or positive.
pub open spec fn chars_order(a: Seq<char>, b: Seq<char>) -> int
    decreases a.len(),
{
    if a.len() == 0 {
        if b.len() == 0 {
            0
        } else {
            -1
        }
    } else if b.len() == 0 {
        1
    } else if (a[0] as u32) < (b[0] as u32) {
        -1
    } else if (a[0] as u32) > (b[0] as u32) {
        1
    } else {
        chars_order(a.drop_first(), b.drop_first())
    }
}

/// The kind of a component, in the order `std::path::Component` declares
/// its variants: root, current directory, parent directory, name.
pub open spec fn component_rank(c: Seq<char>) -> int {
    if c == root_component() {
        1
    } else if c == seq!['.'] {
        2
    } else if c == seq!['.', '.'] {
        3
    } else {
        4
    }
}

/// Order of two components: by kind, then names by their characters.
pub open spec fn component_order(a: Seq<char>, b: Seq<char>) -> int {
    if component_rank(a) < component_rank(b) {
        -1
    } else if component_rank(a) > component_rank(b) {
        1
    } else if component_rank(a) == 4 {
        chars_order(a, b)
    } else {
        0
    }
}

/// Lexicographic order of two component sequences (`Ord for Path`).
pub open spec fn components_order(a: Seq<Seq<char>>, b: Seq<Seq<char>>) -> int
    decreases a.len(),
{
    if a.len() == 0 {
        if b.len() == 0 {
            0
        } else {
            -1
        }
    } else if b.len() == 0 {
        1
    } else if component_order(a[0], b[0]) != 0 {
        component_order(a[0], b[0])
    } else {
        components_order(a.drop_first(), b.drop_first())
    }
}

pub proof fn lemma_chars_order_antisymmetric(a: Seq<char>, b: Seq<char>)
    ensures
        chars_order(a, b) == -chars_order(b, a),
        -1 <= chars_order(a, b) <= 1,
    decreases a.len(),
{
    if a.len() > 0 && b.len() > 0 && a[0] as u32 == b[0] as u32 {
        lemma_chars_order_antisymmetric(a.drop_first(), b.drop_first());
    }
}

pub proof fn lemma_chars_order_transitive(a: Seq<char>, b: Seq<char>, c: Seq<char>)
    requires
        chars_order(a, b) <= 0,
        chars_order(b, c) <= 0,
    ensures
        chars_order(a, c) <= 0,
    decreases a.len(),
{
    if a.len() > 0 && b.len() > 0 && c.len() > 0 {
        if a[0] as u32 == b[0] as u32 && b[0] as u32 == c[0] as u32 {
            lemma_chars_order_transitive(a.drop_first(), b.drop_first(), c.drop_first());
        }
    }
}

pub proof fn lemma_component_order_antisymmetric(a: Seq<char>, b: Seq<char>)
    ensures
        component_order(a, b) == -component_order(b, a),
{
    lemma_chars_order_antisymmetric(a, b);
}

pub proof fn lemma_component_order_transitive(a: Seq<char>, b: Seq<char>, c: Seq<char>)
    requires
        component_order(a, b) <= 0,
        component_order(b, c) <= 0,
    ensures
        component_order(a, c) <= 0,
        component_order(a, b) < 0 || component_order(b, c) < 0 ==> component_order(a, c) < 0,
{
    lemma_chars_order_antisymmetric(a, b);
    lemma_chars_order_antisymmetric(b, c);
    lemma_chars_order_antisymmetric(a, c);
    if component_rank(a) == 4 && component_rank(b) == 4 && component_rank(c) == 4 {
        lemma_chars_order_transitive(a, b, c);
        if chars_order(a, c) == 0 {
            lemma_chars_order_transitive(c, a, b);
            lemma_chars_order_transitive(b, c, a);
        }
    }
}

pub proof fn lemma_components_order_antisymmetric(a: Seq<Seq<char>>, b: Seq<Seq<char>>)
    ensures
        components_order(a, b) == -components_order(b, a),
    decreases a.len(),
{
    if a.len() > 0 && b.len() > 0 {
        lemma_component_order_antisymmetric(a[0], b[0]);
        lemma_components_order_antisymmetric(a.drop_first(), b.drop_first());
    }
}

pub proof fn lemma_components_order_transitive(a: Seq<Seq<char>>, b: Seq<Seq<char>>, c: Seq<Seq<char>>)
    requires
        components_order(a, b) <= 0,
        components_order(b, c) <= 0,
    ensures
        components_order(a, c) <= 0,
    decreases a.len(),
{
    if a.len() > 0 && b.len() > 0 && c.len() > 0 {
        lemma_component_order_antisymmetric(a[0], b[0]);
        lemma_component_order_antisymmetric(b[0], c[0]);
        lemma_component_order_antisymmetric(a[0], c[0]);
        if component_order(a[0], b[0]) <= 0 && component_order(b[0], c[0]) <= 0 {
            lemma_component_order_transitive(a[0], b[0], c[0]);
        }
        if component_order(a[0], b[0]) == 0 && component_order(b[0], c[0]) == 0 {
            lemma_components_order_transitive(a.drop_first(), b.drop_first(), c.drop_first());
        }
    }
}

/// Code-point order of two character sequences.
pub fn chars_order_exec(a: &[char], b: &[char]) -> (res: i8)
    ensures
        res as int == chars_order(a@, b@),
{
    let mut i: usize = 0;
    assert(a@.skip(0) =~= a@);
    assert(b@.skip(0) =~= b@);
    loop
        invariant
            i <= a@.len(),
            i <= b@.len(),
            chars_order(a@, b@) == chars_order(a@.skip(i as int), b@.skip(i as int)),
        decreases a@.len() - i,
    {
        if i == a.len() {
            return if i == b.len() {
                0
            } else {
                -1
            };
        }
        if i == b.len() {
            return 1;
        }
        let x = a[i] as u32;
        let y = b[i] as u32;
        if x < y {
            return -1;
        }
        if x > y {
            return 1;
        }
        assert(a@.skip(i as int).drop_first() =~= a@.skip(i + 1));
        assert(b@.skip(i as int).drop_first() =~= b@.skip(i + 1));
        i = i + 1;
    }
}

/// The kind of a component (see `component_rank`).
fn component_rank_exec(c: &Vec<char>) -> (res: u8)
    ensures
        res as int == component_rank(c@),
{
    let is_root = c.len() == 1 && c[0] == '/';
    let is_cur = c.len() == 1 && c[0] == '.';
    let is_parent = c.len() == 2 && c[0] == '.' && c[1] == '.';
    proof {
        if c@.len() == 1 && c@[0] == '/' {
            assert(c@ =~= seq!['/']);
        }
        if c@.len() == 1 && c@[0] == '.' {
            assert(c@ =~= seq!['.']);
        }
        if c@.len() == 2 && c@[0] == '.' && c@[1] == '.' {
            assert(c@ =~= seq!['.', '.']);
        }
    }
    if is_root {
        1
    } else if is_cur {
        2
    } else if is_parent {
        3
    } else {
        4
    }
}

/// Order of two components.
pub fn component_order_exec(a: &Vec<char>, b: &Vec<char>) -> (res: i8)
    ensures
        res as int == component_order(a@, b@),
{
    let ra = component_rank_exec(a);
    let rb = component_rank_exec(b);
    if ra < rb {
        -1
    } else if ra > rb {
        1
    } else if ra == 4 {
        chars_order_exec(a.as_slice(), b.as_slice())
    } else {
        0
    }
}

/// Lexicographic order of two component sequences.
pub fn components_order_exec(a: &Vec<Vec<char>>, b: &Vec<Vec<char>>) -> (res: i8)
    ensures
        res as int == components_order(seqs_of(a@), seqs_of(b@)),
{
    let ghost sa = seqs_of(a@);
    let ghost sb = seqs_of(b@);
    let mut i: usize = 0;
    assert(sa.skip(0) =~= sa);
    assert(sb.skip(0) =~= sb);
    loop
        invariant
            sa == seqs_of(a@),
            sb == seqs_of(b@),
            i <= a@.len(),
            i <= b@.len(),
            components_order(sa, sb) == components_order(sa.skip(i as int), sb.skip(i as int)),
        decreases a@.len() - i,
    {
        if i == a.len() {
            return if i == b.len() {
                0
            } else {
                -1
            };
        }
        if i == b.len() {
            return 1;
        }
        assert(sa.skip(i as int)[0] == a@[i as int]@);
        assert(sb.skip(i as int)[0] == b@[i as int]@);
        let c = component_order_exec(&a[i], &b[i]);
        if c != 0 {
            return c;
        }
        assert(sa.skip(i as int).drop_first() =~= sa.skip(i + 1));
        assert(sb.skip(i as int).drop_first() =~= sb.skip(i + 1));
        i = i + 1;
    }
}

/// The keys are in non-decreasing `Path` order.
pub open spec fn sorted_keys(keys: Seq<Seq<Seq<char>>>) -> bool {
    forall|a: int, b: int|
        0 <= a < b < keys.len() ==> components_order(#[trigger] keys[a], #[trigger] keys[b]) <= 0
}

/// Inserting `key` after every key that sorts before or with it, and
/// before every key that sorts after it, keeps the keys sorted.
pub proof fn lemma_insert_sorted(keys: Seq<Seq<Seq<char>>>, j: int, key: Seq<Seq<char>>)
    requires
        sorted_keys(keys),
        0 <= j <= keys.len(),
        j > 0 ==> components_order(keys[j - 1], key) <= 0,
        forall|k: int| j <= k < keys.len() ==> components_order(#[trigger] keys[k], key) > 0,
    ensures
        sorted_keys(keys.insert(j, key)),
{
    let n = keys.insert(j, key);
    assert forall|a: int, b: int| 0 <= a < b < n.len() implies components_order(
        #[trigger] n[a],
        #[trigger] n[b],
    ) <= 0 by {
        if b < j {
        } else if b == j {
            if a < j - 1 {
                lemma_components_order_transitive(keys[a], keys[j - 1], key);
            }
        } else if a < j {
        } else if a == j {
            lemma_components_order_antisymmetric(keys[b - 1], key);
        } else {
        }
    }
}

} // verus!
