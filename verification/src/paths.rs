//! A model of paths as `std::path` reads them on Unix and on Windows: a
//! path is a sequence of components, and joining, the file name and the
//! parent are defined over those components. Containment in a directory
//! compares components after `.` is dropped and each `..` has removed the
//! name before it, so a path that climbs out of a directory with `..` is not
//! within it.
//!
//! A component is written as text: the root is `/`, the current directory
//! `.`, the parent directory `..`, a Windows prefix is `//` and the drive
//! letter in upper case with its colon (`C:` gives `//C:`) or the prefix
//! with `/` for each separator (`\\server\share` gives `//server/share`),
//! and any other component is its own name. Names never hold `/` and are
//! never `.` or `..`, so the text tells the components apart exactly as the
//! component kinds do.

use crate::external::string_from_chars;
use crate::text::{chars_equal, chars_of, concat_chars, copy_chars};
use vstd::prelude::*;

verus! {

// ---------------------------------------------------------------------
// Specifications
// ---------------------------------------------------------------------

/// The text between the separators of `p`, empty pieces included
/// (`"/a//b"` gives `["", "a", "", "b"]`).
pub open spec fn path_segments(p: Seq<char>) -> Seq<Seq<char>>
    decreases p.len(),
{
    if p.len() == 0 {
        seq![seq![]]
    } else {
        let r = path_segments(p.drop_last());
        if p.last() == '/' {
            r.push(seq![])
        } else {
            r.update(r.len() - 1, r.last().push(p.last()))
        }
    }
}

/// The component text for the current directory.
pub open spec fn cur_dir() -> Seq<char> {
    seq!['.']
}

/// The component text for the parent directory.
pub open spec fn parent_dir() -> Seq<char> {
    seq!['.', '.']
}

/// The component text for the root.
pub open spec fn root_dir() -> Seq<char> {
    seq!['/']
}

/// The components that the pieces `segs` give: empty pieces are skipped,
/// and so is `.` except as the very first piece of the path.
pub open spec fn segment_components(segs: Seq<Seq<char>>) -> Seq<Seq<char>>
    decreases segs.len(),
{
    if segs.len() == 0 {
        seq![]
    } else {
        let rest = segment_components(segs.drop_last());
        let seg = segs.last();
        if seg.len() == 0 {
            rest
        } else if seg == cur_dir() {
            if segs.len() == 1 {
                rest.push(seg)
            } else {
                rest
            }
        } else {
            rest.push(seg)
        }
    }
}

/// `p` begins at the root.
pub open spec fn is_absolute(p: Seq<char>) -> bool {
    p.len() > 0 && p[0] == '/'
}

/// The components of `p`, as `Path::components` yields them.
pub open spec fn path_components(p: Seq<char>) -> Seq<Seq<char>> {
    (if is_absolute(p) {
        seq![root_dir()]
    } else {
        seq![]
    }) + segment_components(path_segments(p))
}

/// `PathBuf::join`: an absolute `name` replaces `dir`; otherwise `name` is
/// appended, after a `/` when `dir` is not empty and does not end in one.
pub open spec fn joined(dir: Seq<char>, name: Seq<char>) -> Seq<char> {
    if is_absolute(name) {
        name
    } else if dir.len() > 0 && dir.last() != '/' {
        dir + seq!['/'] + name
    } else {
        dir + name
    }
}

/// A component that names a file or directory (not the root, a prefix,
/// `.` or `..`).
pub open spec fn is_name_component(c: Seq<char>) -> bool {
    !c.contains('/') && c != cur_dir() && c != parent_dir()
}

/// `Path::file_name`: the last component when it is a name.
pub open spec fn file_name_of(p: Seq<char>) -> Option<Seq<char>> {
    let c = path_components(p);
    if c.len() > 0 && is_name_component(c.last()) {
        Some(c.last())
    } else {
        None
    }
}

/// The position just after each piece of `p` (one entry per piece of
/// `path_segments(p)`).
pub open spec fn path_segment_ends(p: Seq<char>) -> Seq<int>
    decreases p.len(),
{
    if p.len() == 0 {
        seq![0]
    } else {
        let r = path_segment_ends(p.drop_last());
        if p.last() == '/' {
            r.push(p.len() as int)
        } else {
            r.update(r.len() - 1, p.len() as int)
        }
    }
}

/// The end positions of the pieces that become components (parallel to
/// `segment_components`).
pub open spec fn segment_component_ends(segs: Seq<Seq<char>>, ends: Seq<int>) -> Seq<int>
    decreases segs.len(),
{
    if segs.len() == 0 || ends.len() == 0 {
        seq![]
    } else {
        let rest = segment_component_ends(segs.drop_last(), ends.drop_last());
        let seg = segs.last();
        if seg.len() == 0 {
            rest
        } else if seg == cur_dir() {
            if segs.len() == 1 {
                rest.push(ends.last())
            } else {
                rest
            }
        } else {
            rest.push(ends.last())
        }
    }
}

/// The position in `p` just after each of its components.
pub open spec fn component_ends(p: Seq<char>) -> Seq<int> {
    (if is_absolute(p) {
        seq![1int]
    } else {
        seq![]
    }) + segment_component_ends(path_segments(p), path_segment_ends(p))
}

/// How a platform writes paths.
#[derive(Clone, Copy, PartialEq, Eq, Structural, Debug)]
pub enum PathStyle {
    /// `/` separates components and begins absolute paths.
    Unix,
    /// `\` and `/` separate components, and a path may begin with a
    /// prefix: a drive (`C:`), or two separators followed by two pieces
    /// (`\\server\share`, `\\?\C:`, `\\.\device`), which imply a root.
    Windows,
}

/// A Windows separator.
pub open spec fn is_win_sep(c: char) -> bool {
    c == '/' || c == '\\'
}

/// An ASCII letter.
pub open spec fn is_ascii_letter(c: char) -> bool {
    ('a' <= c && c <= 'z') || ('A' <= c && c <= 'Z')
}

/// The upper-case form of an ASCII letter (other characters unchanged).
pub open spec fn upper_letter(c: char) -> char {
    if c == 'a' {
        'A'
    } else if c == 'b' {
        'B'
    } else if c == 'c' {
        'C'
    } else if c == 'd' {
        'D'
    } else if c == 'e' {
        'E'
    } else if c == 'f' {
        'F'
    } else if c == 'g' {
        'G'
    } else if c == 'h' {
        'H'
    } else if c == 'i' {
        'I'
    } else if c == 'j' {
        'J'
    } else if c == 'k' {
        'K'
    } else if c == 'l' {
        'L'
    } else if c == 'm' {
        'M'
    } else if c == 'n' {
        'N'
    } else if c == 'o' {
        'O'
    } else if c == 'p' {
        'P'
    } else if c == 'q' {
        'Q'
    } else if c == 'r' {
        'R'
    } else if c == 's' {
        'S'
    } else if c == 't' {
        'T'
    } else if c == 'u' {
        'U'
    } else if c == 'v' {
        'V'
    } else if c == 'w' {
        'W'
    } else if c == 'x' {
        'X'
    } else if c == 'y' {
        'Y'
    } else if c == 'z' {
        'Z'
    } else {
        c
    }
}

/// Index of the first Windows separator in `q`, or `q.len()`.
pub open spec fn first_sep_in(q: Seq<char>) -> int
    decreases q.len(),
{
    if q.len() == 0 {
        0
    } else if is_win_sep(q[0]) {
        0
    } else {
        1 + first_sep_in(q.skip(1))
    }
}

/// `p` begins with two separators (a UNC, verbatim or device prefix).
pub open spec fn win_double(p: Seq<char>) -> bool {
    p.len() >= 2 && is_win_sep(p[0]) && is_win_sep(p[1])
}

/// `p` begins with a drive (`C:`).
pub open spec fn win_disk(p: Seq<char>) -> bool {
    !win_double(p) && p.len() >= 2 && is_ascii_letter(p[0]) && p[1] == ':'
}

/// The length of the Windows prefix of `p` (0 when it has none).
pub open spec fn win_prefix_len(p: Seq<char>) -> int {
    if win_double(p) {
        let q = p.skip(2);
        let i1 = first_sep_in(q);
        if i1 < q.len() {
            3 + i1 + first_sep_in(q.skip(i1 + 1))
        } else {
            2 + i1
        }
    } else if win_disk(p) {
        2
    } else {
        0
    }
}

/// `s` with each `\` written as `/`.
pub open spec fn slashes(s: Seq<char>) -> Seq<char> {
    s.map_values(|c: char| if c == '\\' { '/' } else { c })
}

/// The component text of the Windows prefix of `p`: `//` and the drive
/// letter in upper case with its colon, or the prefix with `/` separators.
pub open spec fn win_prefix_component(p: Seq<char>) -> Seq<char> {
    if win_disk(p) {
        seq!['/', '/', upper_letter(p[0]), ':']
    } else {
        slashes(p.take(win_prefix_len(p)))
    }
}

/// What follows the Windows prefix of `p`, with `/` separators.
pub open spec fn win_rest(p: Seq<char>) -> Seq<char> {
    slashes(p.skip(win_prefix_len(p)))
}

/// The root that a non-drive prefix implies when no separator follows it.
pub open spec fn win_implied_root(p: Seq<char>) -> bool {
    win_prefix_len(p) > 0 && !win_disk(p) && !is_absolute(win_rest(p))
}

/// The components of a Windows path.
pub open spec fn win_components(p: Seq<char>) -> Seq<Seq<char>> {
    (if win_prefix_len(p) > 0 {
        seq![win_prefix_component(p)]
    } else {
        seq![]
    }) + (if win_implied_root(p) {
        seq![root_dir()]
    } else {
        seq![]
    }) + path_components(win_rest(p))
}

/// Positions moved by `by`.
pub open spec fn shifted(e: Seq<int>, by: int) -> Seq<int> {
    e.map_values(|x: int| x + by)
}

/// The position just after each component of a Windows path.
pub open spec fn win_component_ends(p: Seq<char>) -> Seq<int> {
    let n = win_prefix_len(p);
    (if n > 0 {
        seq![n]
    } else {
        seq![]
    }) + (if win_implied_root(p) {
        seq![n]
    } else {
        seq![]
    }) + shifted(component_ends(win_rest(p)), n)
}

/// The components of `p`, as `Path::components` yields them.
pub open spec fn components_in(style: PathStyle, p: Seq<char>) -> Seq<Seq<char>> {
    match style {
        PathStyle::Unix => path_components(p),
        PathStyle::Windows => win_components(p),
    }
}

/// The position in `p` just after each of its components.
pub open spec fn component_ends_in(style: PathStyle, p: Seq<char>) -> Seq<int> {
    match style {
        PathStyle::Unix => component_ends(p),
        PathStyle::Windows => win_component_ends(p),
    }
}

/// `Path::is_absolute`: on Unix, `p` begins with `/`; on Windows, it has a
/// prefix and a root (a drive followed by a separator, or a prefix that
/// implies one).
pub open spec fn absolute_in(style: PathStyle, p: Seq<char>) -> bool {
    match style {
        PathStyle::Unix => is_absolute(p),
        PathStyle::Windows => win_prefix_len(p) > 0 && (!win_disk(p) || is_absolute(win_rest(p))),
    }
}

/// One step of lexical normalisation: `.` is dropped, `..` removes the name
/// before it (and is dropped right after the root), anything else is kept.
pub open spec fn normalize_step(acc: Seq<Seq<char>>, c: Seq<char>) -> Seq<Seq<char>> {
    if c == cur_dir() {
        acc
    } else if c == parent_dir() {
        if acc.len() > 0 && is_name_component(acc.last()) {
            acc.drop_last()
        } else if acc.len() > 0 && acc.last() == root_dir() {
            acc
        } else {
            acc.push(c)
        }
    } else {
        acc.push(c)
    }
}

/// Components after lexical normalisation, left to right.
pub open spec fn normalized(c: Seq<Seq<char>>) -> Seq<Seq<char>>
    decreases c.len(),
{
    if c.len() == 0 {
        seq![]
    } else {
        normalize_step(normalized(c.drop_last()), c.last())
    }
}

/// `p` lies within `base`: the normalised components of `base` begin the
/// normalised components of `p`.
pub open spec fn within_in(style: PathStyle, p: Seq<char>, base: Seq<char>) -> bool {
    let pc = normalized(components_in(style, p));
    let bc = normalized(components_in(style, base));
    bc.len() <= pc.len() && pc.take(bc.len() as int) =~= bc
}

/// `PathBuf::join` on Windows: a name with a prefix replaces `dir`; a name
/// that begins with a separator keeps only `dir`'s prefix; otherwise the
/// name is appended, after `\\` unless `dir` is empty, ends in a separator
/// or is a bare drive.
pub open spec fn win_joined(dir: Seq<char>, name: Seq<char>) -> Seq<char> {
    if win_prefix_len(name) > 0 {
        name
    } else if name.len() > 0 && is_win_sep(name[0]) {
        dir.take(win_prefix_len(dir)) + name
    } else if dir.len() > 0 && !is_win_sep(dir.last()) && !(win_disk(dir) && dir.len() == 2) {
        dir + seq!['\\'] + name
    } else {
        dir + name
    }
}

/// `PathBuf::join`.
pub open spec fn joined_in(style: PathStyle, dir: Seq<char>, name: Seq<char>) -> Seq<char> {
    match style {
        PathStyle::Unix => joined(dir, name),
        PathStyle::Windows => win_joined(dir, name),
    }
}

/// `Path::file_name`: the last component when it is a name.
pub open spec fn file_name_in(style: PathStyle, p: Seq<char>) -> Option<Seq<char>> {
    let c = components_in(style, p);
    if c.len() > 0 && is_name_component(c.last()) {
        Some(c.last())
    } else {
        None
    }
}

/// `Path::parent`: `p` up to the end of its second-to-last component (the
/// empty path when there is none), or `None` when `p` is empty or ends at
/// a root or a prefix.
pub open spec fn parent_in(style: PathStyle, p: Seq<char>) -> Option<Seq<char>> {
    let c = components_in(style, p);
    if c.len() == 0 || c.last().contains('/') {
        None
    } else {
        Some(
            p.take(
                if c.len() >= 2 {
                    component_ends_in(style, p)[c.len() - 2]
                } else {
                    0
                },
            ),
        )
    }
}

/// No piece of `name` is `..`.
pub open spec fn no_parent_refs(name: Seq<char>) -> bool {
    forall|i: int| 0 <= i < path_segments(name).len() ==> #[trigger] path_segments(name)[i] != parent_dir()
}

// ---------------------------------------------------------------------
// Laws
// ---------------------------------------------------------------------

/// Every path lies within itself.
pub proof fn lemma_within_self(style: PathStyle, p: Seq<char>)
    ensures
        within_in(style, p, p),
{
    let n = normalized(components_in(style, p));
    assert(n.take(n.len() as int) =~= n);
}

/// Containment is transitive.
pub proof fn lemma_within_transitive(style: PathStyle, a: Seq<char>, b: Seq<char>, c: Seq<char>)
    requires
        within_in(style, a, b),
        within_in(style, b, c),
    ensures
        within_in(style, a, c),
{
    let an = normalized(components_in(style, a));
    let bn = normalized(components_in(style, b));
    let cn = normalized(components_in(style, c));
    assert(an.take(cn.len() as int) =~= bn.take(cn.len() as int));
}

proof fn lemma_segments_nonempty(p: Seq<char>)
    ensures
        path_segments(p).len() >= 1,
    decreases p.len(),
{
    if p.len() > 0 {
        lemma_segments_nonempty(p.drop_last());
    }
}

/// Splitting `a/b` gives the pieces of `a` followed by those of `b`.
proof fn lemma_segments_concat(a: Seq<char>, b: Seq<char>)
    ensures
        path_segments(a + seq!['/'] + b) =~= path_segments(a) + path_segments(b),
    decreases b.len(),
{
    lemma_segments_nonempty(a);
    lemma_segments_nonempty(b);
    if b.len() == 0 {
        assert((a + seq!['/'] + b).drop_last() =~= a);
        assert(a + seq!['/'] + b =~= a.push('/'));
    } else {
        let x = a + seq!['/'] + b;
        assert(x.drop_last() =~= a + seq!['/'] + b.drop_last());
        lemma_segments_concat(a, b.drop_last());
        lemma_segments_nonempty(b.drop_last());
        assert(x.last() == b.last());
    }
}

/// Appending pieces that hold no separator and are not `..` appends name
/// components only.
proof fn lemma_components_extend_names(s: Seq<Seq<char>>, t: Seq<Seq<char>>)
    requires
        s.len() >= 1,
        forall|i: int| 0 <= i < t.len() ==> !(#[trigger] t[i]).contains('/') && t[i] != parent_dir(),
    ensures
        segment_components(s).len() <= segment_components(s + t).len(),
        segment_components(s + t).take(segment_components(s).len() as int) =~= segment_components(
            s,
        ),
        forall|i: int|
            segment_components(s).len() <= i < segment_components(s + t).len() ==> is_name_component(
                #[trigger] segment_components(s + t)[i],
            ),
    decreases t.len(),
{
    if t.len() == 0 {
        assert(s + t =~= s);
    } else {
        let t0 = t.drop_last();
        assert forall|i: int| 0 <= i < t0.len() implies !(#[trigger] t0[i]).contains('/') && t0[i]
            != parent_dir() by {
            assert(t0[i] == t[i]);
        }
        lemma_components_extend_names(s, t0);
        assert((s + t).drop_last() =~= s + t0);
        assert((s + t).last() == t.last());
        assert(!t[t.len() - 1].contains('/'));
        let r = segment_components(s + t0);
        let k = segment_components(s).len() as int;
        let last = t.last();
        if last.len() > 0 && last != cur_dir() {
            assert(segment_components(s + t) == r.push(last));
            assert(r.push(last).take(k) =~= r.take(k));
            assert forall|i: int| k <= i < r.push(last).len() implies is_name_component(
                #[trigger] r.push(last)[i],
            ) by {
                if i < r.len() {
                    assert(r.push(last)[i] == r[i]);
                }
            }
        } else {
            assert(segment_components(s + t) == r);
        }
    }
}

/// Name components appended after normalisation stay as they are.
proof fn lemma_normalized_append_names(c: Seq<Seq<char>>, x: Seq<Seq<char>>)
    requires
        forall|i: int| 0 <= i < x.len() ==> is_name_component(#[trigger] x[i]),
    ensures
        normalized(c + x) =~= normalized(c) + x,
    decreases x.len(),
{
    if x.len() == 0 {
        assert(c + x =~= c);
    } else {
        let x0 = x.drop_last();
        assert forall|i: int| 0 <= i < x0.len() implies is_name_component(#[trigger] x0[i]) by {
            assert(x0[i] == x[i]);
        }
        lemma_normalized_append_names(c, x0);
        assert((c + x).drop_last() =~= c + x0);
        assert((c + x).last() == x.last());
        assert(is_name_component(x[x.len() - 1]));
        assert(normalized(c) + x =~= (normalized(c) + x0).push(x.last()));
    }
}

/// A relative name without `..` joined to a directory lies within that
/// directory.
pub proof fn lemma_join_within(dir: Seq<char>, name: Seq<char>)
    requires
        !is_absolute(name),
        no_parent_refs(name),
    ensures
        within_in(PathStyle::Unix, joined(dir, name), dir),
{
    let j = joined(dir, name);
    if dir.len() == 0 {
        assert(path_segments(dir) =~= seq![seq![]]);
        let e: Seq<Seq<char>> = seq![seq![]];
        assert(e.drop_last() =~= Seq::<Seq<char>>::empty());
        assert(e.last().len() == 0);
        assert(segment_components(Seq::<Seq<char>>::empty()) =~= Seq::<Seq<char>>::empty());
        assert(segment_components(e) =~= Seq::<Seq<char>>::empty());
        assert(path_components(dir) =~= Seq::<Seq<char>>::empty());
        assert(normalized(path_components(dir)) =~= Seq::<Seq<char>>::empty());
    } else {
        let d = if dir.last() != '/' {
            dir
        } else {
            dir.drop_last()
        };
        assert(j =~= d + seq!['/'] + name) by {
            if dir.last() == '/' {
                assert(dir =~= dir.drop_last().push('/'));
            }
        }
        lemma_segments_concat(d, name);
        lemma_segments_nonempty(d);
        lemma_segments_no_separator(name);
        let tn = path_segments(name);
        assert forall|i: int| 0 <= i < tn.len() implies !(#[trigger] tn[i]).contains('/') && tn[i]
            != parent_dir() by {
            if tn[i].contains('/') {
                let k = choose|k: int| 0 <= k < tn[i].len() && tn[i][k] == '/';
                assert(path_segments(name)[i][k] != '/');
            }
        }
        lemma_components_extend_names(path_segments(d), tn);
        if dir.last() == '/' {
            assert(dir =~= d.push('/'));
            assert(dir.drop_last() =~= d);
            assert(path_segments(dir) =~= path_segments(d).push(seq![]));
            assert(path_segments(dir).drop_last() =~= path_segments(d));
            assert(segment_components(path_segments(dir)) =~= segment_components(
                path_segments(d),
            ));
        }
        assert(j[0] == dir[0]);
        let root: Seq<Seq<char>> = if is_absolute(dir) {
            seq![root_dir()]
        } else {
            seq![]
        };
        let sd = segment_components(path_segments(dir));
        let sj = segment_components(path_segments(j));
        assert(sj =~= segment_components(path_segments(d) + tn));
        let x = sj.skip(sd.len() as int);
        assert(sj =~= sd + x);
        assert forall|i: int| 0 <= i < x.len() implies is_name_component(#[trigger] x[i]) by {
            assert(x[i] == sj[i + sd.len()]);
        }
        assert(path_components(dir) =~= root + sd);
        assert(path_components(j) =~= (root + sd) + x);
        lemma_normalized_append_names(root + sd, x);
        let nd = normalized(root + sd);
        assert((nd + x).take(nd.len() as int) =~= nd);
    }
}

/// Resolving `.` and `..` keeps a leading root.
proof fn lemma_normalized_rooted(x: Seq<Seq<char>>)
    requires
        x.len() > 0,
        x[0] == root_dir(),
    ensures
        normalized(x).len() > 0,
        normalized(x)[0] == root_dir(),
    decreases x.len(),
{
    assert(root_dir()[0] != cur_dir()[0]);
    assert(root_dir()[0] != parent_dir()[0]);
    assert(root_dir().contains('/')) by {
        assert(root_dir()[0] == '/');
    }
    if x.len() == 1 {
        assert(x.drop_last() =~= Seq::<Seq<char>>::empty());
        assert(normalized(x.drop_last()) =~= Seq::<Seq<char>>::empty());
        assert(x.last() == root_dir());
        assert(x.last() != cur_dir());
        assert(x.last() != parent_dir());
        assert(normalized(x) =~= seq![root_dir()]);
    } else {
        lemma_normalized_rooted(x.drop_last());
        let y = normalized(x.drop_last());
        let c = x.last();
        assert(x[0] == x.drop_last()[0]);
        assert(normalized(x) == normalize_step(y, c));
        if c == cur_dir() {
        } else if c == parent_dir() {
            if y.len() > 0 && is_name_component(y.last()) {
                assert(y.len() > 1) by {
                    if y.len() == 1 {
                        assert(y.last() == root_dir());
                    }
                }
                assert(y.drop_last()[0] == y[0]);
            } else if y.len() > 0 && y.last() == root_dir() {
            } else {
                assert(y.push(c)[0] == y[0]);
            }
        } else {
            assert(y.push(c)[0] == y[0]);
        }
    }
}

/// Components in front of a sequence that begins at the root are left as
/// they are when `.` and `..` are resolved.
proof fn lemma_normalized_front(p: Seq<Seq<char>>, x: Seq<Seq<char>>)
    requires
        x.len() > 0,
        x[0] == root_dir(),
    ensures
        normalized(p + x) =~= normalized(p) + normalized(x),
    decreases x.len(),
{
    assert(root_dir()[0] != cur_dir()[0]);
    assert(root_dir()[0] != parent_dir()[0]);
    if x.len() == 1 {
        assert((p + x).drop_last() =~= p);
        assert((p + x).last() == root_dir());
        assert(x.drop_last() =~= Seq::<Seq<char>>::empty());
    } else {
        let x0 = x.drop_last();
        lemma_normalized_front(p, x0);
        lemma_normalized_rooted(x0);
        assert((p + x).drop_last() =~= p + x0);
        assert((p + x).last() == x.last());
        let a = normalized(p);
        let b = normalized(x0);
        let c = x.last();
        assert((a + b).last() == b.last());
        assert((a + b).drop_last() =~= a + b.drop_last());
        assert((a + b).push(c) =~= a + b.push(c));
    }
}

/// With Windows paths, a relative name without a prefix, a leading
/// separator or a `..` piece, joined to a directory that begins with a
/// drive and a separator (`C:\...`), lies within that directory.
pub proof fn lemma_join_within_windows(dir: Seq<char>, name: Seq<char>)
    requires
        win_disk(dir),
        dir.len() >= 3,
        is_win_sep(dir[2]),
        win_prefix_len(name) == 0,
        !(name.len() > 0 && is_win_sep(name[0])),
        no_parent_refs(slashes(name)),
    ensures
        within_in(PathStyle::Windows, win_joined(dir, name), dir),
{
    let j = win_joined(dir, name);
    let nm = slashes(name);
    let rd = slashes(dir.skip(2));
    assert(rd[0] == '/');
    let sep_join = !is_win_sep(dir.last());
    if sep_join {
        assert(j =~= dir + seq!['\\'] + name);
        assert(j.skip(2) =~= dir.skip(2) + seq!['\\'] + name);
        assert(rd.last() != '/');
    } else {
        assert(j =~= dir + name);
        assert(j.skip(2) =~= dir.skip(2) + name);
        assert(rd.last() == '/');
    }
    assert(j[0] == dir[0] && j[1] == dir[1]);
    assert(!win_double(j));
    assert(win_disk(j));
    assert(win_prefix_len(j) == 2);
    assert(win_prefix_component(j) == win_prefix_component(dir));
    assert(!is_absolute(nm)) by {
        if nm.len() > 0 {
            assert(nm[0] == (if name[0] == '\\' {
                '/'
            } else {
                name[0]
            }));
        }
    }
    assert(win_rest(j) =~= joined(rd, nm));
    assert(win_rest(dir) == rd);
    lemma_join_within(rd, nm);
    let pre: Seq<Seq<char>> = seq![win_prefix_component(dir)];
    let xd = path_components(rd);
    let xj = path_components(joined(rd, nm));
    assert(joined(rd, nm)[0] == '/');
    assert(xd[0] == root_dir());
    assert(xj[0] == root_dir());
    assert(win_components(dir) =~= pre + xd);
    assert(win_components(j) =~= pre + xj);
    lemma_normalized_front(pre, xd);
    lemma_normalized_front(pre, xj);
    let np = normalized(pre);
    let nd = normalized(xd);
    let nj = normalized(xj);
    assert(nj.take(nd.len() as int) =~= nd);
    assert((np + nj).take((np + nd).len() as int) =~= np + nd);
}

/// No piece of a path holds a character that the path does not hold.
proof fn lemma_segments_without(p: Seq<char>, c: char)
    requires
        !p.contains(c),
    ensures
        forall|i: int, j: int|
            0 <= i < path_segments(p).len() && 0 <= j < path_segments(p)[i].len() ==> #[trigger] path_segments(p)[i][j] != c,
    decreases p.len(),
{
    if p.len() > 0 {
        assert(!p.drop_last().contains(c)) by {
            if p.drop_last().contains(c) {
                let k = choose|k: int| 0 <= k < p.drop_last().len() && p.drop_last()[k] == c;
                assert(p[k] == c);
            }
        }
        assert(p.last() != c) by {
            if p.last() == c {
                assert(p[p.len() - 1] == c);
            }
        }
        lemma_segments_without(p.drop_last(), c);
        lemma_segments_nonempty(p.drop_last());
    }
}

/// A Windows file name holds no separator of either kind and no `..`
/// piece, and its pieces with `\` read as `/` are itself.
pub proof fn lemma_windows_file_name(p: Seq<char>)
    requires
        file_name_in(PathStyle::Windows, p) is Some,
    ensures
        ({
            let n = file_name_in(PathStyle::Windows, p).unwrap();
            &&& !n.contains('/')
            &&& !n.contains('\\')
            &&& slashes(n) == n
            &&& no_parent_refs(n)
            &&& n != parent_dir()
        }),
{
    let n = file_name_in(PathStyle::Windows, p).unwrap();
    let c = win_components(p);
    let rest = win_rest(p);
    let segs = path_segments(rest);
    let sc = segment_components(segs);
    let head: Seq<Seq<char>> = (if win_prefix_len(p) > 0 {
        seq![win_prefix_component(p)]
    } else {
        seq![]
    }) + (if win_implied_root(p) {
        seq![root_dir()]
    } else {
        seq![]
    }) + (if is_absolute(rest) {
        seq![root_dir()]
    } else {
        seq![]
    });
    assert(c =~= head + sc);
    assert(n == c.last());
    assert(is_name_component(n));
    assert(sc.len() > 0) by {
        if sc.len() == 0 {
            assert(c =~= head);
            assert(n == head.last());
            if win_prefix_len(p) > 0 && n == win_prefix_component(p) {
                if win_disk(p) {
                    assert(n[0] == '/');
                } else {
                    assert(n[0] == '/');
                }
            } else {
                assert(n == root_dir());
                assert(n[0] == '/');
            }
        }
    }
    assert(n == sc[sc.len() - 1]);
    lemma_segment_components_from(segs);
    let k = choose|k: int| 0 <= k < segs.len() && segs[k] == #[trigger] sc[sc.len() - 1];
    assert(!rest.contains('\\')) by {
        if rest.contains('\\') {
            let i = choose|i: int| 0 <= i < rest.len() && rest[i] == '\\';
            assert(rest[i] == (if p.skip(win_prefix_len(p))[i] == '\\' {
                '/'
            } else {
                p.skip(win_prefix_len(p))[i]
            }));
        }
    }
    lemma_segments_without(rest, '\\');
    assert(!n.contains('\\')) by {
        if n.contains('\\') {
            let j = choose|j: int| 0 <= j < n.len() && n[j] == '\\';
            assert(segs[k][j] == '\\');
        }
    }
    assert(slashes(n) =~= n) by {
        assert forall|j: int| 0 <= j < n.len() implies slashes(n)[j] == n[j] by {
            assert(n[j] != '\\') by {
                if n[j] == '\\' {
                    assert(n.contains('\\'));
                }
            }
        }
    }
    lemma_segments_single(n);
}

/// No piece of a path holds a separator.
proof fn lemma_segments_no_separator(p: Seq<char>)
    ensures
        forall|i: int, j: int|
            0 <= i < path_segments(p).len() && 0 <= j < path_segments(p)[i].len() ==> #[trigger] path_segments(p)[i][j] != '/',
    decreases p.len(),
{
    if p.len() > 0 {
        lemma_segments_no_separator(p.drop_last());
        lemma_segments_nonempty(p.drop_last());
    }
}

/// The components drawn from pieces are non-empty pieces.
proof fn lemma_segment_components_from(segs: Seq<Seq<char>>)
    ensures
        forall|i: int| 0 <= i < segment_components(segs).len() ==> exists|k: int|
            0 <= k < segs.len() && segs[k] == #[trigger] segment_components(segs)[i],
        forall|i: int| 0 <= i < segment_components(segs).len() ==> (#[trigger] segment_components(segs)[i]).len() > 0,
    decreases segs.len(),
{
    if segs.len() > 0 {
        let t = segs.drop_last();
        lemma_segment_components_from(t);
        let c = segment_components(segs);
        let pc = segment_components(t);
        assert forall|i: int| 0 <= i < c.len() implies exists|k: int|
            0 <= k < segs.len() && segs[k] == #[trigger] c[i] by {
            if i < pc.len() {
                assert(c[i] == pc[i]);
                let k = choose|k: int| 0 <= k < t.len() && t[k] == #[trigger] pc[i];
                assert(segs[k] == t[k]);
            } else {
                assert(segs[segs.len() - 1] == c[i]);
            }
        }
    }
}

/// Text without a separator is a single piece.
proof fn lemma_segments_single(n: Seq<char>)
    requires
        !n.contains('/'),
    ensures
        path_segments(n) =~= seq![n],
    decreases n.len(),
{
    if n.len() > 0 {
        let m = n.drop_last();
        assert(!m.contains('/')) by {
            if m.contains('/') {
                let k = choose|k: int| 0 <= k < m.len() && m[k] == '/';
                assert(n[k] == '/');
            }
        }
        lemma_segments_single(m);
        assert(n.last() != '/') by {
            if n.last() == '/' {
                assert(n[n.len() - 1] == '/');
            }
        }
        assert(n.drop_last() == m);
        let r = path_segments(m);
        assert(r.len() == 1 && r.last() == m);
        assert(path_segments(n) == r.update(0, m.push(n.last())));
        assert(m.push(n.last()) =~= n);
    } else {
        assert(n =~= Seq::<char>::empty());
    }
}

/// A file name is a non-empty relative path with no separator and no `..`
/// piece: joined to a directory, it stays within that directory.
pub proof fn lemma_file_name_relative(p: Seq<char>)
    requires
        file_name_of(p) is Some,
    ensures
        !is_absolute(file_name_of(p).unwrap()),
        file_name_of(p).unwrap().len() > 0,
        forall|j: int| 0 <= j < file_name_of(p).unwrap().len() ==> #[trigger] file_name_of(p).unwrap()[j] != '/',
        no_parent_refs(file_name_of(p).unwrap()),
{
    let segs = path_segments(p);
    let sc = segment_components(segs);
    let c = path_components(p);
    lemma_segments_no_separator(p);
    lemma_segment_components_from(segs);
    let root: Seq<Seq<char>> = if is_absolute(p) {
        seq![root_dir()]
    } else {
        seq![]
    };
    assert(c =~= root + sc);
    let n = c.last();
    if sc.len() == 0 {
        assert(c =~= root);
        assert(n == root_dir());
        assert(n[0] == '/');
    }
    assert(sc.len() > 0);
    assert(n == sc[sc.len() - 1]);
    let k = choose|k: int| 0 <= k < segs.len() && segs[k] == #[trigger] sc[sc.len() - 1];
    assert forall|j: int| 0 <= j < n.len() implies #[trigger] n[j] != '/' by {
        assert(segs[k][j] == n[j]);
    }
    assert(!n.contains('/'));
    lemma_segments_single(n);
    assert(is_name_component(n));
}

// ---------------------------------------------------------------------
// Executable functions
// ---------------------------------------------------------------------

/// The character sequences held by a sequence of character vectors.
pub open spec fn texts(v: Seq<Vec<char>>) -> Seq<Seq<char>> {
    v.map_values(|x: Vec<char>| x@)
}

/// The end positions as integers.
pub open spec fn positions(v: Seq<usize>) -> Seq<int> {
    v.map_values(|x: usize| x as int)
}

fn segments_of(p: &[char]) -> (res: (Vec<Vec<char>>, Vec<usize>))
    ensures
        texts(res.0@) =~= path_segments(p@),
        positions(res.1@) =~= path_segment_ends(p@),
        res.0@.len() == res.1@.len(),
        forall|k: int| 0 <= k < res.1@.len() ==> #[trigger] res.1@[k] <= p@.len(),
{
    let mut segs: Vec<Vec<char>> = Vec::new();
    let mut ends: Vec<usize> = Vec::new();
    let mut cur: Vec<char> = Vec::new();
    let mut i: usize = 0;
    assert(p@.take(0) =~= Seq::<char>::empty());
    while i < p.len()
        invariant
            i <= p.len(),
            segs@.len() == ends@.len(),
            texts(segs@).push(cur@) =~= path_segments(p@.take(i as int)),
            positions(ends@).push(i as int) =~= path_segment_ends(p@.take(i as int)),
            forall|k: int| 0 <= k < ends@.len() ==> #[trigger] ends@[k] <= i,
        decreases p.len() - i,
    {
        let ghost before = p@.take(i as int);
        assert(p@.take(i + 1).drop_last() =~= before);
        assert(p@.take(i + 1).last() == p@[i as int]);
        let c = p[i];
        if c == '/' {
            let done = cur;
            segs.push(done);
            ends.push(i);
            cur = Vec::new();
            assert(texts(segs@).push(cur@) =~= path_segments(before).push(seq![]));
            assert(positions(ends@).push(i + 1) =~= path_segment_ends(before).push(i + 1));
        } else {
            cur.push(c);
            assert(texts(segs@).push(cur@) =~= path_segments(before).update(
                path_segments(before).len() - 1,
                path_segments(before).last().push(c),
            ));
            assert(positions(ends@).push(i + 1) =~= path_segment_ends(before).update(
                path_segment_ends(before).len() - 1,
                i + 1,
            ));
        }
        i = i + 1;
    }
    assert(p@.take(p.len() as int) =~= p@);
    segs.push(cur);
    ends.push(p.len());
    (segs, ends)
}

fn is_cur_dir(s: &[char]) -> (res: bool)
    ensures
        res == (s@ == cur_dir()),
{
    let r = s.len() == 1 && s[0] == '.';
    assert(r ==> s@ =~= cur_dir());
    r
}

/// The components of a Unix path, as `Path::components` yields them, with
/// the position just after each.
fn components_with_ends(p: &[char]) -> (res: (Vec<Vec<char>>, Vec<usize>))
    ensures
        texts(res.0@) =~= path_components(p@),
        positions(res.1@) =~= component_ends(p@),
        res.0@.len() == res.1@.len(),
        forall|k: int| 0 <= k < res.1@.len() ==> #[trigger] res.1@[k] <= p@.len(),
{
    let (segs, ends) = segments_of(p);
    let mut out: Vec<Vec<char>> = Vec::new();
    let mut out_ends: Vec<usize> = Vec::new();
    if p.len() > 0 && p[0] == '/' {
        let mut r: Vec<char> = Vec::new();
        r.push('/');
        assert(r@ =~= root_dir());
        out.push(r);
        out_ends.push(1);
    }
    let ghost root = texts(out@);
    let ghost root_ends = positions(out_ends@);
    let mut k: usize = 0;
    assert(texts(segs@).take(0) =~= Seq::<Seq<char>>::empty());
    assert(positions(ends@).take(0) =~= Seq::<int>::empty());
    while k < segs.len()
        invariant
            k <= segs.len(),
            segs@.len() == ends@.len(),
            out@.len() == out_ends@.len(),
            texts(segs@) =~= path_segments(p@),
            positions(ends@) =~= path_segment_ends(p@),
            forall|j: int| 0 <= j < ends@.len() ==> #[trigger] ends@[j] <= p@.len(),
            forall|j: int| 0 <= j < out_ends@.len() ==> #[trigger] out_ends@[j] <= p@.len(),
            root == (if is_absolute(p@) {
                seq![root_dir()]
            } else {
                Seq::<Seq<char>>::empty()
            }),
            root_ends == (if is_absolute(p@) {
                seq![1int]
            } else {
                Seq::<int>::empty()
            }),
            texts(out@) =~= root + segment_components(texts(segs@).take(k as int)),
            positions(out_ends@) =~= root_ends + segment_component_ends(
                texts(segs@).take(k as int),
                positions(ends@).take(k as int),
            ),
        decreases segs.len() - k,
    {
        let ghost sv = texts(segs@);
        let ghost ev = positions(ends@);
        assert(sv.take(k + 1).drop_last() =~= sv.take(k as int));
        assert(sv.take(k + 1).last() == sv[k as int]);
        assert(ev.take(k + 1).drop_last() =~= ev.take(k as int));
        assert(ev.take(k + 1).last() == ev[k as int]);
        let seg = &segs[k];
        let e = ends[k];
        let ghost prev = segment_components(sv.take(k as int));
        let ghost prev_ends = segment_component_ends(sv.take(k as int), ev.take(k as int));
        let ghost out_before = texts(out@);
        let ghost ends_before = positions(out_ends@);
        assert(seg@ == sv[k as int]);
        assert(e == ev[k as int]);
        if seg.len() == 0 {
            assert(segment_components(sv.take(k + 1)) == prev);
            assert(segment_component_ends(sv.take(k + 1), ev.take(k + 1)) == prev_ends);
        } else if is_cur_dir(seg.as_slice()) {
            if k == 0 {
                out.push(copy_chars(seg.as_slice()));
                out_ends.push(e);
                assert(texts(out@) =~= out_before.push(seg@));
                assert(positions(out_ends@) =~= ends_before.push(e as int));
                assert(segment_components(sv.take(k + 1)) == prev.push(seg@));
                assert(segment_component_ends(sv.take(k + 1), ev.take(k + 1)) == prev_ends.push(
                    e as int,
                ));
            } else {
                assert(segment_components(sv.take(k + 1)) == prev);
                assert(segment_component_ends(sv.take(k + 1), ev.take(k + 1)) == prev_ends);
            }
        } else {
            out.push(copy_chars(seg.as_slice()));
            out_ends.push(e);
            assert(texts(out@) =~= out_before.push(seg@));
            assert(positions(out_ends@) =~= ends_before.push(e as int));
            assert(segment_components(sv.take(k + 1)) == prev.push(seg@));
            assert(segment_component_ends(sv.take(k + 1), ev.take(k + 1)) == prev_ends.push(
                e as int,
            ));
        }
        k = k + 1;
    }
    assert(texts(segs@).take(segs.len() as int) =~= texts(segs@));
    assert(positions(ends@).take(segs.len() as int) =~= positions(ends@));
    (out, out_ends)
}

fn components_prefix(pc: &Vec<Vec<char>>, bc: &Vec<Vec<char>>) -> (res: bool)
    ensures
        res == (texts(bc@).len() <= texts(pc@).len() && texts(pc@).take(
            texts(bc@).len() as int,
        ) =~= texts(bc@)),
{
    if bc.len() > pc.len() {
        return false;
    }
    let mut i: usize = 0;
    while i < bc.len()
        invariant
            bc.len() <= pc.len(),
            i <= bc.len(),
            forall|k: int| 0 <= k < i ==> texts(pc@)[k] == texts(bc@)[k],
        decreases bc.len() - i,
    {
        if !chars_equal(pc[i].as_slice(), bc[i].as_slice()) {
            assert(texts(pc@).take(bc.len() as int)[i as int] != texts(bc@)[i as int]);
            return false;
        }
        i = i + 1;
    }
    assert(texts(pc@).take(texts(bc@).len() as int) =~= texts(bc@));
    true
}

fn is_win_sep_exec(c: char) -> (res: bool)
    ensures
        res == is_win_sep(c),
{
    c == '/' || c == '\\'
}

fn is_ascii_letter_exec(c: char) -> (res: bool)
    ensures
        res == is_ascii_letter(c),
{
    ('a' <= c && c <= 'z') || ('A' <= c && c <= 'Z')
}

fn upper_letter_exec(c: char) -> (res: char)
    ensures
        res == upper_letter(c),
{
    if c == 'a' {
        'A'
    } else if c == 'b' {
        'B'
    } else if c == 'c' {
        'C'
    } else if c == 'd' {
        'D'
    } else if c == 'e' {
        'E'
    } else if c == 'f' {
        'F'
    } else if c == 'g' {
        'G'
    } else if c == 'h' {
        'H'
    } else if c == 'i' {
        'I'
    } else if c == 'j' {
        'J'
    } else if c == 'k' {
        'K'
    } else if c == 'l' {
        'L'
    } else if c == 'm' {
        'M'
    } else if c == 'n' {
        'N'
    } else if c == 'o' {
        'O'
    } else if c == 'p' {
        'P'
    } else if c == 'q' {
        'Q'
    } else if c == 'r' {
        'R'
    } else if c == 's' {
        'S'
    } else if c == 't' {
        'T'
    } else if c == 'u' {
        'U'
    } else if c == 'v' {
        'V'
    } else if c == 'w' {
        'W'
    } else if c == 'x' {
        'X'
    } else if c == 'y' {
        'Y'
    } else if c == 'z' {
        'Z'
    } else {
        c
    }
}

proof fn lemma_first_sep(q: Seq<char>, j: int)
    requires
        0 <= j <= q.len(),
        forall|k: int| 0 <= k < j ==> !is_win_sep(#[trigger] q[k]),
        j == q.len() || is_win_sep(q[j]),
    ensures
        first_sep_in(q) == j,
    decreases j,
{
    if j > 0 {
        let r = q.skip(1);
        assert forall|k: int| 0 <= k < j - 1 implies !is_win_sep(#[trigger] r[k]) by {
            assert(r[k] == q[k + 1]);
        }
        if j < q.len() {
            assert(r[j - 1] == q[j]);
        }
        assert(!is_win_sep(q[0]));
        lemma_first_sep(r, j - 1);
    }
}

/// Index of the first separator of `p` at or after `start`, or `p.len()`.
fn first_sep_from(p: &[char], start: usize) -> (res: usize)
    requires
        start <= p.len(),
    ensures
        res == start + first_sep_in(p@.skip(start as int)),
        start <= res <= p.len(),
{
    let mut i = start;
    while i < p.len() && !is_win_sep_exec(p[i])
        invariant
            start <= i <= p.len(),
            forall|k: int| start <= k < i ==> !is_win_sep(#[trigger] p@[k]),
        decreases p.len() - i,
    {
        i = i + 1;
    }
    proof {
        let q = p@.skip(start as int);
        assert forall|k: int| 0 <= k < i - start implies !is_win_sep(#[trigger] q[k]) by {
            assert(q[k] == p@[k + start]);
        }
        if i < p.len() {
            assert(q[i - start] == p@[i as int]);
        }
        lemma_first_sep(q, i - start);
    }
    i
}

fn win_double_exec(p: &[char]) -> (res: bool)
    ensures
        res == win_double(p@),
{
    p.len() >= 2 && is_win_sep_exec(p[0]) && is_win_sep_exec(p[1])
}

fn win_disk_exec(p: &[char]) -> (res: bool)
    ensures
        res == win_disk(p@),
{
    !win_double_exec(p) && p.len() >= 2 && is_ascii_letter_exec(p[0]) && p[1] == ':'
}

/// The length of the Windows prefix of `p`.
fn win_prefix_len_exec(p: &[char]) -> (res: usize)
    ensures
        res == win_prefix_len(p@),
        res <= p.len(),
{
    if win_double_exec(p) {
        let a = first_sep_from(p, 2);
        assert(p@.skip(2).len() == p.len() - 2);
        if a < p.len() {
            let b = first_sep_from(p, a + 1);
            assert(p@.skip(2).skip(a - 2 + 1) =~= p@.skip(a + 1));
            b
        } else {
            a
        }
    } else if win_disk_exec(p) {
        2
    } else {
        0
    }
}

/// `p[from..to]` with each `\` written as `/`.
fn slashes_of(p: &[char], from: usize, to: usize) -> (res: Vec<char>)
    requires
        from <= to <= p.len(),
    ensures
        res@ =~= slashes(p@.subrange(from as int, to as int)),
{
    let mut out: Vec<char> = Vec::new();
    let mut i = from;
    while i < to
        invariant
            from <= i <= to <= p.len(),
            out@ =~= slashes(p@.subrange(from as int, i as int)),
        decreases to - i,
    {
        let c = p[i];
        let d = if c == '\\' {
            '/'
        } else {
            c
        };
        out.push(d);
        i = i + 1;
        assert(p@.subrange(from as int, i as int) =~= p@.subrange(from as int, i - 1).push(c));
    }
    out
}

/// The first `n` characters of `s`.
fn prefix_chars(s: &[char], n: usize) -> (res: Vec<char>)
    requires
        n <= s.len(),
    ensures
        res@ =~= s@.take(n as int),
{
    let mut out: Vec<char> = Vec::new();
    let mut i: usize = 0;
    while i < n
        invariant
            i <= n <= s.len(),
            out@ =~= s@.take(i as int),
        decreases n - i,
    {
        out.push(s[i]);
        i = i + 1;
    }
    out
}

/// The components of a Windows path, with the position just after each.
fn win_components_with_ends(p: &[char]) -> (res: (Vec<Vec<char>>, Vec<usize>))
    ensures
        texts(res.0@) =~= win_components(p@),
        positions(res.1@) =~= win_component_ends(p@),
        res.0@.len() == res.1@.len(),
        forall|k: int| 0 <= k < res.1@.len() ==> #[trigger] res.1@[k] <= p@.len(),
{
    let n = win_prefix_len_exec(p);
    let rest = slashes_of(p, n, p.len());
    assert(p@.subrange(n as int, p.len() as int) =~= p@.skip(n as int));
    assert(rest@ == win_rest(p@));
    let disk = win_disk_exec(p);
    let mut out: Vec<Vec<char>> = Vec::new();
    let mut out_ends: Vec<usize> = Vec::new();
    if n > 0 {
        let pc = if disk {
            let mut v: Vec<char> = Vec::new();
            v.push('/');
            v.push('/');
            v.push(upper_letter_exec(p[0]));
            v.push(':');
            v
        } else {
            let v = slashes_of(p, 0, n);
            assert(p@.subrange(0, n as int) =~= p@.take(n as int));
            v
        };
        assert(pc@ =~= win_prefix_component(p@));
        out.push(pc);
        out_ends.push(n);
    }
    let implied = n > 0 && !disk && !(rest.len() > 0 && rest[0] == '/');
    assert(implied == win_implied_root(p@));
    if implied {
        let mut r: Vec<char> = Vec::new();
        r.push('/');
        assert(r@ =~= root_dir());
        out.push(r);
        out_ends.push(n);
    }
    let ghost head = texts(out@);
    let ghost head_ends = positions(out_ends@);
    assert(head =~= (if n > 0 {
        seq![win_prefix_component(p@)]
    } else {
        Seq::<Seq<char>>::empty()
    }) + (if implied {
        seq![root_dir()]
    } else {
        Seq::<Seq<char>>::empty()
    }));
    assert(head_ends =~= (if n > 0 {
        seq![n as int]
    } else {
        Seq::<int>::empty()
    }) + (if implied {
        seq![n as int]
    } else {
        Seq::<int>::empty()
    }));
    let (rc, re) = components_with_ends(rest.as_slice());
    let mut k: usize = 0;
    while k < rc.len()
        invariant
            k <= rc.len(),
            rc@.len() == re@.len(),
            n + rest@.len() == p@.len(),
            forall|j: int| 0 <= j < re@.len() ==> #[trigger] re@[j] <= rest@.len(),
            forall|j: int| 0 <= j < out_ends@.len() ==> #[trigger] out_ends@[j] <= p@.len(),
            out@.len() == out_ends@.len(),
            texts(out@) =~= head + texts(rc@).take(k as int),
            positions(out_ends@) =~= head_ends + shifted(positions(re@).take(k as int), n as int),
        decreases rc.len() - k,
    {
        let ghost before = texts(out@);
        let ghost before_ends = positions(out_ends@);
        let e = re[k];
        assert(re@[k as int] <= rest@.len());
        assert(e + n <= p.len());
        out.push(copy_chars(rc[k].as_slice()));
        out_ends.push(e + n);
        assert(texts(rc@).take(k + 1) =~= texts(rc@).take(k as int).push(rc@[k as int]@));
        assert(positions(re@).take(k + 1) =~= positions(re@).take(k as int).push(e as int));
        assert(shifted(positions(re@).take(k + 1), n as int) =~= shifted(
            positions(re@).take(k as int),
            n as int,
        ).push(e + n));
        assert(texts(out@) =~= before.push(rc@[k as int]@));
        assert(positions(out_ends@) =~= before_ends.push(e + n));
        k = k + 1;
    }
    assert(texts(rc@).take(rc.len() as int) =~= texts(rc@));
    assert(positions(re@).take(rc.len() as int) =~= positions(re@));
    (out, out_ends)
}

/// The components of `p` in `style`, with the position just after each.
pub fn components_in_with_ends(style: PathStyle, p: &[char]) -> (res: (Vec<Vec<char>>, Vec<usize>))
    ensures
        texts(res.0@) =~= components_in(style, p@),
        positions(res.1@) =~= component_ends_in(style, p@),
        res.0@.len() == res.1@.len(),
        forall|k: int| 0 <= k < res.1@.len() ==> #[trigger] res.1@[k] <= p@.len(),
{
    match style {
        PathStyle::Unix => components_with_ends(p),
        PathStyle::Windows => win_components_with_ends(p),
    }
}

fn has_slash(c: &[char]) -> (res: bool)
    ensures
        res == c@.contains('/'),
{
    let mut i: usize = 0;
    while i < c.len()
        invariant
            i <= c.len(),
            forall|k: int| 0 <= k < i ==> c@[k] != '/',
        decreases c.len() - i,
    {
        if c[i] == '/' {
            assert(c@[i as int] == '/');
            return true;
        }
        i = i + 1;
    }
    false
}

fn is_parent_chars(c: &[char]) -> (res: bool)
    ensures
        res == (c@ == parent_dir()),
{
    let r = c.len() == 2 && c[0] == '.' && c[1] == '.';
    assert(r ==> c@ =~= parent_dir());
    r
}

fn is_name_chars(c: &[char]) -> (res: bool)
    ensures
        res == is_name_component(c@),
{
    !has_slash(c) && !is_cur_dir(c) && !is_parent_chars(c)
}

/// Lexical normalisation of a sequence of components.
fn normalize_components(c: &Vec<Vec<char>>) -> (res: Vec<Vec<char>>)
    ensures
        texts(res@) =~= normalized(texts(c@)),
{
    let mut acc: Vec<Vec<char>> = Vec::new();
    let mut i: usize = 0;
    assert(texts(c@).take(0) =~= Seq::<Seq<char>>::empty());
    while i < c.len()
        invariant
            i <= c.len(),
            texts(acc@) =~= normalized(texts(c@).take(i as int)),
        decreases c.len() - i,
    {
        let ghost cv = texts(c@);
        assert(cv.take(i + 1).drop_last() =~= cv.take(i as int));
        assert(cv.take(i + 1).last() == cv[i as int]);
        let x = &c[i];
        assert(x@ == cv[i as int]);
        let ghost before = texts(acc@);
        if is_cur_dir(x.as_slice()) {
        } else if is_parent_chars(x.as_slice()) {
            let m = acc.len();
            if m > 0 && is_name_chars(acc[m - 1].as_slice()) {
                assert(acc@[m - 1]@ == before.last());
                acc.pop();
                assert(texts(acc@) =~= before.drop_last());
            } else if m > 0 && acc[m - 1].len() == 1 && acc[m - 1][0] == '/' {
                assert(acc@[m - 1]@ == before.last());
                assert(before.last() =~= root_dir());
            } else {
                if m > 0 {
                    assert(acc@[m - 1]@ == before.last());
                    assert(before.last() != root_dir()) by {
                        if before.last() == root_dir() {
                            assert(acc@[m - 1]@.len() == 1 && acc@[m - 1]@[0] == '/');
                        }
                    }
                }
                acc.push(copy_chars(x.as_slice()));
                assert(texts(acc@) =~= before.push(x@));
            }
        } else {
            acc.push(copy_chars(x.as_slice()));
            assert(texts(acc@) =~= before.push(x@));
        }
        i = i + 1;
    }
    assert(texts(c@).take(c.len() as int) =~= texts(c@));
    acc
}

/// Whether `p` lies within `base` after lexical normalisation.
pub fn chars_within(style: PathStyle, p: &[char], base: &[char]) -> (res: bool)
    ensures
        res == within_in(style, p@, base@),
{
    let (pc, _) = components_in_with_ends(style, p);
    let (bc, _) = components_in_with_ends(style, base);
    let pn = normalize_components(&pc);
    let bn = normalize_components(&bc);
    components_prefix(&pn, &bn)
}

/// `Path::join` on character sequences in the Unix style.
fn join_chars_unix(dir: &[char], name: &[char]) -> (res: Vec<char>)
    ensures
        res@ == joined(dir@, name@),
{
    if name.len() > 0 && name[0] == '/' {
        copy_chars(name)
    } else if dir.len() > 0 && dir[dir.len() - 1] != '/' {
        let mut sep: Vec<char> = Vec::new();
        sep.push('/');
        let d = concat_chars(dir, sep.as_slice());
        assert(d@ =~= dir@ + seq!['/']);
        concat_chars(d.as_slice(), name)
    } else {
        concat_chars(dir, name)
    }
}

/// `Path::join` on character sequences in the Windows style.
fn join_chars_windows(dir: &[char], name: &[char]) -> (res: Vec<char>)
    ensures
        res@ == win_joined(dir@, name@),
{
    if win_prefix_len_exec(name) > 0 {
        copy_chars(name)
    } else if name.len() > 0 && is_win_sep_exec(name[0]) {
        let d = prefix_chars(dir, win_prefix_len_exec(dir));
        concat_chars(d.as_slice(), name)
    } else if dir.len() > 0 && !is_win_sep_exec(dir[dir.len() - 1]) && !(win_disk_exec(dir)
        && dir.len() == 2) {
        let mut sep: Vec<char> = Vec::new();
        sep.push('\\');
        let d = concat_chars(dir, sep.as_slice());
        assert(d@ =~= dir@ + seq!['\\']);
        concat_chars(d.as_slice(), name)
    } else {
        concat_chars(dir, name)
    }
}

/// `Path::join` on character sequences.
pub fn join_chars(style: PathStyle, dir: &[char], name: &[char]) -> (res: Vec<char>)
    ensures
        res@ == joined_in(style, dir@, name@),
{
    match style {
        PathStyle::Unix => join_chars_unix(dir, name),
        PathStyle::Windows => join_chars_windows(dir, name),
    }
}

/// `Path::is_absolute`.
pub fn is_absolute_path(style: PathStyle, p: &str) -> (res: bool)
    ensures
        res == absolute_in(style, p@),
{
    let c = chars_of(p);
    match style {
        PathStyle::Unix => c.len() > 0 && c[0] == '/',
        PathStyle::Windows => {
            let n = win_prefix_len_exec(c.as_slice());
            let ghost rest = win_rest(c@);
            assert(rest.len() == c@.len() - n);
            if n < c.len() {
                assert(rest[0] == (if c@[n as int] == '\\' {
                    '/'
                } else {
                    c@[n as int]
                }));
            }
            n > 0 && (!win_disk_exec(c.as_slice()) || (n < c.len() && is_win_sep_exec(c[n])))
        },
    }
}

/// `Path::starts_with` after lexical normalisation: whether `p` lies
/// within `base`.
pub fn path_starts_with(style: PathStyle, p: &str, base: &str) -> (res: bool)
    ensures
        res == within_in(style, p@, base@),
{
    let pc = chars_of(p);
    let bc = chars_of(base);
    chars_within(style, pc.as_slice(), bc.as_slice())
}

/// `PathBuf::join`: `name` appended to `dir`.
pub fn join_path(style: PathStyle, dir: &str, name: &str) -> (res: String)
    ensures
        res@ == joined_in(style, dir@, name@),
{
    let d = chars_of(dir);
    let n = chars_of(name);
    let j = join_chars(style, d.as_slice(), n.as_slice());
    string_from_chars(j.as_slice())
}

/// `Path::file_name`: the last component of `p` when it is a name.
pub fn file_name(style: PathStyle, p: &str) -> (res: Option<String>)
    ensures
        res matches Some(s) ==> file_name_in(style, p@) == Some(s@),
        res is None ==> file_name_in(style, p@) is None,
{
    let c = chars_of(p);
    let (comps, _) = components_in_with_ends(style, c.as_slice());
    if comps.len() == 0 {
        return None;
    }
    let last = &comps[comps.len() - 1];
    assert(last@ == texts(comps@).last());
    if is_name_chars(last.as_slice()) {
        Some(string_from_chars(last.as_slice()))
    } else {
        None
    }
}

/// `Path::parent`: `p` up to the end of its second-to-last component;
/// `None` for the empty path and for one that ends at a root or a prefix.
pub fn parent_path(style: PathStyle, p: &str) -> (res: Option<String>)
    ensures
        res matches Some(s) ==> parent_in(style, p@) == Some(s@),
        res is None ==> parent_in(style, p@) is None,
{
    let c = chars_of(p);
    let (comps, ends) = components_in_with_ends(style, c.as_slice());
    if comps.len() == 0 {
        return None;
    }
    let n = comps.len();
    let last = &comps[n - 1];
    assert(last@ == texts(comps@).last());
    if has_slash(last.as_slice()) {
        return None;
    }
    let end: usize = if n >= 2 {
        ends[n - 2]
    } else {
        0
    };
    assert(n >= 2 ==> end as int == component_ends_in(style, c@)[n - 2]);
    let out = prefix_chars(c.as_slice(), end);
    Some(string_from_chars(out.as_slice()))
}

} // verus!
