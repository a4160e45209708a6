//! Paths as byte strings.
//!
//! A path is an arbitrary sequence of bytes in which `/` separates segments. Nothing
//! here touches the file system, collapses repeated separators or resolves `.` and
//! `..`: two paths are the same path exactly when their bytes are equal.

use vstd::prelude::*;
use vstd::slice::slice_subrange;

verus! {

/// The byte that separates the segments of a path.
pub const SEPARATOR: u8 = 0x2F;

/// The byte that some hosts use as a separator; normalization turns it into `SEPARATOR`.
pub const BACKSLASH: u8 = 0x5C;

/// The byte that introduces a file extension.
pub const DOT: u8 = 0x2E;

/// The canonical form of one path byte: a backslash becomes a forward slash, an ASCII
/// upper-case letter its lower-case counterpart, and every other byte stays as it is.
pub open spec fn normalize_byte(b: u8) -> u8 {
    if b == BACKSLASH {
        SEPARATOR
    } else if 0x41 <= b <= 0x5A {
        (b + 32) as u8
    } else {
        b
    }
}

/// The canonical key of a path: every byte replaced by its canonical form.
pub open spec fn normalized(path: Seq<u8>) -> Seq<u8> {
    Seq::new(path.len(), |i: int| normalize_byte(path[i]))
}

/// A path that holds neither a backslash nor an ASCII upper-case letter.
pub open spec fn is_normalized(path: Seq<u8>) -> bool {
    forall|i: int| 0 <= i < path.len() ==> path[i] != BACKSLASH && !(0x41 <= #[trigger] path[i] <= 0x5A)
}

/// `prefix` is a leading run of whole segments of `path`. The empty prefix leads
/// every path.
pub open spec fn starts_with(path: Seq<u8>, prefix: Seq<u8>) -> bool {
    &&& prefix.len() <= path.len()
    &&& path.subrange(0, prefix.len() as int) == prefix
    &&& (prefix.len() == 0 || prefix.len() == path.len() || path[prefix.len() as int] == SEPARATOR
        || prefix[prefix.len() - 1] == SEPARATOR)
}

/// `tail` is a trailing run of whole segments of `path`. The empty tail ends every
/// path.
pub open spec fn ends_with(path: Seq<u8>, tail: Seq<u8>) -> bool {
    &&& tail.len() <= path.len()
    &&& path.subrange(path.len() - tail.len(), path.len() as int) == tail
    &&& (tail.len() == 0 || tail.len() == path.len() || path[path.len() - tail.len() - 1]
        == SEPARATOR)
}

/// `needle` occurs in `path` as a contiguous run of bytes.
pub open spec fn contains_bytes(path: Seq<u8>, needle: Seq<u8>) -> bool {
    exists|i: int|
        0 <= i && i + needle.len() <= path.len() && #[trigger] path.subrange(
            i,
            i + needle.len(),
        ) == needle
}

/// The index at which the final segment of `path` begins: one past the last
/// separator, or 0 where the path holds none.
pub open spec fn name_start(path: Seq<u8>) -> int
    decreases path.len(),
{
    if path.len() == 0 {
        0
    } else if path.last() == SEPARATOR {
        path.len() as int
    } else {
        name_start(path.drop_last())
    }
}

/// The final segment of `path`: the bytes after its last separator.
pub open spec fn final_segment(path: Seq<u8>) -> Seq<u8> {
    path.skip(name_start(path))
}

/// The two bytes `..`.
pub open spec fn dot_dot() -> Seq<u8> {
    seq![DOT, DOT]
}

/// The file name of `path`: its final segment, unless that is empty or `..`.
pub open spec fn file_name_of(path: Seq<u8>) -> Option<Seq<u8>> {
    let name = final_segment(path);
    if name.len() == 0 || name == dot_dot() {
        None
    } else {
        Some(name)
    }
}

/// The index of the last `.` of `name`, or -1 where it holds none.
pub open spec fn last_dot(name: Seq<u8>) -> int
    decreases name.len(),
{
    if name.len() == 0 {
        -1
    } else if name.last() == DOT {
        name.len() - 1
    } else {
        last_dot(name.drop_last())
    }
}

/// A file name without its extension: the bytes before its last `.`, or the whole
/// name where it holds no `.` or only a leading one.
pub open spec fn stem_of(name: Seq<u8>) -> Seq<u8> {
    if last_dot(name) <= 0 {
        name
    } else {
        name.take(last_dot(name))
    }
}

/// The file stem of `path`: the stem of its file name.
pub open spec fn file_stem_of(path: Seq<u8>) -> Option<Seq<u8>> {
    match file_name_of(path) {
        Some(name) => Some(stem_of(name)),
        None => None,
    }
}

/// The path of the directory that holds `path`: `path` without its final segment and
/// the separator before it. The empty path and the root `/` have no parent; the
/// parent of a path directly under the root is the root.
pub open spec fn parent_of(path: Seq<u8>) -> Option<Seq<u8>> {
    let start = name_start(path);
    if path.len() == 0 {
        None
    } else if start == 0 {
        Some(Seq::empty())
    } else if start == 1 {
        if path.len() == 1 {
            None
        } else {
            Some(path.take(1))
        }
    } else {
        Some(path.take(start - 1))
    }
}

/// `rel` placed under `base`: `rel` alone where it is absolute or `base` is empty,
/// else `base`, one separator unless `base` already ends in one, and `rel`.
pub open spec fn joined(base: Seq<u8>, rel: Seq<u8>) -> Seq<u8> {
    if base.len() == 0 || (rel.len() > 0 && rel[0] == SEPARATOR) {
        rel
    } else if base.last() == SEPARATOR {
        base + rel
    } else {
        base.push(SEPARATOR) + rel
    }
}

/// `path` as seen from the directory `root`: what follows `root` and one separator,
/// where `path` starts with the non-empty `root`; `path` itself otherwise.
pub open spec fn relative_to(path: Seq<u8>, root: Seq<u8>) -> Seq<u8> {
    if root.len() == 0 || !starts_with(path, root) {
        path
    } else {
        let rest = path.skip(root.len() as int);
        if rest.len() > 0 && rest[0] == SEPARATOR {
            rest.skip(1)
        } else {
            rest
        }
    }
}

/// The directories that lead to `path`, outermost first and `path` itself last: each
/// is the parent of the next. The empty path has none.
pub open spec fn ancestry(path: Seq<u8>) -> Seq<Seq<u8>>
    decreases path.len(),
{
    if path.len() == 0 {
        Seq::empty()
    } else {
        match parent_of(path) {
            Some(parent) => if parent.len() < path.len() {
                ancestry(parent).push(path)
            } else {
                seq![path]
            },
            None => seq![path],
        }
    }
}

/// The byte strings that a list of owned paths holds.
pub open spec fn views(paths: Seq<Vec<u8>>) -> Seq<Seq<u8>> {
    Seq::new(paths.len(), |i: int| paths[i]@)
}

/// Normalizing twice is normalizing once.
pub proof fn lemma_normalize_idempotent(path: Seq<u8>)
    ensures
        normalized(normalized(path)) == normalized(path),
{
    assert(normalized(normalized(path)) =~= normalized(path));
}

/// A normalized key is a normalized path, and normalizing leaves exactly the
/// normalized paths unchanged.
pub proof fn lemma_normalized_is_normalized(path: Seq<u8>)
    ensures
        is_normalized(normalized(path)),
        is_normalized(path) <==> normalized(path) == path,
{
    if is_normalized(path) {
        assert(normalized(path) =~= path);
    }
    if normalized(path) == path {
        assert forall|i: int| 0 <= i < path.len() implies path[i] != BACKSLASH && !(0x41
            <= #[trigger] path[i] <= 0x5A) by {
            assert(normalized(path)[i] == normalize_byte(path[i]));
        }
    }
}

/// Normalization works byte by byte, so it commutes with taking a part of a path.
pub proof fn lemma_normalize_parts(path: Seq<u8>, from: int, to: int)
    requires
        0 <= from <= to <= path.len(),
    ensures
        normalized(path.subrange(from, to)) == normalized(path).subrange(from, to),
{
    assert(normalized(path.subrange(from, to)) =~= normalized(path).subrange(from, to));
}

/// The final segment holds no separator, and a separator stands right before it
/// unless it begins the path.
pub proof fn lemma_name_start(path: Seq<u8>)
    ensures
        0 <= name_start(path) <= path.len(),
        name_start(path) > 0 ==> path[name_start(path) - 1] == SEPARATOR,
        forall|i: int| name_start(path) <= i < path.len() ==> path[i] != SEPARATOR,
    decreases path.len(),
{
    if path.len() > 0 && path.last() != SEPARATOR {
        lemma_name_start(path.drop_last());
        assert forall|i: int| name_start(path) <= i < path.len() implies path[i] != SEPARATOR by {
            if i < path.len() - 1 {
                assert(path[i] == path.drop_last()[i]);
            }
        }
    }
}

/// The last dot of a name is a dot, and none follows it.
pub proof fn lemma_last_dot(name: Seq<u8>)
    ensures
        -1 <= last_dot(name) < name.len(),
        last_dot(name) >= 0 ==> name[last_dot(name)] == DOT,
        forall|i: int| last_dot(name) < i < name.len() ==> name[i] != DOT,
    decreases name.len(),
{
    if name.len() > 0 && name.last() != DOT {
        lemma_last_dot(name.drop_last());
        assert forall|i: int| last_dot(name) < i < name.len() implies name[i] != DOT by {
            if i < name.len() - 1 {
                assert(name[i] == name.drop_last()[i]);
            }
        }
    }
}

/// A path ends with what it is relative to its root, once both are normalized.
pub proof fn lemma_relative_is_tail(path: Seq<u8>, root: Seq<u8>)
    ensures
        ends_with(path, relative_to(path, root)),
        ends_with(normalized(path), normalized(relative_to(path, root))),
{
    let rel = relative_to(path, root);
    let cut = path.len() - rel.len();
    assert(path.subrange(cut, path.len() as int) =~= rel);
    assert(ends_with(path, rel));
    lemma_normalize_parts(path, cut, path.len() as int);
    assert(normalized(path).subrange(cut, path.len() as int) == normalized(rel));
    if rel.len() != 0 && rel.len() != path.len() {
        assert(normalized(path)[cut - 1] == normalize_byte(path[cut - 1]));
    }
}

/// Whether two byte strings are equal.
pub fn bytes_eq(a: &[u8], b: &[u8]) -> (same: bool)
    ensures
        same == (a@ == b@),
{
    if a.len() != b.len() {
        return false;
    }
    let mut i: usize = 0;
    while i < a.len()
        invariant
            a@.len() == b@.len(),
            i <= a@.len(),
            forall|j: int| 0 <= j < i ==> a@[j] == b@[j],
        decreases a@.len() - i,
    {
        if a[i] != b[i] {
            return false;
        }
        i += 1;
    }
    assert(a@ =~= b@);
    true
}

/// Whether the bytes of `hay` from `at` on begin with `needle`.
pub fn matches_at(hay: &[u8], at: usize, needle: &[u8]) -> (hit: bool)
    requires
        at + needle@.len() <= hay@.len(),
    ensures
        hit == (hay@.subrange(at as int, at + needle@.len()) == needle@),
{
    let total: usize = hay.len();
    let mut i: usize = 0;
    while i < needle.len()
        invariant
            at + needle@.len() <= hay@.len(),
            hay@.len() == total,
            i <= needle@.len(),
            forall|j: int| 0 <= j < i ==> hay@[at + j] == needle@[j],
        decreases needle@.len() - i,
    {
        if hay[at + i] != needle[i] {
            assert(hay@.subrange(at as int, at + needle@.len())[i as int] != needle@[i as int]);
            return false;
        }
        i += 1;
    }
    assert(hay@.subrange(at as int, at + needle@.len()) =~= needle@);
    true
}

/// An owned copy of `bytes`.
pub fn to_vec(bytes: &[u8]) -> (copy: Vec<u8>)
    ensures
        copy@ == bytes@,
{
    vstd::slice::slice_to_vec(bytes)
}

/// An owned copy of the bytes of `path` from `from` up to `to`.
pub fn copy_range(path: &[u8], from: usize, to: usize) -> (part: Vec<u8>)
    requires
        from <= to <= path@.len(),
    ensures
        part@ == path@.subrange(from as int, to as int),
{
    vstd::slice::slice_to_vec(slice_subrange(path, from, to))
}

/// Appends `bytes` to `path`.
pub fn append(path: &mut Vec<u8>, bytes: &[u8])
    ensures
        final(path)@ == old(path)@ + bytes@,
{
    path.extend_from_slice(bytes);
    assert(path@ =~= old(path)@ + bytes@);
}

/// The canonical key of `path`: backslashes become forward slashes and ASCII
/// upper-case letters lower-case; every other byte, ASCII or not, is kept.
pub fn normalize_path(path: &[u8]) -> (key: Vec<u8>)
    ensures
        key@ == normalized(path@),
        is_normalized(key@),
{
    let mut key: Vec<u8> = Vec::with_capacity(path.len());
    let mut i: usize = 0;
    while i < path.len()
        invariant
            i <= path@.len(),
            key@.len() == i,
            forall|j: int| 0 <= j < i ==> key@[j] == normalize_byte(path@[j]),
        decreases path@.len() - i,
    {
        let b: u8 = path[i];
        let n: u8 = if b == BACKSLASH {
            SEPARATOR
        } else if 0x41 <= b && b <= 0x5A {
            b + 32
        } else {
            b
        };
        key.push(n);
        i += 1;
    }
    assert(key@ =~= normalized(path@));
    proof {
        lemma_normalized_is_normalized(path@);
    }
    key
}

/// Whether `path` begins with the whole segments of `prefix`.
pub fn path_starts_with(path: &[u8], prefix: &[u8]) -> (yes: bool)
    ensures
        yes == starts_with(path@, prefix@),
{
    let n: usize = prefix.len();
    if n > path.len() {
        return false;
    }
    if !matches_at(path, 0, prefix) {
        return false;
    }
    n == 0 || n == path.len() || path[n] == SEPARATOR || prefix[n - 1] == SEPARATOR
}

/// Whether `path` ends with the whole segments of `tail`.
pub fn path_ends_with(path: &[u8], tail: &[u8]) -> (yes: bool)
    ensures
        yes == ends_with(path@, tail@),
{
    let n: usize = tail.len();
    if n > path.len() {
        return false;
    }
    let cut: usize = path.len() - n;
    if !matches_at(path, cut, tail) {
        return false;
    }
    n == 0 || cut == 0 || path[cut - 1] == SEPARATOR
}

/// Whether `needle` occurs somewhere in `path`.
pub fn path_contains(path: &[u8], needle: &[u8]) -> (yes: bool)
    ensures
        yes == contains_bytes(path@, needle@),
{
    if needle.len() > path.len() {
        return false;
    }
    let last: usize = path.len() - needle.len();
    let mut i: usize = 0;
    loop
        invariant
            last + needle@.len() == path@.len(),
            i <= last,
            forall|j: int| 0 <= j < i ==> #[trigger] path@.subrange(j, j + needle@.len()) != needle@,
        decreases last - i,
    {
        if matches_at(path, i, needle) {
            return true;
        }
        if i == last {
            return false;
        }
        i += 1;
    }
}

/// The index at which the final segment of `path` begins.
pub fn final_segment_start(path: &[u8]) -> (start: usize)
    ensures
        start == name_start(path@),
        start <= path@.len(),
{
    let mut i: usize = path.len();
    assert(path@.take(i as int) =~= path@);
    while i > 0 && path[i - 1] != SEPARATOR
        invariant
            i <= path@.len(),
            name_start(path@) == name_start(path@.take(i as int)),
        decreases i,
    {
        assert(path@.take(i as int).drop_last() =~= path@.take(i - 1));
        i -= 1;
    }
    proof {
        lemma_name_start(path@);
    }
    i
}

/// The final segment of `path` as a file name; `None` where the path ends in a
/// separator, is empty, or ends in `..`.
pub fn file_name(path: &[u8]) -> (name: Option<&[u8]>)
    ensures
        match name {
            Some(n) => file_name_of(path@) == Some(n@),
            None => file_name_of(path@) is None,
        },
{
    let start: usize = final_segment_start(path);
    let len: usize = path.len() - start;
    if len == 0 {
        return None;
    }
    if len == 2 && path[start] == DOT && path[start + 1] == DOT {
        assert(final_segment(path@) =~= dot_dot());
        return None;
    }
    assert(final_segment(path@) != dot_dot()) by {
        if final_segment(path@) == dot_dot() {
            assert(dot_dot().len() == 2);
            assert(final_segment(path@)[0] == DOT && final_segment(path@)[1] == DOT);
        }
    }
    let name = slice_subrange(path, start, path.len());
    assert(name@ =~= final_segment(path@));
    Some(name)
}

/// The index of the last `.` of `name`, where it holds one.
fn last_dot_index(name: &[u8]) -> (at: Option<usize>)
    ensures
        match at {
            Some(i) => last_dot(name@) == i && i < name@.len(),
            None => last_dot(name@) == -1,
        },
{
    let mut i: usize = name.len();
    assert(name@.take(i as int) =~= name@);
    while i > 0 && name[i - 1] != DOT
        invariant
            i <= name@.len(),
            last_dot(name@) == last_dot(name@.take(i as int)),
        decreases i,
    {
        assert(name@.take(i as int).drop_last() =~= name@.take(i - 1));
        i -= 1;
    }
    if i == 0 {
        None
    } else {
        Some(i - 1)
    }
}

/// The file name of `path` without its extension.
pub fn file_stem(path: &[u8]) -> (stem: Option<&[u8]>)
    ensures
        match stem {
            Some(s) => file_stem_of(path@) == Some(s@),
            None => file_stem_of(path@) is None,
        },
{
    match file_name(path) {
        None => None,
        Some(name) => {
            match last_dot_index(name) {
                Some(dot) => {
                    if dot > 0 {
                        let stem = slice_subrange(name, 0, dot);
                        Some(stem)
                    } else {
                        Some(name)
                    }
                },
                None => Some(name),
            }
        },
    }
}

/// The directory that holds `path`, where it has one.
pub fn parent(path: &[u8]) -> (dir: Option<&[u8]>)
    ensures
        match dir {
            Some(d) => parent_of(path@) == Some(d@),
            None => parent_of(path@) is None,
        },
{
    if path.len() == 0 {
        return None;
    }
    let start: usize = final_segment_start(path);
    if start == 0 {
        let dir = slice_subrange(path, 0, 0);
        assert(dir@ =~= Seq::<u8>::empty());
        Some(dir)
    } else if start == 1 {
        if path.len() == 1 {
            None
        } else {
            Some(slice_subrange(path, 0, 1))
        }
    } else {
        Some(slice_subrange(path, 0, start - 1))
    }
}

/// `rel` placed under the directory `base`.
pub fn join(base: &[u8], rel: &[u8]) -> (path: Vec<u8>)
    ensures
        path@ == joined(base@, rel@),
{
    if base.len() == 0 || (rel.len() > 0 && rel[0] == SEPARATOR) {
        return to_vec(rel);
    }
    let mut path = to_vec(base);
    if base[base.len() - 1] != SEPARATOR {
        path.push(SEPARATOR);
    }
    append(&mut path, rel);
    path
}

/// `path` as seen from the directory `root`.
pub fn strip_root(path: &[u8], root: &[u8]) -> (rel: Vec<u8>)
    ensures
        rel@ == relative_to(path@, root@),
{
    if root.len() == 0 || !path_starts_with(path, root) {
        let rel = to_vec(path);
        return rel;
    }
    let mut from: usize = root.len();
    if from < path.len() && path[from] == SEPARATOR {
        from += 1;
    }
    let rel = copy_range(path, from, path.len());
    assert(rel@ =~= relative_to(path@, root@));
    rel
}

/// The directories that lead to `path`, outermost first, `path` itself last.
pub fn ancestors(path: &[u8]) -> (chain: Vec<Vec<u8>>)
    ensures
        views(chain@) == ancestry(path@),
{
    let mut inner: Vec<Vec<u8>> = Vec::new();
    let mut current: Vec<u8> = to_vec(path);
    let mut done: bool = current.len() == 0;
    while !done
        invariant
            !done ==> current@.len() > 0,
            done ==> ancestry(path@) == views(inner@).reverse(),
            !done ==> ancestry(path@) == ancestry(current@) + views(inner@).reverse(),
        decreases
                if done {
                    0
                } else {
                    current@.len() + 1
                },
    {
        let up: Option<Vec<u8>> = match parent(current.as_slice()) {
            Some(dir) => Some(to_vec(dir)),
            None => None,
        };
        assert(up matches Some(d) ==> parent_of(current@) == Some(d@)) by {
            if let Some(d) = up {
                let dir = parent_of(current@).unwrap();
                assert(dir.subrange(0, dir.len() as int) =~= dir);
            }
        }
        let ghost before = views(inner@);
        let ghost cur = current@;
        match up {
            Some(dir) => {
                if dir.len() < current.len() {
                    inner.push(current);
                    assert(views(inner@) =~= before.push(cur));
                    assert(seq![cur] + before.reverse() =~= before.push(cur).reverse());
                    assert(ancestry(dir@).push(cur) + before.reverse() =~= ancestry(dir@) + (
                    seq![cur] + before.reverse()));
                    current = dir;
                    if current.len() == 0 {
                        done = true;
                        assert(ancestry(current@) + views(inner@).reverse()
                            =~= views(inner@).reverse());
                    }
                } else {
                    inner.push(current);
                    assert(views(inner@) =~= before.push(cur));
                    assert(seq![cur] + before.reverse() =~= before.push(cur).reverse());
                    current = Vec::new();
                    done = true;
                }
            },
            None => {
                inner.push(current);
                assert(views(inner@) =~= before.push(cur));
                assert(seq![cur] + before.reverse() =~= before.push(cur).reverse());
                current = Vec::new();
                done = true;
            },
        }
    }
    let mut chain: Vec<Vec<u8>> = Vec::new();
    let ghost all = views(inner@);
    while inner.len() > 0
        invariant
            all == views(inner@) + views(chain@).reverse(),
        decreases inner@.len(),
    {
        let ghost rest = views(inner@);
        let ghost sofar = views(chain@);
        let last = inner.pop().unwrap();
        assert(views(inner@) =~= rest.drop_last());
        chain.push(last);
        assert(views(chain@) =~= sofar.push(rest.last()));
        assert(rest.drop_last() + sofar.push(rest.last()).reverse() =~= rest + sofar.reverse());
    }
    assert(views(chain@) =~= all.reverse()) by {
        assert(views(inner@) =~= Seq::<Seq<u8>>::empty());
        assert(all =~= views(chain@).reverse());
        assert(views(chain@).reverse().reverse() =~= views(chain@));
    }
    chain
}

/// The order of paths: byte by byte, a path before every path that it begins.
pub open spec fn lex_less(a: Seq<u8>, b: Seq<u8>) -> bool
    decreases a.len(),
{
    if b.len() == 0 {
        false
    } else if a.len() == 0 {
        true
    } else if a[0] != b[0] {
        a[0] < b[0]
    } else {
        lex_less(a.drop_first(), b.drop_first())
    }
}

/// No path stands before itself.
pub proof fn lemma_lex_irreflexive(a: Seq<u8>)
    ensures
        !lex_less(a, a),
    decreases a.len(),
{
    if a.len() > 0 {
        lemma_lex_irreflexive(a.drop_first());
    }
}

/// Of two different paths one stands before the other, and never both.
pub proof fn lemma_lex_total(a: Seq<u8>, b: Seq<u8>)
    ensures
        a != b ==> (lex_less(a, b) || lex_less(b, a)),
        !(lex_less(a, b) && lex_less(b, a)),
    decreases a.len(),
{
    if a.len() > 0 && b.len() > 0 {
        if a[0] == b[0] {
            lemma_lex_total(a.drop_first(), b.drop_first());
            if a.drop_first() == b.drop_first() {
                assert(a =~= seq![a[0]] + a.drop_first());
                assert(b =~= seq![b[0]] + b.drop_first());
            }
        }
    } else if a.len() == 0 && b.len() == 0 {
        assert(a =~= b);
    }
}

/// The order of paths is transitive.
pub proof fn lemma_lex_transitive(a: Seq<u8>, b: Seq<u8>, c: Seq<u8>)
    requires
        lex_less(a, b),
        lex_less(b, c),
    ensures
        lex_less(a, c),
    decreases a.len(),
{
    if a.len() > 0 && b.len() > 0 && c.len() > 0 {
        if a[0] == b[0] && b[0] == c[0] {
            lemma_lex_transitive(a.drop_first(), b.drop_first(), c.drop_first());
        }
    }
}

/// Whether `a` stands before `b` in the order of paths.
pub fn bytes_less(a: &[u8], b: &[u8]) -> (less: bool)
    ensures
        less == lex_less(a@, b@),
{
    let mut i: usize = 0;
    assert(a@.skip(0) =~= a@);
    assert(b@.skip(0) =~= b@);
    while i < a.len() && i < b.len()
        invariant
            i <= a@.len(),
            i <= b@.len(),
            lex_less(a@, b@) == lex_less(a@.skip(i as int), b@.skip(i as int)),
        decreases a@.len() - i,
    {
        if a[i] != b[i] {
            return a[i] < b[i];
        }
        assert(a@.skip(i as int).drop_first() =~= a@.skip(i + 1));
        assert(b@.skip(i as int).drop_first() =~= b@.skip(i + 1));
        i += 1;
    }
    i < b.len()
}

/// The paths of `paths` whose normalized form is `key`, in their order.
pub open spec fn with_key(paths: Seq<Seq<u8>>, key: Seq<u8>) -> Seq<Seq<u8>>
    decreases paths.len(),
{
    if paths.len() == 0 {
        Seq::empty()
    } else if normalized(paths.last()) == key {
        with_key(paths.drop_last(), key).push(paths.last())
    } else {
        with_key(paths.drop_last(), key)
    }
}

/// Keeps of `paths` those that are `to_keep` up to case and the kind of slash.
pub fn filter_data_paths(to_keep: &[u8], paths: &mut Vec<Vec<u8>>)
    ensures
        views(final(paths)@) == with_key(views(old(paths)@), normalized(to_keep@)),
{
    let wanted = normalize_path(to_keep);
    let mut all: Vec<Vec<u8>> = Vec::new();
    std::mem::swap(&mut all, paths);
    let ghost given = views(all@);
    let mut i: usize = 0;
    assert(given.take(0) =~= Seq::<Seq<u8>>::empty());
    assert(views(paths@) =~= Seq::<Seq<u8>>::empty());
    while i < all.len()
        invariant
            i <= all@.len(),
            all@.len() == given.len(),
            wanted@ == normalized(to_keep@),
            forall|k: int| i <= k < given.len() ==> (#[trigger] all@[k])@ == given[k],
            views(paths@) == with_key(given.take(i as int), wanted@),
        decreases all@.len() - i,
    {
        let mut path: Vec<u8> = Vec::new();
        std::mem::swap(&mut path, &mut all[i]);
        let ghost before = views(paths@);
        assert(given.take(i + 1).drop_last() =~= given.take(i as int));
        let key = normalize_path(path.as_slice());
        if bytes_eq(key.as_slice(), wanted.as_slice()) {
            paths.push(path);
            assert(views(paths@) =~= before.push(given[i as int]));
        }
        i += 1;
    }
    assert(given.take(i as int) =~= given);
}

} // verus!
