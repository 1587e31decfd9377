//! Path strings: `/`-separated paths, file names, stems and extensions.
//!
//! A path is modelled as its sequence of characters. The file name is
//! everything after the last `/` (the whole path if there is none); a file
//! name has an extension exactly when its last `.` is preceded by at least
//! one character, in which case the stem is what stands before that `.` and
//! the extension what stands after it.

use vstd::prelude::*;

verus! {

/// Index of the last occurrence of `c` in `s`, or `-1` if `c` does not occur.
pub open spec fn last_index_of(s: Seq<char>, c: char) -> int
    decreases s.len(),
{
    if s.len() == 0 {
        -1
    } else if s[s.len() - 1] == c {
        s.len() - 1
    } else {
        last_index_of(s.drop_last(), c)
    }
}

pub proof fn lemma_last_index_of(s: Seq<char>, c: char)
    ensures
        -1 <= last_index_of(s, c) < s.len(),
        last_index_of(s, c) >= 0 ==> s[last_index_of(s, c)] == c,
        forall|j: int| last_index_of(s, c) < j < s.len() ==> s[j] != c,
    decreases s.len(),
{
    if s.len() == 0 {
    } else if s[s.len() - 1] == c {
    } else {
        lemma_last_index_of(s.drop_last(), c);
        assert forall|j: int| last_index_of(s, c) < j < s.len() implies s[j] != c by {
            if j < s.len() - 1 {
                assert(s.drop_last()[j] == s[j]);
            }
        }
    }
}

/// `last_index_of` is the unique position that carries `c` with none after it.
pub proof fn lemma_last_index_of_unique(s: Seq<char>, c: char, i: int)
    requires
        0 <= i < s.len(),
        s[i] == c,
        forall|j: int| i < j < s.len() ==> s[j] != c,
    ensures
        last_index_of(s, c) == i,
    decreases s.len(),
{
    if i == s.len() - 1 {
    } else {
        assert(s[s.len() - 1] != c);
        assert(s.drop_last()[i] == s[i]);
        assert forall|j: int| i < j < s.drop_last().len() implies s.drop_last()[j] != c by {
            assert(s.drop_last()[j] == s[j]);
        }
        lemma_last_index_of_unique(s.drop_last(), c, i);
    }
}

/// If `c` occurs nowhere in `s`, `last_index_of` is `-1`.
pub proof fn lemma_last_index_of_absent(s: Seq<char>, c: char)
    requires
        forall|j: int| 0 <= j < s.len() ==> s[j] != c,
    ensures
        last_index_of(s, c) == -1,
{
    lemma_last_index_of(s, c);
    if last_index_of(s, c) >= 0 {
        assert(s[last_index_of(s, c)] == c);
    }
}

/// Appending a block free of `c` does not move the last occurrence of `c`.
pub proof fn lemma_last_index_of_append_absent(a: Seq<char>, b: Seq<char>, c: char)
    requires
        forall|j: int| 0 <= j < b.len() ==> b[j] != c,
    ensures
        last_index_of(a + b, c) == last_index_of(a, c),
    decreases b.len(),
{
    if b.len() == 0 {
        assert(a + b =~= a);
    } else {
        let t = a + b;
        assert(t[t.len() - 1] == b[b.len() - 1]);
        assert(t.drop_last() =~= a + b.drop_last());
        lemma_last_index_of_append_absent(a, b.drop_last(), c);
    }
}

/// Appending a block that ends in `c` puts the last occurrence at its end.
pub proof fn lemma_last_index_of_append_last(a: Seq<char>, b: Seq<char>, c: char)
    requires
        b.len() > 0,
        b[b.len() - 1] == c,
    ensures
        last_index_of(a + b, c) == a.len() + b.len() - 1,
{
    let t = a + b;
    assert(t[t.len() - 1] == c);
}

/// Everything up to and including the last `/` (empty if there is none).
pub open spec fn dir_prefix_of(p: Seq<char>) -> Seq<char> {
    p.take(last_index_of(p, '/') + 1)
}

/// Everything after the last `/` (the whole path if there is none).
pub open spec fn file_name_of(p: Seq<char>) -> Seq<char> {
    p.skip(last_index_of(p, '/') + 1)
}

/// A file name carries an extension when its last `.` has at least one
/// character before it.
pub open spec fn name_has_ext(f: Seq<char>) -> bool {
    last_index_of(f, '.') >= 1
}

/// The stem of a file name: what stands before the last `.`, or the whole
/// name when there is no extension.
pub open spec fn stem_of(f: Seq<char>) -> Seq<char> {
    if name_has_ext(f) {
        f.take(last_index_of(f, '.'))
    } else {
        f
    }
}

/// The extension of a file name: what stands after the last `.`, empty when
/// there is no extension.
pub open spec fn ext_of(f: Seq<char>) -> Seq<char> {
    if name_has_ext(f) {
        f.skip(last_index_of(f, '.') + 1)
    } else {
        Seq::empty()
    }
}

/// `p` with the extension of its file name replaced by `e`: the directory
/// prefix, then the stem of the file name, then `.`, then `e`.
pub open spec fn replaced_ext(p: Seq<char>, e: Seq<char>) -> Seq<char> {
    dir_prefix_of(p) + stem_of(file_name_of(p)) + seq!['.'] + e
}

/// Joining path components: empty sides vanish, a single `/` separates
/// otherwise (none is added after a trailing `/`).
pub open spec fn joined(a: Seq<char>, b: Seq<char>) -> Seq<char> {
    if b.len() == 0 {
        a
    } else if a.len() == 0 {
        b
    } else if a[a.len() - 1] == '/' {
        a + b
    } else {
        a + seq!['/'] + b
    }
}

/// The character sequences of a listing of path strings.
pub open spec fn path_views(v: Seq<String>) -> Seq<Seq<char>> {
    v.map_values(|s: String| s@)
}

/// Index of the last occurrence of `c` in `s`, if any.
pub fn rfind_char(s: &str, c: char) -> (r: Option<usize>)
    ensures
        match r {
            Some(i) => i < s@.len() && last_index_of(s@, c) == i,
            None => last_index_of(s@, c) == -1,
        },
{
    let n = s.unicode_len();
    let mut i = n;
    while i > 0
        invariant
            i <= n,
            n == s@.len(),
            forall|j: int| i <= j < s@.len() ==> s@[j] != c,
        decreases i,
    {
        i = i - 1;
        let ch = s.get_char(i);
        if ch == c {
            proof {
                lemma_last_index_of_unique(s@, c, i as int);
            }
            return Some(i);
        }
    }
    proof {
        lemma_last_index_of_absent(s@, c);
    }
    None
}

/// The file name of `p`, as a fresh string.
pub fn file_name(p: &str) -> (r: String)
    ensures
        r@ == file_name_of(p@),
{
    let n = p.unicode_len();
    match rfind_char(p, '/') {
        Some(i) => {
            let r = p.substring_char(i + 1, n).to_owned();
            assert(r@ =~= file_name_of(p@));
            r
        },
        None => {
            let r = p.to_owned();
            assert(r@ =~= file_name_of(p@));
            r
        },
    }
}

/// `a` joined with `b`, as `joined` describes.
pub fn join(a: &str, b: &str) -> (r: String)
    ensures
        r@ == joined(a@, b@),
{
    proof {
        reveal_strlit("/");
    }
    if b.unicode_len() == 0 {
        a.to_owned()
    } else if a.unicode_len() == 0 {
        b.to_owned()
    } else {
        let last = a.get_char(a.unicode_len() - 1);
        if last == '/' {
            a.to_owned().concat(b)
        } else {
            let r = a.to_owned().concat("/").concat(b);
            assert(r@ =~= a@ + seq!['/'] + b@);
            r
        }
    }
}

/// `p` with its file name's extension replaced by `e`.
pub fn replace_ext(p: &str, e: &str) -> (r: String)
    ensures
        r@ == replaced_ext(p@, e@),
{
    proof {
        reveal_strlit(".");
        lemma_last_index_of(p@, '/');
    }
    let n = p.unicode_len();
    let name_start: usize = match rfind_char(p, '/') {
        Some(i) => i + 1,
        None => 0,
    };
    let name = p.substring_char(name_start, n);
    assert(name@ =~= file_name_of(p@));
    let m = name.unicode_len();
    let stem_end: usize = match rfind_char(name, '.') {
        Some(d) => {
            if d >= 1 {
                d
            } else {
                m
            }
        },
        None => m,
    };
    assert(name@.take(stem_end as int) =~= stem_of(file_name_of(p@)));
    let prefix = p.substring_char(0, name_start);
    assert(prefix@ =~= dir_prefix_of(p@));
    let stem = name.substring_char(0, stem_end);
    let r = prefix.to_owned().concat(stem).concat(".").concat(e);
    assert(r@ =~= replaced_ext(p@, e@));
    r
}

/// A path's file name holds no `/`.
pub proof fn lemma_file_name_no_slash(p: Seq<char>)
    ensures
        forall|j: int| 0 <= j < file_name_of(p).len() ==> file_name_of(p)[j] != '/',
{
    lemma_last_index_of(p, '/');
    let ls = last_index_of(p, '/');
    assert forall|j: int| 0 <= j < file_name_of(p).len() implies file_name_of(p)[j] != '/' by {
        assert(file_name_of(p)[j] == p[ls + 1 + j]);
    }
}

/// Joining a nonempty component onto `a` keeps `a` as a strict prefix.
pub proof fn lemma_joined_starts(a: Seq<char>, b: Seq<char>)
    requires
        b.len() > 0,
    ensures
        joined(a, b).len() > a.len(),
        joined(a, b).take(a.len() as int) == a,
{
    if a.len() == 0 {
        assert(joined(a, b).take(0) =~= a);
    } else if a[a.len() - 1] == '/' {
        assert((a + b).take(a.len() as int) =~= a);
    } else {
        assert((a + seq!['/'] + b).take(a.len() as int) =~= a);
    }
}

/// Joining a nonempty slash-free component makes it the file name.
pub proof fn lemma_joined_file_name(a: Seq<char>, b: Seq<char>)
    requires
        b.len() > 0,
        forall|j: int| 0 <= j < b.len() ==> b[j] != '/',
    ensures
        file_name_of(joined(a, b)) == b,
        dir_prefix_of(joined(a, b)) == (if a.len() == 0 {
            Seq::<char>::empty()
        } else if a[a.len() - 1] == '/' {
            a
        } else {
            a + seq!['/']
        }),
{
    let t = joined(a, b);
    if a.len() == 0 {
        lemma_last_index_of_absent(b, '/');
        assert(file_name_of(t) =~= b);
        assert(dir_prefix_of(t) =~= Seq::<char>::empty());
    } else if a[a.len() - 1] == '/' {
        lemma_last_index_of_append_absent(a, b, '/');
        assert(last_index_of(a, '/') == a.len() - 1);
        assert(file_name_of(t) =~= b);
        assert(dir_prefix_of(t) =~= a);
    } else {
        assert(t == a + seq!['/'] + b);
        assert(t =~= (a + seq!['/']) + b);
        lemma_last_index_of_append_absent(a + seq!['/'], b, '/');
        lemma_last_index_of_append_last(a, seq!['/'], '/');
        assert(last_index_of(t, '/') == a.len());
        assert(file_name_of(t) =~= b);
        assert(dir_prefix_of(t) =~= a + seq!['/']);
    }
}

/// Replacing the extension keeps the directory prefix and the stem, and the
/// new file name carries exactly the new extension, provided the file name
/// is nonempty and the new extension holds neither `/` nor `.`.
pub proof fn lemma_replaced_ext_shape(p: Seq<char>, e: Seq<char>)
    requires
        file_name_of(p).len() > 0,
        forall|j: int| 0 <= j < e.len() ==> e[j] != '/' && e[j] != '.',
    ensures
        dir_prefix_of(replaced_ext(p, e)) == dir_prefix_of(p),
        file_name_of(replaced_ext(p, e)) == stem_of(file_name_of(p)) + seq!['.'] + e,
        name_has_ext(file_name_of(replaced_ext(p, e))),
        ext_of(file_name_of(replaced_ext(p, e))) == e,
        stem_of(file_name_of(replaced_ext(p, e))) == stem_of(file_name_of(p)),
{
    let ls = last_index_of(p, '/');
    let name = file_name_of(p);
    let stem = stem_of(name);
    let pre = dir_prefix_of(p);
    let nm = stem + seq!['.'] + e;
    let r = replaced_ext(p, e);
    lemma_last_index_of(p, '/');
    lemma_last_index_of(name, '.');
    lemma_file_name_no_slash(p);
    assert(r =~= pre + nm);
    assert(stem.len() >= 1);
    assert(forall|j: int| 0 <= j < nm.len() ==> nm[j] != '/');
    lemma_last_index_of_append_absent(pre, nm, '/');
    if ls >= 0 {
        assert(pre[pre.len() - 1] == p[ls]);
        assert(last_index_of(pre, '/') == pre.len() - 1);
        assert(last_index_of(r, '/') == ls);
    } else {
        assert(pre =~= Seq::<char>::empty());
        assert(last_index_of(r, '/') == -1);
    }
    assert(dir_prefix_of(r) =~= pre);
    assert(file_name_of(r) =~= nm);
    let front = stem + seq!['.'];
    assert(nm =~= front + e);
    lemma_last_index_of_append_absent(front, e, '.');
    assert(front[front.len() - 1] == '.');
    assert(last_index_of(front, '.') == front.len() - 1);
    assert(last_index_of(nm, '.') == stem.len());
    assert(name_has_ext(nm));
    assert(stem_of(nm) =~= stem);
    assert(ext_of(nm) =~= e);
}

/// Replacing the extension of a joined path is joining the renamed file
/// name: the shape behind structure mirroring.
pub proof fn lemma_replace_in_joined(a: Seq<char>, b: Seq<char>, e: Seq<char>)
    requires
        b.len() > 0,
        forall|j: int| 0 <= j < b.len() ==> b[j] != '/',
    ensures
        replaced_ext(joined(a, b), e) == joined(a, stem_of(b) + seq!['.'] + e),
{
    lemma_joined_file_name(a, b);
    let t = joined(a, b);
    let nm = stem_of(b) + seq!['.'] + e;
    assert(nm.len() > 0);
    assert(replaced_ext(t, e) == dir_prefix_of(t) + stem_of(b) + seq!['.'] + e);
    if a.len() == 0 {
        assert(replaced_ext(t, e) =~= nm);
        assert(joined(a, nm) == nm);
    } else if a[a.len() - 1] == '/' {
        assert(replaced_ext(t, e) =~= a + nm);
        assert(joined(a, nm) == a + nm);
    } else {
        assert(replaced_ext(t, e) =~= a + seq!['/'] + nm);
        assert(joined(a, nm) == a + seq!['/'] + nm);
    }
}

/// The directory part of a relative placement: what stands before the last
/// `/`, empty when there is none.
pub open spec fn parent_of(p: Seq<char>) -> Seq<char> {
    if last_index_of(p, '/') >= 0 {
        p.take(last_index_of(p, '/'))
    } else {
        Seq::empty()
    }
}

/// The directory part of `p`, as a fresh string.
pub fn parent_dir(p: &str) -> (r: String)
    ensures
        r@ == parent_of(p@),
{
    match rfind_char(p, '/') {
        Some(i) => {
            let r = p.substring_char(0, i).to_owned();
            assert(r@ =~= parent_of(p@));
            r
        },
        None => {
            let r = String::new();
            assert(r@ =~= parent_of(p@));
            r
        },
    }
}

} // verus!
