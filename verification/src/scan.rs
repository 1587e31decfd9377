//! Directory-scan filtering: which files a tree scan keeps, and the path of
//! each relative to the scan root.
//!
//! The unverified shell walks the directory tree and hands in every file
//! path it meets; this module keeps exactly those whose extension is a
//! supported image extension (letter case ignored) and strips the root
//! prefix off each kept path.

use vstd::prelude::*;
use crate::pathname::{
    file_name_of, name_has_ext, ext_of, rfind_char, lemma_last_index_of, path_views,
};

verus! {

/// One discovered image: its path and its path relative to the scan root.
#[derive(Clone)]
pub struct ImageInputData {
    pub path: String,
    pub tree_path: String,
}

pub struct ImageInputDataView {
    pub path: Seq<char>,
    pub tree_path: Seq<char>,
}

impl View for ImageInputData {
    type V = ImageInputDataView;

    open spec fn view(&self) -> ImageInputDataView {
        ImageInputDataView { path: self.path@, tree_path: self.tree_path@ }
    }
}

/// ASCII upper-case letters fold to lower case; everything else stays.
pub open spec fn lower_char(c: char) -> char {
    if c == 'A' {
        'a'
    } else if c == 'B' {
        'b'
    } else if c == 'C' {
        'c'
    } else if c == 'D' {
        'd'
    } else if c == 'E' {
        'e'
    } else if c == 'F' {
        'f'
    } else if c == 'G' {
        'g'
    } else if c == 'H' {
        'h'
    } else if c == 'I' {
        'i'
    } else if c == 'J' {
        'j'
    } else if c == 'K' {
        'k'
    } else if c == 'L' {
        'l'
    } else if c == 'M' {
        'm'
    } else if c == 'N' {
        'n'
    } else if c == 'O' {
        'o'
    } else if c == 'P' {
        'p'
    } else if c == 'Q' {
        'q'
    } else if c == 'R' {
        'r'
    } else if c == 'S' {
        's'
    } else if c == 'T' {
        't'
    } else if c == 'U' {
        'u'
    } else if c == 'V' {
        'v'
    } else if c == 'W' {
        'w'
    } else if c == 'X' {
        'x'
    } else if c == 'Y' {
        'y'
    } else if c == 'Z' {
        'z'
    } else {
        c
    }
}

/// `s` with every ASCII upper-case letter folded to lower case.
pub open spec fn lowered(s: Seq<char>) -> Seq<char> {
    s.map_values(|c: char| lower_char(c))
}

/// The supported image extensions, compared with letter case ignored.
pub open spec fn is_supported_ext(e: Seq<char>) -> bool {
    ||| lowered(e) == "png"@
    ||| lowered(e) == "jpg"@
    ||| lowered(e) == "jpeg"@
    ||| lowered(e) == "gif"@
    ||| lowered(e) == "webp"@
}

/// A scan keeps a file exactly when its name has a supported extension.
pub open spec fn wanted(p: Seq<char>) -> bool {
    name_has_ext(file_name_of(p)) && is_supported_ext(ext_of(file_name_of(p)))
}

/// `p` lies strictly under the directory `root`.
pub open spec fn under_root(p: Seq<char>, root: Seq<char>) -> bool {
    p.len() > root.len() + 1 && p.take(root.len() as int) == root && p[root.len() as int] == '/'
}

/// `p` with the prefix `root` and its separator stripped.
pub open spec fn rel_of(p: Seq<char>, root: Seq<char>) -> Seq<char> {
    p.skip(root.len() as int + 1)
}

/// The paths a scan of `files` keeps, in order.
pub open spec fn wanted_paths(files: Seq<String>) -> Seq<Seq<char>> {
    path_views(files).filter(|p: Seq<char>| wanted(p))
}

/// The paths of the scan entries, in order.
pub open spec fn entry_paths(out: Seq<ImageInputData>) -> Seq<Seq<char>> {
    out.map_values(|d: ImageInputData| d@.path)
}

/// `lower_char` folded over one character of the exec side.
fn to_lower(c: char) -> (r: char)
    ensures
        r == lower_char(c),
{
    if c == 'A' {
        'a'
    } else if c == 'B' {
        'b'
    } else if c == 'C' {
        'c'
    } else if c == 'D' {
        'd'
    } else if c == 'E' {
        'e'
    } else if c == 'F' {
        'f'
    } else if c == 'G' {
        'g'
    } else if c == 'H' {
        'h'
    } else if c == 'I' {
        'i'
    } else if c == 'J' {
        'j'
    } else if c == 'K' {
        'k'
    } else if c == 'L' {
        'l'
    } else if c == 'M' {
        'm'
    } else if c == 'N' {
        'n'
    } else if c == 'O' {
        'o'
    } else if c == 'P' {
        'p'
    } else if c == 'Q' {
        'q'
    } else if c == 'R' {
        'r'
    } else if c == 'S' {
        's'
    } else if c == 'T' {
        't'
    } else if c == 'U' {
        'u'
    } else if c == 'V' {
        'v'
    } else if c == 'W' {
        'w'
    } else if c == 'X' {
        'x'
    } else if c == 'Y' {
        'y'
    } else if c == 'Z' {
        'z'
    } else {
        c
    }
}

/// Whether `e` folded to lower case equals `lit`.
fn str_eq_lowered(e: &str, lit: &str) -> (r: bool)
    ensures
        r == (lowered(e@) == lit@),
{
    let n = e.unicode_len();
    if n != lit.unicode_len() {
        assert(lowered(e@).len() == e@.len());
        return false;
    }
    let mut i: usize = 0;
    while i < n
        invariant
            i <= n,
            n == e@.len() == lit@.len(),
            forall|j: int| 0 <= j < i ==> lowered(e@)[j] == lit@[j],
        decreases n - i,
    {
        let c = to_lower(e.get_char(i));
        if c != lit.get_char(i) {
            assert(lowered(e@)[i as int] != lit@[i as int]);
            return false;
        }
        i = i + 1;
    }
    assert(lowered(e@) =~= lit@);
    true
}

/// Whether `e` is one of the supported image extensions.
pub fn ext_supported(e: &str) -> (r: bool)
    ensures
        r == is_supported_ext(e@),
{
    if str_eq_lowered(e, "png") {
        true
    } else if str_eq_lowered(e, "jpg") {
        true
    } else if str_eq_lowered(e, "jpeg") {
        true
    } else if str_eq_lowered(e, "gif") {
        true
    } else {
        str_eq_lowered(e, "webp")
    }
}

/// Whether a scan keeps the file at `p`.
pub fn path_wanted(p: &str) -> (r: bool)
    ensures
        r == wanted(p@),
{
    proof {
        lemma_last_index_of(p@, '/');
    }
    let n = p.unicode_len();
    let name_start: usize = match rfind_char(p, '/') {
        Some(i) => i + 1,
        None => 0,
    };
    let name = p.substring_char(name_start, n);
    assert(name@ =~= file_name_of(p@));
    let m = name.unicode_len();
    match rfind_char(name, '.') {
        Some(d) => {
            if d >= 1 {
                let ext = name.substring_char(d + 1, m);
                assert(ext@ =~= ext_of(file_name_of(p@)));
                ext_supported(ext)
            } else {
                false
            }
        },
        None => false,
    }
}

/// The relative path of `p` under `root`, or `None` when `p` does not lie
/// strictly under `root`.
pub fn strip_root(p: &str, root: &str) -> (r: Option<String>)
    ensures
        match r {
            Some(t) => under_root(p@, root@) && t@ == rel_of(p@, root@),
            None => !under_root(p@, root@),
        },
{
    let n = p.unicode_len();
    let m = root.unicode_len();
    if n <= m {
        return None;
    }
    if n == m + 1 {
        return None;
    }
    let mut i: usize = 0;
    while i < m
        invariant
            i <= m,
            m == root@.len(),
            m + 1 < n == p@.len(),
            forall|j: int| 0 <= j < i ==> p@[j] == root@[j],
        decreases m - i,
    {
        if p.get_char(i) != root.get_char(i) {
            assert(p@.take(m as int)[i as int] != root@[i as int]);
            return None;
        }
        i = i + 1;
    }
    if p.get_char(m) != '/' {
        return None;
    }
    assert(p@.take(m as int) =~= root@);
    let t = p.substring_char(m + 1, n).to_owned();
    assert(t@ =~= rel_of(p@, root@));
    Some(t)
}

/// Appending one more listed file extends the kept paths by that file's path
/// exactly when the scan wants it.
proof fn lemma_wanted_paths_push(files: Seq<String>, i: int)
    requires
        0 <= i < files.len(),
    ensures
        wanted_paths(files.take(i + 1)) == if wanted(files[i]@) {
            wanted_paths(files.take(i)).push(files[i]@)
        } else {
            wanted_paths(files.take(i))
        },
{
    reveal(Seq::filter);
    let s1 = path_views(files.take(i + 1));
    let s0 = path_views(files.take(i));
    assert(s1.len() == i + 1);
    assert(s1.drop_last() =~= s0);
    assert(s1.last() == files[i]@);
}

/// The scan over a flat listing of file paths: keeps, in listing order,
/// exactly the files with a supported image extension, each paired with its
/// path relative to `root`; fails exactly when a kept file does not lie
/// strictly under `root`.
pub fn get_folder_file_paths(files: &Vec<String>, root: &str) -> (r: Result<
    Vec<ImageInputData>,
    String,
>)
    ensures
        match r {
            Ok(out) => {
                &&& entry_paths(out@) == wanted_paths(files@)
                &&& forall|i: int|
                    0 <= i < files@.len() && wanted(files@[i]@) ==> under_root(
                        files@[i]@,
                        root@,
                    )
                &&& forall|j: int|
                    0 <= j < out@.len() ==> under_root(#[trigger] out@[j]@.path, root@)
                        && out@[j]@.tree_path == rel_of(out@[j]@.path, root@) && wanted(
                        out@[j]@.path,
                    )
            },
            Err(_) => exists|i: int|
                0 <= i < files@.len() && wanted(#[trigger] files@[i]@) && !under_root(
                    files@[i]@,
                    root@,
                ),
        },
{
    let mut out: Vec<ImageInputData> = Vec::new();
    let mut i: usize = 0;
    while i < files.len()
        invariant
            i <= files@.len(),
            entry_paths(out@) == wanted_paths(files@.take(i as int)),
            forall|j: int| 0 <= j < i ==> wanted(files@[j]@) ==> under_root(files@[j]@, root@),
            forall|j: int|
                0 <= j < out@.len() ==> under_root(#[trigger] out@[j]@.path, root@)
                    && out@[j]@.tree_path == rel_of(out@[j]@.path, root@) && wanted(
                    out@[j]@.path,
                ),
        decreases files@.len() - i,
    {
        let f = &files[i];
        let keep = path_wanted(f.as_str());
        if keep {
            match strip_root(f.as_str(), root) {
                Some(t) => {
                    let entry = ImageInputData { path: f.clone(), tree_path: t };
                    let ghost before = out@;
                    out.push(entry);
                    proof {
                        assert(entry_paths(out@) =~= entry_paths(before).push(entry@.path));
                    }
                },
                None => {
                    return Err(String::from_str("a kept file lies outside the scan root"));
                },
            }
        }
        proof {
            lemma_wanted_paths_push(files@, i as int);
        }
        i = i + 1;
    }
    proof {
        assert(files@.take(files@.len() as int) =~= files@);
    }
    Ok(out)
}

/// Law: enumeration completeness. When the kept paths are exactly the wanted
/// ones, every listed file the scan wants appears among the entries.
pub proof fn lemma_scan_complete(files: Seq<String>, out: Seq<ImageInputData>, i: int)
    requires
        entry_paths(out) == wanted_paths(files),
        0 <= i < files.len(),
        wanted(files[i]@),
    ensures
        entry_paths(out).contains(files[i]@),
{
    assert(path_views(files)[i] == files[i]@);
    path_views(files).lemma_filter_contains(|p: Seq<char>| wanted(p), i);
}

} // verus!
