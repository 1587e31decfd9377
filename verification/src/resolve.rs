//! Collision-safe output path resolution.
//!
//! A desired output path that already exists is replaced by the first
//! candidate `stem-1.ext`, `stem-2.ext`, ... that does not. Existence is
//! judged against a listing of the paths present at call time, handed in as
//! plain strings.

use vstd::prelude::*;
use crate::pathname::{
    last_index_of, lemma_last_index_of, lemma_last_index_of_append_absent,
    lemma_last_index_of_append_last, dir_prefix_of, file_name_of, name_has_ext, stem_of, ext_of,
    rfind_char, path_views,
};

verus! {

/// The decimal digit character for `d` (`d < 10`).
pub open spec fn digit_char(d: nat) -> char {
    if d == 0 {
        '0'
    } else if d == 1 {
        '1'
    } else if d == 2 {
        '2'
    } else if d == 3 {
        '3'
    } else if d == 4 {
        '4'
    } else if d == 5 {
        '5'
    } else if d == 6 {
        '6'
    } else if d == 7 {
        '7'
    } else if d == 8 {
        '8'
    } else {
        '9'
    }
}

/// The decimal digit characters of `n`, most significant first, no leading
/// zeros (a single `0` for zero).
pub open spec fn dec_digits(n: nat) -> Seq<char>
    decreases n,
{
    if n < 10 {
        seq![digit_char(n)]
    } else {
        dec_digits(n / 10) + seq![digit_char(n % 10)]
    }
}

/// The value a decimal digit character stands for.
pub open spec fn digit_val(c: char) -> nat {
    if c == '0' {
        0
    } else if c == '1' {
        1
    } else if c == '2' {
        2
    } else if c == '3' {
        3
    } else if c == '4' {
        4
    } else if c == '5' {
        5
    } else if c == '6' {
        6
    } else if c == '7' {
        7
    } else if c == '8' {
        8
    } else {
        9
    }
}

/// The number a digit string stands for.
pub open spec fn dec_val(s: Seq<char>) -> nat
    decreases s.len(),
{
    if s.len() == 0 {
        0
    } else {
        dec_val(s.drop_last()) * 10 + digit_val(s.last())
    }
}

pub proof fn lemma_dec_digits_val(n: nat)
    ensures
        dec_val(dec_digits(n)) == n,
    decreases n,
{
    if n < 10 {
        assert(dec_digits(n).drop_last() =~= Seq::<char>::empty());
        assert(dec_digits(n).last() == digit_char(n));
        assert(dec_val(Seq::<char>::empty()) == 0);
        assert(dec_val(dec_digits(n)) == 0 * 10 + digit_val(digit_char(n)));
    } else {
        lemma_dec_digits_val(n / 10);
        assert((dec_digits(n / 10) + seq![digit_char(n % 10)]).drop_last() =~= dec_digits(
            n / 10,
        ));
        assert((dec_digits(n / 10) + seq![digit_char(n % 10)]).last() == digit_char(n % 10));
        assert(dec_val(dec_digits(n)) == dec_val(dec_digits(n / 10)) * 10 + digit_val(
            digit_char(n % 10),
        ));
        assert(digit_val(digit_char(n % 10)) == n % 10);
        assert(n / 10 * 10 + n % 10 == n) by {
            vstd::arithmetic::div_mod::lemma_fundamental_div_mod(n as int, 10);
        }
    }
}

/// Distinct numbers have distinct digit strings.
pub proof fn lemma_dec_digits_injective(a: nat, b: nat)
    requires
        dec_digits(a) == dec_digits(b),
    ensures
        a == b,
{
    lemma_dec_digits_val(a);
    lemma_dec_digits_val(b);
}

/// Whether `c` is a decimal digit character.
pub open spec fn is_digit_char(c: char) -> bool {
    c == '0' || c == '1' || c == '2' || c == '3' || c == '4' || c == '5' || c == '6' || c == '7'
        || c == '8' || c == '9'
}

pub proof fn lemma_dec_digits_chars(n: nat)
    ensures
        dec_digits(n).len() >= 1,
        forall|j: int| 0 <= j < dec_digits(n).len() ==> is_digit_char(#[trigger] dec_digits(n)[j]),
    decreases n,
{
    if n < 10 {
    } else {
        lemma_dec_digits_chars(n / 10);
    }
}

/// The `k`-th collision candidate for a desired path: directory prefix kept,
/// `-k` appended to the stem, extension kept.
pub open spec fn candidate_of(p: Seq<char>, k: nat) -> Seq<char> {
    dir_prefix_of(p) + stem_of(file_name_of(p)) + seq!['-'] + dec_digits(k) + seq!['.'] + ext_of(
        file_name_of(p),
    )
}

/// Distinct counters give distinct candidates for one desired path.
pub proof fn lemma_candidate_injective(p: Seq<char>, i: nat, j: nat)
    requires
        candidate_of(p, i) == candidate_of(p, j),
    ensures
        i == j,
{
    let pre = dir_prefix_of(p) + stem_of(file_name_of(p)) + seq!['-'];
    let suf = seq!['.'] + ext_of(file_name_of(p));
    let di = dec_digits(i);
    let dj = dec_digits(j);
    assert(candidate_of(p, i) =~= pre + di + suf);
    assert(candidate_of(p, j) =~= pre + dj + suf);
    assert(di.len() == dj.len());
    assert(di =~= (pre + di + suf).subrange(pre.len() as int, pre.len() + di.len() as int));
    assert(dj =~= (pre + dj + suf).subrange(pre.len() as int, pre.len() + dj.len() as int));
    lemma_dec_digits_injective(i, j);
}

/// What the resolver promises: `r` does not occur in the listing; it is the
/// desired path itself when that is free, and otherwise the candidate with
/// the least counter that is free, every smaller counter's candidate being
/// taken.
pub open spec fn resolve_ok(base: Seq<char>, paths: Seq<Seq<char>>, r: Seq<char>) -> bool {
    &&& !paths.contains(r)
    &&& (!paths.contains(base) ==> r == base)
    &&& (paths.contains(base) ==> exists|k: nat|
        1 <= k && r == #[trigger] candidate_of(base, k) && (forall|j: nat|
            1 <= j < k ==> paths.contains(#[trigger] candidate_of(base, j))))
}

/// The path resolution returns, as a function of the desired path and the
/// listing; `resolve_ok` has exactly one solution.
pub open spec fn resolved_path(base: Seq<char>, paths: Seq<Seq<char>>) -> Seq<char> {
    choose|r: Seq<char>| resolve_ok(base, paths, r)
}

/// If every candidate with counter `1..=k` is taken, the listing holds at
/// least `k` entries: the candidates are pairwise distinct.
pub proof fn lemma_candidates_bound(base: Seq<char>, paths: Seq<Seq<char>>, k: nat)
    requires
        forall|j: nat| 1 <= j <= k ==> paths.contains(#[trigger] candidate_of(base, j)),
    ensures
        k <= paths.len(),
{
    broadcast use vstd::seq_lib::seq_to_set_is_finite;

    let f = |j: int| candidate_of(base, j as nat);
    let idxs = vstd::set_lib::set_int_range(1, k as int + 1);
    vstd::set_lib::lemma_int_range(1, k as int + 1);
    let cands = idxs.map(f);
    assert(vstd::relations::injective_on(f, idxs)) by {
        assert forall|x: int, y: int|
            idxs.contains(x) && idxs.contains(y) && #[trigger] f(x) == #[trigger] f(y) implies x
            == y by {
            lemma_candidate_injective(base, x as nat, y as nat);
        }
    }
    vstd::set_lib::lemma_map_size(idxs, cands, f);
    assert forall|q: Seq<char>| cands.contains(q) implies paths.to_set().contains(q) by {
        let j = choose|j: int| idxs.contains(j) && q == f(j);
        assert(paths.contains(q));
    }
    vstd::set_lib::lemma_len_subset(cands, paths.to_set());
    paths.lemma_cardinality_of_set();
}

/// Some path always satisfies `resolve_ok`: either the desired path is free,
/// or, walking the counters up, a free candidate is met before counter
/// `paths.len() + 1`.
pub proof fn lemma_resolve_exists(base: Seq<char>, paths: Seq<Seq<char>>)
    ensures
        exists|r: Seq<char>| #[trigger] resolve_ok(base, paths, r),
{
    if !paths.contains(base) {
        assert(resolve_ok(base, paths, base));
    } else {
        lemma_first_free_candidate(base, paths, 1);
        let k = choose|k: nat|
            1 <= k && !paths.contains(#[trigger] candidate_of(base, k)) && (forall|j: nat|
                1 <= j < k ==> paths.contains(#[trigger] candidate_of(base, j)));
        assert(resolve_ok(base, paths, candidate_of(base, k)));
    }
}

/// Walking the counters up from a point below which every candidate is
/// taken, a free candidate is met.
proof fn lemma_first_free_candidate(base: Seq<char>, paths: Seq<Seq<char>>, k: nat)
    requires
        1 <= k,
        forall|j: nat| 1 <= j < k ==> paths.contains(#[trigger] candidate_of(base, j)),
    ensures
        exists|kk: nat|
            1 <= kk && !paths.contains(#[trigger] candidate_of(base, kk)) && (forall|j: nat|
                1 <= j < kk ==> paths.contains(#[trigger] candidate_of(base, j))),
    decreases paths.len() + 2 - k,
{
    if !paths.contains(candidate_of(base, k)) {
    } else {
        lemma_candidates_bound(base, paths, k);
        lemma_first_free_candidate(base, paths, k + 1);
    }
}

/// `resolve_ok` pins the result down: two solutions are equal.
pub proof fn lemma_resolve_unique(
    base: Seq<char>,
    paths: Seq<Seq<char>>,
    r1: Seq<char>,
    r2: Seq<char>,
)
    requires
        resolve_ok(base, paths, r1),
        resolve_ok(base, paths, r2),
    ensures
        r1 == r2,
{
    if paths.contains(base) {
        let k1 = choose|k: nat|
            1 <= k && r1 == #[trigger] candidate_of(base, k) && (forall|j: nat|
                1 <= j < k ==> paths.contains(#[trigger] candidate_of(base, j)));
        let k2 = choose|k: nat|
            1 <= k && r2 == #[trigger] candidate_of(base, k) && (forall|j: nat|
                1 <= j < k ==> paths.contains(#[trigger] candidate_of(base, j)));
        if k1 < k2 {
            assert(paths.contains(candidate_of(base, k1)));
        } else if k2 < k1 {
            assert(paths.contains(candidate_of(base, k2)));
        }
    }
}

/// Whatever satisfies `resolve_ok` is `resolved_path`.
pub proof fn lemma_resolved_path_is(base: Seq<char>, paths: Seq<Seq<char>>, r: Seq<char>)
    requires
        resolve_ok(base, paths, r),
    ensures
        resolved_path(base, paths) == r,
{
    lemma_resolve_unique(base, paths, resolved_path(base, paths), r);
}

/// A candidate keeps the desired path's directory prefix and extension and
/// extends its stem by `-` and the counter's digits.
pub proof fn lemma_candidate_shape(base: Seq<char>, k: nat)
    requires
        name_has_ext(file_name_of(base)),
    ensures
        dir_prefix_of(candidate_of(base, k)) == dir_prefix_of(base),
        file_name_of(candidate_of(base, k)) == stem_of(file_name_of(base)) + seq!['-']
            + dec_digits(k) + seq!['.'] + ext_of(file_name_of(base)),
        name_has_ext(file_name_of(candidate_of(base, k))),
        ext_of(file_name_of(candidate_of(base, k))) == ext_of(file_name_of(base)),
        stem_of(file_name_of(candidate_of(base, k))) == stem_of(file_name_of(base)) + seq!['-']
            + dec_digits(k),
{
    let ls = last_index_of(base, '/');
    let name = file_name_of(base);
    let ld = last_index_of(name, '.');
    let stem = stem_of(name);
    let ext = ext_of(name);
    let pre = dir_prefix_of(base);
    let digits = dec_digits(k);
    let nm = stem + seq!['-'] + digits + seq!['.'] + ext;
    let c = candidate_of(base, k);
    lemma_last_index_of(base, '/');
    lemma_last_index_of(name, '.');
    lemma_dec_digits_chars(k);
    assert(c =~= pre + nm);
    // the file name of `base` holds no '/', so neither do its stem and extension
    assert forall|j: int| 0 <= j < name.len() implies name[j] != '/' by {
        assert(name[j] == base[ls + 1 + j]);
    }
    assert(forall|j: int| 0 <= j < nm.len() ==> nm[j] != '/');
    lemma_last_index_of_append_absent(pre, nm, '/');
    if ls >= 0 {
        assert(pre[pre.len() - 1] == base[ls]);
        assert(last_index_of(pre, '/') == pre.len() - 1);
        assert(last_index_of(c, '/') == ls);
    } else {
        assert(pre =~= Seq::<char>::empty());
        assert(last_index_of(c, '/') == -1);
    }
    assert(dir_prefix_of(c) =~= pre);
    assert(file_name_of(c) =~= nm);
    // the extension of `base`'s file name holds no '.', so the last '.' of the
    // candidate's file name is the one written before the extension
    let front = stem + seq!['-'] + digits + seq!['.'];
    assert(nm =~= front + ext);
    assert forall|j: int| 0 <= j < ext.len() implies ext[j] != '.' by {
        assert(ext[j] == name[ld + 1 + j]);
    }
    lemma_last_index_of_append_absent(front, ext, '.');
    assert(front[front.len() - 1] == '.');
    assert(last_index_of(front, '.') == front.len() - 1);
    assert(last_index_of(nm, '.') == stem.len() + 1 + digits.len());
    assert(stem.len() == ld);
    assert(name_has_ext(nm));
    assert(stem_of(nm) =~= stem + seq!['-'] + digits);
    assert(ext_of(nm) =~= ext);
}

/// Law: the resolved path is never one of the existing paths; it keeps the
/// desired path's directory prefix and extension and its stem extends the
/// desired path's stem; a free desired path comes back unchanged.
pub proof fn lemma_resolved_shape(base: Seq<char>, paths: Seq<Seq<char>>, r: Seq<char>)
    requires
        name_has_ext(file_name_of(base)),
        resolve_ok(base, paths, r),
    ensures
        !paths.contains(r),
        !paths.contains(base) ==> r == base,
        dir_prefix_of(r) == dir_prefix_of(base),
        name_has_ext(file_name_of(r)),
        ext_of(file_name_of(r)) == ext_of(file_name_of(base)),
        stem_of(file_name_of(r)).len() >= stem_of(file_name_of(base)).len(),
        stem_of(file_name_of(r)).take(stem_of(file_name_of(base)).len() as int) == stem_of(
            file_name_of(base),
        ),
{
    let stem = stem_of(file_name_of(base));
    if paths.contains(base) {
        let k = choose|k: nat|
            1 <= k && r == #[trigger] candidate_of(base, k) && (forall|j: nat|
                1 <= j < k ==> paths.contains(#[trigger] candidate_of(base, j)));
        lemma_candidate_shape(base, k);
        assert(stem_of(file_name_of(r)).take(stem.len() as int) =~= stem);
    } else {
        assert(stem_of(file_name_of(r)).take(stem.len() as int) =~= stem);
    }
}

/// Law: resolution never repeats. Once a resolved path is part of the
/// listing, resolving the same desired path against that listing gives a
/// different path.
pub proof fn lemma_resolution_never_repeats(
    base: Seq<char>,
    grown: Seq<Seq<char>>,
    r1: Seq<char>,
    r2: Seq<char>,
)
    requires
        grown.contains(r1),
        resolve_ok(base, grown, r2),
    ensures
        r2 != r1,
{
}

/// One decimal digit as a string.
fn digit_str(d: u64) -> (r: &'static str)
    requires
        d < 10,
    ensures
        r@ == seq![digit_char(d as nat)],
{
    let r: &'static str = if d == 0 {
        "0"
    } else if d == 1 {
        "1"
    } else if d == 2 {
        "2"
    } else if d == 3 {
        "3"
    } else if d == 4 {
        "4"
    } else if d == 5 {
        "5"
    } else if d == 6 {
        "6"
    } else if d == 7 {
        "7"
    } else if d == 8 {
        "8"
    } else {
        "9"
    };
    proof {
        reveal_strlit("0");
        reveal_strlit("1");
        reveal_strlit("2");
        reveal_strlit("3");
        reveal_strlit("4");
        reveal_strlit("5");
        reveal_strlit("6");
        reveal_strlit("7");
        reveal_strlit("8");
        reveal_strlit("9");
        assert(r@ =~= seq![digit_char(d as nat)]);
    }
    r
}

/// `n` written in decimal.
pub fn dec_string(n: u64) -> (r: String)
    ensures
        r@ == dec_digits(n as nat),
    decreases n,
{
    let d: u64 = n % 10;
    let ds = digit_str(d);
    if n < 10 {
        let r = ds.to_owned();
        assert(r@ =~= dec_digits(n as nat));
        r
    } else {
        let r = dec_string(n / 10).concat(ds);
        assert(r@ =~= dec_digits(n as nat));
        r
    }
}

/// The `k`-th collision candidate for `p`, as `candidate_of` describes.
pub fn candidate_path(p: &str, k: u64) -> (r: String)
    requires
        name_has_ext(file_name_of(p@)),
    ensures
        r@ == candidate_of(p@, k as nat),
{
    proof {
        reveal_strlit("-");
        reveal_strlit(".");
        lemma_last_index_of(p@, '/');
    }
    let n = p.unicode_len();
    let name_start: usize = match rfind_char(p, '/') {
        Some(i) => i + 1,
        None => 0,
    };
    let name = p.substring_char(name_start, n);
    assert(name@ =~= file_name_of(p@));
    let m = name.unicode_len();
    proof {
        lemma_last_index_of(name@, '.');
    }
    let dot: usize = match rfind_char(name, '.') {
        Some(d) => d,
        None => {
            proof {
                assert(false);
            }
            0
        },
    };
    let prefix = p.substring_char(0, name_start);
    assert(prefix@ =~= dir_prefix_of(p@));
    let stem = name.substring_char(0, dot);
    assert(stem@ =~= stem_of(file_name_of(p@)));
    let ext = name.substring_char(dot + 1, m);
    assert(ext@ =~= ext_of(file_name_of(p@)));
    let num = dec_string(k);
    let r = prefix.to_owned().concat(stem).concat("-").concat(num.as_str()).concat(".").concat(
        ext,
    );
    assert(r@ =~= candidate_of(p@, k as nat));
    r
}

/// Whether `p` occurs in the listing.
pub fn contains_path(existing: &Vec<String>, p: &str) -> (r: bool)
    ensures
        r == path_views(existing@).contains(p@),
{
    let po = p.to_owned();
    let mut i: usize = 0;
    while i < existing.len()
        invariant
            i <= existing@.len(),
            po@ == p@,
            forall|j: int| 0 <= j < i ==> existing@[j]@ != p@,
        decreases existing@.len() - i,
    {
        if existing[i] == po {
            assert(path_views(existing@)[i as int] == p@);
            return true;
        }
        i = i + 1;
    }
    assert forall|j: int| 0 <= j < existing@.len() implies path_views(existing@)[j] != p@ by {
        assert(path_views(existing@)[j] == existing@[j]@);
    }
    false
}

/// The original desired path when it is free, and otherwise the first
/// collision candidate (counter starting at 1) that is free. A free desired
/// path comes back unchanged whatever its name; only a taken one must carry
/// an extension for the counter to go before.
pub fn get_available_file_path(base: &str, existing: &Vec<String>) -> (r: String)
    requires
        path_views(existing@).contains(base@) ==> name_has_ext(file_name_of(base@)),
        existing@.len() < usize::MAX,
    ensures
        resolve_ok(base@, path_views(existing@), r@),
        r@ == resolved_path(base@, path_views(existing@)),
{
    let ghost paths = path_views(existing@);
    if !contains_path(existing, base) {
        proof {
            lemma_resolved_path_is(base@, paths, base@);
        }
        return base.to_owned();
    }
    let mut k: usize = 1;
    loop
        invariant
            1 <= k <= paths.len() + 1,
            paths == path_views(existing@),
            name_has_ext(file_name_of(base@)),
            existing@.len() < usize::MAX,
            paths.len() == existing@.len(),
            paths.contains(base@),
            forall|j: nat| 1 <= j < k ==> paths.contains(#[trigger] candidate_of(base@, j)),
        decreases paths.len() + 1 - k,
    {
        let cand = candidate_path(base, k as u64);
        if !contains_path(existing, cand.as_str()) {
            proof {
                assert(resolve_ok(base@, paths, cand@));
                lemma_resolved_path_is(base@, paths, cand@);
            }
            return cand;
        }
        proof {
            lemma_candidates_bound(base@, paths, k as nat);
        }
        k = k + 1;
    }
}

} // verus!
