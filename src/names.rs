//! Extraction of test names from a discovery listing.
//!
//! A listing holds lines such as `module::inner::some_test: test`. A name is a
//! path of identifiers (`[A-Za-z0-9_]+`) joined by `::`, and it is followed by
//! the marker `: test`. The text is scanned left to right; each match yields its
//! path, and scanning resumes after the marker, so matches never overlap.
//! A marker with no path before it (a bare `: test`) yields no name.
use vstd::prelude::*;
use vstd::std_specs::iter::IteratorSpec;

verus! {

broadcast use vstd::string::group_string_axioms;

/// The marker that follows a test name in a discovery listing.
pub open spec fn marker() -> Seq<char> {
    seq![':', ' ', 't', 'e', 's', 't']
}

/// A character that may appear in an identifier segment of a test path.
pub open spec fn is_word(c: char) -> bool {
    ('a' <= c && c <= 'z') || ('A' <= c && c <= 'Z') || ('0' <= c && c <= '9') || c == '_'
}

/// The end of the run of identifier characters that starts at `i`.
pub open spec fn ident_end(t: Seq<char>, i: int) -> int
    decreases t.len() - i,
{
    if 0 <= i < t.len() && is_word(t[i]) {
        ident_end(t, i + 1)
    } else {
        i
    }
}

/// Whether `i` starts a `::` separator followed by another identifier.
pub open spec fn separator_at(t: Seq<char>, i: int) -> bool {
    0 <= i && i + 2 < t.len() && t[i] == ':' && t[i + 1] == ':' && is_word(t[i + 2])
}

/// The end of the longest path `ident(::ident)*` that starts at `i`.
pub open spec fn path_end(t: Seq<char>, i: int) -> int
    decreases t.len() - i,
{
    let j = ident_end(t, i);
    if i < j && separator_at(t, j) {
        path_end(t, j + 2)
    } else {
        j
    }
}

/// Whether the marker `: test` stands at position `i`.
pub open spec fn marker_at(t: Seq<char>, i: int) -> bool {
    0 <= i && i + 6 <= t.len() && t.subrange(i, i + 6) == marker()
}

/// Whether a match of the name pattern starts at `i`: a non-empty path that is
/// directly followed by the marker.
pub open spec fn match_at(t: Seq<char>, i: int) -> bool {
    0 <= i < t.len() && is_word(t[i]) && marker_at(t, path_end(t, i))
}

/// The names found by a non-overlapping left-to-right scan of `t` from `i`.
pub open spec fn names_from(t: Seq<char>, i: int) -> Seq<Seq<char>>
    decreases t.len() - i via names_from_decreases
{
    if i < 0 || i >= t.len() {
        Seq::empty()
    } else if match_at(t, i) {
        let e = path_end(t, i);
        seq![t.subrange(i, e)] + names_from(t, e + 6)
    } else {
        names_from(t, i + 1)
    }
}

#[via_fn]
proof fn names_from_decreases(t: Seq<char>, i: int) {
    if 0 <= i < t.len() && match_at(t, i) {
        lemma_path_end_bounds(t, i);
        lemma_ident_end_bounds(t, i);
    }
}

/// The test names of a discovery listing, in the order in which they appear.
pub open spec fn test_names(t: Seq<char>) -> Seq<Seq<char>> {
    names_from(t, 0)
}

/// The characters of `s`, in order.
pub fn chars_of(s: &str) -> (r: Vec<char>)
    ensures
        r@ == s@,
{
    let mut r: Vec<char> = Vec::new();
    for c in it: s.chars()
        invariant
            r@ == it.seq().take(it.index()),
    {
        r.push(c);
    }
    assert(r@ =~= s@);
    r
}


proof fn lemma_ident_end_bounds(t: Seq<char>, i: int)
    requires
        0 <= i <= t.len(),
    ensures
        i <= ident_end(t, i) <= t.len(),
        forall|k: int| i <= k < ident_end(t, i) ==> is_word(#[trigger] t[k]),
        ident_end(t, i) < t.len() ==> !is_word(t[ident_end(t, i)]),
    decreases t.len() - i,
{
    if i < t.len() && is_word(t[i]) {
        lemma_ident_end_bounds(t, i + 1);
    }
}

proof fn lemma_ident_end_inner(t: Seq<char>, i: int, k: int)
    requires
        0 <= i <= k < ident_end(t, i),
    ensures
        ident_end(t, k) == ident_end(t, i),
    decreases k - i,
{
    if k > i {
        lemma_ident_end_inner(t, i + 1, k);
    }
}

proof fn lemma_path_end_bounds(t: Seq<char>, i: int)
    requires
        0 <= i <= t.len(),
    ensures
        i <= ident_end(t, i) <= path_end(t, i) <= t.len(),
        path_end(t, i) > i ==> is_word(t[path_end(t, i) - 1]),
    decreases t.len() - i,
{
    lemma_ident_end_bounds(t, i);
    let j = ident_end(t, i);
    if i < j && separator_at(t, j) {
        lemma_path_end_bounds(t, j + 2);
        lemma_ident_end_bounds(t, j + 2);
    }
}

/// Every identifier character inside the path that starts at `i` starts a
/// path with the same end.
proof fn lemma_path_end_inner(t: Seq<char>, i: int, k: int)
    requires
        0 <= i <= k < path_end(t, i),
        k < t.len(),
        is_word(t[i]),
        is_word(t[k]),
    ensures
        path_end(t, k) == path_end(t, i),
    decreases t.len() - i,
{
    lemma_ident_end_bounds(t, i);
    let j = ident_end(t, i);
    if k < j {
        lemma_ident_end_inner(t, i, k);
    } else {
        lemma_path_end_bounds(t, j + 2);
        lemma_path_end_inner(t, j + 2, k);
    }
}

/// Where no match starts at an identifier character, none starts anywhere in
/// the path that begins there, and the scan may resume at its end.
proof fn lemma_skip_path(t: Seq<char>, i: int)
    requires
        0 <= i < t.len(),
        is_word(t[i]),
        !match_at(t, i),
    ensures
        i < path_end(t, i),
        names_from(t, i) == names_from(t, path_end(t, i)),
{
    lemma_ident_end_bounds(t, i);
    lemma_path_end_bounds(t, i);
    lemma_skip_tail(t, i, i + 1);
}

proof fn lemma_skip_tail(t: Seq<char>, i: int, k: int)
    requires
        0 <= i < k <= path_end(t, i),
        path_end(t, i) <= t.len(),
        is_word(t[i]),
        !match_at(t, i),
    ensures
        names_from(t, k) == names_from(t, path_end(t, i)),
    decreases path_end(t, i) - k,
{
    if k < path_end(t, i) {
        if is_word(t[k]) {
            lemma_path_end_inner(t, i, k);
        }
        lemma_skip_tail(t, i, k + 1);
    }
}

proof fn lemma_path_chars(t: Seq<char>, i: int)
    requires
        0 <= i <= t.len(),
    ensures
        forall|k: int| i <= k < path_end(t, i) ==> is_word(#[trigger] t[k]) || t[k] == ':',
    decreases t.len() - i,
{
    lemma_ident_end_bounds(t, i);
    let j = ident_end(t, i);
    if i < j && separator_at(t, j) {
        lemma_path_chars(t, j + 2);
    }
}

/// Whether `n` is shaped as a test name: not empty, and made of identifier
/// characters and colons only, so that it never holds the marker.
pub open spec fn is_name_shaped(n: Seq<char>) -> bool {
    &&& n.len() > 0
    &&& forall|k: int| 0 <= k < n.len() ==> is_word(#[trigger] n[k]) || n[k] == ':'
}

/// Every name found in a listing is shaped as a test name.
pub proof fn lemma_names_shaped(t: Seq<char>)
    ensures
        forall|k: int|
            0 <= k < test_names(t).len() ==> is_name_shaped(#[trigger] test_names(t)[k]),
{
    lemma_names_from_shaped(t, 0);
}

proof fn lemma_names_from_shaped(t: Seq<char>, i: int)
    ensures
        forall|k: int|
            0 <= k < names_from(t, i).len() ==> is_name_shaped(#[trigger] names_from(t, i)[k]),
    decreases t.len() - i,
{
    if 0 <= i < t.len() {
        if match_at(t, i) {
            let e = path_end(t, i);
            lemma_path_end_bounds(t, i);
            lemma_ident_end_bounds(t, i);
            lemma_path_chars(t, i);
            lemma_names_from_shaped(t, e + 6);
            let n = t.subrange(i, e);
            assert forall|k: int| 0 <= k < n.len() implies is_word(#[trigger] n[k]) || n[k]
                == ':' by {
                assert(n[k] == t[i + k]);
            }
            assert(is_name_shaped(n));
            assert(names_from(t, i) == seq![n] + names_from(t, e + 6));
            assert forall|k: int| 0 <= k < names_from(t, i).len() implies is_name_shaped(
                #[trigger] names_from(t, i)[k],
            ) by {
                if k > 0 {
                    assert(names_from(t, i)[k] == names_from(t, e + 6)[k - 1]);
                } else {
                    assert(names_from(t, i)[k] == n);
                }
            }
        } else {
            lemma_names_from_shaped(t, i + 1);
            assert(names_from(t, i) == names_from(t, i + 1));
        }
    } else {
        assert(names_from(t, i).len() == 0);
    }
}

fn is_word_char(c: char) -> (r: bool)
    ensures
        r == is_word(c),
{
    ('a' <= c && c <= 'z') || ('A' <= c && c <= 'Z') || ('0' <= c && c <= '9') || c == '_'
}

fn find_ident_end(t: &Vec<char>, i: usize) -> (j: usize)
    requires
        i <= t.len(),
    ensures
        j == ident_end(t@, i as int),
{
    let mut j: usize = i;
    while j < t.len() && is_word_char(t[j])
        invariant
            i <= j <= t.len(),
            ident_end(t@, j as int) == ident_end(t@, i as int),
        decreases t.len() - j,
    {
        j = j + 1;
    }
    j
}

fn find_path_end(t: &Vec<char>, i: usize) -> (e: usize)
    requires
        i <= t.len(),
    ensures
        e == path_end(t@, i as int),
{
    let mut k: usize = i;
    let mut j: usize = find_ident_end(t, i);
    proof {
        lemma_ident_end_bounds(t@, i as int);
    }
    loop
        invariant
            i <= k <= j <= t.len(),
            j == ident_end(t@, k as int),
            path_end(t@, k as int) == path_end(t@, i as int),
        decreases t.len() - k,
    {
        if k < j && t.len() - j > 2 && t[j] == ':' && t[j + 1] == ':' && is_word_char(t[j + 2]) {
            k = j + 2;
            j = find_ident_end(t, k);
            proof {
                lemma_ident_end_bounds(t@, k as int);
            }
        } else {
            return j;
        }
    }
}

fn has_marker_at(t: &Vec<char>, i: usize) -> (r: bool)
    requires
        i <= t.len(),
    ensures
        r == marker_at(t@, i as int),
{
    if t.len() - i < 6 {
        return false;
    }
    let r = t[i] == ':' && t[i + 1] == ' ' && t[i + 2] == 't' && t[i + 3] == 'e' && t[i + 4]
        == 's' && t[i + 5] == 't';
    if r {
        assert(t@.subrange(i as int, i + 6) =~= marker());
    } else {
        assert(t@.subrange(i as int, i + 6) != marker()) by {
            let m = marker();
            if t@.subrange(i as int, i + 6) == m {
                assert(t@.subrange(i as int, i + 6)[0] == m[0]);
                assert(t@.subrange(i as int, i + 6)[1] == m[1]);
                assert(t@.subrange(i as int, i + 6)[2] == m[2]);
                assert(t@.subrange(i as int, i + 6)[3] == m[3]);
                assert(t@.subrange(i as int, i + 6)[4] == m[4]);
                assert(t@.subrange(i as int, i + 6)[5] == m[5]);
            }
        }
    }
    r
}

/// Relies on `String::push`: the character is appended at the end.
#[verifier::external_body]
fn push_char(s: &mut String, c: char)
    ensures
        final(s)@ == old(s)@.push(c),
{
    s.push(c)
}

fn string_of(t: &Vec<char>, from: usize, to: usize) -> (r: String)
    requires
        from <= to <= t.len(),
    ensures
        r@ == t@.subrange(from as int, to as int),
{
    let mut r = String::new();
    let mut k: usize = from;
    while k < to
        invariant
            from <= k <= to <= t.len(),
            r@ == t@.subrange(from as int, k as int),
        decreases to - k,
    {
        push_char(&mut r, t[k]);
        assert(r@ =~= t@.subrange(from as int, k + 1));
        k = k + 1;
    }
    r
}

/// The test names of a discovery listing, in the order in which they appear.
/// Lines that hold no name are skipped; a bare `: test` gives no name.
pub fn parse_test_names(input: &str) -> (names: Vec<String>)
    ensures
        names.deep_view() == test_names(input@),
{
    let t = chars_of(input);
    let mut names: Vec<String> = Vec::new();
    let mut i: usize = 0;
    while i < t.len()
        invariant
            i <= t.len(),
            t@ == input@,
            names.deep_view() + names_from(t@, i as int) == names_from(t@, 0),
        decreases t.len() - i,
    {
        if is_word_char(t[i]) {
            let e = find_path_end(&t, i);
            proof {
                lemma_path_end_bounds(t@, i as int);
            }
            if has_marker_at(&t, e) {
                let name = string_of(&t, i, e);
                let ghost before = names.deep_view();
                names.push(name);
                assert(names.deep_view() =~= before.push(t@.subrange(i as int, e as int)));
                assert(names.deep_view() + names_from(t@, e + 6) =~= before + names_from(
                    t@,
                    i as int,
                ));
                i = e + 6;
            } else {
                proof {
                    lemma_skip_path(t@, i as int);
                }
                i = e;
            }
        } else {
            i = i + 1;
        }
    }
    assert(names.deep_view() =~= names.deep_view() + names_from(t@, i as int));
    names
}

} // verus!
