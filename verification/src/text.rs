//! Character-sequence specifications and verified text primitives.
//!
//! Strings are handled as sequences of `char`s.  Where the behaviour of a
//! `str` method depends on byte offsets (as `str::find` and `str::len` do),
//! the offsets are stated through the UTF-8 encoding of the prefix.

use vstd::prelude::*;
use vstd::utf8::*;

verus! {

// ---------------------------------------------------------------------------
// Conversions
// ---------------------------------------------------------------------------

/// The characters of `s`, in order; their UTF-8 encoding fits in memory.
pub fn chars_of(s: &str) -> (v: Vec<char>)
    ensures
        v@ == s@,
        utf8_len(v@) <= usize::MAX,
{
    let bytes = s.as_bytes();
    assert(bytes@.len() == bytes.len());
    let n = s.unicode_len();
    let mut v: Vec<char> = Vec::new();
    let mut i: usize = 0;
    while i < n
        invariant
            n == s@.len(),
            i <= n,
            v@ == s@.take(i as int),
        decreases n - i,
    {
        let c = s.get_char(i);
        v.push(c);
        i = i + 1;
        assert(v@ =~= s@.take(i as int));
    }
    assert(s@.take(n as int) =~= s@);
    v
}

/// Builds a `String` holding exactly the given characters
/// (`String: FromIterator<char>`).
#[verifier::external_body]
pub(crate) fn string_of(v: &[char]) -> (s: String)
    ensures
        s@ == v@,
{
    v.iter().collect()
}

// ---------------------------------------------------------------------------
// Searching
// ---------------------------------------------------------------------------

/// `pat` occurs in `s` starting at character index `i`.
pub open spec fn matches_at(s: Seq<char>, pat: Seq<char>, i: int) -> bool {
    0 <= i && i + pat.len() <= s.len() && s.subrange(i, i + pat.len()) == pat
}

/// Character index of the first occurrence of `pat` in `s` at or after `i`.
pub open spec fn find_from(s: Seq<char>, pat: Seq<char>, i: int) -> Option<int>
    decreases s.len() - i,
{
    if i < 0 || i + pat.len() > s.len() {
        None
    } else if pat.len() == 0 || s.subrange(i, i + pat.len()) == pat {
        Some(i)
    } else {
        find_from(s, pat, i + 1)
    }
}

/// Character index of the first occurrence of `pat` in `s`.
pub open spec fn find(s: Seq<char>, pat: Seq<char>) -> Option<int> {
    find_from(s, pat, 0)
}

/// `s` contains `pat`.
pub open spec fn contains(s: Seq<char>, pat: Seq<char>) -> bool {
    find(s, pat) is Some
}

/// A search from `i` finds a match at or after `i` and none before it, or
/// there is no match from `i` on.
pub proof fn lemma_find_from_bounds(s: Seq<char>, pat: Seq<char>, i: int)
    requires
        0 <= i,
    ensures
        find_from(s, pat, i) matches Some(k) ==> i <= k && matches_at(s, pat, k) && (forall|j: int|
            i <= j < k ==> !#[trigger] matches_at(s, pat, j)),
        find_from(s, pat, i) is None ==> forall|j: int| i <= j ==> !#[trigger] matches_at(s, pat, j),
    decreases s.len() - i,
{
    if i + pat.len() > s.len() {
    } else if pat.len() == 0 {
        assert(s.subrange(i, i) =~= pat);
    } else if s.subrange(i, i + pat.len()) == pat {
    } else {
        lemma_find_from_bounds(s, pat, i + 1);
    }
}

/// Whether `pat` occurs in `s` at character index `i`.
pub fn matches_at_exec(s: &Vec<char>, pat: &Vec<char>, i: usize) -> (b: bool)
    ensures
        b == matches_at(s@, pat@, i as int),
{
    if pat.len() > s.len() || i > s.len() - pat.len() {
        return false;
    }
    let mut k: usize = 0;
    while k < pat.len()
        invariant
            i + pat.len() <= s.len(),
            k <= pat.len(),
            forall|j: int| 0 <= j < k ==> s@[i + j] == pat@[j],
        decreases pat.len() - k,
    {
        if s[i + k] != pat[k] {
            assert(s@.subrange(i as int, i + pat@.len())[k as int] != pat@[k as int]);
            return false;
        }
        k = k + 1;
    }
    assert(s@.subrange(i as int, i + pat@.len()) =~= pat@);
    true
}

/// Character index of the first occurrence of `pat` in `s` at or after `start`.
pub fn find_from_exec(s: &Vec<char>, pat: &Vec<char>, start: usize) -> (r: Option<usize>)
    ensures
        r matches Some(k) ==> find_from(s@, pat@, start as int) == Some(k as int),
        r is None ==> find_from(s@, pat@, start as int) is None,
{
    if pat.len() > s.len() {
        proof {
            lemma_find_from_bounds(s@, pat@, start as int);
        }
        return None;
    }
    let last = s.len() - pat.len();
    let mut i = start;
    while i <= last
        invariant
            last == s@.len() - pat@.len(),
            last <= s.len(),
            start <= i,
            find_from(s@, pat@, start as int) == find_from(s@, pat@, i as int),
        decreases last + 1 - i,
    {
        if matches_at_exec(s, pat, i) {
            return Some(i);
        }
        proof {
            if pat@.len() == 0 {
                assert(s@.subrange(i as int, i as int) =~= pat@);
            }
        }
        if i == last {
            return None;
        }
        i = i + 1;
    }
    None
}

// ---------------------------------------------------------------------------
// Splitting and replacing
// ---------------------------------------------------------------------------

/// The pieces of `s` between the non-overlapping occurrences of `pat`,
/// found from left to right (the pieces `str::split` yields).
pub open spec fn split(s: Seq<char>, pat: Seq<char>) -> Seq<Seq<char>>
    decreases s.len(),
{
    if pat.len() == 0 {
        seq![s]
    } else {
        match find(s, pat) {
            Some(i) => {
                proof {
                    lemma_find_from_bounds(s, pat, 0);
                }
                if 0 <= i && i + pat.len() <= s.len() {
                    seq![s.take(i)] + split(s.skip(i + pat.len()), pat)
                } else {
                    seq![s]
                }
            },
            None => seq![s],
        }
    }
}

/// `s` with every non-overlapping occurrence of `pat` (found from left to
/// right) replaced by `rep` (what `str::replace` returns).
pub open spec fn replace(s: Seq<char>, pat: Seq<char>, rep: Seq<char>) -> Seq<char>
    decreases s.len(),
{
    if pat.len() == 0 {
        s
    } else {
        match find(s, pat) {
            Some(i) => {
                proof {
                    lemma_find_from_bounds(s, pat, 0);
                }
                if 0 <= i && i + pat.len() <= s.len() {
                    s.take(i) + rep + replace(s.skip(i + pat.len()), pat, rep)
                } else {
                    s
                }
            },
            None => s,
        }
    }
}

/// Copy of the characters `v[a..b]`.
pub fn copy_range(v: &Vec<char>, a: usize, b: usize) -> (r: Vec<char>)
    requires
        a <= b <= v@.len(),
    ensures
        r@ == v@.subrange(a as int, b as int),
{
    let mut r: Vec<char> = Vec::new();
    let mut i = a;
    while i < b
        invariant
            a <= i <= b <= v@.len(),
            r@ == v@.subrange(a as int, i as int),
        decreases b - i,
    {
        r.push(v[i]);
        i = i + 1;
        assert(r@ =~= v@.subrange(a as int, i as int));
    }
    r
}

/// Appends the characters of `w` to `v`.
pub fn append_chars(v: &mut Vec<char>, w: &Vec<char>)
    ensures
        final(v)@ == old(v)@ + w@,
{
    let mut i: usize = 0;
    while i < w.len()
        invariant
            i <= w@.len(),
            v@ == old(v)@ + w@.take(i as int),
        decreases w.len() - i,
    {
        v.push(w[i]);
        i = i + 1;
        assert(v@ =~= old(v)@ + w@.take(i as int));
    }
    assert(w@.take(w@.len() as int) =~= w@);
}

/// The pieces of `s` separated by `pat`, as `str::split` yields them.
pub fn split_exec(s: &Vec<char>, pat: &Vec<char>) -> (r: Vec<Vec<char>>)
    requires
        pat@.len() > 0,
    ensures
        r@.map_values(|p: Vec<char>| p@) == split(s@, pat@),
{
    let mut r: Vec<Vec<char>> = Vec::new();
    let mut pos: usize = 0;
    assert(s@.skip(0) =~= s@);
    assert(r@.map_values(|p: Vec<char>| p@) =~= Seq::<Seq<char>>::empty());
    loop
        invariant
            pat@.len() > 0,
            pos <= s@.len(),
            r@.map_values(|p: Vec<char>| p@) + split(s@.skip(pos as int), pat@) == split(s@, pat@),
        decreases s@.len() - pos,
    {
        let ghost rest = s@.skip(pos as int);
        let f = find_from_exec(s, pat, pos);
        proof {
            lemma_find_from_bounds(s@, pat@, pos as int);
            lemma_find_from_shift(s@, pat@, pos as int);
            lemma_find_from_bounds(rest, pat@, 0);
        }
        match f {
            Some(k) => {
                assert(matches_at(s@, pat@, k as int));
                let piece = copy_range(s, pos, k);
                proof {
                    assert(find(rest, pat@) == Some(k - pos));
                    assert(rest.take(k - pos) =~= piece@);
                    assert(rest.skip(k - pos + pat@.len()) =~= s@.skip(k + pat@.len()));
                }
                let ghost before = r@.map_values(|p: Vec<char>| p@);
                r.push(piece);
                assert(r@.map_values(|p: Vec<char>| p@) =~= before.push(piece@));
                assert(before + split(rest, pat@) =~= before.push(piece@) + split(
                    s@.skip(k + pat@.len()),
                    pat@,
                ));
                assert(k + pat.len() <= s.len());
                pos = k + pat.len();
            },
            None => {
                let piece = copy_range(s, pos, s.len());
                proof {
                    assert(find(rest, pat@) is None);
                    assert(rest =~= piece@);
                }
                let ghost before = r@.map_values(|p: Vec<char>| p@);
                r.push(piece);
                assert(r@.map_values(|p: Vec<char>| p@) =~= before.push(piece@));
                assert(before + split(rest, pat@) =~= before.push(piece@));
                return r;
            },
        }
    }
}

/// Searching a suffix of `s` finds the occurrences of `s` shifted.
pub proof fn lemma_find_from_shift(s: Seq<char>, pat: Seq<char>, pos: int)
    requires
        0 <= pos <= s.len(),
    ensures
        find_from(s, pat, pos) matches Some(k) ==> find(s.skip(pos), pat) == Some(k - pos),
        find_from(s, pat, pos) is None ==> find(s.skip(pos), pat) is None,
{
    lemma_find_from_shift_from(s, pat, pos, pos);
}

proof fn lemma_find_from_shift_from(s: Seq<char>, pat: Seq<char>, pos: int, i: int)
    requires
        0 <= pos <= i,
        pos <= s.len(),
    ensures
        find_from(s, pat, i) == (match find_from(s.skip(pos), pat, i - pos) {
            Some(k) => Some(k + pos),
            None => None,
        }),
    decreases s.len() - i,
{
    let t = s.skip(pos);
    if i + pat.len() > s.len() {
    } else if pat.len() == 0 {
    } else {
        assert(s.subrange(i, i + pat.len()) =~= t.subrange(i - pos, i - pos + pat.len()));
        if s.subrange(i, i + pat.len()) == pat {
        } else {
            lemma_find_from_shift_from(s, pat, pos, i + 1);
        }
    }
}


/// `pat` occurs nowhere in `s`.
pub open spec fn free_of(s: Seq<char>, pat: Seq<char>) -> bool {
    forall|j: int| !#[trigger] matches_at(s, pat, j)
}

/// Replacing `pat` by a character it does not hold leaves no `pat` behind.
pub proof fn lemma_replace_leaves_none(s: Seq<char>, pat: Seq<char>, c: char)
    requires
        pat.len() > 0,
        !pat.contains(c),
    ensures
        free_of(replace(s, pat, seq![c]), pat),
    decreases s.len(),
{
    lemma_find_from_bounds(s, pat, 0);
    match find(s, pat) {
        None => {},
        Some(i) => {
            let n = pat.len() as int;
            let rest = s.skip(i + n);
            lemma_replace_leaves_none(rest, pat, c);
            let tail = replace(rest, pat, seq![c]);
            let r = replace(s, pat, seq![c]);
            assert(r == s.take(i) + seq![c] + tail);
            assert forall|j: int| !#[trigger] matches_at(r, pat, j) by {
                if matches_at(r, pat, j) {
                    if j + n <= i {
                        assert(s.subrange(j, j + n) =~= r.subrange(j, j + n));
                        assert(matches_at(s, pat, j));
                    } else if j <= i {
                        assert(r[i] == c);
                        assert(r.subrange(j, j + n)[i - j] == c);
                        assert(pat[i - j] == c);
                    } else {
                        assert(tail.subrange(j - i - 1, j - i - 1 + n) =~= r.subrange(j, j + n));
                        assert(matches_at(tail, pat, j - i - 1));
                    }
                }
            }
        },
    }
}

/// Replacing a pattern that does not occur changes nothing.
pub proof fn lemma_replace_absent(s: Seq<char>, pat: Seq<char>, rep: Seq<char>)
    requires
        pat.len() > 0,
        free_of(s, pat),
    ensures
        replace(s, pat, rep) == s,
{
    lemma_find_from_bounds(s, pat, 0);
    if let Some(k) = find(s, pat) {
        assert(matches_at(s, pat, k));
    }
}

proof fn lemma_drop_keeps_free(s: Seq<char>, pat: Seq<char>)
    requires
        s.len() > 0,
        free_of(s, pat),
    ensures
        free_of(s.drop_first(), pat),
        free_of(s.drop_last(), pat),
{
    let a = s.drop_first();
    let b = s.drop_last();
    assert forall|j: int| !#[trigger] matches_at(a, pat, j) by {
        if matches_at(a, pat, j) {
            assert(s.subrange(j + 1, j + 1 + pat.len()) =~= a.subrange(j, j + pat.len()));
            assert(matches_at(s, pat, j + 1));
        }
    }
    assert forall|j: int| !#[trigger] matches_at(b, pat, j) by {
        if matches_at(b, pat, j) {
            assert(s.subrange(j, j + pat.len()) =~= b.subrange(j, j + pat.len()));
            assert(matches_at(s, pat, j));
        }
    }
}

proof fn lemma_trim_start_keeps_free(s: Seq<char>, pat: Seq<char>)
    requires
        free_of(s, pat),
    ensures
        free_of(trim_start(s), pat),
    decreases s.len(),
{
    if s.len() > 0 && is_whitespace(s[0]) {
        lemma_drop_keeps_free(s, pat);
        lemma_trim_start_keeps_free(s.drop_first(), pat);
    }
}

proof fn lemma_trim_end_keeps_free(s: Seq<char>, pat: Seq<char>)
    requires
        free_of(s, pat),
    ensures
        free_of(trim_end(s), pat),
    decreases s.len(),
{
    if s.len() > 0 && is_whitespace(s.last()) {
        lemma_drop_keeps_free(s, pat);
        lemma_trim_end_keeps_free(s.drop_last(), pat);
    }
}

/// Trimming a text free of `pat` leaves it free of `pat`.
pub proof fn lemma_trim_keeps_free(s: Seq<char>, pat: Seq<char>)
    requires
        free_of(s, pat),
    ensures
        free_of(trim(s), pat),
{
    lemma_trim_start_keeps_free(s, pat);
    lemma_trim_end_keeps_free(trim_start(s), pat);
}

/// The pieces `pieces` joined, with `sep` between each two.
pub open spec fn join(pieces: Seq<Seq<char>>, sep: Seq<char>) -> Seq<char>
    decreases pieces.len(),
{
    if pieces.len() == 0 {
        Seq::empty()
    } else if pieces.len() == 1 {
        pieces[0]
    } else {
        pieces[0] + sep + join(pieces.drop_first(), sep)
    }
}

/// The number of non-overlapping occurrences of `pat` in `s`, found from
/// left to right (what `str::matches(..).count()` gives).
pub open spec fn count_matches(s: Seq<char>, pat: Seq<char>) -> nat
    decreases s.len(),
{
    if pat.len() == 0 {
        0
    } else {
        match find(s, pat) {
            Some(i) => {
                proof {
                    lemma_find_from_bounds(s, pat, 0);
                }
                if 0 <= i && i + pat.len() <= s.len() {
                    1 + count_matches(s.skip(i + pat.len()), pat)
                } else {
                    0
                }
            },
            None => 0,
        }
    }
}

/// Splitting at `pat` cuts `s` into pieces free of `pat`, one more than
/// the occurrences of `pat`, that joined with `pat` give `s` back.
pub proof fn lemma_split_join(s: Seq<char>, pat: Seq<char>)
    requires
        pat.len() > 0,
    ensures
        join(split(s, pat), pat) == s,
        split(s, pat).len() == count_matches(s, pat) + 1,
        forall|k: int| 0 <= k < split(s, pat).len() ==> free_of(#[trigger] split(s, pat)[k], pat),
    decreases s.len(),
{
    lemma_find_from_bounds(s, pat, 0);
    match find(s, pat) {
        None => {
            assert forall|j: int| !#[trigger] matches_at(s, pat, j) by {
                if matches_at(s, pat, j) {
                    assert(0 <= j);
                }
            }
        },
        Some(i) => {
            let n = pat.len() as int;
            let rest = s.skip(i + n);
            lemma_split_join(rest, pat);
            let pieces = split(s, pat);
            let tail = split(rest, pat);
            assert(pieces == seq![s.take(i)] + tail);
            assert(pieces.drop_first() =~= tail);
            assert(pieces[0] == s.take(i));
            assert(s.subrange(i, i + n) == pat);
            assert(s =~= s.take(i) + pat + rest);
            assert forall|j: int| !#[trigger] matches_at(s.take(i), pat, j) by {
                if matches_at(s.take(i), pat, j) {
                    assert(s.subrange(j, j + n) =~= s.take(i).subrange(j, j + n));
                    assert(matches_at(s, pat, j));
                }
            }
            assert forall|k: int| 0 <= k < pieces.len() implies free_of(#[trigger] pieces[k], pat) by {
                if k > 0 {
                    assert(pieces[k] == tail[k - 1]);
                }
            }
        },
    }
}

proof fn lemma_trim_start_shape(s: Seq<char>)
    ensures
        trim_start(s).len() == 0 || !is_whitespace(trim_start(s)[0]),
    decreases s.len(),
{
    if s.len() > 0 && is_whitespace(s[0]) {
        lemma_trim_start_shape(s.drop_first());
    }
}

proof fn lemma_trim_end_shape(s: Seq<char>)
    ensures
        trim_end(s) == s.take(trim_end(s).len() as int),
        trim_end(s).len() <= s.len(),
        trim_end(s).len() == 0 || !is_whitespace(trim_end(s).last()),
    decreases s.len(),
{
    if s.len() > 0 && is_whitespace(s.last()) {
        lemma_trim_end_shape(s.drop_last());
        let t = trim_end(s.drop_last());
        assert(s.drop_last().take(t.len() as int) =~= s.take(t.len() as int));
    } else {
        assert(s.take(s.len() as int) =~= s);
    }
}

/// Trimming twice trims no more than once, and a trimmed text neither
/// starts nor ends with whitespace.
pub proof fn lemma_trim_idempotent(s: Seq<char>)
    ensures
        trim(trim(s)) == trim(s),
        trim(s).len() > 0 ==> !is_whitespace(trim(s)[0]) && !is_whitespace(trim(s).last()),
{
    let y = trim_start(s);
    lemma_trim_start_shape(s);
    lemma_trim_end_shape(y);
    let z = trim_end(y);
    if z.len() > 0 {
        assert(z[0] == y[0]);
    }
    assert(trim_start(z) == z);
    lemma_trim_end_shape(z);
    assert(trim_end(z) == z);
}

/// `s` with `pat` replaced by `rep`, as `str::replace` computes it.
pub fn replace_exec(s: &Vec<char>, pat: &Vec<char>, rep: &Vec<char>) -> (r: Vec<char>)
    requires
        pat@.len() > 0,
    ensures
        r@ == replace(s@, pat@, rep@),
{
    let mut r: Vec<char> = Vec::new();
    let mut pos: usize = 0;
    assert(s@.skip(0) =~= s@);
    loop
        invariant
            pat@.len() > 0,
            pos <= s@.len(),
            r@ + replace(s@.skip(pos as int), pat@, rep@) == replace(s@, pat@, rep@),
        decreases s@.len() - pos,
    {
        let ghost rest = s@.skip(pos as int);
        let f = find_from_exec(s, pat, pos);
        proof {
            lemma_find_from_bounds(s@, pat@, pos as int);
            lemma_find_from_shift(s@, pat@, pos as int);
            lemma_find_from_bounds(rest, pat@, 0);
        }
        match f {
            Some(k) => {
                assert(matches_at(s@, pat@, k as int));
                assert(k + pat.len() <= s.len());
                let piece = copy_range(s, pos, k);
                proof {
                    assert(find(rest, pat@) == Some(k - pos));
                    assert(rest.take(k - pos) =~= piece@);
                    assert(rest.skip(k - pos + pat@.len()) =~= s@.skip(k + pat@.len()));
                }
                let ghost before = r@;
                append_chars(&mut r, &piece);
                append_chars(&mut r, rep);
                assert(before + replace(rest, pat@, rep@) =~= r@ + replace(
                    s@.skip(k + pat@.len()),
                    pat@,
                    rep@,
                ));
                pos = k + pat.len();
            },
            None => {
                let piece = copy_range(s, pos, s.len());
                proof {
                    assert(find(rest, pat@) is None);
                    assert(rest =~= piece@);
                }
                append_chars(&mut r, &piece);
                return r;
            },
        }
    }
}

// ---------------------------------------------------------------------------
// Whitespace and trimming
// ---------------------------------------------------------------------------

/// The characters with the Unicode `White_Space` property, which
/// `char::is_whitespace` recognises.
pub open spec fn is_whitespace(c: char) -> bool {
    let u = c as u32;
    ||| 0x9 <= u <= 0xD
    ||| u == 0x20
    ||| u == 0x85
    ||| u == 0xA0
    ||| u == 0x1680
    ||| 0x2000 <= u <= 0x200A
    ||| u == 0x2028
    ||| u == 0x2029
    ||| u == 0x202F
    ||| u == 0x205F
    ||| u == 0x3000
}

/// `s` without its leading whitespace (`str::trim_start`).
pub open spec fn trim_start(s: Seq<char>) -> Seq<char>
    decreases s.len(),
{
    if s.len() > 0 && is_whitespace(s[0]) {
        trim_start(s.drop_first())
    } else {
        s
    }
}

/// `s` without its trailing whitespace (`str::trim_end`).
pub open spec fn trim_end(s: Seq<char>) -> Seq<char>
    decreases s.len(),
{
    if s.len() > 0 && is_whitespace(s.last()) {
        trim_end(s.drop_last())
    } else {
        s
    }
}

/// `s` without leading and trailing whitespace (`str::trim`).
pub open spec fn trim(s: Seq<char>) -> Seq<char> {
    trim_end(trim_start(s))
}

/// Whether `c` is whitespace.
pub fn is_whitespace_exec(c: char) -> (b: bool)
    ensures
        b == is_whitespace(c),
{
    let u = c as u32;
    (0x9 <= u && u <= 0xD) || u == 0x20 || u == 0x85 || u == 0xA0 || u == 0x1680 || (0x2000 <= u
        && u <= 0x200A) || u == 0x2028 || u == 0x2029 || u == 0x202F || u == 0x205F || u == 0x3000
}

/// Index of the first character of `s` that is not whitespace, or `s.len()`.
pub fn trim_start_index(s: &Vec<char>) -> (a: usize)
    ensures
        a <= s@.len(),
        trim_start(s@) == s@.skip(a as int),
{
    let mut a: usize = 0;
    assert(s@.skip(0) =~= s@);
    while a < s.len() && is_whitespace_exec(s[a])
        invariant
            a <= s@.len(),
            trim_start(s@) == trim_start(s@.skip(a as int)),
        decreases s.len() - a,
    {
        assert(s@.skip(a as int).drop_first() =~= s@.skip(a + 1));
        a = a + 1;
    }
    a
}

/// `s` without leading whitespace.
pub fn trim_start_exec(s: &Vec<char>) -> (r: Vec<char>)
    ensures
        r@ == trim_start(s@),
{
    let a = trim_start_index(s);
    copy_range(s, a, s.len())
}

/// `s` without leading and trailing whitespace.
pub fn trim_exec(s: &Vec<char>) -> (r: Vec<char>)
    ensures
        r@ == trim(s@),
{
    let a = trim_start_index(s);
    let mut b: usize = s.len();
    let ghost t = s@.skip(a as int);
    assert(t.take(t.len() as int) =~= t);
    while b > a && is_whitespace_exec(s[b - 1])
        invariant
            a <= b <= s@.len(),
            t == s@.skip(a as int),
            trim_end(t) == trim_end(t.take(b - a)),
        decreases b,
    {
        assert(t.take(b - a).drop_last() =~= t.take(b - 1 - a));
        b = b - 1;
    }
    assert(t.take(b - a) =~= s@.subrange(a as int, b as int));
    copy_range(s, a, b)
}

// ---------------------------------------------------------------------------
// Byte lengths
// ---------------------------------------------------------------------------

/// Number of bytes of the UTF-8 encoding of `s` (what `str::len` returns).
pub open spec fn utf8_len(s: Seq<char>) -> nat {
    encode_utf8(s).len()
}

/// The encoding of two texts one after the other is the two encodings one
/// after the other.
pub proof fn lemma_encode_utf8_add(a: Seq<char>, b: Seq<char>)
    ensures
        encode_utf8(a + b) == encode_utf8(a) + encode_utf8(b),
    decreases a.len(),
{
    if a.len() == 0 {
        assert(a + b =~= b);
    } else {
        lemma_encode_utf8_add(a.drop_first(), b);
        assert((a + b).drop_first() =~= a.drop_first() + b);
        assert(encode_utf8(a + b) =~= encode_utf8(a) + encode_utf8(b));
    }
}

/// The encoding of a one-character text is the encoding of the character.
pub proof fn lemma_encode_single(c: char)
    ensures
        encode_utf8(seq![c]) == encode_scalar(c as u32),
{
    assert(seq![c].drop_first() =~= Seq::<char>::empty());
    assert(encode_utf8(Seq::<char>::empty()) =~= Seq::<u8>::empty());
    assert(encode_utf8(seq![c]) =~= encode_scalar(c as u32));
}

/// Number of bytes of the UTF-8 encoding of `c`.
pub fn char_utf8_width(c: char) -> (w: usize)
    ensures
        w == encode_scalar(c as u32).len(),
        1 <= w <= 4,
{
    let u = c as u32;
    if u <= 0x7F {
        1
    } else if u <= 0x7FF {
        2
    } else if u <= 0xFFFF {
        proof {
            char_is_scalar(c);
        }
        3
    } else {
        4
    }
}

/// Number of bytes of the UTF-8 encoding of the first `k` characters of `s`.
pub fn utf8_prefix_len(s: &Vec<char>, k: usize) -> (n: usize)
    requires
        k <= s@.len(),
        utf8_len(s@) <= usize::MAX,
    ensures
        n == utf8_len(s@.take(k as int)),
{
    let mut n: usize = 0;
    let mut i: usize = 0;
    proof {
        lemma_encode_utf8_add(s@.take(k as int), s@.skip(k as int));
        assert(s@.take(k as int) + s@.skip(k as int) =~= s@);
        assert(s@.take(0) =~= Seq::<char>::empty());
    }
    while i < k
        invariant
            i <= k <= s@.len(),
            utf8_len(s@.take(k as int)) <= usize::MAX,
            n == utf8_len(s@.take(i as int)),
        decreases k - i,
    {
        let w = char_utf8_width(s[i]);
        proof {
            lemma_encode_utf8_add(s@.take(i as int), seq![s@[i as int]]);
            assert(s@.take(i as int) + seq![s@[i as int]] =~= s@.take(i + 1));
            lemma_encode_utf8_add(s@.take(i + 1), s@.subrange(i + 1, k as int));
            assert(s@.take(i + 1) + s@.subrange(i + 1, k as int) =~= s@.take(k as int));
            lemma_encode_single(s@[i as int]);
        }
        n = n + w;
        i = i + 1;
    }
    n
}

// ---------------------------------------------------------------------------
// Decimal numerals
// ---------------------------------------------------------------------------

/// The digit character for `d < 10`.
pub open spec fn digit_char(d: nat) -> char {
    (d + 48) as char
}

/// The decimal numeral of `n`, without sign or leading zeros.
pub open spec fn decimal(n: nat) -> Seq<char>
    decreases n,
{
    if n < 10 {
        seq![digit_char(n)]
    } else {
        decimal(n / 10).push(digit_char(n % 10))
    }
}

/// The decimal numeral of `n`.
pub fn decimal_exec(n: u64) -> (r: Vec<char>)
    ensures
        r@ == decimal(n as nat),
    decreases n,
{
    let d = (n % 10) as u8;
    let c = (d + 48) as char;
    if n < 10 {
        vec![c]
    } else {
        let mut r = decimal_exec(n / 10);
        r.push(c);
        r
    }
}

// ---------------------------------------------------------------------------
// Comparisons
// ---------------------------------------------------------------------------

/// Whether two character sequences are equal.
pub fn chars_eq(a: &Vec<char>, b: &Vec<char>) -> (r: bool)
    ensures
        r == (a@ == b@),
{
    if a.len() != b.len() {
        return false;
    }
    let mut i: usize = 0;
    while i < a.len()
        invariant
            a@.len() == b@.len(),
            i <= a@.len(),
            forall|j: int| 0 <= j < i ==> a@[j] == b@[j],
        decreases a.len() - i,
    {
        if a[i] != b[i] {
            return false;
        }
        i = i + 1;
    }
    assert(a@ =~= b@);
    true
}

/// Whether the characters of `a` spell the string `b`.
pub fn chars_eq_str(a: &Vec<char>, b: &str) -> (r: bool)
    ensures
        r == (a@ == b@),
{
    let bv = chars_of(b);
    chars_eq(a, &bv)
}

/// `c` with ASCII upper-case letters mapped to lower case.
pub open spec fn ascii_lower(c: char) -> char {
    if 'A' <= c <= 'Z' {
        ((c as u32) + 32) as char
    } else {
        c
    }
}

/// `a` and `b` are equal when ASCII letters are compared without case
/// (`str::eq_ignore_ascii_case`).
pub open spec fn eq_ignore_ascii_case(a: Seq<char>, b: Seq<char>) -> bool {
    a.len() == b.len() && forall|i: int| 0 <= i < a.len() ==> ascii_lower(a[i]) == ascii_lower(b[i])
}

fn ascii_lower_exec(c: char) -> (r: char)
    ensures
        r == ascii_lower(c),
{
    if 'A' <= c && c <= 'Z' {
        let u = (c as u8) + 32;
        u as char
    } else {
        c
    }
}

/// Whether `a` and `b` are equal ignoring ASCII case.
pub fn eq_ignore_ascii_case_exec(a: &Vec<char>, b: &Vec<char>) -> (r: bool)
    ensures
        r == eq_ignore_ascii_case(a@, b@),
{
    if a.len() != b.len() {
        return false;
    }
    let mut i: usize = 0;
    while i < a.len()
        invariant
            a@.len() == b@.len(),
            i <= a@.len(),
            forall|j: int| 0 <= j < i ==> ascii_lower(a@[j]) == ascii_lower(b@[j]),
        decreases a.len() - i,
    {
        if ascii_lower_exec(a[i]) != ascii_lower_exec(b[i]) {
            return false;
        }
        i = i + 1;
    }
    true
}

/// `a` comes strictly before `b` in the order of `String`s: compared
/// character by character by code point, a proper prefix first.
pub open spec fn lex_lt(a: Seq<char>, b: Seq<char>) -> bool
    decreases a.len(),
{
    if a.len() == 0 {
        b.len() > 0
    } else if b.len() == 0 {
        false
    } else if a[0] != b[0] {
        (a[0] as u32) < (b[0] as u32)
    } else {
        lex_lt(a.drop_first(), b.drop_first())
    }
}

/// Whether `a` comes strictly before `b`.
pub fn lex_lt_exec(a: &Vec<char>, b: &Vec<char>) -> (r: bool)
    ensures
        r == lex_lt(a@, b@),
{
    let mut i: usize = 0;
    assert(a@.skip(0) =~= a@);
    assert(b@.skip(0) =~= b@);
    while i < a.len() && i < b.len() && a[i] == b[i]
        invariant
            i <= a@.len(),
            i <= b@.len(),
            lex_lt(a@, b@) == lex_lt(a@.skip(i as int), b@.skip(i as int)),
        decreases a.len() - i,
    {
        assert(a@.skip(i as int).drop_first() =~= a@.skip(i + 1));
        assert(b@.skip(i as int).drop_first() =~= b@.skip(i + 1));
        i = i + 1;
    }
    if i == a.len() {
        i < b.len()
    } else if i == b.len() {
        false
    } else {
        (a[i] as u32) < (b[i] as u32)
    }
}

} // verus!
