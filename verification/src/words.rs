//! Word-level text processing: whitespace-separated words, the set of
//! characters a text uses, and a running tally of word occurrences.

use vstd::prelude::*;
use crate::text::{
    chars_of, chars_eq, copy_range, string_of, is_whitespace, is_whitespace_exec, replace,
    replace_exec, trim_start, trim_start_exec,
};

verus! {

// ---------------------------------------------------------------------------
// Words
// ---------------------------------------------------------------------------

/// The words of `s` that follow, given that `cur` is the part of a word
/// already read: a word is a maximal run of non-whitespace characters.
pub open spec fn words_from(s: Seq<char>, cur: Seq<char>) -> Seq<Seq<char>>
    decreases s.len(),
{
    if s.len() == 0 {
        if cur.len() > 0 {
            seq![cur]
        } else {
            seq![]
        }
    } else if is_whitespace(s[0]) {
        (if cur.len() > 0 {
            seq![cur]
        } else {
            seq![]
        }) + words_from(s.drop_first(), seq![])
    } else {
        words_from(s.drop_first(), cur.push(s[0]))
    }
}

/// The whitespace-separated words of `s`, in order (`str::split_whitespace`).
pub open spec fn words(s: Seq<char>) -> Seq<Seq<char>> {
    words_from(s, seq![])
}

/// The words of `s`, in order.
pub fn split_words(s: &Vec<char>) -> (r: Vec<Vec<char>>)
    ensures
        r@.map_values(|w: Vec<char>| w@) == words(s@),
{
    let mut out: Vec<Vec<char>> = Vec::new();
    let mut cur: Vec<char> = Vec::new();
    let mut i: usize = 0;
    assert(s@.skip(0) =~= s@);
    while i < s.len()
        invariant
            i <= s@.len(),
            words(s@) == out@.map_values(|w: Vec<char>| w@) + words_from(s@.skip(i as int), cur@),
        decreases s.len() - i,
    {
        let c = s[i];
        let ghost rest = s@.skip(i as int);
        assert(rest.drop_first() =~= s@.skip(i + 1));
        if is_whitespace_exec(c) {
            if cur.len() > 0 {
                let ghost before = out@.map_values(|w: Vec<char>| w@);
                let w = cur;
                out.push(w);
                assert(out@.map_values(|w: Vec<char>| w@) =~= before + seq![w@]);
                cur = Vec::new();
            } else {
                assert(cur@ =~= seq![]);
            }
        } else {
            cur.push(c);
        }
        i = i + 1;
    }
    let ghost before = out@.map_values(|w: Vec<char>| w@);
    if cur.len() > 0 {
        let w = cur;
        out.push(w);
        assert(out@.map_values(|w: Vec<char>| w@) =~= before + seq![w@]);
    }
    assert(out@.map_values(|w: Vec<char>| w@) =~= words(s@));
    out
}

/// The words of `s` from the last to the first.
pub fn words_in_reverse(s: &str) -> (r: Vec<String>)
    ensures
        r@.map_values(|w: String| w@) == words(s@).reverse(),
{
    let cs = chars_of(s);
    let ws = split_words(&cs);
    let ghost target = words(s@).reverse();
    let mut r: Vec<String> = Vec::new();
    let mut k: usize = ws.len();
    while k > 0
        invariant
            k <= ws@.len(),
            ws@.map_values(|w: Vec<char>| w@) == words(s@),
            target == words(s@).reverse(),
            r@.len() == ws@.len() - k,
            forall|j: int| 0 <= j < r@.len() ==> #[trigger] r@[j]@ == target[j],
        decreases k,
    {
        k = k - 1;
        let w = string_of(ws[k].as_slice());
        assert(ws@.map_values(|w: Vec<char>| w@)[k as int] == ws@[k as int]@);
        r.push(w);
    }
    assert(r@.map_values(|w: String| w@) =~= target);
    r
}

// ---------------------------------------------------------------------------
// Characters used by a text
// ---------------------------------------------------------------------------

/// Each character of `cs` comes after the one before it.
pub open spec fn strictly_increasing(cs: Seq<char>) -> bool {
    forall|i: int, j: int| 0 <= i < j < cs.len() ==> (cs[i] as u32) < (cs[j] as u32)
}

/// Each character of `cs` followed by a comma and a space.
pub open spec fn comma_list(cs: Seq<char>) -> Seq<char>
    decreases cs.len(),
{
    if cs.len() == 0 {
        seq![]
    } else {
        comma_list(cs.drop_last()) + seq![cs.last(), ',', ' ']
    }
}

/// A character that `trim_end_matches(&[' ', ','])` removes.
pub open spec fn is_list_separator(c: char) -> bool {
    c == ' ' || c == ','
}

/// Whether `c` is a space or a comma.
pub fn is_list_separator_exec(c: char) -> (b: bool)
    ensures
        b == is_list_separator(c),
{
    let u = c as u32;
    u == 0x20 || u == 0x2C
}

/// `s` without trailing spaces and commas.
pub open spec fn trim_end_separators(s: Seq<char>) -> Seq<char>
    decreases s.len(),
{
    if s.len() > 0 && is_list_separator(s.last()) {
        trim_end_separators(s.drop_last())
    } else {
        s
    }
}

/// Two strictly increasing sequences with the same characters are equal:
/// the sorted, duplicate-free list of a set of characters is unique.
pub proof fn lemma_strictly_increasing_unique(a: Seq<char>, b: Seq<char>)
    requires
        strictly_increasing(a),
        strictly_increasing(b),
        a.to_set() == b.to_set(),
    ensures
        a == b,
    decreases a.len(),
{
    if a.len() == 0 {
        if b.len() > 0 {
            assert(b.to_set().contains(b[0]));
            assert(!a.to_set().contains(b[0]));
        }
        assert(a =~= b);
    } else {
        assert(a.to_set().contains(a[0]));
        assert(b.to_set().contains(a[0]));
        assert(b.len() > 0);
        assert(b.to_set().contains(b[0]));
        assert(a.to_set().contains(b[0]));
        let ia = choose|i: int| 0 <= i < a.len() && a[i] == b[0];
        let ib = choose|i: int| 0 <= i < b.len() && b[i] == a[0];
        assert(a[0] == b[0]) by {
            if ia > 0 {
                assert((a[0] as u32) < (a[ia] as u32));
            }
            if ib > 0 {
                assert((b[0] as u32) < (b[ib] as u32));
            }
        }
        let a1 = a.drop_first();
        let b1 = b.drop_first();
        assert forall|c: char| a1.to_set().contains(c) implies b1.to_set().contains(c) by {
            let i = choose|i: int| 0 <= i < a1.len() && a1[i] == c;
            assert(a.to_set().contains(a[i + 1]));
            assert(b.to_set().contains(c));
            let j = choose|j: int| 0 <= j < b.len() && b[j] == c;
            if j == 0 {
                assert((a[0] as u32) < (a[i + 1] as u32));
            }
            assert(b1[j - 1] == c);
        }
        assert forall|c: char| b1.to_set().contains(c) implies a1.to_set().contains(c) by {
            let i = choose|i: int| 0 <= i < b1.len() && b1[i] == c;
            assert(b.to_set().contains(b[i + 1]));
            assert(a.to_set().contains(c));
            let j = choose|j: int| 0 <= j < a.len() && a[j] == c;
            if j == 0 {
                assert((b[0] as u32) < (b[i + 1] as u32));
            }
            assert(a1[j - 1] == c);
        }
        assert(a1.to_set() =~= b1.to_set());
        lemma_strictly_increasing_unique(a1, b1);
        assert(a =~= seq![a[0]] + a1);
        assert(b =~= seq![b[0]] + b1);
    }
}

proof fn lemma_char_cast_injective(a: char, b: char)
    requires
        (a as u32) == (b as u32),
    ensures
        a == b,
{
}

/// The distinct characters of `s`, in increasing order.
pub fn sorted_distinct_chars(s: &Vec<char>) -> (cs: Vec<char>)
    ensures
        strictly_increasing(cs@),
        cs@.to_set() == s@.to_set(),
{
    let mut cs: Vec<char> = Vec::new();
    let mut i: usize = 0;
    assert(cs@.to_set() =~= s@.take(0).to_set());
    while i < s.len()
        invariant
            i <= s@.len(),
            strictly_increasing(cs@),
            cs@.to_set() == s@.take(i as int).to_set(),
        decreases s.len() - i,
    {
        let c = s[i];
        let mut p: usize = 0;
        while p < cs.len() && (cs[p] as u32) < (c as u32)
            invariant
                p <= cs@.len(),
                forall|j: int| 0 <= j < p ==> (#[trigger] cs@[j] as u32) < (c as u32),
            decreases cs.len() - p,
        {
            p = p + 1;
        }
        assert(p < cs@.len() ==> (c as u32) <= (cs@[p as int] as u32));
        let ghost old_cs = cs@;
        let ghost pre = s@.take(i as int);
        let ghost pre1 = s@.take(i + 1);
        assert(pre1 =~= pre.push(c));
        if p < cs.len() && (cs[p] as u32) == (c as u32) {
            assert(cs@[p as int] == c) by {
                lemma_char_cast_injective(cs@[p as int], c);
            }
            assert forall|x: char| #[trigger] pre1.to_set().contains(x) implies cs@.to_set().contains(x) by {
                if x != c {
                    let k = choose|k: int| 0 <= k < i + 1 && pre1[k] == x;
                    assert(pre[k] == x);
                    assert(pre.to_set().contains(x));
                } else {
                    assert(cs@[p as int] == c);
                }
            }
            assert forall|x: char| #[trigger] cs@.to_set().contains(x) implies pre1.to_set().contains(x) by {
                assert(pre.to_set().contains(x));
                let k = choose|k: int| 0 <= k < i && pre[k] == x;
                assert(pre1[k] == x);
            }
            assert(cs@.to_set() =~= pre1.to_set());
        } else {
            assert(p < cs@.len() ==> (c as u32) < (cs@[p as int] as u32));
            cs.insert(p, c);
            assert(cs@ =~= old_cs.insert(p as int, c));
            assert forall|a: int, b: int| 0 <= a < b < cs@.len() implies (cs@[a] as u32) < (cs@[b] as u32) by {
                if b < p {
                } else if b == p {
                } else if a < p {
                    assert(cs@[b] == old_cs[b - 1]);
                    if (p as int) < b - 1 {
                        assert((old_cs[p as int] as u32) < (old_cs[b - 1] as u32));
                    }
                } else if a == p {
                    assert(cs@[b] == old_cs[b - 1]);
                    if (p as int) < b - 1 {
                        assert((old_cs[p as int] as u32) < (old_cs[b - 1] as u32));
                    }
                } else {
                    assert(cs@[a] == old_cs[a - 1]);
                    assert(cs@[b] == old_cs[b - 1]);
                }
            }
            assert forall|x: char| #[trigger] pre1.to_set().contains(x) implies cs@.to_set().contains(x) by {
                if x != c {
                    let k = choose|k: int| 0 <= k < i + 1 && pre1[k] == x;
                    assert(pre[k] == x);
                    assert(pre.to_set().contains(x));
                    assert(old_cs.to_set().contains(x));
                    let m = choose|m: int| 0 <= m < old_cs.len() && old_cs[m] == x;
                    if m < p {
                        assert(cs@[m] == x);
                    } else {
                        assert(cs@[m + 1] == x);
                    }
                } else {
                    assert(cs@[p as int] == c);
                }
            }
            assert forall|x: char| #[trigger] cs@.to_set().contains(x) implies pre1.to_set().contains(x) by {
                let m = choose|m: int| 0 <= m < cs@.len() && cs@[m] == x;
                if m == p {
                    assert(pre1[i as int] == x);
                } else {
                    if m < p {
                        assert(old_cs[m] == x);
                    } else {
                        assert(old_cs[m - 1] == x);
                    }
                    assert(old_cs.to_set().contains(x));
                    let k = choose|k: int| 0 <= k < i && pre[k] == x;
                    assert(pre1[k] == x);
                }
            }
            assert(cs@.to_set() =~= pre1.to_set());
        }
        i = i + 1;
    }
    assert(s@.take(s@.len() as int) =~= s@);
    cs
}

/// Each character of `cs` followed by a comma and a space.
fn comma_listed(cs: &Vec<char>) -> (r: Vec<char>)
    ensures
        r@ == comma_list(cs@),
{
    let mut listed: Vec<char> = Vec::new();
    let mut k: usize = 0;
    assert(cs@.take(0) =~= seq![]);
    while k < cs.len()
        invariant
            k <= cs@.len(),
            listed@ == comma_list(cs@.take(k as int)),
        decreases cs.len() - k,
    {
        assert(cs@.take(k + 1).drop_last() =~= cs@.take(k as int));
        listed.push(cs[k]);
        listed.push(',');
        listed.push(' ');
        k = k + 1;
    }
    assert(cs@.take(cs@.len() as int) =~= cs@);
    listed
}

/// `listed` without trailing spaces and commas.
fn without_trailing_separators(listed: &Vec<char>) -> (r: Vec<char>)
    ensures
        r@ == trim_end_separators(listed@),
{
    let mut b: usize = listed.len();
    assert(listed@.take(b as int) =~= listed@);
    while b > 0 && is_list_separator_exec(listed[b - 1])
        invariant
            b <= listed@.len(),
            trim_end_separators(listed@) == trim_end_separators(listed@.take(b as int)),
        decreases b,
    {
        assert(listed@.take(b as int).drop_last() =~= listed@.take(b - 1));
        b = b - 1;
    }
    let kept = copy_range(listed, 0, b);
    assert(kept@ =~= listed@.take(b as int));
    kept
}

/// The distinct characters of `s` in increasing order, each followed by a
/// comma and a space, with the trailing spaces and commas removed.
pub fn used_characters(s: &str) -> (r: String)
    ensures
        exists|cs: Seq<char>|
            strictly_increasing(cs) && cs.to_set() == s@.to_set() && r@ == trim_end_separators(
                comma_list(cs),
            ),
{
    let chars = chars_of(s);
    let cs = sorted_distinct_chars(&chars);
    let listed = comma_listed(&cs);
    string_of(without_trailing_separators(&listed).as_slice())
}

// ---------------------------------------------------------------------------
// The string walk-through
// ---------------------------------------------------------------------------

/// What the string walk-through derives from a text and a phrase.
pub struct StringExample {
    /// The words of the text, last first.
    pub reversed_words: Vec<String>,
    /// The text without its leading whitespace.
    pub trimmed_start: String,
    /// The characters the text uses, sorted, each followed by a comma and
    /// a space.
    pub character_list: String,
    /// The same list without its trailing commas and spaces.
    pub used_characters: String,
    /// The phrase with each `"dog"` replaced by `"cat"`.
    pub replaced: String,
}

/// Reverses the words of `s`, trims its start, lists the characters it
/// uses, and replaces `"dog"` by `"cat"` in `phrase`.
pub fn string_by_example(s: &str, phrase: &str) -> (r: StringExample)
    ensures
        r.reversed_words@.map_values(|w: String| w@) == words(s@).reverse(),
        r.trimmed_start@ == trim_start(s@),
        exists|cs: Seq<char>|
            {
                &&& strictly_increasing(cs)
                &&& cs.to_set() == s@.to_set()
                &&& r.character_list@ == comma_list(cs)
                &&& r.used_characters@ == trim_end_separators(comma_list(cs))
            },
        r.replaced@ == replace(phrase@, "dog"@, "cat"@),
{
    let reversed_words = words_in_reverse(s);
    let cs = chars_of(s);
    let t = trim_start_exec(&cs);
    let trimmed_start = string_of(t.as_slice());
    let sorted = sorted_distinct_chars(&cs);
    let listed = comma_listed(&sorted);
    let used = string_of(without_trailing_separators(&listed).as_slice());
    let character_list = string_of(listed.as_slice());
    let p = chars_of(phrase);
    let dog = chars_of("dog");
    let cat = chars_of("cat");
    proof {
        reveal_strlit("dog");
    }
    let rep = replace_exec(&p, &dog, &cat);
    let replaced = string_of(rep.as_slice());
    StringExample { reversed_words, trimmed_start, character_list, used_characters: used, replaced }
}

// ---------------------------------------------------------------------------
// Word tally
// ---------------------------------------------------------------------------

/// `m` after one more occurrence of `w`: an absent word counts 1, a present
/// one its count plus one (wrapping past `u32::MAX`).
pub open spec fn bump(m: Map<Seq<char>, u32>, w: Seq<char>) -> Map<Seq<char>, u32> {
    let c: u32 = if m.dom().contains(w) {
        m[w]
    } else {
        0
    };
    m.insert(w, vstd::wrapping::u32_specs::wrapping_add(c, 1))
}

/// `m` after the occurrences of `ws`, counted in order.
pub open spec fn tally(m: Map<Seq<char>, u32>, ws: Seq<Seq<char>>) -> Map<Seq<char>, u32>
    decreases ws.len(),
{
    if ws.len() == 0 {
        m
    } else {
        tally(bump(m, ws[0]), ws.drop_first())
    }
}

/// Counting two runs of words one after the other is counting their
/// concatenation: a text may be tallied line by line.
pub proof fn lemma_tally_concat(m: Map<Seq<char>, u32>, a: Seq<Seq<char>>, b: Seq<Seq<char>>)
    ensures
        tally(tally(m, a), b) == tally(m, a + b),
    decreases a.len(),
{
    if a.len() == 0 {
        assert(a + b =~= b);
    } else {
        assert((a + b).drop_first() =~= a.drop_first() + b);
        lemma_tally_concat(bump(m, a[0]), a.drop_first(), b);
    }
}

/// How many times `w` occurs in `ws`.
pub open spec fn occurrences(ws: Seq<Seq<char>>, w: Seq<char>) -> nat
    decreases ws.len(),
{
    if ws.len() == 0 {
        0
    } else {
        (if ws[0] == w {
            1nat
        } else {
            0nat
        }) + occurrences(ws.drop_first(), w)
    }
}

/// A number of occurrences as the `u32` counter holding it (wrapping past
/// `u32::MAX`).
pub open spec fn wrapped_count(k: nat) -> u32 {
    (k % 0x1_0000_0000) as u32
}

/// Counting `ws` on top of `m`: a word is counted after it exactly when it
/// was counted before or occurs in `ws`, and its count grows by its
/// occurrences (wrapping past `u32::MAX`).
pub proof fn lemma_tally_adds_occurrences(m: Map<Seq<char>, u32>, ws: Seq<Seq<char>>, w: Seq<char>)
    ensures
        tally(m, ws).dom().contains(w) == (m.dom().contains(w) || ws.contains(w)),
        tally(m, ws).dom().contains(w) ==> tally(m, ws)[w] == wrapped_count(
            (if m.dom().contains(w) {
                m[w] as nat
            } else {
                0nat
            }) + occurrences(ws, w),
        ),
    decreases ws.len(),
{
    let base: nat = if m.dom().contains(w) {
        m[w] as nat
    } else {
        0nat
    };
    if ws.len() == 0 {
        assert(!ws.contains(w));
        assert(base < 0x1_0000_0000);
    } else {
        let m1 = bump(m, ws[0]);
        let rest = ws.drop_first();
        lemma_tally_adds_occurrences(m1, rest, w);
        assert(ws.contains(w) == (ws[0] == w || rest.contains(w))) by {
            if ws.contains(w) {
                let k = choose|k: int| 0 <= k < ws.len() && ws[k] == w;
                if k > 0 {
                    assert(rest[k - 1] == w);
                }
            }
            if rest.contains(w) {
                let k = choose|k: int| 0 <= k < rest.len() && rest[k] == w;
                assert(ws[k + 1] == w);
            }
        }
        if ws[0] == w {
            let b1: nat = m1[w] as nat;
            assert(b1 == wrapped_count(base + 1));
            let r = occurrences(rest, w);
            assert(wrapped_count(b1 + r) == wrapped_count(base + 1 + r)) by {
                let x: int = base as int + 1;
                vstd::arithmetic::div_mod::lemma_add_mod_noop(x, r as int, 0x1_0000_0000);
                vstd::arithmetic::div_mod::lemma_add_mod_noop(x % 0x1_0000_0000, r as int, 0x1_0000_0000);
                vstd::arithmetic::div_mod::lemma_mod_twice(x, 0x1_0000_0000);
            }
        } else {
            assert(m1.dom().contains(w) == m.dom().contains(w));
            if m.dom().contains(w) {
                assert(m1[w] == m[w]);
            }
        }
    }
}

/// Counting the words of a text from nothing: a word has a count exactly
/// when it occurs, and its count is the number of its occurrences
/// (wrapping past `u32::MAX`).
pub proof fn lemma_tally_counts_occurrences(ws: Seq<Seq<char>>, w: Seq<char>)
    ensures
        tally(Map::empty(), ws).dom().contains(w) == ws.contains(w),
        ws.contains(w) ==> tally(Map::empty(), ws)[w] == wrapped_count(occurrences(ws, w)),
{
    lemma_tally_adds_occurrences(Map::empty(), ws, w);
}

/// The counts after the words of each of `lines` in turn are counted on
/// top of `m`, as `WordCounts::add_line` does line by line.
pub open spec fn tally_lines(m: Map<Seq<char>, u32>, lines: Seq<Seq<char>>) -> Map<Seq<char>, u32>
    decreases lines.len(),
{
    if lines.len() == 0 {
        m
    } else {
        tally_lines(tally(m, words(lines[0])), lines.drop_first())
    }
}

/// The words of `lines`, line after line.
pub open spec fn words_of_lines(lines: Seq<Seq<char>>) -> Seq<Seq<char>>
    decreases lines.len(),
{
    if lines.len() == 0 {
        Seq::empty()
    } else {
        words(lines[0]) + words_of_lines(lines.drop_first())
    }
}

proof fn lemma_tally_lines(m: Map<Seq<char>, u32>, lines: Seq<Seq<char>>)
    ensures
        tally_lines(m, lines) == tally(m, words_of_lines(lines)),
    decreases lines.len(),
{
    if lines.len() > 0 {
        lemma_tally_lines(tally(m, words(lines[0])), lines.drop_first());
        lemma_tally_concat(m, words(lines[0]), words_of_lines(lines.drop_first()));
    }
}

/// Counting the words of several lines, one line after the other, from
/// nothing: a word has a count exactly when it occurs in some line, and its
/// count is the number of its occurrences over all the lines (wrapping
/// past `u32::MAX`).
pub proof fn lemma_counts_over_lines(lines: Seq<Seq<char>>, w: Seq<char>)
    ensures
        tally_lines(Map::empty(), lines).dom().contains(w) == words_of_lines(lines).contains(w),
        words_of_lines(lines).contains(w) ==> tally_lines(Map::empty(), lines)[w] == wrapped_count(
            occurrences(words_of_lines(lines), w),
        ),
{
    lemma_tally_lines(Map::empty(), lines);
    lemma_tally_counts_occurrences(words_of_lines(lines), w);
}

/// How many times each word has been seen.
pub struct WordCounts {
    entries: Vec<(Vec<char>, u32)>,
}

/// The words of `entries`.
pub open spec fn entry_word(entries: Seq<(Vec<char>, u32)>, i: int) -> Seq<char> {
    entries[i].0@
}

impl View for WordCounts {
    type V = Map<Seq<char>, u32>;

    closed spec fn view(&self) -> Map<Seq<char>, u32> {
        Map::new(
            |k: Seq<char>| exists|i: int| 0 <= i < self.entries@.len() && #[trigger] entry_word(self.entries@, i) == k,
            |k: Seq<char>|
                self.entries@[choose|i: int| 0 <= i < self.entries@.len() && #[trigger] entry_word(self.entries@, i) == k].1,
        )
    }
}

impl WordCounts {
    /// Each word is held once.
    #[verifier::type_invariant]
    spec fn wf(&self) -> bool {
        forall|a: int, b: int|
            0 <= a < b < self.entries@.len() ==> #[trigger] entry_word(self.entries@, a) != #[trigger] entry_word(
                self.entries@,
                b,
            )
    }

    /// No word seen yet.
    pub fn new() -> (r: WordCounts)
        ensures
            r@ == Map::<Seq<char>, u32>::empty(),
    {
        let r = WordCounts { entries: Vec::new() };
        assert(r@ =~= Map::<Seq<char>, u32>::empty());
        r
    }

    /// Position of `w` among the words seen, if it was seen.
    fn position(&self, w: &Vec<char>) -> (r: Option<usize>)
        ensures
            match r {
                Some(i) => i < self.entries@.len() && entry_word(self.entries@, i as int) == w@,
                None => forall|i: int| 0 <= i < self.entries@.len() ==> entry_word(self.entries@, i) != w@,
            },
    {
        let mut i: usize = 0;
        while i < self.entries.len()
            invariant
                i <= self.entries@.len(),
                forall|j: int| 0 <= j < i ==> entry_word(self.entries@, j) != w@,
            decreases self.entries.len() - i,
        {
            if chars_eq(&self.entries[i].0, w) {
                return Some(i);
            }
            i = i + 1;
        }
        None
    }

    /// The index holding `k`, among distinct words.
    proof fn lemma_only_index(&self, k: Seq<char>, i: int)
        requires
            self.wf(),
            0 <= i < self.entries@.len(),
            entry_word(self.entries@, i) == k,
        ensures
            self@.dom().contains(k),
            self@[k] == self.entries@[i].1,
    {
        let j = choose|j: int| 0 <= j < self.entries@.len() && #[trigger] entry_word(self.entries@, j) == k;
        if j < i {
            assert(entry_word(self.entries@, j) != entry_word(self.entries@, i));
        } else if i < j {
            assert(entry_word(self.entries@, i) != entry_word(self.entries@, j));
        }
    }

    /// The count of `word`, if it has been seen.
    pub fn count_of(&self, word: &str) -> (r: Option<u32>)
        ensures
            r == (if self@.dom().contains(word@) {
                Some(self@[word@])
            } else {
                None
            }),
    {
        proof {
            use_type_invariant(self);
        }
        let w = chars_of(word);
        match self.position(&w) {
            Some(i) => {
                proof {
                    self.lemma_only_index(word@, i as int);
                }
                Some(self.entries[i].1)
            },
            None => None,
        }
    }

    /// Records one more occurrence of `w`.
    pub fn add_word(&mut self, w: &Vec<char>)
        ensures
            final(self)@ == bump(old(self)@, w@),
    {
        proof {
            use_type_invariant(&*self);
        }
        let ghost m = self@;
        let ghost es = self.entries@;
        match self.position(w) {
            Some(i) => {
                proof {
                    self.lemma_only_index(w@, i as int);
                }
                let key = copy_range(&self.entries[i].0, 0, self.entries[i].0.len());
                assert(key@ =~= es[i as int].0@);
                let c = self.entries[i].1.wrapping_add(1);
                let mut held: Vec<(Vec<char>, u32)> = Vec::new();
                std::mem::swap(&mut held, &mut self.entries);
                held.set(i, (key, c));
                proof {
                    assert forall|a: int, b: int| 0 <= a < b < held@.len() implies #[trigger] entry_word(held@, a)
                        != #[trigger] entry_word(held@, b) by {
                        assert(entry_word(held@, a) == entry_word(es, a));
                        assert(entry_word(held@, b) == entry_word(es, b));
                    }
                }
                self.entries = held;
                proof {
                    assert forall|a: int| 0 <= a < es.len() implies entry_word(self.entries@, a) == entry_word(es, a) by {}
                    assert forall|k: Seq<char>| #[trigger] self@.dom().contains(k) == bump(m, w@).dom().contains(k) by {
                        if bump(m, w@).dom().contains(k) && k != w@ {
                            let a = choose|a: int| 0 <= a < es.len() && #[trigger] entry_word(es, a) == k;
                            assert(entry_word(self.entries@, a) == k);
                        }
                        if self@.dom().contains(k) {
                            let a = choose|a: int| 0 <= a < es.len() && #[trigger] entry_word(self.entries@, a) == k;
                            assert(entry_word(es, a) == k);
                        }
                    }
                    assert forall|k: Seq<char>| #[trigger] self@.dom().contains(k) implies self@[k] == bump(m, w@)[k] by {
                        let a = choose|a: int| 0 <= a < es.len() && #[trigger] entry_word(self.entries@, a) == k;
                        assert(entry_word(es, a) == k);
                        self.lemma_only_index(k, a);
                        if k != w@ {
                            assert(a != i);
                            assert(m.dom().contains(k));
                            let b = choose|b: int| 0 <= b < es.len() && #[trigger] entry_word(es, b) == k;
                            assert(a == b) by {
                                if a < b {
                                    assert(entry_word(es, a) != entry_word(es, b));
                                } else if b < a {
                                    assert(entry_word(es, b) != entry_word(es, a));
                                }
                            }
                        }
                    }
                    assert(self@ =~= bump(m, w@));
                }
            },
            None => {
                let key = copy_range(w, 0, w.len());
                assert(key@ =~= w@);
                let mut held: Vec<(Vec<char>, u32)> = Vec::new();
                std::mem::swap(&mut held, &mut self.entries);
                held.push((key, 1));
                let ghost n = es.len() as int;
                proof {
                    assert forall|a: int, b: int| 0 <= a < b < held@.len() implies #[trigger] entry_word(held@, a)
                        != #[trigger] entry_word(held@, b) by {
                        assert(entry_word(held@, a) == entry_word(es, a));
                        if b < n {
                            assert(entry_word(held@, b) == entry_word(es, b));
                        } else {
                            assert(entry_word(held@, b) == w@);
                        }
                    }
                }
                self.entries = held;
                proof {
                    assert(entry_word(self.entries@, n) == w@);
                    assert forall|a: int| 0 <= a < n implies entry_word(self.entries@, a) == entry_word(es, a) by {}
                    assert forall|k: Seq<char>| #[trigger] self@.dom().contains(k) == bump(m, w@).dom().contains(k) by {
                        if bump(m, w@).dom().contains(k) && k != w@ {
                            let a = choose|a: int| 0 <= a < es.len() && #[trigger] entry_word(es, a) == k;
                            assert(entry_word(self.entries@, a) == k);
                        }
                        if self@.dom().contains(k) && k != w@ {
                            let a = choose|a: int| 0 <= a < self.entries@.len() && #[trigger] entry_word(self.entries@, a) == k;
                            assert(a != n);
                            assert(entry_word(es, a) == k);
                        }
                    }
                    assert forall|k: Seq<char>| #[trigger] self@.dom().contains(k) implies self@[k] == bump(m, w@)[k] by {
                        let a = choose|a: int| 0 <= a < self.entries@.len() && #[trigger] entry_word(self.entries@, a) == k;
                        self.lemma_only_index(k, a);
                        if k != w@ {
                            assert(a != n);
                            assert(entry_word(es, a) == k);
                            let b = choose|b: int| 0 <= b < es.len() && #[trigger] entry_word(es, b) == k;
                            assert(a == b) by {
                                if a < b {
                                    assert(entry_word(es, a) != entry_word(es, b));
                                } else if b < a {
                                    assert(entry_word(es, b) != entry_word(es, a));
                                }
                            }
                        } else {
                            assert(a == n);
                        }
                    }
                    assert(self@ =~= bump(m, w@));
                }
            },
        }
    }

    /// Records the words of `line`, in order.
    pub fn add_line(&mut self, line: &str)
        ensures
            final(self)@ == tally(old(self)@, words(line@)),
    {
        let cs = chars_of(line);
        let ws = split_words(&cs);
        let ghost all = ws@.map_values(|w: Vec<char>| w@);
        let ghost start = self@;
        let mut i: usize = 0;
        assert(all.skip(0) =~= all);
        while i < ws.len()
            invariant
                i <= ws@.len(),
                all == ws@.map_values(|w: Vec<char>| w@),
                all == words(line@),
                tally(start, all) == tally(self@, all.skip(i as int)),
            decreases ws.len() - i,
        {
            assert(all.skip(i as int).drop_first() =~= all.skip(i + 1));
            assert(all.skip(i as int)[0] == ws@[i as int]@);
            self.add_word(&ws[i]);
            i = i + 1;
        }
    }

    /// Each word seen, with its count, in the order of first occurrence.
    pub fn entries(&self) -> (r: Vec<(String, u32)>)
        ensures
            r@.len() == self@.dom().len(),
            forall|i: int| 0 <= i < r@.len() ==> #[trigger] self@.dom().contains(r@[i].0@)
                && self@[r@[i].0@] == r@[i].1,
            forall|k: Seq<char>| #[trigger] self@.dom().contains(k) ==> exists|i: int|
                0 <= i < r@.len() && #[trigger] r@[i].0@ == k,
    {
        proof {
            use_type_invariant(self);
        }
        let mut r: Vec<(String, u32)> = Vec::new();
        let mut i: usize = 0;
        while i < self.entries.len()
            invariant
                i <= self.entries@.len(),
                r@.len() == i,
                forall|j: int| 0 <= j < i ==> #[trigger] r@[j].0@ == entry_word(self.entries@, j) && r@[j].1
                    == self.entries@[j].1,
            decreases self.entries.len() - i,
        {
            let name = string_of(self.entries[i].0.as_slice());
            r.push((name, self.entries[i].1));
            i = i + 1;
        }
        assert forall|j: int| 0 <= j < r@.len() implies #[trigger] self@.dom().contains(r@[j].0@)
            && self@[r@[j].0@] == r@[j].1 by {
            self.lemma_only_index(r@[j].0@, j);
        }
        assert forall|k: Seq<char>| #[trigger] self@.dom().contains(k) implies exists|i: int|
            0 <= i < r@.len() && #[trigger] r@[i].0@ == k by {
            let a = choose|a: int| 0 <= a < self.entries@.len() && #[trigger] entry_word(self.entries@, a) == k;
            assert(r@[a].0@ == k);
        }
        proof {
            let ks = Seq::new(self.entries@.len(), |a: int| entry_word(self.entries@, a));
            assert(self@.dom() =~= ks.to_set()) by {
                assert forall|k: Seq<char>| #[trigger] self@.dom().contains(k) implies ks.to_set().contains(k) by {
                    let a = choose|a: int| 0 <= a < self.entries@.len() && #[trigger] entry_word(self.entries@, a) == k;
                    assert(ks[a] == k);
                }
                assert forall|k: Seq<char>| #[trigger] ks.to_set().contains(k) implies self@.dom().contains(k) by {
                    let a = choose|a: int| 0 <= a < ks.len() && ks[a] == k;
                    assert(entry_word(self.entries@, a) == k);
                }
            }
            assert(ks.no_duplicates()) by {
                assert forall|a: int, b: int| 0 <= a < ks.len() && 0 <= b < ks.len() && a != b implies ks[a] != ks[b] by {
                    if a < b {
                        assert(entry_word(self.entries@, a) != entry_word(self.entries@, b));
                    } else {
                        assert(entry_word(self.entries@, b) != entry_word(self.entries@, a));
                    }
                }
            }
            ks.unique_seq_to_set();
        }
        r
    }
}

} // verus!
