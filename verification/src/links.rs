//! Reading the links out of the "Next" cells of a decision table.
//!
//! A "Next" cell lists the nodes that follow a node, for example
//! `txt1&nbsp;<a href="#id1">id1</a><br>txt2&nbsp;<a href="#id2">id2</a>`.

use vstd::prelude::*;
use vstd::string::StrSliceExecFns;
use crate::text::{
    append_chars, chars_of, contains, copy_range, find, find_from, find_from_exec,
    count_matches, free_of, is_whitespace, join, lemma_encode_utf8_add, lemma_split_join,
    lemma_trim_idempotent, lemma_find_from_bounds, lemma_find_from_shift,
    lemma_replace_absent, lemma_replace_leaves_none, lemma_trim_keeps_free, matches_at,
    replace, replace_exec, split, split_exec, string_of, trim, trim_exec, utf8_len,
    utf8_prefix_len,
};
use crate::bindings::{char_substring, substring};
use vstd::utf8::{encode_scalar, encode_utf8};

verus! {

/// `<br>`
pub open spec fn br_tag() -> Seq<char> {
    seq!['<', 'b', 'r', '>']
}

/// `</a>`
pub open spec fn anchor_end() -> Seq<char> {
    seq!['<', '/', 'a', '>']
}

/// `<a`
pub open spec fn anchor_start() -> Seq<char> {
    seq!['<', 'a']
}

/// `href`
pub open spec fn href() -> Seq<char> {
    seq!['h', 'r', 'e', 'f']
}

/// `href="#`
pub open spec fn href_hash() -> Seq<char> {
    seq!['h', 'r', 'e', 'f', '=', '"', '#']
}

/// `">`
pub open spec fn quote_gt() -> Seq<char> {
    seq!['"', '>']
}

/// `Al ritorno`, the text of links that lead back to an earlier node.
pub open spec fn back_link_text() -> Seq<char> {
    seq!['A', 'l', ' ', 'r', 'i', 't', 'o', 'r', 'n', 'o']
}

/// A link out of a node: the text of the choice and the id it leads to.
#[derive(Debug)]
pub struct Next {
    pub action: String,
    pub link: String,
}

/// The value of a `Next`.
pub struct NextView {
    pub action: Seq<char>,
    pub link: Seq<char>,
}

impl View for Next {
    type V = NextView;

    open spec fn view(&self) -> NextView {
        NextView { action: self.action@, link: self.link@ }
    }
}

/// `s` with each `<br>` turned into a space, then trimmed.
pub open spec fn clean(s: Seq<char>) -> Seq<char> {
    trim(replace(s, br_tag(), seq![' ']))
}

/// `clean(s)` with each remaining `<br>` turned into a space.
pub open spec fn clean_br(s: Seq<char>) -> Seq<char> {
    replace(clean(s), br_tag(), seq![' '])
}

/// Byte offset in `s` of the character at index `i`.
pub open spec fn byte_offset(s: Seq<char>, i: int) -> int {
    utf8_len(s.take(i)) as int
}

/// Byte offset of the first occurrence of `pat` in `s`, `str::find`.
pub open spec fn byte_find(s: Seq<char>, pat: Seq<char>) -> Option<int> {
    match find(s, pat) {
        Some(i) => Some(byte_offset(s, i)),
        None => None,
    }
}

/// The target id of a link cell.  The cell is cleaned; for a link back
/// (`Al ritorno`) the id is what stands between `href="#` and `">`,
/// otherwise what follows `">`.  The offsets `str::find` gives are bytes,
/// and they are then used as character positions.
pub open spec fn link_target(link: Seq<char>) -> Option<Seq<char>> {
    if link.len() == 0 || !contains(link, href()) {
        None
    } else {
        let t = trim(clean(link));
        if contains(link, back_link_text()) {
            let start = match byte_find(t, href_hash()) {
                Some(x) => x + 7,
                None => 0,
            };
            let end = match byte_find(t, quote_gt()) {
                Some(x) => x,
                None => 0,
            };
            Some(char_substring(t, start, end))
        } else {
            let start = match byte_find(t, quote_gt()) {
                Some(x) => x + 2,
                None => 0,
            };
            Some(char_substring(t, start, utf8_len(t) as int))
        }
    }
}

/// The links read from the pieces `v[i..]` of a cell split at `</a>`,
/// appended to `acc`, stopping once `limit` links are collected.
pub open spec fn collect_links(v: Seq<Seq<char>>, i: int, acc: Seq<NextView>, limit: int) -> Seq<
    NextView,
>
    decreases v.len() - i,
{
    if i < 0 || i >= v.len() || acc.len() >= limit {
        acc
    } else {
        let b = split(v[i], anchor_start());
        if b.len() > 1 {
            match link_target(b[1]) {
                Some(l) => collect_links(
                    v,
                    i + 1,
                    acc.push(NextView { action: clean(b[0]), link: l }),
                    limit,
                ),
                None => collect_links(v, i + 1, acc, limit),
            }
        } else {
            match link_target(b[0]) {
                Some(l) => collect_links(
                    v,
                    i + 1,
                    acc.push(NextView { action: Seq::empty(), link: l }),
                    limit,
                ),
                None => collect_links(v, i + 1, acc, limit),
            }
        }
    }
}

/// The links of a "Next" cell, in order.
pub open spec fn next_items(td: Seq<char>) -> Seq<NextView> {
    let v = split(td, anchor_end());
    if v.len() > 1 {
        collect_links(v, 0, Seq::empty(), v.len() - 1)
    } else {
        match link_target(v[0]) {
            Some(l) => seq![NextView { action: Seq::empty(), link: l }],
            None => Seq::empty(),
        }
    }
}

/// Splitting by a nonempty pattern gives at least one piece.
pub proof fn lemma_split_nonempty(s: Seq<char>, pat: Seq<char>)
    requires
        pat.len() > 0,
    ensures
        split(s, pat).len() >= 1,
{
    reveal_with_fuel(split, 2);
}

/// `<br>` in a vector.
fn br_tag_exec() -> (v: Vec<char>)
    ensures
        v@ == br_tag(),
{
    let v = vec!['<', 'b', 'r', '>'];
    assert(v@ =~= br_tag());
    v
}

/// Turns each `<br>` into a space and trims the result.
pub fn string_clean(s: String) -> (r: String)
    ensures
        r@ == clean(s@),
{
    let cs = chars_of(s.as_str());
    let sp = vec![' '];
    assert(sp@ =~= seq![' ']);
    let replaced = replace_exec(&cs, &br_tag_exec(), &sp);
    let t = trim_exec(&replaced);
    string_of(t.as_slice())
}

/// `string_clean`, then each remaining `<br>` turned into a space.
pub fn string_clean_br(s: String) -> (r: String)
    ensures
        r@ == clean_br(s@),
{
    let c = string_clean(s);
    let cs = chars_of(c.as_str());
    let sp = vec![' '];
    assert(sp@ =~= seq![' ']);
    let replaced = replace_exec(&cs, &br_tag_exec(), &sp);
    string_of(replaced.as_slice())
}

proof fn lemma_utf8_len_at_least_len(s: Seq<char>)
    ensures
        utf8_len(s) >= s.len(),
    decreases s.len(),
{
    if s.len() > 0 {
        lemma_utf8_len_at_least_len(s.drop_first());
        vstd::utf8::char_is_scalar(s[0]);
    }
}

/// The byte offset of a match, plus the length of the pattern in
/// characters, stays within the byte length of `s`.
pub proof fn lemma_match_byte_bound(s: Seq<char>, pat: Seq<char>, x: int)
    requires
        matches_at(s, pat, x),
    ensures
        byte_offset(s, x) + pat.len() <= utf8_len(s),
{
    let y = x + pat.len();
    lemma_encode_utf8_add(s.take(x), s.subrange(x, y));
    assert(s.take(x) + s.subrange(x, y) =~= s.take(y));
    lemma_encode_utf8_add(s.take(y), s.skip(y));
    assert(s.take(y) + s.skip(y) =~= s);
    lemma_utf8_len_at_least_len(s.subrange(x, y));
}

/// Byte offset of the first occurrence of `pat` in `s`.
fn byte_find_exec(s: &Vec<char>, pat: &Vec<char>) -> (r: Option<usize>)
    requires
        utf8_len(s@) <= usize::MAX,
    ensures
        match r {
            Some(b) => byte_find(s@, pat@) == Some(b as int) && b + pat@.len() <= utf8_len(s@),
            None => byte_find(s@, pat@) is None,
        },
{
    match find_from_exec(s, pat, 0) {
        Some(x) => {
            proof {
                lemma_find_from_bounds(s@, pat@, 0);
                lemma_match_byte_bound(s@, pat@, x as int);
            }
            Some(utf8_prefix_len(s, x))
        },
        None => None,
    }
}

fn contains_exec(s: &Vec<char>, pat: &Vec<char>) -> (r: bool)
    ensures
        r == contains(s@, pat@),
{
    find_from_exec(s, pat, 0).is_some()
}

/// The target id of a link cell, or `None` when it holds no `href`.
pub fn get_link(link: &String) -> (r: Option<String>)
    ensures
        r matches Some(s) ==> link_target(link@) == Some(s@),
        r is None ==> link_target(link@) is None,
{
    let lc = chars_of(link.as_str());
    let href_v = vec!['h', 'r', 'e', 'f'];
    assert(href_v@ =~= href());
    if link.as_str().is_empty() || !contains_exec(&lc, &href_v) {
        return None;
    }
    let cleaned = string_clean(link.clone());
    let cleaned_chars = chars_of(cleaned.as_str());
    let trimmed = trim_exec(&cleaned_chars);
    let t_string = string_of(trimmed.as_slice());
    let t = chars_of(t_string.as_str());
    let quote_gt_v = vec!['"', '>'];
    assert(quote_gt_v@ =~= quote_gt());
    let back = vec!['A', 'l', ' ', 'r', 'i', 't', 'o', 'r', 'n', 'o'];
    assert(back@ =~= back_link_text());
    let start: usize;
    let end: usize;
    if contains_exec(&lc, &back) {
        let hh = vec!['h', 'r', 'e', 'f', '=', '"', '#'];
        assert(hh@ =~= href_hash());
        start = match byte_find_exec(&t, &hh) {
            Some(x) => x + 7,
            None => 0,
        };
        end = match byte_find_exec(&t, &quote_gt_v) {
            Some(x) => x,
            None => 0,
        };
    } else {
        start = match byte_find_exec(&t, &quote_gt_v) {
            Some(x) => x + 2,
            None => 0,
        };
        end = utf8_prefix_len(&t, t.len());
        assert(t@.take(t@.len() as int) =~= t@);
    }
    Some(substring(t_string.as_str(), start, end))
}


fn anchor_end_exec() -> (v: Vec<char>)
    ensures
        v@ == anchor_end(),
{
    let v = vec!['<', '/', 'a', '>'];
    assert(v@ =~= anchor_end());
    v
}

fn anchor_start_exec() -> (v: Vec<char>)
    ensures
        v@ == anchor_start(),
{
    let v = vec!['<', 'a'];
    assert(v@ =~= anchor_start());
    v
}

/// The links of a "Next" cell, in order.
pub fn get_next_item(td: &str) -> (r: Vec<Next>)
    ensures
        r@.map_values(|n: Next| n@) == next_items(td@),
{
    let tdc = chars_of(td);
    let v = split_exec(&tdc, &anchor_end_exec());
    let ghost vv = v@.map_values(|p: Vec<char>| p@);
    let mut list: Vec<Next> = Vec::new();
    proof {
        lemma_split_nonempty(td@, anchor_end());
    }
    if v.len() > 1 {
        let ghost lim = vv.len() - 1;
        let mut i: usize = 0;
        assert(list@.map_values(|n: Next| n@) =~= Seq::<NextView>::empty());
        while i < v.len() && list.len() <= v.len() - 2
            invariant
                vv == v@.map_values(|p: Vec<char>| p@),
                vv == split(td@, anchor_end()),
                vv.len() > 1,
                lim == vv.len() - 1,
                i <= v@.len(),
                collect_links(vv, 0, Seq::empty(), lim) == collect_links(
                    vv,
                    i as int,
                    list@.map_values(|n: Next| n@),
                    lim,
                ),
            decreases v.len() - i,
        {
            let ghost acc = list@.map_values(|n: Next| n@);
            assert(vv[i as int] == v@[i as int]@);
            let b = split_exec(&v[i], &anchor_start_exec());
            let ghost bb = b@.map_values(|p: Vec<char>| p@);
            proof {
                lemma_split_nonempty(v@[i as int]@, anchor_start());
            }
            if b.len() > 1 {
                let target = string_of(b[1].as_slice());
                assert(bb[1] == b@[1]@);
                match get_link(&target) {
                    Some(l) => {
                        let action = string_clean(string_of(b[0].as_slice()));
                        assert(bb[0] == b@[0]@);
                        let n = Next { action, link: l };
                        list.push(n);
                        assert(list@.map_values(|n: Next| n@) =~= acc.push(n@));
                    },
                    None => {},
                }
            } else {
                let target = string_of(b[0].as_slice());
                assert(bb[0] == b@[0]@);
                match get_link(&target) {
                    Some(l) => {
                        let n = Next { action: string_of(&[]), link: l };
                        assert(n@.action =~= Seq::<char>::empty());
                        list.push(n);
                        assert(list@.map_values(|n: Next| n@) =~= acc.push(n@));
                    },
                    None => {},
                }
            }
            i = i + 1;
        }
        list
    } else {
        let target = string_of(v[0].as_slice());
        assert(vv[0] == v@[0]@);
        match get_link(&target) {
            Some(l) => {
                let n = Next { action: string_of(&[]), link: l };
                assert(n@.action =~= Seq::<char>::empty());
                list.push(n);
                assert(list@.map_values(|n: Next| n@) =~= seq![n@]);
            },
            None => {
                assert(list@.map_values(|n: Next| n@) =~= Seq::<NextView>::empty());
            },
        }
        list
    }
}

/// The pieces of a cell between its `<br>` tags.
pub fn split_td<'a>(td: &'a str) -> (r: Vec<&'a str>)
    ensures
        r@.map_values(|p: &str| p@) == split(td@, br_tag()),
{
    let s = chars_of(td);
    let pat = br_tag_exec();
    let mut r: Vec<&'a str> = Vec::new();
    let mut pos: usize = 0;
    assert(s@.skip(0) =~= s@);
    assert(r@.map_values(|p: &str| p@) =~= Seq::<Seq<char>>::empty());
    loop
        invariant
            s@ == td@,
            pat@ == br_tag(),
            pos <= s@.len(),
            r@.map_values(|p: &str| p@) + split(s@.skip(pos as int), pat@) == split(s@, pat@),
        decreases s@.len() - pos,
    {
        let ghost rest = s@.skip(pos as int);
        let f = find_from_exec(&s, &pat, pos);
        proof {
            lemma_find_from_bounds(s@, pat@, pos as int);
            lemma_find_from_shift(s@, pat@, pos as int);
            lemma_find_from_bounds(rest, pat@, 0);
        }
        let ghost before = r@.map_values(|p: &str| p@);
        match f {
            Some(k) => {
                assert(matches_at(s@, pat@, k as int));
                assert(k + pat.len() <= s.len());
                let piece = td.substring_char(pos, k);
                proof {
                    assert(find(rest, pat@) == Some(k - pos));
                    assert(rest.take(k - pos) =~= piece@);
                    assert(rest.skip(k - pos + pat@.len()) =~= s@.skip(k + pat@.len()));
                }
                r.push(piece);
                assert(r@.map_values(|p: &str| p@) =~= before.push(piece@));
                assert(before + split(rest, pat@) =~= before.push(piece@) + split(
                    s@.skip(k + pat@.len()),
                    pat@,
                ));
                pos = k + pat.len();
            },
            None => {
                let piece = td.substring_char(pos, s.len());
                proof {
                    assert(find(rest, pat@) is None);
                    assert(rest =~= piece@);
                }
                r.push(piece);
                assert(r@.map_values(|p: &str| p@) =~= before.push(piece@));
                assert(before + split(rest, pat@) =~= before.push(piece@));
                return r;
            },
        }
    }
}


/// After `string_clean` no `<br>` is left, so the second pass of
/// `string_clean_br` changes nothing: both give the same text.
pub proof fn lemma_clean_br_is_clean(s: Seq<char>)
    ensures
        clean_br(s) == clean(s),
        free_of(clean(s), br_tag()),
{
    assert(!br_tag().contains(' ')) by {
        if br_tag().contains(' ') {
            let k = choose|k: int| 0 <= k < br_tag().len() && br_tag()[k] == ' ';
        }
    }
    lemma_replace_leaves_none(s, br_tag(), ' ');
    lemma_trim_keeps_free(replace(s, br_tag(), seq![' ']), br_tag());
    lemma_replace_absent(clean(s), br_tag(), seq![' ']);
}

/// Cleaning a cleaned text changes nothing, and a cleaned text neither
/// starts nor ends with whitespace.
pub proof fn lemma_clean_idempotent(s: Seq<char>)
    ensures
        clean(clean(s)) == clean(s),
        clean(s).len() > 0 ==> !is_whitespace(clean(s)[0]) && !is_whitespace(clean(s).last()),
{
    lemma_clean_br_is_clean(s);
    lemma_replace_absent(clean(s), br_tag(), seq![' ']);
    lemma_trim_idempotent(replace(s, br_tag(), seq![' ']));
}

/// The pieces of a cell joined with `<br>` give the cell back; there is
/// one more piece than there are `<br>` tags, and no piece holds one.
pub proof fn lemma_split_td_pieces(td: Seq<char>)
    ensures
        join(split(td, br_tag()), br_tag()) == td,
        split(td, br_tag()).len() == count_matches(td, br_tag()) + 1,
        forall|k: int| 0 <= k < split(td, br_tag()).len() ==> free_of(#[trigger] split(td, br_tag())[k], br_tag()),
{
    lemma_split_join(td, br_tag());
}

} // verus!
