//! The order of strings, and sorted lists without repetitions.

use vstd::prelude::*;
use crate::text::{chars_eq, chars_of, lex_lt, lex_lt_exec};

verus! {

/// No string comes before itself.
pub proof fn lemma_lex_lt_irreflexive(a: Seq<char>)
    ensures
        !lex_lt(a, a),
    decreases a.len(),
{
    if a.len() > 0 {
        lemma_lex_lt_irreflexive(a.drop_first());
    }
}

/// The order of strings is transitive.
pub proof fn lemma_lex_lt_transitive(a: Seq<char>, b: Seq<char>, c: Seq<char>)
    requires
        lex_lt(a, b),
        lex_lt(b, c),
    ensures
        lex_lt(a, c),
    decreases a.len(),
{
    if a.len() > 0 && b.len() > 0 && c.len() > 0 && a[0] == b[0] && b[0] == c[0] {
        lemma_lex_lt_transitive(a.drop_first(), b.drop_first(), c.drop_first());
    }
}

/// Of two different strings, one comes before the other.
pub proof fn lemma_lex_lt_total(a: Seq<char>, b: Seq<char>)
    requires
        a != b,
    ensures
        lex_lt(a, b) || lex_lt(b, a),
    decreases a.len(),
{
    if a.len() == 0 {
        assert(b.len() > 0) by {
            if b.len() == 0 {
                assert(a =~= b);
            }
        }
    } else if b.len() == 0 {
    } else if a[0] != b[0] {
        assert((a[0] as u32) != (b[0] as u32)) by {
            vstd::utf8::char_u32_cast(a[0], a[0] as u32);
            vstd::utf8::char_u32_cast(b[0], b[0] as u32);
        }
    } else {
        if a.drop_first() == b.drop_first() {
            assert(a =~= seq![a[0]] + a.drop_first());
            assert(b =~= seq![b[0]] + b.drop_first());
        }
        lemma_lex_lt_total(a.drop_first(), b.drop_first());
    }
}

/// Each string of `s` comes strictly before the later ones.
pub open spec fn strictly_sorted(s: Seq<Seq<char>>) -> bool {
    forall|i: int, j: int| 0 <= i < j < s.len() ==> lex_lt(#[trigger] s[i], #[trigger] s[j])
}

/// The values of a list of strings.
pub open spec fn strings_view(v: Seq<String>) -> Seq<Seq<char>> {
    v.map_values(|s: String| s@)
}

/// Puts `x` into the sorted list `v` unless it is there already.
pub fn insert_sorted(v: &mut Vec<String>, x: String)
    requires
        strictly_sorted(strings_view(old(v)@)),
    ensures
        strictly_sorted(strings_view(final(v)@)),
        strings_view(final(v)@).to_set() == strings_view(old(v)@).to_set().insert(x@),
{
    let ghost sv = strings_view(v@);
    let xc = chars_of(x.as_str());
    let mut j: usize = 0;
    while j < v.len() && lex_lt_exec(&chars_of(v[j].as_str()), &xc)
        invariant
            sv == strings_view(v@),
            strictly_sorted(sv),
            j <= sv.len(),
            xc@ == x@,
            forall|i: int| 0 <= i < j ==> lex_lt(#[trigger] sv[i], x@),
        decreases v.len() - j,
    {
        j = j + 1;
    }
    if j < v.len() && chars_eq(&chars_of(v[j].as_str()), &xc) {
        assert(sv.to_set().insert(x@) =~= sv.to_set()) by {
            assert(sv[j as int] == x@);
        }
        return ;
    }
    proof {
        if j < sv.len() {
            assert(sv[j as int] != x@);
            lemma_lex_lt_total(sv[j as int], x@);
        }
    }
    v.insert(j, x);
    let ghost nv = strings_view(v@);
    assert(nv =~= sv.insert(j as int, xc@));
    proof {
        assert forall|a: int, b: int| 0 <= a < b < nv.len() implies lex_lt(
            #[trigger] nv[a],
            #[trigger] nv[b],
        ) by {
            if b < j {
            } else if b == j {
                assert(nv[b] == x@);
            } else if a < j {
                assert(nv[b] == sv[b - 1]);
                if b - 1 > j {
                    lemma_lex_lt_transitive(x@, sv[j as int], sv[b - 1]);
                }
                lemma_lex_lt_transitive(nv[a], x@, nv[b]);
            } else if a == j {
                assert(nv[b] == sv[b - 1]);
                if b - 1 > j {
                    lemma_lex_lt_transitive(x@, sv[j as int], sv[b - 1]);
                }
            } else {
                assert(nv[a] == sv[a - 1]);
                assert(nv[b] == sv[b - 1]);
            }
        }
        assert forall|y: Seq<char>| nv.to_set().contains(y) <==> sv.to_set().insert(x@).contains(y) by {
            if nv.contains(y) {
                let k = choose|k: int| 0 <= k < nv.len() && nv[k] == y;
                if k < j {
                    assert(sv[k] == y);
                } else if k > j {
                    assert(sv[k - 1] == y);
                }
            }
            if sv.contains(y) {
                let k = choose|k: int| 0 <= k < sv.len() && sv[k] == y;
                if k < j {
                    assert(nv[k] == y);
                } else {
                    assert(nv[k + 1] == y);
                }
            }
            if y == x@ {
                assert(nv[j as int] == y);
            }
        }
        assert(nv.to_set() =~= sv.to_set().insert(x@));
    }
}

/// Pushing `x` adds it to the set of elements.
pub proof fn lemma_push_to_set<A>(s: Seq<A>, x: A)
    ensures
        s.push(x).to_set() == s.to_set().insert(x),
{
    assert forall|y: A| s.push(x).to_set().contains(y) <==> s.to_set().insert(x).contains(y) by {
        if s.push(x).contains(y) {
            let k = choose|k: int| 0 <= k < s.push(x).len() && s.push(x)[k] == y;
            if k < s.len() {
                assert(s[k] == y);
            }
        }
        if s.contains(y) {
            let k = choose|k: int| 0 <= k < s.len() && s[k] == y;
            assert(s.push(x)[k] == y);
        }
        if y == x {
            assert(s.push(x)[s.len() as int] == y);
        }
    }
    assert(s.push(x).to_set() =~= s.to_set().insert(x));
}

/// A sorted list whose strings all come from `b` is no longer than `b`.
pub proof fn lemma_sorted_len_bound(a: Seq<Seq<char>>, b: Seq<Seq<char>>)
    requires
        strictly_sorted(a),
        a.to_set() == b.to_set(),
    ensures
        a.len() <= b.len(),
{
    assert(a.no_duplicates()) by {
        assert forall|i: int, j: int| 0 <= i < a.len() && 0 <= j < a.len() && i != j implies a[i] != a[j] by {
            if i < j {
                lemma_lex_lt_irreflexive(a[i]);
            } else {
                lemma_lex_lt_irreflexive(a[j]);
            }
        }
    }
    a.unique_seq_to_set();
    b.lemma_cardinality_of_set();
}

} // verus!
