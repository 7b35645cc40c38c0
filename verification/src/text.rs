//! Lexicographic ordering of path strings, and a verified sort.
//!
//! Discovered photo paths must come out in ascending lexicographic order of
//! the full path string: this order is the sole mechanism by which files are
//! later paired with exposure rows.

use vstd::prelude::*;

verus! {

use vstd::multiset::Multiset;
use vstd::relations::{sorted_by, total_ordering};
use vstd::seq_lib::{to_multiset_build, to_multiset_contains, to_multiset_insert,
    to_multiset_len, to_multiset_remove};

/// Lexicographic order on character sequences, by Unicode code point.
pub open spec fn lex_le(a: Seq<char>, b: Seq<char>) -> bool
    decreases a.len(),
{
    if a.len() == 0 {
        true
    } else if b.len() == 0 {
        false
    } else if a[0] == b[0] {
        lex_le(a.drop_first(), b.drop_first())
    } else {
        (a[0] as u32) < (b[0] as u32)
    }
}

/// The ordering as a binary relation value, for vstd's ordering predicates.
pub open spec fn lex_leq_fn() -> spec_fn(Seq<char>, Seq<char>) -> bool {
    |a: Seq<char>, b: Seq<char>| lex_le(a, b)
}

pub proof fn lemma_lex_le_refl(a: Seq<char>)
    ensures
        lex_le(a, a),
    decreases a.len(),
{
    if a.len() > 0 {
        lemma_lex_le_refl(a.drop_first());
    }
}

pub proof fn lemma_lex_le_total(a: Seq<char>, b: Seq<char>)
    ensures
        lex_le(a, b) || lex_le(b, a),
    decreases a.len(),
{
    if a.len() > 0 && b.len() > 0 {
        if a[0] == b[0] {
            lemma_lex_le_total(a.drop_first(), b.drop_first());
        } else {
            vstd::utf8::char_u32_cast(a[0], a[0] as u32);
            vstd::utf8::char_u32_cast(b[0], b[0] as u32);
            assert((a[0] as u32) != (b[0] as u32));
        }
    }
}

pub proof fn lemma_lex_le_antisym(a: Seq<char>, b: Seq<char>)
    requires
        lex_le(a, b),
        lex_le(b, a),
    ensures
        a == b,
    decreases a.len(),
{
    if a.len() > 0 && b.len() > 0 && a[0] == b[0] {
        lemma_lex_le_antisym(a.drop_first(), b.drop_first());
        assert(a =~= seq![a[0]] + a.drop_first());
        assert(b =~= seq![b[0]] + b.drop_first());
    } else {
        assert(a =~= b);
    }
}

pub proof fn lemma_lex_le_trans(a: Seq<char>, b: Seq<char>, c: Seq<char>)
    requires
        lex_le(a, b),
        lex_le(b, c),
    ensures
        lex_le(a, c),
    decreases a.len(),
{
    if a.len() > 0 && b.len() > 0 && c.len() > 0 && a[0] == b[0] && b[0] == c[0] {
        lemma_lex_le_trans(a.drop_first(), b.drop_first(), c.drop_first());
    }
}

/// Lexicographic order is a total order, so a sorted arrangement of any
/// multiset of paths is unique.
pub proof fn lemma_lex_total_ordering()
    ensures
        total_ordering(lex_leq_fn()),
{
    let leq = lex_leq_fn();
    assert forall|a: Seq<char>| #[trigger] leq(a, a) by {
        lemma_lex_le_refl(a);
    }
    assert forall|a: Seq<char>, b: Seq<char>| #[trigger] leq(a, b) && #[trigger] leq(b, a)
        implies a == b by {
        lemma_lex_le_antisym(a, b);
    }
    assert forall|a: Seq<char>, b: Seq<char>, c: Seq<char>|
        #[trigger] leq(a, b) && #[trigger] leq(b, c) implies leq(a, c) by {
        lemma_lex_le_trans(a, b, c);
    }
    assert forall|a: Seq<char>, b: Seq<char>| #[trigger] leq(a, b) || #[trigger] leq(b, a) by {
        lemma_lex_le_total(a, b);
    }
}

/// Decides the lexicographic order of two strings, character by character.
pub fn str_lex_le(a: &str, b: &str) -> (r: bool)
    ensures
        r == lex_le(a@, b@),
{
    let a_len = a.unicode_len();
    let b_len = b.unicode_len();
    let mut i: usize = 0;
    proof {
        assert(a@.skip(0) =~= a@);
        assert(b@.skip(0) =~= b@);
    }
    loop
        invariant
            0 <= i <= a_len,
            i <= b_len,
            a_len == a@.len(),
            b_len == b@.len(),
            lex_le(a@, b@) == lex_le(a@.skip(i as int), b@.skip(i as int)),
        decreases a_len - i,
    {
        if i == a_len {
            assert(a@.skip(i as int).len() == 0);
            return true;
        }
        if i == b_len {
            assert(b@.skip(i as int).len() == 0);
            assert(a@.skip(i as int).len() > 0);
            return false;
        }
        let ca = a.get_char(i);
        let cb = b.get_char(i);
        if ca != cb {
            assert(a@.skip(i as int)[0] == ca && b@.skip(i as int)[0] == cb);
            return (ca as u32) < (cb as u32);
        }
        proof {
            assert(a@.skip(i as int).drop_first() =~= a@.skip(i + 1));
            assert(b@.skip(i as int).drop_first() =~= b@.skip(i + 1));
            assert(a@.skip(i as int)[0] == b@.skip(i as int)[0]);
        }
        i = i + 1;
    }
}

/// The views of a sequence of strings, element by element.
pub open spec fn views_of(s: Seq<String>) -> Seq<Seq<char>> {
    s.map_values(|x: String| x@)
}

/// Index of a least element of `v` under the lexicographic order.
fn index_of_min(v: &Vec<String>) -> (m: usize)
    requires
        v@.len() > 0,
    ensures
        m < v@.len(),
        forall|k: int| 0 <= k < v@.len() ==> lex_le(v@[m as int]@, #[trigger] v@[k]@),
{
    let mut m: usize = 0;
    let mut j: usize = 1;
    proof {
        lemma_lex_le_refl(v@[0]@);
    }
    while j < v.len()
        invariant
            0 < j <= v@.len(),
            m < j,
            forall|k: int| 0 <= k < j ==> lex_le(v@[m as int]@, #[trigger] v@[k]@),
        decreases v@.len() - j,
    {
        if str_lex_le(v[j].as_str(), v[m].as_str()) {
            proof {
                assert forall|k: int| 0 <= k < j + 1 implies lex_le(v@[j as int]@, #[trigger] v@[k]@) by {
                    if k < j {
                        lemma_lex_le_trans(v@[j as int]@, v@[m as int]@, v@[k]@);
                    } else {
                        lemma_lex_le_refl(v@[j as int]@);
                    }
                }
            }
            m = j;
        } else {
            proof {
                lemma_lex_le_total(v@[j as int]@, v@[m as int]@);
            }
        }
        j = j + 1;
    }
    m
}

/// Sorts path strings into ascending lexicographic order.  The result is
/// sorted and holds exactly the input strings; by `lemma_lex_total_ordering`
/// and `vstd::seq_lib::lemma_sorted_unique` it is the unique such sequence.
pub fn sort_paths(v: Vec<String>) -> (r: Vec<String>)
    ensures
        sorted_by(views_of(r@), lex_leq_fn()),
        views_of(r@).to_multiset() == views_of(v@).to_multiset(),
        r@.to_multiset() == v@.to_multiset(),
        r@.len() == v@.len(),
{
    broadcast use vstd::multiset::group_multiset_axioms;

    let mut rest = v;
    let ghost orig: Seq<String> = rest@;
    let mut out: Vec<String> = Vec::new();
    proof {
        to_multiset_len(out@);
        assert(out@.to_multiset().add(rest@.to_multiset()) =~= orig.to_multiset());
    }
    while rest.len() > 0
        invariant
            sorted_by(views_of(out@), lex_leq_fn()),
            out@.to_multiset().add(rest@.to_multiset()) =~= orig.to_multiset(),
            forall|i: int, j: int|
                0 <= i < out@.len() && 0 <= j < rest@.len() ==> lex_le(
                    #[trigger] out@[i]@,
                    #[trigger] rest@[j]@,
                ),
        decreases rest@.len(),
    {
        let m = index_of_min(&rest);
        let ghost old_out = out@;
        let ghost old_rest = rest@;
        let x = rest.remove(m);
        out.push(x);
        proof {
            assert(out@ =~= old_out.push(x));
            assert(rest@ =~= old_rest.remove(m as int));
            to_multiset_build(old_out, x);
            to_multiset_remove(old_rest, m as int);
            to_multiset_contains(old_rest, x);
            assert(old_rest.contains(x));
            assert(out@.to_multiset().add(rest@.to_multiset()) =~= orig.to_multiset());
            assert(views_of(out@) =~= views_of(old_out).push(x@));
            assert forall|i: int, j: int|
                0 <= i < j < views_of(out@).len() implies lex_leq_fn()(
                views_of(out@)[i],
                views_of(out@)[j],
            ) by {
                if j < old_out.len() {
                    assert(lex_leq_fn()(views_of(old_out)[i], views_of(old_out)[j]));
                } else {
                    assert(views_of(out@)[j] == x@);
                    assert(lex_le(old_out[i]@, old_rest[m as int]@));
                }
            }
            assert forall|i: int, j: int|
                0 <= i < out@.len() && 0 <= j < rest@.len() implies lex_le(
                #[trigger] out@[i]@,
                #[trigger] rest@[j]@,
            ) by {
                let jj: int = if j < m { j } else { j + 1 };
                assert(rest@[j] == old_rest[jj]);
                if i < old_out.len() {
                    assert(lex_le(old_out[i]@, old_rest[jj]@));
                } else {
                    assert(out@[i] == x);
                    assert(lex_le(old_rest[m as int]@, old_rest[jj]@));
                }
            }
        }
    }
    proof {
        to_multiset_len(rest@);
        assert(rest@.to_multiset() =~= Multiset::<String>::empty());
        assert(out@.to_multiset() =~= orig.to_multiset());
        to_multiset_len(out@);
        to_multiset_len(orig);
        lemma_views_multiset(out@, orig);
    }
    out
}

/// Sequences holding the same strings hold the same string views.
proof fn lemma_views_multiset(a: Seq<String>, b: Seq<String>)
    requires
        a.to_multiset() == b.to_multiset(),
    ensures
        views_of(a).to_multiset() == views_of(b).to_multiset(),
    decreases a.len(),
{
    broadcast use vstd::multiset::group_multiset_axioms;

    to_multiset_len(a);
    to_multiset_len(b);
    if a.len() == 0 {
        assert(views_of(a) =~= views_of(b));
    } else {
        let x = a.last();
        assert(a =~= a.drop_last().push(x));
        to_multiset_build(a.drop_last(), x);
        to_multiset_contains(a, x);
        assert(a.contains(x));
        assert(a.to_multiset().count(x) > 0);
        to_multiset_contains(b, x);
        assert(b.contains(x));
        let i = choose|i: int| 0 <= i < b.len() && b[i] == x;
        to_multiset_remove(b, i);
        assert(a.drop_last().to_multiset() =~= b.remove(i).to_multiset());
        lemma_views_multiset(a.drop_last(), b.remove(i));
        assert(views_of(a) =~= views_of(a.drop_last()).push(x@));
        to_multiset_build(views_of(a.drop_last()), x@);
        assert(views_of(b) =~= views_of(b.remove(i)).insert(i, x@));
        to_multiset_insert(views_of(b.remove(i)), i, x@);
        assert(views_of(a).to_multiset() =~= views_of(b).to_multiset());
    }
}

} // verus!
