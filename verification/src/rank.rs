//! Ranking spots by descending score, ties broken by path.

use vstd::prelude::*;
use vstd::seq_lib::lemma_multiset_commutative;
use vstd::string::*;

use crate::score::Spot;

verus! {

/// Lexicographic "at most" on character sequences, by code point.
pub open spec fn lex_le(a: Seq<char>, b: Seq<char>) -> bool
    decreases a.len(),
{
    if a.len() == 0 {
        true
    } else if b.len() == 0 {
        false
    } else if a[0] == b[0] {
        lex_le(a.drop_first(), b.drop_first())
    } else {
        (a[0] as u32) < (b[0] as u32)
    }
}

proof fn lemma_lex_le_total(a: Seq<char>, b: Seq<char>)
    ensures
        lex_le(a, b) || lex_le(b, a),
    decreases a.len(),
{
    if a.len() > 0 && b.len() > 0 {
        if a[0] == b[0] {
            lemma_lex_le_total(a.drop_first(), b.drop_first());
        } else {
            // Distinct characters have distinct code points.
            vstd::utf8::char_u32_cast(a[0], a[0] as u32);
            vstd::utf8::char_u32_cast(b[0], b[0] as u32);
        }
    }
}

proof fn lemma_lex_le_refl(a: Seq<char>)
    ensures
        lex_le(a, a),
    decreases a.len(),
{
    if a.len() > 0 {
        lemma_lex_le_refl(a.drop_first());
    }
}

proof fn lemma_lex_le_antisym(a: Seq<char>, b: Seq<char>)
    requires
        lex_le(a, b),
        lex_le(b, a),
    ensures
        a == b,
    decreases a.len(),
{
    if a.len() == 0 {
        assert(b.len() == 0);
        assert(a =~= b);
    } else {
        assert(b.len() > 0);
        if a[0] == b[0] {
            lemma_lex_le_antisym(a.drop_first(), b.drop_first());
            assert(a.len() == b.len());
            assert forall|i: int| 0 <= i < a.len() implies a[i] == b[i] by {
                if i > 0 {
                    assert(a[i] == a.drop_first()[i - 1]);
                    assert(b[i] == b.drop_first()[i - 1]);
                    assert(a.drop_first()[i - 1] == b.drop_first()[i - 1]);
                }
            }
            assert(a =~= b);
        }
    }
}

proof fn lemma_lex_le_trans(a: Seq<char>, b: Seq<char>, c: Seq<char>)
    requires
        lex_le(a, b),
        lex_le(b, c),
    ensures
        lex_le(a, c),
    decreases a.len(),
{
    if a.len() > 0 && b.len() > 0 && c.len() > 0 && a[0] == b[0] && b[0] == c[0] {
        lemma_lex_le_trans(a.drop_first(), b.drop_first(), c.drop_first());
    }
}

/// Lexicographic comparison of two paths, by code point.
fn str_le(a: &str, b: &str) -> (r: bool)
    ensures
        r == lex_le(a@, b@),
{
    let na: usize = a.unicode_len();
    let nb: usize = b.unicode_len();
    let mut i: usize = 0;
    proof {
        assert(a@.skip(0) =~= a@);
        assert(b@.skip(0) =~= b@);
    }
    while i < na && i < nb
        invariant
            na == a@.len(),
            nb == b@.len(),
            i <= na,
            i <= nb,
            lex_le(a@, b@) == lex_le(a@.skip(i as int), b@.skip(i as int)),
        decreases na - i,
    {
        let ca = a.get_char(i);
        let cb = b.get_char(i);
        proof {
            assert(a@.skip(i as int)[0] == ca);
            assert(b@.skip(i as int)[0] == cb);
        }
        if ca != cb {
            return (ca as u32) < (cb as u32);
        }
        proof {
            assert(a@.skip(i as int).drop_first() =~= a@.skip(i + 1));
            assert(b@.skip(i as int).drop_first() =~= b@.skip(i + 1));
        }
        i = i + 1;
    }
    proof {
        if i == na {
            assert(a@.skip(i as int).len() == 0);
        } else {
            assert(b@.skip(i as int).len() == 0);
            assert(a@.skip(i as int).len() > 0);
        }
    }
    i == na
}

/// The ranking order: a spot stands at most as late as another when its
/// score is higher, or equal with a path that is lexicographically no
/// later. This is a total order on spots with distinct paths, so the ranked
/// output is the same whatever order the scores arrived in.
pub open spec fn spot_le(a: Spot, b: Spot) -> bool {
    a.score > b.score || (a.score == b.score && lex_le(a.file@, b.file@))
}

proof fn lemma_spot_le_total(a: Spot, b: Spot)
    ensures
        spot_le(a, b) || spot_le(b, a),
{
    lemma_lex_le_total(a.file@, b.file@);
}

proof fn lemma_spot_le_trans(a: Spot, b: Spot, c: Spot)
    requires
        spot_le(a, b),
        spot_le(b, c),
    ensures
        spot_le(a, c),
{
    if a.score == b.score && b.score == c.score {
        lemma_lex_le_trans(a.file@, b.file@, c.file@);
    }
}

proof fn lemma_spot_le_refl(a: Spot)
    ensures
        spot_le(a, a),
{
    lemma_lex_le_refl(a.file@);
}

/// Two spots that rank no later than each other carry the same score and
/// the same path.
proof fn lemma_spot_le_antisym(a: Spot, b: Spot)
    requires
        spot_le(a, b),
        spot_le(b, a),
    ensures
        a.score == b.score,
        a.file@ == b.file@,
{
    lemma_lex_le_antisym(a.file@, b.file@);
}

/// The ranking order, decided in executable code.
fn spot_le_exec(a: &Spot, b: &Spot) -> (r: bool)
    ensures
        r == spot_le(*a, *b),
{
    if a.score > b.score {
        true
    } else if a.score == b.score {
        str_le(a.file.as_str(), b.file.as_str())
    } else {
        false
    }
}

/// Non-increasing by score, ties non-decreasing by path.
pub open spec fn sorted(spots: Seq<Spot>) -> bool {
    forall|i: int, j: int| 0 <= i < j < spots.len() ==> spot_le(spots[i], spots[j])
}

/// Inserting an element anywhere adds exactly it to the multiset.
proof fn lemma_to_multiset_insert(s: Seq<Spot>, pos: int, x: Spot)
    requires
        0 <= pos <= s.len(),
    ensures
        s.insert(pos, x).to_multiset() == s.to_multiset().insert(x),
{
    broadcast use vstd::seq_lib::group_to_multiset_ensures, vstd::multiset::group_multiset_axioms;

    let head = s.subrange(0, pos);
    let tail = s.subrange(pos, s.len() as int);
    lemma_multiset_commutative(head.push(x), tail);
    lemma_multiset_commutative(head, tail);
    assert(s =~= head + tail);
    assert(head.push(x).to_multiset() =~= head.to_multiset().insert(x));
    assert(s.insert(pos, x).to_multiset() =~= s.to_multiset().insert(x));
}

/// Sort the spots for presentation: best first, that is by descending
/// score, equal scores ordered by path. The result holds the same spots.
pub fn rank(spots: Vec<Spot>) -> (r: Vec<Spot>)
    ensures
        r@.to_multiset() == spots@.to_multiset(),
        r@.len() == spots@.len(),
        sorted(r@),
{
    broadcast use vstd::seq_lib::group_to_multiset_ensures, vstd::multiset::group_multiset_axioms;

    let mut rest = spots;
    let mut out: Vec<Spot> = Vec::new();
    proof {
        assert(out@.to_multiset().add(rest@.to_multiset()) =~= rest@.to_multiset());
    }
    while rest.len() > 0
        invariant
            sorted(out@),
            out@.to_multiset().add(rest@.to_multiset()) == spots@.to_multiset(),
            out@.len() + rest@.len() == spots@.len(),
        decreases rest@.len(),
    {
        let ghost old_rest = rest@;
        let x = match rest.pop() {
            Some(x) => x,
            None => {
                return out;
            },
        };
        proof {
            assert(rest@ =~= old_rest.drop_last());
            assert(old_rest.drop_last() =~= old_rest.remove(old_rest.len() - 1));
            assert(old_rest[old_rest.len() - 1] == x);
            assert(old_rest.contains(x));
            vstd::seq_lib::to_multiset_remove(old_rest, old_rest.len() - 1);
            old_rest.to_multiset_ensures();
            assert(old_rest.to_multiset().count(x) > 0);
            assert(rest@.to_multiset().insert(x) =~= old_rest.to_multiset());
        }
        let mut pos: usize = 0;
        while pos < out.len() && spot_le_exec(&out[pos], &x)
            invariant
                sorted(out@),
                pos <= out@.len(),
                forall|k: int| 0 <= k < pos ==> spot_le(#[trigger] out@[k], x),
            decreases out@.len() - pos,
        {
            pos = pos + 1;
        }
        proof {
            if pos < out@.len() {
                lemma_spot_le_total(out@[pos as int], x);
            }
            assert forall|k: int| pos <= k < out@.len() implies spot_le(x, #[trigger] out@[k]) by {
                if k > pos {
                    lemma_spot_le_trans(x, out@[pos as int], out@[k]);
                }
            }
        }
        let ghost old_out = out@;
        out.insert(pos, x);
        proof {
            old_out.insert_ensures(pos as int, x);
            lemma_to_multiset_insert(old_out, pos as int, x);
            assert forall|i: int, j: int| 0 <= i < j < out@.len() implies spot_le(
                out@[i],
                out@[j],
            ) by {
                if i < pos && j < pos {
                    assert(out@[i] == old_out[i] && out@[j] == old_out[j]);
                } else if i < pos && j == pos {
                    assert(out@[i] == old_out[i] && out@[j] == x);
                } else if i < pos && j > pos {
                    assert(out@[i] == old_out[i] && out@[j] == old_out[j - 1]);
                } else if i == pos {
                    assert(out@[i] == x && out@[j] == old_out[j - 1]);
                } else {
                    assert(out@[i] == old_out[i - 1] && out@[j] == old_out[j - 1]);
                }
            }
            assert(out@.to_multiset().add(rest@.to_multiset()) =~= spots@.to_multiset()) by {
                broadcast use vstd::multiset::group_multiset_axioms;

            }
        }
    }
    proof {
        assert(rest@.to_multiset().len() == 0);
        assert(out@.to_multiset() =~= out@.to_multiset().add(rest@.to_multiset()));
    }
    out
}

/// Two rankings present the same report: equal length, and the same score
/// and path at every position.
pub open spec fn same_ranking(a: Seq<Spot>, b: Seq<Spot>) -> bool {
    &&& a.len() == b.len()
    &&& forall|i: int|
        #![trigger a[i], b[i]]
        0 <= i < a.len() ==> a[i].score == b[i].score && a[i].file@ == b[i].file@
}

proof fn lemma_sorted_remove(s: Seq<Spot>, j: int)
    requires
        sorted(s),
        0 <= j < s.len(),
    ensures
        sorted(s.remove(j)),
{
    s.remove_ensures(j);
    let r = s.remove(j);
    assert forall|i: int, k: int| 0 <= i < k < r.len() implies spot_le(r[i], r[k]) by {
        let i2: int = if i < j {
            i
        } else {
            i + 1
        };
        let k2: int = if k < j {
            k
        } else {
            k + 1
        };
        assert(r[i] == s[i2] && r[k] == s[k2]);
        assert(spot_le(s[i2], s[k2]));
    }
}

/// The tie-break is deterministic: two sorted sequences holding the same
/// spots agree, position by position, in score and path — however the
/// score mapping was walked before sorting, the ranked report is the same.
pub proof fn lemma_rank_deterministic(a: Seq<Spot>, b: Seq<Spot>)
    requires
        sorted(a),
        sorted(b),
        a.to_multiset() == b.to_multiset(),
    ensures
        same_ranking(a, b),
    decreases a.len(),
{
    broadcast use vstd::seq_lib::group_to_multiset_ensures, vstd::multiset::group_multiset_axioms;

    assert(a.len() == a.to_multiset().len());
    assert(b.len() == b.to_multiset().len());
    if a.len() > 0 {
        // The head of either ranking occurs in the other, so the two heads
        // rank no later than each other and agree in score and path.
        assert(a.contains(a[0]));
        assert(b.to_multiset().count(a[0]) > 0);
        assert(b.contains(a[0]));
        let j = choose|j: int| 0 <= j < b.len() && b[j] == a[0];
        assert(b.contains(b[0]));
        assert(a.to_multiset().count(b[0]) > 0);
        assert(a.contains(b[0]));
        let i0 = choose|i0: int| 0 <= i0 < a.len() && a[i0] == b[0];
        lemma_spot_le_refl(a[0]);
        lemma_spot_le_refl(b[0]);
        assert(spot_le(b[0], a[0]));
        assert(spot_le(a[0], b[0]));
        lemma_spot_le_antisym(a[0], b[0]);

        // Strip the head of `a` and its occurrence in `b`; the leftovers
        // are sorted and hold the same spots.
        let a2 = a.drop_first();
        let b2 = b.remove(j);
        assert(a2 =~= a.remove(0));
        lemma_sorted_remove(a, 0);
        lemma_sorted_remove(b, j);
        vstd::seq_lib::to_multiset_remove(a, 0);
        vstd::seq_lib::to_multiset_remove(b, j);
        assert(a2.to_multiset() == a.to_multiset().remove(a[0]));
        assert(b2.to_multiset() == b.to_multiset().remove(b[j]));
        lemma_rank_deterministic(a2, b2);

        // Everything of `b` up to the stripped occurrence ranks alike.
        assert forall|k: int| 0 <= k <= j implies (#[trigger] b[k]).score == b[0].score && b[
            k
        ].file@ == b[0].file@ by {
            if k > 0 {
                assert(spot_le(b[0], b[k]));
                if k < j {
                    lemma_spot_le_trans(b[k], b[j], b[0]);
                } else {
                    assert(spot_le(b[k], b[0]));
                }
                lemma_spot_le_antisym(b[0], b[k]);
            }
        }
        b.remove_ensures(j);
        assert forall|i: int| 0 <= i < a.len() implies (a[i].score == b[i].score && a[i].file@
            == b[i].file@) by {
            if i > 0 {
                assert(a[i] == a2[i - 1]);
                assert(a2[i - 1].score == b2[i - 1].score && a2[i - 1].file@ == b2[i - 1].file@);
                if i - 1 < j {
                    assert(b2[i - 1] == b[i - 1]);
                    assert(b[i - 1].score == b[0].score && b[i - 1].file@ == b[0].file@);
                    assert(b[i].score == b[0].score && b[i].file@ == b[0].file@);
                } else {
                    assert(b2[i - 1] == b[i]);
                }
            }
        }
    }
}

} // verus!
