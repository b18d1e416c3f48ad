use vstd::prelude::*;

use crate::matcher::lemma_score_spec_num;
use crate::matcher::lemma_score_spec_wf;
use crate::matcher::rat_eq;
use crate::matcher::rat_lt;
use crate::matcher::score;
use crate::matcher::score_spec;
use crate::matcher::Score;

verus! {

/// The candidates' character sequences.
pub open spec fn views_of<'a>(samples: Seq<&'a str>) -> Seq<Seq<char>> {
    samples.map_values(|t: &str| t@)
}

/// Candidate `i` is ranked before candidate `j`: its score is strictly
/// higher as a rational, or the two scores are equal and `i` comes first in
/// the input.
pub open spec fn ranked_before(samples: Seq<Seq<char>>, q: Seq<char>, i: int, j: int) -> bool {
    rat_lt(score_spec(samples[j], q), score_spec(samples[i], q)) || (rat_eq(
        score_spec(samples[i], q),
        score_spec(samples[j], q),
    ) && i < j)
}

/// The index list `r` is ranked: every earlier entry is ranked before every
/// later one, so scores descend and equal scores keep index order.
pub open spec fn ranked(samples: Seq<Seq<char>>, q: Seq<char>, r: Seq<int>) -> bool {
    forall|k1: int, k2: int| 0 <= k1 < k2 < r.len() ==> ranked_before(samples, q, r[k1], r[k2])
}

/// Index `i` inserted into the ranked list `r`, after every index that is
/// ranked before it.
pub open spec fn rank_insert(samples: Seq<Seq<char>>, q: Seq<char>, r: Seq<int>, i: int) -> Seq<
    int,
>
    decreases r.len(),
{
    if r.len() == 0 {
        seq![i]
    } else if ranked_before(samples, q, i, r[0]) {
        seq![i] + r
    } else {
        seq![r[0]] + rank_insert(samples, q, r.drop_first(), i)
    }
}

/// The ranked list of the positively scoring candidate indices below `n`.
pub open spec fn rank_upto(samples: Seq<Seq<char>>, q: Seq<char>, n: int) -> Seq<int>
    decreases n,
{
    if n <= 0 {
        Seq::empty()
    } else if score_spec(samples[n - 1], q).0 > 0 {
        rank_insert(samples, q, rank_upto(samples, q, n - 1), n - 1)
    } else {
        rank_upto(samples, q, n - 1)
    }
}

/// The whole ranking: the indices of all positively scoring candidates, by
/// descending score, candidates with equal scores in input order.
pub open spec fn rank_spec(samples: Seq<Seq<char>>, q: Seq<char>) -> Seq<int> {
    rank_upto(samples, q, samples.len() as int)
}

proof fn lemma_cons_contains(h: int, s: Seq<int>, x: int)
    ensures
        (seq![h] + s).contains(x) <==> (x == h || s.contains(x)),
{
    let c = seq![h] + s;
    if c.contains(x) {
        let k = choose|k: int| 0 <= k < c.len() && c[k] == x;
        if k > 0 {
            assert(s[k - 1] == x);
            assert(s.contains(x));
        }
    }
    if x == h {
        assert(c[0] == x);
        assert(c.contains(x));
    }
    if s.contains(x) {
        let k = choose|k: int| 0 <= k < s.len() && s[k] == x;
        assert(c[k + 1] == x);
        assert(c.contains(x));
    }
}

proof fn lemma_rank_insert_membership(
    samples: Seq<Seq<char>>,
    q: Seq<char>,
    r: Seq<int>,
    i: int,
    x: int,
)
    ensures
        rank_insert(samples, q, r, i).len() == r.len() + 1,
        rank_insert(samples, q, r, i).contains(x) <==> (r.contains(x) || x == i),
    decreases r.len(),
{
    let out = rank_insert(samples, q, r, i);
    if r.len() == 0 {
        assert(out =~= seq![i] + Seq::<int>::empty());
        lemma_cons_contains(i, Seq::empty(), x);
        assert(!Seq::<int>::empty().contains(x));
        assert(!r.contains(x));
    } else if ranked_before(samples, q, i, r[0]) {
        lemma_cons_contains(i, r, x);
    } else {
        lemma_rank_insert_membership(samples, q, r.drop_first(), i, x);
        lemma_cons_contains(r[0], rank_insert(samples, q, r.drop_first(), i), x);
        lemma_cons_contains(r[0], r.drop_first(), x);
        assert(seq![r[0]] + r.drop_first() =~= r);
    }
}

/// Any two distinct candidate indices are ordered one way or the other.
proof fn lemma_ranked_before_total(samples: Seq<Seq<char>>, q: Seq<char>, i: int, j: int)
    requires
        i != j,
    ensures
        ranked_before(samples, q, i, j) || ranked_before(samples, q, j, i),
{
}

/// Transitivity of `<=` on score triples read as rationals, with strictness
/// carried through.
proof fn lemma_rat_le_trans(a: (int, int, int), b: (int, int, int), c: (int, int, int))
    requires
        a.1 >= 1,
        a.2 >= 1,
        b.1 >= 1,
        b.2 >= 1,
        c.1 >= 1,
        c.2 >= 1,
        !rat_lt(b, a),
        !rat_lt(c, b),
    ensures
        !rat_lt(c, a),
        rat_lt(a, b) || rat_lt(b, c) ==> rat_lt(a, c),
{
    assert((a.0 * (c.1 * c.2) <= c.0 * (a.1 * a.2)) && ((a.0 * (b.1 * b.2) < b.0 * (a.1 * a.2)
        || b.0 * (c.1 * c.2) < c.0 * (b.1 * b.2)) ==> a.0 * (c.1 * c.2) < c.0 * (a.1
        * a.2))) by (nonlinear_arith)
        requires
            a.1 >= 1,
            a.2 >= 1,
            b.1 >= 1,
            b.2 >= 1,
            c.1 >= 1,
            c.2 >= 1,
            a.0 * (b.1 * b.2) <= b.0 * (a.1 * a.2),
            b.0 * (c.1 * c.2) <= c.0 * (b.1 * b.2),
    ;
}

/// The ranking order is transitive.
proof fn lemma_ranked_before_trans(samples: Seq<Seq<char>>, q: Seq<char>, i: int, j: int, k: int)
    requires
        ranked_before(samples, q, i, j),
        ranked_before(samples, q, j, k),
    ensures
        ranked_before(samples, q, i, k),
{
    lemma_score_spec_wf(samples[i], q);
    lemma_score_spec_wf(samples[j], q);
    lemma_score_spec_wf(samples[k], q);
    lemma_rat_le_trans(score_spec(samples[k], q), score_spec(samples[j], q), score_spec(samples[i], q));
}

/// Inserting a fresh, larger index into a ranked list keeps it ranked.
proof fn lemma_rank_insert_ranked(samples: Seq<Seq<char>>, q: Seq<char>, r: Seq<int>, i: int)
    requires
        ranked(samples, q, r),
        forall|x: int| r.contains(x) ==> x < i,
    ensures
        ranked(samples, q, rank_insert(samples, q, r, i)),
    decreases r.len(),
{
    let out = rank_insert(samples, q, r, i);
    if r.len() == 0 {
    } else if ranked_before(samples, q, i, r[0]) {
        assert forall|k1: int, k2: int|
            0 <= k1 < k2 < out.len() implies ranked_before(samples, q, out[k1], out[k2]) by {
            if k1 == 0 {
                assert(out[k2] == r[k2 - 1]);
                if k2 > 1 {
                    lemma_ranked_before_trans(samples, q, i, r[0], r[k2 - 1]);
                }
            } else {
                assert(out[k1] == r[k1 - 1] && out[k2] == r[k2 - 1]);
            }
        }
    } else {
        let rest = r.drop_first();
        assert(r.contains(r[0]));
        lemma_ranked_before_total(samples, q, i, r[0]);
        assert forall|x: int| rest.contains(x) implies x < i by {
            let k = choose|k: int| 0 <= k < rest.len() && rest[k] == x;
            assert(r[k + 1] == x);
            assert(r.contains(x));
        }
        assert forall|k1: int, k2: int|
            0 <= k1 < k2 < rest.len() implies ranked_before(samples, q, rest[k1], rest[k2]) by {
            assert(rest[k1] == r[k1 + 1] && rest[k2] == r[k2 + 1]);
        }
        lemma_rank_insert_ranked(samples, q, rest, i);
        let out2 = rank_insert(samples, q, rest, i);
        assert forall|k1: int, k2: int|
            0 <= k1 < k2 < out.len() implies ranked_before(samples, q, out[k1], out[k2]) by {
            if k1 == 0 {
                let x = out[k2];
                assert(x == out2[k2 - 1]);
                assert(out2.contains(x));
                lemma_rank_insert_membership(samples, q, rest, i, x);
                if x == i {
                } else {
                    let k = choose|k: int| 0 <= k < rest.len() && rest[k] == x;
                    assert(r[k + 1] == x);
                    assert(ranked_before(samples, q, r[0], r[k + 1]));
                }
            } else {
                assert(out[k1] == out2[k1 - 1] && out[k2] == out2[k2 - 1]);
            }
        }
    }
}

proof fn lemma_rank_upto_membership(samples: Seq<Seq<char>>, q: Seq<char>, n: int, x: int)
    ensures
        rank_upto(samples, q, n).contains(x) <==> (0 <= x < n && score_spec(samples[x], q).0 > 0),
    decreases n,
{
    if n > 0 {
        lemma_rank_upto_membership(samples, q, n - 1, x);
        if score_spec(samples[n - 1], q).0 > 0 {
            lemma_rank_insert_membership(samples, q, rank_upto(samples, q, n - 1), n - 1, x);
        }
    }
}

proof fn lemma_rank_upto_ranked(samples: Seq<Seq<char>>, q: Seq<char>, n: int)
    ensures
        ranked(samples, q, rank_upto(samples, q, n)),
    decreases n,
{
    if n > 0 {
        lemma_rank_upto_ranked(samples, q, n - 1);
        if score_spec(samples[n - 1], q).0 > 0 {
            assert forall|x: int| #[trigger] rank_upto(samples, q, n - 1).contains(
                x,
            ) implies x < n - 1 by {
                lemma_rank_upto_membership(samples, q, n - 1, x);
            }
            lemma_rank_insert_ranked(samples, q, rank_upto(samples, q, n - 1), n - 1);
        }
    }
}

/// The ranking keeps exactly the positively scoring candidates: an index
/// appears in the ranked order if and only if it names a candidate whose
/// score against `q` is positive; zero-scoring candidates are excluded.
pub proof fn lemma_rank_membership(samples: Seq<Seq<char>>, q: Seq<char>, x: int)
    ensures
        rank_spec(samples, q).contains(x) <==> (0 <= x < samples.len() && score_spec(
            samples[x],
            q,
        ).0 > 0),
{
    lemma_rank_upto_membership(samples, q, samples.len() as int, x);
}

/// The ranking is sorted and stable: along `rank_spec`, scores strictly
/// descend, and candidates with equal scores stand in their original input
/// order.
pub proof fn lemma_rank_stable_order(samples: Seq<Seq<char>>, q: Seq<char>)
    ensures
        ranked(samples, q, rank_spec(samples, q)),
{
    lemma_rank_upto_ranked(samples, q, samples.len() as int);
}

/// With equal positive numerators, comparing two scores as rationals is
/// comparing their denominators the other way round.
proof fn lemma_rat_cmp_same_num(a: (int, int, int), b: (int, int, int))
    requires
        a.0 == b.0,
        a.0 > 0,
        a.1 >= 1,
        a.2 >= 1,
        b.1 >= 1,
        b.2 >= 1,
    ensures
        rat_lt(a, b) <==> b.1 * b.2 < a.1 * a.2,
        rat_eq(a, b) <==> b.1 * b.2 == a.1 * a.2,
{
    assert(((a.0 * (b.1 * b.2) < b.0 * (a.1 * a.2)) <==> (b.1 * b.2 < a.1 * a.2)) && ((a.0 * (b.1
        * b.2) == b.0 * (a.1 * a.2)) <==> (b.1 * b.2 == a.1 * a.2))) by (nonlinear_arith)
        requires
            a.0 == b.0,
            a.0 > 0,
    ;
}

/// The candidate indices carried by a scored entry list.
spec fn entry_idxs(entries: Seq<(usize, Score)>) -> Seq<int> {
    entries.map_values(|e: (usize, Score)| e.0 as int)
}

/// The score's exact denominator `span_len * sample_len`, in a machine
/// integer wide enough never to overflow.
fn den_of(sc: Score) -> (d: u128)
    ensures
        d as int == (sc.span_len as int) * (sc.sample_len as int),
{
    proof {
        assert(usize::MAX as int <= u64::MAX as int);
        assert((sc.span_len as int) * (sc.sample_len as int)
            <= u128::MAX as int) by (nonlinear_arith)
            requires
                0 <= sc.span_len as int <= u64::MAX as int,
                0 <= sc.sample_len as int <= u64::MAX as int,
                (u64::MAX as int) * (u64::MAX as int) <= u128::MAX as int,
        ;
    }
    (sc.span_len as u128) * (sc.sample_len as u128)
}

/// Ranks the candidates against the query: every candidate with a positive
/// score, best score first, candidates with equal scores in input order.
pub fn single_thread<'a>(samples: &[&'a str], query: &str) -> (result: Vec<&'a str>)
    ensures
        result@.len() == rank_spec(views_of(samples@), query@).len(),
        forall|k: int|
            0 <= k < result@.len() ==> result@[k] == samples@[rank_spec(
                views_of(samples@),
                query@,
            )[k]],
{
    let ghost vs = views_of(samples@);
    let ghost q = query@;
    let n = samples.len();
    let mut scored: Vec<(usize, Score)> = Vec::new();
    let mut index: usize = 0;
    while index < n
        invariant
            n == samples@.len(),
            vs == views_of(samples@),
            q == query@,
            index <= n,
            entry_idxs(scored@) == rank_upto(vs, q, index as int),
            forall|k: int| 0 <= k < scored@.len() ==> (#[trigger] scored@[k]).0 < n,
            forall|k: int|
                0 <= k < scored@.len() ==> (#[trigger] scored@[k]).1.parts() == score_spec(
                    vs[scored@[k].0 as int],
                    q,
                ),
            forall|k: int| 0 <= k < scored@.len() ==> (#[trigger] scored@[k]).1.num > 0,
        decreases n - index,
    {
        let sample = samples[index];
        let sample_score = score(sample, query);
        proof {
            assert(vs[index as int] == samples@[index as int]@);
        }
        if sample_score.num > 0 {
            let d_new = den_of(sample_score);
            let ghost r0 = entry_idxs(scored@);
            let mut pos: usize = 0;
            proof {
                assert(r0.skip(0) =~= r0);
                assert(r0.take(0) + rank_insert(vs, q, r0, index as int) =~= rank_insert(
                    vs,
                    q,
                    r0,
                    index as int,
                ));
            }
            while pos < scored.len() && den_of(scored[pos].1) <= d_new
                invariant
                    n == samples@.len(),
                    vs == views_of(samples@),
                    q == query@,
                    index < n,
                    pos <= scored@.len(),
                    r0 == entry_idxs(scored@),
                    r0 == rank_upto(vs, q, index as int),
                    forall|k: int| 0 <= k < scored@.len() ==> (#[trigger] scored@[k]).0 < n,
                    forall|k: int|
                        0 <= k < scored@.len() ==> (#[trigger] scored@[k]).1.parts() == score_spec(
                            vs[scored@[k].0 as int],
                            q,
                        ),
                    forall|k: int| 0 <= k < scored@.len() ==> (#[trigger] scored@[k]).1.num > 0,
                    sample_score.parts() == score_spec(vs[index as int], q),
                    sample_score.num > 0,
                    d_new as int == (sample_score.span_len as int) * (
                    sample_score.sample_len as int),
                    rank_insert(vs, q, r0, index as int) == r0.take(pos as int) + rank_insert(
                        vs,
                        q,
                        r0.skip(pos as int),
                        index as int,
                    ),
                decreases scored@.len() - pos,
            {
                let ghost e = scored@[pos as int];
                proof {
                    let rp = r0.skip(pos as int);
                    assert(rp[0] == r0[pos as int]);
                    assert(r0[pos as int] == e.0 as int);
                    assert(r0.contains(e.0 as int));
                    lemma_rank_upto_membership(vs, q, index as int, e.0 as int);
                    lemma_score_spec_num(vs[e.0 as int], q);
                    lemma_score_spec_num(vs[index as int], q);
                    lemma_score_spec_wf(vs[e.0 as int], q);
                    lemma_score_spec_wf(vs[index as int], q);
                    lemma_rat_cmp_same_num(
                        score_spec(vs[e.0 as int], q),
                        score_spec(vs[index as int], q),
                    );
                    assert(!ranked_before(vs, q, index as int, e.0 as int));
                    assert(rp.drop_first() =~= r0.skip(pos as int + 1));
                    assert(rank_insert(vs, q, rp, index as int) == seq![rp[0]] + rank_insert(
                        vs,
                        q,
                        r0.skip(pos as int + 1),
                        index as int,
                    ));
                    assert(r0.take(pos as int) + (seq![rp[0]] + rank_insert(
                        vs,
                        q,
                        r0.skip(pos as int + 1),
                        index as int,
                    )) =~= r0.take(pos as int + 1) + rank_insert(
                        vs,
                        q,
                        r0.skip(pos as int + 1),
                        index as int,
                    ));
                }
                pos = pos + 1;
            }
            proof {
                let rp = r0.skip(pos as int);
                if pos < scored@.len() {
                    let e = scored@[pos as int];
                    assert(rp[0] == r0[pos as int]);
                    assert(r0[pos as int] == e.0 as int);
                    lemma_score_spec_num(vs[e.0 as int], q);
                    lemma_score_spec_num(vs[index as int], q);
                    lemma_score_spec_wf(vs[e.0 as int], q);
                    lemma_score_spec_wf(vs[index as int], q);
                    lemma_rat_cmp_same_num(
                        score_spec(vs[e.0 as int], q),
                        score_spec(vs[index as int], q),
                    );
                    assert(ranked_before(vs, q, index as int, e.0 as int));
                    assert(rank_insert(vs, q, rp, index as int) == seq![index as int] + rp);
                } else {
                    assert(rp =~= Seq::<int>::empty());
                    assert(rank_insert(vs, q, rp, index as int) == seq![index as int]);
                    assert(seq![index as int] =~= seq![index as int] + rp);
                }
                assert(rank_insert(vs, q, r0, index as int) == r0.take(pos as int) + (seq![
                    index as int,
                ] + r0.skip(pos as int)));
            }
            scored.insert(pos, (index, sample_score));
            proof {
                assert(scored@ =~= scored@.subrange(0, pos as int) + seq![
                    (index, sample_score),
                ] + scored@.subrange(pos as int + 1, scored@.len() as int));
                assert(entry_idxs(scored@) =~= r0.take(pos as int) + (seq![index as int] + r0.skip(
                    pos as int,
                )));
                assert(entry_idxs(scored@) == rank_insert(vs, q, r0, index as int));
                assert(rank_upto(vs, q, index as int + 1) == rank_insert(
                    vs,
                    q,
                    rank_upto(vs, q, index as int),
                    index as int,
                ));
            }
        } else {
            proof {
                assert(score_spec(vs[index as int], q).0 == 0);
                assert(rank_upto(vs, q, index as int + 1) == rank_upto(vs, q, index as int));
            }
        }
        index = index + 1;
    }
    proof {
        assert(vs.len() == samples@.len());
    }
    let mut result: Vec<&'a str> = Vec::new();
    let mut k: usize = 0;
    while k < scored.len()
        invariant
            n == samples@.len(),
            vs == views_of(samples@),
            q == query@,
            k <= scored@.len(),
            entry_idxs(scored@) == rank_spec(vs, q),
            forall|k2: int| 0 <= k2 < scored@.len() ==> (#[trigger] scored@[k2]).0 < n,
            result@.len() == k,
            forall|k2: int|
                0 <= k2 < k ==> result@[k2] == samples@[entry_idxs(scored@)[k2]],
        decreases scored@.len() - k,
    {
        let e = scored[k];
        result.push(samples[e.0]);
        k = k + 1;
    }
    result
}

/// Ranks the candidates against the query; see `single_thread`.
pub fn compute_match<'a>(samples: &[&'a str], query: &str) -> (result: Vec<&'a str>)
    ensures
        result@.len() == rank_spec(views_of(samples@), query@).len(),
        forall|k: int|
            0 <= k < result@.len() ==> result@[k] == samples@[rank_spec(
                views_of(samples@),
                query@,
            )[k]],
{
    single_thread(samples, query)
}

} // verus!
