use vstd::prelude::*;
use vstd::string::StrSliceExecFns;

verus! {

/// The score of one candidate (`sample`) against one query, kept as an exact
/// rational number: its value is `(num / span_len) / sample_len`, which is
/// positive exactly when the candidate matches the query. `num` is the query's
/// character count (or 1 for the empty query), `span_len` the length of the
/// tightest matching span found, and `sample_len` the candidate's character
/// count; the latter two are 1 whenever the score is 0 or 1.
#[derive(Clone, Copy)]
pub struct Score {
    pub num: usize,
    pub span_len: usize,
    pub sample_len: usize,
}

impl Score {
    /// Both denominator factors are positive, so the rational value is defined.
    pub open spec fn wf(self) -> bool {
        self.span_len >= 1 && self.sample_len >= 1
    }

    /// The score as a triple of mathematical integers `(n, s, l)`,
    /// standing for the rational `(n / s) / l`.
    pub open spec fn parts(self) -> (int, int, int) {
        (self.num as int, self.span_len as int, self.sample_len as int)
    }
}

/// `a < b` on score triples read as rationals `a.0 / (a.1 * a.2)`,
/// by cross-multiplication (denominator factors are positive).
pub open spec fn rat_lt(a: (int, int, int), b: (int, int, int)) -> bool {
    a.0 * (b.1 * b.2) < b.0 * (a.1 * a.2)
}

/// `a == b` on score triples read as rationals, by cross-multiplication.
pub open spec fn rat_eq(a: (int, int, int), b: (int, int, int)) -> bool {
    a.0 * (b.1 * b.2) == b.0 * (a.1 * a.2)
}

/// Case-aware, asymmetric character equality: query character `q` matches
/// candidate character `c` when they are identical, or when `c` is an ASCII
/// uppercase letter whose lowercase form is `q`. So a lowercase query letter
/// matches either case, while an uppercase query letter matches only itself.
pub open spec fn chars_match(q: char, c: char) -> bool {
    q == c || (65 <= c as u32 <= 90 && q as u32 == c as u32 + 32)
}

/// Decides `chars_match`: does query character `a` match candidate character `b`?
pub fn chars_equal(a: &char, b: &char) -> (r: bool)
    ensures
        r == chars_match(*a, *b),
{
    if *a == *b {
        true
    } else {
        let bu: u32 = *b as u32;
        if 65 <= bu && bu <= 90 {
            (*a as u32) == bu + 32
        } else {
            false
        }
    }
}

/// The characters of `s`, collected into a vector.
pub fn chars_of(s: &str) -> (r: Vec<char>)
    ensures
        r@ == s@,
{
    let n = s.unicode_len();
    let mut r: Vec<char> = Vec::new();
    let mut i: usize = 0;
    while i < n
        invariant
            n == s@.len(),
            i <= n,
            r@ == s@.take(i as int),
        decreases n - i,
    {
        r.push(s.get_char(i));
        proof {
            assert(s@.take(i as int).push(s@[i as int]) =~= s@.take(i as int + 1));
        }
        i = i + 1;
    }
    proof {
        assert(s@.take(n as int) =~= s@);
    }
    r
}

/// The leftmost position `>= from` in `s` whose character matches `ch`.
pub open spec fn first_match_at(s: Seq<char>, ch: char, from: int) -> Option<int>
    decreases s.len() - from,
{
    if from < 0 || from >= s.len() {
        None
    } else if chars_match(ch, s[from]) {
        Some(from)
    } else {
        first_match_at(s, ch, from + 1)
    }
}

/// Every position of `s` whose character matches `ch`, in ascending order:
/// each listed position matches, they are strictly increasing, and no
/// matching position is missing.
pub fn find_char_in_string(string: &Vec<char>, ch: char) -> (r: Vec<usize>)
    ensures
        forall|k: int| 0 <= k < r@.len() ==> r@[k] < string@.len(),
        forall|k: int| 0 <= k < r@.len() ==> chars_match(ch, string@[r@[k] as int]),
        forall|k1: int, k2: int| 0 <= k1 < k2 < r@.len() ==> r@[k1] < r@[k2],
        forall|i: int|
            0 <= i < string@.len() && chars_match(ch, string@[i]) ==> r@.contains(i as usize),
{
    let mut r: Vec<usize> = Vec::new();
    let mut i: usize = 0;
    while i < string.len()
        invariant
            i <= string@.len(),
            forall|k: int| 0 <= k < r@.len() ==> r@[k] < i,
            forall|k: int| 0 <= k < r@.len() ==> chars_match(ch, string@[r@[k] as int]),
            forall|k1: int, k2: int| 0 <= k1 < k2 < r@.len() ==> r@[k1] < r@[k2],
            forall|j: int| 0 <= j < i && chars_match(ch, string@[j]) ==> r@.contains(j as usize),
        decreases string@.len() - i,
    {
        if chars_equal(&ch, &string[i]) {
            let ghost r0 = r@;
            r.push(i);
            proof {
                assert forall|j: int|
                    0 <= j < i + 1 && chars_match(ch, string@[j]) implies r@.contains(
                    j as usize,
                ) by {
                    if j < i {
                        let k = choose|k: int| 0 <= k < r0.len() && r0[k] == j as usize;
                        assert(r@[k] == j as usize);
                    } else {
                        assert(r@[r@.len() - 1] == i);
                    }
                }
            }
        }
        i = i + 1;
    }
    r
}

/// If there is a leftmost match, it lies in `[from, s.len())` and matches.
pub proof fn lemma_first_match_at(s: Seq<char>, ch: char, from: int)
    requires
        first_match_at(s, ch, from) is Some,
    ensures
        from <= first_match_at(s, ch, from)->Some_0 < s.len(),
        chars_match(ch, s[first_match_at(s, ch, from)->Some_0]),
    decreases s.len() - from,
{
    if from < 0 || from >= s.len() {
    } else if chars_match(ch, s[from]) {
    } else {
        lemma_first_match_at(s, ch, from + 1);
    }
}

/// The positions that the greedy scan binds the characters of `q` to when it
/// starts at `from`: each query character in turn is bound to the nearest
/// matching position at or after the cursor, and the cursor moves just past
/// that position. `None` when some character cannot be found.
pub open spec fn greedy_tail(s: Seq<char>, q: Seq<char>, from: int) -> Option<Seq<int>>
    decreases q.len(),
{
    if q.len() == 0 {
        Some(Seq::empty())
    } else {
        match first_match_at(s, q[0], from) {
            Some(i) => match greedy_tail(s, q.drop_first(), i + 1) {
                Some(t) => Some(seq![i] + t),
                None => None,
            },
            None => None,
        }
    }
}

/// A successful greedy scan binds every query character, at positions that
/// advance by at least one step each and stay inside `s`.
pub proof fn lemma_greedy_tail_bounds(s: Seq<char>, q: Seq<char>, from: int)
    requires
        greedy_tail(s, q, from) is Some,
    ensures
        greedy_tail(s, q, from)->Some_0.len() == q.len(),
        forall|k: int|
            0 <= k < q.len() ==> from + k <= #[trigger] greedy_tail(s, q, from)->Some_0[k]
                < s.len(),
    decreases q.len(),
{
    if q.len() == 0 {
    } else {
        let i = first_match_at(s, q[0], from)->Some_0;
        lemma_first_match_at(s, q[0], from);
        lemma_greedy_tail_bounds(s, q.drop_first(), i + 1);
        let t2 = greedy_tail(s, q.drop_first(), i + 1)->Some_0;
        let t = greedy_tail(s, q, from)->Some_0;
        assert forall|k: int| 0 <= k < q.len() implies from + k <= #[trigger] t[k] < s.len() by {
            if k > 0 {
                assert(t[k] == t2[k - 1]);
            }
        }
    }
}

/// A successful greedy scan binds each query character to a position whose
/// character matches it, the positions strictly ascending.
pub proof fn lemma_greedy_tail_matches(s: Seq<char>, q: Seq<char>, from: int)
    requires
        greedy_tail(s, q, from) is Some,
    ensures
        greedy_tail(s, q, from)->Some_0.len() == q.len(),
        forall|k: int|
            0 <= k < q.len() ==> chars_match(
                q[k],
                s[#[trigger] greedy_tail(s, q, from)->Some_0[k]],
            ),
        forall|k1: int, k2: int|
            0 <= k1 < k2 < q.len() ==> #[trigger] greedy_tail(s, q, from)->Some_0[k1]
                < #[trigger] greedy_tail(s, q, from)->Some_0[k2],
    decreases q.len(),
{
    if q.len() > 0 {
        let i = first_match_at(s, q[0], from)->Some_0;
        lemma_first_match_at(s, q[0], from);
        lemma_greedy_tail_matches(s, q.drop_first(), i + 1);
        lemma_greedy_tail_bounds(s, q.drop_first(), i + 1);
        let t = greedy_tail(s, q, from)->Some_0;
        let t2 = greedy_tail(s, q.drop_first(), i + 1)->Some_0;
        assert forall|k: int| 0 <= k < q.len() implies chars_match(q[k], s[#[trigger] t[k]]) by {
            if k > 0 {
                assert(t[k] == t2[k - 1]);
                assert(q.drop_first()[k - 1] == q[k]);
            }
        }
        assert forall|k1: int, k2: int| 0 <= k1 < k2 < q.len() implies #[trigger] t[k1]
            < #[trigger] t[k2] by {
            if k1 == 0 {
                assert(t[k2] == t2[k2 - 1]);
                assert(i + 1 + (k2 - 1) <= t2[k2 - 1]);
            } else {
                assert(t[k1] == t2[k1 - 1] && t[k2] == t2[k2 - 1]);
            }
        }
    }
}

/// The full greedy index list for start position `first`: `first` itself,
/// followed by the greedy bindings of all of `q` scanned from `first + 1`.
pub open spec fn greedy_indices(s: Seq<char>, q: Seq<char>, first: int) -> Option<Seq<int>> {
    match greedy_tail(s, q, first + 1) {
        Some(t) => Some(seq![first] + t),
        None => None,
    }
}

/// The last greedy index for start position `first`: `first` itself when `q`
/// is empty, else the position the last character of `q` is bound to.
pub open spec fn greedy_end(s: Seq<char>, q: Seq<char>, first: int) -> Option<int> {
    match greedy_tail(s, q, first + 1) {
        Some(t) => Some(if t.len() == 0 { first } else { t.last() }),
        None => None,
    }
}

/// The greedy index list for `query` scanned from just past `first_index`,
/// with `first_index` itself in front; `None` when some query character has
/// no matching occurrence left.
pub fn get_match_indices(string: &Vec<char>, query: &Vec<char>, first_index: usize) -> (r: Option<
    Vec<usize>,
>)
    requires
        first_index < string@.len(),
    ensures
        match r {
            Some(v) => greedy_indices(string@, query@, first_index as int) == Some(
                v@.map_values(|x: usize| x as int),
            ),
            None => greedy_indices(string@, query@, first_index as int) is None,
        },
{
    let ghost s = string@;
    let ghost q = query@;
    let string_len = string.len();
    let mut result: Vec<usize> = Vec::new();
    result.push(first_index);
    let mut last_index: usize = first_index + 1;
    let mut k: usize = 0;
    proof {
        assert(q.skip(0) =~= q);
        assert(result@.skip(1).map_values(|x: usize| x as int) =~= Seq::<int>::empty());
        if greedy_tail(s, q, first_index + 1) is Some {
            let t = greedy_tail(s, q, first_index + 1)->Some_0;
            assert(Seq::<int>::empty() + t =~= t);
        }
    }
    while k < query.len()
        invariant
            s == string@,
            q == query@,
            string_len == s.len(),
            first_index < s.len(),
            k <= q.len(),
            last_index <= s.len(),
            result@.len() == k + 1,
            result@[0] == first_index,
            greedy_tail(s, q, first_index + 1) == (match greedy_tail(
                s,
                q.skip(k as int),
                last_index as int,
            ) {
                Some(t) => Some(result@.skip(1).map_values(|x: usize| x as int) + t),
                None => None::<Seq<int>>,
            }),
        decreases q.len() - k,
    {
        let char_of_query = query[k];
        let mut j: usize = last_index;
        while j < string_len && !chars_equal(&char_of_query, &string[j])
            invariant
                s == string@,
                string_len == s.len(),
                k < q.len(),
                last_index <= j <= s.len(),
                char_of_query == q[k as int],
                first_match_at(s, char_of_query, last_index as int) == first_match_at(
                    s,
                    char_of_query,
                    j as int,
                ),
            decreases s.len() - j,
        {
            j = j + 1;
        }
        if j < string_len {
            let ghost a0 = result@.skip(1).map_values(|x: usize| x as int);
            proof {
                assert(first_match_at(s, q[k as int], j as int) == Some(j as int));
                assert(q.skip(k as int)[0] == q[k as int]);
                assert(q.skip(k as int).drop_first() =~= q.skip(k as int + 1));
            }
            result.push(j);
            last_index = j + 1;
            k = k + 1;
            proof {
                assert(result@.skip(1).map_values(|x: usize| x as int) =~= a0 + seq![j as int]);
                if greedy_tail(s, q.skip(k as int), last_index as int) is Some {
                    let t2 = greedy_tail(s, q.skip(k as int), last_index as int)->Some_0;
                    assert(a0 + (seq![j as int] + t2) =~= (a0 + seq![j as int]) + t2);
                }
            }
        } else {
            proof {
                assert(first_match_at(s, q[k as int], last_index as int) is None);
                assert(q.skip(k as int)[0] == q[k as int]);
                assert(greedy_tail(s, q.skip(k as int), last_index as int) is None);
            }
            return None;
        }
    }
    proof {
        assert(q.skip(q.len() as int) =~= Seq::<char>::empty());
        assert(result@.map_values(|x: usize| x as int) =~= seq![first_index as int] + result@.skip(
            1,
        ).map_values(|x: usize| x as int));
    }
    Some(result)
}

/// The position where the greedy match for `query`, started at `first_index`,
/// ends; `None` when the greedy scan fails.
pub fn find_end_of_match(string: &Vec<char>, query: &Vec<char>, first_index: usize) -> (r: Option<
    usize,
>)
    requires
        first_index < string@.len(),
    ensures
        match r {
            Some(e) => greedy_end(string@, query@, first_index as int) == Some(e as int)
                && first_index <= e < string@.len(),
            None => greedy_end(string@, query@, first_index as int) is None,
        },
{
    let ghost s = string@;
    let ghost q = query@;
    match get_match_indices(string, query, first_index) {
        Some(indices) => {
            let n = indices.len();
            if n == 0 {
                proof {
                    let t = greedy_tail(s, q, first_index + 1)->Some_0;
                    assert(indices@.map_values(|x: usize| x as int).len() == seq![
                        first_index as int,
                    ].len() + t.len());
                    assert(false);
                }
                None
            } else {
                proof {
                    let t = greedy_tail(s, q, first_index + 1)->Some_0;
                    let m = indices@.map_values(|x: usize| x as int);
                    assert(m == seq![first_index as int] + t);
                    assert(m.len() == 1 + t.len());
                    if t.len() == 0 {
                        assert(m[0] == first_index as int);
                    } else {
                        lemma_greedy_tail_bounds(s, q, first_index + 1);
                        assert(m[m.len() - 1] == t[t.len() - 1]);
                        assert(first_index + 1 + (t.len() - 1) <= t[t.len() - 1] < s.len());
                    }
                }
                Some(indices[n - 1])
            }
        },
        None => None,
    }
}

/// The span the greedy scan produces for start position `p`: `p` paired with
/// the greedy end for the rest of the query, provided `p` matches the query's
/// first character.
pub open spec fn span_at(s: Seq<char>, q: Seq<char>, p: int) -> Option<(int, int)> {
    if 0 <= p < s.len() && chars_match(q[0], s[p]) {
        match greedy_end(s, q.drop_first(), p) {
            Some(e) => Some((p, e)),
            None => None,
        }
    } else {
        None
    }
}

/// The best span among start positions below `n`: the one with the smallest
/// length, the earliest start position winning ties.
pub open spec fn best_span_upto(s: Seq<char>, q: Seq<char>, n: int) -> Option<(int, int)>
    decreases n,
{
    if n <= 0 {
        None
    } else {
        let prev = best_span_upto(s, q, n - 1);
        match span_at(s, q, n - 1) {
            Some(sp) => match prev {
                None => Some(sp),
                Some(b) => if sp.1 - sp.0 < b.1 - b.0 {
                    Some(sp)
                } else {
                    Some(b)
                },
            },
            None => prev,
        }
    }
}

/// The tightest greedy match span of `q` in `s`, over all start positions.
pub open spec fn best_span(s: Seq<char>, q: Seq<char>) -> Option<(int, int)> {
    best_span_upto(s, q, s.len() as int)
}

/// A span produced at start `p` begins at `p`, ends inside `s`, and is at
/// least as long as the query.
pub proof fn lemma_span_at_bounds(s: Seq<char>, q: Seq<char>, p: int)
    requires
        q.len() >= 1,
        span_at(s, q, p) is Some,
    ensures
        span_at(s, q, p)->Some_0.0 == p,
        p <= span_at(s, q, p)->Some_0.1 < s.len(),
        span_at(s, q, p)->Some_0.1 - p + 1 >= q.len(),
{
    let e = greedy_end(s, q.drop_first(), p)->Some_0;
    let t = greedy_tail(s, q.drop_first(), p + 1)->Some_0;
    lemma_greedy_tail_bounds(s, q.drop_first(), p + 1);
    if t.len() > 0 {
        assert(p + 1 + (t.len() - 1) <= t[t.len() - 1] < s.len());
    }
}

/// Start positions that do not match the query's first character leave the
/// best span unchanged.
pub proof fn lemma_best_span_upto_stable(s: Seq<char>, q: Seq<char>, a: int, b: int)
    requires
        0 <= a <= b,
        forall|i: int| a <= i < b ==> !chars_match(q[0], s[i]),
    ensures
        best_span_upto(s, q, b) == best_span_upto(s, q, a),
    decreases b - a,
{
    if a < b {
        lemma_best_span_upto_stable(s, q, a, b - 1);
        assert(span_at(s, q, b - 1) is None);
    }
}

/// Once a span as short as the query itself is the best, no later start
/// position changes the outcome: no span can be shorter.
pub proof fn lemma_best_span_upto_extend_min(s: Seq<char>, q: Seq<char>, n: int, m: int)
    requires
        q.len() >= 1,
        0 <= n <= m,
        best_span_upto(s, q, n) is Some,
        best_span_upto(s, q, n)->Some_0.1 - best_span_upto(s, q, n)->Some_0.0 + 1 == q.len(),
    ensures
        best_span_upto(s, q, m) == best_span_upto(s, q, n),
    decreases m - n,
{
    if n < m {
        lemma_best_span_upto_extend_min(s, q, n, m - 1);
        if span_at(s, q, m - 1) is Some {
            lemma_span_at_bounds(s, q, m - 1);
        }
    }
}

/// A best span, when there is one, lies inside `s` in the right order.
pub proof fn lemma_best_span_upto_bounds(s: Seq<char>, q: Seq<char>, n: int)
    requires
        q.len() >= 1,
        n <= s.len(),
        best_span_upto(s, q, n) is Some,
    ensures
        0 <= best_span_upto(s, q, n)->Some_0.0 <= best_span_upto(s, q, n)->Some_0.1 < s.len(),
    decreases n,
{
    if n > 0 {
        if span_at(s, q, n - 1) is Some {
            lemma_span_at_bounds(s, q, n - 1);
        }
        if best_span_upto(s, q, n - 1) is Some {
            lemma_best_span_upto_bounds(s, q, n - 1);
        }
    }
}

/// `t` lists positions of `s`, one per character of `q`, strictly ascending
/// and all inside `[lo, hi]`, each matching its query character: an in-order
/// occurrence of the whole query within that window.
pub open spec fn binds(s: Seq<char>, q: Seq<char>, t: Seq<int>, lo: int, hi: int) -> bool {
    &&& t.len() == q.len()
    &&& forall|k: int| 0 <= k < t.len() ==> lo <= #[trigger] t[k] <= hi && 0 <= t[k] < s.len()
    &&& forall|k: int| 0 <= k < t.len() ==> chars_match(q[k], s[#[trigger] t[k]])
    &&& forall|k1: int, k2: int| 0 <= k1 < k2 < t.len() ==> t[k1] < t[k2]
}

/// A span produced at a start position is sound: some in-order occurrence of
/// the whole query lies inside it.
proof fn lemma_span_at_sound(s: Seq<char>, q: Seq<char>, p: int)
    requires
        q.len() >= 1,
        span_at(s, q, p) is Some,
    ensures
        ({
            let b = span_at(s, q, p)->Some_0;
            exists|t: Seq<int>| binds(s, q, t, b.0, b.1)
        }),
{
    let b = span_at(s, q, p)->Some_0;
    let qr = q.drop_first();
    let t2 = greedy_tail(s, qr, p + 1)->Some_0;
    lemma_greedy_tail_matches(s, qr, p + 1);
    lemma_greedy_tail_bounds(s, qr, p + 1);
    let w = seq![p] + t2;
    assert(w.len() == q.len());
    assert forall|k: int| 0 <= k < w.len() implies b.0 <= #[trigger] w[k] <= b.1 && 0 <= w[k]
        < s.len() by {
        if k > 0 {
            assert(w[k] == t2[k - 1]);
            if k < w.len() - 1 {
                assert(t2[k - 1] < t2[t2.len() - 1]);
            }
        }
    }
    assert forall|k: int| 0 <= k < w.len() implies chars_match(q[k], s[#[trigger] w[k]]) by {
        if k > 0 {
            assert(w[k] == t2[k - 1]);
            assert(qr[k - 1] == q[k]);
        }
    }
    assert forall|k1: int, k2: int| 0 <= k1 < k2 < w.len() implies w[k1] < w[k2] by {
        if k1 == 0 {
            assert(w[k2] == t2[k2 - 1]);
            assert(p + 1 + (k2 - 1) <= t2[k2 - 1]);
        } else {
            assert(w[k1] == t2[k1 - 1] && w[k2] == t2[k2 - 1]);
        }
    }
    assert(binds(s, q, w, b.0, b.1));
}

proof fn lemma_best_span_upto_sound(s: Seq<char>, q: Seq<char>, n: int)
    requires
        q.len() >= 1,
        best_span_upto(s, q, n) is Some,
    ensures
        ({
            let b = best_span_upto(s, q, n)->Some_0;
            exists|t: Seq<int>| binds(s, q, t, b.0, b.1)
        }),
    decreases n,
{
    if n > 0 {
        if span_at(s, q, n - 1) is Some {
            lemma_span_at_sound(s, q, n - 1);
        }
        if best_span_upto(s, q, n - 1) is Some {
            lemma_best_span_upto_sound(s, q, n - 1);
        }
    }
}

/// Match soundness: wherever the search reports a best span, the query
/// really occurs in the candidate — in order, case-aware — inside that span.
pub proof fn lemma_best_span_sound(s: Seq<char>, q: Seq<char>)
    requires
        q.len() >= 1,
        best_span(s, q) is Some,
    ensures
        ({
            let b = best_span(s, q)->Some_0;
            exists|t: Seq<int>| binds(s, q, t, b.0, b.1)
        }),
{
    lemma_best_span_upto_sound(s, q, s.len() as int);
}

/// Some `Option` of a machine-integer span, as mathematical integers.
pub open spec fn span_view(r: Option<(usize, usize)>) -> Option<(int, int)> {
    match r {
        Some(p) => Some((p.0 as int, p.1 as int)),
        None => None,
    }
}

/// The length of a span, inclusive of both endpoints.
pub fn get_length_of_match(bounds: Option<(usize, usize)>) -> (r: Option<usize>)
    requires
        bounds is Some ==> bounds->Some_0.0 <= bounds->Some_0.1,
        bounds is Some ==> bounds->Some_0.1 - bounds->Some_0.0 < usize::MAX,
    ensures
        match bounds {
            Some(p) => r == Some((p.1 - p.0 + 1) as usize),
            None => r is None,
        },
{
    match bounds {
        Some((lb, ub)) => Some(ub - lb + 1),
        None => None,
    }
}

/// The tightest greedy match span of `query` in `string`, searched start
/// position by start position in ascending order, keeping the first span of
/// minimal length and stopping early on a fully contiguous one.
pub fn get_longest_match(string: &Vec<char>, query: &Vec<char>) -> (r: Option<(usize, usize)>)
    requires
        query@.len() >= 1,
    ensures
        span_view(r) == best_span(string@, query@),
        r is Some ==> r->Some_0.0 <= r->Some_0.1 < string@.len() <= usize::MAX,
{
    let ghost s = string@;
    let ghost q = query@;
    let string_len = string.len();
    let first_char_of_query = query[0];
    let mut remaining_chars_of_query: Vec<char> = Vec::new();
    let mut t: usize = 1;
    while t < query.len()
        invariant
            q == query@,
            1 <= t <= q.len(),
            remaining_chars_of_query@ == q.skip(1).take(t as int - 1),
        decreases q.len() - t,
    {
        remaining_chars_of_query.push(query[t]);
        proof {
            assert(q.skip(1).take(t as int - 1).push(q[t as int]) =~= q.skip(1).take(t as int));
        }
        t = t + 1;
    }
    proof {
        assert(q.skip(1).take(q.len() as int - 1) =~= q.skip(1));
        assert(q.drop_first() =~= q.skip(1));
    }
    let all_indices_of_query = find_char_in_string(string, first_char_of_query);
    let ghost all = all_indices_of_query@;
    let smallest_possible_match_length = query.len();
    let mut longest_match: Option<(usize, usize)> = None;
    let mut done: bool = false;
    let mut ii: usize = 0;
    proof {
        let bound0 = if all.len() > 0 {
            all[0] as int
        } else {
            s.len() as int
        };
        assert forall|i2: int| 0 <= i2 < bound0 implies !chars_match(q[0], s[i2]) by {
            if 0 <= i2 < s.len() && chars_match(q[0], s[i2]) {
                assert(all.contains(i2 as usize));
                let kk = choose|kk: int| 0 <= kk < all.len() && all[kk] == i2 as usize;
                if kk > 0 {
                    assert(all[0] < all[kk]);
                }
            }
        }
        lemma_best_span_upto_stable(s, q, 0, bound0);
    }
    while ii < all_indices_of_query.len() && !done
        invariant
            s == string@,
            q == query@,
            q.len() >= 1,
            string_len == s.len(),
            remaining_chars_of_query@ == q.drop_first(),
            first_char_of_query == q[0],
            all == all_indices_of_query@,
            smallest_possible_match_length == q.len(),
            ii <= all.len(),
            forall|kk: int| 0 <= kk < all.len() ==> all[kk] < s.len(),
            forall|kk: int| 0 <= kk < all.len() ==> chars_match(q[0], s[all[kk] as int]),
            forall|k1: int, k2: int| 0 <= k1 < k2 < all.len() ==> all[k1] < all[k2],
            forall|i2: int|
                0 <= i2 < s.len() && chars_match(q[0], s[i2]) ==> all.contains(i2 as usize),
            longest_match is Some ==> longest_match->Some_0.0 <= longest_match->Some_0.1
                < s.len(),
            done ==> longest_match is Some,
            done ==> span_view(longest_match) == best_span(s, q),
            !done ==> span_view(longest_match) == best_span_upto(
                s,
                q,
                if ii < all.len() {
                    all[ii as int] as int
                } else {
                    s.len() as int
                },
            ),
        decreases all.len() - ii,
    {
        let index_of_query = all_indices_of_query[ii];
        let ghost p = index_of_query as int;
        proof {
            assert(chars_match(q[0], s[p]));
        }
        match find_end_of_match(string, &remaining_chars_of_query, index_of_query) {
            Some(last_index_of_match) => {
                proof {
                    assert(span_at(s, q, p) == Some((p, last_index_of_match as int)));
                }
                let bounds = Some((index_of_query, last_index_of_match));
                let match_length = get_length_of_match(bounds).unwrap();
                if longest_match.is_none() || match_length < get_length_of_match(
                    longest_match,
                ).unwrap() {
                    longest_match = bounds;
                    if match_length == smallest_possible_match_length {
                        done = true;
                    }
                }
            },
            None => {
                proof {
                    assert(span_at(s, q, p) is None);
                }
            },
        }
        proof {
            assert(best_span_upto(s, q, p + 1) == span_view(longest_match));
            if done {
                lemma_best_span_upto_extend_min(s, q, p + 1, s.len() as int);
            } else {
                let bound_next = if ii + 1 < all.len() {
                    all[ii + 1] as int
                } else {
                    s.len() as int
                };
                assert forall|i2: int| p + 1 <= i2 < bound_next implies !chars_match(
                    q[0],
                    s[i2],
                ) by {
                    if 0 <= i2 < s.len() && chars_match(q[0], s[i2]) {
                        assert(all.contains(i2 as usize));
                        let kk = choose|kk: int| 0 <= kk < all.len() && all[kk] == i2 as usize;
                        if kk < ii {
                            assert(all[kk] < all[ii as int]);
                        } else if kk == ii {
                        } else if kk > ii + 1 {
                            assert(all[ii + 1] < all[kk]);
                        }
                    }
                }
                lemma_best_span_upto_stable(s, q, p + 1, bound_next);
            }
        }
        ii = ii + 1;
    }
    longest_match
}

/// The length of the tightest greedy match span, or `None` when the query's
/// characters cannot be found in order.
pub fn compute_longest_match_length(string: &Vec<char>, query: &Vec<char>) -> (r: Option<usize>)
    requires
        query@.len() >= 1,
    ensures
        match best_span(string@, query@) {
            Some(b) => r == Some((b.1 - b.0 + 1) as usize),
            None => r is None,
        },
{
    get_length_of_match(get_longest_match(string, query))
}

/// The score of `sample` against `query`, as integer triple `(n, s, l)`
/// standing for the rational `(n / s) / l`:
/// 1 for the empty query, 0 for an empty candidate or no match, and
/// otherwise the query length over the tightest span length, over the
/// candidate length.
pub open spec fn score_spec(sample: Seq<char>, query: Seq<char>) -> (int, int, int) {
    if query.len() == 0 {
        (1, 1, 1)
    } else if sample.len() == 0 {
        (0, 1, 1)
    } else {
        match best_span(sample, query) {
            None => (0, 1, 1),
            Some(b) => (query.len() as int, b.1 - b.0 + 1, sample.len() as int),
        }
    }
}

/// Scores `sample` against `query`, exactly as `score_spec` states.
pub fn score(sample: &str, query: &str) -> (r: Score)
    ensures
        r.parts() == score_spec(sample@, query@),
        r.wf(),
{
    if query.unicode_len() == 0 {
        return Score { num: 1, span_len: 1, sample_len: 1 };
    }
    if sample.unicode_len() == 0 {
        return Score { num: 0, span_len: 1, sample_len: 1 };
    }
    let query_chars = chars_of(query);
    let sample_chars = chars_of(sample);
    match compute_longest_match_length(&sample_chars, &query_chars) {
        None => Score { num: 0, span_len: 1, sample_len: 1 },
        Some(length) => {
            proof {
                lemma_best_span_upto_bounds(sample_chars@, query_chars@, sample_chars@.len() as int);
            }
            Score { num: query_chars.len(), span_len: length, sample_len: sample_chars.len() }
        },
    }
}

/// Every score triple has positive denominator factors and a non-negative
/// numerator, so reading it as a rational is always defined.
pub proof fn lemma_score_spec_wf(sample: Seq<char>, query: Seq<char>)
    ensures
        score_spec(sample, query).0 >= 0,
        score_spec(sample, query).1 >= 1,
        score_spec(sample, query).2 >= 1,
{
    if query.len() > 0 && sample.len() > 0 {
        if best_span(sample, query) is Some {
            lemma_best_span_upto_bounds(sample, query, sample.len() as int);
        }
    }
}

/// A positive score's numerator is the query's length (or 1 for the empty
/// query), so for one fixed query all positive scores share one numerator.
pub proof fn lemma_score_spec_num(sample: Seq<char>, query: Seq<char>)
    ensures
        score_spec(sample, query).0 > 0 ==> score_spec(sample, query).0 == (if query.len() == 0 {
            1int
        } else {
            query.len() as int
        }),
{
}

/// The empty query scores 1 against every candidate, the empty one included.
pub proof fn lemma_score_empty_query(sample: Seq<char>, query: Seq<char>)
    requires
        query.len() == 0,
    ensures
        score_spec(sample, query) == (1int, 1int, 1int),
{
}

/// A non-empty query scores 0 against the empty candidate.
pub proof fn lemma_score_empty_sample(sample: Seq<char>, query: Seq<char>)
    requires
        query.len() >= 1,
        sample.len() == 0,
    ensures
        score_spec(sample, query) == (0int, 1int, 1int),
{
}

/// Character matching is case-asymmetric: where `up` is an ASCII uppercase
/// letter and `low` its lowercase form, a lowercase query character matches
/// the candidate letter in either case, an uppercase query character matches
/// only the uppercase candidate letter.
pub proof fn lemma_case_asymmetry(low: char, up: char)
    requires
        65 <= up as u32 <= 90,
        low as u32 == up as u32 + 32,
    ensures
        chars_match(low, up),
        chars_match(low, low),
        chars_match(up, up),
        !chars_match(up, low),
{
    assert(low as u32 != up as u32);
}

/// Matching a suffix of `s` against itself, the greedy scan binds every
/// character to its own position.
proof fn lemma_greedy_tail_self(s: Seq<char>, k: int)
    requires
        1 <= k <= s.len(),
    ensures
        greedy_tail(s, s.skip(k), k) == Some(Seq::new((s.len() - k) as nat, |j: int| k + j)),
    decreases s.len() - k,
{
    if k == s.len() {
        assert(s.skip(k) =~= Seq::<char>::empty());
        assert(Seq::new((s.len() - k) as nat, |j: int| k + j) =~= Seq::<int>::empty());
    } else {
        assert(s.skip(k)[0] == s[k]);
        assert(first_match_at(s, s[k], k) == Some(k));
        assert(s.skip(k).drop_first() =~= s.skip(k + 1));
        lemma_greedy_tail_self(s, k + 1);
        assert(seq![k] + Seq::new((s.len() - k - 1) as nat, |j: int| k + 1 + j) =~= Seq::new(
            (s.len() - k) as nat,
            |j: int| k + j,
        ));
    }
}

/// A non-empty candidate matched against itself scores `1 / length`: the
/// whole candidate is its own tightest span.
pub proof fn lemma_score_self(s: Seq<char>)
    requires
        s.len() >= 1,
    ensures
        score_spec(s, s) == (s.len() as int, s.len() as int, s.len() as int),
{
    let n = s.len() as int;
    lemma_greedy_tail_self(s, 1);
    assert(s.drop_first() =~= s.skip(1));
    let t = Seq::new((s.len() - 1) as nat, |j: int| 1 + j);
    assert(greedy_tail(s, s.drop_first(), 1) == Some(t));
    if t.len() == 0 {
        assert(greedy_end(s, s.drop_first(), 0) == Some(0int));
    } else {
        assert(t.last() == n - 1);
        assert(greedy_end(s, s.drop_first(), 0) == Some(n - 1));
    }
    assert(span_at(s, s, 0) == Some((0int, n - 1)));
    assert(best_span_upto(s, s, 0) is None);
    assert(best_span_upto(s, s, 1) == Some((0int, n - 1)));
    lemma_best_span_upto_extend_min(s, s, 1, n);
}

/// Density preference: between two matching candidates of equal length, the
/// one with the tighter span scores strictly higher.
pub proof fn lemma_density_preference(c1: Seq<char>, c2: Seq<char>, q: Seq<char>)
    requires
        q.len() >= 1,
        score_spec(c1, q).0 > 0,
        score_spec(c2, q).0 > 0,
        c1.len() == c2.len(),
        score_spec(c1, q).1 < score_spec(c2, q).1,
    ensures
        rat_lt(score_spec(c2, q), score_spec(c1, q)),
{
    let n = q.len() as int;
    let s1 = score_spec(c1, q).1;
    let s2 = score_spec(c2, q).1;
    let l = c1.len() as int;
    lemma_best_span_upto_bounds(c1, q, c1.len() as int);
    assert(n * (s1 * l) < n * (s2 * l)) by (nonlinear_arith)
        requires
            n > 0,
            l > 0,
            s1 >= 1,
            s1 < s2,
    ;
}

/// Length preference: between two candidates whose matches are equally dense
/// (equal span lengths), the shorter candidate scores strictly higher.
pub proof fn lemma_length_preference(c1: Seq<char>, c2: Seq<char>, q: Seq<char>)
    requires
        q.len() >= 1,
        score_spec(c1, q).0 > 0,
        score_spec(c2, q).0 > 0,
        score_spec(c1, q).1 == score_spec(c2, q).1,
        c1.len() < c2.len(),
    ensures
        rat_lt(score_spec(c2, q), score_spec(c1, q)),
{
    let n = q.len() as int;
    let sp = score_spec(c1, q).1;
    let l1 = c1.len() as int;
    let l2 = c2.len() as int;
    lemma_best_span_upto_bounds(c1, q, c1.len() as int);
    assert(n * (sp * l1) < n * (sp * l2)) by (nonlinear_arith)
        requires
            n > 0,
            sp >= 1,
            l1 >= 1,
            l1 < l2,
    ;
}

} // verus!
