//! Candidate selection for a question: how many to fetch, the language
//! preference, reciprocal-rank fusion with the full-text ranking, snippets.
use vstd::prelude::*;
use crate::text::{chars_of, string_of};

verus! {

/// Characters of chunk text shown in a source snippet.
pub const SNIPPET_CHARS: usize = 600;

/// Largest number of candidates the diversification step asks for.
pub const MMR_CANDIDATE_CAP: i64 = 64;

/// `x` limited to `[lo, hi]`; `lo` when the range is empty.
pub open spec fn clamp_int(x: int, lo: int, hi: int) -> int {
    if x > hi && hi >= lo {
        hi
    } else if x < lo || hi < lo {
        lo
    } else {
        x
    }
}

pub open spec fn max_int(a: int, b: int) -> int {
    if a >= b {
        a
    } else {
        b
    }
}

pub open spec fn min_int(a: int, b: int) -> int {
    if a <= b {
        a
    } else {
        b
    }
}

/// How many nearest neighbours to fetch: at least `top_k`; with diversification,
/// `mmr_candidates` limited to `[1, min(4 * top_k, 64)]`.
pub open spec fn candidate_count(top_k: int, use_mmr: bool, mmr_candidates: int) -> int {
    max_int(
        top_k,
        if use_mmr {
            clamp_int(mmr_candidates, 1, min_int(4 * top_k, 64))
        } else {
            1
        },
    )
}

pub fn candidate_k(top_k: i64, use_mmr: bool, mmr_candidates: i64) -> (r: i64)
    ensures
        r == candidate_count(top_k as int, use_mmr, mmr_candidates as int),
        r >= 1,
{
    let extra: i64 = if use_mmr {
        let hi: i64 = if top_k >= 16 {
            MMR_CANDIDATE_CAP
        } else if top_k <= 0 {
            0
        } else {
            4 * top_k
        };
        if mmr_candidates > hi && hi >= 1 {
            hi
        } else if mmr_candidates < 1 || hi < 1 {
            1
        } else {
            mmr_candidates
        }
    } else {
        1
    };
    if top_k >= extra {
        top_k
    } else {
        extra
    }
}

/// How many sources are returned: `top_k`, and at least one.
pub open spec fn result_count(top_k: int) -> int {
    max_int(top_k, 1)
}

pub fn effective_top_k(top_k: i64) -> (r: usize)
    requires
        top_k <= usize::MAX,
    ensures
        r == result_count(top_k as int),
{
    if top_k < 1 {
        1
    } else {
        top_k as usize
    }
}

pub open spec fn opt_view(o: Option<String>) -> Option<Seq<char>> {
    match o {
        Some(s) => Some(s@),
        None => None,
    }
}

/// Positions whose language is `q`, in order.
pub open spec fn positions_with_lang(langs: Seq<Option<Seq<char>>>, q: Seq<char>) -> Seq<int>
    decreases langs.len(),
{
    if langs.len() == 0 {
        seq![]
    } else {
        positions_with_lang(langs.drop_last(), q) + if langs.last() == Some(q) {
            seq![langs.len() - 1]
        } else {
            seq![]
        }
    }
}

pub open spec fn all_positions(n: int) -> Seq<int> {
    Seq::new(n as nat, |i: int| i)
}

/// The positions kept by the language preference: those in the question's
/// language; all of them when the language is unknown or no candidate has it.
pub open spec fn language_kept(langs: Seq<Option<Seq<char>>>, q: Option<Seq<char>>) -> Seq<int> {
    match q {
        None => all_positions(langs.len() as int),
        Some(q) => {
            let hits = positions_with_lang(langs, q);
            if hits.len() == 0 {
                all_positions(langs.len() as int)
            } else {
                hits
            }
        },
    }
}

pub open spec fn as_ints(v: Seq<usize>) -> Seq<int> {
    v.map_values(|x: usize| x as int)
}

/// The positions of the candidates that the language preference keeps.
pub fn language_filter(langs: &Vec<Option<String>>, query_lang: &Option<String>) -> (r: Vec<
    usize,
>)
    ensures
        as_ints(r@) == language_kept(langs@.map_values(|o: Option<String>| opt_view(o)), opt_view(*query_lang)),
{
    let ghost ls = langs@.map_values(|o: Option<String>| opt_view(o));
    let mut all: Vec<usize> = Vec::new();
    let mut i: usize = 0;
    while i < langs.len()
        invariant
            i <= langs.len(),
            all.len() == i,
            forall|k: int| 0 <= k < i ==> all@[k] == k,
        decreases langs.len() - i,
    {
        all.push(i);
        i = i + 1;
    }
    assert(as_ints(all@) =~= all_positions(langs.len() as int));
    match query_lang {
        None => all,
        Some(q) => {
            let mut hits: Vec<usize> = Vec::new();
            let mut j: usize = 0;
            while j < langs.len()
                invariant
                    j <= langs.len(),
                    ls == langs@.map_values(|o: Option<String>| opt_view(o)),
                    as_ints(hits@) == positions_with_lang(ls.subrange(0, j as int), q@),
                decreases langs.len() - j,
            {
                assert(ls.subrange(0, j + 1).drop_last() =~= ls.subrange(0, j as int));
                let same = match &langs[j] {
                    Some(l) => *l == *q,
                    None => false,
                };
                if same {
                    hits.push(j);
                }
                assert(as_ints(hits@) =~= positions_with_lang(ls.subrange(0, j + 1), q@));
                j = j + 1;
            }
            assert(ls.subrange(0, langs.len() as int) =~= ls);
            if hits.len() == 0 {
                all
            } else {
                hits
            }
        },
    }
}

/// The 1-based rank of `id` in the full-text ranking, searching from `i`; 0 when absent.
pub open spec fn fts_rank(fts: Seq<i64>, id: i64, i: int) -> int
    decreases fts.len() - i,
{
    if i < 0 || i >= fts.len() {
        0
    } else if fts[i] == id {
        i + 1
    } else {
        fts_rank(fts, id, i + 1)
    }
}

/// Numerator of the fused score of the candidate at position `i`:
/// `1/(60+vr) + 1/(60+fr)` is `(120+vr+fr) / ((60+vr)(60+fr))`, with `vr = i + 1`.
pub open spec fn rrf_num(ids: Seq<i64>, fts: Seq<i64>, i: int) -> int {
    let fr = fts_rank(fts, ids[i], 0);
    if fr == 0 {
        1
    } else {
        121 + i + fr
    }
}

/// Denominator of the fused score of the candidate at position `i`.
pub open spec fn rrf_den(ids: Seq<i64>, fts: Seq<i64>, i: int) -> int {
    let fr = fts_rank(fts, ids[i], 0);
    if fr == 0 {
        61 + i
    } else {
        (61 + i) * (60 + fr)
    }
}

/// Candidate `a` comes before candidate `b` after fusion: a higher score, or
/// an equal one and an earlier position.
pub open spec fn fused_before(ids: Seq<i64>, fts: Seq<i64>, a: int, b: int) -> bool {
    let x = rrf_num(ids, fts, a) * rrf_den(ids, fts, b);
    let y = rrf_num(ids, fts, b) * rrf_den(ids, fts, a);
    x > y || (x == y && a < b)
}

proof fn lemma_fraction_order(an: int, ad: int, bn: int, bd: int, cn: int, cd: int)
    requires
        ad > 0,
        bd > 0,
        cd > 0,
        an * bd > bn * ad,
        bn * cd >= cn * bd,
    ensures
        an * cd > cn * ad,
{
    assert(an * bd * cd > bn * ad * cd) by (nonlinear_arith)
        requires
            an * bd > bn * ad,
            cd > 0,
    ;
    assert(bn * cd * ad >= cn * bd * ad) by (nonlinear_arith)
        requires
            bn * cd >= cn * bd,
            ad > 0,
    ;
    assert(an * cd * bd > cn * ad * bd) by (nonlinear_arith)
        requires
            an * bd * cd > bn * ad * cd,
            bn * cd * ad >= cn * bd * ad,
    ;
    assert(an * cd > cn * ad) by (nonlinear_arith)
        requires
            an * cd * bd > cn * ad * bd,
            bd > 0,
    ;
}

proof fn lemma_fts_rank_bounds(fts: Seq<i64>, id: i64, i: int)
    requires
        0 <= i,
    ensures
        0 <= fts_rank(fts, id, i) <= fts.len(),
    decreases fts.len() - i,
{
    if i < fts.len() && fts[i] != id {
        lemma_fts_rank_bounds(fts, id, i + 1);
    }
}

/// The candidates in fused order: by `1/(60+vr) + 1/(60+fr)` descending, where
/// `vr` is the 1-based position in `ids` and `fr` the 1-based rank in `fts`
/// (the second term only for ids that the full-text search returned); equal
/// scores keep their order.
pub fn fuse_ranks(ids: &Vec<i64>, fts: &Vec<i64>) -> (r: Vec<usize>)
    requires
        ids.len() <= u32::MAX,
        fts.len() <= u32::MAX,
    ensures
        r.len() == ids.len(),
        forall|k: int| 0 <= k < r.len() ==> r[k] < ids.len(),
        forall|k: int, l: int|
            0 <= k < l < r.len() ==> fused_before(ids@, fts@, r[k] as int, r[l] as int),
{
    let n = ids.len();
    let m = fts.len();
    let mut nums: Vec<u128> = Vec::new();
    let mut dens: Vec<u128> = Vec::new();
    let mut i: usize = 0;
    while i < n
        invariant
            i <= n == ids.len(),
            m == fts.len(),
            n <= u32::MAX,
            m <= u32::MAX,
            nums.len() == i,
            dens.len() == i,
            forall|k: int| 0 <= k < i ==> #[trigger] nums[k] == rrf_num(ids@, fts@, k),
            forall|k: int| 0 <= k < i ==> #[trigger] dens[k] == rrf_den(ids@, fts@, k),
            forall|k: int| 0 <= k < i ==> 0 < #[trigger] nums[k] < 0x4_0000_0000,
            forall|k: int| 0 <= k < i ==> 0 < #[trigger] dens[k] < 0x4_0000_0000_0000_0000,
        decreases n - i,
    {
        let id = ids[i];
        let mut j: usize = 0;
        while j < m && fts[j] != id
            invariant
                j <= m == fts.len(),
                fts_rank(fts@, id, 0) == fts_rank(fts@, id, j as int),
            decreases m - j,
        {
            j = j + 1;
        }
        proof {
            lemma_fts_rank_bounds(fts@, id, 0);
        }
        let vr: u128 = (i as u128) + 1;
        if j < m {
            let fr: u128 = (j as u128) + 1;
            assert(fts_rank(fts@, id, 0) == fr);
            nums.push(120 + vr + fr);
            assert((60 + vr) * (60 + fr) < 0x4_0000_0000_0000_0000) by (nonlinear_arith)
                requires
                    vr <= 0x1_0000_0000,
                    fr <= 0x1_0000_0000,
            ;
            let d = (60 + vr) * (60 + fr);
            assert(d > 0) by (nonlinear_arith)
                requires
                    d == (60 + vr) * (60 + fr),
                    vr >= 1,
                    fr >= 1,
            ;
            assert(d == (61 + i) * (60 + fts_rank(fts@, id, 0)));
            dens.push(d);
        } else {
            assert(fts_rank(fts@, id, 0) == 0);
            nums.push(1);
            dens.push(60 + vr);
        }
        assert(nums[i as int] == rrf_num(ids@, fts@, i as int));
        assert(dens[i as int] == rrf_den(ids@, fts@, i as int));
        i = i + 1;
    }
    let mut order: Vec<usize> = Vec::new();
    let mut x: usize = 0;
    while x < n
        invariant
            x <= n == ids.len(),
            nums.len() == n,
            dens.len() == n,
            forall|k: int| 0 <= k < n ==> #[trigger] nums[k] == rrf_num(ids@, fts@, k),
            forall|k: int| 0 <= k < n ==> #[trigger] dens[k] == rrf_den(ids@, fts@, k),
            forall|k: int| 0 <= k < n ==> 0 < #[trigger] nums[k] < 0x4_0000_0000,
            forall|k: int| 0 <= k < n ==> 0 < #[trigger] dens[k] < 0x4_0000_0000_0000_0000,
            order.len() == x,
            forall|k: int| 0 <= k < order.len() ==> #[trigger] order[k] < x,
            forall|k: int, l: int|
                0 <= k < l < order.len() ==> fused_before(
                    ids@,
                    fts@,
                    order[k] as int,
                    order[l] as int,
                ),
        decreases n - x,
    {
        let mut p: usize = 0;
        while p < order.len() && !score_greater(nums[x], dens[x], nums[order[p]], dens[order[p]])
            invariant
                p <= order.len() == x < n,
                nums.len() == n,
                dens.len() == n,
                forall|k: int| 0 <= k < order.len() ==> #[trigger] order[k] < x,
                forall|k: int| 0 <= k < n ==> 0 < #[trigger] nums[k] < 0x4_0000_0000,
                forall|k: int| 0 <= k < n ==> 0 < #[trigger] dens[k] < 0x4_0000_0000_0000_0000,
                forall|k: int|
                    0 <= k < p ==> !(nums[x as int] * dens[order[k] as int] > nums[order[k] as int]
                        * dens[x as int]),
                p < order.len() ==> order[p as int] < n,
            decreases order.len() - p,
        {
            p = p + 1;
        }
        let ghost old_order = order@;
        order.insert(p, x);
        proof {
            assert forall|k: int, l: int| 0 <= k < l < order.len() implies fused_before(
                ids@,
                fts@,
                order[k] as int,
                order[l] as int,
            ) by {
                if l == p {
                    assert(order[k] == old_order[k]);
                } else if k == p {
                    let q = old_order[l - 1] as int;
                    assert(order[l] == q);
                    if l - 1 > p {
                        let pp = old_order[p as int] as int;
                        assert(fused_before(ids@, fts@, pp, q));
                        assert(dens[x as int] > 0 && dens[pp] > 0 && dens[q] > 0);
                        lemma_fraction_order(
                            rrf_num(ids@, fts@, x as int),
                            rrf_den(ids@, fts@, x as int),
                            rrf_num(ids@, fts@, pp),
                            rrf_den(ids@, fts@, pp),
                            rrf_num(ids@, fts@, q),
                            rrf_den(ids@, fts@, q),
                        );
                    }
                } else {
                    let kk = if k < p { k } else { k - 1 };
                    let ll = if l < p { l } else { l - 1 };
                    assert(order[k] == old_order[kk]);
                    assert(order[l] == old_order[ll]);
                }
            }
        }
        x = x + 1;
    }
    order
}

fn score_greater(an: u128, ad: u128, bn: u128, bd: u128) -> (r: bool)
    requires
        0 < an < 0x4_0000_0000,
        0 < bn < 0x4_0000_0000,
        0 < ad < 0x4_0000_0000_0000_0000,
        0 < bd < 0x4_0000_0000_0000_0000,
    ensures
        r == (an * bd > bn * ad),
{
    proof {
        lemma_small_products(an, bd);
        lemma_small_products(bn, ad);
    }
    an * bd > bn * ad
}

proof fn lemma_small_products(a: u128, b: u128)
    requires
        0 < a < 0x4_0000_0000,
        0 < b < 0x4_0000_0000_0000_0000,
    ensures
        a * b < 0x1_0000_0000_0000_0000_0000_0000_0000,
{
    assert(a * b < 0x1_0000_0000_0000_0000_0000_0000_0000) by (nonlinear_arith)
        requires
            0 < a < 0x4_0000_0000,
            0 < b < 0x4_0000_0000_0000_0000,
    ;
}

/// The first `SNIPPET_CHARS` characters of a chunk's text.
pub open spec fn snippet_of(text: Seq<char>) -> Seq<char> {
    if text.len() <= SNIPPET_CHARS {
        text
    } else {
        text.subrange(0, SNIPPET_CHARS as int)
    }
}

pub fn snippet(text: &str) -> (r: String)
    ensures
        r@ == snippet_of(text@),
{
    let v = chars_of(text);
    if v.len() <= SNIPPET_CHARS {
        string_of(&v)
    } else {
        string_of(&crate::text::copy_range(&v, 0, SNIPPET_CHARS))
    }
}


/// Similarities are handed over as integers: a cosine of 1 is `SIM_SCALE`.
pub const SIM_SCALE: i64 = 1_000_000_000;

/// The trade-off weight between relevance and novelty is given in thousandths.
pub const LAMBDA_SCALE: i64 = 1000;

/// The largest similarity of candidate `i` to the selected ones, and at least 0.
pub open spec fn max_sim_selected(pair: Seq<Seq<i64>>, sel: Seq<int>, i: int) -> int
    decreases sel.len(),
{
    if sel.len() == 0 {
        0
    } else {
        let m = max_sim_selected(pair, sel.drop_last(), i);
        let x = pair[i][sel.last()] as int;
        if x > m {
            x
        } else {
            m
        }
    }
}

/// The marginal relevance of candidate `i`, scaled: `λ·sim(q, i) - (1-λ)·max sim(i, selected)`.
pub open spec fn mmr_score(q: Seq<i64>, pair: Seq<Seq<i64>>, sel: Seq<int>, lam: int, i: int) -> int {
    lam * q[i] - (LAMBDA_SCALE - lam) * max_sim_selected(pair, sel, i)
}

/// The first unselected candidate below `j` with the highest score; -1 when none.
pub open spec fn best_below(q: Seq<i64>, pair: Seq<Seq<i64>>, sel: Seq<int>, lam: int, j: int) -> int
    decreases j,
{
    if j <= 0 {
        -1
    } else {
        let b = best_below(q, pair, sel, lam, j - 1);
        if sel.contains(j - 1) {
            b
        } else if b < 0 || mmr_score(q, pair, sel, lam, j - 1) > mmr_score(q, pair, sel, lam, b) {
            j - 1
        } else {
            b
        }
    }
}

/// Greedy selection: starting from `sel`, add the best candidate up to
/// `steps` times, stopping early when every candidate is taken.
pub open spec fn mmr_from(q: Seq<i64>, pair: Seq<Seq<i64>>, lam: int, sel: Seq<int>, steps: nat) -> Seq<int>
    decreases steps,
{
    if steps == 0 {
        sel
    } else {
        let b = best_below(q, pair, sel, lam, q.len() as int);
        if b < 0 {
            sel
        } else {
            mmr_from(q, pair, lam, sel.push(b), (steps - 1) as nat)
        }
    }
}

proof fn lemma_best_below(q: Seq<i64>, pair: Seq<Seq<i64>>, sel: Seq<int>, lam: int, j: int)
    requires
        j >= 0,
    ensures
        -1 <= best_below(q, pair, sel, lam, j) < j,
        best_below(q, pair, sel, lam, j) >= 0 ==> !sel.contains(best_below(q, pair, sel, lam, j)),
        best_below(q, pair, sel, lam, j) < 0 ==> forall|i: int| 0 <= i < j ==> sel.contains(i),
    decreases j,
{
    if j > 0 {
        lemma_best_below(q, pair, sel, lam, j - 1);
    }
}

pub open spec fn similarity_table(q: Seq<i64>, pair: Seq<Seq<i64>>) -> bool {
    &&& pair.len() == q.len()
    &&& forall|i: int| 0 <= i < q.len() ==> -SIM_SCALE <= #[trigger] q[i] <= SIM_SCALE
    &&& forall|i: int| 0 <= i < pair.len() ==> (#[trigger] pair[i]).len() == q.len()
    &&& forall|i: int, j: int|
        0 <= i < pair.len() && 0 <= j < q.len() ==> -SIM_SCALE <= #[trigger] pair[i][j] <= SIM_SCALE
}

/// Maximal-marginal-relevance selection of at most `top_k` candidates:
/// `query_sim[i]` is the similarity of candidate `i` to the question and
/// `pair_sim[i][j]` that of candidates `i` and `j`, both scaled by
/// `SIM_SCALE`; `lambda` is in thousandths. Each step takes the first
/// unselected candidate of highest score.
pub fn mmr_select(query_sim: &Vec<i64>, pair_sim: &Vec<Vec<i64>>, top_k: usize, lambda: i64) -> (r:
    Vec<usize>)
    requires
        similarity_table(query_sim@, pair_sim@.map_values(|row: Vec<i64>| row@)),
        0 <= lambda <= LAMBDA_SCALE,
    ensures
        as_ints(r@) == mmr_from(
            query_sim@,
            pair_sim@.map_values(|row: Vec<i64>| row@),
            lambda as int,
            seq![],
            top_k as nat,
        ),
{
    let ghost q = query_sim@;
    let ghost pair = pair_sim@.map_values(|row: Vec<i64>| row@);
    let ghost lam = lambda as int;
    let n = query_sim.len();
    let mut sel: Vec<usize> = Vec::new();
    let mut used: Vec<bool> = Vec::new();
    let mut i: usize = 0;
    while i < n
        invariant
            i <= n,
            used.len() == i,
            forall|k: int| 0 <= k < i ==> !used[k],
        decreases n - i,
    {
        used.push(false);
        i = i + 1;
    }
    let mut done = false;
    assert(as_ints(sel@) =~= seq![]);
    while sel.len() < top_k && !done
        invariant
            n == q.len(),
            q == query_sim@,
            pair == pair_sim@.map_values(|row: Vec<i64>| row@),
            lam == lambda as int,
            0 <= lambda <= LAMBDA_SCALE,
            similarity_table(q, pair),
            used.len() == n,
            sel.len() <= top_k,
            forall|k: int| 0 <= k < n ==> used[k] == as_ints(sel@).contains(k),
            forall|k: int| 0 <= k < sel.len() ==> sel[k] < n,
            mmr_from(q, pair, lam, seq![], top_k as nat) == if done {
                as_ints(sel@)
            } else {
                mmr_from(q, pair, lam, as_ints(sel@), (top_k - sel.len()) as nat)
            },
        decreases top_k - sel.len(), if done {
            0int
        } else {
            1int
        },
    {
        let ghost cur = as_ints(sel@);
        let mut best: usize = n;
        let mut best_score: i64 = 0;
        let mut j: usize = 0;
        while j < n
            invariant
                j <= n == q.len(),
                q == query_sim@,
                pair == pair_sim@.map_values(|row: Vec<i64>| row@),
                lam == lambda as int,
                0 <= lambda <= LAMBDA_SCALE,
                similarity_table(q, pair),
                used.len() == n,
                cur == as_ints(sel@),
                forall|k: int| 0 <= k < n ==> used[k] == cur.contains(k),
                forall|k: int| 0 <= k < sel.len() ==> sel[k] < n,
                (if best == n {
                    -1
                } else {
                    best as int
                }) == best_below(q, pair, cur, lam, j as int),
                best <= n,
                best < n ==> best_score == mmr_score(q, pair, cur, lam, best as int),
            decreases n - j,
        {
            if !used[j] {
                let row = &pair_sim[j];
                assert(row@ == pair[j as int]);
                let mut m: i64 = 0;
                let mut t: usize = 0;
                while t < sel.len()
                    invariant
                        t <= sel.len(),
                        j < n == q.len(),
                        row@ == pair[j as int],
                        pair == pair_sim@.map_values(|row: Vec<i64>| row@),
                        similarity_table(q, pair),
                        cur == as_ints(sel@),
                        forall|k: int| 0 <= k < sel.len() ==> sel[k] < n,
                        m == max_sim_selected(pair, cur.subrange(0, t as int), j as int),
                        0 <= m <= SIM_SCALE,
                    decreases sel.len() - t,
                {
                    let x = row[sel[t]];
                    assert(cur.subrange(0, t + 1).drop_last() =~= cur.subrange(0, t as int));
                    assert(x == pair[j as int][cur[t as int]]);
                    if x > m {
                        m = x;
                    }
                    t = t + 1;
                }
                assert(cur.subrange(0, sel.len() as int) =~= cur);
                let qj = query_sim[j];
                assert(-SIM_SCALE <= q[j as int] <= SIM_SCALE);
                assert(-1_000_000_000_000 <= lambda * qj <= 1_000_000_000_000) by (nonlinear_arith)
                    requires
                        0 <= lambda <= 1000,
                        -1_000_000_000 <= qj <= 1_000_000_000,
                ;
                assert(0 <= (LAMBDA_SCALE - lambda) * m <= 1_000_000_000_000) by (nonlinear_arith)
                    requires
                        0 <= LAMBDA_SCALE - lambda <= 1000,
                        0 <= m <= 1_000_000_000,
                ;
                let sc = lambda * qj - (LAMBDA_SCALE - lambda) * m;
                assert(sc == mmr_score(q, pair, cur, lam, j as int));
                assert(!cur.contains(j as int));
                let ghost b = best_below(q, pair, cur, lam, j as int);
                assert(b == (if best == n {
                    -1
                } else {
                    best as int
                }));
                assert(b >= 0 ==> best_score == mmr_score(q, pair, cur, lam, b));
                assert(best_below(q, pair, cur, lam, j + 1) == (if b < 0 || mmr_score(
                    q,
                    pair,
                    cur,
                    lam,
                    j as int,
                ) > mmr_score(q, pair, cur, lam, b) {
                    j as int
                } else {
                    b
                }));
                if best == n || sc > best_score {
                    best = j;
                    best_score = sc;
                }
                assert((if best == n {
                    -1
                } else {
                    best as int
                }) == best_below(q, pair, cur, lam, j + 1));
            } else {
                assert(cur.contains(j as int));
                assert(best_below(q, pair, cur, lam, j + 1) == best_below(q, pair, cur, lam, j as int));
            }
            j = j + 1;
        }
        proof {
            lemma_best_below(q, pair, cur, lam, n as int);
        }
        if best == n {
            done = true;
        } else {
            let ghost before = sel@;
            sel.push(best);
            used.set(best, true);
            assert(as_ints(sel@) =~= cur.push(best as int));
            assert forall|k: int| 0 <= k < n implies used[k] == as_ints(sel@).contains(k) by {
                if k == best as int {
                    assert(as_ints(sel@)[sel.len() - 1] == k);
                } else {
                    if as_ints(sel@).contains(k) {
                        let w = choose|w: int| 0 <= w < sel.len() && as_ints(sel@)[w] == k;
                        assert(w < sel.len() - 1);
                        assert(cur[w] == k);
                    }
                    if cur.contains(k) {
                        let w = choose|w: int| 0 <= w < cur.len() && cur[w] == k;
                        assert(as_ints(sel@)[w] == k);
                    }
                }
            }
        }
    }
    sel
}

} // verus!
