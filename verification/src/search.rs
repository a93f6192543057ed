use vstd::prelude::*;

use crate::Error;
use crate::codec::codes_of;
use crate::codec::dec_rev_at;
use crate::codec::dec_source_at;
use crate::index::Index;
use crate::index::RevIndexRecord;
use crate::keywords::get_query_keywords;
use crate::keywords::query_keywords;
use crate::keywords::views_of;
use crate::score::Score;
use crate::score::lemma_rat_add_cong;
use crate::score::lemma_rat_eq_trans;
use crate::score::lemma_rat_le_total;
use crate::score::lemma_rat_le_trans;
use crate::score::rat_add;
use crate::score::rat_eq;
use crate::score::rat_le;
use crate::score::red_sum;
use crate::source::Source;

verus! {

// The search engine: a query is normalized with the same pipeline as page
// text, each token's postings are fetched, per-page occurrence ratios are
// summed, and the pages are returned best first.

/// The postings records found for the given tokens, in order: an absent
/// token contributes nothing, a present one must decode.
pub open spec fn spec_fetch(p: Map<Seq<char>, Seq<u8>>, toks: Seq<Seq<char>>) -> Option<
    Seq<(usize, Seq<(u64, usize)>)>,
>
    decreases toks.len(),
{
    if toks.len() == 0 {
        Some(Seq::empty())
    } else if p.contains_key(toks.first()) {
        match dec_rev_at(p[toks.first()]) {
            Some(fp) => match spec_fetch(p, toks.drop_first()) {
                Some(rest) => Some(seq![fp] + rest),
                None => None,
            },
            None => None,
        }
    } else {
        spec_fetch(p, toks.drop_first())
    }
}

/// Fetching one token more extends the fetched list at its end.
pub proof fn lemma_spec_fetch_push(
    p: Map<Seq<char>, Seq<u8>>,
    toks: Seq<Seq<char>>,
    t: Seq<char>,
)
    ensures
        spec_fetch(p, toks.push(t)) == (match spec_fetch(p, toks) {
            Some(rest) => (if p.contains_key(t) {
                match dec_rev_at(p[t]) {
                    Some(fp) => Some(rest.push(fp)),
                    None => None,
                }
            } else {
                Some(rest)
            }),
            None => None::<Seq<(usize, Seq<(u64, usize)>)>>,
        }),
    decreases toks.len(),
{
    if toks.len() == 0 {
        assert(toks.push(t).first() == t);
        assert(toks.push(t).drop_first() =~= Seq::<Seq<char>>::empty());
        if p.contains_key(t) && dec_rev_at(p[t]) is Some {
            let fp = dec_rev_at(p[t])->Some_0;
            assert(seq![fp] + Seq::<(usize, Seq<(u64, usize)>)>::empty() =~= Seq::<(
                usize,
                Seq<(u64, usize)>,
            )>::empty().push(fp));
        }
    } else {
        assert(toks.push(t).first() == toks.first());
        assert(toks.push(t).drop_first() =~= toks.drop_first().push(t));
        lemma_spec_fetch_push(p, toks.drop_first(), t);
        if p.contains_key(toks.first()) && dec_rev_at(p[toks.first()]) is Some {
            let fp = dec_rev_at(p[toks.first()])->Some_0;
            if spec_fetch(p, toks.drop_first()) is Some {
                let rest = spec_fetch(p, toks.drop_first())->Some_0;
                if p.contains_key(t) && dec_rev_at(p[t]) is Some {
                    assert(seq![fp] + rest.push(dec_rev_at(p[t])->Some_0) =~= (seq![fp]
                        + rest).push(dec_rev_at(p[t])->Some_0));
                }
            }
        }
    }
}

/// The running scores after one more occurrence ratio for page `h`.
pub open spec fn add_score(m: Map<u64, (int, int)>, h: u64, term: (int, int)) -> Map<
    u64,
    (int, int),
> {
    if m.contains_key(h) {
        m.insert(h, rat_add(m[h], term))
    } else {
        m.insert(h, term)
    }
}

/// The running scores after every pair of one record, whose total is `f`,
/// was added in order.
pub open spec fn score_pairs(m: Map<u64, (int, int)>, ps: Seq<(u64, usize)>, f: usize) -> Map<
    u64,
    (int, int),
>
    decreases ps.len(),
{
    if ps.len() == 0 {
        m
    } else {
        score_pairs(add_score(m, ps.first().0, (ps.first().1 as int, f as int)), ps.drop_first(), f)
    }
}

/// The running scores after every fetched record was added in order.
pub open spec fn score_recs(
    m: Map<u64, (int, int)>,
    recs: Seq<(usize, Seq<(u64, usize)>)>,
) -> Map<u64, (int, int)>
    decreases recs.len(),
{
    if recs.len() == 0 {
        m
    } else {
        score_recs(score_pairs(m, recs.first().1, recs.first().0), recs.drop_first())
    }
}

/// The accumulated score of every page over the fetched records: the sum of
/// occurrences-on-the-page over the record's total, token by token.
pub open spec fn spec_scores(recs: Seq<(usize, Seq<(u64, usize)>)>) -> Map<u64, (int, int)> {
    score_recs(Map::empty(), recs)
}

/// The machine representation of the running scores after one more
/// occurrence ratio for page `h`: an existing entry becomes the reduced
/// exact sum, which can exceed the machine word; a fresh entry cannot.
pub open spec fn rep_add(m: Map<u64, (int, int)>, h: u64, term: (int, int)) -> Option<
    Map<u64, (int, int)>,
> {
    if m.contains_key(h) {
        match red_sum(m[h], term) {
            Some(v) => Some(m.insert(h, v)),
            None => None,
        }
    } else {
        Some(m.insert(h, term))
    }
}

/// The score representations after every pair of one record was added.
pub open spec fn rep_pairs(m: Map<u64, (int, int)>, ps: Seq<(u64, usize)>, f: usize) -> Option<
    Map<u64, (int, int)>,
>
    decreases ps.len(),
{
    if ps.len() == 0 {
        Some(m)
    } else {
        match rep_add(m, ps.first().0, (ps.first().1 as int, f as int)) {
            Some(q) => rep_pairs(q, ps.drop_first(), f),
            None => None,
        }
    }
}

/// The score representations after every fetched record was added; `None`
/// exactly when some intermediate reduced sum no longer fits the machine.
pub open spec fn rep_recs(
    m: Map<u64, (int, int)>,
    recs: Seq<(usize, Seq<(u64, usize)>)>,
) -> Option<Map<u64, (int, int)>>
    decreases recs.len(),
{
    if recs.len() == 0 {
        Some(m)
    } else {
        match rep_pairs(m, recs.first().1, recs.first().0) {
            Some(q) => rep_recs(q, recs.drop_first()),
            None => None,
        }
    }
}

/// The pair fold can be cut at any point: the whole run equals the run of
/// the suffix from wherever the prefix ended, and fails when either does.
pub proof fn lemma_rep_pairs_split(m: Map<u64, (int, int)>, ps: Seq<(u64, usize)>, f: usize, k: int)
    requires
        0 <= k <= ps.len(),
    ensures
        rep_pairs(m, ps, f) == (match rep_pairs(m, ps.subrange(0, k), f) {
            Some(q) => rep_pairs(q, ps.subrange(k, ps.len() as int), f),
            None => None::<Map<u64, (int, int)>>,
        }),
    decreases ps.len(),
{
    if k == 0 {
        assert(ps.subrange(0, 0) =~= Seq::<(u64, usize)>::empty());
        assert(ps.subrange(0, ps.len() as int) =~= ps);
    } else {
        let pre = ps.subrange(0, k);
        assert(pre.first() == ps.first());
        assert(pre.drop_first() =~= ps.drop_first().subrange(0, k - 1));
        assert(ps.subrange(k, ps.len() as int) =~= ps.drop_first().subrange(
            k - 1,
            ps.drop_first().len() as int,
        ));
        match rep_add(m, ps.first().0, (ps.first().1 as int, f as int)) {
            Some(q) => {
                lemma_rep_pairs_split(q, ps.drop_first(), f, k - 1);
            },
            None => {},
        }
    }
}

/// The record fold can be cut at any point, in the same way.
pub proof fn lemma_rep_recs_split(
    m: Map<u64, (int, int)>,
    recs: Seq<(usize, Seq<(u64, usize)>)>,
    k: int,
)
    requires
        0 <= k <= recs.len(),
    ensures
        rep_recs(m, recs) == (match rep_recs(m, recs.subrange(0, k)) {
            Some(q) => rep_recs(q, recs.subrange(k, recs.len() as int)),
            None => None::<Map<u64, (int, int)>>,
        }),
    decreases recs.len(),
{
    if k == 0 {
        assert(recs.subrange(0, 0) =~= Seq::<(usize, Seq<(u64, usize)>)>::empty());
        assert(recs.subrange(0, recs.len() as int) =~= recs);
    } else {
        let pre = recs.subrange(0, k);
        assert(pre.first() == recs.first());
        assert(pre.drop_first() =~= recs.drop_first().subrange(0, k - 1));
        assert(recs.subrange(k, recs.len() as int) =~= recs.drop_first().subrange(
            k - 1,
            recs.drop_first().len() as int,
        ));
        match rep_pairs(m, recs.first().1, recs.first().0) {
            Some(q) => {
                lemma_rep_recs_split(q, recs.drop_first(), k - 1);
            },
            None => {},
        }
    }
}

pub proof fn lemma_score_pairs_push(
    m: Map<u64, (int, int)>,
    ps: Seq<(u64, usize)>,
    p: (u64, usize),
    f: usize,
)
    ensures
        score_pairs(m, ps.push(p), f) == add_score(
            score_pairs(m, ps, f),
            p.0,
            (p.1 as int, f as int),
        ),
    decreases ps.len(),
{
    if ps.len() == 0 {
        assert(ps.push(p).first() == p);
        assert(ps.push(p).drop_first() =~= Seq::<(u64, usize)>::empty());
        assert(score_pairs(
            add_score(m, p.0, (p.1 as int, f as int)),
            Seq::<(u64, usize)>::empty(),
            f,
        ) == add_score(m, p.0, (p.1 as int, f as int)));
        assert(score_pairs(m, Seq::<(u64, usize)>::empty(), f) == m);
    } else {
        assert(ps.push(p).first() == ps.first());
        assert(ps.push(p).drop_first() =~= ps.drop_first().push(p));
        lemma_score_pairs_push(
            add_score(m, ps.first().0, (ps.first().1 as int, f as int)),
            ps.drop_first(),
            p,
            f,
        );
    }
}

pub proof fn lemma_score_recs_push(
    m: Map<u64, (int, int)>,
    recs: Seq<(usize, Seq<(u64, usize)>)>,
    rec: (usize, Seq<(u64, usize)>),
)
    ensures
        score_recs(m, recs.push(rec)) == score_pairs(score_recs(m, recs), rec.1, rec.0),
    decreases recs.len(),
{
    if recs.len() == 0 {
        assert(recs.push(rec).first() == rec);
        assert(recs.push(rec).drop_first() =~= Seq::<(usize, Seq<(u64, usize)>)>::empty());
        assert(score_recs(
            score_pairs(m, rec.1, rec.0),
            Seq::<(usize, Seq<(u64, usize)>)>::empty(),
        ) == score_pairs(m, rec.1, rec.0));
        assert(score_recs(m, Seq::<(usize, Seq<(u64, usize)>)>::empty()) == m);
    } else {
        assert(recs.push(rec).first() == recs.first());
        assert(recs.push(rec).drop_first() =~= recs.drop_first().push(rec));
        lemma_score_recs_push(
            score_pairs(m, recs.first().1, recs.first().0),
            recs.drop_first(),
            rec,
        );
    }
}

/// Whether the association list `v` holds exactly the scores of `m`: every
/// entry's score equals the page's accumulated score, and every scored page
/// has an entry.
pub open spec fn scores_match(v: Seq<(u64, Score)>, m: Map<u64, (int, int)>) -> bool {
    &&& forall|j: int|
        0 <= j < v.len() ==> (#[trigger] v[j]).1.wf() && m.contains_key(v[j].0) && rat_eq(
            v[j].1.view(),
            m[v[j].0],
        )
    &&& forall|h: u64|
        #[trigger] m.contains_key(h) ==> exists|j: int| 0 <= j < v.len() && (#[trigger] v[j]).0
            == h
}

/// Whether no page appears twice in the association list.
pub open spec fn distinct_keys(v: Seq<(u64, Score)>) -> bool {
    forall|j1: int, j2: int|
        0 <= j1 < j2 < v.len() ==> (#[trigger] v[j1]).0 != (#[trigger] v[j2]).0
}

/// Whether the list runs from the best score down.
pub open spec fn sorted_desc(v: Seq<(u64, Score)>) -> bool {
    forall|j1: int, j2: int|
        0 <= j1 < j2 < v.len() ==> rat_le((#[trigger] v[j2]).1.view(), (#[trigger] v[j1]).1.view())
}

/// Whether the association list `v` holds exactly the machine
/// representations recorded in `m`: entry for entry, numerator and
/// denominator, not merely equal rationals.
pub open spec fn reps_match(v: Seq<(u64, Score)>, m: Map<u64, (int, int)>) -> bool {
    &&& forall|j: int|
        0 <= j < v.len() ==> m.contains_key((#[trigger] v[j]).0) && v[j].1.view() == m[v[j].0]
    &&& forall|h: u64|
        #[trigger] m.contains_key(h) ==> exists|j: int| 0 <= j < v.len() && (#[trigger] v[j]).0
            == h
}

/// Adds one occurrence ratio `occ / f` for page `h` into the running list.
fn add_term(
    v: &mut Vec<(u64, Score)>,
    h: u64,
    occ: u64,
    f: u64,
    Ghost(m): Ghost<Map<u64, (int, int)>>,
    Ghost(mr): Ghost<Map<u64, (int, int)>>,
) -> (r: Result<(), Error>)
    requires
        f >= 1,
        scores_match(old(v)@, m),
        reps_match(old(v)@, mr),
        distinct_keys(old(v)@),
    ensures
        r is Ok <==> rep_add(mr, h, (occ as int, f as int)) is Some,
        r is Ok ==> scores_match(final(v)@, add_score(m, h, (occ as int, f as int)))
            && distinct_keys(final(v)@) && reps_match(
            final(v)@,
            rep_add(mr, h, (occ as int, f as int))->Some_0,
        ),
        r matches Err(e) ==> e is Overflow,
{
    let ghost term = (occ as int, f as int);
    let n: usize = v.len();
    let mut j: usize = 0;
    while j < n
        invariant
            n == v@.len(),
            j <= n,
            f >= 1,
            term == (occ as int, f as int),
            v@ == old(v)@,
            scores_match(v@, m),
            reps_match(v@, mr),
            distinct_keys(v@),
            forall|k: int| 0 <= k < j ==> (#[trigger] v@[k]).0 != h,
        decreases n - j,
    {
        if v[j].0 == h {
            proof {
                assert(mr.contains_key(h) && v@[j as int].1.view() == mr[h]);
            }
            let entry = v.remove(j);
            let add = Score::frac(occ, f);
            proof {
                assert(entry.1.view() == mr[h] && add.view() == term);
            }
            let summed = match entry.1.add(add) {
                Some(s) => s,
                None => {
                    proof {
                        assert(red_sum(mr[h], term) is None);
                        assert(rep_add(mr, h, term) is None);
                    }
                    return Err(Error::Overflow);
                },
            };
            proof {
                assert(red_sum(mr[h], term) is Some);
                assert(summed.view() == red_sum(mr[h], term)->Some_0);
                assert(rep_add(mr, h, term) == Some(mr.insert(h, summed.view())));
            }
            let ghost removed = v@;
            v.insert(j, (h, summed));
            proof {
                assert(v@ =~= old(v)@.update(j as int, (h, summed)));
                assert(m.contains_key(h));
                lemma_rat_add_cong(entry.1.view(), m[h], term);
                assert(rat_add(entry.1.view(), term).1 != 0) by (nonlinear_arith)
                    requires
                        entry.1.view().1 >= 1,
                        term.1 >= 1,
                        rat_add(entry.1.view(), term).1 == entry.1.view().1 * term.1,
                ;
                lemma_rat_eq_trans(summed.view(), rat_add(entry.1.view(), term), rat_add(m[h], term));
                let m2 = add_score(m, h, term);
                assert(scores_match(v@, m2)) by {
                    assert(forall|k: int|
                        0 <= k < v@.len() && k != j ==> v@[k] == #[trigger] old(v)@[k]);
                    assert(v@[j as int] == (h, summed));
                    assert(forall|k: int|
                        0 <= k < v@.len() && k != j ==> (#[trigger] v@[k]).0 != h);
                    assert forall|hh: u64| #[trigger] m2.contains_key(hh) implies exists|k: int|
                        0 <= k < v@.len() && (#[trigger] v@[k]).0 == hh by {
                        if hh == h {
                            assert(v@[j as int].0 == hh);
                        } else {
                            assert(m.contains_key(hh));
                            let k = choose|k: int|
                                0 <= k < old(v)@.len() && (#[trigger] old(v)@[k]).0 == hh;
                            assert(v@[k].0 == hh);
                        }
                    }
                }
                assert(distinct_keys(v@));
                let mr2 = rep_add(mr, h, term)->Some_0;
                assert(reps_match(v@, mr2)) by {
                    assert(mr2 == mr.insert(h, summed.view()));
                    assert(forall|k: int|
                        0 <= k < v@.len() && k != j ==> v@[k] == #[trigger] old(v)@[k]);
                    assert(v@[j as int] == (h, summed));
                    assert(forall|k: int|
                        0 <= k < v@.len() && k != j ==> (#[trigger] v@[k]).0 != h);
                    assert forall|hh: u64| #[trigger] mr2.contains_key(hh) implies exists|k: int|
                        0 <= k < v@.len() && (#[trigger] v@[k]).0 == hh by {
                        if hh == h {
                            assert(v@[j as int].0 == hh);
                        } else {
                            assert(mr.contains_key(hh));
                            let k = choose|k: int|
                                0 <= k < old(v)@.len() && (#[trigger] old(v)@[k]).0 == hh;
                            assert(v@[k].0 == hh);
                        }
                    }
                }
            }
            return Ok(());
        }
        j = j + 1;
    }
    let fresh = Score::frac(occ, f);
    v.push((h, fresh));
    proof {
        assert(!m.contains_key(h)) by {
            if m.contains_key(h) {
                let k = choose|k: int| 0 <= k < old(v)@.len() && (#[trigger] old(v)@[k]).0 == h;
                assert(old(v)@[k].0 != h);
            }
        }
        assert(!mr.contains_key(h)) by {
            if mr.contains_key(h) {
                let k = choose|k: int| 0 <= k < old(v)@.len() && (#[trigger] old(v)@[k]).0 == h;
                assert(old(v)@[k].0 != h);
            }
        }
        assert(rep_add(mr, h, term) == Some(mr.insert(h, term)));
        let mr2 = mr.insert(h, term);
        assert(reps_match(v@, mr2)) by {
            assert(forall|k: int| 0 <= k < old(v)@.len() ==> v@[k] == #[trigger] old(v)@[k]);
            assert(v@[old(v)@.len() as int] == (h, fresh));
            assert(fresh.view() == term);
            assert forall|hh: u64| #[trigger] mr2.contains_key(hh) implies exists|k: int|
                0 <= k < v@.len() && (#[trigger] v@[k]).0 == hh by {
                if hh == h {
                    assert(v@[old(v)@.len() as int].0 == hh);
                } else {
                    let k = choose|k: int|
                        0 <= k < old(v)@.len() && (#[trigger] old(v)@[k]).0 == hh;
                    assert(v@[k].0 == hh);
                }
            }
        }
        let m2 = add_score(m, h, term);
        assert(scores_match(v@, m2)) by {
            assert(forall|k: int| 0 <= k < old(v)@.len() ==> v@[k] == #[trigger] old(v)@[k]);
            assert(v@[old(v)@.len() as int] == (h, fresh));
            assert forall|hh: u64| #[trigger] m2.contains_key(hh) implies exists|k: int|
                0 <= k < v@.len() && (#[trigger] v@[k]).0 == hh by {
                if hh == h {
                    assert(v@[old(v)@.len() as int].0 == hh);
                } else {
                    let k = choose|k: int|
                        0 <= k < old(v)@.len() && (#[trigger] old(v)@[k]).0 == hh;
                    assert(v@[k].0 == hh);
                }
            }
        }
        assert(distinct_keys(v@)) by {
            assert(forall|k: int| 0 <= k < old(v)@.len() ==> (#[trigger] v@[k]).0 != h);
        }
    }
    Ok(())
}

/// Sums every page's occurrence ratios over the fetched records.
fn accumulate(recs: &Vec<RevIndexRecord>) -> (r: Result<Vec<(u64, Score)>, Error>)
    requires
        forall|j: int|
            0 <= j < recs@.len() ==> (#[trigger] recs@[j]).sources@.len() > 0 ==> recs@[j].freq
                >= 1,
    ensures
        r is Ok <==> rep_recs(Map::empty(), rec_views(recs@)) is Some,
        r matches Ok(v) ==> scores_match(v@, spec_scores(rec_views(recs@))) && distinct_keys(v@),
        r matches Err(e) ==> e is Overflow,
{
    let mut v: Vec<(u64, Score)> = Vec::new();
    let n: usize = recs.len();
    let mut i: usize = 0;
    proof {
        assert(rec_views(recs@.subrange(0, 0)) =~= Seq::<(usize, Seq<(u64, usize)>)>::empty());
        assert(rep_recs(Map::empty(), Seq::<(usize, Seq<(u64, usize)>)>::empty()) == Some(
            Map::<u64, (int, int)>::empty(),
        ));
    }
    while i < n
        invariant
            n == recs@.len(),
            i <= n,
            forall|j: int|
                0 <= j < recs@.len() ==> (#[trigger] recs@[j]).sources@.len() > 0
                    ==> recs@[j].freq >= 1,
            scores_match(v@, score_recs(Map::empty(), rec_views(recs@.subrange(0, i as int)))),
            rep_recs(Map::empty(), rec_views(recs@.subrange(0, i as int))) is Some,
            reps_match(
                v@,
                rep_recs(Map::empty(), rec_views(recs@.subrange(0, i as int)))->Some_0,
            ),
            distinct_keys(v@),
        decreases n - i,
    {
        let rec = &recs[i];
        let f: usize = rec.freq;
        let ghost m_start = score_recs(Map::empty(), rec_views(recs@.subrange(0, i as int)));
        let ghost mr_start = rep_recs(Map::empty(), rec_views(recs@.subrange(0, i as int)))->Some_0;
        let k: usize = rec.sources.len();
        let mut j: usize = 0;
        proof {
            assert(rec.sources@.subrange(0, 0) =~= Seq::<(u64, usize)>::empty());
        }
        while j < k
            invariant
                k == rec.sources@.len(),
                j <= k,
                f == rec.freq,
                rec == recs@[i as int],
                i < n,
                n == recs@.len(),
                rec.sources@.len() > 0 ==> f >= 1,
                m_start == score_recs(Map::empty(), rec_views(recs@.subrange(0, i as int))),
                rep_recs(Map::empty(), rec_views(recs@.subrange(0, i as int))) is Some,
                mr_start == rep_recs(Map::empty(), rec_views(recs@.subrange(0, i as int)))->Some_0,
                scores_match(v@, score_pairs(m_start, rec.sources@.subrange(0, j as int), f)),
                rep_pairs(mr_start, rec.sources@.subrange(0, j as int), f) is Some,
                reps_match(v@, rep_pairs(mr_start, rec.sources@.subrange(0, j as int), f)->Some_0),
                distinct_keys(v@),
            decreases k - j,
        {
            let (h, occ) = rec.sources[j];
            proof {
                assert(f >= 1);
            }
            let ghost m_cur = score_pairs(m_start, rec.sources@.subrange(0, j as int), f);
            let ghost mr_cur = rep_pairs(mr_start, rec.sources@.subrange(0, j as int), f)->Some_0;
            let ghost term = ((occ as u64) as int, (f as u64) as int);
            match add_term(&mut v, h, occ as u64, f as u64, Ghost(m_cur), Ghost(mr_cur)) {
                Ok(()) => {},
                Err(e) => {
                    proof {
                        assert(rep_add(mr_cur, h, term) is None);
                        lemma_rep_pairs_split(mr_start, rec.sources@, f, j as int);
                        assert(rep_pairs(mr_start, rec.sources@, f) is None) by {
                            let suffix = rec.sources@.subrange(j as int, k as int);
                            assert(suffix.first() == rec.sources@[j as int]);
                            assert((rec.sources@[j as int].1 as int, f as int) == term);
                        }
                        lemma_rep_recs_split(Map::empty(), rec_views(recs@), i as int);
                        assert(rec_views(recs@).subrange(0, i as int) =~= rec_views(
                            recs@.subrange(0, i as int),
                        ));
                        assert(rep_recs(Map::empty(), rec_views(recs@)) is None) by {
                            let rsuffix = rec_views(recs@).subrange(i as int, n as int);
                            assert(rsuffix.first() == (rec.freq, rec.sources@)) by {
                                assert(rec_views(recs@)[i as int] == (rec.freq, rec.sources@));
                            }
                        }
                    }
                    return Err(e);
                },
            }
            proof {
                assert(rec.sources@.subrange(0, j + 1) =~= rec.sources@.subrange(0, j as int).push(
                    rec.sources@[j as int],
                ));
                lemma_score_pairs_push(m_start, rec.sources@.subrange(0, j as int), rec.sources@[j as int], f);
                assert((occ as u64) as int == rec.sources@[j as int].1 as int);
                assert((f as u64) as int == f as int);
                lemma_rep_pairs_split(mr_start, rec.sources@.subrange(0, j + 1), f, j as int);
                let pre1 = rec.sources@.subrange(0, j + 1);
                assert(pre1.subrange(0, j as int) =~= rec.sources@.subrange(0, j as int));
                assert(rep_pairs(mr_start, pre1, f) == Some(rep_add(mr_cur, h, term)->Some_0)) by {
                    let single = pre1.subrange(j as int, j + 1);
                    assert(single.first() == rec.sources@[j as int]);
                    assert((rec.sources@[j as int].1 as int, f as int) == term);
                    assert(single.drop_first() =~= Seq::<(u64, usize)>::empty());
                    assert(rep_pairs(rep_add(mr_cur, h, term)->Some_0, Seq::<(u64, usize)>::empty(), f)
                        == Some(rep_add(mr_cur, h, term)->Some_0));
                }
            }
            j = j + 1;
        }
        proof {
            assert(rec.sources@.subrange(0, k as int) =~= rec.sources@);
            assert(recs@.subrange(0, i + 1) =~= recs@.subrange(0, i as int).push(recs@[i as int]));
            assert(rec_views(recs@.subrange(0, i + 1)) =~= rec_views(
                recs@.subrange(0, i as int),
            ).push((rec.freq, rec.sources@)));
            lemma_score_recs_push(
                Map::empty(),
                rec_views(recs@.subrange(0, i as int)),
                (rec.freq, rec.sources@),
            );
            let prev_views = rec_views(recs@.subrange(0, i as int));
            lemma_rep_recs_split(Map::empty(), prev_views.push((rec.freq, rec.sources@)), i as int);
            assert(prev_views.push((rec.freq, rec.sources@)).subrange(0, i as int) =~= prev_views);
            assert(rep_recs(Map::empty(), rec_views(recs@.subrange(0, i + 1))) == Some(
                rep_pairs(mr_start, rec.sources@, f)->Some_0,
            )) by {
                let rsuffix = prev_views.push((rec.freq, rec.sources@)).subrange(
                    i as int,
                    i + 1,
                );
                assert(rsuffix.first() == (rec.freq, rec.sources@));
                assert(rsuffix.drop_first() =~= Seq::<(usize, Seq<(u64, usize)>)>::empty());
                assert(rep_recs(rep_pairs(mr_start, rec.sources@, f)->Some_0, Seq::<(
                    usize,
                    Seq<(u64, usize)>,
                )>::empty()) == Some(rep_pairs(mr_start, rec.sources@, f)->Some_0));
            }
        }
        i = i + 1;
    }
    proof {
        assert(recs@.subrange(0, n as int) =~= recs@);
    }
    Ok(v)
}

/// The fetched views of a list of postings records.
pub open spec fn rec_views(rs: Seq<RevIndexRecord>) -> Seq<(usize, Seq<(u64, usize)>)> {
    rs.map(|k: int, r: RevIndexRecord| (r.freq, r.sources@))
}

/// Sorts the scored pages from the best score down.  The entries themselves
/// are kept: each pair of the result is a pair of the input and vice versa.
fn sort_scores(input: Vec<(u64, Score)>) -> (r: Vec<(u64, Score)>)
    requires
        forall|j: int| 0 <= j < input@.len() ==> (#[trigger] input@[j]).1.wf(),
    ensures
        sorted_desc(r@),
        forall|p: (u64, Score)| has_pair(r@, p) <==> has_pair(input@, p),
        forall|j: int| 0 <= j < r@.len() ==> (#[trigger] r@[j]).1.wf(),
        r@.len() == input@.len(),
        distinct_keys(input@) ==> distinct_keys(r@),
{
    let n: usize = input.len();
    let mut out: Vec<(u64, Score)> = Vec::new();
    let mut i: usize = 0;
    while i < n
        invariant
            n == input@.len(),
            i <= n,
            forall|j: int| 0 <= j < input@.len() ==> (#[trigger] input@[j]).1.wf(),
            forall|j: int| 0 <= j < out@.len() ==> (#[trigger] out@[j]).1.wf(),
            sorted_desc(out@),
            out@.len() == i,
            forall|p: (u64, Score)| has_pair(out@, p) <==> has_pair(input@.subrange(0, i as int), p),
            distinct_keys(input@) ==> distinct_keys(out@),
        decreases n - i,
    {
        let e = input[i];
        let m: usize = out.len();
        let mut pos: usize = 0;
        let mut stop = false;
        while pos < m && !stop
            invariant
                m == out@.len(),
                pos <= m,
                forall|j: int| 0 <= j < out@.len() ==> (#[trigger] out@[j]).1.wf(),
                e.1.wf(),
                forall|j: int| 0 <= j < pos ==> !rat_le((#[trigger] out@[j]).1.view(), e.1.view()),
                stop ==> pos < m && rat_le(out@[pos as int].1.view(), e.1.view()),
            decreases m - pos + (if stop { 0int } else { 1int }),
        {
            if out[pos].1.le(&e.1) {
                stop = true;
            } else {
                pos = pos + 1;
            }
        }
        let ghost before = out@;
        out.insert(pos, e);
        proof {
            assert(out@ =~= before.insert(pos as int, e));
            lemma_insert_keeps_order(before, pos as int, e);
            assert(forall|p: (u64, Score)| has_pair(out@, p) <==> (has_pair(before, p) || p
                == e)) by {
                assert forall|p: (u64, Score)| has_pair(out@, p) implies (has_pair(before, p) || p
                    == e) by {
                    let j = choose|j: int| 0 <= j < out@.len() && out@[j] == p;
                    if j < pos {
                        assert(before[j] == p);
                    } else if j > pos {
                        assert(before[j - 1] == p);
                    }
                }
                assert forall|p: (u64, Score)| has_pair(before, p) || p == e implies has_pair(
                    out@,
                    p,
                ) by {
                    if p == e {
                        assert(out@[pos as int] == p);
                    } else {
                        let j = choose|j: int| 0 <= j < before.len() && before[j] == p;
                        if j < pos {
                            assert(out@[j] == p);
                        } else {
                            assert(out@[j + 1] == p);
                        }
                    }
                }
            }
            assert(input@.subrange(0, i + 1) =~= input@.subrange(0, i as int).push(
                input@[i as int],
            ));
            assert forall|p: (u64, Score)| has_pair(input@.subrange(0, i + 1), p) implies has_pair(
                out@,
                p,
            ) by {
                let j = choose|j: int|
                    0 <= j < input@.subrange(0, i + 1).len() && #[trigger] input@.subrange(
                        0,
                        i + 1,
                    )[j] == p;
                if j < i {
                    assert(has_pair(input@.subrange(0, i as int), p)) by {
                        assert(input@.subrange(0, i as int)[j] == p);
                    }
                    assert(has_pair(before, p));
                    assert(has_pair(out@, p));
                } else {
                    assert(input@.subrange(0, i + 1)[j] == input@[j]);
                    assert(j == i);
                    assert(p == e);
                    assert(has_pair(out@, p)) by {
                        assert(out@[pos as int] == p);
                    }
                }
            }
            assert forall|p: (u64, Score)| has_pair(out@, p) implies has_pair(
                input@.subrange(0, i + 1),
                p,
            ) by {
                if p == e {
                    assert(input@.subrange(0, i + 1)[i as int] == p);
                } else {
                    assert(has_pair(before, p));
                    let j = choose|j: int|
                        0 <= j < input@.subrange(0, i as int).len() && #[trigger] input@.subrange(
                            0,
                            i as int,
                        )[j] == p;
                    assert(input@.subrange(0, i + 1)[j] == p);
                }
            }
            if distinct_keys(input@) {
                assert(distinct_keys(out@)) by {
                    assert forall|j1: int, j2: int|
                        0 <= j1 < j2 < out@.len() implies (#[trigger] out@[j1]).0 != (
                    #[trigger] out@[j2]).0 by {
                        let p1 = out@[j1];
                        let p2 = out@[j2];
                        assert(has_pair(out@, p1)) by {
                            assert(out@[j1] == p1);
                        }
                        assert(has_pair(out@, p2)) by {
                            assert(out@[j2] == p2);
                        }
                        let k1 = choose|k: int|
                            0 <= k < input@.subrange(0, i + 1).len() && #[trigger] input@.subrange(
                                0,
                                i + 1,
                            )[k] == p1;
                        let k2 = choose|k: int|
                            0 <= k < input@.subrange(0, i + 1).len() && #[trigger] input@.subrange(
                                0,
                                i + 1,
                            )[k] == p2;
                        if k1 != k2 {
                            assert(input@[k1] == p1 && input@[k2] == p2);
                        } else {
                            // the same input entry cannot sit at two places:
                            // insertion never duplicates an entry
                            assert(p1 == p2);
                            lemma_insert_no_dup(before, pos as int, e, j1, j2);
                            assert(has_pair(before, e));
                            let kb = choose|k: int| 0 <= k < before.len() && before[k] == e;
                            let ki = choose|k: int|
                                0 <= k < input@.subrange(0, i as int).len()
                                    && #[trigger] input@.subrange(0, i as int)[k] == e;
                            assert(input@[ki] == e && input@[i as int] == e);
                        }
                    }
                }
            }
        }
        i = i + 1;
    }
    proof {
        assert(input@.subrange(0, n as int) =~= input@);
    }
    out
}

/// Whether the pair `p` stands somewhere in `v`.
pub open spec fn has_pair(v: Seq<(u64, Score)>, p: (u64, Score)) -> bool {
    exists|j: int| 0 <= j < v.len() && (#[trigger] v[j]) == p
}

/// Inserting below everything larger and above everything not larger keeps
/// the list sorted.
proof fn lemma_insert_keeps_order(v: Seq<(u64, Score)>, pos: int, e: (u64, Score))
    requires
        0 <= pos <= v.len(),
        sorted_desc(v),
        e.1.wf(),
        forall|j: int| 0 <= j < v.len() ==> (#[trigger] v[j]).1.wf(),
        forall|j: int| 0 <= j < pos ==> !rat_le((#[trigger] v[j]).1.view(), e.1.view()),
        pos < v.len() ==> rat_le(v[pos].1.view(), e.1.view()),
    ensures
        sorted_desc(v.insert(pos, e)),
{
    let w = v.insert(pos, e);
    assert forall|j1: int, j2: int| 0 <= j1 < j2 < w.len() implies rat_le(
        (#[trigger] w[j2]).1.view(),
        (#[trigger] w[j1]).1.view(),
    ) by {
        if j1 < pos && j2 < pos {
            assert(w[j1] == v[j1] && w[j2] == v[j2]);
        } else if j1 < pos && j2 == pos {
            assert(w[j1] == v[j1] && w[j2] == e);
            lemma_rat_le_total(v[j1].1.view(), e.1.view());
        } else if j1 < pos && j2 > pos {
            assert(w[j1] == v[j1] && w[j2] == v[j2 - 1]);
            if j2 - 1 == pos {
                // v[pos] <= e <= v[j1]
                lemma_rat_le_total(v[j1].1.view(), e.1.view());
                lemma_rat_le_trans(v[pos].1.view(), e.1.view(), v[j1].1.view());
            } else {
                assert(rat_le(v[j2 - 1].1.view(), v[j1].1.view()));
            }
        } else if j1 == pos {
            assert(w[j1] == e && w[j2] == v[j2 - 1]);
            if j2 - 1 == pos {
                assert(rat_le(v[pos].1.view(), e.1.view()));
            } else {
                lemma_rat_le_trans(v[j2 - 1].1.view(), v[pos].1.view(), e.1.view());
            }
        } else {
            assert(w[j1] == v[j1 - 1] && w[j2] == v[j2 - 1]);
        }
    }
}

/// An entry of the inserted list stands at one place only, unless it was
/// already in the list.
proof fn lemma_insert_no_dup(v: Seq<(u64, Score)>, pos: int, e: (u64, Score), j1: int, j2: int)
    requires
        0 <= pos <= v.len(),
        0 <= j1 < j2 < v.insert(pos, e).len(),
        v.insert(pos, e)[j1] == v.insert(pos, e)[j2],
    ensures
        has_pair(v, v.insert(pos, e)[j1]),
{
    let w = v.insert(pos, e);
    if j1 < pos {
        assert(w[j1] == v[j1]);
        assert(has_pair(v, v[j1])) by {
            assert(v[j1] == w[j1]);
        }
    } else if j2 > pos {
        assert(w[j2] == v[j2 - 1]);
        assert(has_pair(v, v[j2 - 1])) by {
            assert(v[j2 - 1] == w[j2]);
        }
    }
}

/// Whether some query token's stored postings record is degenerate: it
/// lists pages but claims a total of zero, so no occurrence ratio can be
/// formed from it.  Only a store the builder never wrote can hold one.
pub open spec fn degenerate_posting(p: Map<Seq<char>, Seq<u8>>, toks: Seq<Seq<char>>) -> bool {
    exists|i: int|
        0 <= i < toks.len() && p.contains_key(#[trigger] toks[i]) && (dec_rev_at(
            p[toks[i]],
        ) matches Some(fp) && (fp.0 == 0 && fp.1.len() > 0))
}

/// Whether some scored page has no record in the page table: the postings
/// and the page table have diverged.
pub open spec fn unresolved_page(
    p: Map<Seq<char>, Seq<u8>>,
    s: Map<u64, Seq<u8>>,
    toks: Seq<Seq<char>>,
) -> bool {
    spec_fetch(p, toks) matches Some(recs) && exists|h: u64|
        #[trigger] spec_scores(recs).contains_key(h) && !s.contains_key(h)
}

/// Ranks the pages matched by the given canonical tokens: every page with a
/// score has exactly one entry, the entry carries its exact accumulated
/// score, and the list runs from the best score down.
pub fn rank_pages(index: &Index, toks: &Vec<String>) -> (r: Result<Vec<(u64, Score)>, Error>)
    ensures
        r matches Ok(v) ==> spec_fetch(index.postings(), views_of(toks@)) is Some && scores_match(
            v@,
            spec_scores(spec_fetch(index.postings(), views_of(toks@))->Some_0),
        ) && distinct_keys(v@) && sorted_desc(v@),
        r matches Err(e) ==> e is Storage || e is Overflow || e is Consistency,
        toks@.len() == 0 ==> r is Ok,
        r matches Err(e) && e is Overflow ==> spec_fetch(index.postings(), views_of(toks@))
            is Some && rep_recs(
            Map::empty(),
            spec_fetch(index.postings(), views_of(toks@))->Some_0,
        ) is None,
        r matches Err(e) && e is Consistency ==> degenerate_posting(
            index.postings(),
            views_of(toks@),
        ),
{
    let ghost tks = views_of(toks@);
    let mut recs: Vec<RevIndexRecord> = Vec::new();
    let n: usize = toks.len();
    let mut i: usize = 0;
    proof {
        assert(tks.subrange(0, 0) =~= Seq::<Seq<char>>::empty());
        assert(rec_views(recs@) =~= Seq::<(usize, Seq<(u64, usize)>)>::empty());
    }
    while i < n
        invariant
            n == toks@.len(),
            i <= n,
            tks == views_of(toks@),
            spec_fetch(index.postings(), tks.subrange(0, i as int)) == Some(rec_views(recs@)),
            forall|j: int|
                0 <= j < recs@.len() ==> (#[trigger] recs@[j]).sources@.len() > 0
                    ==> recs@[j].freq >= 1,
        decreases n - i,
    {
        proof {
            assert(tks[i as int] == toks@[i as int]@);
        }
        let ghost prev_recs = recs@;
        match index.get_rev_index(toks[i].as_str()) {
            Err(e) => {
                return Err(e);
            },
            Ok(None) => {},
            Ok(Some(rec)) => {
                if rec.freq == 0 && rec.sources.len() > 0 {
                    // a record that lists pages under a zero total cannot
                    // be scored: the store no longer matches any build
                    proof {
                        assert(degenerate_posting(index.postings(), tks)) by {
                            assert(index.postings().contains_key(tks[i as int]));
                            assert(dec_rev_at(index.postings()[tks[i as int]]) == Some(
                                (rec.freq, rec.sources@),
                            ));
                        }
                    }
                    return Err(Error::Consistency);
                }
                recs.push(rec);
                proof {
                    assert(rec_views(recs@) =~= rec_views(prev_recs).push(
                        (rec.freq, rec.sources@),
                    ));
                }
            },
        }
        proof {
            assert(tks.subrange(0, i + 1) =~= tks.subrange(0, i as int).push(tks[i as int]));
            lemma_spec_fetch_push(index.postings(), tks.subrange(0, i as int), tks[i as int]);
        }
        i = i + 1;
    }
    proof {
        assert(tks.subrange(0, n as int) =~= tks);
    }
    let scored = match accumulate(&recs) {
        Ok(v) => v,
        Err(e) => {
            proof {
                assert(rep_recs(Map::empty(), rec_views(recs@)) is None);
                if tks.len() == 0 {
                    assert(rec_views(recs@).len() == 0);
                    assert(rec_views(recs@) =~= Seq::<(usize, Seq<(u64, usize)>)>::empty());
                    assert(rep_recs(Map::empty(), rec_views(recs@)) == Some(
                        Map::<u64, (int, int)>::empty(),
                    ));
                    assert(false);
                }
            }
            return Err(e);
        },
    };
    let ghost m = spec_scores(rec_views(recs@));
    let ranked = sort_scores(scored);
    proof {
        assert(scores_match(ranked@, m)) by {
            assert forall|j: int| 0 <= j < ranked@.len() implies (#[trigger] ranked@[j]).1.wf()
                && m.contains_key(ranked@[j].0) && rat_eq(ranked@[j].1.view(), m[ranked@[j].0]) by {
                assert(has_pair(ranked@, ranked@[j])) by {
                    assert(ranked@[j] == ranked@[j]);
                }
                let k = choose|k: int| 0 <= k < scored@.len() && (#[trigger] scored@[k]) == ranked@[j];
            }
            assert forall|h: u64| #[trigger] m.contains_key(h) implies exists|j: int|
                0 <= j < ranked@.len() && (#[trigger] ranked@[j]).0 == h by {
                let k = choose|k: int| 0 <= k < scored@.len() && (#[trigger] scored@[k]).0 == h;
                assert(has_pair(scored@, scored@[k])) by {
                    assert(scored@[k] == scored@[k]);
                }
                let j = choose|j: int| 0 <= j < ranked@.len() && (#[trigger] ranked@[j]) == scored@[k];
            }
        }
    }
    Ok(ranked)
}

/// Whether the page table `s` stores, under `h`, a record with exactly the
/// field values of `src`.
pub open spec fn resolves_at(s: Map<u64, Seq<u8>>, h: u64, src: Source) -> bool {
    s.contains_key(h) && dec_source_at(s[h]) == Some(
        (codes_of(src.dir@), codes_of(src.file_name@), src.page_number as u64),
    )
}

/// Whether `res` is a correct answer for the query `q` against the stored
/// postings `p` and page table `s`: the tokens of `q` fetched postings, the
/// entries carry exactly the accumulated scores of the scored pages, each
/// page appears once with its stored record, and the list runs from the
/// best score down.
pub open spec fn search_valid(
    p: Map<Seq<char>, Seq<u8>>,
    s: Map<u64, Seq<u8>>,
    q: Seq<char>,
    res: Seq<(Source, Score)>,
) -> bool {
    &&& spec_fetch(p, query_keywords(q)) is Some
    &&& exists|hs: Seq<u64>|
        ranked_resolves(s, spec_scores(spec_fetch(p, query_keywords(q))->Some_0), hs, res)
}

/// Whether `res` resolves the ranked hashes `hs` of the score map `m`
/// against the page table `s`.
pub open spec fn ranked_resolves(
    s: Map<u64, Seq<u8>>,
    m: Map<u64, (int, int)>,
    hs: Seq<u64>,
    res: Seq<(Source, Score)>,
) -> bool {
    &&& hs.len() == res.len()
    &&& forall|j: int|
        0 <= j < hs.len() ==> m.contains_key(#[trigger] hs[j]) && (#[trigger] res[j]).1.wf()
            && rat_eq(res[j].1.view(), m[hs[j]])
    &&& forall|h: u64|
        #[trigger] m.contains_key(h) ==> exists|j: int| 0 <= j < hs.len() && (#[trigger] hs[j])
            == h
    &&& forall|j1: int, j2: int|
        0 <= j1 < j2 < hs.len() ==> (#[trigger] hs[j1]) != (#[trigger] hs[j2])
    &&& forall|j1: int, j2: int|
        0 <= j1 < j2 < res.len() ==> rat_le(
            (#[trigger] res[j2]).1.view(),
            (#[trigger] res[j1]).1.view(),
        )
    &&& forall|j: int|
        0 <= j < hs.len() ==> #[trigger] resolves_at(s, hs[j], res[j].0)
}

/// The ranking search engine over an open store.
pub struct SearchEngine<'a> {
    pub index: &'a Index,
}

impl<'a> SearchEngine<'a> {
    pub fn new(index: &'a Index) -> (r: Self)
        ensures
            r.index == index,
    {
        Self { index }
    }

    /// Answers one free-text query: normalizes it, fetches each token's
    /// postings, sums the occurrence ratios per page, resolves every scored
    /// page back to its record, and returns the pages best first.
    pub fn search(&self, input: &str) -> (r: Result<Vec<(Source, Score)>, Error>)
        ensures
            r matches Ok(res) ==> search_valid(
                self.index.postings(),
                self.index.sources(),
                input@,
                res@,
            ),
            r matches Err(e) ==> e is Storage || e is Consistency || e is Overflow,
            query_keywords(input@).len() == 0 ==> r is Ok,
            r matches Err(e) && e is Overflow ==> spec_fetch(
                self.index.postings(),
                query_keywords(input@),
            ) is Some && rep_recs(
                Map::empty(),
                spec_fetch(self.index.postings(), query_keywords(input@))->Some_0,
            ) is None,
            r matches Err(e) && e is Consistency ==> degenerate_posting(
                self.index.postings(),
                query_keywords(input@),
            ) || unresolved_page(
                self.index.postings(),
                self.index.sources(),
                query_keywords(input@),
            ),
    {
        let toks = get_query_keywords(input);
        let ranked = match rank_pages(self.index, &toks) {
            Ok(v) => v,
            Err(e) => {
                proof {
                    assert(views_of(toks@) == query_keywords(input@));
                    if query_keywords(input@).len() == 0 {
                        assert(false);
                    }
                }
                return Err(e);
            },
        };
        let ghost m = spec_scores(
            spec_fetch(self.index.postings(), query_keywords(input@))->Some_0,
        );
        proof {
            if query_keywords(input@).len() == 0 {
                let fetched = spec_fetch(self.index.postings(), query_keywords(input@));
                assert(query_keywords(input@) =~= Seq::<Seq<char>>::empty());
                assert(fetched == Some(Seq::<(usize, Seq<(u64, usize)>)>::empty()));
                assert(m == Map::<u64, (int, int)>::empty()) by {
                    assert(score_recs(
                        Map::<u64, (int, int)>::empty(),
                        Seq::<(usize, Seq<(u64, usize)>)>::empty(),
                    ) == Map::<u64, (int, int)>::empty());
                }
                if ranked@.len() > 0 {
                    assert(m.contains_key(ranked@[0].0));
                }
            }
        }
        let mut res: Vec<(Source, Score)> = Vec::new();
        let n: usize = ranked.len();
        let mut i: usize = 0;
        while i < n
            invariant
                n == ranked@.len(),
                i <= n,
                query_keywords(input@).len() == 0 ==> n == 0,
                spec_fetch(self.index.postings(), query_keywords(input@)) is Some,
                m == spec_scores(
                    spec_fetch(self.index.postings(), query_keywords(input@))->Some_0,
                ),
                res@.len() == i,
                scores_match(ranked@, m),
                distinct_keys(ranked@),
                sorted_desc(ranked@),
                forall|j: int| 0 <= j < i ==> (#[trigger] res@[j]).1 == ranked@[j].1,
                forall|j: int|
                    0 <= j < i ==> #[trigger] resolves_at(
                        self.index.sources(),
                        ranked@[j].0,
                        res@[j].0,
                    ),
            decreases n - i,
        {
            let h = ranked[i].0;
            let src = match self.index.get_source(&h) {
                Ok(s) => s,
                Err(Error::NotFound) => {
                    // a scored page with no page record: the store and the
                    // postings have diverged
                    proof {
                        assert(unresolved_page(
                            self.index.postings(),
                            self.index.sources(),
                            query_keywords(input@),
                        )) by {
                            assert(m.contains_key(ranked@[i as int].0));
                            assert(!self.index.sources().contains_key(ranked@[i as int].0));
                        }
                    }
                    return Err(Error::Consistency);
                },
                Err(_) => {
                    return Err(Error::Storage);
                },
            };
            let ghost prev_res = res@;
            res.push((src, ranked[i].1));
            proof {
                assert(res@[i as int] == (src, ranked@[i as int].1));
                assert(forall|j: int| 0 <= j < i ==> res@[j] == #[trigger] prev_res[j]);
                assert(h == ranked@[i as int].0);
                assert(res@[i as int].0 == src);
                assert forall|j: int| 0 <= j < i + 1 implies #[trigger] resolves_at(
                    self.index.sources(),
                    ranked@[j].0,
                    res@[j].0,
                ) by {
                    if j < i {
                        assert(res@[j] == prev_res[j]);
                        assert(resolves_at(self.index.sources(), ranked@[j].0, prev_res[j].0));
                    } else {
                        assert(res@[j].0 == src);
                        assert(resolves_at(self.index.sources(), h, src));
                    }
                }
            }
            i = i + 1;
        }
        proof {
            let hs = Seq::new(ranked@.len(), |j: int| ranked@[j].0);
            assert(ranked_resolves(self.index.sources(), m, hs, res@)) by {
                assert(forall|j: int| 0 <= j < hs.len() ==> #[trigger] hs[j] == ranked@[j].0);
                assert forall|j: int| 0 <= j < hs.len() implies m.contains_key(#[trigger] hs[j])
                    && (#[trigger] res@[j]).1.wf() && rat_eq(res@[j].1.view(), m[hs[j]]) by {
                    assert(hs[j] == ranked@[j].0);
                    assert(res@[j].1 == ranked@[j].1);
                }
                assert forall|j1: int, j2: int| 0 <= j1 < j2 < hs.len() implies (
                #[trigger] hs[j1]) != (#[trigger] hs[j2]) by {
                    assert(hs[j1] == ranked@[j1].0 && hs[j2] == ranked@[j2].0);
                }
                assert forall|j: int| 0 <= j < hs.len() implies #[trigger] resolves_at(
                    self.index.sources(),
                    hs[j],
                    res@[j].0,
                ) by {
                    assert(hs[j] == ranked@[j].0);
                    assert(resolves_at(self.index.sources(), ranked@[j].0, res@[j].0));
                }
                assert forall|h: u64| #[trigger] m.contains_key(h) implies exists|j: int|
                    0 <= j < hs.len() && (#[trigger] hs[j]) == h by {
                    let k = choose|k: int|
                        0 <= k < ranked@.len() && (#[trigger] ranked@[k]).0 == h;
                    assert(hs[k] == h);
                }
                assert forall|j1: int, j2: int| 0 <= j1 < j2 < res@.len() implies rat_le(
                    (#[trigger] res@[j2]).1.view(),
                    (#[trigger] res@[j1]).1.view(),
                ) by {
                    assert(res@[j1].1 == ranked@[j1].1 && res@[j2].1 == ranked@[j2].1);
                }
            }
        }
        Ok(res)
    }
}

/// When none of the query's tokens was ever indexed, fetching finds
/// nothing.
pub proof fn lemma_fetch_absent(p: Map<Seq<char>, Seq<u8>>, toks: Seq<Seq<char>>)
    requires
        forall|k: int| 0 <= k < toks.len() ==> !p.contains_key(#[trigger] toks[k]),
    ensures
        spec_fetch(p, toks) == Some(Seq::<(usize, Seq<(u64, usize)>)>::empty()),
    decreases toks.len(),
{
    if toks.len() > 0 {
        assert(!p.contains_key(toks.first())) by {
            assert(toks[0] == toks.first());
        }
        assert(forall|k: int|
            0 <= k < toks.drop_first().len() ==> toks.drop_first()[k] == #[trigger] toks[k + 1]);
        lemma_fetch_absent(p, toks.drop_first());
    }
}

/// A query whose keywords were never indexed returns an empty ranked list,
/// not an error: with nothing fetched there are no scored pages, and every
/// returned entry must carry a scored page.
pub proof fn lemma_unmatched_query_is_empty(
    p: Map<Seq<char>, Seq<u8>>,
    s: Map<u64, Seq<u8>>,
    q: Seq<char>,
    res: Seq<(Source, Score)>,
)
    requires
        search_valid(p, s, q, res),
        forall|k: int|
            0 <= k < query_keywords(q).len() ==> !p.contains_key(#[trigger] query_keywords(q)[k]),
    ensures
        res.len() == 0,
{
    lemma_fetch_absent(p, query_keywords(q));
    let m = spec_scores(spec_fetch(p, query_keywords(q))->Some_0);
    assert(m == Map::<u64, (int, int)>::empty());
    assert(exists|hs: Seq<u64>| ranked_resolves(s, m, hs, res));
    let hs = choose|hs: Seq<u64>| ranked_resolves(s, m, hs, res);
    assert(ranked_resolves(s, m, hs, res));
    if res.len() > 0 {
        let r0 = res[0];
        assert(m.contains_key(hs[0]) && r0.1.wf());
    }
}

/// Score additivity: when two distinct query tokens each match a postings
/// record that lists the page `h` as its only entry, the page's final score
/// is the sum of the two occurrence ratios.
pub proof fn lemma_score_additivity(h: u64, c1: usize, f1: usize, c2: usize, f2: usize)
    requires
        f1 >= 1,
        f2 >= 1,
    ensures
        spec_scores(seq![(f1, seq![(h, c1)]), (f2, seq![(h, c2)])]).contains_key(h),
        rat_eq(
            spec_scores(seq![(f1, seq![(h, c1)]), (f2, seq![(h, c2)])])[h],
            rat_add((c1 as int, f1 as int), (c2 as int, f2 as int)),
        ),
{
    let recs = seq![(f1, seq![(h, c1)]), (f2, seq![(h, c2)])];
    let m0 = Map::<u64, (int, int)>::empty();
    let t1 = (c1 as int, f1 as int);
    let t2 = (c2 as int, f2 as int);
    let m1 = score_pairs(m0, seq![(h, c1)], f1);
    assert(seq![(h, c1)].drop_first() =~= Seq::<(u64, usize)>::empty());
    assert(score_pairs(add_score(m0, h, t1), Seq::<(u64, usize)>::empty(), f1) == add_score(
        m0,
        h,
        t1,
    ));
    assert(m1 == m0.insert(h, t1));
    assert(recs.drop_first() =~= seq![(f2, seq![(h, c2)])]);
    let m2 = score_pairs(m1, seq![(h, c2)], f2);
    assert(seq![(h, c2)].drop_first() =~= Seq::<(u64, usize)>::empty());
    assert(score_pairs(add_score(m1, h, t2), Seq::<(u64, usize)>::empty(), f2) == add_score(
        m1,
        h,
        t2,
    ));
    assert(m1[h] == t1);
    assert(m2 == m1.insert(h, rat_add(t1, t2)));
    assert(seq![(f2, seq![(h, c2)])].drop_first() =~= Seq::<(usize, Seq<(u64, usize)>)>::empty());
    assert(score_recs(m2, Seq::<(usize, Seq<(u64, usize)>)>::empty()) == m2);
    assert(recs.first() == (f1, seq![(h, c1)]));
    assert(recs.drop_first().first() == (f2, seq![(h, c2)]));
    assert(score_recs(m0, recs) == score_recs(m1, recs.drop_first()));
    assert(score_recs(m1, recs.drop_first()) == score_recs(
        m2,
        seq![(f2, seq![(h, c2)])].drop_first(),
    ));
    assert(spec_scores(recs) == m2);
}

} // verus!
