use vstd::prelude::*;

use crate::Error;
use crate::codec::dec_rev_at;
use crate::codec::enc_rev;
use crate::codec::enc_source;
use crate::index::Index;
use crate::index::RevIndexRecord;
use crate::index::empty_postings_table;
use crate::index::empty_source_table;
use crate::keywords::get_page_keywords;
use crate::keywords::page_keywords;
use crate::keywords::views_of;
use crate::source::Source;
use crate::source::source_hash;
use crate::stop_words::StopWords;

verus! {

// The index builder populates a store from document pages: page text is
// normalized into keywords, the page identity is written once, and each
// keyword's postings record is read, bumped and written back.

/// The per-page pairs after one more occurrence of the keyword on page `h`
/// was seen, judged over the first `i` pairs: one pass that bumps the first
/// entry for `h` and remembers whether any was found.
pub open spec fn bump_state(ps: Seq<(u64, usize)>, i: int, h: u64) -> (Seq<(u64, usize)>, bool)
    decreases i,
{
    if i <= 0 {
        (Seq::empty(), false)
    } else {
        let prev = bump_state(ps, i - 1, h);
        let p = ps[i - 1];
        if p.0 == h && !prev.1 {
            (prev.0.push((h, (p.1 + 1) as usize)), true)
        } else {
            (prev.0.push(p), prev.1)
        }
    }
}

/// The per-page pairs after one more occurrence on page `h`: the first entry
/// for `h` is bumped, or a fresh entry with count one is appended.
pub open spec fn bump_pages(ps: Seq<(u64, usize)>, h: u64) -> Seq<(u64, usize)> {
    let end = bump_state(ps, ps.len() as int, h);
    if end.1 {
        end.0
    } else {
        end.0.push((h, 1))
    }
}

/// Whether one more occurrence on page `h` cannot be recorded: the stored
/// total, or the per-page count the single pass would bump, already stands
/// at the machine's maximum.
pub open spec fn bump_overflows(f: usize, ps: Seq<(u64, usize)>, h: u64) -> bool {
    ||| f == usize::MAX
    ||| exists|j: int|
        0 <= j < ps.len() && !(#[trigger] bump_state(ps, j, h)).1 && ps[j].0 == h && ps[j].1
            == usize::MAX
}

/// Whether the postings store, under the keyword `w`, bytes that decode to
/// exactly the record `(f, ps)`.
pub open spec fn decodes_to(
    p: Map<Seq<char>, Seq<u8>>,
    w: Seq<char>,
    f: usize,
    ps: Seq<(u64, usize)>,
) -> bool {
    p.contains_key(w) && dec_rev_at(p[w]) == Some((f, ps))
}

/// Whether indexing the `i`-th keyword occurrence of a page with hash `h`
/// meets a record it cannot bump: after the earlier occurrences were
/// applied to the postings `p0`, the keyword's stored record decodes but
/// its total or bumped count stands at the machine's maximum.
pub open spec fn overflow_at(p0: Map<Seq<char>, Seq<u8>>, kws: Seq<Seq<char>>, h: u64, i: int) -> bool {
    0 <= i < kws.len() && (apply_kws(p0, kws.subrange(0, i), h) matches Some(q) && (
    q.contains_key(kws[i]) && (dec_rev_at(q[kws[i]]) matches Some(fp) && bump_overflows(
        fp.0,
        fp.1,
        h,
    ))))
}

/// Packages the overflow evidence found while bumping the `i`-th keyword:
/// the prefix-applied postings hold a decodable record for it whose bump
/// cannot be recorded.
pub proof fn lemma_overflow_witness(
    p0: Map<Seq<char>, Seq<u8>>,
    kws: Seq<Seq<char>>,
    h: u64,
    i: int,
    q: Map<Seq<char>, Seq<u8>>,
    f: usize,
    ps: Seq<(u64, usize)>,
)
    requires
        0 <= i < kws.len(),
        apply_kws(p0, kws.subrange(0, i), h) == Some(q),
        decodes_to(q, kws[i], f, ps),
        bump_overflows(f, ps, h),
    ensures
        overflow_at(p0, kws, h, i),
{
}

/// What one bump pass does to the first `i` pairs: it keeps every page in
/// place, remembers whether it met the page `h`, and raises the total of
/// the counts by one exactly when it did.
pub proof fn lemma_bump_state_props(ps: Seq<(u64, usize)>, i: int, h: u64)
    requires
        0 <= i <= ps.len(),
        forall|k: int| 0 <= k < ps.len() ==> 1 <= (#[trigger] ps[k]).1 < usize::MAX,
    ensures
        bump_state(ps, i, h).0.len() == i,
        forall|k: int| 0 <= k < i ==> (#[trigger] bump_state(ps, i, h).0[k]).0 == ps[k].0,
        bump_state(ps, i, h).1 == exists|j: int| 0 <= j < i && (#[trigger] ps[j]).0 == h,
        crate::codec::sum_counts(bump_state(ps, i, h).0) == crate::codec::sum_counts(
            ps.subrange(0, i),
        ) + (if bump_state(ps, i, h).1 {
            1int
        } else {
            0int
        }),
        crate::codec::counts_positive(bump_state(ps, i, h).0),
    decreases i,
{
    if i > 0 {
        lemma_bump_state_props(ps, i - 1, h);
        let prev = bump_state(ps, i - 1, h);
        let cur = bump_state(ps, i, h);
        assert(ps.subrange(0, i).drop_last() =~= ps.subrange(0, i - 1));
        assert(ps.subrange(0, i).last() == ps[i - 1]);
        assert(cur.0.drop_last() =~= prev.0);
        if ps[i - 1].0 == h && !prev.1 {
            assert(cur.1 == true);
            assert(ps[i - 1].0 == h);
            assert(cur.0.last() == (h, (ps[i - 1].1 + 1) as usize));
            assert((ps[i - 1].1 + 1) as usize == ps[i - 1].1 + 1);
            assert(crate::codec::sum_counts(cur.0) == crate::codec::sum_counts(prev.0) + ps[i
                - 1].1 + 1);
        } else {
            assert(cur.0.last() == ps[i - 1]);
            assert(crate::codec::sum_counts(cur.0) == crate::codec::sum_counts(prev.0) + ps[i
                - 1].1);
            assert(cur.1 == prev.1) by {
                if prev.1 {
                    let j = choose|j: int| 0 <= j < i - 1 && (#[trigger] ps[j]).0 == h;
                    assert(0 <= j < i && ps[j].0 == h);
                }
            }
            if !prev.1 && (exists|j: int| 0 <= j < i && (#[trigger] ps[j]).0 == h) {
                let j = choose|j: int| 0 <= j < i && (#[trigger] ps[j]).0 == h;
                assert(j == i - 1 && ps[i - 1].0 == h);
                assert(false);
            }
        }
        assert(crate::codec::counts_positive(cur.0)) by {
            assert(crate::codec::counts_positive(prev.0));
            assert(forall|k: int| 0 <= k < i - 1 ==> cur.0[k] == #[trigger] prev.0[k]);
        }
    } else {
        assert(ps.subrange(0, 0) =~= Seq::<(u64, usize)>::empty());
    }
}

/// The corrected single-pass update keeps a postings record well formed:
/// the new total is the old total plus one, every count stays positive, and
/// no page is listed twice, whether the page's entry was bumped or a fresh
/// one was appended.
pub proof fn lemma_bump_preserves_wf(f: usize, ps: Seq<(u64, usize)>, h: u64)
    requires
        crate::index::rev_wf(f, ps),
        f < usize::MAX,
        forall|k: int| 0 <= k < ps.len() ==> (#[trigger] ps[k]).1 < usize::MAX,
    ensures
        crate::index::rev_wf((f + 1) as usize, bump_pages(ps, h)),
{
    lemma_bump_state_props(ps, ps.len() as int, h);
    let end = bump_state(ps, ps.len() as int, h);
    assert(ps.subrange(0, ps.len() as int) =~= ps);
    let out = bump_pages(ps, h);
    if end.1 {
        assert(forall|a: int, b: int|
            0 <= a < b < out.len() ==> (#[trigger] out[a]).0 != (#[trigger] out[b]).0);
    } else {
        assert(crate::codec::sum_counts(out) == crate::codec::sum_counts(end.0) + 1) by {
            assert(out.drop_last() =~= end.0);
            assert(out.last() == (h, 1usize));
        }
        assert(crate::codec::counts_positive(out)) by {
            assert(forall|k: int| 0 <= k < end.0.len() ==> out[k] == #[trigger] end.0[k]);
            assert(out[ps.len() as int].1 == 1);
        }
        assert forall|a: int, b: int| 0 <= a < b < out.len() implies (#[trigger] out[a]).0 != (
        #[trigger] out[b]).0 by {
            if b == out.len() - 1 {
                assert(out[a].0 == ps[a].0);
                if ps[a].0 == h {
                    assert(exists|j: int| 0 <= j < ps.len() && (#[trigger] ps[j]).0 == h);
                }
            } else {
                assert(out[a].0 == ps[a].0 && out[b].0 == ps[b].0);
            }
        }
    }
}

/// The postings map after one keyword occurrence on page `h` was indexed:
/// the keyword's record is bumped, or created with one entry; `None` when
/// the stored record does not decode.
pub open spec fn apply_kw(p: Map<Seq<char>, Seq<u8>>, w: Seq<char>, h: u64) -> Option<
    Map<Seq<char>, Seq<u8>>,
> {
    if p.contains_key(w) {
        match dec_rev_at(p[w]) {
            Some((f, ps)) => Some(p.insert(w, enc_rev((f + 1) as usize, bump_pages(ps, h)))),
            None => None,
        }
    } else {
        Some(p.insert(w, enc_rev(1, seq![(h, 1usize)])))
    }
}

/// The postings map after the keyword occurrences `ws` of page `h` were
/// indexed, in order.
pub open spec fn apply_kws(p: Map<Seq<char>, Seq<u8>>, ws: Seq<Seq<char>>, h: u64) -> Option<
    Map<Seq<char>, Seq<u8>>,
>
    decreases ws.len(),
{
    if ws.len() == 0 {
        Some(p)
    } else {
        match apply_kw(p, ws.first(), h) {
            Some(q) => apply_kws(q, ws.drop_first(), h),
            None => None,
        }
    }
}

/// Indexing one keyword more extends the fold at its end.
pub proof fn lemma_apply_kws_push(p: Map<Seq<char>, Seq<u8>>, ws: Seq<Seq<char>>, w: Seq<char>, h: u64)
    ensures
        apply_kws(p, ws.push(w), h) == (match apply_kws(p, ws, h) {
            Some(q) => apply_kw(q, w, h),
            None => None::<Map<Seq<char>, Seq<u8>>>,
        }),
    decreases ws.len(),
{
    if ws.len() == 0 {
        assert(ws.push(w).first() == w);
        assert(ws.push(w).drop_first() =~= Seq::<Seq<char>>::empty());
        if apply_kw(p, w, h) is Some {
            assert(apply_kws(apply_kw(p, w, h)->Some_0, Seq::empty(), h) == apply_kw(p, w, h));
        }
    } else {
        assert(ws.push(w).first() == ws.first());
        assert(ws.push(w).drop_first() =~= ws.drop_first().push(w));
        if apply_kw(p, ws.first(), h) is Some {
            lemma_apply_kws_push(apply_kw(p, ws.first(), h)->Some_0, ws.drop_first(), w, h);
        }
    }
}

/// One more occurrence of the keyword on page `h`: bumps the first entry
/// for the page, or appends a fresh one; `Overflow` when the count to bump
/// already stands at the machine's maximum.
fn bump_sources(sources: &Vec<(u64, usize)>, h: u64) -> (r: Result<Vec<(u64, usize)>, Error>)
    ensures
        r matches Ok(v) ==> v@ == bump_pages(sources@, h),
        r matches Err(e) ==> e is Overflow && exists|j: int|
            0 <= j < sources@.len() && !(#[trigger] bump_state(sources@, j, h)).1 && sources@[j].0
                == h && sources@[j].1 == usize::MAX,
{
    let m: usize = sources.len();
    let mut out: Vec<(u64, usize)> = Vec::new();
    let mut found = false;
    let mut j: usize = 0;
    while j < m
        invariant
            m == sources@.len(),
            j <= m,
            out@ == bump_state(sources@, j as int, h).0,
            found == bump_state(sources@, j as int, h).1,
        decreases m - j,
    {
        let (s, occ) = sources[j];
        if s == h && !found {
            if occ == usize::MAX {
                proof {
                    assert(!(bump_state(sources@, j as int, h)).1 && sources@[j as int].0 == h
                        && sources@[j as int].1 == usize::MAX);
                }
                return Err(Error::Overflow);
            }
            out.push((s, occ + 1));
            found = true;
        } else {
            out.push((s, occ));
        }
        j = j + 1;
    }
    if !found {
        out.push((h, 1));
    }
    proof {
        assert(out@ == bump_pages(sources@, h));
    }
    Ok(out)
}

/// The index builder: the stop-word list, the open store, whether the store
/// existed before it was opened, and the directory being indexed.
pub struct IndexBuilder {
    pub stop_words: StopWords,
    pub index: Index,
    pub index_exists: bool,
    pub folder_path: String,
}

impl IndexBuilder {
    /// A builder over an open store.  The caller opened (or created) the
    /// store and says whether it existed before.
    pub fn new(folder_path: String, stop_words: StopWords, index: Index, index_exists: bool) -> (r:
        Self)
        ensures
            r.folder_path == folder_path,
            r.stop_words == stop_words,
            r.index == index,
            r.index_exists == index_exists,
    {
        Self { stop_words, index, index_exists, folder_path }
    }

    /// Whether the store existed before it was opened: an existing store is
    /// taken as an already complete index.
    pub fn index_exists(&self) -> (r: bool)
        ensures
            r == self.index_exists,
    {
        self.index_exists
    }

    /// Gives the store up to the caller, for searching.
    pub fn into_index(self) -> (r: Index)
        ensures
            r == self.index,
    {
        self.index
    }

    /// Empties the store, as a rebuild does before re-populating.
    pub fn clear_index(&mut self) -> (r: Result<(), Error>)
        ensures
            final(self).folder_path == old(self).folder_path,
            final(self).stop_words == old(self).stop_words,
            final(self).index_exists == old(self).index_exists,
            r is Ok ==> final(self).index.sources() == empty_source_table() && final(self).index.postings() == empty_postings_table(),
            r is Err ==> final(self).index.sources() == old(self).index.sources() && final(self).index.postings() == old(self).index.postings(),
            r matches Err(e) ==> e is Storage,
    {
        self.index.delete()
    }

    /// Indexes one page: writes its page record unconditionally, then bumps
    /// the postings of every keyword occurrence of its text, in order, each
    /// in its own transaction.  On failure the page record may or may not be
    /// written, and the postings stand at some prefix of the occurrences.
    pub fn add_page(&mut self, file_name: &String, page: &String, page_number: usize) -> (r:
        Result<(), Error>)
        ensures
            final(self).folder_path == old(self).folder_path,
            final(self).stop_words == old(self).stop_words,
            final(self).index_exists == old(self).index_exists,
            r is Ok ==> final(self).index.sources() == old(self).index.sources().insert(
                source_hash(old(self).folder_path@, file_name@, page_number as nat),
                enc_source(old(self).folder_path@, file_name@, page_number as u64),
            ),
            r is Ok ==> Some(final(self).index.postings()) == apply_kws(
                old(self).index.postings(),
                page_keywords(page@, old(self).stop_words.spec_words()),
                source_hash(old(self).folder_path@, file_name@, page_number as nat),
            ),
            r is Err ==> final(self).index.sources() == old(self).index.sources() || final(self).index.sources() == old(self).index.sources().insert(
                source_hash(old(self).folder_path@, file_name@, page_number as nat),
                enc_source(old(self).folder_path@, file_name@, page_number as u64),
            ),
            r is Err ==> exists|i: int|
                0 <= i <= page_keywords(page@, old(self).stop_words.spec_words()).len() && Some(
                    final(self).index.postings(),
                ) == apply_kws(
                    old(self).index.postings(),
                    page_keywords(page@, old(self).stop_words.spec_words()).subrange(0, i),
                    source_hash(old(self).folder_path@, file_name@, page_number as nat),
                ),
            r matches Err(e) ==> e is Storage || e is Overflow,
            r matches Err(e) && e is Overflow ==> exists|i: int|
                #[trigger] overflow_at(
                    old(self).index.postings(),
                    page_keywords(page@, old(self).stop_words.spec_words()),
                    source_hash(old(self).folder_path@, file_name@, page_number as nat),
                    i,
                ),
    {
        let ghost hash = source_hash(old(self).folder_path@, file_name@, page_number as nat);
        let ghost kws = page_keywords(page@, old(self).stop_words.spec_words());
        let keywords: Vec<String> = get_page_keywords(page.as_str(), &self.stop_words);
        let new_source = Source::new(self.folder_path.clone(), file_name.clone(), page_number);
        let h = new_source.get_hash();
        proof {
            assert(h == hash);
            assert(views_of(keywords@) == kws);
        }
        match self.index.add_source(&new_source) {
            Ok(()) => {},
            Err(e) => {
                proof {
                    assert(Some(self.index.postings()) == apply_kws(
                        old(self).index.postings(),
                        kws.subrange(0, 0),
                        hash,
                    )) by {
                        assert(kws.subrange(0, 0) =~= Seq::<Seq<char>>::empty());
                    }
                }
                return Err(e);
            },
        }
        let ghost p0 = self.index.postings();
        let n: usize = keywords.len();
        let mut i: usize = 0;
        while i < n
            invariant
                n == keywords@.len(),
                i <= n,
                kws == views_of(keywords@),
                kws == page_keywords(page@, old(self).stop_words.spec_words()),
                hash == source_hash(old(self).folder_path@, file_name@, page_number as nat),
                h == hash,
                self.stop_words == old(self).stop_words,
                self.folder_path == old(self).folder_path,
                self.index_exists == old(self).index_exists,
                p0 == old(self).index.postings(),
                self.index.sources() == old(self).index.sources().insert(
                    hash,
                    enc_source(old(self).folder_path@, file_name@, page_number as u64),
                ),
                Some(self.index.postings()) == apply_kws(p0, kws.subrange(0, i as int), hash),
            decreases n - i,
        {
            let ghost p_cur = self.index.postings();
            proof {
                assert(kws[i as int] == keywords@[i as int]@);
            }
            let rec: RevIndexRecord = match self.index.get_rev_index(keywords[i].as_str()) {
                Err(e) => {
                    return Err(e);
                },
                Ok(None) => {
                    let mut v: Vec<(u64, usize)> = Vec::new();
                    v.push((h, 1));
                    proof {
                        assert(v@ =~= seq![(h, 1usize)]);
                    }
                    RevIndexRecord::new(1, v)
                },
                Ok(Some(old_rec)) => {
                    if old_rec.freq == usize::MAX {
                        proof {
                            assert(decodes_to(
                                self.index.postings(),
                                kws[i as int],
                                old_rec.freq,
                                old_rec.sources@,
                            ));
                            assert(bump_overflows(old_rec.freq, old_rec.sources@, hash));
                            lemma_overflow_witness(
                                p0,
                                kws,
                                hash,
                                i as int,
                                self.index.postings(),
                                old_rec.freq,
                                old_rec.sources@,
                            );
                        }
                        return Err(Error::Overflow);
                    }
                    let new_sources = match bump_sources(&old_rec.sources, h) {
                        Ok(v) => v,
                        Err(e) => {
                            proof {
                                assert(decodes_to(
                                    self.index.postings(),
                                    kws[i as int],
                                    old_rec.freq,
                                    old_rec.sources@,
                                ));
                                assert(bump_overflows(old_rec.freq, old_rec.sources@, hash));
                                lemma_overflow_witness(
                                    p0,
                                    kws,
                                    hash,
                                    i as int,
                                    self.index.postings(),
                                    old_rec.freq,
                                    old_rec.sources@,
                                );
                            }
                            return Err(e);
                        },
                    };
                    RevIndexRecord::new(old_rec.freq + 1, new_sources)
                },
            };
            proof {
                assert(apply_kw(p_cur, kws[i as int], hash) == Some(
                    p_cur.insert(kws[i as int], enc_rev(rec.freq, rec.sources@)),
                ));
            }
            match self.index.add_rev_index(&keywords[i], rec) {
                Ok(()) => {},
                Err(e) => {
                    return Err(e);
                },
            }
            proof {
                assert(kws.subrange(0, i + 1) =~= kws.subrange(0, i as int).push(kws[i as int]));
                lemma_apply_kws_push(p0, kws.subrange(0, i as int), kws[i as int], hash);
            }
            i = i + 1;
        }
        proof {
            assert(kws.subrange(0, n as int) =~= kws);
        }
        Ok(())
    }
}

/// The page table after records were written for the given pages: each pair
/// is one page's content hash and record bytes.
pub open spec fn sources_after(m: Map<u64, Seq<u8>>, pages: Seq<(u64, Seq<u8>)>) -> Map<
    u64,
    Seq<u8>,
>
    decreases pages.len(),
{
    if pages.len() == 0 {
        m
    } else {
        sources_after(m, pages.drop_last()).insert(pages.last().0, pages.last().1)
    }
}

/// The hashes of the given pages.
pub open spec fn page_hashes(pages: Seq<(u64, Seq<u8>)>) -> Set<u64> {
    Set::new(|h: u64| exists|k: int| 0 <= k < pages.len() && (#[trigger] pages[k]).0 == h)
}

/// After a build, the page table holds exactly the written hashes.
pub proof fn lemma_sources_after_dom(m: Map<u64, Seq<u8>>, pages: Seq<(u64, Seq<u8>)>)
    ensures
        sources_after(m, pages).dom() =~= m.dom() + page_hashes(pages),
    decreases pages.len(),
{
    if pages.len() == 0 {
        assert(page_hashes(pages) =~= Set::<u64>::empty());
    } else {
        lemma_sources_after_dom(m, pages.drop_last());
        assert(page_hashes(pages) =~= page_hashes(pages.drop_last()).insert(pages.last().0)) by {
            assert forall|h: u64| page_hashes(pages).contains(h) implies page_hashes(
                pages.drop_last(),
            ).insert(pages.last().0).contains(h) by {
                let k = choose|k: int|
                    0 <= k < pages.len() && (#[trigger] pages[k]).0 == h;
                if k < pages.len() - 1 {
                    assert(pages.drop_last()[k] == pages[k]);
                }
            }
            assert forall|h: u64|
                page_hashes(pages.drop_last()).insert(pages.last().0).contains(
                    h,
                ) implies page_hashes(pages).contains(h) by {
                if h == pages.last().0 {
                    assert(pages[pages.len() - 1].0 == h);
                } else {
                    let k = choose|k: int|
                        0 <= k < pages.drop_last().len() && (#[trigger] pages.drop_last()[k]).0
                            == h;
                    assert(pages[k].0 == h);
                }
            }
        }
    }
}

/// A build over pages with pairwise distinct content hashes, starting from a
/// cleared store, persists exactly one page record per page.
pub proof fn lemma_build_page_count(pages: Seq<(u64, Seq<u8>)>)
    requires
        forall|a: int, b: int|
            0 <= a < b < pages.len() ==> (#[trigger] pages[a]).0 != (#[trigger] pages[b]).0,
    ensures
        sources_after(empty_source_table(), pages).dom().finite(),
        sources_after(empty_source_table(), pages).dom().len() == pages.len(),
    decreases pages.len(),
{
    if pages.len() == 0 {
        assert(sources_after(empty_source_table(), pages).dom() =~= Set::<u64>::empty());
    } else {
        let prev = pages.drop_last();
        assert(forall|a: int, b: int|
            0 <= a < b < prev.len() ==> (#[trigger] prev[a]).0 != (#[trigger] prev[b]).0) by {
            assert(forall|k: int| 0 <= k < prev.len() ==> prev[k] == #[trigger] pages[k]);
        }
        lemma_build_page_count(prev);
        lemma_sources_after_dom(empty_source_table(), prev);
        assert(!page_hashes(prev).contains(pages.last().0)) by {
            assert(forall|k: int| 0 <= k < prev.len() ==> prev[k] == #[trigger] pages[k]);
        }
        assert(empty_source_table().dom() =~= Set::<u64>::empty());
        assert(!sources_after(empty_source_table(), prev).dom().contains(pages.last().0));
    }
}

/// Rebuilding an unchanged set of pages reproduces the postings exactly:
/// after a clear, what the store holds is a function of the indexed pages
/// alone, so two builds over the same pages end in the same records.
pub proof fn lemma_rebuild_idempotent(
    pages: Seq<(Seq<Seq<char>>, u64)>,
    a: Option<Map<Seq<char>, Seq<u8>>>,
    b: Option<Map<Seq<char>, Seq<u8>>>,
)
    requires
        a == postings_after(empty_postings_table(), pages),
        b == postings_after(empty_postings_table(), pages),
    ensures
        a == b,
{
}

/// The postings after the keyword occurrences of each page were indexed in
/// order: each pair is one page's keyword list and content hash.
pub open spec fn postings_after(
    p: Map<Seq<char>, Seq<u8>>,
    pages: Seq<(Seq<Seq<char>>, u64)>,
) -> Option<Map<Seq<char>, Seq<u8>>>
    decreases pages.len(),
{
    if pages.len() == 0 {
        Some(p)
    } else {
        match postings_after(p, pages.drop_last()) {
            Some(q) => apply_kws(q, pages.last().0, pages.last().1),
            None => None,
        }
    }
}

} // verus!
