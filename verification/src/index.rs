use vstd::prelude::*;

use lmdb::Transaction;

use crate::Error;
use crate::codec::chars_ok;
use crate::codec::codes_of;
use crate::codec::counts_positive;
use crate::codec::dec_rev_at;
use crate::codec::dec_source_at;
use crate::codec::decode_rev;
use crate::codec::decode_source;
use crate::codec::enc_rev;
use crate::codec::enc_source;
use crate::codec::encode_rev;
use crate::codec::encode_source;
use crate::codec::sum_counts;
use crate::source::Source;
use crate::source::source_hash;

verus! {

#[verifier::external_type_specification]
#[verifier::external_body]
pub struct ExEnvironment(lmdb::Environment);

#[verifier::external_type_specification]
#[verifier::external_body]
pub struct ExDatabase(lmdb::Database);

/// What the page table of the environment holds: record bytes by the
/// eight-byte content hash under which they were stored.
pub uninterp spec fn source_table(env: lmdb::Environment, db: lmdb::Database) -> Map<
    u64,
    Seq<u8>,
>;

/// What the postings table of the environment holds: record bytes by the
/// characters of the keyword under which they were stored.
pub uninterp spec fn postings_table(env: lmdb::Environment, db: lmdb::Database) -> Map<
    Seq<char>,
    Seq<u8>,
>;

/// The empty page table, as a clear leaves it.
pub open spec fn empty_source_table() -> Map<u64, Seq<u8>> {
    Map::empty()
}

/// The empty postings table, as a clear leaves it.
pub open spec fn empty_postings_table() -> Map<Seq<char>, Seq<u8>> {
    Map::empty()
}

/// The postings for one canonical keyword: how often the keyword occurs over
/// the whole indexed set, and how often it occurs on each page, by the
/// page's content hash.
#[derive(Debug)]
pub struct RevIndexRecord {
    pub freq: usize,
    pub sources: Vec<(u64, usize)>,
}

/// A well-formed postings record: the total is the sum of the per-page
/// counts, every count is positive, and no page is listed twice.
pub open spec fn rev_wf(freq: usize, sources: Seq<(u64, usize)>) -> bool {
    &&& sum_counts(sources) == freq
    &&& counts_positive(sources)
    &&& forall|a: int, b: int|
        0 <= a < b < sources.len() ==> (#[trigger] sources[a]).0 != (#[trigger] sources[b]).0
}

impl RevIndexRecord {
    pub fn new(freq: usize, sources: Vec<(u64, usize)>) -> (r: Self)
        ensures
            r.freq == freq,
            r.sources == sources,
    {
        Self { freq, sources }
    }
}

/// The persistent store: one on-disk environment holding the page table
/// (content hash to page record bytes) and the postings table (keyword to
/// postings record bytes).  Every operation is one committed transaction.
pub struct Index {
    env: lmdb::Environment,
    source_db: lmdb::Database,
    index_db: lmdb::Database,
}

impl Index {
    /// The logical contents of the page table.
    pub closed spec fn sources(self) -> Map<u64, Seq<u8>> {
        source_table(self.env, self.source_db)
    }

    /// The logical contents of the postings table.
    pub closed spec fn postings(self) -> Map<Seq<char>, Seq<u8>> {
        postings_table(self.env, self.index_db)
    }

    /// Relies on lmdb::Environment::open and Environment::create_db: they
    /// open or create the environment at `db_loc`, which must be an
    /// existing directory, with the two named tables.  The tables hold
    /// whatever the files on disk held, so nothing is known of the maps.
    #[verifier::external_body]
    pub fn new(db_loc: &str) -> (r: Result<Index, Error>)
        ensures
            r matches Err(e) ==> e is Storage,
    {
        let env = match lmdb::Environment::new().set_max_dbs(2).set_map_size(1048576000).open(
            std::path::Path::new(db_loc),
        ) {
            Ok(e) => e,
            Err(_) => return Err(Error::Storage),
        };
        let source_db = match env.create_db(Some("source_db"), lmdb::DatabaseFlags::empty()) {
            Ok(d) => d,
            Err(_) => return Err(Error::Storage),
        };
        let index_db = match env.create_db(Some("index_db"), lmdb::DatabaseFlags::empty()) {
            Ok(d) => d,
            Err(_) => return Err(Error::Storage),
        };
        Ok(Index { env, source_db, index_db })
    }

    /// Relies on lmdb RwTransaction::put and commit: after the commit the
    /// page table holds the old pairs and this one; if anything fails the
    /// transaction aborts and the store is unchanged.
    #[verifier::external_body]
    fn put_source_raw(&mut self, key: u64, val: &Vec<u8>) -> (r: Result<(), Error>)
        ensures
            r is Ok ==> source_table(final(self).env, final(self).source_db) == source_table(old(self).env, old(self).source_db).insert(key, val@),
            r is Ok ==> postings_table(final(self).env, final(self).index_db) == postings_table(old(self).env, old(self).index_db),
            r is Err ==> source_table(final(self).env, final(self).source_db) == source_table(old(self).env, old(self).source_db),
            r is Err ==> postings_table(final(self).env, final(self).index_db) == postings_table(old(self).env, old(self).index_db),
            r matches Err(e) ==> e is Storage,
    {
        let mut txn = match self.env.begin_rw_txn() {
            Ok(t) => t,
            Err(_) => return Err(Error::Storage),
        };
        if txn.put(self.source_db, &key.to_be_bytes(), val, lmdb::WriteFlags::empty()).is_err() {
            return Err(Error::Storage);
        }
        match txn.commit() {
            Ok(()) => Ok(()),
            Err(_) => Err(Error::Storage),
        }
    }

    /// Relies on lmdb Transaction::get: it returns the bytes stored under
    /// the key, or NotFound when the key is absent.
    #[verifier::external_body]
    fn get_source_raw(&self, key: u64) -> (r: Result<Option<Vec<u8>>, Error>)
        ensures
            r matches Ok(o) ==> (o matches Some(v) ==> source_table(self.env, self.source_db).contains_key(key) && v@ == source_table(self.env, self.source_db)[key]),
            r matches Ok(o) ==> (o is None ==> !source_table(self.env, self.source_db).contains_key(key)),
            r matches Err(e) ==> e is Storage,
    {
        let txn = match self.env.begin_ro_txn() {
            Ok(t) => t,
            Err(_) => return Err(Error::Storage),
        };
        match txn.get(self.source_db, &key.to_be_bytes()) {
            Ok(bytes) => Ok(Some(bytes.to_vec())),
            Err(lmdb::Error::NotFound) => Ok(None),
            Err(_) => Err(Error::Storage),
        }
    }

    /// Relies on lmdb RwTransaction::put and commit, as for the page table;
    /// the key is the keyword's UTF-8 form, which two equal strings share.
    #[verifier::external_body]
    fn put_postings_raw(&mut self, word: &str, val: &Vec<u8>) -> (r: Result<(), Error>)
        ensures
            r is Ok ==> postings_table(final(self).env, final(self).index_db) == postings_table(old(self).env, old(self).index_db).insert(word@, val@),
            r is Ok ==> source_table(final(self).env, final(self).source_db) == source_table(old(self).env, old(self).source_db),
            r is Err ==> source_table(final(self).env, final(self).source_db) == source_table(old(self).env, old(self).source_db),
            r is Err ==> postings_table(final(self).env, final(self).index_db) == postings_table(old(self).env, old(self).index_db),
            r matches Err(e) ==> e is Storage,
    {
        let mut txn = match self.env.begin_rw_txn() {
            Ok(t) => t,
            Err(_) => return Err(Error::Storage),
        };
        if txn.put(self.index_db, &word, val, lmdb::WriteFlags::empty()).is_err() {
            return Err(Error::Storage);
        }
        match txn.commit() {
            Ok(()) => Ok(()),
            Err(_) => Err(Error::Storage),
        }
    }

    /// Relies on lmdb Transaction::get, as for the page table.
    #[verifier::external_body]
    fn get_postings_raw(&self, word: &str) -> (r: Result<Option<Vec<u8>>, Error>)
        ensures
            r matches Ok(o) ==> (o matches Some(v) ==> postings_table(self.env, self.index_db).contains_key(word@) && v@ == postings_table(self.env, self.index_db)[word@]),
            r matches Ok(o) ==> (o is None ==> !postings_table(self.env, self.index_db).contains_key(word@)),
            r matches Err(e) ==> e is Storage,
    {
        let txn = match self.env.begin_ro_txn() {
            Ok(t) => t,
            Err(_) => return Err(Error::Storage),
        };
        match txn.get(self.index_db, &word) {
            Ok(bytes) => Ok(Some(bytes.to_vec())),
            Err(lmdb::Error::NotFound) => Ok(None),
            Err(_) => Err(Error::Storage),
        }
    }

    /// Relies on lmdb RwTransaction::clear_db and commit: one transaction
    /// empties both tables, so either both end empty or nothing changes.
    #[verifier::external_body]
    fn clear_raw(&mut self) -> (r: Result<(), Error>)
        ensures
            r is Ok ==> source_table(final(self).env, final(self).source_db) == empty_source_table(),
            r is Ok ==> postings_table(final(self).env, final(self).index_db) == empty_postings_table(),
            r is Err ==> source_table(final(self).env, final(self).source_db) == source_table(old(self).env, old(self).source_db),
            r is Err ==> postings_table(final(self).env, final(self).index_db) == postings_table(old(self).env, old(self).index_db),
            r matches Err(e) ==> e is Storage,
    {
        let mut txn = match self.env.begin_rw_txn() {
            Ok(t) => t,
            Err(_) => return Err(Error::Storage),
        };
        if txn.clear_db(self.index_db).is_err() {
            return Err(Error::Storage);
        }
        if txn.clear_db(self.source_db).is_err() {
            return Err(Error::Storage);
        }
        match txn.commit() {
            Ok(()) => Ok(()),
            Err(_) => Err(Error::Storage),
        }
    }

    /// Writes the page record under its content hash, in one transaction.
    pub fn add_source(&mut self, source: &Source) -> (r: Result<(), Error>)
        ensures
            r is Ok ==> final(self).sources() == old(self).sources().insert(
                source_hash(source.dir@, source.file_name@, source.page_number as nat),
                enc_source(source.dir@, source.file_name@, source.page_number as u64),
            ) && final(self).postings() == old(self).postings(),
            r is Err ==> final(self).sources() == old(self).sources() && final(self).postings()
                == old(self).postings(),
            r matches Err(e) ==> e is Storage,
    {
        let bytes = encode_source(source);
        let h = source.get_hash();
        self.put_source_raw(h, &bytes)
    }

    /// Reads the page record stored under `key`.  `NotFound` exactly when
    /// the key is absent; `Storage` when the bytes are corrupt or the
    /// transaction fails.
    pub fn get_source(&self, key: &u64) -> (r: Result<Source, Error>)
        ensures
            r matches Ok(src) ==> self.sources().contains_key(*key) && dec_source_at(
                self.sources()[*key],
            ) == Some((codes_of(src.dir@), codes_of(src.file_name@), src.page_number as u64))
                && chars_ok(src.dir@) && chars_ok(src.file_name@),
            r matches Err(e) ==> (e is NotFound && !self.sources().contains_key(*key)) || (
            e is Storage),
    {
        match self.get_source_raw(*key) {
            Err(e) => Err(e),
            Ok(None) => Err(Error::NotFound),
            Ok(Some(bytes)) => match decode_source(&bytes) {
                Some(src) => Ok(src),
                None => Err(Error::Storage),
            },
        }
    }

    /// Overwrites the postings stored under the keyword, in one transaction.
    pub fn add_rev_index(&mut self, word: &String, record: RevIndexRecord) -> (r: Result<
        (),
        Error,
    >)
        ensures
            r is Ok ==> final(self).postings() == old(self).postings().insert(
                word@,
                enc_rev(record.freq, record.sources@),
            ) && final(self).sources() == old(self).sources(),
            r is Err ==> final(self).sources() == old(self).sources() && final(self).postings()
                == old(self).postings(),
            r matches Err(e) ==> e is Storage,
    {
        let bytes = encode_rev(&record);
        self.put_postings_raw(word.as_str(), &bytes)
    }

    /// Reads the postings stored under the keyword.  `None` exactly when
    /// the keyword was never indexed; `Storage` when the bytes are corrupt
    /// or the transaction fails.  The record comes back as it was written:
    /// the store keeps bytes, not the builder's invariants.
    pub fn get_rev_index(&self, word: &str) -> (r: Result<Option<RevIndexRecord>, Error>)
        ensures
            r matches Ok(o) ==> (o matches Some(rec) ==> self.postings().contains_key(word@)
                && dec_rev_at(self.postings()[word@]) == Some((rec.freq, rec.sources@))) && (
            o is None ==> !self.postings().contains_key(word@)),
            r matches Err(e) ==> e is Storage,
    {
        match self.get_postings_raw(word) {
            Err(e) => Err(e),
            Ok(None) => Ok(None),
            Ok(Some(bytes)) => match decode_rev(&bytes) {
                Some(rec) => Ok(Some(rec)),
                None => Err(Error::Storage),
            },
        }
    }

    /// Empties both tables in one atomic transaction: either both end empty
    /// or the store is unchanged.
    pub fn delete(&mut self) -> (r: Result<(), Error>)
        ensures
            r is Ok ==> final(self).sources() == empty_source_table() && final(self).postings()
                == empty_postings_table(),
            r is Err ==> final(self).sources() == old(self).sources() && final(self).postings()
                == old(self).postings(),
            r matches Err(e) ==> e is Storage,
    {
        self.clear_raw()
    }
}

/// Round trip through the store: once a page record stands in the page
/// table under its content hash, reading it back yields a record with
/// exactly the original field values.
pub proof fn lemma_store_round_trip(
    s: Map<u64, Seq<u8>>,
    dir: Seq<char>,
    file_name: Seq<char>,
    page: u64,
)
    requires
        chars_ok(dir),
        chars_ok(file_name),
        dir.len() <= 0xFFFFFFFF,
        file_name.len() <= 0xFFFFFFFF,
        page <= usize::MAX as u64,
    ensures
        dec_source_at(
            s.insert(
                source_hash(dir, file_name, page as nat),
                enc_source(dir, file_name, page),
            )[source_hash(dir, file_name, page as nat)],
        ) == Some((codes_of(dir), codes_of(file_name), page)),
{
    crate::codec::lemma_source_round_trip(dir, file_name, page);
}

/// Round trip through the store: once a postings record stands in the
/// postings table under its keyword, reading those bytes back yields
/// exactly the record that was written — last write wins, whatever total
/// and counts the record holds.
pub proof fn lemma_postings_store_round_trip(
    p: Map<Seq<char>, Seq<u8>>,
    w: Seq<char>,
    freq: usize,
    sources: Seq<(u64, usize)>,
)
    requires
        sources.len() <= 0xFFFFFFFF,
    ensures
        dec_rev_at(p.insert(w, enc_rev(freq, sources))[w]) == Some((freq, sources)),
{
    crate::codec::lemma_rev_round_trip(freq, sources);
}

} // verus!
