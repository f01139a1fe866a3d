//! Secondary indexes of the engine: their catalog page, their log and how they
//! are built again.
use vstd::prelude::*;

use super::page_map::{list_pages, lists_pages, store_page};
use crate::common::{bytes_view, io_error, is_io_error, page_bytes, page_from_vec, Error,
    IoErrorKind, Page, PageId, Result, KEY_SIZE, PAGE_SIZE, VALUE_SIZE};
use crate::key_map::key_array;
use crate::layout::{copy_bytes, le8, splice};
use crate::secondary_index::{def_fault, first_fault, history_after, mutations_view,
    planned_mutations, DefFields, MutationFields, PostingVersion, SecondaryIndexManager,
    SecondaryIndexMutation};
use crate::secondary_index_meta::{catalog_bytes, catalog_error, catalog_ok, decode_secondary_index_catalog,
    encode_secondary_index_catalog, parse_catalog, CatalogFields, SecondaryIndexCatalog,
    SECONDARY_INDEX_META_PAGE_ID};
use crate::secondary_posting_log::{append_record, appended_page, decode_records, is_log_page,
    law_append_then_decode, law_link_keeps_records, law_new_page_is_empty,
    log_page_error, new_log_bytes, new_log_page, next_of, page_records, posting_bytes, posting_ok,
    read_next_page_id, used_of, write_next_page_id, postings_view, PostingRecord,
    SecondaryPostingLogState, OFF_DATA, OFF_NEXT_PAGE_ID, SECONDARY_POSTING_LOG_BASE_PAGE_ID};
use crate::text::str_eq;
use crate::txn_page_provider::page_views;
use crate::undo_pg::value_array;
use std::collections::BTreeMap;
use vstd::string::*;
use vstd::utf8::*;

verus! {

broadcast use vstd::std_specs::btree::group_btree_axioms;

/// Mutations that are taken in and logged together while an index is built.
pub const BACKFILL_CHUNK: usize = 1024;

/// The indexes and their log.
#[derive(Debug)]
pub struct SecondaryIndexes {
    pub indexes: SecondaryIndexManager,
    pub posting_log: SecondaryPostingLogState,
}

/// Why mutations could not be logged.
pub enum LogFault {
    /// A page does not take the record of a mutation.
    Append(Seq<u8>, MutationFields),
    /// A record is longer than a page.
    TooLarge,
}

/// The log while mutations are written to it.
#[verifier::ext_equal]
pub struct LogFill {
    pub state: SecondaryPostingLogState,
    /// The last page, not yet among the pages to write.
    pub tail_id: u64,
    pub tail: Seq<u8>,
    /// Pages that are full.
    pub writes: Map<u64, Seq<u8>>,
    pub fault: Option<LogFault>,
}

pub open spec fn next_id(state: SecondaryPostingLogState) -> u64 {
    if state.next_page_id == u64::MAX {
        u64::MAX
    } else {
        (state.next_page_id + 1) as u64
    }
}

/// The log before the first mutation; an empty log gets its first page.
pub open spec fn fill_start(state: SecondaryPostingLogState, tail: Seq<u8>) -> LogFill {
    if state.tail_page_id == 0 {
        LogFill {
            state: SecondaryPostingLogState {
                head_page_id: state.next_page_id,
                tail_page_id: state.next_page_id,
                next_page_id: next_id(state),
            },
            tail_id: state.next_page_id,
            tail: new_log_bytes(),
            writes: Map::empty(),
            fault: None,
        }
    } else {
        LogFill {
            state,
            tail_id: state.tail_page_id,
            tail,
            writes: Map::empty(),
            fault: None,
        }
    }
}

/// The page has room for the record.
pub open spec fn fits(page: Seq<u8>, r: PostingRecord) -> bool {
    OFF_DATA + used_of(page) + posting_bytes(r).len() <= PAGE_SIZE
}

/// The log after one more mutation: its record goes onto the last page, or onto
/// a new one that the last page then points to.
pub open spec fn fill_one(f: LogFill, r: PostingRecord) -> LogFill {
    if f.fault is Some {
        f
    } else if !is_log_page(f.tail) || !posting_ok(r.1) {
        LogFill { fault: Some(LogFault::Append(f.tail, r.1)), ..f }
    } else if fits(f.tail, r) {
        LogFill { tail: appended_page(f.tail, r), ..f }
    } else {
        let id = f.state.next_page_id;
        let state = SecondaryPostingLogState { next_page_id: next_id(f.state), ..f.state };
        let full = splice(f.tail, OFF_NEXT_PAGE_ID as int, le8(id as int));
        let writes = f.writes.insert(f.tail_id, full);
        if fits(new_log_bytes(), r) {
            LogFill {
                state: SecondaryPostingLogState { tail_page_id: id, ..state },
                tail_id: id,
                tail: appended_page(new_log_bytes(), r),
                writes,
                fault: None,
            }
        } else {
            LogFill { state, writes, fault: Some(LogFault::TooLarge), ..f }
        }
    }
}

/// The log after the first `n` mutations.
pub open spec fn fill_log(f: LogFill, lsn: u64, ms: Seq<MutationFields>, n: int) -> LogFill
    decreases n,
{
    if n <= 0 {
        f
    } else {
        fill_one(fill_log(f, lsn, ms, n - 1), (lsn, ms[n - 1]))
    }
}

/// `e` says why mutations could not be logged.
pub open spec fn fault_error(fault: LogFault, e: Error) -> bool {
    match fault {
        LogFault::Append(page, m) => if !is_log_page(page) {
            log_page_error(page, e)
        } else if !(0 < encode_utf8(m.index_name).len() <= u16::MAX) {
            is_io_error(e, IoErrorKind::InvalidInput, "invalid index name length"@)
        } else {
            is_io_error(e, IoErrorKind::InvalidInput, "invalid secondary key length"@)
        },
        LogFault::TooLarge => is_io_error(
            e,
            IoErrorKind::InvalidInput,
            "posting mutation record too large"@,
        ),
    }
}

/// A step that goes through loses no record: the last page keeps its records
/// and gets the new one, or it is written out with a link to the new last page,
/// which holds the new one alone.
pub proof fn law_fill_keeps_records(f: LogFill, r: PostingRecord)
    requires
        f.fault is None,
        fill_one(f, r).fault is None,
        page_records(f.tail) is Ok,
        r.1.primary_key.len() == KEY_SIZE,
    ensures
        ({
            let g = fill_one(f, r);
            ||| {
                &&& g.tail_id == f.tail_id
                &&& g.writes == f.writes
                &&& page_records(g.tail) == Ok::<Seq<PostingRecord>, Seq<char>>(
                    page_records(f.tail)->Ok_0.push(r),
                )
            }
            ||| {
                &&& g.writes == f.writes.insert(f.tail_id, g.writes[f.tail_id])
                &&& page_records(g.writes[f.tail_id]) == page_records(f.tail)
                &&& next_of(g.writes[f.tail_id]) == g.tail_id
                &&& page_records(g.tail) == Ok::<Seq<PostingRecord>, Seq<char>>(seq![r])
                &&& next_of(g.tail) == 0
            }
        }),
{
    let g = fill_one(f, r);
    if fits(f.tail, r) {
        law_append_then_decode(f.tail, r);
    } else {
        law_link_keeps_records(f.tail, f.state.next_page_id);
        law_new_page_is_empty();
        law_append_then_decode(new_log_bytes(), r);
        assert(Seq::<PostingRecord>::empty().push(r) =~= seq![r]);
        assert(g.writes =~= f.writes.insert(f.tail_id, g.writes[f.tail_id]));
    }
}

/// The history of one pair of keys after the first `n` records of the log.
pub open spec fn history_replayed(
    h: Seq<PostingVersion>,
    name: Seq<char>,
    sk: Seq<u8>,
    pk: Seq<u8>,
    rs: Seq<PostingRecord>,
    n: int,
) -> Seq<PostingVersion>
    decreases n,
{
    if n <= 0 {
        h
    } else {
        history_after(
            history_replayed(h, name, sk, pk, rs, n - 1),
            name,
            sk,
            pk,
            rs[n - 1].0,
            seq![rs[n - 1].1],
            1,
        )
    }
}

impl SecondaryIndexes {
    pub open spec fn wf(&self) -> bool {
        self.indexes.wf()
    }

    /// What the catalog page says.
    pub open spec fn catalog(&self) -> CatalogFields {
        CatalogFields { defs: self.indexes.defs(), posting_log: self.posting_log }
    }

    /// No indexes, and a log without pages.
    pub fn new() -> (r: SecondaryIndexes)
        ensures
            r.wf(),
            r.indexes.defs() == Seq::<DefFields>::empty(),
            r.posting_log.head_page_id == 0,
            r.posting_log.tail_page_id == 0,
            r.posting_log.next_page_id == SECONDARY_POSTING_LOG_BASE_PAGE_ID,
    {
        SecondaryIndexes {
            indexes: SecondaryIndexManager::new(),
            posting_log: SecondaryPostingLogState::default(),
        }
    }

    /// The catalog page as it is to be written.
    pub fn catalog_page(&self) -> (r: Result<(PageId, Page)>)
        requires
            self.wf(),
        ensures
            r is Ok <==> catalog_ok(self.catalog()),
            r matches Ok((id, page)) ==> id == SECONDARY_INDEX_META_PAGE_ID && bytes_view(page)
                == catalog_bytes(self.catalog()),
            r matches Err(e) ==> catalog_error(self.catalog(), e),
    {
        let catalog = SecondaryIndexCatalog {
            defs: self.indexes.list_indexes(),
            posting_log: self.posting_log,
        };
        assert(catalog@ =~= self.catalog());
        match encode_secondary_index_catalog(&catalog) {
            Ok(page) => Ok((SECONDARY_INDEX_META_PAGE_ID, page)),
            Err(e) => Err(e),
        }
    }

    /// The indexes that the catalog page lists, all of them empty; none where
    /// there is no such page.
    pub fn load_catalog(page: Option<&Page>) -> (r: Result<SecondaryIndexes>)
        ensures
            match page {
                None => r matches Ok(s) && s.wf() && s.catalog() == (CatalogFields {
                    defs: seq![],
                    posting_log: SecondaryPostingLogState {
                        head_page_id: 0,
                        tail_page_id: 0,
                        next_page_id: SECONDARY_POSTING_LOG_BASE_PAGE_ID,
                    },
                }),
                Some(p) => if bytes_view(*p).len() != PAGE_SIZE {
                    r matches Err(Error::InvalidPageSize(a, b)) && a == bytes_view(*p).len() && b
                        == PAGE_SIZE
                } else {
                    match parse_catalog(bytes_view(*p)) {
                        Err(m) => r matches Err(e) && is_io_error(e, IoErrorKind::InvalidData, m),
                        Ok(c) => match r {
                            Ok(s) => {
                                &&& forall|i: int|
                                    0 <= i < c.defs.len() ==> #[trigger] def_fault(c.defs, i) is None
                                &&& s.wf()
                                &&& s.posting_log == c.posting_log
                                &&& s.indexes.defs().len() == c.defs.len()
                                &&& forall|d: DefFields| #[trigger]
                                    s.indexes.defs().contains(d) <==> c.defs.contains(d)
                                &&& forall|n: Seq<char>, sk: Seq<u8>, pk: Seq<u8>| #[trigger]
                                    s.indexes.history(n, sk, pk).len() == 0
                            },
                            Err(e) => exists|i: int| #[trigger]
                                first_fault(c.defs, i) && is_io_error(
                                    e,
                                    IoErrorKind::InvalidInput,
                                    def_fault(c.defs, i)->0,
                                ),
                        },
                    }
                },
            },
    {
        match page {
            None => {
                let s = SecondaryIndexes::new();
                assert(s.catalog().defs =~= seq![]);
                Ok(s)
            },
            Some(p) => match decode_secondary_index_catalog(page_bytes(p)) {
                Err(e) => Err(e),
                Ok(catalog) => {
                    let mut indexes = SecondaryIndexManager::new();
                    let SecondaryIndexCatalog { defs, posting_log } = catalog;
                    match indexes.replace_definitions(defs) {
                        Err(e) => Err(e),
                        Ok(_) => Ok(SecondaryIndexes { indexes, posting_log }),
                    }
                },
            },
        }
    }

    /// Writes mutations to the log. Returns the pages to write: those of the
    /// log in the order of their ids, and behind them the catalog page. `tail`
    /// is the last page of the log, where there is one.
    pub fn append_posting_log(
        &mut self,
        tail: Option<&Page>,
        commit_lsn: u64,
        mutations: &[SecondaryIndexMutation],
    ) -> (r: Result<Vec<(PageId, Page)>>)
        requires
            old(self).wf(),
        ensures
            final(self).indexes == old(self).indexes,
            ({
                let ms = mutations_view(mutations@);
                let log = old(self).posting_log;
                let f = fill_log(
                    fill_start(
                        log,
                        match tail {
                            Some(p) => bytes_view(*p),
                            None => seq![],
                        },
                    ),
                    commit_lsn,
                    ms,
                    ms.len() as int,
                );
                if ms.len() == 0 {
                    (r matches Ok(pages) && pages@.len() == 0) && final(self).posting_log == log
                } else if log.tail_page_id != 0 && tail is None {
                    (r matches Err(Error::InMemoryPageMissing(id)) && id == log.tail_page_id)
                        && final(self).posting_log == log
                } else {
                    &&& final(self).posting_log == f.state
                    &&& match f.fault {
                        Some(fault) => r matches Err(e) && fault_error(fault, e),
                        None => {
                            &&& r is Ok <==> catalog_ok(final(self).catalog())
                            &&& r matches Err(e) ==> catalog_error(final(self).catalog(), e)
                            &&& r matches Ok(pages) ==> {
                                &&& pages@.len() > 0
                                &&& lists_pages(
                                    pages@.drop_last(),
                                    f.writes.insert(f.tail_id, f.tail),
                                )
                                &&& pages@.last().0 == SECONDARY_INDEX_META_PAGE_ID
                                &&& bytes_view(pages@.last().1) == catalog_bytes(
                                    final(self).catalog(),
                                )
                            }
                        },
                    }
                }
            }),
    {
        let ghost ms = mutations_view(mutations@);
        let n: usize = mutations.len();
        if n == 0 {
            return Ok(Vec::new());
        }
        let ghost log = self.posting_log;
        let mut state = self.posting_log;
        let mut tail_id: u64 = state.tail_page_id;
        let mut page: Vec<u8>;
        if tail_id == 0 {
            let new_id: u64 = state.next_page_id;
            state = SecondaryPostingLogState {
                head_page_id: new_id,
                tail_page_id: new_id,
                next_page_id: new_id.saturating_add(1),
            };
            tail_id = new_id;
            page = copy_bytes(page_bytes(&new_log_page()));
        } else {
            match tail {
                Some(p) => {
                    page = copy_bytes(page_bytes(p));
                },
                None => {
                    return Err(Error::InMemoryPageMissing(tail_id));
                },
            }
        }
        let mut writes: BTreeMap<u64, Page> = BTreeMap::new();
        let ghost start = fill_start(
            log,
            match tail {
                Some(p) => bytes_view(*p),
                None => seq![],
            },
        );
        proof {
            assert(page_views(writes@) =~= Map::<u64, Seq<u8>>::empty());
            law_new_page_is_empty();
        }
        let mut i: usize = 0;
        while i < n
            invariant
                n == mutations@.len(),
                ms == mutations_view(mutations@),
                i <= n,
                self.indexes == old(self).indexes,
                is_log_page(new_log_bytes()),
                ms.len() > 0,
                log == old(self).posting_log,
                !(log.tail_page_id != 0 && tail is None),
                start == fill_start(
                    log,
                    match tail {
                        Some(p) => bytes_view(*p),
                        None => seq![],
                    },
                ),
                fill_log(start, commit_lsn, ms, i as int) == (LogFill {
                    state,
                    tail_id,
                    tail: page@,
                    writes: page_views(writes@),
                    fault: None,
                }),
            decreases n - i,
        {
            let m = &mutations[i];
            let ghost rec: PostingRecord = (commit_lsn, m@);
            let ghost f = fill_log(start, commit_lsn, ms, i as int);
            assert(ms[i as int] == m@);
            match append_record(&mut page, commit_lsn, m) {
                Err(e) => {
                    self.posting_log = state;
                    proof {
                        assert(fill_one(f, rec).fault is Some);
                        lemma_fault_stays(start, commit_lsn, ms, i + 1, n as int);
                    }
                    return Err(e);
                },
                Ok(true) => {},
                Ok(false) => {
                    let new_id: u64 = state.next_page_id;
                    state = SecondaryPostingLogState {
                        head_page_id: state.head_page_id,
                        tail_page_id: state.tail_page_id,
                        next_page_id: new_id.saturating_add(1),
                    };
                    let mut full: Vec<u8> = copy_bytes(page_bytes(&new_log_page()));
                    std::mem::swap(&mut full, &mut page);
                    if let Err(e) = write_next_page_id(&mut full, new_id) {
                        self.posting_log = state;
                        return Err(e);
                    }
                    store_page(&mut writes, tail_id, page_from_vec(full));
                    match append_record(&mut page, commit_lsn, m) {
                        Ok(true) => {},
                        _ => {
                            self.posting_log = state;
                            proof {
                                assert(fill_one(f, rec).fault is Some);
                                lemma_fault_stays(start, commit_lsn, ms, i + 1, n as int);
                            }
                            return Err(
                                io_error(
                                    IoErrorKind::InvalidInput,
                                    "posting mutation record too large",
                                ),
                            );
                        },
                    }
                    tail_id = new_id;
                    state = SecondaryPostingLogState {
                        head_page_id: state.head_page_id,
                        tail_page_id: new_id,
                        next_page_id: state.next_page_id,
                    };
                },
            }
            i += 1;
        }
        self.posting_log = state;
        store_page(&mut writes, tail_id, page_from_vec(page));
        let mut pages = list_pages(&writes);
        let ghost listed = pages@;
        match self.catalog_page() {
            Ok(entry) => {
                pages.push(entry);
                assert(pages@.drop_last() =~= listed);
                Ok(pages)
            },
            Err(e) => Err(e),
        }
    }

    /// Takes the records of a page of the log into the indexes. Returns their
    /// number and the id of the page that follows.
    pub fn replay_page(&mut self, page: &[u8]) -> (r: Result<(usize, PageId)>)
        requires
            old(self).wf(),
        ensures
            final(self).wf(),
            final(self).catalog() == old(self).catalog(),
            match r {
                Ok((count, next)) => {
                    &&& is_log_page(page@)
                    &&& next == next_of(page@)
                    &&& page_records(page@) matches Ok(rs) && count == rs.len() && forall|
                        n: Seq<char>,
                        sk: Seq<u8>,
                        pk: Seq<u8>,
                    |
                        old(self).indexes.has_index(n) ==> #[trigger] final(self).indexes.history(
                            n,
                            sk,
                            pk,
                        ) == history_replayed(
                            old(self).indexes.history(n, sk, pk),
                            n,
                            sk,
                            pk,
                            rs,
                            rs.len() as int,
                        )
                },
                Err(e) => {
                    &&& *final(self) == *old(self)
                    &&& if !is_log_page(page@) {
                        log_page_error(page@, e)
                    } else {
                        page_records(page@) matches Err(m) && is_io_error(
                            e,
                            IoErrorKind::InvalidData,
                            m,
                        )
                    }
                },
            },
    {
        let records = match decode_records(page) {
            Ok(v) => v,
            Err(e) => {
                return Err(e);
            },
        };
        let next: PageId = match read_next_page_id(page) {
            Ok(id) => id,
            Err(e) => {
                return Err(e);
            },
        };
        let ghost rs = postings_view(records@);
        let count: usize = records.len();
        let mut i: usize = 0;
        while i < count
            invariant
                count == records@.len(),
                rs == postings_view(records@),
                i <= count,
                self.wf(),
                self.posting_log == old(self).posting_log,
                self.indexes.defs() == old(self).indexes.defs(),
                forall|n: Seq<char>| #[trigger]
                    self.indexes.has_index(n) == old(self).indexes.has_index(n),
                forall|n: Seq<char>, sk: Seq<u8>, pk: Seq<u8>|
                    old(self).indexes.has_index(n) ==> #[trigger] self.indexes.history(n, sk, pk)
                        == history_replayed(
                        old(self).indexes.history(n, sk, pk),
                        n,
                        sk,
                        pk,
                        rs,
                        i as int,
                    ),
            decreases count - i,
        {
            let ghost before = self.indexes;
            let lsn: u64 = records[i].0;
            self.indexes.apply_one(lsn, &records[i].1);
            assert(rs[i as int] == (records@[i as int].0, records@[i as int].1@));
            assert forall|n: Seq<char>, sk: Seq<u8>, pk: Seq<u8>|
                old(self).indexes.has_index(n) implies #[trigger] self.indexes.history(n, sk, pk)
                == history_replayed(
                old(self).indexes.history(n, sk, pk),
                n,
                sk,
                pk,
                rs,
                i + 1,
            ) by {
                assert(before.has_index(n));
                let h = before.history(n, sk, pk);
                assert(h == history_replayed(
                    old(self).indexes.history(n, sk, pk),
                    n,
                    sk,
                    pk,
                    rs,
                    i as int,
                ));
                let one = seq![rs[i as int].1];
                assert(history_after(h, n, sk, pk, lsn, one, 0) == h);
                assert(one[0] == rs[i as int].1);
            }
            i += 1;
        }
        Ok((count, next))
    }

    /// The mutations that put a row into one index, where the index did not
    /// know the row.
    pub fn backfill_row(&self, index_name: &str, key: &[u8], value: &[u8]) -> (r: Result<
        Vec<SecondaryIndexMutation>,
    >)
        requires
            self.wf(),
            value@.len() == VALUE_SIZE,
        ensures
            if key@.len() != KEY_SIZE {
                r matches Err(Error::InvalidKeySize(a, b)) && a == key@.len() && b == KEY_SIZE
            } else {
                r matches Ok(ms) && mutations_view(ms@) == planned_mutations(
                    self.indexes.defs(),
                    self.indexes.defs().len() as int,
                    key@,
                    None,
                    Some(value@),
                ).filter(|m: MutationFields| m.index_name == index_name@)
            },
    {
        if key.len() != KEY_SIZE {
            return Err(Error::InvalidKeySize(key.len(), KEY_SIZE));
        }
        let pk = key_array(key, 0);
        assert(pk@ =~= key@);
        let v = value_array(value, 0);
        assert(v@ =~= value@);
        let all = match self.indexes.plan_mutations(pk, None, Some(&v)) {
            Ok(ms) => ms,
            Err(e) => {
                return Err(e);
            },
        };
        let ghost plan = mutations_view(all@);
        let ghost pred = |m: MutationFields| m.index_name == index_name@;
        let mut out: Vec<SecondaryIndexMutation> = Vec::new();
        let n: usize = all.len();
        let mut i: usize = 0;
        reveal(Seq::filter);
        assert(mutations_view(out@) =~= plan.take(0).filter(pred));
        while i < n
            invariant
                n == all@.len(),
                plan == mutations_view(all@),
                i <= n,
                pred == (|m: MutationFields| m.index_name == index_name@),
                mutations_view(out@) == plan.take(i as int).filter(pred),
            decreases n - i,
        {
            reveal(Seq::filter);
            let m = &all[i];
            let ghost before = mutations_view(out@);
            assert(plan[i as int] == m@);
            assert(plan.take(i + 1).drop_last() =~= plan.take(i as int));
            assert(plan.take(i + 1).last() == m@);
            if str_eq(m.index_name.as_str(), index_name) {
                let copy = SecondaryIndexMutation {
                    index_name: String::from_str(m.index_name.as_str()),
                    secondary_key: copy_bytes(m.secondary_key.as_slice()),
                    primary_key: m.primary_key,
                    present: m.present,
                };
                assert(copy@ =~= m@);
                out.push(copy);
                assert(mutations_view(out@) =~= before.push(m@));
            }
            i += 1;
        }
        assert(plan.take(n as int) =~= plan);
        Ok(out)
    }
}

/// Whether enough mutations have gathered to be taken in and logged.
pub fn backfill_chunk_full(len: usize) -> (r: bool)
    ensures
        r == (len >= BACKFILL_CHUNK),
{
    len >= BACKFILL_CHUNK
}

/// After a fault nothing changes any more.
proof fn lemma_fault_stays(f: LogFill, lsn: u64, ms: Seq<MutationFields>, i: int, n: int)
    requires
        0 <= i <= n,
        fill_log(f, lsn, ms, i).fault is Some,
    ensures
        fill_log(f, lsn, ms, n) == fill_log(f, lsn, ms, i),
    decreases n,
{
    if i < n {
        lemma_fault_stays(f, lsn, ms, i, n - 1);
    }
}

/// Replaying the log of a commit gives the history that the commit gave.
pub proof fn law_replay_is_commit(
    h: Seq<PostingVersion>,
    name: Seq<char>,
    sk: Seq<u8>,
    pk: Seq<u8>,
    lsn: u64,
    ms: Seq<MutationFields>,
    rs: Seq<PostingRecord>,
    n: int,
)
    requires
        0 <= n <= ms.len(),
        rs.len() == ms.len(),
        forall|i: int| 0 <= i < ms.len() ==> (#[trigger] rs[i]).0 == lsn && rs[i].1 == ms[i],
    ensures
        history_replayed(h, name, sk, pk, rs, n) == history_after(h, name, sk, pk, lsn, ms, n),
    decreases n,
{
    if n > 0 {
        law_replay_is_commit(h, name, sk, pk, lsn, ms, rs, n - 1);
        reveal_with_fuel(history_after, 2);
        assert(rs[n - 1].0 == lsn && rs[n - 1].1 == ms[n - 1]);
    }
}

/// A record goes onto the last page of the log, if it fits there, and nothing else
/// changes; else onto a new page, which the last page then points to and which gets the
/// next id. The log still begins with the same page.
pub proof fn law_record_is_appended(f: LogFill, r: PostingRecord)
    requires
        f.fault is None,
        fill_one(f, r).fault is None,
        f.state.next_page_id < u64::MAX,
    ensures
        fill_one(f, r).state.head_page_id == f.state.head_page_id,
        22 + used_of(f.tail) + posting_bytes(r).len() <= 16384 ==> fill_one(f, r).state == f.state
            && fill_one(f, r).tail_id == f.tail_id && fill_one(f, r).writes == f.writes && fill_one(
            f,
            r,
        ).tail == appended_page(f.tail, r),
        22 + used_of(f.tail) + posting_bytes(r).len() > 16384 ==> fill_one(f, r).tail_id
            == f.state.next_page_id && fill_one(f, r).state.tail_page_id == f.state.next_page_id
            && fill_one(f, r).state.next_page_id == f.state.next_page_id + 1 && fill_one(
            f,
            r,
        ).tail == appended_page(new_log_bytes(), r) && fill_one(f, r).writes == f.writes.insert(
            f.tail_id,
            splice(f.tail, 12, le8(f.state.next_page_id as int)),
        ),
{
}

/// An empty log gets its first page, which is then its first and its last one, with the
/// next id; a log that has pages goes on with its last one.
pub proof fn law_log_begins(state: SecondaryPostingLogState, tail: Seq<u8>)
    requires
        state.next_page_id < u64::MAX,
    ensures
        fill_start(state, tail).fault is None,
        state.tail_page_id == 0 ==> fill_start(state, tail).tail_id == state.next_page_id
            && fill_start(state, tail).state.head_page_id == state.next_page_id && fill_start(
            state,
            tail,
        ).state.tail_page_id == state.next_page_id && fill_start(state, tail).state.next_page_id
            == state.next_page_id + 1 && fill_start(state, tail).tail == new_log_bytes(),
        state.tail_page_id != 0 ==> fill_start(state, tail).tail_id == state.tail_page_id
            && fill_start(state, tail).state == state && fill_start(state, tail).tail == tail,
{
}

} // verus!
