//! The messages between compute and storage, and where they are sent.
use vstd::prelude::*;

use crate::common::{bytes_view, io_error, is_io_error, page_bytes, page_from_vec, IoErrorKind, Page,
    PageId, Result};
use crate::layout::copy_bytes;
use crate::text::{join2, join_num, dec, strip_prefix, stripped_prefix};
use vstd::string::*;

verus! {

#[derive(Debug, Clone)]
pub struct DurableLsnResponse {
    pub durable_lsn: u64,
}

#[derive(Debug, Clone)]
pub struct PageWrite {
    pub page_id: PageId,
    pub page: Vec<u8>,
}

#[derive(Debug, Clone)]
pub struct AppendTxnBatchRequest {
    pub request_id: u64,
    pub start_lsn: u64,
    pub end_lsn: u64,
    pub writes: Vec<PageWrite>,
}

#[derive(Debug, Clone)]
pub struct AppendTxnBatchResponse {
    pub commit_lsn: u64,
    pub durable_lsn: u64,
}

#[derive(Debug, Clone)]
pub struct GetPageResponse {
    pub durable_lsn: u64,
    pub found: bool,
    pub page_lsn: u64,
    pub page: Vec<u8>,
}

#[derive(Debug, Clone)]
pub struct ScanPagesRequest {
    pub start_page_id: PageId,
    pub limit: u32,
}

#[derive(Debug, Clone)]
pub struct ScanPageItem {
    pub page_id: PageId,
    pub page_lsn: u64,
    pub page: Vec<u8>,
}

#[derive(Debug, Clone)]
pub struct ScanPagesResponse {
    pub durable_lsn: u64,
    pub pages: Vec<ScanPageItem>,
}

/// The message and the list say the same of place `i`.
pub open spec fn same_write(w: PageWrite, p: (PageId, Page)) -> bool {
    w.page_id == p.0 && w.page@ == bytes_view(p.1)
}

pub open spec fn same_writes(ws: Seq<PageWrite>, ps: Seq<(PageId, Page)>) -> bool {
    ws.len() == ps.len() && forall|i: int|
        0 <= i < ws.len() ==> same_write(#[trigger] ws[i], #[trigger] ps[i])
}

impl AppendTxnBatchRequest {
    /// The message that appends page images under a reserved range of LSNs.
    pub fn new(request_id: u64, start_lsn: u64, end_lsn: u64, writes: &Vec<(PageId, Page)>) -> (r:
        AppendTxnBatchRequest)
        ensures
            r.request_id == request_id,
            r.start_lsn == start_lsn,
            r.end_lsn == end_lsn,
            same_writes(r.writes@, writes@),
    {
        let n: usize = writes.len();
        let mut out: Vec<PageWrite> = Vec::new();
        let mut i: usize = 0;
        while i < n
            invariant
                n == writes@.len(),
                i <= n,
                out@.len() == i,
                forall|j: int| 0 <= j < i ==> same_write(#[trigger] out@[j], #[trigger] writes@[j]),
            decreases n - i,
        {
            out.push(
                PageWrite {
                    page_id: writes[i].0,
                    page: copy_bytes(page_bytes(&writes[i].1)),
                },
            );
            i += 1;
        }
        AppendTxnBatchRequest { request_id, start_lsn, end_lsn, writes: out }
    }

    /// The page images of the message.
    pub fn pages(&self) -> (r: Vec<(PageId, Page)>)
        ensures
            same_writes(self.writes@, r@),
    {
        let n: usize = self.writes.len();
        let mut out: Vec<(PageId, Page)> = Vec::new();
        let mut i: usize = 0;
        while i < n
            invariant
                n == self.writes@.len(),
                i <= n,
                out@.len() == i,
                forall|j: int|
                    0 <= j < i ==> same_write(#[trigger] self.writes@[j], #[trigger] out@[j]),
            decreases n - i,
        {
            out.push(
                (
                    self.writes[i].page_id,
                    page_from_vec(copy_bytes(self.writes[i].page.as_slice())),
                ),
            );
            i += 1;
        }
        out
    }
}

impl GetPageResponse {
    /// The answer to a request for a page.
    pub fn new(durable_lsn: u64, page: Option<(Page, u64)>) -> (r: GetPageResponse)
        ensures
            r.durable_lsn == durable_lsn,
            match page {
                Some((p, lsn)) => r.found && r.page_lsn == lsn && r.page@ == bytes_view(p),
                None => !r.found && r.page_lsn == 0 && r.page@.len() == 0,
            },
    {
        match page {
            Some((p, page_lsn)) => GetPageResponse {
                durable_lsn,
                found: true,
                page_lsn,
                page: copy_bytes(page_bytes(&p)),
            },
            None => GetPageResponse { durable_lsn, found: false, page_lsn: 0, page: Vec::new() },
        }
    }

    /// The page, its LSN and the durable LSN, where the page was found.
    pub fn page(&self) -> (r: Option<(Page, u64, u64)>)
        ensures
            match r {
                Some((p, page_lsn, durable_lsn)) => self.found && bytes_view(p) == self.page@
                    && page_lsn == self.page_lsn && durable_lsn == self.durable_lsn,
                None => !self.found,
            },
    {
        if !self.found {
            return None;
        }
        Some(
            (page_from_vec(copy_bytes(self.page.as_slice())), self.page_lsn, self.durable_lsn),
        )
    }
}

pub open spec fn same_item(w: ScanPageItem, p: (PageId, u64, Page)) -> bool {
    w.page_id == p.0 && w.page_lsn == p.1 && w.page@ == bytes_view(p.2)
}

pub open spec fn same_items(ws: Seq<ScanPageItem>, ps: Seq<(PageId, u64, Page)>) -> bool {
    ws.len() == ps.len() && forall|i: int|
        0 <= i < ws.len() ==> same_item(#[trigger] ws[i], #[trigger] ps[i])
}

impl ScanPagesResponse {
    /// The answer to a scan.
    pub fn new(durable_lsn: u64, pages: &Vec<(PageId, u64, Page)>) -> (r: ScanPagesResponse)
        ensures
            r.durable_lsn == durable_lsn,
            same_items(r.pages@, pages@),
    {
        let n: usize = pages.len();
        let mut out: Vec<ScanPageItem> = Vec::new();
        let mut i: usize = 0;
        while i < n
            invariant
                n == pages@.len(),
                i <= n,
                out@.len() == i,
                forall|j: int| 0 <= j < i ==> same_item(#[trigger] out@[j], #[trigger] pages@[j]),
            decreases n - i,
        {
            out.push(
                ScanPageItem {
                    page_id: pages[i].0,
                    page_lsn: pages[i].1,
                    page: copy_bytes(page_bytes(&pages[i].2)),
                },
            );
            i += 1;
        }
        ScanPagesResponse { durable_lsn, pages: out }
    }

    /// The pages of the answer.
    pub fn items(&self) -> (r: Vec<(PageId, u64, Page)>)
        ensures
            same_items(self.pages@, r@),
    {
        let n: usize = self.pages.len();
        let mut out: Vec<(PageId, u64, Page)> = Vec::new();
        let mut i: usize = 0;
        while i < n
            invariant
                n == self.pages@.len(),
                i <= n,
                out@.len() == i,
                forall|j: int|
                    0 <= j < i ==> same_item(#[trigger] self.pages@[j], #[trigger] out@[j]),
            decreases n - i,
        {
            let w = &self.pages[i];
            out.push((w.page_id, w.page_lsn, page_from_vec(copy_bytes(w.page.as_slice()))));
            i += 1;
        }
        out
    }
}

/// The pages that arrive are those that were sent.
pub proof fn law_writes_arrive(ws: Seq<PageWrite>, sent: Seq<(PageId, Page)>, got: Seq<(PageId, Page)>)
    requires
        same_writes(ws, sent),
        same_writes(ws, got),
    ensures
        got.len() == sent.len(),
        forall|i: int|
            0 <= i < sent.len() ==> (#[trigger] got[i]).0 == (#[trigger] sent[i]).0 && bytes_view(
                got[i].1,
            ) == bytes_view(sent[i].1),
{
    assert forall|i: int| 0 <= i < sent.len() implies (#[trigger] got[i]).0 == (
    #[trigger] sent[i]).0 && bytes_view(got[i].1) == bytes_view(sent[i].1) by {
        assert(same_write(ws[i], sent[i]));
        assert(same_write(ws[i], got[i]));
    }
}

/// The text without slashes at its end.
pub open spec fn without_slashes(s: Seq<char>) -> Seq<char>
    decreases s.len(),
{
    if s.len() > 0 && s.last() == '/' {
        without_slashes(s.drop_last())
    } else {
        s
    }
}

/// The address as the start of a URL.
pub open spec fn base_url(addr: Seq<char>) -> Seq<char> {
    let t = without_slashes(addr);
    if stripped_prefix(t, "http://"@) is Some || stripped_prefix(t, "https://"@) is Some {
        t
    } else {
        "http://"@ + t
    }
}

/// Turns an address into the start of a URL: slashes at its end go, and without
/// a scheme it gets `http://`.
pub fn normalize_base_url(addr: &str) -> (r: String)
    ensures
        r@ == base_url(addr@),
{
    let mut n: usize = addr.unicode_len();
    assert(addr@.take(n as int) =~= addr@);
    while n > 0 && addr.get_char(n - 1) == '/'
        invariant
            n <= addr@.len(),
            without_slashes(addr@) == without_slashes(addr@.take(n as int)),
        decreases n,
    {
        assert(addr@.take(n as int).last() == '/');
        assert(addr@.take(n as int).drop_last() =~= addr@.take(n - 1));
        n -= 1;
    }
    let t = addr.substring_char(0, n);
    proof {
        assert(t@ =~= addr@.take(n as int));
        if n > 0 {
            assert(addr@.take(n as int).last() == addr@[n - 1]);
        }
        assert(without_slashes(addr@) == t@);
    }
    if strip_prefix(t, "http://").is_some() || strip_prefix(t, "https://").is_some() {
        return String::from_str(t);
    }
    join2("http://", t)
}

/// Where the durable LSN is asked for.
pub fn durable_lsn_url(base: &str) -> (r: String)
    ensures
        r@ == base@ + "/v1/storage/durable_lsn"@,
{
    join2(base, "/v1/storage/durable_lsn")
}

/// Where page images are appended.
pub fn append_txn_batch_url(base: &str) -> (r: String)
    ensures
        r@ == base@ + "/v1/storage/append_txn_batch"@,
{
    join2(base, "/v1/storage/append_txn_batch")
}

/// Where a page is asked for.
pub fn page_url(base: &str, page_id: PageId) -> (r: String)
    ensures
        r@ == base@ + "/v1/storage/page/"@ + dec(page_id as int),
{
    let s = join2(base, "/v1/storage/page/");
    join_num(s.as_str(), page_id)
}

/// Where pages are scanned.
pub fn scan_pages_url(base: &str) -> (r: String)
    ensures
        r@ == base@ + "/v1/storage/scan_pages"@,
{
    join2(base, "/v1/storage/scan_pages")
}

/// Fails unless the status code says success; `text` is the status as text.
pub fn ensure_http_success(status: u16, text: &str) -> (r: Result<()>)
    ensures
        match r {
            Ok(_) => 200 <= status < 300,
            Err(e) => !(200 <= status < 300) && is_io_error(
                e,
                IoErrorKind::Other,
                "http status error: "@ + text@,
            ),
        },
{
    if 200 <= status && status < 300 {
        return Ok(());
    }
    let m = join2("http status error: ", text);
    Err(io_error(IoErrorKind::Other, m.as_str()))
}

/// An address becomes the start of a URL: no slash is left at its end, and where it names
/// no scheme it gets one.
pub proof fn law_base_url(addr: Seq<char>, slashes: nat)
    requires
        addr.len() > 0 ==> addr.last() != '/',
    ensures
        ({
            let full = addr + Seq::new(slashes, |i: int| '/');
            base_url(full) == (if stripped_prefix(addr, "http://"@) is Some || stripped_prefix(
                addr,
                "https://"@,
            ) is Some {
                addr
            } else {
                "http://"@ + addr
            })
        }),
{
    lemma_slashes(addr, slashes);
}

proof fn lemma_slashes(addr: Seq<char>, slashes: nat)
    requires
        addr.len() > 0 ==> addr.last() != '/',
    ensures
        without_slashes(addr + Seq::new(slashes, |i: int| '/')) == addr,
    decreases slashes,
{
    let full = addr + Seq::new(slashes, |i: int| '/');
    if slashes > 0 {
        let less = (slashes - 1) as nat;
        lemma_slashes(addr, less);
        assert(full.drop_last() =~= addr + Seq::new(less, |i: int| '/'));
        assert(full.last() == '/');
    } else {
        assert(full =~= addr);
    }
}

} // verus!
