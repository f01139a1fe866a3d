//! The page that names the root of the tree.
//!
//! ```text
//! 0..8  magic   8..12  version   12..20  root page id
//! ```
use vstd::prelude::*;

use crate::common::{bytes_view, io_error, is_io_error, page_from_vec, Error, IoErrorKind, Page,
    PageId, Result, PAGE_SIZE};
use crate::layout::{bytes_eq, get_u32, get_u64, lemma_field4, lemma_field8, le4, le8, set_bytes, set_u32, set_u64, splice, u32_at,
    u64_at, zeroed, zeros};
use crate::text::{dec, join_num};

verus! {

pub const BTREE_META_PAGE_ID: PageId = 8;

pub const BTREE_META_VERSION: u32 = 1;

/// Which page is the root of the tree.
#[derive(Debug, Clone, Copy, PartialEq, Eq, Structural)]
pub struct BtreeMeta {
    pub root_page_id: PageId,
}

/// `SKBTREE` and a zero byte.
pub open spec fn btree_magic() -> Seq<u8> {
    seq![83u8, 75, 66, 84, 82, 69, 69, 0]
}

/// The bytes of the page.
pub open spec fn btree_meta_bytes(root: int) -> Seq<u8> {
    splice(
        splice(
            splice(zeros(PAGE_SIZE as int), 0, btree_magic()),
            8,
            le4(BTREE_META_VERSION as int),
        ),
        12,
        le8(root),
    )
}

impl BtreeMeta {
    pub fn encode(&self) -> (r: Page)
        ensures
            bytes_view(r) == btree_meta_bytes(self.root_page_id as int),
    {
        let mut p: Vec<u8> = zeroed(PAGE_SIZE);
        let magic: [u8; 8] = [83u8, 75, 66, 84, 82, 69, 69, 0];
        assert(magic@ =~= btree_magic());
        set_bytes(&mut p, 0, magic.as_slice());
        set_u32(&mut p, 8, BTREE_META_VERSION);
        set_u64(&mut p, 12, self.root_page_id);
        page_from_vec(p)
    }

    pub fn decode(page: &[u8]) -> (r: Result<BtreeMeta>)
        ensures
            ({
                let s = page@;
                if s.len() != PAGE_SIZE {
                    r matches Err(Error::InvalidPageSize(a, b)) && a == s.len() && b == PAGE_SIZE
                } else if s.subrange(0, 8) != btree_magic() {
                    r matches Err(e) && is_io_error(
                        e,
                        IoErrorKind::InvalidData,
                        "invalid btree meta magic"@,
                    )
                } else if u32_at(s, 8) != BTREE_META_VERSION {
                    r matches Err(e) && is_io_error(
                        e,
                        IoErrorKind::InvalidData,
                        "unsupported btree meta version: "@ + dec(u32_at(s, 8)),
                    )
                } else {
                    r matches Ok(m) && m.root_page_id == u64_at(s, 12)
                }
            }),
    {
        if page.len() != PAGE_SIZE {
            return Err(Error::InvalidPageSize(page.len(), PAGE_SIZE));
        }
        let magic: [u8; 8] = [83u8, 75, 66, 84, 82, 69, 69, 0];
        assert(magic@ =~= btree_magic());
        if !bytes_eq(vstd::slice::slice_subrange(page, 0, 8), magic.as_slice()) {
            return Err(io_error(IoErrorKind::InvalidData, "invalid btree meta magic"));
        }
        let ver: u32 = get_u32(page, 8);
        if ver != BTREE_META_VERSION {
            let m = join_num("unsupported btree meta version: ", ver as u64);
            return Err(io_error(IoErrorKind::InvalidData, m.as_str()));
        }
        Ok(BtreeMeta { root_page_id: get_u64(page, 12) })
    }
}

/// A page that was encoded is decoded to the same root.
pub proof fn law_btree_meta_round_trip(root: u64)
    ensures
        ({
            let s = btree_meta_bytes(root as int);
            &&& s.len() == PAGE_SIZE
            &&& s.subrange(0, 8) == btree_magic()
            &&& u32_at(s, 8) == BTREE_META_VERSION
            &&& u64_at(s, 12) == root
            &&& s[0] == btree_magic()[0]
        }),
{
    let s = btree_meta_bytes(root as int);
    assert(s.subrange(0, 8)[0] == s[0]);
    assert(s.subrange(0, 8) =~= btree_magic());
    assert(s.subrange(8, 12) =~= le4(BTREE_META_VERSION as int));
    lemma_field4(s, 8, BTREE_META_VERSION as int);
    assert(s.subrange(12, 20) =~= le8(root as int));
    lemma_field8(s, 12, root as int);
}

} // verus!
