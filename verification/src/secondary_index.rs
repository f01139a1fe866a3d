//! Secondary indexes: which rows carried a given slice of their value, and when.
use vstd::prelude::*;

use vstd::string::*;
use vstd::utf8::*;

use crate::common::{io_error, is_io_error, IoErrorKind, Result, KEY_SIZE, VALUE_SIZE};
use crate::key_order::{bytes_lt, lemma_lex_asymmetric, lemma_lex_irreflexive, lemma_lex_total,
    lemma_lex_transitive, lex_le, lex_lt};
use crate::layout::{bytes_eq, copy_bytes, copy_range};
use crate::text::{dec, join2, put_num, str_eq};

verus! {

/// What an index is built from: `value_len` bytes of the row value from
/// `value_offset` on.
#[derive(Clone, Copy, Debug, PartialEq, Eq, Structural)]
pub enum SecondaryIndexKind {
    Btree { value_offset: usize, value_len: usize },
}

#[derive(Clone, Debug, PartialEq, Eq)]
pub struct SecondaryIndexDefinition {
    pub name: String,
    pub kind: SecondaryIndexKind,
}

/// A row entering or leaving the posting list of a secondary key.
#[derive(Clone, Debug, PartialEq, Eq)]
pub struct SecondaryIndexMutation {
    pub index_name: String,
    pub secondary_key: Vec<u8>,
    pub primary_key: [u8; KEY_SIZE],
    pub present: bool,
}

/// Whether a row belongs to a posting list from `commit_lsn` on.
#[derive(Clone, Copy, Debug, PartialEq, Eq, Structural)]
pub struct PostingVersion {
    pub commit_lsn: u64,
    pub present: bool,
}

/// The membership history of one row under one secondary key.
#[derive(Debug)]
pub struct Posting {
    pub secondary_key: Vec<u8>,
    pub primary_key: [u8; KEY_SIZE],
    pub versions: Vec<PostingVersion>,
}

/// The postings of an index in primary key order; no pair of keys occurs twice.
#[derive(Debug)]
pub struct SecondaryBtreeState {
    pub postings: Vec<Posting>,
}

#[derive(Debug)]
pub struct SecondaryIndexState {
    pub def: SecondaryIndexDefinition,
    pub btree: SecondaryBtreeState,
}

/// Indexes in the order of their names; no name occurs twice.
#[derive(Debug)]
pub struct SecondaryIndexManager {
    pub indexes: Vec<SecondaryIndexState>,
}

/// What a definition says.
#[verifier::ext_equal]
pub struct DefFields {
    pub name: Seq<char>,
    pub value_offset: usize,
    pub value_len: usize,
}

/// What a mutation says.
#[verifier::ext_equal]
pub struct MutationFields {
    pub index_name: Seq<char>,
    pub secondary_key: Seq<u8>,
    pub primary_key: Seq<u8>,
    pub present: bool,
}

impl View for SecondaryIndexDefinition {
    type V = DefFields;

    open spec fn view(&self) -> DefFields {
        match self.kind {
            SecondaryIndexKind::Btree { value_offset, value_len } => DefFields {
                name: self.name@,
                value_offset,
                value_len,
            },
        }
    }
}

impl View for SecondaryIndexMutation {
    type V = MutationFields;

    open spec fn view(&self) -> MutationFields {
        MutationFields {
            index_name: self.index_name@,
            secondary_key: self.secondary_key@,
            primary_key: self.primary_key@,
            present: self.present,
        }
    }
}

pub open spec fn defs_view(ds: Seq<SecondaryIndexDefinition>) -> Seq<DefFields> {
    Seq::new(ds.len(), |i: int| ds[i]@)
}

pub open spec fn mutations_view(ms: Seq<SecondaryIndexMutation>) -> Seq<MutationFields> {
    Seq::new(ms.len(), |i: int| ms[i]@)
}

/// The slice lies inside a row value and is not empty.
pub open spec fn range_ok(value_offset: int, value_len: int) -> bool {
    0 < value_len && value_offset < VALUE_SIZE && value_offset + value_len <= VALUE_SIZE
}

pub open spec fn range_message(value_offset: int, value_len: int) -> Seq<char> {
    "secondary index range out of bounds: offset="@ + dec(value_offset) + " len="@ + dec(value_len)
        + " value_size="@ + dec(VALUE_SIZE as int)
}

pub(crate) fn range_text(value_offset: usize, value_len: usize) -> (r: String)
    ensures
        r@ == range_message(value_offset as int, value_len as int),
{
    let mut s = String::new();
    put_num(&mut s, "secondary index range out of bounds: offset=", value_offset as u64);
    put_num(&mut s, " len=", value_len as u64);
    put_num(&mut s, " value_size=", VALUE_SIZE as u64);
    assert(s@ =~= range_message(value_offset as int, value_len as int));
    s
}

/// The names stand in the byte order of their UTF-8 text.
pub open spec fn name_lt(a: Seq<char>, b: Seq<char>) -> bool {
    lex_lt(encode_utf8(a), encode_utf8(b))
}

pub open spec fn names_ascend(ds: Seq<DefFields>) -> bool {
    forall|i: int, j: int|
        0 <= i < j < ds.len() ==> name_lt((#[trigger] ds[i]).name, (#[trigger] ds[j]).name)
}

fn name_before(a: &str, b: &str) -> (r: bool)
    ensures
        r == name_lt(a@, b@),
{
    bytes_lt(a.as_bytes(), b.as_bytes())
}

proof fn lemma_name_total(a: Seq<char>, b: Seq<char>)
    ensures
        a == b || name_lt(a, b) || name_lt(b, a),
        !name_lt(a, a),
{
    lemma_lex_total(encode_utf8(a), encode_utf8(b));
    lemma_lex_irreflexive(encode_utf8(a));
    encode_utf8_decode_utf8(a);
    encode_utf8_decode_utf8(b);
}

/// The posting of a pair of keys.
pub open spec fn is_posting(p: Posting, sk: Seq<u8>, pk: Seq<u8>) -> bool {
    p.secondary_key@ == sk && p.primary_key@ == pk
}

pub open spec fn has_posting(ps: Seq<Posting>, sk: Seq<u8>, pk: Seq<u8>) -> bool {
    exists|i: int| 0 <= i < ps.len() && is_posting(#[trigger] ps[i], sk, pk)
}

pub open spec fn posting_history(ps: Seq<Posting>, sk: Seq<u8>, pk: Seq<u8>) -> Seq<
    PostingVersion,
> {
    if has_posting(ps, sk, pk) {
        ps[choose|i: int| 0 <= i < ps.len() && is_posting(#[trigger] ps[i], sk, pk)].versions@
    } else {
        seq![]
    }
}

pub open spec fn postings_wf(ps: Seq<Posting>) -> bool {
    &&& forall|i: int, j: int|
        0 <= i < j < ps.len() ==> lex_le(
            (#[trigger] ps[i]).primary_key@,
            (#[trigger] ps[j]).primary_key@,
        )
    &&& forall|i: int, j: int|
        0 <= i < ps.len() && 0 <= j < ps.len() && i != j ==> !is_posting(
            #[trigger] ps[i],
            (#[trigger] ps[j]).secondary_key@,
            ps[j].primary_key@,
        )
}

proof fn lemma_posting(ps: Seq<Posting>, i: int)
    requires
        postings_wf(ps),
        0 <= i < ps.len(),
    ensures
        posting_history(ps, ps[i].secondary_key@, ps[i].primary_key@) == ps[i].versions@,
{
    let sk = ps[i].secondary_key@;
    let pk = ps[i].primary_key@;
    assert(is_posting(ps[i], sk, pk));
    let j = choose|j: int| 0 <= j < ps.len() && is_posting(#[trigger] ps[j], sk, pk);
    assert(i == j);
}

/// A history after a row was put in or taken out at `lsn`: a second change of
/// one commit replaces the first.
pub open spec fn record_version(h: Seq<PostingVersion>, lsn: u64, present: bool) -> Seq<
    PostingVersion,
> {
    let v = PostingVersion { commit_lsn: lsn, present };
    if h.len() > 0 && h.last().commit_lsn == lsn {
        h.update(h.len() - 1, v)
    } else {
        h.push(v)
    }
}

/// The history of one pair of keys in one index after the first `n` mutations
/// of a commit.
pub open spec fn history_after(
    h: Seq<PostingVersion>,
    name: Seq<char>,
    sk: Seq<u8>,
    pk: Seq<u8>,
    lsn: u64,
    ms: Seq<MutationFields>,
    n: int,
) -> Seq<PostingVersion>
    decreases n,
{
    if n <= 0 {
        h
    } else {
        let prev = history_after(h, name, sk, pk, lsn, ms, n - 1);
        let m = ms[n - 1];
        if m.index_name == name && m.secondary_key == sk && m.primary_key == pk {
            record_version(prev, lsn, m.present)
        } else {
            prev
        }
    }
}

/// Versions up to the first one later than `read_lsn`.
pub open spec fn seen_versions(h: Seq<PostingVersion>, read_lsn: u64) -> int
    decreases h.len(),
{
    if h.len() == 0 || h[0].commit_lsn > read_lsn {
        0
    } else {
        1 + seen_versions(h.drop_first(), read_lsn)
    }
}

/// Whether the row belongs to the posting list in a snapshot.
pub open spec fn member_at(h: Seq<PostingVersion>, read_lsn: u64) -> bool {
    let n = seen_versions(h, read_lsn);
    n > 0 && h[n - 1].present
}

/// The key that an index gives a row value.
pub open spec fn index_key(d: DefFields, value: Option<Seq<u8>>) -> Option<Seq<u8>> {
    match value {
        Some(v) => Some(v.subrange(d.value_offset as int, d.value_offset + d.value_len)),
        None => None,
    }
}

/// What one index has to change when a row's value changes.
pub open spec fn index_mutations(
    d: DefFields,
    pk: Seq<u8>,
    old_value: Option<Seq<u8>>,
    new_value: Option<Seq<u8>>,
) -> Seq<MutationFields> {
    let before = index_key(d, old_value);
    let after = index_key(d, new_value);
    if before == after {
        seq![]
    } else {
        let gone = match before {
            Some(k) => seq![
                MutationFields {
                    index_name: d.name,
                    secondary_key: k,
                    primary_key: pk,
                    present: false,
                },
            ],
            None => seq![],
        };
        let come = match after {
            Some(k) => seq![
                MutationFields {
                    index_name: d.name,
                    secondary_key: k,
                    primary_key: pk,
                    present: true,
                },
            ],
            None => seq![],
        };
        gone + come
    }
}

/// What the first `n` indexes have to change when a row's value changes.
pub open spec fn planned_mutations(
    ds: Seq<DefFields>,
    n: int,
    pk: Seq<u8>,
    old_value: Option<Seq<u8>>,
    new_value: Option<Seq<u8>>,
) -> Seq<MutationFields>
    decreases n,
{
    if n <= 0 {
        seq![]
    } else {
        planned_mutations(ds, n - 1, pk, old_value, new_value) + index_mutations(
            ds[n - 1],
            pk,
            old_value,
            new_value,
        )
    }
}

/// Why the definition at `i` cannot stand in a list of definitions.
pub open spec fn def_fault(ds: Seq<DefFields>, i: int) -> Option<Seq<char>> {
    if ds[i].name.len() == 0 {
        Some("index name must be non-empty"@)
    } else if exists|j: int| 0 <= j < i && (#[trigger] ds[j]).name == ds[i].name {
        Some("duplicate index name: "@ + ds[i].name)
    } else if !range_ok(ds[i].value_offset as int, ds[i].value_len as int) {
        Some(range_message(ds[i].value_offset as int, ds[i].value_len as int))
    } else {
        None
    }
}

/// The definition at `i` is the first that cannot stand in the list.
pub open spec fn first_fault(ds: Seq<DefFields>, i: int) -> bool {
    &&& 0 <= i < ds.len()
    &&& def_fault(ds, i) is Some
    &&& forall|j: int| 0 <= j < i ==> #[trigger] def_fault(ds, j) is None
}

impl SecondaryIndexManager {
    /// The definitions, in the order of their names.
    pub open spec fn defs(&self) -> Seq<DefFields> {
        Seq::new(self.indexes@.len(), |i: int| self.indexes@[i].def@)
    }

    pub open spec fn wf(&self) -> bool {
        &&& names_ascend(self.defs())
        &&& forall|i: int|
            0 <= i < self.indexes@.len() ==> {
                let s = #[trigger] self.indexes@[i];
                &&& s.def@.name.len() > 0
                &&& range_ok(s.def@.value_offset as int, s.def@.value_len as int)
                &&& postings_wf(s.btree.postings@)
            }
    }

    pub open spec fn has_index(&self, name: Seq<char>) -> bool {
        exists|i: int| 0 <= i < self.indexes@.len() && (#[trigger] self.indexes@[i]).def@.name == name
    }

    /// The membership history of a row under a secondary key of an index.
    pub open spec fn history(&self, name: Seq<char>, sk: Seq<u8>, pk: Seq<u8>) -> Seq<
        PostingVersion,
    > {
        if self.has_index(name) {
            posting_history(
                self.indexes@[choose|i: int|
                    0 <= i < self.indexes@.len() && (#[trigger] self.indexes@[i]).def@.name
                        == name].btree.postings@,
                sk,
                pk,
            )
        } else {
            seq![]
        }
    }

    proof fn lemma_index(&self, i: int)
        requires
            self.wf(),
            0 <= i < self.indexes@.len(),
        ensures
            self.has_index(self.indexes@[i].def@.name),
            forall|sk: Seq<u8>, pk: Seq<u8>| #[trigger]
                self.history(self.indexes@[i].def@.name, sk, pk) == posting_history(
                    self.indexes@[i].btree.postings@,
                    sk,
                    pk,
                ),
            forall|j: int|
                0 <= j < self.indexes@.len() && j != i ==> (#[trigger] self.indexes@[j]).def@.name
                    != self.indexes@[i].def@.name,
    {
        let name = self.indexes@[i].def@.name;
        assert(self.indexes@[i].def@.name == name);
        assert forall|j: int| 0 <= j < self.indexes@.len() && j != i implies (
        #[trigger] self.indexes@[j]).def@.name != name by {
            lemma_name_total(name, name);
            assert(self.defs()[i].name == name);
            assert(self.defs()[j].name == self.indexes@[j].def@.name);
            if j < i {
                assert(name_lt(self.defs()[j].name, self.defs()[i].name));
            } else {
                assert(name_lt(self.defs()[i].name, self.defs()[j].name));
            }
        }
    }

    fn find(&self, name: &str) -> (r: Option<usize>)
        ensures
            match r {
                Some(i) => i < self.indexes@.len() && self.indexes@[i as int].def@.name == name@,
                None => !self.has_index(name@),
            },
    {
        let n: usize = self.indexes.len();
        let mut i: usize = 0;
        while i < n
            invariant
                n == self.indexes@.len(),
                i <= n,
                forall|j: int| 0 <= j < i ==> (#[trigger] self.indexes@[j]).def@.name != name@,
            decreases n - i,
        {
            if str_eq(self.indexes[i].def.name.as_str(), name) {
                return Some(i);
            }
            i += 1;
        }
        None
    }

    /// A manager without indexes.
    pub fn new() -> (r: SecondaryIndexManager)
        ensures
            r.wf(),
            r.defs() == Seq::<DefFields>::empty(),
            forall|n: Seq<char>, sk: Seq<u8>, pk: Seq<u8>| #[trigger] r.history(n, sk, pk).len() == 0,
    {
        let r = SecondaryIndexManager { indexes: Vec::new() };
        assert(r.defs() =~= Seq::<DefFields>::empty());
        r
    }

    /// Takes in a definition whose name is new.
    fn insert_def(&mut self, def: SecondaryIndexDefinition)
        requires
            old(self).wf(),
            def@.name.len() > 0,
            range_ok(def@.value_offset as int, def@.value_len as int),
            !old(self).has_index(def@.name),
        ensures
            final(self).wf(),
            exists|p: int|
                0 <= p <= old(self).defs().len() && final(self).defs() == #[trigger] old(self).defs().insert(p, def@),
            forall|n: Seq<char>, sk: Seq<u8>, pk: Seq<u8>| #[trigger]
                final(self).history(n, sk, pk) == old(self).history(n, sk, pk),
            forall|n: Seq<char>| #[trigger]
                final(self).has_index(n) == (old(self).has_index(n) || n == def@.name),
    {
        let ghost a = *self;
        let ghost d = def@;
        let n: usize = self.indexes.len();
        let mut i: usize = 0;
        while i < n && name_before(self.indexes[i].def.name.as_str(), def.name.as_str())
            invariant
                *self == a,
                n == a.indexes@.len(),
                i <= n,
                d == def@,
                forall|j: int| 0 <= j < i ==> name_lt((#[trigger] a.indexes@[j]).def@.name, d.name),
            decreases n - i,
        {
            i += 1;
        }
        let state = SecondaryIndexState {
            def,
            btree: SecondaryBtreeState { postings: Vec::new() },
        };
        self.indexes.insert(i, state);
        proof {
            let b = *self;
            assert(b.defs() =~= a.defs().insert(i as int, d));
            if i < n {
                lemma_name_total(a.indexes@[i as int].def@.name, d.name);
                assert(a.indexes@[i as int].def@.name != d.name);
                assert(name_lt(d.name, a.defs()[i as int].name));
            }
            assert forall|x: int, y: int| 0 <= x < y < b.defs().len() implies name_lt(
                (#[trigger] b.defs()[x]).name,
                (#[trigger] b.defs()[y]).name,
            ) by {
                if y < i {
                    assert(b.defs()[x] == a.defs()[x] && b.defs()[y] == a.defs()[y]);
                } else if y == i {
                    assert(b.defs()[x] == a.indexes@[x].def@);
                } else if x < i {
                    assert(b.defs()[x] == a.defs()[x] && b.defs()[y] == a.defs()[y - 1]);
                } else if x == i {
                    assert(b.defs()[y] == a.defs()[y - 1]);
                    if y - 1 > i {
                        assert(name_lt(a.defs()[i as int].name, a.defs()[y - 1].name));
                        lemma_lex_transitive(
                            encode_utf8(d.name),
                            encode_utf8(a.defs()[i as int].name),
                            encode_utf8(a.defs()[y - 1].name),
                        );
                    }
                } else {
                    assert(b.defs()[x] == a.defs()[x - 1] && b.defs()[y] == a.defs()[y - 1]);
                }
            }
            assert forall|x: int| 0 <= x < b.indexes@.len() implies {
                let s = #[trigger] b.indexes@[x];
                &&& s.def@.name.len() > 0
                &&& range_ok(s.def@.value_offset as int, s.def@.value_len as int)
                &&& postings_wf(s.btree.postings@)
            } by {
                if x < i {
                    assert(b.indexes@[x] == a.indexes@[x]);
                } else if x > i {
                    assert(b.indexes@[x] == a.indexes@[x - 1]);
                }
            }
            assert forall|m: Seq<char>| #[trigger] b.has_index(m) == (a.has_index(m) || m == d.name) by {
                if a.has_index(m) {
                    let x = choose|x: int|
                        0 <= x < a.indexes@.len() && (#[trigger] a.indexes@[x]).def@.name == m;
                    if x < i {
                        assert(b.indexes@[x].def@.name == m);
                    } else {
                        assert(b.indexes@[x + 1].def@.name == m);
                    }
                }
                if m == d.name {
                    assert(b.indexes@[i as int].def@.name == m);
                }
                if b.has_index(m) {
                    let x = choose|x: int|
                        0 <= x < b.indexes@.len() && (#[trigger] b.indexes@[x]).def@.name == m;
                    if x < i {
                        assert(a.indexes@[x].def@.name == m);
                    } else if x > i {
                        assert(a.indexes@[x - 1].def@.name == m);
                    }
                }
            }
            assert forall|m: Seq<char>, sk: Seq<u8>, pk: Seq<u8>| #[trigger]
                b.history(m, sk, pk) == a.history(m, sk, pk) by {
                if b.has_index(m) {
                    let x = choose|x: int|
                        0 <= x < b.indexes@.len() && (#[trigger] b.indexes@[x]).def@.name == m;
                    b.lemma_index(x);
                    if x == i {
                        assert(b.history(m, sk, pk) =~= a.history(m, sk, pk));
                    } else if x < i {
                        a.lemma_index(x);
                    } else {
                        a.lemma_index(x - 1);
                    }
                }
            }
        }
    }

    /// Replaces all indexes by empty ones of the given definitions.
    pub fn replace_definitions(&mut self, defs: Vec<SecondaryIndexDefinition>) -> (r: Result<()>)
        requires
            old(self).wf(),
        ensures
            final(self).wf(),
            r is Ok <==> forall|i: int|
                0 <= i < defs@.len() ==> #[trigger] def_fault(defs_view(defs@), i) is None,
            r is Ok ==> {
                &&& final(self).defs().len() == defs@.len()
                &&& forall|d: DefFields| #[trigger]
                    final(self).defs().contains(d) <==> defs_view(defs@).contains(d)
                &&& forall|n: Seq<char>, sk: Seq<u8>, pk: Seq<u8>| #[trigger]
                    final(self).history(n, sk, pk).len() == 0
            },
            r matches Err(e) ==> *final(self) == *old(self) && exists|i: int| #[trigger]
                first_fault(defs_view(defs@), i) && is_io_error(
                    e,
                    IoErrorKind::InvalidInput,
                    def_fault(defs_view(defs@), i)->0,
                ),
    {
        let ghost ds = defs_view(defs@);
        let mut next = SecondaryIndexManager::new();
        let n: usize = defs.len();
        let mut i: usize = 0;
        while i < n
            invariant
                *self == *old(self),
                old(self).wf(),
                n == defs@.len(),
                ds == defs_view(defs@),
                i <= n,
                next.wf(),
                next.defs().len() == i,
                forall|j: int| 0 <= j < i ==> #[trigger] def_fault(ds, j) is None,
                forall|d: DefFields| #[trigger]
                    next.defs().contains(d) <==> ds.take(i as int).contains(d),
                forall|m: Seq<char>| #[trigger]
                    next.has_index(m) <==> exists|j: int| 0 <= j < i && (#[trigger] ds[j]).name == m,
                forall|m: Seq<char>, sk: Seq<u8>, pk: Seq<u8>| #[trigger]
                    next.history(m, sk, pk).len() == 0,
            decreases n - i,
        {
            let def = &defs[i];
            assert(ds[i as int] == def@);
            let name = def.name.as_str();
            if name.is_empty() {
                assert(first_fault(ds, i as int));
                return Err(io_error(IoErrorKind::InvalidInput, "index name must be non-empty"));
            }
            if next.find(name).is_some() {
                assert(next.has_index(name@));
                assert(first_fault(ds, i as int));
                let msg = join2("duplicate index name: ", name);
                return Err(io_error(IoErrorKind::InvalidInput, msg.as_str()));
            }
            let SecondaryIndexKind::Btree { value_offset, value_len } = def.kind;
            if value_len == 0 || value_offset >= VALUE_SIZE || value_len > VALUE_SIZE
                - value_offset {
                assert(first_fault(ds, i as int));
                let msg = range_text(value_offset, value_len);
                return Err(io_error(IoErrorKind::InvalidInput, msg.as_str()));
            }
            let ghost before = next.defs();
            next.insert_def(copy_def(def));
            proof {
                let d = ds[i as int];
                let p = choose|p: int|
                    0 <= p <= before.len() && next.defs() == #[trigger] before.insert(p, d);
                assert forall|x: DefFields| #[trigger]
                    next.defs().contains(x) <==> ds.take(i + 1).contains(x) by {
                    lemma_insert_contains(before, p, d, x);
                    lemma_take_contains(ds, i as int, x);
                    assert(before.contains(x) <==> ds.take(i as int).contains(x));
                }
                assert forall|m: Seq<char>| #[trigger]
                    next.has_index(m) <==> exists|j: int|
                    0 <= j < i + 1 && (#[trigger] ds[j]).name == m by {
                    if m == d.name {
                        assert(ds[i as int].name == m);
                    }
                }
            }
            i += 1;
        }
        assert(ds.take(n as int) =~= ds);
        *self = next;
        Ok(())
    }

    /// Adds an empty index.
    pub fn create_btree_index(
        &mut self,
        name: &str,
        value_offset: usize,
        value_len: usize,
    ) -> (r: Result<()>)
        requires
            old(self).wf(),
        ensures
            final(self).wf(),
            r is Ok <==> name@.len() > 0 && range_ok(value_offset as int, value_len as int) && !old(self).has_index(name@),
            r is Ok ==> {
                &&& exists|p: int|
                    0 <= p <= old(self).defs().len() && final(self).defs() == #[trigger] old(self).defs().insert(p, (DefFields { name: name@, value_offset, value_len }))
                &&& final(self).has_index(name@)
                &&& forall|n: Seq<char>, sk: Seq<u8>, pk: Seq<u8>| #[trigger]
                    final(self).history(n, sk, pk) == old(self).history(n, sk, pk)
            },
            r matches Err(e) ==> *final(self) == *old(self) && if name@.len() == 0 {
                is_io_error(e, IoErrorKind::InvalidInput, "index name must be non-empty"@)
            } else if value_len == 0 {
                is_io_error(e, IoErrorKind::InvalidInput, "value_len must be > 0"@)
            } else if !range_ok(value_offset as int, value_len as int) {
                is_io_error(
                    e,
                    IoErrorKind::InvalidInput,
                    range_message(value_offset as int, value_len as int),
                )
            } else {
                is_io_error(
                    e,
                    IoErrorKind::AlreadyExists,
                    "secondary index already exists: "@ + name@,
                )
            },
    {
        if name.is_empty() {
            return Err(io_error(IoErrorKind::InvalidInput, "index name must be non-empty"));
        }
        if value_len == 0 {
            return Err(io_error(IoErrorKind::InvalidInput, "value_len must be > 0"));
        }
        if value_offset >= VALUE_SIZE || value_len > VALUE_SIZE - value_offset {
            let msg = range_text(value_offset, value_len);
            return Err(io_error(IoErrorKind::InvalidInput, msg.as_str()));
        }
        if self.find(name).is_some() {
            assert(self.has_index(name@));
            let msg = join2("secondary index already exists: ", name);
            return Err(io_error(IoErrorKind::AlreadyExists, msg.as_str()));
        }
        let def = SecondaryIndexDefinition {
            name: String::from_str(name),
            kind: SecondaryIndexKind::Btree { value_offset, value_len },
        };
        self.insert_def(def);
        Ok(())
    }

    /// Removes an index and says whether it was there.
    pub fn drop_index(&mut self, name: &str) -> (r: bool)
        requires
            old(self).wf(),
        ensures
            final(self).wf(),
            r == old(self).has_index(name@),
            !r ==> *final(self) == *old(self),
            r ==> exists|p: int|
                0 <= p < old(self).defs().len() && old(self).defs()[p].name == name@ && final(self).defs() == #[trigger] old(self).defs().remove(p),
            !final(self).has_index(name@),
            forall|n: Seq<char>, sk: Seq<u8>, pk: Seq<u8>|
                n != name@ ==> #[trigger] final(self).history(n, sk, pk) == old(self).history(
                    n,
                    sk,
                    pk,
                ),
    {
        let ghost a = *self;
        match self.find(name) {
            None => false,
            Some(i) => {
                let _ = self.indexes.remove(i);
                proof {
                    let b = *self;
                    let k = i as int;
                    a.lemma_index(k);
                    assert(b.defs() =~= a.defs().remove(k));
                    assert(a.defs()[k].name == name@);
                    assert forall|x: int, y: int| 0 <= x < y < b.defs().len() implies name_lt(
                        (#[trigger] b.defs()[x]).name,
                        (#[trigger] b.defs()[y]).name,
                    ) by {
                        let x2 = if x < k { x } else { x + 1 };
                        let y2 = if y < k { y } else { y + 1 };
                        assert(b.defs()[x] == a.defs()[x2] && b.defs()[y] == a.defs()[y2]);
                    }
                    assert forall|x: int| 0 <= x < b.indexes@.len() implies {
                        let s = #[trigger] b.indexes@[x];
                        &&& s.def@.name.len() > 0
                        &&& range_ok(s.def@.value_offset as int, s.def@.value_len as int)
                        &&& postings_wf(s.btree.postings@)
                        &&& s.def@.name != name@
                    } by {
                        let x2 = if x < k { x } else { x + 1 };
                        assert(b.indexes@[x] == a.indexes@[x2]);
                    }
                    assert forall|m: Seq<char>, sk: Seq<u8>, pk: Seq<u8>|
                        m != name@ implies #[trigger] b.history(m, sk, pk) == a.history(
                        m,
                        sk,
                        pk,
                    ) by {
                        if b.has_index(m) {
                            let x = choose|x: int|
                                0 <= x < b.indexes@.len() && (#[trigger] b.indexes@[x]).def@.name
                                    == m;
                            b.lemma_index(x);
                            let x2 = if x < k { x } else { x + 1 };
                            assert(b.indexes@[x] == a.indexes@[x2]);
                            a.lemma_index(x2);
                        } else if a.has_index(m) {
                            let x = choose|x: int|
                                0 <= x < a.indexes@.len() && (#[trigger] a.indexes@[x]).def@.name
                                    == m;
                            let x2 = if x < k { x } else { x - 1 };
                            assert(b.indexes@[x2] == a.indexes@[x]);
                        }
                    }
                }
                true
            },
        }
    }

    /// The definitions, in the order of their names.
    pub fn list_indexes(&self) -> (r: Vec<SecondaryIndexDefinition>)
        ensures
            defs_view(r@) == self.defs(),
    {
        let mut out: Vec<SecondaryIndexDefinition> = Vec::new();
        let n: usize = self.indexes.len();
        let mut i: usize = 0;
        while i < n
            invariant
                n == self.indexes@.len(),
                i <= n,
                out@.len() == i,
                forall|j: int| 0 <= j < i ==> #[trigger] out@[j]@ == self.indexes@[j].def@,
            decreases n - i,
        {
            out.push(copy_def(&self.indexes[i].def));
            i += 1;
        }
        assert(defs_view(out@) =~= self.defs());
        out
    }

    /// What the indexes have to change when the value of a row changes.
    pub fn plan_mutations(
        &self,
        primary_key: [u8; KEY_SIZE],
        old_value: Option<&[u8; VALUE_SIZE]>,
        new_value: Option<&[u8; VALUE_SIZE]>,
    ) -> (r: Result<Vec<SecondaryIndexMutation>>)
        requires
            self.wf(),
        ensures
            r matches Ok(ms) && mutations_view(ms@) == planned_mutations(
                self.defs(),
                self.defs().len() as int,
                primary_key@,
                value_view(old_value),
                value_view(new_value),
            ),
    {
        let mut out: Vec<SecondaryIndexMutation> = Vec::new();
        let n: usize = self.indexes.len();
        let mut i: usize = 0;
        assert(mutations_view(out@) =~= seq![]);
        while i < n
            invariant
                self.wf(),
                n == self.indexes@.len(),
                i <= n,
                mutations_view(out@) == planned_mutations(
                    self.defs(),
                    i as int,
                    primary_key@,
                    value_view(old_value),
                    value_view(new_value),
                ),
            decreases n - i,
        {
            let def = &self.indexes[i].def;
            assert(self.defs()[i as int] == def@);
            let old_key = slice_of(def, old_value);
            let new_key = slice_of(def, new_value);
            push_mutations(&mut out, def, primary_key, old_value, new_value, old_key, new_key);
            i += 1;
        }
        Ok(out)
    }

    /// Takes one mutation of a commit into its index, where it is there.
    pub(crate) fn apply_one(&mut self, commit_lsn: u64, m: &SecondaryIndexMutation)
        requires
            old(self).wf(),
        ensures
            final(self).wf(),
            final(self).defs() == old(self).defs(),
            forall|n: Seq<char>| #[trigger] final(self).has_index(n) == old(self).has_index(n),
            forall|n: Seq<char>, sk: Seq<u8>, pk: Seq<u8>|
                old(self).has_index(n) ==> #[trigger] final(self).history(n, sk, pk) == {
                    if m@.index_name == n && m@.secondary_key == sk && m@.primary_key == pk {
                        record_version(old(self).history(n, sk, pk), commit_lsn, m@.present)
                    } else {
                        old(self).history(n, sk, pk)
                    }
                },
    {
        let ghost a = *self;
        match self.find(m.index_name.as_str()) {
            None => {},
            Some(i) => {
                let state = &mut self.indexes[i];
                state.btree.record(
                    m.secondary_key.as_slice(),
                    m.primary_key,
                    commit_lsn,
                    m.present,
                );
                proof {
                    let b = *self;
                    assert(b.indexes@.len() == a.indexes@.len());
                    assert forall|x: int| 0 <= x < a.indexes@.len() && x != i implies #[trigger] b.indexes@[x]
                        == a.indexes@[x] by {}
                    assert(b.indexes@[i as int].def == a.indexes@[i as int].def);
                    assert(b.defs() =~= a.defs());
                    assert forall|n: Seq<char>| #[trigger] b.has_index(n) == a.has_index(n) by {
                        if a.has_index(n) {
                            let x = choose|x: int|
                                0 <= x < a.indexes@.len() && (#[trigger] a.indexes@[x]).def@.name
                                    == n;
                            assert(b.defs()[x] == a.defs()[x]);
                            assert(b.indexes@[x].def@.name == n);
                        }
                        if b.has_index(n) {
                            let x = choose|x: int|
                                0 <= x < b.indexes@.len() && (#[trigger] b.indexes@[x]).def@.name
                                    == n;
                            assert(b.defs()[x] == a.defs()[x]);
                            assert(a.indexes@[x].def@.name == n);
                        }
                    }
                    assert(b.wf());
                    assert forall|n: Seq<char>, sk: Seq<u8>, pk: Seq<u8>| a.has_index(n) implies #[trigger] b.history(n, sk, pk)
                        == {
                        if m@.index_name == n && m@.secondary_key == sk && m@.primary_key == pk {
                            record_version(a.history(n, sk, pk), commit_lsn, m@.present)
                        } else {
                            a.history(n, sk, pk)
                        }
                    } by {
                        let x = choose|x: int|
                            0 <= x < a.indexes@.len() && (#[trigger] a.indexes@[x]).def@.name == n;
                        a.lemma_index(x);
                        a.lemma_index(i as int);
                        assert(b.defs()[x] == a.defs()[x]);
                        assert(b.indexes@[x].def@.name == n);
                        b.lemma_index(x);
                    }
                }
            },
        }
    }

    /// Takes the mutations of a commit into the indexes that are there.
    pub fn apply_commit(&mut self, commit_lsn: u64, mutations: &[SecondaryIndexMutation])
        requires
            old(self).wf(),
        ensures
            final(self).wf(),
            final(self).defs() == old(self).defs(),
            forall|n: Seq<char>| #[trigger] final(self).has_index(n) == old(self).has_index(n),
            forall|n: Seq<char>, sk: Seq<u8>, pk: Seq<u8>|
                old(self).has_index(n) ==> #[trigger] final(self).history(n, sk, pk)
                    == history_after(
                    old(self).history(n, sk, pk),
                    n,
                    sk,
                    pk,
                    commit_lsn,
                    mutations_view(mutations@),
                    mutations@.len() as int,
                ),
    {
        let ghost ms = mutations_view(mutations@);
        let len: usize = mutations.len();
        let mut i: usize = 0;
        while i < len
            invariant
                len == mutations@.len(),
                ms == mutations_view(mutations@),
                i <= len,
                self.wf(),
                self.defs() == old(self).defs(),
                forall|n: Seq<char>| #[trigger] self.has_index(n) == old(self).has_index(n),
                forall|n: Seq<char>, sk: Seq<u8>, pk: Seq<u8>|
                    old(self).has_index(n) ==> #[trigger] self.history(n, sk, pk) == history_after(
                        old(self).history(n, sk, pk),
                        n,
                        sk,
                        pk,
                        commit_lsn,
                        ms,
                        i as int,
                    ),
            decreases len - i,
        {
            let ghost before = *self;
            self.apply_one(commit_lsn, &mutations[i]);
            assert(ms[i as int] == mutations@[i as int]@);
            assert forall|n: Seq<char>, sk: Seq<u8>, pk: Seq<u8>| old(self).has_index(n) implies #[trigger] self.history(n, sk, pk)
                == history_after(
                old(self).history(n, sk, pk),
                n,
                sk,
                pk,
                commit_lsn,
                ms,
                i + 1,
            ) by {
                assert(before.has_index(n));
                assert(before.history(n, sk, pk) == history_after(
                    old(self).history(n, sk, pk),
                    n,
                    sk,
                    pk,
                    commit_lsn,
                    ms,
                    i as int,
                ));
            }
            i += 1;
        }
    }

    /// The rows that carry a secondary key in a snapshot, the first `limit` of
    /// them in key order.
    pub fn query_equal(
        &self,
        index_name: &str,
        secondary_key: &[u8],
        read_lsn: u64,
        limit: usize,
    ) -> (r: Result<Vec<[u8; KEY_SIZE]>>)
        requires
            self.wf(),
        ensures
            r is Ok <==> limit == 0 || self.has_index(index_name@),
            r matches Err(e) ==> is_io_error(
                e,
                IoErrorKind::NotFound,
                "secondary index not found: "@ + index_name@,
            ),
            r matches Ok(keys) ==> {
                &&& keys@.len() <= limit
                &&& keys_in_order(keys@)
                &&& forall|i: int|
                    0 <= i < keys@.len() ==> member_at(
                        self.history(index_name@, secondary_key@, #[trigger] keys@[i]@),
                        read_lsn,
                    )
                &&& keys@.len() < limit ==> forall|pk: Seq<u8>|
                    member_at(#[trigger] self.history(index_name@, secondary_key@, pk), read_lsn)
                        ==> exists|i: int| 0 <= i < keys@.len() && #[trigger] keys@[i]@ == pk
                &&& keys@.len() == limit && limit > 0 ==> forall|pk: Seq<u8>|
                    member_at(#[trigger] self.history(index_name@, secondary_key@, pk), read_lsn)
                        ==> lex_lt(keys@.last()@, pk) || exists|i: int|
                        0 <= i < keys@.len() && #[trigger] keys@[i]@ == pk
            },
    {
        let mut out: Vec<[u8; KEY_SIZE]> = Vec::new();
        if limit == 0 {
            return Ok(out);
        }
        let found = self.find(index_name);
        let idx: usize = match found {
            Some(i) => i,
            None => {
                let msg = join2("secondary index not found: ", index_name);
                return Err(io_error(IoErrorKind::NotFound, msg.as_str()));
            },
        };
        proof {
            self.lemma_index(idx as int);
        }
        let ps = &self.indexes[idx].btree.postings;
        let ghost sk = secondary_key@;
        let n: usize = ps.len();
        let mut i: usize = 0;
        while i < n && out.len() < limit
            invariant
                limit > 0,
                postings_wf(ps@),
                n == ps@.len(),
                i <= n,
                sk == secondary_key@,
                out@.len() <= limit,
                keys_in_order(out@),
                forall|j: int|
                    0 <= j < out@.len() ==> member_at(
                        posting_history(ps@, sk, #[trigger] out@[j]@),
                        read_lsn,
                    ),
                forall|j: int, k: int|
                    0 <= j < out@.len() && i <= k < n && is_posting(
                        ps@[k],
                        sk,
                        ps@[k].primary_key@,
                    ) ==> lex_lt(#[trigger] out@[j]@, (#[trigger] ps@[k]).primary_key@),
                out@.len() > 0 ==> forall|k: int|
                    i <= k < n ==> lex_le(out@.last()@, (#[trigger] ps@[k]).primary_key@),
                forall|k: int|
                    0 <= k < i && (#[trigger] ps@[k]).secondary_key@ == sk && member_at(
                        ps@[k].versions@,
                        read_lsn,
                    ) ==> exists|j: int|
                        0 <= j < out@.len() && #[trigger] out@[j]@ == ps@[k].primary_key@,
            decreases n - i,
        {
            let p = &ps[i];
            let ghost before = out@;
            proof {
                lemma_posting(ps@, i as int);
            }
            if bytes_eq(p.secondary_key.as_slice(), secondary_key) && visible_membership(
                p.versions.as_slice(),
                read_lsn,
            ) {
                assert(is_posting(ps@[i as int], sk, ps@[i as int].primary_key@));
                out.push(p.primary_key);
                proof {
                    assert(out@.last()@ == ps@[i as int].primary_key@);
                    assert forall|j: int, k: int|
                        0 <= j < out@.len() && i + 1 <= k < n && is_posting(
                            ps@[k],
                            sk,
                            ps@[k].primary_key@,
                        ) implies lex_lt(#[trigger] out@[j]@, (#[trigger] ps@[k]).primary_key@) by {
                        if j < before.len() {
                            assert(out@[j] == before[j]);
                            assert(lex_lt(before[j]@, ps@[k].primary_key@));
                        } else {
                            assert(out@[j]@ == ps@[i as int].primary_key@);
                            assert(ps@[k].secondary_key@ == sk);
                            assert(lex_le(ps@[i as int].primary_key@, ps@[k].primary_key@));
                            lemma_lex_total(ps@[i as int].primary_key@, ps@[k].primary_key@);
                            assert(!is_posting(
                                ps@[i as int],
                                ps@[k].secondary_key@,
                                ps@[k].primary_key@,
                            ));
                        }
                    }
                    assert forall|x: int, y: int| 0 <= x < y < out@.len() implies lex_lt(
                        #[trigger] out@[x]@,
                        #[trigger] out@[y]@,
                    ) by {
                        assert(out@[x] == before[x]);
                        if y < before.len() {
                            assert(out@[y] == before[y]);
                        }
                    }
                    assert forall|k: int|
                        0 <= k < i + 1 && (#[trigger] ps@[k]).secondary_key@ == sk && member_at(
                            ps@[k].versions@,
                            read_lsn,
                        ) implies exists|j: int|
                        0 <= j < out@.len() && #[trigger] out@[j]@ == ps@[k].primary_key@ by {
                        if k < i {
                            let j = choose|j: int|
                                0 <= j < before.len() && #[trigger] before[j]@
                                    == ps@[k].primary_key@;
                            assert(out@[j]@ == ps@[k].primary_key@);
                        } else {
                            assert(out@[before.len() as int]@ == ps@[k].primary_key@);
                        }
                    }
                }
            }
            i += 1;
        }
        proof {
            let name = index_name@;
            assert forall|pk: Seq<u8>|
                member_at(#[trigger] self.history(name, sk, pk), read_lsn) implies (out@.len()
                == limit && lex_lt(out@.last()@, pk)) || exists|j: int|
                0 <= j < out@.len() && #[trigger] out@[j]@ == pk by {
                assert(self.history(name, sk, pk) == posting_history(ps@, sk, pk));
                assert(has_posting(ps@, sk, pk));
                let k = choose|k: int| 0 <= k < ps@.len() && is_posting(#[trigger] ps@[k], sk, pk);
                lemma_posting(ps@, k);
                if k >= i {
                    assert(out@.len() == limit);
                    assert(is_posting(ps@[k], sk, ps@[k].primary_key@));
                    assert(lex_lt(out@[out@.len() - 1]@, ps@[k].primary_key@));
                }
            }
            assert forall|j: int| 0 <= j < out@.len() implies member_at(
                self.history(name, sk, #[trigger] out@[j]@),
                read_lsn,
            ) by {
                assert(self.history(name, sk, out@[j]@) == posting_history(ps@, sk, out@[j]@));
            }
        }
        Ok(out)
    }
}

impl Default for SecondaryIndexManager {
    fn default() -> (r: SecondaryIndexManager)
        ensures
            r.wf(),
            r.defs() == Seq::<DefFields>::empty(),
    {
        SecondaryIndexManager::new()
    }
}

/// Keys in strictly ascending order.
pub open spec fn keys_in_order(keys: Seq<[u8; KEY_SIZE]>) -> bool {
    forall|i: int, j: int|
        0 <= i < j < keys.len() ==> lex_lt(#[trigger] keys[i]@, #[trigger] keys[j]@)
}

pub open spec fn value_view(v: Option<&[u8; VALUE_SIZE]>) -> Option<Seq<u8>> {
    match v {
        Some(x) => Some(x@),
        None => None,
    }
}

proof fn lemma_insert_contains(s: Seq<DefFields>, p: int, d: DefFields, x: DefFields)
    requires
        0 <= p <= s.len(),
    ensures
        s.insert(p, d).contains(x) <==> s.contains(x) || x == d,
{
    let t = s.insert(p, d);
    if s.contains(x) {
        let j = choose|j: int| 0 <= j < s.len() && s[j] == x;
        if j < p {
            assert(t[j] == x);
        } else {
            assert(t[j + 1] == x);
        }
    }
    assert(t[p] == d);
    if t.contains(x) {
        let j = choose|j: int| 0 <= j < t.len() && t[j] == x;
        if j < p {
            assert(s[j] == x);
        } else if j > p {
            assert(s[j - 1] == x);
        }
    }
}

proof fn lemma_take_contains(s: Seq<DefFields>, i: int, x: DefFields)
    requires
        0 <= i < s.len(),
    ensures
        s.take(i + 1).contains(x) <==> s.take(i).contains(x) || x == s[i],
{
    let t = s.take(i + 1);
    let u = s.take(i);
    assert(t[i] == s[i]);
    if u.contains(x) {
        let j = choose|j: int| 0 <= j < u.len() && u[j] == x;
        assert(t[j] == x);
    }
    if t.contains(x) {
        let j = choose|j: int| 0 <= j < t.len() && t[j] == x;
        if j < i {
            assert(u[j] == x);
        }
    }
}

/// A copy of a definition.
pub(crate) fn copy_def(d: &SecondaryIndexDefinition) -> (r: SecondaryIndexDefinition)
    ensures
        r@ == d@,
{
    SecondaryIndexDefinition { name: String::from_str(d.name.as_str()), kind: d.kind }
}

/// The key that an index gives a row value.
fn slice_of(d: &SecondaryIndexDefinition, value: Option<&[u8; VALUE_SIZE]>) -> (r: Option<Vec<u8>>)
    requires
        range_ok(d@.value_offset as int, d@.value_len as int),
    ensures
        match r {
            Some(k) => index_key(d@, value_view(value)) == Some(k@),
            None => index_key(d@, value_view(value)) is None,
        },
        r is Some == value is Some,
        r matches Some(k) ==> k@.len() == d@.value_len && forall|j: int|
            0 <= j < d@.value_len ==> #[trigger] k@[j] == value->Some_0@[d@.value_offset + j],
{
    let SecondaryIndexKind::Btree { value_offset, value_len } = d.kind;
    match value {
        Some(v) => Some(copy_range(v.as_slice(), value_offset, value_offset + value_len)),
        None => None,
    }
}

fn push_mutations(
    out: &mut Vec<SecondaryIndexMutation>,
    d: &SecondaryIndexDefinition,
    primary_key: [u8; KEY_SIZE],
    old_value: Option<&[u8; VALUE_SIZE]>,
    new_value: Option<&[u8; VALUE_SIZE]>,
    old_key: Option<Vec<u8>>,
    new_key: Option<Vec<u8>>,
)
    requires
        match old_key {
            Some(k) => index_key(d@, value_view(old_value)) == Some(k@),
            None => index_key(d@, value_view(old_value)) is None,
        },
        match new_key {
            Some(k) => index_key(d@, value_view(new_value)) == Some(k@),
            None => index_key(d@, value_view(new_value)) is None,
        },
    ensures
        mutations_view(final(out)@) == mutations_view(old(out)@) + index_mutations(
            d@,
            primary_key@,
            value_view(old_value),
            value_view(new_value),
        ),
{
    let ghost ms = mutations_view(out@);
    let same = match (&old_key, &new_key) {
        (Some(a), Some(b)) => bytes_eq(a.as_slice(), b.as_slice()),
        (None, None) => true,
        _ => false,
    };
    if same {
        assert(ms + Seq::<MutationFields>::empty() =~= ms);
        return ;
    }
    if let Some(k) = old_key {
        out.push(
            SecondaryIndexMutation {
                index_name: String::from_str(d.name.as_str()),
                secondary_key: k,
                primary_key,
                present: false,
            },
        );
    }
    if let Some(k) = new_key {
        out.push(
            SecondaryIndexMutation {
                index_name: String::from_str(d.name.as_str()),
                secondary_key: k,
                primary_key,
                present: true,
            },
        );
    }
    assert(mutations_view(out@) =~= ms + index_mutations(
        d@,
        primary_key@,
        value_view(old_value),
        value_view(new_value),
    ));
}

/// Whether a row belongs to the posting list in a snapshot.
pub(crate) fn visible_membership(versions: &[PostingVersion], read_lsn: u64) -> (r: bool)
    ensures
        r == member_at(versions@, read_lsn),
{
    let n: usize = versions.len();
    let mut i: usize = 0;
    assert(versions@.skip(0) =~= versions@);
    while i < n && versions[i].commit_lsn <= read_lsn
        invariant
            n == versions@.len(),
            i <= n,
            seen_versions(versions@, read_lsn) == i + seen_versions(
                versions@.skip(i as int),
                read_lsn,
            ),
        decreases n - i,
    {
        assert(versions@.skip(i as int).drop_first() =~= versions@.skip(i + 1));
        i += 1;
    }
    i > 0 && versions[i - 1].present
}

impl SecondaryBtreeState {
    /// Puts a row into the posting list of a key, or takes it out.
    fn record(
        &mut self,
        secondary_key: &[u8],
        primary_key: [u8; KEY_SIZE],
        commit_lsn: u64,
        present: bool,
    )
        requires
            postings_wf(old(self).postings@),
        ensures
            postings_wf(final(self).postings@),
            forall|sk: Seq<u8>, pk: Seq<u8>| #[trigger]
                posting_history(final(self).postings@, sk, pk) == {
                    if sk == secondary_key@ && pk == primary_key@ {
                        record_version(
                            posting_history(old(self).postings@, sk, pk),
                            commit_lsn,
                            present,
                        )
                    } else {
                        posting_history(old(self).postings@, sk, pk)
                    }
                },
    {
        let ghost a = self.postings@;
        let ghost sk0 = secondary_key@;
        let ghost pk0 = primary_key@;
        let version = PostingVersion { commit_lsn, present };
        let n: usize = self.postings.len();
        let mut i: usize = 0;
        while i < n && !bytes_lt(primary_key.as_slice(), self.postings[i].primary_key.as_slice())
            invariant
                n == a.len(),
                a == old(self).postings@,
                self.postings@ == a,
                postings_wf(a),
                i <= n,
                sk0 == secondary_key@,
                pk0 == primary_key@,
                version == (PostingVersion { commit_lsn, present }),
                forall|j: int|
                    0 <= j < i ==> !lex_lt(pk0, (#[trigger] a[j]).primary_key@) && !is_posting(
                        a[j],
                        sk0,
                        pk0,
                    ),
            decreases n - i,
        {
            if bytes_eq(self.postings[i].primary_key.as_slice(), primary_key.as_slice())
                && bytes_eq(self.postings[i].secondary_key.as_slice(), secondary_key) {
                assert(is_posting(a[i as int], sk0, pk0));
                let len: usize = self.postings[i].versions.len();
                let replace = len > 0 && self.postings[i].versions[len - 1].commit_lsn
                    == commit_lsn;
                let p = &mut self.postings[i];
                if replace {
                    p.versions.set(len - 1, version);
                } else {
                    p.versions.push(version);
                }
                proof {
                    let b = self.postings@;
                    assert(b[i as int].versions@ == record_version(
                        a[i as int].versions@,
                        commit_lsn,
                        present,
                    ));
                    lemma_posting_update(a, b, i as int);
                }
                return ;
            }
            i += 1;
        }
        let mut versions: Vec<PostingVersion> = Vec::new();
        versions.push(version);
        let p = Posting { secondary_key: copy_bytes(secondary_key), primary_key, versions };
        self.postings.insert(i, p);
        proof {
            if i < n {
                assert forall|j: int| i <= j < n implies !is_posting(#[trigger] a[j], sk0, pk0) by {
                    lemma_lex_irreflexive(pk0);
                    if j > i {
                        assert(lex_le(a[i as int].primary_key@, a[j].primary_key@));
                        if a[j].primary_key@ == pk0 {
                            lemma_lex_asymmetric(pk0, a[i as int].primary_key@);
                        }
                    }
                }
            }
            lemma_posting_insert(a, self.postings@, i as int);
            assert(self.postings@[i as int].versions@ =~= record_version(
                seq![],
                commit_lsn,
                present,
            ));
        }
    }
}

proof fn lemma_posting_update(a: Seq<Posting>, b: Seq<Posting>, i: int)
    requires
        postings_wf(a),
        a.len() == b.len(),
        0 <= i < a.len(),
        b[i].secondary_key == a[i].secondary_key,
        b[i].primary_key == a[i].primary_key,
        forall|j: int| 0 <= j < a.len() && j != i ==> a[j] == b[j],
    ensures
        postings_wf(b),
        forall|sk: Seq<u8>, pk: Seq<u8>| #[trigger]
            posting_history(b, sk, pk) == {
                if sk == a[i].secondary_key@ && pk == a[i].primary_key@ {
                    b[i].versions@
                } else {
                    posting_history(a, sk, pk)
                }
            },
        posting_history(a, a[i].secondary_key@, a[i].primary_key@) == a[i].versions@,
{
    assert forall|x: int| 0 <= x < a.len() implies (#[trigger] b[x]).secondary_key
        == a[x].secondary_key && b[x].primary_key == a[x].primary_key by {}
    assert forall|x: int, y: int| 0 <= x < y < b.len() implies lex_le(
        (#[trigger] b[x]).primary_key@,
        (#[trigger] b[y]).primary_key@,
    ) by {
        assert(lex_le(a[x].primary_key@, a[y].primary_key@));
    }
    assert forall|x: int, y: int|
        0 <= x < b.len() && 0 <= y < b.len() && x != y implies !is_posting(
        #[trigger] b[x],
        (#[trigger] b[y]).secondary_key@,
        b[y].primary_key@,
    ) by {
        assert(!is_posting(a[x], a[y].secondary_key@, a[y].primary_key@));
    }
    lemma_posting(a, i);
    assert forall|sk: Seq<u8>, pk: Seq<u8>| #[trigger] posting_history(b, sk, pk) == {
        if sk == a[i].secondary_key@ && pk == a[i].primary_key@ {
            b[i].versions@
        } else {
            posting_history(a, sk, pk)
        }
    } by {
        if has_posting(b, sk, pk) {
            let x = choose|x: int| 0 <= x < b.len() && is_posting(#[trigger] b[x], sk, pk);
            lemma_posting(b, x);
            lemma_posting(a, x);
        } else {
            if has_posting(a, sk, pk) {
                let x = choose|x: int| 0 <= x < a.len() && is_posting(#[trigger] a[x], sk, pk);
                assert(is_posting(b[x], sk, pk));
            }
            if sk == a[i].secondary_key@ && pk == a[i].primary_key@ {
                assert(is_posting(b[i], sk, pk));
            }
        }
    }
}

proof fn lemma_posting_insert(a: Seq<Posting>, b: Seq<Posting>, i: int)
    requires
        postings_wf(a),
        0 <= i <= a.len(),
        b == a.insert(i, b[i]),
        forall|j: int| 0 <= j < a.len() ==> !is_posting(#[trigger] a[j], b[i].secondary_key@, b[i].primary_key@),
        forall|j: int| 0 <= j < i ==> !lex_lt(b[i].primary_key@, (#[trigger] a[j]).primary_key@),
        i < a.len() ==> lex_lt(b[i].primary_key@, a[i].primary_key@),
    ensures
        postings_wf(b),
        forall|sk: Seq<u8>, pk: Seq<u8>| #[trigger]
            posting_history(b, sk, pk) == {
                if sk == b[i].secondary_key@ && pk == b[i].primary_key@ {
                    b[i].versions@
                } else {
                    posting_history(a, sk, pk)
                }
            },
        posting_history(a, b[i].secondary_key@, b[i].primary_key@) == Seq::<PostingVersion>::empty(),
{
    let pk0 = b[i].primary_key@;
    assert forall|x: int, y: int| 0 <= x < y < b.len() implies lex_le(
        (#[trigger] b[x]).primary_key@,
        (#[trigger] b[y]).primary_key@,
    ) by {
        if y < i {
            assert(b[x] == a[x] && b[y] == a[y]);
        } else if y == i {
            assert(b[x] == a[x]);
            lemma_lex_total(pk0, a[x].primary_key@);
        } else if x < i {
            assert(b[x] == a[x] && b[y] == a[y - 1]);
        } else if x == i {
            assert(b[y] == a[y - 1]);
            if y - 1 > i {
                assert(lex_le(a[i].primary_key@, a[y - 1].primary_key@));
                lemma_lex_total(a[i].primary_key@, a[y - 1].primary_key@);
                lemma_lex_asymmetric(pk0, a[i].primary_key@);
                if a[i].primary_key@ != a[y - 1].primary_key@ {
                    lemma_lex_transitive(pk0, a[i].primary_key@, a[y - 1].primary_key@);
                }
            }
        } else {
            assert(b[x] == a[x - 1] && b[y] == a[y - 1]);
        }
    }
    assert forall|x: int, y: int|
        0 <= x < b.len() && 0 <= y < b.len() && x != y implies !is_posting(
        #[trigger] b[x],
        (#[trigger] b[y]).secondary_key@,
        b[y].primary_key@,
    ) by {
        let x2 = if x < i { x } else { x - 1 };
        let y2 = if y < i { y } else { y - 1 };
        if x != i {
            assert(b[x] == a[x2]);
        }
        if y != i {
            assert(b[y] == a[y2]);
            assert(!is_posting(a[y2], b[i].secondary_key@, b[i].primary_key@));
        }
        if x != i && y != i {
            assert(!is_posting(a[x2], a[y2].secondary_key@, a[y2].primary_key@));
        }
    }
    assert forall|sk: Seq<u8>, pk: Seq<u8>| #[trigger] posting_history(b, sk, pk) == {
        if sk == b[i].secondary_key@ && pk == b[i].primary_key@ {
            b[i].versions@
        } else {
            posting_history(a, sk, pk)
        }
    } by {
        if has_posting(b, sk, pk) {
            let x = choose|x: int| 0 <= x < b.len() && is_posting(#[trigger] b[x], sk, pk);
            lemma_posting(b, x);
            if x != i {
                let x2 = if x < i { x } else { x - 1 };
                assert(b[x] == a[x2]);
                lemma_posting(a, x2);
            }
        } else {
            if has_posting(a, sk, pk) {
                let x = choose|x: int| 0 <= x < a.len() && is_posting(#[trigger] a[x], sk, pk);
                let x2 = if x < i { x } else { x + 1 };
                assert(is_posting(b[x2], sk, pk));
            }
            if sk == b[i].secondary_key@ && pk == b[i].primary_key@ {
                assert(is_posting(b[i], sk, pk));
            }
        }
    }
}

/// What the last of the first `n` mutations of a pair of keys says.
pub open spec fn last_change(
    name: Seq<char>,
    sk: Seq<u8>,
    pk: Seq<u8>,
    ms: Seq<MutationFields>,
    n: int,
) -> Option<bool>
    decreases n,
{
    if n <= 0 {
        None
    } else if ms[n - 1].index_name == name && ms[n - 1].secondary_key == sk
        && ms[n - 1].primary_key == pk {
        Some(ms[n - 1].present)
    } else {
        last_change(name, sk, pk, ms, n - 1)
    }
}

pub open spec fn all_up_to(h: Seq<PostingVersion>, lsn: u64) -> bool {
    forall|i: int| 0 <= i < h.len() ==> (#[trigger] h[i]).commit_lsn <= lsn
}

/// Versions that agree up to the first one later than `read_lsn` are seen alike.
proof fn lemma_seen(h: Seq<PostingVersion>, n: int, read_lsn: u64)
    requires
        0 <= n <= h.len(),
        forall|i: int| 0 <= i < n ==> (#[trigger] h[i]).commit_lsn <= read_lsn,
        n < h.len() ==> h[n].commit_lsn > read_lsn,
    ensures
        seen_versions(h, read_lsn) == n,
    decreases n,
{
    if n > 0 {
        let t = h.drop_first();
        assert forall|i: int| 0 <= i < n - 1 implies (#[trigger] t[i]).commit_lsn <= read_lsn by {
            assert(t[i] == h[i + 1]);
        }
        lemma_seen(t, n - 1, read_lsn);
    }
}

proof fn lemma_seen_bounds(h: Seq<PostingVersion>, read_lsn: u64)
    ensures
        0 <= seen_versions(h, read_lsn) <= h.len(),
        forall|i: int|
            0 <= i < seen_versions(h, read_lsn) ==> (#[trigger] h[i]).commit_lsn <= read_lsn,
        seen_versions(h, read_lsn) < h.len() ==> h[seen_versions(h, read_lsn)].commit_lsn
            > read_lsn,
    decreases h.len(),
{
    if h.len() > 0 && h[0].commit_lsn <= read_lsn {
        let t = h.drop_first();
        lemma_seen_bounds(t, read_lsn);
        assert forall|i: int| 0 <= i < seen_versions(h, read_lsn) implies (
        #[trigger] h[i]).commit_lsn <= read_lsn by {
            if i > 0 {
                assert(t[i - 1] == h[i]);
            }
        }
    }
}

/// A commit leaves earlier snapshots of every posting list as they were.
pub proof fn law_commit_keeps_earlier_snapshots(
    h: Seq<PostingVersion>,
    name: Seq<char>,
    sk: Seq<u8>,
    pk: Seq<u8>,
    lsn: u64,
    ms: Seq<MutationFields>,
    n: int,
    read_lsn: u64,
)
    requires
        read_lsn < lsn,
    ensures
        member_at(history_after(h, name, sk, pk, lsn, ms, n), read_lsn) == member_at(h, read_lsn),
    decreases n,
{
    if n > 0 {
        law_commit_keeps_earlier_snapshots(h, name, sk, pk, lsn, ms, n - 1, read_lsn);
        let prev = history_after(h, name, sk, pk, lsn, ms, n - 1);
        let next = history_after(h, name, sk, pk, lsn, ms, n);
        lemma_seen_bounds(prev, read_lsn);
        let seen = seen_versions(prev, read_lsn);
        if next != prev {
            assert forall|i: int| 0 <= i < seen implies (#[trigger] next[i]).commit_lsn
                <= read_lsn by {
                assert(prev[i].commit_lsn <= read_lsn);
            }
            lemma_seen(next, seen, read_lsn);
            if seen > 0 {
                assert(prev[seen - 1].commit_lsn <= read_lsn);
            }
        }
    }
}

/// From a commit on, a snapshot shows what its last mutation of a pair of keys
/// says, and what it showed before where the commit did not touch the pair.
pub proof fn law_commit_is_seen(
    h: Seq<PostingVersion>,
    name: Seq<char>,
    sk: Seq<u8>,
    pk: Seq<u8>,
    lsn: u64,
    ms: Seq<MutationFields>,
    n: int,
    read_lsn: u64,
)
    requires
        lsn <= read_lsn,
        all_up_to(h, lsn),
    ensures
        all_up_to(history_after(h, name, sk, pk, lsn, ms, n), lsn),
        member_at(history_after(h, name, sk, pk, lsn, ms, n), read_lsn) == match last_change(
            name,
            sk,
            pk,
            ms,
            n,
        ) {
            Some(present) => present,
            None => member_at(h, read_lsn),
        },
    decreases n,
{
    if n > 0 {
        law_commit_is_seen(h, name, sk, pk, lsn, ms, n - 1, read_lsn);
        let prev = history_after(h, name, sk, pk, lsn, ms, n - 1);
        let next = history_after(h, name, sk, pk, lsn, ms, n);
        assert forall|i: int| 0 <= i < next.len() implies (#[trigger] next[i]).commit_lsn <= lsn by {
            if i < prev.len() {
                assert(prev[i].commit_lsn <= lsn);
            }
        }
        assert forall|i: int| 0 <= i < next.len() implies (#[trigger] next[i]).commit_lsn
            <= read_lsn by {}
        lemma_seen(next, next.len() as int, read_lsn);
    }
}

/// A change of a value outside the bytes of every index changes no index.
pub proof fn law_unchanged_keys_plan_nothing(
    ds: Seq<DefFields>,
    n: int,
    pk: Seq<u8>,
    old_value: Option<Seq<u8>>,
    new_value: Option<Seq<u8>>,
)
    requires
        0 <= n <= ds.len(),
        forall|i: int|
            0 <= i < n ==> index_key(#[trigger] ds[i], old_value) == index_key(ds[i], new_value),
    ensures
        planned_mutations(ds, n, pk, old_value, new_value).len() == 0,
    decreases n,
{
    if n > 0 {
        law_unchanged_keys_plan_nothing(ds, n - 1, pk, old_value, new_value);
        assert(index_key(ds[n - 1], old_value) == index_key(ds[n - 1], new_value));
    }
}

/// The key that an index gives a value is the slice that it was defined with: it has
/// `value_len` bytes, and byte `j` is byte `value_offset + j` of the value. No value has
/// no key.
pub proof fn law_index_key_is_slice(d: DefFields, v: Seq<u8>)
    requires
        d.value_offset + d.value_len <= v.len(),
    ensures
        index_key(d, Some(v)) matches Some(k) && k.len() == d.value_len && forall|j: int|
            0 <= j < d.value_len ==> #[trigger] k[j] == v[d.value_offset + j],
        index_key(d, None) is None,
{
}

/// An index is defined over a slice that is not empty and lies inside a row value of
/// 1024 bytes.
pub proof fn law_index_range(value_offset: int, value_len: int)
    requires
        value_offset >= 0,
    ensures
        range_ok(value_offset, value_len) <==> value_len > 0 && value_offset + value_len <= 1024,
{
}

/// A list of definitions can stand exactly if no name is empty or occurs twice, and every
/// slice is not empty and lies inside a row value.
pub proof fn law_definitions_that_stand(ds: Seq<DefFields>)
    ensures
        (forall|i: int| 0 <= i < ds.len() ==> #[trigger] def_fault(ds, i) is None) <==> {
            &&& forall|i: int|
                0 <= i < ds.len() ==> (#[trigger] ds[i]).name.len() > 0 && ds[i].value_len > 0
                    && ds[i].value_offset + ds[i].value_len <= 1024
            &&& forall|i: int, j: int|
                0 <= i < j < ds.len() ==> (#[trigger] ds[i]).name != (#[trigger] ds[j]).name
        },
{
    if forall|i: int| 0 <= i < ds.len() ==> #[trigger] def_fault(ds, i) is None {
        assert forall|i: int| 0 <= i < ds.len() implies (#[trigger] ds[i]).name.len() > 0
            && ds[i].value_len > 0 && ds[i].value_offset + ds[i].value_len <= 1024 by {
            assert(def_fault(ds, i) is None);
        }
        assert forall|i: int, j: int| 0 <= i < j < ds.len() implies (#[trigger] ds[i]).name != (
        #[trigger] ds[j]).name by {
            assert(def_fault(ds, j) is None);
        }
    }
}

proof fn lemma_last_change_joined(
    name: Seq<char>,
    sk: Seq<u8>,
    pk: Seq<u8>,
    a: Seq<MutationFields>,
    b: Seq<MutationFields>,
    n: int,
)
    requires
        0 <= n <= b.len(),
    ensures
        last_change(name, sk, pk, a + b, a.len() + n) == match last_change(name, sk, pk, b, n) {
            Some(p) => Some(p),
            None => last_change(name, sk, pk, a, a.len() as int),
        },
    decreases n,
{
    if n > 0 {
        lemma_last_change_joined(name, sk, pk, a, b, n - 1);
        assert((a + b)[a.len() + n - 1] == b[n - 1]);
    } else {
        lemma_last_change_prefix(name, sk, pk, a, b, a.len() as int);
    }
}

proof fn lemma_last_change_prefix(
    name: Seq<char>,
    sk: Seq<u8>,
    pk: Seq<u8>,
    a: Seq<MutationFields>,
    b: Seq<MutationFields>,
    n: int,
)
    requires
        0 <= n <= a.len(),
    ensures
        last_change(name, sk, pk, a + b, n) == last_change(name, sk, pk, a, n),
    decreases n,
{
    if n > 0 {
        assert((a + b)[n - 1] == a[n - 1]);
        lemma_last_change_prefix(name, sk, pk, a, b, n - 1);
    }
}

/// What one index plans for a pair of keys.
proof fn lemma_index_change(
    d: DefFields,
    name: Seq<char>,
    sk: Seq<u8>,
    pk: Seq<u8>,
    old_value: Option<Seq<u8>>,
    new_value: Option<Seq<u8>>,
)
    ensures
        ({
            let ms = index_mutations(d, pk, old_value, new_value);
            let before = index_key(d, old_value);
            let after = index_key(d, new_value);
            last_change(name, sk, pk, ms, ms.len() as int) == (if d.name != name || before == after {
                None
            } else if after == Some(sk) {
                Some(true)
            } else if before == Some(sk) {
                Some(false)
            } else {
                None
            })
        }),
{
    reveal_with_fuel(last_change, 3);
}

proof fn lemma_planned_change(
    ds: Seq<DefFields>,
    n: int,
    i: int,
    sk: Seq<u8>,
    pk: Seq<u8>,
    old_value: Option<Seq<u8>>,
    new_value: Option<Seq<u8>>,
)
    requires
        0 <= n <= ds.len(),
        0 <= i < ds.len(),
        forall|a: int, b: int|
            0 <= a < b < ds.len() ==> (#[trigger] ds[a]).name != (#[trigger] ds[b]).name,
    ensures
        ({
            let ms = planned_mutations(ds, n, pk, old_value, new_value);
            let one = index_mutations(ds[i], pk, old_value, new_value);
            last_change(ds[i].name, sk, pk, ms, ms.len() as int) == (if i < n {
                last_change(ds[i].name, sk, pk, one, one.len() as int)
            } else {
                None
            })
        }),
    decreases n,
{
    if n > 0 {
        lemma_planned_change(ds, n - 1, i, sk, pk, old_value, new_value);
        let a = planned_mutations(ds, n - 1, pk, old_value, new_value);
        let b = index_mutations(ds[n - 1], pk, old_value, new_value);
        lemma_last_change_joined(ds[i].name, sk, pk, a, b, b.len() as int);
        lemma_index_change(ds[n - 1], ds[i].name, sk, pk, old_value, new_value);
        if i < n - 1 {
            assert(ds[i].name != ds[n - 1].name);
        } else if i > n - 1 {
            assert(ds[n - 1].name != ds[i].name);
        }
    }
}

/// Planning the change of a row and applying it moves the row, in every index, from the
/// slice of its old value to that of its new one: from the commit on, a snapshot has it
/// under the slice of the new value, no longer under another slice of the old one, and
/// under any other key as before.
///
/// `h` is the history of the row under `sk` in index `i`, which had the row under the
/// slice of its old value.
pub proof fn law_planned_row_is_found(
    ds: Seq<DefFields>,
    i: int,
    h: Seq<PostingVersion>,
    sk: Seq<u8>,
    pk: Seq<u8>,
    old_value: Option<Seq<u8>>,
    new_value: Option<Seq<u8>>,
    lsn: u64,
    read_lsn: u64,
)
    requires
        0 <= i < ds.len(),
        forall|a: int, b: int|
            0 <= a < b < ds.len() ==> (#[trigger] ds[a]).name != (#[trigger] ds[b]).name,
        ds[i].value_offset + ds[i].value_len <= VALUE_SIZE,
        old_value matches Some(v) ==> v.len() == VALUE_SIZE,
        new_value matches Some(v) ==> v.len() == VALUE_SIZE,
        all_up_to(h, lsn),
        lsn <= read_lsn,
        old_value matches Some(v) ==> (v.subrange(
            ds[i].value_offset as int,
            ds[i].value_offset + ds[i].value_len,
        ) == sk ==> member_at(h, read_lsn)),
    ensures
        ({
            let from = ds[i].value_offset as int;
            let to = ds[i].value_offset + ds[i].value_len;
            let was = old_value matches Some(v) && v.subrange(from, to) == sk;
            let is = new_value matches Some(v) && v.subrange(from, to) == sk;
            let ms = planned_mutations(ds, ds.len() as int, pk, old_value, new_value);
            member_at(
                history_after(h, ds[i].name, sk, pk, lsn, ms, ms.len() as int),
                read_lsn,
            ) == (is || !was && member_at(h, read_lsn))
        }),
{
    let ms = planned_mutations(ds, ds.len() as int, pk, old_value, new_value);
    lemma_planned_change(ds, ds.len() as int, i, sk, pk, old_value, new_value);
    lemma_index_change(ds[i], ds[i].name, sk, pk, old_value, new_value);
    law_commit_is_seen(h, ds[i].name, sk, pk, lsn, ms, ms.len() as int, read_lsn);
}

/// A snapshot shows a row under a key exactly if the newest change that it covers put the
/// row in.
pub proof fn law_membership_is_the_newest(h: Seq<PostingVersion>, read_lsn: u64)
    requires
        forall|i: int, j: int|
            0 <= i < j < h.len() ==> (#[trigger] h[i]).commit_lsn <= (#[trigger] h[j]).commit_lsn,
    ensures
        member_at(h, read_lsn) <==> exists|i: int|
            0 <= i < h.len() && (#[trigger] h[i]).present && h[i].commit_lsn <= read_lsn && (i + 1
                < h.len() ==> h[i + 1].commit_lsn > read_lsn),
{
    let n = newest(h, read_lsn, h.len() as int);
    lemma_seen(h, n, read_lsn);
    if n > 0 && h[n - 1].present {
        assert(h[n - 1].commit_lsn <= read_lsn);
    }
    if exists|i: int|
        0 <= i < h.len() && (#[trigger] h[i]).present && h[i].commit_lsn <= read_lsn && (i + 1
            < h.len() ==> h[i + 1].commit_lsn > read_lsn) {
        let i = choose|i: int|
            0 <= i < h.len() && (#[trigger] h[i]).present && h[i].commit_lsn <= read_lsn && (i + 1
                < h.len() ==> h[i + 1].commit_lsn > read_lsn);
        if i + 1 < n {
            assert(h[i + 1].commit_lsn <= read_lsn);
        }
        if i >= n {
            assert(h[n].commit_lsn <= h[i].commit_lsn);
        }
    }
}

/// How many of the first `n` changes a snapshot covers, of changes in order.
proof fn newest(h: Seq<PostingVersion>, read_lsn: u64, n: int) -> (r: int)
    requires
        0 <= n <= h.len(),
        forall|i: int, j: int|
            0 <= i < j < h.len() ==> (#[trigger] h[i]).commit_lsn <= (#[trigger] h[j]).commit_lsn,
        n < h.len() ==> h[n].commit_lsn > read_lsn,
    ensures
        0 <= r <= n,
        forall|i: int| 0 <= i < r ==> (#[trigger] h[i]).commit_lsn <= read_lsn,
        r < h.len() ==> h[r].commit_lsn > read_lsn,
    decreases n,
{
    if n == 0 || h[n - 1].commit_lsn <= read_lsn {
        assert forall|i: int| 0 <= i < n implies (#[trigger] h[i]).commit_lsn <= read_lsn by {
            assert(h[i].commit_lsn <= h[n - 1].commit_lsn);
        }
        n
    } else {
        newest(h, read_lsn, n - 1)
    }
}

/// A change of a posting becomes its last version; the versions of earlier commits stay,
/// and of one commit only the last change does.
pub proof fn law_change_is_last_version(h: Seq<PostingVersion>, lsn: u64, present: bool)
    ensures
        record_version(h, lsn, present).last() == (PostingVersion { commit_lsn: lsn, present }),
        h.len() > 0 && h.last().commit_lsn == lsn ==> record_version(h, lsn, present).drop_last()
            == h.drop_last(),
        h.len() == 0 || h.last().commit_lsn != lsn ==> record_version(h, lsn, present).drop_last()
            == h,
{
    let t = record_version(h, lsn, present);
    if h.len() > 0 && h.last().commit_lsn == lsn {
        assert(t.drop_last() =~= h.drop_last());
    } else {
        assert(t.drop_last() =~= h);
    }
}

/// Of several definitions that cannot stand the first is complained of.
pub proof fn law_first_faulty_definition(ds: Seq<DefFields>, i: int)
    ensures
        first_fault(ds, i) <==> 0 <= i < ds.len() && def_fault(ds, i) is Some && forall|j: int|
            0 <= j < ds.len() && #[trigger] def_fault(ds, j) is Some ==> i <= j,
{
    if 0 <= i < ds.len() && def_fault(ds, i) is Some && (forall|j: int|
        0 <= j < ds.len() && #[trigger] def_fault(ds, j) is Some ==> i <= j) {
        assert forall|j: int| 0 <= j < i implies #[trigger] def_fault(ds, j) is None by {}
    }
}

} // verus!
