//! Object identities, stored records, and the content-addressed store.
use crypto::digest::Digest;
use crate::util::{
    append_all, copy_range, hex_decode, hex_decoded, hex_encode, hex_text, lemma_hex_text_len,
};
use vstd::prelude::*;

verus! {

/// The SHA-1 digest of a byte sequence.
pub uninterp spec fn sha1_of(data: Seq<u8>) -> Seq<u8>;

/// Relies on crypto::sha1::Sha1 (`input`, then `result`): the 20-byte SHA-1
/// digest of `data`.
#[verifier::external_body]
pub(crate) fn sha1_digest(data: &[u8]) -> (r: [u8; 20])
    ensures
        r@ == sha1_of(data@),
{
    let mut hasher = crypto::sha1::Sha1::new();
    hasher.input(data);
    let mut out: [u8; 20] = [0u8; 20];
    hasher.result(&mut out);
    out
}

/// A 20-byte object digest together with its lowercase hex text.
#[derive(Debug, Hash)]
pub struct ObjectID {
    oid_bytes: [u8; 20],
    oid_string: String,
}

impl View for ObjectID {
    type V = Seq<u8>;

    closed spec fn view(&self) -> Seq<u8> {
        self.oid_bytes@
    }
}

/// Whether two 20-byte digests are equal.
pub(crate) fn same_digest(a: &[u8; 20], b: &[u8; 20]) -> (r: bool)
    ensures
        r == (a@ == b@),
{
    let mut i: usize = 0;
    while i < 20
        invariant
            i <= 20,
            forall|k: int| 0 <= k < i ==> a@[k] == b@[k],
        decreases 20 - i,
    {
        if a[i] != b[i] {
            return false;
        }
        i = i + 1;
    }
    assert(a@ =~= b@);
    true
}

impl ObjectID {
    #[verifier::type_invariant]
    closed spec fn text_matches(&self) -> bool {
        self.oid_string@ == hex_text(self.oid_bytes@)
    }

    pub fn from_oid_bytes(bytes: [u8; 20]) -> (r: ObjectID)
        ensures
            r@ == bytes@,
            r@.len() == 20,
    {
        let text = hex_encode(bytes.as_slice());
        ObjectID { oid_bytes: bytes, oid_string: text }
    }

    /// Parses 40 hex digits of either case; anything else gives `None`.
    pub fn from_oid_string(string: String) -> (r: Option<ObjectID>)
        ensures
            match hex_decoded(vstd::utf8::encode_utf8(string@)) {
                Some(b) => if b.len() == 20 {
                    r is Some && r->0@ == b
                } else {
                    r is None
                },
                None => r is None,
            },
    {
        let decoded = match hex_decode(string.as_str().as_bytes()) {
            Some(d) => d,
            None => return None,
        };
        if decoded.len() != 20 {
            return None;
        }
        let mut bytes: [u8; 20] = [0u8; 20];
        let mut i: usize = 0;
        while i < 20
            invariant
                i <= 20,
                decoded@.len() == 20,
                forall|k: int| 0 <= k < i ==> bytes@[k] == decoded@[k],
            decreases 20 - i,
        {
            bytes[i] = decoded[i];
            i = i + 1;
        }
        assert(bytes@ =~= decoded@);
        Some(ObjectID::from_oid_bytes(bytes))
    }

    /// The 20 digest bytes.
    pub fn as_bytes(&self) -> (r: [u8; 20])
        ensures
            r@ == self@,
    {
        self.oid_bytes
    }

    /// The lowercase hex text, 40 characters.
    pub fn to_hex_string(&self) -> (r: String)
        ensures
            r@ == hex_text(self@),
            self@.len() == 20,
            r@.len() == 40,
    {
        proof {
            use_type_invariant(self);
            lemma_hex_text_len(self@);
        }
        self.oid_string.clone()
    }

    /// An equal identity.
    pub fn duplicate(&self) -> (r: ObjectID)
        ensures
            r@ == self@,
    {
        proof {
            use_type_invariant(self);
        }
        ObjectID { oid_bytes: self.oid_bytes, oid_string: self.oid_string.clone() }
    }
}

impl PartialEq for ObjectID {
    fn eq(&self, other: &ObjectID) -> (r: bool) {
        same_digest(&self.oid_bytes, &other.oid_bytes)
    }
}

impl vstd::std_specs::cmp::PartialEqSpecImpl for ObjectID {
    open spec fn obeys_eq_spec() -> bool {
        true
    }

    open spec fn eq_spec(&self, other: &ObjectID) -> bool {
        self@ == other@
    }
}

impl Eq for ObjectID {

}

/// What a tree entry holds, as values.
pub struct TreeEntryView {
    pub mode: Seq<u8>,
    pub name: Seq<char>,
    pub id: Seq<u8>,
}

/// One entry of a tree object: mode digits, name, and the named object's id.
#[derive(Debug)]
pub struct TreeEntry {
    pub mode: Vec<u8>,
    pub name: String,
    pub object_id: ObjectID,
}

impl View for TreeEntry {
    type V = TreeEntryView;

    open spec fn view(&self) -> TreeEntryView {
        TreeEntryView { mode: self.mode@, name: self.name@, id: self.object_id@ }
    }
}

impl TreeEntry {
    pub fn duplicate(&self) -> (r: TreeEntry)
        ensures
            r@ == self@,
    {
        let mode = copy_range(self.mode.as_slice(), 0, self.mode.len());
        assert(self.mode@.subrange(0, self.mode@.len() as int) =~= self.mode@);
        TreeEntry { mode, name: self.name.clone(), object_id: self.object_id.duplicate() }
    }
}

/// A stored object, as values.
pub enum RecordView {
    Commit { raw: Seq<u8>, info: Seq<char> },
    Tree { raw: Seq<u8>, entries: Seq<TreeEntryView> },
    Blob { raw: Seq<u8> },
}

impl RecordView {
    /// The object's content bytes.
    pub open spec fn raw(self) -> Seq<u8> {
        match self {
            RecordView::Commit { raw, .. } => raw,
            RecordView::Tree { raw, .. } => raw,
            RecordView::Blob { raw } => raw,
        }
    }

    /// The object's type name in ASCII: `commit`, `tree` or `blob`.
    pub open spec fn kind_tag(self) -> Seq<u8> {
        match self {
            RecordView::Commit { .. } => seq![0x63u8, 0x6f, 0x6d, 0x6d, 0x69, 0x74],
            RecordView::Tree { .. } => seq![0x74u8, 0x72, 0x65, 0x65],
            RecordView::Blob { .. } => seq![0x62u8, 0x6c, 0x6f, 0x62],
        }
    }
}

/// A reconstructed object: its content bytes, and for a tree its entries.
#[derive(Debug)]
pub enum Record {
    Commit { data: Vec<u8>, commit_info: String },
    Tree { data: Vec<u8>, entries: Vec<TreeEntry> },
    Blob { data: Vec<u8> },
}

impl View for Record {
    type V = RecordView;

    open spec fn view(&self) -> RecordView {
        match self {
            Record::Commit { data, commit_info } => RecordView::Commit {
                raw: data@,
                info: commit_info@,
            },
            Record::Tree { data, entries } => RecordView::Tree {
                raw: data@,
                entries: entries@.map_values(|e: TreeEntry| e@),
            },
            Record::Blob { data } => RecordView::Blob { raw: data@ },
        }
    }
}

impl Record {
    /// The content bytes.
    pub fn data(&self) -> (r: &Vec<u8>)
        ensures
            r@ == self@.raw(),
    {
        match self {
            Record::Commit { data, .. } => data,
            Record::Tree { data, .. } => data,
            Record::Blob { data } => data,
        }
    }

    /// An equal record.
    pub fn duplicate(&self) -> (r: Record)
        ensures
            r@ == self@,
    {
        let data = self.data();
        let copy = copy_range(data.as_slice(), 0, data.len());
        assert(data@.subrange(0, data@.len() as int) =~= data@);
        match self {
            Record::Commit { commit_info, .. } => Record::Commit {
                data: copy,
                commit_info: commit_info.clone(),
            },
            Record::Tree { entries, .. } => {
                let mut out: Vec<TreeEntry> = Vec::new();
                let mut i: usize = 0;
                while i < entries.len()
                    invariant
                        i <= entries.len(),
                        out@.len() == i,
                        forall|k: int| 0 <= k < i ==> out@[k]@ == entries@[k]@,
                    decreases entries.len() - i,
                {
                    let e = entries[i].duplicate();
                    out.push(e);
                    i = i + 1;
                }
                assert(out@.map_values(|e: TreeEntry| e@) =~= entries@.map_values(
                    |e: TreeEntry| e@,
                ));
                Record::Tree { data: copy, entries: out }
            },
            Record::Blob { .. } => Record::Blob { data: copy },
        }
    }
}

/// Decimal digits of `n` in ASCII, without leading zeros.
pub open spec fn decimal(n: nat) -> Seq<u8>
    decreases n,
{
    if n < 10 {
        seq![(0x30 + n) as u8]
    } else {
        decimal(n / 10) + seq![(0x30 + n % 10) as u8]
    }
}

fn push_decimal(n: usize, out: &mut Vec<u8>)
    ensures
        final(out)@ == old(out)@ + decimal(n as nat),
    decreases n,
{
    let ghost start = out@;
    if n >= 10 {
        push_decimal(n / 10, out);
    }
    let d: u8 = (n % 10) as u8;
    out.push(0x30 + d);
    assert(out@ =~= start + decimal(n as nat));
}

/// The bytes that an object's digest is taken over: type name, a space, the
/// decimal content length, a NUL byte, then the content.
pub open spec fn object_envelope(r: RecordView) -> Seq<u8> {
    r.kind_tag() + seq![0x20u8] + decimal(r.raw().len()) + seq![0u8] + r.raw()
}

/// The identity of a record: the digest of its envelope.
pub open spec fn object_digest(r: RecordView) -> Seq<u8> {
    sha1_of(object_envelope(r))
}

/// The identity of a record, computed from its type and content.
pub fn object_id_of(record: &Record) -> (r: ObjectID)
    ensures
        r@ == object_digest(record@),
        r@.len() == 20,
{
    let mut buf: Vec<u8> = Vec::new();
    match record {
        Record::Commit { .. } => {
            buf.push(0x63);
            buf.push(0x6f);
            buf.push(0x6d);
            buf.push(0x6d);
            buf.push(0x69);
            buf.push(0x74);
        },
        Record::Tree { .. } => {
            buf.push(0x74);
            buf.push(0x72);
            buf.push(0x65);
            buf.push(0x65);
        },
        Record::Blob { .. } => {
            buf.push(0x62);
            buf.push(0x6c);
            buf.push(0x6f);
            buf.push(0x62);
        },
    }
    assert(buf@ =~= record@.kind_tag());
    buf.push(0x20);
    let data = record.data();
    push_decimal(data.len(), &mut buf);
    buf.push(0);
    append_all(&mut buf, data.as_slice());
    assert(buf@ =~= object_envelope(record@));
    ObjectID::from_oid_bytes(sha1_digest(buf.as_slice()))
}

/// The identity of a record as lowercase hex text.
pub fn get_object_id(record: &Record) -> (r: String)
    ensures
        r@ == hex_text(object_digest(record@)),
        r@.len() == 40,
{
    object_id_of(record).to_hex_string()
}


/// The record stored under key `k`, searching from entry `i` on.
pub open spec fn store_find(m: Seq<(Seq<u8>, RecordView)>, k: Seq<u8>, i: int) -> Option<
    RecordView,
>
    decreases m.len() - i,
{
    if i < 0 || i >= m.len() {
        None
    } else if m[i].0 == k {
        Some(m[i].1)
    } else {
        store_find(m, k, i + 1)
    }
}

/// The record stored under key `k`.
pub open spec fn store_get(m: Seq<(Seq<u8>, RecordView)>, k: Seq<u8>) -> Option<RecordView> {
    store_find(m, k, 0)
}

/// The store after inserting `r`: unchanged where its identity is present already.
pub open spec fn store_insert(m: Seq<(Seq<u8>, RecordView)>, r: RecordView) -> Seq<
    (Seq<u8>, RecordView),
> {
    if store_get(m, object_digest(r)) is Some {
        m
    } else {
        m.push((object_digest(r), r))
    }
}

/// Keys are unique, and each key is the identity of the record stored under it.
pub open spec fn store_wf(m: Seq<(Seq<u8>, RecordView)>) -> bool {
    &&& forall|i: int, j: int| 0 <= i < j < m.len() ==> m[i].0 != m[j].0
    &&& forall|i: int| 0 <= i < m.len() ==> m[i].0 == object_digest(#[trigger] m[i].1)
}

proof fn lemma_find_absent(m: Seq<(Seq<u8>, RecordView)>, k: Seq<u8>, i: int)
    requires
        0 <= i,
        store_find(m, k, i) is None,
    ensures
        forall|j: int| i <= j < m.len() ==> m[j].0 != k,
    decreases m.len() - i,
{
    if i < m.len() {
        lemma_find_absent(m, k, i + 1);
    }
}

proof fn lemma_find_push(m: Seq<(Seq<u8>, RecordView)>, e: (Seq<u8>, RecordView), k: Seq<u8>, i: int)
    requires
        0 <= i <= m.len(),
    ensures
        store_find(m.push(e), k, i) == if store_find(m, k, i) is Some {
            store_find(m, k, i)
        } else if e.0 == k {
            Some(e.1)
        } else {
            None
        },
    decreases m.len() - i,
{
    let mp = m.push(e);
    if i < m.len() {
        assert(mp[i] == m[i]);
        lemma_find_push(m, e, k, i + 1);
    } else {
        assert(mp[i] == e);
        assert(store_find(mp, k, i + 1) is None);
    }
}

/// Inserting a record twice leaves the store as one insertion does, the store
/// grows by at most one entry, and the record can then be found under its
/// identity; records of equal type and content have one identity.
pub proof fn lemma_insert_idempotent(m: Seq<(Seq<u8>, RecordView)>, r: RecordView, r2: RecordView)
    requires
        r2.kind_tag() == r.kind_tag(),
        r2.raw() == r.raw(),
    ensures
        object_digest(r2) == object_digest(r),
        store_insert(store_insert(m, r), r) == store_insert(m, r),
        store_insert(m, r).len() <= m.len() + 1,
        store_get(store_insert(m, r), object_digest(r)) is Some,
{
    assert(object_envelope(r2) == object_envelope(r));
    lemma_find_push(m, (object_digest(r), r), object_digest(r), 0);
}

/// Inserting keeps the store well formed and keeps every entry already there.
pub proof fn lemma_insert_keeps_store(m: Seq<(Seq<u8>, RecordView)>, r: RecordView)
    requires
        store_wf(m),
    ensures
        store_wf(store_insert(m, r)),
        store_insert(m, r).len() >= m.len(),
        store_insert(m, r).subrange(0, m.len() as int) == m,
{
    let k = object_digest(r);
    if store_get(m, k) is None {
        lemma_find_absent(m, k, 0);
    }
    assert(store_insert(m, r).subrange(0, m.len() as int) =~= m);
}

/// The content-addressed object store.
///
/// Entries are kept in a vector with unique keys rather than a `HashMap`:
/// vstd specifies `HashMap` only for keys whose hashing it models (integers,
/// `bool`), and a 20-byte digest key is not among them, so lookups through a
/// map could not be proved.
pub struct Database {
    entries: Vec<(ObjectID, Record)>,
}

impl View for Database {
    type V = Seq<(Seq<u8>, RecordView)>;

    closed spec fn view(&self) -> Seq<(Seq<u8>, RecordView)> {
        self.entries@.map_values(|e: (ObjectID, Record)| (e.0@, e.1@))
    }
}

impl Database {
    pub open spec fn wf(&self) -> bool {
        store_wf(self@)
    }

    pub fn new() -> (r: Database)
        ensures
            r.wf(),
            r@ == Seq::<(Seq<u8>, RecordView)>::empty(),
    {
        let r = Database { entries: Vec::new() };
        assert(r@ =~= Seq::<(Seq<u8>, RecordView)>::empty());
        r
    }

    /// Index of the entry stored under `id`, if any.
    fn position_of(&self, id: &[u8; 20]) -> (r: Option<usize>)
        ensures
            match r {
                Some(i) => i < self@.len() && self@[i as int].0 == id@ && store_get(self@, id@)
                    == Some(self@[i as int].1),
                None => store_get(self@, id@) is None,
            },
    {
        let mut i: usize = 0;
        while i < self.entries.len()
            invariant
                i <= self.entries.len(),
                store_get(self@, id@) == store_find(self@, id@, i as int),
            decreases self.entries.len() - i,
        {
            let key = self.entries[i].0.as_bytes();
            if same_digest(&key, id) {
                return Some(i);
            }
            i = i + 1;
        }
        None
    }

    /// Stores `record` under its identity, unless an entry with that identity is
    /// there already, and returns the identity.
    pub fn insert(&mut self, record: Record) -> (r: Option<ObjectID>)
        requires
            old(self).wf(),
        ensures
            final(self).wf(),
            final(self)@ == store_insert(old(self)@, record@),
            r is Some && r->0@ == object_digest(record@),
    {
        let id = object_id_of(&record);
        let key = id.as_bytes();
        match self.position_of(&key) {
            Some(_) => Some(id),
            None => {
                proof {
                    lemma_find_absent(self@, id@, 0);
                }
                let ghost before = self@;
                self.entries.push((id.duplicate(), record));
                assert(self@ =~= before.push((id@, record@)));
                Some(id)
            },
        }
    }

    /// The record stored under `oid`.
    pub fn fetch(&self, oid: &ObjectID) -> (r: Option<&Record>)
        ensures
            match r {
                Some(rec) => store_get(self@, oid@) == Some(rec@),
                None => store_get(self@, oid@) is None,
            },
    {
        let key = oid.as_bytes();
        match self.position_of(&key) {
            Some(i) => Some(&self.entries[i].1),
            None => None,
        }
    }

    /// The number of stored objects.
    pub fn object_count(&self) -> (r: usize)
        ensures
            r == self@.len(),
    {
        self.entries.len()
    }

    /// The identities of all stored objects, in the store's order.
    pub fn object_ids(&self) -> (r: Vec<ObjectID>)
        ensures
            r@.len() == self@.len(),
            forall|i: int| 0 <= i < r@.len() ==> r@[i]@ == self@[i].0,
    {
        let mut out: Vec<ObjectID> = Vec::new();
        let mut i: usize = 0;
        while i < self.entries.len()
            invariant
                i <= self.entries.len(),
                out@.len() == i,
                forall|k: int| 0 <= k < i ==> out@[k]@ == self@[k].0,
            decreases self.entries.len() - i,
        {
            out.push(self.entries[i].0.duplicate());
            i = i + 1;
        }
        out
    }
}

} // verus!
