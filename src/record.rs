//! Parsers that turn an object's content bytes into a record.
use crate::connection::ConnectionResult;
use crate::database::{ObjectID, Record, RecordView, TreeEntry, TreeEntryView};
use crate::util::{array20_at, copy_range};
use vstd::prelude::*;

verus! {

/// Text decoded from bytes as UTF-8, with each invalid sequence replaced.
pub uninterp spec fn utf8_lossy(b: Seq<u8>) -> Seq<char>;

/// Relies on String::from_utf8_lossy: the text of `b` read as UTF-8, with
/// replacement characters for invalid sequences.
#[verifier::external_body]
fn lossy_text(b: &[u8]) -> (r: String)
    ensures
        r@ == utf8_lossy(b@),
{
    String::from_utf8_lossy(b).into_owned()
}

/// Number of bytes from `p` on before the first byte equal to `b` (or the end).
pub open spec fn scan_to(s: Seq<u8>, p: int, b: u8) -> nat
    decreases s.len() - p,
{
    if p < 0 || p >= s.len() || s[p] == b {
        0
    } else {
        1 + scan_to(s, p + 1, b)
    }
}

/// The entries of tree content from `p` on: each is mode digits up to and
/// including a space, a name up to and including a NUL byte, then a 20-byte
/// object id; the mode keeps its space and the name its NUL. `None` where the content
/// ends inside an entry.
pub open spec fn tree_entries_from(s: Seq<u8>, p: int) -> Option<Seq<TreeEntryView>>
    decreases s.len() - p,
{
    if p < 0 || p >= s.len() {
        Some(Seq::empty())
    } else {
        let i = p + scan_to(s, p, 0x20);
        let j = i + 1 + scan_to(s, i + 1, 0);
        if j + 21 > s.len() {
            None
        } else {
            match tree_entries_from(s, j + 21) {
                Some(rest) => Some(
                    seq![
                        TreeEntryView {
                            mode: s.subrange(p, i + 1),
                            name: utf8_lossy(s.subrange(i + 1, j + 1)),
                            id: s.subrange(j + 1, j + 21),
                        },
                    ] + rest,
                ),
                None => None,
            }
        }
    }
}

/// The record that content `d` of the type with pack tag `tag` makes:
/// 1 commit, 2 tree, 3 blob.
pub open spec fn parsed_record(tag: u8, d: Seq<u8>) -> Option<RecordView> {
    if tag == 1 {
        Some(RecordView::Commit { raw: d, info: utf8_lossy(d) })
    } else if tag == 2 {
        match tree_entries_from(d, 0) {
            Some(es) => Some(RecordView::Tree { raw: d, entries: es }),
            None => None,
        }
    } else if tag == 3 {
        Some(RecordView::Blob { raw: d })
    } else {
        None
    }
}

pub fn parse_commit(d: Vec<u8>) -> (r: Record)
    ensures
        r@ == (RecordView::Commit { raw: d@, info: utf8_lossy(d@) }),
{
    let info = lossy_text(d.as_slice());
    Record::Commit { data: d, commit_info: info }
}

/// Index of the first byte equal to `b` at or after `p`, or the length.
fn find_byte(s: &[u8], p: usize, b: u8) -> (r: usize)
    requires
        p <= s.len(),
    ensures
        r == p + scan_to(s@, p as int, b),
        r <= s.len(),
{
    let mut i: usize = p;
    while i < s.len() && s[i] != b
        invariant
            p <= i <= s.len(),
            p + scan_to(s@, p as int, b) == i + scan_to(s@, i as int, b),
        decreases s.len() - i,
    {
        i = i + 1;
    }
    i
}

/// Parses tree content; `None` where an entry is cut short.
pub fn parse_tree(d: Vec<u8>) -> (r: Option<Record>)
    ensures
        match tree_entries_from(d@, 0) {
            Some(es) => r is Some && r->0@ == (RecordView::Tree { raw: d@, entries: es }),
            None => r is None,
        },
{
    let ghost s = d@;
    let mut entries: Vec<TreeEntry> = Vec::new();
    let mut p: usize = 0;
    while p < d.len()
        invariant
            s == d@,
            p <= d.len(),
            tree_entries_from(s, p as int) is None ==> tree_entries_from(s, 0) is None,
            tree_entries_from(s, p as int) is Some ==> tree_entries_from(s, 0) == Some(
                entries@.map_values(|e: TreeEntry| e@) + tree_entries_from(s, p as int)->0,
            ),
        decreases d.len() - p,
    {
        let i = find_byte(d.as_slice(), p, 0x20);
        if i >= d.len() {
            return None;
        }
        let j = find_byte(d.as_slice(), i + 1, 0);
        if j >= d.len() || d.len() - j < 21 {
            return None;
        }
        let mode = copy_range(d.as_slice(), p, i + 1);
        let name_bytes = copy_range(d.as_slice(), i + 1, j + 1);
        let name = lossy_text(name_bytes.as_slice());
        let id = array20_at(d.as_slice(), j + 1);
        let ghost before = entries@.map_values(|e: TreeEntry| e@);
        let entry = TreeEntry { mode, name, object_id: ObjectID::from_oid_bytes(id) };
        entries.push(entry);
        assert(entries@.map_values(|e: TreeEntry| e@) =~= before.push(entry@));
        p = j + 21;
    }
    proof {
        assert(entries@.map_values(|e: TreeEntry| e@) + Seq::<TreeEntryView>::empty()
            =~= entries@.map_values(|e: TreeEntry| e@));
    }
    Some(Record::Tree { data: d, entries })
}

pub fn parse_blob(d: Vec<u8>) -> (r: Record)
    ensures
        r@ == (RecordView::Blob { raw: d@ }),
{
    Record::Blob { data: d }
}

/// Offset deltas are not supported: always the `UnsupportedFeature` error.
pub fn parse_ofs_delta(d: Vec<u8>) -> (r: Result<Record, ConnectionResult>)
    ensures
        r == Err::<Record, ConnectionResult>(ConnectionResult::UnsupportedFeature),
{
    Err(ConnectionResult::UnsupportedFeature)
}

/// Content rebuilt from a delta whose base type is unknown, kept as a blob.
pub fn parse_ref_delta(d: Vec<u8>) -> (r: Record)
    ensures
        r@ == (RecordView::Blob { raw: d@ }),
{
    Record::Blob { data: d }
}


/// Tree content written from (mode, name, id) triples: each as mode, a space,
/// name, a NUL byte, then the id.
pub open spec fn tree_encoding(es: Seq<(Seq<u8>, Seq<u8>, Seq<u8>)>) -> Seq<u8>
    decreases es.len(),
{
    if es.len() == 0 {
        Seq::empty()
    } else {
        es[0].0 + seq![0x20u8] + es[0].1 + seq![0u8] + es[0].2 + tree_encoding(
            es.subrange(1, es.len() as int),
        )
    }
}

/// A triple that tree content can hold: no space in the mode, no NUL byte in
/// the name, and a 20-byte id.
pub open spec fn encodable_entry(e: (Seq<u8>, Seq<u8>, Seq<u8>)) -> bool {
    &&& forall|k: int| 0 <= k < e.0.len() ==> e.0[k] != 0x20
    &&& forall|k: int| 0 <= k < e.1.len() ==> e.1[k] != 0
    &&& e.2.len() == 20
}

/// The entry that a triple parses to: the mode with its space, the name with
/// its NUL byte read as lenient UTF-8 text, and the id.
pub open spec fn entry_of(e: (Seq<u8>, Seq<u8>, Seq<u8>)) -> TreeEntryView {
    TreeEntryView { mode: e.0 + seq![0x20u8], name: utf8_lossy(e.1 + seq![0u8]), id: e.2 }
}

proof fn lemma_scan(s: Seq<u8>, p: int, b: u8, m: nat)
    requires
        0 <= p,
        p + m < s.len(),
        s[p + m] == b,
        forall|k: int| p <= k < p + m ==> s[k] != b,
    ensures
        scan_to(s, p, b) == m,
    decreases m,
{
    if m > 0 {
        lemma_scan(s, p + 1, b, (m - 1) as nat);
    }
}

proof fn lemma_tree_from(s: Seq<u8>, p: int, es: Seq<(Seq<u8>, Seq<u8>, Seq<u8>)>)
    requires
        0 <= p <= s.len(),
        s.subrange(p, s.len() as int) == tree_encoding(es),
        forall|i: int| 0 <= i < es.len() ==> encodable_entry(#[trigger] es[i]),
    ensures
        tree_entries_from(s, p) == Some(es.map_values(|e: (Seq<u8>, Seq<u8>, Seq<u8>)| entry_of(e))),
    decreases es.len(),
{
    if es.len() == 0 {
        assert(s.subrange(p, s.len() as int).len() == 0);
        assert(es.map_values(|e: (Seq<u8>, Seq<u8>, Seq<u8>)| entry_of(e)) =~= Seq::empty());
    } else {
        let e = es[0];
        let rest = es.subrange(1, es.len() as int);
        assert(encodable_entry(es[0]));
        let enc = tree_encoding(es);
        let tail = tree_encoding(rest);
        let m = e.0.len() as int;
        let n = e.1.len() as int;
        let i = p + m;
        let j = i + 1 + n;
        assert(enc == e.0 + seq![0x20u8] + e.1 + seq![0u8] + e.2 + tail);
        assert(enc.len() == m + 1 + n + 1 + 20 + tail.len());
        assert forall|k: int| 0 <= k < enc.len() implies s[p + k] == enc[k] by {
            assert(s.subrange(p, s.len() as int)[k] == s[p + k]);
        }
        assert forall|k: int| p <= k < i implies s[k] != 0x20 by {
            assert(s[k] == enc[k - p]);
            assert(enc[k - p] == e.0[k - p]);
        }
        assert(s[i] == enc[m]);
        lemma_scan(s, p, 0x20, m as nat);
        assert forall|k: int| i + 1 <= k < j implies s[k] != 0 by {
            assert(s[k] == enc[k - p]);
            assert(enc[k - p] == e.1[k - i - 1]);
        }
        assert(s[j] == enc[j - p]);
        lemma_scan(s, i + 1, 0, n as nat);
        assert(s.subrange(p, i + 1) =~= e.0 + seq![0x20u8]) by {
            assert forall|k: int| 0 <= k <= m implies s.subrange(p, i + 1)[k] == (e.0 + seq![
                0x20u8,
            ])[k] by {
                assert(s[p + k] == enc[k]);
            }
        }
        assert(s.subrange(i + 1, j + 1) =~= e.1 + seq![0u8]) by {
            assert forall|k: int| 0 <= k <= n implies s.subrange(i + 1, j + 1)[k] == (e.1 + seq![
                0u8,
            ])[k] by {
                assert(s[i + 1 + k] == enc[m + 1 + k]);
            }
        }
        assert(s.subrange(j + 1, j + 21) =~= e.2) by {
            assert forall|k: int| 0 <= k < 20 implies s.subrange(j + 1, j + 21)[k] == e.2[k] by {
                assert(s[j + 1 + k] == enc[m + n + 2 + k]);
            }
        }
        assert(s.subrange(j + 21, s.len() as int) =~= tail) by {
            assert forall|k: int| 0 <= k < tail.len() implies s.subrange(j + 21, s.len() as int)[k]
                == tail[k] by {
                assert(s[j + 21 + k] == enc[m + n + 22 + k]);
            }
        }
        assert forall|x: int| 0 <= x < rest.len() implies encodable_entry(#[trigger] rest[x]) by {
            assert(rest[x] == es[x + 1]);
        }
        lemma_tree_from(s, j + 21, rest);
        assert(p < s.len());
        assert(scan_to(s, p, 0x20) == m);
        assert(scan_to(s, i + 1, 0) == n);
        assert(tree_entries_from(s, p) == Some(
            seq![entry_of(e)]
                + rest.map_values(|e: (Seq<u8>, Seq<u8>, Seq<u8>)| entry_of(e)),
        ));
        assert(es.map_values(|e: (Seq<u8>, Seq<u8>, Seq<u8>)| entry_of(e)) =~= seq![entry_of(e)]
            + rest.map_values(|e: (Seq<u8>, Seq<u8>, Seq<u8>)| entry_of(e)));
    }
}

/// Tree content written from triples that a tree can hold parses back to the
/// same entries in the same order: each mode with its space, and each name with
/// its NUL byte read as lenient UTF-8 text.
pub proof fn lemma_tree_round_trip(es: Seq<(Seq<u8>, Seq<u8>, Seq<u8>)>)
    requires
        forall|i: int| 0 <= i < es.len() ==> encodable_entry(#[trigger] es[i]),
    ensures
        tree_entries_from(tree_encoding(es), 0) == Some(
            es.map_values(|e: (Seq<u8>, Seq<u8>, Seq<u8>)| entry_of(e)),
        ),
{
    let s = tree_encoding(es);
    assert(s.subrange(0, s.len() as int) =~= s);
    lemma_tree_from(s, 0, es);
}

} // verus!
