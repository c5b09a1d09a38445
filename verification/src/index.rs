//! The note index: a persistent mapping from stable note identifier to
//! relative file path and creation time, with the reconciliation that keeps
//! it consistent with a directory scan (dead entries pruned, orphan files
//! adopted under a path-derived identifier).
//!
//! The index is held as a vector of pairs with unique identifiers; callers
//! persist it as JSON and hand it back on load.

use vstd::prelude::*;

use sha1::Digest;

use crate::text::{keep_id_chars, push_str, sanitize_note_id, string_of};

verus! {

/// One persisted index record: where the note lives, when it was first
/// created, and an optional user-set title.
pub struct NoteIndexEntry {
    pub relative_path: String,
    pub created_at: u64,
    pub manual_title: Option<String>,
}

/// The mathematical image of an entry.
pub ghost struct EntryV {
    pub relative_path: Seq<char>,
    pub created_at: u64,
    pub manual_title: Option<Seq<char>>,
}

impl View for NoteIndexEntry {
    type V = EntryV;

    open spec fn view(&self) -> EntryV {
        EntryV {
            relative_path: self.relative_path@,
            created_at: self.created_at,
            manual_title: match self.manual_title {
                Option::Some(ref s) => Option::Some(s@),
                Option::None => Option::None,
            },
        }
    }
}

/// One identifier with its entry.
pub struct IndexPair {
    pub note_id: String,
    pub entry: NoteIndexEntry,
}

/// The full identifier-to-entry mapping of one save root.
pub struct NoteIndex {
    pub entries: Vec<IndexPair>,
}

/// The mathematical image of the index: identifier/entry pairs in order.
pub open spec fn pairs_view(ps: Seq<IndexPair>) -> Seq<(Seq<char>, EntryV)> {
    ps.map_values(|p: IndexPair| (p.note_id@, p.entry@))
}

impl View for NoteIndex {
    type V = Seq<(Seq<char>, EntryV)>;

    open spec fn view(&self) -> Seq<(Seq<char>, EntryV)> {
        pairs_view(self.entries@)
    }
}

/// Whether some pair carries the identifier.
pub open spec fn has_id(s: Seq<(Seq<char>, EntryV)>, id: Seq<char>) -> bool {
    exists|k: int| 0 <= k < s.len() && (#[trigger] s[k]).0 == id
}

/// Whether some entry points at the path.
pub open spec fn path_used(s: Seq<(Seq<char>, EntryV)>, p: Seq<char>) -> bool {
    exists|k: int| 0 <= k < s.len() && (#[trigger] s[k]).1.relative_path == p
}

/// The entry of the first pair carrying the identifier.
pub open spec fn lookup(s: Seq<(Seq<char>, EntryV)>, id: Seq<char>) -> Option<EntryV>
    decreases s.len(),
{
    if s.len() == 0 {
        Option::None
    } else if s[0].0 == id {
        Option::Some(s[0].1)
    } else {
        lookup(s.skip(1), id)
    }
}

/// The mapping with the identifier bound to the entry: the first pair with
/// that identifier is replaced in place, or a new pair is appended.
pub open spec fn upsert_spec(
    s: Seq<(Seq<char>, EntryV)>,
    id: Seq<char>,
    e: EntryV,
) -> Seq<(Seq<char>, EntryV)>
    decreases s.len(),
{
    if s.len() == 0 {
        seq![(id, e)]
    } else if s[0].0 == id {
        seq![(id, e)] + s.skip(1)
    } else {
        seq![s[0]] + upsert_spec(s.skip(1), id, e)
    }
}

/// The mapping without the first pair carrying the identifier.
pub open spec fn remove_spec(
    s: Seq<(Seq<char>, EntryV)>,
    id: Seq<char>,
) -> Seq<(Seq<char>, EntryV)>
    decreases s.len(),
{
    if s.len() == 0 {
        s
    } else if s[0].0 == id {
        s.skip(1)
    } else {
        seq![s[0]] + remove_spec(s.skip(1), id)
    }
}

/// Identifiers are pairwise distinct.
pub open spec fn wf_pairs(s: Seq<(Seq<char>, EntryV)>) -> bool {
    forall|i: int, j: int| 0 <= i < j < s.len() ==> (#[trigger] s[i]).0 != (#[trigger] s[j]).0
}

impl NoteIndex {
    /// The empty index.
    pub fn new() -> (r: NoteIndex)
        ensures
            r@ == Seq::<(Seq<char>, EntryV)>::empty(),
    {
        let r = NoteIndex { entries: Vec::new() };
        proof {
            assert(r@ =~= Seq::<(Seq<char>, EntryV)>::empty());
        }
        r
    }

    /// The position of the identifier, if it is bound.
    fn position_of(&self, id: &String) -> (r: Option<usize>)
        ensures
            match r {
                Option::Some(k) => {
                    &&& k < self@.len()
                    &&& self@[k as int].0 == id@
                    &&& forall|m: int| 0 <= m < k ==> (#[trigger] self@[m]).0 != id@
                },
                Option::None => !has_id(self@, id@),
            },
    {
        let mut k: usize = 0;
        while k < self.entries.len()
            invariant
                k <= self.entries@.len(),
                self@ == pairs_view(self.entries@),
                self@.len() == self.entries@.len(),
                forall|m: int| 0 <= m < k ==> (#[trigger] self@[m]).0 != id@,
            decreases self.entries@.len() - k,
        {
            if self.entries[k].note_id == *id {
                proof {
                    assert(self@[k as int].0 == id@);
                }
                return Some(k);
            }
            k = k + 1;
        }
        None
    }

    /// Look an identifier up.
    pub fn get(&self, id: &String) -> (r: Option<&NoteIndexEntry>)
        ensures
            match r {
                Option::Some(e) => lookup(self@, id@) == Option::Some(e@),
                Option::None => lookup(self@, id@) is None,
            },
    {
        proof {
            lemma_lookup_by_position(self@, id@);
        }
        match self.position_of(id) {
            Some(k) => Some(&self.entries[k].entry),
            None => None,
        }
    }

    /// Bind `id` to `e`, replacing an existing binding in place; identifiers
    /// stay pairwise distinct.
    pub fn upsert(&mut self, id: String, e: NoteIndexEntry)
        ensures
            final(self)@ == upsert_spec(old(self)@, id@, e@),
            wf_pairs(old(self)@) ==> wf_pairs(final(self)@),
    {
        let ghost s0 = self@;
        proof {
            lemma_upsert_by_position(s0, id@, e@);
        }
        match self.position_of(&id) {
            Some(k) => {
                self.entries.set(k, IndexPair { note_id: id, entry: e });
                proof {
                    assert(self@ =~= s0.update(k as int, (id@, e@)));
                    if wf_pairs(s0) {
                        assert forall|i: int, j: int| 0 <= i < j < self@.len()
                            implies (#[trigger] self@[i]).0 != (#[trigger] self@[j]).0 by {
                            assert(self@[i].0 == s0[i].0 && self@[j].0 == s0[j].0);
                        }
                    }
                }
            },
            None => {
                self.entries.push(IndexPair { note_id: id, entry: e });
                proof {
                    assert(self@ =~= s0.push((id@, e@)));
                    if wf_pairs(s0) {
                        assert forall|i: int, j: int| 0 <= i < j < self@.len()
                            implies (#[trigger] self@[i]).0 != (#[trigger] self@[j]).0 by {
                            if j == s0.len() {
                                if s0[i].0 == id@ {
                                    assert(has_id(s0, id@));
                                }
                            }
                        }
                    }
                }
            },
        }
    }

    /// Unbind `id`; yields the removed entry. Identifiers stay pairwise
    /// distinct.
    pub fn take_out(&mut self, id: &String) -> (r: Option<NoteIndexEntry>)
        ensures
            final(self)@ == remove_spec(old(self)@, id@),
            wf_pairs(old(self)@) ==> wf_pairs(final(self)@),
            match r {
                Option::Some(e) => lookup(old(self)@, id@) == Option::Some(e@),
                Option::None => lookup(old(self)@, id@) is None && final(self)@ == old(self)@,
            },
    {
        let ghost s0 = self@;
        proof {
            lemma_lookup_by_position(s0, id@);
            lemma_remove_by_position(s0, id@);
        }
        match self.position_of(id) {
            Some(k) => {
                let pair = self.entries.remove(k);
                proof {
                    assert(self@ =~= s0.remove(k as int));
                    if wf_pairs(s0) {
                        assert forall|i: int, j: int| 0 <= i < j < self@.len()
                            implies (#[trigger] self@[i]).0 != (#[trigger] self@[j]).0 by {
                            let i0: int = if i < k { i } else { i + 1 };
                            let j0: int = if j < k { j } else { j + 1 };
                            assert(self@[i] == s0[i0] && self@[j] == s0[j0]);
                        }
                    }
                }
                Some(pair.entry)
            },
            None => {
                proof {
                    assert(remove_spec(s0, id@) == s0) by {
                        lemma_remove_absent(s0, id@);
                    }
                }
                None
            },
        }
    }
}

proof fn lemma_lookup_by_position(s: Seq<(Seq<char>, EntryV)>, id: Seq<char>)
    ensures
        forall|k: int| {
            &&& 0 <= k < s.len()
            &&& (#[trigger] s[k]).0 == id
            &&& (forall|m: int| 0 <= m < k ==> (#[trigger] s[m]).0 != id)
        } ==> lookup(s, id) == Option::Some(s[k].1),
        !has_id(s, id) ==> lookup(s, id) is None,
    decreases s.len(),
{
    if s.len() > 0 {
        lemma_lookup_by_position(s.skip(1), id);
        assert forall|k: int| {
            &&& 0 <= k < s.len()
            &&& (#[trigger] s[k]).0 == id
            &&& (forall|m: int| 0 <= m < k ==> (#[trigger] s[m]).0 != id)
        } implies lookup(s, id) == Option::Some(s[k].1) by {
            if k > 0 {
                assert(s[0].0 != id);
                assert(s.skip(1)[k - 1] == s[k]);
                assert(forall|m: int| 0 <= m < k - 1 ==> (#[trigger] s.skip(1)[m]).0 != id);
            }
        }
        if !has_id(s, id) {
            assert(s[0].0 != id);
            assert(!has_id(s.skip(1), id)) by {
                assert(forall|m: int| 0 <= m < s.skip(1).len()
                    ==> (#[trigger] s.skip(1)[m]) == s[m + 1]);
            }
        }
    }
}

proof fn lemma_upsert_by_position(s: Seq<(Seq<char>, EntryV)>, id: Seq<char>, e: EntryV)
    ensures
        forall|k: int| {
            &&& 0 <= k < s.len()
            &&& (#[trigger] s[k]).0 == id
            &&& (forall|m: int| 0 <= m < k ==> (#[trigger] s[m]).0 != id)
        } ==> upsert_spec(s, id, e) == s.update(k, (id, e)),
        !has_id(s, id) ==> upsert_spec(s, id, e) == s.push((id, e)),
    decreases s.len(),
{
    if s.len() == 0 {
        assert(upsert_spec(s, id, e) =~= s.push((id, e)));
    } else {
        lemma_upsert_by_position(s.skip(1), id, e);
        assert forall|k: int| {
            &&& 0 <= k < s.len()
            &&& (#[trigger] s[k]).0 == id
            &&& (forall|m: int| 0 <= m < k ==> (#[trigger] s[m]).0 != id)
        } implies upsert_spec(s, id, e) == s.update(k, (id, e)) by {
            if k == 0 {
                assert(upsert_spec(s, id, e) == seq![(id, e)] + s.skip(1));
                assert(seq![(id, e)] + s.skip(1) =~= s.update(0, (id, e)));
            } else {
                assert(s[0].0 != id);
                assert(s.skip(1)[k - 1] == s[k]);
                assert(forall|m: int| 0 <= m < k - 1 ==> (#[trigger] s.skip(1)[m]).0 != id);
                assert(upsert_spec(s.skip(1), id, e) == s.skip(1).update(k - 1, (id, e)));
                assert(seq![s[0]] + s.skip(1).update(k - 1, (id, e)) =~= s.update(k, (id, e)));
            }
        }
        if !has_id(s, id) {
            assert(s[0].0 != id);
            assert(!has_id(s.skip(1), id)) by {
                assert(forall|m: int| 0 <= m < s.skip(1).len()
                    ==> (#[trigger] s.skip(1)[m]) == s[m + 1]);
            }
            assert(seq![s[0]] + s.skip(1).push((id, e)) =~= s.push((id, e)));
        }
    }
}

proof fn lemma_remove_by_position(s: Seq<(Seq<char>, EntryV)>, id: Seq<char>)
    ensures
        forall|k: int| {
            &&& 0 <= k < s.len()
            &&& (#[trigger] s[k]).0 == id
            &&& (forall|m: int| 0 <= m < k ==> (#[trigger] s[m]).0 != id)
        } ==> remove_spec(s, id) == s.remove(k),
    decreases s.len(),
{
    if s.len() > 0 {
        lemma_remove_by_position(s.skip(1), id);
        assert forall|k: int| {
            &&& 0 <= k < s.len()
            &&& (#[trigger] s[k]).0 == id
            &&& (forall|m: int| 0 <= m < k ==> (#[trigger] s[m]).0 != id)
        } implies remove_spec(s, id) == s.remove(k) by {
            if k == 0 {
                assert(s.skip(1) =~= s.remove(0));
            } else {
                assert(s[0].0 != id);
                assert(s.skip(1)[k - 1] == s[k]);
                assert(forall|m: int| 0 <= m < k - 1 ==> (#[trigger] s.skip(1)[m]).0 != id);
                assert(remove_spec(s.skip(1), id) == s.skip(1).remove(k - 1));
                assert(seq![s[0]] + s.skip(1).remove(k - 1) =~= s.remove(k));
            }
        }
    }
}

proof fn lemma_remove_absent(s: Seq<(Seq<char>, EntryV)>, id: Seq<char>)
    requires
        !has_id(s, id),
    ensures
        remove_spec(s, id) == s,
    decreases s.len(),
{
    if s.len() > 0 {
        assert(s[0].0 != id);
        assert(!has_id(s.skip(1), id)) by {
            assert(forall|m: int| 0 <= m < s.skip(1).len()
                ==> (#[trigger] s.skip(1)[m]) == s[m + 1]);
        }
        lemma_remove_absent(s.skip(1), id);
        assert(seq![s[0]] + s.skip(1) =~= s);
    }
}

// ── Path-derived identifiers ──

/// What the SHA-1 digest of the UTF-8 bytes of a text is. Named, never
/// stated: the digest is a pure function of the text alone.
pub uninterp spec fn sha1_of(s: Seq<char>) -> Seq<u8>;

/// Relies on the `sha1` crate (`Digest::new/update/finalize`): the digest is
/// 20 bytes and depends on the hashed bytes alone.
#[verifier::external_body]
fn sha1_digest(s: &str) -> (r: Vec<u8>)
    ensures
        r@ == sha1_of(s@),
        r@.len() == 20,
{
    let mut hasher = sha1::Sha1::new();
    hasher.update(s.as_bytes());
    hasher.finalize().to_vec()
}

/// The lower-case hex digit of a nibble.
pub open spec fn hex_digit(n: u8) -> char {
    if n == 0 { '0' } else if n == 1 { '1' } else if n == 2 { '2' }
    else if n == 3 { '3' } else if n == 4 { '4' } else if n == 5 { '5' }
    else if n == 6 { '6' } else if n == 7 { '7' } else if n == 8 { '8' }
    else if n == 9 { '9' } else if n == 10 { 'a' } else if n == 11 { 'b' }
    else if n == 12 { 'c' } else if n == 13 { 'd' } else if n == 14 { 'e' }
    else { 'f' }
}

/// Bytes written as lower-case hex, two digits each.
pub open spec fn hex_of_bytes(bs: Seq<u8>) -> Seq<char>
    decreases bs.len(),
{
    if bs.len() == 0 {
        Seq::empty()
    } else {
        hex_of_bytes(bs.drop_last())
            + seq![hex_digit(bs.last() / 16), hex_digit(bs.last() % 16)]
    }
}

/// The identifier a relative path derives: `note-` and the first twelve hex
/// digits of the path's SHA-1 digest — a pure function of the path, so
/// repeated reconciliations assign the same identifier.
pub open spec fn note_id_of(path: Seq<char>) -> Seq<char> {
    "note-"@ + hex_of_bytes(sha1_of(path)).take(12)
}

proof fn lemma_hex_len(bs: Seq<u8>)
    ensures
        hex_of_bytes(bs).len() == 2 * bs.len(),
    decreases bs.len(),
{
    if bs.len() > 0 {
        lemma_hex_len(bs.drop_last());
    }
}

fn hex_digit_of(n: u8) -> (c: char)
    requires
        n < 16,
    ensures
        c == hex_digit(n),
{
    if n == 0 { '0' } else if n == 1 { '1' } else if n == 2 { '2' }
    else if n == 3 { '3' } else if n == 4 { '4' } else if n == 5 { '5' }
    else if n == 6 { '6' } else if n == 7 { '7' } else if n == 8 { '8' }
    else if n == 9 { '9' } else if n == 10 { 'a' } else if n == 11 { 'b' }
    else if n == 12 { 'c' } else if n == 13 { 'd' } else if n == 14 { 'e' }
    else { 'f' }
}

/// Derive the stable identifier of a note discovered at a relative path.
pub fn generate_note_id(relative_file_path: &str) -> (r: String)
    ensures
        r@ == note_id_of(relative_file_path@),
{
    let digest = sha1_digest(relative_file_path);
    let mut hex: Vec<char> = Vec::new();
    let mut i: usize = 0;
    while i < digest.len()
        invariant
            i <= digest@.len(),
            hex@ == hex_of_bytes(digest@.take(i as int)),
        decreases digest@.len() - i,
    {
        let b = digest[i];
        proof {
            assert(digest@.take(i + 1 as int).drop_last() =~= digest@.take(i as int));
            assert(digest@.take(i + 1 as int).last() == digest@[i as int]);
        }
        hex.push(hex_digit_of(b / 16));
        hex.push(hex_digit_of(b % 16));
        proof {
            assert(hex@ =~= hex_of_bytes(digest@.take(i as int))
                + seq![hex_digit(digest@[i as int] / 16), hex_digit(digest@[i as int] % 16)]);
        }
        i = i + 1;
    }
    proof {
        assert(digest@.take(digest@.len() as int) =~= digest@);
        lemma_hex_len(digest@);
    }
    let mut out: Vec<char> = Vec::new();
    push_str(&mut out, "note-");
    let mut k: usize = 0;
    while k < 12
        invariant
            k <= 12,
            hex@.len() == 40,
            hex@ == hex_of_bytes(sha1_of(relative_file_path@)),
            out@ == "note-"@ + hex@.take(k as int),
        decreases 12 - k,
    {
        out.push(hex[k]);
        proof {
            assert("note-"@ + hex@.take(k + 1 as int)
                =~= ("note-"@ + hex@.take(k as int)).push(hex@[k as int]));
        }
        k = k + 1;
    }
    string_of(&out)
}

// ── Reconciliation ──

/// One file found by a directory scan: its root-relative path in
/// forward-slash form, and its creation time in milliseconds (the caller's
/// best effort: file creation time, else modification time, else now).
pub struct ScannedFile {
    pub relative_path: String,
    pub created_at: u64,
}

/// The mathematical image of a scan.
pub open spec fn files_view(fs: Seq<ScannedFile>) -> Seq<(Seq<char>, u64)> {
    fs.map_values(|f: ScannedFile| (f.relative_path@, f.created_at))
}

/// The paths of a scan.
pub open spec fn files_paths(fv: Seq<(Seq<char>, u64)>) -> Seq<Seq<char>> {
    fv.map_values(|f: (Seq<char>, u64)| f.0)
}

/// The pairs whose entry still points at a scanned path, in order.
pub open spec fn survivors(
    s: Seq<(Seq<char>, EntryV)>,
    paths: Seq<Seq<char>>,
) -> Seq<(Seq<char>, EntryV)>
    decreases s.len(),
{
    if s.len() == 0 {
        s
    } else if paths.contains(s[0].1.relative_path) {
        seq![s[0]] + survivors(s.skip(1), paths)
    } else {
        survivors(s.skip(1), paths)
    }
}

/// The entry an adopted orphan gets.
pub open spec fn orphan_entry(p: Seq<char>, c: u64) -> EntryV {
    EntryV { relative_path: p, created_at: c, manual_title: Option::None }
}

/// Walk the scan: a file whose path no surviving entry uses, and whose
/// derived identifier is still free, is adopted; `base` stays the surviving
/// entries, `acc` grows with each adoption.
pub open spec fn adopt(
    acc: Seq<(Seq<char>, EntryV)>,
    base: Seq<(Seq<char>, EntryV)>,
    fs: Seq<(Seq<char>, u64)>,
) -> Seq<(Seq<char>, EntryV)>
    decreases fs.len(),
{
    if fs.len() == 0 {
        acc
    } else {
        let p = fs[0].0;
        if path_used(base, p) || has_id(acc, note_id_of(p)) {
            adopt(acc, base, fs.skip(1))
        } else {
            adopt(acc.push((note_id_of(p), orphan_entry(p, fs[0].1))), base, fs.skip(1))
        }
    }
}

/// What reconciling an index against a scan leaves: dead entries pruned,
/// orphan files adopted.
pub open spec fn reconcile_spec(
    s: Seq<(Seq<char>, EntryV)>,
    fv: Seq<(Seq<char>, u64)>,
) -> Seq<(Seq<char>, EntryV)> {
    adopt(survivors(s, files_paths(fv)), survivors(s, files_paths(fv)), fv)
}

/// Whether some scanned file has the path.
fn scan_has_path(files: &Vec<ScannedFile>, p: &String) -> (r: bool)
    ensures
        r == files_paths(files_view(files@)).contains(p@),
{
    let ghost paths = files_paths(files_view(files@));
    let mut j: usize = 0;
    while j < files.len()
        invariant
            j <= files@.len(),
            paths == files_paths(files_view(files@)),
            paths.len() == files@.len(),
            forall|m: int| 0 <= m < j ==> paths[m] != p@,
        decreases files@.len() - j,
    {
        if files[j].relative_path == *p {
            proof {
                assert(paths[j as int] == p@);
            }
            return true;
        }
        j = j + 1;
    }
    proof {
        assert(!paths.contains(p@));
    }
    false
}

/// Whether an entry among the first `upto` pairs uses the path.
fn prefix_uses_path(entries: &Vec<IndexPair>, upto: usize, p: &String) -> (r: bool)
    requires
        upto <= entries@.len(),
    ensures
        r == path_used(pairs_view(entries@).take(upto as int), p@),
{
    let ghost pfx = pairs_view(entries@).take(upto as int);
    let mut j: usize = 0;
    while j < upto
        invariant
            j <= upto <= entries@.len(),
            pfx == pairs_view(entries@).take(upto as int),
            forall|m: int| 0 <= m < j ==> (#[trigger] pfx[m]).1.relative_path != p@,
        decreases upto - j,
    {
        if entries[j].entry.relative_path == *p {
            proof {
                assert(pfx[j as int].1.relative_path == p@);
            }
            return true;
        }
        j = j + 1;
    }
    proof {
        assert(!path_used(pfx, p@));
    }
    false
}

/// Whether some pair carries the identifier.
fn entries_have_id(entries: &Vec<IndexPair>, id: &String) -> (r: bool)
    ensures
        r == has_id(pairs_view(entries@), id@),
{
    let ghost pv = pairs_view(entries@);
    let mut j: usize = 0;
    while j < entries.len()
        invariant
            j <= entries@.len(),
            pv == pairs_view(entries@),
            forall|m: int| 0 <= m < j ==> (#[trigger] pv[m]).0 != id@,
        decreases entries@.len() - j,
    {
        if entries[j].note_id == *id {
            proof {
                assert(pv[j as int].0 == id@);
            }
            return true;
        }
        j = j + 1;
    }
    proof {
        assert(!has_id(pv, id@));
    }
    false
}

/// Reconcile the index against a directory scan: every entry whose path no
/// scanned file has is removed, and every scanned file no surviving entry
/// references is adopted under its path-derived identifier, with the scan's
/// creation time and no manual title. The flag says whether anything was
/// removed or added, so the caller knows to persist.
pub fn reconcile_index(index: NoteIndex, files: &Vec<ScannedFile>) -> (r: (NoteIndex, bool))
    ensures
        r.0@ == reconcile_spec(index@, files_view(files@)),
        r.1 == {
            let surv = survivors(index@, files_paths(files_view(files@)));
            surv.len() != index@.len() || r.0@.len() != surv.len()
        },
{
    let ghost s0 = index@;
    let ghost fv = files_view(files@);
    let ghost paths = files_paths(fv);
    let original_len = index.entries.len();
    let mut src = index.entries;
    let mut kept: Vec<IndexPair> = Vec::new();
    proof {
        assert(pairs_view(kept@) + survivors(pairs_view(src@), paths)
            =~= survivors(pairs_view(src@), paths));
    }
    while src.len() > 0
        invariant
            fv == files_view(files@),
            paths == files_paths(fv),
            survivors(s0, paths) == pairs_view(kept@) + survivors(pairs_view(src@), paths),
        decreases src@.len(),
    {
        let ghost pre_kept = pairs_view(kept@);
        let ghost pre_src = pairs_view(src@);
        let pair = src.remove(0);
        proof {
            assert(pairs_view(src@) =~= pre_src.skip(1));
            assert(pre_src[0] == (pair.note_id@, pair.entry@));
        }
        if scan_has_path(files, &pair.entry.relative_path) {
            kept.push(pair);
            proof {
                assert(pairs_view(kept@) =~= pre_kept.push(pre_src[0]));
                assert(pre_kept.push(pre_src[0]) + survivors(pre_src.skip(1), paths)
                    =~= pre_kept + (seq![pre_src[0]] + survivors(pre_src.skip(1), paths)));
            }
        }
    }
    proof {
        assert(pairs_view(src@).len() == 0);
        assert(pairs_view(src@) =~= Seq::<(Seq<char>, EntryV)>::empty());
        assert(pairs_view(kept@) + survivors(pairs_view(src@), paths) =~= pairs_view(kept@));
    }
    let ghost surv = survivors(s0, paths);
    let removed = kept.len() != original_len;
    let base_len = kept.len();
    let mut result = kept;
    let mut i: usize = 0;
    proof {
        assert(pairs_view(result@).take(base_len as int) =~= pairs_view(result@));
        assert(fv.skip(0) =~= fv);
    }
    while i < files.len()
        invariant
            i <= files@.len(),
            fv == files_view(files@),
            paths == files_paths(fv),
            base_len <= result@.len(),
            pairs_view(result@).take(base_len as int) == surv,
            adopt(surv, surv, fv) == adopt(pairs_view(result@), surv, fv.skip(i as int)),
        decreases files@.len() - i,
    {
        let ghost cur = pairs_view(result@);
        proof {
            assert(fv.skip(i as int)[0] == fv[i as int]);
            assert(fv.skip(i as int).skip(1) =~= fv.skip(i + 1 as int));
            assert(fv[i as int] == (files@[i as int].relative_path@, files@[i as int].created_at));
        }
        let f = &files[i];
        let used = prefix_uses_path(&result, base_len, &f.relative_path);
        let id = generate_note_id(f.relative_path.as_str());
        let present = entries_have_id(&result, &id);
        if !used && !present {
            let entry = NoteIndexEntry {
                relative_path: f.relative_path.clone(),
                created_at: f.created_at,
                manual_title: None,
            };
            result.push(IndexPair { note_id: id, entry });
            proof {
                assert(pairs_view(result@)
                    =~= cur.push((note_id_of(fv[i as int].0), orphan_entry(fv[i as int].0, fv[i as int].1))));
                assert(pairs_view(result@).take(base_len as int) =~= cur.take(base_len as int));
            }
        }
        i = i + 1;
    }
    proof {
        assert(fv.skip(fv.len() as int) =~= Seq::<(Seq<char>, u64)>::empty());
    }
    let added = result.len() != base_len;
    (NoteIndex { entries: result }, removed || added)
}

proof fn lemma_survivors_wf(s: Seq<(Seq<char>, EntryV)>, paths: Seq<Seq<char>>)
    requires
        wf_pairs(s),
    ensures
        wf_pairs(survivors(s, paths)),
        forall|x: Seq<char>| has_id(survivors(s, paths), x) ==> has_id(s, x),
    decreases s.len(),
{
    if s.len() > 0 {
        assert(wf_pairs(s.skip(1))) by {
            assert(forall|m: int| 0 <= m < s.skip(1).len()
                ==> (#[trigger] s.skip(1)[m]) == s[m + 1]);
        }
        lemma_survivors_wf(s.skip(1), paths);
        let s1 = survivors(s.skip(1), paths);
        assert forall|x: Seq<char>| has_id(survivors(s, paths), x) implies has_id(s, x) by {
            let r = survivors(s, paths);
            let k = choose|k: int| 0 <= k < r.len() && (#[trigger] r[k]).0 == x;
            if paths.contains(s[0].1.relative_path) && k == 0 {
                assert(s[0].0 == x);
            } else {
                let off: int = if paths.contains(s[0].1.relative_path) { 1 } else { 0 };
                assert(r[k] == s1[k - off]);
                assert(has_id(s1, x));
                assert(has_id(s.skip(1), x));
                let m = choose|m: int| 0 <= m < s.skip(1).len()
                    && (#[trigger] s.skip(1)[m]).0 == x;
                assert(s.skip(1)[m] == s[m + 1]);
            }
        }
        if paths.contains(s[0].1.relative_path) {
            let r = seq![s[0]] + s1;
            assert forall|i: int, j: int| 0 <= i < j < r.len()
                implies (#[trigger] r[i]).0 != (#[trigger] r[j]).0 by {
                if i == 0 {
                    assert(r[j] == s1[j - 1]);
                    if s[0].0 == s1[j - 1].0 {
                        assert(has_id(s1, s[0].0));
                        assert(has_id(s.skip(1), s[0].0));
                        let m = choose|m: int| 0 <= m < s.skip(1).len()
                            && (#[trigger] s.skip(1)[m]).0 == s[0].0;
                        assert(s.skip(1)[m] == s[m + 1]);
                    }
                } else {
                    assert(r[i] == s1[i - 1] && r[j] == s1[j - 1]);
                }
            }
        }
    }
}

proof fn lemma_adopt_wf(
    acc: Seq<(Seq<char>, EntryV)>,
    base: Seq<(Seq<char>, EntryV)>,
    fs: Seq<(Seq<char>, u64)>,
)
    requires
        wf_pairs(acc),
    ensures
        wf_pairs(adopt(acc, base, fs)),
    decreases fs.len(),
{
    if fs.len() > 0 {
        let p = fs[0].0;
        if path_used(base, p) || has_id(acc, note_id_of(p)) {
            lemma_adopt_wf(acc, base, fs.skip(1));
        } else {
            let acc2 = acc.push((note_id_of(p), orphan_entry(p, fs[0].1)));
            assert forall|i: int, j: int| 0 <= i < j < acc2.len()
                implies (#[trigger] acc2[i]).0 != (#[trigger] acc2[j]).0 by {
                if j == acc.len() {
                    if acc[i].0 == note_id_of(p) {
                        assert(has_id(acc, note_id_of(p)));
                    }
                }
            }
            lemma_adopt_wf(acc2, base, fs.skip(1));
        }
    }
}

/// Index integrity: reconciliation keeps identifiers pairwise distinct, so an
/// identifier keeps identifying at most one entry.
pub proof fn lemma_reconcile_preserves_wf(
    s: Seq<(Seq<char>, EntryV)>,
    fv: Seq<(Seq<char>, u64)>,
)
    requires
        wf_pairs(s),
    ensures
        wf_pairs(reconcile_spec(s, fv)),
{
    let paths = files_paths(fv);
    lemma_survivors_wf(s, paths);
    lemma_adopt_wf(survivors(s, paths), survivors(s, paths), fv);
}

proof fn lemma_survivors_member(s: Seq<(Seq<char>, EntryV)>, paths: Seq<Seq<char>>)
    ensures
        forall|pair: (Seq<char>, EntryV)| #[trigger] survivors(s, paths).contains(pair)
            ==> s.contains(pair) && paths.contains(pair.1.relative_path),
    decreases s.len(),
{
    if s.len() > 0 {
        lemma_survivors_member(s.skip(1), paths);
        assert forall|pair: (Seq<char>, EntryV)| #[trigger] survivors(s, paths).contains(pair)
            implies s.contains(pair) && paths.contains(pair.1.relative_path) by {
            if paths.contains(s[0].1.relative_path) {
                let r = seq![s[0]] + survivors(s.skip(1), paths);
                assert(r == survivors(s, paths));
                let k = choose|k: int| 0 <= k < r.len() && r[k] == pair;
                if k == 0 {
                    assert(pair == s[0]);
                    assert(s.contains(s[0]));
                } else {
                    assert(r[k] == survivors(s.skip(1), paths)[k - 1]);
                    assert(survivors(s.skip(1), paths).contains(pair));
                    assert(s.skip(1).contains(pair));
                    let m = choose|m: int| 0 <= m < s.skip(1).len() && s.skip(1)[m] == pair;
                    assert(s.skip(1)[m] == s[m + 1]);
                    assert(s.contains(pair));
                }
            } else {
                assert(survivors(s.skip(1), paths).contains(pair));
                assert(s.skip(1).contains(pair));
                let m = choose|m: int| 0 <= m < s.skip(1).len() && s.skip(1)[m] == pair;
                assert(s.skip(1)[m] == s[m + 1]);
                assert(s.contains(pair));
            }
        }
    }
}

proof fn lemma_adopt_keeps(
    acc: Seq<(Seq<char>, EntryV)>,
    base: Seq<(Seq<char>, EntryV)>,
    fs: Seq<(Seq<char>, u64)>,
)
    ensures
        forall|pair: (Seq<char>, EntryV)| acc.contains(pair)
            ==> #[trigger] adopt(acc, base, fs).contains(pair),
    decreases fs.len(),
{
    if fs.len() > 0 {
        let p = fs[0].0;
        if path_used(base, p) || has_id(acc, note_id_of(p)) {
            lemma_adopt_keeps(acc, base, fs.skip(1));
            assert forall|pair: (Seq<char>, EntryV)| acc.contains(pair)
                implies #[trigger] adopt(acc, base, fs).contains(pair) by {
                assert(adopt(acc, base, fs.skip(1)).contains(pair));
                assert(adopt(acc, base, fs) == adopt(acc, base, fs.skip(1)));
            }
        } else {
            let acc2 = acc.push((note_id_of(p), orphan_entry(p, fs[0].1)));
            lemma_adopt_keeps(acc2, base, fs.skip(1));
            assert forall|pair: (Seq<char>, EntryV)| acc.contains(pair)
                implies #[trigger] adopt(acc, base, fs).contains(pair) by {
                let k = choose|k: int| 0 <= k < acc.len() && acc[k] == pair;
                assert(acc2[k] == pair);
                assert(acc2.contains(pair));
                assert(adopt(acc2, base, fs.skip(1)).contains(pair));
                assert(adopt(acc, base, fs) == adopt(acc2, base, fs.skip(1)));
            }
        }
    }
}

proof fn lemma_adopt_member(
    acc: Seq<(Seq<char>, EntryV)>,
    base: Seq<(Seq<char>, EntryV)>,
    fs: Seq<(Seq<char>, u64)>,
)
    ensures
        forall|pair: (Seq<char>, EntryV)| #[trigger] adopt(acc, base, fs).contains(pair)
            ==> acc.contains(pair) || files_paths(fs).contains(pair.1.relative_path),
    decreases fs.len(),
{
    if fs.len() > 0 {
        let p = fs[0].0;
        let adopted = !(path_used(base, p) || has_id(acc, note_id_of(p)));
        let acc2 = if adopted {
            acc.push((note_id_of(p), orphan_entry(p, fs[0].1)))
        } else {
            acc
        };
        lemma_adopt_member(acc2, base, fs.skip(1));
        assert forall|pair: (Seq<char>, EntryV)| #[trigger] adopt(acc, base, fs).contains(pair)
            implies acc.contains(pair) || files_paths(fs).contains(pair.1.relative_path) by {
            assert(adopt(acc2, base, fs.skip(1)).contains(pair));
            if acc2.contains(pair) {
                let k = choose|k: int| 0 <= k < acc2.len() && acc2[k] == pair;
                if adopted && k == acc.len() {
                    assert(pair.1.relative_path == p);
                    assert(files_paths(fs)[0] == p);
                } else {
                    assert(acc[k] == pair);
                }
            } else {
                assert(files_paths(fs.skip(1)).contains(pair.1.relative_path));
                let m = choose|m: int| 0 <= m < files_paths(fs.skip(1)).len()
                    && files_paths(fs.skip(1))[m] == pair.1.relative_path;
                assert(files_paths(fs)[m + 1] == pair.1.relative_path);
            }
        }
    }
}

proof fn lemma_adopt_orphan(
    acc: Seq<(Seq<char>, EntryV)>,
    base: Seq<(Seq<char>, EntryV)>,
    fs: Seq<(Seq<char>, u64)>,
    fp: Seq<char>,
    fc: u64,
)
    requires
        fs.contains((fp, fc)),
        forall|k: int| 0 <= k < fs.len() && (#[trigger] fs[k]).0 == fp ==> fs[k].1 == fc,
        forall|k: int| 0 <= k < fs.len() && (#[trigger] fs[k]).0 != fp
            ==> note_id_of(fs[k].0) != note_id_of(fp),
        !path_used(base, fp),
        !has_id(acc, note_id_of(fp)),
    ensures
        adopt(acc, base, fs).contains((note_id_of(fp), orphan_entry(fp, fc))),
    decreases fs.len(),
{
    let w = choose|w: int| 0 <= w < fs.len() && fs[w] == (fp, fc);
    let p = fs[0].0;
    if p == fp {
        assert(fs[0].1 == fc);
        assert(!path_used(base, p) && !has_id(acc, note_id_of(p)));
        let target = (note_id_of(fp), orphan_entry(fp, fc));
        let acc2 = acc.push(target);
        assert(acc2[acc.len() as int] == target);
        assert(acc2.contains(target));
        lemma_adopt_keeps(acc2, base, fs.skip(1));
        assert(adopt(acc2, base, fs.skip(1)).contains(target));
        assert(adopt(acc, base, fs) == adopt(acc2, base, fs.skip(1)));
    } else {
        assert(w >= 1);
        assert(fs.skip(1)[w - 1] == (fp, fc));
        assert(fs.skip(1).contains((fp, fc)));
        assert(forall|k: int| 0 <= k < fs.skip(1).len()
            ==> (#[trigger] fs.skip(1)[k]) == fs[k + 1]);
        let adopted = !(path_used(base, p) || has_id(acc, note_id_of(p)));
        if adopted {
            let acc2 = acc.push((note_id_of(p), orphan_entry(p, fs[0].1)));
            assert(!has_id(acc2, note_id_of(fp))) by {
                if has_id(acc2, note_id_of(fp)) {
                    let k = choose|k: int| 0 <= k < acc2.len()
                        && (#[trigger] acc2[k]).0 == note_id_of(fp);
                    if k < acc.len() {
                        assert(acc[k].0 == note_id_of(fp));
                    } else {
                        assert(note_id_of(p) == note_id_of(fp));
                    }
                }
            }
            lemma_adopt_orphan(acc2, base, fs.skip(1), fp, fc);
            assert(adopt(acc, base, fs) == adopt(acc2, base, fs.skip(1)));
        } else {
            lemma_adopt_orphan(acc, base, fs.skip(1), fp, fc);
            assert(adopt(acc, base, fs) == adopt(acc, base, fs.skip(1)));
        }
    }
}

/// Reconciliation law: an index entry whose path no scanned file has any
/// longer leaves the index, and a scanned file that no entry references is
/// adopted under its path-derived identifier, with the scan's creation time
/// and no manual title. The derived identifier is a pure function of the
/// relative path — `note_id_of` — so the same orphan is always adopted under
/// the same identifier. The last two premises rule out a derived-identifier
/// collision with an existing entry or another scanned file.
pub proof fn lemma_reconcile_dead_and_orphan(
    s: Seq<(Seq<char>, EntryV)>,
    fv: Seq<(Seq<char>, u64)>,
    id: Seq<char>,
    e: EntryV,
    fp: Seq<char>,
    fc: u64,
)
    requires
        s.contains((id, e)),
        !files_paths(fv).contains(e.relative_path),
        fv.contains((fp, fc)),
        !path_used(s, fp),
        !has_id(s, note_id_of(fp)),
        forall|k: int| 0 <= k < fv.len() && (#[trigger] fv[k]).0 == fp ==> fv[k].1 == fc,
        forall|k: int| 0 <= k < fv.len() && (#[trigger] fv[k]).0 != fp
            ==> note_id_of(fv[k].0) != note_id_of(fp),
    ensures
        !reconcile_spec(s, fv).contains((id, e)),
        reconcile_spec(s, fv).contains((note_id_of(fp), orphan_entry(fp, fc))),
{
    let paths = files_paths(fv);
    let surv = survivors(s, paths);
    lemma_survivors_member(s, paths);
    assert(!path_used(surv, fp)) by {
        if path_used(surv, fp) {
            let k = choose|k: int| 0 <= k < surv.len()
                && (#[trigger] surv[k]).1.relative_path == fp;
            assert(surv.contains(surv[k]));
            assert(s.contains(surv[k]));
            let m = choose|m: int| 0 <= m < s.len() && s[m] == surv[k];
            assert(path_used(s, fp));
        }
    }
    assert(!has_id(surv, note_id_of(fp))) by {
        if has_id(surv, note_id_of(fp)) {
            let k = choose|k: int| 0 <= k < surv.len()
                && (#[trigger] surv[k]).0 == note_id_of(fp);
            assert(surv.contains(surv[k]));
            assert(s.contains(surv[k]));
            let m = choose|m: int| 0 <= m < s.len() && s[m] == surv[k];
            assert(has_id(s, note_id_of(fp)));
        }
    }
    lemma_adopt_orphan(surv, surv, fv, fp, fc);
    assert(!reconcile_spec(s, fv).contains((id, e))) by {
        if reconcile_spec(s, fv).contains((id, e)) {
            lemma_adopt_member(surv, surv, fv);
            assert(surv.contains((id, e)) || files_paths(fv).contains(e.relative_path));
            assert(surv.contains((id, e)) ==> paths.contains(e.relative_path));
        }
    }
}

/// Remove a note from the index by identifier: the identifier is sanitised
/// first; an empty or unbound identifier changes nothing and yields `None`,
/// otherwise the entry leaves the index and its relative path comes back so
/// the caller can delete the backing file afterwards.
pub fn remove_note_from_index(index: &mut NoteIndex, note_id: &str) -> (r: Option<String>)
    ensures
        match r {
            Option::Some(p) => {
                &&& keep_id_chars(note_id@).len() > 0
                &&& lookup(old(index)@, keep_id_chars(note_id@)) is Some
                &&& p@ == lookup(old(index)@, keep_id_chars(note_id@))->Some_0.relative_path
                &&& final(index)@ == remove_spec(old(index)@, keep_id_chars(note_id@))
            },
            Option::None => {
                &&& final(index)@ == old(index)@
                &&& (keep_id_chars(note_id@).len() == 0
                    || lookup(old(index)@, keep_id_chars(note_id@)) is None)
            },
        },
{
    let safe = sanitize_note_id(note_id);
    if safe.as_str().unicode_len() == 0 {
        return None;
    }
    match index.take_out(&safe) {
        Some(entry) => Some(entry.relative_path),
        None => None,
    }
}

} // verus!
