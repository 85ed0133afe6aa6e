//! The integrity ledger: for each downloaded wallpaper, where its file was
//! written and the SHA-256 of what was written.

use vstd::prelude::*;
use vstd::string::*;
use crate::order::same_text;
use crate::text::texts;

verus! {

/// What one ledger record says.
pub struct EntryView {
    pub image_id: Seq<char>,
    pub image_location: Seq<char>,
    pub sha256: Seq<char>,
}

/// One ledger record.
#[derive(Debug)]
pub struct LockEntry {
    image_id: String,
    image_location: String,
    sha256: String,
}

impl View for LockEntry {
    type V = EntryView;

    closed spec fn view(&self) -> EntryView {
        EntryView {
            image_id: self.image_id@,
            image_location: self.image_location@,
            sha256: self.sha256@,
        }
    }
}

impl LockEntry {
    /// A record for `image_id`, stored at `image_location` with content hash `sha256`.
    pub fn new(image_id: String, image_location: String, sha256: String) -> (entry: LockEntry)
        ensures
            entry@ == (EntryView {
                image_id: image_id@,
                image_location: image_location@,
                sha256: sha256@,
            }),
    {
        LockEntry { image_id, image_location, sha256 }
    }

    /// The wallpaper id of the record.
    pub fn image_id(&self) -> (id: &str)
        ensures
            id@ == self@.image_id,
    {
        self.image_id.as_str()
    }

    /// The path the file was last written to.
    pub fn image_location(&self) -> (location: &str)
        ensures
            location@ == self@.image_location,
    {
        self.image_location.as_str()
    }

    /// The recorded content hash.
    pub fn image_sha256(&self) -> (sha256: &str)
        ensures
            sha256@ == self@.sha256,
    {
        self.sha256.as_str()
    }
}

/// The ledger after recording `entry`: the first record with the same id is
/// overwritten, and a new id is appended.
pub open spec fn upsert(ledger: Seq<EntryView>, entry: EntryView) -> Seq<EntryView>
    decreases ledger.len(),
{
    if ledger.len() == 0 {
        seq![entry]
    } else if ledger[0].image_id == entry.image_id {
        ledger.update(0, entry)
    } else {
        seq![ledger[0]] + upsert(ledger.drop_first(), entry)
    }
}

/// The ledger without any record for `image_id`.
pub open spec fn without(ledger: Seq<EntryView>, image_id: Seq<char>) -> Seq<EntryView> {
    ledger.filter(|e: EntryView| e.image_id != image_id)
}

/// Some record pairs `image_id` with `sha256`.
pub open spec fn has_hash(ledger: Seq<EntryView>, image_id: Seq<char>, sha256: Seq<char>) -> bool {
    exists|i: int|
        0 <= i < ledger.len() && (#[trigger] ledger[i]).image_id == image_id && ledger[i].sha256
            == sha256
}

/// Some record is about `image_id`.
pub open spec fn mentions(ledger: Seq<EntryView>, image_id: Seq<char>) -> bool {
    exists|i: int| 0 <= i < ledger.len() && (#[trigger] ledger[i]).image_id == image_id
}

/// The record that answers for `image_id`: the last one with that id.
pub open spec fn lookup(ledger: Seq<EntryView>, image_id: Seq<char>) -> Option<EntryView>
    decreases ledger.len(),
{
    if ledger.len() == 0 {
        None
    } else if ledger.last().image_id == image_id {
        Some(ledger.last())
    } else {
        lookup(ledger.drop_last(), image_id)
    }
}

/// No two records share an id.
pub open spec fn unique_ids(ledger: Seq<EntryView>) -> bool {
    forall|i: int, j: int|
        0 <= i < j < ledger.len() ==> (#[trigger] ledger[i]).image_id != (#[trigger] ledger[j]).image_id
}

/// `upsert` where the first record with the id is at `k`.
pub proof fn lemma_upsert_at(ledger: Seq<EntryView>, entry: EntryView, k: int)
    requires
        0 <= k < ledger.len(),
        forall|j: int| 0 <= j < k ==> (#[trigger] ledger[j]).image_id != entry.image_id,
        ledger[k].image_id == entry.image_id,
    ensures
        upsert(ledger, entry) == ledger.update(k, entry),
    decreases k,
{
    if k > 0 {
        let rest = ledger.drop_first();
        assert forall|j: int| 0 <= j < k - 1 implies (#[trigger] rest[j]).image_id
            != entry.image_id by {
            assert(rest[j] == ledger[j + 1]);
        }
        lemma_upsert_at(rest, entry, k - 1);
        assert(seq![ledger[0]] + rest.update(k - 1, entry) =~= ledger.update(k, entry));
    }
}

/// `upsert` where no record has the id.
pub proof fn lemma_upsert_new(ledger: Seq<EntryView>, entry: EntryView)
    requires
        !mentions(ledger, entry.image_id),
    ensures
        upsert(ledger, entry) == ledger.push(entry),
    decreases ledger.len(),
{
    if ledger.len() > 0 {
        let rest = ledger.drop_first();
        assert(ledger[0].image_id != entry.image_id);
        assert(!mentions(rest, entry.image_id)) by {
            if mentions(rest, entry.image_id) {
                let i = choose|i: int| 0 <= i < rest.len() && (#[trigger] rest[i]).image_id
                    == entry.image_id;
                assert(ledger[i + 1].image_id == entry.image_id);
            }
        }
        lemma_upsert_new(rest, entry);
        assert(seq![ledger[0]] + rest.push(entry) =~= ledger.push(entry));
    } else {
        assert(seq![entry] =~= ledger.push(entry));
    }
}

/// `lookup` finds nothing exactly when no record has the id, and what it
/// finds is a record with that id.
pub proof fn lemma_lookup(ledger: Seq<EntryView>, image_id: Seq<char>)
    ensures
        lookup(ledger, image_id) is Some <==> mentions(ledger, image_id),
        lookup(ledger, image_id) matches Some(e) ==> e.image_id == image_id && ledger.contains(e),
    decreases ledger.len(),
{
    if ledger.len() > 0 {
        let front = ledger.drop_last();
        lemma_lookup(front, image_id);
        if ledger.last().image_id == image_id {
            assert(ledger[ledger.len() - 1].image_id == image_id);
        } else {
            if mentions(ledger, image_id) {
                let i = choose|i: int| 0 <= i < ledger.len() && (#[trigger] ledger[i]).image_id
                    == image_id;
                assert(front[i].image_id == image_id);
            }
            if mentions(front, image_id) {
                let i = choose|i: int| 0 <= i < front.len() && (#[trigger] front[i]).image_id
                    == image_id;
                assert(ledger[i].image_id == image_id);
            }
            if lookup(front, image_id) is Some {
                let e = lookup(front, image_id)->0;
                let i = choose|i: int| 0 <= i < front.len() && front[i] == e;
                assert(ledger[i] == e);
            }
        }
    }
}

/// Where no record has the id, removing it changes nothing.
pub proof fn lemma_without_absent(ledger: Seq<EntryView>, image_id: Seq<char>)
    requires
        !mentions(ledger, image_id),
    ensures
        without(ledger, image_id) == ledger,
{
    let keep = |e: EntryView| e.image_id != image_id;
    assert forall|i: int| 0 <= i < ledger.len() implies keep(#[trigger] ledger[i]) by {
        assert(ledger[i].image_id != image_id);
    }
    lemma_filter_keeps(ledger, keep);
}

/// Filtering by a predicate that holds of every member keeps the sequence.
pub proof fn lemma_filter_keeps(s: Seq<EntryView>, keep: spec_fn(EntryView) -> bool)
    requires
        forall|i: int| 0 <= i < s.len() ==> keep(#[trigger] s[i]),
    ensures
        s.filter(keep) == s,
    decreases s.len(),
{
    reveal(Seq::filter);
    if s.len() > 0 {
        let front = s.drop_last();
        assert forall|i: int| 0 <= i < front.len() implies keep(#[trigger] front[i]) by {
            assert(front[i] == s[i]);
        }
        lemma_filter_keeps(front, keep);
        assert(keep(s[s.len() - 1]));
        assert(front.push(s.last()) =~= s);
    }
}

/// After a removal no record has the id.
pub proof fn lemma_without_forgets(ledger: Seq<EntryView>, image_id: Seq<char>)
    ensures
        !mentions(without(ledger, image_id), image_id),
        lookup(without(ledger, image_id), image_id) is None,
{
    let keep = |e: EntryView| e.image_id != image_id;
    let rest = without(ledger, image_id);
    if mentions(rest, image_id) {
        let i = choose|i: int| 0 <= i < rest.len() && (#[trigger] rest[i]).image_id == image_id;
        ledger.lemma_filter_pred(keep, i);
    }
    lemma_lookup(rest, image_id);
}

/// Recording keeps the ledger at one record for each id.
pub proof fn lemma_upsert_keeps_unique(ledger: Seq<EntryView>, entry: EntryView)
    requires
        unique_ids(ledger),
    ensures
        unique_ids(upsert(ledger, entry)),
        upsert(ledger, entry).len() == if mentions(ledger, entry.image_id) {
            ledger.len()
        } else {
            ledger.len() + 1
        },
{
    if mentions(ledger, entry.image_id) {
        let k = choose|k: int| 0 <= k < ledger.len() && (#[trigger] ledger[k]).image_id
            == entry.image_id;
        assert forall|j: int| 0 <= j < k implies (#[trigger] ledger[j]).image_id
            != entry.image_id by {
            assert(ledger[j].image_id != ledger[k].image_id);
        }
        lemma_upsert_at(ledger, entry, k);
        let after = ledger.update(k, entry);
        assert forall|i: int, j: int| 0 <= i < j < after.len() implies (#[trigger] after[i]).image_id
            != (#[trigger] after[j]).image_id by {
            assert(after[i].image_id == ledger[i].image_id);
            assert(after[j].image_id == ledger[j].image_id);
        }
    } else {
        lemma_upsert_new(ledger, entry);
        let after = ledger.push(entry);
        assert forall|i: int, j: int| 0 <= i < j < after.len() implies (#[trigger] after[i]).image_id
            != (#[trigger] after[j]).image_id by {
            assert(ledger[i].image_id == after[i].image_id);
            if j < ledger.len() {
                assert(ledger[j].image_id == after[j].image_id);
            }
        }
    }
}

/// In a ledger with one record for each id, what was recorded last for an id
/// is what the ledger answers for it, and only its hash stands for that id.
pub proof fn lemma_upsert_lookup(ledger: Seq<EntryView>, entry: EntryView)
    requires
        unique_ids(ledger),
    ensures
        lookup(upsert(ledger, entry), entry.image_id) == Some(entry),
        forall|sha256: Seq<char>|
            has_hash(upsert(ledger, entry), entry.image_id, sha256) <==> sha256 == entry.sha256,
{
    let after = upsert(ledger, entry);
    lemma_upsert_keeps_unique(ledger, entry);
    lemma_lookup(after, entry.image_id);
    let k: int;
    if mentions(ledger, entry.image_id) {
        k = choose|k: int| 0 <= k < ledger.len() && (#[trigger] ledger[k]).image_id
            == entry.image_id;
        assert forall|j: int| 0 <= j < k implies (#[trigger] ledger[j]).image_id
            != entry.image_id by {
            assert(ledger[j].image_id != ledger[k].image_id);
        }
        lemma_upsert_at(ledger, entry, k);
    } else {
        k = ledger.len() as int;
        lemma_upsert_new(ledger, entry);
    }
    assert(after[k] == entry);
    assert(mentions(after, entry.image_id));
    let found = lookup(after, entry.image_id)->0;
    let i = choose|i: int| 0 <= i < after.len() && after[i] == found;
    if i != k {
        if i < k {
            assert(after[i].image_id != after[k].image_id);
        } else {
            assert(after[k].image_id != after[i].image_id);
        }
    }
    assert forall|sha256: Seq<char>| has_hash(after, entry.image_id, sha256) <==> sha256
        == entry.sha256 by {
        if has_hash(after, entry.image_id, sha256) {
            let j = choose|j: int|
                0 <= j < after.len() && (#[trigger] after[j]).image_id == entry.image_id
                    && after[j].sha256 == sha256;
            if j < k {
                assert(after[j].image_id != after[k].image_id);
            } else if j > k {
                assert(after[k].image_id != after[j].image_id);
            }
        }
    }
}

/// A removal keeps the ledger at one record for each id.
pub proof fn lemma_without_keeps_unique(ledger: Seq<EntryView>, image_id: Seq<char>)
    requires
        unique_ids(ledger),
    ensures
        unique_ids(without(ledger, image_id)),
    decreases ledger.len(),
{
    reveal(Seq::filter);
    let keep = |e: EntryView| e.image_id != image_id;
    if ledger.len() > 0 {
        let front = ledger.drop_last();
        assert(unique_ids(front)) by {
            assert forall|i: int, j: int| 0 <= i < j < front.len() implies (#[trigger] front[i]).image_id
                != (#[trigger] front[j]).image_id by {
                assert(ledger[i].image_id != ledger[j].image_id);
            }
        }
        lemma_without_keeps_unique(front, image_id);
        let rest = without(front, image_id);
        if keep(ledger.last()) {
            let after = rest.push(ledger.last());
            assert forall|i: int, j: int| 0 <= i < j < after.len() implies (#[trigger] after[i]).image_id
                != (#[trigger] after[j]).image_id by {
                if j == rest.len() {
                    assert(rest.contains(rest[i]));
                    front.lemma_filter_contains_rev(keep, rest[i]);
                    let k = choose|k: int| 0 <= k < front.len() && front[k] == rest[i];
                    assert(ledger[k].image_id != ledger[ledger.len() - 1].image_id);
                } else {
                    assert(rest[i].image_id != rest[j].image_id);
                }
            }
        }
    }
}

/// Lock file for tracking wallpaper integrity checksums.
#[derive(Debug)]
pub struct LockFile {
    entries: Vec<LockEntry>,
}

impl View for LockFile {
    type V = Seq<EntryView>;

    closed spec fn view(&self) -> Seq<EntryView> {
        Seq::new(self.entries@.len(), |i: int| self.entries@[i]@)
    }
}

impl LockFile {
    /// The ledger that was loaded, or a new one where none could be: a
    /// missing or unreadable ledger means that nothing is verified yet.
    pub fn load_or_new(loaded: Option<LockFile>) -> (ledger: LockFile)
        ensures
            ledger@ == match loaded {
                Some(stored) => stored@,
                None => Seq::<EntryView>::empty(),
            },
    {
        match loaded {
            Some(stored) => stored,
            None => LockFile::new(),
        }
    }

    /// The ledger holds at most one record for each id.
    pub open spec fn well_formed(&self) -> bool {
        unique_ids(self@)
    }

    /// Create a new empty lock file.
    pub fn new() -> (ledger: LockFile)
        ensures
            ledger@ == Seq::<EntryView>::empty(),
            ledger.well_formed(),
    {
        let ledger = LockFile { entries: Vec::new() };
        assert(ledger@ =~= Seq::<EntryView>::empty());
        ledger
    }

    /// A ledger holding `entries` as they are, in their order.
    pub fn from_entries(entries: Vec<LockEntry>) -> (ledger: LockFile)
        ensures
            ledger@.len() == entries@.len(),
            forall|i: int| 0 <= i < entries@.len() ==> ledger@[i] == #[trigger] entries@[i]@,
    {
        LockFile { entries }
    }

    /// The records, in their order.
    pub fn entries(&self) -> (entries: &Vec<LockEntry>)
        ensures
            entries@.len() == self@.len(),
            forall|i: int| 0 <= i < self@.len() ==> (#[trigger] entries@[i])@ == self@[i],
    {
        &self.entries
    }

    /// The number of records.
    pub fn len(&self) -> (n: usize)
        ensures
            n == self@.len(),
    {
        self.entries.len()
    }

    /// Whether the ledger holds no record.
    pub fn is_empty(&self) -> (empty: bool)
        ensures
            empty == (self@.len() == 0),
    {
        self.entries.len() == 0
    }

    /// Add or update an entry in the lock file.
    pub fn add(&mut self, image_id: String, image_location: String, sha256: String)
        ensures
            final(self)@ == upsert(
                old(self)@,
                EntryView {
                    image_id: image_id@,
                    image_location: image_location@,
                    sha256: sha256@,
                },
            ),
            old(self).well_formed() ==> final(self).well_formed(),
    {
        let ghost before = self@;
        let ghost entry = EntryView {
            image_id: image_id@,
            image_location: image_location@,
            sha256: sha256@,
        };
        proof {
            if unique_ids(before) {
                lemma_upsert_keeps_unique(before, entry);
            }
        }
        let mut i: usize = 0;
        while i < self.entries.len()
            invariant
                i <= self.entries.len(),
                self@ == before,
                before == old(self)@,
                unique_ids(before) ==> unique_ids(upsert(before, entry)),
                entry.image_id == image_id@,
                entry.image_location == image_location@,
                entry.sha256 == sha256@,
                forall|j: int| 0 <= j < i ==> (#[trigger] before[j]).image_id != image_id@,
            decreases self.entries.len() - i,
        {
            if same_text(self.entries[i].image_id(), image_id.as_str()) {
                proof {
                    assert(before[i as int] == self.entries@[i as int]@);
                    lemma_upsert_at(before, entry, i as int);
                }
                self.entries.set(i, LockEntry::new(image_id, image_location, sha256));
                assert(self@ =~= before.update(i as int, entry));
                return ;
            }
            assert(before[i as int] == self.entries@[i as int]@);
            i += 1;
        }
        proof {
            lemma_upsert_new(before, entry);
        }
        self.entries.push(LockEntry::new(image_id, image_location, sha256));
        assert(self@ =~= before.push(entry));
    }

    /// Check if the lock file contains an entry with the given image_id and hash.
    pub fn contains(&self, image_id: &str, hash: &str) -> (found: bool)
        ensures
            found == has_hash(self@, image_id@, hash@),
    {
        let mut i: usize = 0;
        while i < self.entries.len()
            invariant
                i <= self.entries.len(),
                forall|j: int|
                    0 <= j < i ==> !((#[trigger] self@[j]).image_id == image_id@ && self@[j].sha256
                        == hash@),
            decreases self.entries.len() - i,
        {
            assert(self@[i as int] == self.entries@[i as int]@);
            if same_text(self.entries[i].image_id(), image_id) && same_text(
                self.entries[i].image_sha256(),
                hash,
            ) {
                return true;
            }
            i += 1;
        }
        false
    }

    /// The record that answers for `image_id`, if any: the last one with that id.
    pub fn find(&self, image_id: &str) -> (found: Option<&LockEntry>)
        ensures
            match found {
                Some(entry) => lookup(self@, image_id@) == Some(entry@),
                None => lookup(self@, image_id@) is None,
            },
    {
        let mut i: usize = self.entries.len();
        assert(self@.take(i as int) == self@);
        while i > 0
            invariant
                i <= self.entries.len(),
                lookup(self@, image_id@) == lookup(self@.take(i as int), image_id@),
            decreases i,
        {
            let ghost part = self@.take(i as int);
            assert(part.last() == self.entries@[i - 1]@);
            assert(part.drop_last() == self@.take(i - 1));
            if same_text(self.entries[i - 1].image_id(), image_id) {
                return Some(&self.entries[i - 1]);
            }
            i -= 1;
        }
        None
    }

    /// Remove every entry for `image_id`; says whether the ledger changed.
    pub fn remove(&mut self, image_id: &str) -> (changed: bool)
        ensures
            final(self)@ == without(old(self)@, image_id@),
            changed == mentions(old(self)@, image_id@),
            changed == (final(self)@.len() < old(self)@.len()),
            old(self).well_formed() ==> final(self).well_formed(),
    {
        let ghost before = self@;
        proof {
            if unique_ids(before) {
                lemma_without_keeps_unique(before, image_id@);
            }
        }
        let ghost keep = |e: EntryView| e.image_id != image_id@;
        let ghost mut seen: int = 0;
        let mut changed = false;
        let mut i: usize = 0;
        proof {
            reveal(Seq::filter);
            assert(before.take(0).filter(keep) =~= Seq::<EntryView>::empty());
            assert(before.skip(0) == before);
            assert(self@ =~= before.take(0).filter(keep) + before.skip(0));
        }
        while i < self.entries.len()
            invariant
                0 <= seen <= before.len(),
                i <= self.entries.len(),
                keep == |e: EntryView| e.image_id != image_id@,
                self@ == before.take(seen).filter(keep) + before.skip(seen),
                i == before.take(seen).filter(keep).len(),
                changed == mentions(before.take(seen), image_id@),
                changed == (i < seen),
            decreases self.entries.len() - i,
        {
            let ghost kept = before.take(seen).filter(keep);
            assert(self@[i as int] == self.entries@[i as int]@);
            assert(self@[i as int] == before.skip(seen)[0]);
            assert(before.take(seen + 1) == before.take(seen).push(before[seen]));
            assert(before.skip(seen).drop_first() == before.skip(seen + 1));
            proof {
                before.take(seen).lemma_filter_push(before[seen], keep);
            }
            if same_text(self.entries[i].image_id(), image_id) {
                let ghost current = self@;
                self.entries.remove(i);
                proof {
                    assert(self@ =~= current.remove(i as int));
                    assert(current.remove(i as int) =~= kept + before.skip(seen + 1));
                    assert(before.take(seen + 1)[seen].image_id == image_id@);
                }
                changed = true;
            } else {
                proof {
                    assert(kept.push(before[seen]) + before.skip(seen + 1) =~= kept + before.skip(
                        seen,
                    ));
                    if mentions(before.take(seen + 1), image_id@) {
                        let k = choose|k: int|
                            0 <= k < seen + 1 && (#[trigger] before.take(seen + 1)[k]).image_id
                                == image_id@;
                        assert(before.take(seen)[k].image_id == image_id@);
                    }
                    if mentions(before.take(seen), image_id@) {
                        let k = choose|k: int|
                            0 <= k < seen && (#[trigger] before.take(seen)[k]).image_id
                                == image_id@;
                        assert(before.take(seen + 1)[k].image_id == image_id@);
                    }
                }
                i += 1;
            }
            proof {
                seen = seen + 1;
                before.take(seen).lemma_filter_len(keep);
            }
        }
        proof {
            assert(seen == before.len()) by {
                assert(self@.len() == i + (before.len() - seen));
            }
            assert(before.take(seen) == before);
            assert(self@ =~= before.filter(keep));
        }
        changed
    }
}

impl Default for LockFile {
    fn default() -> (ledger: LockFile)
        ensures
            ledger@ == Seq::<EntryView>::empty(),
            ledger.well_formed(),
    {
        LockFile::new()
    }
}

/// The ledger without any record for any of `ids`.
pub open spec fn purged(ledger: Seq<EntryView>, ids: Seq<Seq<char>>) -> Seq<EntryView>
    decreases ids.len(),
{
    if ids.len() == 0 {
        ledger
    } else {
        without(purged(ledger, ids.drop_last()), ids.last())
    }
}

/// Removing an id that no record has changes nothing, and removing one that
/// some record has shortens the ledger.
pub proof fn lemma_without_len(ledger: Seq<EntryView>, image_id: Seq<char>)
    ensures
        without(ledger, image_id).len() <= ledger.len(),
        without(ledger, image_id).len() == ledger.len() ==> without(ledger, image_id) == ledger,
    decreases ledger.len(),
{
    reveal(Seq::filter);
    if ledger.len() > 0 {
        let front = ledger.drop_last();
        lemma_without_len(front, image_id);
        if ledger.last().image_id != image_id && without(front, image_id) == front {
            assert(front.push(ledger.last()) =~= ledger);
        }
    }
}

/// A purge never lengthens the ledger, and one that keeps its length keeps
/// every record.
pub proof fn lemma_purged_len(ledger: Seq<EntryView>, ids: Seq<Seq<char>>)
    ensures
        purged(ledger, ids).len() <= ledger.len(),
        purged(ledger, ids).len() == ledger.len() ==> purged(ledger, ids) == ledger,
    decreases ids.len(),
{
    if ids.len() > 0 {
        lemma_purged_len(ledger, ids.drop_last());
        lemma_without_len(purged(ledger, ids.drop_last()), ids.last());
    }
}

/// What a purge keeps: the records whose id is none of `ids`, in their order.
pub proof fn lemma_purged_is_filter(ledger: Seq<EntryView>, ids: Seq<Seq<char>>)
    ensures
        purged(ledger, ids) == ledger.filter(|e: EntryView| !ids.contains(e.image_id)),
    decreases ids.len(),
{
    let keep_all = |e: EntryView| !ids.contains(e.image_id);
    if ids.len() == 0 {
        lemma_filter_keeps(ledger, keep_all);
    } else {
        let front = ids.drop_last();
        let keep_front = |e: EntryView| !front.contains(e.image_id);
        let keep_last = |e: EntryView| e.image_id != ids.last();
        lemma_purged_is_filter(ledger, front);
        assert forall|e: EntryView| #[trigger] keep_all(e) == (keep_front(e) && keep_last(e)) by {
            if front.contains(e.image_id) {
                let i = choose|i: int| 0 <= i < front.len() && front[i] == e.image_id;
                assert(ids[i] == e.image_id);
            }
            if ids.contains(e.image_id) {
                let i = choose|i: int| 0 <= i < ids.len() && ids[i] == e.image_id;
                if i < ids.len() - 1 {
                    assert(front[i] == e.image_id);
                }
            }
        }
        lemma_filter_twice(ledger, keep_front, keep_last, keep_all);
    }
}

/// Filtering twice is filtering by both predicates at once.
pub proof fn lemma_filter_twice(
    s: Seq<EntryView>,
    first: spec_fn(EntryView) -> bool,
    second: spec_fn(EntryView) -> bool,
    both: spec_fn(EntryView) -> bool,
)
    requires
        forall|e: EntryView| #[trigger] both(e) == (first(e) && second(e)),
    ensures
        s.filter(first).filter(second) == s.filter(both),
    decreases s.len(),
{
    reveal(Seq::filter);
    if s.len() > 0 {
        let front = s.drop_last();
        lemma_filter_twice(front, first, second, both);
        if first(s.last()) {
            front.filter(first).lemma_filter_push(s.last(), second);
        }
    }
}

impl LockFile {
    /// Remove every entry for any of `ids`; says whether the ledger changed.
    pub fn remove_all(&mut self, ids: &[String]) -> (changed: bool)
        ensures
            final(self)@ == purged(old(self)@, texts(ids@)),
            changed == (final(self)@ != old(self)@),
            old(self).well_formed() ==> final(self).well_formed(),
    {
        let ghost before = self@;
        let ghost all = texts(ids@);
        let mut changed = false;
        let mut i: usize = 0;
        proof {
            assert(all.take(0) =~= Seq::<Seq<char>>::empty());
        }
        while i < ids.len()
            invariant
                i <= ids.len(),
                all == texts(ids@),
                self@ == purged(before, all.take(i as int)),
                changed == (self@.len() < before.len()),
                unique_ids(before) ==> unique_ids(self@),
            decreases ids.len() - i,
        {
            proof {
                let grown = all.take(i + 1);
                assert(grown.drop_last() == all.take(i as int));
                assert(grown.last() == ids@[i as int]@);
                lemma_purged_len(before, all.take(i as int));
            }
            let once = self.remove(ids[i].as_str());
            changed = changed || once;
            i += 1;
        }
        proof {
            assert(all.take(all.len() as int) == all);
            lemma_purged_len(before, all);
        }
        changed
    }
}

} // verus!
