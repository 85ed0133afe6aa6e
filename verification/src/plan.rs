//! Reconciliation: what a synchronisation does for each listed wallpaper,
//! and how the outcomes of its two phases are taken in.

use vstd::prelude::*;
use vstd::string::*;
use crate::inventory::Inventory;
use crate::lock::{lemma_lookup, lookup, mentions, EntryView, LockFile};
use crate::order::same_text;
use crate::text::{lemma_texts_push, texts};

verus! {

/// What a synchronisation does for one wallpaper.
#[derive(Clone, Copy, Debug, PartialEq, Eq, Structural)]
pub enum SyncAction {
    /// The file is there and integrity checks are off: leave it.
    Skip,
    /// The file is there where the ledger says: compare its hash with the ledger's.
    Verify,
    /// Fetch it.
    Download,
}

/// The action for `id`. A file that the ledger does not know, or knows at
/// another path, is fetched again rather than trusted.
pub open spec fn action_for(
    id: Seq<char>,
    files: Map<Seq<char>, Seq<char>>,
    ledger: Option<Seq<EntryView>>,
    integrity: bool,
) -> SyncAction {
    if !files.contains_key(id) {
        SyncAction::Download
    } else if !integrity {
        SyncAction::Skip
    } else if ledger matches Some(records) && lookup(records, id) matches Some(record)
        && record.image_location == files[id] {
        SyncAction::Verify
    } else {
        SyncAction::Download
    }
}

/// A file that the ledger has no record of is fetched again whenever
/// integrity checks are on, whether or not it is there.
pub proof fn lemma_unknown_file_is_downloaded(
    id: Seq<char>,
    files: Map<Seq<char>, Seq<char>>,
    records: Seq<EntryView>,
)
    requires
        !mentions(records, id),
    ensures
        action_for(id, files, Some(records), true) == SyncAction::Download,
{
    lemma_lookup(records, id);
}

/// A wallpaper without a file is fetched, whatever the settings and the ledger.
pub proof fn lemma_missing_file_is_downloaded(
    id: Seq<char>,
    files: Map<Seq<char>, Seq<char>>,
    ledger: Option<Seq<EntryView>>,
    integrity: bool,
)
    requires
        !files.contains_key(id),
    ensures
        action_for(id, files, ledger, integrity) == SyncAction::Download,
{
}

/// A file whose hash is to be compared with the ledger's.
#[derive(Debug)]
pub struct IntegrityCheck {
    /// The wallpaper id.
    pub id: String,
    /// Where the file is.
    pub path: String,
    /// The hash that the ledger holds for it.
    pub expected_sha256: String,
}

/// The ids of a sequence of checks.
pub open spec fn check_ids(checks: Seq<IntegrityCheck>) -> Seq<Seq<char>> {
    Seq::new(checks.len(), |i: int| checks[i].id@)
}

/// What is to be done for the listed wallpapers, each group in list order.
#[derive(Debug)]
pub struct SyncPlan {
    /// Left alone: the file is there and integrity checks are off.
    pub skipped: Vec<String>,
    /// To be verified against the ledger.
    pub integrity_checks: Vec<IntegrityCheck>,
    /// To be fetched.
    pub needs_download: Vec<String>,
}

/// Decides the action for one wallpaper and, for `Verify`, the check to run.
pub fn classify(id: &str, file_map: &Inventory, lock_file: Option<&LockFile>, integrity: bool) -> (r:
    (SyncAction, Option<IntegrityCheck>))
    ensures
        r.0 == action_for(
            id@,
            file_map@,
            match lock_file {
                Some(l) => Some(l@),
                None => None,
            },
            integrity,
        ),
        r.0 == SyncAction::Verify <==> r.1 is Some,
        r.1 matches Some(check) ==> {
            &&& check.id@ == id@
            &&& check.path@ == file_map@[id@]
            &&& lock_file matches Some(l) && lookup(l@, id@) matches Some(record)
                && check.expected_sha256@ == record.sha256
        },
{
    match file_map.get(id) {
        None => (SyncAction::Download, None),
        Some(existing_path) => {
            if !integrity {
                return (SyncAction::Skip, None);
            }
            match lock_file {
                None => (SyncAction::Download, None),
                Some(ledger) => match ledger.find(id) {
                    None => (SyncAction::Download, None),
                    Some(record) => {
                        if same_text(record.image_location(), existing_path) {
                            let check = IntegrityCheck {
                                id: id.to_owned(),
                                path: existing_path.to_owned(),
                                expected_sha256: record.image_sha256().to_owned(),
                            };
                            (SyncAction::Verify, Some(check))
                        } else {
                            (SyncAction::Download, None)
                        }
                    },
                },
            }
        },
    }
}

/// The plan for `ids` is what `action_for` says of each.
pub open spec fn plan_matches(
    plan: SyncPlan,
    ids: Seq<Seq<char>>,
    files: Map<Seq<char>, Seq<char>>,
    ledger: Option<Seq<EntryView>>,
    integrity: bool,
) -> bool {
    &&& texts(plan.skipped@) == ids.filter(
        |id: Seq<char>| action_for(id, files, ledger, integrity) == SyncAction::Skip,
    )
    &&& check_ids(plan.integrity_checks@) == ids.filter(
        |id: Seq<char>| action_for(id, files, ledger, integrity) == SyncAction::Verify,
    )
    &&& texts(plan.needs_download@) == ids.filter(
        |id: Seq<char>| action_for(id, files, ledger, integrity) == SyncAction::Download,
    )
    &&& forall|i: int|
        0 <= i < plan.integrity_checks@.len() ==> {
            let check = #[trigger] plan.integrity_checks@[i];
            &&& check.path@ == files[check.id@]
            &&& ledger matches Some(records) && lookup(records, check.id@) matches Some(record)
                && check.expected_sha256@ == record.sha256
        }
}

/// Classifies every id of `ids`, in order.
pub fn plan_sync(
    ids: &[String],
    file_map: &Inventory,
    lock_file: Option<&LockFile>,
    integrity: bool,
) -> (plan: SyncPlan)
    ensures
        plan_matches(
            plan,
            texts(ids@),
            file_map@,
            match lock_file {
                Some(l) => Some(l@),
                None => None,
            },
            integrity,
        ),
{
    let ghost all = texts(ids@);
    let ghost files = file_map@;
    let ghost ledger = match lock_file {
        Some(l) => Some(l@),
        None => None,
    };
    let ghost skip = |id: Seq<char>| action_for(id, files, ledger, integrity) == SyncAction::Skip;
    let ghost verify = |id: Seq<char>|
        action_for(id, files, ledger, integrity) == SyncAction::Verify;
    let ghost download = |id: Seq<char>|
        action_for(id, files, ledger, integrity) == SyncAction::Download;
    let mut plan = SyncPlan {
        skipped: Vec::new(),
        integrity_checks: Vec::new(),
        needs_download: Vec::new(),
    };
    let mut i: usize = 0;
    proof {
        reveal(Seq::filter);
        assert(all.take(0) =~= Seq::<Seq<char>>::empty());
        assert(texts(plan.skipped@) =~= all.take(0).filter(skip));
        assert(check_ids(plan.integrity_checks@) =~= all.take(0).filter(verify));
        assert(texts(plan.needs_download@) =~= all.take(0).filter(download));
    }
    while i < ids.len()
        invariant
            i <= ids.len(),
            all == texts(ids@),
            files == file_map@,
            ledger == match lock_file {
                Some(l) => Some(l@),
                None => None,
            },
            skip == |id: Seq<char>| action_for(id, files, ledger, integrity) == SyncAction::Skip,
            verify == |id: Seq<char>|
                action_for(id, files, ledger, integrity) == SyncAction::Verify,
            download == |id: Seq<char>|
                action_for(id, files, ledger, integrity) == SyncAction::Download,
            plan_matches(plan, all.take(i as int), files, ledger, integrity),
        decreases ids.len() - i,
    {
        let id = ids[i].as_str();
        let ghost before = all.take(i as int);
        let ghost checks = plan.integrity_checks@;
        proof {
            assert(all.take(i + 1) == before.push(id@));
            before.lemma_filter_push(id@, skip);
            before.lemma_filter_push(id@, verify);
            before.lemma_filter_push(id@, download);
        }
        let (action, check) = classify(id, file_map, lock_file, integrity);
        match check {
            Some(check) => {
                proof {
                    assert(check_ids(checks.push(check)) =~= check_ids(checks).push(id@));
                }
                plan.integrity_checks.push(check);
            },
            None => {
                let owned = id.to_owned();
                proof {
                    lemma_texts_push(plan.skipped@, owned);
                    lemma_texts_push(plan.needs_download@, owned);
                }
                match action {
                    SyncAction::Skip => plan.skipped.push(owned),
                    _ => plan.needs_download.push(owned),
                }
            },
        }
        i += 1;
    }
    proof {
        assert(all.take(all.len() as int) == all);
    }
    plan
}

impl IntegrityCheck {
    /// Whether the file stands: its hash could be computed and is the ledger's.
    pub open spec fn passes_spec(self, actual: Option<String>) -> bool {
        actual matches Some(hash) && hash@ == self.expected_sha256@
    }

    /// Whether the file stands. A hash that could not be computed, or that
    /// differs, fails the check.
    pub fn passes(&self, actual: &Option<String>) -> (ok: bool)
        ensures
            ok == self.passes_spec(*actual),
    {
        match actual {
            Some(hash) => same_text(hash.as_str(), self.expected_sha256.as_str()),
            None => false,
        }
    }
}

impl SyncPlan {
    /// Takes in the outcome of one check: a file that stands is left alone,
    /// any other is put down for download.
    pub fn record_check(&mut self, check: &IntegrityCheck, actual: &Option<String>) -> (verified:
        bool)
        ensures
            verified == check.passes_spec(*actual),
            texts(final(self).needs_download@) == if verified {
                texts(old(self).needs_download@)
            } else {
                texts(old(self).needs_download@).push(check.id@)
            },
            final(self).skipped == old(self).skipped,
            final(self).integrity_checks == old(self).integrity_checks,
    {
        let verified = check.passes(actual);
        if !verified {
            let id = check.id.clone();
            proof {
                lemma_texts_push(self.needs_download@, id);
            }
            self.needs_download.push(id);
        }
        verified
    }

    /// Whether nothing is left to fetch.
    pub fn is_up_to_date(&self) -> (done: bool)
        ensures
            done == (self.needs_download@.len() == 0),
    {
        self.needs_download.len() == 0
    }
}

/// The count of a synchronisation's downloads.
#[derive(Clone, Copy, Debug, PartialEq, Eq, Structural)]
pub struct SyncSummary {
    /// Downloads that succeeded.
    pub completed: usize,
    /// Downloads that failed.
    pub errors: usize,
    /// Downloads that were started.
    pub total: usize,
}

/// Counts the outcomes of the downloads, `true` for a success. One failure
/// leaves the count of the others as it is.
pub fn summarize(outcomes: &[bool]) -> (summary: SyncSummary)
    ensures
        summary.total == outcomes@.len(),
        summary.completed == outcomes@.filter(|ok: bool| ok).len(),
        summary.errors == outcomes@.filter(|ok: bool| !ok).len(),
        summary.completed + summary.errors == summary.total,
{
    let ghost good = |ok: bool| ok;
    let ghost bad = |ok: bool| !ok;
    let mut completed: usize = 0;
    let mut errors: usize = 0;
    let mut i: usize = 0;
    proof {
        reveal(Seq::filter);
        assert(outcomes@.take(0) =~= Seq::<bool>::empty());
    }
    while i < outcomes.len()
        invariant
            i <= outcomes.len(),
            good == |ok: bool| ok,
            bad == |ok: bool| !ok,
            completed == outcomes@.take(i as int).filter(good).len(),
            errors == outcomes@.take(i as int).filter(bad).len(),
            completed + errors == i,
        decreases outcomes.len() - i,
    {
        proof {
            assert(outcomes@.take(i + 1) == outcomes@.take(i as int).push(outcomes@[i as int]));
            outcomes@.take(i as int).lemma_filter_push(outcomes@[i as int], good);
            outcomes@.take(i as int).lemma_filter_push(outcomes@[i as int], bad);
        }
        if outcomes[i] {
            completed += 1;
        } else {
            errors += 1;
        }
        i += 1;
    }
    proof {
        assert(outcomes@.take(outcomes@.len() as int) == outcomes@);
    }
    SyncSummary { completed, errors, total: outcomes.len() }
}

} // verus!
