//! The engine: the list of wallpaper ids, the settings and the ledger, and
//! what each command decides from them.

use vstd::prelude::*;
use vstd::string::*;
use crate::api::{api_url, api_url_spec, json_error_text, parse_reply, reply_of, ApiReply};
use crate::config::Config;
use crate::error::PaperError;
use crate::helper::{
    all_tokens, calculate_sha256, extract_id, hex_lower, invalid_tokens, normalize_all,
    normalized, normalized_inputs, parses_as_url, sha256, valid_tokens, valid_wallpaper_id,
    validate_tokens, validate_wallpaper_id,
};
use crate::inventory::{find_existing_image, first_with_stem, keyed, Inventory, ListedEntry};
use crate::list::{contains_text, kept, load_wallpapers};
use crate::lock::{purged, upsert, EntryView, LockFile};
use crate::order::{lemma_contains_add, merged, sort_dedup};
use crate::plan::{plan_matches, plan_sync, SyncPlan};
use crate::text::{lemma_texts_push, texts};

verus! {

/// Main RustPaper struct for managing wallpapers.
#[derive(Debug)]
pub struct RustPaper {
    config: Config,
    wallpapers: Vec<String>,
    lock_file: Option<LockFile>,
}

impl RustPaper {
    /// The wallpaper ids on the list, in the order they are kept.
    pub closed spec fn ids(&self) -> Seq<Seq<char>> {
        texts(self.wallpapers@)
    }

    /// The settings.
    pub closed spec fn settings(&self) -> Config {
        self.config
    }

    /// The records of the ledger, where integrity checks are on.
    pub closed spec fn ledger(&self) -> Option<Seq<EntryView>> {
        match self.lock_file {
            Some(lock_file) => Some(lock_file@),
            None => None,
        }
    }

    /// Create a new RustPaper instance from the loaded settings, the lines of
    /// the list file and the ledger as far as one could be read. With
    /// integrity checks on, a missing ledger starts empty; with checks off,
    /// none is kept.
    pub fn new(config: Config, list_lines: &[String], stored_ledger: Option<LockFile>) -> (paper:
        RustPaper)
        ensures
            paper.settings() == config,
            paper.ids() == all_tokens(texts(list_lines@)),
            paper.ledger() == if config.integrity {
                match stored_ledger {
                    Some(stored) => Some(stored@),
                    None => Some(Seq::<EntryView>::empty()),
                }
            } else {
                None
            },
    {
        let wallpapers = load_wallpapers(list_lines);
        let lock_file = if config.integrity {
            Some(LockFile::load_or_new(stored_ledger))
        } else {
            None
        };
        RustPaper { config, wallpapers, lock_file }
    }

    /// The settings.
    pub fn config(&self) -> (config: &Config)
        ensures
            *config == self.settings(),
    {
        &self.config
    }

    /// The wallpaper ids on the list.
    pub fn wallpapers(&self) -> (list: &Vec<String>)
        ensures
            texts(list@) == self.ids(),
    {
        &self.wallpapers
    }

    /// The ledger, where integrity checks are on.
    pub fn lock_file(&self) -> (lock_file: Option<&LockFile>)
        ensures
            match lock_file {
                Some(ledger) => self.ledger() == Some(ledger@),
                None => self.ledger() is None,
            },
    {
        self.lock_file.as_ref()
    }
}

/// What a removal did.
#[derive(Clone, Copy, Debug, PartialEq, Eq, Structural)]
pub struct Removal {
    /// How many entries left the list.
    pub removed_count: usize,
    /// How many valid ids were asked for.
    pub requested: usize,
    /// Whether the ledger lost a record.
    pub ledger_changed: bool,
}

impl RustPaper {
    /// `after` and `report` are what removing `ids` makes of `before`: the
    /// list loses the members of `ids`; if it lost any and integrity checks
    /// are on, the ledger loses their records.
    pub open spec fn removal(
        before: RustPaper,
        ids: Seq<Seq<char>>,
        after: RustPaper,
        report: Removal,
    ) -> bool {
        &&& after.ids() == kept(before.ids(), ids)
        &&& after.settings() == before.settings()
        &&& report.removed_count == before.ids().len() - after.ids().len()
        &&& report.requested == ids.len()
        &&& after.ledger() == match before.ledger() {
            Some(records) => if report.removed_count > 0 && before.settings().integrity {
                Some(purged(records, ids))
            } else {
                Some(records)
            },
            None => None,
        }
        &&& report.ledger_changed == (after.ledger() != before.ledger())
    }

    /// Sync all wallpapers in the list: decides, for each, whether it is left
    /// alone, verified or fetched.
    pub fn sync(&self, file_map: &Inventory) -> (plan: SyncPlan)
        ensures
            plan_matches(plan, self.ids(), file_map@, self.ledger(), self.settings().integrity),
    {
        plan_sync(
            self.wallpapers.as_slice(),
            file_map,
            self.lock_file.as_ref(),
            self.config.integrity,
        )
    }

    /// Takes in a finished download: with integrity checks on, the ledger
    /// records where the file was written and the hash of what was written.
    /// Says whether the ledger changed.
    pub fn record_download(&mut self, id: &str, image_location: &str, contents: &[u8]) -> (recorded:
        bool)
        ensures
            recorded == (old(self).settings().integrity && old(self).ledger() is Some),
            final(self).ledger() == if recorded {
                Some(
                    upsert(
                        old(self).ledger()->0,
                        EntryView {
                            image_id: id@,
                            image_location: image_location@,
                            sha256: hex_lower(sha256(contents@)),
                        },
                    ),
                )
            } else {
                old(self).ledger()
            },
            final(self).ids() == old(self).ids(),
            final(self).settings() == old(self).settings(),
    {
        if !self.config.integrity {
            return false;
        }
        match &mut self.lock_file {
            Some(lock_file) => {
                let image_sha256 = calculate_sha256(contents);
                lock_file.add(id.to_owned(), image_location.to_owned(), image_sha256);
                true
            },
            None => false,
        }
    }

    /// Puts `ids` on the list, which is then sorted and without repeats.
    pub fn track(&mut self, ids: Vec<String>)
        ensures
            merged(old(self).ids(), texts(ids@), final(self).ids()),
            final(self).settings() == old(self).settings(),
            final(self).ledger() == old(self).ledger(),
    {
        let ghost before = texts(self.wallpapers@);
        let ghost extra = texts(ids@);
        let mut ids = ids;
        self.wallpapers.append(&mut ids);
        let sorted = sort_dedup(self.wallpapers.as_slice());
        proof {
            assert(texts(self.wallpapers@) =~= before + extra);
            assert forall|t: Seq<char>| texts(sorted@).contains(t) <==> before.contains(t)
                || extra.contains(t) by {
                lemma_contains_add(before, extra, t);
                assert(!Seq::<Seq<char>>::empty().contains(t));
            }
        }
        self.wallpapers = sorted;
    }

    /// Add new wallpapers to the list. Each input is replaced by its
    /// normalised form; the wallpaper ids among their tokens join the list,
    /// which is then sorted and without repeats; the other tokens are
    /// handed back.
    pub fn add(&mut self, new_wallpapers: &mut Vec<String>) -> (rejected: Vec<String>)
        ensures
            texts(final(new_wallpapers)@) == normalized_inputs(texts(old(new_wallpapers)@)),
            texts(rejected@) == invalid_tokens(texts(final(new_wallpapers)@)),
            merged(
                old(self).ids(),
                valid_tokens(texts(final(new_wallpapers)@)),
                final(self).ids(),
            ),
            final(self).settings() == old(self).settings(),
            final(self).ledger() == old(self).ledger(),
    {
        let normalized = normalize_all(new_wallpapers.as_slice());
        *new_wallpapers = normalized;
        let validated = validate_tokens(new_wallpapers.as_slice());
        self.track(validated.ids);
        validated.rejected
    }

    /// Takes `ids` off the list and, if any was on it and integrity checks
    /// are on, their records out of the ledger.
    pub fn untrack(&mut self, ids: &[String]) -> (report: Removal)
        ensures
            RustPaper::removal(*old(self), texts(ids@), *final(self), report),
    {
        let ghost wanted = texts(ids@);
        let ghost before = texts(self.wallpapers@);
        let ghost stays = |id: Seq<char>| !wanted.contains(id);
        let len_before = self.wallpapers.len();
        let mut rest: Vec<String> = Vec::new();
        let mut i: usize = 0;
        proof {
            reveal(Seq::filter);
            assert(before.take(0) =~= Seq::<Seq<char>>::empty());
            assert(texts(rest@) =~= before.take(0).filter(stays));
        }
        while i < self.wallpapers.len()
            invariant
                i <= self.wallpapers.len(),
                *self == *old(self),
                before == texts(self.wallpapers@),
                wanted == texts(ids@),
                stays == |id: Seq<char>| !wanted.contains(id),
                texts(rest@) == before.take(i as int).filter(stays),
            decreases self.wallpapers.len() - i,
        {
            proof {
                assert(before.take(i + 1) == before.take(i as int).push(before[i as int]));
                before.take(i as int).lemma_filter_push(before[i as int], stays);
                before.take(i as int).lemma_filter_len(stays);
            }
            if !contains_text(ids, self.wallpapers[i].as_str()) {
                let id = self.wallpapers[i].clone();
                proof {
                    lemma_texts_push(rest@, id);
                }
                rest.push(id);
            }
            i += 1;
        }
        proof {
            assert(before.take(before.len() as int) == before);
            before.lemma_filter_len(stays);
        }
        let removed_count = len_before - rest.len();
        self.wallpapers = rest;
        let mut ledger_changed = false;
        if removed_count > 0 && self.config.integrity {
            match &mut self.lock_file {
                Some(lock_file) => {
                    ledger_changed = lock_file.remove_all(ids);
                },
                None => {},
            }
        }
        Removal { removed_count, requested: ids.len(), ledger_changed }
    }

    /// Remove wallpapers from the list. The inputs may be ids, page
    /// addresses or comma-separated batches; without a single wallpaper id
    /// among them nothing is done and the removal fails.
    pub fn remove(&mut self, ids_to_remove: &[String]) -> (outcome: Result<Removal, PaperError>)
        ensures
            match outcome {
                Ok(report) => {
                    let ids = valid_tokens(normalized_inputs(texts(ids_to_remove@)));
                    ids.len() > 0 && RustPaper::removal(*old(self), ids, *final(self), report)
                },
                Err(e) => {
                    &&& valid_tokens(normalized_inputs(texts(ids_to_remove@))).len() == 0
                    &&& e == PaperError::NoValidIds
                    &&& *final(self) == *old(self)
                },
            },
    {
        let normalized = normalize_all(ids_to_remove);
        let validated = validate_tokens(normalized.as_slice());
        if validated.ids.len() == 0 {
            return Err(PaperError::NoValidIds);
        }
        Ok(self.untrack(validated.ids.as_slice()))
    }
}

/// Status of a wallpaper.
#[derive(Debug)]
pub enum WallpaperStatus {
    /// A file with the wallpaper's id as its stem is at `path`.
    Downloaded { path: String },
    /// No such file is there.
    NotDownloaded,
}

impl WallpaperStatus {
    /// The path, where the wallpaper is downloaded.
    pub open spec fn location(self) -> Option<Seq<char>> {
        match self {
            WallpaperStatus::Downloaded { path } => Some(path@),
            WallpaperStatus::NotDownloaded => None,
        }
    }
}

/// Check the download status of a wallpaper against a listing of the save directory.
pub fn check_download_status(listing: &Vec<ListedEntry>, wallpaper_id: &str) -> (status:
    WallpaperStatus)
    ensures
        status.location() == first_with_stem(listing@, wallpaper_id@),
{
    match find_existing_image(listing, wallpaper_id) {
        Some(path) => WallpaperStatus::Downloaded { path: path.to_owned() },
        None => WallpaperStatus::NotDownloaded,
    }
}

/// The listed wallpapers with their status.
#[derive(Debug)]
pub struct Listing {
    /// The status of each wallpaper, in list order.
    pub statuses: Vec<WallpaperStatus>,
    /// How many are downloaded.
    pub downloaded_count: usize,
    /// How many are not.
    pub not_downloaded_count: usize,
}

/// A file of the save directory that belongs to no listed wallpaper.
#[derive(Debug)]
pub struct Orphan {
    /// The file's path.
    pub path: String,
    /// The file's stem.
    pub stem: String,
}

/// The entry is a regular file whose stem is not on the list.
pub open spec fn is_orphan(entry: ListedEntry, ids: Seq<Seq<char>>) -> bool {
    keyed(entry) && !ids.contains(entry.stem->0@)
}

/// The orphans of a listing, in its order.
pub open spec fn orphans_of(listing: Seq<ListedEntry>, ids: Seq<Seq<char>>) -> Seq<ListedEntry> {
    listing.filter(|entry: ListedEntry| is_orphan(entry, ids))
}

/// The stems of a sequence of orphans.
pub open spec fn orphan_stems(orphans: Seq<Orphan>) -> Seq<Seq<char>> {
    Seq::new(orphans.len(), |i: int| orphans[i].stem@)
}

/// What a clean-up is to delete.
#[derive(Debug)]
pub struct Cleanup {
    /// The files to delete, in listing order.
    pub orphans: Vec<Orphan>,
    /// Whether the ledger lost a record.
    pub ledger_changed: bool,
}

/// What became of one orphan.
#[derive(Clone, Copy, Debug)]
pub struct RemovalOutcome {
    /// The file's size, where it could be read.
    pub size: Option<u64>,
    /// Whether the file was deleted.
    pub removed: bool,
}

/// The count of a clean-up.
#[derive(Clone, Copy, Debug, PartialEq, Eq, Structural)]
pub struct CleanReport {
    /// Files deleted.
    pub removed_count: usize,
    /// Bytes freed: the sizes of the files deleted, as far as they could be
    /// read; stops at the largest `u64`.
    pub total_size: u64,
}

/// The bytes that one outcome freed: the file's size where the file was
/// deleted and its size could be read, nothing otherwise.
pub open spec fn freed_by(outcome: RemovalOutcome) -> nat {
    match outcome.size {
        Some(size) => if outcome.removed {
            size as nat
        } else {
            0
        },
        None => 0,
    }
}

/// The bytes freed in all.
pub open spec fn freed_sum(outcomes: Seq<RemovalOutcome>) -> nat
    decreases outcomes.len(),
{
    if outcomes.len() == 0 {
        0
    } else {
        freed_sum(outcomes.drop_last()) + freed_by(outcomes.last())
    }
}

/// Counts the outcomes of a clean-up: the files deleted and the bytes they
/// freed. A file that could not be deleted counts for neither, and does not
/// keep the others from being counted.
pub fn clean_report(outcomes: &[RemovalOutcome]) -> (report: CleanReport)
    ensures
        report.removed_count == outcomes@.filter(|o: RemovalOutcome| o.removed).len(),
        report.total_size == if freed_sum(outcomes@) <= u64::MAX {
            freed_sum(outcomes@)
        } else {
            u64::MAX as nat
        },
{
    let ghost gone = |o: RemovalOutcome| o.removed;
    let mut removed_count: usize = 0;
    let mut total_size: u64 = 0;
    let mut i: usize = 0;
    proof {
        reveal(Seq::filter);
        assert(outcomes@.take(0) =~= Seq::<RemovalOutcome>::empty());
    }
    while i < outcomes.len()
        invariant
            i <= outcomes.len(),
            gone == |o: RemovalOutcome| o.removed,
            removed_count == outcomes@.take(i as int).filter(gone).len(),
            removed_count <= i,
            total_size == if freed_sum(outcomes@.take(i as int)) <= u64::MAX {
                freed_sum(outcomes@.take(i as int))
            } else {
                u64::MAX as nat
            },
        decreases outcomes.len() - i,
    {
        proof {
            let grown = outcomes@.take(i + 1);
            assert(grown.drop_last() == outcomes@.take(i as int));
            assert(grown.last() == outcomes@[i as int]);
            assert(grown == outcomes@.take(i as int).push(outcomes@[i as int]));
            outcomes@.take(i as int).lemma_filter_push(outcomes@[i as int], gone);
        }
        if outcomes[i].removed {
            removed_count += 1;
            match outcomes[i].size {
                Some(size) => {
                    total_size = total_size.saturating_add(size);
                },
                None => {},
            }
        }
        i += 1;
    }
    proof {
        assert(outcomes@.take(outcomes@.len() as int) == outcomes@);
    }
    CleanReport { removed_count, total_size }
}

/// What `info` asks of the metadata service.
#[derive(Debug)]
pub struct InfoRequest {
    /// The wallpaper id.
    pub wallpaper_id: String,
    /// The metadata address.
    pub api_url: String,
}

/// What the engine itself knows of a wallpaper.
#[derive(Debug)]
pub struct InfoStatus {
    /// Whether the wallpaper is on the list.
    pub listed: bool,
    /// Where its file is, for a listed wallpaper that is downloaded.
    pub local: Option<String>,
}

impl RustPaper {
    /// List all wallpapers with their download status, against a listing of
    /// the save directory.
    pub fn list(&self, listing: &Vec<ListedEntry>) -> (report: Listing)
        ensures
            report.statuses@.len() == self.ids().len(),
            forall|i: int|
                0 <= i < self.ids().len() ==> (#[trigger] report.statuses@[i]).location()
                    == first_with_stem(listing@, self.ids()[i]),
            report.downloaded_count == self.ids().filter(
                |id: Seq<char>| first_with_stem(listing@, id) is Some,
            ).len(),
            report.downloaded_count + report.not_downloaded_count == self.ids().len(),
    {
        let ghost all = texts(self.wallpapers@);
        let ghost found = |id: Seq<char>| first_with_stem(listing@, id) is Some;
        let mut statuses: Vec<WallpaperStatus> = Vec::new();
        let mut downloaded_count: usize = 0;
        let mut not_downloaded_count: usize = 0;
        let mut i: usize = 0;
        proof {
            reveal(Seq::filter);
            assert(all.take(0) =~= Seq::<Seq<char>>::empty());
        }
        while i < self.wallpapers.len()
            invariant
                i <= self.wallpapers.len(),
                all == texts(self.wallpapers@),
                found == |id: Seq<char>| first_with_stem(listing@, id) is Some,
                statuses@.len() == i,
                forall|j: int|
                    0 <= j < i ==> (#[trigger] statuses@[j]).location() == first_with_stem(
                        listing@,
                        all[j],
                    ),
                downloaded_count == all.take(i as int).filter(found).len(),
                downloaded_count + not_downloaded_count == i,
            decreases self.wallpapers.len() - i,
        {
            proof {
                assert(all.take(i + 1) == all.take(i as int).push(all[i as int]));
                all.take(i as int).lemma_filter_push(all[i as int], found);
            }
            let status = check_download_status(listing, self.wallpapers[i].as_str());
            match &status {
                WallpaperStatus::Downloaded { .. } => {
                    downloaded_count += 1;
                },
                WallpaperStatus::NotDownloaded => {
                    not_downloaded_count += 1;
                },
            }
            statuses.push(status);
            i += 1;
        }
        proof {
            assert(all.take(all.len() as int) == all);
        }
        Listing { statuses, downloaded_count, not_downloaded_count }
    }

    /// Clean up downloaded wallpapers that are no longer in the list: names
    /// the regular files whose stem is not on the list and, with integrity
    /// checks on, takes their records out of the ledger.
    pub fn clean(&mut self, listing: &Vec<ListedEntry>) -> (cleanup: Cleanup)
        ensures
            cleanup.orphans@.len() == orphans_of(listing@, old(self).ids()).len(),
            forall|i: int|
                0 <= i < cleanup.orphans@.len() ==> {
                    let orphan = #[trigger] cleanup.orphans@[i];
                    let entry = orphans_of(listing@, old(self).ids())[i];
                    orphan.path@ == entry.path@ && orphan.stem@ == entry.stem->0@
                },
            final(self).ids() == old(self).ids(),
            final(self).settings() == old(self).settings(),
            final(self).ledger() == match old(self).ledger() {
                Some(records) => if old(self).settings().integrity {
                    Some(purged(records, orphan_stems(cleanup.orphans@)))
                } else {
                    Some(records)
                },
                None => None,
            },
            cleanup.ledger_changed == (final(self).ledger() != old(self).ledger()),
    {
        let ghost ids = texts(self.wallpapers@);
        let ghost stray = |entry: ListedEntry| is_orphan(entry, ids);
        let mut orphans: Vec<Orphan> = Vec::new();
        let mut stems: Vec<String> = Vec::new();
        let mut i: usize = 0;
        proof {
            reveal(Seq::filter);
            assert(listing@.take(0) =~= Seq::<ListedEntry>::empty());
            assert(texts(stems@) =~= orphan_stems(orphans@));
        }
        while i < listing.len()
            invariant
                i <= listing.len(),
                *self == *old(self),
                ids == texts(self.wallpapers@),
                stray == |entry: ListedEntry| is_orphan(entry, ids),
                orphans@.len() == listing@.take(i as int).filter(stray).len(),
                forall|j: int|
                    0 <= j < orphans@.len() ==> {
                        let orphan = #[trigger] orphans@[j];
                        let entry = listing@.take(i as int).filter(stray)[j];
                        orphan.path@ == entry.path@ && orphan.stem@ == entry.stem->0@
                    },
                texts(stems@) == orphan_stems(orphans@),
            decreases listing.len() - i,
        {
            let entry = &listing[i];
            proof {
                assert(listing@.take(i + 1) == listing@.take(i as int).push(*entry));
                listing@.take(i as int).lemma_filter_push(*entry, stray);
            }
            if entry.is_file {
                match &entry.stem {
                    Some(stem) => {
                        if !contains_text(self.wallpapers.as_slice(), stem.as_str()) {
                            let orphan = Orphan { path: entry.path.clone(), stem: stem.clone() };
                            let copy = stem.clone();
                            proof {
                                lemma_texts_push(stems@, copy);
                                assert(orphan_stems(orphans@.push(orphan)) =~= orphan_stems(
                                    orphans@,
                                ).push(stem@));
                            }
                            orphans.push(orphan);
                            stems.push(copy);
                        }
                    },
                    None => {},
                }
            }
            i += 1;
        }
        proof {
            assert(listing@.take(listing@.len() as int) == listing@);
        }
        let mut ledger_changed = false;
        if self.config.integrity {
            match &mut self.lock_file {
                Some(lock_file) => {
                    ledger_changed = lock_file.remove_all(stems.as_slice());
                },
                None => {},
            }
        }
        Cleanup { orphans, ledger_changed }
    }

    /// Prepares a request for a wallpaper's details: the input may be an id
    /// or a page address, and must come down to a wallpaper id.
    pub fn info(&self, id: &str) -> (request: Result<InfoRequest, PaperError>)
        ensures
            match request {
                Ok(r) => {
                    &&& r.wallpaper_id@ == normalized(id@, parses_as_url(id@))
                    &&& valid_wallpaper_id(r.wallpaper_id@)
                    &&& r.api_url@ == api_url_spec(r.wallpaper_id@)
                },
                Err(PaperError::InvalidId(rejected)) => {
                    &&& rejected@ == normalized(id@, parses_as_url(id@))
                    &&& !valid_wallpaper_id(rejected@)
                },
                Err(_) => false,
            },
    {
        let wallpaper_id = extract_id(id);
        if !validate_wallpaper_id(wallpaper_id.as_str()) {
            return Err(PaperError::InvalidId(wallpaper_id));
        }
        let api_url = api_url(wallpaper_id.as_str());
        Ok(InfoRequest { wallpaper_id, api_url })
    }

    /// Reads a parsed metadata reply for `info`: a reply with an `error`
    /// member or without a `data` member is a failure; otherwise says
    /// whether the wallpaper is on the list and, if so, where its file is.
    pub fn info_status_in(&self, wallpaper_id: &str, reply: &ApiReply, listing: &Vec<ListedEntry>) -> (status:
        Result<InfoStatus, PaperError>)
        ensures
            match status {
                Ok(s) => {
                    &&& reply@.error is None
                    &&& reply@.has_data
                    &&& s.listed == self.ids().contains(wallpaper_id@)
                    &&& match s.local {
                        Some(path) => s.listed && first_with_stem(listing@, wallpaper_id@) == Some(
                            path@,
                        ),
                        None => !s.listed || first_with_stem(listing@, wallpaper_id@) is None,
                    }
                },
                Err(PaperError::Api(text)) => reply@.error == Some(text@),
                Err(PaperError::MissingData) => reply@.error is None && !reply@.has_data,
                Err(_) => false,
            },
    {
        match &reply.error {
            Some(text) => {
                return Err(PaperError::Api(text.clone()));
            },
            None => {},
        }
        if !reply.has_data {
            return Err(PaperError::MissingData);
        }
        let listed = contains_text(self.wallpapers.as_slice(), wallpaper_id);
        let local = if listed {
            match find_existing_image(listing, wallpaper_id) {
                Some(path) => Some(path.to_owned()),
                None => None,
            }
        } else {
            None
        };
        Ok(InfoStatus { listed, local })
    }

    /// Reads the body of a metadata reply for `info`.
    pub fn info_status(&self, wallpaper_id: &str, body: &str, listing: &Vec<ListedEntry>) -> (status:
        Result<InfoStatus, PaperError>)
        ensures
            match status {
                Ok(s) => {
                    &&& reply_of(body@) matches Some(reply) && reply.error is None
                        && reply.has_data
                    &&& s.listed == self.ids().contains(wallpaper_id@)
                    &&& match s.local {
                        Some(path) => s.listed && first_with_stem(listing@, wallpaper_id@) == Some(
                            path@,
                        ),
                        None => !s.listed || first_with_stem(listing@, wallpaper_id@) is None,
                    }
                },
                Err(PaperError::InvalidJson(_)) => reply_of(body@) is None,
                Err(PaperError::Api(text)) => reply_of(body@) matches Some(reply) && reply.error
                    == Some(text@),
                Err(PaperError::MissingData) => reply_of(body@) matches Some(reply)
                    && reply.error is None && !reply.has_data,
                Err(_) => false,
            },
    {
        match parse_reply(body) {
            Ok(reply) => self.info_status_in(wallpaper_id, &reply, listing),
            Err(e) => Err(PaperError::InvalidJson(json_error_text(&e))),
        }
    }
}

} // verus!
