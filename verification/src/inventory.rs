//! A snapshot of the save directory, keyed by file stem.

use vstd::hash_map::StringHashMap;
use vstd::prelude::*;
use vstd::string::*;
use crate::order::same_text;

verus! {

/// One entry of a directory listing.
#[derive(Debug)]
pub struct ListedEntry {
    /// The entry's full path.
    pub path: String,
    /// The file name without its extension, where the entry has one that is text.
    pub stem: Option<String>,
    /// Whether the entry is a regular file.
    pub is_file: bool,
}

/// The entry is a regular file with a stem, and so has a key in the inventory.
pub open spec fn keyed(entry: ListedEntry) -> bool {
    entry.is_file && entry.stem is Some
}

impl ListedEntry {
    /// Whether the entry is a regular file with a stem.
    pub fn is_keyed(&self) -> (yes: bool)
        ensures
            yes == keyed(*self),
    {
        self.is_file && self.stem.is_some()
    }
}

/// The inventory of a listing: each regular file under its stem; where two
/// files share a stem, the one listed later stands.
pub open spec fn file_map(listing: Seq<ListedEntry>) -> Map<Seq<char>, Seq<char>>
    decreases listing.len(),
{
    if listing.len() == 0 {
        Map::empty()
    } else {
        let earlier = file_map(listing.drop_last());
        let entry = listing.last();
        if keyed(entry) {
            earlier.insert(entry.stem->0@, entry.path@)
        } else {
            earlier
        }
    }
}

/// The path of the first entry, of any kind, whose stem is `stem`.
pub open spec fn first_with_stem(listing: Seq<ListedEntry>, stem: Seq<char>) -> Option<Seq<char>>
    decreases listing.len(),
{
    if listing.len() == 0 {
        None
    } else if listing[0].stem is Some && listing[0].stem->0@ == stem {
        Some(listing[0].path@)
    } else {
        first_with_stem(listing.drop_first(), stem)
    }
}

/// Wallpaper files found on disk: id to path.
pub struct Inventory {
    files: StringHashMap<String>,
}

impl View for Inventory {
    type V = Map<Seq<char>, Seq<char>>;

    closed spec fn view(&self) -> Map<Seq<char>, Seq<char>> {
        self.files@.map_values(|path: String| path@)
    }
}

impl Inventory {
    /// An inventory without files.
    pub fn new() -> (inventory: Inventory)
        ensures
            inventory@ == Map::<Seq<char>, Seq<char>>::empty(),
    {
        let inventory = Inventory { files: StringHashMap::new() };
        assert(inventory@ =~= Map::<Seq<char>, Seq<char>>::empty());
        inventory
    }

    /// Records that `id` is stored at `path`, replacing what was known of `id`.
    pub fn insert(&mut self, id: String, path: String)
        ensures
            final(self)@ == old(self)@.insert(id@, path@),
    {
        let ghost before = self@;
        let ghost key = id@;
        let ghost value = path@;
        self.files.insert(id, path);
        assert(self@ =~= before.insert(key, value));
    }

    /// The path recorded for `id`, if any.
    pub fn get(&self, id: &str) -> (path: Option<&str>)
        ensures
            match path {
                Some(p) => self@.contains_key(id@) && self@[id@] == p@,
                None => !self@.contains_key(id@),
            },
    {
        match self.files.get(id) {
            Some(path) => Some(path.as_str()),
            None => None,
        }
    }
}

/// Build a map of wallpaper IDs to file paths from one directory listing.
pub fn build_file_map(listing: &Vec<ListedEntry>) -> (inventory: Inventory)
    ensures
        inventory@ == file_map(listing@),
{
    let mut inventory = Inventory::new();
    let mut i: usize = 0;
    assert(listing@.take(0) =~= Seq::<ListedEntry>::empty());
    while i < listing.len()
        invariant
            i <= listing.len(),
            inventory@ == file_map(listing@.take(i as int)),
        decreases listing.len() - i,
    {
        let ghost part = listing@.take(i + 1);
        assert(part.drop_last() == listing@.take(i as int));
        assert(part.last() == listing@[i as int]);
        let entry = &listing[i];
        if entry.is_file {
            match &entry.stem {
                Some(stem) => {
                    inventory.insert(stem.clone(), entry.path.clone());
                },
                None => {},
            }
        }
        i += 1;
    }
    assert(listing@.take(listing@.len() as int) == listing@);
    inventory
}

/// Find an existing image file for a wallpaper ID.
pub fn find_existing_image<'a>(listing: &'a Vec<ListedEntry>, wallpaper: &str) -> (path: Option<
    &'a str,
>)
    ensures
        match path {
            Some(p) => first_with_stem(listing@, wallpaper@) == Some(p@),
            None => first_with_stem(listing@, wallpaper@) is None,
        },
{
    let mut i: usize = 0;
    assert(listing@.skip(0) == listing@);
    while i < listing.len()
        invariant
            i <= listing.len(),
            first_with_stem(listing@, wallpaper@) == first_with_stem(
                listing@.skip(i as int),
                wallpaper@,
            ),
        decreases listing.len() - i,
    {
        let ghost rest = listing@.skip(i as int);
        assert(rest[0] == listing@[i as int]);
        assert(rest.drop_first() == listing@.skip(i + 1));
        match &listing[i].stem {
            Some(stem) => {
                if same_text(stem.as_str(), wallpaper) {
                    return Some(listing[i].path.as_str());
                }
            },
            None => {},
        }
        i += 1;
    }
    None
}

} // verus!
