//! The list of wallpaper ids: how it is read, written, searched and thinned,
//! and what adding and removing do to it.

use vstd::prelude::*;
use vstd::string::*;
use crate::helper::{all_tokens, to_array, to_array_spec};
use crate::order::{
    lemma_sorted_unique, lemma_str_less_irreflexive, merged, same_text, str_less, strictly_sorted,
};
use crate::text::texts;

verus! {

/// Load wallpaper IDs from the lines of the list file: every token of every
/// line, in order.
pub fn load_wallpapers(lines: &[String]) -> (ids: Vec<String>)
    ensures
        texts(ids@) == all_tokens(texts(lines@)),
{
    let ghost all = texts(lines@);
    let ghost pieces = |input: Seq<char>| to_array_spec(input);
    let mut ids: Vec<String> = Vec::new();
    let mut i: usize = 0;
    proof {
        assert(all.take(0).map_values(pieces) =~= Seq::<Seq<Seq<char>>>::empty());
        assert(texts(ids@) =~= all_tokens(all.take(0)));
    }
    while i < lines.len()
        invariant
            i <= lines.len(),
            all == texts(lines@),
            pieces == |input: Seq<char>| to_array_spec(input),
            texts(ids@) == all_tokens(all.take(i as int)),
        decreases lines.len() - i,
    {
        let mut tokens = to_array(lines[i].as_str());
        proof {
            assert(all.take(i + 1) == all.take(i as int).push(all[i as int]));
            all.take(i as int).lemma_push_map_commute(pieces, all[i as int]);
            all.take(i as int).map_values(pieces).lemma_flatten_push(texts(tokens@));
            assert(texts(ids@ + tokens@) =~= texts(ids@) + texts(tokens@));
        }
        ids.append(&mut tokens);
        i += 1;
    }
    proof {
        assert(all.take(all.len() as int) == all);
    }
    ids
}

/// The text of the list file for `list`: one id to a line.
pub open spec fn list_text(list: Seq<Seq<char>>) -> Seq<char> {
    list.map_values(|id: Seq<char>| id + "\n"@).flatten()
}

/// Renders the list file: each id followed by a line feed.
pub fn update_wallpaper_list(list: &[String]) -> (text: String)
    ensures
        text@ == list_text(texts(list@)),
{
    let ghost all = texts(list@);
    let ghost line = |id: Seq<char>| id + "\n"@;
    let mut text = String::new();
    let mut i: usize = 0;
    proof {
        assert(all.take(0).map_values(line) =~= Seq::<Seq<char>>::empty());
        assert(text@ =~= list_text(all.take(0)));
    }
    while i < list.len()
        invariant
            i <= list.len(),
            all == texts(list@),
            line == |id: Seq<char>| id + "\n"@,
            text@ == list_text(all.take(i as int)),
        decreases list.len() - i,
    {
        proof {
            assert(all.take(i + 1) == all.take(i as int).push(all[i as int]));
            all.take(i as int).lemma_push_map_commute(line, all[i as int]);
            all.take(i as int).map_values(line).lemma_flatten_push(line(all[i as int]));
            assert(text@ + (all[i as int] + "\n"@) =~= text@ + all[i as int] + "\n"@);
        }
        text.append(list[i].as_str());
        text.append("\n");
        i += 1;
    }
    proof {
        assert(all.take(all.len() as int) == all);
    }
    text
}

/// Whether `list` holds `item`.
pub fn contains_text(list: &[String], item: &str) -> (found: bool)
    ensures
        found == texts(list@).contains(item@),
{
    let mut i: usize = 0;
    while i < list.len()
        invariant
            i <= list.len(),
            forall|j: int| 0 <= j < i ==> texts(list@)[j] != item@,
        decreases list.len() - i,
    {
        if same_text(list[i].as_str(), item) {
            assert(texts(list@)[i as int] == item@);
            return true;
        }
        i += 1;
    }
    false
}

/// The list without the members of `ids`, the rest in their order.
pub open spec fn kept(list: Seq<Seq<char>>, ids: Seq<Seq<char>>) -> Seq<Seq<char>> {
    list.filter(|id: Seq<char>| !ids.contains(id))
}

/// What is left after a removal was on the list before and is none of `ids`.
pub proof fn lemma_kept_members(list: Seq<Seq<char>>, ids: Seq<Seq<char>>, t: Seq<char>)
    ensures
        kept(list, ids).contains(t) <==> list.contains(t) && !ids.contains(t),
{
    let stays = |id: Seq<char>| !ids.contains(id);
    if kept(list, ids).contains(t) {
        list.lemma_filter_contains_rev(stays, t);
        let i = choose|i: int| 0 <= i < kept(list, ids).len() && kept(list, ids)[i] == t;
        list.lemma_filter_pred(stays, i);
    }
    if list.contains(t) && !ids.contains(t) {
        let i = choose|i: int| 0 <= i < list.len() && list[i] == t;
        list.lemma_filter_contains(stays, i);
    }
}

/// A removal leaves a sorted list sorted.
pub proof fn lemma_kept_sorted(list: Seq<Seq<char>>, ids: Seq<Seq<char>>)
    requires
        strictly_sorted(list),
    ensures
        strictly_sorted(kept(list, ids)),
    decreases list.len(),
{
    reveal(Seq::filter);
    let stays = |id: Seq<char>| !ids.contains(id);
    if list.len() > 0 {
        let front = list.drop_last();
        assert(strictly_sorted(front)) by {
            assert forall|i: int, j: int| 0 <= i < j < front.len() implies str_less(
                #[trigger] front[i],
                #[trigger] front[j],
            ) by {
                assert(str_less(list[i], list[j]));
            }
        }
        lemma_kept_sorted(front, ids);
        let rest = kept(front, ids);
        if stays(list.last()) {
            assert(kept(list, ids) == rest.push(list.last()));
            assert forall|i: int, j: int| 0 <= i < j < rest.len() + 1 implies str_less(
                #[trigger] rest.push(list.last())[i],
                #[trigger] rest.push(list.last())[j],
            ) by {
                if j == rest.len() {
                    assert(rest.contains(rest[i]));
                    front.lemma_filter_contains_rev(stays, rest[i]);
                    let k = choose|k: int| 0 <= k < front.len() && front[k] == rest[i];
                    assert(str_less(list[k], list[list.len() - 1]));
                } else {
                    assert(str_less(rest[i], rest[j]));
                }
            }
        }
    }
}

/// Adding is idempotent: adding the same ids a second time leaves the list
/// as the first time left it, in size and content.
pub proof fn lemma_add_idempotent(
    list: Seq<Seq<char>>,
    ids: Seq<Seq<char>>,
    once: Seq<Seq<char>>,
    twice: Seq<Seq<char>>,
)
    requires
        merged(list, ids, once),
        merged(once, ids, twice),
    ensures
        twice == once,
{
    lemma_sorted_unique(once, twice);
}

/// Adding an id that was not on the list and removing it again gives back
/// the members the list had; a list that was sorted comes back as it was,
/// and so does the text of its file.
pub proof fn lemma_add_remove_round_trip(list: Seq<Seq<char>>, id: Seq<char>, added: Seq<Seq<char>>)
    requires
        merged(list, seq![id], added),
        !list.contains(id),
    ensures
        forall|t: Seq<char>| kept(added, seq![id]).contains(t) <==> list.contains(t),
        strictly_sorted(list) ==> kept(added, seq![id]) == list,
        strictly_sorted(list) ==> list_text(kept(added, seq![id])) == list_text(list),
{
    let ids = seq![id];
    assert(ids[0] == id);
    assert forall|t: Seq<char>| kept(added, ids).contains(t) <==> list.contains(t) by {
        lemma_kept_members(added, ids, t);
        if ids.contains(t) {
            assert(t == id);
        }
    }
    if strictly_sorted(list) {
        lemma_kept_sorted(added, ids);
        lemma_sorted_unique(kept(added, ids), list);
    }
}

/// A sorted list has no repeats.
pub proof fn lemma_sorted_no_duplicates(list: Seq<Seq<char>>)
    requires
        strictly_sorted(list),
    ensures
        list.no_duplicates(),
{
    assert forall|i: int, j: int| 0 <= i < list.len() && 0 <= j < list.len() && i != j implies list[i]
        != list[j] by {
        lemma_str_less_irreflexive(list[i]);
        if i < j {
            assert(str_less(list[i], list[j]));
        } else {
            assert(str_less(list[j], list[i]));
        }
    }
}

} // verus!
