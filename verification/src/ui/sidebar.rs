//! What the side bar lists and what can be asked in it.

use vstd::prelude::*;

use crate::models::Chat;
use crate::text::{contains, has, lowercase, trim, trimmed};

verus! {

/// A request made in the side bar.
#[derive(Debug, Clone, Copy, PartialEq, Eq, Structural)]
pub enum SidebarAction {
    NewChat,
    SelectChat(i64),
    DeleteChat(i64),
    RenameChat(i64),
    SelectLibrary(Option<i64>),
    OpenLibraries,
    OpenSettings,
}

/// The title of a chat holds what is searched for, whatever the case.
pub open spec fn title_matches(title: Seq<char>, search: Seq<char>) -> bool {
    trim(search).len() == 0 || contains(lowercase(title), lowercase(trim(search)))
}

/// The positions of the chats that match, in order.
pub open spec fn matching(chats: Seq<Chat>, search: Seq<char>) -> Seq<int>
    decreases chats.len(),
{
    if chats.len() == 0 {
        Seq::empty()
    } else {
        let before = matching(chats.drop_last(), search);
        if title_matches(chats.last().title@, search) {
            before.push(chats.len() - 1)
        } else {
            before
        }
    }
}

/// The positions of the chats whose title matches the search.
pub fn visible_chats(chats: &Vec<Chat>, search: &str) -> (r: Vec<usize>)
    ensures
        r@.map_values(|i: usize| i as int) == matching(chats@, search@),
{
    let bare = trimmed(search);
    let empty = bare.as_str().is_empty();
    let query = bare.as_str().to_lowercase();
    let mut r: Vec<usize> = Vec::new();
    let mut i: usize = 0;
    while i < chats.len()
        invariant
            i <= chats.len(),
            bare@ == trim(search@),
            empty == (bare@.len() == 0),
            query@ == lowercase(bare@),
            r@.map_values(|i: usize| i as int) == matching(chats@.take(i as int), search@),
        decreases chats.len() - i,
    {
        let ghost before = r@.map_values(|i: usize| i as int);
        assert(chats@.take(i + 1).drop_last() =~= chats@.take(i as int));
        if empty || has(chats[i].title.as_str().to_lowercase().as_str(), query.as_str()) {
            r.push(i);
            assert(r@.map_values(|i: usize| i as int) =~= before.push(i as int));
        }
        i += 1;
    }
    assert(chats@.take(i as int) =~= chats@);
    r
}

/// Every chat stands in the side bar where nothing is searched for.
pub proof fn law_empty_search_shows_all(chats: Seq<Chat>, search: Seq<char>)
    requires
        trim(search).len() == 0,
    ensures
        matching(chats, search) == Seq::new(chats.len(), |i: int| i),
    decreases chats.len(),
{
    if chats.len() > 0 {
        law_empty_search_shows_all(chats.drop_last(), search);
        assert(matching(chats, search) =~= Seq::new(chats.len(), |i: int| i));
    } else {
        assert(matching(chats, search) =~= Seq::new(chats.len(), |i: int| i));
    }
}

} // verus!
