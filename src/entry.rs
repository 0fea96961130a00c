use vstd::prelude::*;
use crate::directory::{Directory, DirectoryView};

verus! {

/// A game found in a collection.
#[derive(Debug, Clone, PartialEq, Eq)]
pub struct Game {
    pub path: String,
    pub name: String,
    pub full_name: String,
    /// `Some` once artwork has been looked for; the inner value is the image
    /// that was found, if any.
    pub image: Option<Option<String>>,
    pub extension: String,
}

/// An application found in a collection.
#[derive(Debug, Clone, PartialEq, Eq)]
pub struct App {
    pub name: String,
    pub path: String,
}

/// One item of a collection.
#[derive(Debug, Clone, PartialEq, Eq)]
pub enum Entry {
    Directory(Directory),
    Game(Game),
    App(App),
}

/// A game as the store records it.
#[derive(Debug, Clone, PartialEq, Eq)]
pub struct NewGame {
    pub name: String,
    pub path: String,
    pub image: Option<String>,
}

pub struct GameView {
    pub path: Seq<char>,
    pub name: Seq<char>,
    pub full_name: Seq<char>,
    pub image: Option<Option<Seq<char>>>,
    pub extension: Seq<char>,
}

pub struct AppView {
    pub name: Seq<char>,
    pub path: Seq<char>,
}

pub enum EntryView {
    Directory(DirectoryView),
    Game(GameView),
    App(AppView),
}

pub struct NewGameView {
    pub name: Seq<char>,
    pub path: Seq<char>,
    pub image: Option<Seq<char>>,
}

pub open spec fn opt_view(o: Option<String>) -> Option<Seq<char>> {
    match o {
        Some(s) => Some(s@),
        None => None,
    }
}

impl View for Game {
    type V = GameView;

    open spec fn view(&self) -> GameView {
        GameView {
            path: self.path@,
            name: self.name@,
            full_name: self.full_name@,
            image: match self.image {
                Some(i) => Some(opt_view(i)),
                None => None,
            },
            extension: self.extension@,
        }
    }
}

impl View for App {
    type V = AppView;

    open spec fn view(&self) -> AppView {
        AppView { name: self.name@, path: self.path@ }
    }
}

impl View for Entry {
    type V = EntryView;

    open spec fn view(&self) -> EntryView {
        match self {
            Entry::Directory(d) => EntryView::Directory(d@),
            Entry::Game(g) => EntryView::Game(g@),
            Entry::App(a) => EntryView::App(a@),
        }
    }
}

impl View for NewGame {
    type V = NewGameView;

    open spec fn view(&self) -> NewGameView {
        NewGameView { name: self.name@, path: self.path@, image: opt_view(self.image) }
    }
}

/// The views of a list of entries.
pub open spec fn entries_view(s: Seq<Entry>) -> Seq<EntryView> {
    s.map_values(|e: Entry| e@)
}

/// The views of a list of store records.
pub open spec fn records_view(s: Seq<NewGame>) -> Seq<NewGameView> {
    s.map_values(|g: NewGame| g@)
}

/// The store record of a game: its name, its path, and the image found, if any.
pub open spec fn record_of(g: GameView) -> NewGameView {
    NewGameView {
        name: g.name,
        path: g.path,
        image: match g.image {
            Some(i) => i,
            None => None,
        },
    }
}

/// The store records of the games among `s`, in their order; directories and
/// applications give none.
pub open spec fn game_records_of(s: Seq<EntryView>) -> Seq<NewGameView>
    decreases s.len(),
{
    if s.len() == 0 {
        seq![]
    } else {
        let prev = game_records_of(s.drop_last());
        match s.last() {
            EntryView::Game(g) => prev.push(record_of(g)),
            _ => prev,
        }
    }
}

fn copy_opt(o: &Option<String>) -> (r: Option<String>)
    ensures
        opt_view(r) == opt_view(*o),
{
    match o {
        Some(s) => Some(s.clone()),
        None => None,
    }
}

impl Game {
    /// The record that the store keeps of this game.
    pub fn record(&self) -> (r: NewGame)
        ensures
            r@ == record_of(self@),
    {
        let image = match &self.image {
            Some(i) => copy_opt(i),
            None => None,
        };
        NewGame { name: self.name.clone(), path: self.path.clone(), image }
    }
}

/// The store records of the games among `entries`, in their order.
pub fn game_records(entries: &Vec<Entry>) -> (r: Vec<NewGame>)
    ensures
        records_view(r@) == game_records_of(entries_view(entries@)),
{
    let mut r: Vec<NewGame> = Vec::new();
    let mut i: usize = 0;
    while i < entries.len()
        invariant
            i <= entries@.len(),
            records_view(r@) == game_records_of(entries_view(entries@.subrange(0, i as int))),
        decreases entries@.len() - i,
    {
        let ghost before = entries@.subrange(0, i as int);
        let ghost after = entries@.subrange(0, i + 1);
        assert(entries_view(after).drop_last() =~= entries_view(before));
        match &entries[i] {
            Entry::Game(g) => {
                r.push(g.record());
            },
            _ => {},
        }
        assert(records_view(r@) =~= game_records_of(entries_view(after)));
        i += 1;
    }
    assert(entries@.subrange(0, entries@.len() as int) =~= entries@);
    r
}

} // verus!
