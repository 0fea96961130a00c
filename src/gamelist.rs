use vstd::prelude::*;
use crate::directory::{named_descriptor_of, Directory};
use crate::entry::{entries_view, Entry, EntryView, Game, GameView};
use crate::paths::{extension_of, file_extension, join_path, joined};

verus! {

/// The name of a collection's metadata file.
pub const PRIMARY_METADATA: &'static str = "gamelist.xml";

/// The older name of a collection's metadata file, read only where the
/// current one is missing.
pub const LEGACY_METADATA: &'static str = "miyoogamelist.xml";

/// A game that a metadata file declares; paths are relative to the collection.
#[derive(Debug, Clone, PartialEq, Eq)]
pub struct DeclaredGame {
    pub path: String,
    pub name: String,
    pub image: Option<String>,
}

/// A nested collection that a metadata file declares.
#[derive(Debug, Clone, PartialEq, Eq)]
pub struct DeclaredFolder {
    pub path: String,
    pub name: String,
}

/// The contents of a metadata file.
#[derive(Debug, Clone, PartialEq, Eq, Default)]
pub struct GameList {
    pub games: Vec<DeclaredGame>,
    pub folders: Vec<DeclaredFolder>,
}

/// A declared folder, with whether its target exists on disk.
pub struct FoundFolder {
    pub folder: DeclaredFolder,
    pub exists: bool,
}

/// A declared game, with whether its file and its image exist on disk
/// (`image_exists` is false where no image is declared).
pub struct FoundGame {
    pub game: DeclaredGame,
    pub exists: bool,
    pub image_exists: bool,
}

/// The entry that a present declared folder becomes.
pub open spec fn folder_entry(dir: Seq<char>, f: DeclaredFolder) -> EntryView {
    EntryView::Directory(named_descriptor_of(joined(dir, f.path@), f.name@))
}

/// The image of a declared game once resolved: absent unless declared and
/// present.
pub open spec fn resolved_image(dir: Seq<char>, g: FoundGame) -> Option<Seq<char>> {
    match g.game.image {
        Some(i) => if g.image_exists { Some(joined(dir, i@)) } else { None },
        None => None,
    }
}

/// The entry that a present declared game becomes.
pub open spec fn game_entry(dir: Seq<char>, g: FoundGame) -> EntryView {
    let path = joined(dir, g.game.path@);
    EntryView::Game(GameView {
        path,
        name: g.game.name@,
        full_name: g.game.name@,
        image: Some(resolved_image(dir, g)),
        extension: extension_of(path),
    })
}

/// The entries of the present folders, in declaration order.
pub open spec fn resolved_folders(dir: Seq<char>, fs: Seq<FoundFolder>) -> Seq<EntryView>
    decreases fs.len(),
{
    if fs.len() == 0 {
        seq![]
    } else {
        let prev = resolved_folders(dir, fs.drop_last());
        if fs.last().exists {
            prev.push(folder_entry(dir, fs.last().folder))
        } else {
            prev
        }
    }
}

/// The entries of the present games, in declaration order.
pub open spec fn resolved_games(dir: Seq<char>, gs: Seq<FoundGame>) -> Seq<EntryView>
    decreases gs.len(),
{
    if gs.len() == 0 {
        seq![]
    } else {
        let prev = resolved_games(dir, gs.drop_last());
        if gs.last().exists {
            prev.push(game_entry(dir, gs.last()))
        } else {
            prev
        }
    }
}

/// What a metadata file resolves to: its present folders, then its present games.
pub open spec fn resolved_list(dir: Seq<char>, fs: Seq<FoundFolder>, gs: Seq<FoundGame>) -> Seq<EntryView> {
    resolved_folders(dir, fs) + resolved_games(dir, gs)
}

/// The recognized entries among classified children, in their order.
pub open spec fn recognized(s: Seq<Option<Entry>>) -> Seq<EntryView>
    decreases s.len(),
{
    if s.len() == 0 {
        seq![]
    } else {
        let prev = recognized(s.drop_last());
        match s.last() {
            Some(e) => prev.push(e@),
            None => prev,
        }
    }
}

/// `r` is the first index at which `present` holds, or `None` where it holds
/// nowhere.
pub open spec fn is_first_present(present: Seq<bool>, r: Option<usize>) -> bool {
    match r {
        Some(i) => i < present.len() && present[i as int] && forall|j: int| 0 <= j < i ==> !present[j],
        None => forall|j: int| 0 <= j < present.len() ==> !present[j],
    }
}

/// The index of the first metadata file that is present, trying them in order.
pub fn pick_metadata(present: &Vec<bool>) -> (r: Option<usize>)
    ensures
        is_first_present(present@, r),
{
    let mut i: usize = 0;
    while i < present.len()
        invariant
            i <= present@.len(),
            forall|j: int| 0 <= j < i ==> !present@[j],
        decreases present@.len() - i,
    {
        if present[i] {
            return Some(i);
        }
        i += 1;
    }
    None
}

/// The entries that are recognized among classified children, in their order.
pub fn recognized_entries(classified: Vec<Option<Entry>>) -> (r: Vec<Entry>)
    ensures
        entries_view(r@) == recognized(classified@),
{
    let mut rest = classified;
    let mut out: Vec<Entry> = Vec::new();
    let ghost all = rest@;
    let ghost n = rest@.len();
    while rest.len() > 0
        invariant
            rest@.len() <= n,
            n == all.len(),
            rest@ == all.subrange(0, rest@.len() as int),
            recognized(all) == recognized(rest@) + entries_view(out@),
        decreases rest@.len(),
    {
        let ghost before = rest@;
        let item = rest.pop().unwrap();
        assert(before.drop_last() =~= rest@);
        assert(rest@ =~= all.subrange(0, rest@.len() as int));
        match item {
            Some(e) => {
                let ghost old_out = out@;
                out.insert(0, e);
                assert(entries_view(out@) =~= seq![e@] + entries_view(old_out));
                assert(recognized(before) == recognized(rest@).push(e@));
                assert(recognized(rest@).push(e@) + entries_view(old_out) =~= recognized(rest@)
                    + entries_view(out@));
            },
            None => {},
        }
    }
    assert(recognized(rest@) =~= seq![]);
    assert(seq![] + entries_view(out@) =~= entries_view(out@));
    out
}

impl Directory {
    /// The paths at which this collection's metadata files would stand, the
    /// preferred one first.
    pub fn metadata_files(&self) -> (r: Vec<String>)
        ensures
            r@.len() == 2,
            r@[0]@ == joined(self.path@, PRIMARY_METADATA@),
            r@[1]@ == joined(self.path@, LEGACY_METADATA@),
    {
        let primary = join_path(&self.path, &PRIMARY_METADATA.to_owned());
        let legacy = join_path(&self.path, &LEGACY_METADATA.to_owned());
        let mut r: Vec<String> = Vec::new();
        r.push(primary);
        r.push(legacy);
        r
    }

    /// The path on disk of a declared path of this collection.
    pub fn resolve(&self, rel: &String) -> (r: String)
        ensures
            r@ == joined(self.path@, rel@),
    {
        join_path(&self.path, rel)
    }

    fn folder_to_entry(&self, f: &DeclaredFolder) -> (r: Entry)
        ensures
            r@ == folder_entry(self.path@, *f),
    {
        let path = join_path(&self.path, &f.path);
        Entry::Directory(Directory::with_name(path, f.name.clone()))
    }

    fn game_to_entry(&self, g: &FoundGame) -> (r: Entry)
        ensures
            r@ == game_entry(self.path@, *g),
    {
        let path = join_path(&self.path, &g.game.path);
        let extension = file_extension(&path);
        let image = match &g.game.image {
            Some(i) => if g.image_exists {
                Some(join_path(&self.path, i))
            } else {
                None
            },
            None => None,
        };
        Entry::Game(Game {
            path,
            name: g.game.name.clone(),
            full_name: g.game.name.clone(),
            image: Some(image),
            extension,
        })
    }

    /// The entries that a metadata file declares, once each declared path has
    /// been looked up on disk: the folders that exist, then the games that
    /// exist, each group in declaration order. A missing image is dropped.
    pub fn resolve_game_list(&self, folders: &Vec<FoundFolder>, games: &Vec<FoundGame>) -> (r: Vec<Entry>)
        ensures
            entries_view(r@) == resolved_list(self.path@, folders@, games@),
    {
        let mut out: Vec<Entry> = Vec::new();
        let mut i: usize = 0;
        while i < folders.len()
            invariant
                i <= folders@.len(),
                entries_view(out@) == resolved_folders(self.path@, folders@.subrange(0, i as int)),
            decreases folders@.len() - i,
        {
            let ghost after = folders@.subrange(0, i + 1);
            assert(after.drop_last() =~= folders@.subrange(0, i as int));
            if folders[i].exists {
                out.push(self.folder_to_entry(&folders[i].folder));
            }
            assert(entries_view(out@) =~= resolved_folders(self.path@, after));
            i += 1;
        }
        assert(folders@.subrange(0, folders@.len() as int) =~= folders@);
        let ghost head = out@;
        let mut k: usize = 0;
        while k < games.len()
            invariant
                k <= games@.len(),
                head.len() <= out@.len(),
                out@.subrange(0, head.len() as int) == head,
                entries_view(head) == resolved_folders(self.path@, folders@),
                entries_view(out@.subrange(head.len() as int, out@.len() as int)) == resolved_games(
                    self.path@,
                    games@.subrange(0, k as int),
                ),
            decreases games@.len() - k,
        {
            let ghost after = games@.subrange(0, k + 1);
            assert(after.drop_last() =~= games@.subrange(0, k as int));
            let ghost old_out = out@;
            if games[k].exists {
                out.push(self.game_to_entry(&games[k]));
                assert(out@.subrange(head.len() as int, out@.len() as int) =~= old_out.subrange(
                    head.len() as int,
                    old_out.len() as int,
                ).push(out@.last()));
            }
            assert(out@.subrange(0, head.len() as int) =~= head);
            assert(entries_view(out@.subrange(head.len() as int, out@.len() as int)) =~= resolved_games(
                self.path@,
                after,
            ));
            k += 1;
        }
        assert(games@.subrange(0, games@.len() as int) =~= games@);
        assert(out@ =~= head + out@.subrange(head.len() as int, out@.len() as int));
        assert(entries_view(out@) =~= entries_view(head) + entries_view(
            out@.subrange(head.len() as int, out@.len() as int),
        ));
        out
    }
}

} // verus!

verus! {

/// What was read of a collection on disk: the looked-up contents of its
/// metadata file, or, where it has none, its children as classified.
pub enum Contents {
    Declared(Vec<FoundFolder>, Vec<FoundGame>),
    Scanned(Vec<Option<Entry>>),
}

/// The entries that `contents` gives for the collection at `dir`.
pub open spec fn contents_entries(dir: Seq<char>, contents: Contents) -> Seq<EntryView> {
    match contents {
        Contents::Declared(fs, gs) => resolved_list(dir, fs@, gs@),
        Contents::Scanned(cs) => recognized(cs@),
    }
}

impl Directory {
    /// The entries of this collection: those its metadata file declares where
    /// it has one, else its recognized children; never a union of the two.
    pub fn entries(&self, contents: Contents) -> (r: Vec<Entry>)
        ensures
            entries_view(r@) == contents_entries(self.path@, contents),
    {
        match contents {
            Contents::Declared(fs, gs) => self.resolve_game_list(&fs, &gs),
            Contents::Scanned(cs) => recognized_entries(cs),
        }
    }
}

} // verus!

verus! {

/// `f` is present and is the declared folder that `e` was resolved from.
pub open spec fn folder_backs(dir: Seq<char>, f: FoundFolder, e: EntryView) -> bool {
    &&& f.exists
    &&& e is Directory
    &&& e->Directory_0.path == joined(dir, f.folder.path@)
}

/// `g` is present and is the declared game that `e` was resolved from; the
/// image `e` carries, if any, is `g`'s and is present too.
pub open spec fn game_backs(dir: Seq<char>, g: FoundGame, e: EntryView) -> bool {
    &&& g.exists
    &&& e is Game
    &&& e->Game_0.path == joined(dir, g.game.path@)
    &&& e->Game_0.image == Some(resolved_image(dir, g))
}

/// `e` was resolved from one of the present folders of `fs`.
pub open spec fn from_present_folder(dir: Seq<char>, fs: Seq<FoundFolder>, e: EntryView) -> bool {
    exists|i: int| 0 <= i < fs.len() && #[trigger] folder_backs(dir, fs[i], e)
}

/// `e` was resolved from one of the present games of `gs`.
pub open spec fn from_present_game(dir: Seq<char>, gs: Seq<FoundGame>, e: EntryView) -> bool {
    exists|i: int| 0 <= i < gs.len() && #[trigger] game_backs(dir, gs[i], e)
}

proof fn lemma_folders_backed(dir: Seq<char>, fs: Seq<FoundFolder>)
    ensures
        forall|k: int|
            0 <= k < resolved_folders(dir, fs).len() ==> #[trigger] from_present_folder(
                dir,
                fs,
                resolved_folders(dir, fs)[k],
            ),
    decreases fs.len(),
{
    if fs.len() > 0 {
        let prev = fs.drop_last();
        lemma_folders_backed(dir, prev);
        let r = resolved_folders(dir, fs);
        assert forall|k: int| 0 <= k < r.len() implies #[trigger] from_present_folder(dir, fs, r[k]) by {
            if k < resolved_folders(dir, prev).len() {
                assert(from_present_folder(dir, prev, resolved_folders(dir, prev)[k]));
                let i = choose|i: int|
                    0 <= i < prev.len() && #[trigger] folder_backs(dir, prev[i], resolved_folders(dir, prev)[k]);
                assert(prev[i] == fs[i]);
                assert(folder_backs(dir, fs[i], r[k]));
            } else {
                assert(folder_backs(dir, fs[fs.len() - 1], r[k]));
            }
        }
    }
}

proof fn lemma_games_backed(dir: Seq<char>, gs: Seq<FoundGame>)
    ensures
        forall|k: int|
            0 <= k < resolved_games(dir, gs).len() ==> #[trigger] from_present_game(
                dir,
                gs,
                resolved_games(dir, gs)[k],
            ),
    decreases gs.len(),
{
    if gs.len() > 0 {
        let prev = gs.drop_last();
        lemma_games_backed(dir, prev);
        let r = resolved_games(dir, gs);
        assert forall|k: int| 0 <= k < r.len() implies #[trigger] from_present_game(dir, gs, r[k]) by {
            if k < resolved_games(dir, prev).len() {
                assert(from_present_game(dir, prev, resolved_games(dir, prev)[k]));
                let i = choose|i: int|
                    0 <= i < prev.len() && #[trigger] game_backs(dir, prev[i], resolved_games(dir, prev)[k]);
                assert(prev[i] == gs[i]);
                assert(game_backs(dir, gs[i], r[k]));
            } else {
                assert(game_backs(dir, gs[gs.len() - 1], r[k]));
            }
        }
    }
}

/// Every entry that a metadata file resolves to stands for a declared folder
/// or game whose target exists on disk, and carries an image only where that
/// image exists too: missing targets are left out.
pub proof fn lemma_resolved_entries_exist(dir: Seq<char>, fs: Seq<FoundFolder>, gs: Seq<FoundGame>)
    ensures
        forall|k: int|
            0 <= k < resolved_list(dir, fs, gs).len() ==> from_present_folder(
                dir,
                fs,
                #[trigger] resolved_list(dir, fs, gs)[k],
            ) || from_present_game(dir, gs, resolved_list(dir, fs, gs)[k]),
{
    lemma_folders_backed(dir, fs);
    lemma_games_backed(dir, gs);
    let a = resolved_folders(dir, fs);
    let b = resolved_games(dir, gs);
    assert forall|k: int| 0 <= k < (a + b).len() implies from_present_folder(dir, fs, #[trigger] (a + b)[k])
        || from_present_game(dir, gs, (a + b)[k]) by {
        if k < a.len() {
            assert((a + b)[k] == a[k]);
            assert(from_present_folder(dir, fs, a[k]));
        } else {
            assert((a + b)[k] == b[k - a.len()]);
            assert(from_present_game(dir, gs, b[k - a.len()]));
        }
    }
}

/// Where the preferred metadata file is present, it is the one read, whatever
/// the legacy one holds; the legacy one is read only where the preferred one
/// is missing.
pub proof fn lemma_primary_shadows_legacy(present: Seq<bool>, r: Option<usize>)
    requires
        present.len() == 2,
        is_first_present(present, r),
    ensures
        present[0] ==> r == Some(0usize),
        r == Some(1usize) ==> !present[0],
        r is None <==> !present[0] && !present[1],
{
}

/// `e` is the entry of one of the recognized children in `s`.
pub open spec fn from_recognized_child(s: Seq<Option<Entry>>, e: EntryView) -> bool {
    exists|i: int| 0 <= i < s.len() && #[trigger] s[i] is Some && s[i]->0@ == e
}

/// Every entry of a scanned collection is one of its children that the
/// classifier recognized.
pub proof fn lemma_scanned_entries_recognized(s: Seq<Option<Entry>>)
    ensures
        forall|k: int|
            0 <= k < recognized(s).len() ==> #[trigger] from_recognized_child(s, recognized(s)[k]),
    decreases s.len(),
{
    if s.len() > 0 {
        let prev = s.drop_last();
        lemma_scanned_entries_recognized(prev);
        let r = recognized(s);
        assert forall|k: int| 0 <= k < r.len() implies #[trigger] from_recognized_child(s, r[k]) by {
            if k < recognized(prev).len() {
                assert(from_recognized_child(prev, recognized(prev)[k]));
                let i = choose|i: int| 0 <= i < prev.len() && #[trigger] prev[i] is Some && prev[i]->0@ == recognized(prev)[k];
                assert(prev[i] == s[i]);
            } else {
                assert(s[s.len() - 1] is Some);
            }
        }
    }
}

} // verus!
