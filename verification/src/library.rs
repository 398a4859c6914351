//! The Library: the folder trees Quill has been pointed at, its Locations,
//! and the paths pinned beside them.
//!
//! A tree holds every folder under a Location and every file the Library
//! lists (named `.md`, `.markdown`, `.txt` or `.text`, whatever the case),
//! dot-entries among them: a dot-entry is held and flagged hidden, and
//! whether hidden entries are shown is answered where the tree is read, so
//! that turning it on is another reading and not another walk.
//!
//! The disk is the caller's: a folder arrives here as a [`Listing`], what one
//! reading of it found, and a change under a Location is answered from what
//! the caller found at the path [`Library::probe`] names.

use vstd::prelude::*;

use crate::disk::{is_listed, listed};
use crate::document::{
    file_name_at, file_name_of, here_first, part_views, parts, parts_from, rooted, text_between,
};
use crate::palette::{lemma_text_asymmetric, lemma_text_between, text_before};
use crate::text::{chars_of, is_text, lower_all, lower_chars, string_of};

verus! {

// Paths.

/// The components of `p` as `Path::components` yields them: `/` for the
/// root, `.` for a leading current directory, then each named component.
pub open spec fn components(p: Seq<char>) -> Seq<Seq<char>> {
    if rooted(p) {
        seq![seq!['/']] + parts_from(p, 0)
    } else if here_first(p) {
        seq![seq!['.']] + parts_from(p, 0)
    } else {
        parts_from(p, 0)
    }
}

/// Whether `path` lies under `base`, as `Path::starts_with` has it: the
/// components of `base` open those of `path`.
pub open spec fn under(path: Seq<char>, base: Seq<char>) -> bool {
    components(base).is_prefix_of(components(path))
}

/// Whether two paths name the same place, as `Path`'s equality has it.
pub open spec fn same_place(one: Seq<char>, other: Seq<char>) -> bool {
    components(one) == components(other)
}

/// The components of `path` that follow those of `base`.
pub open spec fn below(path: Seq<char>, base: Seq<char>) -> Seq<Seq<char>> {
    components(path).skip(components(base).len() as int)
}

/// `dir` with `name` added as its last component, as `Path::join` makes it
/// for a name of one component.
pub open spec fn joined(dir: Seq<char>, name: Seq<char>) -> Seq<char> {
    if dir.len() == 0 || dir.last() == '/' {
        dir + name
    } else {
        dir + seq!['/'] + name
    }
}

/// Whether a name begins with a dot, which hides what it names.
pub open spec fn dotted(name: Seq<char>) -> bool {
    name.len() > 0 && name[0] == '.'
}

/// The name a Location's root shows: the file name of its path, or nothing
/// where the path ends in none.
pub open spec fn name_of(path: Seq<char>) -> Seq<char> {
    match file_name_of(path) {
        Some(name) => name,
        None => seq![],
    }
}

/// Where the first element of `s` that `p` holds of stands, or -1.
pub open spec fn first_where<T>(s: Seq<T>, p: spec_fn(T) -> bool) -> int
    decreases s.len(),
{
    if s.len() == 0 {
        -1
    } else if p(s[0]) {
        0
    } else {
        let k = first_where(s.drop_first(), p);
        if k < 0 {
            -1
        } else {
            k + 1
        }
    }
}

/// The first element that `p` holds of stands at `i` (or there is none,
/// where `i` is the length) when `p` holds of none before it.
proof fn lemma_first_where<T>(s: Seq<T>, p: spec_fn(T) -> bool, i: int)
    requires
        0 <= i <= s.len(),
        forall|j: int| 0 <= j < i ==> !p(#[trigger] s[j]),
        i < s.len() ==> p(s[i]),
    ensures
        first_where(s, p) == if i == s.len() {
            -1
        } else {
            i
        },
    decreases s.len(),
{
    if s.len() > 0 && i > 0 {
        assert(!p(s[0]));
        assert forall|j: int| 0 <= j < i - 1 implies !p(#[trigger] s.drop_first()[j]) by {
            assert(s.drop_first()[j] == s[j + 1]);
        }
        if i < s.len() {
            assert(s.drop_first()[i - 1] == s[i]);
        }
        lemma_first_where(s.drop_first(), p, i - 1);
    }
}

/// What `p` holds of: `s` with every element it does not hold of left out.
pub open spec fn sieve<T>(s: Seq<T>, keep: spec_fn(T) -> bool) -> Seq<T>
    decreases s.len(),
{
    if s.len() == 0 {
        seq![]
    } else if keep(s.last()) {
        sieve(s.drop_last(), keep).push(s.last())
    } else {
        sieve(s.drop_last(), keep)
    }
}

/// A sieve is shorter than what it sieved exactly where it left something out.
proof fn lemma_sieve_len<T>(s: Seq<T>, keep: spec_fn(T) -> bool)
    ensures
        sieve(s, keep).len() <= s.len(),
        (sieve(s, keep).len() < s.len()) == exists|k: int| 0 <= k < s.len() && !keep(#[trigger] s[k]),
    decreases s.len(),
{
    if s.len() > 0 {
        let t = s.drop_last();
        lemma_sieve_len(t, keep);
        if exists|k: int| 0 <= k < t.len() && !keep(#[trigger] t[k]) {
            let k = choose|k: int| 0 <= k < t.len() && !keep(#[trigger] t[k]);
            assert(s[k] == t[k]);
        }
        if exists|k: int| 0 <= k < s.len() && !keep(#[trigger] s[k]) {
            let k = choose|k: int| 0 <= k < s.len() && !keep(#[trigger] s[k]);
            if k < t.len() {
                assert(t[k] == s[k]);
            }
        }
    }
}

/// The components of `p`.
fn components_of(p: &Vec<char>) -> (found: Vec<Vec<char>>)
    ensures
        part_views(found@) == components(p@),
{
    let named = parts(p);
    let mut found: Vec<Vec<char>> = Vec::new();
    let n = p.len();
    if n > 0 && p[0] == '/' {
        let mut root: Vec<char> = Vec::new();
        root.push('/');
        found.push(root);
    } else if n > 0 && p[0] == '.' && (n == 1 || p[1] == '/') {
        let mut here: Vec<char> = Vec::new();
        here.push('.');
        found.push(here);
    }
    let ghost head = part_views(found@);
    proof {
        if rooted(p@) {
            assert(head =~= seq![seq!['/']]);
        } else if here_first(p@) {
            assert(head =~= seq![seq!['.']]);
        } else {
            assert(head =~= seq![]);
        }
    }
    let mut k: usize = 0;
    while k < named.len()
        invariant
            0 <= k <= named@.len(),
            part_views(found@) == head + part_views(named@).take(k as int),
        decreases named.len() - k,
    {
        let part = named[k].clone();
        proof {
            assert(part@ =~= named@[k as int]@);
        }
        let ghost before = found@;
        found.push(part);
        proof {
            assert(part_views(found@) =~= part_views(before).push(part@));
            assert(part_views(named@).take(k + 1) =~= part_views(named@).take(k as int).push(named@[k as int]@));
            assert(part_views(found@) =~= head + part_views(named@).take(k + 1));
        }
        k = k + 1;
    }
    proof {
        assert(part_views(named@).take(k as int) =~= part_views(named@));
    }
    found
}

/// Whether two runs of characters are the same.
fn same_chars(one: &Vec<char>, other: &Vec<char>) -> (yes: bool)
    ensures
        yes == (one@ == other@),
{
    if one.len() != other.len() {
        return false;
    }
    let mut i: usize = 0;
    while i < one.len()
        invariant
            0 <= i <= one@.len(),
            one@.len() == other@.len(),
            forall|j: int| 0 <= j < i ==> one@[j] == other@[j],
        decreases one.len() - i,
    {
        if one[i] != other[i] {
            return false;
        }
        i = i + 1;
    }
    proof {
        assert(one@ =~= other@);
    }
    true
}

/// Whether the components `base` open the components `path`.
fn opens(base: &Vec<Vec<char>>, path: &Vec<Vec<char>>) -> (yes: bool)
    ensures
        yes == part_views(base@).is_prefix_of(part_views(path@)),
{
    if base.len() > path.len() {
        return false;
    }
    let mut k: usize = 0;
    while k < base.len()
        invariant
            0 <= k <= base@.len() <= path@.len(),
            forall|j: int| 0 <= j < k ==> base@[j]@ == path@[j]@,
        decreases base.len() - k,
    {
        if !same_chars(&base[k], &path[k]) {
            proof {
                assert(part_views(base@)[k as int] != part_views(path@).subrange(0, base@.len() as int)[k as int]);
            }
            return false;
        }
        k = k + 1;
    }
    proof {
        assert(part_views(base@) =~= part_views(path@).subrange(0, base@.len() as int));
    }
    true
}

/// `dir` joined with `name`.
fn join(dir: &Vec<char>, name: &str) -> (path: Vec<char>)
    ensures
        path@ == joined(dir@, name@),
{
    let mut path = dir.clone();
    if path.len() > 0 && path[path.len() - 1] != '/' {
        path.push('/');
    }
    let chars = chars_of(name);
    let ghost head = path@;
    let mut k: usize = 0;
    while k < chars.len()
        invariant
            0 <= k <= chars@.len(),
            chars@ == name@,
            path@ == head + chars@.take(k as int),
        decreases chars.len() - k,
    {
        path.push(chars[k]);
        proof {
            assert(head + chars@.take(k + 1) =~= (head + chars@.take(k as int)).push(chars@[k as int]));
        }
        k = k + 1;
    }
    proof {
        assert(chars@.take(k as int) =~= name@);
        if dir@.len() == 0 || dir@.last() == '/' {
            assert(head =~= dir@);
        } else {
            assert(head =~= dir@ + seq!['/']);
        }
    }
    path
}

/// Whether `name` begins with a dot.
fn starts_with_dot(name: &str) -> (yes: bool)
    ensures
        yes == dotted(name@),
{
    name.unicode_len() > 0 && name.get_char(0) == '.'
}

// The tree.

/// One file under a Location, as the tree holds it.
#[derive(Clone, Debug, PartialEq, Eq)]
pub struct File {
    /// Where it is, under the Location's root as the root was added.
    path: String,
    /// Its name on disk, extension and all.
    name: String,
    /// When it was last written, in nanoseconds from the Unix epoch; `None`
    /// where the file system would not say, which sorts last by date.
    modified: Option<i128>,
    /// Whether its own name, or that of any folder between it and the
    /// Location's root, begins with a dot.
    hidden: bool,
}

impl File {
    pub closed spec fn spec_path(&self) -> Seq<char> {
        self.path@
    }

    pub closed spec fn spec_name(&self) -> Seq<char> {
        self.name@
    }

    pub closed spec fn spec_modified(&self) -> Option<i128> {
        self.modified
    }

    pub closed spec fn spec_hidden(&self) -> bool {
        self.hidden
    }

    /// Where it is.
    pub fn path(&self) -> (path: &str)
        ensures
            path@ == self.spec_path(),
    {
        self.path.as_str()
    }

    /// Its name on disk, extension and all.
    pub fn name(&self) -> (name: &str)
        ensures
            name@ == self.spec_name(),
    {
        self.name.as_str()
    }

    /// When it was last written.
    pub fn modified(&self) -> (modified: Option<i128>)
        ensures
            modified == self.spec_modified(),
    {
        self.modified
    }

    /// Whether it is hidden: held either way, and shown only where the view
    /// says so.
    pub fn hidden(&self) -> (hidden: bool)
        ensures
            hidden == self.spec_hidden(),
    {
        self.hidden
    }
}

/// One folder under a Location, or the Location's root itself, and
/// everything the walk found in it.
#[derive(Debug)]
pub struct Folder {
    /// Where it is, under the Location's root as the root was added.
    path: String,
    /// Its name on disk.
    name: String,
    /// When it was last written, in nanoseconds from the Unix epoch.
    modified: Option<i128>,
    /// Whether its own name, or that of any folder between it and the
    /// Location's root, begins with a dot.
    hidden: bool,
    /// The folders in it, unsorted: an order is a view's, not a tree's.
    folders: Vec<Folder>,
    /// The listed files in it, unsorted, for the same reason.
    files: Vec<File>,
}

impl Folder {
    pub closed spec fn spec_path(&self) -> Seq<char> {
        self.path@
    }

    pub closed spec fn spec_name(&self) -> Seq<char> {
        self.name@
    }

    pub closed spec fn spec_modified(&self) -> Option<i128> {
        self.modified
    }

    pub closed spec fn spec_hidden(&self) -> bool {
        self.hidden
    }

    pub closed spec fn spec_folders(&self) -> Seq<Folder> {
        self.folders@
    }

    pub closed spec fn spec_files(&self) -> Seq<File> {
        self.files@
    }

    /// Where it is.
    pub fn path(&self) -> (path: &str)
        ensures
            path@ == self.spec_path(),
    {
        self.path.as_str()
    }

    /// Its name on disk.
    pub fn name(&self) -> (name: &str)
        ensures
            name@ == self.spec_name(),
    {
        self.name.as_str()
    }

    /// When it was last written.
    pub fn modified(&self) -> (modified: Option<i128>)
        ensures
            modified == self.spec_modified(),
    {
        self.modified
    }

    /// Whether it is hidden: held either way, and shown only where the view
    /// says so.
    pub fn hidden(&self) -> (hidden: bool)
        ensures
            hidden == self.spec_hidden(),
    {
        self.hidden
    }
}

/// What one reading of a folder found: when it was last written, the
/// folders in it, each by its name and its own reading, and the files in it,
/// each by its name and when it was last written. Every name is one
/// component, as a directory listing gives it; a file is anything that is
/// not a folder, listed or not.
#[derive(Debug)]
pub struct Listing {
    pub modified: Option<i128>,
    pub folders: Vec<(String, Listing)>,
    pub files: Vec<(String, Option<i128>)>,
}

/// Whether `files` are what a walk of `dir` keeps of the files `found`:
/// each that the Library lists, in the order found, at its joined path and
/// hidden where `dir` is or its own name is dotted.
pub closed spec fn files_walked(
    files: Seq<File>,
    dir: Seq<char>,
    hidden: bool,
    found: Seq<(String, Option<i128>)>,
) -> bool
    decreases found.len(),
{
    if found.len() == 0 {
        files.len() == 0
    } else {
        let (name, modified) = found.last();
        let path = joined(dir, name@);
        if listed(path) {
            &&& files.len() > 0
            &&& files.last().path@ == path
            &&& files.last().name@ == name@
            &&& files.last().modified == modified
            &&& files.last().hidden == (hidden || dotted(name@))
            &&& files_walked(files.drop_last(), dir, hidden, found.drop_last())
        } else {
            files_walked(files, dir, hidden, found.drop_last())
        }
    }
}

/// Whether `folder` is the walk of the folder at `dir`, named `name`, read
/// as `listing`: every folder in it walked in turn, every listed file held,
/// and hidden from `hidden` down.
pub closed spec fn walked(folder: Folder, dir: Seq<char>, name: Seq<char>, hidden: bool, listing: Listing) -> bool
    decreases listing,
{
    &&& folder.path@ == dir
    &&& folder.name@ == name
    &&& folder.modified == listing.modified
    &&& folder.hidden == hidden
    &&& folder.folders@.len() == listing.folders@.len()
    &&& forall|i: int|
        0 <= i < listing.folders@.len() ==> walked(
            #[trigger] folder.folders@[i],
            joined(dir, listing.folders@[i].0@),
            listing.folders@[i].0@,
            hidden || dotted(listing.folders@[i].0@),
            listing.folders@[i].1,
        )
    &&& files_walked(folder.files@, dir, hidden, listing.files@)
}

/// Walks the folder at `dir`, named `name`, from what `listing` found in it:
/// every folder under it and every file the Library lists, dot-entries held
/// and flagged.
fn walk(dir: &Vec<char>, name: String, hidden: bool, listing: &Listing) -> (folder: Folder)
    ensures
        walked(folder, dir@, name@, hidden, *listing),
    decreases listing,
{
    let mut folders: Vec<Folder> = Vec::new();
    let mut i: usize = 0;
    while i < listing.folders.len()
        invariant
            0 <= i <= listing.folders@.len(),
            folders@.len() == i,
            forall|k: int|
                0 <= k < i ==> walked(
                    #[trigger] folders@[k],
                    joined(dir@, listing.folders@[k].0@),
                    listing.folders@[k].0@,
                    hidden || dotted(listing.folders@[k].0@),
                    listing.folders@[k].1,
                ),
        decreases listing.folders.len() - i,
    {
        let (sub_name, sub) = &listing.folders[i];
        let path = join(dir, sub_name.as_str());
        let sub_hidden = hidden || starts_with_dot(sub_name.as_str());
        let below = walk(&path, sub_name.clone(), sub_hidden, sub);
        folders.push(below);
        i = i + 1;
    }
    let mut files: Vec<File> = Vec::new();
    let mut j: usize = 0;
    while j < listing.files.len()
        invariant
            0 <= j <= listing.files@.len(),
            files_walked(files@, dir@, hidden, listing.files@.take(j as int)),
        decreases listing.files.len() - j,
    {
        let (file_name, modified) = &listing.files[j];
        let path = join(dir, file_name.as_str());
        proof {
            assert(listing.files@.take(j + 1).drop_last() =~= listing.files@.take(j as int));
        }
        if is_listed(&path) {
            let file = File {
                path: string_of(&path),
                name: file_name.clone(),
                modified: *modified,
                hidden: hidden || starts_with_dot(file_name.as_str()),
            };
            proof {
                assert(files@.push(file).drop_last() =~= files@);
            }
            files.push(file);
        }
        j = j + 1;
    }
    proof {
        assert(listing.files@.take(j as int) =~= listing.files@);
    }
    Folder { path: string_of(dir), name, modified: listing.modified, hidden, folders, files }
}


/// One folder the writer pointed Quill at, and the tree walked from it.
#[derive(Debug)]
pub struct Location {
    /// Its root, as the writer named it.
    root: String,
    /// Everything under the root, walked.
    tree: Folder,
}

impl Location {
    pub closed spec fn spec_root(&self) -> Seq<char> {
        self.root@
    }

    pub closed spec fn spec_tree(&self) -> Folder {
        self.tree
    }

    /// The folder the writer pointed Quill at, which heads its section.
    pub fn root(&self) -> (root: &str)
        ensures
            root@ == self.spec_root(),
    {
        self.root.as_str()
    }
}

/// How the entries of a folder are ordered.
#[derive(Clone, Copy, Debug, PartialEq, Eq, Structural)]
pub enum Sort {
    /// By when each was last written, newest first.
    Date,
    /// By name, whatever the case.
    Name,
}

impl Default for Sort {
    /// By date.
    fn default() -> (sort: Sort)
        ensures
            sort == Sort::Date,
    {
        Sort::Date
    }
}

/// What the tree is read through: whether dot-entries are shown, and the
/// order entries are drawn in.
#[derive(Clone, Copy, Debug, PartialEq, Eq, Structural)]
pub struct TreeView {
    /// Whether dot-entries are shown; they are held either way.
    pub show_hidden: bool,
    /// The order files and folders are drawn in.
    pub sort: Sort,
}

impl Default for TreeView {
    /// Dot-entries not shown, newest first.
    fn default() -> (view: TreeView)
        ensures
            view == (TreeView { show_hidden: false, sort: Sort::Date }),
    {
        TreeView { show_hidden: false, sort: Sort::Date }
    }
}

impl TreeView {
    /// Whether an entry flagged `hidden` is drawn.
    pub open spec fn spec_shows(&self, hidden: bool) -> bool {
        self.show_hidden || !hidden
    }

    fn shows(&self, hidden: bool) -> (yes: bool)
        ensures
            yes == self.spec_shows(hidden),
    {
        self.show_hidden || !hidden
    }
}

/// One entry of a shown tree, at its depth under the section's root.
#[derive(Clone, Copy, Debug)]
pub enum Row<'a> {
    /// A folder, drawn before any file beside it, with its own rows beneath.
    Folder { folder: &'a Folder, depth: usize },
    /// A file.
    File { file: &'a File, depth: usize },
}

impl<'a> Row<'a> {
    pub open spec fn spec_path(&self) -> Seq<char> {
        match *self {
            Row::Folder { folder, .. } => folder.spec_path(),
            Row::File { file, .. } => file.spec_path(),
        }
    }

    pub open spec fn spec_name(&self) -> Seq<char> {
        match *self {
            Row::Folder { folder, .. } => folder.spec_name(),
            Row::File { file, .. } => file.spec_name(),
        }
    }

    pub open spec fn spec_depth(&self) -> usize {
        match *self {
            Row::Folder { depth, .. } => depth,
            Row::File { depth, .. } => depth,
        }
    }

    /// Where the entry is.
    pub fn path(&self) -> (path: &'a str)
        ensures
            path@ == self.spec_path(),
    {
        match *self {
            Row::Folder { folder, .. } => folder.path(),
            Row::File { file, .. } => file.path(),
        }
    }

    /// Its name on disk.
    pub fn name(&self) -> (name: &'a str)
        ensures
            name@ == self.spec_name(),
    {
        match *self {
            Row::Folder { folder, .. } => folder.name(),
            Row::File { file, .. } => file.name(),
        }
    }

    /// How many folders lie between it and the section's root.
    pub fn depth(&self) -> (depth: usize)
        ensures
            depth == self.spec_depth(),
    {
        match *self {
            Row::Folder { depth, .. } => depth,
            Row::File { depth, .. } => depth,
        }
    }
}

/// Whether a path handed to [`Library::pin`] was taken.
#[derive(Clone, Copy, Debug, PartialEq, Eq, Structural)]
pub enum Pin {
    /// The path is under a Location, and is pinned.
    Held,
    /// The path is under no Location, so there is no tree to answer it from
    /// and it was not pinned.
    Outside,
}

/// The Locations Quill is showing and the paths pinned beside them.
#[derive(Debug)]
pub struct Library {
    /// The Locations, in the order they were added.
    locations: Vec<Location>,
    /// The pinned paths, in the order they were pinned.
    pinned: Vec<String>,
}

/// The texts of a list of strings.
pub open spec fn texts(s: Seq<String>) -> Seq<Seq<char>> {
    s.map_values(|t: String| t@)
}

/// Whether a folder is named `name`.
pub open spec fn named_folder(name: Seq<char>) -> spec_fn(Folder) -> bool {
    |folder: Folder| folder.spec_name() == name
}

/// Whether a file is named `name`.
pub open spec fn named_file(name: Seq<char>) -> spec_fn(File) -> bool {
    |file: File| file.spec_name() == name
}

/// Whether a Location holds `path`: its root is a prefix of the path.
pub open spec fn holds(path: Seq<char>) -> spec_fn(Location) -> bool {
    |location: Location| under(path, location.spec_root())
}

/// Whether a Location is rooted somewhere other than `root`.
pub open spec fn rooted_elsewhere(root: Seq<char>) -> spec_fn(Location) -> bool {
    |location: Location| !same_place(location.spec_root(), root)
}

/// Whether a path names somewhere other than `path`.
pub open spec fn elsewhere(path: Seq<char>) -> spec_fn(Seq<char>) -> bool {
    |other: Seq<char>| !same_place(other, path)
}

/// The row the components `rest` lead to from `folder`: the folder itself
/// where there are none, the folder named by the first where there is one,
/// and a file where the first names one and is the last.
pub closed spec fn found_in<'a>(folder: &'a Folder, rest: Seq<Seq<char>>) -> Option<Row<'a>>
    decreases rest.len(),
{
    if rest.len() == 0 {
        Some(Row::Folder { folder, depth: 0 })
    } else {
        let i = first_where(folder.folders@, named_folder(rest[0]));
        if 0 <= i < folder.folders@.len() {
            found_in(&folder.folders@[i], rest.drop_first())
        } else {
            let j = first_where(folder.files@, named_file(rest[0]));
            if 0 <= j < folder.files@.len() && rest.len() == 1 {
                Some(Row::File { file: &folder.files@[j], depth: 0 })
            } else {
                None
            }
        }
    }
}

/// The row at `path` in `library`: where the first Location whose root
/// `path` lies under leads with what follows the root.
pub closed spec fn row_at<'a>(library: &'a Library, path: Seq<char>) -> Option<Row<'a>> {
    let k = first_where(library.locations@, holds(path));
    if 0 <= k < library.locations@.len() {
        found_in(&library.locations@[k].tree, below(path, library.locations@[k].root@))
    } else {
        None
    }
}

/// Where the folder named `name` stands among those of `folder`.
fn folder_named(folder: &Folder, name: &Vec<char>) -> (at: Option<usize>)
    ensures
        match at {
            Some(i) => i == first_where(folder.folders@, named_folder(name@)) && i < folder.folders@.len(),
            None => first_where(folder.folders@, named_folder(name@)) < 0,
        },
{
    let mut i: usize = 0;
    while i < folder.folders.len()
        invariant
            0 <= i <= folder.folders@.len(),
            forall|j: int| 0 <= j < i ==> !named_folder(name@)(#[trigger] folder.folders@[j]),
        decreases folder.folders.len() - i,
    {
        if is_text(name, folder.folders[i].name.as_str()) {
            proof {
                lemma_first_where(folder.folders@, named_folder(name@), i as int);
            }
            return Some(i);
        }
        i = i + 1;
    }
    proof {
        lemma_first_where(folder.folders@, named_folder(name@), i as int);
    }
    None
}

/// Where the file named `name` stands among those of `folder`.
fn file_named(folder: &Folder, name: &Vec<char>) -> (at: Option<usize>)
    ensures
        match at {
            Some(i) => i == first_where(folder.files@, named_file(name@)) && i < folder.files@.len(),
            None => first_where(folder.files@, named_file(name@)) < 0,
        },
{
    let mut i: usize = 0;
    while i < folder.files.len()
        invariant
            0 <= i <= folder.files@.len(),
            forall|j: int| 0 <= j < i ==> !named_file(name@)(#[trigger] folder.files@[j]),
        decreases folder.files.len() - i,
    {
        if is_text(name, folder.files[i].name.as_str()) {
            proof {
                lemma_first_where(folder.files@, named_file(name@), i as int);
            }
            return Some(i);
        }
        i = i + 1;
    }
    proof {
        lemma_first_where(folder.files@, named_file(name@), i as int);
    }
    None
}

/// The row that the components of `rest` from `from` on lead to from
/// `folder`.
fn descend<'a>(folder: &'a Folder, rest: &Vec<Vec<char>>, from: usize) -> (row: Option<Row<'a>>)
    requires
        from <= rest@.len(),
    ensures
        row == found_in(folder, part_views(rest@).skip(from as int)),
{
    let mut here = folder;
    let mut c = from;
    while c < rest.len()
        invariant
            from <= c <= rest@.len(),
            found_in(folder, part_views(rest@).skip(from as int)) == found_in(here, part_views(rest@).skip(c as int)),
        decreases rest.len() - c,
    {
        let name = &rest[c];
        let ghost left = part_views(rest@).skip(c as int);
        proof {
            assert(left[0] == name@);
            assert(left.drop_first() =~= part_views(rest@).skip(c + 1));
        }
        match folder_named(here, name) {
            Some(i) => {
                here = &here.folders[i];
                c = c + 1;
            },
            None => {
                return match file_named(here, name) {
                    Some(j) => if c + 1 == rest.len() {
                        Some(Row::File { file: &here.files[j], depth: 0 })
                    } else {
                        None
                    },
                    None => None,
                };
            },
        }
    }
    proof {
        assert(part_views(rest@).skip(c as int).len() == 0);
    }
    Some(Row::Folder { folder: here, depth: 0 })
}

/// Whether the paths `one` and `other` name the same place.
fn same_places(one: &Vec<Vec<char>>, other: &Vec<Vec<char>>) -> (yes: bool)
    ensures
        yes == (part_views(one@) == part_views(other@)),
{
    if one.len() != other.len() {
        proof {
            assert(part_views(one@).len() != part_views(other@).len());
        }
        return false;
    }
    let yes = opens(one, other);
    proof {
        if yes {
            assert(part_views(one@) =~= part_views(other@));
        }
    }
    yes
}

/// The name a Location's root shows.
fn name_text(path: &Vec<char>) -> (name: String)
    ensures
        name@ == name_of(path@),
{
    match file_name_at(path) {
        Some((s, e)) => text_between(path, s, e),
        None => String::new(),
    }
}

/// The Locations the settings describe: each root the caller found a folder
/// at, in order, but for one whose place an earlier root already took.
pub open spec fn taken_roots(given: Seq<(String, Option<Listing>)>) -> Seq<(Seq<char>, Listing)>
    decreases given.len(),
{
    if given.len() == 0 {
        seq![]
    } else {
        let before = taken_roots(given.drop_last());
        let (root, listing) = given.last();
        if listing is Some && forall|k: int| 0 <= k < before.len() ==> !same_place(#[trigger] before[k].0, root@) {
            before.push((root@, listing.unwrap()))
        } else {
            before
        }
    }
}

/// The pinned paths the settings describe, as `library` takes them: each
/// that one of its Locations holds, in order, but for one already pinned.
pub closed spec fn pins_taken(library: &Library, paths: Seq<Seq<char>>) -> Seq<Seq<char>>
    decreases paths.len(),
{
    if paths.len() == 0 {
        seq![]
    } else {
        let before = pins_taken(library, paths.drop_last());
        let path = paths.last();
        if row_at(library, path) is Some && forall|k: int| 0 <= k < before.len() ==> elsewhere(path)(#[trigger] before[k]) {
            before.push(path)
        } else {
            before
        }
    }
}

impl Library {
    pub closed spec fn spec_locations(&self) -> Seq<Location> {
        self.locations@
    }

    pub closed spec fn spec_pinned(&self) -> Seq<Seq<char>> {
        texts(self.pinned@)
    }

    /// An empty Library: no Location, nothing pinned.
    pub fn new() -> (library: Library)
        ensures
            library.spec_locations().len() == 0,
            library.spec_pinned().len() == 0,
    {
        Library { locations: Vec::new(), pinned: Vec::new() }
    }

    /// The Library the settings describe: each root with what the caller
    /// found at it (`None` where it found no folder) added in turn, then each
    /// pinned path pinned in turn.
    pub fn open(locations: Vec<(String, Option<Listing>)>, pinned: &[String]) -> (library: Library)
        ensures
            library.spec_locations().len() == taken_roots(locations@).len(),
            forall|i: int|
                #![trigger library.spec_locations()[i]]
                0 <= i < taken_roots(locations@).len() ==> {
                    let (root, listing) = taken_roots(locations@)[i];
                    &&& library.spec_locations()[i].spec_root() == root
                    &&& walked(library.spec_locations()[i].spec_tree(), root, name_of(root), dotted(name_of(root)), listing)
                },
            library.spec_pinned() == pins_taken(&library, texts(pinned@)),
    {
        let ghost given = locations@;
        let mut rest = locations;
        let mut library = Library::new();
        let n = rest.len();
        let mut i: usize = 0;
        while i < n
            invariant
                0 <= i <= n,
                n == given.len(),
                rest@ == given.skip(i as int),
                library.spec_pinned().len() == 0,
                library.spec_locations().len() == taken_roots(given.take(i as int)).len(),
                forall|j: int|
                    #![trigger library.spec_locations()[j]]
                    0 <= j < taken_roots(given.take(i as int)).len() ==> {
                        let (root, listing) = taken_roots(given.take(i as int))[j];
                        &&& library.spec_locations()[j].spec_root() == root
                        &&& walked(library.spec_locations()[j].spec_tree(), root, name_of(root), dotted(name_of(root)), listing)
                    },
            decreases n - i,
        {
            let (root, listing) = rest.remove(0);
            proof {
                assert(given.skip(i as int).remove(0) =~= given.skip(i + 1));
                assert(given.take(i + 1).drop_last() =~= given.take(i as int));
                assert(given.take(i + 1).last() == (root, listing));
            }
            let ghost before = library.spec_locations();
            let ghost taken = taken_roots(given.take(i as int));
            proof {
                assert forall|k: int| 0 <= k < taken.len() implies
                    (!same_place(#[trigger] taken[k].0, root@) <==> rooted_elsewhere(root@)(before[k])) by {
                    assert(before[k].spec_root() == taken[k].0);
                }
            }
            library.add_location(root.as_str(), listing);
            i = i + 1;
        }
        proof {
            assert(given.take(n as int) =~= given);
        }
        let mut k: usize = 0;
        while k < pinned.len()
            invariant
                0 <= k <= pinned@.len(),
                library.spec_locations().len() == taken_roots(given).len(),
                forall|j: int|
                    #![trigger library.spec_locations()[j]]
                    0 <= j < taken_roots(given).len() ==> {
                        let (root, listing) = taken_roots(given)[j];
                        &&& library.spec_locations()[j].spec_root() == root
                        &&& walked(library.spec_locations()[j].spec_tree(), root, name_of(root), dotted(name_of(root)), listing)
                    },
                library.spec_pinned() == pins_taken(&library, texts(pinned@).take(k as int)),
            decreases pinned.len() - k,
        {
            let ghost before = library;
            proof {
                assert(texts(pinned@).take(k + 1).drop_last() =~= texts(pinned@).take(k as int));
                assert(texts(pinned@).take(k + 1).last() == pinned@[k as int]@);
            }
            let _ = library.pin(pinned[k].as_str());
            proof {
                assert(library.locations@ == before.locations@);
                assert(pins_taken(&library, texts(pinned@).take(k as int)) == pins_taken(&before, texts(pinned@).take(k as int))) by {
                    lemma_pins_taken_locations(&library, &before, texts(pinned@).take(k as int));
                }
            }
            k = k + 1;
        }
        proof {
            assert(texts(pinned@).take(k as int) =~= texts(pinned@));
        }
        library
    }

    /// The Locations, in the order they were added.
    pub fn locations(&self) -> (locations: &[Location])
        ensures
            locations@ == self.spec_locations(),
    {
        self.locations.as_slice()
    }

    /// Adds `root` as a Location, walked from what the caller found there
    /// (`None` where it found no folder), answering whether it was added: a
    /// path that is not a folder, and a folder that is already a Location,
    /// are both refused and change nothing.
    pub fn add_location(&mut self, root: &str, listing: Option<Listing>) -> (added: bool)
        ensures
            added == (listing is Some && forall|k: int|
                0 <= k < old(self).spec_locations().len() ==> rooted_elsewhere(root@)(#[trigger] old(self).spec_locations()[k])),
            added ==> {
                &&& final(self).spec_locations().len() == old(self).spec_locations().len() + 1
                &&& final(self).spec_locations().drop_last() == old(self).spec_locations()
                &&& final(self).spec_locations().last().spec_root() == root@
                &&& walked(final(self).spec_locations().last().spec_tree(), root@, name_of(root@), dotted(name_of(root@)), listing.unwrap())
            },
            !added ==> final(self).spec_locations() == old(self).spec_locations(),
            final(self).spec_pinned() == old(self).spec_pinned(),
    {
        let listing = match listing {
            Some(listing) => listing,
            None => return false,
        };
        let path = chars_of(root);
        let place = components_of(&path);
        let mut k: usize = 0;
        while k < self.locations.len()
            invariant
                0 <= k <= self.locations@.len(),
                *self == *old(self),
                part_views(place@) == components(root@),
                forall|j: int| 0 <= j < k ==> rooted_elsewhere(root@)(#[trigger] self.locations@[j]),
            decreases self.locations.len() - k,
        {
            let other = chars_of(self.locations[k].root.as_str());
            let other_place = components_of(&other);
            if same_places(&other_place, &place) {
                return false;
            }
            k = k + 1;
        }
        let name = name_text(&path);
        let hidden = starts_with_dot(name.as_str());
        let tree = walk(&path, name, hidden, &listing);
        self.locations.push(Location { root: string_of(&path), tree });
        proof {
            assert(self.locations@.drop_last() =~= old(self).locations@);
        }
        true
    }

    /// Drops the Location rooted at `root` and its tree, answering whether
    /// there was one. A pinned path under it stays pinned, answering nothing
    /// until the Location comes back.
    pub fn remove_location(&mut self, root: &str) -> (removed: bool)
        ensures
            final(self).spec_locations() == sieve(old(self).spec_locations(), rooted_elsewhere(root@)),
            removed == exists|k: int|
                0 <= k < old(self).spec_locations().len() && !rooted_elsewhere(root@)(#[trigger] old(self).spec_locations()[k]),
            final(self).spec_pinned() == old(self).spec_pinned(),
    {
        let path = chars_of(root);
        let place = components_of(&path);
        let ghost given = self.locations@;
        let ghost keep = rooted_elsewhere(root@);
        let n = self.locations.len();
        let mut i: usize = 0;
        let mut j: usize = 0;
        let mut removed = false;
        while j < n
            invariant
                0 <= i <= j <= n,
                n == given.len(),
                given == old(self).locations@,
                keep == rooted_elsewhere(root@),
                part_views(place@) == components(root@),
                self.pinned@ == old(self).pinned@,
                self.locations@ == sieve(given.take(j as int), keep) + given.skip(j as int),
                i == sieve(given.take(j as int), keep).len(),
                removed == exists|k: int| 0 <= k < j && !keep(#[trigger] given[k]),
            decreases n - j,
        {
            let ghost kept = sieve(given.take(j as int), keep);
            proof {
                assert(self.locations@[i as int] == given[j as int]);
                assert(given.take(j + 1).drop_last() =~= given.take(j as int));
                assert(given.take(j + 1).last() == given[j as int]);
            }
            let other = chars_of(self.locations[i].root.as_str());
            let other_place = components_of(&other);
            if same_places(&other_place, &place) {
                let _gone = self.locations.remove(i);
                proof {
                    assert(self.locations@ =~= kept + given.skip(j + 1));
                }
                removed = true;
            } else {
                proof {
                    assert(self.locations@ =~= kept.push(given[j as int]) + given.skip(j + 1));
                    assert(removed == exists|k: int| 0 <= k < j + 1 && !keep(#[trigger] given[k]));
                }
                i = i + 1;
            }
            j = j + 1;
        }
        proof {
            assert(given.take(n as int) =~= given);
            assert(given.skip(n as int) =~= seq![]);
            assert(self.locations@ =~= sieve(given, keep));
        }
        removed
    }

    /// The row at `path`, a folder or a file, where a Location's tree holds
    /// one. A Location's own root answers as a folder row at depth zero.
    pub fn at(&self, path: &str) -> (row: Option<Row<'_>>)
        ensures
            row == row_at(self, path@),
    {
        let chars = chars_of(path);
        let place = components_of(&chars);
        let mut k: usize = 0;
        while k < self.locations.len()
            invariant
                0 <= k <= self.locations@.len(),
                part_views(place@) == components(path@),
                forall|j: int| 0 <= j < k ==> !holds(path@)(#[trigger] self.locations@[j]),
            decreases self.locations.len() - k,
        {
            let root = chars_of(self.locations[k].root.as_str());
            let root_place = components_of(&root);
            if opens(&root_place, &place) {
                proof {
                    lemma_first_where(self.locations@, holds(path@), k as int);
                }
                return descend(&self.locations[k].tree, &place, root_place.len());
            }
            k = k + 1;
        }
        proof {
            lemma_first_where(self.locations@, holds(path@), k as int);
        }
        None
    }

    /// The pinned paths, in the order they were pinned.
    pub fn pinned(&self) -> (pinned: &[String])
        ensures
            texts(pinned@) == self.spec_pinned(),
    {
        self.pinned.as_slice()
    }

    /// Pins `path` at the end of the list, and says whether it was taken: a
    /// path under no Location is refused, because there would be no tree to
    /// answer it from. Pinning a path already pinned leaves it where it is.
    pub fn pin(&mut self, path: &str) -> (pin: Pin)
        ensures
            (pin == Pin::Outside) == (row_at(old(self), path@) is None),
            final(self).spec_locations() == old(self).spec_locations(),
            pin == Pin::Outside ==> final(self).spec_pinned() == old(self).spec_pinned(),
            pin == Pin::Held ==> final(self).spec_pinned() == if forall|k: int|
                0 <= k < old(self).spec_pinned().len() ==> elsewhere(path@)(#[trigger] old(self).spec_pinned()[k]) {
                old(self).spec_pinned().push(path@)
            } else {
                old(self).spec_pinned()
            },
    {
        if self.at(path).is_none() {
            return Pin::Outside;
        }
        let chars = chars_of(path);
        let place = components_of(&chars);
        let mut k: usize = 0;
        while k < self.pinned.len()
            invariant
                0 <= k <= self.pinned@.len(),
                *self == *old(self),
                row_at(self, path@) is Some,
                part_views(place@) == components(path@),
                forall|j: int| 0 <= j < k ==> elsewhere(path@)(#[trigger] texts(self.pinned@)[j]),
            decreases self.pinned.len() - k,
        {
            let other = chars_of(self.pinned[k].as_str());
            let other_place = components_of(&other);
            if same_places(&other_place, &place) {
                proof {
                    assert(!elsewhere(path@)(texts(self.pinned@)[k as int]));
                }
                return Pin::Held;
            }
            k = k + 1;
        }
        self.pinned.push(string_of(&chars));
        proof {
            assert(texts(self.pinned@) =~= texts(old(self).pinned@).push(path@));
        }
        Pin::Held
    }

    /// Unpins `path`, answering whether it was pinned.
    pub fn unpin(&mut self, path: &str) -> (was: bool)
        ensures
            final(self).spec_pinned() == sieve(old(self).spec_pinned(), elsewhere(path@)),
            was == exists|k: int|
                0 <= k < old(self).spec_pinned().len() && !elsewhere(path@)(#[trigger] old(self).spec_pinned()[k]),
            final(self).spec_locations() == old(self).spec_locations(),
    {
        let chars = chars_of(path);
        let place = components_of(&chars);
        let ghost given = texts(self.pinned@);
        let ghost keep = elsewhere(path@);
        let n = self.pinned.len();
        let mut i: usize = 0;
        let mut j: usize = 0;
        let mut was = false;
        while j < n
            invariant
                0 <= i <= j <= n,
                n == given.len(),
                given == texts(old(self).pinned@),
                keep == elsewhere(path@),
                part_views(place@) == components(path@),
                self.locations@ == old(self).locations@,
                texts(self.pinned@) == sieve(given.take(j as int), keep) + given.skip(j as int),
                i == sieve(given.take(j as int), keep).len(),
                was == exists|k: int| 0 <= k < j && !keep(#[trigger] given[k]),
            decreases n - j,
        {
            let ghost kept = sieve(given.take(j as int), keep);
            proof {
                assert(texts(self.pinned@).len() == self.pinned@.len());
                assert(i < texts(self.pinned@).len());
                assert(texts(self.pinned@)[i as int] == given[j as int]);
                assert(given.take(j + 1).drop_last() =~= given.take(j as int));
                assert(given.take(j + 1).last() == given[j as int]);
            }
            let other = chars_of(self.pinned[i].as_str());
            let other_place = components_of(&other);
            let ghost before = self.pinned@;
            if same_places(&other_place, &place) {
                let _gone = self.pinned.remove(i);
                proof {
                    assert(texts(self.pinned@) =~= texts(before).remove(i as int));
                    assert(texts(self.pinned@) =~= kept + given.skip(j + 1));
                }
                was = true;
            } else {
                proof {
                    assert(texts(self.pinned@) =~= kept.push(given[j as int]) + given.skip(j + 1));
                    assert(was == exists|k: int| 0 <= k < j + 1 && !keep(#[trigger] given[k]));
                }
                i = i + 1;
            }
            j = j + 1;
        }
        proof {
            assert(given.take(n as int) =~= given);
            assert(given.skip(n as int) =~= seq![]);
            assert(texts(self.pinned@) =~= sieve(given, keep));
            assert(old(self).spec_pinned() == given);
        }
        was
    }
}

/// What is pinned depends only on the Locations.
proof fn lemma_pins_taken_locations(one: &Library, other: &Library, paths: Seq<Seq<char>>)
    requires
        one.locations@ == other.locations@,
    ensures
        pins_taken(one, paths) == pins_taken(other, paths),
    decreases paths.len(),
{
    if paths.len() > 0 {
        lemma_pins_taken_locations(one, other, paths.drop_last());
    }
}

impl Default for Library {
    /// An empty Library.
    fn default() -> (library: Library)
        ensures
            library.spec_locations().len() == 0,
            library.spec_pinned().len() == 0,
    {
        Library::new()
    }
}

// Reading the tree.

/// `name` folded for comparison: each character replaced by its full lower
/// case.
pub open spec fn folded(name: Seq<char>) -> Seq<char>
    decreases name.len(),
{
    if name.len() == 0 {
        seq![]
    } else {
        folded(name.drop_last()) + lower_all(name.last())
    }
}

/// Whether the write time `one` comes before `other`, newest first: it is
/// later, and one the file system would not give comes after any it would.
pub open spec fn newer(one: Option<i128>, other: Option<i128>) -> bool {
    match (one, other) {
        (Some(a), Some(b)) => b < a,
        (Some(_), None) => true,
        _ => false,
    }
}

/// Whether the entry keyed `one` is drawn before the entry keyed `other`
/// under `sort`. A key is an entry's folded name, its write time, and where
/// it stands in its folder. By name, the folded names decide and the newer
/// goes first where they tie; by date, the newer goes first and the folded
/// names decide where the times tie.
pub open spec fn keyed_before(sort: Sort, one: (Seq<char>, Option<i128>, usize), other: (Seq<char>, Option<i128>, usize)) -> bool {
    match sort {
        Sort::Name => text_before(one.0, other.0) || (one.0 == other.0 && newer(one.1, other.1)),
        Sort::Date => newer(one.1, other.1) || (one.1 == other.1 && text_before(one.0, other.0)),
    }
}

/// `sorted` with `entry` placed after every entry it is not drawn before.
pub open spec fn insert_keyed(
    sort: Sort,
    sorted: Seq<(Seq<char>, Option<i128>, usize)>,
    entry: (Seq<char>, Option<i128>, usize),
) -> Seq<(Seq<char>, Option<i128>, usize)>
    decreases sorted.len(),
{
    if sorted.len() == 0 {
        seq![entry]
    } else if !keyed_before(sort, entry, sorted.last()) {
        sorted.push(entry)
    } else {
        insert_keyed(sort, sorted.drop_last(), entry).push(sorted.last())
    }
}

/// `entries` in a stable sort under `sort`: entries that tie keep the order
/// they were given in.
pub open spec fn sorted_keyed(sort: Sort, entries: Seq<(Seq<char>, Option<i128>, usize)>) -> Seq<(Seq<char>, Option<i128>, usize)>
    decreases entries.len(),
{
    if entries.len() == 0 {
        seq![]
    } else {
        insert_keyed(sort, sorted_keyed(sort, entries.drop_last()), entries.last())
    }
}

/// The keys of a list of keyed entries.
pub open spec fn keyed_views(entries: Seq<(Vec<char>, Option<i128>, usize)>) -> Seq<(Seq<char>, Option<i128>, usize)> {
    entries.map_values(|entry: (Vec<char>, Option<i128>, usize)| (entry.0@, entry.1, entry.2))
}

/// The keys of the folders of `folders` that `view` shows, in the order held.
pub closed spec fn shown_folders(folders: Seq<Folder>, view: TreeView) -> Seq<(Seq<char>, Option<i128>, usize)>
    decreases folders.len(),
{
    if folders.len() == 0 {
        seq![]
    } else {
        let before = shown_folders(folders.drop_last(), view);
        let last = folders.last();
        if view.spec_shows(last.hidden) {
            before.push((folded(last.name@), last.modified, (folders.len() - 1) as usize))
        } else {
            before
        }
    }
}

/// The keys of the files of `files` that `view` shows, in the order held.
pub closed spec fn shown_files(files: Seq<File>, view: TreeView) -> Seq<(Seq<char>, Option<i128>, usize)>
    decreases files.len(),
{
    if files.len() == 0 {
        seq![]
    } else {
        let before = shown_files(files.drop_last(), view);
        let last = files.last();
        if view.spec_shows(last.hidden) {
            before.push((folded(last.name@), last.modified, (files.len() - 1) as usize))
        } else {
            before
        }
    }
}

/// One level deeper. A tree in memory is never nested as deep as
/// `usize::MAX`; the count stops there rather than wrap.
pub open spec fn deeper(depth: usize) -> usize {
    if depth < usize::MAX {
        (depth + 1) as usize
    } else {
        depth
    }
}

/// What is shown under `folder` at `depth` and deeper: the folders it
/// holds, each followed by its own rows, then the files beside them, each
/// group in `view`'s order and without what `view` hides.
pub closed spec fn rows_under<'a>(folder: &'a Folder, view: TreeView, depth: usize) -> Seq<Row<'a>>
    decreases folder, 1int, 0int,
{
    folder_rows(folder, view, depth, sorted_keyed(view.sort, shown_folders(folder.folders@, view)), 0)
        + file_rows(folder, depth, sorted_keyed(view.sort, shown_files(folder.files@, view)), 0)
}

/// The rows of the folders of `folder` that `order` names from its `k`th
/// on: each folder at `depth`, then its own rows one deeper.
pub closed spec fn folder_rows<'a>(
    folder: &'a Folder,
    view: TreeView,
    depth: usize,
    order: Seq<(Seq<char>, Option<i128>, usize)>,
    k: int,
) -> Seq<Row<'a>>
    decreases folder, 0int, order.len() - k,
{
    if k < 0 || k >= order.len() {
        seq![]
    } else {
        let i = order[k].2 as int;
        if i < folder.folders@.len() {
            seq![Row::Folder { folder: &folder.folders@[i], depth }] + rows_under(&folder.folders@[i], view, deeper(depth))
                + folder_rows(folder, view, depth, order, k + 1)
        } else {
            folder_rows(folder, view, depth, order, k + 1)
        }
    }
}

/// The rows of the files of `folder` that `order` names from its `k`th on,
/// each at `depth`.
pub closed spec fn file_rows<'a>(folder: &'a Folder, depth: usize, order: Seq<(Seq<char>, Option<i128>, usize)>, k: int) -> Seq<Row<'a>>
    decreases order.len() - k,
{
    if k < 0 || k >= order.len() {
        seq![]
    } else {
        let i = order[k].2 as int;
        if i < folder.files@.len() {
            seq![Row::File { file: &folder.files@[i], depth }] + file_rows(folder, depth, order, k + 1)
        } else {
            file_rows(folder, depth, order, k + 1)
        }
    }
}

/// `name` folded for comparison.
fn fold(name: &str) -> (folded_name: Vec<char>)
    ensures
        folded_name@ == folded(name@),
{
    let chars = chars_of(name);
    let mut out: Vec<char> = Vec::new();
    let mut i: usize = 0;
    while i < chars.len()
        invariant
            0 <= i <= chars@.len(),
            chars@ == name@,
            out@ == folded(chars@.take(i as int)),
        decreases chars.len() - i,
    {
        let mut lower = lower_chars(chars[i]);
        proof {
            assert(chars@.take(i + 1).drop_last() =~= chars@.take(i as int));
        }
        out.append(&mut lower);
        i = i + 1;
    }
    proof {
        assert(chars@.take(i as int) =~= chars@);
    }
    out
}

proof fn lemma_text_before_skip(a: Seq<char>, b: Seq<char>, i: int)
    requires
        0 <= i < a.len(),
        i < b.len(),
        a[i] == b[i],
    ensures
        text_before(a.skip(i), b.skip(i)) == text_before(a.skip(i + 1), b.skip(i + 1)),
{
    assert(a.skip(i).drop_first() =~= a.skip(i + 1));
    assert(b.skip(i).drop_first() =~= b.skip(i + 1));
}

/// Whether `a` comes strictly before `b`, character by character.
fn chars_before(a: &Vec<char>, b: &Vec<char>) -> (yes: bool)
    ensures
        yes == text_before(a@, b@),
{
    let n = a.len();
    let m = b.len();
    let mut i: usize = 0;
    proof {
        assert(a@.skip(0) =~= a@);
        assert(b@.skip(0) =~= b@);
    }
    while i < n && i < m && a[i] == b[i]
        invariant
            0 <= i <= n,
            i <= m,
            n == a@.len(),
            m == b@.len(),
            text_before(a@, b@) == text_before(a@.skip(i as int), b@.skip(i as int)),
        decreases n - i,
    {
        proof {
            lemma_text_before_skip(a@, b@, i as int);
        }
        i = i + 1;
    }
    if i == n {
        i < m
    } else if i == m {
        false
    } else {
        a[i] < b[i]
    }
}

/// Whether `one` was written later than `other`, an unknown time last.
fn is_newer(one: Option<i128>, other: Option<i128>) -> (yes: bool)
    ensures
        yes == newer(one, other),
{
    match (one, other) {
        (Some(a), Some(b)) => b < a,
        (Some(_), None) => true,
        _ => false,
    }
}

/// Whether two write times are the same.
fn same_time(one: Option<i128>, other: Option<i128>) -> (yes: bool)
    ensures
        yes == (one == other),
{
    match (one, other) {
        (Some(a), Some(b)) => a == b,
        (None, None) => true,
        _ => false,
    }
}

/// Whether the entry keyed `one` is drawn before the one keyed `other`.
fn drawn_before(sort: Sort, one: &(Vec<char>, Option<i128>, usize), other: &(Vec<char>, Option<i128>, usize)) -> (yes: bool)
    ensures
        yes == keyed_before(sort, (one.0@, one.1, one.2), (other.0@, other.1, other.2)),
{
    match sort {
        Sort::Name => chars_before(&one.0, &other.0) || (same_chars(&one.0, &other.0) && is_newer(one.1, other.1)),
        Sort::Date => is_newer(one.1, other.1) || (same_time(one.1, other.1) && chars_before(&one.0, &other.0)),
    }
}

/// `entries` sorted stably under `sort`.
fn sort_keyed(entries: Vec<(Vec<char>, Option<i128>, usize)>, sort: Sort) -> (sorted: Vec<(Vec<char>, Option<i128>, usize)>)
    ensures
        keyed_views(sorted@) == sorted_keyed(sort, keyed_views(entries@)),
{
    let ghost given = keyed_views(entries@);
    let mut rest = entries;
    let mut sorted: Vec<(Vec<char>, Option<i128>, usize)> = Vec::new();
    let mut i: usize = 0;
    let n = rest.len();
    while i < n
        invariant
            0 <= i <= n,
            n == given.len(),
            keyed_views(rest@) == given.skip(i as int),
            keyed_views(sorted@) == sorted_keyed(sort, given.take(i as int)),
        decreases n - i,
    {
        let ghost before_rest = rest@;
        proof {
            assert(keyed_views(rest@).len() == rest@.len());
        }
        let entry = rest.remove(0);
        let ghost key = (entry.0@, entry.1, entry.2);
        proof {
            assert(entry == before_rest[0]);
            assert(keyed_views(before_rest)[0] == (before_rest[0].0@, before_rest[0].1, before_rest[0].2));
            assert(keyed_views(before_rest)[0] == key);
            assert(key == given[i as int]);
            assert(keyed_views(rest@) =~= keyed_views(before_rest).remove(0));
            assert(given.skip(i as int).remove(0) =~= given.skip(i + 1));
            assert(given.take(i + 1).drop_last() =~= given.take(i as int));
        }
        let ghost s = keyed_views(sorted@);
        let mut j: usize = sorted.len();
        proof {
            assert(s.take(j as int) =~= s);
            assert(s.skip(j as int) =~= seq![]);
            assert(insert_keyed(sort, s, key) =~= insert_keyed(sort, s.take(j as int), key) + s.skip(j as int));
        }
        while j > 0 && drawn_before(sort, &entry, &sorted[j - 1])
            invariant
                0 <= j <= s.len(),
                keyed_views(sorted@) == s,
                key == (entry.0@, entry.1, entry.2),
                insert_keyed(sort, s, key) == insert_keyed(sort, s.take(j as int), key) + s.skip(j as int),
            decreases j,
        {
            proof {
                let t = s.take(j as int);
                assert(t.drop_last() =~= s.take(j - 1));
                assert(t.last() == s[j - 1]);
                assert(s[j - 1] == (sorted@[j - 1].0@, sorted@[j - 1].1, sorted@[j - 1].2));
                assert(insert_keyed(sort, t, key) == insert_keyed(sort, s.take(j - 1), key).push(s[j - 1]));
                assert(insert_keyed(sort, s.take(j - 1), key).push(s[j - 1]) + s.skip(j as int) =~= insert_keyed(sort, s.take(j - 1), key) + s.skip(j - 1));
            }
            j = j - 1;
        }
        proof {
            let t = s.take(j as int);
            if j > 0 {
                assert(t.last() == s[j - 1]);
                assert(s[j - 1] == (sorted@[j - 1].0@, sorted@[j - 1].1, sorted@[j - 1].2));
            }
            assert(insert_keyed(sort, t, key) =~= t.push(key));
            assert(t.push(key) + s.skip(j as int) =~= s.insert(j as int, key));
        }
        let ghost before_sorted = sorted@;
        sorted.insert(j, entry);
        proof {
            assert(keyed_views(sorted@) =~= keyed_views(before_sorted).insert(j as int, key));
        }
        i = i + 1;
    }
    proof {
        assert(given.take(n as int) =~= given);
    }
    sorted
}

/// The keys of the folders of `folder` that `view` shows.
fn folder_keys(folder: &Folder, view: &TreeView) -> (keys: Vec<(Vec<char>, Option<i128>, usize)>)
    ensures
        keyed_views(keys@) == shown_folders(folder.folders@, *view),
{
    let mut keys: Vec<(Vec<char>, Option<i128>, usize)> = Vec::new();
    let mut i: usize = 0;
    while i < folder.folders.len()
        invariant
            0 <= i <= folder.folders@.len(),
            keyed_views(keys@) == shown_folders(folder.folders@.take(i as int), *view),
        decreases folder.folders.len() - i,
    {
        let below = &folder.folders[i];
        proof {
            assert(folder.folders@.take(i + 1).drop_last() =~= folder.folders@.take(i as int));
            assert(folder.folders@.take(i + 1).last() == *below);
        }
        if view.shows(below.hidden) {
            let key = (fold(below.name.as_str()), below.modified, i);
            let ghost before = keys@;
            keys.push(key);
            proof {
                assert(keyed_views(keys@) =~= keyed_views(before).push((key.0@, key.1, key.2)));
            }
        }
        i = i + 1;
    }
    proof {
        assert(folder.folders@.take(i as int) =~= folder.folders@);
    }
    keys
}

/// The keys of the files of `folder` that `view` shows.
fn file_keys(folder: &Folder, view: &TreeView) -> (keys: Vec<(Vec<char>, Option<i128>, usize)>)
    ensures
        keyed_views(keys@) == shown_files(folder.files@, *view),
{
    let mut keys: Vec<(Vec<char>, Option<i128>, usize)> = Vec::new();
    let mut i: usize = 0;
    while i < folder.files.len()
        invariant
            0 <= i <= folder.files@.len(),
            keyed_views(keys@) == shown_files(folder.files@.take(i as int), *view),
        decreases folder.files.len() - i,
    {
        let file = &folder.files[i];
        proof {
            assert(folder.files@.take(i + 1).drop_last() =~= folder.files@.take(i as int));
            assert(folder.files@.take(i + 1).last() == *file);
        }
        if view.shows(file.hidden) {
            let key = (fold(file.name.as_str()), file.modified, i);
            let ghost before = keys@;
            keys.push(key);
            proof {
                assert(keyed_views(keys@) =~= keyed_views(before).push((key.0@, key.1, key.2)));
            }
        }
        i = i + 1;
    }
    proof {
        assert(folder.files@.take(i as int) =~= folder.files@);
    }
    keys
}

/// What is shown under `folder` at `depth` and deeper.
fn rows_of<'a>(folder: &'a Folder, view: &TreeView, depth: usize) -> (rows: Vec<Row<'a>>)
    ensures
        rows@ == rows_under(folder, *view, depth),
    decreases folder,
{
    let order = sort_keyed(folder_keys(folder, view), view.sort);
    let ghost folder_order = keyed_views(order@);
    let next = if depth < usize::MAX {
        depth + 1
    } else {
        depth
    };
    let mut rows: Vec<Row<'a>> = Vec::new();
    let mut k: usize = 0;
    while k < order.len()
        invariant
            0 <= k <= order@.len(),
            folder_order == keyed_views(order@),
            next == deeper(depth),
            rows@ + folder_rows(folder, *view, depth, folder_order, k as int) == folder_rows(folder, *view, depth, folder_order, 0),
        decreases order.len() - k,
    {
        let i = order[k].2;
        proof {
            assert(folder_order[k as int].2 == i);
        }
        if i < folder.folders.len() {
            let below = &folder.folders[i];
            let ghost before = rows@;
            rows.push(Row::Folder { folder: below, depth });
            let mut beneath = rows_of(below, view, next);
            rows.append(&mut beneath);
            proof {
                assert(rows@ + folder_rows(folder, *view, depth, folder_order, k + 1) =~= before + folder_rows(folder, *view, depth, folder_order, k as int));
            }
        }
        k = k + 1;
    }
    let files = sort_keyed(file_keys(folder, view), view.sort);
    let ghost file_order = keyed_views(files@);
    let ghost folder_part = rows@;
    let mut m: usize = 0;
    while m < files.len()
        invariant
            0 <= m <= files@.len(),
            file_order == keyed_views(files@),
            rows@ + file_rows(folder, depth, file_order, m as int) == folder_part + file_rows(folder, depth, file_order, 0),
        decreases files.len() - m,
    {
        let i = files[m].2;
        proof {
            assert(file_order[m as int].2 == i);
        }
        if i < folder.files.len() {
            let ghost before = rows@;
            rows.push(Row::File { file: &folder.files[i], depth });
            proof {
                assert(rows@ + file_rows(folder, depth, file_order, m + 1) =~= before + file_rows(folder, depth, file_order, m as int));
            }
        }
        m = m + 1;
    }
    proof {
        assert(rows@ =~= folder_part + file_rows(folder, depth, file_order, 0));
    }
    rows
}

/// One Location as the sidebar draws it.
#[derive(Debug)]
pub struct Section<'a> {
    /// The Location's root, which heads the section.
    pub root: &'a str,
    /// What is shown beneath it, in the order it is drawn.
    pub rows: Vec<Row<'a>>,
}

/// The Pinned section for `paths`: each path that `library` holds as a row
/// of its own at depth zero, a folder followed by what is shown beneath it
/// one deeper.
pub closed spec fn pinned_rows_of<'a>(library: &'a Library, view: TreeView, paths: Seq<Seq<char>>) -> Seq<Row<'a>>
    decreases paths.len(),
{
    if paths.len() == 0 {
        seq![]
    } else {
        pinned_rows_of(library, view, paths.drop_last()) + match row_at(library, paths.last()) {
            None => seq![],
            Some(row) => seq![row] + match row {
                Row::Folder { folder, .. } => rows_under(folder, view, 1),
                Row::File { .. } => seq![],
            },
        }
    }
}

/// The files among `rows`, in order.
pub open spec fn files_in<'a>(rows: Seq<Row<'a>>) -> Seq<&'a File>
    decreases rows.len(),
{
    if rows.len() == 0 {
        seq![]
    } else {
        files_in(rows.drop_last()) + match rows.last() {
            Row::File { file, .. } => seq![file],
            Row::Folder { .. } => seq![],
        }
    }
}

/// Every shown file of the first `k` Locations of `library`, in the order
/// their sections draw them: the files among the rows [`Library::shown`]
/// gives each Location's section.
pub open spec fn files_shown<'a>(library: &'a Library, view: TreeView, k: int) -> Seq<&'a File>
    decreases k,
{
    if k <= 0 || k > library.spec_locations().len() {
        seq![]
    } else {
        files_shown(library, view, k - 1) + files_in(rows_under(&library.spec_locations()[k - 1].spec_tree(), view, 0))
    }
}

impl Library {
    /// Every Location as a section, in the order they were added, each read
    /// through `view`.
    pub fn shown(&self, view: &TreeView) -> (sections: Vec<Section<'_>>)
        ensures
            sections@.len() == self.spec_locations().len(),
            forall|i: int|
                #![trigger sections@[i]]
                0 <= i < sections@.len() ==> {
                    &&& sections@[i].root@ == self.spec_locations()[i].spec_root()
                    &&& sections@[i].rows@ == rows_under(&self.spec_locations()[i].spec_tree(), *view, 0)
                },
    {
        let mut sections: Vec<Section<'_>> = Vec::new();
        let mut k: usize = 0;
        while k < self.locations.len()
            invariant
                0 <= k <= self.locations@.len(),
                sections@.len() == k,
                forall|i: int|
                    #![trigger sections@[i]]
                    0 <= i < k ==> {
                        &&& sections@[i].root@ == self.locations@[i].root@
                        &&& sections@[i].rows@ == rows_under(&self.locations@[i].tree, *view, 0)
                    },
            decreases self.locations.len() - k,
        {
            let location = &self.locations[k];
            sections.push(Section { root: location.root.as_str(), rows: rows_of(&location.tree, view, 0) });
            k = k + 1;
        }
        sections
    }

    /// What is shown beneath the folder at `path`, in the order it is drawn;
    /// nothing where no Location holds a folder there.
    pub fn rows(&self, path: &str, view: &TreeView) -> (rows: Vec<Row<'_>>)
        ensures
            rows@ == match row_at(self, path@) {
                Some(Row::Folder { folder, .. }) => rows_under(folder, *view, 0),
                _ => seq![],
            },
    {
        match self.at(path) {
            Some(Row::Folder { folder, .. }) => rows_of(folder, view, 0),
            _ => Vec::new(),
        }
    }

    /// The Pinned section: each pinned path as a row of its own at depth
    /// zero, in the order it was pinned, a pinned folder followed by what is
    /// shown beneath it one deeper. A pinned entry is drawn whether or not it
    /// is hidden; a pinned path no Location holds any more answers nothing.
    pub fn pinned_rows(&self, view: &TreeView) -> (rows: Vec<Row<'_>>)
        ensures
            rows@ == pinned_rows_of(self, *view, self.spec_pinned()),
    {
        let mut rows: Vec<Row<'_>> = Vec::new();
        let mut k: usize = 0;
        while k < self.pinned.len()
            invariant
                0 <= k <= self.pinned@.len(),
                rows@ == pinned_rows_of(self, *view, texts(self.pinned@).take(k as int)),
            decreases self.pinned.len() - k,
        {
            proof {
                assert(texts(self.pinned@).take(k + 1).drop_last() =~= texts(self.pinned@).take(k as int));
                assert(texts(self.pinned@).take(k + 1).last() == self.pinned@[k as int]@);
            }
            match self.at(self.pinned[k].as_str()) {
                None => {},
                Some(row) => {
                    rows.push(row);
                    if let Row::Folder { folder, .. } = row {
                        let mut beneath = rows_of(folder, view, 1);
                        rows.append(&mut beneath);
                    }
                },
            }
            k = k + 1;
        }
        proof {
            assert(texts(self.pinned@).take(k as int) =~= texts(self.pinned@));
        }
        rows
    }

    /// Every shown file of every Location, in the order the sections draw
    /// them.
    pub fn files(&self, view: &TreeView) -> (files: Vec<&File>)
        ensures
            files@ == files_shown(self, *view, self.spec_locations().len() as int),
    {
        let sections = self.shown(view);
        let mut files: Vec<&File> = Vec::new();
        let mut k: usize = 0;
        while k < sections.len()
            invariant
                0 <= k <= sections@.len(),
                sections@.len() == self.locations@.len(),
                forall|i: int|
                    #![trigger sections@[i]]
                    0 <= i < sections@.len() ==> sections@[i].rows@ == rows_under(&self.locations@[i].tree, *view, 0),
                files@ == files_shown(self, *view, k as int),
            decreases sections.len() - k,
        {
            let rows = &sections[k].rows;
            let ghost before = files@;
            let mut m: usize = 0;
            while m < rows.len()
                invariant
                    0 <= m <= rows@.len(),
                    files@ == before + files_in(rows@.take(m as int)),
                decreases rows.len() - m,
            {
                proof {
                    assert(rows@.take(m + 1).drop_last() =~= rows@.take(m as int));
                }
                if let Row::File { file, .. } = rows[m] {
                    files.push(file);
                }
                m = m + 1;
            }
            proof {
                assert(rows@.take(m as int) =~= rows@);
                assert(rows@ == rows_under(&self.locations@[k as int].tree, *view, 0));
            }
            k = k + 1;
        }
        files
    }
}

// Following the disk.

/// What the caller found on disk at the path a [`Probe`] names.
#[derive(Debug)]
pub enum Found {
    /// Nothing is there any more, or it could not be looked at.
    Gone,
    /// A folder, with one reading of it where the probe asked for a walk.
    Folder(Option<Listing>),
    /// Anything else, and when it was last written where the file system
    /// would say.
    File(Option<i128>),
}

/// Where a change under a Location is to be looked at on disk, and whether a
/// folder found there is to be read and walked in: one that the tree already
/// holds, or a Location's own root, is never walked again.
#[derive(Debug)]
pub struct Probe {
    pub at: String,
    pub walk: bool,
}

/// Whether a folder is named other than `name`.
pub open spec fn other_folder(name: Seq<char>) -> spec_fn(Folder) -> bool {
    |folder: Folder| folder.spec_name() != name
}

/// Whether a file is named other than `name`.
pub open spec fn other_file(name: Seq<char>) -> spec_fn(File) -> bool {
    |file: File| file.spec_name() != name
}

/// Where the change at the components `rest` under `folder` is looked at,
/// and whether a folder there would be walked in: the deepest folder the
/// tree holds on the way, joined with the next name.
pub closed spec fn probe_in(folder: Folder, rest: Seq<Seq<char>>) -> (Seq<char>, bool)
    decreases rest.len(),
{
    if rest.len() == 0 {
        (folder.path@, false)
    } else {
        let i = first_where(folder.folders@, named_folder(rest[0]));
        if rest.len() > 1 && 0 <= i < folder.folders@.len() {
            probe_in(folder.folders@[i], rest.drop_first())
        } else {
            (joined(folder.path@, rest[0]), i < 0)
        }
    }
}

/// Where the change at `path` is looked at, where a Location holds it.
pub closed spec fn probe_of(library: Library, path: Seq<char>) -> Option<(Seq<char>, bool)> {
    let k = first_where(library.locations@, holds(path));
    if 0 <= k < library.locations@.len() {
        Some(probe_in(library.locations@[k].tree, below(path, library.locations@[k].root@)))
    } else {
        None
    }
}

/// Whether `new` is `old` with the same path, name, time and flag.
pub closed spec fn same_head(old: Folder, new: Folder) -> bool {
    &&& new.path == old.path
    &&& new.name == old.name
    &&& new.modified == old.modified
    &&& new.hidden == old.hidden
}

/// Whether `new` is `old` with every entry named `name` taken out, and
/// `moved` whether there was one.
pub closed spec fn dropped(old: Folder, new: Folder, name: Seq<char>, moved: bool) -> bool {
    &&& same_head(old, new)
    &&& new.folders@ == sieve(old.folders@, other_folder(name))
    &&& new.files@ == sieve(old.files@, other_file(name))
    &&& moved == ((exists|k: int| 0 <= k < old.folders@.len() && !other_folder(name)(#[trigger] old.folders@[k]))
        || (exists|k: int| 0 <= k < old.files@.len() && !other_file(name)(#[trigger] old.files@[k])))
}

/// Whether `new` is `old` moved to agree with `found` at the entry named
/// `name`, and `moved` whether anything moved. A folder the tree already
/// holds stays as it is; a folder it does not hold is walked in, in place of
/// whatever bore its name; a listed file has its time taken, or is added in
/// place of whatever bore its name; and anything else, gone or unlisted,
/// leaves no entry of that name.
pub closed spec fn entry_patched(old: Folder, new: Folder, name: Seq<char>, found: Found, moved: bool) -> bool {
    let path = joined(old.path@, name);
    let hidden = old.hidden || dotted(name);
    match found {
        Found::Folder(listing) => if first_where(old.folders@, named_folder(name)) >= 0 || listing is None {
            new == old && !moved
        } else {
            &&& moved
            &&& same_head(old, new)
            &&& new.files@ == sieve(old.files@, other_file(name))
            &&& new.folders@.len() > 0
            &&& new.folders@.drop_last() == sieve(old.folders@, other_folder(name))
            &&& walked(new.folders@.last(), path, name, hidden, listing.unwrap())
        },
        Found::File(modified) => if listed(path) {
            let j = first_where(old.files@, named_file(name));
            if 0 <= j < old.files@.len() {
                let file = old.files@[j];
                &&& same_head(old, new)
                &&& new.folders@ == old.folders@
                &&& new.files@ == old.files@.update(j, File { path: file.path, name: file.name, modified, hidden: file.hidden })
                &&& moved == (file.modified != modified)
            } else {
                &&& moved
                &&& same_head(old, new)
                &&& new.folders@ == sieve(old.folders@, other_folder(name))
                &&& new.files@.len() > 0
                &&& new.files@.drop_last() == sieve(old.files@, other_file(name))
                &&& new.files@.last().path@ == path
                &&& new.files@.last().name@ == name
                &&& new.files@.last().modified == modified
                &&& new.files@.last().hidden == hidden
            }
        } else {
            dropped(old, new, name, moved)
        },
        Found::Gone => dropped(old, new, name, moved),
    }
}

/// Whether `new` is `old` moved to agree with `found` at the components
/// `rest` below it, and `moved` whether anything moved: the walk goes down
/// through the folders the tree holds while a name follows, and the entry it
/// stops at is patched. At the folder itself, only whether it is still a
/// folder is asked: it keeps what it holds if so, and holds nothing if not.
pub closed spec fn patched(old: Folder, new: Folder, rest: Seq<Seq<char>>, found: Found, moved: bool) -> bool
    decreases rest.len(),
{
    if rest.len() == 0 {
        match found {
            Found::Folder(_) => new == old && !moved,
            _ => {
                &&& same_head(old, new)
                &&& new.folders@.len() == 0
                &&& new.files@.len() == 0
                &&& moved == (old.folders@.len() > 0 || old.files@.len() > 0)
            },
        }
    } else {
        let i = first_where(old.folders@, named_folder(rest[0]));
        if rest.len() > 1 && 0 <= i < old.folders@.len() {
            &&& same_head(old, new)
            &&& new.files@ == old.files@
            &&& new.folders@.len() == old.folders@.len()
            &&& forall|k: int| 0 <= k < old.folders@.len() && k != i ==> new.folders@[k] == old.folders@[k]
            &&& patched(old.folders@[i], new.folders@[i], rest.drop_first(), found, moved)
        } else {
            entry_patched(old, new, rest[0], found, moved)
        }
    }
}

/// Takes every entry named `name` out of `folder`, answering whether there
/// was one.
fn drop_entry(folder: &mut Folder, name: &Vec<char>) -> (moved: bool)
    ensures
        dropped(*old(folder), *final(folder), name@, moved),
{
    let ghost folders = folder.folders@;
    let ghost keep_folder = other_folder(name@);
    let n = folder.folders.len();
    let mut i: usize = 0;
    let mut j: usize = 0;
    let mut moved = false;
    while j < n
        invariant
            0 <= i <= j <= n,
            n == folders.len(),
            folders == old(folder).folders@,
            keep_folder == other_folder(name@),
            same_head(*old(folder), *folder),
            folder.files@ == old(folder).files@,
            folder.folders@ == sieve(folders.take(j as int), keep_folder) + folders.skip(j as int),
            i == sieve(folders.take(j as int), keep_folder).len(),
            moved == exists|k: int| 0 <= k < j && !keep_folder(#[trigger] folders[k]),
        decreases n - j,
    {
        let ghost kept = sieve(folders.take(j as int), keep_folder);
        proof {
            assert(folder.folders@[i as int] == folders[j as int]);
            assert(folders.take(j + 1).drop_last() =~= folders.take(j as int));
            assert(folders.take(j + 1).last() == folders[j as int]);
        }
        if is_text(name, folder.folders[i].name.as_str()) {
            let _gone = folder.folders.remove(i);
            proof {
                assert(folder.folders@ =~= kept + folders.skip(j + 1));
            }
            moved = true;
        } else {
            proof {
                assert(folder.folders@ =~= kept.push(folders[j as int]) + folders.skip(j + 1));
                assert(moved == exists|k: int| 0 <= k < j + 1 && !keep_folder(#[trigger] folders[k]));
            }
            i = i + 1;
        }
        j = j + 1;
    }
    proof {
        assert(folders.take(n as int) =~= folders);
        assert(folders.skip(n as int) =~= seq![]);
        assert(folder.folders@ =~= sieve(folders, keep_folder));
    }
    let ghost files = folder.files@;
    let ghost keep_file = other_file(name@);
    let ghost moved_folder = moved;
    let m = folder.files.len();
    let mut a: usize = 0;
    let mut b: usize = 0;
    let mut moved_file = false;
    while b < m
        invariant
            0 <= a <= b <= m,
            m == files.len(),
            files == old(folder).files@,
            keep_file == other_file(name@),
            same_head(*old(folder), *folder),
            folder.folders@ == sieve(old(folder).folders@, other_folder(name@)),
            folder.files@ == sieve(files.take(b as int), keep_file) + files.skip(b as int),
            a == sieve(files.take(b as int), keep_file).len(),
            moved_file == exists|k: int| 0 <= k < b && !keep_file(#[trigger] files[k]),
        decreases m - b,
    {
        let ghost kept = sieve(files.take(b as int), keep_file);
        proof {
            assert(folder.files@[a as int] == files[b as int]);
            assert(files.take(b + 1).drop_last() =~= files.take(b as int));
            assert(files.take(b + 1).last() == files[b as int]);
        }
        if is_text(name, folder.files[a].name.as_str()) {
            let _gone = folder.files.remove(a);
            proof {
                assert(folder.files@ =~= kept + files.skip(b + 1));
            }
            moved_file = true;
        } else {
            proof {
                assert(folder.files@ =~= kept.push(files[b as int]) + files.skip(b + 1));
                assert(moved_file == exists|k: int| 0 <= k < b + 1 && !keep_file(#[trigger] files[k]));
            }
            a = a + 1;
        }
        b = b + 1;
    }
    proof {
        assert(files.take(m as int) =~= files);
        assert(files.skip(m as int) =~= seq![]);
        assert(folder.files@ =~= sieve(files, keep_file));
    }
    moved || moved_file
}

/// Moves the entry named `name` under `folder` to agree with `found`.
fn patch_entry(folder: &mut Folder, name: &Vec<char>, found: Found) -> (moved: bool)
    ensures
        entry_patched(*old(folder), *final(folder), name@, found, moved),
{
    let dir = chars_of(folder.path.as_str());
    let name_text = string_of(name);
    let path = join(&dir, name_text.as_str());
    let hidden = folder.hidden || starts_with_dot(name_text.as_str());
    match found {
        Found::Folder(listing) => {
            if folder_named(folder, name).is_some() {
                return false;
            }
            match listing {
                None => false,
                Some(listing) => {
                    let _ = drop_entry(folder, name);
                    let below = walk(&path, name_text, hidden, &listing);
                    let ghost before = folder.folders@;
                    folder.folders.push(below);
                    proof {
                        assert(folder.folders@.drop_last() =~= before);
                    }
                    true
                },
            }
        },
        Found::File(modified) => {
            if !is_listed(&path) {
                return drop_entry(folder, name);
            }
            match file_named(folder, name) {
                Some(j) => {
                    let mut file = folder.files.remove(j);
                    let moved = !same_time(file.modified, modified);
                    file.modified = modified;
                    folder.files.insert(j, file);
                    proof {
                        assert(folder.files@ =~= old(folder).files@.update(
                            j as int,
                            File {
                                path: old(folder).files@[j as int].path,
                                name: old(folder).files@[j as int].name,
                                modified,
                                hidden: old(folder).files@[j as int].hidden,
                            },
                        ));
                    }
                    moved
                },
                None => {
                    let _ = drop_entry(folder, name);
                    let file = File { path: string_of(&path), name: name_text, modified, hidden };
                    let ghost before = folder.files@;
                    folder.files.push(file);
                    proof {
                        assert(folder.files@.drop_last() =~= before);
                    }
                    true
                },
            }
        },
        Found::Gone => drop_entry(folder, name),
    }
}

/// Where the change at the components of `rest` from `from` on is looked
/// at under `folder`.
fn probe_under(folder: &Folder, rest: &Vec<Vec<char>>, from: usize) -> (probe: Probe)
    requires
        from <= rest@.len(),
    ensures
        (probe.at@, probe.walk) == probe_in(*folder, part_views(rest@).skip(from as int)),
    decreases rest@.len() - from,
{
    if from == rest.len() {
        return Probe { at: folder.path.clone(), walk: false };
    }
    let ghost left = part_views(rest@).skip(from as int);
    proof {
        assert(left[0] == rest@[from as int]@);
        assert(left.drop_first() =~= part_views(rest@).skip(from + 1));
    }
    let name = &rest[from];
    let held = folder_named(folder, name);
    match held {
        Some(i) => if from + 1 < rest.len() {
            return probe_under(&folder.folders[i], rest, from + 1);
        },
        None => {},
    }
    let dir = chars_of(folder.path.as_str());
    let name_text = string_of(name);
    let at = join(&dir, name_text.as_str());
    Probe { at: string_of(&at), walk: held.is_none() }
}

/// Moves the tree under `folder` to agree with `found` at the components
/// of `rest` from `from` on.
fn patch_under(folder: &mut Folder, rest: &Vec<Vec<char>>, from: usize, found: Found) -> (moved: bool)
    requires
        from <= rest@.len(),
    ensures
        patched(*old(folder), *final(folder), part_views(rest@).skip(from as int), found, moved),
    decreases rest@.len() - from,
{
    if from == rest.len() {
        return match found {
            Found::Folder(_) => false,
            _ => {
                let moved = folder.folders.len() > 0 || folder.files.len() > 0;
                folder.folders = Vec::new();
                folder.files = Vec::new();
                moved
            },
        };
    }
    let ghost left = part_views(rest@).skip(from as int);
    proof {
        assert(left[0] == rest@[from as int]@);
        assert(left.drop_first() =~= part_views(rest@).skip(from + 1));
    }
    let name = &rest[from];
    if from + 1 < rest.len() {
        if let Some(i) = folder_named(folder, name) {
            let mut below = folder.folders.remove(i);
            let moved = patch_under(&mut below, rest, from + 1, found);
            folder.folders.insert(i, below);
            return moved;
        }
    }
    patch_entry(folder, name, found)
}

impl Library {
    /// Where the change at `path` is to be looked at on disk, where a
    /// Location holds it: the caller looks there, reads a folder it finds
    /// where the probe asks for a walk, and hands what it found to
    /// [`Library::patch`].
    pub fn probe(&self, path: &str) -> (probe: Option<Probe>)
        ensures
            match probe_of(*self, path@) {
                Some((at, walk)) => probe matches Some(p) && p.at@ == at && p.walk == walk,
                None => probe is None,
            },
    {
        let chars = chars_of(path);
        let place = components_of(&chars);
        let mut k: usize = 0;
        while k < self.locations.len()
            invariant
                0 <= k <= self.locations@.len(),
                part_views(place@) == components(path@),
                forall|j: int| 0 <= j < k ==> !holds(path@)(#[trigger] self.locations@[j]),
            decreases self.locations.len() - k,
        {
            let root = chars_of(self.locations[k].root.as_str());
            let root_place = components_of(&root);
            if opens(&root_place, &place) {
                proof {
                    lemma_first_where(self.locations@, holds(path@), k as int);
                }
                return Some(probe_under(&self.locations[k].tree, &place, root_place.len()));
            }
            k = k + 1;
        }
        proof {
            lemma_first_where(self.locations@, holds(path@), k as int);
        }
        None
    }

    /// Takes in what the caller found at the path [`Library::probe`] named
    /// for a change at `path`, and answers whether the tree moved, which is
    /// the signal to draw the sidebar again. A path under no Location moves
    /// nothing.
    pub fn patch(&mut self, path: &str, found: Found) -> (moved: bool)
        ensures
            final(self).spec_pinned() == old(self).spec_pinned(),
            final(self).spec_locations().len() == old(self).spec_locations().len(),
            ({
                let k = first_where(old(self).spec_locations(), holds(path@));
                if 0 <= k < old(self).spec_locations().len() {
                    let location = old(self).spec_locations()[k];
                    &&& forall|j: int|
                        0 <= j < old(self).spec_locations().len() && j != k ==> #[trigger] final(self).spec_locations()[j]
                            == old(self).spec_locations()[j]
                    &&& final(self).spec_locations()[k].spec_root() == location.spec_root()
                    &&& patched(
                        location.spec_tree(),
                        final(self).spec_locations()[k].spec_tree(),
                        below(path@, location.spec_root()),
                        found,
                        moved,
                    )
                } else {
                    final(self).spec_locations() == old(self).spec_locations() && !moved
                }
            }),
    {
        let chars = chars_of(path);
        let place = components_of(&chars);
        let mut k: usize = 0;
        while k < self.locations.len()
            invariant
                0 <= k <= self.locations@.len(),
                *self == *old(self),
                part_views(place@) == components(path@),
                forall|j: int| 0 <= j < k ==> !holds(path@)(#[trigger] self.locations@[j]),
            decreases self.locations.len() - k,
        {
            let root = chars_of(self.locations[k].root.as_str());
            let root_place = components_of(&root);
            if opens(&root_place, &place) {
                proof {
                    lemma_first_where(self.locations@, holds(path@), k as int);
                }
                let mut location = self.locations.remove(k);
                let moved = patch_under(&mut location.tree, &place, root_place.len(), found);
                self.locations.insert(k, location);
                return moved;
            }
            k = k + 1;
        }
        proof {
            lemma_first_where(self.locations@, holds(path@), k as int);
        }
        false
    }
}

// Laws.

proof fn lemma_text_transitive(a: Seq<char>, b: Seq<char>, c: Seq<char>)
    ensures
        text_before(a, b) && text_before(b, c) ==> text_before(a, c),
    decreases a.len(),
{
    if a.len() > 0 && b.len() > 0 && c.len() > 0 && a[0] == b[0] && b[0] == c[0] {
        lemma_text_transitive(a.drop_first(), b.drop_first(), c.drop_first());
    }
}

/// The order entries are drawn in is total: no entry is drawn before
/// itself, of two entries at most one is drawn before the other, two
/// entries neither of which is drawn before the other have the same folded
/// name and the same write time, and an entry drawn before one drawn before
/// a third is drawn before the third. Each sort falls back on the other's
/// key, so two files written in the same second do not swap between two
/// readings.
pub proof fn lemma_drawing_order_is_total(
    sort: Sort,
    one: (Seq<char>, Option<i128>, usize),
    other: (Seq<char>, Option<i128>, usize),
    third: (Seq<char>, Option<i128>, usize),
)
    ensures
        !keyed_before(sort, one, one),
        keyed_before(sort, one, other) ==> !keyed_before(sort, other, one),
        !keyed_before(sort, one, other) && !keyed_before(sort, other, one) ==> one.0 == other.0 && one.1 == other.1,
        keyed_before(sort, one, other) && keyed_before(sort, other, third) ==> keyed_before(sort, one, third),
{
    lemma_text_asymmetric(one.0, one.0);
    lemma_text_asymmetric(one.0, other.0);
    lemma_text_transitive(one.0, other.0, third.0);
}

/// Of two entries, `one` is drawn before `third` only where it is drawn
/// before `other` or `other` before `third`.
proof fn lemma_drawn_between(
    sort: Sort,
    one: (Seq<char>, Option<i128>, usize),
    other: (Seq<char>, Option<i128>, usize),
    third: (Seq<char>, Option<i128>, usize),
)
    ensures
        keyed_before(sort, one, third) ==> keyed_before(sort, one, other) || keyed_before(sort, other, third),
{
    lemma_text_between(one.0, other.0, third.0);
    lemma_text_asymmetric(one.0, other.0);
    lemma_text_asymmetric(other.0, third.0);
}

/// Whether `entries` are in the order `sort` draws them: no entry is drawn
/// before one that stands ahead of it, and of two that tie the one that
/// stood first in its folder stands ahead.
pub open spec fn in_drawing_order(sort: Sort, entries: Seq<(Seq<char>, Option<i128>, usize)>) -> bool {
    forall|i: int, j: int|
        0 <= i < j < entries.len() ==> keyed_before(sort, #[trigger] entries[i], #[trigger] entries[j])
            || (entries[i].0 == entries[j].0 && entries[i].1 == entries[j].1 && entries[i].2 < entries[j].2)
}

proof fn lemma_insert_keyed_members(sort: Sort, sorted: Seq<(Seq<char>, Option<i128>, usize)>, entry: (Seq<char>, Option<i128>, usize))
    ensures
        insert_keyed(sort, sorted, entry).len() == sorted.len() + 1,
        forall|x| #[trigger] insert_keyed(sort, sorted, entry).contains(x) ==> x == entry || sorted.contains(x),
    decreases sorted.len(),
{
    if sorted.len() > 0 && keyed_before(sort, entry, sorted.last()) {
        let shorter = sorted.drop_last();
        lemma_insert_keyed_members(sort, shorter, entry);
        assert forall|x| #[trigger] insert_keyed(sort, sorted, entry).contains(x) implies x == entry || sorted.contains(x) by {
            let r = insert_keyed(sort, sorted, entry);
            let j = choose|j: int| 0 <= j < r.len() && r[j] == x;
            if j < r.len() - 1 {
                assert(insert_keyed(sort, shorter, entry)[j] == x);
                assert(insert_keyed(sort, shorter, entry).contains(x));
                if x != entry {
                    let m = choose|m: int| 0 <= m < shorter.len() && shorter[m] == x;
                    assert(sorted[m] == x);
                }
            } else {
                assert(sorted[sorted.len() - 1] == x);
            }
        }
    } else if sorted.len() > 0 {
        assert forall|x| #[trigger] insert_keyed(sort, sorted, entry).contains(x) implies x == entry || sorted.contains(x) by {
            let r = insert_keyed(sort, sorted, entry);
            let j = choose|j: int| 0 <= j < r.len() && r[j] == x;
            if j < sorted.len() {
                assert(sorted[j] == x);
            }
        }
    } else {
        assert forall|x| #[trigger] insert_keyed(sort, sorted, entry).contains(x) implies x == entry || sorted.contains(x) by {
            let r = insert_keyed(sort, sorted, entry);
            let j = choose|j: int| 0 <= j < r.len() && r[j] == x;
            assert(r[j] == entry);
        }
    }
}

proof fn lemma_sorted_keyed_members(sort: Sort, entries: Seq<(Seq<char>, Option<i128>, usize)>)
    ensures
        sorted_keyed(sort, entries).len() == entries.len(),
        forall|x| #[trigger] sorted_keyed(sort, entries).contains(x) ==> entries.contains(x),
    decreases entries.len(),
{
    if entries.len() > 0 {
        let shorter = entries.drop_last();
        lemma_sorted_keyed_members(sort, shorter);
        lemma_insert_keyed_members(sort, sorted_keyed(sort, shorter), entries.last());
        assert forall|x| #[trigger] sorted_keyed(sort, entries).contains(x) implies entries.contains(x) by {
            if x == entries.last() {
                assert(entries[entries.len() - 1] == x);
            } else {
                assert(sorted_keyed(sort, shorter).contains(x));
                assert(shorter.contains(x));
                let m = choose|m: int| 0 <= m < shorter.len() && shorter[m] == x;
                assert(entries[m] == x);
            }
        }
    }
}

proof fn lemma_insert_keyed_in_order(sort: Sort, sorted: Seq<(Seq<char>, Option<i128>, usize)>, entry: (Seq<char>, Option<i128>, usize))
    requires
        in_drawing_order(sort, sorted),
        forall|k: int| 0 <= k < sorted.len() ==> (#[trigger] sorted[k]).2 < entry.2,
    ensures
        in_drawing_order(sort, insert_keyed(sort, sorted, entry)),
    decreases sorted.len(),
{
    let r = insert_keyed(sort, sorted, entry);
    if sorted.len() == 0 {
    } else if !keyed_before(sort, entry, sorted.last()) {
        let last = sorted.len() - 1;
        assert forall|i: int, j: int| 0 <= i < j < r.len() implies keyed_before(sort, #[trigger] r[i], #[trigger] r[j])
            || (r[i].0 == r[j].0 && r[i].1 == r[j].1 && r[i].2 < r[j].2) by {
            if j == sorted.len() {
                let ki = sorted[i];
                let kl = sorted[last];
                lemma_drawing_order_is_total(sort, ki, entry, kl);
                lemma_drawing_order_is_total(sort, entry, kl, ki);
                lemma_drawing_order_is_total(sort, kl, entry, ki);
                lemma_drawn_between(sort, ki, entry, kl);
                if i < last {
                    assert(keyed_before(sort, ki, kl) || (ki.0 == kl.0 && ki.1 == kl.1 && ki.2 < kl.2));
                }
            } else {
                assert(r[i] == sorted[i] && r[j] == sorted[j]);
            }
        }
    } else {
        let shorter = sorted.drop_last();
        let last = sorted.last();
        assert(in_drawing_order(sort, shorter)) by {
            assert forall|i: int, j: int| 0 <= i < j < shorter.len() implies keyed_before(sort, #[trigger] shorter[i], #[trigger] shorter[j])
                || (shorter[i].0 == shorter[j].0 && shorter[i].1 == shorter[j].1 && shorter[i].2 < shorter[j].2) by {
                assert(shorter[i] == sorted[i] && shorter[j] == sorted[j]);
            }
        }
        lemma_insert_keyed_in_order(sort, shorter, entry);
        lemma_insert_keyed_members(sort, shorter, entry);
        let inner = insert_keyed(sort, shorter, entry);
        assert forall|i: int, j: int| 0 <= i < j < r.len() implies keyed_before(sort, #[trigger] r[i], #[trigger] r[j])
            || (r[i].0 == r[j].0 && r[i].1 == r[j].1 && r[i].2 < r[j].2) by {
            if j == inner.len() {
                assert(r[j] == last);
                assert(inner.contains(r[i])) by {
                    assert(inner[i] == r[i]);
                }
                if r[i] != entry {
                    let m = choose|m: int| 0 <= m < shorter.len() && shorter[m] == r[i];
                    assert(sorted[m] == r[i]);
                    assert(sorted[sorted.len() - 1] == last);
                }
            } else {
                assert(r[i] == inner[i] && r[j] == inner[j]);
            }
        }
    }
}

/// Entries are drawn in the view's order: given in the order their folder
/// holds them, they come out with no entry drawn before one standing ahead
/// of it, and entries that tie in the order their folder holds them.
pub proof fn lemma_sorted_in_drawing_order(sort: Sort, entries: Seq<(Seq<char>, Option<i128>, usize)>)
    requires
        forall|i: int, j: int| 0 <= i < j < entries.len() ==> (#[trigger] entries[i]).2 < (#[trigger] entries[j]).2,
    ensures
        in_drawing_order(sort, sorted_keyed(sort, entries)),
        sorted_keyed(sort, entries).len() == entries.len(),
        forall|x| #[trigger] sorted_keyed(sort, entries).contains(x) ==> entries.contains(x),
    decreases entries.len(),
{
    lemma_sorted_keyed_members(sort, entries);
    if entries.len() > 0 {
        let shorter = entries.drop_last();
        assert forall|i: int, j: int| 0 <= i < j < shorter.len() implies (#[trigger] shorter[i]).2 < (#[trigger] shorter[j]).2 by {
            assert(shorter[i] == entries[i] && shorter[j] == entries[j]);
        }
        lemma_sorted_in_drawing_order(sort, shorter);
        let last = entries.last();
        assert forall|k: int| 0 <= k < sorted_keyed(sort, shorter).len() implies (#[trigger] sorted_keyed(sort, shorter)[k]).2 < last.2 by {
            assert(sorted_keyed(sort, shorter).contains(sorted_keyed(sort, shorter)[k]));
            let m = choose|m: int| 0 <= m < shorter.len() && shorter[m] == sorted_keyed(sort, shorter)[k];
            assert(entries[m] == shorter[m]);
            assert(entries[entries.len() - 1] == last);
        }
        lemma_insert_keyed_in_order(sort, sorted_keyed(sort, shorter), last);
    }
}

proof fn lemma_shown_folders_increasing(folders: Seq<Folder>, view: TreeView)
    requires
        folders.len() <= usize::MAX,
    ensures
        forall|i: int, j: int|
            0 <= i < j < shown_folders(folders, view).len() ==> (#[trigger] shown_folders(folders, view)[i]).2
                < (#[trigger] shown_folders(folders, view)[j]).2,
        forall|i: int| 0 <= i < shown_folders(folders, view).len() ==> (#[trigger] shown_folders(folders, view)[i]).2 < folders.len(),
    decreases folders.len(),
{
    if folders.len() > 0 {
        let shorter = folders.drop_last();
        lemma_shown_folders_increasing(shorter, view);
        let before = shown_folders(shorter, view);
        let all = shown_folders(folders, view);
        if view.spec_shows(folders.last().hidden) {
            assert(all == before.push((folded(folders.last().name@), folders.last().modified, (folders.len() - 1) as usize)));
            assert forall|i: int, j: int| 0 <= i < j < all.len() implies (#[trigger] all[i]).2 < (#[trigger] all[j]).2 by {
                assert(all[i] == before[i]);
                if j < before.len() {
                    assert(all[j] == before[j]);
                }
            }
            assert forall|i: int| 0 <= i < all.len() implies (#[trigger] all[i]).2 < folders.len() by {
                if i < before.len() {
                    assert(all[i] == before[i]);
                }
            }
        }
    }
}

proof fn lemma_shown_files_increasing(files: Seq<File>, view: TreeView)
    requires
        files.len() <= usize::MAX,
    ensures
        forall|i: int, j: int|
            0 <= i < j < shown_files(files, view).len() ==> (#[trigger] shown_files(files, view)[i]).2
                < (#[trigger] shown_files(files, view)[j]).2,
        forall|i: int| 0 <= i < shown_files(files, view).len() ==> (#[trigger] shown_files(files, view)[i]).2 < files.len(),
    decreases files.len(),
{
    if files.len() > 0 {
        let shorter = files.drop_last();
        lemma_shown_files_increasing(shorter, view);
        let before = shown_files(shorter, view);
        let all = shown_files(files, view);
        if view.spec_shows(files.last().hidden) {
            assert(all == before.push((folded(files.last().name@), files.last().modified, (files.len() - 1) as usize)));
            assert forall|i: int, j: int| 0 <= i < j < all.len() implies (#[trigger] all[i]).2 < (#[trigger] all[j]).2 by {
                assert(all[i] == before[i]);
                if j < before.len() {
                    assert(all[j] == before[j]);
                }
            }
            assert forall|i: int| 0 <= i < all.len() implies (#[trigger] all[i]).2 < files.len() by {
                if i < before.len() {
                    assert(all[i] == before[i]);
                }
            }
        }
    }
}

/// Beneath every folder, the folders shown and the files shown are each
/// drawn in the view's order: newest first by date, by folded name by name,
/// each falling back on the other, and entries that tie in the order the
/// folder holds them.
pub proof fn lemma_rows_in_drawing_order(folder: Folder, view: TreeView)
    ensures
        in_drawing_order(view.sort, sorted_keyed(view.sort, shown_folders(folder.spec_folders(), view))),
        in_drawing_order(view.sort, sorted_keyed(view.sort, shown_files(folder.spec_files(), view))),
{
    assert(folder.folders.len() == folder.folders@.len());
    assert(folder.files.len() == folder.files@.len());
    lemma_shown_folders_increasing(folder.folders@, view);
    lemma_shown_files_increasing(folder.files@, view);
    lemma_sorted_in_drawing_order(view.sort, shown_folders(folder.folders@, view));
    lemma_sorted_in_drawing_order(view.sort, shown_files(folder.files@, view));
}

/// The paths of a list of rows.
pub open spec fn row_paths<'a>(rows: Seq<Row<'a>>) -> Seq<Seq<char>> {
    rows.map_values(|row: Row<'a>| row.spec_path())
}

proof fn lemma_row_paths_add<'a>(one: Seq<Row<'a>>, other: Seq<Row<'a>>)
    ensures
        row_paths(one + other) == row_paths(one) + row_paths(other),
{
    assert(row_paths(one + other) =~= row_paths(one) + row_paths(other));
}

proof fn lemma_file_rows_depth<'a>(folder: &'a Folder, one: usize, other: usize, order: Seq<(Seq<char>, Option<i128>, usize)>, k: int)
    ensures
        row_paths(file_rows(folder, one, order, k)) == row_paths(file_rows(folder, other, order, k)),
    decreases order.len() - k,
{
    if 0 <= k < order.len() {
        lemma_file_rows_depth(folder, one, other, order, k + 1);
        let i = order[k].2 as int;
        if i < folder.files@.len() {
            lemma_row_paths_add(seq![Row::File { file: &folder.files@[i], depth: one }], file_rows(folder, one, order, k + 1));
            lemma_row_paths_add(seq![Row::File { file: &folder.files@[i], depth: other }], file_rows(folder, other, order, k + 1));
            assert(row_paths(seq![Row::File { file: &folder.files@[i], depth: one }]) =~= row_paths(seq![Row::File { file: &folder.files@[i], depth: other }]));
        }
    }
}

proof fn lemma_folder_rows_depth<'a>(
    folder: &'a Folder,
    view: TreeView,
    one: usize,
    other: usize,
    order: Seq<(Seq<char>, Option<i128>, usize)>,
    k: int,
)
    ensures
        row_paths(folder_rows(folder, view, one, order, k)) == row_paths(folder_rows(folder, view, other, order, k)),
    decreases folder, 0int, order.len() - k,
{
    if 0 <= k < order.len() {
        lemma_folder_rows_depth(folder, view, one, other, order, k + 1);
        let i = order[k].2 as int;
        if i < folder.folders@.len() {
            let below = &folder.folders@[i];
            lemma_rows_whatever_the_depth(below, view, deeper(one), deeper(other));
            let head_one = seq![Row::Folder { folder: below, depth: one }];
            let head_other = seq![Row::Folder { folder: below, depth: other }];
            assert(row_paths(head_one) =~= row_paths(head_other));
            lemma_row_paths_add(head_one, rows_under(below, view, deeper(one)));
            lemma_row_paths_add(head_other, rows_under(below, view, deeper(other)));
            lemma_row_paths_add(head_one + rows_under(below, view, deeper(one)), folder_rows(folder, view, one, order, k + 1));
            lemma_row_paths_add(head_other + rows_under(below, view, deeper(other)), folder_rows(folder, view, other, order, k + 1));
        }
    }
}

/// What is drawn beneath a folder does not depend on the depth it is drawn
/// at: the same entries, in the same order, whatever the depth. The Pinned
/// section draws a pinned folder's subtree one deeper than the folder's own
/// rows, and answers the same paths.
pub proof fn lemma_rows_whatever_the_depth<'a>(folder: &'a Folder, view: TreeView, one: usize, other: usize)
    ensures
        row_paths(rows_under(folder, view, one)) == row_paths(rows_under(folder, view, other)),
    decreases folder, 1int, 0int,
{
    let folders = sorted_keyed(view.sort, shown_folders(folder.folders@, view));
    let files = sorted_keyed(view.sort, shown_files(folder.files@, view));
    lemma_folder_rows_depth(folder, view, one, other, folders, 0);
    lemma_file_rows_depth(folder, one, other, files, 0);
    lemma_row_paths_add(folder_rows(folder, view, one, folders, 0), file_rows(folder, one, files, 0));
    lemma_row_paths_add(folder_rows(folder, view, other, folders, 0), file_rows(folder, other, files, 0));
}

proof fn lemma_sieve_keeps<T>(s: Seq<T>, keep: spec_fn(T) -> bool)
    ensures
        forall|k: int| 0 <= k < sieve(s, keep).len() ==> keep(#[trigger] sieve(s, keep)[k]),
    decreases s.len(),
{
    if s.len() > 0 {
        let shorter = s.drop_last();
        lemma_sieve_keeps(shorter, keep);
        let before = sieve(shorter, keep);
        let all = sieve(s, keep);
        assert forall|k: int| 0 <= k < all.len() implies keep(#[trigger] all[k]) by {
            if keep(s.last()) {
                if k < before.len() {
                    assert(all[k] == before[k]);
                }
            } else {
                assert(all[k] == before[k]);
            }
        }
    }
}

/// Once a path is unpinned, nothing pinned names its place.
pub proof fn lemma_unpinned_is_gone(pinned: Seq<Seq<char>>, path: Seq<char>)
    ensures
        forall|k: int|
            0 <= k < sieve(pinned, elsewhere(path)).len() ==> !same_place(#[trigger] sieve(pinned, elsewhere(path))[k], path),
{
    lemma_sieve_keeps(pinned, elsewhere(path));
    assert forall|k: int| 0 <= k < sieve(pinned, elsewhere(path)).len() implies !same_place(
        #[trigger] sieve(pinned, elsewhere(path))[k],
        path,
    ) by {
        assert(elsewhere(path)(sieve(pinned, elsewhere(path))[k]));
    }
}

/// Once a Location is removed, no Location is rooted at its place.
pub proof fn lemma_removed_location_is_gone(locations: Seq<Location>, root: Seq<char>)
    ensures
        forall|k: int|
            0 <= k < sieve(locations, rooted_elsewhere(root)).len() ==> !same_place(
                (#[trigger] sieve(locations, rooted_elsewhere(root))[k]).spec_root(),
                root,
            ),
{
    lemma_sieve_keeps(locations, rooted_elsewhere(root));
    assert forall|k: int| 0 <= k < sieve(locations, rooted_elsewhere(root)).len() implies !same_place(
        (#[trigger] sieve(locations, rooted_elsewhere(root))[k]).spec_root(),
        root,
    ) by {
        assert(rooted_elsewhere(root)(sieve(locations, rooted_elsewhere(root))[k]));
    }
}

} // verus!
