//! The page cache: where a page is found, which pages there are, and how old
//! the cache is.
//!
//! The cache is a directory with one subdirectory for each platform and one,
//! `common`, for the pages that all platforms share. A front end lists the
//! files of those subdirectories and hands the listing over; nothing here
//! depends on the order of the listing.

use vstd::prelude::*;
use vstd::slice::slice_subrange;
use vstd::string::StringSliceAdditionalSpecFns;
use crate::platform::PlatformKind;
use crate::text::{
    compare, copy_range, find_byte, find_from, join, joined, lemma_find_byte,
    lemma_find_byte_is, lemma_lex_irreflexive, lemma_lex_total, lemma_lex_transitive, lex_lt,
    same_bytes, strings_view, Side,
};

verus! {

/// The byte before the extension of a file name.
pub const DOT: u8 = 0x2e;

/// The byte between the parts of a path.
pub const SEPARATOR: u8 = 0x2f;

/// The byte between the words of the name of a page.
pub const HYPHEN: u8 = 0x2d;

/// The age in seconds beyond which the cache counts as outdated: thirty days.
pub const MAX_CACHE_AGE: u64 = 2_592_000;

/// The number of seconds in a day.
pub const SECONDS_PER_DAY: u64 = 86_400;

/// A page file in the cache: the subdirectory that it lies in and its name.
#[derive(Debug, Clone, PartialEq, Eq)]
pub struct PageLocation {
    pub directory: Vec<u8>,
    pub file_name: Vec<u8>,
}

/// What a [`PageLocation`] holds, as a mathematical value.
pub struct LocationView {
    pub directory: Seq<u8>,
    pub file_name: Seq<u8>,
}

impl View for PageLocation {
    type V = LocationView;

    open spec fn view(&self) -> LocationView {
        LocationView { directory: self.directory@, file_name: self.file_name@ }
    }
}

/// The views of a listing.
pub open spec fn locations_view(files: Seq<PageLocation>) -> Seq<LocationView> {
    Seq::new(files.len(), |i: int| files[i]@)
}

/// The name of the subdirectory with the pages that all platforms share.
pub open spec fn common_directory() -> Seq<u8> {
    "common".spec_bytes()
}

/// Whether the extension of `name` begins at `i`: there is the last dot of the
/// name, and it is not the first byte.
pub open spec fn is_stem_end(name: Seq<u8>, i: int) -> bool {
    &&& 0 < i < name.len()
    &&& name[i] == DOT
    &&& forall|j: int| i < j < name.len() ==> name[j] != DOT
}

/// The length of `name` without its extension.
pub open spec fn stem_len(name: Seq<u8>) -> int {
    if exists|i: int| is_stem_end(name, i) {
        choose|i: int| is_stem_end(name, i)
    } else {
        name.len() as int
    }
}

/// The name of the page in the file `name`: the file name without its
/// extension.
pub open spec fn stem(name: Seq<u8>) -> Seq<u8> {
    name.subrange(0, stem_len(name))
}

/// Whether `file` lies in `directory` and holds the page of `command`. Names
/// are compared byte by byte, and the extension of the file does not count.
pub open spec fn names_page(file: LocationView, directory: Seq<u8>, command: Seq<u8>) -> bool {
    file.directory == directory && stem(file.file_name) == command
}

/// Whether `directory` holds a page of `command`.
pub open spec fn holds_page(files: Seq<LocationView>, directory: Seq<u8>, command: Seq<u8>) -> bool {
    exists|i: int| 0 <= i < files.len() && names_page(#[trigger] files[i], directory, command)
}

/// Whether the file at `i` is the page of `command` in `directory`: of the
/// files there that hold the page, it is the one whose name comes first in the
/// dictionary.
pub open spec fn best_in(
    files: Seq<LocationView>,
    directory: Seq<u8>,
    command: Seq<u8>,
    i: int,
) -> bool {
    &&& 0 <= i < files.len()
    &&& names_page(files[i], directory, command)
    &&& forall|j: int|
        0 <= j < files.len() && names_page(#[trigger] files[j], directory, command) ==> !lex_lt(
            files[j].file_name,
            files[i].file_name,
        )
}

/// The subdirectory that the page of `command` is taken from: that of the
/// platform if it holds the page, else the common one if that holds it.
pub open spec fn page_directory(
    files: Seq<LocationView>,
    command: Seq<u8>,
    platform: PlatformKind,
) -> Option<Seq<u8>> {
    if platform.subdirectory_spec() is Some && holds_page(
        files,
        platform.subdirectory_spec()->Some_0,
        command,
    ) {
        platform.subdirectory_spec()
    } else if holds_page(files, common_directory(), command) {
        Some(common_directory())
    } else {
        None
    }
}

/// Whether each name comes before all the names after it.
pub open spec fn strictly_sorted(names: Seq<Seq<u8>>) -> bool {
    forall|i: int, j: int| 0 <= i < j < names.len() ==> lex_lt(#[trigger] names[i], #[trigger] names[j])
}

/// Whether some file of the listing holds a page of the name `name`.
pub open spec fn is_page_name(files: Seq<LocationView>, name: Seq<u8>) -> bool {
    exists|i: int| 0 <= i < files.len() && stem((#[trigger] files[i]).file_name) == name
}

impl LocationView {
    /// The path of the file as seen from the root of the cache.
    pub open spec fn relative(self) -> Seq<u8> {
        self.directory + seq![SEPARATOR] + self.file_name
    }

    /// Whether this can be the place of a page: the subdirectory and the file
    /// have names, and neither name holds a separator.
    pub open spec fn is_well_formed(self) -> bool {
        &&& self.directory.len() > 0
        &&& self.file_name.len() > 0
        &&& !self.directory.contains(SEPARATOR)
        &&& !self.file_name.contains(SEPARATOR)
    }
}

/// The path of a file in the cache: the root, a separator, and the path of
/// the file as seen from the root.
pub open spec fn path_spec(root: Seq<u8>, location: LocationView) -> Seq<u8> {
    root + seq![SEPARATOR] + location.relative()
}

/// The view of a location that may be missing.
pub open spec fn location_option_view(location: Option<PageLocation>) -> Option<LocationView> {
    match location {
        Some(l) => Some(l@),
        None => None,
    }
}

/// The place of a page, from the path of its file as seen from the root of the
/// cache: a subdirectory, a separator and a file name. A path of any other
/// shape is not that of a page.
pub open spec fn locate_spec(path: Seq<u8>) -> Option<LocationView> {
    let cut = find_byte(path, SEPARATOR) as int;
    let location = LocationView {
        directory: path.subrange(0, cut),
        file_name: path.subrange(cut + 1, path.len() as int),
    };
    if cut < path.len() && location.is_well_formed() {
        Some(location)
    } else {
        None
    }
}

/// The age of a cache that was last replaced at `modified`, at the time `now`,
/// both in seconds: `None` where there is no cache. A cache from the future is
/// of age zero.
pub open spec fn age_spec(modified: Option<u64>, now: u64) -> Option<u64> {
    match modified {
        None => None,
        Some(m) => if m <= now {
            Some((now - m) as u64)
        } else {
            Some(0)
        },
    }
}

/// The place of a page, from the path of its file as seen from the root of the
/// cache. Files that lie in the root itself, or deeper than in a subdirectory
/// of it, are not pages and have no place.
pub fn locate(path: &[u8]) -> (location: Option<PageLocation>)
    ensures
        location_option_view(location) == locate_spec(path@),
{
    let len = path.len();
    let cut = find_from(path, 0, SEPARATOR);
    proof {
        assert(path@.subrange(0, len as int) == path@);
    }
    if cut >= len || cut == 0 || cut + 1 == len {
        return None;
    }
    let next = find_from(path, cut + 1, SEPARATOR);
    let ghost directory = path@.subrange(0, cut as int);
    let ghost file_name = path@.subrange(cut + 1, len as int);
    proof {
        lemma_find_byte(path@, SEPARATOR);
        lemma_find_byte(file_name, SEPARATOR);
        assert forall|k: int| 0 <= k < directory.len() implies directory[k] != SEPARATOR by {
            assert(directory[k] == path@[k]);
        }
        if next < len {
            assert(file_name[next - cut - 1] == SEPARATOR);
        }
    }
    if next < len {
        return None;
    }
    Some(PageLocation { directory: copy_range(path, 0, cut), file_name: copy_range(path, cut + 1, len) })
}

/// The name of the page of a command of several words: the words with a
/// hyphen between each two.
pub fn command_name(words: &Vec<Vec<u8>>) -> (name: Vec<u8>)
    ensures
        name@ == joined(strings_view(words@), seq![HYPHEN]),
{
    let hyphen: Vec<u8> = vec![HYPHEN];
    assert(hyphen@ =~= seq![HYPHEN]);
    join(words, hyphen.as_slice())
}

/// The length of `name` without its extension.
fn stem_end(name: &[u8]) -> (end: usize)
    ensures
        end == stem_len(name@),
        end <= name.len(),
{
    let mut i: usize = name.len();
    while i > 1 && name[i - 1] != DOT
        invariant
            i <= name.len(),
            forall|j: int| i <= j < name.len() ==> name@[j] != DOT,
        decreases i,
    {
        i -= 1;
    }
    if i > 1 {
        proof {
            assert(is_stem_end(name@, i - 1));
            let c = choose|k: int| is_stem_end(name@, k);
            assert(c == i - 1);
        }
        i - 1
    } else {
        proof {
            assert forall|k: int| !is_stem_end(name@, k) by {
                if is_stem_end(name@, k) {
                    assert(k >= i);
                }
            }
        }
        name.len()
    }
}

/// The name of the page in a file: the file name without its extension.
pub fn page_name(file_name: &[u8]) -> (name: Vec<u8>)
    ensures
        name@ == stem(file_name@),
{
    let end = stem_end(file_name);
    copy_range(file_name, 0, end)
}

/// Whether a file lies in `directory` and holds the page of `command`.
fn is_page_of(file: &PageLocation, directory: &[u8], command: &[u8]) -> (r: bool)
    ensures
        r == names_page(file@, directory@, command@),
{
    if !same_bytes(file.directory.as_slice(), directory) {
        return false;
    }
    let end = stem_end(file.file_name.as_slice());
    same_bytes(slice_subrange(file.file_name.as_slice(), 0, end), command)
}

/// The place in the listing of the page of `command` in `directory`.
fn find_in(files: &Vec<PageLocation>, directory: &[u8], command: &[u8]) -> (r: Option<usize>)
    ensures
        match r {
            Some(i) => best_in(locations_view(files@), directory@, command@, i as int),
            None => !holds_page(locations_view(files@), directory@, command@),
        },
{
    let ghost views = locations_view(files@);
    let mut best: Option<usize> = None;
    let mut i: usize = 0;
    while i < files.len()
        invariant
            i <= files.len(),
            views == locations_view(files@),
            match best {
                Some(b) => b < i && names_page(views[b as int], directory@, command@) && forall|
                    j: int,
                |
                    0 <= j < i && names_page(#[trigger] views[j], directory@, command@) ==> !lex_lt(
                        views[j].file_name,
                        views[b as int].file_name,
                    ),
                None => forall|j: int|
                    0 <= j < i ==> !names_page(#[trigger] views[j], directory@, command@),
            },
        decreases files.len() - i,
    {
        if is_page_of(&files[i], directory, command) {
            match best {
                None => {
                    proof {
                        lemma_lex_irreflexive(views[i as int].file_name);
                    }
                    best = Some(i);
                },
                Some(b) => {
                    let side = compare(files[i].file_name.as_slice(), files[b].file_name.as_slice());
                    if side == Side::Before {
                        proof {
                            lemma_lex_irreflexive(views[i as int].file_name);
                            assert forall|j: int|
                                0 <= j < i && names_page(
                                    #[trigger] views[j],
                                    directory@,
                                    command@,
                                ) implies !lex_lt(
                                views[j].file_name,
                                views[i as int].file_name,
                            ) by {
                                if lex_lt(views[j].file_name, views[i as int].file_name) {
                                    lemma_lex_transitive(
                                        views[j].file_name,
                                        views[i as int].file_name,
                                        views[b as int].file_name,
                                    );
                                }
                            }
                        }
                        best = Some(i);
                    }
                },
            }
        }
        i += 1;
    }
    best
}

/// A copy of a location.
fn copy_location(file: &PageLocation) -> (r: PageLocation)
    ensures
        r@ == file@,
{
    let directory = copy_range(file.directory.as_slice(), 0, file.directory.len());
    let file_name = copy_range(file.file_name.as_slice(), 0, file.file_name.len());
    proof {
        assert(file.directory@.subrange(0, file.directory@.len() as int) == file.directory@);
        assert(file.file_name@.subrange(0, file.file_name@.len() as int) == file.file_name@);
    }
    PageLocation { directory, file_name }
}

/// Finds the page of `command` for `platform` in a listing of the cache.
///
/// The subdirectory of the platform is searched first and the common one
/// after it; the first that holds the page wins. `None` says that neither
/// holds it.
pub fn find_page(files: &Vec<PageLocation>, command: &[u8], platform: PlatformKind) -> (r: Option<
    PageLocation,
>)
    ensures
        match page_directory(locations_view(files@), command@, platform) {
            Some(directory) => r matches Some(found) && exists|i: int|
                best_in(locations_view(files@), directory, command@, i) && locations_view(
                    files@,
                )[i] == found@,
            None => r is None,
        },
{
    match platform.subdirectory() {
        Some(directory) => {
            match find_in(files, directory.as_bytes(), command) {
                Some(i) => {
                    return Some(copy_location(&files[i]));
                },
                None => {},
            }
        },
        None => {},
    }
    match find_in(files, "common".as_bytes(), command) {
        Some(i) => Some(copy_location(&files[i])),
        None => None,
    }
}

/// Putting a name into a sorted sequence where it belongs keeps the sequence
/// sorted and adds that name alone.
proof fn lemma_insert_sorted(names: Seq<Seq<u8>>, at: int, name: Seq<u8>)
    requires
        strictly_sorted(names),
        0 <= at <= names.len(),
        forall|k: int| 0 <= k < at ==> lex_lt(#[trigger] names[k], name),
        at == names.len() || lex_lt(name, names[at]),
    ensures
        strictly_sorted(names.insert(at, name)),
        forall|x: Seq<u8>| names.insert(at, name).contains(x) <==> names.contains(x) || x == name,
{
    let after = names.insert(at, name);
    assert forall|i: int, j: int| 0 <= i < j < after.len() implies lex_lt(
        #[trigger] after[i],
        #[trigger] after[j],
    ) by {
        if j == at {
        } else if i == at {
            if j - 1 > at {
                lemma_lex_transitive(name, names[at], names[j - 1]);
            }
        } else if i < at && at < j {
            if j - 1 > at {
                lemma_lex_transitive(name, names[at], names[j - 1]);
            }
            lemma_lex_transitive(names[i], name, after[j]);
        }
    }
    assert forall|x: Seq<u8>| after.contains(x) <==> names.contains(x) || x == name by {
        if after.contains(x) {
            let k = choose|k: int| 0 <= k < after.len() && after[k] == x;
            if k < at {
                assert(names[k] == x);
            } else if k > at {
                assert(names[k - 1] == x);
            }
        }
        if names.contains(x) {
            let k = choose|k: int| 0 <= k < names.len() && names[k] == x;
            if k < at {
                assert(after[k] == x);
            } else {
                assert(after[k + 1] == x);
            }
        }
        if x == name {
            assert(after[at] == x);
        }
    }
}

/// Puts a name into a sorted list, unless the list has it already.
fn insert_sorted(names: &mut Vec<Vec<u8>>, name: Vec<u8>)
    requires
        strictly_sorted(strings_view(old(names)@)),
    ensures
        strictly_sorted(strings_view(final(names)@)),
        forall|x: Seq<u8>|
            strings_view(final(names)@).contains(x) <==> strings_view(old(names)@).contains(x) || x
                == name@,
{
    let ghost before = strings_view(names@);
    let mut at: usize = 0;
    while at < names.len()
        invariant
            at <= names.len(),
            before == strings_view(names@),
            names@ == old(names)@,
            strictly_sorted(before),
            forall|k: int| 0 <= k < at ==> lex_lt(#[trigger] before[k], name@),
        ensures
            at == names.len() || lex_lt(name@, before[at as int]),
        decreases names.len() - at,
    {
        let side = compare(names[at].as_slice(), name.as_slice());
        if side == Side::Same {
            proof {
                assert(before[at as int] == name@);
                assert(before.contains(name@));
            }
            return ;
        }
        if side == Side::After {
            break ;
        }
        at += 1;
    }
    let ghost added = name@;
    proof {
        assert(before == strings_view(old(names)@));
        lemma_insert_sorted(before, at as int, added);
    }
    names.insert(at, name);
    proof {
        let after = before.insert(at as int, added);
        assert(strings_view(names@) =~= after);
        assert forall|x: Seq<u8>| strings_view(names@).contains(x) <==> before.contains(x) || x
            == added by {
            assert(after.contains(x) <==> before.contains(x) || x == added);
        }
    }
}

/// The names of all the pages in a listing of the cache, each once, in the
/// order of the dictionary.
///
/// Every subdirectory counts: a page that several platforms have, or that has
/// files with several extensions, is named once.
pub fn list_pages(files: &Vec<PageLocation>) -> (names: Vec<Vec<u8>>)
    ensures
        strictly_sorted(strings_view(names@)),
        forall|name: Seq<u8>|
            strings_view(names@).contains(name) <==> is_page_name(locations_view(files@), name),
{
    let ghost views = locations_view(files@);
    let mut names: Vec<Vec<u8>> = Vec::new();
    let mut i: usize = 0;
    while i < files.len()
        invariant
            i <= files.len(),
            views == locations_view(files@),
            strictly_sorted(strings_view(names@)),
            forall|name: Seq<u8>|
                strings_view(names@).contains(name) <==> is_page_name(views.take(i as int), name),
        decreases files.len() - i,
    {
        let ghost before = strings_view(names@);
        let name = page_name(files[i].file_name.as_slice());
        insert_sorted(&mut names, name);
        proof {
            let seen = views.take(i as int);
            let next = views.take(i + 1);
            assert forall|x: Seq<u8>| strings_view(names@).contains(x) <==> is_page_name(
                next,
                x,
            ) by {
                if is_page_name(next, x) {
                    let k = choose|k: int|
                        0 <= k < next.len() && stem((#[trigger] next[k]).file_name) == x;
                    if k < i {
                        assert(stem(seen[k].file_name) == x);
                    }
                }
                if is_page_name(seen, x) {
                    let k = choose|k: int|
                        0 <= k < seen.len() && stem((#[trigger] seen[k]).file_name) == x;
                    assert(stem(next[k].file_name) == x);
                }
                if x == name@ {
                    assert(stem(next[i as int].file_name) == x);
                }
            }
        }
        i += 1;
    }
    proof {
        assert(views.take(files.len() as int) == views);
    }
    names
}

impl PageLocation {
    /// The path of the file below the root of the cache.
    pub fn path(&self, root: &[u8]) -> (path: Vec<u8>)
        ensures
            path@ == path_spec(root@, self@),
    {
        let mut path = copy_range(root, 0, root.len());
        proof {
            assert(root@.subrange(0, root@.len() as int) == root@);
        }
        path.push(SEPARATOR);
        let mut directory = copy_range(self.directory.as_slice(), 0, self.directory.len());
        proof {
            assert(self.directory@.subrange(0, self.directory@.len() as int) == self.directory@);
        }
        path.append(&mut directory);
        path.push(SEPARATOR);
        let mut file_name = copy_range(self.file_name.as_slice(), 0, self.file_name.len());
        proof {
            assert(self.file_name@.subrange(0, self.file_name@.len() as int) == self.file_name@);
        }
        path.append(&mut file_name);
        assert(path@ =~= path_spec(root@, self@));
        path
    }
}

/// What is known of the cache on disk: where its root is, and when the root
/// was last replaced, in seconds since the epoch. Without a root on disk there
/// is no such time.
#[derive(Debug, Clone, PartialEq, Eq)]
pub struct CacheMetadata {
    pub root: Vec<u8>,
    pub modified: Option<u64>,
}

impl CacheMetadata {
    /// The time since the cache was last replaced, in seconds; `None` where
    /// there is no cache.
    pub fn last_update(&self, now: u64) -> (age: Option<u64>)
        ensures
            age == age_spec(self.modified, now),
    {
        match self.modified {
            None => None,
            Some(m) => if m <= now {
                Some(now - m)
            } else {
                Some(0)
            },
        }
    }
}

/// What the age of the cache means for a lookup.
#[derive(Debug, Clone, Copy, PartialEq, Eq, Structural)]
pub enum CacheVerdict {
    /// Go on, and say nothing.
    Usable,
    /// Go on, and tell the user that the cache is more than `days` days old.
    Outdated { days: u64 },
    /// There is no cache: give up.
    Missing,
}

/// What the age of the cache means for a lookup.
pub open spec fn verdict_spec(updating: bool, quiet: bool, age: Option<u64>) -> CacheVerdict {
    if updating {
        CacheVerdict::Usable
    } else {
        match age {
            None => CacheVerdict::Missing,
            Some(a) => if a > MAX_CACHE_AGE && !quiet {
                CacheVerdict::Outdated { days: (MAX_CACHE_AGE / SECONDS_PER_DAY) as u64 }
            } else {
                CacheVerdict::Usable
            },
        }
    }
}

/// Judges the cache before a lookup.
///
/// A run that updates the cache has nothing to check. Otherwise a missing
/// cache ends the run, and a cache older than thirty days is worth a warning,
/// unless the user asked for quiet.
pub fn check_cache(updating: bool, quiet: bool, age: Option<u64>) -> (verdict: CacheVerdict)
    ensures
        verdict == verdict_spec(updating, quiet, age),
{
    if updating {
        return CacheVerdict::Usable;
    }
    match age {
        None => CacheVerdict::Missing,
        Some(a) => if a > MAX_CACHE_AGE && !quiet {
            CacheVerdict::Outdated { days: MAX_CACHE_AGE / SECONDS_PER_DAY }
        } else {
            CacheVerdict::Usable
        },
    }
}

/// The platform comes first. A page that both `linux` and `common` hold, and
/// `osx` does not, is taken from `linux` on Linux and from `common` on OS X.
pub proof fn lemma_platform_before_common(files: Seq<LocationView>, command: Seq<u8>)
    requires
        holds_page(files, "linux".spec_bytes(), command),
        holds_page(files, common_directory(), command),
        !holds_page(files, "osx".spec_bytes(), command),
    ensures
        page_directory(files, command, PlatformKind::Linux) == Some("linux".spec_bytes()),
        page_directory(files, command, PlatformKind::OsX) == Some(common_directory()),
        "linux".spec_bytes() != common_directory(),
{
    reveal_strlit("linux");
    reveal_strlit("common");
    vstd::string::is_ascii_spec_bytes("linux");
    vstd::string::is_ascii_spec_bytes("common");
    assert("linux".spec_bytes().len() == 5);
    assert("common".spec_bytes().len() == 6);
}

/// The order of the listing does not matter, nor does it matter how often a
/// file is listed: two listings of the same files give the same page.
pub proof fn lemma_lookup_ignores_order(
    a: Seq<LocationView>,
    b: Seq<LocationView>,
    command: Seq<u8>,
    platform: PlatformKind,
    i: int,
    j: int,
)
    requires
        forall|f: LocationView| a.contains(f) <==> b.contains(f),
        page_directory(a, command, platform) matches Some(d) && best_in(a, d, command, i),
        page_directory(b, command, platform) matches Some(d) && best_in(b, d, command, j),
    ensures
        page_directory(a, command, platform) == page_directory(b, command, platform),
        a[i] == b[j],
{
    lemma_same_files_same_directory(a, b, command, platform);
    let d = page_directory(a, command, platform)->Some_0;
    assert(b.contains(a[i]));
    let i2 = choose|k: int| 0 <= k < b.len() && b[k] == a[i];
    assert(names_page(b[i2], d, command));
    assert(a.contains(b[j]));
    let j2 = choose|k: int| 0 <= k < a.len() && a[k] == b[j];
    assert(names_page(a[j2], d, command));
    lemma_lex_total(a[i].file_name, b[j].file_name);
}

/// Two listings of the same files take every page from the same subdirectory.
pub proof fn lemma_same_files_same_directory(
    a: Seq<LocationView>,
    b: Seq<LocationView>,
    command: Seq<u8>,
    platform: PlatformKind,
)
    requires
        forall|f: LocationView| a.contains(f) <==> b.contains(f),
    ensures
        page_directory(a, command, platform) == page_directory(b, command, platform),
{
    assert forall|d: Seq<u8>| holds_page(a, d, command) == holds_page(b, d, command) by {
        lemma_holds_in_superset(a, b, d, command);
        lemma_holds_in_superset(b, a, d, command);
    }
}

/// A listing with all the files of another holds the pages that the other
/// holds.
proof fn lemma_holds_in_superset(
    a: Seq<LocationView>,
    b: Seq<LocationView>,
    directory: Seq<u8>,
    command: Seq<u8>,
)
    requires
        forall|f: LocationView| a.contains(f) ==> b.contains(f),
    ensures
        holds_page(a, directory, command) ==> holds_page(b, directory, command),
{
    if holds_page(a, directory, command) {
        let i = choose|i: int| 0 <= i < a.len() && names_page(#[trigger] a[i], directory, command);
        assert(a.contains(a[i]));
        let k = choose|k: int| 0 <= k < b.len() && b[k] == a[i];
        assert(names_page(b[k], directory, command));
    }
}

/// A sorted sequence of names holds no name twice.
pub proof fn lemma_sorted_has_no_duplicates(names: Seq<Seq<u8>>)
    requires
        strictly_sorted(names),
    ensures
        names.no_duplicates(),
{
    assert forall|i: int, j: int| 0 <= i < names.len() && 0 <= j < names.len() && i != j implies names[i]
        != names[j] by {
        if i < j {
            lemma_lex_irreflexive(names[i]);
        } else {
            lemma_lex_irreflexive(names[j]);
        }
    }
}

/// There is one sorted sequence of a given set of names: what `list_pages`
/// returns depends on the names in the listing alone, not on their order and
/// not on how many files bear a name.
pub proof fn lemma_sorted_names_unique(x: Seq<Seq<u8>>, y: Seq<Seq<u8>>)
    requires
        strictly_sorted(x),
        strictly_sorted(y),
        forall|name: Seq<u8>| x.contains(name) <==> y.contains(name),
    ensures
        x == y,
    decreases x.len(),
{
    if x.len() == 0 {
        if y.len() > 0 {
            assert(y.contains(y[0]));
        }
        assert(x =~= y);
    } else {
        assert(x.contains(x[0]));
        let j = choose|j: int| 0 <= j < y.len() && y[j] == x[0];
        assert(y.contains(y[0]));
        let i = choose|i: int| 0 <= i < x.len() && x[i] == y[0];
        if j > 0 {
            if i > 0 {
                lemma_lex_transitive(x[0], x[i], y[j]);
            }
            lemma_lex_irreflexive(x[0]);
        }
        let xt = x.drop_first();
        let yt = y.drop_first();
        assert(strictly_sorted(xt)) by {
            assert forall|p: int, q: int| 0 <= p < q < xt.len() implies lex_lt(
                #[trigger] xt[p],
                #[trigger] xt[q],
            ) by {
                assert(lex_lt(x[p + 1], x[q + 1]));
            }
        }
        assert(strictly_sorted(yt)) by {
            assert forall|p: int, q: int| 0 <= p < q < yt.len() implies lex_lt(
                #[trigger] yt[p],
                #[trigger] yt[q],
            ) by {
                assert(lex_lt(y[p + 1], y[q + 1]));
            }
        }
        assert forall|name: Seq<u8>| xt.contains(name) <==> yt.contains(name) by {
            lemma_tail_holds(x, y, name);
            lemma_tail_holds(y, x, name);
        }
        lemma_sorted_names_unique(xt, yt);
        assert(x =~= seq![x[0]] + xt);
        assert(y =~= seq![y[0]] + yt);
    }
}

/// What the tail of a sorted sequence holds, the tail of another sorted
/// sequence with the same names and the same head holds too.
proof fn lemma_tail_holds(x: Seq<Seq<u8>>, y: Seq<Seq<u8>>, name: Seq<u8>)
    requires
        strictly_sorted(x),
        x.len() > 0,
        y.len() > 0,
        x[0] == y[0],
        forall|n: Seq<u8>| x.contains(n) ==> y.contains(n),
    ensures
        x.drop_first().contains(name) ==> y.drop_first().contains(name),
{
    let xt = x.drop_first();
    let yt = y.drop_first();
    if xt.contains(name) {
        let p = choose|p: int| 0 <= p < xt.len() && xt[p] == name;
        assert(x[p + 1] == name);
        assert(lex_lt(x[0], x[p + 1]));
        lemma_lex_irreflexive(x[0]);
        assert(x.contains(name));
        let q = choose|q: int| 0 <= q < y.len() && y[q] == name;
        assert(q > 0);
        assert(yt[q - 1] == name);
    }
}

/// Without a cache there is no age; with one, the age does not shrink as time
/// goes on.
pub proof fn lemma_age_grows(modified: Option<u64>, earlier: u64, later: u64)
    requires
        earlier <= later,
    ensures
        age_spec(modified, earlier) is None <==> modified is None,
        modified is Some ==> age_spec(modified, earlier)->Some_0 <= age_spec(
            modified,
            later,
        )->Some_0,
        modified matches Some(m) && m <= earlier ==> age_spec(modified, later)->Some_0
            - age_spec(modified, earlier)->Some_0 == later - earlier,
{
}

/// A place and its path tell the same: the path of a place leads back to the
/// place, and a path that leads to a place is the path of that place.
pub proof fn lemma_locate_round_trip(location: LocationView, path: Seq<u8>)
    ensures
        location.is_well_formed() ==> locate_spec(location.relative()) == Some(location),
        locate_spec(path) matches Some(found) ==> found.is_well_formed() && found.relative()
            == path,
{
    if location.is_well_formed() {
        let p = location.relative();
        let n = location.directory.len() as int;
        assert forall|i: int| 0 <= i < n implies p[i] != SEPARATOR by {
            assert(p[i] == location.directory[i]);
            assert(location.directory.contains(location.directory[i]));
        }
        assert(p[n] == SEPARATOR);
        lemma_find_byte_is(p, SEPARATOR, n);
        assert(p.subrange(0, n) =~= location.directory);
        assert(p.subrange(n + 1, p.len() as int) =~= location.file_name);
    }
    if let Some(found) = locate_spec(path) {
        lemma_find_byte(path, SEPARATOR);
        assert(found.relative() =~= path);
    }
}

} // verus!
