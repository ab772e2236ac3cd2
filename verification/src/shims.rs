//! The missing-shim detector, and the advisory that is built on it.
//!
//! A command is missing a shim when it is an executable file in a directory
//! that the activation file adds to the search path, and no shim of its
//! name exists. The file system is read elsewhere; the detector works on
//! what was found there.

use vstd::prelude::*;
use vstd::slice::slice_to_vec;
use crate::bytes::{bytes_equal, views};
use crate::dispatch::PathEntry;
use crate::names::NameSet;

verus! {

/// One entry of a directory, as far as the detector reads it.
#[derive(Debug, Clone, PartialEq, Eq)]
pub struct DirEntryInfo {
    /// The name of the entry, where it is valid text.
    pub file_name: Option<Vec<u8>>,
    /// Whether the entry is a directory.
    pub is_dir: bool,
    /// The permission bits of the entry.
    pub mode: u32,
    /// Whether a shim of this name exists.
    pub has_shim: bool,
}

/// The permission bits that let the owner, the group or others execute.
pub const EXECUTABLE_BITS: u32 = 0o111;

/// Whether the permission bits let anyone execute the file.
pub open spec fn is_executable(mode: u32) -> bool {
    mode & EXECUTABLE_BITS != 0
}

/// Whether an entry is a command without a shim: an executable that is no
/// directory (directories carry the executable bit too), with a name, for
/// which no shim exists.
pub open spec fn wants_shim(entry: DirEntryInfo) -> bool {
    !entry.is_dir && is_executable(entry.mode) && entry.file_name is Some && !entry.has_shim
}

/// Whether entry `i` of a directory reports `name` as missing a shim.
pub open spec fn reports(entries: Seq<DirEntryInfo>, i: int, name: Seq<u8>) -> bool {
    0 <= i < entries.len() && wants_shim(entries[i]) && entries[i].file_name->Some_0@ == name
}

/// The commands of one directory that are missing a shim.
pub open spec fn spec_missing_in_dir(entries: Seq<DirEntryInfo>) -> Set<Seq<u8>> {
    Set::new(|name: Seq<u8>| exists|i: int| reports(entries, i, name))
}

/// Whether directory `d` of a list reports `name` as missing a shim.
pub open spec fn dir_reports(listings: Seq<Vec<DirEntryInfo>>, d: int, name: Seq<u8>) -> bool {
    0 <= d < listings.len() && spec_missing_in_dir(listings[d]@).contains(name)
}

/// The commands of a list of directories that are missing a shim.
pub open spec fn spec_missing_shims(listings: Seq<Vec<DirEntryInfo>>) -> Set<Seq<u8>> {
    Set::new(|name: Seq<u8>| exists|d: int| dir_reports(listings, d, name))
}

proof fn lemma_missing_in_dir_step(entries: Seq<DirEntryInfo>, k: int)
    requires
        0 <= k < entries.len(),
    ensures
        spec_missing_in_dir(entries.take(k + 1)) == if wants_shim(entries[k]) {
            spec_missing_in_dir(entries.take(k)).insert(entries[k].file_name->Some_0@)
        } else {
            spec_missing_in_dir(entries.take(k))
        },
{
    let more = entries.take(k + 1);
    let less = entries.take(k);
    let expected = if wants_shim(entries[k]) {
        spec_missing_in_dir(less).insert(entries[k].file_name->Some_0@)
    } else {
        spec_missing_in_dir(less)
    };
    assert forall|name: Seq<u8>| spec_missing_in_dir(more).contains(name) <==> expected.contains(
        name,
    ) by {
        if spec_missing_in_dir(more).contains(name) {
            let i = choose|i: int| reports(more, i, name);
            if i < k {
                assert(reports(less, i, name));
            }
        }
        if expected.contains(name) {
            if spec_missing_in_dir(less).contains(name) {
                let i = choose|i: int| reports(less, i, name);
                assert(reports(more, i, name));
            } else {
                assert(reports(more, k, name));
            }
        }
    }
    assert(spec_missing_in_dir(more) =~= expected);
}

proof fn lemma_missing_shims_step(listings: Seq<Vec<DirEntryInfo>>, k: int)
    requires
        0 <= k < listings.len(),
    ensures
        spec_missing_shims(listings.take(k + 1)) == spec_missing_shims(listings.take(k)).union(
            spec_missing_in_dir(listings[k]@),
        ),
{
    let more = listings.take(k + 1);
    let less = listings.take(k);
    let expected = spec_missing_shims(less).union(spec_missing_in_dir(listings[k]@));
    assert forall|name: Seq<u8>| spec_missing_shims(more).contains(name) <==> expected.contains(
        name,
    ) by {
        if spec_missing_shims(more).contains(name) {
            let d = choose|d: int| dir_reports(more, d, name);
            if d < k {
                assert(dir_reports(less, d, name));
            }
        }
        if expected.contains(name) {
            if spec_missing_shims(less).contains(name) {
                let d = choose|d: int| dir_reports(less, d, name);
                assert(dir_reports(more, d, name));
            } else {
                assert(dir_reports(more, k, name));
            }
        }
    }
    assert(spec_missing_shims(more) =~= expected);
}

/// Adds to `rv` the commands of one directory that are missing a shim.
pub fn get_missing_shims_from_dir(entries: &Vec<DirEntryInfo>, rv: &mut NameSet)
    requires
        old(rv).wf(),
    ensures
        final(rv).wf(),
        final(rv)@ == old(rv)@.union(spec_missing_in_dir(entries@)),
{
    let mut k: usize = 0;
    proof {
        assert(spec_missing_in_dir(entries@.take(0)) =~= Set::<Seq<u8>>::empty());
        assert(rv@ =~= old(rv)@.union(spec_missing_in_dir(entries@.take(0))));
    }
    while k < entries.len()
        invariant
            k <= entries@.len(),
            rv.wf(),
            rv@ == old(rv)@.union(spec_missing_in_dir(entries@.take(k as int))),
        decreases entries@.len() - k,
    {
        proof {
            lemma_missing_in_dir_step(entries@, k as int);
        }
        let entry = &entries[k];
        if !entry.is_dir && entry.mode & EXECUTABLE_BITS != 0 && !entry.has_shim {
            match &entry.file_name {
                Some(name) => {
                    rv.insert(slice_to_vec(name.as_slice()));
                },
                None => {},
            }
        }
        assert(rv@ =~= old(rv)@.union(spec_missing_in_dir(entries@.take(k + 1))));
        k += 1;
    }
    assert(entries@.take(k as int) =~= entries@);
}

/// The commands that are missing a shim, given what each directory that
/// is new on the search path holds. A directory that could not be read, or
/// not to its end, comes with the entries that were read.
pub fn get_missing_shims(listings: &Vec<Vec<DirEntryInfo>>) -> (rv: NameSet)
    ensures
        rv.wf(),
        rv@ == spec_missing_shims(listings@),
{
    let mut rv = NameSet::new();
    let mut k: usize = 0;
    proof {
        assert(spec_missing_shims(listings@.take(0)) =~= Set::<Seq<u8>>::empty());
    }
    while k < listings.len()
        invariant
            k <= listings@.len(),
            rv.wf(),
            rv@ == spec_missing_shims(listings@.take(k as int)),
        decreases listings@.len() - k,
    {
        proof {
            lemma_missing_shims_step(listings@, k as int);
        }
        get_missing_shims_from_dir(&listings[k], &mut rv);
        k += 1;
    }
    assert(listings@.take(k as int) =~= listings@);
    rv
}

/// The directory that an entry of a search path stands for: the entry with
/// symbolic links resolved, or as spelled where that failed.
pub open spec fn spec_resolved_dir(entry: PathEntry) -> Seq<u8> {
    match entry.canonical {
        Some(resolved) => resolved@,
        None => entry.raw@,
    }
}

/// The directories that the entries of a search path stand for.
pub open spec fn spec_resolved_dirs(entries: Seq<PathEntry>) -> Seq<Seq<u8>> {
    Seq::new(entries.len(), |i: int| spec_resolved_dir(entries[i]))
}

/// The directories of a search path in the form in which they are
/// compared, so that two spellings of one directory count as the same.
pub fn resolved_dirs(entries: &Vec<PathEntry>) -> (dirs: Vec<Vec<u8>>)
    ensures
        views(dirs@) == spec_resolved_dirs(entries@),
{
    let mut dirs: Vec<Vec<u8>> = Vec::new();
    let mut i: usize = 0;
    while i < entries.len()
        invariant
            i <= entries@.len(),
            dirs@.len() == i,
            forall|j: int| 0 <= j < i ==> (#[trigger] dirs@[j])@ == spec_resolved_dir(entries@[j]),
        decreases entries@.len() - i,
    {
        let dir = match &entries[i].canonical {
            Some(resolved) => slice_to_vec(resolved.as_slice()),
            None => slice_to_vec(entries[i].raw.as_slice()),
        };
        dirs.push(dir);
        i += 1;
    }
    assert(views(dirs@) =~= spec_resolved_dirs(entries@));
    dirs
}

/// Whether `list` holds `item`.
pub fn list_contains(list: &Vec<Vec<u8>>, item: &[u8]) -> (found: bool)
    ensures
        found == views(list@).contains(item@),
{
    let mut i: usize = 0;
    while i < list.len()
        invariant
            i <= list@.len(),
            forall|j: int| 0 <= j < i ==> views(list@)[j] != item@,
        decreases list@.len() - i,
    {
        if bytes_equal(list[i].as_slice(), item) {
            assert(views(list@)[i as int] == item@);
            return true;
        }
        i += 1;
    }
    false
}

/// The directories of the new search path that the ambient one lacks, in
/// the order of the new search path.
pub open spec fn spec_new_directories(old_dirs: Seq<Seq<u8>>, new_dirs: Seq<Seq<u8>>) -> Seq<
    Seq<u8>,
> {
    new_dirs.filter(|dir: Seq<u8>| !old_dirs.contains(dir))
}

/// Picks the directories that only the new search path holds. Both lists
/// hold directories in the form in which they are compared.
pub fn new_path_directories(old_dirs: &Vec<Vec<u8>>, new_dirs: &Vec<Vec<u8>>) -> (added: Vec<
    Vec<u8>,
>)
    ensures
        views(added@) == spec_new_directories(views(old_dirs@), views(new_dirs@)),
{
    let mut added: Vec<Vec<u8>> = Vec::new();
    let mut i: usize = 0;
    let ghost is_new = |dir: Seq<u8>| !views(old_dirs@).contains(dir);
    proof {
        reveal(Seq::filter);
        assert(views(new_dirs@).take(0) =~= Seq::<Seq<u8>>::empty());
        assert(views(added@) =~= views(new_dirs@).take(0).filter(is_new));
    }
    while i < new_dirs.len()
        invariant
            i <= new_dirs@.len(),
            is_new == |dir: Seq<u8>| !views(old_dirs@).contains(dir),
            views(added@) == views(new_dirs@).take(i as int).filter(is_new),
        decreases new_dirs@.len() - i,
    {
        let ghost all = views(new_dirs@);
        let ghost before = views(added@);
        proof {
            reveal(Seq::filter);
            assert(all.take(i + 1).drop_last() =~= all.take(i as int));
            assert(all.take(i + 1).last() == new_dirs@[i as int]@);
        }
        if !list_contains(old_dirs, new_dirs[i].as_slice()) {
            added.push(slice_to_vec(new_dirs[i].as_slice()));
            assert(views(added@) =~= before.push(new_dirs@[i as int]@));
        }
        i += 1;
    }
    assert(views(new_dirs@).take(i as int) =~= views(new_dirs@));
    added
}

/// The detector on one new directory.
///
/// Let the ambient search path hold one directory and the new one hold it
/// and a second directory; let the second hold an executable file and a
/// file that is not executable. Then the second directory is the only one
/// searched, and the executable is the only command reported, and it is
/// reported exactly if no shim of its name exists.
pub proof fn lemma_detector_reports_the_executable(
    ambient: Seq<u8>,
    added: Seq<u8>,
    executable: DirEntryInfo,
    plain: DirEntryInfo,
)
    requires
        ambient != added,
        !executable.is_dir,
        is_executable(executable.mode),
        executable.file_name is Some,
        !is_executable(plain.mode),
    ensures
        spec_new_directories(seq![ambient], seq![ambient, added]) == seq![added],
        spec_missing_in_dir(seq![executable, plain]) == if executable.has_shim {
            Set::<Seq<u8>>::empty()
        } else {
            set![executable.file_name->Some_0@]
        },
{
    let old_dirs = seq![ambient];
    let new_dirs = seq![ambient, added];
    let is_new = |dir: Seq<u8>| !old_dirs.contains(dir);
    assert(old_dirs.contains(ambient)) by {
        assert(old_dirs[0] == ambient);
    }
    assert(!old_dirs.contains(added));
    assert(new_dirs.filter(is_new) =~= seq![added]) by {
        reveal_with_fuel(Seq::filter, 3);
        assert(new_dirs.drop_last() =~= seq![ambient]);
        assert(new_dirs.drop_last().drop_last() =~= Seq::<Seq<u8>>::empty());
    }
    let entries = seq![executable, plain];
    let expected = if executable.has_shim {
        Set::<Seq<u8>>::empty()
    } else {
        set![executable.file_name->Some_0@]
    };
    assert forall|name: Seq<u8>| spec_missing_in_dir(entries).contains(name) <==> expected.contains(
        name,
    ) by {
        if spec_missing_in_dir(entries).contains(name) {
            let i = choose|i: int| reports(entries, i, name);
            assert(i == 0);
        }
        if expected.contains(name) {
            assert(reports(entries, 0, name));
        }
    }
    assert(spec_missing_in_dir(entries) =~= expected);
}

/// What the advisory tells the user.
#[derive(Clone, Copy, Debug, PartialEq, Eq, Structural)]
pub struct UnshimmedCommands {
    /// The number of commands that are missing a shim.
    pub total: usize,
    /// How many of them were not missing when the snapshot was taken.
    pub new: usize,
}

/// The advisory on commands without a shim.
#[derive(Debug)]
pub enum CheckUnshimmedCommands {
    /// The advisory is given. It remembers the commands that were missing a
    /// shim when the snapshot was taken, so that they are not told as new.
    Enabled { old_missing_shims: NameSet },
    /// The user has silenced the advisory.
    Disabled,
}

impl CheckUnshimmedCommands {
    /// The invariant of the type.
    pub open spec fn wf(&self) -> bool {
        self matches CheckUnshimmedCommands::Enabled { old_missing_shims }
            ==> old_missing_shims.wf()
    }

    /// The commands that the snapshot holds.
    pub open spec fn known(&self) -> Set<Seq<u8>> {
        match self {
            CheckUnshimmedCommands::Enabled { old_missing_shims } => old_missing_shims@,
            CheckUnshimmedCommands::Disabled => Set::empty(),
        }
    }

    /// Starts the advisory, unless it is silenced. The snapshot is empty.
    pub fn new(silenced: bool) -> (check: CheckUnshimmedCommands)
        ensures
            check.wf(),
            check is Disabled <==> silenced,
            check.known() == Set::<Seq<u8>>::empty(),
    {
        if silenced {
            CheckUnshimmedCommands::Disabled
        } else {
            CheckUnshimmedCommands::Enabled { old_missing_shims: NameSet::new() }
        }
    }

    /// Whether the advisory is given at all.
    pub fn is_enabled(&self) -> (enabled: bool)
        ensures
            enabled == (self is Enabled),
    {
        match self {
            CheckUnshimmedCommands::Enabled { .. } => true,
            CheckUnshimmedCommands::Disabled => false,
        }
    }

    /// Takes the snapshot: the commands that are missing a shim now will
    /// not be told as new. `None` stands for a context without a cached
    /// diff, which leaves the snapshot as it is.
    pub fn exclude_current(&mut self, missing_shims: Option<NameSet>)
        requires
            old(self).wf(),
            missing_shims matches Some(set) ==> set.wf(),
        ensures
            final(self).wf(),
            (*final(self) is Enabled) <==> (*old(self) is Enabled),
            final(self).known() == match missing_shims {
                Some(set) if *old(self) is Enabled => set@,
                _ => old(self).known(),
            },
    {
        match missing_shims {
            Some(set) => {
                if self.is_enabled() {
                    *self = CheckUnshimmedCommands::Enabled { old_missing_shims: set };
                }
            },
            None => {},
        }
    }

    /// What the advisory has to tell, if anything, given the commands
    /// that are missing a shim now.
    pub open spec fn spec_report(&self, missing_shims: Option<Set<Seq<u8>>>, only_if_new: bool) -> Option<
        UnshimmedCommands,
    > {
        match missing_shims {
            Some(missing) if self is Enabled => {
                let total = missing.len();
                let new = missing.difference(self.known()).len();
                if (total > 0 && !only_if_new) || (new > 0 && only_if_new) {
                    Some(UnshimmedCommands { total: total as usize, new: new as usize })
                } else {
                    None
                }
            },
            _ => None,
        }
    }

    /// Decides whether to warn the user of commands without a shim.
    ///
    /// With `only_if_new` the warning is given only for commands that the
    /// snapshot does not hold; without it, whenever any command is missing a
    /// shim. `None` for `missing_shims` stands for a context without a cached
    /// diff, of which nothing is told.
    pub fn check_unshimmed_commands(self, missing_shims: Option<NameSet>, only_if_new: bool) -> (report:
        Option<UnshimmedCommands>)
        requires
            self.wf(),
            missing_shims matches Some(set) ==> set.wf(),
        ensures
            report == self.spec_report(
                match missing_shims {
                    Some(set) => Some(set@),
                    None => None,
                },
                only_if_new,
            ),
    {
        match self {
            CheckUnshimmedCommands::Enabled { old_missing_shims } => {
                match missing_shims {
                    Some(missing) => {
                        let total = missing.len();
                        let new = missing.difference(&old_missing_shims).len();
                        if (total > 0 && !only_if_new) || (new > 0 && only_if_new) {
                            Some(UnshimmedCommands { total, new })
                        } else {
                            None
                        }
                    },
                    None => None,
                }
            },
            CheckUnshimmedCommands::Disabled => None,
        }
    }
}

} // verus!
