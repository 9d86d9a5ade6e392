//! The declared files of a run and their sizes.
use vstd::prelude::*;

verus! {

/// One declared file: its stored name and its size once decompressed.
#[derive(Debug, Clone, PartialEq, Eq)]
pub struct FileEntry {
    pub filename: String,
    pub filesize: u64,
}

/// The declared files, in document order.
#[derive(Debug, Clone, PartialEq, Eq)]
pub struct Manifest {
    pub file: Vec<FileEntry>,
}

/// The size declared for `name`. A name declared twice takes its later size.
pub open spec fn lookup(entries: Seq<FileEntry>, name: Seq<char>) -> Option<u64>
    decreases entries.len(),
{
    if entries.len() == 0 {
        None
    } else if entries.last().filename@ == name {
        Some(entries.last().filesize)
    } else {
        lookup(entries.drop_last(), name)
    }
}

/// Whether `name` is declared at all.
pub open spec fn declares(entries: Seq<FileEntry>, name: Seq<char>) -> bool {
    exists|i: int| 0 <= i < entries.len() && entries[i].filename@ == name
}

/// A name has a size exactly when it is declared.
pub proof fn lemma_lookup_declared(entries: Seq<FileEntry>, name: Seq<char>)
    ensures
        lookup(entries, name) is Some <==> declares(entries, name),
    decreases entries.len(),
{
    if entries.len() > 0 {
        lemma_lookup_declared(entries.drop_last(), name);
        if declares(entries, name) && entries.last().filename@ != name {
            let i = choose|i: int| 0 <= i < entries.len() && entries[i].filename@ == name;
            assert(entries.drop_last()[i].filename@ == name);
        }
        if declares(entries.drop_last(), name) {
            let i = choose|i: int|
                0 <= i < entries.drop_last().len() && entries.drop_last()[i].filename@ == name;
            assert(entries[i].filename@ == name);
        }
    }
}

/// The manifest of a run, read-only once loaded.
pub struct Config {
    pub entries: Vec<FileEntry>,
}

impl Config {
    /// The run's configuration from a parsed manifest.
    pub fn from_manifest(manifest: Manifest) -> (r: Config)
        ensures
            r.entries@ == manifest.file@,
    {
        Config { entries: manifest.file }
    }

    /// The declared size of `filename`, if it is declared.
    pub fn get_expected_size(&self, filename: &str) -> (r: Option<u64>)
        ensures
            r == lookup(self.entries@, filename@),
    {
        let key = filename.to_owned();
        let mut i: usize = self.entries.len();
        assert(self.entries@.subrange(0, i as int) =~= self.entries@);
        while i > 0
            invariant
                i <= self.entries@.len(),
                key@ == filename@,
                lookup(self.entries@, filename@) == lookup(self.entries@.subrange(0, i as int), filename@),
            decreases i,
        {
            let ghost pre = self.entries@.subrange(0, i as int);
            assert(pre.drop_last() =~= self.entries@.subrange(0, i - 1));
            if self.entries[i - 1].filename == key {
                return Some(self.entries[i - 1].filesize);
            }
            i = i - 1;
        }
        None
    }
}

} // verus!
