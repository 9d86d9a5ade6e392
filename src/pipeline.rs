//! The decisions of a run: which entries are uploaded and under what name,
//! how many uploads are in flight, whether each upload delivered its declared
//! size, and whether every declared file turned up.
use crate::format::{format_of, get_format, stored_name, stored_name_of, DecompressionFormat};
use crate::manifest::{declares, lemma_lookup_declared, lookup, Config};
use vstd::prelude::*;

verus! {

/// Why a run fails.
#[derive(Debug, Clone, PartialEq, Eq)]
pub enum ProcessError {
    /// An entry's stream holds a code that cannot be decoded.
    MalformedStream { name: String },
    /// An upload delivered another number of bytes than declared.
    SizeMismatch { name: String, expected: u64, actual: u64 },
    /// A declared file never appeared in the archive.
    MissingInArchive { name: String },
}

/// What to do with one archive entry.
#[derive(Debug, Clone, PartialEq, Eq)]
pub enum EntryPlan {
    /// Not declared: leave it out, without an error.
    Skip,
    /// Decode with `format` and store under `target_name`, expecting
    /// `expected_size` bytes.
    Upload { target_name: String, expected_size: u64, format: DecompressionFormat },
}

/// The names of the files seen so far, as character sequences.
pub open spec fn names_of(v: Seq<String>) -> Seq<Seq<char>> {
    v.map_values(|s: String| s@)
}

/// What a run has observed while walking the archive.
pub struct RunState {
    pub seen: Vec<String>,
}

impl RunState {
    pub open spec fn seen_names(&self) -> Seq<Seq<char>> {
        names_of(self.seen@)
    }

    pub fn new() -> (r: RunState)
        ensures
            r.seen@.len() == 0,
    {
        RunState { seen: Vec::new() }
    }

    /// Decides on the entry at `path`: looked up under its stored name, it is
    /// skipped when undeclared, and otherwise marked seen and planned for upload.
    pub fn plan_entry(&mut self, config: &Config, path: &str) -> (r: EntryPlan)
        ensures
            r is Skip <==> !declares(config.entries@, stored_name_of(path@)),
            ({
                let name = stored_name_of(path@);
                match lookup(config.entries@, name) {
                    None => r is Skip && final(self).seen@ == old(self).seen@,
                    Some(size) => match r {
                        EntryPlan::Upload { target_name, expected_size, format } => {
                            &&& target_name@ == name
                            &&& expected_size == size
                            &&& format == format_of(path@)
                            &&& final(self).seen_names() == old(self).seen_names().push(name)
                        },
                        EntryPlan::Skip => false,
                    },
                }
            }),
    {
        let name = stored_name(path);
        proof {
            lemma_lookup_declared(config.entries@, name@);
        }
        match config.get_expected_size(name.as_str()) {
            None => EntryPlan::Skip,
            Some(size) => {
                let target = name.clone();
                self.seen.push(name);
                proof {
                    assert(final(self).seen_names() =~= old(self).seen_names().push(target@));
                }
                EntryPlan::Upload { target_name: target, expected_size: size, format: get_format(path) }
            },
        }
    }

    /// After the archive is walked: every declared file must have been seen;
    /// otherwise the first one missing, in manifest order, is reported.
    pub fn check_all_present(&self, config: &Config) -> (r: Result<(), ProcessError>)
        ensures
            r is Ok <==> forall|i: int|
                0 <= i < config.entries@.len() ==> self.seen_names().contains(
                    #[trigger] config.entries@[i].filename@,
                ),
            r matches Err(e) ==> (e matches ProcessError::MissingInArchive { name } && declares(
                config.entries@,
                name@,
            ) && !self.seen_names().contains(name@)),
    {
        let mut i: usize = 0;
        while i < config.entries.len()
            invariant
                i <= config.entries@.len(),
                forall|k: int| 0 <= k < i ==> self.seen_names().contains(#[trigger] config.entries@[k].filename@),
            decreases config.entries@.len() - i,
        {
            let name = &config.entries[i].filename;
            let mut found = false;
            let mut j: usize = 0;
            while j < self.seen.len()
                invariant
                    j <= self.seen@.len(),
                    found == exists|k: int| 0 <= k < j && self.seen@[k]@ == name@,
                decreases self.seen@.len() - j,
            {
                if self.seen[j] == *name {
                    found = true;
                }
                j = j + 1;
            }
            if !found {
                proof {
                    if self.seen_names().contains(name@) {
                        let k = choose|k: int| 0 <= k < self.seen_names().len() && self.seen_names()[k] == name@;
                        assert(self.seen@[k]@ == name@);
                    }
                }
                return Err(ProcessError::MissingInArchive { name: name.clone() });
            }
            proof {
                let k = choose|k: int| 0 <= k < j && self.seen@[k]@ == name@;
                assert(self.seen_names()[k] == name@);
            }
            i = i + 1;
        }
        Ok(())
    }
}

/// The byte count of one upload, checked against its declared size.
pub struct UploadTally {
    pub expected: u64,
    pub written: u64,
    /// More than `u64::MAX` bytes have been counted.
    pub overflowed: bool,
}

impl UploadTally {
    pub fn new(expected: u64) -> (r: UploadTally)
        ensures
            r.expected == expected,
            r.written == 0,
            !r.overflowed,
    {
        UploadTally { expected, written: 0, overflowed: false }
    }

    /// Counts a chunk of `n` bytes.
    pub fn record(&mut self, n: usize)
        ensures
            final(self).expected == old(self).expected,
            old(self).written + n <= u64::MAX ==> final(self).written == old(self).written + n
                && final(self).overflowed == old(self).overflowed,
            old(self).written + n > u64::MAX ==> final(self).overflowed,
    {
        if (n as u64) as usize == n && self.written <= u64::MAX - (n as u64) {
            self.written = self.written + n as u64;
        } else {
            self.overflowed = true;
        }
    }

    /// Success exactly when the count equals the declared size; any other
    /// count, off by even one byte, is a size mismatch for `name`.
    pub fn finish(&self, name: &str) -> (r: Result<(), ProcessError>)
        ensures
            r is Ok <==> (!self.overflowed && self.written == self.expected),
            r matches Err(e) ==> (e matches ProcessError::SizeMismatch { name: n, expected, actual }
                && n@ == name@ && expected == self.expected && (self.overflowed || actual
                == self.written)),
    {
        if !self.overflowed && self.written == self.expected {
            Ok(())
        } else {
            let actual = if self.overflowed { u64::MAX } else { self.written };
            Err(ProcessError::SizeMismatch { name: name.to_owned(), expected: self.expected, actual })
        }
    }
}

/// The in-flight uploads, oldest first, bounded by `cap`.
pub struct Throttle {
    pub cap: usize,
    pub pending: Vec<u64>,
}

/// What enqueueing `id` does to the queue `q` under bound `cap`: it joins the
/// end, and once the queue holds `cap` tasks the oldest leaves to be awaited.
pub open spec fn enqueue_step(q: Seq<u64>, cap: nat, id: u64) -> (Seq<u64>, Option<u64>) {
    let q2 = q.push(id);
    if q2.len() >= cap {
        (q2.drop_first(), Some(q2[0]))
    } else {
        (q2, None)
    }
}

/// The most tasks in flight at any instant while enqueueing `ids` in turn.
pub open spec fn peak_in_flight(q: Seq<u64>, cap: nat, ids: Seq<u64>) -> nat
    decreases ids.len(),
{
    if ids.len() == 0 {
        q.len()
    } else {
        let now = q.len() + 1;
        let later = peak_in_flight(enqueue_step(q, cap, ids[0]).0, cap, ids.drop_first());
        if now >= later {
            now
        } else {
            later
        }
    }
}

/// However many tasks are enqueued, no more than `cap` are ever in flight.
pub proof fn lemma_in_flight_bounded(q: Seq<u64>, cap: nat, ids: Seq<u64>)
    requires
        1 <= cap,
        q.len() < cap,
    ensures
        peak_in_flight(q, cap, ids) <= cap,
    decreases ids.len(),
{
    if ids.len() > 0 {
        lemma_in_flight_bounded(enqueue_step(q, cap, ids[0]).0, cap, ids.drop_first());
    }
}

impl Throttle {
    pub open spec fn wf(&self) -> bool {
        1 <= self.cap && self.pending@.len() < self.cap
    }

    pub fn new(cap: usize) -> (r: Throttle)
        requires
            1 <= cap,
        ensures
            r.wf(),
            r.cap == cap,
            r.pending@.len() == 0,
    {
        Throttle { cap, pending: Vec::new() }
    }

    /// Enqueues task `id`; returns the oldest task, to be awaited before going
    /// on, once `cap` are in flight.
    pub fn enqueue(&mut self, id: u64) -> (r: Option<u64>)
        requires
            old(self).wf(),
        ensures
            final(self).wf(),
            final(self).cap == old(self).cap,
            old(self).pending@.len() + 1 <= old(self).cap,
            (final(self).pending@, r) == enqueue_step(old(self).pending@, old(self).cap as nat, id),
    {
        self.pending.push(id);
        if self.pending.len() >= self.cap {
            let oldest = self.pending.remove(0);
            assert(self.pending@ =~= old(self).pending@.push(id).drop_first());
            Some(oldest)
        } else {
            None
        }
    }

    /// Takes the oldest task still in flight, for the final join.
    pub fn pop_oldest(&mut self) -> (r: Option<u64>)
        requires
            old(self).wf(),
        ensures
            final(self).wf(),
            final(self).cap == old(self).cap,
            old(self).pending@.len() == 0 ==> r is None && final(self).pending@ == old(self).pending@,
            old(self).pending@.len() > 0 ==> r == Some(old(self).pending@[0])
                && final(self).pending@ == old(self).pending@.drop_first(),
    {
        if self.pending.len() == 0 {
            None
        } else {
            let oldest = self.pending.remove(0);
            assert(self.pending@ =~= old(self).pending@.drop_first());
            Some(oldest)
        }
    }
}

} // verus!
