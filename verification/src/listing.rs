//! What the node shows of files: the files found by a search and the files it offers.
use vstd::prelude::*;
use crate::file_handler::{FileDivider, FileInfo};
use crate::table::Table;

verus! {

/// One file as shown to the user.
#[derive(Debug)]
pub struct AvailableFiles {
    pub name: String,
    pub chunks: usize,
    pub file_hash: String,
    pub file_size: usize,
    pub seeds: usize,
    pub status: usize,
}

/// True when `a` shows the file `f` with `seeds` peers and status `status`.
pub open spec fn shows(a: AvailableFiles, f: FileDivider, seeds: nat, status: nat) -> bool {
    &&& a.name@ == f.file_name@
    &&& a.chunks == f.no_of_pieces as usize
    &&& a.file_hash@ == f.file_hash@
    &&& a.file_size == f.file_size as usize
    &&& a.seeds == seeds
    &&& a.status == status
}

/// The entry shown for the file `f`.
fn show(f: &FileDivider, seeds: usize, status: usize) -> (r: AvailableFiles)
    ensures
        shows(r, *f, seeds as nat, status as nat),
{
    AvailableFiles {
        name: f.file_name.clone(),
        chunks: f.no_of_pieces as usize,
        file_hash: f.file_hash.clone(),
        file_size: f.file_size as usize,
        seeds,
        status,
    }
}

/// The files found by a search, in the order the table keeps them: each with the number of
/// peers that offer it, and status 0.
pub fn search_results(files_map: &Table<FileInfo>) -> (r: Vec<AvailableFiles>)
    requires
        files_map.wf(),
    ensures
        r@.len() == files_map@.len(),
        forall|i: int| 0 <= i < r@.len() ==> {
            let info = files_map@[files_map.key_seq()[i]];
            shows(#[trigger] r@[i], info.file, info.peers@.len(), 0)
        },
{
    let n = files_map.len();
    let mut out: Vec<AvailableFiles> = Vec::new();
    let mut i: usize = 0;
    while i < n
        invariant
            i <= n,
            n == files_map.spec_len(),
            n == files_map@.len(),
            files_map.wf(),
            out@.len() == i,
            forall|j: int| 0 <= j < i ==> {
                let info = files_map@[files_map.key_seq()[j]];
                shows(#[trigger] out@[j], info.file, info.peers@.len(), 0)
            },
        decreases n - i,
    {
        let info = files_map.value_at(i);
        out.push(show(&info.file, info.peers.len(), 0));
        i = i + 1;
    }
    out
}

/// The files this node offers, read from their descriptions: each shown with 2 seeds and
/// status 100.
pub fn active_files(files: &Vec<FileDivider>) -> (r: Vec<AvailableFiles>)
    ensures
        r@.len() == files@.len(),
        forall|i: int| 0 <= i < r@.len() ==> shows(#[trigger] r@[i], files@[i], 2, 100),
{
    let mut out: Vec<AvailableFiles> = Vec::new();
    let mut i: usize = 0;
    while i < files.len()
        invariant
            i <= files@.len(),
            out@.len() == i,
            forall|j: int| 0 <= j < i ==> shows(#[trigger] out@[j], files@[j], 2, 100),
        decreases files@.len() - i,
    {
        out.push(show(&files[i], 2, 100));
        i = i + 1;
    }
    out
}

/// One step of following a download's progress: `entries` is how many pieces the download's
/// folder holds now, or `None` when it cannot be read, which counts as 100 more. Gives the new
/// count and whether to keep following, which is while the count is at most `chunks`.
pub fn progress_step(count: usize, entries: Option<usize>, chunks: usize) -> (r: (usize, bool))
    requires
        entries is None ==> count + 100 <= usize::MAX,
    ensures
        r.0 == (match entries {
            Some(n) => n as int,
            None => count + 100,
        }),
        r.1 == (r.0 <= chunks),
{
    let next = match entries {
        Some(n) => n,
        None => count + 100,
    };
    (next, next <= chunks)
}

} // verus!
