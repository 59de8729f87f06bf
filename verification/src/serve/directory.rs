//! A directory as it is listed: its documents, its other files, and the directories
//! in it, each in order.

use vstd::prelude::*;
use vstd::string::*;

use crate::order::{in_order, ints, ranked, ranks, ranks_are_ordered, sorted};
use crate::paths::{file_name, is_sidecar, names_sidecar, path_name};
use crate::serve::site::{
    doc_entry, hidden, is_asset, is_document, is_hidden, listed, names_asset, names_document,
    AssetEntry, DocEntry, EntryView,
};
use crate::text::{opt_text, texts};

verus! {

/// A file of a directory.
#[derive(Debug)]
pub struct FoundFile {
    /// Where it is.
    pub path: String,
    /// What it says, where it was read.
    pub text: Option<String>,
    /// What the sidecar beside it says, where there is one.
    pub sidecar: Option<String>,
    /// When it was last written, in nanoseconds since 1970.
    pub modified: Option<u64>,
}

/// A file of a directory.
pub struct FoundV {
    /// Where it is.
    pub path: Seq<char>,
    /// What it says.
    pub text: Option<Seq<char>>,
    /// What the sidecar beside it says.
    pub sidecar: Option<Seq<char>>,
    /// When it was last written.
    pub modified: Option<u64>,
}

impl View for FoundFile {
    type V = FoundV;

    open spec fn view(&self) -> FoundV {
        FoundV {
            path: self.path@,
            text: opt_text(self.text),
            sidecar: opt_text(self.sidecar),
            modified: self.modified,
        }
    }
}

/// The files of a directory.
pub open spec fn found_views(list: Seq<FoundFile>) -> Seq<FoundV> {
    list.map_values(|f: FoundFile| f@)
}

/// The paths of some files.
pub open spec fn found_paths(list: Seq<FoundV>) -> Seq<Seq<char>> {
    list.map_values(|f: FoundV| f.path)
}

/// What a listing shows of a file.
pub open spec fn entry_of(f: FoundV, preparse: bool) -> Option<EntryView> {
    if names_document(f.path) {
        listed(f.path, preparse, f.text, f.sidecar, f.modified)
    } else {
        None
    }
}

/// What a listing shows of the files that the first of some numbers name.
pub open spec fn entries_v(list: Seq<FoundV>, order: Seq<int>, preparse: bool, n: nat) -> Seq<EntryView>
    decreases n,
{
    if n == 0 || n > order.len() {
        seq![]
    } else {
        let before = entries_v(list, order, preparse, (n - 1) as nat);
        match entry_of(list[order[n - 1]], preparse) {
            Some(entry) => before.push(entry),
            None => before,
        }
    }
}

/// What some entries of a listing say.
pub open spec fn entry_list(list: Seq<DocEntry>) -> Seq<EntryView> {
    list.map_values(|e: DocEntry| e@)
}

/// The paths of some files.
fn paths_of(list: &Vec<FoundFile>) -> (r: Vec<String>)
    ensures
        texts(r@) == found_paths(found_views(list@)),
        r@.len() == list@.len(),
{
    let ghost all = found_paths(found_views(list@));
    let mut out: Vec<String> = Vec::new();
    let mut i: usize = 0;
    while i < list.len()
        invariant
            i <= list@.len(),
            out@.len() == i,
            all == found_paths(found_views(list@)),
            texts(out@) == all.take(i as int),
        decreases list@.len() - i,
    {
        let ghost before = out@;
        assert(found_views(list@)[i as int] == list@[i as int]@);
        let path: String = list[i].path.as_str().to_owned();
        out.push(path);
        assert(texts(out@) =~= texts(before).push(path@));
        assert(all.take(i + 1) =~= all.take(i as int).push(all[i as int]));
        i = i + 1;
    }
    assert(all.take(all.len() as int) =~= all);
    out
}

/// The documents of a directory as they are listed, in the order of their paths.
pub fn entries_in(list: &Vec<FoundFile>, preparse: bool) -> (r: Vec<DocEntry>)
    ensures
        entry_list(r@) == entries_v(
            found_views(list@),
            ranked(found_paths(found_views(list@)), list@.len()),
            preparse,
            ranked(found_paths(found_views(list@)), list@.len()).len(),
        ),
{
    let ghost all = found_views(list@);
    let order: Vec<usize> = ranks(&paths_of(list));
    let ghost turn = ranked(found_paths(all), list@.len());
    assert(turn.len() == order@.len());
    let mut out: Vec<DocEntry> = Vec::new();
    let mut i: usize = 0;
    assert(entry_list(out@) =~= seq![]);
    while i < order.len()
        invariant
            i <= order@.len(),
            all == found_views(list@),
            turn == ints(order@),
            turn.len() == order@.len(),
            forall|k: int| 0 <= k < order@.len() ==> #[trigger] order@[k] < list@.len(),
            entry_list(out@) == entries_v(all, turn, preparse, i as nat),
        decreases order@.len() - i,
    {
        let ghost before = out@;
        assert(turn[i as int] == order@[i as int]);
        let f: &FoundFile = &list[order[i]];
        assert(all[turn[i as int]] == f@);
        if is_document(f.path.as_str()) {
            let text: Option<&str> = match &f.text {
                Some(text) => Some(text.as_str()),
                None => None,
            };
            let sidecar: Option<&str> = match &f.sidecar {
                Some(text) => Some(text.as_str()),
                None => None,
            };
            if let Some(entry) = doc_entry(f.path.as_str(), preparse, text, sidecar, f.modified) {
                out.push(entry);
                assert(entry_list(out@) =~= entry_list(before).push(entry@));
            }
        }
        i = i + 1;
    }
    out
}

/// A file that is handed over as it is: its name, and when it was last written.
pub open spec fn asset_of(f: FoundV) -> Option<(Seq<char>, Option<u64>)> {
    match path_name(f.path) {
        Some(name) if !is_hidden(f.path) && names_asset(f.path) && !names_sidecar(f.path) => Some(
            (name, f.modified),
        ),
        _ => None,
    }
}

/// The files among the first of some that are handed over as they are.
pub open spec fn assets_v(list: Seq<FoundV>, n: nat) -> Seq<(Seq<char>, Option<u64>)>
    decreases n,
{
    if n == 0 || n > list.len() {
        seq![]
    } else {
        let before = assets_v(list, (n - 1) as nat);
        match asset_of(list[n - 1]) {
            Some(asset) => before.push(asset),
            None => before,
        }
    }
}

/// The names of some files.
pub open spec fn asset_names(list: Seq<(Seq<char>, Option<u64>)>) -> Seq<Seq<char>> {
    list.map_values(|a: (Seq<char>, Option<u64>)| a.0)
}

/// What is said of some files.
pub open spec fn asset_list(list: Seq<AssetEntry>) -> Seq<(Seq<char>, Option<u64>)> {
    list.map_values(|a: AssetEntry| (a.file@, a.modified))
}

/// The files of a directory that are handed over as they are, in the order of their
/// names.
pub fn assets_in(list: &Vec<FoundFile>) -> (r: Vec<AssetEntry>)
    ensures
        ({
            let found = assets_v(found_views(list@), list@.len());
            let order = ranked(asset_names(found), found.len());
            asset_list(r@) == order.map_values(|k: int| found[k])
        }),
{
    let ghost all = found_views(list@);
    let mut found: Vec<AssetEntry> = Vec::new();
    let mut names: Vec<String> = Vec::new();
    let mut i: usize = 0;
    assert(asset_list(found@) =~= seq![]);
    assert(texts(names@) =~= asset_names(asset_list(found@)));
    while i < list.len()
        invariant
            i <= list@.len(),
            all == found_views(list@),
            asset_list(found@) == assets_v(all, i as nat),
            texts(names@) == asset_names(asset_list(found@)),
        decreases list@.len() - i,
    {
        let ghost before = found@;
        let ghost named = names@;
        let f: &FoundFile = &list[i];
        assert(all[i as int] == f@);
        let path: &str = f.path.as_str();
        if let Some(name) = file_name(path) {
            if !hidden(path) && is_asset(path) && !is_sidecar(path) {
                let asset: AssetEntry = AssetEntry {
                    file: name.as_str().to_owned(),
                    modified: f.modified,
                };
                found.push(asset);
                names.push(name);
                assert(asset_list(found@) =~= asset_list(before).push((name@, f.modified)));
                assert(texts(names@) =~= texts(named).push(name@));
                assert(asset_names(asset_list(found@)) =~= asset_names(asset_list(before)).push(
                    name@,
                ));
            }
        }
        i = i + 1;
    }
    let ghost assets = asset_list(found@);
    assert(texts(names@).len() == names@.len());
    assert(asset_names(assets).len() == found@.len());
    let order: Vec<usize> = ranks(&names);
    let ghost turn = ints(order@);
    let mut out: Vec<AssetEntry> = Vec::new();
    let mut k: usize = 0;
    assert(asset_list(out@) =~= turn.take(0).map_values(|k: int| assets[k]));
    while k < order.len()
        invariant
            k <= order@.len(),
            turn == ints(order@),
            assets == asset_list(found@),
            names@.len() == found@.len(),
            forall|m: int| 0 <= m < order@.len() ==> #[trigger] order@[m] < names@.len(),
            asset_list(out@) == turn.take(k as int).map_values(|k: int| assets[k]),
        decreases order@.len() - k,
    {
        let ghost before = out@;
        assert(turn[k as int] == order@[k as int]);
        let a: &AssetEntry = &found[order[k]];
        assert(assets[turn[k as int]] == (a.file@, a.modified));
        out.push(AssetEntry { file: a.file.as_str().to_owned(), modified: a.modified });
        assert(asset_list(out@) =~= asset_list(before).push((a.file@, a.modified)));
        assert(turn.take(k + 1) =~= turn.take(k as int).push(turn[k as int]));
        assert(turn.take(k + 1).map_values(|k: int| assets[k]) =~= turn.take(k as int).map_values(
            |k: int| assets[k],
        ).push(assets[turn[k as int]]));
        k = k + 1;
    }
    assert(turn.take(turn.len() as int) =~= turn);
    out
}

/// How deep a directory is looked into for a document.
pub const SEARCH_DEPTH: usize = 6;

/// The names of the first of some directories that are listed: those that hold a
/// document somewhere below.
pub open spec fn dir_names(list: Seq<(Seq<char>, bool)>, n: nat) -> Seq<Seq<char>>
    decreases n,
{
    if n == 0 || n > list.len() {
        seq![]
    } else {
        let before = dir_names(list, (n - 1) as nat);
        let d = list[n - 1];
        match path_name(d.0) {
            Some(name) if d.1 && !is_hidden(d.0) => before.push(name),
            _ => before,
        }
    }
}

/// Some directories, and whether each holds a document somewhere below.
pub open spec fn dir_views(list: Seq<(String, bool)>) -> Seq<(Seq<char>, bool)> {
    list.map_values(|d: (String, bool)| (d.0@, d.1))
}

/// The directories in a directory that are listed, in the order of their names. Of each
/// comes whether it holds a document somewhere below.
pub fn dirs_in(list: &Vec<(String, bool)>) -> (r: Vec<String>)
    ensures
        in_order(texts(r@)),
        texts(r@).to_multiset() == dir_names(dir_views(list@), list@.len()).to_multiset(),
{
    let ghost all = dir_views(list@);
    let mut out: Vec<String> = Vec::new();
    let mut i: usize = 0;
    assert(texts(out@) =~= seq![]);
    while i < list.len()
        invariant
            i <= list@.len(),
            all == dir_views(list@),
            texts(out@) == dir_names(all, i as nat),
        decreases list@.len() - i,
    {
        let ghost before = out@;
        assert(all[i as int] == (list@[i as int].0@, list@[i as int].1));
        let path: &str = list[i].0.as_str();
        if let Some(name) = file_name(path) {
            if list[i].1 && !hidden(path) {
                out.push(name);
                assert(texts(out@) =~= texts(before).push(name@));
            }
        }
        i = i + 1;
    }
    sorted(out)
}

/// A listing shows no sidecar and nothing but documents.
pub proof fn only_documents_are_listed(f: FoundV, preparse: bool)
    requires
        entry_of(f, preparse) is Some,
    ensures
        names_document(f.path),
        !names_sidecar(f.path),
{
}

/// Every document of a directory is listed, and only those.
pub proof fn every_document_is_listed(
    list: Seq<FoundV>,
    order: Seq<int>,
    preparse: bool,
    n: nat,
    j: int,
)
    requires
        0 <= j < n <= order.len(),
        entry_of(list[order[j]], preparse) is Some,
    ensures
        entries_v(list, order, preparse, n).contains(entry_of(list[order[j]], preparse)->Some_0),
    decreases n,
{
    let before = entries_v(list, order, preparse, (n - 1) as nat);
    let all = entries_v(list, order, preparse, n);
    let entry = entry_of(list[order[j]], preparse)->Some_0;
    if j < n - 1 {
        every_document_is_listed(list, order, preparse, (n - 1) as nat, j);
        let k = before.index_of(entry);
        assert(all[k] == entry);
    } else {
        assert(all[before.len() as int] == entry);
    }
}

/// Every file of a directory has its turn, so that none is left out of the list.
pub proof fn every_file_has_its_turn(paths: Seq<Seq<char>>, i: int)
    requires
        0 <= i < paths.len(),
    ensures
        ranked(paths, paths.len()).contains(i),
{
    let all = Seq::new(paths.len(), |k: int| k);
    let order = ranked(paths, paths.len());
    ranks_are_ordered(paths, paths.len());
    all.to_multiset_ensures();
    order.to_multiset_ensures();
    assert(all[i] == i);
    assert(all.contains(i));
    assert(all.to_multiset().count(i) > 0);
    assert(order.to_multiset().count(i) > 0);
}

/// Every file that can be shown as it is and is not hidden is listed, and no sidecar is.
pub proof fn every_asset_is_listed(list: Seq<FoundV>, n: nat, j: int)
    requires
        0 <= j < n <= list.len(),
        path_name(list[j].path) is Some,
        !is_hidden(list[j].path),
        names_asset(list[j].path),
        !names_sidecar(list[j].path),
    ensures
        assets_v(list, n).contains((path_name(list[j].path)->Some_0, list[j].modified)),
    decreases n,
{
    let before = assets_v(list, (n - 1) as nat);
    let all = assets_v(list, n);
    let asset = (path_name(list[j].path)->Some_0, list[j].modified);
    if j < n - 1 {
        every_asset_is_listed(list, (n - 1) as nat, j);
        let k = before.index_of(asset);
        assert(all[k] == asset);
    } else {
        assert(all[before.len() as int] == asset);
    }
}

/// Every directory that holds a document and is not hidden is listed by its name, and no other.
pub proof fn every_directory_is_listed(list: Seq<(Seq<char>, bool)>, n: nat, name: Seq<char>)
    requires
        n <= list.len(),
    ensures
        dir_names(list, n).contains(name) <==> exists|j: int|
            0 <= j < n && (#[trigger] list[j]).1 && !is_hidden(list[j].0) && path_name(list[j].0)
                == Some(name),
    decreases n,
{
    if n > 0 {
        let before = dir_names(list, (n - 1) as nat);
        let all = dir_names(list, n);
        every_directory_is_listed(list, (n - 1) as nat, name);
        if all.contains(name) {
            let k = all.index_of(name);
            if k < before.len() {
                assert(before[k] == name);
            } else {
                assert(list[n - 1].1 && path_name(list[n - 1].0) == Some(name));
            }
        }
        if exists|j: int|
            0 <= j < n && (#[trigger] list[j]).1 && !is_hidden(list[j].0) && path_name(list[j].0)
                == Some(name) {
            let j = choose|j: int|
                0 <= j < n && (#[trigger] list[j]).1 && !is_hidden(list[j].0) && path_name(list[j].0)
                    == Some(name);
            if j < n - 1 {
                let k = before.index_of(name);
                assert(all[k] == name);
            } else {
                assert(all[before.len() as int] == name);
            }
        }
    }
}

} // verus!
