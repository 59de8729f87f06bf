//! The rendered site, written to disk as it is compiled.
//!
//! One file per document, rewritten when that document compiles, served with
//! the version it was written at. A browser that already has the current
//! version asks and is told nothing changed.

use vstd::prelude::*;
use vstd::string::*;
use vstd::utf8::*;

use crate::num::{decimal, decimal_of, fnv, fnv_more, hex, push_hex, FNV_OFFSET};
use crate::paths::{file_stem, join_path, path_join, path_stem};
use crate::text::{
    begins, chars_of, find, is_alnum, is_ascii_alphanumeric, lemma_find_one, lemma_found_one,
    opt_str, same, starts_with, string_of,
};

verus! {

/// One document's rendered body, and the version it was rendered at.
#[derive(Debug)]
pub struct CachedBody {
    /// Where the body was written.
    pub path: String,
    /// Bumped on every write: the browser asks with it and is answered with
    /// nothing when it has not moved.
    pub version: u64,
}

/// One document's rendered body.
pub struct BodyV {
    pub path: Seq<char>,
    pub version: u64,
}

impl View for CachedBody {
    type V = BodyV;

    open spec fn view(&self) -> BodyV {
        BodyV { path: self.path@, version: self.version }
    }
}

/// A body, where there is one.
pub open spec fn opt_body(b: Option<CachedBody>) -> Option<BodyV> {
    match b {
        Some(b) => Some(b@),
        None => None,
    }
}

/// The rendered site of one server.
#[derive(Debug)]
pub struct SiteCache {
    dir: String,
    written: Vec<(String, CachedBody)>,
}

/// The rendered site of one server: where it is, and what has been written of
/// each document.
pub struct SiteV {
    pub dir: Seq<char>,
    pub written: Seq<(Seq<char>, BodyV)>,
}

impl View for SiteCache {
    type V = SiteV;

    closed spec fn view(&self) -> SiteV {
        SiteV {
            dir: self.dir@,
            written: self.written@.map_values(|e: (String, CachedBody)| (e.0@, e.1@)),
        }
    }
}

/// The documents of a site.
pub open spec fn documents(written: Seq<(Seq<char>, BodyV)>) -> Seq<Seq<char>> {
    written.map_values(|e: (Seq<char>, BodyV)| e.0)
}

/// What was last written for a document.
pub open spec fn body_of(written: Seq<(Seq<char>, BodyV)>, doc: Seq<char>) -> Option<BodyV> {
    match find(documents(written), seq![doc]) {
        Some(at) => Some(written[at].1),
        None => None,
    }
}

/// A site with a body written for a document.
pub open spec fn with_body(
    written: Seq<(Seq<char>, BodyV)>,
    doc: Seq<char>,
    body: BodyV,
) -> Seq<(Seq<char>, BodyV)> {
    match find(documents(written), seq![doc]) {
        Some(at) => written.update(at, (doc, body)),
        None => written.push((doc, body)),
    }
}

/// What was written for a document is what is held of it, and what is held of
/// any other stays as it is.
pub proof fn what_is_written_is_held(
    written: Seq<(Seq<char>, BodyV)>,
    doc: Seq<char>,
    body: BodyV,
    other: Seq<char>,
)
    ensures
        body_of(with_body(written, doc, body), doc) == Some(body),
        other != doc ==> body_of(with_body(written, doc, body), other) == body_of(written, other),
{
    let all = documents(written);
    let new = with_body(written, doc, body);
    lemma_found_one(all, doc);
    lemma_found_one(all, other);
    match find(all, seq![doc]) {
        Some(at) => {
            assert(documents(new) =~= all.update(at, doc));
            assert(all[at] == doc);
            assert(documents(new) =~= all);
        },
        None => {
            assert(documents(new) =~= all.push(doc));
            assert forall|k: int| 0 <= k < all.len() implies documents(new)[k] == all[k] by {}
            lemma_find_one(documents(new), doc, all.len() as int);
            if other != doc {
                match find(all, seq![other]) {
                    Some(at) => {
                        lemma_find_one(documents(new), other, at);
                    },
                    None => {
                        lemma_find_one(documents(new), other, (all.len() + 1) as int);
                    },
                }
            }
        },
    }
}

/// A character that can stand in a file's name here; any other is a dash.
pub open spec fn tame(c: char) -> char {
    if is_alnum(c) || c == '-' || c == '_' {
        c
    } else {
        '-'
    }
}

/// A document's name with what cannot stand in a file's name replaced.
pub open spec fn tamed(name: Seq<char>) -> Seq<char> {
    name.map_values(|c: char| tame(c))
}

/// The file a document's body is written to: named after the document, and
/// after enough of its path to tell two documents of the same name apart.
pub open spec fn body_file(dir: Seq<char>, doc: Seq<char>) -> Seq<char> {
    path_join(
        dir,
        tamed(
            match path_stem(doc) {
                Some(stem) => stem,
                None => "document"@,
            },
        ) + "-"@ + hex(fnv(encode_utf8(doc)) as nat, 16) + ".html"@,
    )
}

/// The file a document's body is written to.
pub fn body_path(dir: &str, doc: &str) -> (r: String)
    ensures
        r@ == body_file(dir@, doc@),
{
    let stem: String = match file_stem(doc) {
        Some(stem) => stem,
        None => "document".to_string(),
    };
    let given: Vec<char> = chars_of(stem.as_str());
    let mut kept: Vec<char> = Vec::new();
    let mut i: usize = 0;
    while i < given.len()
        invariant
            i <= given@.len(),
            kept@ == tamed(given@).take(i as int),
        decreases given@.len() - i,
    {
        let c: char = given[i];
        if is_ascii_alphanumeric(c) || c == '-' || c == '_' {
            kept.push(c);
        } else {
            kept.push('-');
        }
        assert(kept@ =~= tamed(given@).take(i + 1));
        i = i + 1;
    }
    assert(tamed(given@).take(i as int) =~= tamed(given@));
    let mut name: String = string_of(kept.as_slice());
    name.append("-");
    let hash: u64 = fnv_more(FNV_OFFSET, doc.as_bytes());
    push_hex(&mut name, hash, 16);
    name.append(".html");
    join_path(dir, name.as_str())
}

/// The next version of what is held of a document.
pub open spec fn next_version(held: Option<BodyV>) -> int {
    match held {
        Some(b) => b.version + 1,
        None => 1,
    }
}

impl SiteCache {
    /// A site under a directory, with nothing written yet.
    pub fn new(dir: String) -> (r: Self)
        ensures
            r@.dir == dir@,
            r@.written == Seq::<(Seq<char>, BodyV)>::empty(),
    {
        let r: SiteCache = SiteCache { dir, written: Vec::new() };
        assert(r@.written =~= Seq::empty());
        r
    }

    /// Where the site is.
    pub fn dir(&self) -> (r: &str)
        ensures
            r@ == self@.dir,
    {
        self.dir.as_str()
    }

    /// Where a document stands among those written.
    fn position(&self, doc: &str) -> (r: Option<usize>)
        ensures
            match r {
                Some(at) => find(documents(self@.written), seq![doc@]) == Some(at as int) && at
                    < self.written@.len(),
                None => find(documents(self@.written), seq![doc@]) is None,
            },
    {
        let ghost all = documents(self@.written);
        let n: usize = self.written.len();
        let mut i: usize = 0;
        while i < n && !same(self.written[i].0.as_str(), doc)
            invariant
                i <= n,
                n == self.written@.len(),
                all == documents(self@.written),
                forall|k: int| 0 <= k < i ==> all[k] != doc@,
            decreases n - i,
        {
            assert(all[i as int] == self.written@[i as int].0@);
            i = i + 1;
        }
        proof {
            if i < n {
                assert(all[i as int] == self.written@[i as int].0@);
            }
            lemma_find_one(all, doc@, i as int);
        }
        if i < n {
            Some(i)
        } else {
            None
        }
    }

    /// What was last written for a document, if anything was.
    pub fn body(&self, doc: &str) -> (r: Option<CachedBody>)
        ensures
            opt_body(r) == body_of(self@.written, doc@),
    {
        match self.position(doc) {
            Some(at) => {
                let held: &CachedBody = &self.written[at].1;
                assert(self@.written[at as int] == (self.written@[at as int].0@, held@));
                Some(CachedBody { path: held.path.clone(), version: held.version })
            },
            None => None,
        }
    }

    /// What is held of a document whose body is already on disk: a compile that
    /// produced the same page is not a reason for every reader to fetch it
    /// again. `on_disk` is what the file that is held says now.
    pub fn unchanged(&self, doc: &str, body: &str, on_disk: Option<&str>) -> (r: Option<CachedBody>)
        ensures
            opt_body(r) == (if opt_str(on_disk) == Some(body@) {
                body_of(self@.written, doc@)
            } else {
                None
            }),
    {
        match on_disk {
            Some(old) => if same(old, body) {
                self.body(doc)
            } else {
                None
            },
            None => None,
        }
    }

    /// Notes that a document's body has been written to its file, and says what
    /// it is now.
    pub fn wrote(&mut self, doc: &str) -> (r: CachedBody)
        requires
            next_version(body_of(old(self)@.written, doc@)) <= u64::MAX,
        ensures
            r@ == (BodyV {
                path: body_file(old(self)@.dir, doc@),
                version: next_version(body_of(old(self)@.written, doc@)) as u64,
            }),
            final(self)@.dir == old(self)@.dir,
            final(self)@.written == with_body(old(self)@.written, doc@, r@),
    {
        let ghost before = self@.written;
        let path: String = body_path(self.dir.as_str(), doc);
        match self.position(doc) {
            Some(at) => {
                assert(before[at as int] == (self.written@[at as int].0@, self.written@[at as int].1@));
                let version: u64 = self.written[at].1.version + 1;
                let r: CachedBody = CachedBody { path: path.clone(), version };
                self.written.set(at, (doc.to_string(), CachedBody { path, version }));
                assert(self@.written =~= before.update(at as int, (doc@, r@)));
                r
            },
            None => {
                let r: CachedBody = CachedBody { path: path.clone(), version: 1 };
                self.written.push((doc.to_string(), CachedBody { path, version: 1 }));
                assert(self@.written =~= before.push((doc@, r@)));
                r
            },
        }
    }
}

// -------------------------------------------------------------- what is left

/// What a rendered site's directory is called, before the process id.
pub const SITE_PREFIX: &'static str = "talimist-site-";

/// How long a site may go unwritten before it belongs to nobody, in seconds.
pub const A_DAY: u64 = 86400;

/// What a process calls its rendered site's directory.
pub fn site_dir_name(pid: u32) -> (r: String)
    ensures
        r@ == SITE_PREFIX@ + decimal(pid as nat),
{
    let mut out: String = SITE_PREFIX.to_string();
    out.append(decimal_of(pid as u64).as_str());
    out
}

/// Whether a directory is a rendered site left behind by a server that is gone:
/// named as one, not this process's own, and nothing written to it in a day.
pub fn is_stale_site(name: &str, own: &str, age: Option<u64>) -> (r: bool)
    ensures
        r == (begins(name@, SITE_PREFIX@) && name@ != own@ && (age matches Some(secs) && secs
            > A_DAY)),
{
    starts_with(name, SITE_PREFIX) && !same(name, own) && match age {
        Some(secs) => secs > A_DAY,
        None => false,
    }
}

/// A body that is written again has a version of its own, later than the one before.
pub proof fn a_body_written_again_is_newer(held: BodyV)
    ensures
        next_version(Some(held)) == held.version + 1,
        next_version(None) == 1,
{
}

/// A file of the cache is named with letters, digits, dashes and underscores, one for each character.
pub proof fn a_cached_name_is_tame(name: Seq<char>, i: int)
    requires
        0 <= i < name.len(),
    ensures
        tamed(name).len() == name.len(),
        ({
            let c = tamed(name)[i];
            ('a' <= c <= 'z') || ('A' <= c <= 'Z') || ('0' <= c <= '9') || c == '-' || c == '_'
        }),
        ('a' <= name[i] <= 'z') || ('A' <= name[i] <= 'Z') || ('0' <= name[i] <= '9') || name[i] == '_'
            ==> tamed(name)[i] == name[i],
{
}

} // verus!
