//! Paths as text: what a file is called, where it sits, and what its extension
//! says.

use vstd::prelude::*;
use vstd::string::*;

use crate::text::{
    chars_of, cut, is_empty, lemma_found_one, lemma_rfind, opt_text, parts_follow_each_other, push,
    rfind, rfind_in, same, split, split_on, stands_at, string_of, texts,
};

verus! {

/// The name a path ends in: its last part that is neither empty nor `.`, unless
/// that is `..`.
pub open spec fn path_name(path: Seq<char>) -> Option<Seq<char>> {
    last_name(split(path, '/'))
}

/// The last of some parts that is neither empty nor `.`, unless it is `..`.
pub open spec fn last_name(parts: Seq<Seq<char>>) -> Option<Seq<char>>
    decreases parts.len(),
{
    if parts.len() == 0 {
        None
    } else if parts.last() == Seq::<char>::empty() || parts.last() == "."@ {
        last_name(parts.drop_last())
    } else if parts.last() == ".."@ {
        None
    } else {
        Some(parts.last())
    }
}

/// Where a name's extension is divided from its stem: at its last dot, unless
/// it begins with that.
pub open spec fn name_dot(name: Seq<char>) -> Option<int> {
    match rfind(name, seq!['.']) {
        Some(at) if at > 0 => Some(at),
        _ => None,
    }
}

/// A name without its extension.
pub open spec fn name_stem(name: Seq<char>) -> Seq<char> {
    match name_dot(name) {
        Some(at) => name.take(at),
        None => name,
    }
}

/// A name's extension.
pub open spec fn name_extension(name: Seq<char>) -> Option<Seq<char>> {
    match name_dot(name) {
        Some(at) => Some(name.skip(at + 1)),
        None => None,
    }
}

/// The name of the file a path ends in, without its extension.
pub open spec fn path_stem(path: Seq<char>) -> Option<Seq<char>> {
    match path_name(path) {
        Some(name) => Some(name_stem(name)),
        None => None,
    }
}

/// The extension of the file a path ends in.
pub open spec fn path_extension(path: Seq<char>) -> Option<Seq<char>> {
    match path_name(path) {
        Some(name) => name_extension(name),
        None => None,
    }
}

/// The path of a file with another extension. A path that ends in no name stays
/// as it is.
pub open spec fn path_with_extension(path: Seq<char>, extension: Seq<char>) -> Seq<char> {
    match path_name(path) {
        None => path,
        Some(name) => match rfind(path, name) {
            None => path,
            Some(at) => path.take(at) + name_stem(name) + (if extension.len() == 0 {
                seq![]
            } else {
                seq!['.'] + extension
            }),
        },
    }
}

/// A path under another, unless it is one from the root.
pub open spec fn path_join(base: Seq<char>, rest: Seq<char>) -> Seq<char> {
    if rest.len() > 0 && rest[0] == '/' {
        rest
    } else if base.len() == 0 || base.last() == '/' {
        base + rest
    } else {
        base + seq!['/'] + rest
    }
}

/// Some parts of a path without those that say nothing: the empty ones, and `.`.
pub open spec fn telling_parts(parts: Seq<Seq<char>>) -> Seq<Seq<char>>
    decreases parts.len(),
{
    if parts.len() == 0 {
        seq![]
    } else if parts.last() == Seq::<char>::empty() || parts.last() == "."@ {
        telling_parts(parts.drop_last())
    } else {
        telling_parts(parts.drop_last()).push(parts.last())
    }
}

/// What a path says: whether it is one from the root, whether it begins with `.`, and its
/// parts. How often a slash is written, and whether one ends it, says nothing.
pub open spec fn path_parts(path: Seq<char>) -> (bool, bool, Seq<Seq<char>>) {
    let parts = split(path, '/');
    (path.len() > 0 && path[0] == '/', parts[0] == "."@, telling_parts(parts))
}

/// Whether two paths say the same.
pub open spec fn same_parts(a: Seq<char>, b: Seq<char>) -> bool {
    path_parts(a) == path_parts(b)
}

/// The parts of a path that say something.
fn parts_of(path: &str) -> (r: Vec<String>)
    ensures
        texts(r@) == telling_parts(split(path@, '/')),
{
    let parts: Vec<String> = split_on(path, '/');
    let ghost all = split(path@, '/');
    assert(texts(parts@).len() == parts@.len());
    let mut out: Vec<String> = Vec::new();
    let mut i: usize = 0;
    assert(texts(out@) =~= telling_parts(all.take(0)));
    while i < parts.len()
        invariant
            i <= parts@.len(),
            texts(parts@) == all,
            all.len() == parts@.len(),
            texts(out@) == telling_parts(all.take(i as int)),
        decreases parts@.len() - i,
    {
        let ghost before = texts(out@);
        assert(all.take(i + 1).drop_last() =~= all.take(i as int));
        assert(all.take(i + 1).last() == parts@[i as int]@);
        assert(parts@[i as int]@.len() == 0 ==> parts@[i as int]@ =~= Seq::<char>::empty());
        if !is_empty(parts[i].as_str()) && !same(parts[i].as_str(), ".") {
            out.push(parts[i].clone());
            assert(texts(out@) =~= before.push(parts@[i as int]@));
        }
        i = i + 1;
    }
    assert(all.take(i as int) =~= all);
    out
}

/// Whether two paths say the same.
pub fn same_path(a: &str, b: &str) -> (r: bool)
    ensures
        r == same_parts(a@, b@),
{
    let x: Vec<char> = chars_of(a);
    let y: Vec<char> = chars_of(b);
    let rooted: bool = x.len() > 0 && x[0] == '/';
    if rooted != (y.len() > 0 && y[0] == '/') {
        return false;
    }
    if begins_here(a) != begins_here(b) {
        return false;
    }
    let one: Vec<String> = parts_of(a);
    let other: Vec<String> = parts_of(b);
    assert(texts(one@).len() == one@.len() && texts(other@).len() == other@.len());
    if one.len() != other.len() {
        return false;
    }
    let mut i: usize = 0;
    while i < one.len()
        invariant
            i <= one@.len() == other@.len(),
            texts(one@) == path_parts(a@).2,
            texts(other@) == path_parts(b@).2,
            forall|k: int| 0 <= k < i ==> texts(one@)[k] == texts(other@)[k],
        decreases one@.len() - i,
    {
        assert(texts(one@)[i as int] == one@[i as int]@);
        assert(texts(other@)[i as int] == other@[i as int]@);
        if !same(one[i].as_str(), other[i].as_str()) {
            return false;
        }
        i = i + 1;
    }
    assert(texts(one@) =~= texts(other@));
    true
}

/// Whether the first part of a path is `.`.
fn begins_here(path: &str) -> (r: bool)
    ensures
        r == path_parts(path@).1,
{
    let parts: Vec<String> = split_on(path, '/');
    assert(texts(parts@).len() == parts@.len());
    assert(texts(parts@)[0] == parts@[0]@);
    same(parts[0].as_str(), ".")
}

/// The name of the file a path ends in.
pub fn file_name(path: &str) -> (r: Option<String>)
    ensures
        opt_text(r) == path_name(path@),
{
    let parts: Vec<String> = split_on(path, '/');
    let ghost all = split(path@, '/');
    assert(texts(parts@).len() == parts@.len());
    let mut i: usize = parts.len();
    assert(all.take(i as int) =~= all);
    while i > 0
        invariant
            i <= parts@.len(),
            texts(parts@) == all,
            all.len() == parts@.len(),
            all == split(path@, '/'),
            last_name(all) == last_name(all.take(i as int)),
        decreases i,
    {
        i = i - 1;
        let part: &str = parts[i].as_str();
        assert(all.take(i + 1).last() == texts(parts@)[i as int]);
        assert(all.take(i + 1).drop_last() =~= all.take(i as int));
        let none: String = String::new();
        assert(none@ =~= Seq::<char>::empty());
        if !same(part, none.as_str()) && !same(part, ".") {
            if same(part, "..") {
                return None;
            }
            return Some(parts[i].clone());
        }
    }
    assert(all.take(0) =~= Seq::empty());
    None
}

/// A name taken apart at the dot before its extension.
fn divide(name: &str) -> (r: (String, Option<String>))
    ensures
        r.0@ == name_stem(name@),
        opt_text(r.1) == name_extension(name@),
{
    let n: Vec<char> = chars_of(name);
    let dot: Vec<char> = vec!['.'];
    assert(dot@ =~= seq!['.']);
    match rfind_in(n.as_slice(), dot.as_slice()) {
        Some(at) => {
            if at > 0 {
                let (stem, extension) = cut(n.as_slice(), at, 1);
                (string_of(stem), Some(string_of(extension)))
            } else {
                (name.to_string(), None)
            }
        },
        None => (name.to_string(), None),
    }
}

/// The name of the file a path ends in, without its extension.
pub fn file_stem(path: &str) -> (r: Option<String>)
    ensures
        opt_text(r) == path_stem(path@),
{
    match file_name(path) {
        Some(name) => Some(divide(name.as_str()).0),
        None => None,
    }
}

/// The extension of the file a path ends in.
pub fn extension(path: &str) -> (r: Option<String>)
    ensures
        opt_text(r) == path_extension(path@),
{
    match file_name(path) {
        Some(name) => divide(name.as_str()).1,
        None => None,
    }
}

/// The path of a file with another extension.
pub fn with_extension(path: &str, extension: &str) -> (r: String)
    ensures
        r@ == path_with_extension(path@, extension@),
{
    match file_name(path) {
        None => path.to_string(),
        Some(name) => {
            let p: Vec<char> = chars_of(path);
            let n: Vec<char> = chars_of(name.as_str());
            match rfind_in(p.as_slice(), n.as_slice()) {
                None => path.to_string(),
                Some(at) => {
                    let (head, _) = cut(p.as_slice(), at, 0);
                    let mut out: String = string_of(head);
                    out.append(divide(name.as_str()).0.as_str());
                    let e: Vec<char> = chars_of(extension);
                    if e.len() > 0 {
                        push(&mut out, '.');
                        out.append(extension);
                    }
                    assert(out@ =~= path_with_extension(path@, extension@));
                    out
                },
            }
        },
    }
}

/// A path under another.
pub fn join_path(base: &str, rest: &str) -> (r: String)
    ensures
        r@ == path_join(base@, rest@),
{
    let b: Vec<char> = chars_of(base);
    let t: Vec<char> = chars_of(rest);
    if t.len() > 0 && t[0] == '/' {
        return rest.to_string();
    }
    let mut out: String = base.to_string();
    if b.len() > 0 && b[b.len() - 1] != '/' {
        push(&mut out, '/');
    }
    out.append(rest);
    assert(out@ =~= path_join(base@, rest@));
    out
}

/// Whether a path's file has an extension.
pub fn has_extension(path: &str, wanted: &str) -> (r: bool)
    ensures
        r == (path_extension(path@) == Some(wanted@)),
{
    match extension(path) {
        Some(found) => same(found.as_str(), wanted),
        None => false,
    }
}

/// The file a sidecar is kept in stands beside its document: the same path with
/// another extension.
pub open spec fn sidecar_of(path: Seq<char>) -> Seq<char> {
    path_with_extension(path, "annos.typ"@)
}

/// Where a document's annotations are kept.
pub fn sidecar_path(path: &str) -> (r: String)
    ensures
        r@ == sidecar_of(path@),
{
    with_extension(path, "annos.typ")
}

/// Whether a path is one of a sidecar.
pub open spec fn names_sidecar(path: Seq<char>) -> bool {
    match path_stem(path) {
        Some(stem) => path_extension(stem) == Some("annos"@),
        None => false,
    }
}

/// Whether a path is an annotation sidecar, e.g. `paper.annos.typ`.
pub fn is_sidecar(path: &str) -> (r: bool)
    ensures
        r == names_sidecar(path@),
{
    match file_stem(path) {
        Some(stem) => has_extension(stem.as_str(), "annos"),
        None => false,
    }
}

/// A file in a directory is called by what follows the last slash, and that is its stem, a dot and
/// its extension.
pub proof fn a_file_is_its_stem_and_extension(dir: Seq<char>, stem: Seq<char>, ext: Seq<char>)
    requires
        stem.len() > 0,
        ext.len() > 0,
        !stem.contains('/') && !ext.contains('/') && !ext.contains('.'),
    ensures
        ({
            let path = dir + seq!['/'] + (stem + seq!['.'] + ext);
            &&& path_name(path) == Some(stem + seq!['.'] + ext)
            &&& path_stem(path) == Some(stem)
            &&& path_extension(path) == Some(ext)
        }),
{
    let name = stem + seq!['.'] + ext;
    lemma_dot(stem, ext);
    lemma_named(dir, name);
}

/// A name with something after its dot is no way up, nor no name.
proof fn lemma_named(dir: Seq<char>, name: Seq<char>)
    requires
        name.len() > 0,
        name != "."@ && name != ".."@,
        !name.contains('/'),
    ensures
        path_name(dir + seq!['/'] + name) == Some(name),
{
    parts_follow_each_other(dir, name, '/');
    lemma_found_one(name, '/');
    assert forall|k: int| 0 <= k < name.len() implies name[k] != '/' by {
        assert(name.contains(name[k]));
    }
    assert(split(name, '/') =~= seq![name]);
    let parts = split(dir, '/') + seq![name];
    assert(parts.last() == name);
}

/// A name divides at its last dot.
proof fn lemma_dot(stem: Seq<char>, ext: Seq<char>)
    requires
        stem.len() > 0,
        ext.len() > 0,
        !stem.contains('/') && !ext.contains('/') && !ext.contains('.'),
    ensures
        ({
            let name = stem + seq!['.'] + ext;
            &&& name.len() > 0 && name != "."@ && name != ".."@ && !name.contains('/')
            &&& name_stem(name) == stem
            &&& name_extension(name) == Some(ext)
        }),
{
    reveal_strlit(".");
    reveal_strlit("..");
    let name = stem + seq!['.'] + ext;
    let n = stem.len() as int;
    assert(name.len() >= 3);
    if name.contains('/') {
        let k = name.index_of('/');
        if k < n {
            assert(stem[k] == '/');
        } else if k > n {
            assert(ext[k - n - 1] == '/');
        }
    }
    lemma_rfind(name, seq!['.']);
    assert(name.subrange(n, n + 1) =~= seq!['.']);
    assert(stands_at(name, seq!['.'], n));
    if let Some(at) = rfind(name, seq!['.']) {
        assert(name.subrange(at, at + 1)[0] == '.');
        if at > n {
            assert(ext[at - n - 1] == '.');
        }
    }
    assert(name.take(n) =~= stem);
    assert(name.skip(n + 1) =~= ext);
}

/// The sidecar of a document is beside it, under its name with `annos` before the extension, and is
/// known for a sidecar.
pub proof fn a_sidecar_is_beside_its_document(dir: Seq<char>, stem: Seq<char>)
    requires
        stem.len() > 0,
        !stem.contains('/'),
    ensures
        ({
            let sidecar = sidecar_of(dir + seq!['/'] + (stem + seq!['.'] + "typ"@));
            &&& sidecar == dir + seq!['/'] + (stem + seq!['.'] + "annos.typ"@)
            &&& names_sidecar(sidecar)
            &&& path_extension(sidecar) == Some("typ"@)
        }),
{
    reveal_strlit("typ");
    reveal_strlit("annos");
    reveal_strlit("annos.typ");
    let name = stem + seq!['.'] + "typ"@;
    let path = dir + seq!['/'] + name;
    a_file_is_its_stem_and_extension(dir, stem, "typ"@);
    lemma_dot(stem, "typ"@);
    let n = dir.len() as int + 1;
    lemma_rfind(path, name);
    assert(path.subrange(n, n + name.len()) =~= name);
    assert(stands_at(path, name, n));
    assert(rfind(path, name) == Some(n));
    let sidecar = sidecar_of(path);
    let longer = stem + seq!['.'] + "annos"@;
    assert(path.take(n) =~= dir + seq!['/']);
    assert(sidecar =~= dir + seq!['/'] + (stem + seq!['.'] + "annos.typ"@));
    assert("annos.typ"@ =~= "annos"@ + seq!['.'] + "typ"@);
    assert(stem + seq!['.'] + "annos.typ"@ =~= longer + seq!['.'] + "typ"@);
    lemma_dot(stem, "annos"@);
    assert(!longer.contains('/'));
    a_file_is_its_stem_and_extension(dir, longer, "typ"@);
    lemma_plain_name(longer);
}

/// A name on its own is its own name.
proof fn lemma_plain_name(name: Seq<char>)
    requires
        name.len() > 0,
        name != "."@ && name != ".."@,
        !name.contains('/'),
    ensures
        path_name(name) == Some(name),
{
    lemma_found_one(name, '/');
    assert forall|k: int| 0 <= k < name.len() implies name[k] != '/' by {
        assert(name.contains(name[k]));
    }
    assert(split(name, '/') =~= seq![name]);
    assert(seq![name].last() == name);
}

/// A path joined to a directory is under it, unless it begins at the root.
pub proof fn a_joined_path_is_under_its_directory(base: Seq<char>, name: Seq<char>)
    requires
        name.len() > 0,
        name != "."@ && name != ".."@,
        !name.contains('/'),
        base.len() > 0,
        base.last() != '/',
    ensures
        path_join(base, name) == base + seq!['/'] + name,
        path_name(path_join(base, name)) == Some(name),
        path_join(base, seq!['/'] + name) == seq!['/'] + name,
{
    lemma_named(base, name);
    assert(name.contains(name[0]));
}

} // verus!
