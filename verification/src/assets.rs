//! The scripts, stylesheets, pages and templates that the tools serve.
//!
//! Each is built in and read from the source tree when there is one, so an edit
//! shows up on the next request rather than on the next build.

use vstd::prelude::*;
use vstd::string::*;

use crate::paths::{join_path, path_join};
use crate::text::{opt_text, texts};

verus! {

/// Where an asset lives in a source tree.
pub open spec fn asset_place(root: Seq<char>, dir: Seq<char>, rel: Seq<char>) -> Seq<char> {
    path_join(path_join(path_join(root, "src/static"@), dir), rel)
}

/// Where an asset lives in a source tree, for watching it.
pub fn dev_asset_path(root: &str, dir: &str, rel: &str) -> (r: String)
    ensures
        r@ == asset_place(root@, dir@, rel@),
{
    join_path(join_path(join_path(root, "src/static").as_str(), dir).as_str(), rel)
}

/// An asset: what the source tree has, or the copy that was built in.
pub fn dev_asset(on_disk: Option<String>, embedded: &str) -> (r: String)
    ensures
        r@ == match opt_text(on_disk) {
            Some(text) => text,
            None => embedded@,
        },
{
    match on_disk {
        Some(text) => text,
        None => embedded.to_string(),
    }
}

/// The files a page is made of, in the order they are watched.
pub open spec fn page_assets() -> Seq<Seq<char>> {
    seq!["shell.html"@, "annotate.js"@, "annotate.css"@, "shims.typ"@]
}

/// Where the rules live that put back what an export to HTML drops, for watching.
pub fn shims_path(root: &str) -> (r: String)
    ensures
        r@ == asset_place(root@, "html"@, "shims.typ"@),
{
    dev_asset_path(root, "html", "shims.typ")
}

/// Where the files a page is made of live in a source tree, for watching.
pub fn asset_paths(root: &str) -> (r: Vec<String>)
    ensures
        texts(r@) == page_assets().map_values(
            |name: Seq<char>| asset_place(root@, "html"@, name),
        ),
{
    let mut out: Vec<String> = Vec::new();
    out.push(dev_asset_path(root, "html", "shell.html"));
    out.push(dev_asset_path(root, "html", "annotate.js"));
    out.push(dev_asset_path(root, "html", "annotate.css"));
    out.push(dev_asset_path(root, "html", "shims.typ"));
    assert(texts(out@) =~= page_assets().map_values(
        |name: Seq<char>| asset_place(root@, "html"@, name),
    ));
    out
}

} // verus!
