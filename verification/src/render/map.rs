//! The map that says what a rendering was made of.
//!
//! The rendering carries an id on every node that can be referred to. The map
//! records, per id, the stretch of source each came from, so that a position
//! expressed against the rendering can be converted to a position in a file.

use vstd::prelude::*;
use vstd::string::*;
use vstd::utf8::*;

use crate::bytes::{
    boundary, byte_len, chars_between, lemma_boundary_inside, lemma_boundary_skip,
    lemma_boundary_take, lemma_encode_concat, lemma_encoded, slice,
};
use crate::digest::{hash_of, short_hash};
use crate::num::{decimal, decimal_is_one_to_one, push_decimal};
use crate::serve::blocks::ANCHOR_OPENING;
use crate::text::{
    chars_of, cut, find, lemma_find_one, lemma_found_one, lemma_rfind, lemma_trim_end,
    lemma_trim_start, opt_str, push, rfind, rfind_in, same, stands, stands_at, string_of, trim_end,
    trim_end_slice, trim_start, trim_start_slice,
};

verus! {

// ------------------------------------------------------------------- places

/// A stretch of one of the files a rendering is made of.
#[derive(Clone, Copy, Debug, PartialEq, Eq, Structural)]
pub struct Place {
    /// The number of the file.
    pub file: usize,
    /// Where the stretch starts.
    pub start: usize,
    /// Where the stretch ends.
    pub end: usize,
}

/// A stretch of one of the files a map knows.
#[derive(Clone, Copy, Debug, PartialEq, Eq, Structural)]
pub struct SrcRange {
    /// Where the file sits in the map. The document itself is the first.
    pub file: usize,
    /// Where the stretch starts.
    pub start: usize,
    /// Where the stretch ends.
    pub end: usize,
}

/// Where some of a node's characters came from.
#[derive(Clone, Copy, Debug, PartialEq, Eq, Structural)]
pub struct Segment {
    /// How many characters of the node come before.
    pub at: usize,
    /// How many characters there are.
    pub len: usize,
    /// Where the file they came from sits in the map.
    pub file: usize,
    /// Where in that file they start.
    pub offset: usize,
}

/// What a node of a rendering is.
#[derive(Clone, Copy, Debug, PartialEq, Eq, Structural)]
pub enum NodeKind {
    /// A run of text, with characters to point between.
    Text,
    /// Anything in a line that is annotated whole.
    Inline,
    /// An equation in a line.
    Math,
    /// An equation on its own.
    MathBlock,
    /// A link.
    Link,
    /// Raw text.
    Raw,
    /// An image.
    Image,
    /// A drawing.
    Svg,
    /// A paragraph.
    Para,
    /// An item of a list, or half of one of a list of terms.
    Item,
    /// Any other region of the page.
    Block,
    /// A container, which cannot be annotated as a whole.
    Group,
}

impl NodeKind {
    /// Whether a node of this kind is a region of the page.
    pub open spec fn region(self) -> bool {
        self == NodeKind::Para || self == NodeKind::Item || self == NodeKind::Block
    }

    /// Whether a node of this kind is a region of the page.
    pub fn is_block(&self) -> (r: bool)
        ensures
            r == self.region(),
    {
        *self == NodeKind::Para || *self == NodeKind::Item || *self == NodeKind::Block
    }
}

/// What kind of node an element counts as, by its tag.
pub open spec fn tag_kind(tag: Seq<char>, display_block: bool) -> NodeKind {
    if tag == "math"@ {
        if display_block {
            NodeKind::MathBlock
        } else {
            NodeKind::Math
        }
    } else if tag == "a"@ {
        NodeKind::Link
    } else if tag == "code"@ || tag == "pre"@ {
        NodeKind::Raw
    } else if tag == "img"@ {
        NodeKind::Image
    } else if tag == "p"@ {
        NodeKind::Para
    } else if tag == "li"@ || tag == "dt"@ || tag == "dd"@ {
        NodeKind::Item
    } else if is_group_tag(tag) {
        NodeKind::Group
    } else if is_block_tag(tag) {
        NodeKind::Block
    } else {
        NodeKind::Inline
    }
}

/// The tags of containers: a mark around all their children would mean several
/// things, which an anchor cannot say.
pub open spec fn is_group_tag(tag: Seq<char>) -> bool {
    ||| tag == "ul"@
    ||| tag == "ol"@
    ||| tag == "dl"@
    ||| tag == "thead"@
    ||| tag == "tbody"@
    ||| tag == "tfoot"@
    ||| tag == "tr"@
}

/// The tags of the other regions of a page.
pub open spec fn is_block_tag(tag: Seq<char>) -> bool {
    ||| tag == "div"@
    ||| tag == "section"@
    ||| tag == "figure"@
    ||| tag == "figcaption"@
    ||| tag == "caption"@
    ||| tag == "blockquote"@
    ||| tag == "td"@
    ||| tag == "th"@
    ||| tag == "table"@
    ||| tag == "main"@
    ||| tag == "header"@
    ||| tag == "footer"@
    ||| tag == "nav"@
    ||| tag == "article"@
    ||| tag == "aside"@
    ||| tag == "h1"@
    ||| tag == "h2"@
    ||| tag == "h3"@
    ||| tag == "h4"@
    ||| tag == "h5"@
    ||| tag == "h6"@
}

/// What kind of node an element counts as, by its tag.
///
/// Anything not listed is inline content, which is annotated whole. The list
/// covers every block-level tag the exporter emits: one left off it would be
/// offered as one thing to annotate.
pub fn kind_of(tag: &str, display_block: bool) -> (r: NodeKind)
    ensures
        r == tag_kind(tag@, display_block),
{
    if same(tag, "math") {
        if display_block {
            NodeKind::MathBlock
        } else {
            NodeKind::Math
        }
    } else if same(tag, "a") {
        NodeKind::Link
    } else if same(tag, "code") || same(tag, "pre") {
        NodeKind::Raw
    } else if same(tag, "img") {
        NodeKind::Image
    } else if same(tag, "p") {
        NodeKind::Para
    } else if same(tag, "li") || same(tag, "dt") || same(tag, "dd") {
        NodeKind::Item
    } else if same(tag, "ul") || same(tag, "ol") || same(tag, "dl") || same(tag, "thead") || same(
        tag,
        "tbody",
    ) || same(tag, "tfoot") || same(tag, "tr") {
        NodeKind::Group
    } else if same(tag, "div") || same(tag, "section") || same(tag, "figure") || same(
        tag,
        "figcaption",
    ) || same(tag, "caption") || same(tag, "blockquote") || same(tag, "td") || same(tag, "th")
        || same(tag, "table") || same(tag, "main") || same(tag, "header") || same(tag, "footer")
        || same(tag, "nav") || same(tag, "article") || same(tag, "aside") || same(tag, "h1")
        || same(tag, "h2") || same(tag, "h3") || same(tag, "h4") || same(tag, "h5") || same(
        tag,
        "h6",
    ) {
        NodeKind::Block
    } else {
        NodeKind::Inline
    }
}

// ----------------------------------------------------------------- the nodes

/// What is known about a node of a rendering.
#[derive(Debug)]
pub struct NodeEntry {
    /// The id the node carries.
    pub uid: String,
    /// What the node is.
    pub kind: NodeKind,
    /// Where it came from, if that is known.
    pub range: Option<SrcRange>,
    /// Where its characters came from, for a run of text.
    pub segments: Vec<Segment>,
}

/// What is known about a node.
pub struct NodeView {
    pub uid: Seq<char>,
    pub kind: NodeKind,
    pub range: Option<SrcRange>,
    pub segments: Seq<Segment>,
}

impl View for NodeEntry {
    type V = NodeView;

    open spec fn view(&self) -> NodeView {
        NodeView {
            uid: self.uid@,
            kind: self.kind,
            range: self.range,
            segments: self.segments@,
        }
    }
}

/// What is known about some nodes.
pub open spec fn node_views(nodes: Seq<NodeEntry>) -> Seq<NodeView> {
    nodes.map_values(|n: NodeEntry| n@)
}

/// The ids of some nodes.
pub open spec fn uids(nodes: Seq<NodeView>) -> Seq<Seq<char>> {
    nodes.map_values(|n: NodeView| n.uid)
}

/// Which of some nodes carries an id.
pub open spec fn slot(nodes: Seq<NodeView>, uid: Seq<char>) -> Option<int> {
    find(uids(nodes), seq![uid])
}

/// The node with an id, if there is one.
pub open spec fn node_with(nodes: Seq<NodeView>, uid: Seq<char>) -> Option<NodeView> {
    match slot(nodes, uid) {
        Some(at) => Some(nodes[at]),
        None => None,
    }
}

/// Some nodes with one more, in place of the one that carried its id before.
pub open spec fn with_node(nodes: Seq<NodeView>, n: NodeView) -> Seq<NodeView> {
    match slot(nodes, n.uid) {
        Some(at) => nodes.update(at, n),
        None => nodes.push(n),
    }
}

/// Whether every id is carried by one node alone.
pub open spec fn uids_unique(nodes: Seq<NodeView>) -> bool {
    forall|i: int, j: int|
        0 <= i < j < nodes.len() ==> (#[trigger] nodes[i]).uid != (#[trigger] nodes[j]).uid
}

/// Whether a segment can be put after the ones a node has.
pub open spec fn room_after(nodes: Seq<NodeView>, uid: Seq<char>) -> bool {
    node_with(nodes, uid) matches Some(n) ==> n.segments.len() > 0 ==> n.segments.last().at
        + n.segments.last().len <= usize::MAX
}

/// The id with a number.
pub open spec fn uid_text(n: nat) -> Seq<char> {
    seq!['n'] + decimal(n)
}

/// Ids with different numbers are different.
pub proof fn uids_differ(a: nat, b: nat)
    requires
        a != b,
    ensures
        uid_text(a) != uid_text(b),
{
    if uid_text(a) == uid_text(b) {
        assert(uid_text(a).skip(1) =~= decimal(a));
        assert(uid_text(b).skip(1) =~= decimal(b));
        decimal_is_one_to_one(a, b);
    }
}

/// The smallest stretch around two of one file.
pub open spec fn hull(a: SrcRange, b: SrcRange) -> SrcRange {
    SrcRange {
        file: a.file,
        start: if a.start <= b.start {
            a.start
        } else {
            b.start
        },
        end: if a.end >= b.end {
            a.end
        } else {
            b.end
        },
    }
}

/// The smallest stretch around two of one file.
pub fn hull_of(a: SrcRange, b: SrcRange) -> (r: SrcRange)
    ensures
        r == hull(a, b),
{
    SrcRange {
        file: a.file,
        start: if a.start <= b.start {
            a.start
        } else {
            b.start
        },
        end: if a.end >= b.end {
            a.end
        } else {
            b.end
        },
    }
}

// ------------------------------------------------------------------ the map

/// Collects the map as the rendering is walked.
#[derive(Debug)]
pub struct Mapper {
    /// The number of the document's file.
    main: usize,
    /// Files that are part of the machinery rather than part of the document.
    hidden: Vec<usize>,
    /// The files the rendering has drawn on, the document first.
    files: Vec<usize>,
    /// What is known about each id, in the order they were given out.
    nodes: Vec<NodeEntry>,
    /// The number of the last id given out.
    given: u64,
}

/// What a map holds so far.
pub struct MapView {
    pub main: usize,
    pub hidden: Seq<usize>,
    pub files: Seq<usize>,
    pub nodes: Seq<NodeView>,
    pub given: u64,
}

impl MapView {
    /// A map that holds nothing yet but the document.
    pub open spec fn start(main: usize, hidden: Seq<usize>) -> MapView {
        MapView { main, hidden, files: seq![main], nodes: seq![], given: 0 }
    }

    /// Whether a file is part of the machinery: the reader has no copy of it
    /// and cannot annotate it.
    pub open spec fn hides(self, file: usize) -> bool {
        file != self.main && self.hidden.contains(file)
    }

    /// The number of the next id.
    pub open spec fn next(self) -> u64 {
        self.given.wrapping_add(1)
    }

    /// The map after one more id was given out.
    pub open spec fn counted(self) -> MapView {
        MapView { given: self.next(), ..self }
    }

    /// The map after a file came up.
    pub open spec fn with_file(self, file: usize) -> MapView {
        MapView {
            files: match find(self.files, seq![file]) {
                Some(_) => self.files,
                None => self.files.push(file),
            },
            ..self
        }
    }

    /// Where a file sits in the map, or will once it has come up.
    pub open spec fn number(self, file: usize) -> int {
        match find(self.files, seq![file]) {
            Some(at) => at,
            None => self.files.len() as int,
        }
    }

    /// Where a place is in terms of the map, unless the reader has no copy of
    /// its file.
    pub open spec fn located(self, place: Option<Place>) -> Option<SrcRange> {
        match place {
            Some(p) if !self.hides(p.file) => Some(
                SrcRange { file: self.number(p.file) as usize, start: p.start, end: p.end },
            ),
            _ => None,
        }
    }

    /// The map after a place came up.
    pub open spec fn with_place(self, place: Option<Place>) -> MapView {
        match place {
            Some(p) if !self.hides(p.file) => self.with_file(p.file),
            _ => self,
        }
    }

    /// The map after a node was recorded.
    pub open spec fn with(
        self,
        uid: Seq<char>,
        kind: NodeKind,
        range: Option<SrcRange>,
        segments: Seq<Segment>,
    ) -> MapView {
        MapView { nodes: with_node(self.nodes, NodeView { uid, kind, range, segments }), ..self }
    }

    /// The range recorded for an id.
    pub open spec fn at(self, uid: Seq<char>) -> Option<SrcRange> {
        match node_with(self.nodes, uid) {
            Some(n) => n.range,
            None => None,
        }
    }

    /// The map after a whole thing came up.
    pub open spec fn with_whole(self, uid: Seq<char>, kind: NodeKind, place: Option<Place>) -> MapView {
        self.with_place(place).with(uid, kind, self.located(place), seq![])
    }

    /// The map after a run of text came up.
    pub open spec fn with_run(
        self,
        uid: Seq<char>,
        kind: NodeKind,
        len: nat,
        place: Option<Place>,
    ) -> MapView {
        let range = self.located(place);
        self.with_place(place).with(
            uid,
            kind,
            range,
            match range {
                Some(r) => seq![
                    Segment { at: 0, len: len as usize, file: r.file, offset: r.start },
                ],
                None => seq![],
            },
        )
    }

    /// The map after a node turned out to be text.
    pub open spec fn as_text(self, uid: Seq<char>) -> MapView {
        match node_with(self.nodes, uid) {
            Some(n) => self.with(uid, NodeKind::Text, n.range, n.segments),
            None => self,
        }
    }

    /// The map after text was added to a node.
    pub open spec fn with_text(self, uid: Seq<char>, len: nat, place: Option<Place>) -> MapView {
        match self.located(place) {
            None => self,
            Some(r) => {
                let next = self.with_place(place);
                match node_with(next.nodes, uid) {
                    None => next,
                    Some(n) => next.with(
                        uid,
                        n.kind,
                        n.range,
                        n.segments.push(
                            Segment {
                                at: if n.segments.len() == 0 {
                                    0
                                } else {
                                    (n.segments.last().at + n.segments.last().len) as usize
                                },
                                len: len as usize,
                                file: r.file,
                                offset: r.start,
                            },
                        ),
                    ),
                }
            },
        }
    }

    /// The map after a node was given the range its contents cover.
    pub open spec fn covered(self, uid: Seq<char>, range: SrcRange) -> MapView {
        match node_with(self.nodes, uid) {
            None => self,
            Some(n) => match n.range {
                None => self.with(uid, n.kind, Some(range), n.segments),
                Some(known) => if (n.kind.region() || n.kind == NodeKind::Group) && known.file
                    == range.file {
                    self.with(uid, n.kind, Some(hull(known, range)), n.segments)
                } else {
                    self
                },
            },
        }
    }
}

impl View for Mapper {
    type V = MapView;

    closed spec fn view(&self) -> MapView {
        MapView {
            main: self.main,
            hidden: self.hidden@,
            files: self.files@,
            nodes: node_views(self.nodes@),
            given: self.given,
        }
    }
}

impl Mapper {
    /// Starts a map for a rendering of the document in file `main`. The files
    /// in `hidden` are left unmapped.
    pub fn new(main: usize, hidden: Vec<usize>) -> (r: Self)
        ensures
            r@ == MapView::start(main, hidden@),
    {
        let mut files: Vec<usize> = Vec::new();
        files.push(main);
        let r: Mapper = Mapper { main, hidden, files, nodes: Vec::new(), given: 0 };
        assert(r@.files =~= seq![main]);
        assert(r@.nodes =~= seq![]);
        r
    }

    /// The next id. Kept short: it appears once per element.
    pub fn uid(&mut self) -> (r: String)
        ensures
            r@ == uid_text(old(self)@.next() as nat),
            final(self)@ == old(self)@.counted(),
    {
        self.given = self.given.wrapping_add(1);
        let mut out: String = String::new();
        push(&mut out, 'n');
        push_decimal(&mut out, self.given);
        assert(out@ =~= uid_text(self.given as nat));
        out
    }

    /// Where a file sits in the map, adding it if this is the first time it has
    /// come up.
    fn file_index(&mut self, file: usize) -> (r: usize)
        ensures
            r == old(self)@.number(file),
            final(self)@ == old(self)@.with_file(file),
    {
        let n: usize = self.files.len();
        let mut i: usize = 0;
        while i < n && self.files[i] != file
            invariant
                i <= n,
                n == self.files@.len(),
                forall|k: int| 0 <= k < i ==> self.files@[k] != file,
                *self == *old(self),
            decreases n - i,
        {
            i = i + 1;
        }
        proof {
            lemma_find_one(self.files@, file, i as int);
        }
        if i == n {
            self.files.push(file);
        }
        i
    }

    /// Whether a file is part of the machinery.
    fn hides_file(&self, file: usize) -> (r: bool)
        ensures
            r == self@.hides(file),
    {
        if file == self.main {
            return false;
        }
        let mut i: usize = 0;
        while i < self.hidden.len()
            invariant
                i <= self.hidden@.len(),
                forall|k: int| 0 <= k < i ==> self.hidden@[k] != file,
                file != self.main,
            decreases self.hidden@.len() - i,
        {
            if self.hidden[i] == file {
                return true;
            }
            i = i + 1;
        }
        false
    }

    /// Where a place is in terms of the map, in whichever file it is.
    pub fn range_of(&mut self, place: Option<Place>) -> (r: Option<SrcRange>)
        ensures
            r == old(self)@.located(place),
            final(self)@ == old(self)@.with_place(place),
    {
        match place {
            None => None,
            Some(p) => {
                if self.hides_file(p.file) {
                    None
                } else {
                    let file: usize = self.file_index(p.file);
                    Some(SrcRange { file, start: p.start, end: p.end })
                }
            },
        }
    }

    /// Which node carries an id.
    fn find_node(&self, uid: &str) -> (r: Option<usize>)
        ensures
            match r {
                Some(at) => slot(self@.nodes, uid@) == Some(at as int) && at < self.nodes@.len()
                    && self.nodes@[at as int].uid@ == uid@,
                None => slot(self@.nodes, uid@) is None,
            },
    {
        let n: usize = self.nodes.len();
        let ghost all = uids(self@.nodes);
        let mut i: usize = 0;
        while i < n && !same(self.nodes[i].uid.as_str(), uid)
            invariant
                i <= n,
                n == self.nodes@.len(),
                all == uids(self@.nodes),
                forall|k: int| 0 <= k < i ==> all[k] != uid@,
            decreases n - i,
        {
            assert(all[i as int] == self.nodes@[i as int].uid@);
            i = i + 1;
        }
        proof {
            if i < n {
                assert(all[i as int] == self.nodes@[i as int].uid@);
            }
            lemma_find_one(all, uid@, i as int);
        }
        if i < n {
            Some(i)
        } else {
            None
        }
    }

    /// The range recorded for a node, if any.
    pub fn range_at(&self, uid: &str) -> (r: Option<SrcRange>)
        ensures
            r == self@.at(uid@),
    {
        match self.find_node(uid) {
            Some(at) => self.nodes[at].range,
            None => None,
        }
    }

    /// The number of the document's file.
    pub fn document_file(&self) -> (r: usize)
        ensures
            r == self@.main,
    {
        self.main
    }

    /// The index the document itself has, for a caller that resolved a range
    /// against it by hand.
    pub fn document_index(&self) -> (r: usize)
        ensures
            r == 0,
    {
        0
    }

    /// Records a node, in place of one with its id.
    fn put(&mut self, n: NodeEntry)
        ensures
            final(self)@ == old(self)@.with(n@.uid, n.kind, n.range, n@.segments),
    {
        let ghost v = n@;
        match self.find_node(n.uid.as_str()) {
            Some(at) => {
                self.nodes.set(at, n);
                assert(self@.nodes =~= old(self)@.nodes.update(at as int, v));
            },
            None => {
                self.nodes.push(n);
                assert(self@.nodes =~= old(self)@.nodes.push(v));
            },
        }
    }

    /// Records a whole thing whose place in the source is already known.
    pub fn node_at(&mut self, uid: &str, kind: NodeKind, range: Option<SrcRange>)
        ensures
            final(self)@ == old(self)@.with(uid@, kind, range, seq![]),
    {
        let segments: Vec<Segment> = Vec::new();
        assert(segments@ =~= seq![]);
        self.put(NodeEntry { uid: uid.to_string(), kind, range, segments });
    }

    /// Records a whole thing: an equation, a drawing, a paragraph.
    pub fn node(&mut self, uid: &str, kind: NodeKind, place: Option<Place>)
        ensures
            final(self)@ == old(self)@.with_whole(uid@, kind, place),
    {
        let range: Option<SrcRange> = self.range_of(place);
        self.node_at(uid, kind, range);
    }

    /// Records a run of text: what it says, and where those characters came
    /// from.
    pub fn text(&mut self, uid: &str, kind: NodeKind, text: &str, place: Option<Place>)
        ensures
            final(self)@ == old(self)@.with_run(uid@, kind, text@.len(), place),
    {
        let range: Option<SrcRange> = self.range_of(place);
        let mut segments: Vec<Segment> = Vec::new();
        let len: usize = chars_of(text).len();
        if let Some(r) = range {
            segments.push(Segment { at: 0, len, file: r.file, offset: r.start });
        }
        assert(segments@ =~= match range {
            Some(r) => seq![Segment { at: 0, len, file: r.file, offset: r.start }],
            None => seq![],
        });
        self.put(NodeEntry { uid: uid.to_string(), kind, range, segments });
    }

    /// Adds text to a node that already has an entry, for an element that holds
    /// a single run and carries it directly rather than in a wrapper.
    pub fn add_text(&mut self, uid: &str, text: &str, place: Option<Place>)
        requires
            room_after(old(self)@.nodes, uid@),
        ensures
            final(self)@ == old(self)@.with_text(uid@, text@.len(), place),
    {
        let len: usize = chars_of(text).len();
        match self.range_of(place) {
            None => {},
            Some(r) => match self.find_node(uid) {
                None => {},
                Some(at) => {
                    let ghost before = self@.nodes;
                    assert(before[at as int] == self.nodes@[at as int]@);
                    let count: usize = self.nodes[at].segments.len();
                    let from: usize = if count == 0 {
                        0
                    } else {
                        let last: Segment = self.nodes[at].segments[count - 1];
                        last.at + last.len
                    };
                    let seg: Segment = Segment { at: from, len, file: r.file, offset: r.start };
                    self.nodes[at].segments.push(seg);
                    assert(self@.nodes =~= before.update(
                        at as int,
                        NodeView {
                            segments: before[at as int].segments.push(seg),
                            ..before[at as int]
                        },
                    ));
                },
            },
        }
    }

    /// Records that a node is a run of text, for an element that holds one and
    /// carries it directly: whatever its tag suggests, it has characters to
    /// point between.
    pub fn set_text(&mut self, uid: &str, text: &str, place: Option<Place>)
        requires
            room_after(old(self)@.nodes, uid@),
        ensures
            final(self)@ == old(self)@.as_text(uid@).with_text(uid@, text@.len(), place),
    {
        match self.find_node(uid) {
            None => {},
            Some(at) => {
                let ghost before = self@.nodes;
                assert(before[at as int] == self.nodes@[at as int]@);
                self.nodes[at].kind = NodeKind::Text;
                assert(self@.nodes =~= before.update(
                    at as int,
                    NodeView { kind: NodeKind::Text, ..before[at as int] },
                ));
                proof {
                    assert(uids(self@.nodes) =~= uids(before));
                }
            },
        }
        self.add_text(uid, text, place);
    }

    /// Gives a node the range its contents cover.
    ///
    /// A container carries no position of its own, but what is inside it does.
    /// A region that does carry one carries that of the first thing in it,
    /// which is not where the region ends. Anything smaller keeps the range it
    /// has, which is the text it is made of.
    pub fn cover(&mut self, uid: &str, range: SrcRange)
        ensures
            final(self)@ == old(self)@.covered(uid@, range),
    {
        match self.find_node(uid) {
            None => {},
            Some(at) => {
                let ghost before = self@.nodes;
                assert(before[at as int] == self.nodes@[at as int]@);
                let kind: NodeKind = self.nodes[at].kind;
                let next: SrcRange = match self.nodes[at].range {
                    None => range,
                    Some(known) => {
                        if (kind.is_block() || kind == NodeKind::Group) && known.file
                            == range.file {
                            hull_of(known, range)
                        } else {
                            return;
                        }
                    },
                };
                self.nodes[at].range = Some(next);
                assert(self@.nodes =~= before.update(
                    at as int,
                    NodeView { range: Some(next), ..before[at as int] },
                ));
            },
        }
    }
}

/// What is recorded for an id is what is read for it, and the other ids keep what they had.
pub proof fn what_is_recorded_is_read(
    m: MapView,
    uid: Seq<char>,
    kind: NodeKind,
    range: Option<SrcRange>,
    segments: Seq<Segment>,
)
    ensures
        m.with(uid, kind, range, segments).at(uid) == range,
        node_with(m.with(uid, kind, range, segments).nodes, uid) == Some(
            NodeView { uid, kind, range, segments },
        ),
        forall|other: Seq<char>|
            other != uid ==> #[trigger] node_with(m.with(uid, kind, range, segments).nodes, other)
                == node_with(m.nodes, other) && m.with(uid, kind, range, segments).at(other)
                == m.at(other),
{
    let n = NodeView { uid, kind, range, segments };
    let next = m.with(uid, kind, range, segments);
    lemma_found_one(uids(m.nodes), uid);
    match slot(m.nodes, uid) {
        Some(at) => {
            assert(uids(next.nodes) =~= uids(m.nodes));
        },
        None => {
            let end = m.nodes.len() as int;
            assert(uids(next.nodes) =~= uids(m.nodes).push(uid));
            lemma_find_one(uids(next.nodes), uid, end);
        },
    }
    assert forall|other: Seq<char>| other != uid implies #[trigger] node_with(next.nodes, other)
        == node_with(m.nodes, other) && next.at(other) == m.at(other) by {
        lemma_found_one(uids(m.nodes), other);
        match slot(m.nodes, other) {
            Some(k) => {
                assert(uids(m.nodes)[k] == m.nodes[k].uid);
                lemma_find_one(uids(next.nodes), other, k);
                assert(next.nodes[k] == m.nodes[k]);
            },
            None => {
                let total = next.nodes.len() as int;
                assert forall|k: int| 0 <= k < total implies uids(next.nodes)[k] != other by {
                    if k < m.nodes.len() {
                        assert(uids(m.nodes)[k] == m.nodes[k].uid);
                    }
                }
                lemma_find_one(uids(next.nodes), other, total);
            },
        }
    }
}

/// A region or a container that is told what its contents cover reaches around both what it
/// had and what it is told, and no further: it starts where the first of the two does and ends
/// where the last of them does. One that had nothing has what it is told. Anything smaller, and
/// what is in another file, stays as it is, and so does every other node.
pub proof fn a_region_reaches_around_its_contents(
    m: MapView,
    uid: Seq<char>,
    kind: NodeKind,
    known: Option<SrcRange>,
    segments: Seq<Segment>,
    told: SrcRange,
)
    ensures
        ({
            let before = m.with(uid, kind, known, segments);
            let after = before.covered(uid, told);
            let holds = kind == NodeKind::Para || kind == NodeKind::Item || kind == NodeKind::Block
                || kind == NodeKind::Group;
            &&& known is None ==> after.at(uid) == Some(told)
            &&& known matches Some(had) ==> (after.at(uid) matches Some(r) && {
                &&& r.file == had.file
                &&& r.start <= had.start && had.end <= r.end
                &&& holds && had.file == told.file ==> r.start <= told.start && told.end <= r.end
                    && (r.start == had.start || r.start == told.start) && (r.end == had.end || r.end
                    == told.end)
                &&& !(holds && had.file == told.file) ==> r == had
            })
            &&& node_with(after.nodes, uid) matches Some(n) && n.kind == kind && n.segments
                == segments
            &&& forall|other: Seq<char>|
                other != uid ==> #[trigger] node_with(after.nodes, other) == node_with(
                    m.nodes,
                    other,
                )
        }),
{
    let before = m.with(uid, kind, known, segments);
    what_is_recorded_is_read(m, uid, kind, known, segments);
    let next = match known {
        None => told,
        Some(had) => hull(had, told),
    };
    what_is_recorded_is_read(before, uid, kind, Some(next), segments);
    assert forall|other: Seq<char>| other != uid implies #[trigger] node_with(
        before.covered(uid, told).nodes,
        other,
    ) == node_with(m.nodes, other) by {
        assert(node_with(before.nodes, other) == node_with(m.nodes, other));
    }
}

/// A run of text is recorded with where it came from, and its characters from the first on are
/// those of that place: the character a number of places into it came from there.
pub proof fn a_run_is_where_it_came_from(
    m: MapView,
    uid: Seq<char>,
    kind: NodeKind,
    len: nat,
    place: Place,
)
    requires
        m.files.len() > 0,
        m.files[0] == m.main,
        place.file == m.main,
        len <= usize::MAX,
    ensures
        ({
            let after = m.with_run(uid, kind, len, Some(place));
            &&& after.at(uid) == Some(SrcRange { file: 0, start: place.start, end: place.end })
            &&& node_with(after.nodes, uid) matches Some(n) && n.kind == kind && n.segments.len() == 1
                && n.segments[0].at == 0 && n.segments[0].len == len && n.segments[0].file == 0
                && n.segments[0].offset == place.start
        }),
{
    lemma_find_one(m.files, m.main, 0);
    let range = SrcRange { file: 0, start: place.start, end: place.end };
    what_is_recorded_is_read(
        m.with_place(Some(place)),
        uid,
        kind,
        Some(range),
        seq![Segment { at: 0, len: len as usize, file: 0, offset: place.start }],
    );
}

/// Text that is added to a node comes after the text it has: what it had stays, and the new
/// characters begin where those end.
pub proof fn added_text_comes_after(m: MapView, uid: Seq<char>, len: nat, place: Place)
    requires
        m.files.len() > 0,
        m.files[0] == m.main,
        place.file == m.main,
        len <= usize::MAX,
        room_after(m.nodes, uid),
        node_with(m.nodes, uid) is Some,
    ensures
        ({
            let had = node_with(m.nodes, uid)->0;
            let after = m.with_text(uid, len, Some(place));
            node_with(after.nodes, uid) matches Some(n) && {
                &&& n.kind == had.kind && n.range == had.range
                &&& n.segments.len() == had.segments.len() + 1
                &&& n.segments.drop_last() == had.segments
                &&& n.segments.last().len == len && n.segments.last().offset == place.start
                    && n.segments.last().file == 0
                &&& had.segments.len() == 0 ==> n.segments.last().at == 0
                &&& had.segments.len() > 0 ==> n.segments.last().at == had.segments.last().at
                    + had.segments.last().len
            }
        }),
{
    lemma_find_one(m.files, m.main, 0);
    let had = node_with(m.nodes, uid)->0;
    let next = m.with_place(Some(place));
    let seg = Segment {
        at: if had.segments.len() == 0 {
            0
        } else {
            (had.segments.last().at + had.segments.last().len) as usize
        },
        len: len as usize,
        file: 0,
        offset: place.start,
    };
    what_is_recorded_is_read(next, uid, had.kind, had.range, had.segments.push(seg));
    assert(had.segments.push(seg).drop_last() =~= had.segments);
}

/// A file keeps its number once it has come up, the document has the first, and no two files
/// share one.
pub proof fn a_file_keeps_its_number(m: MapView, file: usize, other: usize)
    requires
        m.files.contains(other),
    ensures
        m.with_file(file).number(other) == m.number(other),
        m.with_file(file).files.contains(file),
        m.with_file(file).number(file) == m.number(file),
        m.with_file(file).files[m.with_file(file).number(file)] == file,
        file != other ==> m.with_file(file).number(file) != m.with_file(file).number(other),
{
    let next = m.with_file(file);
    lemma_found_one(m.files, file);
    lemma_found_one(m.files, other);
    let at = find(m.files, seq![other])->0;
    lemma_find_one(next.files, other, at);
    match find(m.files, seq![file]) {
        Some(k) => {
            assert(next.files[k] == file);
        },
        None => {
            lemma_find_one(next.files, file, m.files.len() as int);
            assert(next.files[m.files.len() as int] == file);
        },
    }
}

/// What comes out of a file that the reader has no copy of is not placed, and everything else
/// is, where it is.
pub proof fn only_the_machinery_is_hidden(m: MapView, place: Place)
    requires
        m.files.len() < usize::MAX,
    ensures
        place.file != m.main && m.hidden.contains(place.file) ==> m.located(Some(place)) is None
            && m.with_place(Some(place)) == m,
        place.file == m.main || !m.hidden.contains(place.file) ==> (m.located(
            Some(place),
        ) matches Some(r) && r.start == place.start && r.end == place.end && m.with_place(
            Some(place),
        ).files[r.file as int] == place.file),
        m.located(None) is None,
{
    lemma_found_one(m.files, place.file);
}

/// Recording a node keeps every id on one node alone.
pub proof fn ids_stay_unique(nodes: Seq<NodeView>, n: NodeView)
    requires
        uids_unique(nodes),
    ensures
        uids_unique(with_node(nodes, n)),
{
    lemma_found_one(uids(nodes), n.uid);
    assert(forall|k: int| 0 <= k < nodes.len() ==> uids(nodes)[k] == (#[trigger] nodes[k]).uid);
}

// -------------------------------------------------------- ranges by inference

/// A text without the white space and the anchors at its end.
pub open spec fn without_anchors(text: Seq<char>) -> Seq<char>
    decreases text.len(),
{
    let kept = trim_end(text);
    if kept.len() > 0 && kept.last() == '>' {
        match rfind(kept, seq!['<']) {
            Some(open) if stands_at(kept, ANCHOR_OPENING@, open) => {
                proof {
                    lemma_trim_end(text);
                    lemma_rfind(kept, seq!['<']);
                }
                without_anchors(kept.take(open))
            },
            _ => kept,
        }
    } else {
        kept
    }
}

/// The stretch of a document between two places, without the white space at its
/// edges and the anchors at its end: a label written after an expression is not
/// part of it. Between places inside characters there is none.
pub open spec fn stretch(text: Seq<char>, start: int, end: int) -> Option<SrcRange> {
    if start >= end || !boundary(text, start) || !boundary(text, end) {
        None
    } else {
        let body = trim_start(chars_between(text, start, end));
        let from = end - encode_utf8(body).len();
        let upto = from + encode_utf8(without_anchors(body)).len();
        if from < upto {
            Some(SrcRange { file: 0, start: from as usize, end: upto as usize })
        } else {
            None
        }
    }
}

/// What is left of a text without its anchors is a start of it.
proof fn lemma_without_anchors(text: Seq<char>)
    ensures
        without_anchors(text).len() <= text.len(),
        without_anchors(text) == text.take(without_anchors(text).len() as int),
    decreases text.len(),
{
    let kept = trim_end(text);
    lemma_trim_end(text);
    if kept.len() > 0 && kept.last() == '>' {
        match rfind(kept, seq!['<']) {
            Some(open) if stands_at(kept, ANCHOR_OPENING@, open) => {
                lemma_rfind(kept, seq!['<']);
                lemma_without_anchors(kept.take(open));
                let n = without_anchors(text).len() as int;
                assert(kept.take(open).take(n) =~= text.take(n));
            },
            _ => {},
        }
    }
}

/// The start of a text takes no more bytes than the text.
proof fn lemma_take_shorter(text: Seq<char>, n: int)
    requires
        0 <= n <= text.len(),
    ensures
        encode_utf8(text.take(n)).len() + encode_utf8(text.skip(n)).len() == encode_utf8(text).len(),
{
    lemma_encode_concat(text.take(n), text.skip(n));
    assert(text.take(n) + text.skip(n) =~= text);
}

/// The stretch of a document between two places, without the white space and
/// anchors at its edges.
pub fn between(text: &str, start: usize, end: usize) -> (r: Option<SrcRange>)
    ensures
        r == stretch(text@, start as int, end as int),
{
    if start >= end || !text.is_char_boundary(start) || !text.is_char_boundary(end) {
        return None;
    }
    proof {
        lemma_encoded(text@);
        lemma_boundary_inside(encode_utf8(text@), end as int);
    }
    let part: &str = slice(text, start, end);
    let chars: Vec<char> = chars_of(part);
    let body: &[char] = trim_start_slice(chars.as_slice());
    let opening: Vec<char> = chars_of(ANCHOR_OPENING);
    let less: Vec<char> = vec!['<'];
    assert(less@ =~= seq!['<']);
    let mut kept: &[char] = trim_end_slice(body);
    let mut more: bool = true;
    proof {
        lemma_trim_end(body@);
    }
    while more
        invariant
            less@ == seq!['<'],
            opening@ == ANCHOR_OPENING@,
            more ==> exists|t: Seq<char>| kept@ == trim_end(t) && without_anchors(body@)
                == #[trigger] without_anchors(t),
            !more ==> kept@ == without_anchors(body@),
        decreases kept@.len(), (if more { 1int } else { 0int }),
    {
        let n: usize = kept.len();
        let ghost t = choose|t: Seq<char>| kept@ == trim_end(t) && without_anchors(body@)
            == #[trigger] without_anchors(t);
        more = false;
        if n > 0 && kept[n - 1] == '>' {
            match rfind_in(kept, less.as_slice()) {
                Some(open) => {
                    if stands(kept, opening.as_slice(), open) {
                        let (head, _) = cut(kept, open, 0);
                        proof {
                            lemma_trim_end(head@);
                            assert(without_anchors(t) == without_anchors(head@));
                        }
                        kept = trim_end_slice(head);
                        more = true;
                    }
                },
                None => {},
            }
        }
    }
    let left: usize = byte_len(string_of(body).as_str());
    let len: usize = byte_len(string_of(kept).as_str());
    proof {
        lemma_trim_start(part@);
        lemma_take_shorter(part@, part@.len() - body@.len());
        lemma_without_anchors(body@);
        lemma_take_shorter(body@, kept@.len() as int);
        assert(part@.skip(part@.len() - body@.len()) =~= body@);
    }
    let from: usize = end - left;
    if len > 0 {
        Some(SrcRange { file: 0, start: from, end: from + len })
    } else {
        None
    }
}

/// Where the last stretch of the document among some ranges ends.
pub open spec fn end_before(ranges: Seq<Option<SrcRange>>, n: int) -> Option<usize>
    decreases n,
{
    if n <= 0 || n > ranges.len() {
        None
    } else {
        match ranges[n - 1] {
            Some(r) if r.file == 0 => Some(r.end),
            _ => end_before(ranges, n - 1),
        }
    }
}

/// Where the first stretch of the document among some ranges starts.
pub open spec fn start_after(ranges: Seq<Option<SrcRange>>, n: int) -> Option<usize>
    decreases ranges.len() - n,
{
    if n < 0 || n >= ranges.len() {
        None
    } else {
        match ranges[n] {
            Some(r) if r.file == 0 => Some(r.start),
            _ => start_after(ranges, n + 1),
        }
    }
}

/// The ranges of some nodes.
pub open spec fn ranges_of(nodes: Seq<NodeView>) -> Seq<Option<SrcRange>> {
    nodes.map_values(|n: NodeView| n.range)
}

/// The range of one of some nodes: its own, or else the stretch of the document
/// between its neighbours, which is the expression that produced it.
pub open spec fn inferred(ranges: Seq<Option<SrcRange>>, text: Seq<char>, i: int) -> Option<
    SrcRange,
> {
    match ranges[i] {
        Some(r) => Some(r),
        None => match (end_before(ranges, i), start_after(ranges, i + 1)) {
            (Some(start), Some(end)) => stretch(text, start as int, end as int),
            _ => None,
        },
    }
}

/// What is known of a node's range is kept; what is inferred for one without a range lies
/// between the end of the last stretch of the document before it and the start of the next
/// after it; and where there is none on either side nothing is inferred.
pub proof fn what_is_inferred_lies_between(nodes: Seq<NodeView>, text: Seq<char>, i: int)
    requires
        0 <= i < nodes.len(),
    ensures
        ({
            let after = with_inferred(nodes, text)[i];
            &&& with_inferred(nodes, text).len() == nodes.len()
            &&& after.uid == nodes[i].uid && after.kind == nodes[i].kind && after.segments
                == nodes[i].segments
            &&& nodes[i].range is Some ==> after.range == nodes[i].range
            &&& nodes[i].range is None && after.range is Some ==> {
                let r = after.range->0;
                &&& r.file == 0 && r.start < r.end
                &&& exists|a: int, b: int|
                    0 <= a < i < b < nodes.len() && #[trigger] neighbours(nodes, a, i, b)
                        && (nodes[a].range->0).end <= r.start && r.end <= (nodes[b].range->0).start
            }
            &&& nodes[i].range is None && (forall|k: int|
                0 <= k < i ==> !((#[trigger] nodes[k]).range matches Some(r) && r.file == 0))
                ==> after.range is None
            &&& nodes[i].range is None && (forall|k: int|
                i < k < nodes.len() ==> !((#[trigger] nodes[k]).range matches Some(r) && r.file
                    == 0)) ==> after.range is None
        }),
{
    let ranges = ranges_of(nodes);
    assert(forall|k: int| 0 <= k < nodes.len() ==> ranges[k] == (#[trigger] nodes[k]).range);
    lemma_end_before(ranges, i);
    lemma_start_after(ranges, i + 1);
    if nodes[i].range is None {
        if let Some(start) = end_before(ranges, i) {
            if let Some(end) = start_after(ranges, i + 1) {
                lemma_stretch_inside(text, start, end);
                let a = choose|a: int| #[trigger] nearest(ranges, a, a, i) && a < i && (
                ranges[a]->Some_0).end == start;
                let b = choose|b: int| #[trigger] nearest(ranges, b, i, b) && i + 1 <= b && (
                ranges[b]->Some_0).start == end;
                assert(nodes[a].range == ranges[a] && nodes[b].range == ranges[b]);
                assert(neighbours(nodes, a, i, b)) by {
                    assert forall|k: int| a < k < b && k != i implies !((
                    #[trigger] nodes[k]).range matches Some(r) && r.file == 0) by {
                        assert(ranges[k] == nodes[k].range);
                    }
                }
            }
        }
    }
}

/// Whether two nodes are the nearest on either side of one that came out of the document.
pub open spec fn neighbours(nodes: Seq<NodeView>, a: int, i: int, b: int) -> bool {
    &&& nodes[a].range matches Some(r) && r.file == 0
    &&& nodes[b].range matches Some(r) && r.file == 0
    &&& forall|k: int|
        a < k < b && k != i ==> !((#[trigger] nodes[k]).range matches Some(r) && r.file == 0)
}

/// Whether one of some ranges is a stretch of the document, and none between two places is.
spec fn nearest(ranges: Seq<Option<SrcRange>>, at: int, from: int, to: int) -> bool {
    &&& 0 <= at < ranges.len()
    &&& ranges[at] matches Some(r) && r.file == 0
    &&& forall|k: int| from < k < to ==> !((#[trigger] ranges[k]) matches Some(r) && r.file == 0)
}

/// Where the last stretch before a place among some ranges is.
proof fn lemma_end_before(ranges: Seq<Option<SrcRange>>, n: int)
    requires
        0 <= n <= ranges.len(),
    ensures
        match end_before(ranges, n) {
            Some(end) => exists|a: int| #[trigger] nearest(ranges, a, a, n) && a < n && (
            ranges[a]->Some_0).end == end,
            None => forall|k: int|
                0 <= k < n ==> !((#[trigger] ranges[k]) matches Some(r) && r.file == 0),
        },
    decreases n,
{
    if n > 0 {
        if ranges[n - 1] matches Some(r) && r.file == 0 {
            assert(nearest(ranges, n - 1, n - 1, n));
        } else {
            lemma_end_before(ranges, n - 1);
            if let Some(end) = end_before(ranges, n - 1) {
                let a = choose|a: int| #[trigger] nearest(ranges, a, a, n - 1) && a < n - 1 && (
                ranges[a]->Some_0).end == end;
                assert(nearest(ranges, a, a, n));
            }
        }
    }
}

/// Where the first stretch from a place on among some ranges is.
proof fn lemma_start_after(ranges: Seq<Option<SrcRange>>, n: int)
    requires
        0 <= n <= ranges.len(),
    ensures
        match start_after(ranges, n) {
            Some(start) => exists|b: int| #[trigger] nearest(ranges, b, n - 1, b) && n <= b && (
            ranges[b]->Some_0).start == start,
            None => forall|k: int|
                n <= k < ranges.len() ==> !((#[trigger] ranges[k]) matches Some(r) && r.file == 0),
        },
    decreases ranges.len() - n,
{
    if n < ranges.len() {
        if ranges[n] matches Some(r) && r.file == 0 {
            assert(nearest(ranges, n, n - 1, n));
        } else {
            lemma_start_after(ranges, n + 1);
            if let Some(start) = start_after(ranges, n + 1) {
                let b = choose|b: int| #[trigger] nearest(ranges, b, n, b) && n + 1 <= b && (
                ranges[b]->Some_0).start == start;
                assert(nearest(ranges, b, n - 1, b));
            }
        }
    }
}

/// A stretch between two places lies between them.
proof fn lemma_stretch_inside(text: Seq<char>, start: usize, end: usize)
    ensures
        stretch(text, start as int, end as int) matches Some(r) ==> r.file == 0 && start <= r.start
            < r.end <= end,
{
    if start < end && boundary(text, start as int) && boundary(text, end as int) {
        lemma_encoded(text);
        lemma_boundary_inside(encode_utf8(text), end as int);
        lemma_boundary_take(encode_utf8(text), start as int, end as int);
        let bytes = encode_utf8(text);
        let head = bytes.subrange(0, end as int);
        lemma_boundary_skip(head, start as int, end as int);
        assert(head.subrange(start as int, end as int) =~= bytes.subrange(
            start as int,
            end as int,
        ));
        decode_utf8_encode_utf8(bytes.subrange(start as int, end as int));
        let part = chars_between(text, start as int, end as int);
        let body = trim_start(part);
        lemma_trim_start(part);
        lemma_take_shorter(part, part.len() - body.len());
        assert(part.skip(part.len() - body.len()) =~= body);
        lemma_without_anchors(body);
        lemma_take_shorter(body, without_anchors(body).len() as int);
    }
}

/// Some nodes with the ranges that can be inferred.
pub open spec fn with_inferred(nodes: Seq<NodeView>, text: Seq<char>) -> Seq<NodeView> {
    Seq::new(
        nodes.len(),
        |i: int| NodeView { range: inferred(ranges_of(nodes), text, i), ..nodes[i] },
    )
}

// ---------------------------------------------------------------- duplicates

/// Whether two nodes are regions that cover exactly the same.
pub open spec fn same_region(a: NodeView, b: NodeView) -> bool {
    &&& a.kind.region()
    &&& b.kind.region()
    &&& a.range is Some
    &&& a.range == b.range
}

/// Whether one of some nodes only wraps a later one.
pub open spec fn wraps(nodes: Seq<NodeView>, i: int) -> bool {
    exists|j: int| i < j < nodes.len() && same_region(nodes[i], #[trigger] nodes[j])
}

/// Some nodes with every region that covers exactly what a later one covers
/// turned into a container: ids are given out from the outside in, so the
/// earlier one is the wrapper.
pub open spec fn without_wrappers(nodes: Seq<NodeView>) -> Seq<NodeView> {
    Seq::new(
        nodes.len(),
        |i: int|
            if wraps(nodes, i) {
                NodeView { kind: NodeKind::Group, ..nodes[i] }
            } else {
                nodes[i]
            },
    )
}

/// No two regions of a finished map cover exactly the same.
pub proof fn regions_differ(nodes: Seq<NodeView>, i: int, j: int)
    requires
        0 <= i < j < nodes.len(),
    ensures
        !same_region(without_wrappers(nodes)[i], without_wrappers(nodes)[j]),
{
    if same_region(without_wrappers(nodes)[i], without_wrappers(nodes)[j]) {
        assert(same_region(nodes[i], nodes[j]));
    }
}

/// Every region that a map knew is still there once, however many wrapped it:
/// the last node to cover a stretch stays what it was.
pub proof fn a_region_stays(nodes: Seq<NodeView>, i: int)
    requires
        0 <= i < nodes.len(),
        nodes[i].kind.region(),
        nodes[i].range is Some,
    ensures
        exists|j: int|
            i <= j < nodes.len() && #[trigger] without_wrappers(nodes)[j] == nodes[j]
                && nodes[j].kind.region() && nodes[j].range == nodes[i].range,
    decreases nodes.len() - i,
{
    if wraps(nodes, i) {
        let j = choose|j: int| i < j < nodes.len() && same_region(nodes[i], #[trigger] nodes[j]);
        a_region_stays(nodes, j);
    } else {
        assert(without_wrappers(nodes)[i] == nodes[i]);
    }
}

// ------------------------------------------------------------- the finished map

/// A finished map.
#[derive(Debug)]
pub struct RenderMap {
    /// What the rendering is recognised by.
    pub render: String,
    /// The numbers of the files it draws on, the document first.
    pub files: Vec<usize>,
    /// What is known about each of its nodes.
    pub nodes: Vec<NodeEntry>,
}

/// A file a rendering draws on.
#[derive(Debug)]
pub struct FileEntry {
    /// Where the file is.
    pub path: String,
    /// What its contents were recognised by when the rendering was made, so
    /// that a stale position can be detected later. Empty for a file that
    /// could not be read.
    pub hash: String,
}

/// What a map records of a file.
pub fn file_entry(path: &str, contents: Option<&str>) -> (r: FileEntry)
    ensures
        r.path@ == path@,
        r.hash@ == match opt_str(contents) {
            Some(text) => short_hash(encode_utf8(text)),
            None => seq![],
        },
{
    let hash: String = match contents {
        Some(text) => hash_of(text.as_bytes()),
        None => {
            let none: String = String::new();
            assert(none@ =~= seq![]);
            none
        },
    };
    FileEntry { path: path.to_string(), hash }
}

impl Mapper {
    /// Fills in the ranges that could not be read from a place.
    fn infer_ranges(&mut self, text: &str)
        ensures
            final(self)@ == (MapView { nodes: with_inferred(old(self)@.nodes, text@), ..old(self)@ }),
    {
        let n: usize = self.nodes.len();
        let ghost before = self@.nodes;
        let ghost ranges = ranges_of(before);
        // Where the next known stretch after each node starts.
        let mut starts: Vec<Option<usize>> = Vec::new();
        let mut known: Vec<Option<SrcRange>> = Vec::new();
        let mut i: usize = 0;
        while i < n
            invariant
                i <= n,
                n == self.nodes@.len(),
                *self == *old(self),
                ranges == ranges_of(self@.nodes),
                known@ == ranges.take(i as int),
                starts@.len() == i,
            decreases n - i,
        {
            assert(ranges[i as int] == self.nodes@[i as int]@.range);
            known.push(self.nodes[i].range);
            starts.push(None);
            assert(known@ =~= ranges.take(i + 1));
            i = i + 1;
        }
        assert(known@ =~= ranges);
        let mut next: Option<usize> = None;
        while i > 0
            invariant
                i <= n,
                n == ranges.len(),
                known@ == ranges,
                starts@.len() == n,
                next == start_after(ranges, i as int),
                forall|k: int| i <= k < n ==> #[trigger] starts@[k] == start_after(ranges, k + 1),
            decreases i,
        {
            i = i - 1;
            starts.set(i, next);
            match known[i] {
                Some(r) => {
                    if r.file == 0 {
                        next = Some(r.start);
                    }
                },
                None => {},
            }
        }
        let mut last: Option<usize> = None;
        while i < n
            invariant
                i <= n,
                n == self.nodes@.len(),
                n == ranges.len(),
                n == before.len(),
                known@ == ranges,
                ranges == ranges_of(before),
                starts@.len() == n,
                last == end_before(ranges, i as int),
                forall|k: int| 0 <= k < n ==> #[trigger] starts@[k] == start_after(ranges, k + 1),
                self@ == (MapView { nodes: self@.nodes, ..old(self)@ }),
                forall|k: int|
                    0 <= k < i ==> #[trigger] self@.nodes[k] == (NodeView {
                        range: inferred(ranges, text@, k),
                        ..before[k]
                    }),
                forall|k: int| i <= k < n ==> #[trigger] self@.nodes[k] == before[k],
            decreases n - i,
        {
            let ghost was = self@.nodes;
            assert(was[i as int] == before[i as int]);
            assert(ranges[i as int] == before[i as int].range);
            assert(self.nodes@[i as int]@ == was[i as int]);
            match known[i] {
                Some(r) => {
                    if r.file == 0 {
                        last = Some(r.end);
                    }
                },
                None => {
                    if let Some(start) = last {
                        if let Some(end) = starts[i] {
                            let found: Option<SrcRange> = between(text, start, end);
                            self.nodes[i].range = found;
                            assert(self@.nodes =~= was.update(
                                i as int,
                                NodeView { range: found, ..was[i as int] },
                            ));
                        }
                    }
                },
            }
            assert(self@.nodes[i as int] == (NodeView {
                range: inferred(ranges, text@, i as int),
                ..before[i as int]
            }));
            i = i + 1;
        }
        assert(self@.nodes =~= with_inferred(before, text@));
    }

    /// Whether one of the nodes only wraps a later one.
    fn is_wrapper(&self, i: usize) -> (r: bool)
        requires
            i < self@.nodes.len(),
        ensures
            r == wraps(self@.nodes, i as int),
    {
        let n: usize = self.nodes.len();
        let ghost all = self@.nodes;
        assert(all[i as int] == self.nodes@[i as int]@);
        if !self.nodes[i].kind.is_block() {
            return false;
        }
        match self.nodes[i].range {
            None => false,
            Some(range) => {
                let mut j: usize = i + 1;
                while j < n
                    invariant
                        i < j <= n,
                        n == self.nodes@.len(),
                        all == self@.nodes,
                        all[i as int].range == Some(range),
                        all[i as int].kind.region(),
                        forall|k: int| i < k < j ==> !same_region(all[i as int], #[trigger] all[k]),
                    decreases n - j,
                {
                    assert(all[j as int] == self.nodes@[j as int]@);
                    if self.nodes[j].kind.is_block() {
                        if let Some(other) = self.nodes[j].range {
                            if other == range {
                                assert(same_region(all[i as int], all[j as int]));
                                return true;
                            }
                        }
                    }
                    j = j + 1;
                }
                false
            },
        }
    }

    /// Turns a region that covers exactly what another region covers into a
    /// container.
    ///
    /// The exporter wraps a heading in a spacing `div`, so the two say the same
    /// about the same stretch of source. Offering both means two frames around
    /// one heading.
    fn demote_duplicates(&mut self)
        ensures
            final(self)@ == (MapView { nodes: without_wrappers(old(self)@.nodes), ..old(self)@ }),
    {
        let n: usize = self.nodes.len();
        let ghost before = self@.nodes;
        let mut i: usize = 0;
        while i < n
            invariant
                i <= n,
                n == self.nodes@.len(),
                n == before.len(),
                self@ == (MapView { nodes: self@.nodes, ..old(self)@ }),
                forall|k: int|
                    0 <= k < i ==> #[trigger] self@.nodes[k] == without_wrappers(before)[k],
                forall|k: int| i <= k < n ==> #[trigger] self@.nodes[k] == before[k],
            decreases n - i,
        {
            let ghost was = self@.nodes;
            let wrapper: bool = self.is_wrapper(i);
            proof {
                assert(was[i as int] == before[i as int]);
                assert(self.nodes@[i as int]@ == was[i as int]);
                assert(wraps(was, i as int) == wraps(before, i as int)) by {
                    if wraps(was, i as int) {
                        let j = choose|j: int|
                            i < j < was.len() && same_region(was[i as int], #[trigger] was[j]);
                        assert(same_region(before[i as int], before[j]));
                    }
                    if wraps(before, i as int) {
                        let j = choose|j: int|
                            i < j < before.len() && same_region(
                                before[i as int],
                                #[trigger] before[j],
                            );
                        assert(same_region(was[i as int], was[j]));
                    }
                }
            }
            if wrapper {
                self.nodes[i].kind = NodeKind::Group;
                assert(self@.nodes =~= was.update(
                    i as int,
                    NodeView { kind: NodeKind::Group, ..was[i as int] },
                ));
            }
            assert(self@.nodes[i as int] == without_wrappers(before)[i as int]);
            i = i + 1;
        }
        assert(self@.nodes =~= without_wrappers(before));
    }

    /// The finished map of a rendering of a document.
    ///
    /// Elements with no place of their own are given the stretch of source
    /// between their neighbours: without this an annotation on such an element
    /// has nothing in the rendering to attach to.
    pub fn finish(self, render: String, text: &str) -> (r: RenderMap)
        ensures
            r.render@ == render@,
            r.files@ == self@.files,
            node_views(r.nodes@) == without_wrappers(with_inferred(self@.nodes, text@)),
    {
        let mut map: Mapper = self;
        map.infer_ranges(text);
        map.demote_duplicates();
        RenderMap { render, files: map.files, nodes: map.nodes }
    }
}

} // verus!
