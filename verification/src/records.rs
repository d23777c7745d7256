//! Plain data carried through the engine: raw items as the upstream API
//! reports them, display records produced by linearization, story summaries,
//! cached rows, and the gateway error taxonomy.

use vstd::prelude::*;

verus! {

/// A raw node of the reply tree, as retrieved from the upstream item API.
/// `children` is the upstream system's canonical reply order; the tombstone
/// flags mark nodes whose content was removed.
pub struct Item {
    pub id: u64,
    pub kind: Option<String>,
    pub author: Option<String>,
    pub created_at: u64,
    pub body: Option<String>,
    pub title: Option<String>,
    pub url: Option<String>,
    pub score: u64,
    pub descendants: u64,
    pub children: Vec<u64>,
    pub deleted: bool,
    pub dead: bool,
}

/// Mathematical image of an `Item`.
pub struct ItemView {
    pub id: u64,
    pub kind: Option<Seq<char>>,
    pub author: Option<Seq<char>>,
    pub created_at: u64,
    pub body: Option<Seq<char>>,
    pub title: Option<Seq<char>>,
    pub url: Option<Seq<char>>,
    pub score: u64,
    pub descendants: u64,
    pub children: Seq<u64>,
    pub deleted: bool,
    pub dead: bool,
}

pub open spec fn opt_str_view(s: Option<String>) -> Option<Seq<char>> {
    match s {
        Some(t) => Some(t@),
        None => None,
    }
}

impl View for Item {
    type V = ItemView;

    open spec fn view(&self) -> ItemView {
        ItemView {
            id: self.id,
            kind: opt_str_view(self.kind),
            author: opt_str_view(self.author),
            created_at: self.created_at,
            body: opt_str_view(self.body),
            title: opt_str_view(self.title),
            url: opt_str_view(self.url),
            score: self.score,
            descendants: self.descendants,
            children: self.children@,
            deleted: self.deleted,
            dead: self.dead,
        }
    }
}

/// One entry of the linearized output: the projection of an item, plus the
/// depth at which the depth-first walk emitted it (direct replies of the
/// thread root have depth 0).
pub struct Record {
    pub id: u64,
    pub author: Option<String>,
    pub created_at: u64,
    pub body: Option<String>,
    pub children: Vec<u64>,
    pub depth: usize,
}

/// Mathematical image of a `Record`.
pub struct RecordView {
    pub id: u64,
    pub author: Option<Seq<char>>,
    pub created_at: u64,
    pub body: Option<Seq<char>>,
    pub children: Seq<u64>,
    pub depth: nat,
}

/// The identity-free part of a record: what a tree node carries besides its
/// id and its position in the walk.
pub struct RecordData {
    pub author: Option<Seq<char>>,
    pub created_at: u64,
    pub body: Option<Seq<char>>,
    pub children: Seq<u64>,
}

impl View for Record {
    type V = RecordView;

    open spec fn view(&self) -> RecordView {
        RecordView {
            id: self.id,
            author: opt_str_view(self.author),
            created_at: self.created_at,
            body: opt_str_view(self.body),
            children: self.children@,
            depth: self.depth as nat,
        }
    }
}

impl RecordView {
    pub open spec fn data(self) -> RecordData {
        RecordData {
            author: self.author,
            created_at: self.created_at,
            body: self.body,
            children: self.children,
        }
    }
}

/// What a record looks like when the walk emits node `id` at `depth` with the
/// stored data `d`.
pub open spec fn record_at(id: u64, depth: nat, d: RecordData) -> RecordView {
    RecordView {
        id: id,
        author: d.author,
        created_at: d.created_at,
        body: d.body,
        children: d.children,
        depth: depth,
    }
}

/// The record data a retained item contributes to the tree: its projection,
/// with the children list still unfiltered.
pub open spec fn item_data(it: ItemView) -> RecordData {
    RecordData {
        author: it.author,
        created_at: it.created_at,
        body: it.body,
        children: it.children,
    }
}

impl Item {
    /// Projects a retained item to a record. The depth is a placeholder until
    /// the linearizer assigns the real one.
    pub fn into_record(self) -> (r: Record)
        ensures
            r@.data() == item_data(self@),
            r@.id == self@.id,
            r@.depth == 0nat,
    {
        Record {
            id: self.id,
            author: self.author,
            created_at: self.created_at,
            body: self.body,
            children: self.children,
            depth: 0,
        }
    }
}

/// A story summary for the feed listing, projected from an item that carries
/// a title.
pub struct Story {
    pub id: u64,
    pub title: String,
    pub url: Option<String>,
    pub score: u64,
    pub author: String,
    pub created_at: u64,
    pub descendants: u64,
    pub children: Vec<u64>,
}

/// Mathematical image of a `Story`.
pub struct StoryView {
    pub id: u64,
    pub title: Seq<char>,
    pub url: Option<Seq<char>>,
    pub score: u64,
    pub author: Seq<char>,
    pub created_at: u64,
    pub descendants: u64,
    pub children: Seq<u64>,
}

impl View for Story {
    type V = StoryView;

    open spec fn view(&self) -> StoryView {
        StoryView {
            id: self.id,
            title: self.title@,
            url: opt_str_view(self.url),
            score: self.score,
            author: self.author@,
            created_at: self.created_at,
            descendants: self.descendants,
            children: self.children@,
        }
    }
}

impl Item {
    /// Projects an item to a story summary: defined exactly for items that
    /// carry a title; a missing author becomes the empty name.
    pub fn into_story(self) -> (r: Option<Story>)
        ensures
            self@.title is Some <==> r is Some,
            r matches Some(s) ==> {
                &&& s@.id == self@.id
                &&& s@.title == self@.title->0
                &&& s@.url == self@.url
                &&& s@.score == self@.score
                &&& s@.author == if self@.author is Some {
                    self@.author->0
                } else {
                    Seq::<char>::empty()
                }
                &&& s@.created_at == self@.created_at
                &&& s@.descendants == self@.descendants
                &&& s@.children == self@.children
            },
    {
        match self.title {
            None => None,
            Some(title) => Some(Story {
                id: self.id,
                title,
                url: self.url,
                score: self.score,
                author: match self.author {
                    Some(a) => a,
                    None => String::new(),
                },
                created_at: self.created_at,
                descendants: self.descendants,
                children: self.children,
            }),
        }
    }
}

/// A persisted row of a thread cache entry: the record fields plus the
/// resolved parent id, which keeps the tree shape without recomputing the
/// traversal's attempted/missing state.
pub struct CachedRecord {
    pub id: u64,
    pub root_scope_id: u64,
    pub parent_id: Option<u64>,
    pub author: Option<String>,
    pub created_at: u64,
    pub body: Option<String>,
    pub children: Vec<u64>,
    pub depth: usize,
}

impl CachedRecord {
    /// The record this row stands for, ready to be fed back into the
    /// linearizer.
    pub fn into_record(self) -> (r: Record)
        ensures
            r@.id == self.id,
            r@.data() == (RecordData {
                author: opt_str_view(self.author),
                created_at: self.created_at,
                body: opt_str_view(self.body),
                children: self.children@,
            }),
            r@.depth == self.depth as nat,
    {
        Record {
            id: self.id,
            author: self.author,
            created_at: self.created_at,
            body: self.body,
            children: self.children,
            depth: self.depth,
        }
    }
}

impl CachedRecord {
    /// The row a record is persisted as, under a thread's root id and with
    /// its resolved parent.
    pub fn from_record(rec: Record, root_scope_id: u64, parent_id: Option<u64>) -> (r: Self)
        ensures
            r.id == rec@.id,
            r.root_scope_id == root_scope_id,
            r.parent_id == parent_id,
            opt_str_view(r.author) == rec@.author,
            r.created_at == rec@.created_at,
            opt_str_view(r.body) == rec@.body,
            r.children@ == rec@.children,
            r.depth as nat == rec@.depth,
    {
        CachedRecord {
            id: rec.id,
            root_scope_id,
            parent_id,
            author: rec.author,
            created_at: rec.created_at,
            body: rec.body,
            children: rec.children,
            depth: rec.depth,
        }
    }
}

/// A field-for-field copy of an optional text, for building records without
/// consuming their source.
pub(crate) fn clone_opt_string(s: &Option<String>) -> (r: Option<String>)
    ensures
        opt_str_view(r) == opt_str_view(*s),
{
    match s {
        Some(x) => Some(x.clone()),
        None => None,
    }
}

/// Whether an id list names `x`.
pub(crate) fn ids_contain(v: &Vec<u64>, x: u64) -> (r: bool)
    ensures
        r == v@.contains(x),
{
    let n = v.len();
    let mut i: usize = 0;
    while i < n
        invariant
            n == v@.len(),
            0 <= i <= n,
            forall|k: int| 0 <= k < i ==> v@[k] != x,
        decreases n - i,
    {
        if v[i] == x {
            return true;
        }
        i += 1;
    }
    false
}

/// A copy of an id list.
pub(crate) fn copy_ids(v: &Vec<u64>) -> (r: Vec<u64>)
    ensures
        r@ == v@,
{
    let n = v.len();
    let mut r: Vec<u64> = Vec::new();
    let mut i: usize = 0;
    while i < n
        invariant
            n == v@.len(),
            0 <= i <= n,
            r@ == v@.take(i as int),
        decreases n - i,
    {
        r.push(v[i]);
        proof {
            assert(r@ =~= v@.take(i + 1 as int));
        }
        i += 1;
    }
    proof {
        assert(v@.take(n as int) =~= v@);
    }
    r
}

/// How a single gateway request fails: the network itself (`Transport`), a
/// non-success status line (`HttpStatus`), or a payload that does not parse.
#[derive(Clone, Copy, PartialEq, Eq, Structural, Debug)]
pub enum GatewayError {
    Transport,
    HttpStatus(u16),
    Parse,
}

/// Whether a status line obliges the gateway to read the payload: exactly the
/// 2xx range.
pub fn status_is_success(status: u16) -> (r: bool)
    ensures
        r <==> 200 <= status < 300,
{
    200 <= status && status < 300
}

/// Classifies a status line: `Ok` for a success status, the `HttpStatus`
/// error otherwise.
pub fn classify_status(status: u16) -> (r: Result<(), GatewayError>)
    ensures
        r is Ok <==> 200 <= status < 300,
        r matches Err(e) ==> e == GatewayError::HttpStatus(status),
{
    if status_is_success(status) {
        Ok(())
    } else {
        Err(GatewayError::HttpStatus(status))
    }
}

} // verus!
