//! Directory listings and file-name search: the entries shown for a
//! directory, how a query is read, which walked entries are visible, which
//! names match, and which hits come back in which order.

use crate::config::{ensure_within_roots, outside_roots_message, root_index_for, ConfigStore};
use crate::external::{lowercase, string_from_chars, to_lowercase};
use crate::text::{trim, trimmed};
use crate::order::{insert_sorted, lemma_insert_sorted_at, lemma_stable_sort, stable_sort};
use crate::paths::{absolute_in, is_absolute_path, PathStyle};
use crate::text::{
    chars_le, chars_less_eq, chars_of, contains_chars, decimal, ends_with_chars, has_infix,
    has_suffix, lemma_chars_le_total, lemma_chars_le_transitive,
    push_decimal,
};
use vstd::prelude::*;
use vstd::relations::{sorted_by, strongly_connected, transitive};
use vstd::string::StringExecFns;

verus! {

/// The most hits a search returns.
pub const MAX_HITS: usize = 200;

/// How deep below the searched directory the walk goes.
pub const SEARCH_MAX_DEPTH: usize = 10;

/// What the file system reports of one entry.
pub struct EntryMeta {
    /// The entry is a directory.
    pub is_dir: bool,
    /// Its length in bytes.
    pub size: u64,
    /// Its modification time: `None` where the platform cannot report it;
    /// `Some(None)` for a time before the Unix epoch; `Some(Some(s))` for
    /// `s` whole seconds after it.
    pub modified: Option<Option<u64>>,
}

/// One entry of a directory listing.
pub struct DirEntry {
    pub name: String,
    /// `"directory"` or `"file"`.
    pub kind: &'static str,
    pub size: u64,
    /// Seconds since the Unix epoch, in decimal, or empty when unknown.
    pub mtime: String,
}

/// One search hit.
pub struct SearchHit {
    pub name: String,
    /// Absolute path.
    pub path: String,
    /// `"directory"` or `"file"`.
    pub kind: &'static str,
    pub size: u64,
    /// Seconds since the Unix epoch, in decimal, or empty when unknown.
    pub mtime: String,
}

/// What a listing entry or a search hit holds, as text.
pub struct EntryView {
    pub name: Seq<char>,
    pub path: Seq<char>,
    pub kind: Seq<char>,
    pub size: u64,
    pub mtime: Seq<char>,
}

impl View for DirEntry {
    type V = EntryView;

    open spec fn view(&self) -> EntryView {
        EntryView { name: self.name@, path: seq![], kind: self.kind@, size: self.size, mtime: self.mtime@ }
    }
}

impl View for SearchHit {
    type V = EntryView;

    open spec fn view(&self) -> EntryView {
        EntryView {
            name: self.name@,
            path: self.path@,
            kind: self.kind@,
            size: self.size,
            mtime: self.mtime@,
        }
    }
}

/// The kind shown for an entry.
pub open spec fn kind_text(is_dir: bool) -> Seq<char> {
    if is_dir {
        "directory"@
    } else {
        "file"@
    }
}

/// The text of a modification time given as seconds since the epoch
/// (`None`: before the epoch, shown as `0`).
pub open spec fn mtime_text(since_epoch: Option<u64>) -> Seq<char> {
    decimal(
        match since_epoch {
            Some(s) => s as nat,
            None => 0,
        },
    )
}

/// The text shown for a modification time as the file system reported it.
pub open spec fn modified_text(m: Option<Option<u64>>) -> Seq<char> {
    match m {
        Some(t) => mtime_text(t),
        None => seq![],
    }
}

/// Seconds since the epoch in decimal; a time before the epoch counts as 0.
pub fn fmt_mtime(since_epoch: Option<u64>) -> (res: String)
    ensures
        res@ == mtime_text(since_epoch),
{
    let secs = match since_epoch {
        Some(s) => s,
        None => 0,
    };
    let mut out: Vec<char> = Vec::new();
    push_decimal(secs, &mut out);
    assert(out@ =~= mtime_text(since_epoch));
    string_from_chars(out.as_slice())
}

fn modified_string(m: Option<Option<u64>>) -> (res: String)
    ensures
        res@ == modified_text(m),
{
    match m {
        Some(t) => fmt_mtime(t),
        None => String::new(),
    }
}

fn kind_of(is_dir: bool) -> (res: &'static str)
    ensures
        res@ == kind_text(is_dir),
{
    if is_dir {
        "directory"
    } else {
        "file"
    }
}

/// The listing entry for a directory member named `name`.
pub fn dir_entry(name: String, meta: &EntryMeta) -> (res: DirEntry)
    ensures
        res@ == (EntryView {
            name: name@,
            path: seq![],
            kind: kind_text(meta.is_dir),
            size: meta.size,
            mtime: modified_text(meta.modified),
        }),
{
    DirEntry { name, kind: kind_of(meta.is_dir), size: meta.size, mtime: modified_string(meta.modified) }
}

/// The error text for a path that is not absolute.
pub open spec fn not_absolute_message() -> Seq<char> {
    "path must be absolute"@
}

/// Whether `path` may be listed: it must be absolute and lie within a
/// configured root.
pub fn list_dir_target(store: &ConfigStore, path: &str) -> (res: Result<(), String>)
    ensures
        !absolute_in(store.style(), path@) ==> (res matches Err(m) && m@ == not_absolute_message()),
        absolute_in(store.style(), path@) && root_index_for(store.style(), store.config(), path@) is None
            ==> (res matches Err(m) && m@ == outside_roots_message(path@)),
        res is Ok <==> absolute_in(store.style(), path@) && root_index_for(
            store.style(),
            store.config(),
            path@,
        ) is Some,
{
    if !is_absolute_path(store.path_style(), path) {
        return Err(String::from_str("path must be absolute"));
    }
    ensure_within_roots(store, path)
}

// ---------------------------------------------------------------------
// Search
// ---------------------------------------------------------------------

/// A search to run: the normalised query, and whether it names an
/// extension (it begins with `.`), in which case names must end with it.
pub struct SearchPlan {
    pub query: String,
    pub is_ext: bool,
}

/// The query as it is matched: trimmed, then lowercased.
pub open spec fn normalized_query(q: Seq<char>) -> Seq<char> {
    lowercase(trimmed(q))
}

/// Trims and lowercases a query.
pub fn normalize_query(q: &str) -> (res: String)
    ensures
        res@ == normalized_query(q@),
{
    to_lowercase(trim(q).as_str())
}

/// The outcome of a search request, before any walking.
pub open spec fn search_request_result(
    style: PathStyle,
    config: Seq<crate::config::RootView>,
    path: Seq<char>,
    q: Seq<char>,
) -> Result<(Seq<char>, bool), Seq<char>> {
    let query = normalized_query(q);
    if query.len() == 0 {
        Err("missing q"@)
    } else if !absolute_in(style, path) {
        Err(not_absolute_message())
    } else if root_index_for(style, config, path) is None {
        Err(outside_roots_message(path))
    } else {
        Ok((query, query[0] == '.'))
    }
}

/// A search request succeeds exactly when its query is not empty once
/// trimmed and its path is absolute and within a configured root; the plan
/// then holds the trimmed, lowercased query, and it is an extension search
/// exactly when that query begins with `.`.
pub proof fn lemma_search_plan(
    style: PathStyle,
    config: Seq<crate::config::RootView>,
    path: Seq<char>,
    q: Seq<char>,
)
    ensures
        search_request_result(style, config, path, q) is Ok <==> lowercase(trimmed(q)).len() > 0
            && absolute_in(style, path) && root_index_for(style, config, path) is Some,
        lowercase(trimmed(q)).len() == 0 ==> search_request_result(style, config, path, q) == Err::<
            (Seq<char>, bool),
            Seq<char>,
        >("missing q"@),
        search_request_result(style, config, path, q) matches Ok((query, is_ext)) ==> query
            == lowercase(trimmed(q)) && query.len() > 0 && (is_ext <==> query[0] == '.'),
{
}

/// Checks a search request: the query must not be empty once trimmed, and
/// the path must be absolute and lie within a configured root.
pub fn search_request(store: &ConfigStore, path: &str, q: &str) -> (res: Result<SearchPlan, String>)
    ensures
        match search_request_result(store.style(), store.config(), path@, q@) {
            Ok((query, is_ext)) => res matches Ok(p) && p.query@ == query && p.is_ext == is_ext,
            Err(m) => res matches Err(e) && e@ == m,
        },
{
    let query = normalize_query(q);
    let qc = chars_of(query.as_str());
    if qc.len() == 0 {
        return Err(String::from_str("missing q"));
    }
    if !is_absolute_path(store.path_style(), path) {
        return Err(String::from_str("path must be absolute"));
    }
    ensure_within_roots(store, path)?;
    let is_ext = qc[0] == '.';
    Ok(SearchPlan { query, is_ext })
}

/// Whether the walk enters or reports an entry at `depth` named `name`:
/// the starting directory always, anything else unless its name begins
/// with `.` (hidden).
pub fn is_visible_entry(depth: usize, name: &str) -> (res: bool)
    ensures
        res == (depth == 0 || !(name@.len() > 0 && name@[0] == '.')),
{
    if depth == 0 {
        return true;
    }
    let c = chars_of(name);
    !(c.len() > 0 && c[0] == '.')
}

/// Whether an entry named `name` matches the (normalised) query: its
/// lowercased name ends with the query for an extension search, and
/// contains it otherwise.
pub open spec fn name_matches(query: Seq<char>, is_ext: bool, name: Seq<char>) -> bool {
    lowered_name_matches(query, is_ext, lowercase(name))
}

/// Whether an already lowercased name matches the query: it ends with the
/// query for an extension search, and holds it anywhere otherwise.
pub open spec fn lowered_name_matches(query: Seq<char>, is_ext: bool, lowered: Seq<char>) -> bool {
    if is_ext {
        has_suffix(lowered, query)
    } else {
        has_infix(lowered, query)
    }
}

/// One entry met by the walk.
pub struct SearchCandidate {
    pub name: String,
    pub path: String,
    /// `None` where reading the entry's metadata failed.
    pub meta: Option<EntryMeta>,
}

/// The hit that a candidate with metadata gives.
pub open spec fn hit_view(name: Seq<char>, path: Seq<char>, meta: EntryMeta) -> EntryView {
    EntryView {
        name,
        path,
        kind: kind_text(meta.is_dir),
        size: meta.size,
        mtime: modified_text(meta.modified),
    }
}

/// The hits that the walk collects from the candidates, in walk order:
/// matching candidates with metadata, until there are `MAX_HITS`.
pub open spec fn collect_hits(cands: Seq<SearchCandidate>, query: Seq<char>, is_ext: bool) -> Seq<
    EntryView,
>
    decreases cands.len(),
{
    if cands.len() == 0 {
        seq![]
    } else {
        let prev = collect_hits(cands.drop_last(), query, is_ext);
        let c = cands.last();
        if prev.len() >= MAX_HITS || !name_matches(query, is_ext, c.name@) {
            prev
        } else {
            match c.meta {
                Some(m) => prev.push(hit_view(c.name@, c.path@, m)),
                None => prev,
            }
        }
    }
}

/// Hits are ordered by path, lexicographically.
pub open spec fn by_path() -> spec_fn(EntryView, EntryView) -> bool {
    |a: EntryView, b: EntryView| chars_le(a.path, b.path)
}

/// The hits a search returns: those collected, sorted by path (stably).
pub open spec fn search_result(cands: Seq<SearchCandidate>, query: Seq<char>, is_ext: bool) -> Seq<
    EntryView,
> {
    stable_sort(collect_hits(cands, query, is_ext), by_path())
}

/// The views of a sequence of hits.
pub open spec fn hits_view(s: Seq<SearchHit>) -> Seq<EntryView> {
    s.map_values(|h: SearchHit| h@)
}

/// Ordering by path is total and transitive.
pub proof fn lemma_by_path_order()
    ensures
        strongly_connected(by_path()),
        transitive(by_path()),
{
    assert forall|a: EntryView, b: EntryView| #[trigger]
        by_path()(a, b) || #[trigger] by_path()(b, a) by {
        lemma_chars_le_total(a.path, b.path);
    }
    assert forall|a: EntryView, b: EntryView, c: EntryView| #[trigger]
        by_path()(a, b) && #[trigger] by_path()(b, c) implies by_path()(a, c) by {
        lemma_chars_le_transitive(a.path, b.path, c.path);
    }
}

/// Collecting stops at `MAX_HITS`, and every collected hit comes from a
/// matching candidate.
pub proof fn lemma_collect_hits(cands: Seq<SearchCandidate>, query: Seq<char>, is_ext: bool)
    ensures
        collect_hits(cands, query, is_ext).len() <= MAX_HITS,
        forall|i: int|
            0 <= i < collect_hits(cands, query, is_ext).len() ==> name_matches(
                query,
                is_ext,
                (#[trigger] collect_hits(cands, query, is_ext)[i]).name,
            ),
    decreases cands.len(),
{
    if cands.len() > 0 {
        lemma_collect_hits(cands.drop_last(), query, is_ext);
    }
}

/// The search result is ordered by path, holds exactly the collected hits,
/// at most `MAX_HITS` of them, each matching the query.
pub proof fn lemma_search_result(cands: Seq<SearchCandidate>, query: Seq<char>, is_ext: bool)
    ensures
        sorted_by(search_result(cands, query, is_ext), by_path()),
        search_result(cands, query, is_ext).to_multiset() =~= collect_hits(
            cands,
            query,
            is_ext,
        ).to_multiset(),
        search_result(cands, query, is_ext).len() <= MAX_HITS,
        forall|i: int|
            0 <= i < search_result(cands, query, is_ext).len() ==> name_matches(
                query,
                is_ext,
                (#[trigger] search_result(cands, query, is_ext)[i]).name,
            ),
{
    broadcast use vstd::seq_lib::group_to_multiset_ensures;

    lemma_by_path_order();
    let c = collect_hits(cands, query, is_ext);
    lemma_stable_sort(c, by_path());
    lemma_collect_hits(cands, query, is_ext);
    let r = search_result(cands, query, is_ext);
    assert forall|i: int| 0 <= i < r.len() implies name_matches(
        query,
        is_ext,
        (#[trigger] r[i]).name,
    ) by {
        assert(r.contains(r[i]));
        assert(r.to_multiset().count(r[i]) > 0);
        assert(c.contains(r[i]));
    }
}

fn hit_path_le(a: &SearchHit, b_path: &[char]) -> (res: bool)
    ensures
        res == chars_le(a.path@, b_path@),
{
    let ap = chars_of(a.path.as_str());
    chars_less_eq(ap.as_slice(), b_path)
}

/// Inserts a hit into hits already in path order, after every hit whose
/// path is not greater.
fn insert_by_path(v: &mut Vec<SearchHit>, x: SearchHit)
    ensures
        hits_view(final(v)@) == insert_sorted(hits_view(old(v)@), x@, by_path()),
{
    let xp = chars_of(x.path.as_str());
    let ghost s = hits_view(v@);
    let mut j: usize = v.len();
    while j > 0 && !hit_path_le(&v[j - 1], xp.as_slice())
        invariant
            j <= v.len(),
            s == hits_view(v@),
            xp@ == x.path@,
            forall|k: int| j <= k < s.len() ==> !by_path()(#[trigger] s[k], x@),
        decreases j,
    {
        j = j - 1;
    }
    proof {
        lemma_insert_sorted_at(s, x@, by_path(), j as int);
    }
    let ghost xv = x@;
    v.insert(j, x);
    assert(hits_view(v@) =~= s.take(j as int).push(xv) + s.skip(j as int));
}

/// Collects the hits of a search as the walk meets its entries.
pub struct HitCollector {
    query: Vec<char>,
    is_ext: bool,
    hits: Vec<SearchHit>,
}

impl HitCollector {
    /// The query being matched.
    pub closed spec fn query(&self) -> Seq<char> {
        self.query@
    }

    /// Whether this is an extension search.
    pub closed spec fn is_ext(&self) -> bool {
        self.is_ext
    }

    /// The hits collected so far, in walk order.
    pub closed spec fn hits(&self) -> Seq<EntryView> {
        hits_view(self.hits@)
    }

    /// An empty collector for a search.
    pub fn new(plan: &SearchPlan) -> (res: HitCollector)
        ensures
            res.query() == plan.query@,
            res.is_ext() == plan.is_ext,
            res.hits() == Seq::<EntryView>::empty(),
    {
        let res = HitCollector { query: chars_of(plan.query.as_str()), is_ext: plan.is_ext, hits: Vec::new() };
        assert(res.hits() =~= Seq::<EntryView>::empty());
        res
    }

    /// Whether `MAX_HITS` hits have been collected (the walk stops there).
    pub fn is_full(&self) -> (res: bool)
        ensures
            res == (self.hits().len() >= MAX_HITS),
    {
        self.hits.len() >= MAX_HITS
    }

    /// Whether an entry named `name` matches the query.
    pub fn accepts(&self, name: &str) -> (res: bool)
        ensures
            res == name_matches(self.query(), self.is_ext(), name@),
    {
        let lower = to_lowercase(name);
        self.accepts_lowered(lower.as_str())
    }

    /// Whether a name, already lowercased, matches the query.
    pub fn accepts_lowered(&self, lowered: &str) -> (res: bool)
        ensures
            res == lowered_name_matches(self.query(), self.is_ext(), lowered@),
    {
        let n = chars_of(lowered);
        if self.is_ext {
            ends_with_chars(n.as_slice(), self.query.as_slice())
        } else {
            contains_chars(n.as_slice(), self.query.as_slice())
        }
    }

    /// Records the hit for a matching entry.
    pub fn add(&mut self, name: String, path: String, meta: &EntryMeta)
        ensures
            final(self).query() == old(self).query(),
            final(self).is_ext() == old(self).is_ext(),
            final(self).hits() == old(self).hits().push(hit_view(name@, path@, *meta)),
    {
        let hit = SearchHit {
            name,
            path,
            kind: kind_of(meta.is_dir),
            size: meta.size,
            mtime: modified_string(meta.modified),
        };
        let ghost before = self.hits@;
        self.hits.push(hit);
        assert(hits_view(self.hits@) =~= hits_view(before).push(hit@));
    }

    /// Offers one walked entry: it becomes a hit when fewer than `MAX_HITS`
    /// have been collected, its name matches, and its metadata is known.
    pub fn offer(&mut self, cand: SearchCandidate)
        ensures
            final(self).query() == old(self).query(),
            final(self).is_ext() == old(self).is_ext(),
            final(self).hits() == (if old(self).hits().len() >= MAX_HITS || !name_matches(
                old(self).query(),
                old(self).is_ext(),
                cand.name@,
            ) {
                old(self).hits()
            } else {
                match cand.meta {
                    Some(m) => old(self).hits().push(hit_view(cand.name@, cand.path@, m)),
                    None => old(self).hits(),
                }
            }),
    {
        if self.is_full() {
            return;
        }
        if !self.accepts(cand.name.as_str()) {
            return;
        }
        match cand.meta {
            Some(m) => self.add(cand.name, cand.path, &m),
            None => {},
        }
    }

    /// The collected hits, sorted by path (stably).
    pub fn finish(self) -> (res: Vec<SearchHit>)
        ensures
            hits_view(res@) == stable_sort(self.hits(), by_path()),
    {
        let mut out: Vec<SearchHit> = Vec::new();
        let ghost all = hits_view(self.hits@);
        let ghost raw = self.hits@;
        assert(hits_view(out@) =~= stable_sort(all.take(0), by_path()));
        for h in it: self.hits.into_iter()
            invariant
                all == hits_view(raw),
                it.seq() == raw,
                hits_view(out@) == stable_sort(all.take(it.index() as int), by_path()),
        {
            let ghost i = it.index();
            assert(h@ == all[i as int]);
            assert(all.take(i + 1).drop_last() =~= all.take(i as int));
            insert_by_path(&mut out, h);
        }
        assert(all.take(all.len() as int) =~= all);
        out
    }
}

/// The hits a search returns for the candidates the walk met, in walk
/// order: the collected hits sorted by path.
pub fn select_search_hits(plan: &SearchPlan, cands: Vec<SearchCandidate>) -> (res: Vec<SearchHit>)
    ensures
        hits_view(res@) == search_result(cands@, plan.query@, plan.is_ext),
{
    let mut col = HitCollector::new(plan);
    let ghost all = cands@;
    assert(all.take(0) =~= Seq::<SearchCandidate>::empty());
    for c in it: cands.into_iter()
        invariant
            it.seq() == all,
            col.query() == plan.query@,
            col.is_ext() == plan.is_ext,
            col.hits() == collect_hits(all.take(it.index() as int), plan.query@, plan.is_ext),
    {
        let ghost i = it.index();
        assert(c == all[i as int]);
        assert(all.take(i + 1).drop_last() =~= all.take(i as int));
        col.offer(c);
    }
    assert(all.take(all.len() as int) =~= all);
    col.finish()
}

} // verus!
