//! The clipboard history: every captured item with its metadata, deduplicated by
//! content hash, pinned items kept apart from eviction, and the settings table.
//! The shell persists rows; every decision about them is made here.
use vstd::prelude::*;

use crate::like::{contains_pattern, contains_pattern_of, like, like_matches, query_found_anywhere};
use crate::text::{chars_of, string_of_range};

verus! {

broadcast use vstd::string::group_string_axioms;

/// Disk budget used when no `max_bytes` setting parses (500 MiB).
pub const DEFAULT_MAX_BYTES: i64 = 500 * 1024 * 1024;

/// Rows of the list at most.
pub const LIST_LIMIT: usize = 200;

/// Characters of text shown in a list preview at most.
pub const PREVIEW_CHARS: usize = 400;

pub open spec fn opt_str(o: Option<String>) -> Option<Seq<char>> {
    match o {
        Some(s) => Some(s@),
        None => None,
    }
}

pub open spec fn opt_bytes(o: Option<Vec<u8>>) -> Option<Seq<u8>> {
    match o {
        Some(v) => Some(v@),
        None => None,
    }
}

pub open spec fn opt_strs(o: Option<Vec<String>>) -> Option<Seq<Seq<char>>> {
    match o {
        Some(v) => Some(v.deep_view()),
        None => None,
    }
}

/// A captured item on its way into the history.
#[derive(Debug)]
pub struct NewItem<'a> {
    pub kind: &'a str,
    pub hash: String,
    pub plain_text: Option<String>,
    pub rtf: Option<Vec<u8>>,
    pub html: Option<String>,
    pub image_path: Option<String>,
    pub thumb_path: Option<String>,
    pub file_paths: Option<Vec<String>>,
    pub byte_size: i64,
    pub source_app: Option<String>,
    pub source_bundle_id: Option<String>,
    pub source_icon_path: Option<String>,
}

#[verifier::ext_equal]
pub struct NewItemView {
    pub kind: Seq<char>,
    pub hash: Seq<char>,
    pub plain_text: Option<Seq<char>>,
    pub rtf: Option<Seq<u8>>,
    pub html: Option<Seq<char>>,
    pub image_path: Option<Seq<char>>,
    pub thumb_path: Option<Seq<char>>,
    pub file_paths: Option<Seq<Seq<char>>>,
    pub byte_size: i64,
    pub source_app: Option<Seq<char>>,
    pub source_bundle_id: Option<Seq<char>>,
    pub source_icon_path: Option<Seq<char>>,
}

impl<'a> View for NewItem<'a> {
    type V = NewItemView;

    open spec fn view(&self) -> NewItemView {
        NewItemView {
            kind: self.kind@,
            hash: self.hash@,
            plain_text: opt_str(self.plain_text),
            rtf: opt_bytes(self.rtf),
            html: opt_str(self.html),
            image_path: opt_str(self.image_path),
            thumb_path: opt_str(self.thumb_path),
            file_paths: opt_strs(self.file_paths),
            byte_size: self.byte_size,
            source_app: opt_str(self.source_app),
            source_bundle_id: opt_str(self.source_bundle_id),
            source_icon_path: opt_str(self.source_icon_path),
        }
    }
}

/// One row of the history, as it is stored.
#[derive(Debug)]
pub struct StoredItem {
    pub id: i64,
    pub kind: String,
    pub hash: String,
    pub plain_text: Option<String>,
    pub rtf: Option<Vec<u8>>,
    pub html: Option<String>,
    pub image_path: Option<String>,
    pub thumb_path: Option<String>,
    pub file_paths: Option<Vec<String>>,
    pub byte_size: i64,
    pub source_app: Option<String>,
    pub source_bundle_id: Option<String>,
    pub source_icon_path: Option<String>,
    pub pinned: bool,
    pub created_at: i64,
    pub last_copied_at: i64,
    pub sort_at: i64,
}

#[verifier::ext_equal]
pub struct ItemView {
    pub id: i64,
    pub kind: Seq<char>,
    pub hash: Seq<char>,
    pub plain_text: Option<Seq<char>>,
    pub rtf: Option<Seq<u8>>,
    pub html: Option<Seq<char>>,
    pub image_path: Option<Seq<char>>,
    pub thumb_path: Option<Seq<char>>,
    pub file_paths: Option<Seq<Seq<char>>>,
    pub byte_size: i64,
    pub source_app: Option<Seq<char>>,
    pub source_bundle_id: Option<Seq<char>>,
    pub source_icon_path: Option<Seq<char>>,
    pub pinned: bool,
    pub created_at: i64,
    pub last_copied_at: i64,
    pub sort_at: i64,
}

impl View for StoredItem {
    type V = ItemView;

    open spec fn view(&self) -> ItemView {
        ItemView {
            id: self.id,
            kind: self.kind@,
            hash: self.hash@,
            plain_text: opt_str(self.plain_text),
            rtf: opt_bytes(self.rtf),
            html: opt_str(self.html),
            image_path: opt_str(self.image_path),
            thumb_path: opt_str(self.thumb_path),
            file_paths: opt_strs(self.file_paths),
            byte_size: self.byte_size,
            source_app: opt_str(self.source_app),
            source_bundle_id: opt_str(self.source_bundle_id),
            source_icon_path: opt_str(self.source_icon_path),
            pinned: self.pinned,
            created_at: self.created_at,
            last_copied_at: self.last_copied_at,
            sort_at: self.sort_at,
        }
    }
}

pub fn clone_opt_string(o: &Option<String>) -> (r: Option<String>)
    ensures
        opt_str(r) == opt_str(*o),
{
    match o {
        Some(s) => Some(s.clone()),
        None => None,
    }
}

pub fn clone_opt_bytes(o: &Option<Vec<u8>>) -> (r: Option<Vec<u8>>)
    ensures
        opt_bytes(r) == opt_bytes(*o),
{
    match o {
        Some(v) => {
            let c = v.clone();
            assert(c@ =~= v@);
            Some(c)
        },
        None => None,
    }
}

pub fn clone_strings(v: &Vec<String>) -> (r: Vec<String>)
    ensures
        r.deep_view() == v.deep_view(),
{
    let c = v.clone();
    assert(c.deep_view() =~= v.deep_view());
    c
}

pub fn clone_opt_strings(o: &Option<Vec<String>>) -> (r: Option<Vec<String>>)
    ensures
        opt_strs(r) == opt_strs(*o),
{
    match o {
        Some(v) => Some(clone_strings(v)),
        None => None,
    }
}

impl Clone for StoredItem {
    fn clone(&self) -> (r: Self)
        ensures
            r@ == self@,
    {
        StoredItem {
            id: self.id,
            kind: self.kind.clone(),
            hash: self.hash.clone(),
            plain_text: clone_opt_string(&self.plain_text),
            rtf: clone_opt_bytes(&self.rtf),
            html: clone_opt_string(&self.html),
            image_path: clone_opt_string(&self.image_path),
            thumb_path: clone_opt_string(&self.thumb_path),
            file_paths: clone_opt_strings(&self.file_paths),
            byte_size: self.byte_size,
            source_app: clone_opt_string(&self.source_app),
            source_bundle_id: clone_opt_string(&self.source_bundle_id),
            source_icon_path: clone_opt_string(&self.source_icon_path),
            pinned: self.pinned,
            created_at: self.created_at,
            last_copied_at: self.last_copied_at,
            sort_at: self.sort_at,
        }
    }
}

/// A key/value row of the settings table.
#[derive(Debug)]
pub struct Setting {
    pub key: String,
    pub value: String,
}

/// Why a history operation failed.
#[derive(Debug, PartialEq, Eq, Clone, Copy)]
pub enum HistoryError {
    /// No row has the requested id.
    NotFound,
    /// Every row id up to `i64::MAX` has been handed out.
    Full,
    /// The byte sizes of the rows overflow a signed 64-bit sum.
    Overflow,
}

/// Why rows read back from storage could not be taken up.
#[derive(Debug, PartialEq, Eq, Clone, Copy)]
pub enum LoadError {
    /// Row ids are not strictly increasing in the order given.
    RowsOutOfOrder,
    /// Two rows share a content hash.
    DuplicateHash,
}

#[verifier::ext_equal]
pub struct HistoryView {
    pub items: Seq<ItemView>,
    pub last_id: i64,
    pub settings: Seq<(Seq<char>, Seq<char>)>,
}

/// The clipboard history.
pub struct History {
    items: Vec<StoredItem>,
    last_id: i64,
    settings: Vec<Setting>,
}

pub open spec fn views(s: Seq<StoredItem>) -> Seq<ItemView> {
    s.map_values(|it: StoredItem| it@)
}

pub open spec fn setting_views(s: Seq<Setting>) -> Seq<(Seq<char>, Seq<char>)> {
    s.map_values(|st: Setting| (st.key@, st.value@))
}

/// Row ids strictly increase along the sequence (the rowid order of the table).
pub open spec fn ids_increasing(s: Seq<ItemView>) -> bool {
    forall|i: int, j: int| 0 <= i < j < s.len() ==> s[i].id < s[j].id
}

/// No two rows share a content hash.
pub open spec fn hashes_unique(s: Seq<ItemView>) -> bool {
    forall|i: int, j: int| 0 <= i < j < s.len() ==> s[i].hash != s[j].hash
}

/// The value stored under `k`: the first row with that key.
pub open spec fn setting_lookup(s: Seq<(Seq<char>, Seq<char>)>, k: Seq<char>) -> Option<Seq<char>>
    decreases s.len(),
{
    if s.len() == 0 {
        None
    } else if s[0].0 == k {
        Some(s[0].1)
    } else {
        setting_lookup(s.drop_first(), k)
    }
}

/// The settings after storing `v` under `k` (insert, or update the existing row).
pub open spec fn setting_put(s: Seq<(Seq<char>, Seq<char>)>, k: Seq<char>, v: Seq<char>) -> Seq<(Seq<char>, Seq<char>)>
    decreases s.len(),
{
    if s.len() == 0 {
        seq![(k, v)]
    } else if s[0].0 == k {
        s.update(0, (k, v))
    } else {
        seq![s[0]] + setting_put(s.drop_first(), k, v)
    }
}


/// Value of the decimal digits `d` (most significant first).
pub open spec fn digits_value(d: Seq<char>) -> int
    decreases d.len(),
{
    if d.len() == 0 {
        0
    } else {
        digits_value(d.drop_last()) * 10 + (d.last() as int - '0' as int)
    }
}

/// `s` parsed as an `i64` the way `str::parse::<i64>` does: an optional `+` or `-`,
/// then at least one ASCII digit and nothing else, in range.
pub open spec fn decimal_i64(s: Seq<char>) -> Option<i64> {
    let neg = s.len() > 0 && s[0] == '-';
    let body = if s.len() > 0 && (s[0] == '-' || s[0] == '+') {
        s.drop_first()
    } else {
        s
    };
    if body.len() == 0 || !(forall|i: int| 0 <= i < body.len() ==> '0' <= #[trigger] body[i] <= '9') {
        None
    } else {
        let v = if neg {
            -digits_value(body)
        } else {
            digits_value(body)
        };
        if i64::MIN <= v <= i64::MAX {
            Some(v as i64)
        } else {
            None
        }
    }
}

/// The disk budget: the `max_bytes` setting when it parses, else the default.
pub open spec fn budget_of(settings: Seq<(Seq<char>, Seq<char>)>) -> i64 {
    match setting_lookup(settings, "max_bytes"@) {
        Some(v) => match decimal_i64(v) {
            Some(n) => n,
            None => DEFAULT_MAX_BYTES,
        },
        None => DEFAULT_MAX_BYTES,
    }
}

/// Calls `str::parse::<i64>`. Claims that it succeeds exactly on an optional sign
/// followed by decimal digits whose value fits, and gives that value.
#[verifier::external_body]
fn parse_i64(s: &str) -> (r: Option<i64>)
    ensures
        r == decimal_i64(s@),
{
    s.parse::<i64>().ok()
}

proof fn lemma_lookup_skip(s: Seq<(Seq<char>, Seq<char>)>, k: Seq<char>, i: int)
    requires
        0 <= i <= s.len(),
        forall|j: int| 0 <= j < i ==> (#[trigger] s[j]).0 != k,
    ensures
        setting_lookup(s, k) == setting_lookup(s.skip(i), k),
    decreases i,
{
    if i > 0 {
        lemma_lookup_skip(s.drop_first(), k, i - 1);
        assert(s.drop_first().skip(i - 1) =~= s.skip(i));
    } else {
        assert(s.skip(0) =~= s);
    }
}

proof fn lemma_put_skip(s: Seq<(Seq<char>, Seq<char>)>, k: Seq<char>, v: Seq<char>, i: int)
    requires
        0 <= i <= s.len(),
        forall|j: int| 0 <= j < i ==> (#[trigger] s[j]).0 != k,
    ensures
        setting_put(s, k, v) == s.take(i) + setting_put(s.skip(i), k, v),
    decreases i,
{
    if i > 0 {
        lemma_put_skip(s.drop_first(), k, v, i - 1);
        assert(s.drop_first().skip(i - 1) =~= s.skip(i));
        assert(seq![s[0]] + s.drop_first().take(i - 1) =~= s.take(i));
        assert(seq![s[0]] + (s.drop_first().take(i - 1) + setting_put(s.skip(i), k, v)) =~= s.take(
            i,
        ) + setting_put(s.skip(i), k, v));
    } else {
        assert(s.skip(0) =~= s);
        assert(s.take(0) + setting_put(s, k, v) =~= setting_put(s, k, v));
    }
}


/// Index of the first row satisfying `p`.
pub open spec fn first_index(s: Seq<ItemView>, p: spec_fn(ItemView) -> bool) -> Option<int>
    decreases s.len(),
{
    if s.len() == 0 {
        None
    } else if p(s[0]) {
        Some(0)
    } else {
        match first_index(s.drop_first(), p) {
            Some(j) => Some(j + 1),
            None => None,
        }
    }
}

/// The row has id `id`.
pub open spec fn id_is(id: i64) -> spec_fn(ItemView) -> bool {
    |v: ItemView| v.id == id
}

/// The row has content hash `h`.
pub open spec fn hash_is(h: Seq<char>) -> spec_fn(ItemView) -> bool {
    |v: ItemView| v.hash == h
}

/// Index of the row with id `id`.
pub open spec fn index_of_id(s: Seq<ItemView>, id: i64) -> Option<int> {
    first_index(s, id_is(id))
}

/// Index of the row with content hash `h`.
pub open spec fn index_of_hash(s: Seq<ItemView>, h: Seq<char>) -> Option<int> {
    first_index(s, hash_is(h))
}

pub proof fn lemma_first_index_at(s: Seq<ItemView>, p: spec_fn(ItemView) -> bool, i: int)
    requires
        0 <= i <= s.len(),
        forall|k: int| 0 <= k < i ==> !p(#[trigger] s[k]),
    ensures
        i < s.len() && p(s[i]) ==> first_index(s, p) == Some(i),
        i == s.len() ==> first_index(s, p) is None,
    decreases i,
{
    if i > 0 {
        assert(!p(s[0]));
        assert forall|k: int| 0 <= k < i - 1 implies !p(#[trigger] s.drop_first()[k]) by {
            assert(s.drop_first()[k] == s[k + 1]);
        }
        lemma_first_index_at(s.drop_first(), p, i - 1);
    }
}

pub proof fn lemma_first_index_facts(s: Seq<ItemView>, p: spec_fn(ItemView) -> bool)
    ensures
        first_index(s, p) matches Some(i) ==> 0 <= i < s.len() && p(s[i]) && forall|k: int|
            0 <= k < i ==> !p(#[trigger] s[k]),
        first_index(s, p) is None ==> forall|k: int| 0 <= k < s.len() ==> !p(#[trigger] s[k]),
    decreases s.len(),
{
    if s.len() > 0 {
        lemma_first_index_facts(s.drop_first(), p);
        assert forall|k: int| 1 <= k < s.len() implies s.drop_first()[k - 1] == #[trigger] s[k] by {}
    }
}

/// A row as taken up from storage: a zero `sort_at` (rows written before the display
/// order column existed) takes `last_copied_at`.
pub open spec fn migrated(v: ItemView) -> ItemView {
    if v.sort_at == 0 {
        ItemView { sort_at: v.last_copied_at, ..v }
    } else {
        v
    }
}

/// The row after its display order is refreshed from its recency.
pub open spec fn resnapshot(v: ItemView) -> ItemView {
    ItemView { sort_at: v.last_copied_at, ..v }
}

/// The rows satisfying `p`, in order.
pub open spec fn keep(s: Seq<ItemView>, p: spec_fn(ItemView) -> bool) -> Seq<ItemView>
    decreases s.len(),
{
    if s.len() == 0 {
        Seq::empty()
    } else if p(s.last()) {
        keep(s.drop_last(), p).push(s.last())
    } else {
        keep(s.drop_last(), p)
    }
}

/// The row's pin is `want`.
pub open spec fn pinned_is(want: bool) -> spec_fn(ItemView) -> bool {
    |v: ItemView| v.pinned == want
}

/// The rows with `pinned == want`, in order.
pub open spec fn with_pin(s: Seq<ItemView>, want: bool) -> Seq<ItemView> {
    keep(s, pinned_is(want))
}

pub proof fn lemma_keep(s: Seq<ItemView>, p: spec_fn(ItemView) -> bool)
    ensures
        forall|x: ItemView| #[trigger] keep(s, p).contains(x) ==> s.contains(x) && p(x),
        forall|x: ItemView| s.contains(x) && p(x) ==> #[trigger] keep(s, p).contains(x),
        keep(s, p).len() <= s.len(),
        ids_increasing(s) ==> ids_increasing(keep(s, p)),
        hashes_unique(s) ==> hashes_unique(keep(s, p)),
    decreases s.len(),
{
    if s.len() > 0 {
        let t = s.drop_last();
        lemma_keep(t, p);
        let w = keep(t, p);
        assert forall|x: ItemView| #[trigger] keep(s, p).contains(x) implies s.contains(x) && p(x) by {
            if w.contains(x) {
                assert(t.contains(x));
                let k = choose|k: int| 0 <= k < t.len() && t[k] == x;
                assert(s[k] == x);
            } else {
                assert(x == s.last());
                assert(s[s.len() - 1] == x);
            }
        }
        assert forall|x: ItemView| s.contains(x) && p(x) implies #[trigger] keep(s, p).contains(x) by {
            let k = choose|k: int| 0 <= k < s.len() && s[k] == x;
            if k < s.len() - 1 {
                assert(t[k] == x);
                assert(t.contains(x));
                assert(w.contains(x));
                if p(s.last()) {
                    let k2 = choose|k2: int| 0 <= k2 < w.len() && w[k2] == x;
                    assert(w.push(s.last())[k2] == x);
                }
            } else {
                assert(w.push(s.last())[w.len() as int] == x);
            }
        }
        if hashes_unique(s) {
            assert(hashes_unique(t));
            if p(s.last()) {
                assert forall|i: int, j: int| 0 <= i < j < w.len() + 1 implies w.push(s.last())[i].hash
                    != w.push(s.last())[j].hash by {
                    if j == w.len() {
                        assert(w.contains(w[i]));
                        assert(t.contains(w[i]));
                        let k = choose|k: int| 0 <= k < t.len() && t[k] == w[i];
                        assert(s[k] == w[i]);
                    }
                }
            }
        }
        if ids_increasing(s) {
            assert(ids_increasing(t));
            if p(s.last()) {
                assert forall|i: int, j: int| 0 <= i < j < w.len() + 1 implies w.push(s.last())[i].id
                    < w.push(s.last())[j].id by {
                    if j == w.len() {
                        assert(w.contains(w[i]));
                        assert(t.contains(w[i]));
                        let k = choose|k: int| 0 <= k < t.len() && t[k] == w[i];
                        assert(s[k] == w[i]);
                    }
                }
            }
        }
    }
}

pub proof fn lemma_remove_keeps_order(s: Seq<ItemView>, i: int)
    requires
        0 <= i < s.len(),
        ids_increasing(s),
    ensures
        ids_increasing(s.remove(i)),
        forall|x: ItemView| s.remove(i).contains(x) ==> s.contains(x),
{
    lemma_remove_sub(s, i);
}

pub proof fn lemma_remove_sub(s: Seq<ItemView>, i: int)
    requires
        0 <= i < s.len(),
    ensures
        ids_increasing(s) ==> ids_increasing(s.remove(i)),
        hashes_unique(s) ==> hashes_unique(s.remove(i)),
        forall|x: ItemView| s.remove(i).contains(x) ==> s.contains(x),
        forall|k: int| 0 <= k < s.len() && k != i ==> s.remove(i).contains(#[trigger] s[k]),
{
    let r = s.remove(i);
    assert forall|k: int| 0 <= k < s.len() && k != i implies r.contains(#[trigger] s[k]) by {
        if k < i {
            assert(r[k] == s[k]);
        } else {
            assert(r[k - 1] == s[k]);
        }
    }
    assert forall|a: int, b: int| 0 <= a < b < r.len() implies r[a].hash != r[b].hash || !hashes_unique(s) by {
        let a2 = if a < i { a } else { a + 1 };
        let b2 = if b < i { b } else { b + 1 };
        assert(r[a] == s[a2]);
        assert(r[b] == s[b2]);
    }
    assert forall|a: int, b: int| 0 <= a < b < r.len() implies r[a].id < r[b].id || !ids_increasing(s) by {
        let a2 = if a < i { a } else { a + 1 };
        let b2 = if b < i { b } else { b + 1 };
        assert(r[a] == s[a2]);
        assert(r[b] == s[b2]);
    }
    assert forall|x: ItemView| r.contains(x) implies s.contains(x) by {
        let k = choose|k: int| 0 <= k < r.len() && r[k] == x;
        if k < i {
            assert(s[k] == x);
        } else {
            assert(s[k + 1] == x);
        }
    }
}

/// The fields of a row needed to paste it back.
#[derive(Debug)]
pub struct FullItem {
    pub kind: String,
    pub plain_text: Option<String>,
    pub rtf: Option<Vec<u8>>,
    pub html: Option<String>,
    pub image_path: Option<String>,
    pub file_paths: Option<Vec<String>>,
}

#[verifier::ext_equal]
pub struct FullItemView {
    pub kind: Seq<char>,
    pub plain_text: Option<Seq<char>>,
    pub rtf: Option<Seq<u8>>,
    pub html: Option<Seq<char>>,
    pub image_path: Option<Seq<char>>,
    pub file_paths: Option<Seq<Seq<char>>>,
}

impl View for FullItem {
    type V = FullItemView;

    open spec fn view(&self) -> FullItemView {
        FullItemView {
            kind: self.kind@,
            plain_text: opt_str(self.plain_text),
            rtf: opt_bytes(self.rtf),
            html: opt_str(self.html),
            image_path: opt_str(self.image_path),
            file_paths: opt_strs(self.file_paths),
        }
    }
}

pub open spec fn full_of(v: ItemView) -> FullItemView {
    FullItemView {
        kind: v.kind,
        plain_text: v.plain_text,
        rtf: v.rtf,
        html: v.html,
        image_path: v.image_path,
        file_paths: v.file_paths,
    }
}


/// Sum of the byte sizes of the first `k` rows.
pub open spec fn prefix_sum(s: Seq<ItemView>, k: int) -> int
    decreases k,
{
    if k <= 0 {
        0
    } else {
        prefix_sum(s, k - 1) + s[k - 1].byte_size
    }
}

/// Adding up the byte sizes row by row never leaves the `i64` range (as SQLite's
/// `SUM` requires).
pub open spec fn sum_fits(s: Seq<ItemView>) -> bool {
    forall|k: int| 0 <= k <= s.len() ==> i64::MIN <= #[trigger] prefix_sum(s, k) <= i64::MAX
}

/// Total byte size of the rows.
pub open spec fn total_bytes(s: Seq<ItemView>) -> int {
    prefix_sum(s, s.len() as int)
}

/// Index of the least recently copied unpinned row among the first `k` (the first
/// such row on ties); -1 when there is none.
pub open spec fn oldest_in(s: Seq<ItemView>, k: int) -> int
    decreases k,
{
    if k <= 0 {
        -1
    } else {
        let b = oldest_in(s, k - 1);
        if s[k - 1].pinned {
            b
        } else if b < 0 || s[k - 1].last_copied_at < s[b].last_copied_at {
            k - 1
        } else {
            b
        }
    }
}

/// Index of the eviction victim: the least recently copied unpinned row, -1 if none.
pub open spec fn oldest_unpinned(s: Seq<ItemView>) -> int {
    oldest_in(s, s.len() as int)
}

/// The outcome of evicting down to a budget: what stays, what went (in eviction
/// order), and whether the size sum could be taken throughout.
#[verifier::ext_equal]
pub struct Eviction {
    pub kept: Seq<ItemView>,
    pub evicted: Seq<ItemView>,
    pub ok: bool,
}

/// Evicts least recently copied unpinned rows while the total exceeds `budget`;
/// stops when under budget, when only pinned rows remain, or when the sum overflows.
pub open spec fn evict(s: Seq<ItemView>, budget: int) -> Eviction
    decreases s.len(),
{
    if !sum_fits(s) {
        Eviction { kept: s, evicted: Seq::empty(), ok: false }
    } else if total_bytes(s) <= budget {
        Eviction { kept: s, evicted: Seq::empty(), ok: true }
    } else {
        let j = oldest_unpinned(s);
        if j < 0 || j >= s.len() {
            Eviction { kept: s, evicted: Seq::empty(), ok: true }
        } else {
            let r = evict(s.remove(j), budget);
            Eviction { kept: r.kept, evicted: seq![s[j]] + r.evicted, ok: r.ok }
        }
    }
}

/// `a` when present, else `b` (SQL `COALESCE`).
pub open spec fn coalesce<T>(a: Option<T>, b: Option<T>) -> Option<T> {
    if a is Some {
        a
    } else {
        b
    }
}

/// The row a new capture becomes: unpinned, created, copied and ordered at `now`.
pub open spec fn fresh_row(n: NewItemView, id: i64, now: i64) -> ItemView {
    ItemView {
        id,
        kind: n.kind,
        hash: n.hash,
        plain_text: n.plain_text,
        rtf: n.rtf,
        html: n.html,
        image_path: n.image_path,
        thumb_path: n.thumb_path,
        file_paths: n.file_paths,
        byte_size: n.byte_size,
        source_app: n.source_app,
        source_bundle_id: n.source_bundle_id,
        source_icon_path: n.source_icon_path,
        pinned: false,
        created_at: now,
        last_copied_at: now,
        sort_at: now,
    }
}

/// An existing row copied again: recency moves to `now`, the source fields take the
/// new capture's values where it has them.
pub open spec fn bumped_row(r: ItemView, n: NewItemView, now: i64) -> ItemView {
    ItemView {
        last_copied_at: now,
        source_app: coalesce(n.source_app, r.source_app),
        source_bundle_id: coalesce(n.source_bundle_id, r.source_bundle_id),
        source_icon_path: coalesce(n.source_icon_path, r.source_icon_path),
        ..r
    }
}

pub proof fn lemma_oldest_in(s: Seq<ItemView>, k: int)
    requires
        0 <= k <= s.len(),
    ensures
        -1 <= oldest_in(s, k) < k,
        oldest_in(s, k) >= 0 ==> !s[oldest_in(s, k)].pinned,
        oldest_in(s, k) >= 0 ==> forall|m: int|
            0 <= m < k && !(#[trigger] s[m]).pinned ==> s[oldest_in(s, k)].last_copied_at
                <= s[m].last_copied_at,
        oldest_in(s, k) < 0 ==> forall|m: int| 0 <= m < k ==> (#[trigger] s[m]).pinned,
    decreases k,
{
    if k > 0 {
        lemma_oldest_in(s, k - 1);
    }
}


/// A row of the list shown in the bar.
#[derive(Debug)]
pub struct ItemDto {
    pub id: i64,
    pub kind: String,
    pub preview: Option<String>,
    pub image_path: Option<String>,
    pub thumb_path: Option<String>,
    pub file_paths: Option<Vec<String>>,
    pub source_app: Option<String>,
    pub source_icon_path: Option<String>,
    pub pinned: bool,
    pub last_copied_at: i64,
    pub byte_size: i64,
    pub has_rich: bool,
}

#[verifier::ext_equal]
pub struct DtoView {
    pub id: i64,
    pub kind: Seq<char>,
    pub preview: Option<Seq<char>>,
    pub image_path: Option<Seq<char>>,
    pub thumb_path: Option<Seq<char>>,
    pub file_paths: Option<Seq<Seq<char>>>,
    pub source_app: Option<Seq<char>>,
    pub source_icon_path: Option<Seq<char>>,
    pub pinned: bool,
    pub last_copied_at: i64,
    pub byte_size: i64,
    pub has_rich: bool,
}

impl View for ItemDto {
    type V = DtoView;

    open spec fn view(&self) -> DtoView {
        DtoView {
            id: self.id,
            kind: self.kind@,
            preview: opt_str(self.preview),
            image_path: opt_str(self.image_path),
            thumb_path: opt_str(self.thumb_path),
            file_paths: opt_strs(self.file_paths),
            source_app: opt_str(self.source_app),
            source_icon_path: opt_str(self.source_icon_path),
            pinned: self.pinned,
            last_copied_at: self.last_copied_at,
            byte_size: self.byte_size,
            has_rich: self.has_rich,
        }
    }
}

impl Clone for ItemDto {
    fn clone(&self) -> (r: Self)
        ensures
            r@ == self@,
    {
        ItemDto {
            id: self.id,
            kind: self.kind.clone(),
            preview: clone_opt_string(&self.preview),
            image_path: clone_opt_string(&self.image_path),
            thumb_path: clone_opt_string(&self.thumb_path),
            file_paths: clone_opt_strings(&self.file_paths),
            source_app: clone_opt_string(&self.source_app),
            source_icon_path: clone_opt_string(&self.source_icon_path),
            pinned: self.pinned,
            last_copied_at: self.last_copied_at,
            byte_size: self.byte_size,
            has_rich: self.has_rich,
        }
    }
}

/// At most the first `n` elements of `s`.
pub open spec fn at_most<A>(s: Seq<A>, n: int) -> Seq<A> {
    if s.len() <= n {
        s
    } else {
        s.take(n)
    }
}

/// The preview of a row: its text cut to the first 400 characters, absent when empty.
pub open spec fn preview_of(t: Option<Seq<char>>) -> Option<Seq<char>> {
    let full = match t {
        Some(x) => x,
        None => Seq::<char>::empty(),
    };
    let p = at_most(full, PREVIEW_CHARS as int);
    if p.len() == 0 {
        None
    } else {
        Some(p)
    }
}

/// The list entry of a row.
pub open spec fn dto_of(v: ItemView) -> DtoView {
    DtoView {
        id: v.id,
        kind: v.kind,
        preview: preview_of(v.plain_text),
        image_path: v.image_path,
        thumb_path: v.thumb_path,
        file_paths: v.file_paths,
        source_app: v.source_app,
        source_icon_path: v.source_icon_path,
        pinned: v.pinned,
        last_copied_at: v.last_copied_at,
        byte_size: v.byte_size,
        has_rich: v.rtf is Some || v.html is Some,
    }
}

/// The row is listed for query `q`: `q` is empty, or the row's text is `LIKE '%q%'`.
pub open spec fn query_match(q: Seq<char>) -> spec_fn(ItemView) -> bool {
    |v: ItemView|
        q.len() == 0 || (v.plain_text is Some && like(contains_pattern(q), v.plain_text->0))
}

/// The rows listed for query `q`, in id order.
pub open spec fn matching(s: Seq<ItemView>, q: Seq<char>) -> Seq<ItemView> {
    keep(s, query_match(q))
}

/// Display order: pinned rows first, then by `sort_at` newest first, then by id.
pub open spec fn ranks_before(a: ItemView, b: ItemView) -> bool {
    ||| (a.pinned && !b.pinned)
    ||| (a.pinned == b.pinned && a.sort_at > b.sort_at)
    ||| (a.pinned == b.pinned && a.sort_at == b.sort_at && a.id < b.id)
}

/// How many elements of `s` rank before `x`.
pub open spec fn count_before(s: Seq<ItemView>, x: ItemView) -> int
    decreases s.len(),
{
    if s.len() == 0 {
        0
    } else {
        count_before(s.drop_last(), x) + (if ranks_before(s.last(), x) {
            1int
        } else {
            0int
        })
    }
}

/// `x` inserted into `s` after the elements that rank before it.
pub open spec fn insert_ranked(s: Seq<ItemView>, x: ItemView) -> Seq<ItemView> {
    s.insert(count_before(s, x), x)
}

/// `s` arranged in display order.
pub open spec fn rank_sorted(s: Seq<ItemView>) -> Seq<ItemView>
    decreases s.len(),
{
    if s.len() == 0 {
        Seq::empty()
    } else {
        insert_ranked(rank_sorted(s.drop_last()), s.last())
    }
}

/// `s` is in display order.
pub open spec fn sorted_by_rank(s: Seq<ItemView>) -> bool {
    forall|i: int, j: int| 0 <= i < j < s.len() ==> ranks_before(s[i], s[j])
}

/// No two elements of `s` share an id.
pub open spec fn ids_distinct(s: Seq<ItemView>) -> bool {
    forall|i: int, j: int| 0 <= i < j < s.len() ==> s[i].id != s[j].id
}

/// What the bar lists for query `q`: the matching rows in display order, at most 200.
pub open spec fn listing(s: Seq<ItemView>, q: Seq<char>) -> Seq<DtoView> {
    at_most(rank_sorted(matching(s, q)), LIST_LIMIT as int).map_values(|v: ItemView| dto_of(v))
}

pub proof fn lemma_count_before_range(s: Seq<ItemView>, x: ItemView)
    ensures
        0 <= count_before(s, x) <= s.len(),
    decreases s.len(),
{
    if s.len() > 0 {
        lemma_count_before_range(s.drop_last(), x);
    }
}

/// In a sorted sequence the elements ranking before `x` are exactly a prefix.
pub proof fn lemma_count_before_prefix(s: Seq<ItemView>, x: ItemView)
    requires
        sorted_by_rank(s),
    ensures
        0 <= count_before(s, x) <= s.len(),
        forall|k: int| 0 <= k < count_before(s, x) ==> ranks_before(#[trigger] s[k], x),
        forall|k: int| count_before(s, x) <= k < s.len() ==> !ranks_before(#[trigger] s[k], x),
    decreases s.len(),
{
    if s.len() > 0 {
        let t = s.drop_last();
        assert(sorted_by_rank(t));
        lemma_count_before_prefix(t, x);
        if ranks_before(s.last(), x) {
            assert forall|k: int| 0 <= k < t.len() implies ranks_before(#[trigger] t[k], x) by {
                assert(ranks_before(s[k], s[s.len() - 1]));
            }
            assert forall|k: int| 0 <= k < count_before(s, x) implies ranks_before(#[trigger] s[k], x) by {
                if k < t.len() {
                    assert(s[k] == t[k]);
                }
            }
        } else {
            assert forall|k: int| 0 <= k < count_before(s, x) implies ranks_before(#[trigger] s[k], x) by {
                assert(s[k] == t[k]);
            }
            assert forall|k: int| count_before(s, x) <= k < s.len() implies !ranks_before(#[trigger] s[k], x) by {
                if k < t.len() {
                    assert(s[k] == t[k]);
                }
            }
        }
    }
}

pub proof fn lemma_insert_contains(s: Seq<ItemView>, i: int, x: ItemView)
    requires
        0 <= i <= s.len(),
    ensures
        forall|y: ItemView| #[trigger] s.insert(i, x).contains(y) <==> (s.contains(y) || y == x),
        s.insert(i, x).len() == s.len() + 1,
{
    let r = s.insert(i, x);
    assert forall|y: ItemView| #[trigger] r.contains(y) <==> (s.contains(y) || y == x) by {
        if r.contains(y) {
            let k = choose|k: int| 0 <= k < r.len() && r[k] == y;
            if k < i {
                assert(s[k] == y);
            } else if k > i {
                assert(s[k - 1] == y);
            }
        }
        if s.contains(y) {
            let k = choose|k: int| 0 <= k < s.len() && s[k] == y;
            if k < i {
                assert(r[k] == y);
            } else {
                assert(r[k + 1] == y);
            }
        }
        if y == x {
            assert(r[i] == y);
        }
    }
}

/// Display order sorts a sequence without losing or adding elements; with distinct
/// ids the result is in display order.
pub proof fn lemma_rank_sorted(s: Seq<ItemView>)
    ensures
        rank_sorted(s).len() == s.len(),
        forall|y: ItemView| #[trigger] rank_sorted(s).contains(y) <==> s.contains(y),
        ids_distinct(s) ==> sorted_by_rank(rank_sorted(s)),
    decreases s.len(),
{
    if s.len() > 0 {
        let t = s.drop_last();
        let x = s.last();
        lemma_rank_sorted(t);
        let r = rank_sorted(t);
        lemma_count_before_range(r, x);
        let c = count_before(r, x);
        lemma_insert_contains(r, c, x);
        assert forall|y: ItemView| #[trigger] rank_sorted(s).contains(y) <==> s.contains(y) by {
            if t.contains(y) {
                let k = choose|k: int| 0 <= k < t.len() && t[k] == y;
                assert(s[k] == y);
            }
            if s.contains(y) {
                let k = choose|k: int| 0 <= k < s.len() && s[k] == y;
                if k < t.len() {
                    assert(t[k] == y);
                    assert(t.contains(y));
                }
            }
        }
        if ids_distinct(s) {
            assert(ids_distinct(t));
            lemma_count_before_prefix(r, x);
            let out = r.insert(c, x);
            assert forall|i: int, j: int| 0 <= i < j < out.len() implies ranks_before(out[i], out[j]) by {
                if j < c {
                } else if j == c {
                    assert(out[i] == r[i]);
                } else if i == c {
                    assert(out[j] == r[j - 1]);
                    assert(!ranks_before(r[j - 1], x));
                    assert(r.contains(r[j - 1]));
                    assert(t.contains(r[j - 1]));
                    let k = choose|k: int| 0 <= k < t.len() && t[k] == r[j - 1];
                    assert(s[k] == t[k]);
                    assert(s[k].id != s[s.len() - 1].id);
                } else if i < c {
                    assert(out[i] == r[i]);
                    assert(out[j] == r[j - 1]);
                } else {
                    assert(out[i] == r[i - 1]);
                    assert(out[j] == r[j - 1]);
                }
            }
        }
    }
}

/// Keeping only the first `n` of a sorted sequence commutes with inserting a new
/// element in display order.
pub proof fn lemma_insert_ranked_at_most(s: Seq<ItemView>, x: ItemView, n: int)
    requires
        sorted_by_rank(s),
        n >= 0,
    ensures
        at_most(insert_ranked(s, x), n) == at_most(insert_ranked(at_most(s, n), x), n),
{
    if s.len() > n {
        lemma_count_before_prefix(s, x);
        let c = count_before(s, x);
        let sn = s.take(n);
        assert(sorted_by_rank(sn));
        lemma_count_before_prefix(sn, x);
        let cn = count_before(sn, x);
        if c < n {
            if cn < c {
                assert(ranks_before(s[cn], x));
                assert(sn[cn] == s[cn]);
            }
            if cn > c {
                assert(!ranks_before(s[c], x));
                assert(sn[c] == s[c]);
            }
            assert(cn == c);
            assert(at_most(insert_ranked(s, x), n) =~= at_most(insert_ranked(sn, x), n));
        } else {
            if cn < n {
                assert(ranks_before(s[cn], x));
                assert(sn[cn] == s[cn]);
            }
            assert(cn == n);
            assert(at_most(insert_ranked(s, x), n) =~= sn);
            assert(at_most(insert_ranked(sn, x), n) =~= sn);
        }
    }
}


/// Whether no two of the rows share a content hash.
fn hashes_distinct(items: &Vec<StoredItem>) -> (b: bool)
    ensures
        b == hashes_unique(views(items@)),
{
    let ghost s = views(items@);
    let n = items.len();
    let mut i: usize = 0;
    while i < n
        invariant
            n == items@.len(),
            s == views(items@),
            i <= n,
            forall|a: int, b: int| 0 <= a < b < n && a < i ==> s[a].hash != s[b].hash,
        decreases n - i,
    {
        let mut j: usize = i + 1;
        while j < n
            invariant
                n == items@.len(),
                s == views(items@),
                i < n,
                i + 1 <= j <= n,
                forall|a: int, b: int| 0 <= a < b < n && a < i ==> s[a].hash != s[b].hash,
                forall|b: int| i < b < j ==> s[i as int].hash != s[b].hash,
            decreases n - j,
        {
            assert(s[i as int] == items@[i as int]@);
            assert(s[j as int] == items@[j as int]@);
            if items[i].hash == items[j].hash {
                assert(!hashes_unique(s));
                return false;
            }
            j = j + 1;
        }
        i = i + 1;
    }
    true
}

/// Display order of two stored rows.
fn ranks_before_exec(a: &StoredItem, b: &StoredItem) -> (r: bool)
    ensures
        r == ranks_before(a@, b@),
{
    (a.pinned && !b.pinned) || (a.pinned == b.pinned && a.sort_at > b.sort_at) || (a.pinned
        == b.pinned && a.sort_at == b.sort_at && a.id < b.id)
}

/// The list entry of a stored row.
fn make_dto(it: &StoredItem) -> (d: ItemDto)
    ensures
        d@ == dto_of(it@),
{
    let preview = match &it.plain_text {
        Some(t) => {
            let v = chars_of(t.as_str());
            let n = if v.len() <= PREVIEW_CHARS {
                v.len()
            } else {
                PREVIEW_CHARS
            };
            if n == 0 {
                None
            } else {
                let p = string_of_range(&v, 0, n);
                assert(p@ =~= at_most(t@, PREVIEW_CHARS as int));
                Some(p)
            }
        },
        None => None,
    };
    ItemDto {
        id: it.id,
        kind: it.kind.clone(),
        preview,
        image_path: clone_opt_string(&it.image_path),
        thumb_path: clone_opt_string(&it.thumb_path),
        file_paths: clone_opt_strings(&it.file_paths),
        source_app: clone_opt_string(&it.source_app),
        source_icon_path: clone_opt_string(&it.source_icon_path),
        pinned: it.pinned,
        last_copied_at: it.last_copied_at,
        byte_size: it.byte_size,
        has_rich: it.rtf.is_some() || it.html.is_some(),
    }
}

/// The rows of `s` at the positions listed in `idx`.
pub open spec fn at_positions(s: Seq<ItemView>, idx: Seq<usize>) -> Seq<ItemView> {
    idx.map_values(|j: usize| s[j as int])
}


proof fn lemma_evict(s: Seq<ItemView>, b: int)
    ensures
        evict(s, b).kept.len() + evict(s, b).evicted.len() == s.len(),
        forall|x: ItemView| #[trigger] evict(s, b).kept.contains(x) ==> s.contains(x),
        forall|x: ItemView| #[trigger] evict(s, b).evicted.contains(x) ==> s.contains(x) && !x.pinned,
        forall|k: int| 0 <= k < s.len() && (#[trigger] s[k]).pinned ==> evict(s, b).kept.contains(s[k]),
        evict(s, b).ok ==> total_bytes(evict(s, b).kept) <= b || forall|k: int|
            0 <= k < evict(s, b).kept.len() ==> (#[trigger] evict(s, b).kept[k]).pinned,
        forall|e: ItemView, r: ItemView|
            #![trigger evict(s, b).evicted.contains(e), evict(s, b).kept.contains(r)]
            evict(s, b).evicted.contains(e) && evict(s, b).kept.contains(r) && !r.pinned
                ==> e.last_copied_at <= r.last_copied_at,
        ids_increasing(s) ==> ids_increasing(evict(s, b).kept),
        hashes_unique(s) ==> hashes_unique(evict(s, b).kept),
    decreases s.len(),
{
    let e = evict(s, b);
    if !sum_fits(s) || total_bytes(s) <= b {
        assert forall|k: int| 0 <= k < s.len() && (#[trigger] s[k]).pinned implies e.kept.contains(s[k]) by {
            assert(e.kept[k] == s[k]);
        }
    } else {
        let j = oldest_unpinned(s);
        lemma_oldest_in(s, s.len() as int);
        if j < 0 || j >= s.len() {
            assert forall|k: int| 0 <= k < s.len() && (#[trigger] s[k]).pinned implies e.kept.contains(s[k]) by {
                assert(e.kept[k] == s[k]);
            }
        } else {
            let v = s[j];
            let t = s.remove(j);
            lemma_remove_sub(s, j);
            lemma_evict(t, b);
            let r = evict(t, b);
            assert(e.kept == r.kept);
            assert(e.evicted == seq![v] + r.evicted);
            assert forall|x: ItemView| #[trigger] e.kept.contains(x) implies s.contains(x) by {
                assert(r.kept.contains(x));
                assert(t.contains(x));
            }
            assert forall|x: ItemView| #[trigger] e.evicted.contains(x) implies s.contains(x) && !x.pinned by {
                let k = choose|k: int| 0 <= k < e.evicted.len() && e.evicted[k] == x;
                if k == 0 {
                    assert(x == v);
                    assert(s[j] == x);
                } else {
                    assert(r.evicted[k - 1] == x);
                    assert(r.evicted.contains(x));
                    assert(t.contains(x));
                }
            }
            assert forall|k: int| 0 <= k < s.len() && (#[trigger] s[k]).pinned implies e.kept.contains(s[k]) by {
                assert(k != j);
                assert(t.contains(s[k]));
                let m = choose|m: int| 0 <= m < t.len() && t[m] == s[k];
                assert(t[m].pinned);
                assert(r.kept.contains(t[m]));
            }
            assert forall|x: ItemView, y: ItemView|
                #![trigger e.evicted.contains(x), e.kept.contains(y)]
                e.evicted.contains(x) && e.kept.contains(y) && !y.pinned
                    implies x.last_copied_at <= y.last_copied_at by {
                assert(r.kept.contains(y));
                let k = choose|k: int| 0 <= k < e.evicted.len() && e.evicted[k] == x;
                if k == 0 {
                    assert(t.contains(y));
                    assert(s.contains(y));
                    let m = choose|m: int| 0 <= m < s.len() && s[m] == y;
                    assert(!s[m].pinned);
                } else {
                    assert(r.evicted[k - 1] == x);
                    assert(r.evicted.contains(x));
                }
            }
        }
    }
}

/// Eviction never removes a pinned row: every pinned row is still there afterwards.
pub proof fn eviction_spares_pinned(s: Seq<ItemView>, budget: int)
    ensures
        forall|k: int| 0 <= k < s.len() && (#[trigger] s[k]).pinned ==> evict(s, budget).kept.contains(s[k]),
        forall|x: ItemView| #[trigger] evict(s, budget).evicted.contains(x) ==> !x.pinned,
{
    lemma_evict(s, budget);
}

/// After eviction that could add up the sizes, the history fits the budget, or every
/// row left is pinned.
pub proof fn eviction_meets_budget(s: Seq<ItemView>, budget: int)
    ensures
        evict(s, budget).ok ==> total_bytes(evict(s, budget).kept) <= budget || forall|k: int|
            0 <= k < evict(s, budget).kept.len() ==> (#[trigger] evict(s, budget).kept[k]).pinned,
{
    lemma_evict(s, budget);
}

/// Eviction takes the least recently copied rows: no evicted row was copied more
/// recently than an unpinned row that stays.
pub proof fn eviction_takes_oldest_first(s: Seq<ItemView>, budget: int)
    ensures
        forall|e: ItemView, r: ItemView|
            #![trigger evict(s, budget).evicted.contains(e), evict(s, budget).kept.contains(r)]
            evict(s, budget).evicted.contains(e) && evict(s, budget).kept.contains(r) && !r.pinned
                ==> e.last_copied_at <= r.last_copied_at,
{
    lemma_evict(s, budget);
}

/// Eviction only removes rows: what stays and what goes together are the rows before,
/// and the rows that stay keep their order.
pub proof fn eviction_only_removes(s: Seq<ItemView>, budget: int)
    ensures
        evict(s, budget).kept.len() + evict(s, budget).evicted.len() == s.len(),
        forall|x: ItemView| #[trigger] evict(s, budget).kept.contains(x) ==> s.contains(x),
        forall|x: ItemView| #[trigger] evict(s, budget).evicted.contains(x) ==> s.contains(x),
        ids_increasing(s) ==> ids_increasing(evict(s, budget).kept),
{
    lemma_evict(s, budget);
}

/// A capture new to the history reads back under the id it was given, with the fields
/// it was captured with, unless the eviction that follows took it straight away; then
/// no row has that id.
pub proof fn inserted_row_reads_back(
    s: Seq<ItemView>,
    last_id: i64,
    n: NewItemView,
    now: i64,
    budget: int,
)
    requires
        forall|k: int| 0 <= k < s.len() ==> #[trigger] s[k].id <= last_id,
        0 <= last_id < i64::MAX,
    ensures
        ({
            let row = fresh_row(n, (last_id + 1) as i64, now);
            let kept = evict(s.push(row), budget).kept;
            &&& kept.contains(row) ==> (index_of_id(kept, (last_id + 1) as i64) matches Some(i)
                && full_of(kept[i]) == FullItemView {
                kind: n.kind,
                plain_text: n.plain_text,
                rtf: n.rtf,
                html: n.html,
                image_path: n.image_path,
                file_paths: n.file_paths,
            })
            &&& !kept.contains(row) ==> index_of_id(kept, (last_id + 1) as i64) is None
        }),
{
    let id = (last_id + 1) as i64;
    let row = fresh_row(n, id, now);
    let all = s.push(row);
    let kept = evict(all, budget).kept;
    lemma_evict(all, budget);
    lemma_first_index_facts(kept, id_is(id));
    match index_of_id(kept, id) {
        Some(i) => {
            assert(kept.contains(kept[i]));
            assert(all.contains(kept[i]));
            let k = choose|k: int| 0 <= k < all.len() && all[k] == kept[i];
            if k < s.len() {
                assert(s[k].id <= last_id);
            }
            assert(kept[i] == row);
        },
        None => {
            if kept.contains(row) {
                let k = choose|k: int| 0 <= k < kept.len() && kept[k] == row;
                assert(!id_is(id)(kept[k]));
            }
        },
    }
}

/// Recording a capture never creates a second row with the same content: with no
/// duplicate hashes before, there are none after, whether the capture bumps an
/// existing row or adds a new one (and evicts).
pub proof fn capture_keeps_hashes_unique(
    items: Seq<ItemView>,
    n: NewItemView,
    id: i64,
    now: i64,
    budget: int,
)
    requires
        hashes_unique(items),
    ensures
        match index_of_hash(items, n.hash) {
            Some(j) => hashes_unique(items.update(j, bumped_row(items[j], n, now))),
            None => hashes_unique(evict(items.push(fresh_row(n, id, now)), budget).kept),
        },
{
    lemma_first_index_facts(items, hash_is(n.hash));
    match index_of_hash(items, n.hash) {
        Some(j) => {
            let u = items.update(j, bumped_row(items[j], n, now));
            assert forall|a: int, b: int| 0 <= a < b < u.len() implies u[a].hash != u[b].hash by {
                assert(u[a].hash == items[a].hash);
                assert(u[b].hash == items[b].hash);
            }
        },
        None => {
            let p = items.push(fresh_row(n, id, now));
            assert forall|a: int, b: int| 0 <= a < b < p.len() implies p[a].hash != p[b].hash by {
                if b == items.len() {
                    assert(!hash_is(n.hash)(items[a]));
                }
            }
            lemma_evict(p, budget);
        },
    }
}

/// Reading a setting gives back what was last stored under that key, and storing
/// under one key leaves every other key as it was.
pub proof fn setting_read_after_write(
    s: Seq<(Seq<char>, Seq<char>)>,
    k: Seq<char>,
    v: Seq<char>,
    other: Seq<char>,
)
    ensures
        setting_lookup(setting_put(s, k, v), k) == Some(v),
        other != k ==> setting_lookup(setting_put(s, k, v), other) == setting_lookup(s, other),
    decreases s.len(),
{
    let p = setting_put(s, k, v);
    if s.len() == 0 {
        assert(p == seq![(k, v)]);
        assert(p[0] == (k, v));
        assert(p.drop_first() =~= Seq::<(Seq<char>, Seq<char>)>::empty());
        if other != k {
            assert(setting_lookup(p, other) == setting_lookup(p.drop_first(), other));
        }
    } else if s[0].0 != k {
        setting_read_after_write(s.drop_first(), k, v, other);
        let rest = setting_put(s.drop_first(), k, v);
        assert(p == seq![s[0]] + rest);
        assert(p[0] == s[0]);
        assert(p.drop_first() =~= rest);
    } else {
        assert(p == s.update(0, (k, v)));
        assert(p[0] == (k, v));
        assert(p.drop_first() =~= s.drop_first());
        if other != k {
            assert(setting_lookup(p, other) == setting_lookup(p.drop_first(), other));
            assert(setting_lookup(s, other) == setting_lookup(s.drop_first(), other));
        }
    }
}


/// The rows after the pin of the row with id `id` is flipped.
pub open spec fn toggled(s: Seq<ItemView>, id: i64) -> Seq<ItemView> {
    match index_of_id(s, id) {
        Some(i) => s.update(i, ItemView { pinned: !s[i].pinned, ..s[i] }),
        None => s,
    }
}

/// The rows after the row with id `id` is marked copied at `now`.
pub open spec fn bumped(s: Seq<ItemView>, id: i64, now: i64) -> Seq<ItemView> {
    match index_of_id(s, id) {
        Some(i) => s.update(i, ItemView { last_copied_at: now, ..s[i] }),
        None => s,
    }
}

/// Two rows agree on everything the list's filter and order look at.
pub open spec fn same_keys(a: ItemView, b: ItemView) -> bool {
    &&& a.id == b.id
    &&& a.pinned == b.pinned
    &&& a.sort_at == b.sort_at
    &&& a.plain_text == b.plain_text
}

pub open spec fn keys_agree(s: Seq<ItemView>, t: Seq<ItemView>) -> bool {
    &&& s.len() == t.len()
    &&& forall|k: int| 0 <= k < s.len() ==> same_keys(#[trigger] s[k], t[k])
}

proof fn lemma_index_of_id_agree(s: Seq<ItemView>, t: Seq<ItemView>, id: i64)
    requires
        s.len() == t.len(),
        forall|k: int| 0 <= k < s.len() ==> (#[trigger] s[k]).id == t[k].id,
    ensures
        index_of_id(s, id) == index_of_id(t, id),
    decreases s.len(),
{
    if s.len() > 0 {
        assert(s[0].id == t[0].id);
        assert forall|k: int| 0 <= k < s.len() - 1 implies (#[trigger] s.drop_first()[k]).id
            == t.drop_first()[k].id by {
            assert(s[k + 1].id == t[k + 1].id);
        }
        lemma_index_of_id_agree(s.drop_first(), t.drop_first(), id);
    }
}

/// Flipping a pin twice restores the history.
pub proof fn toggle_pin_twice_restores(s: Seq<ItemView>, id: i64)
    ensures
        toggled(toggled(s, id), id) == s,
{
    let t = toggled(s, id);
    lemma_first_index_facts(s, id_is(id));
    assert forall|k: int| 0 <= k < s.len() implies (#[trigger] s[k]).id == t[k].id by {}
    lemma_index_of_id_agree(s, t, id);
    match index_of_id(s, id) {
        Some(i) => {
            assert(toggled(t, id) =~= s);
        },
        None => {},
    }
}

proof fn lemma_keep_agree(s: Seq<ItemView>, t: Seq<ItemView>, q: Seq<char>)
    requires
        keys_agree(s, t),
    ensures
        keys_agree(matching(s, q), matching(t, q)),
    decreases s.len(),
{
    if s.len() > 0 {
        let s1 = s.drop_last();
        let t1 = t.drop_last();
        assert forall|k: int| 0 <= k < s1.len() implies same_keys(#[trigger] s1[k], t1[k]) by {
            assert(same_keys(s[k], t[k]));
        }
        lemma_keep_agree(s1, t1, q);
        assert(same_keys(s.last(), t.last()));
        assert(query_match(q)(s.last()) == query_match(q)(t.last()));
        let a = matching(s1, q);
        let b = matching(t1, q);
        if query_match(q)(s.last()) {
            assert forall|k: int| 0 <= k < a.len() + 1 implies same_keys(
                #[trigger] a.push(s.last())[k],
                b.push(t.last())[k],
            ) by {
                if k < a.len() {
                    assert(same_keys(a[k], b[k]));
                }
            }
        }
    }
}

proof fn lemma_count_agree(s: Seq<ItemView>, t: Seq<ItemView>, x: ItemView, y: ItemView)
    requires
        keys_agree(s, t),
        same_keys(x, y),
    ensures
        count_before(s, x) == count_before(t, y),
    decreases s.len(),
{
    if s.len() > 0 {
        let s1 = s.drop_last();
        let t1 = t.drop_last();
        assert forall|k: int| 0 <= k < s1.len() implies same_keys(#[trigger] s1[k], t1[k]) by {
            assert(same_keys(s[k], t[k]));
        }
        lemma_count_agree(s1, t1, x, y);
        assert(same_keys(s.last(), t.last()));
    }
}

proof fn lemma_rank_sorted_agree(s: Seq<ItemView>, t: Seq<ItemView>)
    requires
        keys_agree(s, t),
    ensures
        keys_agree(rank_sorted(s), rank_sorted(t)),
    decreases s.len(),
{
    if s.len() > 0 {
        let s1 = s.drop_last();
        let t1 = t.drop_last();
        assert forall|k: int| 0 <= k < s1.len() implies same_keys(#[trigger] s1[k], t1[k]) by {
            assert(same_keys(s[k], t[k]));
        }
        lemma_rank_sorted_agree(s1, t1);
        let a = rank_sorted(s1);
        let b = rank_sorted(t1);
        assert(same_keys(s.last(), t.last()));
        lemma_count_agree(a, b, s.last(), t.last());
        lemma_count_before_range(a, s.last());
        let c = count_before(a, s.last());
        let ra = a.insert(c, s.last());
        let rb = b.insert(c, t.last());
        assert forall|k: int| 0 <= k < ra.len() implies same_keys(#[trigger] ra[k], rb[k]) by {
            if k < c {
                assert(same_keys(a[k], b[k]));
            } else if k > c {
                assert(same_keys(a[k - 1], b[k - 1]));
            }
        }
    }
}

/// Marking a row as copied does not move anything in the list: the same ids are
/// listed in the same order for every query until the display order is refreshed.
pub proof fn bump_keeps_list_order(s: Seq<ItemView>, id: i64, now: i64, q: Seq<char>)
    ensures
        listing(bumped(s, id, now), q).len() == listing(s, q).len(),
        forall|k: int|
            0 <= k < listing(s, q).len() ==> (#[trigger] listing(bumped(s, id, now), q)[k]).id
                == listing(s, q)[k].id,
{
    let t = bumped(s, id, now);
    lemma_first_index_facts(s, id_is(id));
    assert(keys_agree(t, s));
    lemma_keep_agree(t, s, q);
    lemma_rank_sorted_agree(matching(t, q), matching(s, q));
    let a = at_most(rank_sorted(matching(t, q)), LIST_LIMIT as int);
    let b = at_most(rank_sorted(matching(s, q)), LIST_LIMIT as int);
    assert forall|k: int| 0 <= k < b.len() implies (#[trigger] a[k]).id == b[k].id by {
        assert(same_keys(rank_sorted(matching(t, q))[k], rank_sorted(matching(s, q))[k]));
    }
}

/// A pasted row is bumped to the time of the paste; once the display order is
/// refreshed (the next time the bar opens) it is listed right after the pinned rows:
/// every row before it is pinned and every row after it is not.
pub proof fn pasted_row_leads_after_refresh(s: Seq<ItemView>, id: i64, now: i64)
    requires
        ids_increasing(s),
        index_of_id(s, id) is Some,
        !s[index_of_id(s, id)->0].pinned,
        forall|k: int| 0 <= k < s.len() ==> (#[trigger] s[k]).last_copied_at < now,
    ensures
        ({
            let r = rank_sorted(
                matching(bumped(s, id, now).map_values(|v: ItemView| resnapshot(v)), Seq::empty()),
            );
            exists|i: int|
                0 <= i < r.len() && (#[trigger] r[i]).id == id && forall|j: int|
                    0 <= j < r.len() ==> (j < i <==> (#[trigger] r[j]).pinned)
        }),
{
    let i0 = index_of_id(s, id)->0;
    lemma_first_index_facts(s, id_is(id));
    let b = bumped(s, id, now);
    let t = b.map_values(|v: ItemView| resnapshot(v));
    assert forall|k: int| 0 <= k < t.len() implies (#[trigger] t[k]).id == s[k].id by {}
    assert(ids_distinct(t));
    empty_query_matches_all(t);
    lemma_rank_sorted(t);
    let r = rank_sorted(t);
    let x = t[i0];
    assert(x.id == id && !x.pinned && x.sort_at == now);
    assert(t.contains(x));
    assert(r.contains(x));
    let i = choose|i: int| 0 <= i < r.len() && r[i] == x;
    assert forall|j: int| 0 <= j < r.len() implies (j < i <==> (#[trigger] r[j]).pinned) by {
        assert(r.contains(r[j]));
        assert(t.contains(r[j]));
        let m = choose|m: int| 0 <= m < t.len() && t[m] == r[j];
        if j < i {
            assert(ranks_before(r[j], r[i]));
            if m != i0 {
                assert(t[m].sort_at == s[m].last_copied_at);
            }
        } else if j > i {
            assert(ranks_before(r[i], r[j]));
        }
    }
    assert(r[i].id == id);
}

/// With no query every row is listed.
pub proof fn empty_query_matches_all(s: Seq<ItemView>)
    ensures
        matching(s, Seq::<char>::empty()) == s,
    decreases s.len(),
{
    if s.len() > 0 {
        empty_query_matches_all(s.drop_last());
        assert(s.drop_last().push(s.last()) =~= s);
    }
}

/// The list is in display order (pinned rows first, then newest `sort_at` first), holds
/// only rows that match the query, holds the best 200 of them (or all when fewer), and
/// every matching row left out ranks after every row listed.
pub proof fn listing_is_ordered_and_complete(s: Seq<ItemView>, q: Seq<char>)
    requires
        ids_increasing(s),
    ensures
        sorted_by_rank(at_most(rank_sorted(matching(s, q)), LIST_LIMIT as int)),
        forall|i: int, j: int|
            0 <= i < j < at_most(rank_sorted(matching(s, q)), LIST_LIMIT as int).len()
                && (#[trigger] at_most(rank_sorted(matching(s, q)), LIST_LIMIT as int)[j]).pinned
                ==> (#[trigger] at_most(rank_sorted(matching(s, q)), LIST_LIMIT as int)[i]).pinned,
        at_most(rank_sorted(matching(s, q)), LIST_LIMIT as int).len() == (if matching(s, q).len()
            <= LIST_LIMIT {
            matching(s, q).len() as int
        } else {
            LIST_LIMIT as int
        }),
        forall|x: ItemView| #[trigger]
            at_most(rank_sorted(matching(s, q)), LIST_LIMIT as int).contains(x) ==> s.contains(x)
                && query_match(q)(x),
        forall|x: ItemView, y: ItemView|
            #![trigger s.contains(x), at_most(rank_sorted(matching(s, q)), LIST_LIMIT as int).contains(y)]
            s.contains(x) && query_match(q)(x) && !at_most(
                rank_sorted(matching(s, q)),
                LIST_LIMIT as int,
            ).contains(x) && at_most(rank_sorted(matching(s, q)), LIST_LIMIT as int).contains(y)
                ==> ranks_before(y, x),
{
    let f = matching(s, q);
    lemma_keep(s, query_match(q));
    assert(ids_distinct(f));
    lemma_rank_sorted(f);
    let r = rank_sorted(f);
    let l = at_most(r, LIST_LIMIT as int);
    assert(sorted_by_rank(l));
    assert forall|i: int, j: int| 0 <= i < j < l.len() && (#[trigger] l[j]).pinned implies (#[trigger] l[i]).pinned by {
        assert(ranks_before(l[i], l[j]));
    }
    assert forall|x: ItemView| #[trigger] l.contains(x) implies s.contains(x) && query_match(q)(x) by {
        let k = choose|k: int| 0 <= k < l.len() && l[k] == x;
        assert(r[k] == x);
        assert(r.contains(x));
        assert(f.contains(x));
    }
    assert forall|x: ItemView, y: ItemView|
        #![trigger s.contains(x), l.contains(y)]
        s.contains(x) && query_match(q)(x) && !l.contains(x) && l.contains(y)
            implies ranks_before(y, x) by {
        assert(f.contains(x));
        assert(r.contains(x));
        let kx = choose|kx: int| 0 <= kx < r.len() && r[kx] == x;
        let ky = choose|ky: int| 0 <= ky < l.len() && l[ky] == y;
        assert(r[ky] == y);
        if kx < l.len() {
            assert(l[kx] == x);
        }
    }
}


/// Clearing the history keeps exactly the pinned rows, in their order, and removes
/// exactly the unpinned ones.
pub proof fn clear_keeps_exactly_pinned(s: Seq<ItemView>)
    ensures
        forall|x: ItemView| #[trigger] with_pin(s, true).contains(x) <==> s.contains(x) && x.pinned,
        forall|x: ItemView| #[trigger] with_pin(s, false).contains(x) <==> s.contains(x) && !x.pinned,
        ids_increasing(s) ==> ids_increasing(with_pin(s, true)),
{
    lemma_keep(s, pinned_is(true));
    lemma_keep(s, pinned_is(false));
}

/// Copying again content that is already in the history changes only its recency and
/// source fields: the row keeps its id, kind, hash, content, size, pin, creation time
/// and display position; its recency becomes `now`; each source field takes the new
/// capture's value when that has one and keeps the old value otherwise.
pub proof fn recopy_changes_only_recency_and_source(r: ItemView, n: NewItemView, now: i64)
    ensures
        ({
            let b = bumped_row(r, n, now);
            &&& b.id == r.id
            &&& b.kind == r.kind
            &&& b.hash == r.hash
            &&& b.plain_text == r.plain_text
            &&& b.rtf == r.rtf
            &&& b.html == r.html
            &&& b.image_path == r.image_path
            &&& b.thumb_path == r.thumb_path
            &&& b.file_paths == r.file_paths
            &&& b.byte_size == r.byte_size
            &&& b.pinned == r.pinned
            &&& b.created_at == r.created_at
            &&& b.sort_at == r.sort_at
            &&& b.last_copied_at == now
            &&& b.source_app == (if n.source_app is Some { n.source_app } else { r.source_app })
            &&& b.source_bundle_id == (if n.source_bundle_id is Some {
                n.source_bundle_id
            } else {
                r.source_bundle_id
            })
            &&& b.source_icon_path == (if n.source_icon_path is Some {
                n.source_icon_path
            } else {
                r.source_icon_path
            })
        }),
{
}

/// A row whose text contains the query anywhere is found by the search, whatever
/// surrounds the query in the text (line breaks included); with no query every row is.
pub proof fn text_containing_query_matches(v: ItemView, q: Seq<char>, a: Seq<char>, b: Seq<char>)
    ensures
        v.plain_text == Some(a + q + b) ==> query_match(q)(v),
        query_match(Seq::<char>::empty())(v),
{
    query_found_anywhere(q, a, b);
}

/// The list puts pinned rows before unpinned ones, and among rows with the same pin
/// the newer display position (`sort_at`) comes first; each entry is its row's list
/// entry.
pub proof fn listing_orders_by_pin_then_recency(s: Seq<ItemView>, q: Seq<char>)
    requires
        ids_increasing(s),
    ensures
        ({
            let l = at_most(rank_sorted(matching(s, q)), LIST_LIMIT as int);
            &&& listing(s, q) == l.map_values(|v: ItemView| dto_of(v))
            &&& forall|i: int, j: int|
                0 <= i < j < l.len() && (#[trigger] l[j]).pinned ==> (#[trigger] l[i]).pinned
            &&& forall|i: int, j: int|
                0 <= i < j < l.len() && (#[trigger] l[i]).pinned == (#[trigger] l[j]).pinned
                    ==> l[i].sort_at >= l[j].sort_at
        }),
{
    let f = matching(s, q);
    lemma_keep(s, query_match(q));
    assert(ids_distinct(f));
    lemma_rank_sorted(f);
    let r = rank_sorted(f);
    let l = at_most(r, LIST_LIMIT as int);
    assert(sorted_by_rank(l));
    assert forall|i: int, j: int| 0 <= i < j < l.len() && (#[trigger] l[j]).pinned implies (#[trigger] l[i]).pinned by {
        assert(ranks_before(l[i], l[j]));
    }
    assert forall|i: int, j: int|
        0 <= i < j < l.len() && (#[trigger] l[i]).pinned == (#[trigger] l[j]).pinned implies l[i].sort_at
        >= l[j].sort_at by {
        assert(ranks_before(l[i], l[j]));
    }
}

/// A list entry's preview is the start of its row's text: the first 400 characters, or
/// all of them when there are fewer; there is none exactly when the row has no text or
/// an empty one.
pub proof fn preview_is_text_prefix(v: ItemView)
    ensures
        ({
            let t = match v.plain_text {
                Some(x) => x,
                None => Seq::<char>::empty(),
            };
            let n = if t.len() <= PREVIEW_CHARS as int {
                t.len() as int
            } else {
                PREVIEW_CHARS as int
            };
            &&& dto_of(v).preview is None <==> n == 0
            &&& dto_of(v).preview matches Some(p) ==> p.len() == n && p == t.take(n)
        }),
{
    let t = match v.plain_text {
        Some(x) => x,
        None => Seq::<char>::empty(),
    };
    if t.len() <= PREVIEW_CHARS as int {
        assert(t.take(t.len() as int) =~= t);
    }
}

impl View for History {
    type V = HistoryView;

    closed spec fn view(&self) -> HistoryView {
        HistoryView {
            items: views(self.items@),
            last_id: self.last_id,
            settings: setting_views(self.settings@),
        }
    }
}

impl History {
    /// The store's invariant: rows in strictly increasing id order, no id above the
    /// last one handed out, no content hash twice (the table's unique hash column).
    pub closed spec fn wf(&self) -> bool {
        &&& ids_increasing(self@.items)
        &&& forall|i: int| 0 <= i < self@.items.len() ==> #[trigger] self@.items[i].id <= self@.last_id
        &&& self.last_id >= 0
        &&& hashes_unique(self@.items)
    }

    /// What the invariant says of the rows: ids strictly increase and never exceed the
    /// last id handed out, which is not negative, and no two rows share a content hash.
    pub proof fn lemma_wf(&self)
        requires
            self.wf(),
        ensures
            ids_increasing(self@.items),
            forall|i: int| 0 <= i < self@.items.len() ==> #[trigger] self@.items[i].id <= self@.last_id,
            self@.last_id >= 0,
            hashes_unique(self@.items),
    {
    }

    /// An empty history with no settings.
    pub fn new() -> (h: History)
        ensures
            h.wf(),
            h@.items.len() == 0,
            h@.last_id == 0,
            h@.settings.len() == 0,
    {
        let h = History { items: Vec::new(), last_id: 0, settings: Vec::new() };
        assert(h@.items =~= Seq::<ItemView>::empty());
        assert(h@.settings =~= Seq::<(Seq<char>, Seq<char>)>::empty());
        h
    }

    /// Number of rows.
    pub fn len(&self) -> (n: usize)
        ensures
            n == self@.items.len(),
    {
        self.items.len()
    }

    /// The rows, in id order.
    pub fn rows(&self) -> (r: &Vec<StoredItem>)
        ensures
            views(r@) == self@.items,
    {
        &self.items
    }

    /// The settings rows.
    pub fn settings(&self) -> (r: &Vec<Setting>)
        ensures
            setting_views(r@) == self@.settings,
    {
        &self.settings
    }

    /// The value stored under `key`, if any.
    pub fn get_setting(&self, key: &str) -> (r: Option<String>)
        ensures
            opt_str(r) == setting_lookup(self@.settings, key@),
    {
        let k = key.to_owned();
        let mut i: usize = 0;
        while i < self.settings.len()
            invariant
                i <= self.settings@.len(),
                k@ == key@,
                forall|j: int| 0 <= j < i ==> (#[trigger] self@.settings[j]).0 != key@,
            decreases self.settings.len() - i,
        {
            if self.settings[i].key == k {
                proof {
                    lemma_lookup_skip(self@.settings, key@, i as int);
                }
                return Some(self.settings[i].value.clone());
            }
            i = i + 1;
        }
        proof {
            lemma_lookup_skip(self@.settings, key@, i as int);
        }
        None
    }

    /// Stores `value` under `key`, replacing an existing value.
    pub fn set_setting(&mut self, key: &str, value: &str)
        requires
            old(self).wf(),
        ensures
            final(self).wf(),
            final(self)@.settings == setting_put(old(self)@.settings, key@, value@),
            final(self)@.items == old(self)@.items,
            final(self)@.last_id == old(self)@.last_id,
    {
        let k = key.to_owned();
        let ghost s0 = self@.settings;
        let n = self.settings.len();
        let mut i: usize = 0;
        let mut found = false;
        while i < n && !found
            invariant
                n == s0.len(),
                i <= n,
                k@ == key@,
                self@.settings == s0,
                found ==> i < n && s0[i as int].0 == key@,
                forall|j: int| 0 <= j < i ==> (#[trigger] s0[j]).0 != key@,
            decreases n - i + (if found { 0int } else { 1int }),
        {
            if self.settings[i].key == k {
                found = true;
            } else {
                i = i + 1;
            }
        }
        proof {
            lemma_put_skip(s0, key@, value@, i as int);
        }
        if found {
            self.settings.set(i, Setting { key: k, value: value.to_owned() });
        } else {
            self.settings.push(Setting { key: k, value: value.to_owned() });
        }
        assert(self@.settings =~= setting_put(s0, key@, value@));
    }

    /// The disk budget in bytes (`max_bytes` setting, else the default).
    pub fn max_bytes(&self) -> (n: i64)
        ensures
            n == budget_of(self@.settings),
    {
        match self.get_setting("max_bytes") {
            Some(v) => match parse_i64(v.as_str()) {
                Some(n) => n,
                None => DEFAULT_MAX_BYTES,
            },
            None => DEFAULT_MAX_BYTES,
        }
    }

    /// Takes up rows read back from storage (in id order), the largest id the table
    /// ever used, and the settings rows. Fails when the ids are not strictly increasing,
    /// or else when two rows share a content hash.
    pub fn from_rows(rows: Vec<StoredItem>, sequence: i64, settings: Vec<Setting>) -> (r: Result<
        History,
        LoadError,
    >)
        ensures
            r is Ok <==> ids_increasing(views(rows@)) && hashes_unique(views(rows@)),
            !ids_increasing(views(rows@)) ==> r == Err::<History, LoadError>(LoadError::RowsOutOfOrder),
            ids_increasing(views(rows@)) && !hashes_unique(views(rows@)) ==> r == Err::<
                History,
                LoadError,
            >(LoadError::DuplicateHash),
            r matches Ok(h) ==> {
                &&& h.wf()
                &&& h@.items == views(rows@).map_values(|v: ItemView| migrated(v))
                &&& h@.settings == setting_views(settings@)
                &&& h@.last_id == (if rows@.len() > 0 && rows@.last().id > sequence
                    && rows@.last().id > 0 {
                    rows@.last().id
                } else if sequence > 0 {
                    sequence
                } else {
                    0
                })
            },
    {
        let ghost src = views(rows@);
        let mut items: Vec<StoredItem> = Vec::new();
        let mut i: usize = 0;
        let mut ok = true;
        while i < rows.len() && ok
            invariant
                i <= rows@.len(),
                src == views(rows@),
                ok ==> views(items@) == src.take(i as int).map_values(|v: ItemView| migrated(v)),
                ok ==> forall|a: int, b: int| 0 <= a < b < i ==> src[a].id < src[b].id,
                !ok ==> !ids_increasing(src),
            decreases rows.len() - i + (if ok { 1int } else { 0int }),
        {
            if i > 0 && rows[i - 1].id >= rows[i].id {
                assert(src[i - 1].id >= src[i as int].id);
                ok = false;
            } else {
                let mut it = rows[i].clone();
                if it.sort_at == 0 {
                    it.sort_at = it.last_copied_at;
                }
                assert(src[i as int] == rows@[i as int]@);
                assert(it@ == migrated(src[i as int]));
                let ghost before = views(items@);
                items.push(it);
                assert(views(items@) =~= before.push(migrated(src[i as int])));
                assert(src.take(i + 1).map_values(|v: ItemView| migrated(v)) =~= src.take(
                    i as int,
                ).map_values(|v: ItemView| migrated(v)).push(migrated(src[i as int])));
                assert(views(items@) =~= src.take(i + 1).map_values(|v: ItemView| migrated(v)));
                i = i + 1;
            }
        }
        if !ok {
            return Err(LoadError::RowsOutOfOrder);
        }
        if !hashes_distinct(&rows) {
            return Err(LoadError::DuplicateHash);
        }
        assert(src.take(i as int) =~= src);
        let mut last_id: i64 = if sequence > 0 {
            sequence
        } else {
            0
        };
        let n = rows.len();
        if n > 0 && rows[n - 1].id > last_id {
            last_id = rows[n - 1].id;
        }
        let h = History { items, last_id, settings };
        proof {
            let iv = h@.items;
            assert forall|k: int| 0 <= k < iv.len() implies #[trigger] iv[k].id <= h@.last_id by {
                assert(iv[k].id == src[k].id);
                if k < n - 1 {
                    assert(src[k].id < src[n - 1].id);
                }
            }
            assert forall|a: int, b: int| 0 <= a < b < iv.len() implies iv[a].id < iv[b].id by {
                assert(iv[a].id == src[a].id);
                assert(iv[b].id == src[b].id);
            }
        }
        Ok(h)
    }

    /// Position of the row with id `id`.
    fn position_of_id(&self, id: i64) -> (r: Option<usize>)
        ensures
            match r {
                Some(i) => index_of_id(self@.items, id) == Some(i as int) && i < self@.items.len(),
                None => index_of_id(self@.items, id) is None,
            },
    {
        let mut i: usize = 0;
        while i < self.items.len()
            invariant
                i <= self@.items.len(),
                self@.items.len() == self.items@.len(),
                forall|k: int| 0 <= k < i ==> !id_is(id)(#[trigger] self@.items[k]),
            decreases self.items.len() - i,
        {
            assert(self@.items[i as int] == self.items@[i as int]@);
            if self.items[i].id == id {
                assert(id_is(id)(self@.items[i as int]));
                proof {
                    lemma_first_index_at(self@.items, id_is(id), i as int);
                }
                return Some(i);
            }
            assert(!id_is(id)(self@.items[i as int]));
            i = i + 1;
        }
        proof {
            lemma_first_index_at(self@.items, id_is(id), i as int);
        }
        None
    }

    /// Id of the row holding content with hash `hash`, if any.
    pub fn id_of_hash(&self, hash: &String) -> (r: Option<i64>)
        ensures
            match index_of_hash(self@.items, hash@) {
                Some(i) => r == Some(self@.items[i].id),
                None => r is None,
            },
    {
        match self.position_of_hash(hash) {
            Some(i) => {
                assert(self@.items[i as int] == self.items@[i as int]@);
                Some(self.items[i].id)
            },
            None => None,
        }
    }

    /// What is needed to paste the row with id `id` back, if there is one.
    pub fn get_full(&self, id: i64) -> (r: Option<FullItem>)
        ensures
            match index_of_id(self@.items, id) {
                Some(i) => r matches Some(f) && f@ == full_of(self@.items[i]),
                None => r is None,
            },
    {
        match self.position_of_id(id) {
            Some(i) => {
                let it = &self.items[i];
                Some(
                    FullItem {
                        kind: it.kind.clone(),
                        plain_text: clone_opt_string(&it.plain_text),
                        rtf: clone_opt_bytes(&it.rtf),
                        html: clone_opt_string(&it.html),
                        image_path: clone_opt_string(&it.image_path),
                        file_paths: clone_opt_strings(&it.file_paths),
                    },
                )
            },
            None => None,
        }
    }

    /// The row with id `id`, if there is one.
    pub fn row(&self, id: i64) -> (r: Option<StoredItem>)
        ensures
            match index_of_id(self@.items, id) {
                Some(i) => r matches Some(it) && it@ == self@.items[i],
                None => r is None,
            },
    {
        match self.position_of_id(id) {
            Some(i) => Some(self.items[i].clone()),
            None => None,
        }
    }

    /// Marks the row with id `id` as just copied (`last_copied_at = now`). Its display
    /// position (`sort_at`) is left alone. Returns whether such a row exists.
    pub fn bump(&mut self, id: i64, now: i64) -> (found: bool)
        requires
            old(self).wf(),
        ensures
            final(self).wf(),
            final(self)@.last_id == old(self)@.last_id,
            final(self)@.settings == old(self)@.settings,
            final(self)@.items == bumped(old(self)@.items, id, now),
            found == index_of_id(old(self)@.items, id) is Some,
    {
        match self.position_of_id(id) {
            Some(i) => {
                let mut it = self.items[i].clone();
                it.last_copied_at = now;
                self.items.set(i, it);
                proof {
                    assert(self@.items =~= old(self)@.items.update(
                        i as int,
                        ItemView { last_copied_at: now, ..old(self)@.items[i as int] },
                    ));
                    assert(forall|k: int|
                        0 <= k < self@.items.len() ==> #[trigger] self@.items[k].id == old(self)@.items[k].id);
                }
                true
            },
            None => false,
        }
    }

    /// Flips the pin of the row with id `id` and returns its new state; `NotFound` when
    /// there is no such row.
    pub fn toggle_pin(&mut self, id: i64) -> (r: Result<bool, HistoryError>)
        requires
            old(self).wf(),
        ensures
            final(self).wf(),
            final(self)@.last_id == old(self)@.last_id,
            final(self)@.settings == old(self)@.settings,
            final(self)@.items == toggled(old(self)@.items, id),
            match index_of_id(old(self)@.items, id) {
                Some(i) => r == Ok::<bool, HistoryError>(!old(self)@.items[i].pinned),
                None => r == Err::<bool, HistoryError>(HistoryError::NotFound),
            },
    {
        match self.position_of_id(id) {
            Some(i) => {
                let mut it = self.items[i].clone();
                it.pinned = !it.pinned;
                let now_pinned = it.pinned;
                self.items.set(i, it);
                proof {
                    assert(self@.items =~= old(self)@.items.update(
                        i as int,
                        ItemView { pinned: !old(self)@.items[i as int].pinned, ..old(self)@.items[i as int] },
                    ));
                    assert(forall|k: int|
                        0 <= k < self@.items.len() ==> #[trigger] self@.items[k].id == old(self)@.items[k].id);
                }
                Ok(now_pinned)
            },
            None => Err(HistoryError::NotFound),
        }
    }

    /// Removes the row with id `id` and hands it back (so its files can go too).
    pub fn delete(&mut self, id: i64) -> (r: Option<StoredItem>)
        requires
            old(self).wf(),
        ensures
            final(self).wf(),
            final(self)@.last_id == old(self)@.last_id,
            final(self)@.settings == old(self)@.settings,
            match index_of_id(old(self)@.items, id) {
                Some(i) => r matches Some(it) && it@ == old(self)@.items[i] && final(self)@.items
                    == old(self)@.items.remove(i),
                None => r is None && final(self)@.items == old(self)@.items,
            },
    {
        match self.position_of_id(id) {
            Some(i) => {
                let it = self.items.remove(i);
                proof {
                    assert(self@.items =~= old(self)@.items.remove(i as int));
                    lemma_remove_keeps_order(old(self)@.items, i as int);
                    assert forall|k: int| 0 <= k < self@.items.len() implies #[trigger] self@.items[k].id
                        <= self@.last_id by {
                        assert(old(self)@.items.remove(i as int).contains(self@.items[k]));
                    }
                }
                Some(it)
            },
            None => None,
        }
    }

    /// Removes every unpinned row and hands them back, in id order.
    pub fn clear_all(&mut self) -> (removed: Vec<StoredItem>)
        requires
            old(self).wf(),
        ensures
            final(self).wf(),
            final(self)@.last_id == old(self)@.last_id,
            final(self)@.settings == old(self)@.settings,
            final(self)@.items == with_pin(old(self)@.items, true),
            views(removed@) == with_pin(old(self)@.items, false),
    {
        let ghost s0 = self@.items;
        let mut kept: Vec<StoredItem> = Vec::new();
        let mut removed: Vec<StoredItem> = Vec::new();
        let mut i: usize = 0;
        while i < self.items.len()
            invariant
                i <= self.items@.len(),
                s0 == views(self.items@),
                views(kept@) == with_pin(s0.take(i as int), true),
                views(removed@) == with_pin(s0.take(i as int), false),
            decreases self.items.len() - i,
        {
            let it = self.items[i].clone();
            proof {
                assert(s0.take(i + 1).drop_last() =~= s0.take(i as int));
            }
            if it.pinned {
                kept.push(it);
                assert(views(kept@) =~= with_pin(s0.take(i + 1), true));
                assert(views(removed@) =~= with_pin(s0.take(i + 1), false));
            } else {
                removed.push(it);
                assert(views(kept@) =~= with_pin(s0.take(i + 1), true));
                assert(views(removed@) =~= with_pin(s0.take(i + 1), false));
            }
            i = i + 1;
        }
        assert(s0.take(i as int) =~= s0);
        self.items = kept;
        proof {
            lemma_keep(s0, pinned_is(true));
            assert forall|k: int| 0 <= k < self@.items.len() implies #[trigger] self@.items[k].id
                <= self@.last_id by {
                assert(with_pin(s0, true)[k] == self@.items[k]);
                assert(with_pin(s0, true).contains(self@.items[k]));
                assert(s0.contains(self@.items[k]));
                let j = choose|j: int| 0 <= j < s0.len() && s0[j] == self@.items[k];
                assert(s0[j].id <= old(self)@.last_id);
            }
        }
        removed
    }

    /// Freezes the display order at the current recency: every row's `sort_at`
    /// becomes its `last_copied_at`.
    pub fn snapshot_order(&mut self)
        requires
            old(self).wf(),
        ensures
            final(self).wf(),
            final(self)@.last_id == old(self)@.last_id,
            final(self)@.settings == old(self)@.settings,
            final(self)@.items == old(self)@.items.map_values(|v: ItemView| resnapshot(v)),
    {
        let ghost s0 = self@.items;
        let n = self.items.len();
        let mut i: usize = 0;
        while i < n
            invariant
                n == s0.len(),
                i <= n,
                self@.items.len() == n,
                self.last_id == old(self).last_id,
                self.settings == old(self).settings,
                forall|k: int| 0 <= k < i ==> #[trigger] self@.items[k] == resnapshot(s0[k]),
                forall|k: int| i <= k < n ==> #[trigger] self@.items[k] == s0[k],
            decreases n - i,
        {
            let ghost before = self@.items;
            assert(self@.items[i as int] == self.items@[i as int]@);
            let mut it = self.items[i].clone();
            assert(it@ == s0[i as int]);
            it.sort_at = it.last_copied_at;
            self.items.set(i, it);
            assert(self@.items =~= before.update(i as int, resnapshot(s0[i as int])));
            i = i + 1;
        }
        proof {
            assert(self@.items =~= s0.map_values(|v: ItemView| resnapshot(v)));
            assert(forall|k: int| 0 <= k < n ==> #[trigger] self@.items[k].id == s0[k].id);
        }
    }

    /// Position of the row with content hash `h`.
    fn position_of_hash(&self, h: &String) -> (r: Option<usize>)
        ensures
            match r {
                Some(i) => index_of_hash(self@.items, h@) == Some(i as int) && i < self@.items.len(),
                None => index_of_hash(self@.items, h@) is None,
            },
    {
        let mut i: usize = 0;
        while i < self.items.len()
            invariant
                i <= self@.items.len(),
                self@.items.len() == self.items@.len(),
                forall|k: int| 0 <= k < i ==> !hash_is(h@)(#[trigger] self@.items[k]),
            decreases self.items.len() - i,
        {
            assert(self@.items[i as int] == self.items@[i as int]@);
            if self.items[i].hash == *h {
                assert(hash_is(h@)(self@.items[i as int]));
                proof {
                    lemma_first_index_at(self@.items, hash_is(h@), i as int);
                }
                return Some(i);
            }
            assert(!hash_is(h@)(self@.items[i as int]));
            i = i + 1;
        }
        proof {
            lemma_first_index_at(self@.items, hash_is(h@), i as int);
        }
        None
    }

    /// Total byte size of the rows, `None` when the running sum leaves the `i64` range.
    fn total_bytes(&self) -> (r: Option<i64>)
        ensures
            r is Some <==> sum_fits(self@.items),
            r matches Some(t) ==> t == total_bytes(self@.items),
    {
        let ghost s = self@.items;
        let mut acc: i64 = 0;
        let mut i: usize = 0;
        let mut fits = true;
        while i < self.items.len() && fits
            invariant
                s == self@.items,
                s.len() == self.items@.len(),
                i <= s.len(),
                fits ==> acc == prefix_sum(s, i as int),
                fits ==> forall|k: int| 0 <= k <= i ==> i64::MIN <= #[trigger] prefix_sum(s, k) <= i64::MAX,
                !fits ==> !sum_fits(s),
            decreases s.len() - i + (if fits { 1int } else { 0int }),
        {
            assert(s[i as int] == self.items@[i as int]@);
            match acc.checked_add(self.items[i].byte_size) {
                Some(v) => {
                    acc = v;
                    i = i + 1;
                    assert(prefix_sum(s, i as int) == prefix_sum(s, i - 1) + s[i - 1].byte_size);
                },
                None => {
                    assert(prefix_sum(s, i + 1) == prefix_sum(s, i as int) + s[i as int].byte_size);
                    fits = false;
                },
            }
        }
        if fits {
            Some(acc)
        } else {
            None
        }
    }

    /// Position of the least recently copied unpinned row.
    fn position_of_oldest_unpinned(&self) -> (r: Option<usize>)
        ensures
            match r {
                Some(j) => oldest_unpinned(self@.items) == j as int,
                None => oldest_unpinned(self@.items) == -1,
            },
    {
        let ghost s = self@.items;
        let mut best: Option<usize> = None;
        let mut i: usize = 0;
        while i < self.items.len()
            invariant
                s == self@.items,
                s.len() == self.items@.len(),
                i <= s.len(),
                match best {
                    Some(b) => oldest_in(s, i as int) == b as int && b < i,
                    None => oldest_in(s, i as int) == -1,
                },
            decreases s.len() - i,
        {
            assert(s[i as int] == self.items@[i as int]@);
            if !self.items[i].pinned {
                match best {
                    None => {
                        best = Some(i);
                    },
                    Some(b) => {
                        assert(s[b as int] == self.items@[b as int]@);
                        if self.items[i].last_copied_at < self.items[b].last_copied_at {
                            best = Some(i);
                        }
                    },
                }
            }
            i = i + 1;
        }
        best
    }

    /// Removes least recently copied unpinned rows until the total size fits the
    /// budget (or only pinned rows are left), and hands them back in eviction order.
    fn evict_over_budget(&mut self) -> (r: Result<Vec<StoredItem>, HistoryError>)
        requires
            old(self).wf(),
        ensures
            final(self).wf(),
            final(self)@.last_id == old(self)@.last_id,
            final(self)@.settings == old(self)@.settings,
            final(self)@.items == evict(old(self)@.items, budget_of(old(self)@.settings) as int).kept,
            evict(old(self)@.items, budget_of(old(self)@.settings) as int).ok ==> (r matches Ok(ev)
                && views(ev@) == evict(old(self)@.items, budget_of(old(self)@.settings) as int).evicted),
            !evict(old(self)@.items, budget_of(old(self)@.settings) as int).ok ==> r == Err::<
                Vec<StoredItem>,
                HistoryError,
            >(HistoryError::Overflow),
    {
        let budget = self.max_bytes();
        let ghost target = evict(self@.items, budget as int);
        let mut removed: Vec<StoredItem> = Vec::new();
        let mut done = false;
        let mut failed = false;
        while !done
            invariant
                self.wf(),
                self@.last_id == old(self)@.last_id,
                self@.settings == old(self)@.settings,
                budget == budget_of(old(self)@.settings),
                target == evict(old(self)@.items, budget as int),
                evict(self@.items, budget as int).kept == target.kept,
                evict(self@.items, budget as int).ok == target.ok,
                views(removed@) + evict(self@.items, budget as int).evicted =~= target.evicted,
                done ==> evict(self@.items, budget as int).kept == self@.items,
                done ==> evict(self@.items, budget as int).evicted.len() == 0,
                done ==> (failed <==> !target.ok),
                failed ==> done,
            decreases self@.items.len() + (if done { 0int } else { 1int }),
        {
            match self.total_bytes() {
                None => {
                    assert(!evict(self@.items, budget as int).ok);
                    failed = true;
                    done = true;
                },
                Some(total) => {
                    if total <= budget {
                        assert(evict(self@.items, budget as int).ok);
                        done = true;
                    } else {
                        match self.position_of_oldest_unpinned() {
                            None => {
                                assert(evict(self@.items, budget as int).ok);
                                done = true;
                            },
                            Some(j) => {
                                proof {
                                    lemma_oldest_in(self@.items, self@.items.len() as int);
                                }
                                let ghost before = self@.items;
                                let ghost removed_before = views(removed@);
                                let it = self.items.remove(j);
                                proof {
                                    assert(self@.items =~= before.remove(j as int));
                                    lemma_remove_keeps_order(before, j as int);
                                    assert forall|k: int| 0 <= k < self@.items.len() implies #[trigger] self@.items[k].id
                                        <= self@.last_id by {
                                        assert(before.remove(j as int).contains(self@.items[k]));
                                        let m = choose|m: int| 0 <= m < before.len() && before[m] == self@.items[k];
                                        assert(before[m].id <= self@.last_id);
                                    }
                                }
                                removed.push(it);
                                assert(views(removed@) =~= removed_before.push(before[j as int]));
                            },
                        }
                    }
                },
            }
        }
        if failed {
            Err(HistoryError::Overflow)
        } else {
            assert(views(removed@) =~= target.evicted);
            Ok(removed)
        }
    }

    /// Records a capture: an existing row with the same content hash is bumped to
    /// `now` (taking the capture's source fields where it has them); otherwise a new
    /// row is added under the next id and the least recently copied unpinned rows are
    /// evicted down to the disk budget. Returns the evicted rows.
    pub fn insert_or_bump(&mut self, item: NewItem, now: i64) -> (r: Result<
        Vec<StoredItem>,
        HistoryError,
    >)
        requires
            old(self).wf(),
        ensures
            final(self).wf(),
            final(self)@.settings == old(self)@.settings,
            match index_of_hash(old(self)@.items, item@.hash) {
                Some(j) => {
                    &&& r matches Ok(ev) && ev@.len() == 0
                    &&& final(self)@.items == old(self)@.items.update(
                        j,
                        bumped_row(old(self)@.items[j], item@, now),
                    )
                    &&& final(self)@.last_id == old(self)@.last_id
                },
                None => if old(self)@.last_id == i64::MAX {
                    &&& r == Err::<Vec<StoredItem>, HistoryError>(HistoryError::Full)
                    &&& final(self)@ == old(self)@
                } else {
                    let e = evict(
                        old(self)@.items.push(fresh_row(item@, (old(self)@.last_id + 1) as i64, now)),
                        budget_of(old(self)@.settings) as int,
                    );
                    &&& final(self)@.items == e.kept
                    &&& final(self)@.last_id == old(self)@.last_id + 1
                    &&& e.ok ==> (r matches Ok(ev) && views(ev@) == e.evicted)
                    &&& !e.ok ==> r == Err::<Vec<StoredItem>, HistoryError>(HistoryError::Overflow)
                },
            },
    {
        let ghost nv = item@;
        match self.position_of_hash(&item.hash) {
            Some(j) => {
                assert(self@.items[j as int] == self.items@[j as int]@);
                let mut it = self.items[j].clone();
                it.last_copied_at = now;
                if item.source_app.is_some() {
                    it.source_app = item.source_app;
                }
                if item.source_bundle_id.is_some() {
                    it.source_bundle_id = item.source_bundle_id;
                }
                if item.source_icon_path.is_some() {
                    it.source_icon_path = item.source_icon_path;
                }
                assert(it@ == bumped_row(old(self)@.items[j as int], nv, now));
                self.items.set(j, it);
                proof {
                    assert(self@.items =~= old(self)@.items.update(
                        j as int,
                        bumped_row(old(self)@.items[j as int], nv, now),
                    ));
                    assert(forall|k: int|
                        0 <= k < self@.items.len() ==> #[trigger] self@.items[k].id == old(self)@.items[k].id);
                }
                Ok(Vec::new())
            },
            None => {
                if self.last_id == i64::MAX {
                    return Err(HistoryError::Full);
                }
                let id = self.last_id + 1;
                let row = StoredItem {
                    id,
                    kind: item.kind.to_owned(),
                    hash: item.hash,
                    plain_text: item.plain_text,
                    rtf: item.rtf,
                    html: item.html,
                    image_path: item.image_path,
                    thumb_path: item.thumb_path,
                    file_paths: item.file_paths,
                    byte_size: item.byte_size,
                    source_app: item.source_app,
                    source_bundle_id: item.source_bundle_id,
                    source_icon_path: item.source_icon_path,
                    pinned: false,
                    created_at: now,
                    last_copied_at: now,
                    sort_at: now,
                };
                assert(row@ == fresh_row(nv, id, now));
                self.last_id = id;
                self.items.push(row);
                proof {
                    assert(self@.items =~= old(self)@.items.push(fresh_row(nv, id, now)));
                    assert forall|a: int, b: int| 0 <= a < b < self@.items.len() implies self@.items[a].id
                        < self@.items[b].id by {
                        if b == self@.items.len() - 1 {
                            assert(old(self)@.items[a].id <= old(self)@.last_id);
                        }
                    }
                    assert forall|k: int| 0 <= k < self@.items.len() implies #[trigger] self@.items[k].id
                        <= self@.last_id by {
                        if k < self@.items.len() - 1 {
                            assert(old(self)@.items[k].id <= old(self)@.last_id);
                        }
                    }
                    lemma_first_index_facts(old(self)@.items, hash_is(nv.hash));
                    assert forall|a: int, b: int| 0 <= a < b < self@.items.len() implies self@.items[a].hash
                        != self@.items[b].hash by {
                        if b == self@.items.len() - 1 {
                            assert(!hash_is(nv.hash)(old(self)@.items[a]));
                        }
                    }
                }
                self.evict_over_budget()
            },
        }
    }

    /// Whether the row at `i` is listed for the query whose characters are `q` and
    /// whose `LIKE` pattern is `pat`.
    fn row_matches(&self, i: usize, q: &Vec<char>, pat: &Vec<char>) -> (b: bool)
        requires
            i < self@.items.len(),
            pat@ == contains_pattern(q@),
        ensures
            b == query_match(q@)(self@.items[i as int]),
    {
        assert(self@.items[i as int] == self.items@[i as int]@);
        if q.len() == 0 {
            return true;
        }
        match &self.items[i].plain_text {
            Some(t) => {
                let tc = chars_of(t.as_str());
                like_matches(pat, &tc)
            },
            None => false,
        }
    }

    /// The list for the bar: rows whose text contains `query` (SQL `LIKE '%query%'`,
    /// so `%` and `_` in it are wildcards; every row when it is empty), pinned first,
    /// then by display order newest first, at most 200, each as its list entry.
    pub fn list(&self, query: &str) -> (r: Vec<ItemDto>)
        requires
            self.wf(),
        ensures
            r@.map_values(|d: ItemDto| d@) == listing(self@.items, query@),
    {
        let ghost s = self@.items;
        let q = chars_of(query);
        let pat = contains_pattern_of(&q);
        let n = self.items.len();
        let mut buf: Vec<usize> = Vec::new();
        let mut i: usize = 0;
        while i < n
            invariant
                s == self@.items,
                n == s.len(),
                i <= n,
                q@ == query@,
                pat@ == contains_pattern(q@),
                ids_increasing(s),
                forall|k: int| 0 <= k < buf@.len() ==> #[trigger] buf@[k] < n,
                at_positions(s, buf@) == at_most(
                    rank_sorted(matching(s.take(i as int), q@)),
                    LIST_LIMIT as int,
                ),
            decreases n - i,
        {
            let ghost prefix = s.take(i as int);
            let ghost next = s.take(i + 1);
            let ghost x = s[i as int];
            assert(next.drop_last() =~= prefix);
            assert(next.last() == x);
            if self.row_matches(i, &q, &pat) {
                let ghost fprev = matching(prefix, q@);
                let ghost rprev = rank_sorted(fprev);
                let ghost bview = at_positions(s, buf@);
                assert(matching(next, q@) == fprev.push(x));
                assert(matching(next, q@).drop_last() =~= fprev);
                proof {
                    assert(ids_increasing(prefix));
                    lemma_keep(prefix, query_match(q@));
                    assert(ids_distinct(fprev));
                    lemma_rank_sorted(fprev);
                    lemma_insert_ranked_at_most(rprev, x, LIST_LIMIT as int);
                }
                let mut c: usize = 0;
                let mut k: usize = 0;
                while k < buf.len()
                    invariant
                        s == self@.items,
                        n == s.len(),
                        i < n,
                        x == s[i as int],
                        forall|m: int| 0 <= m < buf@.len() ==> #[trigger] buf@[m] < n,
                        bview == at_positions(s, buf@),
                        k <= buf@.len(),
                        c as int == count_before(bview.take(k as int), x),
                        c <= k,
                    decreases buf.len() - k,
                {
                    let j = buf[k];
                    assert(bview[k as int] == s[j as int]);
                    assert(s[j as int] == self.items@[j as int]@);
                    assert(s[i as int] == self.items@[i as int]@);
                    assert(bview.take(k + 1).drop_last() =~= bview.take(k as int));
                    if ranks_before_exec(&self.items[j], &self.items[i]) {
                        c = c + 1;
                    }
                    k = k + 1;
                }
                assert(bview.take(buf@.len() as int) =~= bview);
                let ghost before = buf@;
                buf.insert(c, i);
                assert(at_positions(s, buf@) =~= bview.insert(c as int, x));
                if buf.len() > LIST_LIMIT {
                    buf.truncate(LIST_LIMIT);
                }
                assert(at_positions(s, buf@) =~= at_most(insert_ranked(bview, x), LIST_LIMIT as int));
            } else {
                assert(matching(next, q@) == matching(prefix, q@));
            }
            i = i + 1;
        }
        assert(s.take(n as int) =~= s);
        let ghost chosen = at_positions(s, buf@);
        let mut out: Vec<ItemDto> = Vec::new();
        let mut k: usize = 0;
        while k < buf.len()
            invariant
                s == self@.items,
                n == s.len(),
                forall|m: int| 0 <= m < buf@.len() ==> #[trigger] buf@[m] < n,
                chosen == at_positions(s, buf@),
                k <= buf@.len(),
                out@.map_values(|d: ItemDto| d@) == chosen.take(k as int).map_values(
                    |v: ItemView| dto_of(v),
                ),
            decreases buf.len() - k,
        {
            let j = buf[k];
            assert(s[j as int] == self.items@[j as int]@);
            assert(chosen[k as int] == s[j as int]);
            let d = make_dto(&self.items[j]);
            let ghost prev = out@;
            out.push(d);
            assert(out@.map_values(|d: ItemDto| d@) =~= prev.map_values(|d: ItemDto| d@).push(
                dto_of(chosen[k as int]),
            ));
            assert(chosen.take(k + 1).map_values(|v: ItemView| dto_of(v)) =~= chosen.take(
                k as int,
            ).map_values(|v: ItemView| dto_of(v)).push(dto_of(chosen[k as int])));
            assert(out@.map_values(|d: ItemDto| d@) =~= chosen.take(k + 1).map_values(
                |v: ItemView| dto_of(v),
            ));
            k = k + 1;
        }
        assert(chosen.take(buf@.len() as int) =~= chosen);
        out
    }

    /// The largest row id handed out so far.
    pub fn last_id(&self) -> (n: i64)
        ensures
            n == self@.last_id,
    {
        self.last_id
    }
}

} // verus!
