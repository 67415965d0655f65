//! Screenshot ingestion decisions: which files in the screenshot folder count, when a
//! file is ready, where the folder is, and which new files have been dealt with.
use vstd::prelude::*;
use vstd::utf8::{decode_utf8, valid_utf8};

use crate::text::{
    chars_of, concat_str, eq_ascii_ci, eq_ignore_ascii_case, has_prefix, starts_with,
    string_from_chars, trim, trim_str,
};

verus! {

broadcast use vstd::string::group_string_axioms;

/// Polls an unrecognized new PNG is looked at before it is left alone.
pub const MAX_PENDING_POLLS: u32 = 15;

/// Every this many polls the screenshot folder is looked up again.
pub const DIR_REFRESH_POLLS: u32 = 30;

/// A file younger than this many milliseconds may still be being written.
pub const SETTLE_MS: u128 = 600;

/// The file name is an English screenshot name.
pub open spec fn is_screenshot_name(name: Option<Seq<char>>) -> bool {
    match name {
        Some(n) => has_prefix(n, "Screenshot "@) || has_prefix(n, "Screen Shot "@),
        None => false,
    }
}

/// Whether a file with this name (if it is valid UTF-8) is named like a screenshot:
/// it starts with `Screenshot ` or `Screen Shot `.
pub fn looks_like_screenshot(file_name: Option<&str>) -> (b: bool)
    ensures
        b == is_screenshot_name(
            match file_name {
                Some(n) => Some(n@),
                None => None,
            },
        ),
{
    match file_name {
        Some(n) => starts_with(n, "Screenshot ") || starts_with(n, "Screen Shot "),
        None => false,
    }
}

/// A directory entry is a visible PNG: its name does not start with `.` and its
/// extension is `png` in any letter case.
pub open spec fn is_visible_png(name: Option<Seq<char>>, ext: Option<Seq<char>>) -> bool {
    let hidden = match name {
        Some(n) => has_prefix(n, "."@),
        None => false,
    };
    let png = match ext {
        Some(x) => eq_ascii_ci(x, "png"@),
        None => false,
    };
    !hidden && png
}

/// Whether a directory entry with this file name and extension (each when valid
/// UTF-8) is a visible PNG.
pub fn is_listed_png(file_name: Option<&str>, extension: Option<&str>) -> (b: bool)
    ensures
        b == is_visible_png(
            match file_name {
                Some(n) => Some(n@),
                None => None,
            },
            match extension {
                Some(x) => Some(x@),
                None => None,
            },
        ),
{
    let hidden = match file_name {
        Some(n) => starts_with(n, "."),
        None => false,
    };
    let png = match extension {
        Some(x) => eq_ignore_ascii_case(x, "png"),
        None => false,
    };
    !hidden && png
}

/// The eight-byte PNG file signature.
pub open spec fn png_signature() -> Seq<u8> {
    seq![0x89u8, 0x50u8, 0x4Eu8, 0x47u8, 0x0Du8, 0x0Au8, 0x1Au8, 0x0Au8]
}

/// Whether `bytes` start with the PNG signature.
pub fn has_png_signature(bytes: &[u8]) -> (b: bool)
    ensures
        b == (bytes@.len() >= 8 && bytes@.subrange(0, 8) == png_signature()),
{
    if bytes.len() < 8 {
        return false;
    }
    let ok = bytes[0] == 0x89 && bytes[1] == 0x50 && bytes[2] == 0x4E && bytes[3] == 0x47
        && bytes[4] == 0x0D && bytes[5] == 0x0A && bytes[6] == 0x1A && bytes[7] == 0x0A;
    proof {
        let sub = bytes@.subrange(0, 8);
        if ok {
            assert(sub =~= png_signature());
        } else {
            if sub == png_signature() {
                assert(sub[0] == bytes@[0]);
                assert(sub[1] == bytes@[1]);
                assert(sub[2] == bytes@[2]);
                assert(sub[3] == bytes@[3]);
                assert(sub[4] == bytes@[4]);
                assert(sub[5] == bytes@[5]);
                assert(sub[6] == bytes@[6]);
                assert(sub[7] == bytes@[7]);
            }
        }
    }
    ok
}

/// Whether a file last modified `age_ms` milliseconds ago may still be being written
/// (under 600 ms). An unknown age (modification time in the future) counts as settled.
pub fn still_settling(age_ms: Option<u128>) -> (b: bool)
    ensures
        b == (age_ms matches Some(a) && a < SETTLE_MS),
{
    match age_ms {
        Some(a) => a < SETTLE_MS,
        None => false,
    }
}

/// The text `String::from_utf8_lossy` makes of `bytes` (a name for what std computes).
pub uninterp spec fn utf8_lossy(bytes: Seq<u8>) -> Seq<char>;

/// Calls `String::from_utf8_lossy`. Claims that the result is `utf8_lossy` of the
/// bytes, and that valid UTF-8 comes back decoded unchanged (the documented borrowed
/// case); how invalid sequences are replaced is not stated.
#[verifier::external_body]
fn from_utf8_lossy(bytes: &[u8]) -> (s: String)
    ensures
        s@ == utf8_lossy(bytes@),
        valid_utf8(bytes@) ==> s@ == decode_utf8(bytes@),
{
    String::from_utf8_lossy(bytes).into_owned()
}

/// Spotlight's `kMDItemIsScreenCapture` answer says yes: the output, trimmed, is `1`.
pub open spec fn says_screen_capture(stdout: Seq<u8>) -> bool {
    trim(utf8_lossy(stdout)) == "1"@
}

/// Whether `mdls -raw -name kMDItemIsScreenCapture` printed `1`.
pub fn mdls_says_screen_capture(stdout: &[u8]) -> (b: bool)
    ensures
        b == says_screen_capture(stdout@),
{
    let text = from_utf8_lossy(stdout);
    let t = trim_str(text.as_str());
    t == "1".to_owned()
}

/// A configured location with a leading `~` replaced by the home directory.
pub open spec fn expand_home(home: Seq<char>, loc: Seq<char>) -> Seq<char> {
    if loc.len() > 0 && loc[0] == '~' {
        home + loc.drop_first()
    } else {
        loc
    }
}

/// The screenshot folder named by `defaults read com.apple.screencapture location`:
/// its output decoded, trimmed, `~` expanded; `None` when that is empty.
pub open spec fn configured_location(home: Seq<char>, stdout: Seq<u8>) -> Option<Seq<char>> {
    let e = expand_home(home, trim(utf8_lossy(stdout)));
    if e.len() == 0 {
        None
    } else {
        Some(e)
    }
}

/// The screenshot folder the `defaults` output names, with `~` expanded.
pub fn screenshot_location(home: &str, stdout: &[u8]) -> (r: Option<String>)
    ensures
        match r {
            Some(s) => configured_location(home@, stdout@) == Some(s@),
            None => configured_location(home@, stdout@) is None,
        },
{
    let text = from_utf8_lossy(stdout);
    let loc = trim_str(text.as_str());
    let cs = chars_of(loc.as_str());
    let expanded = if cs.len() > 0 && cs[0] == '~' {
        let mut out = chars_of(home);
        let mut i: usize = 1;
        while i < cs.len()
            invariant
                1 <= i <= cs@.len(),
                out@ == home@ + cs@.subrange(1, i as int),
            decreases cs.len() - i,
        {
            out.push(cs[i]);
            assert(out@ =~= home@ + cs@.subrange(1, i + 1));
            i = i + 1;
        }
        assert(cs@.subrange(1, cs@.len() as int) =~= cs@.drop_first());
        string_from_chars(&out)
    } else {
        loc
    };
    if expanded.as_str().is_empty() {
        None
    } else {
        Some(expanded)
    }
}

/// The value last recorded for key `k`.
pub open spec fn pair_lookup(s: Seq<(Seq<u8>, u32)>, k: Seq<u8>) -> Option<u32>
    decreases s.len(),
{
    if s.len() == 0 {
        None
    } else if s[0].0 == k {
        Some(s[0].1)
    } else {
        pair_lookup(s.drop_first(), k)
    }
}

/// `s` without any entry for key `k`.
pub open spec fn pair_remove(s: Seq<(Seq<u8>, u32)>, k: Seq<u8>) -> Seq<(Seq<u8>, u32)>
    decreases s.len(),
{
    if s.len() == 0 {
        s
    } else if s.last().0 == k {
        pair_remove(s.drop_last(), k)
    } else {
        pair_remove(s.drop_last(), k).push(s.last())
    }
}

/// `s` with the first entry for `k` set to `v`, or `(k, v)` added.
pub open spec fn pair_put(s: Seq<(Seq<u8>, u32)>, k: Seq<u8>, v: u32) -> Seq<(Seq<u8>, u32)>
    decreases s.len(),
{
    if s.len() == 0 {
        seq![(k, v)]
    } else if s[0].0 == k {
        s.update(0, (k, v))
    } else {
        seq![s[0]] + pair_put(s.drop_first(), k, v)
    }
}

proof fn lemma_pair_lookup_skip(s: Seq<(Seq<u8>, u32)>, k: Seq<u8>, i: int)
    requires
        0 <= i <= s.len(),
        forall|j: int| 0 <= j < i ==> (#[trigger] s[j]).0 != k,
    ensures
        pair_lookup(s, k) == pair_lookup(s.skip(i), k),
    decreases i,
{
    if i > 0 {
        lemma_pair_lookup_skip(s.drop_first(), k, i - 1);
        assert(s.drop_first().skip(i - 1) =~= s.skip(i));
    } else {
        assert(s.skip(0) =~= s);
    }
}

proof fn lemma_pair_put_skip(s: Seq<(Seq<u8>, u32)>, k: Seq<u8>, v: u32, i: int)
    requires
        0 <= i <= s.len(),
        forall|j: int| 0 <= j < i ==> (#[trigger] s[j]).0 != k,
    ensures
        pair_put(s, k, v) == s.take(i) + pair_put(s.skip(i), k, v),
    decreases i,
{
    if i > 0 {
        lemma_pair_put_skip(s.drop_first(), k, v, i - 1);
        assert(s.drop_first().skip(i - 1) =~= s.skip(i));
        assert(seq![s[0]] + s.drop_first().take(i - 1) =~= s.take(i));
        assert(seq![s[0]] + (s.drop_first().take(i - 1) + pair_put(s.skip(i), k, v)) =~= s.take(i)
            + pair_put(s.skip(i), k, v));
    } else {
        assert(s.skip(0) =~= s);
        assert(s.take(0) + pair_put(s, k, v) =~= pair_put(s, k, v));
    }
}

/// Whether two byte strings are equal.
fn bytes_eq(a: &[u8], b: &[u8]) -> (r: bool)
    ensures
        r == (a@ == b@),
{
    if a.len() != b.len() {
        return false;
    }
    let mut i: usize = 0;
    while i < a.len()
        invariant
            i <= a@.len() == b@.len(),
            forall|k: int| 0 <= k < i ==> a@[k] == b@[k],
        decreases a.len() - i,
    {
        if a[i] != b[i] {
            return false;
        }
        i = i + 1;
    }
    assert(a@ =~= b@);
    true
}

/// A new file still being considered, with the polls it has been seen in.
pub struct Pending {
    pub path: Vec<u8>,
    pub attempts: u32,
}

#[verifier::ext_equal]
pub struct TrackerView {
    pub seen: Seq<Seq<u8>>,
    pub pending: Seq<(Seq<u8>, u32)>,
    pub polls: u32,
}

/// What the screenshot watcher remembers between polls: the files already dealt
/// with, new files still under consideration, and the poll count. Paths are the
/// platform bytes of the file path.
pub struct ScreenshotTracker {
    seen: Vec<Vec<u8>>,
    pending: Vec<Pending>,
    polls: u32,
}

pub open spec fn byte_paths(s: Seq<Vec<u8>>) -> Seq<Seq<u8>> {
    s.map_values(|p: Vec<u8>| p@)
}

pub open spec fn pending_views(s: Seq<Pending>) -> Seq<(Seq<u8>, u32)> {
    s.map_values(|p: Pending| (p.path@, p.attempts))
}

/// What one check of a new file decided.
pub open spec fn settles(attempts: u32, is_screenshot: bool, ingested: bool) -> bool {
    if is_screenshot {
        ingested
    } else {
        attempts >= MAX_PENDING_POLLS
    }
}

/// What `observe` answers for `path`: `None` for a file dealt with, else the number of
/// polls it has now been seen in.
pub open spec fn observed(t: TrackerView, path: Seq<u8>) -> Option<u32> {
    if t.seen.contains(path) {
        None
    } else {
        Some(
            match pair_lookup(t.pending, path) {
                Some(n) => n.wrapping_add(1),
                None => 1u32,
            },
        )
    }
}

/// The tracker after `observe` of `path`.
pub open spec fn after_observe(t: TrackerView, path: Seq<u8>) -> TrackerView {
    match observed(t, path) {
        Some(a) => TrackerView { pending: pair_put(t.pending, path, a), ..t },
        None => t,
    }
}

/// The tracker after `record_check` of `path`.
pub open spec fn after_check(
    t: TrackerView,
    path: Seq<u8>,
    attempts: u32,
    is_screenshot: bool,
    ingested: bool,
) -> TrackerView {
    if settles(attempts, is_screenshot, ingested) {
        TrackerView { seen: t.seen.push(path), pending: pair_remove(t.pending, path), ..t }
    } else {
        t
    }
}

/// The tracker after `resync` with the folder's current files.
pub open spec fn resynced(t: TrackerView, listing: Seq<Seq<u8>>) -> TrackerView {
    TrackerView { seen: listing, pending: Seq::empty(), ..t }
}

impl View for ScreenshotTracker {
    type V = TrackerView;

    closed spec fn view(&self) -> TrackerView {
        TrackerView {
            seen: byte_paths(self.seen@),
            pending: pending_views(self.pending@),
            polls: self.polls,
        }
    }
}

impl ScreenshotTracker {
    /// Starts tracking with the files already in the folder counted as dealt with.
    pub fn new(existing: Vec<Vec<u8>>) -> (t: ScreenshotTracker)
        ensures
            t@.seen == byte_paths(existing@),
            t@.pending.len() == 0,
            t@.polls == 0,
    {
        let t = ScreenshotTracker { seen: existing, pending: Vec::new(), polls: 0 };
        assert(t@.pending =~= Seq::<(Seq<u8>, u32)>::empty());
        t
    }

    /// Counts a poll and says whether the folder should be looked up again on this one
    /// (every 30th poll). The count wraps around at `u32::MAX`.
    pub fn tick(&mut self) -> (refresh: bool)
        ensures
            final(self)@.polls == old(self)@.polls.wrapping_add(1),
            final(self)@.seen == old(self)@.seen,
            final(self)@.pending == old(self)@.pending,
            refresh == (final(self)@.polls % DIR_REFRESH_POLLS == 0),
    {
        self.polls = self.polls.wrapping_add(1);
        self.polls % DIR_REFRESH_POLLS == 0
    }

    /// Takes the folder's current files as dealt with and forgets pending ones (the
    /// folder changed, or capture is switched off).
    pub fn resync(&mut self, listing: Vec<Vec<u8>>)
        ensures
            final(self)@ == resynced(old(self)@, byte_paths(listing@)),
    {
        self.seen = listing;
        self.pending = Vec::new();
        assert(self@.pending =~= Seq::<(Seq<u8>, u32)>::empty());
    }

    /// Whether `path` has been dealt with.
    pub fn is_seen(&self, path: &[u8]) -> (b: bool)
        ensures
            b == self@.seen.contains(path@),
    {
        let mut i: usize = 0;
        while i < self.seen.len()
            invariant
                i <= self.seen@.len(),
                forall|k: int| 0 <= k < i ==> #[trigger] self@.seen[k] != path@,
            decreases self.seen.len() - i,
        {
            assert(self@.seen[i as int] == self.seen@[i as int]@);
            if bytes_eq(self.seen[i].as_slice(), path) {
                return true;
            }
            i = i + 1;
        }
        false
    }

    /// Looks at a file listed in the folder: `None` when it has been dealt with;
    /// otherwise counts one more poll for it and returns the count.
    pub fn observe(&mut self, path: &[u8]) -> (r: Option<u32>)
        ensures
            final(self)@.seen == old(self)@.seen,
            final(self)@.polls == old(self)@.polls,
            old(self)@.seen.contains(path@) ==> r is None && final(self)@.pending == old(self)@.pending,
            !old(self)@.seen.contains(path@) ==> {
                let a = match pair_lookup(old(self)@.pending, path@) {
                    Some(n) => n.wrapping_add(1),
                    None => 1u32,
                };
                &&& r == Some(a)
                &&& final(self)@.pending == pair_put(old(self)@.pending, path@, a)
            },
            r == observed(old(self)@, path@),
            final(self)@ == after_observe(old(self)@, path@),
    {
        if self.is_seen(path) {
            return None;
        }
        let ghost p0 = self@.pending;
        let n = self.pending.len();
        let mut i: usize = 0;
        let mut found = false;
        while i < n && !found
            invariant
                n == p0.len(),
                i <= n,
                p0 == self@.pending,
                found ==> i < n && p0[i as int].0 == path@,
                forall|j: int| 0 <= j < i ==> (#[trigger] p0[j]).0 != path@,
            decreases n - i + (if found { 0int } else { 1int }),
        {
            assert(p0[i as int] == (self.pending@[i as int].path@, self.pending@[i as int].attempts));
            if bytes_eq(self.pending[i].path.as_slice(), path) {
                found = true;
            } else {
                i = i + 1;
            }
        }
        proof {
            lemma_pair_lookup_skip(p0, path@, i as int);
        }
        let a: u32 = if found {
            assert(p0[i as int] == (self.pending@[i as int].path@, self.pending@[i as int].attempts));
            self.pending[i].attempts.wrapping_add(1)
        } else {
            1
        };
        proof {
            lemma_pair_put_skip(p0, path@, a, i as int);
        }
        if found {
            let p = self.pending[i].path.clone();
            assert(p@ =~= path@);
            self.pending.set(i, Pending { path: p, attempts: a });
        } else {
            let p = vstd::slice::slice_to_vec(path);
            self.pending.push(Pending { path: p, attempts: a });
        }
        assert(self@.pending =~= pair_put(p0, path@, a));
        Some(a)
    }

    /// Records the outcome of checking a new file seen `attempts` times: a screenshot
    /// that was taken into the history, or a file that has not looked like a
    /// screenshot in 15 polls, is dealt with from now on. Returns whether
    /// the file was settled so.
    pub fn record_check(&mut self, path: Vec<u8>, attempts: u32, is_screenshot: bool, ingested: bool) -> (settled: bool)
        ensures
            settled == settles(attempts, is_screenshot, ingested),
            final(self)@.polls == old(self)@.polls,
            settled ==> final(self)@.seen == old(self)@.seen.push(path@) && final(self)@.pending
                == pair_remove(old(self)@.pending, path@),
            !settled ==> final(self)@ == old(self)@,
            final(self)@ == after_check(old(self)@, path@, attempts, is_screenshot, ingested),
    {
        let settle = if is_screenshot {
            ingested
        } else {
            attempts >= MAX_PENDING_POLLS
        };
        if settle {
            self.forget(path.as_slice());
            self.seen.push(path);
            assert(self@.seen =~= old(self)@.seen.push(path@));
        }
        settle
    }

    /// Forgets the pending entry of `path` (the file is gone).
    pub fn forget(&mut self, path: &[u8])
        ensures
            final(self)@.seen == old(self)@.seen,
            final(self)@.polls == old(self)@.polls,
            final(self)@.pending == pair_remove(old(self)@.pending, path@),
    {
        let ghost p0 = self@.pending;
        let mut kept: Vec<Pending> = Vec::new();
        let mut i: usize = 0;
        while i < self.pending.len()
            invariant
                i <= self.pending@.len(),
                p0 == pending_views(self.pending@),
                pending_views(kept@) == pair_remove(p0.take(i as int), path@),
            decreases self.pending.len() - i,
        {
            assert(p0.take(i + 1).drop_last() =~= p0.take(i as int));
            assert(p0.take(i + 1).last() == (self.pending@[i as int].path@, self.pending@[i as int].attempts));
            if !bytes_eq(self.pending[i].path.as_slice(), path) {
                let e = Pending { path: self.pending[i].path.clone(), attempts: self.pending[i].attempts };
                assert(e.path@ =~= self.pending@[i as int].path@);
                kept.push(e);
                assert(pending_views(kept@) =~= pair_remove(p0.take(i as int), path@).push(p0[i as int]));
            }
            i = i + 1;
        }
        assert(p0.take(i as int) =~= p0);
        self.pending = kept;
    }

    /// The paths of the files still under consideration.
    pub fn pending_paths(&self) -> (r: Vec<Vec<u8>>)
        ensures
            byte_paths(r@) == self@.pending.map_values(|e: (Seq<u8>, u32)| e.0),
    {
        let mut r: Vec<Vec<u8>> = Vec::new();
        let mut i: usize = 0;
        while i < self.pending.len()
            invariant
                i <= self.pending@.len(),
                byte_paths(r@) == self@.pending.take(i as int).map_values(|e: (Seq<u8>, u32)| e.0),
            decreases self.pending.len() - i,
        {
            let p = self.pending[i].path.clone();
            assert(p@ =~= self.pending@[i as int].path@);
            assert(self@.pending[i as int] == (self.pending@[i as int].path@, self.pending@[i as int].attempts));
            let ghost before = byte_paths(r@);
            r.push(p);
            assert(byte_paths(r@) =~= before.push(p@));
            assert(self@.pending.take(i + 1).map_values(|e: (Seq<u8>, u32)| e.0) =~= self@.pending.take(i as int).map_values(|e: (Seq<u8>, u32)| e.0).push(self@.pending[i as int].0));
            assert(byte_paths(r@) =~= self@.pending.take(i + 1).map_values(|e: (Seq<u8>, u32)| e.0));
            i = i + 1;
        }
        assert(self@.pending.take(i as int) =~= self@.pending);
        r
    }
}

/// A file settled by a check is never offered again: once `record_check` settles a
/// path, `observe` of that path answers `None`.
pub proof fn settled_files_are_not_offered_again(
    t: TrackerView,
    path: Seq<u8>,
    attempts: u32,
    is_screenshot: bool,
    ingested: bool,
)
    requires
        settles(attempts, is_screenshot, ingested),
    ensures
        observed(after_check(t, path, attempts, is_screenshot, ingested), path) is None,
{
    assert(t.seen.push(path)[t.seen.len() as int] == path);
}

/// Resyncing takes the whole folder as dealt with: no file listed at that moment is
/// offered afterwards, so switching capture back on ingests no backlog.
pub proof fn resync_leaves_no_backlog(t: TrackerView, listing: Seq<Seq<u8>>, path: Seq<u8>)
    requires
        listing.contains(path),
    ensures
        observed(resynced(t, listing), path) is None,
{
}

} // verus!
