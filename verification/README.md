# PasteMaxx

A clipboard-history manager for macOS: press ⌘⇧V and a bar lists everything you
copied (text with its rich flavours, images and screenshots, Finder files); pick one
and it is pasted into the app you were using. Re-copying bumps an entry instead of
duplicating it, pinned entries stay in front and survive eviction and clearing, and
the oldest unpinned entries are evicted past a 500 MiB disk budget.

## Layout

- `src/` — the verified library (Verus). The decisions about the history live here
  and are proved against their contracts; what outside crates compute (SHA-256,
  image scaling, JSON, the clock) enters through a few trusted items whose results
  are named or stated, and the contracts speak of those names:
  - `history.rs` — the history store: dedup by content hash, bump, pin, delete,
    clear, display-order snapshots, disk-budget eviction, settings, and the listing
    for the bar (SQL `LIKE` search, pinned first, newest first, at most 200), with
    the laws that hold across these operations.
  - `capture.rs` — which pasteboard content is captured and the history item it
    becomes; `thumbs.rs` — PNG downscaling through the `image` crate.
  - `screenshots.rs` — which files in the screenshot folder count, when they are
    ready, and the tracker that remembers which ones were dealt with.
  - `shell.rs` — the small decisions of the desktop shell (poll steps, hotkey and
    blur handling, paste plans, tray menu); `glyph.rs` — the menu-bar icon.
  - `hashing.rs`, `like.rs`, `text.rs`, `storage.rs`, `clock.rs` — SHA-256 content
    hashes, SQL `LIKE` matching, string helpers, the JSON form of file lists, time.
- `tests/` — tests of the library on concrete values.
- `app/` — the Tauri application around the library: SQLite persistence, the
  pasteboard and Accessibility glue, windows, tray and watchers.
