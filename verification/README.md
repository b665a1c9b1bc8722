# tabflow

The verified core of TabFlow, a desktop overview of open windows, browser
tabs and File Explorer tabs: how each window or tab becomes a tracked item,
its stable resource key, duplicate groups and their cleanup, search scores,
the browser-extension connection registry, DevTools tab routing, the rules
behind the stored data, icon caching and the debug-browser launch sequence.

- `src/` — the library, written in Verus. Its functions carry
  `requires`/`ensures` contracts proved by the verifier, and the laws of the
  library (key stability, URL normalization, duplicate grouping, connection
  replacement, id round trips, ignore filtering, …) are proof functions.
  The exception is a handful of small trusted wrappers, marked
  `#[verifier::external_body]`, around calls into std and outside crates
  (random ids, the clock, UTF-8 decoding, lowercasing, JSON frame fields,
  PNG and base64 encoding): their contracts are stated from those crates'
  documentation and sources and are believed, not proved.
- `tests/` — tests of the library on concrete values.
- `app/` — the desktop shell (Tauri commands, SQLite, WebSocket server,
  DevTools HTTP scan, Win32/COM plumbing) that reads the world, calls the
  library and carries out what it decides.
