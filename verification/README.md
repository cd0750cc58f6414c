# petal

The logic of a small desktop web browser, verified with Verus.

- `src/ui/omnibox.rs` — the address bar: editing with a byte-offset cursor over UTF-8
  text, history navigation, query encoding, resolving typed text to an address, and drawing.
- `src/ui/mod.rs` — drawing into a pixel buffer (rectangles, 8x16 bitmap glyphs, text,
  the tab bar). Every drawing operation is specified as the list of pixel writes it performs.
- `src/network/adblock.rs` — the ad and tracker block list and the navigation filter.
- `src/fsm/tab_manager.rs` — the state machine that puts background tabs to sleep.
- `src/config.rs` — the settings file format (read and written) and where the file lives.
- `src/engine/builder.rs` — names of throw-away profile directories and the clean-up
  decision for old ones, the page bounds, the injected script and engine arguments.
- `src/browser.rs` — the event loop's decisions.
- `src/text.rs` — character, UTF-8 and string helpers shared by the above.
- `app/` — the program: window, page view, files and processes.
