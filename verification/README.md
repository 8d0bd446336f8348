# sling

Throw a window at a task: a workspace picker for AeroSpace. One key, pick a
task, and the focused window moves there.

The crate is written in Verus. `src/` is the library: its functions are
verified against their contracts, except three small trusted wrappers — two
around `serde_json` in `src/json.rs` and one around `String::push` in
`src/text.rs` — whose contracts are taken on trust. `app/` is the command-line
program around it — running `aerospace`, `herdr` and the dialogs, reading and
writing files.

## Layout

| | |
|---|---|
| `src/picker.rs` | the menu: naming rules, grouping, icon stacks, rows |
| `src/app.rs` | the flow: one window, several, jumping, the board, the session that switches between them |
| `src/store.rs` | the follow list, pins, name cache, layout snapshot and restore placements |
| `src/aeroconf.rs` | the managed `persistent-workspaces` block in AeroSpace's config |
| `src/watch.rs` | following herdr's focused tab |
| `src/stats.rs` | the action log, summarised |
| `src/aerospace.rs`, `src/herdr.rs`, `src/dialog.rs`, `src/panel.rs`, `src/theme.rs`, `src/config.rs` | what the outside programs say, read |
| `src/text.rs`, `src/lined.rs`, `src/names.rs` | text and name maps with their meaning written down |
| `src/json.rs` | the one place `serde_json` is called from the library |

The flow is written against two traits, `WindowManager` and `Prompt`, so the
tests in `tests/` drive it with a fake window manager and a scripted prompt.

Beside the contracts, the library proves the laws it promises, among them:
sanitising a name twice changes nothing; a window's icon stack does not depend
on the order windows were listed in; pinning only reorders a folder; toggling
a follower or a pin twice gives the list back; a second `sync` replaces only
the block the first one wrote, and syncing twice is syncing once, also when
hand-written `persistent-workspaces` arrays stand beside the block; the last
deliberate placement of a window wins; no workspace is lost when grouping;
each numbered line of the window list names its window; a merged name cache
holds exactly what it held and every name merged.

The flow's contracts tie each result to what the window manager and the
prompt answered — the focused window, the listing, what each workspace
holds, the workspaces known, the workspace being looked at, and whether each
move took. `follow_to` states that exactly the listed followers are brought,
each with the outcome of its own move, which is how windows that belong
everywhere catch up when you arrive. `occupancy_by_counts`,
`workspaces_by_counts` and `workspace_of_focused` give a window manager the
usual answers from its counts and focused window. `run_session_from` states that the first dialog opens in the
mode asked for, each later one in the mode the previous was left for.
