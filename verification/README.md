# voidui

The retained-mode core of a desktop UI toolkit and its rich-text editor,
written in Verus. Every function in `src/` carries a contract; Verus proves
all of them except the small wrappers marked `#[verifier::external_body]`
that call `ropey`, `unicode-segmentation` and the standard library. Their
contracts restate what those libraries document and are trusted, not proved.

## Layout

- `src/editing/` — the editor model.
  - `buffer`: text storage (a string, or a rope from `ropey` for large
    texts) and line ranges.
  - `document`: documents, edits, change sets, position mapping and
    inverse edits.
  - `format`: style spans over byte ranges.
  - `selection`: selections and selection sets, normalized and disjoint.
  - `state`: the editing session — transactions, composition (IME),
    anchors and an undo history within a byte budget.
  - `commands`: deletion by grapheme or word, with boundaries from
    `unicode-segmentation`.
  - `projection`, `view_matching`, `validation`: display plans over source
    text — replacements, blocks, described widgets and their handles.
  - `extensions`, `handle`: anchors that follow edits; what observers of a
    shared session redo after an update.
- `src/ui/` — widgets.
  - `stacking`: CSS stacking contexts compiled into one paint order.
  - `tree`: the widget tree's structure — parents, children, siblings —
    and removing a subtree with the focus, hover, press and pointer capture
    it held.
  - `focus`: keyboard focus, modals and popovers in the top layer.
  - `state`: render-time dependency tracking of component state.
  - `keys`: what the window does with an unclaimed key press.
  - `updates`, `widget`: coalesced widget invalidations and status flags.
- `src/media/` — image size limits and background SVG rendering state.
- `app/` — the program around the library: the window greeting, shared
  counters and weak invalidation handles.
- `tests/` — tests of the library on concrete values.

Laws that span several calls are stated where Verus checks them against the
code. Undo restoring a transaction and redo restoring an undo are clauses of
the contracts of `transact`, `undo` and `redo`: an accepted transaction
records an undo step whose target is the state before it (unless it merges
into the previous typing step) whenever that step fits the history budget —
the step's size depends on allocation, so it is named `last_step_bytes` — and
undo and redo return to their targets and say how both stacks change.
Others (the history stays within its budget, inverse edits restore text and
formatting, position mapping is monotone, focus traversal stays inside an
open modal, a stale render never publishes, …) are public proof functions
next to the code they speak of.
