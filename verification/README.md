# reconcile

Conflict-free three-way merging of texts, verified with Verus.

Given a parent text and two edits of it, the library diffs each edit against
the parent (word tokens, longest common subsequence), joins the resulting
insertions and deletions, and weaves the two sequences of operations
together by operational transformation, moving cursors along. Around this
core sit the helpers of a document sync service: base64 transport of
contents, binary detection, path sanitising and de-duplication, users and
vault access.

Where the changes of the two sides lie apart (an unchanged character of the
parent between any change of one side and any change of the other), the
merged text is proved to be the parent with the changes of both sides made;
see `operation_transformation/separated_edits.rs` and the separated-merge
modules of `operations/` and `sync_lib/operations/`.

## Layout

- `src/` is the verified library. Verus checks every function there against
  its contract (and proves the absence of panics and overflow where a
  function states nothing more); calls into `ropey`, `base64`, `regex`,
  `sanitize-filename` and `rand` go through small trusted wrappers whose
  contracts are stated next to them.
  - `diffs/`, `tokenizer/`, `utils/`: tokens, the LCS diff and its helpers.
  - `operation_transformation/`: edited texts, their operations, cursors and
    the merge; `reconcile` is the entry point.
  - `operations/`, `sync_lib/`: operation sequences over ropes and the
    document-level merge used by the sync service.
  - `sync_server/`: configuration, errors, access checks, path handling and
    the decisions of the document endpoints.
- `tests/` runs the library on concrete inputs.
- `app/` is the command-line `merge-file` tool and the parts that need
  floating point, serde or a document store.
