# atomr_view

A verified core for a UI stack driven by actors: a declarative scene tree,
the diff between two scenes and the patches that rebuild one from the other,
the decisions of the bridge between the actor system and the UI thread, of
the window actors and of the desktop backend's window registry, and the
version tooling of the workspace.

- `src/` is the library, written in Verus; every function there is proved
  against its contract. `scene`, `diff`, `patch`, `recon` and `laws` hold the
  scene model, the keyed diff, patch application and their laws (among them:
  applying the diff of two scenes to the first gives the second).
  `bridge`, `actors` and `backends` are the actors' and backends' decisions as
  state machines. `version` is the version bump tooling. `text`, `keyed` and
  `ids` are the helpers they share.
- `app/` is plain Rust around it: the `xtask` command line, the actor runners
  on `atomr-core` and `tokio`, the winit event loop and the egui drawing.
- `tests/` holds the tests.
