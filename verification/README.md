# graphify_plugins

Plugins for a code graph, written in Verus: what they compute and decide is proved
against contracts over mathematical models.

- **Relay** (`plugin`, `relay`, `render`, `state`, `template`, `gitignore`, `root`,
  `handoff`): the state that one session hands to the next, and the tools on it.
- **Doctor** (`doctor`, `paths`): whether a relay state file belongs where it lies.
- **Skill** (`skill_install`): which copies of a skill may be written and removed.
- **Documents** (`opendoc`, `blocks`): links between Markdown sections and code
  symbols, and drift in both directions.
- **Review** (`review`, `resolver`, `crg`, `guard`, `impact`, `radius`, `seeds`): reviews
  bound to graph nodes, resolved when the node goes, raised when a change comes near.
- **Argus** (`argus`, `retest`): which test phases a change asks to run again.
- **Skeleton** (`skeleton`): the declarations of a source file at a glance.
- **Shared** (`packet`, `json`, `text`, `decimal`, `clock`, `names`, `order`, `graph`,
  `cli`).

`src/` is the verified library. It does no I/O: it takes what was read and gives what
to write. Calls into `serde_json`, `sha1`, `pulldown-cmark`, `chrono` and `uuid` stand
behind small wrappers whose doc comments say what is taken on trust. Public proof
functions named `law_*` state what holds across functions.

`app/` is the command line with its files, its SQLite tables, git and HTTP. `tests/`
holds the tests.
