# jbsync

Settings and plugin sync for JetBrains IDEs, as a verified library and the
command that runs it.

- `src/` is the library, written in Verus and verified: canonical XML and its
  flat projection (`xml`), pruning and roamability (`settings`), plugin
  compatibility and install plans (`plugins`), the three-way merge, the
  report, and the decisions of a sync run (`sync`), IDE discovery (`ide`),
  configuration values (`config`), the local layout and which backup runs
  are kept (`paths`), and the git backend's command protocol (`backend`).
  Each public function states what it returns in its contract; the `law_*`
  proof functions state what holds across calls.
- `app/` is the `jbsync` command: argument parsing, reading and writing
  files, running `git`, and the serialized forms of the configuration. It
  hands the library plain values and acts on what comes back.
- `tests/` exercises the library on concrete values.
