# davgit

A remote Git repository served as a WebDAV tree. The library under `src/` holds
the logic, with contracts that Verus proves; `app/` is the server around it.

- `git/packfile`: packs, deltas, object ids
- `git/entry`, `git/lists`, `git/objects`, `git/walk`, `git/success`, `git/undo`:
  trees, lookups, rewriting the trees along a path, walking
- `git/transport`, `git/url`, `git/session`: the lines, requests and replies of
  the smart protocol, and how a session is opened
- `git/repo`: a repository in memory, and the commits that change it
- `handler`: what a WebDAV request is answered, and what it changes
- `fs`, `git_bridge`, `layout`: a repository as a plain map of files
- `outside`: what is taken from other crates and from std, with the contracts
  that are taken on trust

`app/main.rs` reads the settings, talks SSH and HTTP, and hands plain values to
the library.
