# cdrepo

Browse any GitHub repository as a read-only directory: `cd owner/repo` mounts
the repository through FUSE and fetches files on demand.

The crate is written in Verus. `src/` is the verified library:

- `text` — the character-level model of trimming, searching and line
  splitting, with executable versions proved against it;
- `auth` — which value counts as a GitHub token, and the order in which the
  sources are consulted (environment, `gh` output,
  `hosts.yml`);
- `github` — repository identifiers and their parser, API addresses, cache
  locations, and the directory index over a tree listing;
- `index` — a hashed map from names to positions;
- `fs` — inode numbering, attributes, directory listings, reads and the
  content cache of the mounted tree;
- `paths` — joining and splitting Unix paths;
- `shell` — the shell hooks, shell detection and startup-file locations;
- `install` — installing and removing the hook block in startup files;
- `mount` — mount points, the mount table, and the mount and wait decisions.

`app/` is the program around it: the command line, HTTP requests and JSON,
the FUSE session, processes, files and the environment.
