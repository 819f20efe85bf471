# lrgex_restore

LRGEX Restore keeps chosen Windows folders (game saves, documents) backed up as
compressed archives inside a home folder, usually one that a cloud service
mirrors, and brings them back after Windows is reinstalled.

The decisions of the program are a library verified with Verus (`src/`):

- `winpath`, `reparse`, `pathutil`, `text`: Windows path joining and
  components (and that a path rebuilt from leading components parses back to
  them), the portable `%KNOWNFOLDER:...%` / `%ENV%` path form (a contracted
  path expands back to the path it came from), case-insensitive comparison.
- `config`: the configuration model, storage keys of folders, drive-letter and
  user-profile healing, home layout and migration of old layouts.
- `syncrun`, `unpackrun`: the order of the steps of one folder's sync and of
  restoring a folder from its archive, as state machines that `app/` drives.
- `sync`: batching of files for compression, change detection, snapshot
  retention, the sidecar and task formats, the cycle over all folders, the
  names of temporaries, the search for game folders and save-id migration plans.
- `gamescan`: which paths are game saves, how well a path is protected, the
  bounded save-file and save-subfolder searches, the Steam library list.
- `health`, `synclog`, `crashlog`: the status record and lamp, the log and the
  progress line.
- `update`: version comparison and the signature and hash checks of an update.
- `signer`: the release signer's key checks and signatures; a release it signs
  passes the update check under the trusted public key.
- `commands`, `window`: the command line, restore planning and reports, and
  what the window's fields and actions do.

`app/` is the program around it: file system, registry, scheduled task,
archives, network and the dialogs. It hands the library plain values and acts
on its answers; started under the name `sign` it is the release signer.
`tests/` exercises the library on concrete values.
