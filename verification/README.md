# RIME user dictionary sync

Synchronises the user dictionaries of the RIME input method (Weasel on Windows, Squirrel
on macOS) between devices, by way of a WebDAV folder.

- `src/` is the library. All decisions and all computing are here, with contracts that
  Verus proves; only the weight in a dictionary's line is read by the program, as a
  floating-point number.
  - `text`, `encoding`, `paths`: texts, names in URLs, relative paths.
  - `error`: what can go wrong, and the messages.
  - `config`: the settings file and the selected files.
  - `yaml`: values of `installation.yaml`.
  - `dictionary`: the union of two dictionaries.
  - `archive`: entries of an archive of a folder tree.
  - `webdav`, `listing`, `walk`, `probe`, `cleanup`: addresses, requests and answers, the
    recursive listing, the test of the connection, and the removal of a folder's contents.
  - `platform`: the RIME front end of each platform.
  - `sync`, `run`: what a run has to know, and its steps in their order. The files below
    `cn_dicts` and `en_dicts` are merged in every run, the selected files as each one says.
  - `setup`: choosing the RIME user folder and the folder for the program's files.
  - `ui`: the state of the main window.
- `app/` is the program around it: files, network, processes and the window.
- `tests/` holds the tests of the library.

The library never touches a file or the network. Where a step needs that, it hands out
what has to be done (a `Task`, a `Request`, an `Effect`) and takes back what came of it.

A run clears its working folders only after everything was uploaded; `run` proves this of
every run, whatever fails and whenever a stop is asked for.
