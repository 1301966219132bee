# nixly_launcher

A launcher for Wayland desktops: a daemon that finds applications, files and git projects
by fuzzy search, and a client that shows and hides its window.

The library in `src/` holds the launcher's rules and is verified by Verus. It takes what was
read (directory entries, file contents, variables of the environment, key presses, the
compositor's events) as plain values, and gives back plain values and the effects to perform.

| Module | What it holds |
| --- | --- |
| `text`, `filepath`, `order`, `dedup` | strings, paths, stable sorting, first occurrences |
| `protocol`, `socket`, `apptoggle` | the messages, who owns the socket, the client's decisions |
| `desktop` | desktop entries and their command lines |
| `recents`, `fileindex`, `gitscan`, `mounts` | recent files, what walks leave out, git projects |
| `icon`, `font`, `render`, `layout` | icon search and pixels, the font's path, the atlas, sizes |
| `state`, `watcher` | what is remembered, and when a change leads to a new index |
| `matcher`, `lists`, `staging` | search and ranking, the three lists, links to found files |
| `wayland` | the launcher: its modes, keys, results, window and picture |

`app/` is the program around the library: files, sockets, threads, Wayland, EGL and OpenGL.
It becomes the client where it is started under the name `apptoggle`, and the daemon
otherwise. `tests/` runs the library.

What the library takes on trust is marked `external_body` or `assume_specification`, with a
comment on what is claimed: a few functions on `char` and `String`, the `nucleo` matcher and
the decoding of pictures by the `image` crate.

Among the dependencies, `wayland-sys` is named for its feature `dlopen` alone: with it
`libwayland` is loaded when the program starts, and is not needed to build it.
