# pharo-plugins

The rules of four plugins of the Pharo virtual machine, verified with Verus.

| Module    | What it is                                                        |
|-----------|-------------------------------------------------------------------|
| `bitblt`  | the 2D blitter: combination rules, copy loops, blends, warps, lines, strings |
| `cairo`   | handles and lifetimes of Cairo objects, argument checks, the bridge to other modules |
| `dsa`     | SHA-1 blocks, and multiplication and division of large integers  |
| `files`   | paths in two encodings, directory walks, file attributes          |
| `prim`    | failure reasons and what they are called in the image             |

`src/` is the library. Every function states what it answers or changes; laws
that relate several functions are public proof functions, most of them in
`bitblt/{forms,copies,maps,blends,warps,clips,components,mixing}.rs`. `tests/`
runs the library on known values. `app/` is the plugins as the virtual machine
sees them: it reads objects, calls the operating system, Cairo and the surface
plugin, and hands plain values to the library.

The blitter works on a `Memory`, a run of bytes with addresses. Forms, halftones,
color maps and tables are places in it.
