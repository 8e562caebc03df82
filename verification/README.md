# cindex

A library for making the index of a document from the index entries that TeX writes,
verified with Verus.

- `page` reads page numbers (arabic, roman, latin letters, chinese digits) and
  `precedence` turns a precedence string or list into a table that orders their kinds.
- `compare` orders composite page numbers under such a table.
- `scan` and `style` read style files (`ist`) into settings.
- `entry` reads index lines (`\indexentry{...}{...}`), `ikv` reads entries in the
  key-value form (a header `page,range,command,count` and two lines per level), and
  `reader` reads whole files of either form.
- `merge` groups entries by their levels and merges their pages: it matches range
  records, removes repeated pages, merges overlapping and adjacent pages, and turns runs
  of consecutive pages into ranges.
- `strokes` holds the stroke orders of Han characters; `escape` replaces `\u` escapes.
- `render` writes a merged entry as a line of the index.
- `strref` holds the string operations that scripts use: byte order, slicing at
  character boundaries, decoding and encoding UTF-8, and cursors that take lines,
  words or pieces off the front of a string.

`app/` is the command line program around the library. It reads index files, merges
their entries and writes the index with the styles of `ist` files. Some parts of the
command line are not available here:

- the character query prints `N/A` for every character: the Han reading and stroke
  tables and the Unicode property crates it needs are not part of this build;
- style scripts in Lua are refused, and entries are written in merge order;
- the `-c` and `-z` options and the arguments after `--`, which only serve such scripts,
  are accepted and ignored.
