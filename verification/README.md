# chtxt

`chtxt` replaces a text with another in files, from the command line:

    chtxt "hello" "world" [path...] [--ext js css] [--bt 8388608] [--bs 16384]

The library under `src/` holds the logic, verified with Verus:

- `matching`: what replacing means (`replace_all`: non-overlapping matches
  from the left, an empty pattern at every character boundary), and the
  replacement of bytes, in a new buffer or in place.
- `stream`: replacement in content that arrives in chunks; the result is the
  replacement of the whole content, however it is cut.
- `replacer`: the choice between reading a file at once and streaming it, and
  the replacement of a file read at once, which streaming gives too.
- `args`: the command line, argument by argument.
- `number`: unsigned decimal numbers.
- `models`: the types of the settings.
- `session`: which paths a run touches, how often a file is changed given the
  allowed extensions, and the confirmation answers.

`app/` is the program around it: reading the command line and the answers,
resolving paths, reading and writing files.
