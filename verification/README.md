# addon_parse

Reads a World of Warcraft addon directory: which addons lie in it, what their TOC files say, which
fingerprint each of them has, and what the addon repositories know about them.

- `src/` is the verified library. It decides and computes, and does no input or output.
- `tests/` runs the library on given values.
- `app/` is the code around it: files, threads, repositories.

The modules of the library:

| module        | what it holds                                                            |
|---------------|--------------------------------------------------------------------------|
| `directory`   | from TOC files and the answers of the repositories to the list of addons |
| `toc`         | directives of a TOC file and the addon that they describe                |
| `link`        | dependencies, seen from both sides                                       |
| `fingerprint` | the fingerprint of a set of files, and the collection of fingerprints    |
| `scan`        | which files of a directory count for its fingerprint                     |
| `includes`    | which files a file names                                                 |
| `patterns`    | the patterns that say so                                                 |
| `find`        | the search for a file whose path is in the wrong case                    |
| `murmur2`     | the hash                                                                 |
| `regexes`     | the calls into `fancy_regex` and `regex`                                 |
| `sizes`       | which expressions stay small enough to be compiled                       |
| `expressions` | what an expression says about its groups and counts                      |
| `skips`       | the parts of an expression that are read as a whole                      |
| `world`       | what a scan hashes in a given file system, and on what it does not depend |
| `text`        | white space, case, separators, numbers                                   |
| `addon`       | what is known about an addon                                             |
