# git_file_diff

The diff of a file, made for showing: hunks of lines, with the words highlighted that changed
between a deleted line and the added line that replaces it.

- `src/` is the library. Every function in it is verified with Verus; what is believed of `similar`,
  `git2`, `easy-cast` and a few functions of `std` stands in the contracts of the functions marked
  `external_body` and of the `assume_specification` in `src/text.rs`.
- `app/` opens repositories, reads files and hands the library what git prints.
- `tests/` runs the library.

| module       | what it holds                                                        |
|--------------|----------------------------------------------------------------------|
| `line`       | lines as git prints them and as they are shown                       |
| `text`       | characters, UTF-8 offsets, trimming                                  |
| `token`      | splitting a line into words, blanks and single characters            |
| `change`     | the differences between two lists of tokens                          |
| `highlight`  | the changed words of two lines                                       |
| `similarity` | how much two lines have in common                                    |
| `pairing`    | which deleted line goes with which added line                        |
| `inline`     | highlights for the lines of a hunk                                   |
| `hash`       | hashes of hunk headers                                               |
| `file_diff`  | hunks and file diffs                                                 |
| `source`     | what to ask git for, and files that git does not track               |
| `error`      | what can go wrong                                                    |
