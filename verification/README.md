# torrent-search

A command-line tool that searches several torrent sites at once and shows
one merged, de-duplicated list of results.

- `src/` is the verified library (Verus): magnet links (`magnet`), results
  and how two results for one torrent merge (`torrent`), the merged,
  de-duplicated list (`dedup`), the reading of each site's answer
  (`providers`, `html`, `size`), the results table (`table`), the `--get`
  choice (`choice`) and the text helpers they share (`text`).
- `app/` is the program around it: arguments, HTTP requests, JSON decoding,
  the floating-point size arithmetic and printing.
- `tests/` runs the library on concrete inputs.
