# fast_walk

Scans a directory tree and reports the number and size of its files by
extension, by age and by size, the directories that hold the most small files,
the largest files, and the shape of the tree. Two earlier results can be
compared without scanning again.

The library is written in Rust with Verus contracts and proofs. It works on
plain values: what was listed, what was measured, what a file holds. The program
in `app/` walks the file system, reads the clock, writes files and prints.

| Module | What it holds |
| --- | --- |
| `bands` | bands of age, size, fan-out and file count |
| `path` | paths, by their components and as they were spelled; extensions of file names |
| `tally` | counts and sizes, with exact quotients |
| `summary`, `laws` | what measuring a set of files adds up to, and what holds of it |
| `partial` | accumulating a share of the files, and combining shares |
| `structure`, `structure_laws` | the shape of a tree |
| `scan` | the walk, and the result of a scan |
| `results`, `reports`, `csv_file` | writing reports as CSV, and reading results back |
| `diff` | comparing two results |
| `output`, `table`, `text` | file names, terminal tables, numbers in text |
| `order`, `ranking`, `sorted_map`, `totals` | orders, sorting, maps and sums |

What is believed without proof stands in functions marked `external_body`, each
with a comment that says what is claimed of which function of `csv`,
`comfy-table`, `num_cpus` or the standard library.
