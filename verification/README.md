# tsdb

A database of flat text files (`.dov`), and the program that works on it.

A file has one record in a line: a twelve-character identifier and `key=value` fields, separated by
tabs. The sorted section can be searched by halving; behind a blank line stands the pending section,
to which changes are appended until they are merged. The last line is a footer with the moment of
writing.

`src/` is the library, verified with Verus. It does no input or output: it reads and gives texts.

| Modules | What they hold |
|---|---|
| `text`, `escape`, `base62`, `sorted`, `fields`, `paths`, `clock`, `error` | strings, escapes and arrays, identifiers, ordered sets and maps, file names, moments, errors |
| `action`, `record`, `dotsv`, `apply`, `compact` | action files, records, database files, changes, merging |
| `database`, `conflicts`, `reload`, `session`, `valid` | what a database holds, and the laws of changing, checking, writing and reading it |
| `index`, `relate`, `plane`, `keytype`, `order`, `numorder`, `current` | the index files, the types of values, the sortable form of numbers |
| `query`, `filter`, `resolve`, `show`, `records` | queries, filters, records as lines and as JSON |
| `lookup`, `selection`, `json` | the laws of the index files, queries, filters and JSON |
| `lock`, `queue` | the queue of writers and its laws |
| `config`, `cli` | the configuration file and the command line |

Functions named `law_...` state what holds of several functions together. What the proofs take on
trust of `std` and of the `rand` crate stands in `text`, `error`, `dotsv`, `clock` and `lock`, each
item with a comment that says what is claimed.

`app/` is the program: files, locks (`fs2`), the clock, arguments and output. `tests/` runs the
library on files in memory.
