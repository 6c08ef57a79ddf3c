# Rinha: fraud scoring

A fraud detection service for card transactions. A request is turned into a
vector of 14 features, the five nearest of the labelled reference vectors are
looked up in an inverted-file index, and the transaction is denied when three or
more of them are frauds.

The library (`src/`) is written in Rust and verified with Verus:

| module | what it holds |
| --- | --- |
| `parser` | the fields of a request |
| `timestamp`, `vectorizer` | the calendar, and the features of a request |
| `layout`, `index` | the index file and searching it |
| `search`, `ranking`, `distance` | what a search yields, and why pruning by boxes is exact |
| `grouping`, `builder`, `sampling` | laying out and writing the index |
| `responses`, `http`, `conn`, `worker` | answers, framing of requests, connections |
| `net` | what the results of socket calls mean, and who gets a connection |
| `bytes` | byte strings and little-endian integers |

Outside code is used through contracts that Verus takes as given: `memchr` and
`memmem::find` (`bytes`), `sort_unstable` of slices (`grouping`), and the
generator of `rand` (`sampling`).

`app/` is the service around the library: sockets, files, the environment, and
everything that is computed in floating point. It has three commands: `api`
serves requests, `lb` accepts connections and hands them to API workers, and
`builder` writes the index file.
