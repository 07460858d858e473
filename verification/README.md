# autocitefetch

Automatic retrieval of bibliographic citations into CSL-JSON, with the library verified
by [Verus](https://github.com/verus-lang/verus).

A citation is a prefix and a key: `arxiv:1211.1037`, `doi:10.1103/PhysRev.47.777`,
`bib:knuth1984`, `manual:Einstein, A. (1935)`. The prefix selects a source. What a source
answers is kept in a cache, a file of lines that can be put under version control.

## Layout

- `src/` is the library. It reads nothing, sends nothing and does not wait: it says what is
  to be asked, what the answers mean, what is stored, and when to try again. Every function
  has its contract, and what holds of the library as a whole stands in the proof functions
  whose names begin with `law_`.
- `app/` is the command line program: it fetches, sleeps, locks and replaces files, and
  prints.
- `tests/` runs the library from outside.

## Where to begin

| module | what it holds |
|---|---|
| `manager`, `session` | the sources and their prefixes; a retrieval, step by step |
| `course` | what holds of a retrieval from its first step to its last |
| `inquiry` | the requests to a source and what their replies come to, one after another |
| `retrieval`, `settle` | what a pass fetches; what becomes of the answers |
| `reading`, `output` | reading a citation through its pointers; what is written in the end |
| `cache`, `retry`, `driver` | lifetimes and jitter; waiting and trying again; chunks and pauses |
| `filecache`, `compaction`, `record`, `known`, `members`, `lines` | the cache file, the logs beside it, and their lines |
| `source` | the sources: `arxiv` (with `atom`), `doi`, `bibfile`, `manual` |
| `csl`, `json`, `index`, `sorted`, `text`, `urls` | values, maps and texts |
| `cli`, `input`, `formats`, `progress`, `report`, `setup` | the command line |

## What is taken on trust

JSON and YAML are read and written by `serde_json` and `serde_yaml_ng`, XML is cut into
tokens by `xmlparser`, and texts are found by the hash map of `hashbrown`. What the library
relies on of them is stated in `json`, `csl`, `source::atom` and `index`; the few functions
of the standard library that are relied on are stated in `env`, `fetch`, `text`, `urls` and
`source::atom`. Each of these statements names the function that it is about.
