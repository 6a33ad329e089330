# wizgto-solver

A local study server for heads-up poker hands, built around a solving engine, with a cache of
precomputed flop strategies. The rules live in a library that is verified with Verus; the
program around it talks to the engine, the disk and the network.

## The library (`src/`)

| module | what it states and proves |
| --- | --- |
| `suits` | canonical form of a flop under renaming of suits |
| `flops` | the list of canonical flops, most frequent first |
| `textures` | which canonical flops there are, and how many |
| `cards` | the text notation of cards |
| `keys` | range hashes, entry names, choosing the nearest entry |
| `tree` | walking the flop street of a solved tree and summarizing it |
| `events` | observed events; matching a bet to the nearest size |
| `cache` | sessions that are served from a cache entry |
| `replay` | laws: a cached session walks the tree that was solved |
| `solver` | live sessions, the queue of events, the iterations of a solve |
| `server` | new sessions, status, strategy questions |
| `routes` | routes and query parameters |
| `registry` | sessions by id, their age and eviction |
| `precompute` | what a precompute run solves, in which chunks and under which names, and how it is resumed |
| `text` | comparing, splitting and writing text |

Proof functions whose names begin with `law_` state what holds across several functions.

Frequencies and expected values pass through the library as bit patterns: it moves them, and
computes nothing with them.

## The program (`app/`)

`engine` converts between the engine's values and the library's, `disk` reads and fills the
cache, `sessions` runs solves in the background, and `main` serves HTTP.

The engine is the crate `postflop-solver` (<https://github.com/b-inary/postflop-solver>). It is
no dependency of the library and is not listed in `Cargo.toml`; to build the program, add it as
a dependency of the crate in `app/`.

```sh
wizgto-solver                                                   # serve on 127.0.0.1:3117
wizgto-solver precompute <config.json> [--line N] [--chunk I/K] # fill the cache
```
