# sift

The rules of a filtering DNS server, verified with Verus.

`src/` is the library. Every function in it carries a contract that Verus
proves, and the laws that tie functions together are public proof functions
whose names begin with `law_`.

| module | what it holds |
| --- | --- |
| `rule` | the filter-list grammar, and the pool of expressions built on first use |
| `domidx`, `shortcut` | the indexes from domains and literals to rules |
| `engine` | rule sets, and the verdict on a request |
| `lists` | filter lists: what is loaded, due, fetched and stored |
| `probe` | the guard against sources that connect and ask nothing |
| `server` | access control, server names, the course of one request, streams, shares |
| `quic`, `doq` | which QUIC connections are taken up, and queries on their streams |
| `message`, `packed`, `cache` | messages as plain values, packed, and cached |
| `clients` | who a query comes from |
| `querylog` | the query log in memory, and reading its files from the end |
| `table`, `multi`, `text`, `utf`, `ip`, `asked` | what the others are built from |

What a text says that only another module knows, such as whether it is a valid
hostname or which address it reads as, comes in through a closure. A function
that takes one asks that it gives one answer for one text (`asked::settled`).

Calls into other crates stand behind functions marked
`#[verifier::external_body]`, each with a doc comment that names the call and
says what is believed of it.

`app/` is ordinary Rust around the library: sockets, files, locks, the clock,
and conversions. `tests/` runs the library.
