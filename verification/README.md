# gh-enterprise-repos

Queries a GitHub enterprise over GraphQL and writes one YAML file per enterprise, listing every
repository in every organization that it contains: public, non-archived repositories by default.
Works against github.com and GitHub Enterprise Server.

The logic is a library that is verified with [Verus](https://github.com/verus-lang/verus); a thin
program around it does the I/O.

```sh
export GITHUB_TOKEN=…            # needs read:org and read:enterprise

gh-enterprise-repos -e acme-inc                              # ./acme-inc.yaml
gh-enterprise-repos -e acme-inc -e acme-research -d results  # one file each
gh-enterprise-repos -e acme-inc -o -                         # stdout
gh-enterprise-repos -e acme-inc --visibility all --archived include
gh-enterprise-repos --hostname ghe.example.com -e acme-inc
```

## Layout

| Module | What it holds |
| --- | --- |
| `src/text.rs`, `src/sort.rs` | Characters, trimming, a stable sort without regard to case |
| `src/model.rs`, `src/args.rs` | Responses, reports and arguments as plain values |
| `src/collect.rs`, `src/paging.rs` | The filter, the queries, and how pages come together |
| `src/report.rs` | Putting a report together, and what holds of every report |
| `src/yaml.rs` | A block-style YAML writer, and proofs about what it writes |
| `src/document.rs` | A report as a YAML document |
| `src/run.rs` | Which enterprises, which token, which endpoint, and how a run ends |
| `src/retry.rs` | When a request is tried again |
| `app/` | Command line, HTTP and files |

## Behavior worth knowing

- **The filter is applied twice.** It is sent with every query, and each repository that comes back
  is checked against it once more, so a server that ignores an argument cannot widen the result.
- **Cursors throughout.** Every page starts where the last one ended; the size of a page makes no
  difference to the result.
- **Order.** Organizations and repositories are in order of their names without regard to case, and
  the order in which organizations were read does not show.
- **Absent rather than null.** A field that could not be read, or that a repository does not have,
  is left out.
- **Partial results beat no results.** An organization that could not be read is listed as such and
  the rest is exported; a run fails only if every enterprise fails.
- **What is written reads back.** This is proved of every value that is `readable`
  (`src/yaml/round_trip.rs`). Left out are texts with U+FFFE or U+FFFF, keys of more than 1024
  characters or twice in one mapping, a document that begins with a byte order mark, a top-level
  line that begins with three dots and then ends or goes on with a space, floats that are not
  spelled as such, tags below tags or with unusual characters, and unquoted strings with `,`, `[`,
  `]`, `{` or `}` inside a flow collection. Of a report, only the two code points are left out.
