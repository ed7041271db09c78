# Tumbleweed

A LAN file-transfer tool: every device advertises itself over mDNS, serves
files over HTTP and receives them over SSH (SFTP and `scp -t`), pairs with a
phone through a QR code, and keeps a transfer history.

The decisions, formats and state machines live in a library verified with
Verus (`src/`); the program around it (`app/`) does the sockets, files,
threads and console.

## Library (`src/`)

| module | what it holds |
|---|---|
| `text` | string helpers with specifications: splitting, trimming, lines, numbers |
| `dns` | mDNS/DNS-SD wire format: name encoding and reading, queries, responses, announcements |
| `dns_roundtrip` | laws: what a responder sends is what a resolver and a discoverer read back |
| `peers` | the registry of discovered devices, host names, announcement timing |
| `http` | the file server's rules: request lines, URL coding, safe paths, listings, uploads |
| `client` | the HTTP client side: request heads, status lines, the `/info` reader |
| `upload_gate` | the queue of incoming uploads waiting for the user's decision |
| `transfer` | in-flight transfers, the history file format, the Transfer page rows |
| `settings` | the settings file format, theme, mDNS switch, last folder |
| `ssh` | authorized keys, pairing by token, exec requests, SFTP paths, the SCP sink |
| `pairing` | the pairing payload and its QR code |
| `explorer` | folder listings, fuzzy search, breadcrumbs, send results |
| `devices` | the Devices page: labels and the paired/new split |

Functions carry `requires`/`ensures` contracts over spec functions; the
properties that span several functions are public `law_*` proof functions.

### Collections

The library keeps its state in `Vec`s whose invariants say what a sorted map
or a queue would otherwise give:

- `Settings` is a `Vec<(String, String)>` kept in ascending key order with no
  key twice (`Settings::wf`), where a `BTreeMap<String, String>` would be the
  obvious choice: with `String` keys vstd's map specifications do not let
  the contents after an insert be proved, and the settings file is written
  in key order, which the sorted `Vec` states directly.
- The uploads waiting for a decision are a `Vec` with the front at index 0.
  New uploads join at the end, a decision takes the first, and a failed
  transfer leaves the queue from wherever it stands (`fail_upload`); the
  contracts speak of the queue as a `Seq`. The connections waiting for a reply are their ids, viewed as a
  `Set<u64>`; the reply channels themselves live in `app/`.
- Reading a compressed DNS name remembers the positions already visited in a
  `Vec<bool>` indexed by position (a ghost `Set<int>` in the proof), which
  stops a pointer loop as a `HashSet` of positions would.

### Windows paths

Breadcrumbs read a path as `std::path::Path::components` does on Windows
(prefixes `C:`, `\\server\share`, `\\.\device`, `\\?\...` as one crumb;
verbatim paths split only at `\`), and a crumb click rebuilds the folder as
`PathBuf::push` does there. Both are written out and verified in
`explorer`, so they behave the same on every platform the library runs on.

## Checking

`tests/` holds ordinary Rust tests run against the compiled library.
