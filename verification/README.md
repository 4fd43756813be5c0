# windfire

A URL liveness scanner: it expands domains, IPs, CIDR blocks and target files
into `http://` and `https://` URLs, fetches them, keeps the responses whose
status code was asked for, extracts the page title and server header, hashes
the favicon and matches the response against a fingerprint database.

## Layout

- `src/` is the library, written in Verus. Its functions carry contracts that
  Verus proves, except a few small wrappers around outside crates (marked
  `#[verifier::external_body]`), whose contracts are trusted and whose doc
  comments say what they claim:
  - `text`, `order`: string helpers, a byte-wise order on strings and a
    sort-and-dedup with its mathematical model;
  - `cidr`: IPv4 parsing/printing and CIDR block expansion;
  - `cli`, `targets`: argument checks and the construction of the target list;
  - `pattern`, `weburl`, `favicon`: thin, trusted wrappers around `regex`,
    `url`, `base64` and `murmur3`, with the verified logic around them;
  - `response`, `fingerprint`, `output`: what is kept of a response, how
    fingerprints are matched, and how results are written out;
  - `legacy`: the older scanning pipeline (range expansion, keyword matching).
- `tests/` runs the library on concrete inputs.
- `app/` is the program around the library: command-line parsing, HTTP
  requests, the worker loop, reading the fingerprint file and writing CSV or
  JSON.
