# nsearch

A small search engine: a crawler, an inverted index and BM25 / TF-IDF
ranking. The library in `src/` is verified; `app/` is the command-line
program around it (crawling over HTTP, reading and writing JSON files,
floating-point scoring).

## Layout

- `src/analysis/tokenizer.rs`: text to tokens (lowercase, split at every
  non-alphabetic character, empty pieces dropped).
- `src/crawler.rs`: the crawl decisions (`CrawlState`): at most `limit` URLs
  are taken and none twice; `src/crawler/frontier.rs` is the FIFO queue that
  accepts a URL once; `src/crawler/fetcher.rs` turns a page's HTML into its
  title, text and resolved links.
- `src/index/`: postings, document store, and index building
  (`add_page`), with the laws of what the index holds after a sequence of
  documents (`index_of`, `postings_of`).
- `src/query/`: query parsing, candidate retrieval and the per-term
  statistics that scoring uses.
- `src/table.rs`: a hashed table of distinct strings used by the above.

## Usage

```bash
nsearch crawl --seed <url> [--limit <n>] [--output <path>]
nsearch index [--pages-path <path>] [--index-output <path>] [--store-output <path>]
nsearch query "<terms>" [--index-path <path>] [--store-path <path>] [--scorer <bm25|tfidf>] [--k1 <f>] [--b <f>]
```
