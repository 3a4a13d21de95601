# slatedb object cache

The on-disk object cache of SlateDB: an object store that keeps what it reads in local
files, part by part, and evicts them when the cache grows too large.

- `src/` is the library, verified with Verus. It decides: where an object lies in the cache,
  which ranges are fetched, how bytes are cut into parts and read back, what is evicted, how
  writes are paced, and when a memtable is frozen. Each flow that waits for I/O is a function
  from what has just happened to what is to be done next.
- `tests/` runs the library on concrete values.
- `app/` does the I/O around it: the object store behind the cache, files, threads, clocks
  and configuration.
