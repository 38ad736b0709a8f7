# my_no_sql_server_grpc

The verified core of an in-memory key-value server: a table is held in memory in
full, its key is `PartitionKey` + `RowKey`, changes are pushed to the readers
which subscribed, and everything is persisted to page-files on disk.

`src/` is the library. Everything in it is proved with Verus; what it takes from
other crates (hash maps, checksums, compression, zip archives) stands behind small
wrappers whose contracts say what is believed of them.

| Module | What is in it |
|--------|---------------|
| `persist` | the page-files: slots, size classes, the book of where everything lies, recovery, compaction, `tables.meta`, the write-behind queue, backups |
| `operations` | what a queued task comes down to, and putting a namespace back together at start up |
| `reader` | reader sessions, their backlog, and how an answer is cut into chunks |
| `transactions` | transactions being built |
| `monitoring` | the Prometheus exposition and the status |
| `mcp` | what the tools of the MCP surface decide and answer |
| `app` | the server's state, its namespaces, and the window in which MCP writes are open |
| `leases`, `hashed_list`, `names`, `sorting`, `text`, ... | what the rest is built from |

The proof functions which are not named `lemma_..` are the laws of the library:
what was saved is what a restart gives back and a compaction loses nothing
(`persist/slot_recovery.rs`), neither does a whole vacuum pass
(`persist/vacuum_laws.rs`), a task which is handed out and done before its table
changes again leaves no row on disk without its schema (`operations/schemas.rs`),
a backup is read back (`persist/backup/backup_zip.rs`), a key survives its encoding
(`persist/base64url.rs`), and so on.

`tests/` runs the library. `app/` is the ordinary Rust around it: files, locks,
YAML, waiting.
