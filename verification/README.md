# kv-cache-scheduler

A verified PagedAttention-style KV cache block manager for LLM inference, written in Rust and
proved with Verus.

A fixed pool of fixed-size blocks takes the place of contiguous memory per request. Requests with a
common prefix share blocks, and forked sequences share their parent's blocks until they write.

- `src/block_pool.rs`: the pool, with reference counts and a free list
- `src/block_table.rs`: a request's table, from token positions to physical blocks
- `src/prefix_cache.rs`: the trie that finds blocks of a known prefix
- `src/eviction.rs`: least-recently-used victim selection
- `src/sequence.rs`: sequences and the scheduler
- `src/schedule.rs`: the mathematical model of the scheduler's states and steps
- `src/lists.rs`, `src/keys.rs`: facts on lists, and the keys of a map
- `src/laws.rs`: what holds across operations
- `app/`: a walk through the library and a benchmark

The contracts speak of views: `PoolView`, `TableView`, `CacheView` and `SchedulerView`. Each
executable function states its result and its effect as a function of these (a step, in which a
hash map's order decides between the holders of a block, as a relation).

Trusted without proof are four calls into `linked-hash-map`, which keeps the order of accesses; they
stand in `src/eviction.rs`.

Whatever is done with a scheduler, blocks are never freed twice: in every state the free list holds
exactly the blocks without a reference, each once, and the prefix cache holds no free block
(`law_blocks_are_never_freed_twice`). `law_decoding_is_possible` says when a step can be taken.
