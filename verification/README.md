# skiplist_rs

Ordered maps kept as skiplists, with each operation's contract proved by Verus. Each structure
is an owned value: operations that change it take `&mut self`.

- `SkipList` (crate root): a skiplist of `max_level + 1` levels with uniformly drawn node heights.
- `skiplist::Skiplist`: a skiplist of `N` levels whose node heights follow a geometric draw.
- `sl_lock_free::SkipListNoLock`: a skiplist whose forward links live in `array::LockFreeArray`s.
- `array::LockFreeArray`: a fixed array of slots with a tagged free list.
- `adaptive_swap::AdaptiveSwap`: a cell whose value is swapped out, with a lock bit in its word.

Nodes live in an arena (a `Vec`), and links are arena indices. `levels` holds the shared
proof that every level stays a sorted, complete list; `laws` states what the operations
promise together. Heights are drawn with the `rand` crate.

`app/` renders a `Skiplist` as text.
