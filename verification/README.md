# memory_pool

Memory pools whose pages keep one key for life, verified with Verus.

- `src/` is the library. `sliced_pool` cuts pages of one size into slices;
  `exclusive_pool` hands out a page as a whole. `page_map` keeps pages under the keys
  that `page_key` makes with the `slotmap` crate; `handle` has the handles, which know
  through a `spin` lock where their memory is, and by how many pointers share it
  whether it is free. `laws`, `sliced_laws` and `exclusive_laws` state what holds across
  operations: a stale key finds nothing, a page in use survives a cleanup under its
  key, slices neither overlap nor leave gaps, an unused page goes within its period.
- `tests/` runs the library.
- `app/` is what a process adds: one source of identifiers, the running average of
  request sizes, reports as text, a switch for debugging.

Whether memory is free, and where a handle says it is, depends on other threads. A
method that looks hands what it saw to one whose name ends in `_with` or `_at`, and that
one says exactly what it does for every observation.
