# nt_ntdll

The parts of a Windows-style `ntdll` runtime library that only compute, written in Verus. Every
function states in its contract what it returns or changes, and the contracts are proved.

- Activation contexts: `activation` (frames), `activation_manifest` (manifests and their XML),
  `activation_dependency` (which assemblies a manifest needs, and in what order),
  `activation_section` (string and GUID sections: built, checked and searched),
  `activation_query`, `activation_redirection` and `activation_settings` (what is asked of a
  context).
- Exceptions and images: `exception` (unwinding, dispatch, frame walks), `dynamic_function_table`,
  `image`, `image_verify`, `import_table_hash`, `pe`.
- Tables: `avl_table`, `generic_table`, `splay` (trees whose nodes come to the root), `bitmap`, `fls`.
- Text: `strings`, `utf16`, `decimal`, `guid`, `integer`, `convert`, `message`, `dos8dot3`,
  `locale`, `environment`.
- Bytes: `bytes`, `memory`, `memstream`, `compression`, `encode`, `debug_buffer`, `heap`.

What belongs to a running process is handed in: readers of memory and images, comparisons,
allocations, the clock, number formatting and digests are functions or traits that callers supply.
`app/` ties some of them to pointers and locks.

Two functions of the standard library are taken at their word, `char::from_u32` and `String::push`
(see `utf16`). Addresses are 64-bit numbers throughout, and words in memory are little-endian.
