# macho_link

The Mach-O side of a linker, and of a tool that compares what linkers make, as a verified library.

* `src/` is the library. Every function in it has a contract, and Verus checks that it keeps it. What
  several functions promise together stands in public proof functions whose names start with `law_`.
* `tests/` runs it.
* `app/` is what surrounds it: the command line of the comparison, and reading and writing files.

Roughly, the modules fall into these groups.

| What | Where |
| --- | --- |
| The command line of the linker | `args` |
| Inputs: objects, their pieces, stub libraries, debug information | `object_file`, `atoms`, `tbd`, `stub_library`, `debug_map` |
| Deciding what goes where, and how large it is | `sections`, `layout`, `sizes`, `reserve` |
| Code: relocations, stubs, islands | `aarch64`, `relocations`, `stubs` |
| Unwinding | `compact_unwind`, `eh_frame`, `unwind_info` |
| Tables: symbols, exports, fixups, load commands, the signature | `symtab`, `export_trie`, `exports`, `chained_fixups`, `load_commands`, `prelude`, `signature` |
| The whole output | `object_writer`, `writer`, `link_map`, `malfunction` |
| Reading images back | `macho_file`, `image`, `fixups_reader`, `entry_point`, `segment_fields`, `dysymtab_check`, `elf_symtab`, `binary` |
| Comparing them | `arch`, `config`, `rows`, `fixups_report`, `passes`, `report` |
| Laws across modules | `fixup_laws`, `table_laws`, `read_back_laws`, `reserve_laws`, `unwind_laws`, `malfunction_laws` |
| Common ground | `bytes`, `le`, `uleb128`, `sums`, `sorting`, `strings`, `text`, `hash_maps` |

Calls into other crates stand behind small functions whose contracts are believed rather than proved.
Their doc comments say which function of which crate they call, and what they take it to do.
