use vstd::prelude::*;

pub mod aarch64;
pub mod arch;
pub mod args;
pub mod args_laws;
pub mod atom_laws;
pub mod atoms;
pub mod binary;
pub mod bytes;
pub mod chained_fixups;
pub mod check_laws;
pub mod command_laws;
pub mod compact_unwind;
pub mod compact_unwind_laws;
pub mod comparison_laws;
pub mod config;
pub mod debug_map;
pub mod dysymtab_check;
pub mod eh_frame;
pub mod elf_symtab;
pub mod entry_point;
pub mod export_trie;
pub mod exports;
pub mod fixup_key_laws;
pub mod fixup_laws;
pub mod fixups_reader;
pub mod fixups_report;
pub mod frame_laws;
pub mod hash_maps;
pub mod image;
pub mod image_laws;
pub mod input_laws;
pub mod layout;
pub mod layout_laws;
pub mod le;
pub mod link_map;
pub mod link_map_laws;
pub mod load_commands;
pub mod macho_file;
pub mod malfunction;
pub mod malfunction_laws;
pub mod object_file;
pub mod object_laws;
pub mod object_writer;
pub mod passes;
pub mod prelude;
pub mod read_back_laws;
pub mod reader_laws;
pub mod relocation_laws;
pub mod relocations;
pub mod report;
pub mod report_laws;
pub mod reserve;
pub mod reserve_laws;
pub mod rows;
pub mod section_laws;
pub mod sections;
pub mod segment_fields;
pub mod signature;
pub mod signature_laws;
pub mod sizes;
pub mod sorting;
pub mod strings;
pub mod stub_library;
pub mod stubs;
pub mod sums;
pub mod symtab;
pub mod symtab_laws;
pub mod table_laws;
pub mod tbd;
pub mod text;
pub mod text_laws;
pub mod uleb128;
pub mod unwind_info;
pub mod unwind_laws;
pub mod writer;
pub mod writer_laws;

verus! {

} // verus!
