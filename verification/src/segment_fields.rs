//! What a loader cares about in each segment, in a form that can be compared between linkers.
//!
//! Everything is keyed by the name of the segment, since linkers order segments differently, and no
//! address is in any value.
use crate::le;
use crate::macho_file::CommandList;
use crate::macho_file::CommandListModel;
use crate::macho_file::CommandModel;
use crate::macho_file::LC_SEGMENT_64;
use crate::macho_file::RawCommand;
use crate::macho_file::read_fixed_name;
use crate::macho_file::read_number;
use crate::macho_file;
use crate::text::append_decimal;
use crate::text::append_hex;
use crate::text::append_text;
use crate::text::joined;
use crate::text;
use vstd::prelude::*;

verus! {

/// How a protection is shown.
pub open spec fn vm_prot(prot: u32) -> Seq<char> {
    seq![
        if prot % 2 == 1 {
            'r'
        } else {
            '-'
        },
        if (prot / 2) % 2 == 1 {
            'w'
        } else {
            '-'
        },
        if (prot / 4) % 2 == 1 {
            'x'
        } else {
            '-'
        },
    ]
}

/// Renders a protection the way `otool -l` does.
pub fn format_vm_prot(prot: u32) -> (result: String)
    ensures
        result@ == vm_prot(prot),
{
    let mut result = "".to_owned();
    proof {
        reveal_strlit("");
    }
    result.push(
        if prot % 2 == 1 {
            'r'
        } else {
            '-'
        },
    );
    result.push(
        if (prot / 2) % 2 == 1 {
            'w'
        } else {
            '-'
        },
    );
    result.push(
        if (prot / 4) % 2 == 1 {
            'x'
        } else {
            '-'
        },
    );
    assert(result@ =~= vm_prot(prot));
    result
}

/// Whether a segment is well formed: with less memory than it has bytes in the file, the loader
/// would map less than the file holds. How much it is padded by is a decision about layout.
pub open spec fn size_check(vmsize: nat, filesize: nat) -> Seq<char> {
    if vmsize < filesize {
        "INVALID: vmsize 0x"@ + text::hex(vmsize) + " < filesize 0x"@ + text::hex(filesize)
    } else {
        "OK"@
    }
}

/// How well a segment is aligned. Pages are 16KiB or 4KiB.
pub open spec fn alignment_check(vmaddr: nat) -> Seq<char> {
    if vmaddr % 0x4000 == 0 {
        "16k"@
    } else if vmaddr % 0x1000 == 0 {
        "4k"@
    } else {
        "MISALIGNED (0x"@ + text::hex(vmaddr) + ")"@
    }
}

/// What is compared of one segment.
pub open spec fn fields_of(command: CommandModel) -> Seq<(Seq<char>, Seq<char>)> {
    let name = macho_file::fixed_name(command.bytes.subrange(8, 24));
    let vmaddr = macho_file::number(command, 24, 8);
    let vmsize = macho_file::number(command, 32, 8);
    let filesize = macho_file::number(command, 48, 8);
    seq![
        (name + ".initprot"@, vm_prot(macho_file::number(command, 60, 4) as u32)),
        (name + ".maxprot"@, vm_prot(macho_file::number(command, 56, 4) as u32)),
        (name + ".nsects"@, text::decimal(macho_file::number(command, 64, 4))),
        (name + ".flags"@, "0x"@ + text::hex(macho_file::number(command, 68, 4))),
        (name + ".vmsize-vs-filesize"@, size_check(vmsize, filesize)),
        (name + ".vmaddr-page-aligned"@, alignment_check(vmaddr)),
    ]
}

/// What the segments among the commands from `i` on add to `fields`.
pub open spec fn fields_from(
    list: CommandListModel,
    i: int,
    fields: Seq<(Seq<char>, Seq<char>)>,
) -> Result<Seq<(Seq<char>, Seq<char>)>, Seq<char>>
    decreases list.commands.len() - i,
{
    if i >= list.commands.len() {
        match list.error {
            Some(error) => Err(error),
            None => Ok(fields),
        }
    } else if list.commands[i].cmd != LC_SEGMENT_64 {
        fields_from(list, i + 1, fields)
    } else if list.commands[i].bytes.len() < 72 {
        Err("Invalid Mach-O command size"@)
    } else {
        fields_from(list, i + 1, fields + fields_of(list.commands[i]))
    }
}

/// Pairs of strings as mathematical values.
pub open spec fn pair_models(pairs: Seq<(String, String)>) -> Seq<(Seq<char>, Seq<char>)> {
    Seq::new(pairs.len(), |i: int| (pairs[i].0@, pairs[i].1@))
}

fn add_field(fields: &mut Vec<(String, String)>, name: &String, key: &str, value: String)
    ensures
        pair_models(final(fields)@) == pair_models(old(fields)@).push((name@ + key@, value@)),
{
    let key = joined(name.as_str(), key);
    fields.push((key, value));
    assert(pair_models(fields@) =~= pair_models(old(fields)@).push((key@, value@)));
}

fn add_fields(fields: &mut Vec<(String, String)>, command: &RawCommand)
    requires
        command.bytes@.len() >= 72,
    ensures
        pair_models(final(fields)@) == pair_models(old(fields)@) + fields_of(command@),
{
    proof {
        le::lemma_limits();
    }
    let name = read_fixed_name(&command.bytes, 8);
    let vmaddr = read_number(command, 24, 8);
    let vmsize = read_number(command, 32, 8);
    let filesize = read_number(command, 48, 8);
    add_field(fields, &name, ".initprot", format_vm_prot(read_number(command, 60, 4) as u32));
    add_field(fields, &name, ".maxprot", format_vm_prot(read_number(command, 56, 4) as u32));
    let mut nsects = "".to_owned();
    proof {
        reveal_strlit("");
    }
    append_decimal(&mut nsects, read_number(command, 64, 4));
    assert(nsects@ =~= text::decimal(macho_file::number(command@, 64, 4)));
    add_field(fields, &name, ".nsects", nsects);
    let mut flags = "0x".to_owned();
    append_hex(&mut flags, read_number(command, 68, 4));
    add_field(fields, &name, ".flags", flags);
    let sizes = if vmsize < filesize {
        let mut sizes = "INVALID: vmsize 0x".to_owned();
        append_hex(&mut sizes, vmsize);
        append_text(&mut sizes, " < filesize 0x");
        append_hex(&mut sizes, filesize);
        sizes
    } else {
        "OK".to_owned()
    };
    add_field(fields, &name, ".vmsize-vs-filesize", sizes);
    let alignment = if vmaddr % 0x4000 == 0 {
        "16k".to_owned()
    } else if vmaddr % 0x1000 == 0 {
        "4k".to_owned()
    } else {
        let mut alignment = "MISALIGNED (0x".to_owned();
        append_hex(&mut alignment, vmaddr);
        append_text(&mut alignment, ")");
        alignment
    };
    add_field(fields, &name, ".vmaddr-page-aligned", alignment);
    assert(pair_models(fields@) =~= pair_models(old(fields)@) + fields_of(command@));
}

/// Reads what is compared of all segments.
pub fn read_macho_segment_fields(list: &CommandList) -> (result: Result<
    Vec<(String, String)>,
    String,
>)
    ensures
        match result {
            Ok(fields) => fields_from(list@, 0, Seq::empty()) == Ok::<
                Seq<(Seq<char>, Seq<char>)>,
                Seq<char>,
            >(pair_models(fields@)),
            Err(error) => fields_from(list@, 0, Seq::empty()) == Err::<
                Seq<(Seq<char>, Seq<char>)>,
                Seq<char>,
            >(error@),
        },
{
    let mut fields: Vec<(String, String)> = Vec::new();
    assert(pair_models(fields@) =~= Seq::<(Seq<char>, Seq<char>)>::empty());
    let mut i: usize = 0;
    while i < list.commands.len()
        invariant
            i <= list.commands@.len(),
            fields_from(list@, 0, Seq::empty()) == fields_from(
                list@,
                i as int,
                pair_models(fields@),
            ),
        decreases list.commands@.len() - i,
    {
        let command = &list.commands[i];
        assert(list@.commands[i as int] == command@);
        if command.cmd == LC_SEGMENT_64 {
            if command.bytes.len() < 72 {
                return Err("Invalid Mach-O command size".to_owned());
            }
            add_fields(&mut fields, command);
        }
        i = i + 1;
    }
    match &list.error {
        Some(error) => Err(error.clone()),
        None => Ok(fields),
    }
}

} // verus!
