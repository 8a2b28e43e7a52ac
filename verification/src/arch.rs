//! What binaries were built for.
use crate::binary::Binary;
use crate::config::ArchKind;
use object::Object;
use vstd::prelude::*;

verus! {

/// What `object` says that a file was built for. `None` if the file can't be parsed, or if it was built
/// for something that comparisons know nothing of.
pub uninterp spec fn architecture_in(data: Seq<u8>) -> Option<ArchKind>;

/// `object::File::architecture`, which depends on the bytes alone.
#[verifier::external_body]
fn parse_architecture(data: &[u8]) -> (arch: Option<ArchKind>)
    ensures
        arch == architecture_in(data@),
{
    match object::File::parse(data).ok()?.architecture() {
        object::Architecture::X86_64 => Some(ArchKind::X86_64),
        object::Architecture::Aarch64 => Some(ArchKind::Aarch64),
        object::Architecture::Riscv64 => Some(ArchKind::RiscV64),
        object::Architecture::LoongArch64 => Some(ArchKind::LoongArch64),
        object::Architecture::PowerPc64 => Some(ArchKind::Ppc64),
        _ => None,
    }
}

/// The contents of binaries.
pub open spec fn data_of(objects: Seq<Binary>) -> Seq<Seq<u8>> {
    Seq::new(objects.len(), |i: int| objects[i].data@)
}

/// What each of the supplied files was built for.
pub open spec fn architectures(files: Seq<Seq<u8>>) -> Seq<Option<ArchKind>> {
    Seq::new(files.len(), |i: int| architecture_in(files[i]))
}

/// What all files were built for, given what each of them was.
pub open spec fn common_architecture(found: Seq<Option<ArchKind>>) -> Result<ArchKind, Seq<char>> {
    if found.len() == 0 {
        Err("At least one file is needed"@)
    } else if found.contains(None) {
        Err("Unsupported architecture"@)
    } else if exists|i: int| 0 <= i < found.len() && #[trigger] found[i] != found[0] {
        Err("Files have different architectures"@)
    } else {
        Ok(found[0]->0)
    }
}

/// Finds what all files were built for, given what each of them was.
pub fn find_common_architecture(found: &Vec<Option<ArchKind>>) -> (result: Result<ArchKind, String>)
    ensures
        match result {
            Ok(arch) => common_architecture(found@) == Ok::<ArchKind, Seq<char>>(arch),
            Err(error) => common_architecture(found@) == Err::<ArchKind, Seq<char>>(error@),
        },
{
    if found.len() == 0 {
        return Err("At least one file is needed".to_owned());
    }
    let mut first: Option<ArchKind> = None;
    let mut is_common = true;
    let mut i: usize = 0;
    while i < found.len()
        invariant
            i <= found@.len(),
            0 < i ==> first == found@[0],
            first is Some == (0 < i),
            forall|k: int| 0 <= k < i ==> found@[k] is Some,
            is_common == !exists|k: int| 0 <= k < i && #[trigger] found@[k] != found@[0],
        decreases found@.len() - i,
    {
        let arch = match found[i] {
            None => {
                assert(found@[i as int] is None);
                return Err("Unsupported architecture".to_owned());
            },
            Some(arch) => arch,
        };
        match first {
            None => {
                first = Some(arch);
            },
            Some(expected) => {
                if arch != expected {
                    assert(found@[i as int] != found@[0]);
                    is_common = false;
                }
            },
        }
        i = i + 1;
    }
    match first {
        Some(arch) if is_common => Ok(arch),
        _ => Err("Files have different architectures".to_owned()),
    }
}

impl ArchKind {
    /// Finds what all of the binaries were built for.
    pub fn from_objects(objects: &Vec<Binary>) -> (result: Result<ArchKind, String>)
        ensures
            match result {
                Ok(arch) => common_architecture(architectures(data_of(objects@))) == Ok::<
                    ArchKind,
                    Seq<char>,
                >(arch),
                Err(error) => common_architecture(architectures(data_of(objects@))) == Err::<
                    ArchKind,
                    Seq<char>,
                >(error@),
            },
    {
        let mut found: Vec<Option<ArchKind>> = Vec::new();
        let mut i: usize = 0;
        while i < objects.len()
            invariant
                i <= objects@.len(),
                found@ == architectures(data_of(objects@)).take(i as int),
            decreases objects@.len() - i,
        {
            found.push(parse_architecture(objects[i].data.as_slice()));
            assert(found@ =~= architectures(data_of(objects@)).take(i + 1));
            i = i + 1;
        }
        assert(found@ =~= architectures(data_of(objects@)));
        find_common_architecture(&found)
    }
}

} // verus!
