//! Binaries that are compared, and how things are found in them by name.
use crate::bytes::copy_range;
use crate::hash_maps::NameMap;
use crate::hash_maps::name_map_get;
use crate::hash_maps::name_map_push;
use crate::hash_maps::new_name_map;
use crate::macho_file::FileFormat;
use crate::macho_file::file_format;
use crate::macho_file;
use object::Object;
use object::ObjectSection;
use object::ObjectSymbol;
use vstd::prelude::*;

verus! {

// ---------------------------------------------------------------------------------------------
// Outside calls
// ---------------------------------------------------------------------------------------------

/// A symbol of a binary.
pub struct BinarySymbol {
    /// The number of the symbol in its table.
    pub index: usize,
    pub address: u64,
    /// `None` if the name cannot be read.
    pub name: Option<Vec<u8>>,
    pub has_section: bool,
    pub is_global: bool,
    pub is_local: bool,
}

/// A symbol of a binary as a mathematical value.
pub struct BinarySymbolModel {
    pub index: usize,
    pub address: u64,
    pub name: Option<Seq<u8>>,
    pub has_section: bool,
    pub is_global: bool,
    pub is_local: bool,
}

impl View for BinarySymbol {
    type V = BinarySymbolModel;

    open spec fn view(&self) -> BinarySymbolModel {
        BinarySymbolModel {
            index: self.index,
            address: self.address,
            name: match self.name {
                Some(name) => Some(name@),
                None => None,
            },
            has_section: self.has_section,
            is_global: self.is_global,
            is_local: self.is_local,
        }
    }
}

/// The views of `symbols`.
pub open spec fn symbol_models(symbols: Seq<BinarySymbol>) -> Seq<BinarySymbolModel> {
    Seq::new(symbols.len(), |i: int| symbols[i]@)
}

/// A section of a binary.
pub struct BinarySection {
    /// A message if the name cannot be read.
    pub name: Result<Vec<u8>, String>,
    /// The name, if it is text.
    pub text: Option<String>,
    pub address: u64,
    pub size: u64,
}

/// A section of a binary as a mathematical value.
pub struct BinarySectionModel {
    pub name: Result<Seq<u8>, Seq<char>>,
    pub text: Option<Seq<char>>,
    pub address: u64,
    pub size: u64,
}

impl View for BinarySection {
    type V = BinarySectionModel;

    open spec fn view(&self) -> BinarySectionModel {
        BinarySectionModel {
            name: match self.name {
                Ok(name) => Ok(name@),
                Err(error) => Err(error@),
            },
            text: match self.text {
                Some(text) => Some(text@),
                None => None,
            },
            address: self.address,
            size: self.size,
        }
    }
}

/// The views of `sections`.
pub open spec fn section_models(sections: Seq<BinarySection>) -> Seq<BinarySectionModel> {
    Seq::new(sections.len(), |i: int| sections[i]@)
}

/// The views of the symbols that were listed.
pub open spec fn symbols_model(symbols: Option<Vec<BinarySymbol>>) -> Option<
    Seq<BinarySymbolModel>,
> {
    match symbols {
        Some(symbols) => Some(symbol_models(symbols@)),
        None => None,
    }
}

/// The views of the sections that were listed.
pub open spec fn sections_model(sections: Option<Vec<BinarySection>>) -> Option<
    Seq<BinarySectionModel>,
> {
    match sections {
        Some(sections) => Some(section_models(sections@)),
        None => None,
    }
}

/// What `object::File::symbols` lists of a file. `None` if the file cannot be parsed.
pub uninterp spec fn symbols_in(data: Seq<u8>) -> Option<Seq<BinarySymbolModel>>;

/// `object::File::symbols`, with `index`, `address`, `name_bytes`, `section_index`, `is_global` and
/// `is_local` of each symbol. They depend on the bytes alone.
#[verifier::external_body]
pub(crate) fn list_symbols(data: &[u8]) -> (symbols: Option<Vec<BinarySymbol>>)
    ensures
        symbols_model(symbols) == symbols_in(data@),
{
    let file = object::File::parse(data).ok()?;
    let symbols = file.symbols().map(|symbol| BinarySymbol {
        index: symbol.index().0,
        address: symbol.address(),
        name: symbol.name_bytes().ok().map(<[u8]>::to_vec),
        has_section: symbol.section_index().is_some(),
        is_global: symbol.is_global(),
        is_local: symbol.is_local(),
    });
    Some(symbols.collect())
}

/// What `object::File::dynamic_symbols` lists of a file. `None` if the file cannot be parsed.
pub uninterp spec fn dynamic_symbols_in(data: Seq<u8>) -> Option<Seq<BinarySymbolModel>>;

/// `object::File::dynamic_symbols`, with `index`, `address`, `name_bytes`, `section_index`,
/// `is_global` and `is_local` of each symbol. They depend on the bytes alone.
#[verifier::external_body]
pub(crate) fn list_dynamic_symbols(data: &[u8]) -> (symbols: Option<Vec<BinarySymbol>>)
    ensures
        symbols_model(symbols) == dynamic_symbols_in(data@),
{
    let file = object::File::parse(data).ok()?;
    let symbols = file.dynamic_symbols().map(|symbol| BinarySymbol {
        index: symbol.index().0,
        address: symbol.address(),
        name: symbol.name_bytes().ok().map(<[u8]>::to_vec),
        has_section: symbol.section_index().is_some(),
        is_global: symbol.is_global(),
        is_local: symbol.is_local(),
    });
    Some(symbols.collect())
}

/// What `object::File::sections` lists of a file. `None` if the file cannot be parsed.
pub uninterp spec fn sections_in(data: Seq<u8>) -> Option<Seq<BinarySectionModel>>;

/// `object::File::sections`, with `name_bytes`, `name`, `address` and `size` of each section. They
/// depend on the bytes alone.
#[verifier::external_body]
fn list_sections(data: &[u8]) -> (sections: Option<Vec<BinarySection>>)
    ensures
        sections_model(sections) == sections_in(data@),
{
    let file = object::File::parse(data).ok()?;
    let sections = file.sections().map(|section| BinarySection {
        name: section.name_bytes().map(<[u8]>::to_vec).map_err(|error| error.to_string()),
        text: section.name().ok().map(str::to_owned),
        address: section.address(),
        size: section.size(),
    });
    Some(sections.collect())
}

// ---------------------------------------------------------------------------------------------
// Names
// ---------------------------------------------------------------------------------------------

/// The position of the first `byte` from `i` on, or the length.
pub open spec fn first_byte(bytes: Seq<u8>, byte: u8, i: int) -> int
    decreases bytes.len() - i,
{
    if i >= bytes.len() {
        bytes.len() as int
    } else if bytes[i] == byte {
        i
    } else {
        first_byte(bytes, byte, i + 1)
    }
}

/// The name that a symbol is found by. One that is in no section is not found, nor is a label that
/// linkers do not agree on keeping. A version is no part of the name.
pub open spec fn indexed_name(symbol: BinarySymbolModel) -> Option<Seq<u8>> {
    match symbol.name {
        None => None,
        Some(name) => if !symbol.has_section || name.len() >= 2 && name[0] == 46 && name[1] == 76 {
            None
        } else {
            Some(name.take(first_byte(name, 64, 0)))
        },
    }
}

/// Returns the name that a symbol is found by.
pub fn name_in_index(symbol: &BinarySymbol) -> (name: Option<Vec<u8>>)
    ensures
        match name {
            Some(name) => indexed_name(symbol@) == Some(name@),
            None => indexed_name(symbol@) is None,
        },
{
    if !symbol.has_section {
        return None;
    }
    match &symbol.name {
        None => None,
        Some(name) => {
            if name.len() >= 2 && name[0] == 46 && name[1] == 76 {
                return None;
            }
            let mut i: usize = 0;
            while i < name.len() && name[i] != 64
                invariant
                    i <= name@.len(),
                    first_byte(name@, 64, 0) == first_byte(name@, 64, i as int),
                decreases name@.len() - i,
            {
                i = i + 1;
            }
            let bare = copy_range(name.as_slice(), 0, i);
            assert(bare@ =~= name@.take(i as int));
            Some(bare)
        },
    }
}

/// Where the name is among the first `n` of `names`.
pub open spec fn positions_of(names: Seq<Option<Seq<u8>>>, name: Seq<u8>, n: int) -> Seq<usize>
    decreases n,
{
    if n <= 0 {
        Seq::empty()
    } else if names[n - 1] == Some(name) {
        positions_of(names, name, n - 1).push((n - 1) as usize)
    } else {
        positions_of(names, name, n - 1)
    }
}

/// What a map has for the name, which is nothing if it has no entry for it.
pub open spec fn entry_of(map: Map<Seq<u8>, Seq<usize>>, name: Seq<u8>) -> Seq<usize> {
    if map.dom().contains(name) {
        map[name]
    } else {
        Seq::empty()
    }
}

/// `map` says where each name is among the first `n` of `names`.
pub open spec fn indexes(
    map: Map<Seq<u8>, Seq<usize>>,
    names: Seq<Option<Seq<u8>>>,
    n: int,
) -> bool {
    forall|name: Seq<u8>| #[trigger] entry_of(map, name) == positions_of(names, name, n)
}

/// The names that global symbols are found by.
pub open spec fn global_names(symbols: Seq<BinarySymbolModel>) -> Seq<Option<Seq<u8>>> {
    Seq::new(
        symbols.len(),
        |i: int|
            if symbols[i].is_global {
                indexed_name(symbols[i])
            } else {
                None
            },
    )
}

/// The names that local symbols are found by.
pub open spec fn local_names(symbols: Seq<BinarySymbolModel>) -> Seq<Option<Seq<u8>>> {
    Seq::new(
        symbols.len(),
        |i: int|
            if symbols[i].is_global {
                None
            } else {
                indexed_name(symbols[i])
            },
    )
}

/// The names of the symbols, as they are.
pub open spec fn plain_names(symbols: Seq<BinarySymbolModel>) -> Seq<Option<Seq<u8>>> {
    Seq::new(symbols.len(), |i: int| symbols[i].name)
}

/// Where symbols are, by name.
pub struct NameIndex {
    pub globals_by_name: NameMap,
    pub locals_by_name: NameMap,
    pub dynamic_by_name: NameMap,
}

impl NameIndex {
    /// The index is that of the supplied symbols.
    pub open spec fn is_index_of(
        &self,
        symbols: Seq<BinarySymbolModel>,
        dynamic: Seq<BinarySymbolModel>,
    ) -> bool {
        &&& indexes(self.globals_by_name@, global_names(symbols), symbols.len() as int)
        &&& indexes(self.locals_by_name@, local_names(symbols), symbols.len() as int)
        &&& indexes(self.dynamic_by_name@, plain_names(dynamic), dynamic.len() as int)
    }

    /// Indexes symbols by name.
    pub fn new(symbols: &Vec<BinarySymbol>, dynamic: &Vec<BinarySymbol>) -> (index: NameIndex)
        ensures
            index.is_index_of(symbol_models(symbols@), symbol_models(dynamic@)),
    {
        let ghost models = symbol_models(symbols@);
        let ghost globals = global_names(models);
        let ghost locals = local_names(models);
        let mut globals_by_name = new_name_map();
        let mut locals_by_name = new_name_map();
        let mut i: usize = 0;
        while i < symbols.len()
            invariant
                i <= symbols@.len(),
                models == symbol_models(symbols@),
                globals == global_names(models),
                locals == local_names(models),
                indexes(globals_by_name@, globals, i as int),
                indexes(locals_by_name@, locals, i as int),
            decreases symbols@.len() - i,
        {
            let symbol = &symbols[i];
            assert(models[i as int] == symbol@);
            let ghost before_globals = globals_by_name@;
            let ghost before_locals = locals_by_name@;
            match name_in_index(symbol) {
                Some(name) => {
                    if symbol.is_global {
                        name_map_push(&mut globals_by_name, name, i);
                    } else {
                        name_map_push(&mut locals_by_name, name, i);
                    }
                },
                None => {},
            }
            proof {
                lemma_indexes_step(before_globals, globals_by_name@, globals, i as int);
                lemma_indexes_step(before_locals, locals_by_name@, locals, i as int);
            }
            i = i + 1;
        }
        let ghost dynamic_models = symbol_models(dynamic@);
        let ghost names = plain_names(dynamic_models);
        let mut dynamic_by_name = new_name_map();
        let mut k: usize = 0;
        while k < dynamic.len()
            invariant
                k <= dynamic@.len(),
                dynamic_models == symbol_models(dynamic@),
                names == plain_names(dynamic_models),
                indexes(dynamic_by_name@, names, k as int),
            decreases dynamic@.len() - k,
        {
            assert(dynamic_models[k as int] == dynamic@[k as int]@);
            let ghost before = dynamic_by_name@;
            match &dynamic[k].name {
                Some(name) => {
                    let copy = copy_range(name.as_slice(), 0, name.len());
                    assert(copy@ =~= name@);
                    name_map_push(&mut dynamic_by_name, copy, k);
                },
                None => {},
            }
            proof {
                lemma_indexes_step(before, dynamic_by_name@, names, k as int);
            }
            k = k + 1;
        }
        NameIndex { globals_by_name, locals_by_name, dynamic_by_name }
    }
}

proof fn lemma_indexes_step(
    before: Map<Seq<u8>, Seq<usize>>,
    after: Map<Seq<u8>, Seq<usize>>,
    names: Seq<Option<Seq<u8>>>,
    n: int,
)
    requires
        0 <= n < names.len(),
        n <= usize::MAX,
        indexes(before, names, n),
        match names[n] {
            Some(name) => after == before.insert(name, entry_of(before, name).push(n as usize)),
            None => after == before,
        },
    ensures
        indexes(after, names, n + 1),
{
    assert forall|name: Seq<u8>| #[trigger] entry_of(after, name) == positions_of(
        names,
        name,
        n + 1,
    ) by {
        assert(entry_of(before, name) == positions_of(names, name, n));
    }
}

// ---------------------------------------------------------------------------------------------
// Binaries
// ---------------------------------------------------------------------------------------------

/// An output binary such as an executable or a shared object.
pub struct Binary {
    pub name: String,
    pub path: String,
    pub format: FileFormat,
    pub data: Vec<u8>,
    pub symbols: Vec<BinarySymbol>,
    pub sections: Vec<BinarySection>,
    pub name_index: NameIndex,
    pub sections_by_name: NameMap,
}

/// What came of looking a symbol up.
#[derive(Clone, Copy, Debug, PartialEq, Eq, Structural)]
pub enum NameLookupResult {
    Undefined,
    /// More than one symbol has the name, and none of them the address that was hinted at.
    Duplicate,
    /// The position of the symbol.
    Defined(usize),
}

/// The first of `positions` from `i` on whose symbol has the address.
pub open spec fn first_at(
    symbols: Seq<BinarySymbolModel>,
    positions: Seq<usize>,
    address: u64,
    i: int,
) -> Option<usize>
    decreases positions.len() - i,
{
    if i >= positions.len() {
        None
    } else if symbols[positions[i] as int].address == address {
        Some(positions[i])
    } else {
        first_at(symbols, positions, address, i + 1)
    }
}

/// What comes of looking a symbol up that is at `positions`.
pub open spec fn found_among(
    symbols: Seq<BinarySymbolModel>,
    positions: Seq<usize>,
    hint_address: u64,
) -> NameLookupResult {
    if positions.len() >= 2 {
        match first_at(symbols, positions, hint_address, 0) {
            Some(i) => NameLookupResult::Defined(i),
            None => NameLookupResult::Duplicate,
        }
    } else if positions.len() == 1 {
        NameLookupResult::Defined(positions[0])
    } else {
        NameLookupResult::Undefined
    }
}

/// What comes of looking a symbol up: globals come first, and then locals.
pub open spec fn looked_up(
    symbols: Seq<BinarySymbolModel>,
    name: Seq<u8>,
    hint_address: u64,
) -> NameLookupResult {
    let n = symbols.len() as int;
    let global = found_among(
        symbols,
        positions_of(global_names(symbols), name, n),
        hint_address,
    );
    if global == NameLookupResult::Undefined {
        found_among(symbols, positions_of(local_names(symbols), name, n), hint_address)
    } else {
        global
    }
}

proof fn lemma_positions(names: Seq<Option<Seq<u8>>>, name: Seq<u8>, n: int)
    requires
        n <= names.len(),
        names.len() <= usize::MAX,
    ensures
        forall|i: int|
            0 <= i < positions_of(names, name, n).len() ==> (#[trigger] positions_of(
                names,
                name,
                n,
            )[i]) < n && names[positions_of(names, name, n)[i] as int] == Some(name),
    decreases n,
{
    if n > 0 {
        lemma_positions(names, name, n - 1);
    }
}

/// The names of sections, for those that can be read.
pub open spec fn section_names(sections: Seq<BinarySectionModel>) -> Seq<Option<Seq<u8>>> {
    Seq::new(
        sections.len(),
        |i: int|
            match sections[i].name {
                Ok(name) => Some(name),
                Err(_) => None,
            },
    )
}

/// The first of the sections from `i` on whose name cannot be read.
pub open spec fn name_error(sections: Seq<BinarySectionModel>, i: int) -> Option<Seq<char>>
    decreases sections.len() - i,
{
    if i >= sections.len() {
        None
    } else {
        match sections[i].name {
            Err(error) => Some(error),
            Ok(_) => name_error(sections, i + 1),
        }
    }
}

/// The section holds the address.
pub open spec fn spans(section: BinarySectionModel, address: u64) -> bool {
    section.address <= address < (section.address + section.size) % 0x1_0000_0000_0000_0000
}

/// The first section from `i` on that holds the address.
pub open spec fn section_at(sections: Seq<BinarySectionModel>, address: u64, i: int) -> Option<int>
    decreases sections.len() - i,
{
    if i >= sections.len() {
        None
    } else if spans(sections[i], address) {
        Some(i)
    } else {
        section_at(sections, address, i + 1)
    }
}

fn index_sections(sections: &Vec<BinarySection>) -> (result: Result<NameMap, String>)
    ensures
        match name_error(section_models(sections@), 0) {
            Some(error) => result matches Err(message) && message@ == error,
            None => result matches Ok(map) && indexes(
                map@,
                section_names(section_models(sections@)),
                sections@.len() as int,
            ),
        },
{
    let ghost models = section_models(sections@);
    let ghost names = section_names(models);
    let mut map = new_name_map();
    let mut i: usize = 0;
    while i < sections.len()
        invariant
            i <= sections@.len(),
            models == section_models(sections@),
            names == section_names(models),
            name_error(models, 0) == name_error(models, i as int),
            indexes(map@, names, i as int),
        decreases sections@.len() - i,
    {
        assert(models[i as int] == sections@[i as int]@);
        let ghost before = map@;
        match &sections[i].name {
            Err(error) => {
                return Err(error.as_str().to_owned());
            },
            Ok(name) => {
                let copy = copy_range(name.as_slice(), 0, name.len());
                assert(copy@ =~= name@);
                name_map_push(&mut map, copy, i);
            },
        }
        proof {
            lemma_indexes_step(before, map@, names, i as int);
        }
        i = i + 1;
    }
    Ok(map)
}

/// What is wrong with a file, if anything is.
pub open spec fn binary_error(data: Seq<u8>) -> Option<Seq<char>> {
    match macho_file::parsed_format(data) {
        Err(error) => Some(error),
        Ok(_) => match sections_in(data) {
            None => None,
            Some(sections) => name_error(sections, 0),
        },
    }
}

/// What was listed, or nothing.
pub open spec fn or_nothing<T>(found: Option<Seq<T>>) -> Seq<T> {
    match found {
        Some(items) => items,
        None => Seq::empty(),
    }
}

impl Binary {
    /// What is known of the binary is consistent.
    pub open spec fn well_formed(&self) -> bool {
        &&& indexes(
            self.name_index.globals_by_name@,
            global_names(symbol_models(self.symbols@)),
            self.symbols@.len() as int,
        )
        &&& indexes(
            self.name_index.locals_by_name@,
            local_names(symbol_models(self.symbols@)),
            self.symbols@.len() as int,
        )
        &&& indexes(
            self.sections_by_name@,
            section_names(section_models(self.sections@)),
            self.sections@.len() as int,
        )
    }

    /// Reads what is needed of a binary to find things in it.
    pub fn new(data: Vec<u8>, name: String, path: String) -> (result: Result<Binary, String>)
        ensures
            match binary_error(data@) {
                Some(error) => result matches Err(message) && message@ == error,
                None => {
                    &&& result matches Ok(binary)
                    &&& binary.well_formed()
                    &&& binary.name == name && binary.path == path && binary.data == data
                    &&& macho_file::parsed_format(data@) == Ok::<FileFormat, Seq<char>>(
                        binary.format,
                    )
                    &&& symbol_models(binary.symbols@) == or_nothing(symbols_in(data@))
                    &&& section_models(binary.sections@) == or_nothing(sections_in(data@))
                },
            },
    {
        let format = match file_format(data.as_slice()) {
            Err(error) => {
                return Err(error);
            },
            Ok(format) => format,
        };
        let sections = match list_sections(data.as_slice()) {
            Some(sections) => sections,
            None => Vec::new(),
        };
        assert(section_models(sections@) =~= or_nothing(sections_in(data@)));
        let sections_by_name = match index_sections(&sections) {
            Err(error) => {
                return Err(error);
            },
            Ok(map) => map,
        };
        let symbols = match list_symbols(data.as_slice()) {
            Some(symbols) => symbols,
            None => Vec::new(),
        };
        assert(symbol_models(symbols@) =~= or_nothing(symbols_in(data@)));
        let dynamic = match list_dynamic_symbols(data.as_slice()) {
            Some(symbols) => symbols,
            None => Vec::new(),
        };
        let name_index = NameIndex::new(&symbols, &dynamic);
        Ok(
            Binary {
                name,
                path,
                format,
                data,
                symbols,
                sections,
                name_index,
                sections_by_name,
            },
        )
    }

    fn lookup_symbol(&self, symbol_map: &NameMap, name: &[u8], hint_address: u64) -> (result:
        NameLookupResult)
        requires
            forall|i: int|
                0 <= i < entry_of(symbol_map@, name@).len() ==> (#[trigger] entry_of(
                    symbol_map@,
                    name@,
                )[i]) < self.symbols@.len(),
        ensures
            result == found_among(
                symbol_models(self.symbols@),
                entry_of(symbol_map@, name@),
                hint_address,
            ),
    {
        let ghost models = symbol_models(self.symbols@);
        let positions = match name_map_get(symbol_map, name) {
            Some(positions) => positions,
            None => {
                return NameLookupResult::Undefined;
            },
        };
        assert(positions@ == entry_of(symbol_map@, name@));
        if positions.len() >= 2 {
            let mut i: usize = 0;
            while i < positions.len()
                invariant
                    i <= positions@.len(),
                    models == symbol_models(self.symbols@),
                    forall|k: int|
                        0 <= k < positions@.len() ==> (#[trigger] positions@[k])
                            < self.symbols@.len(),
                    first_at(models, positions@, hint_address, 0) == first_at(
                        models,
                        positions@,
                        hint_address,
                        i as int,
                    ),
                    positions@.len() >= 2,
                    positions@ == entry_of(symbol_map@, name@),
                decreases positions@.len() - i,
            {
                let at = positions[i];
                assert(models[at as int] == self.symbols@[at as int]@);
                if self.symbols[at].address == hint_address {
                    return NameLookupResult::Defined(at);
                }
                i = i + 1;
            }
            return NameLookupResult::Duplicate;
        }
        if positions.len() == 1 {
            NameLookupResult::Defined(positions[0])
        } else {
            NameLookupResult::Undefined
        }
    }

    /// Looks a symbol up: a global, or failing that a local. If several have the name, the address
    /// says which of them is meant.
    pub fn symbol_by_name(&self, name: &[u8], hint_address: u64) -> (result: NameLookupResult)
        requires
            self.well_formed(),
        ensures
            result == looked_up(symbol_models(self.symbols@), name@, hint_address),
    {
        let ghost models = symbol_models(self.symbols@);
        let total: usize = self.symbols.len();
        proof {
            lemma_positions(global_names(models), name@, total as int);
            lemma_positions(local_names(models), name@, total as int);
            assert(entry_of(self.name_index.globals_by_name@, name@) == positions_of(
                global_names(models),
                name@,
                total as int,
            ));
            assert(entry_of(self.name_index.locals_by_name@, name@) == positions_of(
                local_names(models),
                name@,
                total as int,
            ));
        }
        let global = self.lookup_symbol(&self.name_index.globals_by_name, name, hint_address);
        match global {
            NameLookupResult::Undefined => self.lookup_symbol(
                &self.name_index.locals_by_name,
                name,
                hint_address,
            ),
            other => other,
        }
    }

    /// Finds a section by its name. If several have it, the last of them is found.
    pub fn section_by_name_bytes(&self, name: &[u8]) -> (found: Option<usize>)
        requires
            self.well_formed(),
        ensures
            ({
                let positions = positions_of(
                    section_names(section_models(self.sections@)),
                    name@,
                    self.sections@.len() as int,
                );
                if positions.len() == 0 {
                    found is None
                } else {
                    found == Some(positions.last())
                }
            }),
    {
        assert(entry_of(self.sections_by_name@, name@) == positions_of(
            section_names(section_models(self.sections@)),
            name@,
            self.sections@.len() as int,
        ));
        match name_map_get(&self.sections_by_name, name) {
            None => None,
            Some(positions) => {
                let count: usize = positions.len();
                if count == 0 {
                    None
                } else {
                    Some(positions[count - 1])
                }
            },
        }
    }

    /// Finds a section by its name.
    pub fn section_by_name(&self, name: &str) -> (found: Option<usize>)
        requires
            self.well_formed(),
        ensures
            ({
                let positions = positions_of(
                    section_names(section_models(self.sections@)),
                    vstd::utf8::encode_utf8(name@),
                    self.sections@.len() as int,
                );
                if positions.len() == 0 {
                    found is None
                } else {
                    found == Some(positions.last())
                }
            }),
    {
        self.section_by_name_bytes(name.as_bytes())
    }

    /// Finds the first section that holds the address.
    pub fn section_containing_address(&self, address: u64) -> (found: Option<usize>)
        ensures
            match section_at(section_models(self.sections@), address, 0) {
                Some(i) => found matches Some(k) && k == i && k < self.sections@.len(),
                None => found is None,
            },
    {
        let ghost models = section_models(self.sections@);
        let mut i: usize = 0;
        while i < self.sections.len()
            invariant
                i <= self.sections@.len(),
                models == section_models(self.sections@),
                section_at(models, address, 0) == section_at(models, address, i as int),
            decreases self.sections@.len() - i,
        {
            let section = &self.sections[i];
            assert(models[i as int] == section@);
            let end = section.address.wrapping_add(section.size);
            if section.address <= address && address < end {
                return Some(i);
            }
            i = i + 1;
        }
        None
    }

    /// Returns the name of the section that holds the address, if it is text. Every section may be
    /// looked at, so this is for messages.
    pub fn section_name_containing_address(&self, address: u64) -> (name: Option<&str>)
        ensures
            match section_at(section_models(self.sections@), address, 0) {
                Some(i) => match section_models(self.sections@)[i].text {
                    Some(text) => name matches Some(found) && found@ == text,
                    None => name is None,
                },
                None => name is None,
            },
    {
        match self.section_containing_address(address) {
            None => None,
            Some(i) => {
                let section = &self.sections[i];
                assert(section_models(self.sections@)[i as int] == section@);
                match &section.text {
                    None => None,
                    Some(text) => Some(text.as_str()),
                }
            },
        }
    }
}

/// A symbol that is found has the name that was looked for, and where several have it, the address
/// that was hinted at.
pub proof fn law_lookup_finds_what_was_named(
    symbols: Seq<BinarySymbolModel>,
    name: Seq<u8>,
    hint_address: u64,
    i: usize,
)
    requires
        symbols.len() <= usize::MAX,
        looked_up(symbols, name, hint_address) == NameLookupResult::Defined(i),
    ensures
        i < symbols.len(),
        indexed_name(symbols[i as int]) == Some(name),
        symbols[i as int].address == hint_address || positions_of(
            global_names(symbols),
            name,
            symbols.len() as int,
        ).len() == 1 || positions_of(local_names(symbols), name, symbols.len() as int).len() == 1,
{
    let n = symbols.len() as int;
    let globals = positions_of(global_names(symbols), name, n);
    let locals = positions_of(local_names(symbols), name, n);
    lemma_positions(global_names(symbols), name, n);
    lemma_positions(local_names(symbols), name, n);
    if globals.len() > 0 {
        lemma_found(symbols, globals, hint_address, i);
    } else {
        lemma_found(symbols, locals, hint_address, i);
    }
}

proof fn lemma_first_at(
    symbols: Seq<BinarySymbolModel>,
    positions: Seq<usize>,
    address: u64,
    k: int,
)
    requires
        0 <= k,
        first_at(symbols, positions, address, k) is Some,
    ensures
        symbols[first_at(symbols, positions, address, k)->0 as int].address == address,
        exists|j: int|
            0 <= j < positions.len() && #[trigger] positions[j] == first_at(
                symbols,
                positions,
                address,
                k,
            )->0,
    decreases positions.len() - k,
{
    if symbols[positions[k] as int].address != address {
        lemma_first_at(symbols, positions, address, k + 1);
    }
}

proof fn lemma_found(
    symbols: Seq<BinarySymbolModel>,
    positions: Seq<usize>,
    hint_address: u64,
    i: usize,
)
    requires
        found_among(symbols, positions, hint_address) == NameLookupResult::Defined(i),
    ensures
        exists|j: int| 0 <= j < positions.len() && #[trigger] positions[j] == i,
        positions.len() == 1 || symbols[i as int].address == hint_address,
{
    if positions.len() >= 2 {
        lemma_first_at(symbols, positions, hint_address, 0);
    } else {
        assert(positions[0] == i);
    }
}

} // verus!
