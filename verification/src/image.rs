//! What a checker needs to know of a linked image: its segments and sections, the libraries it
//! loads, and the symbols that addresses can be named by.
use crate::text::append_hex;
use crate::text::from_chars;
use crate::text::to_chars;
use crate::text;
use vstd::prelude::*;

verus! {

/// A section, as read from the load commands.
pub struct SectionInfo {
    pub segment_name: String,
    pub name: String,
    pub addr: u64,
    pub size: u64,
}

/// A segment, as read from the load commands.
pub struct SegmentInfo {
    pub name: String,
    pub vmaddr: u64,
    pub vmsize: u64,
    pub fileoff: u64,
    pub filesize: u64,
    pub sections: Vec<SectionInfo>,
}

/// The parts of an image that its fixups are interpreted against.
pub struct ImageInfo {
    /// The address of the mach header, which everything in the fixups is relative to.
    pub image_base: u64,
    pub segments: Vec<SegmentInfo>,
    /// Install names of the libraries, in load-command order. Ordinals count from one.
    pub dylibs: Vec<String>,
    /// Where the fixups are in the file, if there are any.
    pub fixups_data: Option<(u64, u64)>,
}

/// A symbol that an address can be named by.
pub struct SymbolInfo {
    pub address: u64,
    /// `None` if the name can't be read.
    pub name: Option<String>,
    /// Whether the symbol is defined in a section.
    pub has_section: bool,
}

/// A section as a mathematical value.
pub struct SectionModel {
    pub segment_name: Seq<char>,
    pub name: Seq<char>,
    pub addr: u64,
    pub size: u64,
}

/// A segment as a mathematical value.
pub struct SegmentModel {
    pub name: Seq<char>,
    pub vmaddr: u64,
    pub vmsize: u64,
    pub fileoff: u64,
    pub filesize: u64,
    pub sections: Seq<SectionModel>,
}

/// An image as a mathematical value.
pub struct ImageModel {
    pub image_base: u64,
    pub segments: Seq<SegmentModel>,
    pub dylibs: Seq<Seq<char>>,
    pub fixups_data: Option<(u64, u64)>,
}

/// A symbol as a mathematical value.
pub struct SymbolModel {
    pub address: u64,
    pub name: Option<Seq<char>>,
    pub has_section: bool,
}

impl View for SectionInfo {
    type V = SectionModel;

    open spec fn view(&self) -> SectionModel {
        SectionModel {
            segment_name: self.segment_name@,
            name: self.name@,
            addr: self.addr,
            size: self.size,
        }
    }
}

impl View for SegmentInfo {
    type V = SegmentModel;

    open spec fn view(&self) -> SegmentModel {
        SegmentModel {
            name: self.name@,
            vmaddr: self.vmaddr,
            vmsize: self.vmsize,
            fileoff: self.fileoff,
            filesize: self.filesize,
            sections: Seq::new(self.sections@.len(), |i: int| self.sections@[i]@),
        }
    }
}

impl View for ImageInfo {
    type V = ImageModel;

    open spec fn view(&self) -> ImageModel {
        ImageModel {
            image_base: self.image_base,
            segments: Seq::new(self.segments@.len(), |i: int| self.segments@[i]@),
            dylibs: Seq::new(self.dylibs@.len(), |i: int| self.dylibs@[i]@),
            fixups_data: self.fixups_data,
        }
    }
}

impl View for SymbolInfo {
    type V = SymbolModel;

    open spec fn view(&self) -> SymbolModel {
        SymbolModel {
            address: self.address,
            name: match self.name {
                Some(name) => Some(name@),
                None => None,
            },
            has_section: self.has_section,
        }
    }
}

/// `symbols` as mathematical values.
pub open spec fn symbol_models(symbols: Seq<SymbolInfo>) -> Seq<SymbolModel> {
    Seq::new(symbols.len(), |i: int| symbols[i]@)
}

/// `address` is at or after `start` and before `start` plus `size`.
pub open spec fn spans(start: u64, size: u64, address: u64) -> bool {
    start <= address < start.wrapping_add(size)
}

/// The first of `sections` that spans `address`.
pub open spec fn section_spanning(sections: Seq<SectionModel>, address: u64) -> Option<int>
    decreases sections.len(),
{
    if sections.len() == 0 {
        None
    } else if section_spanning(sections.drop_last(), address) is Some {
        section_spanning(sections.drop_last(), address)
    } else if spans(sections.last().addr, sections.last().size, address) {
        Some(sections.len() - 1)
    } else {
        None
    }
}

impl ImageModel {
    /// The section that `address` is in, among those of the first `n` segments.
    pub open spec fn section_among(self, n: int, address: u64) -> Option<SectionModel>
        decreases n,
    {
        if n <= 0 {
            None
        } else if self.section_among(n - 1, address) is Some {
            self.section_among(n - 1, address)
        } else {
            match section_spanning(self.segments[n - 1].sections, address) {
                Some(i) => Some(self.segments[n - 1].sections[i]),
                None => None,
            }
        }
    }

    /// The section that `address` is in.
    pub open spec fn section_containing(self, address: u64) -> Option<SectionModel> {
        self.section_among(self.segments.len() as int, address)
    }

    /// Where the section that `address` is in starts.
    pub open spec fn section_start(self, address: u64) -> Option<u64> {
        match self.section_containing(address) {
            Some(section) => Some(section.addr),
            None => None,
        }
    }

    /// The segment that `address` is in, among the first `n`.
    pub open spec fn segment_among(self, n: int, address: u64) -> Option<SegmentModel>
        decreases n,
    {
        if n <= 0 {
            None
        } else if self.segment_among(n - 1, address) is Some {
            self.segment_among(n - 1, address)
        } else if spans(self.segments[n - 1].vmaddr, self.segments[n - 1].vmsize, address) {
            Some(self.segments[n - 1])
        } else {
            None
        }
    }

    /// The segment that `address` is in.
    pub open spec fn segment_containing(self, address: u64) -> Option<SegmentModel> {
        self.segment_among(self.segments.len() as int, address)
    }

    /// The name of the library with the supplied ordinal.
    pub open spec fn library_name(self, ordinal: int) -> Seq<char> {
        if ordinal == 0 {
            "self"@
        } else if ordinal == -1 {
            "main-executable"@
        } else if ordinal == -2 {
            "flat-lookup"@
        } else if ordinal == -3 {
            "weak-lookup"@
        } else if 0 < ordinal <= self.dylibs.len() {
            stem(self.dylibs[ordinal - 1])
        } else {
            "<bad-ordinal-"@ + text::signed_decimal(ordinal) + ">"@
        }
    }

    /// The best of the first `n` symbols to describe `address` by: the last one at or before it
    /// that is named and in the same section, the first such if there are several.
    pub open spec fn best_symbol(
        self,
        symbols: Seq<SymbolModel>,
        n: int,
        address: u64,
    ) -> Option<(u64, Seq<char>)>
        decreases n,
    {
        if n <= 0 {
            None
        } else {
            let best = self.best_symbol(symbols, n - 1, address);
            let symbol = symbols[n - 1];
            if symbol.has_section && symbol.address <= address && symbol.name is Some
                && symbol.name->0.len() > 0 && self.section_start(symbol.address)
                == self.section_start(address) && (best is None || symbol.address > (best->0).0) {
                Some((symbol.address, symbol.name->0))
            } else {
                best
            }
        }
    }

    /// A description of `address` that does not depend on where the linker chose to put things.
    pub open spec fn description(self, symbols: Seq<SymbolModel>, address: u64) -> Seq<char> {
        match self.best_symbol(symbols, symbols.len() as int, address) {
            Some((start, name)) => if start == address {
                name
            } else {
                name + "+0x"@ + text::hex((address - start) as nat)
            },
            None => match self.section_containing(address) {
                Some(section) => section.segment_name + "/"@ + section.name,
                None => match self.segment_containing(address) {
                    Some(segment) => segment.name + "/<no-section>"@,
                    None => "<unmapped>"@,
                },
            },
        }
    }
}

fn is_spanned(start: u64, size: u64, address: u64) -> (inside: bool)
    ensures
        inside == spans(start, size, address),
{
    start <= address && address < start.wrapping_add(size)
}

impl ImageInfo {
    /// Returns the section that `address` is in: the first of the first segment that has one.
    pub fn section_containing(&self, address: u64) -> (found: Option<&SectionInfo>)
        ensures
            match found {
                Some(section) => self@.section_containing(address) == Some(section@),
                None => self@.section_containing(address) is None,
            },
    {
        let ghost image = self@;
        let mut k: usize = 0;
        while k < self.segments.len()
            invariant
                image == self@,
                k <= self.segments@.len(),
                image.section_among(k as int, address) is None,
            decreases self.segments@.len() - k,
        {
            let segment = &self.segments[k];
            let ghost sections = image.segments[k as int].sections;
            let mut i: usize = 0;
            assert(sections.take(0) =~= Seq::<SectionModel>::empty());
            while i < segment.sections.len()
                invariant
                    image == self@,
                    k < self.segments@.len(),
                    *segment == self.segments@[k as int],
                    sections == image.segments[k as int].sections,
                    i <= segment.sections@.len(),
                    image.section_among(k as int, address) is None,
                    section_spanning(sections.take(i as int), address) is None,
                decreases segment.sections@.len() - i,
            {
                let section = &segment.sections[i];
                proof {
                    assert(sections[i as int] == section@);
                    assert(sections.take(i + 1).drop_last() =~= sections.take(i as int));
                }
                if is_spanned(section.addr, section.size, address) {
                    proof {
                        lemma_section_spanning(sections, i + 1, address);
                        image.lemma_section_among(k + 1, self.segments@.len() as int, address);
                    }
                    return Some(section);
                }
                i = i + 1;
            }
            assert(sections.take(i as int) =~= sections);
            k = k + 1;
        }
        None
    }

    /// Returns the segment that `address` is in.
    pub fn segment_containing(&self, address: u64) -> (found: Option<&SegmentInfo>)
        ensures
            match found {
                Some(segment) => self@.segment_containing(address) == Some(segment@),
                None => self@.segment_containing(address) is None,
            },
    {
        let ghost image = self@;
        let mut k: usize = 0;
        while k < self.segments.len()
            invariant
                image == self@,
                k <= self.segments@.len(),
                image.segment_among(k as int, address) is None,
            decreases self.segments@.len() - k,
        {
            let segment = &self.segments[k];
            assert(image.segments[k as int] == segment@);
            if is_spanned(segment.vmaddr, segment.vmsize, address) {
                proof {
                    image.lemma_segment_among(k + 1, self.segments@.len() as int, address);
                }
                return Some(segment);
            }
            k = k + 1;
        }
        None
    }

    /// Converts an ordinal from a bind record into a library name. Special ordinals are rendered
    /// symbolically, and libraries by the stem of their install name, since linkers may record
    /// different paths for the same library.
    pub fn library_name(&self, ordinal: i64) -> (name: String)
        ensures
            name@ == self@.library_name(ordinal as int),
    {
        if ordinal == 0 {
            return "self".to_owned();
        }
        if ordinal == -1 {
            return "main-executable".to_owned();
        }
        if ordinal == -2 {
            return "flat-lookup".to_owned();
        }
        if ordinal == -3 {
            return "weak-lookup".to_owned();
        }
        if ordinal > 0 && ((ordinal - 1) as u64) < (self.dylibs.len() as u64) {
            assert(self@.dylibs[ordinal - 1] == self.dylibs@[ordinal - 1]@);
            return install_name_stem(&self.dylibs[(ordinal - 1) as usize]);
        }
        let mut name = "<bad-ordinal-".to_owned();
        text::append_signed(&mut name, ordinal);
        text::append_text(&mut name, ">");
        name
    }
}

proof fn lemma_section_spanning(sections: Seq<SectionModel>, n: int, address: u64)
    requires
        0 <= n <= sections.len(),
        section_spanning(sections.take(n), address) is Some,
    ensures
        section_spanning(sections, address) == section_spanning(sections.take(n), address),
    decreases sections.len(),
{
    if n < sections.len() {
        assert(sections.drop_last().take(n) =~= sections.take(n));
        lemma_section_spanning(sections.drop_last(), n, address);
    } else {
        assert(sections.take(n) =~= sections);
    }
}

impl ImageModel {
    proof fn lemma_section_among(self, a: int, b: int, address: u64)
        requires
            0 <= a <= b,
            self.section_among(a, address) is Some,
        ensures
            self.section_among(b, address) == self.section_among(a, address),
        decreases b,
    {
        if a < b {
            self.lemma_section_among(a, b - 1, address);
        }
    }

    proof fn lemma_segment_among(self, a: int, b: int, address: u64)
        requires
            0 <= a <= b,
            self.segment_among(a, address) is Some,
        ensures
            self.segment_among(b, address) == self.segment_among(a, address),
        decreases b,
    {
        if a < b {
            self.lemma_segment_among(a, b - 1, address);
        }
    }
}

// ---------------------------------------------------------------------------------------------
// Names
// ---------------------------------------------------------------------------------------------

/// Where the last `c` of `text` is.
pub open spec fn last_position(text: Seq<char>, c: char) -> Option<int>
    decreases text.len(),
{
    if text.len() == 0 {
        None
    } else if text.last() == c {
        Some(text.len() - 1)
    } else {
        last_position(text.drop_last(), c)
    }
}

/// What follows the last slash.
pub open spec fn base_name(path: Seq<char>) -> Seq<char> {
    match last_position(path, '/') {
        Some(i) => path.skip(i + 1),
        None => path,
    }
}

/// `text` without `.dylib` at its end.
pub open spec fn without_dylib(text: Seq<char>) -> Seq<char> {
    if ".dylib"@.is_suffix_of(text) {
        text.take(text.len() - 6)
    } else {
        text
    }
}

/// An ASCII letter or digit.
pub open spec fn is_letter_or_digit(c: char) -> bool {
    'a' <= c <= 'z' || 'A' <= c <= 'Z' || '0' <= c <= '9'
}

fn letter_or_digit(c: char) -> (result: bool)
    ensures
        result == is_letter_or_digit(c),
{
    'a' <= c && c <= 'z' || 'A' <= c && c <= 'Z' || '0' <= c && c <= '9'
}

/// The name of a library without its directory, its extension, and a one-letter version.
pub open spec fn stem(install_name: Seq<char>) -> Seq<char> {
    let base = without_dylib(base_name(install_name));
    match last_position(base, '.') {
        Some(i) => if i + 2 == base.len() && is_letter_or_digit(base[i + 1]) {
            base.take(i)
        } else {
            base
        },
        None => base,
    }
}

fn find_last(chars: &Vec<char>, to: usize, c: char) -> (found: Option<usize>)
    requires
        to <= chars@.len(),
    ensures
        match found {
            Some(i) => last_position(chars@.take(to as int), c) == Some(i as int) && i < to,
            None => last_position(chars@.take(to as int), c) is None,
        },
{
    let mut i: usize = to;
    while i > 0
        invariant
            i <= to <= chars@.len(),
            last_position(chars@.take(to as int), c) == last_position(chars@.take(i as int), c),
        decreases i,
    {
        i = i - 1;
        assert(chars@.take(i + 1).drop_last() =~= chars@.take(i as int));
        if chars[i] == c {
            return Some(i);
        }
    }
    None
}

/// `/usr/lib/libSystem.B.dylib` gives `libSystem`.
pub fn install_name_stem(install_name: &str) -> (name: String)
    ensures
        name@ == stem(install_name@),
{
    let chars = to_chars(install_name);
    assert(chars@.take(chars@.len() as int) =~= chars@);
    let from: usize = match find_last(&chars, chars.len(), '/') {
        Some(i) => i + 1,
        None => 0,
    };
    let base_text = from_chars(&chars, from, chars.len());
    let base = to_chars(&base_text);
    assert(base@ =~= base_name(install_name@));
    let mut to: usize = base.len();
    proof {
        reveal_strlit(".dylib");
    }
    if to >= 6 && base[to - 6] == '.' && base[to - 5] == 'd' && base[to - 4] == 'y' && base[to - 3]
        == 'l' && base[to - 2] == 'i' && base[to - 1] == 'b' {
        assert(".dylib"@ =~= base@.subrange(to - 6, to as int));
        to = to - 6;
    } else {
        proof {
            if ".dylib"@.is_suffix_of(base@) {
                let tail = base@.subrange(base@.len() - 6, base@.len() as int);
                assert(tail[0] == '.' && tail[1] == 'd' && tail[2] == 'y' && tail[3] == 'l'
                    && tail[4] == 'i' && tail[5] == 'b');
            }
        }
    }
    let ghost trimmed = without_dylib(base@);
    assert(base@.take(to as int) =~= trimmed);
    if let Some(dot) = find_last(&base, to, '.') {
        if to - dot == 2 && letter_or_digit(base[dot + 1]) {
            assert(trimmed[dot + 1] == base@[dot + 1]);
            assert(base@.subrange(0, dot as int) =~= trimmed.take(dot as int));
            return from_chars(&base, 0, dot);
        }
        proof {
            if to - dot == 2 {
                assert(trimmed[dot + 1] == base@[dot + 1]);
            }
        }
    }
    assert(base@.subrange(0, to as int) =~= trimmed);
    from_chars(&base, 0, to)
}

/// Describes `address` in a way that does not depend on where the linker chose to put things: by
/// the symbol that covers it, else by the section it is in. The fall-back has no offset, since
/// linkers may order anonymous entries differently and that is not a bug.
pub fn describe_address(symbols: &Vec<SymbolInfo>, image: &ImageInfo, address: u64) -> (
    description: String)
    ensures
        description@ == image@.description(symbol_models(symbols@), address),
{
    let ghost models = symbol_models(symbols@);
    let here: Option<u64> = match image.section_containing(address) {
        Some(section) => Some(section.addr),
        None => None,
    };
    let mut best: Option<usize> = None;
    let mut i: usize = 0;
    while i < symbols.len()
        invariant
            models == symbol_models(symbols@),
            here == image@.section_start(address),
            i <= symbols@.len(),
            match best {
                Some(k) => k < i && image@.best_symbol(models, i as int, address) == Some(
                    (symbols@[k as int].address, models[k as int].name->0),
                ) && models[k as int].name is Some && models[k as int].address <= address,
                None => image@.best_symbol(models, i as int, address) is None,
            },
        decreases symbols@.len() - i,
    {
        let symbol = &symbols[i];
        assert(models[i as int] == symbol@);
        let mut is_better = false;
        if symbol.has_section && symbol.address <= address {
            if let Some(name) = &symbol.name {
                if !name.as_str().is_empty() {
                    // Without this the last symbol of one section would cover the start of the
                    // next.
                    let there: Option<u64> = match image.section_containing(symbol.address) {
                        Some(section) => Some(section.addr),
                        None => None,
                    };
                    let same = match (there, here) {
                        (Some(a), Some(b)) => a == b,
                        (None, None) => true,
                        _ => false,
                    };
                    is_better = same && match best {
                        Some(k) => symbol.address > symbols[k].address,
                        None => true,
                    };
                }
            }
        }
        if is_better {
            best = Some(i);
        }
        i = i + 1;
    }
    if let Some(k) = best {
        if let Some(name) = &symbols[k].name {
            let offset = address - symbols[k].address;
            if offset == 0 {
                return name.clone();
            }
            let mut description = name.clone();
            text::append_text(&mut description, "+0x");
            append_hex(&mut description, offset);
            return description;
        }
    }
    match image.section_containing(address) {
        Some(section) => {
            let mut description = section.segment_name.clone();
            text::append_text(&mut description, "/");
            text::append_text(&mut description, section.name.as_str());
            description
        },
        None => match image.segment_containing(address) {
            Some(segment) => {
                let mut description = segment.name.clone();
                text::append_text(&mut description, "/<no-section>");
                description
            },
            None => "<unmapped>".to_owned(),
        },
    }
}

} // verus!
