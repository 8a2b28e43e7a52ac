//! Reads the shape of text-based stub libraries (`.tbd`) that tooling actually emits, without a YAML
//! parser.
//!
//! Being narrow is the point: a file of any other shape is refused, and is left to a YAML parser. This
//! is only ever a fast path, and never the authority on what the format means.
use crate::sorting;
use crate::strings;
use crate::text::from_chars;
use crate::text::same_text;
use crate::text::to_chars;
use vstd::prelude::*;

verus! {

// ---------------------------------------------------------------------------------------------
// Documents
// ---------------------------------------------------------------------------------------------

/// A library that another one is part of.
pub struct ParentUmbrella {
    pub targets: Vec<String>,
    pub umbrella: String,
}

/// Libraries that a library passes on the exports of.
pub struct ReexportedLibraries {
    pub targets: Vec<String>,
    pub libraries: Vec<String>,
}

/// What a library exports on some targets.
pub struct Exports {
    pub targets: Vec<String>,
    pub symbols: Vec<String>,
    pub weak_symbols: Vec<String>,
    /// Objective-C classes. A class is named once here and stands for the several symbols it actually
    /// defines.
    pub objc_classes: Vec<String>,
    /// Instance variables, named `Class.ivar`.
    pub objc_ivars: Vec<String>,
    /// Classes that can be thrown and caught across an image boundary.
    pub objc_eh_types: Vec<String>,
    /// Variables with one instance per thread.
    pub thread_local_symbols: Vec<String>,
}

/// One document of a file: the description of one library.
pub struct TextBasedDefinition {
    pub tbd_version: u32,
    pub targets: Vec<String>,
    pub install_name: String,
    pub current_version: String,
    pub compatibility_version: String,
    pub parent_umbrella: Vec<ParentUmbrella>,
    pub reexported_libraries: Vec<ReexportedLibraries>,
    pub exports: Vec<Exports>,
    pub reexports: Vec<Exports>,
}

pub struct UmbrellaModel {
    pub targets: Seq<Seq<char>>,
    pub umbrella: Seq<char>,
}

pub struct ReexportModel {
    pub targets: Seq<Seq<char>>,
    pub libraries: Seq<Seq<char>>,
}

pub struct ExportsModel {
    pub targets: Seq<Seq<char>>,
    pub symbols: Seq<Seq<char>>,
    pub weak_symbols: Seq<Seq<char>>,
    pub objc_classes: Seq<Seq<char>>,
    pub objc_ivars: Seq<Seq<char>>,
    pub objc_eh_types: Seq<Seq<char>>,
    pub thread_local_symbols: Seq<Seq<char>>,
}

/// The contents of a document.
#[verifier::ext_equal]
pub struct DefinitionModel {
    pub tbd_version: u32,
    pub targets: Seq<Seq<char>>,
    pub install_name: Seq<char>,
    pub current_version: Seq<char>,
    pub compatibility_version: Seq<char>,
    pub parent_umbrella: Seq<UmbrellaModel>,
    pub reexported_libraries: Seq<ReexportModel>,
    pub exports: Seq<ExportsModel>,
    pub reexports: Seq<ExportsModel>,
}

impl View for ParentUmbrella {
    type V = UmbrellaModel;

    open spec fn view(&self) -> UmbrellaModel {
        UmbrellaModel { targets: sorting::texts(self.targets@), umbrella: self.umbrella@ }
    }
}

impl View for ReexportedLibraries {
    type V = ReexportModel;

    open spec fn view(&self) -> ReexportModel {
        ReexportModel {
            targets: sorting::texts(self.targets@),
            libraries: sorting::texts(self.libraries@),
        }
    }
}

impl View for Exports {
    type V = ExportsModel;

    open spec fn view(&self) -> ExportsModel {
        ExportsModel {
            targets: sorting::texts(self.targets@),
            symbols: sorting::texts(self.symbols@),
            weak_symbols: sorting::texts(self.weak_symbols@),
            objc_classes: sorting::texts(self.objc_classes@),
            objc_ivars: sorting::texts(self.objc_ivars@),
            objc_eh_types: sorting::texts(self.objc_eh_types@),
            thread_local_symbols: sorting::texts(self.thread_local_symbols@),
        }
    }
}

/// The views of `items`.
pub open spec fn views<T: View>(items: Seq<T>) -> Seq<T::V> {
    Seq::new(items.len(), |i: int| items[i]@)
}

impl View for TextBasedDefinition {
    type V = DefinitionModel;

    open spec fn view(&self) -> DefinitionModel {
        DefinitionModel {
            tbd_version: self.tbd_version,
            targets: sorting::texts(self.targets@),
            install_name: self.install_name@,
            current_version: self.current_version@,
            compatibility_version: self.compatibility_version@,
            parent_umbrella: views(self.parent_umbrella@),
            reexported_libraries: views(self.reexported_libraries@),
            exports: views(self.exports@),
            reexports: views(self.reexports@),
        }
    }
}

pub open spec fn no_umbrella() -> UmbrellaModel {
    UmbrellaModel { targets: Seq::empty(), umbrella: Seq::empty() }
}

pub open spec fn no_reexports() -> ReexportModel {
    ReexportModel { targets: Seq::empty(), libraries: Seq::empty() }
}

pub open spec fn no_exports() -> ExportsModel {
    ExportsModel {
        targets: Seq::empty(),
        symbols: Seq::empty(),
        weak_symbols: Seq::empty(),
        objc_classes: Seq::empty(),
        objc_ivars: Seq::empty(),
        objc_eh_types: Seq::empty(),
        thread_local_symbols: Seq::empty(),
    }
}

/// A document that says nothing.
pub open spec fn no_definition() -> DefinitionModel {
    DefinitionModel {
        tbd_version: 0,
        targets: Seq::empty(),
        install_name: Seq::empty(),
        current_version: Seq::empty(),
        compatibility_version: Seq::empty(),
        parent_umbrella: Seq::empty(),
        reexported_libraries: Seq::empty(),
        exports: Seq::empty(),
        reexports: Seq::empty(),
    }
}

impl Default for ParentUmbrella {
    fn default() -> (result: Self)
        ensures
            result@ == no_umbrella(),
    {
        let result = ParentUmbrella { targets: Vec::new(), umbrella: String::new() };
        assert(result@.targets =~= Seq::<Seq<char>>::empty());
        result
    }
}

impl Default for ReexportedLibraries {
    fn default() -> (result: Self)
        ensures
            result@ == no_reexports(),
    {
        let result = ReexportedLibraries { targets: Vec::new(), libraries: Vec::new() };
        assert(result@.targets =~= Seq::<Seq<char>>::empty());
        assert(result@.libraries =~= Seq::<Seq<char>>::empty());
        result
    }
}

impl Default for Exports {
    fn default() -> (result: Self)
        ensures
            result@ == no_exports(),
    {
        let result = Exports {
            targets: Vec::new(),
            symbols: Vec::new(),
            weak_symbols: Vec::new(),
            objc_classes: Vec::new(),
            objc_ivars: Vec::new(),
            objc_eh_types: Vec::new(),
            thread_local_symbols: Vec::new(),
        };
        let ghost none = Seq::<Seq<char>>::empty();
        assert(result@.targets =~= none);
        assert(result@.symbols =~= none);
        assert(result@.weak_symbols =~= none);
        assert(result@.objc_classes =~= none);
        assert(result@.objc_ivars =~= none);
        assert(result@.objc_eh_types =~= none);
        assert(result@.thread_local_symbols =~= none);
        result
    }
}

impl Default for TextBasedDefinition {
    fn default() -> (result: Self)
        ensures
            result@ == no_definition(),
    {
        let result = TextBasedDefinition {
            tbd_version: 0,
            targets: Vec::new(),
            install_name: String::new(),
            current_version: String::new(),
            compatibility_version: String::new(),
            parent_umbrella: Vec::new(),
            reexported_libraries: Vec::new(),
            exports: Vec::new(),
            reexports: Vec::new(),
        };
        assert(result@ =~= no_definition());
        result
    }
}

// ---------------------------------------------------------------------------------------------
// Scalars and lists
// ---------------------------------------------------------------------------------------------

/// What a scalar stands for. One that would need rewriting to read, because of an escape or a quote
/// in it, is refused.
pub open spec fn unquoted(value: Seq<char>) -> Option<Seq<char>> {
    if value.len() > 0 && (value[0] == '\'' || value[0] == '"') {
        let inner = value.subrange(1, value.len() - 1);
        if value.len() < 2 || value.last() != value[0] || inner.contains(value[0]) || value[0]
            == '"' && inner.contains('\\') {
            None
        } else {
            Some(inner)
        }
    } else if value.contains('#') || value.contains('\'') || value.contains('"') || value.len() > 0
        && (value[0] == '&' || value[0] == '*' || value[0] == '!' || value[0] == '{' || value[0]
        == '}') {
        None
    } else {
        Some(value)
    }
}

fn holds(chars: &[char], c: char) -> (found: bool)
    ensures
        found == chars@.contains(c),
{
    let mut i: usize = 0;
    while i < chars.len()
        invariant
            i <= chars@.len(),
            forall|k: int| 0 <= k < i ==> chars@[k] != c,
        decreases chars@.len() - i,
    {
        if chars[i] == c {
            assert(chars@[i as int] == c);
            return true;
        }
        i = i + 1;
    }
    false
}

fn unquote_chars(value: &Vec<char>) -> (result: Option<Vec<char>>)
    ensures
        match result {
            Some(inner) => unquoted(value@) == Some(inner@),
            None => unquoted(value@) is None,
        },
{
    let total: usize = value.len();
    if total > 0 && (value[0] == '\'' || value[0] == '"') {
        let quote = value[0];
        if total < 2 || value[total - 1] != quote {
            return None;
        }
        let inner = strings::copy_chars(value.as_slice(), 1, total - 1);
        if holds(inner.as_slice(), quote) || quote == '"' && holds(inner.as_slice(), '\\') {
            return None;
        }
        return Some(inner);
    }
    if holds(value.as_slice(), '#') || holds(value.as_slice(), '\'') || holds(
        value.as_slice(),
        '"',
    ) {
        return None;
    }
    if total > 0 && (value[0] == '&' || value[0] == '*' || value[0] == '!' || value[0] == '{'
        || value[0] == '}') {
        return None;
    }
    let copy = strings::copy_chars(value.as_slice(), 0, total);
    assert(copy@ =~= value@);
    Some(copy)
}

/// Strips the quotes from a scalar, refusing any that would need rewriting to read.
pub fn unquote(value: &str) -> (result: Option<String>)
    ensures
        match result {
            Some(inner) => unquoted(value@) == Some(inner@),
            None => unquoted(value@) is None,
        },
{
    let chars = to_chars(value);
    match unquote_chars(&chars) {
        None => None,
        Some(inner) => {
            let result = from_chars(&inner, 0, inner.len());
            assert(result@ =~= inner@);
            Some(result)
        },
    }
}

/// What the rest of a list from `i` on adds to `elements`. The current element starts at `start`, and
/// `quote` is the quote that is open.
pub open spec fn elements_from(
    inner: Seq<char>,
    i: int,
    start: int,
    quote: Option<char>,
    elements: Seq<Seq<char>>,
) -> Option<Seq<Seq<char>>>
    decreases inner.len() - i,
{
    if i >= inner.len() {
        let last = strings::trimmed(inner.skip(start));
        if quote is Some {
            None
        } else if last.len() == 0 {
            if elements.len() > 0 {
                None
            } else {
                Some(elements)
            }
        } else {
            match unquoted(last) {
                None => None,
                Some(element) => Some(elements.push(element)),
            }
        }
    } else {
        let c = inner[i];
        match quote {
            Some(open) => elements_from(
                inner,
                i + 1,
                start,
                if c == open {
                    None
                } else {
                    quote
                },
                elements,
            ),
            None => if c == '\'' || c == '"' {
                elements_from(inner, i + 1, start, Some(c), elements)
            } else if c == ',' {
                let element = strings::trimmed(inner.subrange(start, i));
                if element.len() == 0 {
                    None
                } else {
                    match unquoted(element) {
                        None => None,
                        Some(element) => elements_from(
                            inner,
                            i + 1,
                            i + 1,
                            None,
                            elements.push(element),
                        ),
                    }
                }
            } else {
                elements_from(inner, i + 1, start, None, elements)
            },
        }
    }
}

/// The elements of a list `[ a, b, c ]`. Nothing between two commas, or after the last one, is
/// refused.
pub open spec fn flow_sequence(value: Seq<char>) -> Option<Seq<Seq<char>>> {
    if value.len() < 2 || value[0] != '[' || value.last() != ']' {
        None
    } else {
        elements_from(value.subrange(1, value.len() - 1), 0, 0, None, Seq::empty())
    }
}

/// Splits `[ a, b, c ]` into its elements.
pub fn parse_flow_sequence(value: &str) -> (result: Option<Vec<String>>)
    ensures
        match result {
            Some(elements) => flow_sequence(value@) == Some(sorting::texts(elements@)),
            None => flow_sequence(value@) is None,
        },
{
    let chars = to_chars(value);
    let total: usize = chars.len();
    if total < 2 || chars[0] != '[' || chars[total - 1] != ']' {
        return None;
    }
    let inner = strings::copy_chars(chars.as_slice(), 1, total - 1);
    let len: usize = inner.len();
    let mut elements: Vec<String> = Vec::new();
    let mut quote: Option<char> = None;
    let mut start: usize = 0;
    let mut i: usize = 0;
    assert(sorting::texts(elements@) =~= Seq::<Seq<char>>::empty());
    while i < len
        invariant
            start <= i <= len == inner@.len(),
            flow_sequence(value@) == elements_from(
                inner@,
                i as int,
                start as int,
                quote,
                sorting::texts(elements@),
            ),
        decreases len - i,
    {
        let c = inner[i];
        match quote {
            Some(open) => {
                if c == open {
                    quote = None;
                }
            },
            None => {
                if c == '\'' || c == '"' {
                    quote = Some(c);
                } else if c == ',' {
                    let piece = strings::copy_chars(inner.as_slice(), start, i);
                    let element = strings::trim(piece.as_slice());
                    if element.len() == 0 {
                        return None;
                    }
                    match unquote_chars(&element) {
                        None => {
                            return None;
                        },
                        Some(plain) => {
                            let ghost before = elements@;
                            let text = from_chars(&plain, 0, plain.len());
                            assert(text@ =~= plain@);
                            elements.push(text);
                            assert(sorting::texts(elements@) =~= sorting::texts(before).push(
                                plain@,
                            ));
                        },
                    }
                    start = i + 1;
                }
            },
        }
        i = i + 1;
    }
    if quote.is_some() {
        return None;
    }
    let piece = strings::copy_chars(inner.as_slice(), start, len);
    assert(piece@ =~= inner@.skip(start as int));
    let last = strings::trim(piece.as_slice());
    if last.len() == 0 {
        if elements.len() > 0 {
            return None;
        }
        return Some(elements);
    }
    match unquote_chars(&last) {
        None => None,
        Some(plain) => {
            let ghost before = elements@;
            let text = from_chars(&plain, 0, plain.len());
            assert(text@ =~= plain@);
            elements.push(text);
            assert(sorting::texts(elements@) =~= sorting::texts(before).push(plain@));
            Some(elements)
        },
    }
}

// ---------------------------------------------------------------------------------------------
// Values
// ---------------------------------------------------------------------------------------------

/// Where the first newline from `at` on is, or the end of the text.
pub open spec fn line_end(text: Seq<char>, at: int) -> int
    decreases text.len() - at,
{
    if at >= text.len() {
        text.len() as int
    } else if text[at] == '\n' {
        at
    } else {
        line_end(text, at + 1)
    }
}

/// Where the first character from `at` on is that is neither a space nor a tab.
pub open spec fn after_blanks(text: Seq<char>, at: int) -> int
    decreases text.len() - at,
{
    if at < text.len() && (text[at] == ' ' || text[at] == '\t') {
        after_blanks(text, at + 1)
    } else {
        at
    }
}

/// Where the list that is open at `at` is closed, `depth` brackets deep and within `quote`.
pub open spec fn list_end(text: Seq<char>, at: int, depth: nat, quote: Option<char>) -> Option<int>
    decreases text.len() - at,
{
    if at >= text.len() {
        None
    } else {
        let c = text[at];
        match quote {
            Some(open) => list_end(
                text,
                at + 1,
                depth,
                if c == open {
                    None
                } else {
                    quote
                },
            ),
            None => if c == '\'' || c == '"' {
                list_end(text, at + 1, depth, Some(c))
            } else if c == '[' {
                list_end(text, at + 1, depth + 1, None)
            } else if c == ']' {
                if depth == 1 {
                    Some(at)
                } else {
                    list_end(text, at + 1, (depth - 1) as nat, None)
                }
            } else {
                list_end(text, at + 1, depth, None)
            },
        }
    }
}

/// What follows a `key:` that ends at `start`, and where it ends. A list is followed to its closing
/// bracket however many lines that takes.
pub open spec fn value_at(text: Seq<char>, start: int) -> Option<(Seq<char>, int)> {
    let at = after_blanks(text, start);
    if at >= text.len() || text[at] == '\n' {
        Some((Seq::empty(), at))
    } else if text[at] == '[' {
        match list_end(text, at, 0, None) {
            None => None,
            Some(end) => Some((text.subrange(at, end + 1), end + 1)),
        }
    } else {
        let end = line_end(text, at);
        let value = strings::without_trailing_space(text.subrange(at, end));
        if value.contains('#') {
            None
        } else {
            Some((value, end))
        }
    }
}

pub proof fn lemma_line_end(text: Seq<char>, at: int)
    requires
        0 <= at <= text.len(),
    ensures
        at <= line_end(text, at) <= text.len(),
    decreases text.len() - at,
{
    if at < text.len() && text[at] != '\n' {
        lemma_line_end(text, at + 1);
    }
}

proof fn lemma_after_blanks(text: Seq<char>, at: int)
    requires
        0 <= at <= text.len(),
    ensures
        at <= after_blanks(text, at) <= text.len(),
    decreases text.len() - at,
{
    if at < text.len() && (text[at] == ' ' || text[at] == '\t') {
        lemma_after_blanks(text, at + 1);
    }
}

proof fn lemma_list_end(text: Seq<char>, at: int, depth: nat, quote: Option<char>)
    requires
        0 <= at <= text.len(),
    ensures
        list_end(text, at, depth, quote) matches Some(end) ==> at <= end < text.len(),
    decreases text.len() - at,
{
    if at < text.len() {
        let c = text[at];
        if quote is Some {
            lemma_list_end(
                text,
                at + 1,
                depth,
                if Some(c) == quote {
                    None
                } else {
                    quote
                },
            );
        } else if c == '\'' || c == '"' {
            lemma_list_end(text, at + 1, depth, Some(c));
        } else if c == '[' {
            lemma_list_end(text, at + 1, depth + 1, None);
        } else if c == ']' {
            if depth != 1 {
                lemma_list_end(text, at + 1, (depth - 1) as nat, None);
            }
        } else {
            lemma_list_end(text, at + 1, depth, None);
        }
    }
}

pub(crate) proof fn lemma_value_at(text: Seq<char>, start: int)
    requires
        0 <= start <= text.len(),
    ensures
        value_at(text, start) matches Some((_, end)) ==> start <= end <= text.len(),
{
    lemma_after_blanks(text, start);
    let at = after_blanks(text, start);
    lemma_line_end(text, at);
    lemma_list_end(text, at, 0, None);
}

fn find_line_end(text: &Vec<char>, at: usize) -> (end: usize)
    requires
        at <= text@.len(),
    ensures
        end == line_end(text@, at as int),
        at <= end <= text@.len(),
{
    let total: usize = text.len();
    let mut end: usize = at;
    while end < total && text[end] != '\n'
        invariant
            at <= end <= total == text@.len(),
            line_end(text@, at as int) == line_end(text@, end as int),
        decreases total - end,
    {
        end = end + 1;
    }
    end
}

fn find_list_end(text: &Vec<char>, at: usize) -> (result: Option<usize>)
    requires
        at < text@.len(),
        text@[at as int] == '[',
    ensures
        match result {
            Some(end) => list_end(text@, at as int, 0, None) == Some(end as int) && at <= end
                < text@.len(),
            None => list_end(text@, at as int, 0, None) is None,
        },
{
    let total: usize = text.len();
    let mut depth: usize = 1;
    let mut quote: Option<char> = None;
    let mut end: usize = at + 1;
    while end < total
        invariant
            at < end <= total == text@.len(),
            1 <= depth <= end,
            list_end(text@, at as int, 0, None) == list_end(
                text@,
                end as int,
                depth as nat,
                quote,
            ),
        decreases total - end,
    {
        let c = text[end];
        match quote {
            Some(open) => {
                if c == open {
                    quote = None;
                }
            },
            None => {
                if c == '\'' || c == '"' {
                    quote = Some(c);
                } else if c == '[' {
                    depth = depth + 1;
                } else if c == ']' {
                    if depth == 1 {
                        return Some(end);
                    }
                    depth = depth - 1;
                }
            },
        }
        end = end + 1;
    }
    None
}

/// Reads what follows a `key:`, returning it and where it ended.
///
/// A list is followed to its closing bracket however many lines that takes, which is what keeps the
/// caller line-oriented: it never sees the continuation of a value as a line of its own.
pub fn read_value(text: &Vec<char>, start: usize) -> (result: Option<(Vec<char>, usize)>)
    requires
        start <= text@.len(),
    ensures
        match result {
            Some((value, end)) => value_at(text@, start as int) == Some((value@, end as int))
                && start <= end <= text@.len(),
            None => value_at(text@, start as int) is None,
        },
{
    let total: usize = text.len();
    proof {
        lemma_value_at(text@, start as int);
    }
    let at = skip_blanks(text, start);
    if at >= total || text[at] == '\n' {
        let value: Vec<char> = Vec::new();
        assert(value@ =~= Seq::<char>::empty());
        return Some((value, at));
    }
    if text[at] == '[' {
        match find_list_end(text, at) {
            None => {
                return None;
            },
            Some(end) => {
                return Some((strings::copy_chars(text.as_slice(), at, end + 1), end + 1));
            },
        }
    }
    let end = find_line_end(text, at);
    let mut to: usize = end;
    let ghost line = text@.subrange(at as int, end as int);
    while at < to && strings::is_white_space(text[to - 1])
        invariant
            at <= to <= end <= total == text@.len(),
            line == text@.subrange(at as int, end as int),
            strings::without_trailing_space(line) == strings::without_trailing_space(
                text@.subrange(at as int, to as int),
            ),
        decreases to - at,
    {
        assert(text@.subrange(at as int, to as int).drop_last() =~= text@.subrange(
            at as int,
            to - 1,
        ));
        to = to - 1;
    }
    let value = strings::copy_chars(text.as_slice(), at, to);
    // A `#` here would start a comment, which would mean the value is not what it looks like.
    if holds(value.as_slice(), '#') {
        return None;
    }
    Some((value, end))
}

// ---------------------------------------------------------------------------------------------
// Files
// ---------------------------------------------------------------------------------------------

/// Which block sequence the lines being read belong to.
#[derive(Clone, Copy, Debug, PartialEq, Eq, Structural)]
pub enum Section {
    /// Not inside one.
    Ignored,
    /// Inside one that there is no use for.
    Unused,
    ParentUmbrella,
    ReexportedLibraries,
    Exports,
    Reexports,
}

/// The block sequence that a key opens.
pub open spec fn section_of(key: Seq<char>) -> Section {
    if key == "parent-umbrella"@ {
        Section::ParentUmbrella
    } else if key == "reexported-libraries"@ {
        Section::ReexportedLibraries
    } else if key == "exports"@ {
        Section::Exports
    } else if key == "reexports"@ {
        Section::Reexports
    } else {
        Section::Ignored
    }
}

/// The key is one whose value is text, a number or a list.
pub open spec fn has_value(key: Seq<char>) -> bool {
    key == "tbd-version"@ || key == "targets"@ || key == "install-name"@ || key
        == "current-version"@ || key == "compatibility-version"@
}

/// Where the lines below a key belong. There is no use for what is below a key that is not known, and
/// nothing belongs below a key with a value.
pub open spec fn section_below(key: Seq<char>, value: Seq<char>) -> Section {
    if section_of(key) == Section::Ignored && !has_value(key) && value.len() == 0 {
        Section::Unused
    } else {
        section_of(key)
    }
}

/// What a key at the start of a line makes of a document. A key that is not known is ignored.
pub open spec fn with_key(document: DefinitionModel, key: Seq<char>, value: Seq<char>) -> Option<
    DefinitionModel,
> {
    if key == "tbd-version"@ {
        match strings::number(value, 10, u32::MAX as nat) {
            Ok(number) => Some(DefinitionModel { tbd_version: number as u32, ..document }),
            Err(_) => None,
        }
    } else if key == "targets"@ {
        match flow_sequence(value) {
            None => None,
            Some(targets) => Some(DefinitionModel { targets, ..document }),
        }
    } else if key == "install-name"@ {
        match unquoted(value) {
            None => None,
            Some(install_name) => Some(DefinitionModel { install_name, ..document }),
        }
    } else if key == "current-version"@ {
        match unquoted(value) {
            None => None,
            Some(current_version) => Some(DefinitionModel { current_version, ..document }),
        }
    } else if key == "compatibility-version"@ {
        match unquoted(value) {
            None => None,
            Some(compatibility_version) => Some(
                DefinitionModel { compatibility_version, ..document },
            ),
        }
    } else if section_of(key) != Section::Ignored && value.len() > 0 {
        // What follows a key that opens a sequence on the same line is not one.
        None
    } else {
        Some(document)
    }
}

/// What a key makes of an item of `parent-umbrella`.
pub open spec fn with_umbrella_key(item: UmbrellaModel, key: Seq<char>, value: Seq<char>) -> Option<
    UmbrellaModel,
> {
    if key == "targets"@ {
        match flow_sequence(value) {
            None => None,
            Some(targets) => Some(UmbrellaModel { targets, ..item }),
        }
    } else if key == "umbrella"@ {
        match unquoted(value) {
            None => None,
            Some(umbrella) => Some(UmbrellaModel { umbrella, ..item }),
        }
    } else {
        Some(item)
    }
}

/// What a key makes of an item of `reexported-libraries`.
pub open spec fn with_reexport_key(item: ReexportModel, key: Seq<char>, value: Seq<char>) -> Option<
    ReexportModel,
> {
    if key == "targets"@ {
        match flow_sequence(value) {
            None => None,
            Some(targets) => Some(ReexportModel { targets, ..item }),
        }
    } else if key == "libraries"@ {
        match flow_sequence(value) {
            None => None,
            Some(libraries) => Some(ReexportModel { libraries, ..item }),
        }
    } else {
        Some(item)
    }
}

/// What a key makes of an item of `exports` or `reexports`.
pub open spec fn with_export_key(item: ExportsModel, key: Seq<char>, value: Seq<char>) -> Option<
    ExportsModel,
> {
    if key == "targets"@ {
        match flow_sequence(value) {
            None => None,
            Some(list) => Some(ExportsModel { targets: list, ..item }),
        }
    } else if key == "symbols"@ {
        match flow_sequence(value) {
            None => None,
            Some(list) => Some(ExportsModel { symbols: list, ..item }),
        }
    } else if key == "weak-symbols"@ {
        match flow_sequence(value) {
            None => None,
            Some(list) => Some(ExportsModel { weak_symbols: list, ..item }),
        }
    } else if key == "objc-classes"@ {
        match flow_sequence(value) {
            None => None,
            Some(list) => Some(ExportsModel { objc_classes: list, ..item }),
        }
    } else if key == "objc-ivars"@ {
        match flow_sequence(value) {
            None => None,
            Some(list) => Some(ExportsModel { objc_ivars: list, ..item }),
        }
    } else if key == "objc-eh-types"@ {
        match flow_sequence(value) {
            None => None,
            Some(list) => Some(ExportsModel { objc_eh_types: list, ..item }),
        }
    } else if key == "thread-local-symbols"@ {
        match flow_sequence(value) {
            None => None,
            Some(list) => Some(ExportsModel { thread_local_symbols: list, ..item }),
        }
    } else {
        Some(item)
    }
}

/// `items` with a new item if one is opened.
pub open spec fn with_item<T>(items: Seq<T>, is_new_item: bool, fresh: T) -> Seq<T> {
    if is_new_item {
        items.push(fresh)
    } else {
        items
    }
}

/// `items` with the last one replaced. `None` if there is none, or nothing to replace it with.
pub open spec fn with_last<T>(items: Seq<T>, item: Option<T>) -> Option<Seq<T>> {
    if items.len() == 0 {
        None
    } else {
        match item {
            None => None,
            Some(item) => Some(items.update(items.len() - 1, item)),
        }
    }
}

/// What an indented line makes of a document. Without a section, or an item, to belong to, the line is
/// refused.
pub open spec fn with_line(
    document: DefinitionModel,
    section: Section,
    is_new_item: bool,
    key: Seq<char>,
    value: Seq<char>,
) -> Option<DefinitionModel> {
    match section {
        Section::Ignored | Section::Unused => None,
        Section::ParentUmbrella => {
            let items = with_item(document.parent_umbrella, is_new_item, no_umbrella());
            match with_last(items, with_umbrella_key(items.last(), key, value)) {
                None => None,
                Some(parent_umbrella) => Some(DefinitionModel { parent_umbrella, ..document }),
            }
        },
        Section::ReexportedLibraries => {
            let items = with_item(document.reexported_libraries, is_new_item, no_reexports());
            match with_last(items, with_reexport_key(items.last(), key, value)) {
                None => None,
                Some(reexported_libraries) => Some(
                    DefinitionModel { reexported_libraries, ..document },
                ),
            }
        },
        Section::Exports => {
            let items = with_item(document.exports, is_new_item, no_exports());
            match with_last(items, with_export_key(items.last(), key, value)) {
                None => None,
                Some(exports) => Some(DefinitionModel { exports, ..document }),
            }
        },
        Section::Reexports => {
            let items = with_item(document.reexports, is_new_item, no_exports());
            match with_last(items, with_export_key(items.last(), key, value)) {
                None => None,
                Some(reexports) => Some(DefinitionModel { reexports, ..document }),
            }
        },
    }
}

/// Where the first character from `at` on is that is not white space, up to `end`.
pub open spec fn after_space(text: Seq<char>, at: int, end: int) -> int
    decreases end - at,
{
    if at < end && strings::is_white(text[at]) {
        after_space(text, at + 1, end)
    } else {
        at
    }
}

/// Where the white space before `end` starts, down to `at`.
pub open spec fn before_space(text: Seq<char>, at: int, end: int) -> int
    decreases end - at,
{
    if at < end && strings::is_white(text[end - 1]) {
        before_space(text, at, end - 1)
    } else {
        end
    }
}

/// A line that is neither empty nor a comment nor a marker.
pub struct LineModel {
    /// How far the line's contents are from its start.
    pub column: int,
    /// Whether the line opens an item of a sequence.
    pub is_new_item: bool,
    pub key: Seq<char>,
    /// How far the key is from the start of the line.
    pub key_column: int,
    /// Where the value starts, directly behind the colon.
    pub value_start: int,
}

/// The character separates words of a line, or comes before the end of one.
pub open spec fn is_blank(c: char) -> bool {
    c == ' ' || c == '\t' || c == '\r'
}

/// There are only blanks from `from` up to `to`.
pub open spec fn are_blank(text: Seq<char>, from: int, to: int) -> bool {
    forall|i: int| from <= i < to ==> is_blank(#[trigger] text[i])
}

/// There are only spaces from `from` up to `to`.
pub open spec fn are_spaces(text: Seq<char>, from: int, to: int) -> bool {
    forall|i: int| from <= i < to ==> #[trigger] text[i] == ' '
}

/// The character can be in a key.
pub open spec fn is_key_char(c: char) -> bool {
    c != ' ' && c != '\t' && c != '\'' && c != '"'
}

/// The character can be the first one of a key. Others would make it something else than text.
pub open spec fn is_key_start(c: char) -> bool {
    !strings::is_white(c) && c != ',' && c != '[' && c != ']' && c != '{' && c != '}' && c != '#' && c
        != '&' && c != '*' && c != '!' && c != '|' && c != '>' && c != '%' && c != '@' && c != '`'
}

/// The text can be a key.
pub open spec fn is_key(key: Seq<char>) -> bool {
    &&& key.len() > 0
    &&& is_key_start(key[0])
    &&& forall|i: int| 0 <= i < key.len() ==> is_key_char(#[trigger] key[i])
}

/// The line whose contents are from `start` up to `end`: `key: value`, possibly with a dash before it.
pub open spec fn line_at(text: Seq<char>, position: int, start: int, end: int) -> Option<LineModel> {
    let is_new_item = strings::starts(text.subrange(start, end), "- "@);
    let from = if is_new_item {
        after_space(text, start + 2, end)
    } else {
        start
    };
    let content = text.subrange(from, end);
    match strings::first_of(content, ':') {
        None => None,
        Some(colon) => if is_key(content.take(colon)) && (colon + 1 == content.len() || is_blank(
            content[colon + 1],
        )) && (is_new_item ==> are_blank(text, start + 2, from)) {
            Some(
                LineModel {
                    column: start - position,
                    is_new_item,
                    key: content.take(colon),
                    key_column: from - position,
                    value_start: from + colon + 1,
                },
            )
        } else {
            None
        },
    }
}

/// Where in a list a character is.
#[derive(Clone, Copy, Debug, PartialEq, Eq, Structural)]
pub enum ListState {
    /// Before an element.
    Start,
    /// In a word of an element without quotes.
    Plain,
    /// Behind a word of an element without quotes.
    Gap,
    /// Behind white space that is part of an element without quotes, if more of the element follows.
    Odd,
    /// On a line after one that an element without quotes ended on.
    Ended,
    /// In an element with quotes.
    Quoted { quote: char },
    /// After the closing quote of an element.
    Closed,
}

/// Where the character after `c` is, if `c` is in place where it is. An element has quotes around all
/// of it or nowhere, and is on one line.
pub open spec fn list_step(state: ListState, c: char) -> Option<ListState> {
    match state {
        ListState::Quoted { quote } => if c == quote {
            Some(ListState::Closed)
        } else if c == '\n' || c == '\r' || quote == '"' && c == '\\' {
            None
        } else {
            Some(state)
        },
        _ => if c == '[' || c == ']' || c == ',' {
            if state == ListState::Odd {
                None
            } else {
                Some(ListState::Start)
            }
        } else if c == '\n' {
            match state {
                ListState::Plain | ListState::Gap => Some(ListState::Ended),
                ListState::Odd => None,
                _ => Some(state),
            }
        } else if is_blank(c) {
            Some(
                if state == ListState::Plain {
                    ListState::Gap
                } else {
                    state
                },
            )
        } else if c == '#' {
            if state == ListState::Plain {
                Some(state)
            } else {
                None
            }
        } else if c == '\'' || c == '"' {
            if state == ListState::Start {
                Some(ListState::Quoted { quote: c })
            } else {
                None
            }
        } else if strings::is_white(c) {
            match state {
                ListState::Plain | ListState::Gap | ListState::Odd => Some(ListState::Odd),
                _ => None,
            }
        } else {
            match state {
                ListState::Ended | ListState::Closed => None,
                _ => Some(ListState::Plain),
            }
        },
    }
}

/// Every character from `i` on is in place, if what is at `i` is at `state`.
pub open spec fn is_tidy_from(value: Seq<char>, i: int, state: ListState) -> bool
    decreases value.len() - i,
{
    if i >= value.len() {
        true
    } else {
        match list_step(state, value[i]) {
            None => false,
            Some(next) => is_tidy_from(value, i + 1, next),
        }
    }
}

/// Text in quotes is still open at its end, if it is open at `i` or not as is said. A quote that follows
/// the closing one opens it again.
pub open spec fn stays_open(value: Seq<char>, i: int, is_open: bool) -> bool
    decreases value.len() + 1 - i,
{
    if i >= value.len() {
        is_open
    } else if is_open && value[0] == '"' && value[i] == '\\' {
        stays_open(value, i + 2, true)
    } else if value[i] == value[0] {
        stays_open(value, i + 1, !is_open)
    } else {
        stays_open(value, i + 1, is_open)
    }
}

/// A character at which something may start that goes on beyond the line.
pub open spec fn is_opening(c: char) -> bool {
    c == '\'' || c == '"' || c == '[' || c == '{' || c == '|' || c == '>'
}

/// There is nothing from `from` up to `to` that may go on beyond the line.
pub open spec fn opens_nothing(value: Seq<char>, from: int, to: int) -> bool {
    forall|i: int| from <= i < to ==> !is_opening(#[trigger] value[i])
}

/// The value ends where it seems to: it is nothing, a list whose elements are plain to see, or
/// something on one line.
pub open spec fn is_safe(value: Seq<char>) -> bool {
    if value.len() == 0 {
        true
    } else if value[0] == '[' {
        is_tidy_from(value, 0, ListState::Start)
    } else if value[0] == '\'' || value[0] == '"' {
        !stays_open(value, 1, true)
    } else if value[0] == '{' {
        value.last() == '}' && opens_nothing(value, 1, value.len() as int)
    } else if value[0] == '&' || value[0] == '!' {
        opens_nothing(value, 1, value.len() as int)
    } else {
        value[0] != '|' && value[0] != '>'
    }
}

/// The character at `i` ends a line only if it is a newline, or a carriage return before one, and is not
/// a byte order mark that starts a line.
pub open spec fn breaks_plainly_at(text: Seq<char>, i: int) -> bool {
    &&& text[i] != '\u{85}'
    &&& text[i] != '\u{2028}'
    &&& text[i] != '\u{2029}'
    &&& text[i] == '\r' ==> i + 1 == text.len() || text[i + 1] == '\n'
    &&& text[i] == '\u{feff}' ==> 0 < i && text[i - 1] != '\n'
}

/// Lines end at newlines, whatever else may count as the end of a line, and start right behind them.
pub open spec fn breaks_plainly(text: Seq<char>) -> bool {
    forall|i: int| 0 <= i < text.len() ==> #[trigger] breaks_plainly_at(text, i)
}

/// The line opens a document.
pub open spec fn is_document_marker(content: Seq<char>) -> bool {
    content == "---"@ || strings::starts(content, "---"@) && content.len() > 3 && is_blank(content[3])
        && content.skip(after_blanks(content, 3)) == "!tapi-tbd"@
}

/// What has been read of a file.
pub struct ScanState {
    pub documents: Seq<DefinitionModel>,
    pub section: Section,
    /// How far the dashes of the section's items are from the start of their lines. Zero if there is
    /// no item yet.
    pub dash_column: int,
    /// How far the keys of the last item are from the start of their lines.
    pub key_column: int,
}

/// What a line makes of what has been read. All items of a section have their dashes at one column,
/// and all keys of an item are at one column. Where the line is of no use, neither matters. `None` if the line is of a shape that is not understood.
pub open spec fn with_entry(state: ScanState, line: LineModel, value: Seq<char>) -> Option<ScanState> {
    let last = state.documents.len() - 1;
    if last < 0 || !is_safe(value) {
        None
    } else if line.column == 0 {
        match with_key(state.documents[last], line.key, value) {
            None => None,
            Some(document) => if line.is_new_item {
                None
            } else {
                Some(
                    ScanState {
                        documents: state.documents.update(last, document),
                        section: section_below(line.key, value),
                        dash_column: 0,
                        key_column: 0,
                        ..state
                    },
                )
            },
        }
    } else if state.section == Section::Unused {
        Some(state)
    } else if line.is_new_item && state.dash_column != 0 && state.dash_column != line.column {
        None
    } else if !line.is_new_item && (state.dash_column == 0 || state.key_column != line.column) {
        None
    } else {
        match with_line(
            state.documents[last],
            state.section,
            line.is_new_item,
            line.key,
            value,
        ) {
            None => None,
            Some(document) => Some(
                ScanState {
                    documents: state.documents.update(last, document),
                    dash_column: if line.is_new_item {
                        line.column
                    } else {
                        state.dash_column
                    },
                    key_column: line.key_column,
                    ..state
                },
            ),
        }
    }
}

/// What the lines from `position` on make of what has been read. `None` if they are of a shape that is
/// not understood.
pub open spec fn scan_from(text: Seq<char>, position: int, state: ScanState) -> Option<
    Seq<DefinitionModel>,
>
    decreases text.len() + 1 - position,
{
    if position >= text.len() || position < 0 {
        Some(state.documents)
    } else {
        proof {
            lemma_line_end(text, position);
        }
        let over = line_end(text, position);
        let start = after_space(text, position, over);
        let end = before_space(text, start, over);
        let content = text.subrange(start, end);
        if !are_blank(text, position, start) || !are_blank(text, end, over) {
            None
        } else if content.len() == 0 || content[0] == '#' || start == position && content == "..."@ {
            scan_from(text, over + 1, state)
        } else if start == position && is_document_marker(content) {
            scan_from(
                text,
                over + 1,
                ScanState {
                    documents: state.documents.push(no_definition()),
                    section: Section::Ignored,
                    dash_column: 0,
                    key_column: 0,
                },
            )
        } else if strings::starts(content, "---"@) || !are_spaces(text, position, start) {
            None
        } else {
            match line_at(text, position, start, end) {
                None => None,
                Some(line) => match value_at(text, line.value_start) {
                    None => None,
                    Some((value, value_end)) => {
                        let rest = after_blanks(text, value_end);
                        match with_entry(state, line, value) {
                            None => None,
                            Some(next) => if position <= rest <= text.len() && (rest == text.len()
                                || text[rest] == '\n' || text[rest] == '\r') {
                                proof {
                                    lemma_line_end(text, rest);
                                }
                                scan_from(text, line_end(text, rest) + 1, next)
                            } else {
                                None
                            },
                        }
                    },
                },
            }
        }
    }
}

/// The documents in `text`, or `None` if it is of a shape that is not understood.
pub open spec fn scanned(text: Seq<char>) -> Option<Seq<DefinitionModel>> {
    if breaks_plainly(text) {
        scan_from(
            text,
            0,
            ScanState {
                documents: Seq::empty(),
                section: Section::Ignored,
                dash_column: 0,
                key_column: 0,
            },
        )
    } else {
        None
    }
}

fn find_section(key: &str) -> (section: Section)
    ensures
        section == section_of(key@),
{
    if same_text(key, "parent-umbrella") {
        Section::ParentUmbrella
    } else if same_text(key, "reexported-libraries") {
        Section::ReexportedLibraries
    } else if same_text(key, "exports") {
        Section::Exports
    } else if same_text(key, "reexports") {
        Section::Reexports
    } else {
        Section::Ignored
    }
}

fn find_section_below(key: &str, value: &str) -> (section: Section)
    ensures
        section == section_below(key@, value@),
{
    let section = find_section(key);
    let is_text = same_text(key, "tbd-version") || same_text(key, "targets") || same_text(
        key,
        "install-name",
    ) || same_text(key, "current-version") || same_text(key, "compatibility-version");
    if section == Section::Ignored && !is_text && value.is_empty() {
        Section::Unused
    } else {
        section
    }
}

fn set_key(document: &mut TextBasedDefinition, key: &str, value: &str) -> (known: bool)
    ensures
        match with_key(old(document)@, key@, value@) {
            Some(model) => known && final(document)@ == model,
            None => !known,
        },
{
    if same_text(key, "tbd-version") {
        let chars = to_chars(value);
        match strings::parse_number(chars.as_slice(), 10, u32::MAX as u64) {
            Err(_) => false,
            Ok(number) => {
                document.tbd_version = number as u32;
                true
            },
        }
    } else if same_text(key, "targets") {
        match parse_flow_sequence(value) {
            None => false,
            Some(targets) => {
                document.targets = targets;
                true
            },
        }
    } else if same_text(key, "install-name") {
        match unquote(value) {
            None => false,
            Some(text) => {
                document.install_name = text;
                true
            },
        }
    } else if same_text(key, "current-version") {
        match unquote(value) {
            None => false,
            Some(text) => {
                document.current_version = text;
                true
            },
        }
    } else if same_text(key, "compatibility-version") {
        match unquote(value) {
            None => false,
            Some(text) => {
                document.compatibility_version = text;
                true
            },
        }
    } else {
        find_section(key) == Section::Ignored || value.is_empty()
    }
}

fn set_umbrella_key(item: &mut ParentUmbrella, key: &str, value: &str) -> (known: bool)
    ensures
        match with_umbrella_key(old(item)@, key@, value@) {
            Some(model) => known && final(item)@ == model,
            None => !known,
        },
{
    if same_text(key, "targets") {
        match parse_flow_sequence(value) {
            None => false,
            Some(targets) => {
                item.targets = targets;
                true
            },
        }
    } else if same_text(key, "umbrella") {
        match unquote(value) {
            None => false,
            Some(text) => {
                item.umbrella = text;
                true
            },
        }
    } else {
        true
    }
}

fn set_reexport_key(item: &mut ReexportedLibraries, key: &str, value: &str) -> (known: bool)
    ensures
        match with_reexport_key(old(item)@, key@, value@) {
            Some(model) => known && final(item)@ == model,
            None => !known,
        },
{
    if same_text(key, "targets") {
        match parse_flow_sequence(value) {
            None => false,
            Some(targets) => {
                item.targets = targets;
                true
            },
        }
    } else if same_text(key, "libraries") {
        match parse_flow_sequence(value) {
            None => false,
            Some(libraries) => {
                item.libraries = libraries;
                true
            },
        }
    } else {
        true
    }
}

fn set_export_key(item: &mut Exports, key: &str, value: &str) -> (known: bool)
    ensures
        match with_export_key(old(item)@, key@, value@) {
            Some(model) => known && final(item)@ == model,
            None => !known,
        },
{
    if same_text(key, "targets") {
        match parse_flow_sequence(value) {
            None => false,
            Some(list) => {
                item.targets = list;
                true
            },
        }
    } else if same_text(key, "symbols") {
        match parse_flow_sequence(value) {
            None => false,
            Some(list) => {
                item.symbols = list;
                true
            },
        }
    } else if same_text(key, "weak-symbols") {
        match parse_flow_sequence(value) {
            None => false,
            Some(list) => {
                item.weak_symbols = list;
                true
            },
        }
    } else if same_text(key, "objc-classes") {
        match parse_flow_sequence(value) {
            None => false,
            Some(list) => {
                item.objc_classes = list;
                true
            },
        }
    } else if same_text(key, "objc-ivars") {
        match parse_flow_sequence(value) {
            None => false,
            Some(list) => {
                item.objc_ivars = list;
                true
            },
        }
    } else if same_text(key, "objc-eh-types") {
        match parse_flow_sequence(value) {
            None => false,
            Some(list) => {
                item.objc_eh_types = list;
                true
            },
        }
    } else if same_text(key, "thread-local-symbols") {
        match parse_flow_sequence(value) {
            None => false,
            Some(list) => {
                item.thread_local_symbols = list;
                true
            },
        }
    } else {
        true
    }
}

proof fn lemma_views_push<T: View>(items: Seq<T>, item: T)
    ensures
        views(items.push(item)) == views(items).push(item@),
{
    assert(views(items.push(item)) =~= views(items).push(item@));
}

proof fn lemma_views_update<T: View>(items: Seq<T>, i: int, item: T)
    requires
        0 <= i < items.len(),
    ensures
        views(items.update(i, item)) == views(items).update(i, item@),
{
    assert(views(items.update(i, item)) =~= views(items).update(i, item@));
}

fn set_umbrella_line(
    items: &mut Vec<ParentUmbrella>,
    is_new_item: bool,
    key: &str,
    value: &str,
) -> (known: bool)
    ensures
        ({
            let fresh = with_item(views(old(items)@), is_new_item, no_umbrella());
            match with_last(fresh, with_umbrella_key(fresh.last(), key@, value@)) {
                Some(models) => known && views(final(items)@) == models,
                None => !known,
            }
        }),
{
    if is_new_item {
        let ghost before = items@;
        items.push(ParentUmbrella::default());
        proof {
            lemma_views_push(before, items@.last());
        }
    }
    let total: usize = items.len();
    if total == 0 {
        return false;
    }
    let ghost before = items@;
    let known = set_umbrella_key(&mut items[total - 1], key, value);
    proof {
        assert(items@ =~= before.update(total - 1, items@[total - 1]));
        lemma_views_update(before, total - 1, items@[total - 1]);
    }
    known
}

fn set_reexport_line(
    items: &mut Vec<ReexportedLibraries>,
    is_new_item: bool,
    key: &str,
    value: &str,
) -> (known: bool)
    ensures
        ({
            let fresh = with_item(views(old(items)@), is_new_item, no_reexports());
            match with_last(fresh, with_reexport_key(fresh.last(), key@, value@)) {
                Some(models) => known && views(final(items)@) == models,
                None => !known,
            }
        }),
{
    if is_new_item {
        let ghost before = items@;
        items.push(ReexportedLibraries::default());
        proof {
            lemma_views_push(before, items@.last());
        }
    }
    let total: usize = items.len();
    if total == 0 {
        return false;
    }
    let ghost before = items@;
    let known = set_reexport_key(&mut items[total - 1], key, value);
    proof {
        assert(items@ =~= before.update(total - 1, items@[total - 1]));
        lemma_views_update(before, total - 1, items@[total - 1]);
    }
    known
}

fn set_export_line(items: &mut Vec<Exports>, is_new_item: bool, key: &str, value: &str) -> (known:
    bool)
    ensures
        ({
            let fresh = with_item(views(old(items)@), is_new_item, no_exports());
            match with_last(fresh, with_export_key(fresh.last(), key@, value@)) {
                Some(models) => known && views(final(items)@) == models,
                None => !known,
            }
        }),
{
    if is_new_item {
        let ghost before = items@;
        items.push(Exports::default());
        proof {
            lemma_views_push(before, items@.last());
        }
    }
    let total: usize = items.len();
    if total == 0 {
        return false;
    }
    let ghost before = items@;
    let known = set_export_key(&mut items[total - 1], key, value);
    proof {
        assert(items@ =~= before.update(total - 1, items@[total - 1]));
        lemma_views_update(before, total - 1, items@[total - 1]);
    }
    known
}

fn set_line(
    document: &mut TextBasedDefinition,
    section: Section,
    is_new_item: bool,
    key: &str,
    value: &str,
) -> (known: bool)
    ensures
        match with_line(old(document)@, section, is_new_item, key@, value@) {
            Some(model) => known && final(document)@ == model,
            None => !known,
        },
{
    match section {
        Section::Ignored | Section::Unused => false,
        Section::ParentUmbrella => set_umbrella_line(
            &mut document.parent_umbrella,
            is_new_item,
            key,
            value,
        ),
        Section::ReexportedLibraries => set_reexport_line(
            &mut document.reexported_libraries,
            is_new_item,
            key,
            value,
        ),
        Section::Exports => set_export_line(&mut document.exports, is_new_item, key, value),
        Section::Reexports => set_export_line(&mut document.reexports, is_new_item, key, value),
    }
}

fn skip_space(text: &Vec<char>, at: usize, end: usize) -> (result: usize)
    requires
        at <= end <= text@.len(),
    ensures
        result == after_space(text@, at as int, end as int),
        at <= result <= end,
{
    let mut result: usize = at;
    while result < end && strings::is_white_space(text[result])
        invariant
            at <= result <= end <= text@.len(),
            after_space(text@, at as int, end as int) == after_space(
                text@,
                result as int,
                end as int,
            ),
        decreases end - result,
    {
        result = result + 1;
    }
    result
}

fn skip_space_back(text: &Vec<char>, at: usize, end: usize) -> (result: usize)
    requires
        at <= end <= text@.len(),
    ensures
        result == before_space(text@, at as int, end as int),
        at <= result <= end,
{
    let mut result: usize = end;
    while at < result && strings::is_white_space(text[result - 1])
        invariant
            at <= result <= end <= text@.len(),
            before_space(text@, at as int, end as int) == before_space(
                text@,
                at as int,
                result as int,
            ),
        decreases result,
    {
        result = result - 1;
    }
    result
}

struct Line {
    column: usize,
    is_new_item: bool,
    key: String,
    key_column: usize,
    value_start: usize,
}

impl View for Line {
    type V = LineModel;

    closed spec fn view(&self) -> LineModel {
        LineModel {
            column: self.column as int,
            is_new_item: self.is_new_item,
            key: self.key@,
            key_column: self.key_column as int,
            value_start: self.value_start as int,
        }
    }
}

fn is_blank_char(c: char) -> (blank: bool)
    ensures
        blank == is_blank(c),
{
    c == ' ' || c == '\t' || c == '\r'
}

fn check_blank(text: &Vec<char>, from: usize, to: usize) -> (blank: bool)
    requires
        from <= to <= text@.len(),
    ensures
        blank == are_blank(text@, from as int, to as int),
{
    let mut i: usize = from;
    while i < to
        invariant
            from <= i <= to <= text@.len(),
            are_blank(text@, from as int, i as int),
        decreases to - i,
    {
        if !is_blank_char(text[i]) {
            assert(!is_blank(text@[i as int]));
            return false;
        }
        i = i + 1;
    }
    true
}

fn check_spaces(text: &Vec<char>, from: usize, to: usize) -> (spaces: bool)
    requires
        from <= to <= text@.len(),
    ensures
        spaces == are_spaces(text@, from as int, to as int),
{
    let mut i: usize = from;
    while i < to
        invariant
            from <= i <= to <= text@.len(),
            are_spaces(text@, from as int, i as int),
        decreases to - i,
    {
        if text[i] != ' ' {
            assert(text@[i as int] != ' ');
            return false;
        }
        i = i + 1;
    }
    true
}

fn can_start_key(c: char) -> (can: bool)
    ensures
        can == is_key_start(c),
{
    !strings::is_white_space(c) && c != ',' && c != '[' && c != ']' && c != '{' && c != '}' && c
        != '#' && c != '&' && c != '*' && c != '!' && c != '|' && c != '>' && c != '%' && c != '@'
        && c != '`'
}

fn can_be_key(key: &Vec<char>) -> (can: bool)
    ensures
        can == is_key(key@),
{
    if key.len() == 0 || !can_start_key(key[0]) {
        return false;
    }
    let mut i: usize = 0;
    while i < key.len()
        invariant
            i <= key@.len(),
            forall|k: int| 0 <= k < i ==> is_key_char(#[trigger] key@[k]),
        decreases key@.len() - i,
    {
        let c = key[i];
        if c == ' ' || c == '\t' || c == '\'' || c == '"' {
            assert(!is_key_char(key@[i as int]));
            return false;
        }
        i = i + 1;
    }
    true
}

fn read_line(text: &Vec<char>, position: usize, start: usize, end: usize) -> (line: Option<Line>)
    requires
        position <= start <= end <= text@.len(),
    ensures
        match line {
            Some(line) => line_at(text@, position as int, start as int, end as int) == Some(line@)
                && position < line@.value_start <= end,
            None => line_at(text@, position as int, start as int, end as int) is None,
        },
{
    let dash = to_chars("- ");
    proof {
        reveal_strlit("- ");
    }
    let contents = strings::copy_chars(text.as_slice(), start, end);
    let is_new_item = strings::starts_with(contents.as_slice(), dash.as_slice());
    let from = if is_new_item {
        skip_space(text, start + 2, end)
    } else {
        start
    };
    let content = strings::copy_chars(text.as_slice(), from, end);
    match strings::find_char(content.as_slice(), ':') {
        None => None,
        Some(colon) => {
            let key = strings::copy_chars(content.as_slice(), 0, colon);
            assert(key@ =~= content@.take(colon as int));
            if !can_be_key(&key) {
                return None;
            }
            if colon + 1 != content.len() && !is_blank_char(content[colon + 1]) {
                return None;
            }
            if is_new_item && !check_blank(text, start + 2, from) {
                return None;
            }
            let key_text = from_chars(&key, 0, key.len());
            assert(key_text@ =~= key@);
            Some(
                Line {
                    column: start - position,
                    is_new_item,
                    key: key_text,
                    key_column: from - position,
                    value_start: from + colon + 1,
                },
            )
        },
    }
}

fn next_in_list(state: ListState, c: char) -> (next: Option<ListState>)
    ensures
        next == list_step(state, c),
{
    match state {
        ListState::Quoted { quote } => {
            if c == quote {
                Some(ListState::Closed)
            } else if c == '\n' || c == '\r' || quote == '"' && c == '\\' {
                None
            } else {
                Some(state)
            }
        },
        _ => {
            if c == '[' || c == ']' || c == ',' {
                if state == ListState::Odd {
                    None
                } else {
                    Some(ListState::Start)
                }
            } else if c == '\n' {
                match state {
                    ListState::Plain | ListState::Gap => Some(ListState::Ended),
                    ListState::Odd => None,
                    _ => Some(state),
                }
            } else if is_blank_char(c) {
                if state == ListState::Plain {
                    Some(ListState::Gap)
                } else {
                    Some(state)
                }
            } else if c == '#' {
                if state == ListState::Plain {
                    Some(state)
                } else {
                    None
                }
            } else if c == '\'' || c == '"' {
                if state == ListState::Start {
                    Some(ListState::Quoted { quote: c })
                } else {
                    None
                }
            } else if strings::is_white_space(c) {
                match state {
                    ListState::Plain | ListState::Gap | ListState::Odd => Some(ListState::Odd),
                    _ => None,
                }
            } else {
                match state {
                    ListState::Ended | ListState::Closed => None,
                    _ => Some(ListState::Plain),
                }
            }
        },
    }
}

fn is_list_tidy(value: &Vec<char>) -> (tidy: bool)
    ensures
        tidy == is_tidy_from(value@, 0, ListState::Start),
{
    let mut state = ListState::Start;
    let mut i: usize = 0;
    while i < value.len()
        invariant
            i <= value@.len(),
            is_tidy_from(value@, 0, ListState::Start) == is_tidy_from(value@, i as int, state),
        decreases value@.len() - i,
    {
        match next_in_list(state, value[i]) {
            None => {
                return false;
            },
            Some(next) => {
                state = next;
            },
        }
        i = i + 1;
    }
    true
}

fn is_left_open(value: &Vec<char>) -> (open: bool)
    requires
        value@.len() > 0,
    ensures
        open == stays_open(value@, 1, true),
{
    let total: usize = value.len();
    let mut open = true;
    let mut i: usize = 1;
    while i < total
        invariant
            1 <= i <= total == value@.len(),
            stays_open(value@, 1, true) == stays_open(value@, i as int, open),
        decreases total - i,
    {
        if open && value[0] == '"' && value[i] == '\\' {
            if i + 1 == total {
                assert(stays_open(value@, i + 2, true));
                return true;
            }
            i = i + 2;
        } else {
            if value[i] == value[0] {
                open = !open;
            }
            i = i + 1;
        }
    }
    open
}

fn check_opens_nothing(value: &Vec<char>) -> (nothing: bool)
    requires
        value@.len() > 0,
    ensures
        nothing == opens_nothing(value@, 1, value@.len() as int),
{
    let mut i: usize = 1;
    while i < value.len()
        invariant
            1 <= i <= value@.len(),
            opens_nothing(value@, 1, i as int),
        decreases value@.len() - i,
    {
        let c = value[i];
        if c == '\'' || c == '"' || c == '[' || c == '{' || c == '|' || c == '>' {
            assert(is_opening(value@[i as int]));
            return false;
        }
        i = i + 1;
    }
    true
}

fn is_value_safe(value: &Vec<char>) -> (safe: bool)
    ensures
        safe == is_safe(value@),
{
    let total: usize = value.len();
    if total == 0 {
        return true;
    }
    let first = value[0];
    if first == '[' {
        is_list_tidy(value)
    } else if first == '\'' || first == '"' {
        !is_left_open(value)
    } else if first == '{' {
        value[total - 1] == '}' && check_opens_nothing(value)
    } else if first == '&' || first == '!' {
        check_opens_nothing(value)
    } else {
        first != '|' && first != '>'
    }
}

/// What kind of line there is.
enum LineKind {
    Nothing,
    Document,
    Refused,
    Contents,
}

/// The kind of a line with the supplied contents.
spec fn is_line_kind(content: Seq<char>, is_indented: bool, kind: LineKind) -> bool {
    kind == (if content.len() == 0 || content[0] == '#' || !is_indented && content == "..."@ {
        LineKind::Nothing
    } else if !is_indented && is_document_marker(content) {
        LineKind::Document
    } else if strings::starts(content, "---"@) {
        LineKind::Refused
    } else {
        LineKind::Contents
    })
}

fn line_kind(content: &Vec<char>, is_indented: bool) -> (kind: LineKind)
    ensures
        is_line_kind(content@, is_indented, kind),
{
    if content.len() == 0 || content[0] == '#' {
        return LineKind::Nothing;
    }
    proof {
        reveal_strlit("---");
        reveal_strlit("...");
    }
    let whole = from_chars(content, 0, content.len());
    assert(whole@ =~= content@);
    if !is_indented && same_text(whole.as_str(), "...") {
        return LineKind::Nothing;
    }
    let marker = to_chars("---");
    if !strings::starts_with(content.as_slice(), marker.as_slice()) {
        assert(content@ == "---"@ ==> strings::starts(content@, "---"@)) by {
            assert("---"@.take(3) =~= "---"@);
        }
        return LineKind::Contents;
    }
    if is_indented {
        return LineKind::Refused;
    }
    if same_text(whole.as_str(), "---") {
        return LineKind::Document;
    }
    if content.len() <= 3 || !is_blank_char(content[3]) {
        return LineKind::Refused;
    }
    let tag_start = skip_blanks(content, 3);
    let tag = from_chars(content, tag_start, content.len());
    assert(tag@ =~= content@.skip(tag_start as int));
    if same_text(tag.as_str(), "!tapi-tbd") {
        LineKind::Document
    } else {
        LineKind::Refused
    }
}

fn has_plain_breaks(text: &Vec<char>) -> (plain: bool)
    ensures
        plain == breaks_plainly(text@),
{
    let total: usize = text.len();
    let mut i: usize = 0;
    while i < total
        invariant
            i <= total == text@.len(),
            forall|k: int| 0 <= k < i ==> #[trigger] breaks_plainly_at(text@, k),
        decreases total - i,
    {
        let c = text[i];
        if c == '\u{85}' || c == '\u{2028}' || c == '\u{2029}' || c == '\r' && i + 1 != total && text[i
            + 1] != '\n' || c == '\u{feff}' && (i == 0 || text[i - 1] == '\n') {
            assert(!breaks_plainly_at(text@, i as int));
            return false;
        }
        i = i + 1;
    }
    true
}

fn skip_blanks(text: &Vec<char>, start: usize) -> (at: usize)
    requires
        start <= text@.len(),
    ensures
        at == after_blanks(text@, start as int),
        start <= at <= text@.len(),
{
    let total: usize = text.len();
    let mut at: usize = start;
    while at < total && (text[at] == ' ' || text[at] == '\t')
        invariant
            start <= at <= total == text@.len(),
            after_blanks(text@, start as int) == after_blanks(text@, at as int),
        decreases total - at,
    {
        at = at + 1;
    }
    at
}

struct Scanner {
    documents: Vec<TextBasedDefinition>,
    section: Section,
    dash_column: usize,
    key_column: usize,
}

impl View for Scanner {
    type V = ScanState;

    closed spec fn view(&self) -> ScanState {
        ScanState {
            documents: views(self.documents@),
            section: self.section,
            dash_column: self.dash_column as int,
            key_column: self.key_column as int,
        }
    }
}

impl Scanner {
    /// Starts on the next document.
    fn open_document(&mut self)
        ensures
            final(self)@ == (ScanState {
                documents: old(self)@.documents.push(no_definition()),
                section: Section::Ignored,
                dash_column: 0,
                key_column: 0,
            }),
    {
        let ghost before = self.documents@;
        self.documents.push(TextBasedDefinition::default());
        proof {
            lemma_views_push(before, self.documents@.last());
        }
        self.section = Section::Ignored;
        self.dash_column = 0;
        self.key_column = 0;
    }

    /// Takes in a line with a key. Returns whether it is of a shape that is understood.
    fn add_entry(&mut self, line: &Line, value: &Vec<char>) -> (known: bool)
        ensures
            match with_entry(old(self)@, line@, value@) {
                Some(next) => known && final(self)@ == next,
                None => !known,
            },
    {
        let count: usize = self.documents.len();
        if count == 0 || !is_value_safe(value) {
            return false;
        }
        let text = from_chars(value, 0, value.len());
        assert(text@ =~= value@);
        let ghost before = self.documents@;
        if line.column == 0 {
            if line.is_new_item {
                return false;
            }
            let known = set_key(
                &mut self.documents[count - 1],
                line.key.as_str(),
                text.as_str(),
            );
            if !known {
                return false;
            }
            self.section = find_section_below(line.key.as_str(), text.as_str());
            self.dash_column = 0;
            self.key_column = 0;
        } else if self.section == Section::Unused {
            return true;
        } else {
            if line.is_new_item {
                if self.dash_column != 0 && self.dash_column != line.column {
                    return false;
                }
            } else if self.dash_column == 0 || self.key_column != line.column {
                return false;
            }
            let known = set_line(
                &mut self.documents[count - 1],
                self.section,
                line.is_new_item,
                line.key.as_str(),
                text.as_str(),
            );
            if !known {
                return false;
            }
            if line.is_new_item {
                self.dash_column = line.column;
            }
            self.key_column = line.key_column;
        }
        proof {
            assert(self.documents@ =~= before.update(count - 1, self.documents@[count - 1]));
            lemma_views_update(before, count - 1, self.documents@[count - 1]);
            assert(views(before)[count - 1] == before[count - 1]@);
        }
        true
    }
}

/// Reads the documents in a file, or returns `None` if it is not of the shape that is understood, in
/// which case it takes a YAML parser to read it. What is understood is what tooling writes: keys at
/// the start of their lines, some of them followed by items whose keys are aligned, and lists and text
/// as values. What a YAML parser could read in another way is refused: other ends of lines, other white
/// space around words, lines at a depth where nothing is expected, values that may go on beyond their
/// line, and lists that may end elsewhere. What there is no use for is skipped, so a list there may be
/// one that a YAML parser would reject.
pub fn scan_tbd(input: &str) -> (result: Option<Vec<TextBasedDefinition>>)
    ensures
        match result {
            Some(documents) => scanned(input@) == Some(views(documents@)),
            None => scanned(input@) is None,
        },
{
    let text = to_chars(input);
    if !has_plain_breaks(&text) {
        return None;
    }
    let total: usize = text.len();
    let mut scanner = Scanner {
        documents: Vec::new(),
        section: Section::Ignored,
        dash_column: 0,
        key_column: 0,
    };
    let mut position: usize = 0;
    assert(views(scanner.documents@) =~= Seq::<DefinitionModel>::empty());
    while position < total
        invariant
            total == text@.len(),
            text@ == input@,
            scanned(text@) == scan_from(text@, position as int, scanner@),
        decreases total - position,
    {
        let ghost state = scanner@;
        let ghost from = position as int;
        let newline = find_line_end(&text, position);
        let start = skip_space(&text, position, newline);
        let end = skip_space_back(&text, start, newline);
        if !check_blank(&text, position, start) || !check_blank(&text, end, newline) {
            return None;
        }
        let content = strings::copy_chars(text.as_slice(), start, end);
        let mut line_over: usize = newline;
        match line_kind(&content, start > position) {
            LineKind::Nothing => {},
            LineKind::Refused => {
                return None;
            },
            LineKind::Document => {
                scanner.open_document();
            },
            LineKind::Contents => {
                if !check_spaces(&text, position, start) {
                    return None;
                }
                let line = match read_line(&text, position, start, end) {
                    None => {
                        return None;
                    },
                    Some(line) => line,
                };
                let (value, value_end) = match read_value(&text, line.value_start) {
                    None => {
                        return None;
                    },
                    Some(found) => found,
                };
                if !scanner.add_entry(&line, &value) {
                    return None;
                }
                let rest = skip_blanks(&text, value_end);
                if rest != total && text[rest] != '\n' && text[rest] != '\r' {
                    return None;
                }
                line_over = find_line_end(&text, rest);
            },
        }
        assert(scan_from(text@, from, state) == scan_from(text@, line_over + 1, scanner@));
        if line_over == total {
            position = total;
        } else {
            position = line_over + 1;
        }
    }
    Some(scanner.documents)
}

// ---------------------------------------------------------------------------------------------
// Laws
// ---------------------------------------------------------------------------------------------

/// Text in quotes reads back as it is, unless it holds such a quote.
pub proof fn law_quoted_text_reads_back(text: Seq<char>)
    requires
        !text.contains('\''),
    ensures
        unquoted(seq!['\''] + text + seq!['\'']) == Some(text),
{
    let value = seq!['\''] + text + seq!['\''];
    assert(value.subrange(1, value.len() - 1) =~= text);
}

/// A name that can stand in a list without quotes: it is not empty, has no white space around it, and
/// holds nothing that means something in a list.
pub open spec fn is_plain(name: Seq<char>) -> bool {
    &&& name.len() > 0
    &&& !strings::is_white(name[0])
    &&& !strings::is_white(name.last())
    &&& !name.contains(',')
    &&& !name.contains('#')
    &&& !name.contains('\'')
    &&& !name.contains('"')
    &&& name[0] != '&'
    &&& name[0] != '*'
    &&& name[0] != '!'
    &&& name[0] != '{'
    &&& name[0] != '}'
}

/// The first `n` of `names`, each with a space before it and all but the first with a comma before
/// that.
pub open spec fn listed(names: Seq<Seq<char>>, n: int) -> Seq<char>
    decreases n,
{
    if n <= 0 {
        Seq::empty()
    } else if n == 1 {
        seq![' '] + names[0]
    } else {
        listed(names, n - 1) + seq![','] + (seq![' '] + names[n - 1])
    }
}

proof fn lemma_trimmed_plain(name: Seq<char>)
    requires
        is_plain(name),
    ensures
        strings::trimmed(seq![' '] + name) == name,
        unquoted(name) == Some(name),
{
    let padded = seq![' '] + name;
    assert(padded.skip(1) =~= name);
    assert(strings::is_white(padded[0]));
    assert(strings::without_leading_space(padded) == strings::without_leading_space(name));
}

/// Characters of a plain name are passed over.
proof fn lemma_passed_over(
    inner: Seq<char>,
    i: int,
    end: int,
    start: int,
    elements: Seq<Seq<char>>,
)
    requires
        0 <= i <= end <= inner.len(),
        forall|k: int|
            i <= k < end ==> #[trigger] inner[k] != ',' && inner[k] != '\'' && inner[k] != '"',
    ensures
        elements_from(inner, i, start, None, elements) == elements_from(
            inner,
            end,
            start,
            None,
            elements,
        ),
    decreases end - i,
{
    if i < end {
        lemma_passed_over(inner, i + 1, end, start, elements);
    }
}

proof fn lemma_listed_prefix(names: Seq<Seq<char>>, n: int, m: int)
    requires
        1 <= n <= m <= names.len(),
    ensures
        listed(names, n).len() <= listed(names, m).len(),
        listed(names, m).take(listed(names, n).len() as int) == listed(names, n),
        n < m ==> listed(names, n).len() < listed(names, m).len() && listed(names, m)[listed(
            names,
            n,
        ).len() as int] == ',',
    decreases m - n,
{
    if n < m {
        lemma_listed_prefix(names, n, m - 1);
        let before = listed(names, m - 1);
        let all = listed(names, m);
        let len = listed(names, n).len() as int;
        assert(all.take(len) =~= before.take(len));
        if n < m - 1 {
            assert(all[len] == before[len]);
        }
    } else {
        assert(listed(names, m).take(listed(names, n).len() as int) =~= listed(names, n));
    }
}

/// After the first `n` names have been read, the rest of the list is read with them in hand.
proof fn lemma_list_progress(names: Seq<Seq<char>>, n: int)
    requires
        1 <= n < names.len(),
        forall|k: int| 0 <= k < names.len() ==> is_plain(#[trigger] names[k]),
    ensures
        ({
            let inner = listed(names, names.len() as int);
            let next = listed(names, n).len() as int + 1;
            elements_from(inner, 0, 0, None, Seq::empty()) == elements_from(
                inner,
                next,
                next,
                None,
                names.take(n),
            )
        }),
    decreases n,
{
    let inner = listed(names, names.len() as int);
    let from = if n == 1 {
        0int
    } else {
        listed(names, n - 1).len() as int + 1
    };
    let end = listed(names, n).len() as int;
    let name = names[n - 1];
    lemma_listed_prefix(names, n, names.len() as int);
    if n > 1 {
        lemma_list_progress(names, n - 1);
    } else {
        assert(names.take(0) =~= Seq::<Seq<char>>::empty());
    }
    assert(is_plain(names[n - 1]));
    assert(listed(names, n).subrange(from, end) =~= seq![' '] + name);
    assert(inner.subrange(from, end) =~= seq![' '] + name) by {
        assert(inner.take(end) =~= listed(names, n));
        assert(inner.subrange(from, end) =~= inner.take(end).subrange(from, end));
    }
    assert forall|k: int| from <= k < end implies #[trigger] inner[k] != ',' && inner[k] != '\''
        && inner[k] != '"' by {
        assert(inner[k] == inner.subrange(from, end)[k - from]);
        if k > from {
            assert(inner[k] == name[k - from - 1]);
        }
    }
    lemma_passed_over(inner, from, end, from, names.take(n - 1));
    lemma_trimmed_plain(name);
    assert(names.take(n - 1).push(name) =~= names.take(n));
}

/// A list of plain names, written the way that tooling writes it, reads back as those names.
pub proof fn law_lists_read_back(names: Seq<Seq<char>>)
    requires
        names.len() > 0,
        forall|k: int| 0 <= k < names.len() ==> is_plain(#[trigger] names[k]),
    ensures
        flow_sequence(seq!['['] + listed(names, names.len() as int) + seq![']']) == Some(names),
{
    let n = names.len() as int;
    let inner = listed(names, n);
    let value = seq!['['] + inner + seq![']'];
    assert(value.subrange(1, value.len() - 1) =~= inner);
    let from = if n == 1 {
        0int
    } else {
        listed(names, n - 1).len() as int + 1
    };
    if n > 1 {
        lemma_list_progress(names, n - 1);
    } else {
        assert(names.take(0) =~= Seq::<Seq<char>>::empty());
    }
    let name = names[n - 1];
    assert(is_plain(names[n - 1]));
    assert(inner.skip(from) =~= seq![' '] + name);
    assert forall|k: int| from <= k < inner.len() implies #[trigger] inner[k] != ',' && inner[k]
        != '\'' && inner[k] != '"' by {
        assert(inner[k] == inner.skip(from)[k - from]);
        if k > from {
            assert(inner[k] == name[k - from - 1]);
        }
    }
    lemma_passed_over(inner, from, inner.len() as int, from, names.take(n - 1));
    lemma_trimmed_plain(name);
    assert(names.take(n - 1).push(name) =~= names);
}

} // verus!
