//! What a text-based stub library defines.
//!
//! The first document of a file is the main library. Further documents are child libraries that the
//! main library passes on the exports of.
use crate::sorting;
use crate::tbd::DefinitionModel;
use crate::tbd::Exports;
use crate::tbd::ExportsModel;
use crate::tbd::ParentUmbrella;
use crate::tbd::ReexportedLibraries;
use crate::tbd::TextBasedDefinition;
use crate::tbd::scan_tbd;
use crate::tbd;
use crate::text::joined;
use crate::text::same_text;
use vstd::prelude::*;

verus! {

/// The target that libraries are linked for.
pub open spec fn wanted_target() -> Seq<char> {
    "arm64e-macos"@
}

/// What a stub library defines.
pub struct DefinedStubLibrary {
    /// Install name of the dynamic library, including its `.dylib` suffix.
    pub install_name: String,
    /// Current version recorded for the library, if present.
    pub current_version: String,
    /// The oldest version of the library an image linked against this one will accept. Absent means
    /// 1.0.
    pub compatibility_version: String,
    /// Global symbols defined by the library or by any child library.
    pub symbols: Vec<String>,
    /// Weak symbols defined by the library or by any child library.
    pub weak_symbols: Vec<String>,
    /// The install names of libraries this one passes on the exports of, and that are in files of
    /// their own. What they define counts as defined by this library, so they have to be read too.
    pub reexported_libraries: Vec<String>,
}

/// Why a file does not define a library.
pub enum StubError {
    /// The file could not be read as YAML.
    Yaml { message: String },
    /// There is no document.
    NoRootLibrary,
    /// The main library is not for the target that is linked for.
    UnsupportedTargets,
    /// More than one list of libraries is passed on.
    SeveralExportedLibraries,
    /// The list of libraries that are passed on is not for the target that is linked for.
    UnsupportedExportTargets,
    /// A document is of another version of the format.
    WrongVersion { version: u32 },
    /// A child library is not in the list of libraries that are passed on.
    UnlistedChild { document: usize },
}

/// The error, with text in place of strings.
pub enum StubErrorModel {
    Yaml { message: Seq<char> },
    NoRootLibrary,
    UnsupportedTargets,
    SeveralExportedLibraries,
    UnsupportedExportTargets,
    WrongVersion { version: u32 },
    UnlistedChild { document: int },
}

impl View for StubError {
    type V = StubErrorModel;

    open spec fn view(&self) -> StubErrorModel {
        match self {
            StubError::Yaml { message } => StubErrorModel::Yaml { message: message@ },
            StubError::NoRootLibrary => StubErrorModel::NoRootLibrary,
            StubError::UnsupportedTargets => StubErrorModel::UnsupportedTargets,
            StubError::SeveralExportedLibraries => StubErrorModel::SeveralExportedLibraries,
            StubError::UnsupportedExportTargets => StubErrorModel::UnsupportedExportTargets,
            StubError::WrongVersion { version } => StubErrorModel::WrongVersion {
                version: *version,
            },
            StubError::UnlistedChild { document } => StubErrorModel::UnlistedChild {
                document: *document as int,
            },
        }
    }
}

impl TextBasedDefinition {
    /// Returns the lists of exports of the library, and after them those that it passes on.
    pub fn all_exports(&self) -> (lists: Vec<&Exports>)
        ensures
            lists@.len() == exports_of(self@).len(),
            forall|i: int| 0 <= i < lists@.len() ==> (#[trigger] lists@[i])@ == exports_of(self@)[i],
    {
        let mut lists: Vec<&Exports> = Vec::new();
        let mut i: usize = 0;
        while i < self.exports.len()
            invariant
                i <= self.exports@.len(),
                lists@.len() == i,
                forall|k: int| 0 <= k < i ==> (#[trigger] lists@[k])@ == exports_of(self@)[k],
            decreases self.exports@.len() - i,
        {
            lists.push(&self.exports[i]);
            i = i + 1;
        }
        let mut j: usize = 0;
        while j < self.reexports.len()
            invariant
                j <= self.reexports@.len(),
                lists@.len() == self.exports@.len() + j,
                forall|k: int|
                    0 <= k < lists@.len() ==> (#[trigger] lists@[k])@ == exports_of(self@)[k],
            decreases self.reexports@.len() - j,
        {
            lists.push(&self.reexports[j]);
            j = j + 1;
        }
        lists
    }
}

/// The lists of exports of a library, and after them those that it passes on.
pub open spec fn exports_of(definition: DefinitionModel) -> Seq<ExportsModel> {
    definition.exports + definition.reexports
}

/// `names` with `prefix` before each.
pub open spec fn prefixed(prefix: Seq<char>, names: Seq<Seq<char>>) -> Seq<Seq<char>> {
    Seq::new(names.len(), |i: int| prefix + names[i])
}

/// The symbols that classes stand for: the class itself and the metaclass behind it.
pub open spec fn class_symbols(classes: Seq<Seq<char>>) -> Seq<Seq<char>>
    decreases classes.len(),
{
    if classes.len() == 0 {
        Seq::empty()
    } else {
        class_symbols(classes.drop_last()).push("_OBJC_CLASS_$_"@ + classes.last()).push(
            "_OBJC_METACLASS_$_"@ + classes.last(),
        )
    }
}

/// The symbols that a list of exports defines. A class is listed by its bare name and stands for
/// several symbols; a reference names one of those in full, so they are formed here.
pub open spec fn defined_symbols(exports: ExportsModel) -> Seq<Seq<char>> {
    exports.symbols + exports.thread_local_symbols + class_symbols(exports.objc_classes) + prefixed(
        "_OBJC_IVAR_$_"@,
        exports.objc_ivars,
    ) + prefixed("_OBJC_EHTYPE_$_"@, exports.objc_eh_types)
}

/// The symbols that the first `n` of `lists` define on the target that is linked for.
pub open spec fn symbols_of_lists(lists: Seq<ExportsModel>, n: int) -> Seq<Seq<char>>
    decreases n,
{
    if n <= 0 {
        Seq::empty()
    } else if lists[n - 1].targets.contains(wanted_target()) {
        symbols_of_lists(lists, n - 1) + defined_symbols(lists[n - 1])
    } else {
        symbols_of_lists(lists, n - 1)
    }
}

/// The weak symbols that the first `n` of `lists` define on the target that is linked for.
pub open spec fn weak_symbols_of_lists(lists: Seq<ExportsModel>, n: int) -> Seq<Seq<char>>
    decreases n,
{
    if n <= 0 {
        Seq::empty()
    } else if lists[n - 1].targets.contains(wanted_target()) {
        weak_symbols_of_lists(lists, n - 1) + lists[n - 1].weak_symbols
    } else {
        weak_symbols_of_lists(lists, n - 1)
    }
}

/// The symbols that the first `n` libraries define.
pub open spec fn symbols_of(definitions: Seq<DefinitionModel>, n: int) -> Seq<Seq<char>>
    decreases n,
{
    if n <= 0 {
        Seq::empty()
    } else {
        symbols_of(definitions, n - 1) + symbols_of_lists(
            exports_of(definitions[n - 1]),
            exports_of(definitions[n - 1]).len() as int,
        )
    }
}

/// The weak symbols that the first `n` libraries define.
pub open spec fn weak_symbols_of(definitions: Seq<DefinitionModel>, n: int) -> Seq<Seq<char>>
    decreases n,
{
    if n <= 0 {
        Seq::empty()
    } else {
        weak_symbols_of(definitions, n - 1) + weak_symbols_of_lists(
            exports_of(definitions[n - 1]),
            exports_of(definitions[n - 1]).len() as int,
        )
    }
}

/// The libraries that the main library passes on the exports of.
pub open spec fn passed_on(main: DefinitionModel) -> Seq<Seq<char>> {
    if main.reexported_libraries.len() == 0 {
        Seq::empty()
    } else {
        main.reexported_libraries[0].libraries
    }
}

/// The install names of the documents.
pub open spec fn own_names(definitions: Seq<DefinitionModel>) -> Seq<Seq<char>> {
    Seq::new(definitions.len(), |i: int| definitions[i].install_name)
}

/// Those of the first `n` of `names` that are not in `own`, each once.
pub open spec fn separate_names(names: Seq<Seq<char>>, own: Seq<Seq<char>>, n: int) -> Seq<Seq<char>>
    decreases n,
{
    if n <= 0 {
        Seq::empty()
    } else {
        let earlier = separate_names(names, own, n - 1);
        if own.contains(names[n - 1]) || earlier.contains(names[n - 1]) {
            earlier
        } else {
            earlier.push(names[n - 1])
        }
    }
}

/// What is wrong with one of the documents from `i` on.
pub open spec fn document_error(definitions: Seq<DefinitionModel>, i: int) -> Option<StubErrorModel>
    decreases definitions.len() - i,
{
    if i >= definitions.len() {
        None
    } else if definitions[i].tbd_version != 4 {
        Some(StubErrorModel::WrongVersion { version: definitions[i].tbd_version })
    } else if definitions[i] != definitions[0] && !passed_on(definitions[0]).contains(
        definitions[i].install_name,
    ) {
        Some(StubErrorModel::UnlistedChild { document: i })
    } else {
        document_error(definitions, i + 1)
    }
}

/// Why documents do not define a library.
pub open spec fn library_error(definitions: Seq<DefinitionModel>) -> Option<StubErrorModel> {
    if definitions.len() == 0 {
        Some(StubErrorModel::NoRootLibrary)
    } else if !definitions[0].targets.contains(wanted_target()) {
        Some(StubErrorModel::UnsupportedTargets)
    } else if definitions[0].reexported_libraries.len() > 1 {
        Some(StubErrorModel::SeveralExportedLibraries)
    } else if definitions[0].reexported_libraries.len() == 1
        && !definitions[0].reexported_libraries[0].targets.contains(wanted_target()) {
        Some(StubErrorModel::UnsupportedExportTargets)
    } else {
        document_error(definitions, 0)
    }
}

/// `library` is what the documents define.
pub open spec fn is_defined_by(library: DefinedStubLibrary, definitions: Seq<DefinitionModel>) -> bool {
    let main = definitions[0];
    &&& library.install_name@ == main.install_name
    &&& library.current_version@ == main.current_version
    &&& library.compatibility_version@ == main.compatibility_version
    &&& sorting::texts(library.symbols@) == symbols_of(definitions, definitions.len() as int)
    &&& sorting::texts(library.weak_symbols@) == weak_symbols_of(
        definitions,
        definitions.len() as int,
    )
    &&& sorting::texts(library.reexported_libraries@) == separate_names(
        passed_on(main),
        own_names(definitions),
        passed_on(main).len() as int,
    )
}

impl DefinedStubLibrary {
    /// Returns how many symbols the library defines.
    pub fn total_symbols(&self) -> (total: usize)
        requires
            self.symbols@.len() + self.weak_symbols@.len() <= usize::MAX,
        ensures
            total == self.symbols@.len() + self.weak_symbols@.len(),
    {
        self.symbols.len() + self.weak_symbols.len()
    }
}

fn holds_text(texts: &Vec<String>, wanted: &str) -> (found: bool)
    ensures
        found == sorting::texts(texts@).contains(wanted@),
{
    let mut i: usize = 0;
    while i < texts.len()
        invariant
            i <= texts@.len(),
            forall|k: int| 0 <= k < i ==> sorting::texts(texts@)[k] != wanted@,
        decreases texts@.len() - i,
    {
        if same_text(texts[i].as_str(), wanted) {
            assert(sorting::texts(texts@)[i as int] == wanted@);
            return true;
        }
        i = i + 1;
    }
    false
}

fn append_prefixed(out: &mut Vec<String>, prefix: &str, names: &Vec<String>)
    ensures
        sorting::texts(final(out)@) == sorting::texts(old(out)@) + prefixed(
            prefix@,
            sorting::texts(names@),
        ),
{
    let ghost start = sorting::texts(out@);
    let ghost all = prefixed(prefix@, sorting::texts(names@));
    let mut i: usize = 0;
    assert(start + all.take(0) =~= start);
    while i < names.len()
        invariant
            i <= names@.len(),
            all == prefixed(prefix@, sorting::texts(names@)),
            sorting::texts(out@) == start + all.take(i as int),
        decreases names@.len() - i,
    {
        let ghost before = out@;
        out.push(joined(prefix, names[i].as_str()));
        assert(sorting::texts(out@) =~= sorting::texts(before).push(all[i as int]));
        assert((start + all.take(i as int)).push(all[i as int]) =~= start + all.take(i + 1));
        i = i + 1;
    }
    assert(all.take(i as int) =~= all);
}

fn append_names(out: &mut Vec<String>, names: &Vec<String>)
    ensures
        sorting::texts(final(out)@) == sorting::texts(old(out)@) + sorting::texts(names@),
{
    let ghost start = sorting::texts(out@);
    append_prefixed(out, "", names);
    proof {
        reveal_strlit("");
        assert(prefixed(""@, sorting::texts(names@)) =~= sorting::texts(names@)) by {
            assert forall|i: int| 0 <= i < names@.len() implies prefixed(
                ""@,
                sorting::texts(names@),
            )[i] == sorting::texts(names@)[i] by {
                assert(""@ + names@[i]@ =~= names@[i]@);
            }
        }
    }
}

fn append_classes(out: &mut Vec<String>, classes: &Vec<String>)
    ensures
        sorting::texts(final(out)@) == sorting::texts(old(out)@) + class_symbols(
            sorting::texts(classes@),
        ),
{
    let ghost start = sorting::texts(out@);
    let ghost all = sorting::texts(classes@);
    let mut i: usize = 0;
    assert(start + class_symbols(all.take(0)) =~= start);
    while i < classes.len()
        invariant
            i <= classes@.len(),
            all == sorting::texts(classes@),
            sorting::texts(out@) == start + class_symbols(all.take(i as int)),
        decreases classes@.len() - i,
    {
        let ghost before = out@;
        let class = joined("_OBJC_CLASS_$_", classes[i].as_str());
        let metaclass = joined("_OBJC_METACLASS_$_", classes[i].as_str());
        out.push(class);
        out.push(metaclass);
        proof {
            assert(sorting::texts(out@) =~= sorting::texts(before).push(class@).push(metaclass@));
            assert(all.take(i + 1).drop_last() =~= all.take(i as int));
            assert(all.take(i + 1).last() == all[i as int]);
            let earlier = class_symbols(all.take(i as int));
            assert((start + earlier).push(class@).push(metaclass@) =~= start + earlier.push(
                class@,
            ).push(metaclass@));
        }
        i = i + 1;
    }
    assert(all.take(i as int) =~= all);
}

fn append_defined(symbols: &mut Vec<String>, exports: &Exports)
    ensures
        sorting::texts(final(symbols)@) == sorting::texts(old(symbols)@) + defined_symbols(
            exports@,
        ),
{
    let ghost start = sorting::texts(symbols@);
    append_names(symbols, &exports.symbols);
    append_names(symbols, &exports.thread_local_symbols);
    append_classes(symbols, &exports.objc_classes);
    append_prefixed(symbols, "_OBJC_IVAR_$_", &exports.objc_ivars);
    append_prefixed(symbols, "_OBJC_EHTYPE_$_", &exports.objc_eh_types);
    assert(sorting::texts(symbols@) =~= start + defined_symbols(exports@));
}

fn append_library(
    symbols: &mut Vec<String>,
    weak_symbols: &mut Vec<String>,
    definition: &TextBasedDefinition,
)
    ensures
        sorting::texts(final(symbols)@) == sorting::texts(old(symbols)@) + symbols_of_lists(
            exports_of(definition@),
            exports_of(definition@).len() as int,
        ),
        sorting::texts(final(weak_symbols)@) == sorting::texts(old(weak_symbols)@)
            + weak_symbols_of_lists(exports_of(definition@), exports_of(definition@).len() as int),
{
    let ghost lists_model = exports_of(definition@);
    let ghost start = sorting::texts(symbols@);
    let ghost weak_start = sorting::texts(weak_symbols@);
    let lists = definition.all_exports();
    let mut i: usize = 0;
    assert(start + Seq::<Seq<char>>::empty() =~= start);
    assert(weak_start + Seq::<Seq<char>>::empty() =~= weak_start);
    while i < lists.len()
        invariant
            i <= lists@.len() == lists_model.len(),
            forall|k: int| 0 <= k < lists@.len() ==> (#[trigger] lists@[k])@ == lists_model[k],
            sorting::texts(symbols@) == start + symbols_of_lists(lists_model, i as int),
            sorting::texts(weak_symbols@) == weak_start + weak_symbols_of_lists(
                lists_model,
                i as int,
            ),
        decreases lists@.len() - i,
    {
        let list = lists[i];
        assert(lists@[i as int]@ == lists_model[i as int]);
        if holds_text(&list.targets, "arm64e-macos") {
            append_defined(symbols, list);
            append_names(weak_symbols, &list.weak_symbols);
            proof {
                assert(start + symbols_of_lists(lists_model, i as int) + defined_symbols(list@)
                    =~= start + (symbols_of_lists(lists_model, i as int) + defined_symbols(list@)));
                assert(weak_start + weak_symbols_of_lists(lists_model, i as int)
                    + list@.weak_symbols =~= weak_start + (weak_symbols_of_lists(
                    lists_model,
                    i as int,
                ) + list@.weak_symbols));
            }
        }
        i = i + 1;
    }
}

fn same_texts(a: &Vec<String>, b: &Vec<String>) -> (same: bool)
    ensures
        same == (sorting::texts(a@) == sorting::texts(b@)),
{
    if a.len() != b.len() {
        assert(sorting::texts(a@).len() != sorting::texts(b@).len());
        return false;
    }
    let mut i: usize = 0;
    while i < a.len()
        invariant
            i <= a@.len() == b@.len(),
            forall|k: int| 0 <= k < i ==> sorting::texts(a@)[k] == sorting::texts(b@)[k],
        decreases a@.len() - i,
    {
        if !same_text(a[i].as_str(), b[i].as_str()) {
            assert(sorting::texts(a@)[i as int] != sorting::texts(b@)[i as int]);
            return false;
        }
        i = i + 1;
    }
    assert(sorting::texts(a@) =~= sorting::texts(b@));
    true
}

fn same_umbrellas(a: &Vec<ParentUmbrella>, b: &Vec<ParentUmbrella>) -> (same: bool)
    ensures
        same == (tbd::views(a@) == tbd::views(b@)),
{
    if a.len() != b.len() {
        assert(tbd::views(a@).len() != tbd::views(b@).len());
        return false;
    }
    let mut i: usize = 0;
    while i < a.len()
        invariant
            i <= a@.len() == b@.len(),
            forall|k: int| 0 <= k < i ==> tbd::views(a@)[k] == tbd::views(b@)[k],
        decreases a@.len() - i,
    {
        if !same_texts(&a[i].targets, &b[i].targets) || !same_text(
            a[i].umbrella.as_str(),
            b[i].umbrella.as_str(),
        ) {
            assert(tbd::views(a@)[i as int] != tbd::views(b@)[i as int]);
            return false;
        }
        i = i + 1;
    }
    assert(tbd::views(a@) =~= tbd::views(b@));
    true
}

fn same_reexports(a: &Vec<ReexportedLibraries>, b: &Vec<ReexportedLibraries>) -> (same: bool)
    ensures
        same == (tbd::views(a@) == tbd::views(b@)),
{
    if a.len() != b.len() {
        assert(tbd::views(a@).len() != tbd::views(b@).len());
        return false;
    }
    let mut i: usize = 0;
    while i < a.len()
        invariant
            i <= a@.len() == b@.len(),
            forall|k: int| 0 <= k < i ==> tbd::views(a@)[k] == tbd::views(b@)[k],
        decreases a@.len() - i,
    {
        if !same_texts(&a[i].targets, &b[i].targets) || !same_texts(
            &a[i].libraries,
            &b[i].libraries,
        ) {
            assert(tbd::views(a@)[i as int] != tbd::views(b@)[i as int]);
            return false;
        }
        i = i + 1;
    }
    assert(tbd::views(a@) =~= tbd::views(b@));
    true
}

fn same_export_lists(a: &Vec<Exports>, b: &Vec<Exports>) -> (same: bool)
    ensures
        same == (tbd::views(a@) == tbd::views(b@)),
{
    if a.len() != b.len() {
        assert(tbd::views(a@).len() != tbd::views(b@).len());
        return false;
    }
    let mut i: usize = 0;
    while i < a.len()
        invariant
            i <= a@.len() == b@.len(),
            forall|k: int| 0 <= k < i ==> tbd::views(a@)[k] == tbd::views(b@)[k],
        decreases a@.len() - i,
    {
        let x = &a[i];
        let y = &b[i];
        if !(same_texts(&x.targets, &y.targets) && same_texts(&x.symbols, &y.symbols) && same_texts(
            &x.weak_symbols,
            &y.weak_symbols,
        ) && same_texts(&x.objc_classes, &y.objc_classes) && same_texts(
            &x.objc_ivars,
            &y.objc_ivars,
        ) && same_texts(&x.objc_eh_types, &y.objc_eh_types) && same_texts(
            &x.thread_local_symbols,
            &y.thread_local_symbols,
        )) {
            assert(tbd::views(a@)[i as int] != tbd::views(b@)[i as int]);
            return false;
        }
        i = i + 1;
    }
    assert(tbd::views(a@) =~= tbd::views(b@));
    true
}

fn same_definition(a: &TextBasedDefinition, b: &TextBasedDefinition) -> (same: bool)
    ensures
        same == (a@ == b@),
{
    a.tbd_version == b.tbd_version && same_texts(&a.targets, &b.targets) && same_text(
        a.install_name.as_str(),
        b.install_name.as_str(),
    ) && same_text(a.current_version.as_str(), b.current_version.as_str()) && same_text(
        a.compatibility_version.as_str(),
        b.compatibility_version.as_str(),
    ) && same_umbrellas(&a.parent_umbrella, &b.parent_umbrella) && same_reexports(
        &a.reexported_libraries,
        &b.reexported_libraries,
    ) && same_export_lists(&a.exports, &b.exports) && same_export_lists(&a.reexports, &b.reexports)
}

fn has_own_name(definitions: &Vec<TextBasedDefinition>, name: &str) -> (found: bool)
    ensures
        found == own_names(tbd::views(definitions@)).contains(name@),
{
    let ghost own = own_names(tbd::views(definitions@));
    let mut i: usize = 0;
    while i < definitions.len()
        invariant
            i <= definitions@.len(),
            own == own_names(tbd::views(definitions@)),
            forall|k: int| 0 <= k < i ==> own[k] != name@,
        decreases definitions@.len() - i,
    {
        if same_text(definitions[i].install_name.as_str(), name) {
            assert(own[i as int] == name@);
            return true;
        }
        i = i + 1;
    }
    false
}

fn find_separate_names(names: &Vec<String>, definitions: &Vec<TextBasedDefinition>) -> (result: Vec<
    String,
>)
    ensures
        sorting::texts(result@) == separate_names(
            sorting::texts(names@),
            own_names(tbd::views(definitions@)),
            names@.len() as int,
        ),
{
    let ghost all = sorting::texts(names@);
    let ghost own = own_names(tbd::views(definitions@));
    let mut result: Vec<String> = Vec::new();
    let mut i: usize = 0;
    assert(sorting::texts(result@) =~= Seq::<Seq<char>>::empty());
    while i < names.len()
        invariant
            i <= names@.len(),
            all == sorting::texts(names@),
            own == own_names(tbd::views(definitions@)),
            sorting::texts(result@) == separate_names(all, own, i as int),
        decreases names@.len() - i,
    {
        let name = names[i].as_str();
        if !has_own_name(definitions, name) && !holds_text(&result, name) {
            let ghost before = result@;
            result.push(name.to_owned());
            assert(sorting::texts(result@) =~= sorting::texts(before).push(all[i as int]));
        }
        i = i + 1;
    }
    result
}

fn check_documents(definitions: &Vec<TextBasedDefinition>, passed: &Vec<String>) -> (result: Result<
    (),
    StubError,
>)
    requires
        definitions@.len() > 0,
        sorting::texts(passed@) == passed_on(tbd::views(definitions@)[0]),
    ensures
        match document_error(tbd::views(definitions@), 0) {
            None => result is Ok,
            Some(error) => result matches Err(e) && e@ == error,
        },
{
    let ghost all = tbd::views(definitions@);
    let mut i: usize = 0;
    while i < definitions.len()
        invariant
            i <= definitions@.len(),
            definitions@.len() > 0,
            all == tbd::views(definitions@),
            sorting::texts(passed@) == passed_on(all[0]),
            document_error(all, 0) == document_error(all, i as int),
        decreases definitions@.len() - i,
    {
        let definition = &definitions[i];
        if definition.tbd_version != 4 {
            return Err(StubError::WrongVersion { version: definition.tbd_version });
        }
        if !same_definition(definition, &definitions[0]) && !holds_text(
            passed,
            definition.install_name.as_str(),
        ) {
            return Err(StubError::UnlistedChild { document: i });
        }
        i = i + 1;
    }
    Ok(())
}

/// Returns what documents define. Only a flat tree is supported: one main library with leaf children.
pub fn define_library(definitions: &Vec<TextBasedDefinition>) -> (result: Result<
    DefinedStubLibrary,
    StubError,
>)
    ensures
        match library_error(tbd::views(definitions@)) {
            None => result matches Ok(library) && is_defined_by(library, tbd::views(definitions@)),
            Some(error) => result matches Err(e) && e@ == error,
        },
{
    let ghost all = tbd::views(definitions@);
    if definitions.len() == 0 {
        return Err(StubError::NoRootLibrary);
    }
    let main = &definitions[0];
    if !holds_text(&main.targets, "arm64e-macos") {
        return Err(StubError::UnsupportedTargets);
    }
    if main.reexported_libraries.len() > 1 {
        return Err(StubError::SeveralExportedLibraries);
    }
    let passed: Vec<String> = if main.reexported_libraries.len() == 1 {
        if !holds_text(&main.reexported_libraries[0].targets, "arm64e-macos") {
            return Err(StubError::UnsupportedExportTargets);
        }
        let mut copy: Vec<String> = Vec::new();
        append_names(&mut copy, &main.reexported_libraries[0].libraries);
        assert(sorting::texts(copy@) =~= all[0].reexported_libraries[0].libraries);
        copy
    } else {
        Vec::new()
    };
    assert(sorting::texts(passed@) =~= passed_on(all[0]));
    // A library named here that is not also a document in this file is a separate file to go and
    // read.
    let reexported_libraries = find_separate_names(&passed, definitions);
    match check_documents(definitions, &passed) {
        Err(error) => {
            return Err(error);
        },
        Ok(()) => {},
    }
    let mut symbols: Vec<String> = Vec::new();
    let mut weak_symbols: Vec<String> = Vec::new();
    let mut i: usize = 0;
    assert(sorting::texts(symbols@) =~= Seq::<Seq<char>>::empty());
    assert(sorting::texts(weak_symbols@) =~= Seq::<Seq<char>>::empty());
    while i < definitions.len()
        invariant
            i <= definitions@.len(),
            all == tbd::views(definitions@),
            sorting::texts(symbols@) == symbols_of(all, i as int),
            sorting::texts(weak_symbols@) == weak_symbols_of(all, i as int),
        decreases definitions@.len() - i,
    {
        append_library(&mut symbols, &mut weak_symbols, &definitions[i]);
        i = i + 1;
    }
    Ok(
        DefinedStubLibrary {
            install_name: main.install_name.clone(),
            current_version: main.current_version.clone(),
            compatibility_version: main.compatibility_version.clone(),
            symbols,
            weak_symbols,
            reexported_libraries,
        },
    )
}

/// Returns what a stub library defines. The file is read directly if it has the shape the system
/// libraries are written in; for anything else `parsed` is used, which is what a YAML parser makes of
/// the file.
pub fn parse_defined_library(
    input: &str,
    parsed: &Result<Vec<TextBasedDefinition>, String>,
) -> (result: Result<DefinedStubLibrary, StubError>)
    ensures
        match (tbd::scanned(input@), *parsed) {
            (Some(definitions), _) => match library_error(definitions) {
                None => result matches Ok(library) && is_defined_by(library, definitions),
                Some(error) => result matches Err(e) && e@ == error,
            },
            (None, Ok(definitions)) => match library_error(tbd::views(definitions@)) {
                None => result matches Ok(library) && is_defined_by(
                    library,
                    tbd::views(definitions@),
                ),
                Some(error) => result matches Err(e) && e@ == error,
            },
            (None, Err(message)) => result matches Err(e) && e@ == (StubErrorModel::Yaml {
                message: message@,
            }),
        },
{
    match scan_tbd(input) {
        Some(definitions) => define_library(&definitions),
        None => match parsed {
            Ok(definitions) => define_library(definitions),
            Err(message) => Err(StubError::Yaml { message: message.clone() }),
        },
    }
}

// ---------------------------------------------------------------------------------------------
// Laws
// ---------------------------------------------------------------------------------------------

/// A list of exports that is for the target that is linked for.
pub open spec fn is_wanted_list(definitions: Seq<DefinitionModel>, d: int, l: int) -> bool {
    &&& 0 <= d < definitions.len()
    &&& 0 <= l < exports_of(definitions[d]).len()
    &&& exports_of(definitions[d])[l].targets.contains(wanted_target())
}

proof fn lemma_contains_concat(a: Seq<Seq<char>>, b: Seq<Seq<char>>, x: Seq<char>)
    ensures
        (a + b).contains(x) == (a.contains(x) || b.contains(x)),
{
    if a.contains(x) {
        let i = choose|i: int| 0 <= i < a.len() && a[i] == x;
        assert((a + b)[i] == x);
    }
    if b.contains(x) {
        let i = choose|i: int| 0 <= i < b.len() && b[i] == x;
        assert((a + b)[a.len() + i] == x);
    }
    if (a + b).contains(x) {
        let i = choose|i: int| 0 <= i < (a + b).len() && (a + b)[i] == x;
        if i < a.len() {
            assert(a[i] == x);
        } else {
            assert(b[i - a.len()] == x);
        }
    }
}

proof fn lemma_lists(lists: Seq<ExportsModel>, n: int, x: Seq<char>)
    requires
        0 <= n <= lists.len(),
    ensures
        symbols_of_lists(lists, n).contains(x) <==> exists|l: int|
            0 <= l < n && (#[trigger] lists[l]).targets.contains(wanted_target())
                && defined_symbols(lists[l]).contains(x),
    decreases n,
{
    if n > 0 {
        lemma_lists(lists, n - 1, x);
        lemma_contains_concat(symbols_of_lists(lists, n - 1), defined_symbols(lists[n - 1]), x);
    }
}

proof fn lemma_libraries(definitions: Seq<DefinitionModel>, n: int, x: Seq<char>)
    requires
        0 <= n <= definitions.len(),
    ensures
        symbols_of(definitions, n).contains(x) <==> exists|d: int, l: int|
            0 <= d < n && #[trigger] is_wanted_list(definitions, d, l) && defined_symbols(
                exports_of(definitions[d])[l],
            ).contains(x),
    decreases n,
{
    if n > 0 {
        lemma_libraries(definitions, n - 1, x);
        let lists = exports_of(definitions[n - 1]);
        let count = lists.len() as int;
        lemma_lists(lists, count, x);
        lemma_contains_concat(symbols_of(definitions, n - 1), symbols_of_lists(lists, count), x);
        if symbols_of_lists(lists, count).contains(x) {
            let l = choose|l: int|
                0 <= l < count && (#[trigger] lists[l]).targets.contains(wanted_target())
                    && defined_symbols(lists[l]).contains(x);
            assert(is_wanted_list(definitions, n - 1, l));
        }
        if exists|d: int, l: int|
            0 <= d < n && #[trigger] is_wanted_list(definitions, d, l) && defined_symbols(
                exports_of(definitions[d])[l],
            ).contains(x) {
            let (d, l) = choose|d: int, l: int|
                0 <= d < n && #[trigger] is_wanted_list(definitions, d, l) && defined_symbols(
                    exports_of(definitions[d])[l],
                ).contains(x);
            if d == n - 1 {
                assert(lists[l].targets.contains(wanted_target()));
            } else {
                assert(0 <= d < n - 1 && is_wanted_list(definitions, d, l));
            }
        }
    }
}

/// A library defines exactly the symbols that it or a child library exports on the target that is
/// linked for.
pub proof fn law_defines_what_is_exported(definitions: Seq<DefinitionModel>, name: Seq<char>)
    ensures
        symbols_of(definitions, definitions.len() as int).contains(name) <==> exists|d: int, l: int|
            #[trigger] is_wanted_list(definitions, d, l) && defined_symbols(
                exports_of(definitions[d])[l],
            ).contains(name),
{
    let n = definitions.len() as int;
    lemma_libraries(definitions, n, name);
    if exists|d: int, l: int| #[trigger]
        is_wanted_list(definitions, d, l) && defined_symbols(
            exports_of(definitions[d])[l],
        ).contains(name) {
        let (d, l) = choose|d: int, l: int| #[trigger]
            is_wanted_list(definitions, d, l) && defined_symbols(
                exports_of(definitions[d])[l],
            ).contains(name);
        assert(0 <= d < n && is_wanted_list(definitions, d, l));
    }
}

proof fn lemma_class_symbols(classes: Seq<Seq<char>>, i: int)
    requires
        0 <= i < classes.len(),
    ensures
        class_symbols(classes).contains("_OBJC_CLASS_$_"@ + classes[i]),
        class_symbols(classes).contains("_OBJC_METACLASS_$_"@ + classes[i]),
    decreases classes.len(),
{
    let all = class_symbols(classes);
    let earlier = class_symbols(classes.drop_last());
    let class = "_OBJC_CLASS_$_"@ + classes.last();
    let metaclass = "_OBJC_METACLASS_$_"@ + classes.last();
    if i == classes.len() - 1 {
        assert(all[earlier.len() as int] == class);
        assert(all[earlier.len() as int + 1] == metaclass);
    } else {
        lemma_class_symbols(classes.drop_last(), i);
        let a = choose|a: int|
            0 <= a < earlier.len() && earlier[a] == "_OBJC_CLASS_$_"@ + classes[i];
        let b = choose|b: int|
            0 <= b < earlier.len() && earlier[b] == "_OBJC_METACLASS_$_"@ + classes[i];
        assert(all[a] == earlier[a]);
        assert(all[b] == earlier[b]);
    }
}

/// A class that is listed by its bare name can be referred to by the full names of the class and of
/// its metaclass.
pub proof fn law_classes_can_be_referred_to(exports: ExportsModel, i: int)
    requires
        0 <= i < exports.objc_classes.len(),
    ensures
        defined_symbols(exports).contains("_OBJC_CLASS_$_"@ + exports.objc_classes[i]),
        defined_symbols(exports).contains("_OBJC_METACLASS_$_"@ + exports.objc_classes[i]),
{
    let plain = exports.symbols + exports.thread_local_symbols;
    let classes = class_symbols(exports.objc_classes);
    let ivars = prefixed("_OBJC_IVAR_$_"@, exports.objc_ivars);
    let types = prefixed("_OBJC_EHTYPE_$_"@, exports.objc_eh_types);
    let class = "_OBJC_CLASS_$_"@ + exports.objc_classes[i];
    let metaclass = "_OBJC_METACLASS_$_"@ + exports.objc_classes[i];
    lemma_class_symbols(exports.objc_classes, i);
    lemma_contains_concat(plain, classes, class);
    lemma_contains_concat(plain + classes, ivars, class);
    lemma_contains_concat(plain + classes + ivars, types, class);
    lemma_contains_concat(plain, classes, metaclass);
    lemma_contains_concat(plain + classes, ivars, metaclass);
    lemma_contains_concat(plain + classes + ivars, types, metaclass);
}

proof fn lemma_separate(names: Seq<Seq<char>>, own: Seq<Seq<char>>, n: int, name: Seq<char>)
    requires
        0 <= n <= names.len(),
    ensures
        separate_names(names, own, n).contains(name) <==> !own.contains(name) && exists|i: int|
            0 <= i < n && names[i] == name,
        separate_names(names, own, n).no_duplicates(),
    decreases n,
{
    if n > 0 {
        lemma_separate(names, own, n - 1, name);
        let earlier = separate_names(names, own, n - 1);
        let all = separate_names(names, own, n);
        if !own.contains(names[n - 1]) && !earlier.contains(names[n - 1]) {
            assert(all.last() == names[n - 1]);
            if earlier.contains(name) {
                let i = choose|i: int| 0 <= i < earlier.len() && earlier[i] == name;
                assert(all[i] == name);
            }
            if all.contains(name) && name != names[n - 1] {
                let i = choose|i: int| 0 <= i < all.len() && all[i] == name;
                assert(earlier[i] == name);
            }
            if name == names[n - 1] {
                assert(all[all.len() - 1] == name);
            }
        } else if name == names[n - 1] && !own.contains(name) {
            assert(earlier.contains(name));
        }
    }
}

/// The libraries that are left to read are those that are passed on and not described in the file
/// itself, each once.
pub proof fn law_other_files_are_named_once(definitions: Seq<DefinitionModel>, name: Seq<char>)
    requires
        definitions.len() > 0,
    ensures
        ({
            let passed = passed_on(definitions[0]);
            let left = separate_names(passed, own_names(definitions), passed.len() as int);
            &&& left.no_duplicates()
            &&& left.contains(name) <==> passed.contains(name) && !own_names(definitions).contains(
                name,
            )
        }),
{
    let passed = passed_on(definitions[0]);
    lemma_separate(passed, own_names(definitions), passed.len() as int, name);
}

} // verus!
