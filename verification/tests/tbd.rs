use macho_link::tbd::scan_tbd;
use macho_link::tbd::Exports;
use macho_link::tbd::TextBasedDefinition;
use serde::de::Deserialize;
use serde::de::Deserializer;
use serde::de::Error;
use serde::de::IgnoredAny;
use serde::de::MapAccess;
use serde::de::Visitor;
use std::collections::BTreeMap;
use std::fmt::Formatter;

type Fields = BTreeMap<String, Vec<String>>;

const UMBRELLA: u8 = 0;
const LIBRARIES: u8 = 1;
const EXPORTS: u8 = 2;

/// An item of one of the lists of a document.
struct Item<const KIND: u8>(Fields);

struct ItemVisitor<const KIND: u8>;

/// The strings of an item, the lists that it has to have, and the lists that it can do without.
fn item_fields(kind: u8) -> (&'static [&'static str], &'static [&'static str], &'static [&'static str]) {
    match kind {
        UMBRELLA => (&["umbrella"], &["targets"], &[]),
        LIBRARIES => (&[], &["targets", "libraries"], &[]),
        _ => (
            &[],
            &["targets"],
            &[
                "symbols",
                "weak-symbols",
                "objc-classes",
                "objc-ivars",
                "objc-eh-types",
                "thread-local-symbols",
            ],
        ),
    }
}

fn owned(items: Vec<&str>) -> Vec<String> {
    items.into_iter().map(str::to_owned).collect()
}

impl<'de, const KIND: u8> Visitor<'de> for ItemVisitor<KIND> {
    type Value = Item<KIND>;

    fn expecting(&self, formatter: &mut Formatter) -> std::fmt::Result {
        formatter.write_str("an item")
    }

    fn visit_map<A: MapAccess<'de>>(self, mut map: A) -> Result<Item<KIND>, A::Error> {
        let (strings, required, optional) = item_fields(KIND);
        let mut fields = Fields::new();
        while let Some(key) = map.next_key::<String>()? {
            let name = key.as_str();
            let value = if strings.contains(&name) {
                vec![map.next_value::<&'de str>()?.to_owned()]
            } else if required.contains(&name) || optional.contains(&name) {
                owned(map.next_value::<Vec<&'de str>>()?)
            } else {
                map.next_value::<IgnoredAny>()?;
                continue;
            };
            if fields.insert(key, value).is_some() {
                return Err(A::Error::custom("a field occurs twice"));
            }
        }
        for name in strings.iter().chain(required) {
            if !fields.contains_key(*name) {
                return Err(A::Error::custom("a field is missing"));
            }
        }
        fields.retain(|_, value| !value.is_empty());
        Ok(Item(fields))
    }
}

impl<'de, const KIND: u8> Deserialize<'de> for Item<KIND> {
    fn deserialize<D: Deserializer<'de>>(deserializer: D) -> Result<Self, D::Error> {
        deserializer.deserialize_struct("Item", &[], ItemVisitor)
    }
}

/// A document: its version, its strings and lists of strings, and its lists of items.
#[derive(Debug, PartialEq)]
struct Document(u32, Fields, BTreeMap<String, Vec<Fields>>);

struct DocumentVisitor;

fn fields_of<const KIND: u8>(items: Vec<Item<KIND>>) -> Vec<Fields> {
    items.into_iter().map(|item| item.0).collect()
}

impl<'de> Visitor<'de> for DocumentVisitor {
    type Value = Document;

    fn expecting(&self, formatter: &mut Formatter) -> std::fmt::Result {
        formatter.write_str("a document")
    }

    fn visit_map<A: MapAccess<'de>>(self, mut map: A) -> Result<Document, A::Error> {
        let mut version = None;
        let mut fields = Fields::new();
        let mut lists: BTreeMap<String, Vec<Fields>> = BTreeMap::new();
        while let Some(key) = map.next_key::<String>()? {
            let is_second = match key.as_str() {
                "tbd-version" => version.replace(map.next_value::<u32>()?).is_some(),
                "targets" => fields
                    .insert(key, owned(map.next_value::<Vec<&'de str>>()?))
                    .is_some(),
                "install-name" | "current-version" | "compatibility-version" => fields
                    .insert(key, vec![map.next_value::<&'de str>()?.to_owned()])
                    .is_some(),
                "parent-umbrella" => lists
                    .insert(key, fields_of::<UMBRELLA>(map.next_value()?))
                    .is_some(),
                "reexported-libraries" => lists
                    .insert(key, fields_of::<LIBRARIES>(map.next_value()?))
                    .is_some(),
                "exports" | "reexports" => lists
                    .insert(key, fields_of::<EXPORTS>(map.next_value()?))
                    .is_some(),
                _ => {
                    map.next_value::<IgnoredAny>()?;
                    false
                }
            };
            if is_second {
                return Err(A::Error::custom("a field occurs twice"));
            }
        }
        let Some(version) = version else {
            return Err(A::Error::custom("the version is missing"));
        };
        for name in ["targets", "install-name"] {
            if !fields.contains_key(name) {
                return Err(A::Error::custom("a field is missing"));
            }
        }
        fields.retain(|_, value| !value.is_empty() && value != &[""]);
        lists.retain(|_, value| !value.is_empty());
        Ok(Document(version, fields, lists))
    }
}

impl<'de> Deserialize<'de> for Document {
    fn deserialize<D: Deserializer<'de>>(deserializer: D) -> Result<Self, D::Error> {
        deserializer.deserialize_struct("Document", &[], DocumentVisitor)
    }
}

/// What the YAML parser makes of a file.
fn parsed(text: &str) -> Option<Vec<Document>> {
    serde_yaml::Deserializer::from_str(text)
        .map(Document::deserialize)
        .collect::<Result<Vec<_>, _>>()
        .ok()
}

fn fields(pairs: Vec<(&str, &Vec<String>)>) -> Fields {
    pairs
        .into_iter()
        .filter(|(_, value)| !value.is_empty())
        .map(|(key, value)| (key.to_owned(), value.clone()))
        .collect()
}

fn export_fields(exports: &[Exports]) -> Vec<Fields> {
    exports
        .iter()
        .map(|item| {
            fields(vec![
                ("targets", &item.targets),
                ("symbols", &item.symbols),
                ("weak-symbols", &item.weak_symbols),
                ("objc-classes", &item.objc_classes),
                ("objc-ivars", &item.objc_ivars),
                ("objc-eh-types", &item.objc_eh_types),
                ("thread-local-symbols", &item.thread_local_symbols),
            ])
        })
        .collect()
}

fn document(definition: &TextBasedDefinition) -> Document {
    let mut own = Fields::new();
    own.insert("targets".to_owned(), definition.targets.clone());
    for (key, value) in [
        ("install-name", &definition.install_name),
        ("current-version", &definition.current_version),
        ("compatibility-version", &definition.compatibility_version),
    ] {
        own.insert(key.to_owned(), vec![value.clone()]);
    }
    own.retain(|_, value| !value.is_empty() && value != &[""]);
    let mut lists = BTreeMap::new();
    let umbrellas = definition
        .parent_umbrella
        .iter()
        .map(|item| {
            let umbrella = vec![item.umbrella.clone()];
            fields(vec![("targets", &item.targets), ("umbrella", &umbrella)])
        })
        .collect::<Vec<_>>();
    lists.insert("parent-umbrella".to_owned(), umbrellas);
    let libraries = definition
        .reexported_libraries
        .iter()
        .map(|item| fields(vec![("targets", &item.targets), ("libraries", &item.libraries)]))
        .collect::<Vec<_>>();
    lists.insert("reexported-libraries".to_owned(), libraries);
    lists.insert("exports".to_owned(), export_fields(&definition.exports));
    lists.insert("reexports".to_owned(), export_fields(&definition.reexports));
    lists.retain(|_, value| !value.is_empty());
    Document(definition.tbd_version, own, lists)
}

fn scanned(text: &str) -> Option<Vec<Document>> {
    scan_tbd(text).map(|definitions| definitions.iter().map(document).collect())
}

const SAMPLE: &str = "--- !tapi-tbd
tbd-version:     4
targets:         [ x86_64-macos, arm64e-macos ]
uuids:
  - target:          x86_64-macos
    value:           00000000-0000-0000-0000-000000000000
install-name:    '/usr/lib/libA.dylib'
current-version: 1.2.3
flags:           [ it, \"is\" ]
parent-umbrella:
  - targets:         [ arm64e-macos ]
    umbrella:        Main
exports:
  - targets:         [ arm64e-macos ]
    symbols:         [ _a, '_b$c',
                       _d ]
    objc-classes:    [ NSThing ]
...
";

#[test]
fn scanning_agrees_with_yaml() {
    let found = scanned(SAMPLE).expect("should be scanned");
    assert_eq!(found.len(), 1);
    assert_eq!(found[0].0, 4);
    assert_eq!(found[0].1["install-name"], ["/usr/lib/libA.dylib"]);
    assert_eq!(found[0].1["current-version"], ["1.2.3"]);
    assert_eq!(found[0].2["exports"][0]["symbols"], ["_a", "_b$c", "_d"]);
    assert_eq!(found[0].2["parent-umbrella"][0]["umbrella"], ["Main"]);
    assert_eq!(Some(found), parsed(SAMPLE));
    let twice = format!("{SAMPLE}{SAMPLE}");
    assert_eq!(scanned(&twice).map(|found| found.len()), Some(2));
    assert_eq!(scanned(&twice), parsed(&twice));
}

const HEAD: &str =
    "--- !tapi-tbd\ntbd-version: 4\ntargets: [ arm64e-macos ]\ninstall-name: libA\n";

#[test]
fn what_is_not_understood_is_not_scanned() {
    assert!(scanned(HEAD).is_some());
    for refused in [
        // Keys below a key that is not known.
        "exports:\n  - targets: [ arm64e-macos ]\n    other:\n      symbols: [ _a ]\n",
        "exports:\n  - targets: [ arm64e-macos ]\n    other:\n      - symbols: [ _a ]\n",
        // Items at different depths.
        "exports:\n  - targets: [ arm64e-macos ]\n    - targets: [ x86_64-macos ]\n",
        "exports:\n  - targets: [ arm64e-macos ]\n     symbols: [ _a ]\n",
        // Keys that are not at the start of their line, or not text.
        "  exports:\n",
        "\texports:\n",
        "current-version\t: 1\n",
        "'current-version': 1\n",
        "!tag: 1\n",
        "targets:other: 1\n",
        // Values that are not written out on their line.
        "current-version: |\n  1\n",
        "other: >\n  exports: [\n",
        "current-version: 'a\n  b'\n",
        "other: 'a\nexports: b'\n",
        "other: \"a\\\"\nexports: b\"\n",
        "other: { a: b,\nexports: c }\n",
        "other: &a 'b\nexports: c'\n",
        "current-version: \"1\\x2e0\"\n",
        "current-version: 'it''s'\n",
        "current-version: &anchor 1\n",
        "current-version: *anchor\n",
        "current-version: { a: b }\n",
        "current-version: 1 # a comment\n",
        "other: 1\n  exports: 2\n",
        // Lists with more behind them, or with more in them than words.
        "exports:\n  - targets: [ arm64e-macos ] more\n",
        "exports:\n  - targets: [ arm64e-macos, , x86_64-macos ]\n",
        "exports:\n  - targets: [ it's ]\n",
        "other: [ it's ]\nmore: [ it's ]\n",
        "other: [ a # ]\nexports: ]\n",
        "exports:\n  - targets: [ a # b ]\n",
        "exports:\n  - targets: [ arm64e-macos\n",
        "exports:\n  - targets: [ a\n      b ]\n",
        // White space around words that is part of them elsewhere.
        "current-version: 1\u{a0}\n",
        "\u{3000}\n",
        "exports:\n  - targets: [ a\u{3000}, b ]\n",
        "exports:\n  - targets: [ \u{3000}a ]\n",
        // Characters that end a line elsewhere.
        "current-version: 1\rother: 2\n",
        "current-version: a\u{2028}b\n",
        "current-version: a\u{85}b\n",
        "\u{feff}current-version: 1\n",
        // Markers that are not at the start of their line, or not alone.
        "  ---\n",
        "  ...\n",
        "---other\n",
        "--- !other\n",
        "---!tapi-tbd\n",
        // A line that is no field.
        "text\n",
    ] {
        let text = format!("{HEAD}{refused}");
        assert_eq!(scanned(&text), None, "{refused:?}");
    }
    // Fields that all have a blank before them.
    let indented = HEAD.replace('\n', "\n ");
    assert_eq!(scanned(&indented), None);
    assert!(parsed(indented.trim_end()).is_some());
}

#[test]
fn what_there_is_no_use_for_is_skipped() {
    let used = "exports:\n  - targets: [ arm64e-macos ]\n    symbols: [ _a ]\n";
    let expected = scanned(&format!("{HEAD}{used}")).unwrap();
    for unused in [
        "allowable-clients:\n  - targets: [ arm64e-macos ]\n    clients: [ a, b ]\n",
        "other:\n  exports:\n    - targets: [ arm64e-macos ]\n      symbols: [ _x ]\n",
        "other: [ a,\n  b ]\n",
        "other: [ a#b ]\n",
        "other: text\n",
        "other: it's\n",
        "other: 'it''s'\n",
        "other: \"a \\\"b\\\"\"\n",
        "other: { a: b, c: d }\n",
        "other: &anchor text\n",
        "other: !tag text\n",
        "a.b/c: 1\n",
        "-x: 1\n",
        "gr\u{f6}\u{df}e: 1\n",
        "# A comment\n\n",
        " \n",
    ] {
        for text in [format!("{HEAD}{unused}{used}"), format!("{HEAD}{used}{unused}")] {
            assert_eq!(scanned(&text).as_ref(), Some(&expected), "{unused:?}");
            assert_eq!(parsed(&text).as_ref(), Some(&expected), "{unused:?}");
        }
    }
    // A list that cannot be read does not matter where it is not needed.
    let broken = "allowable-clients:\n  - clients: [ a, , b ]\n";
    let text = format!("{HEAD}{broken}{used}    other: [ a, , b ]\n");
    assert_eq!(scanned(&text), Some(expected));
    assert_eq!(parsed(&text), None);
}

#[test]
fn text_need_not_be_plain() {
    for (shape, version) in [
        ("current-version: caf\u{e9}\n", "caf\u{e9}"),
        ("current-version: a\u{3000}b\n", "a\u{3000}b"),
        ("current-version:\t1\t\n", "1"),
        ("current-version: 'a\tb'  \n", "a\tb"),
        ("current-version: @1\n", "@1"),
        ("current-version: 1\n...\n", "1"),
    ] {
        let text = format!("{HEAD}{shape}");
        let found = scanned(&text).expect(shape);
        assert_eq!(found[0].1["current-version"], [version]);
        if let Some(expected) = parsed(&text) {
            assert_eq!(found, expected, "{shape:?}");
        }
    }
    // Lines may end as they do on other systems.
    let other = SAMPLE.replace('\n', "\r\n");
    assert_eq!(scanned(&other), scanned(SAMPLE));
    assert_eq!(parsed(&other), parsed(SAMPLE));
    let tag = SAMPLE.replace("--- !", "---\t !");
    assert_eq!(scanned(&tag), scanned(SAMPLE));
    assert_eq!(parsed(&tag), parsed(SAMPLE));
    // A YAML parser would not go on here.
    let after = format!("{HEAD}...\ncurrent-version: 2\n");
    assert_eq!(scanned(&after).unwrap()[0].1["current-version"], ["2"]);
    assert_eq!(parsed(&after), None);
}

/// If both read the text, they find the same. Returns whether they do.
fn both_agree(text: &str) -> bool {
    let Some(found) = scanned(text) else {
        return false;
    };
    match parsed(text) {
        Some(expected) => {
            assert_eq!(found, expected, "{text}");
            true
        }
        None => false,
    }
}

const SLIPS: &[char] = &[
    ' ', '\n', '-', ':', '\'', '"', '[', ']', ',', '#', '{', '}', '\t', '!', '|', '>', '&', '*', '?',
    '%', '@', '`', '~', '\\', '\r', '.', 'x', '\u{e9}', '\u{a0}', '\u{3000}', '\u{2028}', '\u{feff}',
];

#[test]
fn no_slip_makes_scanning_disagree() {
    let sample: Vec<char> = SAMPLE.chars().collect();
    let mut agreed = 0;
    for at in 0..sample.len() {
        let mut without = sample.clone();
        without.remove(at);
        let mut texts = vec![without];
        for slip in SLIPS {
            let mut inserted = sample.clone();
            inserted.insert(at, *slip);
            let mut replaced = sample.clone();
            replaced[at] = *slip;
            texts.push(inserted);
            texts.push(replaced);
        }
        for text in texts {
            let text: String = text.into_iter().collect();
            agreed += both_agree(&text) as usize;
        }
    }
    assert!(agreed > 1000, "{agreed}");
}

#[test]
fn no_swap_of_lines_makes_scanning_disagree() {
    let lines: Vec<&str> = SAMPLE.lines().collect();
    let mut agreed = 0;
    for first in 0..lines.len() {
        for second in 0..lines.len() {
            for indent in 0..6 {
                let mut swapped: Vec<String> = lines.iter().map(|line| line.to_string()).collect();
                let moved = swapped.remove(first);
                swapped.insert(second, format!("{}{}", " ".repeat(indent), moved.trim_start()));
                let text = swapped.join("\n");
                agreed += both_agree(&text) as usize;
            }
        }
    }
    assert!(agreed > 50, "{agreed}");
}

#[test]
fn no_several_slips_make_scanning_disagree() {
    let mut state: u64 = 1;
    let mut random = |limit: usize| {
        state = state.wrapping_mul(6364136223846793005).wrapping_add(1442695040888963407);
        (state >> 33) as usize % limit
    };
    let mut agreed = 0;
    for _ in 0..30000 {
        let mut text: Vec<char> = SAMPLE.chars().collect();
        for _ in 0..2 + random(3) {
            let at = random(text.len());
            match random(5) {
                0 => {
                    text.remove(at);
                }
                1 => text[at] = SLIPS[random(SLIPS.len())],
                2 => {
                    // A copy of a stretch of the text, somewhere else.
                    let end = (at + 1 + random(40)).min(text.len());
                    let stretch: Vec<char> = text[at..end].to_vec();
                    let to = random(text.len());
                    text.splice(to..to, stretch);
                }
                _ => text.insert(at, SLIPS[random(SLIPS.len())]),
            }
        }
        let text: String = text.into_iter().collect();
        agreed += both_agree(&text) as usize;
    }
    assert!(agreed > 500, "{agreed}");
}
