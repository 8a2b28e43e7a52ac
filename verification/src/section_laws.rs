//! Where sections go, by what they are called.
use crate::config;
use crate::layout::OutputSectionId;
use crate::sections::SectionOutcome;
use crate::sections;
use crate::strings;
use vstd::prelude::*;

verus! {

/// What the names of sections are made of.
proof fn lemma_spelling()
    ensures
        "__text"@.len() == 6,
        "__text"@ == seq!['_', '_', 't', 'e', 'x', 't'],
        "__StaticInit"@.len() == 12,
        "__StaticInit"@ == seq!['_', '_', 'S', 't', 'a', 't', 'i', 'c', 'I', 'n', 'i', 't'],
        "__cstring"@.len() == 9,
        "__cstring"@ == seq!['_', '_', 'c', 's', 't', 'r', 'i', 'n', 'g'],
        "__ustring"@.len() == 9,
        "__ustring"@ == seq!['_', '_', 'u', 's', 't', 'r', 'i', 'n', 'g'],
        "__objc_classname"@.len() == 16,
        "__objc_classname"@ == seq!['_', '_', 'o', 'b', 'j', 'c', '_', 'c', 'l', 'a', 's', 's', 'n', 'a', 'm', 'e'],
        "__const"@.len() == 7,
        "__const"@ == seq!['_', '_', 'c', 'o', 'n', 's', 't'],
        "__data"@.len() == 6,
        "__data"@ == seq!['_', '_', 'd', 'a', 't', 'a'],
        "__thread_vars"@.len() == 13,
        "__thread_vars"@ == seq!['_', '_', 't', 'h', 'r', 'e', 'a', 'd', '_', 'v', 'a', 'r', 's'],
        "__thread_data"@.len() == 13,
        "__thread_data"@ == seq!['_', '_', 't', 'h', 'r', 'e', 'a', 'd', '_', 'd', 'a', 't', 'a'],
        "__thread_bss"@.len() == 12,
        "__thread_bss"@ == seq!['_', '_', 't', 'h', 'r', 'e', 'a', 'd', '_', 'b', 's', 's'],
        "__common"@.len() == 8,
        "__common"@ == seq!['_', '_', 'c', 'o', 'm', 'm', 'o', 'n'],
        "__bss"@.len() == 5,
        "__bss"@ == seq!['_', '_', 'b', 's', 's'],
        "__literal4"@.len() == 10,
        "__literal4"@ == seq!['_', '_', 'l', 'i', 't', 'e', 'r', 'a', 'l', '4'],
        "__literal8"@.len() == 10,
        "__literal8"@ == seq!['_', '_', 'l', 'i', 't', 'e', 'r', 'a', 'l', '8'],
        "__literal16"@.len() == 11,
        "__literal16"@ == seq!['_', '_', 'l', 'i', 't', 'e', 'r', 'a', 'l', '1', '6'],
        "__gcc_except_tab"@.len() == 16,
        "__gcc_except_tab"@ == seq!['_', '_', 'g', 'c', 'c', '_', 'e', 'x', 'c', 'e', 'p', 't', '_', 't', 'a', 'b'],
        "__mod_init_func"@.len() == 15,
        "__mod_init_func"@ == seq!['_', '_', 'm', 'o', 'd', '_', 'i', 'n', 'i', 't', '_', 'f', 'u', 'n', 'c'],
        "__mod_term_func"@.len() == 15,
        "__mod_term_func"@ == seq!['_', '_', 'm', 'o', 'd', '_', 't', 'e', 'r', 'm', '_', 'f', 'u', 'n', 'c'],
        "__eh_frame"@.len() == 10,
        "__eh_frame"@ == seq!['_', '_', 'e', 'h', '_', 'f', 'r', 'a', 'm', 'e'],
        "__bitcode"@.len() == 9,
        "__bitcode"@ == seq!['_', '_', 'b', 'i', 't', 'c', 'o', 'd', 'e'],
        "__cmdline"@.len() == 9,
        "__cmdline"@ == seq!['_', '_', 'c', 'm', 'd', 'l', 'i', 'n', 'e'],
        "__debug_"@.len() == 8,
        "__debug_"@ == seq!['_', '_', 'd', 'e', 'b', 'u', 'g', '_'],
        "__apple_"@.len() == 8,
        "__apple_"@ == seq!['_', '_', 'a', 'p', 'p', 'l', 'e', '_'],
        "__compact_unwind"@.len() == 16,
        "__compact_unwind"@ == seq!['_', '_', 'c', 'o', 'm', 'p', 'a', 'c', 't', '_', 'u', 'n', 'w', 'i', 'n', 'd'],
        "__objc_meth"@.len() == 11,
        "__objc_meth"@ == seq!['_', '_', 'o', 'b', 'j', 'c', '_', 'm', 'e', 't', 'h'],
{
    reveal_strlit("__text");
    reveal_strlit("__StaticInit");
    reveal_strlit("__cstring");
    reveal_strlit("__ustring");
    reveal_strlit("__objc_classname");
    reveal_strlit("__const");
    reveal_strlit("__data");
    reveal_strlit("__thread_vars");
    reveal_strlit("__thread_data");
    reveal_strlit("__thread_bss");
    reveal_strlit("__common");
    reveal_strlit("__bss");
    reveal_strlit("__literal4");
    reveal_strlit("__literal8");
    reveal_strlit("__literal16");
    reveal_strlit("__gcc_except_tab");
    reveal_strlit("__mod_init_func");
    reveal_strlit("__mod_term_func");
    reveal_strlit("__eh_frame");
    reveal_strlit("__bitcode");
    reveal_strlit("__cmdline");
    reveal_strlit("__debug_");
    reveal_strlit("__apple_");
    reveal_strlit("__compact_unwind");
    reveal_strlit("__objc_meth");
    assert("__text"@ =~= seq!['_', '_', 't', 'e', 'x', 't']);
    assert("__StaticInit"@ =~= seq!['_', '_', 'S', 't', 'a', 't', 'i', 'c', 'I', 'n', 'i', 't']);
    assert("__cstring"@ =~= seq!['_', '_', 'c', 's', 't', 'r', 'i', 'n', 'g']);
    assert("__ustring"@ =~= seq!['_', '_', 'u', 's', 't', 'r', 'i', 'n', 'g']);
    assert("__objc_classname"@ =~= seq!['_', '_', 'o', 'b', 'j', 'c', '_', 'c', 'l', 'a', 's', 's', 'n', 'a', 'm', 'e']);
    assert("__const"@ =~= seq!['_', '_', 'c', 'o', 'n', 's', 't']);
    assert("__data"@ =~= seq!['_', '_', 'd', 'a', 't', 'a']);
    assert("__thread_vars"@ =~= seq!['_', '_', 't', 'h', 'r', 'e', 'a', 'd', '_', 'v', 'a', 'r', 's']);
    assert("__thread_data"@ =~= seq!['_', '_', 't', 'h', 'r', 'e', 'a', 'd', '_', 'd', 'a', 't', 'a']);
    assert("__thread_bss"@ =~= seq!['_', '_', 't', 'h', 'r', 'e', 'a', 'd', '_', 'b', 's', 's']);
    assert("__common"@ =~= seq!['_', '_', 'c', 'o', 'm', 'm', 'o', 'n']);
    assert("__bss"@ =~= seq!['_', '_', 'b', 's', 's']);
    assert("__literal4"@ =~= seq!['_', '_', 'l', 'i', 't', 'e', 'r', 'a', 'l', '4']);
    assert("__literal8"@ =~= seq!['_', '_', 'l', 'i', 't', 'e', 'r', 'a', 'l', '8']);
    assert("__literal16"@ =~= seq!['_', '_', 'l', 'i', 't', 'e', 'r', 'a', 'l', '1', '6']);
    assert("__gcc_except_tab"@ =~= seq!['_', '_', 'g', 'c', 'c', '_', 'e', 'x', 'c', 'e', 'p', 't', '_', 't', 'a', 'b']);
    assert("__mod_init_func"@ =~= seq!['_', '_', 'm', 'o', 'd', '_', 'i', 'n', 'i', 't', '_', 'f', 'u', 'n', 'c']);
    assert("__mod_term_func"@ =~= seq!['_', '_', 'm', 'o', 'd', '_', 't', 'e', 'r', 'm', '_', 'f', 'u', 'n', 'c']);
    assert("__eh_frame"@ =~= seq!['_', '_', 'e', 'h', '_', 'f', 'r', 'a', 'm', 'e']);
    assert("__bitcode"@ =~= seq!['_', '_', 'b', 'i', 't', 'c', 'o', 'd', 'e']);
    assert("__cmdline"@ =~= seq!['_', '_', 'c', 'm', 'd', 'l', 'i', 'n', 'e']);
    assert("__debug_"@ =~= seq!['_', '_', 'd', 'e', 'b', 'u', 'g', '_']);
    assert("__apple_"@ =~= seq!['_', '_', 'a', 'p', 'p', 'l', 'e', '_']);
    assert("__compact_unwind"@ =~= seq!['_', '_', 'c', 'o', 'm', 'p', 'a', 'c', 't', '_', 'u', 'n', 'w', 'i', 'n', 'd']);
    assert("__objc_meth"@ =~= seq!['_', '_', 'o', 'b', 'j', 'c', '_', 'm', 'e', 't', 'h']);
}

proof fn lemma_first(keys: Seq<Seq<char>>, key: Seq<char>, i: int, k: int)
    requires
        0 <= i <= k < keys.len(),
        keys[k] == key,
        forall|j: int| i <= j < k ==> #[trigger] keys[j] != key,
    ensures
        config::position_from(keys, key, i) == Some(k),
    decreases k - i,
{
    if i < k {
        assert(keys[i] != key);
        lemma_first(keys, key, i + 1, k);
    }
}

proof fn lemma_absent(keys: Seq<Seq<char>>, key: Seq<char>, i: int)
    requires
        0 <= i <= keys.len(),
        forall|j: int| 0 <= j < keys.len() ==> #[trigger] keys[j] != key,
    ensures
        config::position_from(keys, key, i) is None,
    decreases keys.len() - i,
{
    if i < keys.len() {
        assert(keys[i] != key);
        lemma_absent(keys, key, i + 1);
    }
}

/// Whether the name is one of those with a section of their own.
pub open spec fn has_rule(name: Seq<char>) -> bool {
    ||| name == "__text"@
    ||| name == "__StaticInit"@
    ||| name == "__cstring"@
    ||| name == "__ustring"@
    ||| name == "__objc_classname"@
    ||| name == "__const"@
    ||| name == "__data"@
    ||| name == "__thread_vars"@
    ||| name == "__thread_data"@
    ||| name == "__thread_bss"@
    ||| name == "__common"@
    ||| name == "__bss"@
    ||| name == "__literal4"@
    ||| name == "__literal8"@
    ||| name == "__literal16"@
    ||| name == "__gcc_except_tab"@
    ||| name == "__mod_init_func"@
    ||| name == "__mod_term_func"@
    ||| name == "__eh_frame"@
}

proof fn lemma_no_rule(name: Seq<char>)
    requires
        !has_rule(name),
    ensures
        config::position_from(config::literals(sections::RULE_NAMES@), name, 0) is None,
        config::position_from(config::literals(sections::KEPT_NAMES@), name, 0) is None,
{
    let rules = config::literals(sections::RULE_NAMES@);
    let kept = config::literals(sections::KEPT_NAMES@);
    assert forall|j: int| 0 <= j < rules.len() implies #[trigger] rules[j] != name by {
        assert(rules[j] == sections::RULE_NAMES@[j]@);
    }
    assert forall|j: int| 0 <= j < kept.len() implies #[trigger] kept[j] != name by {
        assert(kept[j] == sections::KEPT_NAMES@[j]@);
    }
    lemma_absent(rules, name, 0);
    lemma_absent(kept, name, 0);
}

/// Debug information stays in the object files, whatever follows the start of its section's name,
/// and what only feeds link-time optimisation is left out too. The names of methods are strings.
/// What says how functions are unwound is read and not copied.
pub proof fn law_sections_of_a_kind_are_treated_alike(name: Seq<char>)
    ensures
        strings::starts(name, "__debug_"@) || strings::starts(name, "__apple_"@)
            ==> sections::outcome_of(name) == Some(SectionOutcome::Discard),
        strings::starts(name, "__objc_meth"@) ==> sections::outcome_of(name) == Some(
            SectionOutcome::Section(OutputSectionId::Cstring),
        ),
        name == "__compact_unwind"@ ==> sections::outcome_of(name) == Some(
            SectionOutcome::FrameData,
        ),
        name == "__bitcode"@ || name == "__cmdline"@ ==> sections::outcome_of(name) == Some(
            SectionOutcome::Discard,
        ),
{
    lemma_spelling();
    let debug = strings::starts(name, "__debug_"@);
    let apple = strings::starts(name, "__apple_"@);
    let method = strings::starts(name, "__objc_meth"@);
    if debug {
        assert(name[2] == name.take(8)[2] && name[3] == name.take(8)[3]);
    }
    if apple {
        assert(name[2] == name.take(8)[2] && name[3] == name.take(8)[3]);
    }
    if method {
        assert(name[7] == name.take(11)[7] && name[2] == name.take(11)[2]);
    }
    if debug || apple || method || name == "__compact_unwind"@ || name == "__bitcode"@ || name
        == "__cmdline"@ {
        assert(!has_rule(name));
        lemma_no_rule(name);
    }
    if name == "__compact_unwind"@ || name == "__bitcode"@ || name == "__cmdline"@ {
        if method {
            assert(name[3] == name.take(11)[3]);
        }
    }
    if debug || apple {
        assert(!method) by {
            if method {
                assert(name[2] == name.take(11)[2]);
            }
        }
        assert(sections::starts_with_any(name, sections::DISCARDED_PREFIXES@)) by {
            assert(sections::DISCARDED_PREFIXES@[0]@ == "__debug_"@);
            assert(sections::DISCARDED_PREFIXES@[1]@ == "__apple_"@);
        }
    }
    if name == "__bitcode"@ {
        lemma_first(config::literals(sections::DISCARDED_NAMES@), name, 0, 0);
    }
    if name == "__cmdline"@ {
        assert(sections::DISCARDED_NAMES@[0]@ == "__bitcode"@);
        assert(config::literals(sections::DISCARDED_NAMES@)[0] == "__bitcode"@);
        assert("__bitcode"@[2] != "__cmdline"@[2]);
        lemma_first(config::literals(sections::DISCARDED_NAMES@), name, 0, 1);
    }
}

/// A section without a rule of its own, and of none of those kinds, is for others to place.
pub proof fn law_other_sections_have_no_rule(name: Seq<char>)
    requires
        !has_rule(name),
        !strings::starts(name, "__debug_"@),
        !strings::starts(name, "__apple_"@),
        !strings::starts(name, "__objc_meth"@),
        name != "__compact_unwind"@,
        name != "__bitcode"@,
        name != "__cmdline"@,
    ensures
        sections::outcome_of(name) is None,
{
    lemma_no_rule(name);
    let discarded = config::literals(sections::DISCARDED_NAMES@);
    assert forall|j: int| 0 <= j < discarded.len() implies #[trigger] discarded[j] != name by {
        assert(discarded[j] == sections::DISCARDED_NAMES@[j]@);
    }
    lemma_absent(discarded, name, 0);
    assert(!sections::starts_with_any(name, sections::DISCARDED_PREFIXES@)) by {
        assert forall|i: int| 0 <= i < sections::DISCARDED_PREFIXES@.len() implies !strings::starts(
            name,
            (#[trigger] sections::DISCARDED_PREFIXES@[i])@,
        ) by {}
    }
}

/// Code, strings, constants, variables and what is per thread go to the sections of the image that
/// are for them. What the image finds by other means than a reference is kept.
#[verifier::rlimit(40)]
#[verifier::spinoff_prover]
pub proof fn law_sections_go_where_they_belong(name: Seq<char>)
    ensures
        name == "__text"@ || name == "__StaticInit"@ ==> sections::outcome_of(name) == Some(
            SectionOutcome::Section(OutputSectionId::Text),
        ),
        name == "__cstring"@ || name == "__objc_classname"@ ==> sections::outcome_of(name) == Some(
            SectionOutcome::Section(OutputSectionId::Cstring),
        ),
        name == "__ustring"@ || name == "__const"@ || name == "__literal4"@ || name == "__literal8"@ || name == "__literal16"@ ==> sections::outcome_of(name) == Some(
            SectionOutcome::Section(OutputSectionId::Const),
        ),
        name == "__data"@ ==> sections::outcome_of(name) == Some(
            SectionOutcome::Section(OutputSectionId::Data),
        ),
        name == "__thread_vars"@ ==> sections::outcome_of(name) == Some(
            SectionOutcome::Section(OutputSectionId::ThreadVars),
        ),
        name == "__thread_data"@ ==> sections::outcome_of(name) == Some(
            SectionOutcome::Section(OutputSectionId::Tdata),
        ),
        name == "__thread_bss"@ ==> sections::outcome_of(name) == Some(
            SectionOutcome::Section(OutputSectionId::Tbss),
        ),
        name == "__common"@ ==> sections::outcome_of(name) == Some(
            SectionOutcome::Section(OutputSectionId::Common),
        ),
        name == "__bss"@ ==> sections::outcome_of(name) == Some(
            SectionOutcome::Section(OutputSectionId::Bss),
        ),
        name == "__gcc_except_tab"@ ==> sections::outcome_of(name) == Some(
            SectionOutcome::KeptSection(OutputSectionId::GccExceptTable),
        ),
        name == "__mod_init_func"@ ==> sections::outcome_of(name) == Some(
            SectionOutcome::KeptSection(OutputSectionId::InitArray),
        ),
        name == "__mod_term_func"@ ==> sections::outcome_of(name) == Some(
            SectionOutcome::KeptSection(OutputSectionId::FiniArray),
        ),
        name == "__eh_frame"@ ==> sections::outcome_of(name) == Some(
            SectionOutcome::KeptSection(OutputSectionId::MachoEhFrame),
        ),
{
    lemma_spelling();
    let rules = config::literals(sections::RULE_NAMES@);
    let kept = config::literals(sections::KEPT_NAMES@);
    assert(rules.len() == 15 && kept.len() == 4);
    assert(rules[0] == "__text"@);
    assert(rules[1] == "__StaticInit"@);
    assert(rules[2] == "__cstring"@);
    assert(rules[3] == "__ustring"@);
    assert(rules[4] == "__objc_classname"@);
    assert(rules[5] == "__const"@);
    assert(rules[6] == "__data"@);
    assert(rules[7] == "__thread_vars"@);
    assert(rules[8] == "__thread_data"@);
    assert(rules[9] == "__thread_bss"@);
    assert(rules[10] == "__common"@);
    assert(rules[11] == "__bss"@);
    assert(rules[12] == "__literal4"@);
    assert(rules[13] == "__literal8"@);
    assert(rules[14] == "__literal16"@);
    assert(kept[0] == "__gcc_except_tab"@);
    assert(kept[1] == "__mod_init_func"@);
    assert(kept[2] == "__mod_term_func"@);
    assert(kept[3] == "__eh_frame"@);
    if name == "__text"@ {
        lemma_first(rules, name, 0, 0);
    }
    if name == "__StaticInit"@ {
        lemma_first(rules, name, 0, 1);
    }
    if name == "__cstring"@ {
        lemma_first(rules, name, 0, 2);
    }
    if name == "__ustring"@ {
        lemma_first(rules, name, 0, 3);
    }
    if name == "__objc_classname"@ {
        lemma_first(rules, name, 0, 4);
    }
    if name == "__const"@ {
        lemma_first(rules, name, 0, 5);
    }
    if name == "__data"@ {
        lemma_first(rules, name, 0, 6);
    }
    if name == "__thread_vars"@ {
        lemma_first(rules, name, 0, 7);
    }
    if name == "__thread_data"@ {
        lemma_first(rules, name, 0, 8);
    }
    if name == "__thread_bss"@ {
        lemma_first(rules, name, 0, 9);
    }
    if name == "__common"@ {
        lemma_first(rules, name, 0, 10);
    }
    if name == "__bss"@ {
        lemma_first(rules, name, 0, 11);
    }
    if name == "__literal4"@ {
        lemma_first(rules, name, 0, 12);
    }
    if name == "__literal8"@ {
        lemma_first(rules, name, 0, 13);
    }
    if name == "__literal16"@ {
        lemma_first(rules, name, 0, 14);
    }
    if name == "__gcc_except_tab"@ {
        lemma_absent(rules, name, 0);
        lemma_first(kept, name, 0, 0);
    }
    if name == "__mod_init_func"@ {
        lemma_absent(rules, name, 0);
        lemma_first(kept, name, 0, 1);
    }
    if name == "__mod_term_func"@ {
        lemma_absent(rules, name, 0);
        lemma_first(kept, name, 0, 2);
    }
    if name == "__eh_frame"@ {
        lemma_absent(rules, name, 0);
        lemma_first(kept, name, 0, 3);
    }
}

// ---------------------------------------------------------------------------------------------
// Sections of the image
// ---------------------------------------------------------------------------------------------

/// What a section of the image is called, its type and attributes and its least alignment.
pub open spec fn is_defined_as(
    id: OutputSectionId,
    name: Seq<char>,
    flags: u32,
    alignment_exponent: u8,
) -> bool {
    &&& sections::built_in_from(id, 0) is Some
    &&& ({
        let i = sections::built_in_from(id, 0)->0;
        &&& sections::BUILT_IN_NAMES@[i]@ == name
        &&& sections::BUILT_IN_FLAGS@[i] == flags
        &&& sections::BUILT_IN_ALIGNMENTS@[i] == alignment_exponent
    })
}

proof fn lemma_built_in(id: OutputSectionId, i: int, k: int)
    requires
        0 <= i <= k < sections::BUILT_IN_SECTIONS@.len(),
        sections::BUILT_IN_SECTIONS@[k] == id,
        forall|j: int| i <= j < k ==> #[trigger] sections::BUILT_IN_SECTIONS@[j] != id,
    ensures
        sections::built_in_from(id, i) == Some(k),
    decreases k - i,
{
    if i < k {
        assert(sections::BUILT_IN_SECTIONS@[i] != id);
        lemma_built_in(id, i + 1, k);
    }
}

/// The loader goes by the types of sections: slots that it fills in, stubs, what runs before and
/// after the program, what each thread has a copy of, what is filled with zeros. Code is marked as
/// such.
#[verifier::rlimit(40)]
#[verifier::spinoff_prover]
pub proof fn law_sections_of_the_image_are_typed()
    ensures
        is_defined_as(OutputSectionId::UnwindInfo, "__unwind_info"@, 0, 2),
        is_defined_as(OutputSectionId::Got, "__got"@, 0x6, 0),
        is_defined_as(OutputSectionId::PltGot, "__stubs"@, 0x8000_0408, 2),
        is_defined_as(OutputSectionId::Text, "__text"@, 0x8000_0400, 0),
        is_defined_as(OutputSectionId::Cstring, "__cstring"@, 0x2, 0),
        is_defined_as(OutputSectionId::Const, "__const"@, 0, 0),
        is_defined_as(OutputSectionId::GccExceptTable, "__gcc_except_tab"@, 0, 0),
        is_defined_as(OutputSectionId::Data, "__data"@, 0, 0),
        is_defined_as(OutputSectionId::ThreadVars, "__thread_vars"@, 0x13, 0),
        is_defined_as(OutputSectionId::Tdata, "__thread_data"@, 0x11, 0),
        is_defined_as(OutputSectionId::Tbss, "__thread_bss"@, 0x12, 0),
        is_defined_as(OutputSectionId::InitArray, "__mod_init_func"@, 0x9, 0),
        is_defined_as(OutputSectionId::FiniArray, "__mod_term_func"@, 0xa, 0),
        is_defined_as(OutputSectionId::MachoEhFrame, "__eh_frame"@, 0x0800_0000, 3),
        is_defined_as(OutputSectionId::Common, "__common"@, 0x1, 0),
        is_defined_as(OutputSectionId::Bss, "__bss"@, 0x1, 0),
{
    lemma_built_in(OutputSectionId::UnwindInfo, 0, 7);
    lemma_built_in(OutputSectionId::Got, 0, 9);
    lemma_built_in(OutputSectionId::PltGot, 0, 10);
    lemma_built_in(OutputSectionId::Text, 0, 11);
    lemma_built_in(OutputSectionId::Cstring, 0, 12);
    lemma_built_in(OutputSectionId::Const, 0, 13);
    lemma_built_in(OutputSectionId::GccExceptTable, 0, 14);
    lemma_built_in(OutputSectionId::Data, 0, 15);
    lemma_built_in(OutputSectionId::ThreadVars, 0, 16);
    lemma_built_in(OutputSectionId::Tdata, 0, 17);
    lemma_built_in(OutputSectionId::Tbss, 0, 18);
    lemma_built_in(OutputSectionId::InitArray, 0, 19);
    lemma_built_in(OutputSectionId::FiniArray, 0, 20);
    lemma_built_in(OutputSectionId::MachoEhFrame, 0, 21);
    lemma_built_in(OutputSectionId::Common, 0, 22);
    lemma_built_in(OutputSectionId::Bss, 0, 23);
}

} // verus!
