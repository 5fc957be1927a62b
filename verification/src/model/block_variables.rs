//! The unset value and code range of a categorical block-model variable.
//!
//! A named variable stores integer codes with a name each. Its unset value
//! is written in the file either as a code or as a name; colouring hides the
//! blocks that hold it, just as it hides `-99` in a numeric column.
use vstd::prelude::*;

use crate::model::block_model::{categorical_variable, is_categorical_type, BlockVariable};
use crate::text::{eq_ignore_ascii_case, is_blank, is_blank_str, parse_u32, parsed_u32, same_ignoring_ascii_case, trim, trimmed};

verus! {

/// The text naming a variable's unset value: its `global` field, or its
/// `default` field when `global` is blank, trimmed.
pub open spec fn default_text(variable: BlockVariable) -> Seq<char> {
    if is_blank(variable.global@) {
        trimmed(variable.default@)
    } else {
        trimmed(variable.global@)
    }
}

/// The first code, by ascending code, whose name is `text` ignoring ASCII
/// case.
pub open spec fn code_named(strings: Seq<(u32, String)>, text: Seq<char>) -> Option<u32>
    decreases strings.len(),
{
    if strings.len() == 0 {
        None
    } else if same_ignoring_ascii_case(strings[0].1@, text) {
        Some(strings[0].0)
    } else {
        code_named(strings.drop_first(), text)
    }
}

/// A name picks a code only by matching it: the code found for `text` is
/// the code of the first entry whose name equals `text` ignoring ASCII
/// case, and there is none exactly when no name equals it (so an empty text
/// picks nothing unless some name is empty).
pub proof fn law_code_named_matches_name(strings: Seq<(u32, String)>, text: Seq<char>)
    ensures
        code_named(strings, text) is None <==> forall|k: int|
            0 <= k < strings.len() ==> !same_ignoring_ascii_case(#[trigger] strings[k].1@, text),
        forall|k: int|
            0 <= k < strings.len() && same_ignoring_ascii_case(#[trigger] strings[k].1@, text) && (forall|j: int|
                0 <= j < k ==> !same_ignoring_ascii_case(#[trigger] strings[j].1@, text)) ==> code_named(strings, text)
                == Some(strings[k].0),
    decreases strings.len(),
{
    if strings.len() > 0 {
        let rest = strings.drop_first();
        law_code_named_matches_name(rest, text);
        assert forall|k: int| 0 <= k < rest.len() implies #[trigger] rest[k] == strings[k + 1] by {}
        if !same_ignoring_ascii_case(strings[0].1@, text) {
            assert((forall|k: int| 0 <= k < rest.len() ==> !same_ignoring_ascii_case(#[trigger] rest[k].1@, text))
                ==> (forall|k: int| 0 <= k < strings.len() ==> !same_ignoring_ascii_case(#[trigger] strings[k].1@, text))) by {
                if forall|k: int| 0 <= k < rest.len() ==> !same_ignoring_ascii_case(#[trigger] rest[k].1@, text) {
                    assert forall|k: int| 0 <= k < strings.len() implies !same_ignoring_ascii_case(
                        #[trigger] strings[k].1@,
                        text,
                    ) by {
                        if k > 0 {
                            assert(strings[k] == rest[k - 1]);
                        }
                    }
                }
            }
            assert forall|k: int|
                0 <= k < strings.len() && same_ignoring_ascii_case(#[trigger] strings[k].1@, text) && (forall|j: int|
                    0 <= j < k ==> !same_ignoring_ascii_case(#[trigger] strings[j].1@, text)) implies code_named(
                strings,
                text,
            ) == Some(strings[k].0) by {
                assert(k > 0);
                assert(strings[k] == rest[k - 1]);
                assert forall|j: int| 0 <= j < k - 1 implies !same_ignoring_ascii_case(#[trigger] rest[j].1@, text) by {
                    assert(rest[j] == strings[j + 1]);
                }
            }
        }
    }
}

/// The code a categorical variable's unset value stands for: the `global`
/// (or, when that is blank, `default`) field read as a code, or else the
/// code it names.
pub fn named_default_code(variable: &BlockVariable) -> (r: Option<u32>)
    ensures
        r == (match parsed_u32(default_text(*variable)) {
            Some(code) => Some(code),
            None => code_named(variable.strings@, default_text(*variable)),
        }),
        parsed_u32(default_text(*variable)) is None ==> (r is None <==> forall|k: int|
            0 <= k < variable.strings@.len() ==> !same_ignoring_ascii_case(
                #[trigger] variable.strings@[k].1@,
                default_text(*variable),
            )),
{
    proof {
        law_code_named_matches_name(variable.strings@, default_text(*variable));
    }
    let text = if is_blank_str(variable.global.as_str()) {
        trim(variable.default.as_str())
    } else {
        trim(variable.global.as_str())
    };
    if let Some(code) = parse_u32(text.as_str()) {
        return Some(code);
    }
    let mut i: usize = 0;
    proof {
        assert(variable.strings@.skip(0) =~= variable.strings@);
    }
    while i < variable.strings.len()
        invariant
            i <= variable.strings.len(),
            text@ == default_text(*variable),
            parsed_u32(text@) is None,
            code_named(variable.strings@, text@) == code_named(variable.strings@.skip(i as int), text@),
        decreases variable.strings.len() - i,
    {
        let ghost rest = variable.strings@.skip(i as int);
        proof {
            assert(rest[0] == variable.strings@[i as int]);
            assert(rest.drop_first() =~= variable.strings@.skip(i + 1));
        }
        if eq_ignore_ascii_case(variable.strings[i].1.as_str(), text.as_str()) {
            return Some(variable.strings[i].0);
        }
        i = i + 1;
    }
    proof {
        assert(variable.strings@.skip(i as int) =~= Seq::<(u32, String)>::empty());
    }
    None
}

/// The lowest and highest code of a categorical variable, or `None` for a
/// numeric variable or one without codes.
pub fn category_code_range(variable: &BlockVariable) -> (r: Option<(u32, u32)>)
    ensures
        r is Some <==> is_categorical_type(variable.physical_type@) && variable.strings@.len() > 0,
        r matches Some((lowest, highest)) ==> {
            &&& exists|i: int| 0 <= i < variable.strings@.len() && #[trigger] variable.strings@[i].0 == lowest
            &&& exists|j: int| 0 <= j < variable.strings@.len() && #[trigger] variable.strings@[j].0 == highest
            &&& forall|k: int| 0 <= k < variable.strings@.len() ==> lowest <= #[trigger] variable.strings@[k].0 <= highest
        },
{
    if !categorical_variable(variable) || variable.strings.len() == 0 {
        return None;
    }
    let mut lowest: u32 = variable.strings[0].0;
    let mut highest: u32 = variable.strings[0].0;
    let ghost mut at_lowest: int = 0;
    let ghost mut at_highest: int = 0;
    let mut i: usize = 1;
    while i < variable.strings.len()
        invariant
            1 <= i <= variable.strings.len(),
            0 <= at_lowest < variable.strings@.len(),
            0 <= at_highest < variable.strings@.len(),
            variable.strings@[at_lowest].0 == lowest,
            variable.strings@[at_highest].0 == highest,
            forall|k: int| 0 <= k < i ==> lowest <= #[trigger] variable.strings@[k].0 <= highest,
        decreases variable.strings.len() - i,
    {
        let code = variable.strings[i].0;
        if code < lowest {
            lowest = code;
            proof {
                at_lowest = i as int;
            }
        }
        if code > highest {
            highest = code;
            proof {
                at_highest = i as int;
            }
        }
        i = i + 1;
    }
    Some((lowest, highest))
}

} // verus!
