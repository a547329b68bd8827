//! Event classification: a pure, deterministic mapping from an event
//! identifier to one of four categories, decided by the identifier's prefix.

use vstd::prelude::*;
use vstd::string::StrSliceExecFns;
use crate::text::{all_plain, is_plain};

verus! {

/// The four semantic categories an event identifier can fall into.
#[derive(Clone, Copy, Debug, PartialEq, Eq, Structural)]
pub enum Category {
    Key,
    Click,
    Wheel,
    Other,
}

pub open spec fn key_prefix() -> Seq<char> {
    seq!['K', 'E', 'Y', '_']
}

pub open spec fn click_prefix() -> Seq<char> {
    seq!['C', 'L', 'I', 'C', 'K', '_']
}

pub open spec fn wheel_prefix() -> Seq<char> {
    seq!['W', 'H', 'E', 'E', 'L', '_']
}

/// `p` is an initial segment of `s`.
pub open spec fn has_prefix(s: Seq<char>, p: Seq<char>) -> bool {
    p.len() <= s.len() && s.subrange(0, p.len() as int) == p
}

/// The category of an identifier, decided by its prefix alone:
/// `KEY_*` is a key, `CLICK_*` a click, `WHEEL_*` a wheel notch,
/// and anything else is uncategorised.
pub open spec fn spec_category_of(name: Seq<char>) -> Category {
    if has_prefix(name, key_prefix()) {
        Category::Key
    } else if has_prefix(name, click_prefix()) {
        Category::Click
    } else if has_prefix(name, wheel_prefix()) {
        Category::Wheel
    } else {
        Category::Other
    }
}

/// The textual label of a category, as it is stored and reported.
pub open spec fn spec_category_label(c: Category) -> Seq<char> {
    match c {
        Category::Key => seq!['K', 'E', 'Y'],
        Category::Click => seq!['C', 'L', 'I', 'C', 'K'],
        Category::Wheel => seq!['W', 'H', 'E', 'E', 'L'],
        Category::Other => seq!['O', 'T', 'H', 'E', 'R'],
    }
}

/// Classify an identifier by its prefix. Never fails: an identifier
/// that matches no known prefix is simply `Category::Other`.
pub fn classify(name: &str) -> (c: Category)
    ensures
        c == spec_category_of(name@),
{
    let n = name.unicode_len();
    if n >= 4 && name.get_char(0) == 'K' && name.get_char(1) == 'E' && name.get_char(2) == 'Y'
        && name.get_char(3) == '_' {
        proof {
            assert(name@.subrange(0, 4) =~= key_prefix());
        }
        Category::Key
    } else if n >= 6 && name.get_char(0) == 'C' && name.get_char(1) == 'L' && name.get_char(2)
        == 'I' && name.get_char(3) == 'C' && name.get_char(4) == 'K' && name.get_char(5) == '_' {
        proof {
            assert(name@.subrange(0, 6) =~= click_prefix());
            assert(!has_prefix(name@, key_prefix()));
        }
        Category::Click
    } else if n >= 6 && name.get_char(0) == 'W' && name.get_char(1) == 'H' && name.get_char(2)
        == 'E' && name.get_char(3) == 'E' && name.get_char(4) == 'L' && name.get_char(5) == '_' {
        proof {
            assert(name@.subrange(0, 6) =~= wheel_prefix());
            assert(!has_prefix(name@, key_prefix()));
            assert(!has_prefix(name@, click_prefix()));
        }
        Category::Wheel
    } else {
        proof {
            assert(!has_prefix(name@, key_prefix()));
            assert(!has_prefix(name@, click_prefix()));
            assert(!has_prefix(name@, wheel_prefix()));
        }
        Category::Other
    }
}

/// The exec label of a category.
pub fn category_label(c: Category) -> (r: &'static str)
    ensures
        r@ == spec_category_label(c),
{
    match c {
        Category::Key => {
            let r = "KEY";
            proof {
                reveal_strlit("KEY");
                assert(r@ =~= spec_category_label(Category::Key));
            }
            r
        },
        Category::Click => {
            let r = "CLICK";
            proof {
                reveal_strlit("CLICK");
                assert(r@ =~= spec_category_label(Category::Click));
            }
            r
        },
        Category::Wheel => {
            let r = "WHEEL";
            proof {
                reveal_strlit("WHEEL");
                assert(r@ =~= spec_category_label(Category::Wheel));
            }
            r
        },
        Category::Other => {
            let r = "OTHER";
            proof {
                reveal_strlit("OTHER");
                assert(r@ =~= spec_category_label(Category::Other));
            }
            r
        },
    }
}

/// The event type of an identifier as a label, exactly as the server
/// derives it: the client-side and server-side rule are one function.
pub fn get_event_type(event_name: &str) -> (r: &str)
    ensures
        r@ == spec_category_label(spec_category_of(event_name@)),
{
    category_label(classify(event_name))
}

/// The canonical name a key code maps to. The mapping is a fixed table,
/// a function of the code alone.
pub uninterp spec fn key_name_of(code: u16) -> Seq<char>;

/// Relies on evdev's `Debug` formatting of `KeyCode`: it prints the
/// constant's name from a fixed table ("KEY_A", ...), or the fallback
/// text "unknown key: " followed by the decimal code for an unlisted
/// one; either way the result depends on the code alone, and every
/// character of it — capital letters, digits, underscores, or the
/// fallback's letters, colon, space and digits — is printable ASCII
/// with no quote and no backslash.
#[verifier::external_body]
pub(crate) fn key_code_name(code: u16) -> (r: String)
    ensures
        r@ == key_name_of(code),
        all_plain(r@),
{
    format!("{:?}", evdev::KeyCode::new(code))
}

/// The identifier a button code maps to: the three standard mouse
/// buttons by their fixed codes, anything else a catch-all.
pub open spec fn spec_button_identifier(button: u32) -> Seq<char> {
    if button == 0x110 {
        seq!['C', 'L', 'I', 'C', 'K', '_', 'L', 'E', 'F', 'T']
    } else if button == 0x111 {
        seq!['C', 'L', 'I', 'C', 'K', '_', 'R', 'I', 'G', 'H', 'T']
    } else if button == 0x112 {
        seq!['C', 'L', 'I', 'C', 'K', '_', 'M', 'I', 'D', 'D', 'L', 'E']
    } else {
        seq!['C', 'L', 'I', 'C', 'K', '_', 'O', 'T', 'H', 'E', 'R']
    }
}

pub fn button_identifier(button: u32) -> (r: &'static str)
    ensures
        r@ == spec_button_identifier(button),
{
    if button == 0x110 {
        let r = "CLICK_LEFT";
        proof {
            reveal_strlit("CLICK_LEFT");
            assert(r@ =~= spec_button_identifier(0x110));
        }
        r
    } else if button == 0x111 {
        let r = "CLICK_RIGHT";
        proof {
            reveal_strlit("CLICK_RIGHT");
            assert(r@ =~= spec_button_identifier(0x111));
        }
        r
    } else if button == 0x112 {
        let r = "CLICK_MIDDLE";
        proof {
            reveal_strlit("CLICK_MIDDLE");
            assert(r@ =~= spec_button_identifier(0x112));
        }
        r
    } else {
        let r = "CLICK_OTHER";
        proof {
            reveal_strlit("CLICK_OTHER");
            assert(r@ =~= spec_button_identifier(button));
        }
        r
    }
}

/// Every button identifier classifies as a click, and lies in the
/// plain identifier alphabet.
pub proof fn lemma_button_identifier_is_click(button: u32)
    ensures
        spec_category_of(spec_button_identifier(button)) == Category::Click,
        all_plain(spec_button_identifier(button)),
{
    let name = spec_button_identifier(button);
    assert(name.subrange(0, 6) =~= click_prefix());
    assert(!has_prefix(name, key_prefix()));
    assert forall|i: int| 0 <= i < name.len() implies is_plain(name[i]) by {
        assert(is_plain(name[i]));
    }
}

/// The identifier of a scroll axis.
pub open spec fn spec_wheel_identifier(horizontal: bool) -> Seq<char> {
    if horizontal {
        seq!['W', 'H', 'E', 'E', 'L', '_', 'H', 'O', 'R', 'I', 'Z', 'O', 'N', 'T', 'A', 'L']
    } else {
        seq!['W', 'H', 'E', 'E', 'L', '_', 'V', 'E', 'R', 'T', 'I', 'C', 'A', 'L']
    }
}

pub fn wheel_identifier(horizontal: bool) -> (r: &'static str)
    ensures
        r@ == spec_wheel_identifier(horizontal),
{
    if horizontal {
        let r = "WHEEL_HORIZONTAL";
        proof {
            reveal_strlit("WHEEL_HORIZONTAL");
            assert(r@ =~= spec_wheel_identifier(true));
        }
        r
    } else {
        let r = "WHEEL_VERTICAL";
        proof {
            reveal_strlit("WHEEL_VERTICAL");
            assert(r@ =~= spec_wheel_identifier(false));
        }
        r
    }
}

/// Every wheel identifier classifies as a wheel, and lies in the
/// plain identifier alphabet.
pub proof fn lemma_wheel_identifier_is_wheel(horizontal: bool)
    ensures
        spec_category_of(spec_wheel_identifier(horizontal)) == Category::Wheel,
        all_plain(spec_wheel_identifier(horizontal)),
{
    let name = spec_wheel_identifier(horizontal);
    assert(name.subrange(0, 6) =~= wheel_prefix());
    assert(!has_prefix(name, key_prefix()));
    assert(!has_prefix(name, click_prefix()));
    assert forall|i: int| 0 <= i < name.len() implies is_plain(name[i]) by {
        assert(is_plain(name[i]));
    }
}

} // verus!
