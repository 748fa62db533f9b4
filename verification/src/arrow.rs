//! Edge terminal styles: parsing user-facing names into [`ArrowType`] and back.
//!
//! The names `arrow`, `diamond` and `none` are the legacy terminal-shape spellings;
//! the canonical spellings are those `arrow_type_str` produces.

use vstd::prelude::*;

use crate::document::ArrowType;
use crate::text::str_eq;

verus! {

/// The arrow type a name denotes; unknown names (the match is exact and
/// case-sensitive) denote the default.
pub open spec fn parse_arrow_type_spec(s: Seq<char>) -> ArrowType {
    if s == "arrow"@ || s == "default"@ {
        ArrowType::Default
    } else if s == "diamond"@ || s == "step"@ {
        ArrowType::Step
    } else if s == "none"@ || s == "sharp"@ {
        ArrowType::Sharp
    } else if s == "open"@ || s == "straight"@ {
        ArrowType::Straight
    } else if s == "circle"@ || s == "curved"@ {
        ArrowType::Curved
    } else {
        ArrowType::Default
    }
}

/// The canonical name of an arrow type.
pub open spec fn arrow_type_name(a: ArrowType) -> Seq<char> {
    match a {
        ArrowType::Default => "default"@,
        ArrowType::Sharp => "sharp"@,
        ArrowType::Curved => "curved"@,
        ArrowType::Step => "step"@,
        ArrowType::Straight => "straight"@,
    }
}

/// Parses a terminal-shape or arrow-type name.
pub fn parse_arrow_type(input: &str) -> (a: ArrowType)
    ensures
        a == parse_arrow_type_spec(input@),
{
    if str_eq(input, "arrow") || str_eq(input, "default") {
        ArrowType::Default
    } else if str_eq(input, "diamond") || str_eq(input, "step") {
        ArrowType::Step
    } else if str_eq(input, "none") || str_eq(input, "sharp") {
        ArrowType::Sharp
    } else if str_eq(input, "open") || str_eq(input, "straight") {
        ArrowType::Straight
    } else if str_eq(input, "circle") || str_eq(input, "curved") {
        ArrowType::Curved
    } else {
        ArrowType::Default
    }
}

/// The canonical name of an arrow type.
pub fn arrow_type_str(a: ArrowType) -> (s: &'static str)
    ensures
        s@ == arrow_type_name(a),
{
    match a {
        ArrowType::Default => "default",
        ArrowType::Sharp => "sharp",
        ArrowType::Curved => "curved",
        ArrowType::Step => "step",
        ArrowType::Straight => "straight",
    }
}

/// Writing an arrow type out and reading the name back gives the same arrow type.
pub proof fn lemma_arrow_type_round_trip(a: ArrowType)
    ensures
        parse_arrow_type_spec(arrow_type_name(a)) == a,
{
    reveal_strlit("arrow");
    reveal_strlit("default");
    reveal_strlit("diamond");
    reveal_strlit("step");
    reveal_strlit("none");
    reveal_strlit("sharp");
    reveal_strlit("open");
    reveal_strlit("straight");
    reveal_strlit("circle");
    reveal_strlit("curved");
    assert("arrow"@.len() == 5 && "arrow"@[0] == 'a' && "arrow"@[1] == 'r');
    assert("default"@.len() == 7 && "default"@[0] == 'd' && "default"@[1] == 'e');
    assert("diamond"@.len() == 7 && "diamond"@[0] == 'd' && "diamond"@[1] == 'i');
    assert("step"@.len() == 4 && "step"@[0] == 's' && "step"@[1] == 't');
    assert("none"@.len() == 4 && "none"@[0] == 'n' && "none"@[1] == 'o');
    assert("sharp"@.len() == 5 && "sharp"@[0] == 's' && "sharp"@[1] == 'h');
    assert("open"@.len() == 4 && "open"@[0] == 'o' && "open"@[1] == 'p');
    assert("straight"@.len() == 8 && "straight"@[0] == 's' && "straight"@[1] == 't');
    assert("circle"@.len() == 6 && "circle"@[0] == 'c' && "circle"@[1] == 'i');
    assert("curved"@.len() == 6 && "curved"@[0] == 'c' && "curved"@[1] == 'u');
}

/// Reading a name and writing the arrow type out yields a canonical name, and reading
/// that again gives the same arrow type: parsing is idempotent through the canonical form.
pub proof fn lemma_parse_is_canonical(s: Seq<char>)
    ensures
        parse_arrow_type_spec(arrow_type_name(parse_arrow_type_spec(s))) == parse_arrow_type_spec(s),
{
    lemma_arrow_type_round_trip(parse_arrow_type_spec(s));
}

} // verus!
