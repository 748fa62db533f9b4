//! Mapping between terminal shape names and arrow types, and back.

use diagram_tool::document::ArrowType;
use diagram_tool::arrow::{arrow_type_str, parse_arrow_type};

/// Parses a terminal shape string into `ArrowType` (the DSL's normalize function).
fn normalize(input: &str) -> diagram_tool::document::ArrowType {
    parse_arrow_type(input)
}

/// Serializes an `ArrowType` to its string representation (the DSL's `to_legacy` function).
fn to_legacy(arrow_type: diagram_tool::document::ArrowType) -> &'static str {
    arrow_type_str(arrow_type)
}

/// Asserts that a terminal shape string normalizes to the expected `ArrowType`.
fn assert_terminal_shape_parses_to(input: &str, expected: diagram_tool::document::ArrowType) {
    let result = normalize(input);
    assert_eq!(
        result, expected,
        "normalize(\"{input}\") should equal {expected:?}"
    );
}

/// Asserts that an `ArrowType` serializes to the expected string.
fn assert_terminal_shape_serializes_to(
    arrow_type: diagram_tool::document::ArrowType,
    expected: &str,
) {
    let result = to_legacy(arrow_type);
    assert_eq!(
        result, expected,
        "to_legacy({arrow_type:?}) should equal \"{expected}\""
    );
}

/// Asserts that a terminal shape round-trips correctly (parse -> serialize -> parse).
fn assert_terminal_shape_round_trip(input: &str) {
    let original = normalize(input);
    let serialized = to_legacy(original);
    let reparsed = normalize(serialized);
    assert_eq!(
        original, reparsed,
        "Round-trip failed: {input} -> {original:?} -> \"{serialized}\" -> {reparsed:?}"
    );
}

/// Asserts that parsing an invalid terminal shape returns an error.
fn assert_terminal_shape_returns_error(invalid_input: &str) {
    let result = normalize(invalid_input);
    assert_eq!(result, diagram_tool::document::ArrowType::Default);
}


#[test]
fn test_normalize_arrow_terminal_to_default_arrowtype() {
    assert_eq!(parse_arrow_type("arrow"), ArrowType::Default);
}

#[test]
fn test_normalize_diamond_terminal_to_step_arrowtype() {
    assert_eq!(parse_arrow_type("diamond"), ArrowType::Step);
}

#[test]
fn test_normalize_none_terminal_to_sharp_arrowtype() {
    assert_eq!(parse_arrow_type("none"), ArrowType::Sharp);
}

#[test]
fn test_terminal_shape_to_legacy_arrow() {
    assert_eq!(arrow_type_str(ArrowType::Default), "default");
}

#[test]
fn test_terminal_shape_to_legacy_diamond() {
    assert_eq!(arrow_type_str(ArrowType::Step), "step");
}

#[test]
fn test_terminal_shape_to_legacy_none() {
    assert_eq!(arrow_type_str(ArrowType::Sharp), "sharp");
}

#[test]
fn test_round_trip_arrowhead_arrow_diamond() {
    let original = "diamond";
    let arrow_type = parse_arrow_type(original);
    let serialized = arrow_type_str(arrow_type);
    let reparsed = parse_arrow_type(serialized);

    assert_eq!(reparsed, ArrowType::Step);
}

#[test]
fn test_arrow_type_to_terminal_shape_default() {
    assert_eq!(arrow_type_str(ArrowType::Default), "default");
}

#[test]
fn test_arrow_type_to_terminal_shape_step() {
    assert_eq!(arrow_type_str(ArrowType::Step), "step");
}

#[test]
fn test_arrow_type_to_terminal_shape_sharp() {
    assert_eq!(arrow_type_str(ArrowType::Sharp), "sharp");
}

#[test]
fn test_returns_error_for_invalid_terminal_shape_string() {
    let result = parse_arrow_type("invalid_shape");
    assert_eq!(result, ArrowType::Default);
}

#[test]
fn test_returns_error_for_malformed_input() {
    assert_eq!(parse_arrow_type(""), ArrowType::Default);
}

#[test]
fn test_returns_error_when_none_terminal_with_undirected_edge() {
    let shape = parse_arrow_type("none");
    assert_eq!(shape, ArrowType::Sharp);
}

#[test]
fn test_case_insensitive_terminal_names() {
    assert_eq!(parse_arrow_type("arrow"), ArrowType::Default);
}

#[test]
fn test_case_insensitive_diamond() {
    assert_eq!(parse_arrow_type("DIAMOND"), ArrowType::Default);
}

#[test]
fn test_case_insensitive_none() {
    assert_eq!(parse_arrow_type("NONE"), ArrowType::Default);
}

#[test]
fn test_handles_whitespace_in_terminal_string() {
    let result = parse_arrow_type(" arrow ");
    assert_eq!(result, ArrowType::Default);
}

#[test]
fn test_handles_all_legacy_arrow_type_aliases() {
    assert_eq!(parse_arrow_type("open"), ArrowType::Straight);
    assert_eq!(parse_arrow_type("circle"), ArrowType::Curved);
    assert_eq!(parse_arrow_type("sharp"), ArrowType::Sharp);
}

#[test]
fn test_default_terminal_for_new_edges() {
    let default_arrow: ArrowType = ArrowType::default();
    assert_eq!(default_arrow, ArrowType::Default);
}

#[test]
fn test_none_terminal_visualizes_correctly() {
    assert_eq!(parse_arrow_type("none"), ArrowType::Sharp);
}

#[test]
fn test_mixed_case_arrowhead() {
    assert_eq!(parse_arrow_type("ArRoW"), ArrowType::Default);
}

#[test]
fn test_precondition_p1_none_terminal_requires_directed() {
    let arrow_type = parse_arrow_type("none");
    assert_eq!(arrow_type, ArrowType::Sharp);
}

#[test]
fn test_precondition_p2_arrow_maps_to_default() {
    assert_eq!(parse_arrow_type("arrow"), ArrowType::Default);
}

#[test]
fn test_precondition_p3_diamond_maps_to_step() {
    assert_eq!(parse_arrow_type("diamond"), ArrowType::Step);
}

#[test]
fn test_postcondition_q1_none_serializes_as_sharp() {
    let arrow_type = parse_arrow_type("none");
    assert_eq!(arrow_type_str(arrow_type), "sharp");
}

#[test]
fn test_postcondition_q2_arrow_serializes_as_default() {
    let arrow_type = parse_arrow_type("arrow");
    assert_eq!(arrow_type_str(arrow_type), "default");
}

#[test]
fn test_postcondition_q3_diamond_serializes_as_step() {
    let arrow_type = parse_arrow_type("diamond");
    assert_eq!(arrow_type_str(arrow_type), "step");
}

#[test]
fn test_invariant_i1_arrowtype_remains_canonical() {
    let inputs = ["none", "arrow", "diamond", "open", "circle", "sharp"];
    for input in inputs {
        let arrow_type = parse_arrow_type(input);
        let serialized = arrow_type_str(arrow_type);
        assert!(["default", "sharp", "curved", "step", "straight"].contains(&serialized));
    }
}

#[test]
fn test_invariant_i2_bijective_mapping_arrow() {
    let original = "arrow";
    let arrow_type = parse_arrow_type(original);
    let back = arrow_type_str(arrow_type);
    assert_eq!(back, "default", "Round-trip must preserve visual semantics");
}

#[test]
fn test_invariant_i2_bijective_mapping_diamond() {
    let original = "diamond";
    let arrow_type = parse_arrow_type(original);
    let back = arrow_type_str(arrow_type);
    assert_eq!(back, "step", "Round-trip must preserve visual semantics");
}

#[test]
fn test_invariant_i2_bijective_mapping_none() {
    let original = "none";
    let arrow_type = parse_arrow_type(original);
    let back = arrow_type_str(arrow_type);
    assert_eq!(back, "sharp", "Legacy 'none' maps to canonical 'sharp'");
}

#[test]
fn test_invariant_i3_bounds_calculation() {
    let none_type = parse_arrow_type("none");
    let arrow_type = parse_arrow_type("arrow");
    let diamond_type = parse_arrow_type("diamond");

    assert_eq!(none_type, ArrowType::Sharp);
    assert_eq!(arrow_type, ArrowType::Default);
    assert_eq!(diamond_type, ArrowType::Step);
}

#[test]
fn test_violation_p1_none_terminal_undirected_returns_error() {
    let result = parse_arrow_type("none");
    assert_eq!(result, ArrowType::Sharp);
}

#[test]
fn test_violation_p2_arrow_not_mapping_to_default_returns_error() {
    let result = parse_arrow_type("arrow");
    assert_eq!(
        result,
        ArrowType::Default,
        "P2 violated: arrow must map to Default"
    );
}

#[test]
fn test_violation_p3_diamond_not_mapping_to_step_returns_error() {
    let result = parse_arrow_type("diamond");
    assert_eq!(
        result,
        ArrowType::Step,
        "P3 violated: diamond must map to Step"
    );
}

#[test]
fn test_violation_p4_invalid_string_returns_error() {
    let result = parse_arrow_type("invalid");
    assert_eq!(result, ArrowType::Default);
}

#[test]
fn test_violation_q1_none_not_sharp_in_canonical() {
    let arrow_type = parse_arrow_type("sharp");
    assert_eq!(
        arrow_type,
        ArrowType::Sharp,
        "Q1 violated: sharp must map to Sharp"
    );
    assert_eq!(
        arrow_type_str(arrow_type),
        "sharp",
        "Q1 violated: Sharp must serialize as 'sharp'"
    );
}

#[test]
fn test_violation_q2_arrowhead_arrow_not_default() {
    let arrow_type = parse_arrow_type("arrow");
    assert_eq!(
        arrow_type,
        ArrowType::Default,
        "Q2 violated: arrow must map to Default"
    );
    assert_eq!(
        arrow_type_str(arrow_type),
        "default",
        "Q2 violated: Default must serialize as 'default'"
    );
}

#[test]
fn test_violation_q3_arrowhead_diamond_not_step() {
    let arrow_type = parse_arrow_type("diamond");
    assert_eq!(
        arrow_type,
        ArrowType::Step,
        "Q3 violated: diamond must map to Step"
    );
    assert_eq!(
        arrow_type_str(arrow_type),
        "step",
        "Q3 violated: Step must serialize as 'step'"
    );
}

#[test]
fn test_violation_q4_roundtrip_loses_diamond_info() {
    let original = "diamond";
    let arrow_type = parse_arrow_type(original);
    let serialized = arrow_type_str(arrow_type);
    let reparsed = parse_arrow_type(serialized);

    assert_eq!(
        arrow_type,
        ArrowType::Step,
        "Q4 violated: diamond must map to Step"
    );
    assert_eq!(
        reparsed,
        ArrowType::Step,
        "Q4 violated: round-trip must preserve diamond"
    );
}

#[test]
fn test_violation_i2_none_roundtrip_not_lossless() {
    let original = "none";
    let arrow_type = parse_arrow_type(original);
    let serialized = arrow_type_str(arrow_type);

    assert_eq!(
        arrow_type,
        ArrowType::Sharp,
        "I2 violated: none must map to Sharp"
    );
    assert_eq!(
        serialized, "sharp",
        "I2 violated: Sharp must serialize as 'sharp'"
    );

    let round_trip = parse_arrow_type(serialized);
    assert_eq!(
        round_trip,
        ArrowType::Sharp,
        "I2 violated: round-trip must be lossless"
    );
}
