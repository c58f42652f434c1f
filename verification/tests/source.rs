use oxdraw::cli::{default_output_name, determine_format, OutputFormat};
use oxdraw::source::{split_source, SourceError};

#[test]
fn a_source_without_a_block_is_all_definition() {
    let parts = split_source("graph TD\nA --> B\n").unwrap();
    assert_eq!(parts.definition, "graph TD\nA --> B\n");
    assert_eq!(parts.layout, None);
    let parts = split_source("graph TD\nA --> B").unwrap();
    assert_eq!(parts.definition, "graph TD\nA --> B");
    let parts = split_source("").unwrap();
    assert_eq!(parts.definition, "");
    assert_eq!(parts.layout, None);
}

#[test]
fn the_block_is_cut_out_of_the_definition() {
    let source = "graph TD\nA --> B\n  %% OXDRAW-LAYOUT\n%% {\n\n  %%   \"nodes\": {}\n}\n%% oxdraw-layout-end\nC\n";
    let parts = split_source(source).unwrap();
    assert_eq!(parts.definition, "graph TD\nA --> B\nC\n");
    assert_eq!(parts.layout, Some("{\n\"nodes\": {}\n}".to_string()));
}

#[test]
fn an_empty_block_is_found() {
    let parts = split_source("graph TD\nA\n%% oxdraw-layout\n%% oxdraw-layout-end").unwrap();
    assert_eq!(parts.definition, "graph TD\nA");
    assert_eq!(parts.layout, Some(String::new()));
}

#[test]
fn carriage_returns_before_line_feeds_are_cut_off() {
    let parts = split_source("a\r\nb \r\r\nc\r").unwrap();
    assert_eq!(parts.definition, "a\nb \r\nc\r");
}

#[test]
fn blocks_must_be_well_formed() {
    assert_eq!(
        split_source("%% oxdraw-layout\n%% oxdraw-layout\n").err(),
        Some(SourceError::NestedBlock)
    );
    assert_eq!(
        split_source("graph TD\n%% oxdraw-layout-end\n").err(),
        Some(SourceError::EndWithoutStart)
    );
    assert_eq!(
        split_source("graph TD\n%% oxdraw-layout\n%% {}\n").err(),
        Some(SourceError::UnterminatedBlock)
    );
}

#[test]
fn output_formats() {
    assert_eq!(OutputFormat::from_extension(Some("SVG")), Some(OutputFormat::Svg));
    assert_eq!(OutputFormat::from_extension(Some("png")), Some(OutputFormat::Png));
    assert_eq!(OutputFormat::from_extension(Some("jpeg")), None);
    assert_eq!(OutputFormat::from_extension(None), None);
    assert_eq!(determine_format(Some(OutputFormat::Png), true, None), Some(OutputFormat::Png));
    assert_eq!(determine_format(None, true, Some("png")), Some(OutputFormat::Svg));
    assert_eq!(determine_format(None, false, Some("Png")), Some(OutputFormat::Png));
    assert_eq!(determine_format(None, false, Some("txt")), None);
    assert_eq!(determine_format(None, false, None), None);
    assert_eq!(default_output_name(Some("flow.mmd")), "flow.mmd.svg");
    assert_eq!(default_output_name(None), "out.svg");
}
