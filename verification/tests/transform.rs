use csl_to_markdown::amp::remove_formated_amp;
use csl_to_markdown::lexer::XmlErrorKind;
use csl_to_markdown::parse_xml;
use csl_to_markdown::parse_xml_string;

#[test]
fn test_remove_formated_amp() {
    let input_string = "lorem ipsum .&amp; dolor sit amen";
    let expected_string = "lorem ipsum .& dolor sit amen";
    assert_eq!(remove_formated_amp(input_string.to_string()), expected_string);
}

#[test]
fn test_dont_remove_unformated_amp() {
    let input_string = "lorem ipsum .& dolor sit amen";
    let expected_string = "lorem ipsum .& dolor sit amen";
    assert_eq!(remove_formated_amp(input_string.to_string()), expected_string);
}

#[test]
fn test_should_close_xml_tags() {
    let xml_input_string = r#"
            <title>Test title</title>
            <title-short>TT</title-short>
            <id>ce6b20ee7f7797e102f68d15099e7d5b0e8d4c50f98a7865ea168717539ec3aa</id>
            <layout></layout>
            <bibliography></bibliography>
        "#;
    let expected_xml_output_string = r#"
            <title>Test title_MD_</title>
            <title-short>TT_MD_</title-short>
            <id>ce6b20ee7f7797e102f68d15099e7d5b0e8d4c50f98a7865ea168717539ec3aa/_MD_</id>
            <layout></layout>
            <bibliography></bibliography>
        "#;

    let result = parse_xml_string(xml_input_string).unwrap();
    assert_eq!(result, expected_xml_output_string.as_bytes());
}

#[test]
fn test_should_add_newline_in_bib_layout() {
    let xml_input_string = r#"
            <layout suffix=".">
            </layout>
            <bibliography>
                <layout suffix=".">
                </layout>
            </bibliography>
        "#;
    let expected_xml_output_string = r#"
            <layout suffix=".">
            </layout>
            <bibliography>
                <layout suffix=".&amp;#10;">
                </layout>
            </bibliography>
        "#;

    let result = parse_xml_string(xml_input_string).unwrap();
    assert_eq!(result, expected_xml_output_string.as_bytes());
}

#[test]
fn test_should_not_add_newline_in_non_bib_layout() {
    let xml_input_string = r#"
            <layout suffix=".">
            </layout>
            <bibliography>
            </bibliography>
        "#;

    let expected_xml_output_string = r#"
            <layout suffix=".">
            </layout>
            <bibliography>
            </bibliography>
        "#;

    let result = parse_xml_string(xml_input_string).unwrap();
    assert_eq!(result, expected_xml_output_string.as_bytes());
}

#[test]
fn test_should_only_format_italic() {
    let xml_input_string = r#"
            <text/>
            <text font-style="italic"/>
            <text/>
        "#;

    let expected_xml_output_string = r#"
            <text/>
            <text font-style="italic" prefix="_" suffix="_"/>
            <text/>
        "#;

    let result = parse_xml_string(xml_input_string).unwrap();
    assert_eq!(
        String::from_utf8_lossy(&result),
        String::from_utf8_lossy(expected_xml_output_string.as_bytes())
    );
}

#[test]
fn test_should_only_format_bold() {
    let xml_input_string = r#"
            <text/>
            <text font-style="bold"/>
            <text/>
        "#;

    let expected_xml_output_string = r#"
            <text/>
            <text font-style="bold" prefix="**" suffix="**"/>
            <text/>
        "#;

    let result = parse_xml_string(xml_input_string).unwrap();
    assert_eq!(result, expected_xml_output_string.as_bytes());
}

#[test]
fn test_should_keep_previous_attributes() {
    let xml_input_string = r#"
            <bibliography id="bibliography"></bibliography>
            <title id="title"></title>
            <title-short id="title-short"></title-short>
            <id id="id"></id>
            <text test-attribute="test" font-style="italic" prefix="test"/>
            <text test-attribute="test" font-style="italic" suffix="test"/>
            <text test-attribute="test" font-style="bold" prefix="test"/>
            <text test-attribute="test" font-style="bold" suffix="test"/>
        "#;
    let expected_xml_output_string = r#"
            <bibliography id="bibliography"></bibliography>
            <title id="title">_MD_</title>
            <title-short id="title-short">_MD_</title-short>
            <id id="id">/_MD_</id>
            <text test-attribute="test" font-style="italic" prefix="_test" suffix="_"/>
            <text test-attribute="test" font-style="italic" prefix="_" suffix="_test"/>
            <text test-attribute="test" font-style="bold" prefix="**test" suffix="**"/>
            <text test-attribute="test" font-style="bold" prefix="**" suffix="**test"/>
        "#;

    let result = parse_xml_string(xml_input_string).unwrap();
    assert_eq!(
        String::from_utf8_lossy(&result),
        String::from_utf8_lossy(expected_xml_output_string.as_bytes())
    );
}

// Running the transform on its own output must not fail: the sentinels are
// additive, so a second run adds a second set of markers rather than
// stabilising.
#[test]
fn test_second_run_adds_markers() {
    let first = parse_xml_string("<title>T</title>").unwrap();
    assert_eq!(first, b"<title>T_MD_</title>");
    let second = parse_xml(&first).unwrap();
    assert_eq!(second, b"<title>T_MD__MD_</title>");
}

#[test]
fn test_empty_text_without_font_style_untouched() {
    let result = parse_xml_string(r#"<text id="a"/>"#).unwrap();
    assert_eq!(result, br#"<text id="a"/>"#);
}

#[test]
fn test_text_font_style_normal_gets_no_markers() {
    let result = parse_xml_string(r#"<text font-style="normal"/>"#).unwrap();
    assert_eq!(result, br#"<text font-style="normal"/>"#);
}

// The accumulator asymmetry: a prefix without any suffix piece is dropped.
#[test]
fn test_text_prefix_without_suffix_is_dropped() {
    let result = parse_xml_string(r#"<text font-style="normal" prefix="test"/>"#).unwrap();
    assert_eq!(result, br#"<text font-style="normal"/>"#);
    let plain = parse_xml_string(r#"<text prefix="test"/>"#).unwrap();
    assert_eq!(plain, b"<text/>");
    let suffix_only = parse_xml_string(r#"<text suffix="test"/>"#).unwrap();
    assert_eq!(suffix_only, b"<text/>");
}

// Both sides present without a font-style still re-emits both.
#[test]
fn test_text_existing_prefix_and_suffix_kept() {
    let result = parse_xml_string(r#"<text prefix="a" suffix="b"/>"#).unwrap();
    assert_eq!(result, br#"<text prefix="a" suffix="b"/>"#);
}

// A layout inside a bibliography with no suffix attribute gains one.
#[test]
fn test_bib_layout_without_suffix_gains_one() {
    let result =
        parse_xml_string("<bibliography><layout></layout></bibliography>").unwrap();
    assert_eq!(
        result,
        br#"<bibliography><layout suffix="&amp;#10;"></layout></bibliography>"#
    );
}

#[test]
fn test_comments_and_declarations_pass_through() {
    let input = "<?xml version=\"1.0\"?><!-- a > comment --><style><info/></style>";
    let result = parse_xml_string(input).unwrap();
    assert_eq!(result, input.as_bytes());
}

#[test]
fn test_mismatched_end_tag_is_fatal() {
    let err = parse_xml_string("<a></b>").unwrap_err();
    assert_eq!(err.kind, XmlErrorKind::MismatchedEndTag);
    assert_eq!(err.position, 3);
}

#[test]
fn test_unclosed_element_is_fatal() {
    let err = parse_xml_string("<style>").unwrap_err();
    assert_eq!(err.kind, XmlErrorKind::UnclosedElement);
}

#[test]
fn test_unclosed_tag_is_fatal() {
    let err = parse_xml_string("<style").unwrap_err();
    assert_eq!(err.kind, XmlErrorKind::UnclosedTag);
    assert_eq!(err.position, 0);
}

#[test]
fn test_unclosed_comment_is_fatal() {
    let err = parse_xml_string("<!-- never closed").unwrap_err();
    assert_eq!(err.kind, XmlErrorKind::UnclosedComment);
}

#[test]
fn test_empty_tag_name_is_fatal() {
    let err = parse_xml_string("<>").unwrap_err();
    assert_eq!(err.kind, XmlErrorKind::EmptyTagName);
}

#[test]
fn test_malformed_attributes_in_rewritten_tag_are_fatal() {
    let err =
        parse_xml_string("<bibliography><layout suffix=.></layout></bibliography>").unwrap_err();
    assert_eq!(err.kind, XmlErrorKind::MalformedAttributes);
    // The byte offset of the offending element's own tag.
    assert_eq!(err.position, 14);
}

// The value the layout rule itself rewrites is escaped as a whole, exactly
// as the appended newline reference is.
#[test]
fn test_rewritten_layout_reescapes_values() {
    let result = parse_xml_string(
        "<bibliography><layout suffix=\"a&amp;b\"></layout></bibliography>",
    )
    .unwrap();
    assert_eq!(
        result,
        "<bibliography><layout suffix=\"a&amp;amp;b&amp;#10;\"></layout></bibliography>"
            .as_bytes()
    );
}

// Pass-through attributes of a rewritten element keep their raw value bytes:
// an entity in them is not escaped a second time.
#[test]
fn test_pass_through_values_not_reescaped() {
    let text = parse_xml_string("<text foo=\"a&amp;b\" prefix=\"x\" suffix=\"y\"/>").unwrap();
    assert_eq!(text, "<text foo=\"a&amp;b\" prefix=\"x\" suffix=\"y\"/>".as_bytes());
    let layout = parse_xml_string(
        "<bibliography><layout foo=\"a&amp;b\" suffix=\".\"></layout></bibliography>",
    )
    .unwrap();
    assert_eq!(
        layout,
        "<bibliography><layout foo=\"a&amp;b\" suffix=\".&amp;#10;\"></layout></bibliography>"
            .as_bytes()
    );
}

// A single-quoted input value cannot be re-emitted raw inside the double
// quotes the writer uses: only the double quotes in it leave, as `&quot;`.
#[test]
fn test_single_quoted_value_keeps_all_but_double_quotes() {
    let result = parse_xml_string("<text a='say \"hi\"' font-style=\"italic\"/>").unwrap();
    assert_eq!(
        result,
        "<text a=\"say &quot;hi&quot;\" font-style=\"italic\" prefix=\"_\" suffix=\"_\"/>"
            .as_bytes()
    );
}

#[test]
fn test_remove_formated_amp_edge_cases() {
    assert_eq!(remove_formated_amp(String::new()), "");
    assert_eq!(remove_formated_amp("&amp;amp;".to_string()), "&amp;");
    assert_eq!(remove_formated_amp("&amp;&amp;".to_string()), "&&");
    assert_eq!(remove_formated_amp("&am".to_string()), "&am");
}
