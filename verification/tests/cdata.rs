use oracle_postprocess::bytecode::extract_embedded_bytecode;
use oracle_postprocess::rbxlx::build_decompiled_cdata;
use oracle_postprocess::rbxlx::cdata::push_cdata_escaped;

/// What a reader makes of the text that follows the beginning of a section.
fn read_sections(rest: &str) -> Option<String> {
    let (text, after) = rest.split_once("]]>")?;
    if after.is_empty() {
        return Some(text.to_string());
    }
    let more = read_sections(after.strip_prefix("<![CDATA[")?)?;
    Some(format!("{text}{more}"))
}

fn escaped(text: &str) -> String {
    let mut output = String::new();
    push_cdata_escaped(&mut output, text);
    output
}

#[test]
fn escapes_cdata_end_markers_in_decompiled_output() {
    let output = build_decompiled_cdata(
        "-- Bytecode (Base64):\n-- ",
        "QUJD",
        Ok("print(\"]]> inside\")".to_string()),
    );

    assert!(output.contains("]]]]><![CDATA[>"));
    assert!(output.contains("-- decompilation:\nprint("));
}

#[test]
fn every_end_of_a_section_is_escaped() {
    assert_eq!(escaped(""), "");
    assert_eq!(escaped("plain ]] > text"), "plain ]] > text");
    assert_eq!(escaped("]]>"), "]]]]><![CDATA[>");
    assert_eq!(escaped("a]]>b]]>c"), "a]]]]><![CDATA[>b]]]]><![CDATA[>c");
    assert_eq!(escaped("]]]>]]>"), "]]]]]><![CDATA[>]]]]><![CDATA[>");
    assert_eq!(escaped("\u{e9}]]>\u{1f600}"), "\u{e9}]]]]><![CDATA[>\u{1f600}");
}

#[test]
fn escaping_appends_to_what_is_there() {
    let mut output = "before".to_string();
    push_cdata_escaped(&mut output, "x]]>y");
    assert_eq!(output, "beforex]]]]><![CDATA[>y");
}

#[test]
fn escaped_text_reads_back() {
    for text in [
        "",
        "]",
        "]]",
        "]]>",
        ">]]>>",
        "]]]]>]]>]",
        "a]]>]]>b",
        "<![CDATA[nested]]>",
        "]]]]><![CDATA[>",
        "\u{4e2d}]]>\u{4e2d}",
    ] {
        assert_eq!(read_sections(&format!("{}]]>", escaped(text))).as_deref(), Some(text));
    }
}

#[test]
fn success_and_failure_are_captioned() {
    assert_eq!(
        build_decompiled_cdata("H ", "QUJD", Ok("return 1".to_string())),
        "H QUJD\n\n-- decompilation:\nreturn 1\n"
    );
    assert_eq!(
        build_decompiled_cdata("H ", "QUJD", Err("no luck".to_string())),
        "H QUJD\n\n-- decompilation failed:\n-- no luck\n"
    );
}

#[test]
fn written_script_reads_back_and_is_found_again() {
    let text = "local a = \"]]>\"\n-- Bytecode (Base64):\n-- QUJD\nold tail";
    let embedded = extract_embedded_bytecode(text).expect("found");
    let answer = "print(\"]]>\") -- \n-- Bytecode (Base64):\n-- other";
    for result in [Ok(answer.to_string()), Err(answer.to_string())] {
        let caption = match result {
            Ok(_) => "-- decompilation:\n",
            Err(_) => "-- decompilation failed:\n-- ",
        };
        let output = build_decompiled_cdata(embedded.header, embedded.bytecode, result);
        let section = read_sections(&format!("{output}]]>")).expect("sections");
        assert_eq!(
            section,
            format!("{}{}\n\n{caption}{answer}\n", embedded.header, embedded.bytecode)
        );
        let again = extract_embedded_bytecode(&section).expect("found again");
        assert_eq!(again.header, embedded.header);
        assert_eq!(again.bytecode, embedded.bytecode);
    }
}

#[test]
fn parts_are_escaped_each_by_itself() {
    // Only here does the end of a section come about between two parts.
    let output = build_decompiled_cdata("]]", ">", Ok(String::new()));
    assert_eq!(output, "]]>\n\n-- decompilation:\n\n");
}

#[test]
fn parts_can_be_escaped_apart_where_the_seam_is_clean() {
    for (first, second) in [("a]]>b", "]]>c"), ("x ", "]]>"), ("]", "]"), ("", "]]>"), ("]]>", "")] {
        let whole = format!("{first}{second}");
        assert_eq!(escaped(&whole), format!("{}{}", escaped(first), escaped(second)));
    }
}
