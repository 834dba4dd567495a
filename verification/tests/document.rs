use std::collections::HashMap;

use oracle_postprocess::decompiler::queue::RequestQueue;
use oracle_postprocess::decompiler::DecompilationRequest;
use oracle_postprocess::rbxlx::document::{
    sort_event, write_part, write_script, write_xml_event, DocumentAttribute, DocumentEvent,
    DocumentName, OutputEvent, Progress, Report, ToWrite,
};
use sha2::{Digest, Sha256};
use xml::name::{Name, OwnedName};
use xml::reader::{EventReader, XmlEvent};
use xml::writer::{EmitterConfig, XmlEvent as WriteXmlEvent};

fn sha256_of(input: &str) -> String {
    format!("{:x}", Sha256::digest(input.as_bytes()))
}

fn mock_decompilation(bytecode: &str) -> String {
    format!("print(\"{}\")", sha256_of(bytecode))
}

fn script_cdata(bytecode: &str) -> String {
    format!("<![CDATA[-- Bytecode (Base64):\n-- {}]]>", bytecode)
}

fn plain_cdata(text: &str) -> String {
    format!("<![CDATA[{}]]>", text)
}

fn build_rbxlx_fixture(sources: &[String]) -> String {
    let mut output = String::from("<roblox>");
    for source in sources {
        output.push_str("<Item class=\"LocalScript\"><ProtectedString name=\"Source\">");
        output.push_str(source);
        output.push_str("</ProtectedString></Item>");
    }
    output.push_str("</roblox>");
    output
}

fn expected_script_output(bytecode: &str) -> String {
    format!(
        "<![CDATA[-- Bytecode (Base64):\n-- {}\n\n-- decompilation:\n{}\n]]>",
        bytecode,
        mock_decompilation(bytecode)
    )
}

fn document_name(name: OwnedName) -> DocumentName {
    DocumentName { prefix: name.prefix, local_name: name.local_name }
}

fn document_event(event: XmlEvent) -> DocumentEvent {
    match event {
        XmlEvent::StartDocument { .. } => DocumentEvent::StartDocument,
        XmlEvent::EndDocument => DocumentEvent::EndDocument,
        XmlEvent::ProcessingInstruction { .. } => DocumentEvent::ProcessingInstruction,
        XmlEvent::StartElement { name, attributes, .. } => DocumentEvent::StartElement {
            name: document_name(name),
            attributes: attributes
                .into_iter()
                .map(|attribute| DocumentAttribute {
                    name: document_name(attribute.name),
                    value: attribute.value,
                })
                .collect(),
        },
        XmlEvent::EndElement { .. } => DocumentEvent::EndElement,
        XmlEvent::CData(text) => DocumentEvent::CData(text),
        XmlEvent::Comment(text) => DocumentEvent::Comment(text),
        XmlEvent::Characters(text) => DocumentEvent::Characters(text),
        other => DocumentEvent::Other(format!("{:?}", other)),
    }
}

#[test]
fn process_rbxlx_file_roundtrips_and_deduplicates_requests() {
    let script_a = "QUJDREVGRw==";
    let script_b = "SElKS0xtbg==";
    let fixture = build_rbxlx_fixture(&[
        script_cdata(script_a),
        plain_cdata("plain <![CDATA[ content stays here"),
        script_cdata(script_a),
        script_cdata(script_b),
    ]);

    let mut queue = RequestQueue::new();
    let mut tasks = Vec::new();
    for event in EventReader::new(fixture.as_bytes()) {
        let task = sort_event(document_event(event.expect("well-formed")));
        if let ToWrite::Script { bytecode, .. } = &task {
            let request = DecompilationRequest::new(bytecode.clone(), tasks.len());
            assert!(queue.queue_request(request).is_none());
        }
        tasks.push(task);
    }

    let mut responses = HashMap::new();
    let mut asked: HashMap<String, usize> = HashMap::new();
    while let Some(message) = queue.flush_queued_requests() {
        queue.batch_sent();
        let value: serde_json::Value = serde_json::from_str(&message).expect("JSON");
        for item in value["data"].as_array().expect("array") {
            let bytecode = item.as_str().expect("string");
            *asked.entry(bytecode.to_string()).or_insert(0) += 1;
            let replies =
                queue.handle_result(true, mock_decompilation(bytecode), sha256_of(bytecode));
            responses.extend(replies);
        }
    }

    let mut output = Vec::new();
    let mut writer = EmitterConfig::new()
        .write_document_declaration(false)
        .create_writer(&mut output);
    for (index, task) in tasks.into_iter().enumerate() {
        let written = write_part(task, responses.remove(&index));
        match written {
            OutputEvent::Nothing => {}
            OutputEvent::StartElement { name, attributes } => {
                let mut builder = WriteXmlEvent::start_element(Name::local(&name));
                for (name, value) in &attributes {
                    builder = builder.attr(Name::local(name), value);
                }
                writer.write(builder).expect("written");
            }
            OutputEvent::EndElement => {
                writer.write(WriteXmlEvent::end_element()).expect("written");
            }
            OutputEvent::CData(text) => {
                writer.write(WriteXmlEvent::cdata(&text)).expect("written");
            }
            OutputEvent::Characters(text) => {
                writer.write(WriteXmlEvent::characters(&text)).expect("written");
            }
            OutputEvent::Comment(text) => {
                writer.write(WriteXmlEvent::comment(&text)).expect("written");
            }
            OutputEvent::Notice(text) => panic!("{}", text),
        }
    }

    let expected = build_rbxlx_fixture(&[
        expected_script_output(script_a),
        plain_cdata("plain <![CDATA[ content stays here"),
        expected_script_output(script_a),
        expected_script_output(script_b),
    ]);
    assert_eq!(String::from_utf8(output).expect("text"), expected);
    assert_eq!(mock_decompilation(script_a), format!("print(\"{}\")", sha256_of(script_a)));
    assert_eq!(asked[script_a], 1);
    assert_eq!(asked[script_b], 1);
}

#[test]
fn only_scripts_are_set_apart() {
    let script = "x\n-- Bytecode (Base64):\n-- QUJD\ny";
    match sort_event(DocumentEvent::CData(script.to_string())) {
        ToWrite::Script { header, bytecode } => {
            assert_eq!(header, "x\n-- Bytecode (Base64):\n-- ");
            assert_eq!(bytecode, "QUJD");
        }
        ToWrite::XmlEvent(_) => panic!("expected a script"),
    }
    assert!(matches!(
        sort_event(DocumentEvent::CData("plain".to_string())),
        ToWrite::XmlEvent(DocumentEvent::CData(text)) if text == "plain"
    ));
    // Elsewhere than in a section of character data it is no script.
    assert!(matches!(
        sort_event(DocumentEvent::Characters(script.to_string())),
        ToWrite::XmlEvent(DocumentEvent::Characters(text)) if text == script
    ));
    assert!(matches!(
        sort_event(DocumentEvent::Comment(script.to_string())),
        ToWrite::XmlEvent(DocumentEvent::Comment(text)) if text == script
    ));
}

#[test]
fn other_parts_are_copied_without_prefixes() {
    let element = DocumentEvent::StartElement {
        name: DocumentName { prefix: Some("p".to_string()), local_name: "Item".to_string() },
        attributes: vec![
            DocumentAttribute {
                name: DocumentName { prefix: None, local_name: "class".to_string() },
                value: "Part".to_string(),
            },
            DocumentAttribute {
                name: DocumentName {
                    prefix: Some("xsi".to_string()),
                    local_name: "schema".to_string(),
                },
                value: "s".to_string(),
            },
        ],
    };
    match write_xml_event(element) {
        OutputEvent::StartElement { name, attributes } => {
            assert_eq!(name, "Item");
            assert_eq!(
                attributes,
                vec![
                    ("class".to_string(), "Part".to_string()),
                    ("schema".to_string(), "s".to_string()),
                ]
            );
        }
        _ => panic!("expected an element"),
    }
    assert!(matches!(write_xml_event(DocumentEvent::EndElement), OutputEvent::EndElement));
    assert!(matches!(
        write_xml_event(DocumentEvent::CData("a".to_string())),
        OutputEvent::CData(text) if text == "a"
    ));
    assert!(matches!(
        write_xml_event(DocumentEvent::Characters("b".to_string())),
        OutputEvent::Characters(text) if text == "b"
    ));
    assert!(matches!(
        write_xml_event(DocumentEvent::Comment("c".to_string())),
        OutputEvent::Comment(text) if text == "c"
    ));
}

#[test]
fn what_stands_around_the_root_is_not_written() {
    assert!(matches!(write_xml_event(DocumentEvent::StartDocument), OutputEvent::Nothing));
    assert!(matches!(write_xml_event(DocumentEvent::EndDocument), OutputEvent::Nothing));
    assert!(matches!(
        write_xml_event(DocumentEvent::ProcessingInstruction),
        OutputEvent::Nothing
    ));
    assert!(matches!(
        write_xml_event(DocumentEvent::Other("Whitespace(1)".to_string())),
        OutputEvent::Notice(text) if text == "unknownevent: Whitespace(1)"
    ));
}

#[test]
fn missing_answer_is_a_failure() {
    match write_script("H ", "QUJD", None) {
        OutputEvent::CData(text) => assert_eq!(
            text,
            "H QUJD\n\n-- decompilation failed:\n-- oracle-postprocess error: sender dropped\n"
        ),
        _ => panic!("expected a section"),
    }
    match write_script("H ", "QUJD", Some(Ok("x = 1".to_string()))) {
        OutputEvent::CData(text) => assert_eq!(text, "H QUJD\n\n-- decompilation:\nx = 1\n"),
        _ => panic!("expected a section"),
    }
}

#[test]
fn progress_is_reported_until_all_is_written() {
    let start = Progress {
        decompiled: 0,
        total_scripts: 0,
        written_events: 0,
        total_events: 0,
        reader_done: false,
    };
    assert_eq!(start.report(), Report::Nothing);
    assert!(!start.is_complete());
    assert!(Progress { reader_done: true, ..start }.is_complete());
    let reading = Progress { total_events: 4, written_events: 4, ..start };
    assert_eq!(reading.report(), Report::Events);
    assert!(!reading.is_complete());
    assert!(Progress { reader_done: true, ..reading }.is_complete());
    let behind = Progress { total_scripts: 1, written_events: 3, reader_done: true, ..reading };
    assert_eq!(behind.report(), Report::EventsAndScripts);
    assert!(!behind.is_complete());
}

#[test]
fn an_answer_counts_for_scripts_alone() {
    let answer = || Some(Ok("x = 1".to_string()));
    let plain = sort_event(DocumentEvent::CData("plain".to_string()));
    assert!(matches!(write_part(plain, answer()), OutputEvent::CData(text) if text == "plain"));
    let script = sort_event(DocumentEvent::CData("-- Bytecode (Base64):\n-- QUJD\ny".to_string()));
    assert!(matches!(
        write_part(script, answer()),
        OutputEvent::CData(text)
            if text == "-- Bytecode (Base64):\n-- QUJD\n\n-- decompilation:\nx = 1\n"
    ));
    let unanswered = sort_event(DocumentEvent::CData("-- Bytecode (Base64):\n-- QUJD".to_string()));
    assert!(matches!(
        write_part(unanswered, None),
        OutputEvent::CData(text) if text.ends_with("sender dropped\n")
    ));
    assert!(matches!(write_part(sort_event(DocumentEvent::EndElement), None), OutputEvent::EndElement));
}
