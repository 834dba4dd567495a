//! What becomes of each part of a document.

use vstd::prelude::*;
use vstd::string::StringExecFns;

use crate::bytecode::extract_embedded_bytecode;
use crate::decompiler::queue::DecompilationResponse;
use crate::rbxlx::cdata::build_decompiled_cdata;

verus! {

/// A name in a document.
pub struct DocumentName {
    pub prefix: Option<String>,
    pub local_name: String,
}

/// An attribute of an element.
pub struct DocumentAttribute {
    pub name: DocumentName,
    pub value: String,
}

/// A part of a document that is being read.
pub enum DocumentEvent {
    StartDocument,
    EndDocument,
    ProcessingInstruction,
    StartElement { name: DocumentName, attributes: Vec<DocumentAttribute> },
    EndElement,
    CData(String),
    Comment(String),
    Characters(String),
    /// Any other part, as it is described to a user.
    Other(String),
}

/// A part of a document that is being written.
pub enum OutputEvent {
    /// Nothing is written.
    Nothing,
    StartElement { name: String, attributes: Vec<(String, String)> },
    EndElement,
    CData(String),
    Comment(String),
    Characters(String),
    /// Nothing is written, and the user is told this.
    Notice(String),
}

/// A part of a document that is waiting to be written.
pub enum ToWrite {
    /// A part that is written as it was read.
    XmlEvent(DocumentEvent),
    /// A section that holds a script, to be written with what the service makes of its bytecode.
    Script { header: String, bytecode: String },
}

/// A part that is being read, by its texts. Of names, what stands after the prefix.
pub enum DocumentEventView {
    StartDocument,
    EndDocument,
    ProcessingInstruction,
    StartElement { name: Seq<char>, attributes: Seq<(Seq<char>, Seq<char>)> },
    EndElement,
    CData(Seq<char>),
    Comment(Seq<char>),
    Characters(Seq<char>),
    Other(Seq<char>),
}

/// A part that is being written, by its texts.
pub enum OutputEventView {
    Nothing,
    StartElement { name: Seq<char>, attributes: Seq<(Seq<char>, Seq<char>)> },
    EndElement,
    CData(Seq<char>),
    Comment(Seq<char>),
    Characters(Seq<char>),
    Notice(Seq<char>),
}

impl View for DocumentEvent {
    type V = DocumentEventView;

    open spec fn view(&self) -> DocumentEventView {
        match *self {
            DocumentEvent::StartDocument => DocumentEventView::StartDocument,
            DocumentEvent::EndDocument => DocumentEventView::EndDocument,
            DocumentEvent::ProcessingInstruction => DocumentEventView::ProcessingInstruction,
            DocumentEvent::StartElement { name, attributes } => DocumentEventView::StartElement {
                name: name.local_name@,
                attributes: Seq::new(
                    attributes@.len(),
                    |i: int| (attributes@[i].name.local_name@, attributes@[i].value@),
                ),
            },
            DocumentEvent::EndElement => DocumentEventView::EndElement,
            DocumentEvent::CData(text) => DocumentEventView::CData(text@),
            DocumentEvent::Comment(text) => DocumentEventView::Comment(text@),
            DocumentEvent::Characters(text) => DocumentEventView::Characters(text@),
            DocumentEvent::Other(description) => DocumentEventView::Other(description@),
        }
    }
}

impl View for OutputEvent {
    type V = OutputEventView;

    open spec fn view(&self) -> OutputEventView {
        match *self {
            OutputEvent::Nothing => OutputEventView::Nothing,
            OutputEvent::StartElement { name, attributes } => OutputEventView::StartElement {
                name: name@,
                attributes: Seq::new(
                    attributes@.len(),
                    |i: int| (attributes@[i].0@, attributes@[i].1@),
                ),
            },
            OutputEvent::EndElement => OutputEventView::EndElement,
            OutputEvent::CData(text) => OutputEventView::CData(text@),
            OutputEvent::Comment(text) => OutputEventView::Comment(text@),
            OutputEvent::Characters(text) => OutputEventView::Characters(text@),
            OutputEvent::Notice(text) => OutputEventView::Notice(text@),
        }
    }
}

/// How a part is written that is not a script: elements and texts as they are, but for prefixes;
/// what stands around the root element, not at all.
pub open spec fn copied(event: DocumentEventView) -> OutputEventView {
    match event {
        DocumentEventView::StartElement { name, attributes } => OutputEventView::StartElement {
            name,
            attributes,
        },
        DocumentEventView::EndElement => OutputEventView::EndElement,
        DocumentEventView::CData(text) => OutputEventView::CData(text),
        DocumentEventView::Comment(text) => OutputEventView::Comment(text),
        DocumentEventView::Characters(text) => OutputEventView::Characters(text),
        DocumentEventView::StartDocument => OutputEventView::Nothing,
        DocumentEventView::EndDocument => OutputEventView::Nothing,
        DocumentEventView::ProcessingInstruction => OutputEventView::Nothing,
        DocumentEventView::Other(description) => OutputEventView::Notice(
            "unknownevent: "@ + description,
        ),
    }
}

/// The header and the bytecode of a part that is a script.
pub open spec fn script_in(event: DocumentEventView) -> Option<(Seq<char>, Seq<char>)> {
    match event {
        DocumentEventView::CData(text) => crate::bytecode::embedded_in(text),
        _ => None,
    }
}

/// How a part is written, when the service answers as given.
pub open spec fn rewritten(
    event: DocumentEventView,
    answer: Result<Seq<char>, Seq<char>>,
) -> OutputEventView {
    match script_in(event) {
        Some((header, bytecode)) => OutputEventView::CData(
            crate::rbxlx::cdata::decompiled_cdata(header, bytecode, answer),
        ),
        None => copied(event),
    }
}

/// `task` is what an event is to be written as: its script, if it is one, or else the event itself.
pub open spec fn sorted(event: DocumentEventView, task: ToWrite) -> bool {
    match task {
        ToWrite::XmlEvent(same) => script_in(event) is None && same@ == event,
        ToWrite::Script { header, bytecode } => script_in(event) == Some((header@, bytecode@)),
    }
}

/// Tells scripts from the other parts of a document.
pub fn sort_event(event: DocumentEvent) -> (task: ToWrite)
    ensures
        sorted(event@, task),
        task matches ToWrite::XmlEvent(same) ==> same == event,
        match event {
            DocumentEvent::CData(text) => match task {
                ToWrite::XmlEvent(_) => crate::bytecode::embedded_in(text@) is None,
                ToWrite::Script { header, bytecode } => crate::bytecode::embedded_in(text@) == Some(
                    (header@, bytecode@),
                ),
            },
            _ => task is XmlEvent,
        },
{
    if let DocumentEvent::CData(text) = &event {
        if let Some(embedded) = extract_embedded_bytecode(text.as_str()) {
            return ToWrite::Script {
                header: embedded.header.to_owned(),
                bytecode: embedded.bytecode.to_owned(),
            };
        }
    }
    ToWrite::XmlEvent(event)
}

/// Decides how a part is written that is not a script.
pub fn write_xml_event(event: DocumentEvent) -> (output: OutputEvent)
    ensures
        output@ == copied(event@),
        match event {
            DocumentEvent::StartElement { name, attributes } => match output {
                OutputEvent::StartElement { name: written, attributes: kept } => {
                    &&& written@ == name.local_name@
                    &&& kept@.len() == attributes@.len()
                    &&& forall|i: int|
                        0 <= i < attributes@.len() ==> (#[trigger] kept@[i]).0@
                            == attributes@[i].name.local_name@ && kept@[i].1@ == attributes@[i].value@
                },
                _ => false,
            },
            DocumentEvent::EndElement => output is EndElement,
            DocumentEvent::CData(text) => match output {
                OutputEvent::CData(written) => written@ == text@,
                _ => false,
            },
            DocumentEvent::Characters(text) => match output {
                OutputEvent::Characters(written) => written@ == text@,
                _ => false,
            },
            DocumentEvent::Comment(text) => match output {
                OutputEvent::Comment(written) => written@ == text@,
                _ => false,
            },
            DocumentEvent::StartDocument => output is Nothing,
            DocumentEvent::EndDocument => output is Nothing,
            DocumentEvent::ProcessingInstruction => output is Nothing,
            DocumentEvent::Other(description) => match output {
                OutputEvent::Notice(text) => text@ == "unknownevent: "@ + description@,
                _ => false,
            },
        },
{
    match event {
        DocumentEvent::StartElement { name, attributes } => {
            let ghost given = attributes@;
            let mut kept: Vec<(String, String)> = Vec::new();
            for attribute in taken: attributes
                invariant
                    taken.seq() == given,
                    kept@.len() == taken.index(),
                    forall|i: int|
                        0 <= i < kept@.len() ==> (#[trigger] kept@[i]).0@
                            == given[i].name.local_name@ && kept@[i].1@ == given[i].value@,
            {
                kept.push((attribute.name.local_name, attribute.value));
            }
            let output = OutputEvent::StartElement { name: name.local_name, attributes: kept };
            assert(output@->attributes =~= copied(event@)->attributes);
            output
        },
        DocumentEvent::EndElement => OutputEvent::EndElement,
        DocumentEvent::CData(text) => OutputEvent::CData(text),
        DocumentEvent::Characters(text) => OutputEvent::Characters(text),
        DocumentEvent::Comment(text) => OutputEvent::Comment(text),
        DocumentEvent::ProcessingInstruction
        | DocumentEvent::StartDocument
        | DocumentEvent::EndDocument => OutputEvent::Nothing,
        DocumentEvent::Other(description) => {
            let mut text = "unknownevent: ".to_owned();
            text.append(description.as_str());
            OutputEvent::Notice(text)
        },
    }
}

/// The answer by what it says; if whoever was to give it is gone, that.
pub open spec fn settled(response: Option<DecompilationResponse>) -> Result<
    Seq<char>,
    Seq<char>,
> {
    match response {
        Some(answer) => crate::decompiler::queue::said(answer),
        None => Err("oracle-postprocess error: sender dropped"@),
    }
}

/// Decides how a script is written.
pub fn write_script(
    header: &str,
    bytecode: &str,
    response: Option<DecompilationResponse>,
) -> (output: OutputEvent)
    ensures
        output@ == OutputEventView::CData(
            crate::rbxlx::cdata::decompiled_cdata(header@, bytecode@, settled(response)),
        ),
        match output {
            OutputEvent::CData(written) => written@ == (match response {
                Some(Ok(source)) => crate::rbxlx::cdata::decompiled_cdata(
                    header@,
                    bytecode@,
                    Ok(source@),
                ),
                Some(Err(reason)) => crate::rbxlx::cdata::decompiled_cdata(
                    header@,
                    bytecode@,
                    Err(reason@),
                ),
                None => crate::rbxlx::cdata::decompiled_cdata(
                    header@,
                    bytecode@,
                    Err("oracle-postprocess error: sender dropped"@),
                ),
            }),
            _ => false,
        },
{
    let result: DecompilationResponse = match response {
        Some(answer) => answer,
        None => Err("oracle-postprocess error: sender dropped".to_owned()),
    };
    OutputEvent::CData(build_decompiled_cdata(header, bytecode, result))
}

/// Decides how a part is written. `response` is the answer for a script, and counts for nothing else.
pub fn write_part(task: ToWrite, response: Option<DecompilationResponse>) -> (output: OutputEvent)
    ensures
        match task {
            ToWrite::XmlEvent(DocumentEvent::Characters(text)) => match output {
                OutputEvent::Characters(written) => written@ == text@,
                _ => false,
            },
            ToWrite::XmlEvent(DocumentEvent::CData(text)) => match output {
                OutputEvent::CData(written) => written@ == text@,
                _ => false,
            },
            ToWrite::XmlEvent(DocumentEvent::Comment(text)) => match output {
                OutputEvent::Comment(written) => written@ == text@,
                _ => false,
            },
            ToWrite::XmlEvent(DocumentEvent::StartElement { name, attributes }) => match output {
                OutputEvent::StartElement { name: written, attributes: kept } => {
                    &&& written@ == name.local_name@
                    &&& kept@.len() == attributes@.len()
                    &&& forall|i: int|
                        0 <= i < attributes@.len() ==> (#[trigger] kept@[i]).0@
                            == attributes@[i].name.local_name@ && kept@[i].1@
                            == attributes@[i].value@
                },
                _ => false,
            },
            ToWrite::XmlEvent(DocumentEvent::EndElement) => output is EndElement,
            ToWrite::XmlEvent(_) => output is Nothing || output is Notice,
            ToWrite::Script { header, bytecode } => match output {
                OutputEvent::CData(written) => written@ == (match response {
                    Some(Ok(source)) => crate::rbxlx::cdata::decompiled_cdata(
                        header@,
                        bytecode@,
                        Ok(source@),
                    ),
                    Some(Err(reason)) => crate::rbxlx::cdata::decompiled_cdata(
                        header@,
                        bytecode@,
                        Err(reason@),
                    ),
                    None => crate::rbxlx::cdata::decompiled_cdata(
                        header@,
                        bytecode@,
                        Err("oracle-postprocess error: sender dropped"@),
                    ),
                }),
                _ => false,
            },
        },
        match task {
            ToWrite::XmlEvent(event) => output@ == copied(event@),
            ToWrite::Script { header, bytecode } => output@ == OutputEventView::CData(
                crate::rbxlx::cdata::decompiled_cdata(header@, bytecode@, settled(response)),
            ),
        },
        forall|event: DocumentEventView| #[trigger]
            sorted(event, task) ==> output@ == rewritten(event, settled(response)),
{
    match task {
        ToWrite::XmlEvent(event) => write_xml_event(event),
        ToWrite::Script { header, bytecode } => write_script(
            header.as_str(),
            bytecode.as_str(),
            response,
        ),
    }
}

/// Nothing but scripts changes: every other part is written as it is, whatever the service says, and
/// a script stays a section of character data.
pub proof fn law_only_scripts_change(
    event: DocumentEventView,
    answer: Result<Seq<char>, Seq<char>>,
)
    ensures
        script_in(event) is None ==> rewritten(event, answer) == copied(event),
        copied(event) is CData <==> event is CData,
        rewritten(event, answer) is CData <==> event is CData,
{
}

/// Every part but a script is written as it was read: texts of every kind in full, and elements with
/// all their attributes in order. Nothing is written of what stands around the root element.
pub proof fn law_parts_are_copied_in_full(
    text: Seq<char>,
    name: Seq<char>,
    attributes: Seq<(Seq<char>, Seq<char>)>,
)
    ensures
        copied(DocumentEventView::Characters(text)) == OutputEventView::Characters(text),
        copied(DocumentEventView::CData(text)) == OutputEventView::CData(text),
        copied(DocumentEventView::Comment(text)) == OutputEventView::Comment(text),
        copied(DocumentEventView::StartElement { name, attributes }) == (
        OutputEventView::StartElement { name, attributes }),
        copied(DocumentEventView::EndElement) == OutputEventView::EndElement,
        copied(DocumentEventView::StartDocument) == OutputEventView::Nothing,
        copied(DocumentEventView::EndDocument) == OutputEventView::Nothing,
        copied(DocumentEventView::ProcessingInstruction) == OutputEventView::Nothing,
        copied(DocumentEventView::Other(text)) == OutputEventView::Notice(
            "unknownevent: "@ + text,
        ),
{
}

/// Whatever the service answers, text outside of sections, comments and elements are written as they
/// were read, and so is a section in which no marker stands.
pub proof fn law_answers_change_scripts_alone(
    text: Seq<char>,
    name: Seq<char>,
    attributes: Seq<(Seq<char>, Seq<char>)>,
    answer: Result<Seq<char>, Seq<char>>,
)
    ensures
        rewritten(DocumentEventView::Characters(text), answer) == OutputEventView::Characters(text),
        rewritten(DocumentEventView::Comment(text), answer) == OutputEventView::Comment(text),
        rewritten(DocumentEventView::StartElement { name, attributes }, answer) == (
        OutputEventView::StartElement { name, attributes }),
        rewritten(DocumentEventView::EndElement, answer) == OutputEventView::EndElement,
        (forall|a: Seq<char>, b: Seq<char>|
            text != #[trigger] (a + "-- Bytecode (Base64):\n-- "@ + b) && text != a
                + "-- Bytecode (Base64):\r\n-- "@ + b) ==> rewritten(
            DocumentEventView::CData(text),
            answer,
        ) == OutputEventView::CData(text),
{
    crate::bytecode::law_bytecode_is_found_iff_marked(text);
}

/// A section that holds a script gets the very answer for it: it is written with the header, the
/// bytecode, and the source or the reason in full.
pub proof fn law_scripts_get_their_answer(
    before: Seq<char>,
    line: Seq<char>,
    rest: Seq<char>,
    wording: Seq<char>,
)
    requires
        forall|i: int| 0 <= i < line.len() ==> (#[trigger] line[i]) != '\n' && line[i] != '\r',
        rest.len() == 0 || rest[0] == '\n' || rest[0] == '\r',
        forall|a: Seq<char>, b: Seq<char>|
            #[trigger] (a + "-- Bytecode (Base64):\n-- "@ + b) == before
                + "-- Bytecode (Base64):\n-- "@ + line + rest ==> before.len() <= a.len(),
    ensures
        ({
            let header = before + "-- Bytecode (Base64):\n-- "@;
            let section = DocumentEventView::CData(header + line + rest);
            &&& rewritten(section, Ok(wording)) == OutputEventView::CData(
                crate::rbxlx::cdata::escaped(header) + crate::rbxlx::cdata::escaped(line) + "\n\n"@
                    + "-- decompilation:\n"@ + crate::rbxlx::cdata::escaped(wording) + "\n"@,
            )
            &&& rewritten(section, Err(wording)) == OutputEventView::CData(
                crate::rbxlx::cdata::escaped(header) + crate::rbxlx::cdata::escaped(line) + "\n\n"@
                    + "-- decompilation failed:\n-- "@ + crate::rbxlx::cdata::escaped(wording)
                    + "\n"@,
            )
        }),
{
    crate::bytecode::law_embedded_line_comes_out(before, line, rest);
}

/// How far a document has been processed.
#[derive(Debug, Clone, Copy, PartialEq, Eq, Structural)]
pub struct Progress {
    pub decompiled: u32,
    pub total_scripts: u32,
    pub written_events: u32,
    pub total_events: u32,
    pub reader_done: bool,
}

/// What to report of the progress.
#[derive(Debug, Clone, Copy, PartialEq, Eq, Structural)]
pub enum Report {
    /// Nothing: no part has been read yet.
    Nothing,
    /// The parts written, out of those read.
    Events,
    /// That, and the scripts decompiled, out of those found.
    EventsAndScripts,
}

impl Progress {
    /// Decides what to report.
    pub fn report(&self) -> (report: Report)
        ensures
            report == (if self.total_events == 0 {
                Report::Nothing
            } else if self.total_scripts == 0 {
                Report::Events
            } else {
                Report::EventsAndScripts
            }),
    {
        if self.total_events > 0 {
            if self.total_scripts > 0 {
                Report::EventsAndScripts
            } else {
                Report::Events
            }
        } else {
            Report::Nothing
        }
    }

    /// Whether all has been read and all that was read has been written.
    pub fn is_complete(&self) -> (complete: bool)
        ensures
            complete == (self.reader_done && self.written_events >= self.total_events),
    {
        self.reader_done && (self.total_events == 0 || self.written_events >= self.total_events)
    }
}

} // verus!
