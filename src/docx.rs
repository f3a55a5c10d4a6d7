//! The text of a DOCX body, from the events of its XML.
use vstd::prelude::*;
use crate::text::{chars_of, push_str, string_of};

verus! {

/// An event of the document XML, as the text extraction reads it.
#[derive(Clone, Debug)]
pub enum XmlEvent {
    /// A text node, its entities already resolved.
    Text(String),
    /// A closing tag, by its qualified name.
    End(String),
    /// Anything else.
    Other,
}

/// What an event adds to the text: a text node itself, a newline at the end
/// of a paragraph (`</w:p>`), nothing otherwise.
pub open spec fn event_text(e: XmlEvent) -> Seq<char> {
    match e {
        XmlEvent::Text(t) => t@,
        XmlEvent::End(n) => if n@ == "w:p"@ {
            seq!['\n']
        } else {
            seq![]
        },
        XmlEvent::Other => seq![],
    }
}

pub open spec fn docx_text_of(events: Seq<XmlEvent>) -> Seq<char>
    decreases events.len(),
{
    if events.len() == 0 {
        seq![]
    } else {
        docx_text_of(events.drop_last()) + event_text(events.last())
    }
}

/// The body text of a DOCX document: its text nodes in order, a newline
/// after each paragraph.
pub fn docx_text(events: &Vec<XmlEvent>) -> (r: String)
    ensures
        r@ == docx_text_of(events@),
{
    let mut out: Vec<char> = Vec::new();
    let mut i: usize = 0;
    while i < events.len()
        invariant
            i <= events.len(),
            out@ == docx_text_of(events@.subrange(0, i as int)),
        decreases events.len() - i,
    {
        assert(events@.subrange(0, i + 1).drop_last() =~= events@.subrange(0, i as int));
        match &events[i] {
            XmlEvent::Text(t) => push_str(&mut out, t.as_str()),
            XmlEvent::End(n) => {
                if crate::document::spells(&chars_of(n.as_str()), "w:p") {
                    out.push('\n');
                }
            },
            XmlEvent::Other => {},
        }
        assert(out@ =~= docx_text_of(events@.subrange(0, i + 1)));
        i = i + 1;
    }
    assert(events@.subrange(0, events.len() as int) =~= events@);
    string_of(&out)
}

} // verus!
