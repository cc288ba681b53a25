//! The XML tokenizer: quick-xml's reader, seen through a few trusted calls.
use vstd::prelude::*;
use quick_xml::events::BytesStart;
use quick_xml::events::Event as XmlEvent;
use quick_xml::Reader;
use crate::attrs::Attr;
use crate::convert::ConvertError;
use crate::transducer::{Element, Event};

verus! {

#[verifier::external_type_specification]
#[verifier::external_body]
#[verifier::reject_recursive_types(R)]
pub struct ExReader<R>(Reader<R>);

#[verifier::external_type_specification]
#[verifier::external_body]
pub struct ExXmlError(quick_xml::Error);

#[verifier::external_type_specification]
#[verifier::external_body]
pub struct ExBytesStart<'a>(BytesStart<'a>);

/// One token as the reader gives it; the tags are still unparsed.
pub(crate) enum Token<'a> {
    Start(BytesStart<'a>),
    Empty(BytesStart<'a>),
    Text(Vec<u8>),
    End,
    Eof,
    CData,
    Comment,
    Decl,
    PI,
    DocType,
}

/// Relies on `quick_xml::Reader::from_str`: a reader over the text.
#[verifier::external_body]
pub(crate) fn open_reader<'a>(xml: &'a str) -> Reader<&'a [u8]> {
    Reader::from_str(xml)
}

/// Relies on `quick_xml::Reader::trim_text`: white space around text is
/// dropped, and text made only of white space is not reported.
#[verifier::external_body]
pub(crate) fn trim_text<'a>(r: &mut Reader<&'a [u8]>) {
    r.trim_text(true);
}

/// Relies on `quick_xml::Reader::read_event`: the next token of the
/// document, or why it is malformed.
#[verifier::external_body]
pub(crate) fn read_token<'a>(r: &mut Reader<&'a [u8]>) -> Result<Token<'a>, quick_xml::Error> {
    Ok(match r.read_event()? {
        XmlEvent::Start(e) => Token::Start(e),
        XmlEvent::Empty(e) => Token::Empty(e),
        XmlEvent::Text(e) => Token::Text(e.into_inner().into_owned()),
        XmlEvent::End(_) => Token::End,
        XmlEvent::Eof => Token::Eof,
        XmlEvent::CData(_) => Token::CData,
        XmlEvent::Comment(_) => Token::Comment,
        XmlEvent::Decl(_) => Token::Decl,
        XmlEvent::PI(_) => Token::PI,
        XmlEvent::DocType(_) => Token::DocType,
    })
}

/// Relies on `quick_xml::Reader::buffer_position`: how far the reader has
/// got into the document, in bytes.
#[verifier::external_body]
pub(crate) fn position<'a>(r: &Reader<&'a [u8]>) -> usize {
    r.buffer_position()
}

/// Relies on `quick_xml::events::BytesStart::name`: the tag's name, with its
/// prefix, as raw bytes.
#[verifier::external_body]
fn tag_name<'a>(e: &BytesStart<'a>) -> Vec<u8> {
    e.name().into_inner().to_vec()
}

/// Relies on `quick_xml::events::BytesStart::attributes`: the tag's
/// attributes in document order, with raw keys and values, or the first
/// malformed one.
#[verifier::external_body]
fn tag_attributes<'a>(e: &BytesStart<'a>) -> Result<Vec<Attr>, quick_xml::Error> {
    let mut attrs = Vec::new();
    for a in e.attributes() {
        let a = a?;
        attrs.push(Attr { key: a.key.into_inner().to_vec(), value: a.value.into_owned() });
    }
    Ok(attrs)
}

/// The element that a tag opens.
pub(crate) fn element<'a>(e: &BytesStart<'a>) -> Result<Element, quick_xml::Error> {
    let name = tag_name(e);
    match tag_attributes(e) {
        Ok(attrs) => Ok(Element { name, attrs }),
        Err(err) => Err(err),
    }
}

/// The structural event that a token stands for.
pub(crate) fn to_event<'a>(t: Token<'a>) -> (r: Result<Event, quick_xml::Error>)
    ensures
        t is Start ==> (r is Ok ==> r->Ok_0 is Start),
        t is Empty ==> (r is Ok ==> r->Ok_0 is Empty),
        t is Text ==> (r matches Ok(Event::Text(b)) && b@ == t->Text_0@),
        t is End ==> r matches Ok(Event::End),
        t is Eof ==> r matches Ok(Event::Eof),
        t is CData || t is Comment || t is Decl || t is PI || t is DocType ==> r matches Ok(
            Event::Other,
        ),
{
    match t {
        Token::Start(e) => match element(&e) {
            Ok(el) => Ok(Event::Start(el)),
            Err(err) => Err(err),
        },
        Token::Empty(e) => match element(&e) {
            Ok(el) => Ok(Event::Empty(el)),
            Err(err) => Err(err),
        },
        Token::Text(raw) => Ok(Event::Text(raw)),
        Token::End => Ok(Event::End),
        Token::Eof => Ok(Event::Eof),
        Token::CData => Ok(Event::Other),
        Token::Comment => Ok(Event::Other),
        Token::Decl => Ok(Event::Other),
        Token::PI => Ok(Event::Other),
        Token::DocType => Ok(Event::Other),
    }
}

/// A document being read one structural event at a time, with white space
/// around text trimmed and text of white space alone dropped.
pub struct Tokenizer<'a> {
    reader: Reader<&'a [u8]>,
}

impl<'a> Tokenizer<'a> {
    /// Starts reading the document `xml` from its beginning.
    pub fn new(xml: &'a str) -> Tokenizer<'a> {
        let mut reader = open_reader(xml);
        trim_text(&mut reader);
        Tokenizer { reader }
    }

    /// The next structural event of the document, or why the document is
    /// malformed there, with the byte offset that the reader has reached.
    pub fn next_event(&mut self) -> (r: Result<Event, ConvertError>)
        ensures
            r is Err ==> r->Err_0 is Parse,
    {
        let tok = match read_token(&mut self.reader) {
            Ok(tok) => tok,
            Err(cause) => return Err(ConvertError::Parse { position: position(&self.reader), cause }),
        };
        match to_event(tok) {
            Ok(ev) => Ok(ev),
            Err(cause) => Err(ConvertError::Parse { position: position(&self.reader), cause }),
        }
    }
}

} // verus!
