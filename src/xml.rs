use vstd::prelude::*;
use quick_xml::events::{BytesStart, BytesText, Event};
use quick_xml::Reader;

verus! {

#[verifier::external_type_specification]
#[verifier::external_body]
#[verifier::reject_recursive_types(R)]
pub struct ExReader<R>(Reader<R>);

#[verifier::external_type_specification]
#[verifier::external_body]
pub struct ExBytesStart<'a>(BytesStart<'a>);

#[verifier::external_type_specification]
#[verifier::external_body]
pub struct ExBytesText<'a>(BytesText<'a>);

/// An attribute of a start tag, with its raw value.
#[derive(Debug, Clone, PartialEq)]
pub struct Attribute {
    pub key: String,
    pub value: String,
}

/// One event of the markup, as the streaming reader reports it.
#[derive(Debug, Clone, PartialEq)]
pub enum Token {
    /// A start tag `<name ...>` with its well-formed attributes in order.
    Start(String, Vec<Attribute>),
    /// An end tag `</name>`.
    End(String),
    /// Character data, trimmed and unescaped; `None` where an escape is invalid.
    Text(Option<String>),
    /// The contents of a `<![CDATA[...]]>` section.
    CData(String),
    /// The end of the input.
    Eof,
    /// Malformed markup.
    Fault,
    /// Anything else: empty-element tags, comments, declarations,
    /// processing instructions, doctypes.
    Other,
}

/// Whether a token ends the stream.
pub open spec fn is_stop(t: Token) -> bool {
    t is Eof || t is Fault
}

/// A token stream as the reader yields it: it ends at its first end of input
/// or fault, and only there.
pub open spec fn stream_complete(toks: Seq<Token>) -> bool {
    &&& toks.len() > 0
    &&& is_stop(toks.last())
    &&& forall|i: int| 0 <= i < toks.len() - 1 ==> !is_stop(#[trigger] toks[i])
}

/// The tokens that the reader reports for a text, up to and including the
/// first end of input or fault; whitespace around character data is trimmed.
pub uninterp spec fn xml_tokens(text: Seq<char>) -> Seq<Token>;

/// A streaming reader over a text, with the number of tokens taken so far.
struct XmlSource<'a> {
    reader: Reader<&'a [u8]>,
    text: Ghost<Seq<char>>,
    consumed: Ghost<nat>,
}

/// Relies on `quick_xml::Reader::from_str`, with text trimming on: a reader
/// over `xml` that has read nothing yet, and whose events end with an end of
/// input or an error.
#[verifier::external_body]
fn open_source<'a>(xml: &'a str) -> (r: XmlSource<'a>)
    ensures
        r.text@ == xml@,
        r.consumed@ == 0,
        stream_complete(xml_tokens(r.text@)),
{
    let mut reader = Reader::from_str(xml);
    reader.trim_text(true);
    XmlSource { reader, text: Ghost(xml@), consumed: Ghost(0) }
}

/// Relies on `String::from_utf8_lossy`: a tag name or value as text. Used by
/// `next_token` alone, to convert what the reader reports.
#[verifier::external_body]
fn utf8_text(b: &[u8]) -> String {
    String::from_utf8_lossy(b).into_owned()
}

/// Relies on `quick_xml::events::BytesStart::attributes`: the well-formed
/// attributes of a start tag, in order. Used by `next_token` alone, to
/// convert a start tag.
#[verifier::external_body]
fn start_attributes(e: &BytesStart) -> Vec<Attribute> {
    let mut attrs = Vec::new();
    for a in e.attributes() {
        if let Ok(a) = a {
            attrs.push(Attribute { key: utf8_text(a.key.as_ref()), value: utf8_text(&a.value) });
        }
    }
    attrs
}

/// Relies on `quick_xml::events::BytesText::unescape`: the character data with
/// its escapes replaced, or `None` where an escape is invalid. Used by
/// `next_token` alone, to convert character data.
#[verifier::external_body]
fn unescaped(e: &BytesText) -> Option<String> {
    match e.unescape() {
        Ok(s) => Some(s.into_owned()),
        Err(_) => None,
    }
}

impl<'a> XmlSource<'a> {
    /// Relies on `quick_xml::Reader::read_event`: the next event of the text,
    /// converted to a token. The events of a text depend on the text alone.
    #[verifier::external_body]
    fn next_token(&mut self) -> (t: Token)
        requires
            old(self).consumed@ < xml_tokens(old(self).text@).len(),
        ensures
            t == xml_tokens(old(self).text@)[old(self).consumed@ as int],
            final(self).text == old(self).text,
            final(self).consumed@ == old(self).consumed@ + 1,
    {
        let t = match self.reader.read_event() {
            Ok(Event::Start(e)) => Token::Start(utf8_text(e.name().as_ref()), start_attributes(&e)),
            Ok(Event::End(e)) => Token::End(utf8_text(e.name().as_ref())),
            Ok(Event::Text(e)) => Token::Text(unescaped(&e)),
            Ok(Event::CData(e)) => Token::CData(utf8_text(&e)),
            Ok(Event::Eof) => Token::Eof,
            Ok(_) => Token::Other,
            Err(_) => Token::Fault,
        };
        self.consumed = Ghost(self.consumed@ + 1);
        t
    }
}

/// All tokens of a text, up to and including the first end of input or fault.
pub fn tokenize(xml: &str) -> (r: Vec<Token>)
    ensures
        r@ == xml_tokens(xml@),
        stream_complete(r@),
{
    let mut src = open_source(xml);
    let ghost all = xml_tokens(xml@);
    let mut toks: Vec<Token> = Vec::new();
    loop
        invariant
            src.text@ == xml@,
            all == xml_tokens(xml@),
            stream_complete(all),
            src.consumed@ < all.len(),
            toks@ == all.subrange(0, src.consumed@ as int),
        decreases all.len() - src.consumed@,
    {
        let t = src.next_token();
        let stop = match &t {
            Token::Eof => true,
            Token::Fault => true,
            _ => false,
        };
        toks.push(t);
        assert(toks@ =~= all.subrange(0, src.consumed@ as int));
        if stop {
            assert(src.consumed@ == all.len());
            assert(toks@ =~= all);
            return toks;
        }
    }
}

} // verus!
