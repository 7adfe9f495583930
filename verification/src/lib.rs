//! A streaming rewrite of Citation Style Language (CSL) XML for markdown
//! renderers.
//!
//! The library reads a byte buffer holding an XML document, splits it into a
//! sequence of structural events, applies a small set of tag rewrite rules
//! (sentinel text in `title`/`title-short`/`id` elements, a newline reference
//! on `layout` suffixes inside `bibliography`, markdown markers on `text`
//! elements with a `font-style`), and serialises the rewritten events back to
//! bytes. Everything is pure: no file or console handling lives here.

use vstd::prelude::*;
use vstd::string::StringSliceAdditionalSpecFns;

pub mod amp;
pub mod attrs;
pub mod events;
pub mod laws;
pub mod lexer;
pub mod names;
pub mod transform;

use crate::events::write_events_s;
use crate::lexer::{lex, XmlError, XmlErrorKind};
use crate::transform::transform_from;

verus! {

/// The whole pipeline on a byte buffer: split into events, rewrite them,
/// serialise them back. `None` when the buffer is not well formed or a
/// rewritten tag's attributes do not parse.
pub open spec fn transform_doc(s: Seq<u8>) -> Option<Seq<u8>> {
    match lex(s) {
        Err(_) => None,
        Ok(es) => match transform_from(es, false) {
            Err(_) => None,
            Ok(out) => Some(write_events_s(out)),
        },
    }
}

/// Rewrites a whole CSL document held in a byte buffer.
///
/// Returns the transformed document exactly as [`transform_doc`] describes
/// it, or an error when the input is not well formed; no partial output is
/// ever produced. The error carries the kind and the byte offset of the
/// offending construct: the offset and kind the reader reports, or — for an
/// element whose attributes a rule needed and could not parse — the offset
/// at which that element's tag starts and `MalformedAttributes`.
pub fn parse_xml(input: &[u8]) -> (r: Result<Vec<u8>, XmlError>)
    ensures
        match r {
            Ok(v) => transform_doc(input@) == Some(v@),
            Err(e) => {
                &&& transform_doc(input@) is None
                &&& match lex(input@) {
                    Err(f) => e.position == f.0 && e.kind == f.1,
                    Ok(es) => {
                        &&& e.kind == XmlErrorKind::MalformedAttributes
                        &&& transform_from(es, false) matches Err(j) && e.position
                            == write_events_s(es.take(j)).len()
                    },
                }
            },
        },
{
    let n = input.len();
    match crate::lexer::lex_events(input) {
        Err(e) => Err(e),
        Ok(es) => match crate::transform::transform_events(&es) {
            Err(i) => {
                proof {
                    crate::laws::lemma_write_lex_roundtrip(input@);
                    assert(input@.len() == n as int);
                }
                let off = crate::events::events_prefix_len(&es, i);
                Err(XmlError { position: off, kind: XmlErrorKind::MalformedAttributes })
            },
            Ok(out) => Ok(crate::events::write_events(&out)),
        },
    }
}

/// Rewrites a whole CSL document held in a string; the transform itself
/// works on the string's UTF-8 bytes.
pub fn parse_xml_string(xml_string: &str) -> (r: Result<Vec<u8>, XmlError>)
    ensures
        match r {
            Ok(v) => transform_doc(xml_string.spec_bytes()) == Some(v@),
            Err(e) => transform_doc(xml_string.spec_bytes()) is None,
        },
{
    parse_xml(xml_string.as_bytes())
}

} // verus!
