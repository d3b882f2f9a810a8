use vstd::prelude::*;
use vstd::string::*;
use crate::language::{HighlightState, LanguageId, LanguageMode, TokenKind, TokenSpan};

verus! {

/// Plain text: no highlighting beyond one text span, no formatter.
pub struct UnknownMode;

/// The spans of a plain-text line: one text span over a non-empty line.
pub open spec fn plain_spans(len: nat) -> Seq<TokenSpan> {
    if len == 0 {
        Seq::empty()
    } else {
        seq![TokenSpan { start: 0, end: len as usize, kind: TokenKind::Text }]
    }
}

impl LanguageMode for UnknownMode {
    fn id(&self) -> (r: LanguageId)
        ensures
            r == LanguageId::Unknown,
    {
        LanguageId::Unknown
    }

    fn display_name(&self) -> (r: &'static str)
        ensures
            r@ == "Plain Text"@,
    {
        "Plain Text"
    }

    fn extensions(&self) -> (r: &'static [&'static str])
        ensures
            r@.len() == 0,
    {
        &[]
    }

    fn sniff(&self, sample: &[u8]) -> (r: bool)
        ensures
            !r,
    {
        false
    }

    fn highlight_line(&self, line: &str, state: &mut HighlightState) -> (r: Vec<TokenSpan>)
        ensures
            r@ == plain_spans(line.spec_bytes().len()),
            *final(state) == *old(state),
    {
        let len = line.as_bytes().len();
        let mut spans: Vec<TokenSpan> = Vec::new();
        if len > 0 {
            spans.push(TokenSpan { start: 0, end: len, kind: TokenKind::Text });
        }
        proof {
            assert(spans@ =~= plain_spans(line.spec_bytes().len()));
        }
        spans
    }

    fn format(&self, text: &str) -> (r: Result<String, String>)
        ensures
            r matches Err(m) && m@ == "No formatter for Plain Text"@,
    {
        Err(String::from_str("No formatter for Plain Text"))
    }
}

} // verus!
