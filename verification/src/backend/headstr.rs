//! The top of the generated source: the header of the grammar description,
//! copied as it is, and the error type of the generated parser.

use crate::types::{Head, Setting, header_of};
use vstd::prelude::*;

verus! {

pub const LINE_END: &'static str = "\n";

pub const ERROR_TYPE_OPEN: &'static str = "
#[derive(Debug, Clone)]
pub enum ParseError {
  UnexpectedToken(";

pub const ERROR_TYPE_MIDDLE: &'static str = "),
  RedundantExpression(";

pub const ERROR_TYPE_CLOSE: &'static str = "),
  Eof,
}
";

/// The header fragments, each on a line of its own.
pub open spec fn header_text(header: Seq<Seq<char>>) -> Seq<char>
    decreases header.len(),
{
    if header.len() == 0 {
        Seq::empty()
    } else {
        header_text(header.drop_last()) + header.last() + LINE_END@
    }
}

/// The error type of the generated parser: an unexpected token, a token
/// that is left over, or the end of the input.
pub open spec fn error_type_text(token_type: Seq<char>) -> Seq<char> {
    ERROR_TYPE_OPEN@ + token_type + ERROR_TYPE_MIDDLE@ + token_type + ERROR_TYPE_CLOSE@
}

/// The top of the generated source.
pub open spec fn head_text(header: Seq<Seq<char>>, token_type: Seq<char>) -> Seq<char> {
    header_text(header) + error_type_text(token_type)
}

/// Renders the top of the generated source: the header fragments as they
/// are, in order, then the error type over the main token type.
pub fn head_to_str(head: Head, setting: Setting) -> (r: String)
    ensures
        r@ == head_text(header_of(head@), setting.0@),
{
    render_head(&head, &setting.0)
}

/// Renders the top of the generated source for a header and the spelling
/// of the main token type.
pub fn render_head(head: &Head, main_type_str: &String) -> (r: String)
    ensures
        r@ == head_text(header_of(head@), main_type_str@),
{
    let ghost header = header_of(head@);
    let mut out = String::new();
    let mut i: usize = 0;
    while i < head.len()
        invariant
            i <= head@.len(),
            header == header_of(head@),
            out@ == header_text(header.take(i as int)),
        decreases head@.len() - i,
    {
        proof {
            assert(header.take(i + 1).drop_last() =~= header.take(i as int));
            assert(header.take(i + 1).last() == head@[i as int].1@);
        }
        out.append(head[i].1.as_str());
        out.append(LINE_END);
        i += 1;
    }
    proof {
        assert(header.take(i as int) =~= header);
    }
    out.append(ERROR_TYPE_OPEN);
    out.append(main_type_str.as_str());
    out.append(ERROR_TYPE_MIDDLE);
    out.append(main_type_str.as_str());
    out.append(ERROR_TYPE_CLOSE);
    proof {
        assert(out@ =~= head_text(header, main_type_str@));
    }
    out
}

} // verus!
