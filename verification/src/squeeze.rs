//! A best-effort minifier for the election-definition payload.
//!
//! It collapses line breaks and the indentation that follows them, putting a
//! single space after a trailing comma where a line break was removed, and
//! never drops or merges non-whitespace characters. It assumes the
//! line-oriented shape that the definition serializer emits (one field per
//! line, commas at line ends); it is not a general JSON minifier.
//! Whitespace here means ASCII space, tab, carriage return or line feed.

use vstd::prelude::*;

use crate::codec::{is_space, push_char};

verus! {

/// What squeezing emits for `s`, entered with `indent` telling whether a
/// line break is being collapsed and `last_comma` whether the last emitted
/// character was a comma.
pub open spec fn spec_squeeze(s: Seq<char>, indent: bool, last_comma: bool) -> Seq<char>
    decreases s.len(),
{
    if s.len() == 0 {
        Seq::empty()
    } else {
        let c = s[0];
        if indent && !is_space(c) {
            seq![c] + spec_squeeze(s.drop_first(), false, c == ',')
        } else if !indent && c != '\n' {
            seq![c] + spec_squeeze(s.drop_first(), false, c == ',')
        } else if c == '\n' {
            (if last_comma {
                seq![' ']
            } else {
                Seq::empty()
            }) + spec_squeeze(s.drop_first(), true, false)
        } else {
            spec_squeeze(s.drop_first(), indent, last_comma)
        }
    }
}

/// Collapses runs of indentation and line breaks in `string`, inserting a
/// single space after a trailing comma where a line break was removed.
/// Token-preserving: every non-whitespace character of the input appears
/// unchanged, in order, in the result.
pub fn squeeze_json(string: String) -> (r: String)
    ensures
        r@ == spec_squeeze(string@, false, false),
{
    let s = string.as_str();
    let len = s.unicode_len();
    let mut out = String::new();
    let mut indent = false;
    let mut last_comma = false;
    let mut i: usize = 0;
    proof {
        assert(string@.skip(0) =~= string@);
    }
    while i < len
        invariant
            len == string@.len(),
            i <= len,
            s@ == string@,
            out@ + spec_squeeze(string@.skip(i as int), indent, last_comma) == spec_squeeze(
                string@,
                false,
                false,
            ),
        decreases len - i,
    {
        let ghost out0 = out@;
        let ghost suffix = string@.skip(i as int);
        let c = s.get_char(i);
        proof {
            assert(suffix[0] == string@[i as int]);
            assert(suffix.drop_first() =~= string@.skip(i + 1));
        }
        let space = c == ' ' || c == '\t' || c == '\r' || c == '\n';
        let newline = c == '\n';
        if indent && !space {
            push_char(&mut out, c);
            indent = false;
            last_comma = c == ',';
            proof {
                assert(out@ =~= out0 + seq![c]);
                assert(out@ + spec_squeeze(string@.skip(i + 1), false, c == ',') =~= out0 + (
                seq![c] + spec_squeeze(suffix.drop_first(), false, c == ',')));
            }
        } else if !indent && !newline {
            push_char(&mut out, c);
            last_comma = c == ',';
            proof {
                assert(out@ =~= out0 + seq![c]);
                assert(out@ + spec_squeeze(string@.skip(i + 1), false, c == ',') =~= out0 + (
                seq![c] + spec_squeeze(suffix.drop_first(), false, c == ',')));
            }
        } else if newline {
            let ghost lc0 = last_comma;
            if last_comma {
                push_char(&mut out, ' ');
            }
            indent = true;
            last_comma = false;
            proof {
                if lc0 {
                    assert(out@ =~= out0 + seq![' ']);
                } else {
                    assert(out@ =~= out0 + Seq::<char>::empty());
                }
                assert(out@ + spec_squeeze(string@.skip(i + 1), true, false) =~= out0 + ((if lc0 {
                    seq![' ']
                } else {
                    Seq::<char>::empty()
                }) + spec_squeeze(suffix.drop_first(), true, false)));
            }
        } else {
            proof {
                assert(spec_squeeze(suffix, indent, last_comma) == spec_squeeze(
                    suffix.drop_first(),
                    indent,
                    last_comma,
                ));
            }
        }
        i += 1;
    }
    proof {
        assert(string@.skip(len as int) =~= Seq::<char>::empty());
        assert(out@ + Seq::<char>::empty() =~= out@);
    }
    out
}

} // verus!
