//! Decode-side errors, each carrying its kind and the 1-based line and
//! column where it arose.

use vstd::prelude::*;

verus! {

/// What went wrong while reading TOON text or an event stream.
#[derive(Debug, Clone, Copy, PartialEq, Eq, Structural)]
pub enum ErrorKind {
    /// An unterminated quoted string, a bad escape, or a bad literal.
    Lexical,
    /// A tab in strict indentation, or an inexact indent step.
    Indent,
    /// A count mismatch, a duplicate key, or unbalanced structure.
    Structure,
    /// Path expansion would overwrite an incompatible sibling shape.
    PathConflict,
    /// An option value that no decoding can honour.
    InvalidOption,
}

/// A decode error: its kind, where it arose, and a brief cause.
#[derive(Debug)]
pub struct ToonError {
    pub kind: ErrorKind,
    /// 1-based line of the offence.
    pub line: usize,
    /// 1-based column of the offence.
    pub col: usize,
    /// A brief cause.
    pub msg: String,
}

/// The decimal digits of `n`, most significant first.
pub open spec fn dec_digits(n: nat) -> Seq<char>
    decreases n,
{
    if n < 10 {
        seq![crate::lexicon::hex_char(n as int)]
    } else {
        dec_digits(n / 10) + seq![crate::lexicon::hex_char((n % 10) as int)]
    }
}

/// Appends the decimal form of `n`.
pub fn push_decimal(out: &mut Vec<char>, n: usize)
    ensures
        final(out)@ == old(out)@ + dec_digits(n as nat),
    decreases n,
{
    if n < 10 {
        out.push(crate::lexicon::hex_char_of(n as u32));
        proof {
            assert(final(out)@ =~= old(out)@ + dec_digits(n as nat));
        }
    } else {
        push_decimal(out, n / 10);
        out.push(crate::lexicon::hex_char_of((n % 10) as u32));
        proof {
            assert(final(out)@ =~= old(out)@ + dec_digits(n as nat));
        }
    }
}

impl ToonError {
    /// What `message` returns, as a character sequence.
    pub open spec fn message_m(self) -> Seq<char> {
        seq!['l', 'i', 'n', 'e', ' '] + dec_digits(self.line as nat) + seq![
            ',',
            ' ',
            'c',
            'o',
            'l',
            'u',
            'm',
            'n',
            ' ',
        ] + dec_digits(self.col as nat) + seq![':', ' '] + self.msg@
    }

    /// The diagnostic line: where the error arose and its cause.
    pub fn message(&self) -> (r: String)
        ensures
            r@ == self.message_m(),
    {
        let mut out: Vec<char> = Vec::new();
        out.push('l');
        out.push('i');
        out.push('n');
        out.push('e');
        out.push(' ');
        push_decimal(&mut out, self.line);
        out.push(',');
        out.push(' ');
        out.push('c');
        out.push('o');
        out.push('l');
        out.push('u');
        out.push('m');
        out.push('n');
        out.push(' ');
        push_decimal(&mut out, self.col);
        out.push(':');
        out.push(' ');
        let ghost pre = out@;
        let mut i: usize = 0;
        let msg_chars = crate::chars::str_to_chars(self.msg.as_str());
        proof {
            assert(out@ =~= pre + self.msg@.take(0));
        }
        while i < msg_chars.len()
            invariant
                i <= msg_chars@.len(),
                msg_chars@ == self.msg@,
                out@ == pre + self.msg@.take(i as int),
            decreases msg_chars@.len() - i,
        {
            out.push(msg_chars[i]);
            proof {
                assert(self.msg@.take(i + 1 as int) =~= self.msg@.take(i as int) + seq![
                    self.msg@[i as int],
                ]);
                assert(out@ =~= pre + self.msg@.take(i + 1 as int));
            }
            i = i + 1;
        }
        proof {
            assert(self.msg@.take(self.msg@.len() as int) =~= self.msg@);
            assert(out@ =~= self.message_m());
        }
        crate::chars::chars_to_string(&out)
    }
}

/// A fresh error with the given kind, place, and cause.
pub fn make_error(kind: ErrorKind, line: usize, col: usize, msg: &str) -> (r: ToonError)
    ensures
        r.kind == kind,
        r.line == line,
        r.col == col,
        r.msg@ == msg@,
{
    ToonError { kind, line, col, msg: msg.to_owned() }
}

} // verus!
