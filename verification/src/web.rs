//! Helpers for the HTTP layer sitting on top of the catalog: percent
//! decoding of request paths and the error taxonomy shown to clients.

use vstd::prelude::*;

verus! {

/// Relies on `String::push` of std: appends the character to the string.
pub assume_specification[ String::push ](s: &mut String, c: char)
    ensures
        final(s)@ == old(s)@.push(c),
;

/// What a request handler can report: a missing or malformed parameter, a
/// path that resolves to nothing, or an internal failure with its message.
#[derive(Debug)]
pub enum WebError {
    MissingParam,
    InvalidParam,
    NotFound,
    Other(String),
}

/// The numeric value of a hexadecimal digit; other characters count as 0.
pub open spec fn spec_hex_val(c: char) -> u8 {
    if '0' <= c && c <= '9' {
        ((c as int) - 48) as u8
    } else if 'a' <= c && c <= 'f' {
        ((c as int) - 97 + 10) as u8
    } else if 'A' <= c && c <= 'F' {
        ((c as int) - 65 + 10) as u8
    } else {
        0
    }
}

/// The numeric value of a hexadecimal digit character.
pub fn hex_to_num(c: char) -> (r: u8)
    ensures
        r == spec_hex_val(c),
{
    if '0' <= c && c <= '9' {
        (c as u8) - 48
    } else if 'a' <= c && c <= 'f' {
        (c as u8) - 97 + 10
    } else if 'A' <= c && c <= 'F' {
        (c as u8) - 65 + 10
    } else {
        0
    }
}

/// Percent decoding over a character sequence: `%xy` becomes the character
/// with code `xy`; everything else is kept as it is.
pub open spec fn spec_url_decode(s: Seq<char>) -> Seq<char>
    decreases s.len(),
{
    if s.len() == 0 {
        Seq::empty()
    } else if s[0] == '%' && s.len() >= 3 {
        seq![(((spec_hex_val(s[1]) << 4) | spec_hex_val(s[2])) as char)] + spec_url_decode(
            s.skip(3),
        )
    } else {
        seq![s[0]] + spec_url_decode(s.skip(1))
    }
}

/// Every `%` leaves room for its two digits.
pub open spec fn percent_ok(s: Seq<char>) -> bool {
    forall|i: int| 0 <= i < s.len() && s[i] == '%' ==> i + 2 < s.len()
}

/// Decodes the percent escapes in `instr`.
#[verifier::loop_isolation(false)]
pub fn url_decode(instr: &str) -> (r: String)
    requires
        percent_ok(instr@),
    ensures
        r@ == spec_url_decode(instr@),
{
    let ghost s = instr@;
    let len: usize = instr.unicode_len();
    let mut buffer = String::new();
    let mut pos: usize = 0;
    proof {
        assert(s.skip(0) =~= s);
        assert(buffer@ + spec_url_decode(s) =~= spec_url_decode(s));
    }
    while pos < len
        invariant
            pos <= len,
            buffer@ + spec_url_decode(s.skip(pos as int)) == spec_url_decode(s),
        decreases len - pos,
    {
        let cur = instr.get_char(pos);
        proof {
            assert(s.skip(pos as int)[0] == s[pos as int]);
        }
        if cur == '%' {
            let a = hex_to_num(instr.get_char(pos + 1));
            let b = hex_to_num(instr.get_char(pos + 2));
            let new_char = ((a << 4) | b) as char;
            buffer.push(new_char);
            proof {
                let rest = s.skip(pos as int);
                assert(rest.len() >= 3);
                assert(rest[1] == s[pos as int + 1] && rest[2] == s[pos as int + 2]);
                assert(rest.skip(3) =~= s.skip(pos as int + 3));
                assert(buffer@ + spec_url_decode(s.skip(pos as int + 3)) =~= spec_url_decode(s));
            }
            pos = pos + 3;
        } else {
            buffer.push(cur);
            proof {
                let rest = s.skip(pos as int);
                assert(rest.skip(1) =~= s.skip(pos as int + 1));
                assert(buffer@ + spec_url_decode(s.skip(pos as int + 1)) =~= spec_url_decode(s));
            }
            pos = pos + 1;
        }
    }
    proof {
        assert(s.skip(len as int) =~= Seq::<char>::empty());
        assert(buffer@ =~= spec_url_decode(s));
    }
    buffer
}

} // verus!
