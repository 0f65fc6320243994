//! Strings written out with their characters escaped.
use vstd::prelude::*;
use vstd::utf8::*;
use vstd::string::StringSliceAdditionalSpecFns;
use crate::text::{char_range_at, len};
use crate::utf8::{char_index, lemma_char_index_ends, lemma_char_index_start, lemma_char_step};

verus! {

/// The digit of the number `n`, below sixteen, in lower-case hexadecimal.
pub open spec fn spec_hex_digit(n: nat) -> char {
    if n < 10 {
        ((48 + n) as u8) as char
    } else {
        ((87 + n) as u8) as char
    }
}

/// The last `digits` digits of `v` in lower-case hexadecimal, padded with
/// zeros.
pub open spec fn hex_number(v: nat, digits: nat) -> Seq<char>
    decreases digits,
{
    if digits == 0 {
        Seq::<char>::empty()
    } else {
        hex_number(v / 16, (digits - 1) as nat).push(spec_hex_digit(v % 16))
    }
}

/// The escape of the character `c` by its number: `\x` and two digits up
/// to `U+00FF`, `\u` and four digits up to `U+FFFF`, `\U` and eight
/// digits beyond.
pub open spec fn escaped_unicode_char(c: char) -> Seq<char> {
    let v = c as u32 as nat;
    if v <= 0xff {
        seq!['\\', 'x'] + hex_number(v, 2)
    } else if v <= 0xffff {
        seq!['\\', 'u'] + hex_number(v, 4)
    } else {
        seq!['\\', 'U'] + hex_number(v, 8)
    }
}

/// The escape of the character `c` as in source text: a backslash and a
/// letter for tab, return and newline; a backslash before a backslash or
/// a quote; the character itself if it is printable ASCII; else its
/// escape by number.
pub open spec fn escaped_default_char(c: char) -> Seq<char> {
    if c == '\t' {
        seq!['\\', 't']
    } else if c == '\r' {
        seq!['\\', 'r']
    } else if c == '\n' {
        seq!['\\', 'n']
    } else if c == '\\' {
        seq!['\\', '\\']
    } else if c == '\'' {
        seq!['\\', '\'']
    } else if c == '"' {
        seq!['\\', '"']
    } else if ' ' <= c && c <= '~' {
        seq![c]
    } else {
        escaped_unicode_char(c)
    }
}

/// The escapes by number of the characters of `s`, one after the other.
pub open spec fn escaped_unicode(s: Seq<char>) -> Seq<char>
    decreases s.len(),
{
    if s.len() == 0 {
        Seq::<char>::empty()
    } else {
        escaped_unicode(s.drop_last()) + escaped_unicode_char(s.last())
    }
}

/// The escapes as in source text of the characters of `s`, one after the
/// other.
pub open spec fn escaped_default(s: Seq<char>) -> Seq<char>
    decreases s.len(),
{
    if s.len() == 0 {
        Seq::<char>::empty()
    } else {
        escaped_default(s.drop_last()) + escaped_default_char(s.last())
    }
}

/// The digit of `n` in lower-case hexadecimal.
fn hex_digit(n: u32) -> (c: char)
    requires
        n < 16,
    ensures
        c == spec_hex_digit(n as nat),
{
    if n < 10 {
        ((48 + n) as u8) as char
    } else {
        ((87 + n) as u8) as char
    }
}

/// Appends the last `digits` hexadecimal digits of `v` to `out`.
fn push_hex(out: &mut String, v: u32, digits: u32)
    ensures
        final(out)@ == old(out)@ + hex_number(v as nat, digits as nat),
    decreases digits,
{
    if digits > 0 {
        push_hex(out, v / 16, digits - 1);
        out.push(hex_digit(v % 16));
        proof {
            assert(out@ =~= old(out)@ + hex_number(v as nat, digits as nat));
        }
    } else {
        proof {
            assert(out@ =~= old(out)@ + hex_number(v as nat, digits as nat));
        }
    }
}

/// Appends the escape by number of `c` to `out`.
fn push_escaped_unicode(out: &mut String, c: char)
    ensures
        final(out)@ == old(out)@ + escaped_unicode_char(c),
{
    let v: u32 = c as u32;
    out.push('\\');
    if v <= 0xff {
        out.push('x');
        push_hex(out, v, 2);
    } else if v <= 0xffff {
        out.push('u');
        push_hex(out, v, 4);
    } else {
        out.push('U');
        push_hex(out, v, 8);
    }
    proof {
        assert(out@ =~= old(out)@ + escaped_unicode_char(c));
    }
}

/// Appends the escape as in source text of `c` to `out`.
fn push_escaped_default(out: &mut String, c: char)
    ensures
        final(out)@ == old(out)@ + escaped_default_char(c),
{
    if c == '\t' {
        out.push('\\');
        out.push('t');
    } else if c == '\r' {
        out.push('\\');
        out.push('r');
    } else if c == '\n' {
        out.push('\\');
        out.push('n');
    } else if c == '\\' {
        out.push('\\');
        out.push('\\');
    } else if c == '\'' {
        out.push('\\');
        out.push('\'');
    } else if c == '"' {
        out.push('\\');
        out.push('"');
    } else if ' ' <= c && c <= '~' {
        out.push(c);
    } else {
        push_escaped_unicode(out, c);
    }
    proof {
        assert(out@ =~= old(out)@ + escaped_default_char(c));
    }
}

/// The string `s` with every character escaped as in source text.
pub fn escape_default(s: &str) -> (r: String)
    ensures
        r@ == escaped_default(s@),
{
    let mut out = String::new();
    let n = len(s);
    let mut i: usize = 0;
    proof {
        lemma_char_index_start(s@);
        assert(s@.take(0) =~= Seq::<char>::empty());
    }
    while i < n
        invariant
            n == s.spec_bytes().len(),
            i <= n,
            vstd::utf8::is_char_boundary(s.spec_bytes(), i as int),
            out@ == escaped_default(s@.take(char_index(s@, i as int))),
        decreases n - i,
    {
        proof {
            lemma_char_step(s@, i as int);
            let k = char_index(s@, i as int);
            assert(s@.take(k + 1).last() == s@[k]);
            assert(s@.take(k + 1).drop_last() =~= s@.take(k));
        }
        let range = char_range_at(s, i);
        push_escaped_default(&mut out, range.ch);
        i = range.next;
    }
    proof {
        lemma_char_index_ends(s@, i as int);
        assert(s@.take(s@.len() as int) =~= s@);
    }
    out
}

/// The string `s` with every character escaped by its number.
pub fn escape_unicode(s: &str) -> (r: String)
    ensures
        r@ == escaped_unicode(s@),
{
    let mut out = String::new();
    let n = len(s);
    let mut i: usize = 0;
    proof {
        lemma_char_index_start(s@);
        assert(s@.take(0) =~= Seq::<char>::empty());
    }
    while i < n
        invariant
            n == s.spec_bytes().len(),
            i <= n,
            vstd::utf8::is_char_boundary(s.spec_bytes(), i as int),
            out@ == escaped_unicode(s@.take(char_index(s@, i as int))),
        decreases n - i,
    {
        proof {
            lemma_char_step(s@, i as int);
            let k = char_index(s@, i as int);
            assert(s@.take(k + 1).last() == s@[k]);
            assert(s@.take(k + 1).drop_last() =~= s@.take(k));
        }
        let range = char_range_at(s, i);
        push_escaped_unicode(&mut out, range.ch);
        i = range.next;
    }
    proof {
        lemma_char_index_ends(s@, i as int);
        assert(s@.take(s@.len() as int) =~= s@);
    }
    out
}

} // verus!
