//! Text that travels inside other text: path segments of a URL, and opaque tokens.

use crate::text::chars_of;
use vstd::prelude::*;
use vstd::utf8::encode_utf8;

verus! {

// ---- Path segments ----

/// Bytes that stand for themselves in a path segment.
pub open spec fn unreserved(b: u8) -> bool {
    (0x30 <= b <= 0x39) || (0x41 <= b <= 0x5a) || (0x61 <= b <= 0x7a) || b == 0x2d || b == 0x2e || b == 0x5f || b == 0x7e
}

/// The hexadecimal digit of a number below sixteen.
pub open spec fn hex_digit(d: u8) -> char {
    if d < 10 { (0x30 + d) as u8 as char } else { (0x37 + d) as u8 as char }
}

/// One byte as a path segment has it.
pub open spec fn escaped_byte(b: u8) -> Seq<char> {
    if unreserved(b) { seq![b as char] } else { seq!['%', hex_digit(b / 16), hex_digit(b % 16)] }
}

/// Bytes as a path segment has them.
pub open spec fn escaped(b: Seq<u8>) -> Seq<char>
    decreases b.len(),
{
    if b.len() == 0 { Seq::empty() } else { escaped(b.drop_last()) + escaped_byte(b.last()) }
}

/// The number that a hexadecimal digit stands for.
pub open spec fn hex_value(c: char) -> int {
    if '0' <= c && c <= '9' { c as int - 0x30 } else { c as int - 0x37 }
}

/// The bytes of a path segment.
pub open spec fn unescaped(c: Seq<char>) -> Seq<u8>
    decreases c.len(),
{
    if c.len() == 0 {
        Seq::empty()
    } else if c[0] == '%' && c.len() >= 3 {
        seq![(hex_value(c[1]) * 16 + hex_value(c[2])) as u8] + unescaped(c.skip(3))
    } else {
        seq![c[0] as u8] + unescaped(c.skip(1))
    }
}

fn hex(d: u8) -> (r: char)
    requires
        d < 16,
    ensures
        r == hex_digit(d),
{
    if d < 10 { (0x30 + d) as char } else { (0x37 + d) as char }
}

/// A string as one segment of a path, whatever it holds.
pub fn encode_path_segment(s: &str) -> (r: String)
    ensures
        r@ == escaped(encode_utf8(s@)),
{
    let bytes = s.as_bytes();
    let mut out: String = String::new();
    let mut i: usize = 0;
    assert(bytes@.take(0) =~= Seq::empty());
    while i < bytes.len()
        invariant
            bytes@ == encode_utf8(s@),
            i <= bytes@.len(),
            out@ == escaped(bytes@.take(i as int)),
        decreases bytes@.len() - i,
    {
        proof {
            crate::lists::lemma_take_grows(bytes@, i as int);
        }
        let ghost before = out@;
        let b: u8 = bytes[i];
        if (0x30 <= b && b <= 0x39) || (0x41 <= b && b <= 0x5a) || (0x61 <= b && b <= 0x7a) || b == 0x2d || b == 0x2e || b == 0x5f
            || b == 0x7e {
            out.push(b as char);
            assert(out@ =~= before + escaped_byte(b));
        } else {
            out.push('%');
            out.push(hex(b / 16));
            out.push(hex(b % 16));
            assert(out@ =~= before + escaped_byte(b));
        }
        i += 1;
    }
    proof {
        crate::lists::lemma_take_all(bytes@);
    }
    out
}

proof fn lemma_unescape_first(b: u8, rest: Seq<char>)
    ensures
        unescaped(escaped_byte(b) + rest) == seq![b] + unescaped(rest),
{
    let c = escaped_byte(b) + rest;
    if unreserved(b) {
        assert(c[0] == b as char);
        assert(c.skip(1) =~= rest);
        assert(b as char != '%');
        assert((b as char) as u8 == b);
    } else {
        assert(c.skip(3) =~= rest);
        assert(c[0] == '%' && c[1] == hex_digit(b / 16) && c[2] == hex_digit(b % 16));
        lemma_hex(b / 16);
        lemma_hex(b % 16);
    }
}

proof fn lemma_hex(d: u8)
    requires
        d < 16,
    ensures
        hex_value(hex_digit(d)) == d,
{
}

proof fn lemma_unescape_rest(b: Seq<u8>, rest: Seq<char>)
    ensures
        unescaped(escaped(b) + rest) == b + unescaped(rest),
    decreases b.len(),
{
    if b.len() == 0 {
        assert(escaped(b) + rest =~= rest);
        assert(b + unescaped(rest) =~= unescaped(rest));
    } else {
        let last = b.last();
        let head = b.drop_last();
        assert(escaped(b) + rest =~= escaped(head) + (escaped_byte(last) + rest));
        lemma_unescape_rest(head, escaped_byte(last) + rest);
        lemma_unescape_first(last, rest);
        assert(head + (seq![last] + unescaped(rest)) =~= b + unescaped(rest));
    }
}

/// A key that was made a path segment comes out of it whole.
pub proof fn law_a_segment_reads_back(b: Seq<u8>)
    ensures
        unescaped(escaped(b)) == b,
{
    lemma_unescape_rest(b, Seq::empty());
    assert(escaped(b) + Seq::<char>::empty() =~= escaped(b));
    assert(b + unescaped(Seq::empty()) =~= b);
}

// ---- Tokens ----

/// The symbol of a number below sixty-four: letters, digits, hyphen and underscore.
pub open spec fn symbol(v: int) -> char {
    if v < 26 { (0x41 + v) as u8 as char }
    else if v < 52 { (0x47 + v) as u8 as char }
    else if v < 62 { (v - 4) as u8 as char }
    else if v == 62 { '-' }
    else { '_' }
}

/// The number of a symbol.
pub open spec fn symbol_value(c: char) -> Option<int> {
    if 'A' <= c && c <= 'Z' { Some(c as int - 0x41) }
    else if 'a' <= c && c <= 'z' { Some(c as int - 0x47) }
    else if '0' <= c && c <= '9' { Some(c as int + 4) }
    else if c == '-' { Some(62) }
    else if c == '_' { Some(63) }
    else { None }
}

/// Bytes as a token: four symbols for three bytes, and for the rest as many as it takes.
pub open spec fn token(b: Seq<u8>) -> Seq<char>
    decreases b.len(),
{
    if b.len() == 0 {
        Seq::empty()
    } else if b.len() == 1 {
        seq![symbol(b[0] as int / 4), symbol((b[0] as int % 4) * 16)]
    } else if b.len() == 2 {
        seq![
            symbol(b[0] as int / 4),
            symbol((b[0] as int % 4) * 16 + b[1] as int / 16),
            symbol((b[1] as int % 16) * 4),
        ]
    } else {
        seq![
            symbol(b[0] as int / 4),
            symbol((b[0] as int % 4) * 16 + b[1] as int / 16),
            symbol((b[1] as int % 16) * 4 + b[2] as int / 64),
            symbol(b[2] as int % 64),
        ] + token(b.skip(3))
    }
}

/// The bytes of a token, where it is one.
pub open spec fn token_bytes(c: Seq<char>) -> Option<Seq<u8>>
    decreases c.len(),
{
    if c.len() == 0 {
        Some(Seq::empty())
    } else if c.len() == 1 {
        None
    } else if c.len() == 2 {
        match (symbol_value(c[0]), symbol_value(c[1])) {
            (Some(x), Some(y)) => if y % 16 == 0 { Some(seq![(x * 4 + y / 16) as u8]) } else { None },
            _ => None,
        }
    } else if c.len() == 3 {
        match (symbol_value(c[0]), symbol_value(c[1]), symbol_value(c[2])) {
            (Some(x), Some(y), Some(z)) => if z % 4 == 0 {
                Some(seq![(x * 4 + y / 16) as u8, ((y % 16) * 16 + z / 4) as u8])
            } else {
                None
            },
            _ => None,
        }
    } else {
        match (symbol_value(c[0]), symbol_value(c[1]), symbol_value(c[2]), symbol_value(c[3]), token_bytes(c.skip(4))) {
            (Some(x), Some(y), Some(z), Some(w), Some(rest)) => Some(
                seq![(x * 4 + y / 16) as u8, ((y % 16) * 16 + z / 4) as u8, ((z % 4) * 64 + w) as u8] + rest,
            ),
            _ => None,
        }
    }
}

fn to_symbol(v: u8) -> (r: char)
    requires
        v < 64,
    ensures
        r == symbol(v as int),
{
    if v < 26 { (0x41 + v) as char }
    else if v < 52 { (0x47 + v) as char }
    else if v < 62 { (v - 4) as char }
    else if v == 62 { '-' }
    else { '_' }
}

fn from_symbol(c: char) -> (r: Option<u8>)
    ensures
        match r {
            Some(v) => symbol_value(c) == Some(v as int) && v < 64,
            None => symbol_value(c) is None,
        },
{
    if 'A' <= c && c <= 'Z' { Some((c as u32 - 0x41) as u8) }
    else if 'a' <= c && c <= 'z' { Some((c as u32 - 0x47) as u8) }
    else if '0' <= c && c <= '9' { Some((c as u32 + 4) as u8) }
    else if c == '-' { Some(62) }
    else if c == '_' { Some(63) }
    else { None }
}

/// Bytes as a token that can stand in a URL or an event's id.
pub fn encode_token(b: &[u8]) -> (r: String)
    ensures
        r@ == token(b@),
{
    let mut out: String = String::new();
    let mut i: usize = 0;
    let n: usize = b.len();
    assert(b@.skip(0) =~= b@);
    assert(Seq::<char>::empty() + token(b@) =~= token(b@));
    while n - i >= 3
        invariant
            n == b@.len(),
            i <= n,
            out@ + token(b@.skip(i as int)) == token(b@),
        decreases n - i,
    {
        let ghost rest = b@.skip(i as int);
        let ghost before = out@;
        let (x, y, z): (u8, u8, u8) = (b[i], b[i + 1], b[i + 2]);
        proof {
            assert(rest[0] == x && rest[1] == y && rest[2] == z);
            assert(rest.skip(3) =~= b@.skip(i + 3));
        }
        out.push(to_symbol(x / 4));
        out.push(to_symbol((x % 4) * 16 + y / 16));
        out.push(to_symbol((y % 16) * 4 + z / 64));
        out.push(to_symbol(z % 64));
        proof {
            let four = seq![
                symbol(x as int / 4),
                symbol((x as int % 4) * 16 + y as int / 16),
                symbol((y as int % 16) * 4 + z as int / 64),
                symbol(z as int % 64),
            ];
            assert(out@ =~= before + four);
            assert(before + (four + token(b@.skip(i + 3))) =~= out@ + token(b@.skip(i + 3)));
        }
        i += 3;
    }
    let ghost rest = b@.skip(i as int);
    let ghost before = out@;
    if n - i == 1 {
        let x: u8 = b[i];
        assert(rest[0] == x);
        out.push(to_symbol(x / 4));
        out.push(to_symbol((x % 4) * 16));
        assert(out@ =~= before + token(rest));
    } else if n - i == 2 {
        let (x, y): (u8, u8) = (b[i], b[i + 1]);
        assert(rest[0] == x && rest[1] == y);
        out.push(to_symbol(x / 4));
        out.push(to_symbol((x % 4) * 16 + y / 16));
        out.push(to_symbol((y % 16) * 4));
        assert(out@ =~= before + token(rest));
    } else {
        assert(out@ =~= before + token(rest));
    }
    out
}

/// The bytes of a token, where it is one.
pub fn decode_token(s: &str) -> (r: Option<Vec<u8>>)
    ensures
        match r {
            Some(b) => token_bytes(s@) == Some(b@),
            None => token_bytes(s@) is None,
        },
{
    let chars = chars_of(s);
    let n: usize = chars.len();
    let mut out: Vec<u8> = Vec::new();
    let mut i: usize = 0;
    proof {
        assert(chars@.skip(0) =~= chars@);
        if token_bytes(chars@) is Some {
            assert(Seq::<u8>::empty() + token_bytes(chars@)->0 =~= token_bytes(chars@)->0);
        }
    }
    while n - i >= 4
        invariant
            chars@ == s@,
            n == chars@.len(),
            i <= n,
            token_bytes(s@) == (match token_bytes(chars@.skip(i as int)) {
                Some(rest) => Some(out@ + rest),
                None => None,
            }),
        decreases n - i,
    {
        let ghost rest = chars@.skip(i as int);
        let ghost before = out@;
        let (a, b, c, d): (char, char, char, char) = (chars[i], chars[i + 1], chars[i + 2], chars[i + 3]);
        proof {
            assert(rest[0] == a && rest[1] == b && rest[2] == c && rest[3] == d);
            assert(rest.skip(4) =~= chars@.skip(i + 4));
        }
        match (from_symbol(a), from_symbol(b), from_symbol(c), from_symbol(d)) {
            (Some(x), Some(y), Some(z), Some(w)) => {
                out.push(x * 4 + y / 16);
                out.push((y % 16) * 16 + z / 4);
                out.push((z % 4) * 64 + w);
                proof {
                    let three = seq![
                        (x as int * 4 + y as int / 16) as u8,
                        ((y as int % 16) * 16 + z as int / 4) as u8,
                        ((z as int % 4) * 64 + w as int) as u8,
                    ];
                    assert(out@ =~= before + three);
                    if token_bytes(chars@.skip(i + 4)) is Some {
                        let tail = token_bytes(chars@.skip(i + 4))->0;
                        assert(before + (three + tail) =~= out@ + tail);
                    }
                }
            },
            _ => {
                return None;
            },
        }
        i += 4;
    }
    let ghost rest = chars@.skip(i as int);
    let ghost before = out@;
    if n - i == 0 {
        assert(rest =~= Seq::empty());
        assert(before + Seq::<u8>::empty() =~= before);
        return Some(out);
    }
    if n - i == 1 {
        return None;
    }
    if n - i == 2 {
        match (from_symbol(chars[i]), from_symbol(chars[i + 1])) {
            (Some(x), Some(y)) => {
                if y % 16 != 0 {
                    return None;
                }
                out.push(x * 4 + y / 16);
                assert(out@ =~= before + seq![(x as int * 4 + y as int / 16) as u8]);
                Some(out)
            },
            _ => None,
        }
    } else {
        match (from_symbol(chars[i]), from_symbol(chars[i + 1]), from_symbol(chars[i + 2])) {
            (Some(x), Some(y), Some(z)) => {
                if z % 4 != 0 {
                    return None;
                }
                out.push(x * 4 + y / 16);
                out.push((y % 16) * 16 + z / 4);
                assert(out@ =~= before + seq![(x as int * 4 + y as int / 16) as u8, ((y as int % 16) * 16 + z as int / 4) as u8]);
                Some(out)
            },
            _ => None,
        }
    }
}

proof fn lemma_symbol(v: int)
    requires
        0 <= v < 64,
    ensures
        symbol_value(symbol(v)) == Some(v),
{
}

/// Three bytes come out of the four numbers that they were cut into.
proof fn lemma_regroup(x: int, y: int, z: int)
    requires
        0 <= x < 256,
        0 <= y < 256,
        0 <= z < 256,
    ensures
        (x / 4) * 4 + ((x % 4) * 16 + y / 16) / 16 == x,
        (((x % 4) * 16 + y / 16) % 16) * 16 + ((y % 16) * 4 + z / 64) / 4 == y,
        (((y % 16) * 4 + z / 64) % 4) * 64 + z % 64 == z,
        0 <= x / 4 < 64,
        0 <= (x % 4) * 16 + y / 16 < 64,
        0 <= (y % 16) * 4 + z / 64 < 64,
{
}

/// A token gives back the bytes that it was made of.
pub proof fn law_a_token_reads_back(b: Seq<u8>)
    ensures
        token_bytes(token(b)) == Some(b),
    decreases b.len(),
{
    let t = token(b);
    if b.len() == 0 {
        assert(t.len() == 0);
        assert(b =~= Seq::empty());
    } else if b.len() == 1 {
        let x = b[0] as int;
        lemma_regroup(x, 0, 0);
        lemma_symbol(x / 4);
        lemma_symbol((x % 4) * 16);
        assert(token_bytes(t)->0 =~= b);
    } else if b.len() == 2 {
        let (x, y) = (b[0] as int, b[1] as int);
        lemma_regroup(x, y, 0);
        lemma_symbol(x / 4);
        lemma_symbol((x % 4) * 16 + y / 16);
        lemma_symbol((y % 16) * 4);
        assert(token_bytes(t)->0 =~= b);
    } else {
        let (x, y, z) = (b[0] as int, b[1] as int, b[2] as int);
        law_a_token_reads_back(b.skip(3));
        lemma_regroup(x, y, z);
        lemma_symbol(x / 4);
        lemma_symbol((x % 4) * 16 + y / 16);
        lemma_symbol((y % 16) * 4 + z / 64);
        lemma_symbol(z % 64);
        assert(t.skip(4) =~= token(b.skip(3)));
        assert(symbol_value(t[0]) == Some(x / 4));
        assert(symbol_value(t[1]) == Some((x % 4) * 16 + y / 16));
        assert(symbol_value(t[2]) == Some((y % 16) * 4 + z / 64));
        assert(symbol_value(t[3]) == Some(z % 64));
        assert(token_bytes(t)->0 =~= seq![b[0], b[1], b[2]] + b.skip(3));
        assert(seq![b[0], b[1], b[2]] + b.skip(3) =~= b);
    }
}

/// A token holds no line break, so an event's id can carry it.
pub proof fn law_a_token_is_one_word(b: Seq<u8>, i: int)
    requires
        0 <= i < token(b).len(),
    ensures
        symbol_value(token(b)[i]) is Some,
    decreases b.len(),
{
    let t = token(b);
    if b.len() == 1 {
        let x = b[0] as int;
        lemma_symbol(x / 4);
        lemma_symbol((x % 4) * 16);
    } else if b.len() == 2 {
        let (x, y) = (b[0] as int, b[1] as int);
        lemma_symbol(x / 4);
        lemma_symbol((x % 4) * 16 + y / 16);
        lemma_symbol((y % 16) * 4);
    } else if b.len() > 2 {
        let (x, y, z) = (b[0] as int, b[1] as int, b[2] as int);
        lemma_symbol(x / 4);
        lemma_symbol((x % 4) * 16 + y / 16);
        lemma_symbol((y % 16) * 4 + z / 64);
        lemma_symbol(z % 64);
        if i >= 4 {
            law_a_token_is_one_word(b.skip(3), i - 4);
            assert(t[i] == token(b.skip(3))[i - 4]);
        }
    }
}

/// Letters, digits and the marks `-`, `.`, `_` and `~` stand for themselves in a path segment, and
/// every other byte as a percent sign and its two hexadecimal digits.
pub proof fn law_only_plain_characters_stand_for_themselves(b: u8)
    ensures
        ({
            let c = b as char;
            let plain = ('0' <= c && c <= '9') || ('A' <= c && c <= 'Z') || ('a' <= c && c <= 'z') || c == '-' || c == '.' || c == '_' || c
                == '~';
            &&& plain ==> escaped_byte(b) == seq![c]
            &&& !plain ==> {
                let e = escaped_byte(b);
                &&& e.len() == 3 && e[0] == '%'
                &&& forall|i: int| 1 <= i < 3 ==> ('0' <= #[trigger] e[i] && e[i] <= '9') || ('A' <= e[i] && e[i] <= 'F')
                &&& hex_value(e[1]) * 16 + hex_value(e[2]) == b
            }
        }),
{
}

/// Bytes are escaped one by one, in their order.
pub proof fn law_bytes_are_escaped_one_by_one(a: Seq<u8>, b: Seq<u8>)
    ensures
        escaped(a + b) == escaped(a) + escaped(b),
    decreases b.len(),
{
    if b.len() == 0 {
        assert(a + b =~= a);
        assert(escaped(a) + escaped(b) =~= escaped(a));
    } else {
        law_bytes_are_escaped_one_by_one(a, b.drop_last());
        assert((a + b).drop_last() =~= a + b.drop_last());
        assert(escaped(a) + escaped(b) =~= escaped(a) + escaped(b.drop_last()) + escaped_byte(b.last()));
    }
}

/// The symbols of a token are the capitals, the small letters, the digits, `-` and `_`, in this order.
pub proof fn law_the_symbols_of_a_token(v: int)
    requires
        0 <= v < 64,
    ensures
        v < 26 ==> symbol(v) as int == 'A' as int + v,
        26 <= v < 52 ==> symbol(v) as int == 'a' as int + (v - 26),
        52 <= v < 62 ==> symbol(v) as int == '0' as int + (v - 52),
        v == 62 ==> symbol(v) == '-',
        v == 63 ==> symbol(v) == '_',
{
}

} // verus!
