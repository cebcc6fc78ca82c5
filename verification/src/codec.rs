//! The on-disk document format: a single structured text object holding the
//! ordered list of paths under the fixed field name `files`, written as
//! standard JSON. Encoding is canonical (no inter-token whitespace); parsing
//! tolerates whitespace between tokens and the usual string escapes, and
//! rejects anything that is not a document of the expected shape.

use vstd::prelude::*;
use vstd::string::*;

verus! {

// ---------------------------------------------------------------------------
// Encoding, at the specification level
// ---------------------------------------------------------------------------

/// The lower-case hexadecimal digit for a value below 16.
pub open spec fn hex_digit(v: int) -> char {
    if v == 0 {
        '0'
    } else if v == 1 {
        '1'
    } else if v == 2 {
        '2'
    } else if v == 3 {
        '3'
    } else if v == 4 {
        '4'
    } else if v == 5 {
        '5'
    } else if v == 6 {
        '6'
    } else if v == 7 {
        '7'
    } else if v == 8 {
        '8'
    } else if v == 9 {
        '9'
    } else if v == 10 {
        'a'
    } else if v == 11 {
        'b'
    } else if v == 12 {
        'c'
    } else if v == 13 {
        'd'
    } else if v == 14 {
        'e'
    } else {
        'f'
    }
}

/// How a single character appears inside an encoded string literal:
/// quote and backslash are escaped, control characters become `\u00XX`,
/// everything else stands for itself.
pub open spec fn escape_char(c: char) -> Seq<char> {
    if c == '"' {
        seq!['\\', '"']
    } else if c == '\\' {
        seq!['\\', '\\']
    } else if (c as u32) < 32 {
        seq!['\\', 'u', '0', '0', hex_digit((c as u32) as int / 16), hex_digit((c as u32) as int % 16)]
    } else {
        seq![c]
    }
}

/// The body of an encoded string literal: each character escaped in order.
pub open spec fn encoded_text(s: Seq<char>) -> Seq<char>
    decreases s.len(),
{
    if s.len() == 0 {
        Seq::empty()
    } else {
        escape_char(s[0]) + encoded_text(s.drop_first())
    }
}

/// An encoded string literal: the escaped body between double quotes.
pub open spec fn encoded_string(s: Seq<char>) -> Seq<char> {
    seq!['"'] + encoded_text(s) + seq!['"']
}

/// The encoded items after the first: each preceded by a comma.
pub open spec fn encoded_items_rest(items: Seq<Seq<char>>) -> Seq<char>
    decreases items.len(),
{
    if items.len() == 0 {
        Seq::empty()
    } else {
        seq![','] + encoded_string(items[0]) + encoded_items_rest(items.drop_first())
    }
}

/// The comma-separated encoded items of the array.
pub open spec fn encoded_items(items: Seq<Seq<char>>) -> Seq<char> {
    if items.len() == 0 {
        Seq::empty()
    } else {
        encoded_string(items[0]) + encoded_items_rest(items.drop_first())
    }
}

/// The name of the one field the document holds.
pub open spec fn files_key() -> Seq<char> {
    seq!['f', 'i', 'l', 'e', 's']
}

/// Everything of the document before the array items.
pub open spec fn document_prefix() -> Seq<char> {
    seq!['{', '"', 'f', 'i', 'l', 'e', 's', '"', ':', '[']
}

/// Everything of the document after the array items.
pub open spec fn document_suffix() -> Seq<char> {
    seq![']', '}']
}

/// The canonical document text for a list of entries.
pub open spec fn encoded_document(items: Seq<Seq<char>>) -> Seq<char> {
    document_prefix() + encoded_items(items) + document_suffix()
}

// ---------------------------------------------------------------------------
// The verified encoder
// ---------------------------------------------------------------------------

/// Relies on `String`'s `FromIterator<char>` implementation: collecting an
/// iterator of characters yields the string holding exactly those
/// characters in order.
#[verifier::external_body]
fn chars_to_string(v: &Vec<char>) -> (r: String)
    ensures
        r@ == v@,
{
    v.iter().collect()
}

/// The characters of `s`, in order, as a vector.
fn str_to_chars(s: &str) -> (r: Vec<char>)
    ensures
        r@ == s@,
{
    let n = s.unicode_len();
    let mut v: Vec<char> = Vec::new();
    let mut i: usize = 0;
    while i < n
        invariant
            n == s@.len(),
            i <= n,
            v@ == s@.take(i as int),
        decreases n - i,
    {
        let c = s.get_char(i);
        v.push(c);
        proof {
            assert(s@.take(i as int + 1) =~= s@.take(i as int).push(s@[i as int]));
        }
        i = i + 1;
    }
    proof {
        assert(s@.take(n as int) =~= s@);
    }
    v
}

/// The lower-case hexadecimal digit for `v`.
fn hex_digit_char(v: u8) -> (c: char)
    requires
        v < 16,
    ensures
        c == hex_digit(v as int),
{
    if v == 0 {
        '0'
    } else if v == 1 {
        '1'
    } else if v == 2 {
        '2'
    } else if v == 3 {
        '3'
    } else if v == 4 {
        '4'
    } else if v == 5 {
        '5'
    } else if v == 6 {
        '6'
    } else if v == 7 {
        '7'
    } else if v == 8 {
        '8'
    } else if v == 9 {
        '9'
    } else if v == 10 {
        'a'
    } else if v == 11 {
        'b'
    } else if v == 12 {
        'c'
    } else if v == 13 {
        'd'
    } else if v == 14 {
        'e'
    } else {
        'f'
    }
}

/// Append the escaped form of one character.
fn push_escaped(out: &mut Vec<char>, c: char)
    ensures
        final(out)@ == old(out)@ + escape_char(c),
{
    if c == '"' {
        out.push('\\');
        out.push('"');
        proof {
            assert(out@ =~= old(out)@ + escape_char(c));
        }
    } else if c == '\\' {
        out.push('\\');
        out.push('\\');
        proof {
            assert(out@ =~= old(out)@ + escape_char(c));
        }
    } else if (c as u32) < 32 {
        let v = c as u32;
        out.push('\\');
        out.push('u');
        out.push('0');
        out.push('0');
        out.push(hex_digit_char((v / 16) as u8));
        out.push(hex_digit_char((v % 16) as u8));
        proof {
            assert(out@ =~= old(out)@ + escape_char(c));
        }
    } else {
        out.push(c);
        proof {
            assert(out@ =~= old(out)@ + escape_char(c));
        }
    }
}

/// Appending one more character extends the encoded body by its escape.
proof fn lemma_encoded_text_snoc(s: Seq<char>, c: char)
    ensures
        encoded_text(s.push(c)) == encoded_text(s) + escape_char(c),
    decreases s.len(),
{
    if s.len() == 0 {
        let p = s.push(c);
        assert(p.len() == 1);
        assert(p[0] == c);
        assert(p.drop_first() =~= Seq::<char>::empty());
        assert(encoded_text(p) == escape_char(p[0]) + encoded_text(p.drop_first()));
        assert(encoded_text(p.drop_first()) == Seq::<char>::empty());
        assert(encoded_text(s) == Seq::<char>::empty());
        assert(encoded_text(s.push(c)) =~= encoded_text(s) + escape_char(c));
    } else {
        assert(s.push(c).drop_first() =~= s.drop_first().push(c));
        lemma_encoded_text_snoc(s.drop_first(), c);
        assert(encoded_text(s.push(c)) =~= encoded_text(s) + escape_char(c));
    }
}

/// Append the encoded string literal for `s`.
fn push_encoded_string(out: &mut Vec<char>, s: &String)
    ensures
        final(out)@ == old(out)@ + encoded_string(s@),
{
    let base = s.as_str();
    let n = base.unicode_len();
    out.push('"');
    let mut i: usize = 0;
    while i < n
        invariant
            base@ == s@,
            n == s@.len(),
            i <= n,
            out@ == old(out)@ + seq!['"'] + encoded_text(s@.take(i as int)),
        decreases n - i,
    {
        let c = base.get_char(i);
        push_escaped(out, c);
        proof {
            assert(s@.take(i as int + 1) =~= s@.take(i as int).push(s@[i as int]));
            lemma_encoded_text_snoc(s@.take(i as int), s@[i as int]);
            assert(out@ =~= old(out)@ + seq!['"'] + encoded_text(s@.take(i as int + 1)));
        }
        i = i + 1;
    }
    out.push('"');
    proof {
        assert(s@.take(n as int) =~= s@);
        assert(out@ =~= old(out)@ + encoded_string(s@));
    }
}

/// Appending one more item extends the encoded tail by a comma and the
/// item's encoded string.
proof fn lemma_encoded_items_rest_snoc(items: Seq<Seq<char>>, x: Seq<char>)
    ensures
        encoded_items_rest(items.push(x)) == encoded_items_rest(items) + seq![',']
            + encoded_string(x),
    decreases items.len(),
{
    if items.len() == 0 {
        let p = items.push(x);
        assert(p.len() == 1);
        assert(p[0] == x);
        assert(p.drop_first() =~= Seq::<Seq<char>>::empty());
        assert(encoded_items_rest(p) == seq![','] + encoded_string(p[0]) + encoded_items_rest(
            p.drop_first(),
        ));
        assert(encoded_items_rest(p.drop_first()) == Seq::<char>::empty());
        assert(encoded_items_rest(items) == Seq::<char>::empty());
        assert(encoded_items_rest(items.push(x)) =~= encoded_items_rest(items) + seq![',']
            + encoded_string(x));
    } else {
        assert(items.push(x).drop_first() =~= items.drop_first().push(x));
        lemma_encoded_items_rest_snoc(items.drop_first(), x);
        assert(encoded_items_rest(items.push(x)) =~= encoded_items_rest(items) + seq![',']
            + encoded_string(x));
    }
}

/// Appending one more item extends the encoded item list accordingly.
proof fn lemma_encoded_items_snoc(items: Seq<Seq<char>>, x: Seq<char>)
    ensures
        items.len() == 0 ==> encoded_items(items.push(x)) == encoded_string(x),
        items.len() > 0 ==> encoded_items(items.push(x)) == encoded_items(items) + seq![',']
            + encoded_string(x),
{
    if items.len() == 0 {
        assert(items.push(x).drop_first() =~= Seq::<Seq<char>>::empty());
        assert(encoded_items(items.push(x)) =~= encoded_string(x));
    } else {
        assert(items.push(x)[0] == items[0]);
        assert(items.push(x).drop_first() =~= items.drop_first().push(x));
        lemma_encoded_items_rest_snoc(items.drop_first(), x);
        assert(encoded_items(items.push(x)) =~= encoded_items(items) + seq![',']
            + encoded_string(x));
    }
}

/// Encode a list of entries as the canonical document text.
pub fn encode_document(list: &Vec<String>) -> (doc: String)
    ensures
        doc@ == encoded_document(list.deep_view()),
{
    let ghost items = list.deep_view();
    let mut out: Vec<char> = Vec::new();
    out.push('{');
    out.push('"');
    out.push('f');
    out.push('i');
    out.push('l');
    out.push('e');
    out.push('s');
    out.push('"');
    out.push(':');
    out.push('[');
    proof {
        assert(out@ =~= document_prefix());
        assert(items.take(0) =~= Seq::<Seq<char>>::empty());
        assert(out@ =~= document_prefix() + encoded_items(items.take(0)));
    }
    let mut i: usize = 0;
    while i < list.len()
        invariant
            i <= list.len(),
            items == list.deep_view(),
            items.len() == list.len(),
            out@ == document_prefix() + encoded_items(items.take(i as int)),
        decreases list.len() - i,
    {
        if i > 0 {
            out.push(',');
        }
        push_encoded_string(&mut out, &list[i]);
        proof {
            assert(items.take(i as int + 1) =~= items.take(i as int).push(items[i as int]));
            lemma_encoded_items_snoc(items.take(i as int), items[i as int]);
            assert(out@ =~= document_prefix() + encoded_items(items.take(i as int + 1)));
        }
        i = i + 1;
    }
    out.push(']');
    out.push('}');
    proof {
        assert(items.take(list.len() as int) =~= items);
        assert(out@ =~= encoded_document(items));
    }
    chars_to_string(&out)
}

// ---------------------------------------------------------------------------
// Parsing, at the specification level
// ---------------------------------------------------------------------------

/// Whitespace accepted between tokens.
pub open spec fn is_ws(c: char) -> bool {
    c == ' ' || c == '\n' || c == '\t' || c == '\r'
}

/// The first position at or after `i` holding no whitespace.
pub open spec fn skip_ws(t: Seq<char>, i: int) -> int
    decreases t.len() - i,
{
    if 0 <= i && i < t.len() && is_ws(t[i]) {
        skip_ws(t, i + 1)
    } else {
        i
    }
}

/// The value of a hexadecimal digit, or -1 for any other character.
pub open spec fn hex_value(c: char) -> int {
    if c == '0' {
        0
    } else if c == '1' {
        1
    } else if c == '2' {
        2
    } else if c == '3' {
        3
    } else if c == '4' {
        4
    } else if c == '5' {
        5
    } else if c == '6' {
        6
    } else if c == '7' {
        7
    } else if c == '8' {
        8
    } else if c == '9' {
        9
    } else if c == 'a' || c == 'A' {
        10
    } else if c == 'b' || c == 'B' {
        11
    } else if c == 'c' || c == 'C' {
        12
    } else if c == 'd' || c == 'D' {
        13
    } else if c == 'e' || c == 'E' {
        14
    } else if c == 'f' || c == 'F' {
        15
    } else {
        -1
    }
}

/// What a single-character escape stands for, if it is one.
pub open spec fn unescaped(c: char) -> Option<char> {
    if c == '"' {
        Some('"')
    } else if c == '\\' {
        Some('\\')
    } else if c == '/' {
        Some('/')
    } else if c == 'b' {
        Some('\u{8}')
    } else if c == 'f' {
        Some('\u{c}')
    } else if c == 'n' {
        Some('\n')
    } else if c == 'r' {
        Some('\r')
    } else if c == 't' {
        Some('\t')
    } else {
        None
    }
}

/// Parse the body of a string literal starting at `i` (just after the
/// opening quote): the decoded characters and the position just after the
/// closing quote. Escapes `\uXXXX` are accepted for ASCII values only;
/// unescaped control characters are rejected.
pub open spec fn parse_text(t: Seq<char>, i: int) -> Option<(Seq<char>, int)>
    decreases t.len() - i,
{
    if i < 0 || i >= t.len() {
        None
    } else if t[i] == '"' {
        Some((Seq::empty(), i + 1))
    } else if t[i] == '\\' {
        if i + 2 <= t.len() {
            let e = t[i + 1];
            if e == 'u' {
                if i + 6 <= t.len() {
                    let d1 = hex_value(t[i + 2]);
                    let d2 = hex_value(t[i + 3]);
                    let d3 = hex_value(t[i + 4]);
                    let d4 = hex_value(t[i + 5]);
                    if d1 == 0 && d2 == 0 && 0 <= d3 && 0 <= d4 && d3 * 16 + d4 < 128 {
                        match parse_text(t, i + 6) {
                            Some(p) => Some(
                                (seq![((d3 * 16 + d4) as u8) as char] + p.0, p.1),
                            ),
                            None => None,
                        }
                    } else {
                        None
                    }
                } else {
                    None
                }
            } else {
                match unescaped(e) {
                    Some(c) => match parse_text(t, i + 2) {
                        Some(p) => Some((seq![c] + p.0, p.1)),
                        None => None,
                    },
                    None => None,
                }
            }
        } else {
            None
        }
    } else if (t[i] as u32) < 32 {
        None
    } else {
        match parse_text(t, i + 1) {
            Some(p) => Some((seq![t[i]] + p.0, p.1)),
            None => None,
        }
    }
}

/// Parse a string literal starting at its opening quote.
pub open spec fn parse_string(t: Seq<char>, i: int) -> Option<(Seq<char>, int)> {
    if 0 <= i && i < t.len() && t[i] == '"' {
        parse_text(t, i + 1)
    } else {
        None
    }
}

/// Parse the items of the array after its first item: either the closing
/// bracket, or a comma followed by another string and the rest. `fuel`
/// bounds the recursion; any value above the remaining length behaves
/// the same.
pub open spec fn parse_rest_items(t: Seq<char>, i: int, fuel: nat) -> Option<(Seq<Seq<char>>, int)>
    decreases fuel,
{
    if fuel == 0 {
        None
    } else {
        let j = skip_ws(t, i);
        if 0 <= j && j < t.len() && t[j] == ']' {
            Some((Seq::empty(), j + 1))
        } else if 0 <= j && j < t.len() && t[j] == ',' {
            let k = skip_ws(t, j + 1);
            match parse_string(t, k) {
                Some(p) => match parse_rest_items(t, p.1, (fuel - 1) as nat) {
                    Some(q) => Some((seq![p.0] + q.0, q.1)),
                    None => None,
                },
                None => None,
            }
        } else {
            None
        }
    }
}

/// Parse an array of string literals starting at its opening bracket.
pub open spec fn parse_array(t: Seq<char>, i: int) -> Option<(Seq<Seq<char>>, int)> {
    if 0 <= i && i < t.len() && t[i] == '[' {
        let j = skip_ws(t, i + 1);
        if 0 <= j && j < t.len() && t[j] == ']' {
            Some((Seq::empty(), j + 1))
        } else {
            match parse_string(t, j) {
                Some(p) => match parse_rest_items(t, p.1, t.len() as nat + 1) {
                    Some(q) => Some((seq![p.0] + q.0, q.1)),
                    None => None,
                },
                None => None,
            }
        }
    } else {
        None
    }
}

/// Parse a whole document: one object with the single field `files`
/// holding an array of strings, with nothing but whitespace around the
/// tokens, or nothing at all at the end.
pub open spec fn parse_document_spec(t: Seq<char>) -> Option<Seq<Seq<char>>> {
    let i0 = skip_ws(t, 0);
    if 0 <= i0 && i0 < t.len() && t[i0] == '{' {
        let i1 = skip_ws(t, i0 + 1);
        match parse_string(t, i1) {
            Some(k) => {
                if k.0 == files_key() {
                    let i3 = skip_ws(t, k.1);
                    if 0 <= i3 && i3 < t.len() && t[i3] == ':' {
                        let i4 = skip_ws(t, i3 + 1);
                        match parse_array(t, i4) {
                            Some(a) => {
                                let i6 = skip_ws(t, a.1);
                                if 0 <= i6 && i6 < t.len() && t[i6] == '}' {
                                    if skip_ws(t, i6 + 1) == t.len() {
                                        Some(a.0)
                                    } else {
                                        None
                                    }
                                } else {
                                    None
                                }
                            },
                            None => None,
                        }
                    } else {
                        None
                    }
                } else {
                    None
                }
            },
            None => None,
        }
    } else {
        None
    }
}

// ---------------------------------------------------------------------------
// The verified parser
// ---------------------------------------------------------------------------

/// The first position at or after `i` holding no whitespace.
fn skip_ws_at(t: &Vec<char>, i: usize) -> (j: usize)
    requires
        i <= t.len(),
    ensures
        j as int == skip_ws(t@, i as int),
        i <= j <= t.len(),
{
    let mut j = i;
    while j < t.len() && (t[j] == ' ' || t[j] == '\n' || t[j] == '\t' || t[j] == '\r')
        invariant
            i <= j <= t.len(),
            skip_ws(t@, i as int) == skip_ws(t@, j as int),
        decreases t.len() - j,
    {
        proof {
            assert(skip_ws(t@, j as int) == skip_ws(t@, j as int + 1));
        }
        j = j + 1;
    }
    proof {
        assert(skip_ws(t@, j as int) == j as int);
    }
    j
}

/// The value of a hexadecimal digit, if `c` is one.
fn hex_value_of(c: char) -> (v: Option<u8>)
    ensures
        match v {
            Some(d) => d < 16 && hex_value(c) == d as int,
            None => hex_value(c) == -1,
        },
{
    if c == '0' {
        Some(0)
    } else if c == '1' {
        Some(1)
    } else if c == '2' {
        Some(2)
    } else if c == '3' {
        Some(3)
    } else if c == '4' {
        Some(4)
    } else if c == '5' {
        Some(5)
    } else if c == '6' {
        Some(6)
    } else if c == '7' {
        Some(7)
    } else if c == '8' {
        Some(8)
    } else if c == '9' {
        Some(9)
    } else if c == 'a' || c == 'A' {
        Some(10)
    } else if c == 'b' || c == 'B' {
        Some(11)
    } else if c == 'c' || c == 'C' {
        Some(12)
    } else if c == 'd' || c == 'D' {
        Some(13)
    } else if c == 'e' || c == 'E' {
        Some(14)
    } else if c == 'f' || c == 'F' {
        Some(15)
    } else {
        None
    }
}

/// What a single-character escape stands for, if it is one.
fn unescape_of(c: char) -> (r: Option<char>)
    ensures
        r == unescaped(c),
{
    if c == '"' {
        Some('"')
    } else if c == '\\' {
        Some('\\')
    } else if c == '/' {
        Some('/')
    } else if c == 'b' {
        Some('\u{8}')
    } else if c == 'f' {
        Some('\u{c}')
    } else if c == 'n' {
        Some('\n')
    } else if c == 'r' {
        Some('\r')
    } else if c == 't' {
        Some('\t')
    } else {
        None
    }
}

/// Parse the body of a string literal starting just after its opening
/// quote.
fn parse_text_at(t: &Vec<char>, i: usize) -> (r: Option<(Vec<char>, usize)>)
    requires
        i <= t.len(),
    ensures
        match r {
            Some(p) => parse_text(t@, i as int) == Some((p.0@, p.1 as int)) && i < p.1 <= t.len(),
            None => parse_text(t@, i as int) is None,
        },
    decreases t.len() - i,
{
    if i >= t.len() {
        return None;
    }
    let c = t[i];
    if c == '"' {
        let empty: Vec<char> = Vec::new();
        return Some((empty, i + 1));
    }
    if c == '\\' {
        if t.len() - i < 2 {
            return None;
        }
        let e = t[i + 1];
        if e == 'u' {
            if t.len() - i < 6 {
                return None;
            }
            let o1 = hex_value_of(t[i + 2]);
            let o2 = hex_value_of(t[i + 3]);
            let o3 = hex_value_of(t[i + 4]);
            let o4 = hex_value_of(t[i + 5]);
            match (o1, o2, o3, o4) {
                (Some(a), Some(b), Some(x), Some(y)) => {
                    if a == 0 && b == 0 && (x as u32) * 16 + (y as u32) < 128 {
                        let v: u8 = x * 16 + y;
                        match parse_text_at(t, i + 6) {
                            Some((mut body, end)) => {
                                body.insert(0, v as char);
                                proof {
                                    assert(body@ =~= seq![v as char] + body@.drop_first());
                                }
                                Some((body, end))
                            },
                            None => None,
                        }
                    } else {
                        None
                    }
                },
                _ => None,
            }
        } else {
            match unescape_of(e) {
                Some(uc) => match parse_text_at(t, i + 2) {
                    Some((mut body, end)) => {
                        body.insert(0, uc);
                        proof {
                            assert(body@ =~= seq![uc] + body@.drop_first());
                        }
                        Some((body, end))
                    },
                    None => None,
                },
                None => None,
            }
        }
    } else if (c as u32) < 32 {
        None
    } else {
        match parse_text_at(t, i + 1) {
            Some((mut body, end)) => {
                body.insert(0, c);
                proof {
                    assert(body@ =~= seq![c] + body@.drop_first());
                }
                Some((body, end))
            },
            None => None,
        }
    }
}

/// Parse a string literal starting at its opening quote.
fn parse_string_at(t: &Vec<char>, i: usize) -> (r: Option<(Vec<char>, usize)>)
    requires
        i <= t.len(),
    ensures
        match r {
            Some(p) => parse_string(t@, i as int) == Some((p.0@, p.1 as int)) && i < p.1
                <= t.len(),
            None => parse_string(t@, i as int) is None,
        },
{
    if i < t.len() {
        let c = t[i];
        if c == '"' {
            return parse_text_at(t, i + 1);
        }
    }
    None
}

/// Parse the items of the array after its first item.
fn parse_rest_items_at(t: &Vec<char>, i: usize, Ghost(fuel): Ghost<nat>) -> (r: Option<
    (Vec<String>, usize),
>)
    requires
        i <= t.len(),
        fuel >= t.len() - i + 1,
    ensures
        match r {
            Some(p) => parse_rest_items(t@, i as int, fuel) == Some((p.0.deep_view(), p.1 as int))
                && p.1 <= t.len(),
            None => parse_rest_items(t@, i as int, fuel) is None,
        },
    decreases t.len() - i,
{
    let j = skip_ws_at(t, i);
    if j < t.len() {
        let c = t[j];
        if c == ']' {
            let empty: Vec<String> = Vec::new();
            proof {
                assert(empty.deep_view() =~= Seq::<Seq<char>>::empty());
            }
            return Some((empty, j + 1));
        }
        if c == ',' {
            let k = skip_ws_at(t, j + 1);
            return match parse_string_at(t, k) {
                Some((body, m)) => {
                    let s = chars_to_string(&body);
                    match parse_rest_items_at(t, m, Ghost((fuel - 1) as nat)) {
                        Some((mut items, end)) => {
                            items.insert(0, s);
                            proof {
                                assert(items.deep_view() =~= seq![body@]
                                    + items.deep_view().drop_first());
                            }
                            Some((items, end))
                        },
                        None => None,
                    }
                },
                None => None,
            };
        }
    }
    None
}

/// Parse an array of string literals starting at its opening bracket.
fn parse_array_at(t: &Vec<char>, i: usize) -> (r: Option<(Vec<String>, usize)>)
    requires
        i <= t.len(),
    ensures
        match r {
            Some(p) => parse_array(t@, i as int) == Some((p.0.deep_view(), p.1 as int)) && p.1
                <= t.len(),
            None => parse_array(t@, i as int) is None,
        },
{
    if i < t.len() {
        let c = t[i];
        if c == '[' {
            let j = skip_ws_at(t, i + 1);
            if j < t.len() && t[j] == ']' {
                let empty: Vec<String> = Vec::new();
                proof {
                    assert(empty.deep_view() =~= Seq::<Seq<char>>::empty());
                }
                return Some((empty, j + 1));
            }
            return match parse_string_at(t, j) {
                Some((body, m)) => {
                    let s = chars_to_string(&body);
                    match parse_rest_items_at(t, m, Ghost(t@.len() + 1)) {
                        Some((mut items, end)) => {
                            items.insert(0, s);
                            proof {
                                assert(items.deep_view() =~= seq![body@]
                                    + items.deep_view().drop_first());
                            }
                            Some((items, end))
                        },
                        None => None,
                    }
                },
                None => None,
            };
        }
    }
    None
}

/// Whether `kc` spells the document's one field name.
fn is_files_key(kc: &Vec<char>) -> (b: bool)
    ensures
        b == (kc@ == files_key()),
{
    let b = kc.len() == 5 && kc[0] == 'f' && kc[1] == 'i' && kc[2] == 'l' && kc[3] == 'e' && kc[4]
        == 's';
    proof {
        if b {
            assert(kc@ =~= files_key());
        }
    }
    b
}

/// Parse a document: the ordered entries it holds, or nothing if the text
/// is not a well-formed document of the expected shape.
pub fn parse_document(text: &str) -> (r: Option<Vec<String>>)
    ensures
        match r {
            Some(v) => parse_document_spec(text@) == Some(v.deep_view()),
            None => parse_document_spec(text@) is None,
        },
{
    let t = str_to_chars(text);
    let i0 = skip_ws_at(&t, 0);
    if i0 >= t.len() {
        return None;
    }
    if t[i0] != '{' {
        return None;
    }
    let i1 = skip_ws_at(&t, i0 + 1);
    match parse_string_at(&t, i1) {
        Some((kc, i2)) => {
            if !is_files_key(&kc) {
                return None;
            }
            let i3 = skip_ws_at(&t, i2);
            if i3 >= t.len() {
                return None;
            }
            if t[i3] != ':' {
                return None;
            }
            let i4 = skip_ws_at(&t, i3 + 1);
            match parse_array_at(&t, i4) {
                Some((items, i5)) => {
                    let i6 = skip_ws_at(&t, i5);
                    if i6 >= t.len() {
                        return None;
                    }
                    if t[i6] != '}' {
                        return None;
                    }
                    let i7 = skip_ws_at(&t, i6 + 1);
                    if i7 == t.len() {
                        Some(items)
                    } else {
                        None
                    }
                },
                None => None,
            }
        },
        None => None,
    }
}

// ---------------------------------------------------------------------------
// Round trip: parsing an encoded document gives the encoded list back
// ---------------------------------------------------------------------------

/// Decoding a hexadecimal digit gives back the value it was made from.
proof fn lemma_hex_value_digit(d: int)
    requires
        0 <= d < 16,
    ensures
        hex_value(hex_digit(d)) == d,
{
}

/// Parsing a string-literal body at the start of an encoded body followed
/// by a closing quote yields the original text and stops after the quote.
proof fn lemma_parse_text_of_encoded(t: Seq<char>, i: int, s: Seq<char>)
    requires
        0 <= i,
        i + encoded_text(s).len() + 1 <= t.len(),
        t.subrange(i, i + encoded_text(s).len() + 1) == encoded_text(s) + seq!['"'],
    ensures
        parse_text(t, i) == Some((s, i + encoded_text(s).len() + 1)),
    decreases s.len(),
{
    let region = encoded_text(s) + seq!['"'];
    let ln = encoded_text(s).len() as int;
    assert forall|k: int| 0 <= k < ln + 1 implies t[i + k] == region[k] by {
        assert(t.subrange(i, i + ln + 1)[k] == t[i + k]);
    }
    if s.len() == 0 {
        assert(t[i + 0] == region[0]);
        assert(t[i] == '"');
    } else {
        let c = s[0];
        let e = escape_char(c);
        let rest = s.drop_first();
        let el = e.len() as int;
        let rl = encoded_text(rest).len() as int;
        assert(encoded_text(s) == e + encoded_text(rest));
        assert(ln == el + rl);
        assert forall|k: int| 0 <= k < rl + 1 implies t.subrange(i + el, i + ln + 1)[k] == (
        encoded_text(rest) + seq!['"'])[k] by {
            assert(t.subrange(i + el, i + ln + 1)[k] == t[i + el + k]);
            assert(t[i + el + k] == region[el + k]);
        }
        assert(t.subrange(i + el, i + ln + 1) =~= encoded_text(rest) + seq!['"']);
        lemma_parse_text_of_encoded(t, i + el, rest);
        assert forall|k: int| 0 <= k < el implies region[k] == e[k] by {
            assert(region[k] == encoded_text(s)[k]);
            assert((e + encoded_text(rest))[k] == e[k]);
        }
        assert(t[i + 0] == region[0]);
        if c == '"' {
            assert(t[i] == '\\');
            assert(t[i + 1] == '"');
            assert(parse_text(t, i) == Some((seq![c] + rest, i + ln + 1)));
        } else if c == '\\' {
            assert(t[i] == '\\');
            assert(t[i + 1] == '\\');
            assert(parse_text(t, i) == Some((seq![c] + rest, i + ln + 1)));
        } else if (c as u32) < 32 {
            let v = (c as u32) as int;
            assert(t[i] == '\\');
            assert(t[i + 1] == 'u');
            assert(t[i + 2] == '0');
            assert(t[i + 3] == '0');
            assert(t[i + 4] == hex_digit(v / 16));
            assert(t[i + 5] == hex_digit(v % 16));
            lemma_hex_value_digit(v / 16);
            lemma_hex_value_digit(v % 16);
            assert((v / 16) * 16 + v % 16 == v);
            vstd::utf8::char_u32_cast(c, c as u32);
            assert(((c as u32) as char) == c);
            assert((v as u8) as u32 == c as u32);
            assert(((v as u8) as char) == c);
            assert(parse_text(t, i) == Some((seq![c] + rest, i + ln + 1)));
        } else {
            assert(t[i] == c);
            assert(parse_text(t, i) == Some((seq![c] + rest, i + ln + 1)));
        }
        assert(seq![c] + rest =~= s);
    }
}

/// The encoded tail of an item list is at least as long as the list.
proof fn lemma_encoded_items_rest_len(items: Seq<Seq<char>>)
    ensures
        encoded_items_rest(items).len() >= items.len(),
    decreases items.len(),
{
    if items.len() > 0 {
        lemma_encoded_items_rest_len(items.drop_first());
    }
}

/// Parsing the encoded tail of an item list followed by the closing
/// bracket yields those items and stops after the bracket.
proof fn lemma_parse_rest_of_encoded(t: Seq<char>, i: int, items: Seq<Seq<char>>, fuel: nat)
    requires
        0 <= i,
        fuel >= items.len() + 1,
        i + encoded_items_rest(items).len() + 1 <= t.len(),
        t.subrange(i, i + encoded_items_rest(items).len() + 1) == encoded_items_rest(items)
            + seq![']'],
    ensures
        parse_rest_items(t, i, fuel) == Some((items, i + encoded_items_rest(items).len() + 1)),
    decreases items.len(),
{
    let er = encoded_items_rest(items);
    let ln = er.len() as int;
    let region = er + seq![']'];
    assert forall|k: int| 0 <= k < ln + 1 implies t[i + k] == region[k] by {
        assert(t.subrange(i, i + ln + 1)[k] == t[i + k]);
    }
    if items.len() == 0 {
        assert(t[i + 0] == region[0]);
        assert(t[i] == ']');
        assert(skip_ws(t, i) == i);
    } else {
        let x = items[0];
        let rest = items.drop_first();
        let es = encoded_string(x);
        let tl = encoded_text(x).len() as int;
        let rl = encoded_items_rest(rest).len() as int;
        assert(er == (seq![','] + es) + encoded_items_rest(rest));
        assert(es == (seq!['"'] + encoded_text(x)) + seq!['"']);
        assert(ln == 3 + tl + rl);
        assert(t[i + 0] == region[0]);
        assert(region[0] == er[0]);
        assert(((seq![','] + es) + encoded_items_rest(rest))[0] == ',');
        assert(t[i] == ',');
        assert(skip_ws(t, i) == i);
        assert(t[i + 1] == region[1]);
        assert(region[1] == er[1]);
        assert(((seq![','] + es) + encoded_items_rest(rest))[1] == es[0]);
        assert(((seq!['"'] + encoded_text(x)) + seq!['"'])[0] == '"');
        assert(t[i + 1] == '"');
        assert(skip_ws(t, i + 1) == i + 1);
        // the first item's string literal
        assert forall|k: int| 0 <= k < tl + 1 implies t.subrange(i + 2, i + 2 + tl + 1)[k] == (
        encoded_text(x) + seq!['"'])[k] by {
            assert(t.subrange(i + 2, i + 2 + tl + 1)[k] == t[(i + 2) + k]);
            assert(t[i + (2 + k)] == region[2 + k]);
            assert(region[2 + k] == er[2 + k]);
            assert(((seq![','] + es) + encoded_items_rest(rest))[2 + k] == es[1 + k]);
            assert(((seq!['"'] + encoded_text(x)) + seq!['"'])[1 + k] == (encoded_text(x)
                + seq!['"'])[k]);
        }
        assert(t.subrange(i + 2, i + 2 + tl + 1) =~= encoded_text(x) + seq!['"']);
        lemma_parse_text_of_encoded(t, i + 2, x);
        let m0 = i + 3 + tl;
        assert(parse_string(t, i + 1) == Some((x, m0)));
        // the remaining items
        assert forall|k: int| 0 <= k < rl + 1 implies t.subrange(m0, m0 + rl + 1)[k] == (
        encoded_items_rest(rest) + seq![']'])[k] by {
            assert(t.subrange(m0, m0 + rl + 1)[k] == t[m0 + k]);
            assert(t[i + (3 + tl + k)] == region[3 + tl + k]);
            if k < rl {
                assert(region[3 + tl + k] == er[3 + tl + k]);
                assert(((seq![','] + es) + encoded_items_rest(rest))[3 + tl + k]
                    == encoded_items_rest(rest)[k]);
            } else {
                assert(region[ln] == ']');
            }
        }
        assert(t.subrange(m0, m0 + rl + 1) =~= encoded_items_rest(rest) + seq![']']);
        lemma_encoded_items_rest_len(rest);
        lemma_parse_rest_of_encoded(t, m0, rest, (fuel - 1) as nat);
        assert(parse_rest_items(t, m0, (fuel - 1) as nat) == Some((rest, m0 + rl + 1)));
        assert(seq![x] + rest =~= items);
        assert(parse_rest_items(t, i, fuel) == Some((items, i + ln + 1)));
    }
}

/// Parsing an encoded array yields the items it encodes and stops after
/// the closing bracket.
proof fn lemma_parse_array_of_encoded(t: Seq<char>, i: int, items: Seq<Seq<char>>)
    requires
        0 <= i,
        i + encoded_items(items).len() + 2 <= t.len(),
        t.subrange(i, i + encoded_items(items).len() + 2) == (seq!['['] + encoded_items(items))
            + seq![']'],
    ensures
        parse_array(t, i) == Some((items, i + encoded_items(items).len() + 2)),
{
    let ei = encoded_items(items);
    let el = ei.len() as int;
    let region = (seq!['['] + ei) + seq![']'];
    assert forall|k: int| 0 <= k < el + 2 implies t[i + k] == region[k] by {
        assert(t.subrange(i, i + el + 2)[k] == t[i + k]);
    }
    assert(t[i + 0] == region[0]);
    assert(t[i] == '[');
    if items.len() == 0 {
        assert(t[i + 1] == region[1]);
        assert(t[i + 1] == ']');
        assert(skip_ws(t, i + 1) == i + 1);
    } else {
        let x = items[0];
        let rest = items.drop_first();
        let es = encoded_string(x);
        let tl = encoded_text(x).len() as int;
        let rl = encoded_items_rest(rest).len() as int;
        assert(ei == es + encoded_items_rest(rest));
        assert(es == (seq!['"'] + encoded_text(x)) + seq!['"']);
        assert(el == 2 + tl + rl);
        assert(t[i + 1] == region[1]);
        assert(region[1] == ei[0]);
        assert((es + encoded_items_rest(rest))[0] == es[0]);
        assert(((seq!['"'] + encoded_text(x)) + seq!['"'])[0] == '"');
        assert(t[i + 1] == '"');
        assert(skip_ws(t, i + 1) == i + 1);
        // the first item's string literal
        assert forall|k: int| 0 <= k < tl + 1 implies t.subrange(i + 2, i + 2 + tl + 1)[k] == (
        encoded_text(x) + seq!['"'])[k] by {
            assert(t.subrange(i + 2, i + 2 + tl + 1)[k] == t[(i + 2) + k]);
            assert(t[i + (2 + k)] == region[2 + k]);
            assert(region[2 + k] == ei[1 + k]);
            assert((es + encoded_items_rest(rest))[1 + k] == es[1 + k]);
            assert(((seq!['"'] + encoded_text(x)) + seq!['"'])[1 + k] == (encoded_text(x)
                + seq!['"'])[k]);
        }
        assert(t.subrange(i + 2, i + 2 + tl + 1) =~= encoded_text(x) + seq!['"']);
        lemma_parse_text_of_encoded(t, i + 2, x);
        let m0 = i + 3 + tl;
        assert(parse_string(t, i + 1) == Some((x, m0)));
        // the remaining items
        assert forall|k: int| 0 <= k < rl + 1 implies t.subrange(m0, m0 + rl + 1)[k] == (
        encoded_items_rest(rest) + seq![']'])[k] by {
            assert(t.subrange(m0, m0 + rl + 1)[k] == t[m0 + k]);
            assert(t[i + (3 + tl + k)] == region[3 + tl + k]);
            if k < rl {
                assert(region[3 + tl + k] == ei[2 + tl + k]);
                assert((es + encoded_items_rest(rest))[2 + tl + k] == encoded_items_rest(
                    rest,
                )[k]);
            } else {
                assert(region[el + 1] == ']');
            }
        }
        assert(t.subrange(m0, m0 + rl + 1) =~= encoded_items_rest(rest) + seq![']']);
        lemma_encoded_items_rest_len(rest);
        lemma_parse_rest_of_encoded(t, m0, rest, t.len() as nat + 1);
        assert(seq![x] + rest =~= items);
        assert(parse_array(t, i) == Some((items, i + el + 2)));
    }
}

/// The field name contains nothing that encoding changes.
proof fn lemma_key_encodes_itself()
    ensures
        encoded_text(files_key()) == files_key(),
{
    let k0 = files_key();
    let k1 = seq!['i', 'l', 'e', 's'];
    let k2 = seq!['l', 'e', 's'];
    let k3 = seq!['e', 's'];
    let k4 = seq!['s'];
    let k5 = Seq::<char>::empty();
    assert(k0.drop_first() =~= k1);
    assert(k1.drop_first() =~= k2);
    assert(k2.drop_first() =~= k3);
    assert(k3.drop_first() =~= k4);
    assert(k4.drop_first() =~= k5);
    assert(encoded_text(k5) == Seq::<char>::empty());
    assert(encoded_text(k4) =~= k4);
    assert(encoded_text(k3) =~= k3);
    assert(encoded_text(k2) =~= k2);
    assert(encoded_text(k1) =~= k1);
    assert(encoded_text(k0) =~= k0);
}

/// The round trip: parsing the canonical document for any list of entries
/// gives exactly that list back, whatever the entries hold.
pub proof fn lemma_document_round_trip(items: Seq<Seq<char>>)
    ensures
        parse_document_spec(encoded_document(items)) == Some(items),
{
    let ei = encoded_items(items);
    let el = ei.len() as int;
    let t = encoded_document(items);
    let pre = document_prefix();
    let suf = document_suffix();
    assert(t == (pre + ei) + suf);
    assert(t.len() == 12 + el);
    assert forall|k: int| 0 <= k < 10 implies t[k] == pre[k] by {
        assert(((pre + ei) + suf)[k] == pre[k]);
    }
    assert forall|k: int| 0 <= k < el implies t[10 + k] == ei[k] by {
        assert(((pre + ei) + suf)[10 + k] == ei[k]);
    }
    assert(t[10 + el] == suf[0]);
    assert(t[11 + el] == suf[1]);
    assert(t[0] == '{');
    assert(skip_ws(t, 0) == 0);
    assert(t[1] == '"');
    assert(skip_ws(t, 1) == 1);
    // the field name
    lemma_key_encodes_itself();
    assert forall|k: int| 0 <= k < 6 implies t.subrange(2, 8)[k] == (files_key() + seq!['"'])[k] by {
        assert(t.subrange(2, 8)[k] == t[2 + k]);
        assert(t[2 + k] == pre[2 + k]);
    }
    assert(t.subrange(2, 8) =~= files_key() + seq!['"']);
    assert(t.subrange(2, 2 + encoded_text(files_key()).len() as int + 1) == encoded_text(
        files_key(),
    ) + seq!['"']);
    lemma_parse_text_of_encoded(t, 2, files_key());
    assert(parse_text(t, 2) == Some((files_key(), 8int)));
    assert(parse_string(t, 1) == Some((files_key(), 8int)));
    assert(t[8] == ':');
    assert(skip_ws(t, 8) == 8);
    assert(t[9] == '[');
    assert(skip_ws(t, 9) == 9);
    // the array
    assert forall|k: int| 0 <= k < el + 2 implies t.subrange(9, 11 + el)[k] == ((seq!['['] + ei)
        + seq![']'])[k] by {
        assert(t.subrange(9, 11 + el)[k] == t[9 + k]);
        if k == 0 {
            assert(t[9] == pre[9]);
        } else if k < el + 1 {
            assert(t[10 + (k - 1)] == ei[k - 1]);
        } else {
            assert(t[10 + el] == ']');
        }
    }
    assert(t.subrange(9, 11 + el) =~= (seq!['['] + ei) + seq![']']);
    lemma_parse_array_of_encoded(t, 9, items);
    assert(parse_array(t, 9) == Some((items, 11 + el)));
    assert(t[11 + el] == '}');
    assert(skip_ws(t, 11 + el) == 11 + el);
    assert(skip_ws(t, 12 + el) == 12 + el);
    assert(parse_document_spec(t) == Some(items));
}

} // verus!
