use vstd::prelude::*;
use vstd::string::*;

verus! {

/// The byte order mark.
pub const BOM_CHAR: char = '\u{FEFF}';

/// The text with a leading byte order mark removed.
pub open spec fn without_bom(s: Seq<char>) -> Seq<char> {
    if s.len() > 0 && s[0] == BOM_CHAR {
        s.drop_first()
    } else {
        s
    }
}

/// Strips the byte order mark from the provided text if it exists.
pub fn strip_bom(text: &str) -> (r: &str)
    ensures
        r@ == without_bom(text@),
{
    let n = text.unicode_len();
    if n > 0 && text.get_char(0) == BOM_CHAR {
        text.substring_char(1, n)
    } else {
        text
    }
}

/// Unicode's White_Space property, which `char::is_whitespace` tests.
pub open spec fn white_space(c: char) -> bool {
    let v = c as u32;
    (0x09 <= v <= 0x0D) || v == 0x20 || v == 0x85 || v == 0xA0 || v == 0x1680 || (0x2000
        <= v <= 0x200A) || v == 0x2028 || v == 0x2029 || v == 0x202F || v == 0x205F || v
        == 0x3000
}

pub fn is_white_space(c: char) -> (r: bool)
    ensures
        r == white_space(c),
{
    let v = c as u32;
    (0x09 <= v && v <= 0x0D) || v == 0x20 || v == 0x85 || v == 0xA0 || v == 0x1680 || (0x2000
        <= v && v <= 0x200A) || v == 0x2028 || v == 0x2029 || v == 0x202F || v == 0x205F || v
        == 0x3000
}

/// Index of the first character at or after `from` that is not white space
/// (the length when there is none).
pub open spec fn skip_white(s: Seq<char>, from: int) -> int
    decreases s.len() - from,
{
    if from >= s.len() {
        s.len() as int
    } else if white_space(s[from]) {
        skip_white(s, from + 1)
    } else {
        from
    }
}

/// Index just after the last character before `to` that is not white space
/// (zero when there is none).
pub open spec fn skip_white_back(s: Seq<char>, to: int) -> int
    decreases to,
{
    if to <= 0 {
        0
    } else if white_space(s[to - 1]) {
        skip_white_back(s, to - 1)
    } else {
        to
    }
}

pub proof fn lemma_skip_white_bounds(s: Seq<char>, from: int)
    requires
        0 <= from <= s.len(),
    ensures
        from <= skip_white(s, from) <= s.len(),
    decreases s.len() - from,
{
    if from < s.len() && white_space(s[from]) {
        lemma_skip_white_bounds(s, from + 1);
    }
}

pub proof fn lemma_skip_white_back_bounds(s: Seq<char>, to: int)
    requires
        0 <= to <= s.len(),
    ensures
        0 <= skip_white_back(s, to) <= to,
    decreases to,
{
    if to > 0 && white_space(s[to - 1]) {
        lemma_skip_white_back_bounds(s, to - 1);
    }
}

/// The first index at or after `from` whose character is not white space.
pub fn next_non_white(s: &str, from: usize) -> (r: usize)
    requires
        from <= s@.len(),
    ensures
        r == skip_white(s@, from as int),
{
    let n = s.unicode_len();
    let mut i = from;
    while i < n && is_white_space(s.get_char(i))
        invariant
            n == s@.len(),
            from <= i <= n,
            skip_white(s@, i as int) == skip_white(s@, from as int),
        decreases n - i,
    {
        i = i + 1;
    }
    i
}

/// The index just after the last character before `to` that is not white space.
pub fn prev_non_white(s: &str, to: usize) -> (r: usize)
    requires
        to <= s@.len(),
    ensures
        r == skip_white_back(s@, to as int),
{
    let mut i = to;
    while i > 0 && is_white_space(s.get_char(i - 1))
        invariant
            i <= to <= s@.len(),
            skip_white_back(s@, i as int) == skip_white_back(s@, to as int),
        decreases i,
    {
        i = i - 1;
    }
    i
}

/// The text without leading and trailing white space.
pub open spec fn trimmed(s: Seq<char>) -> Seq<char> {
    let end = skip_white_back(s, s.len() as int);
    s.subrange(skip_white(s.subrange(0, end), 0), end)
}

/// The text without trailing white space.
pub open spec fn trimmed_end(s: Seq<char>) -> Seq<char> {
    s.subrange(0, skip_white_back(s, s.len() as int))
}

/// Removes leading and trailing white space.
pub fn trim(s: &str) -> (r: String)
    ensures
        r@ == trimmed(s@),
{
    let n = s.unicode_len();
    let end = prev_non_white(s, n);
    proof {
        lemma_skip_white_back_bounds(s@, n as int);
    }
    let head = s.substring_char(0, end);
    let start = next_non_white(head, 0);
    proof {
        lemma_skip_white_bounds(head@, 0);
    }
    head.substring_char(start, end).to_owned()
}

/// Removes trailing white space.
pub fn trim_end(s: &str) -> (r: String)
    ensures
        r@ == trimmed_end(s@),
{
    let n = s.unicode_len();
    let end = prev_non_white(s, n);
    proof {
        lemma_skip_white_back_bounds(s@, n as int);
    }
    s.substring_char(0, end).to_owned()
}

/// A digit of a number written in base 16, in lower case.
pub open spec fn hex_digit(d: u32) -> char {
    if d < 10 {
        (('0' as u32) + d) as char
    } else {
        (('a' as u32) + d - 10) as char
    }
}

/// How RFC 8259 writes one character inside a JSON string.
pub open spec fn escaped_char(c: char) -> Seq<char> {
    let v = c as u32;
    if v == 0x08 {
        seq!['\\', 'b']
    } else if v == 0x09 {
        seq!['\\', 't']
    } else if v == 0x0A {
        seq!['\\', 'n']
    } else if v == 0x0C {
        seq!['\\', 'f']
    } else if v == 0x0D {
        seq!['\\', 'r']
    } else if v == 0x22 {
        seq!['\\', '"']
    } else if v == 0x5C {
        seq!['\\', '\\']
    } else if v < 0x20 {
        seq!['\\', 'u', '0', '0', hex_digit(v / 16), hex_digit(v % 16)]
    } else {
        seq![c]
    }
}

/// The text escaped character by character as a JSON string's contents.
pub open spec fn escaped(s: Seq<char>) -> Seq<char>
    decreases s.len(),
{
    if s.len() == 0 {
        Seq::empty()
    } else {
        escaped(s.drop_last()) + escaped_char(s.last())
    }
}

/// Relies on `escape8259::escape`: quotation mark, reverse solidus and the
/// control characters are escaped as RFC 8259 writes them, all else is kept.
#[verifier::external_body]
fn escape_json(s: &str) -> (r: String)
    ensures
        r@ == escaped(s@),
{
    escape8259::escape(s)
}

/// The module text that a JSON module stands for.
pub open spec fn json_module_source(source: Seq<char>) -> Seq<char> {
    "export default JSON.parse(\""@ + escaped(trimmed_end(source)) + "\");"@
}

/// Turns the source of a JSON module into a module whose default export is
/// the parsed value.
pub fn transform_json_source(source: &str) -> (r: String)
    ensures
        r@ == json_module_source(source@),
{
    let body = trim_end(source);
    let escaped_body = escape_json(body.as_str());
    let mut out = String::from_str("export default JSON.parse(\"");
    out.append(escaped_body.as_str());
    out.append("\");");
    out
}

/// A decimal digit.
pub open spec fn digit_char(d: nat) -> char {
    (('0' as nat) + d) as char
}

/// A number written in decimal.
pub open spec fn decimal(n: nat) -> Seq<char>
    decreases n,
{
    if n < 10 {
        seq![digit_char(n)]
    } else {
        decimal(n / 10) + seq![digit_char(n % 10)]
    }
}

fn digit_str(d: usize) -> (r: &'static str)
    requires
        d < 10,
    ensures
        r@ == seq![digit_char(d as nat)],
{
    proof {
        reveal_strlit("0");
        reveal_strlit("1");
        reveal_strlit("2");
        reveal_strlit("3");
        reveal_strlit("4");
        reveal_strlit("5");
        reveal_strlit("6");
        reveal_strlit("7");
        reveal_strlit("8");
        reveal_strlit("9");
    }
    let r = match d {
        0 => "0",
        1 => "1",
        2 => "2",
        3 => "3",
        4 => "4",
        5 => "5",
        6 => "6",
        7 => "7",
        8 => "8",
        _ => "9",
    };
    assert(r@ =~= seq![digit_char(d as nat)]);
    r
}

/// Writes a number in decimal.
pub fn decimal_text(n: usize) -> (r: String)
    ensures
        r@ == decimal(n as nat),
    decreases n,
{
    if n < 10 {
        String::from_str(digit_str(n))
    } else {
        let mut s = decimal_text(n / 10);
        s.append(digit_str(n % 10));
        s
    }
}

} // verus!
