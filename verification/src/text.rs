//! Unicode codepoint strings, character names and glyph file names.
use vstd::prelude::*;

verus! {

/// Calls `String::push`. Claimed, as its documentation says: the character is appended.
#[verifier::external_body]
pub(crate) fn push_char(s: &mut String, c: char)
    ensures
        final(s)@ == old(s)@.push(c),
{
    s.push(c);
}

/// Whether `c` is a Unicode scalar value.
pub open spec fn is_scalar_value(n: u32) -> bool {
    n < 0xD800 || (0xE000 <= n <= 0x10FFFF)
}

/// Calls `char::from_u32`. Claimed, as its documentation says: `Some` of the character with
/// that code exactly when the code is a Unicode scalar value.
#[verifier::external_body]
pub(crate) fn char_from_u32(n: u32) -> (c: Option<char>)
    ensures
        c is Some <==> is_scalar_value(n),
        c matches Some(ch) ==> ch as u32 == n && ch == n as char,
{
    char::from_u32(n)
}

/// What `char::is_alphanumeric` answers for a character (Unicode `Alphabetic` or `Numeric`).
pub uninterp spec fn is_alphanumeric(c: char) -> bool;

/// ASCII letters and digits.
pub open spec fn is_ascii_alphanumeric(c: char) -> bool {
    ('0' <= c <= '9') || ('A' <= c <= 'Z') || ('a' <= c <= 'z')
}

/// Calls `char::is_alphanumeric`. Claimed: the answer is the named result; on ASCII it holds
/// exactly for letters and digits, and never for a control character (category `Cc`), as
/// the Unicode properties it reads give.
#[verifier::external_body]
pub(crate) fn char_is_alphanumeric(c: char) -> (b: bool)
    ensures
        b == is_alphanumeric(c),
        (c as u32) < 0x80 ==> (b <==> is_ascii_alphanumeric(c)),
        b ==> !is_control(c),
{
    c.is_alphanumeric()
}

/// What `str::to_uppercase` returns for a string (full Unicode case mapping).
pub uninterp spec fn str_uppercase(s: Seq<char>) -> Seq<char>;

pub open spec fn ascii_upper(c: char) -> char {
    if 'a' <= c <= 'z' {
        ((c as u32) - 32) as char
    } else {
        c
    }
}

pub open spec fn is_ascii(s: Seq<char>) -> bool {
    forall|i: int| 0 <= i < s.len() ==> (#[trigger] s[i] as u32) < 0x80
}

/// Calls `str::to_uppercase`. Claimed: the result is the named result; on an ASCII string it
/// maps `a`..`z` to `A`..`Z` and keeps every other character, as the Unicode case mapping does.
#[verifier::external_body]
pub(crate) fn to_uppercase(s: &str) -> (r: String)
    ensures
        r@ == str_uppercase(s@),
        is_ascii(s@) ==> r@ == s@.map_values(|c: char| ascii_upper(c)),
{
    s.to_uppercase()
}

/// Unicode general category `Cc`.
pub open spec fn is_control(c: char) -> bool {
    (c as u32) <= 0x1F || (0x7F <= (c as u32) <= 0x9F)
}

/// Whether `c` is a control character (general category `Cc`).
pub fn char_is_control(c: char) -> (b: bool)
    ensures
        b == is_control(c),
{
    let n = c as u32;
    n <= 0x1F || (0x7F <= n && n <= 0x9F)
}

/// Uppercase hexadecimal digit of `d < 16`.
pub open spec fn hex_digit(d: int) -> char {
    if d < 10 {
        (48 + d) as char
    } else {
        (55 + d) as char
    }
}

/// Uppercase hexadecimal digits of `n`, without leading zeros (`0` for zero).
pub open spec fn hex_digits(n: nat) -> Seq<char>
    decreases n,
{
    if n < 16 {
        seq![hex_digit(n as int)]
    } else {
        hex_digits(n / 16).push(hex_digit((n % 16) as int))
    }
}

/// Decimal digit of `d < 10`.
pub open spec fn dec_digit(d: int) -> char {
    (48 + d) as char
}

/// Decimal digits of `n`, without leading zeros (`0` for zero).
pub open spec fn dec_digits(n: nat) -> Seq<char>
    decreases n,
{
    if n < 10 {
        seq![dec_digit(n as int)]
    } else {
        dec_digits(n / 10).push(dec_digit((n % 10) as int))
    }
}

/// `s` preceded by as many `0` as it takes to reach `width` characters.
pub open spec fn zero_pad(s: Seq<char>, width: nat) -> Seq<char> {
    if s.len() >= width {
        s
    } else {
        Seq::new((width - s.len()) as nat, |i: int| '0') + s
    }
}

/// `U+` and at least four uppercase hexadecimal digits.
pub open spec fn codepoint_string(n: u32) -> Seq<char> {
    seq!['U', '+'] + zero_pad(hex_digits(n as nat), 4)
}

fn hex_char(d: u32) -> (c: char)
    requires
        d < 16,
    ensures
        c == hex_digit(d as int),
{
    if d < 10 {
        (48u8 + d as u8) as char
    } else {
        (55u8 + d as u8) as char
    }
}

fn dec_char(d: u32) -> (c: char)
    requires
        d < 10,
    ensures
        c == dec_digit(d as int),
{
    (48u8 + d as u8) as char
}

proof fn lemma_hex_digits_len(n: nat)
    ensures
        1 <= hex_digits(n).len(),
        n < 16 ==> hex_digits(n).len() == 1,
        n < 0x100 ==> hex_digits(n).len() <= 2,
        n < 0x1000 ==> hex_digits(n).len() <= 3,
        n < 0x10000 ==> hex_digits(n).len() <= 4,
    decreases n,
{
    if n >= 16 {
        lemma_hex_digits_len(n / 16);
    }
}

proof fn lemma_dec_digits_len(n: nat)
    ensures
        1 <= dec_digits(n).len(),
        n < 10 ==> dec_digits(n).len() == 1,
        n < 100 ==> dec_digits(n).len() <= 2,
        n < 1000 ==> dec_digits(n).len() <= 3,
        n < 10000 ==> dec_digits(n).len() <= 4,
    decreases n,
{
    if n >= 10 {
        lemma_dec_digits_len(n / 10);
    }
}

/// Appends the uppercase hexadecimal digits of `n`.
pub(crate) fn push_hex(s: &mut String, n: u32)
    ensures
        final(s)@ == old(s)@ + hex_digits(n as nat),
    decreases n,
{
    if n >= 16 {
        push_hex(s, n / 16);
    }
    push_char(s, hex_char(n % 16));
}

/// Appends the decimal digits of `n`.
fn push_dec(s: &mut String, n: usize)
    ensures
        final(s)@ == old(s)@ + dec_digits(n as nat),
    decreases n,
{
    if n >= 10 {
        push_dec(s, n / 10);
    }
    push_char(s, dec_char((n % 10) as u32));
}

/// The zeros that pad a string of `len` characters to `width`.
pub open spec fn zeros_to(len: int, width: int) -> Seq<char> {
    Seq::new((if len >= width { 0 } else { width - len }) as nat, |i: int| '0')
}

/// Appends `width - len` zeros.
pub(crate) fn push_zeros(s: &mut String, len: usize, width: usize)
    ensures
        final(s)@ == old(s)@ + zeros_to(len as int, width as int),
{
    let ghost start = s@;
    if len >= width {
        assert(s@ =~= start + zeros_to(len as int, width as int));
        return;
    }
    let mut k = len;
    while k < width
        invariant
            len <= k <= width,
            s@ == start + Seq::new((k - len) as nat, |i: int| '0'),
        decreases width - k,
    {
        push_char(s, '0');
        k = k + 1;
        assert(s@ =~= start + Seq::new((k - len) as nat, |i: int| '0'));
    }
    assert(s@ =~= start + zeros_to(len as int, width as int));
}

/// `U+` followed by the codepoint in uppercase hexadecimal, at least four digits.
pub fn codepoint_str(n: u32) -> (s: String)
    ensures
        s@ == codepoint_string(n),
{
    let mut digits = String::new();
    push_hex(&mut digits, n);
    let mut s = String::new();
    push_char(&mut s, 'U');
    push_char(&mut s, '+');
    let len = digits.unicode_len();
    push_zeros(&mut s, len, 4);
    s.append(digits.as_str());
    proof {
        lemma_hex_digits_len(n as nat);
        assert(s@ =~= codepoint_string(n));
    }
    s
}

/// The manifest ID of the glyph with the given 1-based number: `glyph_` and at least four
/// decimal digits.
pub open spec fn glyph_id_string(number: nat) -> Seq<char> {
    seq!['g', 'l', 'y', 'p', 'h', '_'] + zero_pad(dec_digits(number), 4)
}

/// `glyph_` followed by the number in decimal, at least four digits.
pub fn glyph_id(number: usize) -> (s: String)
    ensures
        s@ == glyph_id_string(number as nat),
{
    let mut digits = String::new();
    push_dec(&mut digits, number);
    let mut s = String::new();
    push_char(&mut s, 'g');
    push_char(&mut s, 'l');
    push_char(&mut s, 'y');
    push_char(&mut s, 'p');
    push_char(&mut s, 'h');
    push_char(&mut s, '_');
    let len = digits.unicode_len();
    push_zeros(&mut s, len, 4);
    s.append(digits.as_str());
    proof {
        lemma_dec_digits_len(number as nat);
        assert(s@ =~= glyph_id_string(number as nat));
    }
    s
}

/// The Unicode name of the printable ASCII characters; `CHARACTER U+XXXX` for the rest.
pub open spec fn char_name(c: char) -> Seq<char> {
    if 'A' <= c <= 'Z' {
        "LATIN CAPITAL LETTER "@.push(c)
    } else if 'a' <= c <= 'z' {
        "LATIN SMALL LETTER "@.push(ascii_upper(c))
    } else if c == '0' {
        "DIGIT ZERO"@
    } else if c == '1' {
        "DIGIT ONE"@
    } else if c == '2' {
        "DIGIT TWO"@
    } else if c == '3' {
        "DIGIT THREE"@
    } else if c == '4' {
        "DIGIT FOUR"@
    } else if c == '5' {
        "DIGIT FIVE"@
    } else if c == '6' {
        "DIGIT SIX"@
    } else if c == '7' {
        "DIGIT SEVEN"@
    } else if c == '8' {
        "DIGIT EIGHT"@
    } else if c == '9' {
        "DIGIT NINE"@
    } else if c == ' ' {
        "SPACE"@
    } else if c == '!' {
        "EXCLAMATION MARK"@
    } else if c == '"' {
        "QUOTATION MARK"@
    } else if c == '#' {
        "NUMBER SIGN"@
    } else if c == '$' {
        "DOLLAR SIGN"@
    } else if c == '%' {
        "PERCENT SIGN"@
    } else if c == '&' {
        "AMPERSAND"@
    } else if c == '\'' {
        "APOSTROPHE"@
    } else if c == '(' {
        "LEFT PARENTHESIS"@
    } else if c == ')' {
        "RIGHT PARENTHESIS"@
    } else if c == '*' {
        "ASTERISK"@
    } else if c == '+' {
        "PLUS SIGN"@
    } else if c == ',' {
        "COMMA"@
    } else if c == '-' {
        "HYPHEN-MINUS"@
    } else if c == '.' {
        "FULL STOP"@
    } else if c == '/' {
        "SOLIDUS"@
    } else if c == ':' {
        "COLON"@
    } else if c == ';' {
        "SEMICOLON"@
    } else if c == '<' {
        "LESS-THAN SIGN"@
    } else if c == '=' {
        "EQUALS SIGN"@
    } else if c == '>' {
        "GREATER-THAN SIGN"@
    } else if c == '?' {
        "QUESTION MARK"@
    } else if c == '@' {
        "COMMERCIAL AT"@
    } else if c == '[' {
        "LEFT SQUARE BRACKET"@
    } else if c == '\\' {
        "REVERSE SOLIDUS"@
    } else if c == ']' {
        "RIGHT SQUARE BRACKET"@
    } else if c == '^' {
        "CIRCUMFLEX ACCENT"@
    } else if c == '_' {
        "LOW LINE"@
    } else if c == '`' {
        "GRAVE ACCENT"@
    } else if c == '{' {
        "LEFT CURLY BRACKET"@
    } else if c == '|' {
        "VERTICAL LINE"@
    } else if c == '}' {
        "RIGHT CURLY BRACKET"@
    } else if c == '~' {
        "TILDE"@
    } else {
        "CHARACTER "@ + codepoint_string(c as u32)
    }
}

/// Return the Unicode character name for common characters.
/// For everything else, returns a generic "CHARACTER U+XXXX" placeholder.
pub fn unicode_char_name(c: char) -> (name: String)
    ensures
        name@ == char_name(c),
{
    if 'A' <= c && c <= 'Z' {
        let mut s = String::from_str("LATIN CAPITAL LETTER ");
        push_char(&mut s, c);
        return s;
    }
    if 'a' <= c && c <= 'z' {
        let mut s = String::from_str("LATIN SMALL LETTER ");
        push_char(&mut s, (((c as u32) - 32) as u8) as char);
        return s;
    }
    match c {
        '0' => String::from_str("DIGIT ZERO"),
        '1' => String::from_str("DIGIT ONE"),
        '2' => String::from_str("DIGIT TWO"),
        '3' => String::from_str("DIGIT THREE"),
        '4' => String::from_str("DIGIT FOUR"),
        '5' => String::from_str("DIGIT FIVE"),
        '6' => String::from_str("DIGIT SIX"),
        '7' => String::from_str("DIGIT SEVEN"),
        '8' => String::from_str("DIGIT EIGHT"),
        '9' => String::from_str("DIGIT NINE"),
        ' ' => String::from_str("SPACE"),
        '!' => String::from_str("EXCLAMATION MARK"),
        '"' => String::from_str("QUOTATION MARK"),
        '#' => String::from_str("NUMBER SIGN"),
        '$' => String::from_str("DOLLAR SIGN"),
        '%' => String::from_str("PERCENT SIGN"),
        '&' => String::from_str("AMPERSAND"),
        '\'' => String::from_str("APOSTROPHE"),
        '(' => String::from_str("LEFT PARENTHESIS"),
        ')' => String::from_str("RIGHT PARENTHESIS"),
        '*' => String::from_str("ASTERISK"),
        '+' => String::from_str("PLUS SIGN"),
        ',' => String::from_str("COMMA"),
        '-' => String::from_str("HYPHEN-MINUS"),
        '.' => String::from_str("FULL STOP"),
        '/' => String::from_str("SOLIDUS"),
        ':' => String::from_str("COLON"),
        ';' => String::from_str("SEMICOLON"),
        '<' => String::from_str("LESS-THAN SIGN"),
        '=' => String::from_str("EQUALS SIGN"),
        '>' => String::from_str("GREATER-THAN SIGN"),
        '?' => String::from_str("QUESTION MARK"),
        '@' => String::from_str("COMMERCIAL AT"),
        '[' => String::from_str("LEFT SQUARE BRACKET"),
        '\\' => String::from_str("REVERSE SOLIDUS"),
        ']' => String::from_str("RIGHT SQUARE BRACKET"),
        '^' => String::from_str("CIRCUMFLEX ACCENT"),
        '_' => String::from_str("LOW LINE"),
        '`' => String::from_str("GRAVE ACCENT"),
        '{' => String::from_str("LEFT CURLY BRACKET"),
        '|' => String::from_str("VERTICAL LINE"),
        '}' => String::from_str("RIGHT CURLY BRACKET"),
        '~' => String::from_str("TILDE"),
        _ => {
            let mut s = String::from_str("CHARACTER ");
            let cp = codepoint_str(c as u32);
            s.append(cp.as_str());
            s
        },
    }
}

/// Return the Unicode codepoint string (`U+` and at least four hexadecimal digits) and the
/// name of a character.
pub fn char_unicode_info(c: char) -> (info: (String, String))
    ensures
        info.0@ == codepoint_string(c as u32),
        info.1@ == char_name(c),
{
    (codepoint_str(c as u32), unicode_char_name(c))
}


/// `s` with every leading repetition of the nonempty pattern `p` removed.
pub open spec fn strip_prefix_all(s: Seq<char>, p: Seq<char>) -> Seq<char>
    decreases s.len(),
{
    if p.len() > 0 && p.len() <= s.len() && s.take(p.len() as int) == p {
        strip_prefix_all(s.skip(p.len() as int), p)
    } else {
        s
    }
}

pub open spec fn is_hex_char(c: char) -> bool {
    ('0' <= c <= '9') || ('a' <= c <= 'f') || ('A' <= c <= 'F')
}

pub open spec fn hex_char_value(c: char) -> int {
    if '0' <= c <= '9' {
        c as u32 - 48
    } else if 'a' <= c <= 'f' {
        c as u32 - 87
    } else {
        c as u32 - 55
    }
}

pub open spec fn all_hex(s: Seq<char>) -> bool {
    forall|i: int| 0 <= i < s.len() ==> is_hex_char(#[trigger] s[i])
}

/// The number that a string of hexadecimal digits spells.
pub open spec fn hex_value(s: Seq<char>) -> int
    decreases s.len(),
{
    if s.len() == 0 {
        0
    } else {
        hex_value(s.drop_last()) * 16 + hex_char_value(s.last())
    }
}

/// `u32::from_str_radix(s, 16)`: an optional `+`, then one or more hexadecimal digits of
/// either case whose value fits in a `u32`.
pub open spec fn parse_hex_u32(s: Seq<char>) -> Option<u32> {
    let d = if s.len() > 0 && s[0] == '+' {
        s.drop_first()
    } else {
        s
    };
    if d.len() > 0 && all_hex(d) && hex_value(d) <= u32::MAX {
        Some(hex_value(d) as u32)
    } else {
        None
    }
}

/// The digits of a codepoint string: every leading `U+` removed, then every leading `u+`.
pub open spec fn codepoint_digits(unicode: Seq<char>) -> Seq<char> {
    strip_prefix_all(strip_prefix_all(unicode, seq!['U', '+']), seq!['u', '+'])
}

/// The character a codepoint string names, when it parses to an alphanumeric, non-control
/// Unicode scalar value.
pub open spec fn short_char(unicode: Seq<char>) -> Option<char> {
    match parse_hex_u32(codepoint_digits(unicode)) {
        Some(v) => if is_scalar_value(v) && is_alphanumeric(v as char) && !is_control(v as char) {
            Some(v as char)
        } else {
            None
        },
        None => None,
    }
}

/// The name with every non-alphanumeric character replaced by `_`.
pub open spec fn sanitized(name: Seq<char>) -> Seq<char> {
    name.map_values(|c: char| if is_alphanumeric(c) { c } else { '_' })
}

/// Whether the character at `i` would make a file name unsafe: a path separator, NUL, a dot
/// beside another dot, or, where `dot_end`, a dot at the end.
pub open spec fn unsafe_at(s: Seq<char>, i: int, dot_end: bool) -> bool {
    let c = s[i];
    c == '/' || c == '\\' || c == '\0' || (c == '.' && ((i > 0 && s[i - 1] == '.') || (i + 1
        < s.len() && s[i + 1] == '.') || (dot_end && i + 1 == s.len())))
}

/// `s` with each unsafe character (see `unsafe_at`) replaced by `_`, the rest kept.
pub open spec fn made_safe(s: Seq<char>, dot_end: bool) -> Seq<char> {
    Seq::new(s.len(), |i: int| if unsafe_at(s, i, dot_end) { '_' } else { s[i] })
}

/// The codepoint string made safe for a file name: path separators, NUL and runs of dots
/// replaced by `_`, every other character kept.
pub open spec fn code_part(s: Seq<char>) -> Seq<char> {
    made_safe(s, false)
}

/// A safe file name that can take an extension: it does not end in a dot.
pub open spec fn safe_stem(s: Seq<char>) -> bool {
    safe_file_name(s) && (s.len() > 0 ==> s.last() != '.')
}

/// A character that a file name may hold anywhere: non-ASCII, an ASCII letter or digit,
/// `_` or `+`.
pub open spec fn plain_char(c: char) -> bool {
    (c as u32) >= 0x80 || is_ascii_alphanumeric(c) || c == '_' || c == '+'
}

pub open spec fn all_plain(s: Seq<char>) -> bool {
    forall|i: int| 0 <= i < s.len() ==> plain_char(#[trigger] s[i])
}

/// A single safe file name: no path separator, no NUL, no `..`.
pub open spec fn safe_file_name(s: Seq<char>) -> bool {
    &&& forall|i: int| 0 <= i < s.len() ==> #[trigger] s[i] != '/' && s[i] != '\\' && s[i] != '\0'
    &&& forall|i: int| 0 <= i < s.len() - 1 ==> !(#[trigger] s[i] == '.' && s[i + 1] == '.')
}

/// `<UNICODE>_<short>.png`: the codepoint string in upper case with unsafe characters
/// replaced, then the character itself when it is alphanumeric, else the sanitized name.
pub open spec fn glyph_file_name(unicode: Seq<char>, name: Seq<char>) -> Seq<char> {
    code_part(str_uppercase(unicode)) + seq!['_'] + match short_char(unicode) {
        Some(c) => seq![c],
        None => sanitized(name),
    } + seq!['.', 'p', 'n', 'g']
}

/// The characters of a string.
pub fn chars_of(s: &str) -> (v: Vec<char>)
    ensures
        v@ == s@,
{
    let n = s.unicode_len();
    let mut v: Vec<char> = Vec::new();
    let mut i: usize = 0;
    while i < n
        invariant
            n == s@.len(),
            i <= n,
            v@ == s@.take(i as int),
        decreases n - i,
    {
        v.push(s.get_char(i));
        i = i + 1;
        assert(v@ =~= s@.take(i as int));
    }
    assert(s@.take(n as int) =~= s@);
    v
}

/// Index after every leading repetition of `a b` from `start` on.
fn skip_pairs(v: &Vec<char>, start: usize, a: char, b: char) -> (k: usize)
    requires
        start <= v.len(),
    ensures
        start <= k <= v.len(),
        v@.skip(k as int) == strip_prefix_all(v@.skip(start as int), seq![a, b]),
{
    let mut k = start;
    while v.len() - k >= 2 && v[k] == a && v[k + 1] == b
        invariant
            start <= k <= v.len(),
            strip_prefix_all(v@.skip(k as int), seq![a, b]) == strip_prefix_all(
                v@.skip(start as int),
                seq![a, b],
            ),
        decreases v.len() - k,
    {
        let ghost t = v@.skip(k as int);
        assert(t.take(2) =~= seq![a, b]);
        assert(t.skip(2) =~= v@.skip(k + 2));
        k = k + 2;
    }
    let ghost t = v@.skip(k as int);
    if v.len() - k >= 2 {
        assert(t.take(2) != seq![a, b]) by {
            if t.take(2) == seq![a, b] {
                assert(t.take(2)[0] == v@[k as int]);
                assert(t.take(2)[1] == v@[k + 1]);
            }
        }
    }
    k
}

proof fn lemma_hex_value_prefix(t: Seq<char>, j: int)
    requires
        all_hex(t),
        0 <= j <= t.len(),
    ensures
        0 <= hex_value(t.take(j)) <= hex_value(t),
    decreases t.len(),
{
    if t.len() > 0 {
        let u = t.drop_last();
        assert(all_hex(u)) by {
            assert forall|i: int| 0 <= i < u.len() implies is_hex_char(#[trigger] u[i]) by {
                assert(u[i] == t[i]);
            }
        }
        assert(is_hex_char(t[t.len() - 1]));
        if j < t.len() {
            lemma_hex_value_prefix(u, j);
            assert(u.take(j) =~= t.take(j));
        } else {
            assert(t.take(j) =~= t);
            lemma_hex_value_prefix(u, u.len() as int);
            assert(u.take(u.len() as int) =~= u);
        }
    } else {
        assert(t.take(j) =~= t);
    }
}

fn hex_digit_value(c: char) -> (d: Option<u32>)
    ensures
        d is Some <==> is_hex_char(c),
        d matches Some(v) ==> v == hex_char_value(c) && v < 16,
{
    if '0' <= c && c <= '9' {
        Some((c as u32) - 48)
    } else if 'a' <= c && c <= 'f' {
        Some((c as u32) - 87)
    } else if 'A' <= c && c <= 'F' {
        Some((c as u32) - 55)
    } else {
        None
    }
}

/// `u32::from_str_radix(&s[start..], 16)` on the characters from `start` on.
fn parse_hex_from(v: &Vec<char>, start: usize) -> (r: Option<u32>)
    requires
        start <= v.len(),
    ensures
        r == parse_hex_u32(v@.skip(start as int)),
{
    let ghost s = v@.skip(start as int);
    let d0 = if start < v.len() && v[start] == '+' { start + 1 } else { start };
    let ghost d = v@.skip(d0 as int);
    assert(d =~= if s.len() > 0 && s[0] == '+' { s.drop_first() } else { s });
    if d0 == v.len() {
        return None;
    }
    let mut acc: u64 = 0;
    let mut i = d0;
    while i < v.len()
        invariant
            d0 <= i <= v.len(),
            d == v@.skip(d0 as int),
            acc <= u32::MAX,
            d.len() > 0,
            parse_hex_u32(v@.skip(start as int)) == (if all_hex(d) && hex_value(d) <= u32::MAX {
                Some(hex_value(d) as u32)
            } else {
                None
            }),
            acc == hex_value(d.take(i - d0)),
            all_hex(d.take(i - d0)),
        decreases v.len() - i,
    {
        let ghost pre = d.take(i - d0);
        let ghost next = d.take(i - d0 + 1);
        assert(next.drop_last() =~= pre);
        assert(next.last() == v@[i as int]);
        match hex_digit_value(v[i]) {
            None => {
                assert(!all_hex(d)) by {
                    assert(d[i - d0] == v@[i as int]);
                }
                return None;
            },
            Some(dv) => {
                acc = acc * 16 + dv as u64;
                i = i + 1;
                assert(all_hex(next)) by {
                    assert forall|j: int| 0 <= j < next.len() implies is_hex_char(#[trigger] next[j]) by {
                        if j < pre.len() {
                            assert(next[j] == pre[j]);
                        }
                    }
                }
                if acc > 0xffff_ffff {
                    proof {
                        if all_hex(d) {
                            lemma_hex_value_prefix(d, i - d0);
                        }
                    }
                    return None;
                }
            },
        }
    }
    assert(d.take(i - d0) =~= d);
    Some(acc as u32)
}

/// The number a codepoint string spells: leading `U+` and `u+` removed, then hexadecimal.
pub fn codepoint_value(unicode: &str) -> (r: Option<u32>)
    ensures
        r == parse_hex_u32(codepoint_digits(unicode@)),
{
    let v = chars_of(unicode);
    let k1 = skip_pairs(&v, 0, 'U', '+');
    let k2 = skip_pairs(&v, k1, 'u', '+');
    proof {
        assert(v@.skip(0) =~= v@);
    }
    parse_hex_from(&v, k2)
}

/// The character of a codepoint string when it names an alphanumeric, non-control character.
pub fn codepoint_char(unicode: &str) -> (r: Option<char>)
    ensures
        r == short_char(unicode@),
        r matches Some(c) ==> plain_char(c),
{
    match codepoint_value(unicode) {
        None => None,
        Some(n) => match char_from_u32(n) {
            None => None,
            Some(c) => {
                assert(c == n as char);
                if char_is_alphanumeric(c) && !char_is_control(c) {
                    Some(c)
                } else {
                    None
                }
            },
        },
    }
}

/// The name with every non-alphanumeric character replaced by `_`.
pub fn sanitize_name(name: &str) -> (r: String)
    ensures
        r@ == sanitized(name@),
        all_plain(r@),
{
    let n = name.unicode_len();
    let mut r = String::new();
    let mut i: usize = 0;
    while i < n
        invariant
            n == name@.len(),
            i <= n,
            r@ == sanitized(name@.take(i as int)),
            all_plain(r@),
        decreases n - i,
    {
        let c = name.get_char(i);
        if char_is_alphanumeric(c) {
            push_char(&mut r, c);
        } else {
            push_char(&mut r, '_');
        }
        i = i + 1;
        assert(r@ =~= sanitized(name@.take(i as int)));
    }
    assert(name@.take(n as int) =~= name@);
    r
}

/// `s` made safe for a file name (see `made_safe`).
pub fn make_safe(s: &str, dot_end: bool) -> (r: String)
    ensures
        r@ == made_safe(s@, dot_end),
        safe_file_name(r@),
        dot_end ==> safe_stem(r@),
{
    let n = s.unicode_len();
    let mut r = String::new();
    let mut i: usize = 0;
    while i < n
        invariant
            n == s@.len(),
            i <= n,
            r@ == made_safe(s@, dot_end).take(i as int),
        decreases n - i,
    {
        let c = s.get_char(i);
        let prev_dot = i > 0 && s.get_char(i - 1) == '.';
        let next_dot = i + 1 < n && s.get_char(i + 1) == '.';
        let bad = c == '/' || c == '\\' || c == '\0' || (c == '.' && (prev_dot || next_dot || (
        dot_end && i + 1 == n)));
        if bad {
            push_char(&mut r, '_');
        } else {
            push_char(&mut r, c);
        }
        i = i + 1;
        assert(r@ =~= made_safe(s@, dot_end).take(i as int));
    }
    assert(made_safe(s@, dot_end).take(n as int) =~= made_safe(s@, dot_end));
    proof {
        lemma_made_safe(s@, dot_end);
    }
    r
}

/// What `made_safe` gives is a safe file name, and one that does not end in a dot where
/// `dot_end`.
pub proof fn lemma_made_safe(s: Seq<char>, dot_end: bool)
    ensures
        safe_file_name(made_safe(s, dot_end)),
        dot_end ==> safe_stem(made_safe(s, dot_end)),
{
    let m = made_safe(s, dot_end);
    assert forall|i: int| 0 <= i < m.len() - 1 implies !(#[trigger] m[i] == '.' && m[i + 1]
        == '.') by {
        if m[i] == '.' && m[i + 1] == '.' {
            assert(!unsafe_at(s, i, dot_end));
            assert(s[i] == '.' && s[i + 1] == '.');
        }
    }
}

/// The codepoint string made safe (see `code_part`).
pub fn sanitize_code(code: &str) -> (r: String)
    ensures
        r@ == code_part(code@),
        safe_file_name(r@),
{
    make_safe(code, false)
}

/// A safe part, `_`, a part of plain characters and `.png` make a safe file name.
proof fn lemma_parts_safe(a: Seq<char>, b: Seq<char>)
    requires
        safe_file_name(a),
        all_plain(b),
    ensures
        safe_file_name(a + seq!['_'] + b + seq!['.', 'p', 'n', 'g']),
{
    let s = a + seq!['_'] + b + seq!['.', 'p', 'n', 'g'];
    let k = a.len() + 1 + b.len();
    assert forall|i: int| 0 <= i < s.len() implies #[trigger] s[i] != '/' && s[i] != '\\' && s[i]
        != '\0' by {
        if i < a.len() {
            assert(s[i] == a[i]);
        } else if a.len() < i < k {
            assert(s[i] == b[i - a.len() - 1] && plain_char(b[i - a.len() - 1]));
        }
    }
    assert forall|i: int| 0 <= i < s.len() - 1 implies !(#[trigger] s[i] == '.' && s[i + 1] == '.') by {
        if i < a.len() - 1 {
            assert(s[i] == a[i] && s[i + 1] == a[i + 1]);
        } else if i == a.len() - 1 {
            assert(s[i + 1] == '_');
        } else if a.len() < i < k {
            assert(s[i] == b[i - a.len() - 1] && plain_char(b[i - a.len() - 1]));
        } else if i == k {
            assert(s[i + 1] == 'p');
        }
    }
}

/// A name that does not end in a dot, and `.png`, make a safe file name.
pub proof fn lemma_stem_png_safe(a: Seq<char>)
    requires
        safe_stem(a),
    ensures
        safe_file_name(a + seq!['.', 'p', 'n', 'g']),
{
    let s = a + seq!['.', 'p', 'n', 'g'];
    assert forall|i: int| 0 <= i < s.len() implies #[trigger] s[i] != '/' && s[i] != '\\' && s[i]
        != '\0' by {
        if i < a.len() {
            assert(s[i] == a[i]);
        }
    }
    assert forall|i: int| 0 <= i < s.len() - 1 implies !(#[trigger] s[i] == '.' && s[i + 1] == '.') by {
        if i < a.len() - 1 {
            assert(s[i] == a[i] && s[i + 1] == a[i + 1]);
        } else if i == a.len() - 1 {
            assert(s[i] == a.last());
        } else if i == a.len() {
            assert(s[i + 1] == 'p');
        }
    }
}

/// A name of plain characters does not end in a dot and is safe.
pub proof fn lemma_plain_stem(a: Seq<char>)
    requires
        all_plain(a),
    ensures
        safe_stem(a),
{
    if a.len() > 0 {
        assert(plain_char(a[a.len() - 1]));
    }
}

/// Build a safe filename from a Unicode codepoint string and character name.
/// Examples: "U+0041_A.png", "U+00B6_PILCROW_SIGN.png"
///
/// The codepoint string is kept in upper case; only path separators, NUL and runs of dots in
/// it are replaced by `_`.
pub fn unicode_filename(unicode: &str, name: &str) -> (file: String)
    ensures
        file@ == glyph_file_name(unicode@, name@),
        safe_file_name(file@),
{
    let short = match codepoint_char(unicode) {
        Some(c) => {
            let mut s = String::new();
            push_char(&mut s, c);
            s
        },
        None => sanitize_name(name),
    };
    let upper = to_uppercase(unicode);
    let mut file = sanitize_code(upper.as_str());
    let ghost code = file@;
    push_char(&mut file, '_');
    file.append(short.as_str());
    push_char(&mut file, '.');
    push_char(&mut file, 'p');
    push_char(&mut file, 'n');
    push_char(&mut file, 'g');
    proof {
        assert(file@ =~= glyph_file_name(unicode@, name@));
        assert(all_plain(short@));
        lemma_parts_safe(code, short@);
        assert(file@ =~= code + seq!['_'] + short@ + seq!['.', 'p', 'n', 'g']);
    }
    file
}

proof fn lemma_hex_digit_char(d: int)
    requires
        0 <= d < 16,
    ensures
        is_hex_char(hex_digit(d)),
        hex_char_value(hex_digit(d)) == d,
        hex_digit(d) != 'U' && hex_digit(d) != 'u' && hex_digit(d) != '+',
{
}

/// Hexadecimal digits are plain file-name characters.
pub proof fn lemma_hex_digits_plain(n: nat)
    ensures
        all_plain(hex_digits(n)),
{
    lemma_hex_digits_value(n);
    let h = hex_digits(n);
    assert forall|i: int| 0 <= i < h.len() implies plain_char(#[trigger] h[i]) by {
        assert(is_hex_char(h[i]));
    }
}

proof fn lemma_hex_digits_value(n: nat)
    ensures
        all_hex(hex_digits(n)),
        hex_value(hex_digits(n)) == n,
    decreases n,
{
    if n < 16 {
        lemma_hex_digit_char(n as int);
        let s = hex_digits(n);
        assert(s.drop_last() =~= Seq::<char>::empty());
        assert(hex_value(s.drop_last()) == 0);
        assert(hex_value(s) == hex_value(s.drop_last()) * 16 + hex_char_value(s.last()));
        assert(s.last() == hex_digit(n as int));
    } else {
        lemma_hex_digits_value(n / 16);
        lemma_hex_digit_char((n % 16) as int);
        let s = hex_digits(n);
        assert(s.drop_last() == hex_digits(n / 16));
        assert(s.last() == hex_digit((n % 16) as int));
        assert((n / 16) * 16 + n % 16 == n) by (nonlinear_arith);
        assert(hex_value(s) == hex_value(s.drop_last()) * 16 + hex_char_value(s.last()));
        assert forall|i: int| 0 <= i < s.len() implies is_hex_char(#[trigger] s[i]) by {
            if i < s.len() - 1 {
                assert(s[i] == hex_digits(n / 16)[i]);
            }
        }
    }
}

proof fn lemma_zeros_value(k: nat)
    ensures
        hex_value(Seq::new(k, |i: int| '0')) == 0,
        all_hex(Seq::new(k, |i: int| '0')),
    decreases k,
{
    if k > 0 {
        lemma_zeros_value((k - 1) as nat);
        assert(Seq::new(k, |i: int| '0').drop_last() =~= Seq::new((k - 1) as nat, |i: int| '0'));
    }
}

proof fn lemma_hex_value_leading_zeros(z: Seq<char>, b: Seq<char>)
    requires
        hex_value(z) == 0,
    ensures
        hex_value(z + b) == hex_value(b),
    decreases b.len(),
{
    if b.len() == 0 {
        assert(z + b =~= z);
    } else {
        lemma_hex_value_leading_zeros(z, b.drop_last());
        assert((z + b).drop_last() =~= z + b.drop_last());
    }
}

/// A codepoint string written for a number reads back as that number.
pub proof fn law_codepoint_string_parses(n: u32)
    ensures
        codepoint_digits(codepoint_string(n)) == zero_pad(hex_digits(n as nat), 4),
        parse_hex_u32(codepoint_digits(codepoint_string(n))) == Some(n),
{
    let h = hex_digits(n as nat);
    let z = zero_pad(h, 4);
    lemma_hex_digits_value(n as nat);
    lemma_hex_digits_len(n as nat);
    let k = (if h.len() >= 4 { 0 } else { 4 - h.len() }) as nat;
    lemma_zeros_value(k);
    let zs = Seq::new(k, |i: int| '0');
    if h.len() >= 4 {
        assert(z == h);
    } else {
        assert(z == zs + h);
        lemma_hex_value_leading_zeros(zs, h);
    }
    assert(all_hex(z)) by {
        assert forall|i: int| 0 <= i < z.len() implies is_hex_char(#[trigger] z[i]) by {
            if h.len() < 4 && i < k {
                assert(z[i] == zs[i]);
            } else if h.len() < 4 {
                assert(z[i] == h[i - k]);
            }
        }
    }
    assert(z.len() > 0);
    let u = seq!['U', '+'] + z;
    assert(u.take(2) =~= seq!['U', '+']);
    assert(u.skip(2) =~= z);
    assert(is_hex_char(z[0]));
    assert(z.take(2) != seq!['U', '+']) by {
        if z.len() >= 2 && z.take(2) == seq!['U', '+'] {
            assert(z.take(2)[0] == z[0]);
        }
    }
    assert(z.take(2) != seq!['u', '+']) by {
        if z.len() >= 2 && z.take(2) == seq!['u', '+'] {
            assert(z.take(2)[0] == z[0]);
        }
    }
    assert(strip_prefix_all(z, seq!['U', '+']) == z);
    assert(strip_prefix_all(u, seq!['U', '+']) == z);
    assert(strip_prefix_all(z, seq!['u', '+']) == z);
}

/// The file name of a glyph labelled with a character shows the character itself exactly
/// when it is alphanumeric and not a control character.
pub proof fn law_labelled_char_file_name(c: char)
    ensures
        short_char(codepoint_string(c as u32)) == if is_alphanumeric(c) && !is_control(c) {
            Some(c)
        } else {
            None
        },
{
    law_codepoint_string_parses(c as u32);
    assert((c as u32) as char == c);
    assert(is_scalar_value(c as u32));
}

/// The names of letters: the letter (uppercased) at the end, `C` or `S` after `LATIN `.
proof fn lemma_letter_name(c: char)
    ensures
        'A' <= c <= 'Z' ==> char_name(c).len() == 22 && char_name(c)[21] == c
            && char_name(c)[6] == 'C' && char_name(c)[0] == 'L',
        'a' <= c <= 'z' ==> char_name(c).len() == 20 && char_name(c)[19] as u32 == (c as u32) - 32
            && char_name(c)[6] == 'S' && char_name(c)[0] == 'L',
{
    reveal_strlit("LATIN CAPITAL LETTER ");
    reveal_strlit("LATIN SMALL LETTER ");
}

/// Names outside the letters and the `CHARACTER U+XXXX` form: two characters with the same name
/// are the same, and no such name is also the name of a character of that form.
#[verifier::rlimit(100)]
proof fn lemma_table_names(c1: char, c2: char)
    requires
        !('A' <= c1 <= 'Z' || 'a' <= c1 <= 'z' || 'A' <= c2 <= 'Z' || 'a' <= c2 <= 'z'),
        char_name(c1) == char_name(c2),
        char_name(c2) != "CHARACTER "@ + codepoint_string(c2 as u32),
    ensures
        c1 == c2,
{
    let s1 = char_name(c1);
    let s2 = char_name(c2);
    if s1 == "CHARACTER "@ + codepoint_string(c1 as u32) {
        reveal_strlit("CHARACTER ");
        assert(s1[0] == 'C' && s1[1] == 'H');
    }
    assert(s1[0] == s2[0] && s1[1] == s2[1] && s1[s1.len() - 5] == s2[s2.len() - 5] && s1[s1.len()
        - 2] == s2[s2.len() - 2]);
    reveal_strlit("LATIN CAPITAL LETTER ");
    reveal_strlit("LATIN SMALL LETTER ");
    reveal_strlit("DIGIT ZERO");
    reveal_strlit("DIGIT ONE");
    reveal_strlit("DIGIT TWO");
    reveal_strlit("DIGIT THREE");
    reveal_strlit("DIGIT FOUR");
    reveal_strlit("DIGIT FIVE");
    reveal_strlit("DIGIT SIX");
    reveal_strlit("DIGIT SEVEN");
    reveal_strlit("DIGIT EIGHT");
    reveal_strlit("DIGIT NINE");
    reveal_strlit("SPACE");
    reveal_strlit("EXCLAMATION MARK");
    reveal_strlit("QUOTATION MARK");
    reveal_strlit("NUMBER SIGN");
    reveal_strlit("DOLLAR SIGN");
    reveal_strlit("PERCENT SIGN");
    reveal_strlit("AMPERSAND");
    reveal_strlit("APOSTROPHE");
    reveal_strlit("LEFT PARENTHESIS");
    reveal_strlit("RIGHT PARENTHESIS");
    reveal_strlit("ASTERISK");
    reveal_strlit("PLUS SIGN");
    reveal_strlit("COMMA");
    reveal_strlit("HYPHEN-MINUS");
    reveal_strlit("FULL STOP");
    reveal_strlit("SOLIDUS");
    reveal_strlit("COLON");
    reveal_strlit("SEMICOLON");
    reveal_strlit("LESS-THAN SIGN");
    reveal_strlit("EQUALS SIGN");
    reveal_strlit("GREATER-THAN SIGN");
    reveal_strlit("QUESTION MARK");
    reveal_strlit("COMMERCIAL AT");
    reveal_strlit("LEFT SQUARE BRACKET");
    reveal_strlit("REVERSE SOLIDUS");
    reveal_strlit("RIGHT SQUARE BRACKET");
    reveal_strlit("CIRCUMFLEX ACCENT");
    reveal_strlit("LOW LINE");
    reveal_strlit("GRAVE ACCENT");
    reveal_strlit("LEFT CURLY BRACKET");
    reveal_strlit("VERTICAL LINE");
    reveal_strlit("RIGHT CURLY BRACKET");
    reveal_strlit("TILDE");
    reveal_strlit("CHARACTER ");
}

/// A letter's name is the name of no other character: it is longer than the other names
/// that start with `L`.
proof fn lemma_letter_vs_other(c1: char, c2: char)
    requires
        'A' <= c1 <= 'Z' || 'a' <= c1 <= 'z',
        !('A' <= c2 <= 'Z' || 'a' <= c2 <= 'z'),
    ensures
        char_name(c1) != char_name(c2),
{
    lemma_letter_name(c1);
    let s2 = char_name(c2);
    if s2 == "CHARACTER "@ + codepoint_string(c2 as u32) {
        reveal_strlit("CHARACTER ");
        assert(s2[0] == 'C');
    }
    assert(s2.len() != char_name(c1).len() || s2[0] != 'L') by {
        reveal_strlit("LATIN CAPITAL LETTER ");
        reveal_strlit("LATIN SMALL LETTER ");
        reveal_strlit("DIGIT ZERO");
        reveal_strlit("DIGIT ONE");
        reveal_strlit("DIGIT TWO");
        reveal_strlit("DIGIT THREE");
        reveal_strlit("DIGIT FOUR");
        reveal_strlit("DIGIT FIVE");
        reveal_strlit("DIGIT SIX");
        reveal_strlit("DIGIT SEVEN");
        reveal_strlit("DIGIT EIGHT");
        reveal_strlit("DIGIT NINE");
        reveal_strlit("SPACE");
        reveal_strlit("EXCLAMATION MARK");
        reveal_strlit("QUOTATION MARK");
        reveal_strlit("NUMBER SIGN");
        reveal_strlit("DOLLAR SIGN");
        reveal_strlit("PERCENT SIGN");
        reveal_strlit("AMPERSAND");
        reveal_strlit("APOSTROPHE");
        reveal_strlit("LEFT PARENTHESIS");
        reveal_strlit("RIGHT PARENTHESIS");
        reveal_strlit("ASTERISK");
        reveal_strlit("PLUS SIGN");
        reveal_strlit("COMMA");
        reveal_strlit("HYPHEN-MINUS");
        reveal_strlit("FULL STOP");
        reveal_strlit("SOLIDUS");
        reveal_strlit("COLON");
        reveal_strlit("SEMICOLON");
        reveal_strlit("LESS-THAN SIGN");
        reveal_strlit("EQUALS SIGN");
        reveal_strlit("GREATER-THAN SIGN");
        reveal_strlit("QUESTION MARK");
        reveal_strlit("COMMERCIAL AT");
        reveal_strlit("LEFT SQUARE BRACKET");
        reveal_strlit("REVERSE SOLIDUS");
        reveal_strlit("RIGHT SQUARE BRACKET");
        reveal_strlit("CIRCUMFLEX ACCENT");
        reveal_strlit("LOW LINE");
        reveal_strlit("GRAVE ACCENT");
        reveal_strlit("LEFT CURLY BRACKET");
        reveal_strlit("VERTICAL LINE");
        reveal_strlit("RIGHT CURLY BRACKET");
        reveal_strlit("TILDE");
        reveal_strlit("CHARACTER ");
    }
}

/// Distinct characters get distinct names (`unicode_char_name`), so a name identifies its
/// character.
pub proof fn law_char_name_injective(c1: char, c2: char)
    requires
        c1 != c2,
    ensures
        char_name(c1) != char_name(c2),
{
    if char_name(c1) == char_name(c2) {
        let a = "CHARACTER "@;
        let f1 = a + codepoint_string(c1 as u32);
        let f2 = a + codepoint_string(c2 as u32);
        reveal_strlit("CHARACTER ");
        if char_name(c1) == f1 && char_name(c2) == f2 {
            assert(f1.skip(10) =~= codepoint_string(c1 as u32));
            assert(f2.skip(10) =~= codepoint_string(c2 as u32));
            law_codepoint_string_parses(c1 as u32);
            law_codepoint_string_parses(c2 as u32);
            assert(c1 as u32 == c2 as u32);
        } else {
            if ('A' <= c1 <= 'Z' || 'a' <= c1 <= 'z') && ('A' <= c2 <= 'Z' || 'a' <= c2 <= 'z') {
                lemma_letter_name(c1);
                lemma_letter_name(c2);
                assert(char_name(c1)[6] != char_name(c2)[6] || char_name(c1).len() != char_name(
                    c2,
                ).len() || c1 == c2);
            } else if 'A' <= c1 <= 'Z' || 'a' <= c1 <= 'z' {
                lemma_letter_vs_other(c1, c2);
            } else if 'A' <= c2 <= 'Z' || 'a' <= c2 <= 'z' {
                lemma_letter_vs_other(c2, c1);
            } else if char_name(c2) != f2 {
                lemma_table_names(c1, c2);
            } else {
                lemma_table_names(c2, c1);
            }
        }
    }
}

/// The English word for a decimal digit, as Unicode names the digits.
pub open spec fn digit_word(d: int) -> Seq<char> {
    if d == 0 {
        "ZERO"@
    } else if d == 1 {
        "ONE"@
    } else if d == 2 {
        "TWO"@
    } else if d == 3 {
        "THREE"@
    } else if d == 4 {
        "FOUR"@
    } else if d == 5 {
        "FIVE"@
    } else if d == 6 {
        "SIX"@
    } else if d == 7 {
        "SEVEN"@
    } else if d == 8 {
        "EIGHT"@
    } else {
        "NINE"@
    }
}

/// The Unicode character names (UnicodeData.txt) of the printable ASCII characters: the Latin
/// letters and the digits by their rule, the others as listed, by codepoint. `None` elsewhere.
pub open spec fn ascii_unicode_name(cp: u32) -> Option<Seq<char>> {
    if 0x41 <= cp <= 0x5A {
        Some("LATIN CAPITAL LETTER "@ + seq![cp as char])
    } else if 0x61 <= cp <= 0x7A {
        Some("LATIN SMALL LETTER "@ + seq![(cp - 0x20) as char])
    } else if 0x30 <= cp <= 0x39 {
        Some("DIGIT "@ + digit_word(cp - 0x30))
    } else if cp == 0x0020 {
        Some("SPACE"@)
    } else if cp == 0x0021 {
        Some("EXCLAMATION MARK"@)
    } else if cp == 0x0022 {
        Some("QUOTATION MARK"@)
    } else if cp == 0x0023 {
        Some("NUMBER SIGN"@)
    } else if cp == 0x0024 {
        Some("DOLLAR SIGN"@)
    } else if cp == 0x0025 {
        Some("PERCENT SIGN"@)
    } else if cp == 0x0026 {
        Some("AMPERSAND"@)
    } else if cp == 0x0027 {
        Some("APOSTROPHE"@)
    } else if cp == 0x0028 {
        Some("LEFT PARENTHESIS"@)
    } else if cp == 0x0029 {
        Some("RIGHT PARENTHESIS"@)
    } else if cp == 0x002A {
        Some("ASTERISK"@)
    } else if cp == 0x002B {
        Some("PLUS SIGN"@)
    } else if cp == 0x002C {
        Some("COMMA"@)
    } else if cp == 0x002D {
        Some("HYPHEN-MINUS"@)
    } else if cp == 0x002E {
        Some("FULL STOP"@)
    } else if cp == 0x002F {
        Some("SOLIDUS"@)
    } else if cp == 0x003A {
        Some("COLON"@)
    } else if cp == 0x003B {
        Some("SEMICOLON"@)
    } else if cp == 0x003C {
        Some("LESS-THAN SIGN"@)
    } else if cp == 0x003D {
        Some("EQUALS SIGN"@)
    } else if cp == 0x003E {
        Some("GREATER-THAN SIGN"@)
    } else if cp == 0x003F {
        Some("QUESTION MARK"@)
    } else if cp == 0x0040 {
        Some("COMMERCIAL AT"@)
    } else if cp == 0x005B {
        Some("LEFT SQUARE BRACKET"@)
    } else if cp == 0x005C {
        Some("REVERSE SOLIDUS"@)
    } else if cp == 0x005D {
        Some("RIGHT SQUARE BRACKET"@)
    } else if cp == 0x005E {
        Some("CIRCUMFLEX ACCENT"@)
    } else if cp == 0x005F {
        Some("LOW LINE"@)
    } else if cp == 0x0060 {
        Some("GRAVE ACCENT"@)
    } else if cp == 0x007B {
        Some("LEFT CURLY BRACKET"@)
    } else if cp == 0x007C {
        Some("VERTICAL LINE"@)
    } else if cp == 0x007D {
        Some("RIGHT CURLY BRACKET"@)
    } else if cp == 0x007E {
        Some("TILDE"@)
    } else {
        None
    }
}

/// Each printable ASCII character is named by its Unicode character name.
pub proof fn law_ascii_char_names(c: char)
    requires
        ' ' <= c <= '~',
    ensures
        ascii_unicode_name(c as u32) == Some(char_name(c)),
{
    assert((c as u32) as char == c);
    if 'A' <= c <= 'Z' {
        assert("LATIN CAPITAL LETTER "@.push(c) =~= "LATIN CAPITAL LETTER "@ + seq![c]);
    } else if 'a' <= c <= 'z' {
        assert("LATIN SMALL LETTER "@.push(ascii_upper(c)) =~= "LATIN SMALL LETTER "@ + seq![
            ((c as u32) - 0x20) as char,
        ]);
    } else if '0' <= c <= '9' {
        reveal_strlit("DIGIT ");
        reveal_strlit("ZERO");
        reveal_strlit("DIGIT ZERO");
        reveal_strlit("ONE");
        reveal_strlit("DIGIT ONE");
        reveal_strlit("TWO");
        reveal_strlit("DIGIT TWO");
        reveal_strlit("THREE");
        reveal_strlit("DIGIT THREE");
        reveal_strlit("FOUR");
        reveal_strlit("DIGIT FOUR");
        reveal_strlit("FIVE");
        reveal_strlit("DIGIT FIVE");
        reveal_strlit("SIX");
        reveal_strlit("DIGIT SIX");
        reveal_strlit("SEVEN");
        reveal_strlit("DIGIT SEVEN");
        reveal_strlit("EIGHT");
        reveal_strlit("DIGIT EIGHT");
        reveal_strlit("NINE");
        reveal_strlit("DIGIT NINE");
        let d = (c as u32) - 0x30;
        assert(char_name(c) =~= "DIGIT "@ + digit_word(d as int));
    }
}

/// Every other character is named `CHARACTER ` and its codepoint string, which reads back as
/// the character's codepoint.
pub proof fn law_other_char_names(c: char)
    requires
        !(' ' <= c <= '~'),
    ensures
        char_name(c).take(10) == "CHARACTER "@,
        parse_hex_u32(codepoint_digits(char_name(c).skip(10))) == Some(c as u32),
{
    reveal_strlit("CHARACTER ");
    law_codepoint_string_parses(c as u32);
    assert(("CHARACTER "@ + codepoint_string(c as u32)).take(10) =~= "CHARACTER "@);
    assert(("CHARACTER "@ + codepoint_string(c as u32)).skip(10) =~= codepoint_string(c as u32));
}

} // verus!
