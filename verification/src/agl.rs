//! Adobe Glyph List names: the names font editors map glyph images by.
use vstd::prelude::*;

use crate::text::{
    all_plain, codepoint_string, law_codepoint_string_parses, char_from_u32, codepoint_digits, codepoint_value, hex_digits, is_scalar_value,
    lemma_hex_digits_plain, lemma_plain_stem, made_safe, make_safe, parse_hex_u32, plain_char,
    push_char, push_hex, push_zeros, safe_stem, str_uppercase, to_uppercase, zero_pad,
};

verus! {

/// The glyph name of a character: the letter itself for `A`..`Z` and `a`..`z`, the Adobe
/// Glyph List name for the other printable ASCII characters and for `ß`, and `uniXXXX`
/// (`uXXXXX` above the Basic Multilingual Plane) for every other character.
pub open spec fn agl_char_name(c: char) -> Seq<char> {
    if ('A' <= c <= 'Z') || ('a' <= c <= 'z') {
        seq![c]
    } else if c == ' ' {
        "space"@
    } else if c == '!' {
        "exclam"@
    } else if c == '"' {
        "quotedbl"@
    } else if c == '#' {
        "numbersign"@
    } else if c == '$' {
        "dollar"@
    } else if c == '%' {
        "percent"@
    } else if c == '&' {
        "ampersand"@
    } else if c == '\'' {
        "quotesingle"@
    } else if c == '(' {
        "parenleft"@
    } else if c == ')' {
        "parenright"@
    } else if c == '*' {
        "asterisk"@
    } else if c == '+' {
        "plus"@
    } else if c == ',' {
        "comma"@
    } else if c == '-' {
        "hyphen"@
    } else if c == '.' {
        "period"@
    } else if c == '/' {
        "slash"@
    } else if c == '0' {
        "zero"@
    } else if c == '1' {
        "one"@
    } else if c == '2' {
        "two"@
    } else if c == '3' {
        "three"@
    } else if c == '4' {
        "four"@
    } else if c == '5' {
        "five"@
    } else if c == '6' {
        "six"@
    } else if c == '7' {
        "seven"@
    } else if c == '8' {
        "eight"@
    } else if c == '9' {
        "nine"@
    } else if c == ':' {
        "colon"@
    } else if c == ';' {
        "semicolon"@
    } else if c == '<' {
        "less"@
    } else if c == '=' {
        "equal"@
    } else if c == '>' {
        "greater"@
    } else if c == '?' {
        "question"@
    } else if c == '@' {
        "at"@
    } else if c == '[' {
        "bracketleft"@
    } else if c == '\\' {
        "backslash"@
    } else if c == ']' {
        "bracketright"@
    } else if c == '^' {
        "asciicircum"@
    } else if c == '_' {
        "underscore"@
    } else if c == '`' {
        "grave"@
    } else if c == '{' {
        "braceleft"@
    } else if c == '|' {
        "bar"@
    } else if c == '}' {
        "braceright"@
    } else if c == '~' {
        "asciitilde"@
    } else if c == 'ß' {
        "germandbls"@
    } else if (c as u32) <= 0xFFFF {
        seq!['u', 'n', 'i'] + zero_pad(hex_digits(c as u32 as nat), 4)
    } else {
        seq!['u'] + zero_pad(hex_digits(c as u32 as nat), 4)
    }
}

/// The glyph name for a codepoint string: the name of the character it spells, or, when it
/// spells none, the string in upper case made safe for a file name that takes an extension
/// (path separators, NUL, runs of dots and a final dot replaced by `_`).
pub open spec fn agl_name_of(unicode: Seq<char>) -> Seq<char> {
    match parse_hex_u32(codepoint_digits(unicode)) {
        Some(v) => if is_scalar_value(v) {
            agl_char_name(v as char)
        } else {
            made_safe(str_uppercase(unicode), true)
        },
        None => made_safe(str_uppercase(unicode), true),
    }
}

/// The glyph name of a character.
pub fn agl_char(c: char) -> (name: String)
    ensures
        name@ == agl_char_name(c),
        all_plain(name@),
{
    if ('A' <= c && c <= 'Z') || ('a' <= c && c <= 'z') {
        let mut s = String::new();
        push_char(&mut s, c);
        return s;
    }
    match c {
        ' ' => {
            proof {
                reveal_strlit("space");
            }
            String::from_str("space")
        },
        '!' => {
            proof {
                reveal_strlit("exclam");
            }
            String::from_str("exclam")
        },
        '"' => {
            proof {
                reveal_strlit("quotedbl");
            }
            String::from_str("quotedbl")
        },
        '#' => {
            proof {
                reveal_strlit("numbersign");
            }
            String::from_str("numbersign")
        },
        '$' => {
            proof {
                reveal_strlit("dollar");
            }
            String::from_str("dollar")
        },
        '%' => {
            proof {
                reveal_strlit("percent");
            }
            String::from_str("percent")
        },
        '&' => {
            proof {
                reveal_strlit("ampersand");
            }
            String::from_str("ampersand")
        },
        '\'' => {
            proof {
                reveal_strlit("quotesingle");
            }
            String::from_str("quotesingle")
        },
        '(' => {
            proof {
                reveal_strlit("parenleft");
            }
            String::from_str("parenleft")
        },
        ')' => {
            proof {
                reveal_strlit("parenright");
            }
            String::from_str("parenright")
        },
        '*' => {
            proof {
                reveal_strlit("asterisk");
            }
            String::from_str("asterisk")
        },
        '+' => {
            proof {
                reveal_strlit("plus");
            }
            String::from_str("plus")
        },
        ',' => {
            proof {
                reveal_strlit("comma");
            }
            String::from_str("comma")
        },
        '-' => {
            proof {
                reveal_strlit("hyphen");
            }
            String::from_str("hyphen")
        },
        '.' => {
            proof {
                reveal_strlit("period");
            }
            String::from_str("period")
        },
        '/' => {
            proof {
                reveal_strlit("slash");
            }
            String::from_str("slash")
        },
        '0' => {
            proof {
                reveal_strlit("zero");
            }
            String::from_str("zero")
        },
        '1' => {
            proof {
                reveal_strlit("one");
            }
            String::from_str("one")
        },
        '2' => {
            proof {
                reveal_strlit("two");
            }
            String::from_str("two")
        },
        '3' => {
            proof {
                reveal_strlit("three");
            }
            String::from_str("three")
        },
        '4' => {
            proof {
                reveal_strlit("four");
            }
            String::from_str("four")
        },
        '5' => {
            proof {
                reveal_strlit("five");
            }
            String::from_str("five")
        },
        '6' => {
            proof {
                reveal_strlit("six");
            }
            String::from_str("six")
        },
        '7' => {
            proof {
                reveal_strlit("seven");
            }
            String::from_str("seven")
        },
        '8' => {
            proof {
                reveal_strlit("eight");
            }
            String::from_str("eight")
        },
        '9' => {
            proof {
                reveal_strlit("nine");
            }
            String::from_str("nine")
        },
        ':' => {
            proof {
                reveal_strlit("colon");
            }
            String::from_str("colon")
        },
        ';' => {
            proof {
                reveal_strlit("semicolon");
            }
            String::from_str("semicolon")
        },
        '<' => {
            proof {
                reveal_strlit("less");
            }
            String::from_str("less")
        },
        '=' => {
            proof {
                reveal_strlit("equal");
            }
            String::from_str("equal")
        },
        '>' => {
            proof {
                reveal_strlit("greater");
            }
            String::from_str("greater")
        },
        '?' => {
            proof {
                reveal_strlit("question");
            }
            String::from_str("question")
        },
        '@' => {
            proof {
                reveal_strlit("at");
            }
            String::from_str("at")
        },
        '[' => {
            proof {
                reveal_strlit("bracketleft");
            }
            String::from_str("bracketleft")
        },
        '\\' => {
            proof {
                reveal_strlit("backslash");
            }
            String::from_str("backslash")
        },
        ']' => {
            proof {
                reveal_strlit("bracketright");
            }
            String::from_str("bracketright")
        },
        '^' => {
            proof {
                reveal_strlit("asciicircum");
            }
            String::from_str("asciicircum")
        },
        '_' => {
            proof {
                reveal_strlit("underscore");
            }
            String::from_str("underscore")
        },
        '`' => {
            proof {
                reveal_strlit("grave");
            }
            String::from_str("grave")
        },
        '{' => {
            proof {
                reveal_strlit("braceleft");
            }
            String::from_str("braceleft")
        },
        '|' => {
            proof {
                reveal_strlit("bar");
            }
            String::from_str("bar")
        },
        '}' => {
            proof {
                reveal_strlit("braceright");
            }
            String::from_str("braceright")
        },
        '~' => {
            proof {
                reveal_strlit("asciitilde");
            }
            String::from_str("asciitilde")
        },
        'ß' => {
            proof {
                reveal_strlit("germandbls");
            }
            String::from_str("germandbls")
        },
        _ => {
            let n = c as u32;
            let mut digits = String::new();
            push_hex(&mut digits, n);
            let mut s = String::new();
            push_char(&mut s, 'u');
            if n <= 0xFFFF {
                push_char(&mut s, 'n');
                push_char(&mut s, 'i');
            }
            let len = digits.unicode_len();
            push_zeros(&mut s, len, 4);
            s.append(digits.as_str());
            proof {
                lemma_hex_digits_plain(n as nat);
                let z = zero_pad(hex_digits(n as nat), 4);
                assert(s@ =~= agl_char_name(c));
                assert(all_plain(z)) by {
                    assert forall|i: int| 0 <= i < z.len() implies plain_char(#[trigger] z[i]) by {
                        let h = hex_digits(n as nat);
                        if h.len() < 4 && i < 4 - h.len() {
                            assert(z[i] == '0');
                        } else if h.len() < 4 {
                            assert(z[i] == h[i - (4 - h.len())]);
                        } else {
                            assert(z[i] == h[i]);
                        }
                    }
                }
                assert forall|i: int| 0 <= i < s@.len() implies plain_char(#[trigger] s@[i]) by {
                    let k = if n <= 0xFFFF { 3int } else { 1int };
                    if i >= k {
                        assert(s@[i] == z[i - k]);
                    }
                }
            }
            s
        },
    }
}

/// Glyph name (Adobe Glyph List) for a codepoint string such as `U+0041`.
pub fn agl_name(unicode: &str) -> (name: String)
    ensures
        name@ == agl_name_of(unicode@),
        safe_stem(name@),
{
    match codepoint_value(unicode) {
        Some(v) => match char_from_u32(v) {
            Some(c) => {
                let name = agl_char(c);
                proof {
                    lemma_plain_stem(name@);
                }
                name
            },
            None => make_safe(to_uppercase(unicode).as_str(), true),
        },
        None => make_safe(to_uppercase(unicode).as_str(), true),
    }
}

/// The Adobe Glyph List entries (`name;codepoint`) for the printable ASCII characters and `ß`,
/// in the list's alphabetical order; the letters are named by themselves. `None` for other
/// codepoints.
pub open spec fn glyph_list_name(cp: u32) -> Option<Seq<char>> {
    if (0x41 <= cp <= 0x5A) || (0x61 <= cp <= 0x7A) {
        Some(seq![cp as char])
    } else if cp == 0x0026 {
        Some("ampersand"@)
    } else if cp == 0x005E {
        Some("asciicircum"@)
    } else if cp == 0x007E {
        Some("asciitilde"@)
    } else if cp == 0x002A {
        Some("asterisk"@)
    } else if cp == 0x0040 {
        Some("at"@)
    } else if cp == 0x005C {
        Some("backslash"@)
    } else if cp == 0x007C {
        Some("bar"@)
    } else if cp == 0x007B {
        Some("braceleft"@)
    } else if cp == 0x007D {
        Some("braceright"@)
    } else if cp == 0x005B {
        Some("bracketleft"@)
    } else if cp == 0x005D {
        Some("bracketright"@)
    } else if cp == 0x003A {
        Some("colon"@)
    } else if cp == 0x002C {
        Some("comma"@)
    } else if cp == 0x0024 {
        Some("dollar"@)
    } else if cp == 0x0038 {
        Some("eight"@)
    } else if cp == 0x003D {
        Some("equal"@)
    } else if cp == 0x0021 {
        Some("exclam"@)
    } else if cp == 0x0035 {
        Some("five"@)
    } else if cp == 0x0034 {
        Some("four"@)
    } else if cp == 0x00DF {
        Some("germandbls"@)
    } else if cp == 0x0060 {
        Some("grave"@)
    } else if cp == 0x003E {
        Some("greater"@)
    } else if cp == 0x002D {
        Some("hyphen"@)
    } else if cp == 0x003C {
        Some("less"@)
    } else if cp == 0x0039 {
        Some("nine"@)
    } else if cp == 0x0023 {
        Some("numbersign"@)
    } else if cp == 0x0031 {
        Some("one"@)
    } else if cp == 0x0028 {
        Some("parenleft"@)
    } else if cp == 0x0029 {
        Some("parenright"@)
    } else if cp == 0x0025 {
        Some("percent"@)
    } else if cp == 0x002E {
        Some("period"@)
    } else if cp == 0x002B {
        Some("plus"@)
    } else if cp == 0x003F {
        Some("question"@)
    } else if cp == 0x0022 {
        Some("quotedbl"@)
    } else if cp == 0x0027 {
        Some("quotesingle"@)
    } else if cp == 0x003B {
        Some("semicolon"@)
    } else if cp == 0x0037 {
        Some("seven"@)
    } else if cp == 0x0036 {
        Some("six"@)
    } else if cp == 0x002F {
        Some("slash"@)
    } else if cp == 0x0020 {
        Some("space"@)
    } else if cp == 0x0033 {
        Some("three"@)
    } else if cp == 0x0032 {
        Some("two"@)
    } else if cp == 0x005F {
        Some("underscore"@)
    } else if cp == 0x0030 {
        Some("zero"@)
    } else {
        None
    }
}

/// The glyph name of each printable ASCII character, and of `ß`, is its entry in the Adobe
/// Glyph List.
pub proof fn law_glyph_list_names(c: char)
    requires
        (' ' <= c <= '~') || c == 'ß',
    ensures
        glyph_list_name(c as u32) == Some(agl_char_name(c)),
{
    assert((c as u32) as char == c);
}

/// Every character outside the list is named by its codepoint: `uni` and the codepoint in
/// four or more hexadecimal digits up to U+FFFF, `u` and the codepoint above.
pub proof fn law_codepoint_glyph_names(c: char)
    requires
        glyph_list_name(c as u32) is None,
    ensures
        (c as u32) <= 0xFFFF ==> agl_char_name(c).take(3) == "uni"@ && parse_hex_u32(
            agl_char_name(c).skip(3),
        ) == Some(c as u32),
        (c as u32) > 0xFFFF ==> agl_char_name(c).take(1) == "u"@ && parse_hex_u32(
            agl_char_name(c).skip(1),
        ) == Some(c as u32),
{
    reveal_strlit("uni");
    reveal_strlit("u");
    assert((c as u32) as char == c);
    law_codepoint_string_parses(c as u32);
    let z = zero_pad(hex_digits(c as u32 as nat), 4);
    assert(codepoint_digits(codepoint_string(c as u32)) == z);
    if (c as u32) <= 0xFFFF {
        assert((seq!['u', 'n', 'i'] + z).take(3) =~= "uni"@);
        assert((seq!['u', 'n', 'i'] + z).skip(3) =~= z);
    } else {
        assert((seq!['u'] + z).take(1) =~= "u"@);
        assert((seq!['u'] + z).skip(1) =~= z);
    }
}

/// A codepoint string written for a character (`U+XXXX`) gets that character's glyph name.
pub proof fn law_agl_name_of_codepoint(c: char)
    ensures
        agl_name_of(codepoint_string(c as u32)) == agl_char_name(c),
{
    law_codepoint_string_parses(c as u32);
    assert((c as u32) as char == c);
    assert(is_scalar_value(c as u32));
}

} // verus!
