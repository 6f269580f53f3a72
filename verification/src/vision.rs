//! Talking to a vision model about one glyph: the image payload of the request, the JSON
//! text inside the optional code fences of the reply, and the labels with their fallbacks.
use base64::Engine;
use vstd::prelude::*;

use crate::text::{chars_of, push_char, str_uppercase, strip_prefix_all, to_uppercase};

verus! {

/// The character of a six-bit value in the standard base64 alphabet.
pub open spec fn base64_digit(v: int) -> char {
    if v < 26 {
        (('A' as int) + v) as char
    } else if v < 52 {
        (('a' as int) + v - 26) as char
    } else if v < 62 {
        (('0' as int) + v - 52) as char
    } else if v == 62 {
        '+'
    } else {
        '/'
    }
}

/// Standard base64 with padding: every three bytes as four digits of six bits each; a last
/// group of one or two bytes as two or three digits, filled up to four with `=`.
pub open spec fn base64_standard(b: Seq<u8>) -> Seq<char>
    decreases b.len(),
{
    if b.len() == 0 {
        seq![]
    } else if b.len() == 1 {
        seq![base64_digit(b[0] as int / 4), base64_digit((b[0] as int % 4) * 16), '=', '=']
    } else if b.len() == 2 {
        seq![
            base64_digit(b[0] as int / 4),
            base64_digit((b[0] as int % 4) * 16 + b[1] as int / 16),
            base64_digit((b[1] as int % 16) * 4),
            '=',
        ]
    } else {
        seq![
            base64_digit(b[0] as int / 4),
            base64_digit((b[0] as int % 4) * 16 + b[1] as int / 16),
            base64_digit((b[1] as int % 16) * 4 + b[2] as int / 64),
            base64_digit(b[2] as int % 64),
        ] + base64_standard(b.subrange(3, b.len() as int))
    }
}

/// Four characters for every three bytes or part of three.
pub proof fn lemma_base64_len(b: Seq<u8>)
    ensures
        base64_standard(b).len() == 4 * ((b.len() + 2) / 3),
    decreases b.len(),
{
    if b.len() >= 3 {
        lemma_base64_len(b.subrange(3, b.len() as int));
    }
}

/// Calls `base64::engine::general_purpose::STANDARD.encode`. Claimed, from the crate's
/// documentation of the standard engine (RFC 4648 alphabet, padding on): the result is
/// `base64_standard` of the bytes. Left out: inputs whose encoded length overflows `usize`
/// (it panics).
#[verifier::external_body]
fn base64_encode(bytes: &[u8]) -> (s: String)
    requires
        bytes.len() <= usize::MAX / 2,
    ensures
        s@ == base64_standard(bytes@),
{
    base64::engine::general_purpose::STANDARD.encode(bytes)
}

/// The image data of a request about one glyph: its PNG bytes in standard base64.
pub fn image_payload(png: &[u8]) -> (data: String)
    requires
        png.len() <= usize::MAX / 2,
    ensures
        data@ == base64_standard(png@),
        data@.len() == 4 * ((png.len() + 2) / 3),
{
    proof {
        lemma_base64_len(png@);
    }
    base64_encode(png)
}

/// Unicode `White_Space`, the property `char::is_whitespace` and `str::trim` go by.
pub open spec fn is_white_space(c: char) -> bool {
    let n = c as u32;
    (0x09 <= n <= 0x0D) || n == 0x20 || n == 0x85 || n == 0xA0 || n == 0x1680 || (0x2000 <= n
        <= 0x200A) || n == 0x2028 || n == 0x2029 || n == 0x202F || n == 0x205F || n == 0x3000
}

pub fn char_is_white_space(c: char) -> (b: bool)
    ensures
        b == is_white_space(c),
{
    let n = c as u32;
    (0x09 <= n && n <= 0x0D) || n == 0x20 || n == 0x85 || n == 0xA0 || n == 0x1680 || (0x2000
        <= n && n <= 0x200A) || n == 0x2028 || n == 0x2029 || n == 0x202F || n == 0x205F || n
        == 0x3000
}

/// `s` without leading white space.
pub open spec fn trim_start(s: Seq<char>) -> Seq<char>
    decreases s.len(),
{
    if s.len() > 0 && is_white_space(s[0]) {
        trim_start(s.drop_first())
    } else {
        s
    }
}

/// `s` without trailing white space.
pub open spec fn trim_end(s: Seq<char>) -> Seq<char>
    decreases s.len(),
{
    if s.len() > 0 && is_white_space(s.last()) {
        trim_end(s.drop_last())
    } else {
        s
    }
}

/// `str::trim`: `s` without leading and trailing white space.
pub open spec fn trim(s: Seq<char>) -> Seq<char> {
    trim_end(trim_start(s))
}

/// `s` with every trailing repetition of the nonempty pattern `p` removed.
pub open spec fn strip_suffix_all(s: Seq<char>, p: Seq<char>) -> Seq<char>
    decreases s.len(),
{
    if p.len() > 0 && p.len() <= s.len() && s.skip(s.len() - p.len()) == p {
        strip_suffix_all(s.take(s.len() - p.len()), p)
    } else {
        s
    }
}

pub open spec fn fence() -> Seq<char> {
    seq!['`', '`', '`']
}

pub open spec fn json_fence() -> Seq<char> {
    seq!['`', '`', '`', 'j', 's', 'o', 'n']
}

/// The reply text with markdown code fences a model might add stripped: trimmed, leading
/// ```` ```json ```` and ```` ``` ```` fences and trailing ```` ``` ```` fences removed,
/// trimmed again.
pub open spec fn cleaned_reply(text: Seq<char>) -> Seq<char> {
    trim(
        strip_suffix_all(
            strip_prefix_all(strip_prefix_all(trim(text), json_fence()), fence()),
            fence(),
        ),
    )
}

/// `v[lo..hi]` without leading white space: the new start.
fn skip_white_front(v: &Vec<char>, lo: usize, hi: usize) -> (k: usize)
    requires
        lo <= hi <= v.len(),
    ensures
        lo <= k <= hi,
        v@.subrange(k as int, hi as int) == trim_start(v@.subrange(lo as int, hi as int)),
{
    let mut k = lo;
    while k < hi && char_is_white_space(v[k])
        invariant
            lo <= k <= hi <= v.len(),
            trim_start(v@.subrange(k as int, hi as int)) == trim_start(
                v@.subrange(lo as int, hi as int),
            ),
        decreases hi - k,
    {
        assert(v@.subrange(k as int, hi as int).drop_first() =~= v@.subrange(k + 1, hi as int));
        k = k + 1;
    }
    k
}

/// `v[lo..hi]` without trailing white space: the new end.
fn skip_white_back(v: &Vec<char>, lo: usize, hi: usize) -> (k: usize)
    requires
        lo <= hi <= v.len(),
    ensures
        lo <= k <= hi,
        v@.subrange(lo as int, k as int) == trim_end(v@.subrange(lo as int, hi as int)),
{
    let mut k = hi;
    while k > lo && char_is_white_space(v[k - 1])
        invariant
            lo <= k <= hi <= v.len(),
            trim_end(v@.subrange(lo as int, k as int)) == trim_end(
                v@.subrange(lo as int, hi as int),
            ),
        decreases k,
    {
        assert(v@.subrange(lo as int, k as int).drop_last() =~= v@.subrange(lo as int, k - 1));
        k = k - 1;
    }
    k
}

/// Whether `v[at..]` starts with `p`, within `v[..hi]`.
fn has_prefix_at(v: &Vec<char>, at: usize, hi: usize, p: &Vec<char>) -> (b: bool)
    requires
        at <= hi <= v.len(),
    ensures
        b == (p.len() <= hi - at && v@.subrange(at as int, hi as int).take(p.len() as int) == p@),
{
    if p.len() > hi - at {
        return false;
    }
    let mut j: usize = 0;
    while j < p.len()
        invariant
            p.len() <= hi - at,
            at <= hi <= v.len(),
            j <= p.len(),
            forall|m: int| 0 <= m < j ==> v@[at + m] == p@[m],
        decreases p.len() - j,
    {
        if v[at + j] != p[j] {
            assert(v@.subrange(at as int, hi as int).take(p.len() as int)[j as int] != p@[j as int]);
            return false;
        }
        j = j + 1;
    }
    assert(v@.subrange(at as int, hi as int).take(p.len() as int) =~= p@);
    true
}

/// Whether `v[..hi]` ends with `p`, within `v[lo..]`.
fn has_suffix_at(v: &Vec<char>, lo: usize, hi: usize, p: &Vec<char>) -> (b: bool)
    requires
        lo <= hi <= v.len(),
    ensures
        b == (p.len() <= hi - lo && v@.subrange(lo as int, hi as int).skip(hi - lo - p.len()) == p@),
{
    if p.len() > hi - lo {
        return false;
    }
    let start = hi - p.len();
    let mut j: usize = 0;
    while j < p.len()
        invariant
            p.len() <= hi - lo,
            start == hi - p.len(),
            lo <= hi <= v.len(),
            j <= p.len(),
            forall|m: int| 0 <= m < j ==> v@[start + m] == p@[m],
        decreases p.len() - j,
    {
        if v[start + j] != p[j] {
            assert(v@.subrange(lo as int, hi as int).skip(hi - lo - p.len())[j as int] != p@[j as int]);
            return false;
        }
        j = j + 1;
    }
    assert(v@.subrange(lo as int, hi as int).skip(hi - lo - p.len()) =~= p@);
    true
}

/// Start after every leading repetition of `p` in `v[lo..hi]`.
fn skip_prefixes(v: &Vec<char>, lo: usize, hi: usize, p: &Vec<char>) -> (k: usize)
    requires
        lo <= hi <= v.len(),
        p.len() > 0,
    ensures
        lo <= k <= hi,
        v@.subrange(k as int, hi as int) == strip_prefix_all(v@.subrange(lo as int, hi as int), p@),
{
    let mut k = lo;
    while has_prefix_at(v, k, hi, p)
        invariant
            lo <= k <= hi <= v.len(),
            p.len() > 0,
            strip_prefix_all(v@.subrange(k as int, hi as int), p@) == strip_prefix_all(
                v@.subrange(lo as int, hi as int),
                p@,
            ),
        decreases hi - k,
    {
        assert(v@.subrange(k as int, hi as int).skip(p.len() as int) =~= v@.subrange(
            k + p.len(),
            hi as int,
        ));
        k = k + p.len();
    }
    k
}

/// End before every trailing repetition of `p` in `v[lo..hi]`.
fn skip_suffixes(v: &Vec<char>, lo: usize, hi: usize, p: &Vec<char>) -> (k: usize)
    requires
        lo <= hi <= v.len(),
        p.len() > 0,
    ensures
        lo <= k <= hi,
        v@.subrange(lo as int, k as int) == strip_suffix_all(v@.subrange(lo as int, hi as int), p@),
{
    let mut k = hi;
    while has_suffix_at(v, lo, k, p)
        invariant
            lo <= k <= hi <= v.len(),
            p.len() > 0,
            strip_suffix_all(v@.subrange(lo as int, k as int), p@) == strip_suffix_all(
                v@.subrange(lo as int, hi as int),
                p@,
            ),
        decreases k,
    {
        assert(v@.subrange(lo as int, k as int).take(k - lo - p.len()) =~= v@.subrange(
            lo as int,
            k - p.len(),
        ));
        k = k - p.len();
    }
    k
}

fn fence_chars(with_json: bool) -> (p: Vec<char>)
    ensures
        p@ == if with_json {
            json_fence()
        } else {
            fence()
        },
{
    let mut p: Vec<char> = Vec::new();
    p.push('`');
    p.push('`');
    p.push('`');
    if with_json {
        p.push('j');
        p.push('s');
        p.push('o');
        p.push('n');
    }
    assert(p@ =~= if with_json {
        json_fence()
    } else {
        fence()
    });
    p
}

/// Strip any markdown code fences the model might add around its JSON reply.
pub fn clean_reply(text: &str) -> (r: String)
    ensures
        r@ == cleaned_reply(text@),
{
    let v = chars_of(text);
    let n = v.len();
    let a = skip_white_front(&v, 0, n);
    let b = skip_white_back(&v, a, n);
    proof {
        assert(v@.subrange(0, n as int) =~= text@);
    }
    let json = fence_chars(true);
    let plain = fence_chars(false);
    let c = skip_prefixes(&v, a, b, &json);
    let d = skip_prefixes(&v, c, b, &plain);
    let e = skip_suffixes(&v, d, b, &plain);
    let f = skip_white_front(&v, d, e);
    let g = skip_white_back(&v, f, e);
    let mut r = String::new();
    let mut i = f;
    while i < g
        invariant
            f <= i <= g <= v.len(),
            r@ == v@.subrange(f as int, i as int),
        decreases g - i,
    {
        push_char(&mut r, v[i]);
        i = i + 1;
        assert(r@ =~= v@.subrange(f as int, i as int));
    }
    r
}

/// The codepoint and name read from a reply, with the fallbacks for missing fields:
/// `U+FFFD` for the codepoint, put in upper case, and `UNKNOWN` for the name.
pub fn reply_label(unicode: &Option<String>, name: &Option<String>) -> (r: (String, String))
    ensures
        r.0@ == str_uppercase(
            match unicode {
                Some(u) => u@,
                None => "U+FFFD"@,
            },
        ),
        r.1@ == match name {
            Some(n) => n@,
            None => "UNKNOWN"@,
        },
{
    let u = match unicode {
        Some(u) => to_uppercase(u.as_str()),
        None => to_uppercase("U+FFFD"),
    };
    let n = match name {
        Some(n) => n.clone(),
        None => String::from_str("UNKNOWN"),
    };
    (u, n)
}

} // verus!
