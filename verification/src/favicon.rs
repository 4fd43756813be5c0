//! The favicon hash: the MurmurHash3 (32-bit, seed 0) of the icon's base64 text,
//! broken into lines of 76 characters each ending in a newline.

use vstd::prelude::*;
use vstd::utf8::encode_utf8;
use crate::text::{chars_of, decimal, decimal_string, push_char, signed_decimal};
use vstd::string::StringExecFns;
use crate::weburl::{parse_url, url_parse};
use base64::Engine;

verus! {

/// What `base64::engine::general_purpose::STANDARD.encode(bytes)` gives.
pub uninterp spec fn base64_standard(bytes: Seq<u8>) -> Seq<char>;

/// What `murmur3::murmur3_32` computes over `data` with `seed` when reading succeeds.
pub uninterp spec fn murmur3_32_hash(data: Seq<u8>, seed: u32) -> u32;

/// The characters of the standard base64 alphabet with padding (`A`-`Z`, `a`-`z`,
/// `0`-`9`, `+`, `/`, `=`).
pub open spec fn is_base64_char(c: char) -> bool {
    ('A' <= c && c <= 'Z') || ('a' <= c && c <= 'z') || ('0' <= c && c <= '9') || c == '+' || c
        == '/' || c == '='
}

/// `s` cut into lines of 76 characters (the last one possibly shorter), each followed
/// by a newline: the chunks joined with `\n`, then a final `\n`.
pub open spec fn wrap76(s: Seq<char>) -> Seq<char>
    decreases s.len(),
{
    if s.len() <= 76 {
        s.push('\n')
    } else {
        s.take(76).push('\n') + wrap76(s.skip(76))
    }
}

/// The text that is hashed for an icon with content `bytes`.
pub open spec fn icon_hash_input(bytes: Seq<u8>) -> Seq<char> {
    wrap76(base64_standard(bytes))
}

/// The hash as a signed 32-bit number (`as i32`).
pub open spec fn as_signed(h: u32) -> int {
    if h >= 2147483648 {
        h - 4294967296
    } else {
        h as int
    }
}

/// `STANDARD.encode(bytes)` of the `base64` crate (the standard alphabet with `=`
/// padding). The result is the named `base64_standard` of `bytes`; its characters are
/// from the base64 alphabet and it has four characters for every three bytes or part
/// thereof, as RFC 4648 encoding with padding does.
#[verifier::external_body]
pub(crate) fn base64_encode(bytes: &[u8]) -> (r: String)
    requires
        bytes@.len() <= usize::MAX / 2,
    ensures
        r@ == base64_standard(bytes@),
        r@.len() == 4 * ((bytes@.len() + 2) / 3),
        forall|i: int| 0 <= i < r@.len() ==> is_base64_char(#[trigger] r@[i]),
{
    base64::engine::general_purpose::STANDARD.encode(bytes)
}

/// `murmur3::murmur3_32` over the bytes of `data`, read through `&[u8]`'s `Read`.
/// The result is the named `murmur3_32_hash` of the arguments, and it is always
/// returned: the crate's source gives an `Err` only when a read of the source fails,
/// and reading from a `&[u8]` copies from the slice (std's documentation of
/// `impl Read for &[u8]`), which does not fail. The byte counter of the crate is a
/// `u32`, hence the bound on the length.
#[verifier::external_body]
pub(crate) fn murmur3_32_of(data: &[u8], seed: u32) -> (r: Option<u32>)
    requires
        data@.len() < 4294967296,
    ensures
        r == Some(murmur3_32_hash(data@, seed)),
{
    let mut source: &[u8] = data;
    murmur3::murmur3_32(&mut source, seed).ok()
}

/// The base64 text cut into lines of 76 characters, each ending in `\n`.
pub fn wrap_base64(b64: &str) -> (r: String)
    ensures
        r@ == wrap76(b64@),
{
    let cs = chars_of(b64);
    let mut r = String::new();
    let mut pos: usize = 0;
    assert(b64@.skip(0) =~= b64@);
    loop
        invariant
            cs@ == b64@,
            pos <= cs@.len(),
            wrap76(b64@) == r@ + wrap76(b64@.skip(pos as int)),
        decreases cs@.len() - pos,
    {
        let ghost rest = b64@.skip(pos as int);
        let end = if cs.len() - pos <= 76 {
            cs.len()
        } else {
            pos + 76
        };
        let ghost before = r@;
        let mut k = pos;
        while k < end
            invariant
                cs@ == b64@,
                pos <= k <= end <= cs@.len(),
                r@ == before + cs@.subrange(pos as int, k as int),
            decreases end - k,
        {
            push_char(&mut r, cs[k]);
            k = k + 1;
            assert(r@ =~= before + cs@.subrange(pos as int, k as int));
        }
        push_char(&mut r, '\n');
        if end == cs.len() {
            assert(cs@.subrange(pos as int, end as int) =~= rest);
            assert(r@ =~= before + wrap76(rest));
            return r;
        }
        assert(cs@.subrange(pos as int, end as int) =~= rest.take(76));
        assert(rest.skip(76) =~= b64@.skip(end as int));
        assert(r@ =~= before + rest.take(76).push('\n'));
        pos = end;
    }
}

/// The favicon hash as this pipeline writes it: the `u32` in unsigned decimal.
pub fn hash_text_unsigned(h: u32) -> (r: String)
    ensures
        r@ == decimal(h as nat),
{
    decimal_string(h as u64)
}

/// The hash as FOFA writes it: the hash read as an `i32`, in decimal.
pub fn hash_text_signed(h: u32) -> (r: String)
    ensures
        r@ == signed_decimal(as_signed(h)),
{
    if h >= 2147483648 {
        let digits = decimal_string((4294967296 - h as u64) as u64);
        let mut r = String::new();
        push_char(&mut r, '-');
        r.append(digits.as_str());
        r
    } else {
        decimal_string(h as u64)
    }
}

/// The length of the base64 text of `n` bytes: four characters for every three bytes
/// or part thereof.
pub open spec fn base64_len(n: nat) -> nat {
    4 * ((n + 2) / 3)
}

/// The length of `wrap76` of a text of `n` characters: one newline per line of at most
/// 76 characters, and a single newline for an empty text.
pub open spec fn wrapped_len(n: nat) -> nat {
    if n == 0 {
        1
    } else {
        n + (n + 75) / 76
    }
}

/// An icon of `n` bytes can be hashed on this machine: its base64 length fits the
/// encoder's `usize` arithmetic, and the wrapped text is shorter than 2^32 bytes, the
/// range of the hash's `u32` byte counter.
pub open spec fn icon_hashable(n: nat) -> bool {
    n <= usize::MAX / 2 && wrapped_len(base64_len(n)) < 4294967296
}

/// `wrap76` adds exactly one newline per line.
proof fn lemma_wrap76_exact_len(s: Seq<char>)
    ensures
        wrap76(s).len() == wrapped_len(s.len()),
    decreases s.len(),
{
    if s.len() > 76 {
        lemma_wrap76_exact_len(s.skip(76));
        let n = s.len() as int;
        assert((n + 75) / 76 == 1 + (n - 76 + 75) / 76);
    } else if s.len() > 0 {
        assert((s.len() + 75) / 76 == 1);
    }
}

/// Whether an icon of `len` bytes can be hashed, as `icon_hashable`.
pub fn icon_fits(len: usize) -> (r: bool)
    ensures
        r == icon_hashable(len as nat),
{
    if len > usize::MAX / 2 {
        return false;
    }
    let n = len as u128;
    let e = 4 * ((n + 2) / 3);
    let w: u128 = if e == 0 {
        1
    } else {
        e + (e + 75) / 76
    };
    w < 4294967296
}

/// The murmur3 hash of an icon's content, prepared as FOFA does: base64,
/// lines of 76 characters ending in `\n`, hashed with seed 0. Reading the prepared
/// text from memory does not fail, so the hash is always there.
pub fn icon_hash(bytes: &[u8]) -> (r: Option<u32>)
    requires
        icon_hashable(bytes@.len()),
    ensures
        r == Some(murmur3_32_hash(encode_utf8(icon_hash_input(bytes@)), 0)),
{
    let b64 = base64_encode(bytes);
    let text = wrap_base64(b64.as_str());
    proof {
        lemma_wrap76_len(b64@);
        lemma_wrap76_exact_len(b64@);
        lemma_encode_ascii(text@);
    }
    murmur3_32_of(text.as_str().as_bytes(), 0)
}

/// The favicon hash of an icon with content `bytes` (the part of `download_and_hash`
/// after the download): the unsigned decimal of `icon_hash`.
pub fn favicon_hash_from_bytes(bytes: &[u8]) -> (r: Option<String>)
    requires
        icon_hashable(bytes@.len()),
    ensures
        r matches Some(s) && s@ == decimal(
            murmur3_32_hash(encode_utf8(icon_hash_input(bytes@)), 0) as nat,
        ),
{
    match icon_hash(bytes) {
        Some(h) => Some(hash_text_unsigned(h)),
        None => None,
    }
}

/// The address `fetch_favicon_hash` downloads for a page URL: the page URL itself, as
/// `url::Url::parse` serializes it, or `None` when it does not parse. (The
/// `favicon.ico` address resolved against it is not what is downloaded.)
pub fn favicon_source_url(url: &str) -> (r: Option<String>)
    ensures
        match url_parse(url@) {
            Some((_, serialized)) => r matches Some(s) && s@ == serialized,
            None => r is None,
        },
{
    match parse_url(url) {
        Some((_, serialized)) => Some(serialized),
        None => None,
    }
}

/// A wrapped text is at most one newline per 76 characters longer, plus one.
proof fn lemma_wrap76_len(s: Seq<char>)
    ensures
        wrap76(s).len() <= s.len() + s.len() / 76 + 1,
        (forall|i: int| 0 <= i < s.len() ==> is_base64_char(#[trigger] s[i])) ==> forall|i: int|
            0 <= i < wrap76(s).len() ==> (#[trigger] wrap76(s)[i] == '\n' || is_base64_char(
                wrap76(s)[i],
            )),
    decreases s.len(),
{
    if s.len() > 76 {
        lemma_wrap76_len(s.skip(76));
        let w = wrap76(s);
        let head = s.take(76).push('\n');
        assert(w == head + wrap76(s.skip(76)));
        if forall|i: int| 0 <= i < s.len() ==> is_base64_char(#[trigger] s[i]) {
            assert forall|i: int| 0 <= i < w.len() implies (#[trigger] w[i] == '\n'
                || is_base64_char(w[i])) by {
                if i >= 77 {
                    assert(w[i] == wrap76(s.skip(76))[i - 77]);
                    assert(s.skip(76)[i - 77 - 0] == s.skip(76)[i - 77]);
                }
            }
        }
    }
}

/// The UTF-8 encoding of an ASCII text has one byte per character.
proof fn lemma_encode_ascii(s: Seq<char>)
    requires
        forall|i: int| 0 <= i < s.len() ==> ((#[trigger] s[i]) as u32) < 128,
    ensures
        encode_utf8(s).len() == s.len(),
    decreases s.len(),
{
    if s.len() > 0 {
        lemma_encode_ascii(s.drop_first());
        reveal_with_fuel(encode_utf8, 1);
    }
}

} // verus!
