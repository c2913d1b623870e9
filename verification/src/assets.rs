//! Embedded stylesheets: their fingerprint, and the text and outcome of their compilation to CSS.

use vstd::prelude::*;
use vstd::string::StringExecFns;
use vstd::utf8::{decode_utf8, valid_utf8};

use crate::err::Error;

verus! {

/// An embedded file: its path and, when it could be read, its bytes.
pub struct Asset {
    pub path: String,
    pub data: Option<Vec<u8>>,
}

/// The lowercase hexadecimal BLAKE3 digest of some bytes.
pub uninterp spec fn blake3_hex(data: Seq<u8>) -> Seq<char>;

pub open spec fn is_lower_hex(c: char) -> bool {
    ('0' <= c && c <= '9') || ('a' <= c && c <= 'f')
}

/// Calls `blake3::hash` and `Hash::to_hex`. Claimed: the result is
/// `blake3_hex` of the bytes, 64 lowercase hexadecimal digits (as the
/// crate's `to_hex` writes them).
#[verifier::external_body]
fn blake3_hex_digest(data: &[u8]) -> (res: String)
    ensures
        res@ == blake3_hex(data@),
        res@.len() == 64,
        forall|i: int| 0 <= i < res@.len() ==> is_lower_hex(#[trigger] res@[i]),
{
    blake3::hash(data).to_hex().to_string()
}

pub open spec fn is_scss_path(p: Seq<char>) -> bool {
    p.len() >= 4 && p.subrange(p.len() - 4, p.len() as int) == seq!['s', 'c', 's', 's']
}

/// The bytes of the stylesheet sources, one after the other: the assets
/// whose path ends in `scss` and whose data could be read.
pub open spec fn scss_bytes(assets: Seq<Asset>) -> Seq<u8>
    decreases assets.len(),
{
    if assets.len() == 0 {
        Seq::empty()
    } else {
        let a = assets.last();
        scss_bytes(assets.drop_last()) + if is_scss_path(a.path@) && a.data is Some {
            a.data.unwrap()@
        } else {
            Seq::<u8>::empty()
        }
    }
}

fn ends_with_scss(p: &String) -> (res: bool)
    ensures
        res == is_scss_path(p@),
{
    let cs = crate::text::chars_of(p.as_str());
    let n = cs.len();
    let r = n >= 4 && cs[n - 4] == 's' && cs[n - 3] == 'c' && cs[n - 2] == 's' && cs[n - 1] == 's';
    proof {
        if n >= 4 {
            if r {
                assert(cs@.subrange(n - 4, n as int) =~= seq!['s', 'c', 's', 's']);
            } else {
                let t = cs@.subrange(n - 4, n as int);
                assert(t[0] == cs@[n - 4] && t[1] == cs@[n - 3] && t[2] == cs@[n - 2] && t[3]
                    == cs@[n - 1]);
            }
        }
    }
    r
}

/// A fingerprint of the stylesheets: the BLAKE3 digest, in hexadecimal, of
/// the stylesheet sources in order.
pub fn hash_scss(assets: &Vec<Asset>) -> (res: String)
    ensures
        res@ == blake3_hex(scss_bytes(assets@)),
{
    let mut bytes: Vec<u8> = Vec::new();
    for i in 0..assets.len()
        invariant
            bytes@ == scss_bytes(assets@.take(i as int)),
    {
        assert(assets@.take(i + 1).drop_last() =~= assets@.take(i as int));
        assert(assets@.take(i + 1).last() == assets@[i as int]);
        let a = &assets[i];
        if ends_with_scss(&a.path) {
            match &a.data {
                Some(d) => {
                    let ghost start = bytes@;
                    for k in 0..d.len()
                        invariant
                            bytes@ == start + d@.take(k as int),
                    {
                        bytes.push(d[k]);
                        assert(d@.take(k + 1) =~= d@.take(k as int).push(d@[k as int]));
                    }
                    assert(d@.take(d.len() as int) =~= d@);
                },
                None => {
                    assert(bytes@ =~= bytes@ + Seq::<u8>::empty());
                },
            }
        } else {
            assert(bytes@ =~= bytes@ + Seq::<u8>::empty());
        }
    }
    assert(assets@.take(assets.len() as int) =~= assets@);
    blake3_hex_digest(bytes.as_slice())
}

/// Calls `String::from_utf8`. Claimed, as std documents it: it succeeds
/// exactly on valid UTF-8, with the decoded characters; the error's message
/// is not described.
#[verifier::external_body]
fn string_from_utf8(bytes: Vec<u8>) -> (res: Result<String, String>)
    ensures
        res.is_ok() == valid_utf8(bytes@),
        res.is_ok() ==> res.unwrap()@ == decode_utf8(bytes@),
{
    String::from_utf8(bytes).map_err(|e| e.to_string())
}

pub open spec fn missing_stylesheet() -> Seq<char> {
    "this should never fail."@
}

/// The text of the main stylesheet, ready for the Sass compiler. Fails when
/// the stylesheet is missing or is not UTF-8.
pub fn stylesheet_source(main_scss: Option<Vec<u8>>) -> (res: Result<String, Error>)
    ensures
        main_scss is None ==> (res matches Err(Error::Internal(m)) && m@ == missing_stylesheet()),
        main_scss matches Some(b) && !valid_utf8(b@) ==> (res matches Err(Error::Internal(_))),
        main_scss matches Some(b) ==> (valid_utf8(b@) ==> (res matches Ok(s) && s@ == decode_utf8(
            b@,
        ))),
{
    let bytes = match main_scss {
        Some(b) => b,
        None => {
            return Err(Error::Internal(String::from_str("this should never fail.")));
        },
    };
    match string_from_utf8(bytes) {
        Ok(s) => Ok(s),
        Err(m) => Err(Error::Internal(m)),
    }
}

/// What the site makes of the compiler's outcome: the CSS as it came, or
/// the compiler's message as a Sass error.
pub fn compiled_css(outcome: Result<String, String>) -> (res: Result<String, Error>)
    ensures
        outcome matches Ok(css) ==> (res matches Ok(r) && r@ == css@),
        outcome matches Err(m) ==> (res matches Err(Error::Sass(e)) && e@ == m@),
{
    match outcome {
        Ok(css) => Ok(css),
        Err(m) => Err(Error::Sass(m)),
    }
}

} // verus!
