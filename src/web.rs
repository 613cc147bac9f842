use vstd::prelude::*;
use vstd::string::StringSliceAdditionalSpecFns;
use vstd::utf8::{
    decode_utf8,
    encode_scalar,
    encode_utf8,
    encode_utf8_decode_utf8,
    encode_utf8_first_scalar,
    is_char_boundary,
    leading_byte_width_1,
    leading_byte_width_2,
    leading_byte_width_3,
    leading_byte_width_4,
    pop_first_scalar,
};

use crate::naming::extension_of;

verus! {

/// The MIME type `mime_guess` gives a path, as text.
pub uninterp spec fn mime_of(path: Seq<char>) -> Seq<char>;

/// Relies on `mime_guess::from_path` and `MimeGuess::first_or_octet_stream`: the first MIME
/// type registered for the path's extension, `application/octet-stream` where the path has no
/// extension.
#[verifier::external_body]
fn guess_mime(path: &str) -> (r: String)
    ensures
        r@ == mime_of(path@),
        extension_of(path@) is None ==> r@ == "application/octet-stream"@,
{
    mime_guess::from_path(path).first_or_octet_stream().to_string()
}

/// The name an embedded asset is stored under: the request path without its leading `/`.
pub open spec fn asset_key(path: Seq<char>) -> Seq<char> {
    if path.len() > 0 && path[0] == '/' {
        path.drop_first()
    } else {
        path
    }
}

/// The first byte of a character's UTF-8 encoding is `/` exactly for `/`.
proof fn lemma_slash_byte(c: char)
    ensures
        (encode_scalar(c as u32)[0] == 0x2Fu8) == (c == '/'),
        c == '/' ==> encode_scalar(c as u32).len() == 1,
{
    let s = c as u32;
    vstd::utf8::char_is_scalar(c);
    if s <= 0x7F {
        assert((leading_byte_width_1(s) == 0x2Fu8) == (s == 0x2F)) by (bit_vector)
            requires
                s <= 0x7F,
        ;
        if s == 0x2F {
            assert(c == '/') by {
                vstd::utf8::char_u32_cast(c, s);
                vstd::utf8::char_u32_cast('/', 0x2Fu32);
            }
        }
    } else if s <= 0x7FF {
        assert(leading_byte_width_2(s) != 0x2Fu8) by (bit_vector);
        assert(('/' as u32) == 0x2F);
    } else if s <= 0xFFFF {
        assert(leading_byte_width_3(s) != 0x2Fu8) by (bit_vector);
        assert(('/' as u32) == 0x2F);
    } else {
        assert(leading_byte_width_4(s) != 0x2Fu8) by (bit_vector);
        assert(('/' as u32) == 0x2F);
    }
}

/// The name the asset for request path `path` is stored under.
pub fn asset_key_of(path: &str) -> (r: &str)
    ensures
        r@ == asset_key(path@),
{
    let bytes = path.as_bytes();
    let cs = Ghost(path@);
    proof {
        if cs@.len() > 0 {
            encode_utf8_first_scalar(cs@);
            lemma_slash_byte(cs@[0]);
            assert(encode_utf8(cs@) == encode_scalar(cs@[0] as u32) + encode_utf8(cs@.drop_first()));
        }
    }
    if bytes.len() > 0 && bytes[0] == 0x2F {
        proof {
            let b = encode_utf8(cs@);
            vstd::utf8::encode_utf8_valid_utf8(cs@);
            assert(pop_first_scalar(b) =~= encode_utf8(cs@.drop_first()));
            assert(is_char_boundary(pop_first_scalar(b), 0));
            assert(is_char_boundary(b, 1));
        }
        let (_, rest) = path.split_at(1);
        proof {
            encode_utf8_decode_utf8(rest@);
            encode_utf8_decode_utf8(cs@.drop_first());
            assert(rest.spec_bytes() =~= encode_utf8(cs@.drop_first()));
            assert(decode_utf8(encode_utf8(rest@)) == rest@);
        }
        rest
    } else {
        path
    }
}

/// How an asset request is answered: its status, and the content type of a found asset.
pub struct AssetReply {
    pub status: u16,
    pub content_type: Option<String>,
}

/// The reply to a request for the asset stored under `key`, `found` or not: 200 with the
/// MIME type of the key, or 404 (with the not-found page, which has no type of its own).
pub fn asset_reply(key: &str, found: bool) -> (r: AssetReply)
    ensures
        found ==> r.status == 200 && (r.content_type matches Some(t) && t@ == mime_of(key@)),
        !found ==> r.status == 404 && r.content_type is None,
{
    if found {
        AssetReply { status: 200, content_type: Some(guess_mime(key)) }
    } else {
        AssetReply { status: 404, content_type: None }
    }
}

} // verus!
