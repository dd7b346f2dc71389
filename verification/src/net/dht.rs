//! Room discovery links. A room is shared as `pixm://join/<room id in hex>`.
//! The DHT node itself (announce, resolve, revoke) runs in the application.
use vstd::prelude::*;

use vstd::string::StringSliceAdditionalSpecFns;

use crate::net::protocol::{RoomId, ascii_chars, ascii_string, hex_bytes, hex_decode, hex_text};

verus! {

/// Bootstrap nodes of the public BitTorrent DHT: nothing to host.
pub const BOOTSTRAP_NODES: [&'static str; 3] = [
    "router.bittorrent.com:6881",
    "router.utorrent.com:6881",
    "dht.transmissionbt.com:6881",
];

/// The scheme and path in front of a room id.
pub open spec fn join_prefix() -> Seq<char> {
    seq!['p', 'i', 'x', 'm', ':', '/', '/', 'j', 'o', 'i', 'n', '/']
}

/// A character with the Unicode `White_Space` property, which is what
/// `char::is_whitespace` and `str::trim` go by.
pub open spec fn is_white_space(c: char) -> bool {
    ||| '\t' <= c <= '\r'
    ||| c == ' '
    ||| c == '\u{85}'
    ||| c == '\u{A0}'
    ||| c == '\u{1680}'
    ||| '\u{2000}' <= c <= '\u{200A}'
    ||| c == '\u{2028}'
    ||| c == '\u{2029}'
    ||| c == '\u{202F}'
    ||| c == '\u{205F}'
    ||| c == '\u{3000}'
}

/// The text without its leading whitespace.
pub open spec fn trim_start(s: Seq<char>) -> Seq<char>
    decreases s.len(),
{
    if s.len() > 0 && is_white_space(s[0]) {
        trim_start(s.drop_first())
    } else {
        s
    }
}

/// The text without its trailing whitespace.
pub open spec fn trim_end(s: Seq<char>) -> Seq<char>
    decreases s.len(),
{
    if s.len() > 0 && is_white_space(s.last()) {
        trim_end(s.drop_last())
    } else {
        s
    }
}

/// What `str::trim` leaves of a text: the text without its leading and
/// trailing whitespace.
pub open spec fn trimmed(s: Seq<char>) -> Seq<char> {
    trim_end(trim_start(s))
}

/// ASCII letters and digits: never whitespace.
pub open spec fn alphanumeric(s: Seq<char>) -> bool {
    forall|i: int|
        0 <= i < s.len() ==> ('0' <= #[trigger] s[i] <= '9' || 'a' <= s[i] <= 'z' || 'A' <= s[i]
            <= 'Z')
}

/// `str::strip_prefix`: the rest of `s` when it starts with `prefix`.
#[verifier::external_body]
fn strip_prefix<'a>(s: &'a str, prefix: &str) -> (r: Option<&'a str>)
    ensures
        match r {
            Some(rest) => s@ == prefix@ + rest@,
            None => !(prefix@.len() <= s@.len() && s@.subrange(0, prefix@.len() as int)
                == prefix@),
        },
{
    s.strip_prefix(prefix)
}

/// `str::trim`: `s` without leading and trailing whitespace.
#[verifier::external_body]
fn trim(s: &str) -> (r: &str)
    ensures
        r@ == trimmed(s@),
{
    s.trim()
}

/// The link `pixm://join/<room_id>` to share.
pub fn make_join_link(room_id: &RoomId) -> (r: String)
    ensures
        r@ == join_prefix() + ascii_chars(hex_text(room_id.0@)),
{
    // "pixm://join/"
    let mut bytes: Vec<u8> = vec![112, 105, 120, 109, 58, 47, 47, 106, 111, 105, 110, 47];
    let hex = hex_bytes(room_id);
    let ghost head = bytes@;
    let mut i: usize = 0;
    while i < hex.len()
        invariant
            i <= hex@.len(),
            bytes@ == head + hex@.subrange(0, i as int),
            head.len() == 12,
            forall|k: int| 0 <= k < 12 ==> head[k] < 128,
            forall|k: int| 0 <= k < hex@.len() ==> hex@[k] < 128,
        decreases hex@.len() - i,
    {
        bytes.push(hex[i]);
        i = i + 1;
        proof {
            assert(bytes@ =~= head + hex@.subrange(0, i as int));
        }
    }
    proof {
        assert(hex@.subrange(0, hex@.len() as int) =~= hex@);
        assert(ascii_chars(head) =~= join_prefix());
        assert(ascii_chars(head + hex@) =~= ascii_chars(head) + ascii_chars(hex@));
    }
    ascii_string(bytes)
}

/// The room id of a `pixm://join/<hex>` link (surrounding whitespace of the
/// hex part ignored); `None` for any other text.
pub fn parse_join_link(link: &str) -> (r: Option<RoomId>)
    ensures
        ({
            let starts = join_prefix().len() <= link@.len() && link@.subrange(0, 12)
                == join_prefix();
            let decoded = hex_decode(
                vstd::utf8::encode_utf8(trimmed(link@.subrange(12, link@.len() as int))),
            );
            &&& r is Some <==> starts && decoded is Some
            &&& r matches Some(id) ==> decoded == Some(id.0@)
        }),
        forall|b: Seq<u8>|
            b.len() == 32 && link@ == join_prefix() + ascii_chars(#[trigger] hex_text(b)) ==> (
            r matches Some(id) && id.0@ == b),
        ({
            let rest = link@.subrange(12, link@.len() as int);
            join_prefix().len() <= link@.len() && link@.subrange(0, 12) == join_prefix()
                && alphanumeric(rest) ==> trimmed(rest) == rest
        }),
{
    let prefix = "pixm://join/";
    proof {
        reveal_strlit("pixm://join/");
        assert(prefix@ =~= join_prefix());
    }
    let rest = match strip_prefix(link, prefix) {
        Some(rest) => rest,
        None => {
            proof {
                assert forall|b: Seq<u8>|
                    b.len() == 32 && link@ == join_prefix() + ascii_chars(
                        #[trigger] hex_text(b),
                    ) implies false by {
                    law_join_link_roundtrip(b);
                }
            }
            return None;
        },
    };
    proof {
        assert(rest@ =~= link@.subrange(12, link@.len() as int));
        assert(link@.subrange(0, 12) =~= join_prefix());
    }
    let hex = trim(rest);
    let r = RoomId::from_hex(hex);
    proof {
        lemma_alphanumeric_untrimmed(rest@);
        assert forall|b: Seq<u8>|
            b.len() == 32 && link@ == join_prefix() + ascii_chars(#[trigger] hex_text(b)) implies (
            r matches Some(id) && id.0@ == b) by {
            law_join_link_roundtrip(b);
            assert(rest@ == ascii_chars(hex_text(b)));
            lemma_alphanumeric_untrimmed(rest@);
            assert(hex@ == rest@);
        }
    }
    r
}

/// Trimming leaves a text of ASCII letters and digits as it is.
pub proof fn lemma_alphanumeric_untrimmed(s: Seq<char>)
    ensures
        alphanumeric(s) ==> trimmed(s) == s,
{
    if alphanumeric(s) && s.len() > 0 {
        assert(!is_white_space(s[0]));
        assert(trim_start(s) == s);
        assert(s.last() == s[s.len() - 1]);
        assert(!is_white_space(s.last()));
    }
}

/// A join link made from a room id parses back to it: the link starts with
/// the prefix, what follows is the id's hex text, which consists of ASCII
/// letters and digits (left alone by trimming), and that text decodes to
/// the id's bytes.
pub proof fn law_join_link_roundtrip(b: Seq<u8>)
    requires
        b.len() == 32,
    ensures
        ({
            let link = join_prefix() + ascii_chars(hex_text(b));
            &&& link.subrange(0, 12) == join_prefix()
            &&& link.subrange(12, link.len() as int) == ascii_chars(hex_text(b))
            &&& alphanumeric(ascii_chars(hex_text(b)))
            &&& hex_decode(vstd::utf8::encode_utf8(ascii_chars(hex_text(b)))) == Some(b)
        }),
{
    let t = hex_text(b);
    let c = ascii_chars(t);
    let link = join_prefix() + c;
    assert(link.subrange(0, 12) =~= join_prefix());
    assert(link.subrange(12, link.len() as int) =~= c);
    assert(vstd::utf8::is_ascii_chars(c));
    vstd::utf8::is_ascii_chars_encode_utf8(c);
    assert(vstd::utf8::encode_utf8(c) =~= t);
    crate::net::protocol::law_hex_roundtrip(b);
}

} // verus!
