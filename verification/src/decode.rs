//! The decoder.
//!
//! A document arrives as UTF-8 JSON bytes. Every object carries a `type`
//! field whose value is `"folder"` or `"item"`: a folder's remaining fields
//! map child names to nested objects, and an item carries exactly one more
//! field, `text`, holding a string. The decoder is specified against a
//! recursive parser over the byte sequence ([`parse_value_spec`]) followed
//! by an interpretation of the parsed shape ([`interp_value_spec`]);
//! [`decode`] returns exactly what that specification says, and never a
//! partial tree.

use vstd::prelude::*;
use vstd::utf8::decode_utf8;
use vstd::utf8::encode_scalar;
use vstd::utf8::is_scalar;
use vstd::utf8::valid_utf8;

use crate::model::JsonObject;
use crate::model::FolderAsset;
use crate::model::ItemAsset;
use crate::model::NodeV;
use crate::model::RootAsset;
use crate::model::children_view;
use crate::model::child_names;
use crate::model::lemma_wf_children_from_each;
use crate::model::node_view;
use crate::model::wf_node;
use crate::paths::str_eq;

verus! {

/// Why a document was rejected: bytes that are not well-formed, a `type`
/// discriminator that is neither `"folder"` nor `"item"`, a shape that does
/// not match its discriminator, or a duplicated child name.
#[derive(Clone, Copy, PartialEq, Eq, Structural, Debug)]
pub enum DecodeError {
    Syntax,
    UnknownTag,
    Shape,
    DuplicateName,
}

/// A parsed value before interpretation: a string, or an object listing its
/// fields in order.
pub enum RawValue {
    Str(String),
    Obj(Vec<(String, RawValue)>),
}

/// The abstraction of a parsed value.
pub enum RawV {
    Str(Seq<char>),
    Obj(Seq<(Seq<char>, RawV)>),
}

/// The abstraction of one parsed value.
pub open spec fn raw_view(v: RawValue) -> RawV
    decreases v, 1int,
{
    match v {
        RawValue::Str(s) => RawV::Str(s@),
        RawValue::Obj(ms) => RawV::Obj(members_view(ms@, 0)),
    }
}

/// The abstraction of the parsed members from index `k` on.
pub open spec fn members_view(ms: Seq<(String, RawValue)>, k: int) -> Seq<(Seq<char>, RawV)>
    decreases ms, ms.len() - k,
{
    if 0 <= k < ms.len() {
        seq![(ms[k].0@, raw_view(ms[k].1))] + members_view(ms, k + 1)
    } else {
        Seq::empty()
    }
}

/// Index form of [`members_view`].
proof fn lemma_members_view_index(ms: Seq<(String, RawValue)>, k: int)
    requires
        0 <= k <= ms.len(),
    ensures
        members_view(ms, k).len() == ms.len() - k,
        forall|j: int|
            0 <= j < ms.len() - k ==> #[trigger] members_view(ms, k)[j] == (
            ms[j + k].0@,
            raw_view(ms[j + k].1),
            ),
    decreases ms.len() - k,
{
    if k < ms.len() {
        lemma_members_view_index(ms, k + 1);
        assert forall|j: int| 0 <= j < ms.len() - k implies #[trigger] members_view(ms, k)[j] == (
        ms[j + k].0@, raw_view(ms[j + k].1)) by {
            if j > 0 {
                assert(members_view(ms, k)[j] == members_view(ms, k + 1)[j - 1]);
            }
        }
    }
}

/// JSON insignificant whitespace: space, tab, line feed, carriage return.
pub open spec fn is_ws(b: u8) -> bool {
    b == 32 || b == 9 || b == 10 || b == 13
}

/// The first index at or after `i` holding a byte that is not whitespace.
pub open spec fn skip_ws_spec(s: Seq<u8>, i: int) -> int
    decreases s.len() - i,
{
    if 0 <= i < s.len() && is_ws(s[i]) {
        skip_ws_spec(s, i + 1)
    } else {
        i
    }
}

/// What a one-character escape after a backslash stands for, if anything.
pub open spec fn unescape_spec(b: u8) -> Option<u8> {
    if b == 34 {
        Some(34u8)  // quotation mark
    } else if b == 92 {
        Some(92u8)  // backslash
    } else if b == 47 {
        Some(47u8)  // solidus
    } else if b == 98 {
        Some(8u8)  // backspace
    } else if b == 102 {
        Some(12u8)  // form feed
    } else if b == 110 {
        Some(10u8)  // line feed
    } else if b == 114 {
        Some(13u8)  // carriage return
    } else if b == 116 {
        Some(9u8)  // tab
    } else {
        None
    }
}

/// The value of one hexadecimal digit, if the byte is one.
pub open spec fn hex_val(b: u8) -> Option<u32> {
    if 48 <= b <= 57 {  // '0' to '9'
        Some((b - 48) as u32)
    } else if 97 <= b <= 102 {  // 'a' to 'f'
        Some((b - 87) as u32)
    } else if 65 <= b <= 70 {  // 'A' to 'F'
        Some((b - 55) as u32)
    } else {
        None
    }
}

/// The value of the four hexadecimal digits starting at `i`, if they are
/// there.
pub open spec fn hex4_spec(s: Seq<u8>, i: int) -> Option<u32> {
    if i + 4 <= s.len() && hex_val(s[i]) is Some && hex_val(s[i + 1]) is Some && hex_val(
        s[i + 2],
    ) is Some && hex_val(s[i + 3]) is Some {
        Some(
            (hex_val(s[i])->0 * 0x1000 + hex_val(s[i + 1])->0 * 0x100 + hex_val(s[i + 2])->0
                * 0x10 + hex_val(s[i + 3])->0) as u32,
        )
    } else {
        None
    }
}

/// The scalar a `\u` escape at `i` (at the backslash) stands for, and the
/// index just after it: four hexadecimal digits, or a surrogate pair of two
/// such escapes. A lone surrogate is refused.
pub open spec fn u_escape_spec(s: Seq<u8>, i: int) -> Option<(u32, int)> {
    match hex4_spec(s, i + 2) {
        None => None,
        Some(v) => if 0xD800 <= v <= 0xDBFF {
            if i + 8 <= s.len() && s[i + 6] == 92 && s[i + 7] == 117 {
                match hex4_spec(s, i + 8) {
                    Some(w) => if 0xDC00 <= w <= 0xDFFF {
                        Some(((0x10000 + (v - 0xD800) * 0x400 + (w - 0xDC00)) as u32, i + 12))
                    } else {
                        None
                    },
                    None => None,
                }
            } else {
                None
            }
        } else if 0xDC00 <= v <= 0xDFFF {
            None
        } else {
            Some((v, i + 6))
        },
    }
}

/// The bytes of a string body starting at `i` (just after the opening
/// quote), with escapes replaced, and the index just after the closing
/// quote. Unescaped control characters and unknown escapes are refused.
pub open spec fn str_bytes_spec(s: Seq<u8>, i: int) -> Option<(Seq<u8>, int)>
    decreases s.len() - i,
{
    if !(0 <= i < s.len()) {
        None
    } else if s[i] == 34 {
        Some((Seq::empty(), i + 1))
    } else if s[i] == 92 {
        if i + 1 < s.len() && s[i + 1] == 117 {  // 'u'
            match u_escape_spec(s, i) {
                Some(e) => if i < e.1 <= s.len() {
                    match str_bytes_spec(s, e.1) {
                        Some(p) => Some((encode_scalar(e.0) + p.0, p.1)),
                        None => None,
                    }
                } else {
                    None
                },
                None => None,
            }
        } else if i + 1 < s.len() && unescape_spec(s[i + 1]) is Some {
            match str_bytes_spec(s, i + 2) {
                Some(p) => Some((seq![unescape_spec(s[i + 1])->0] + p.0, p.1)),
                None => None,
            }
        } else {
            None
        }
    } else if s[i] < 32 {
        None
    } else {
        match str_bytes_spec(s, i + 1) {
            Some(p) => Some((seq![s[i]] + p.0, p.1)),
            None => None,
        }
    }
}

/// The characters of a string literal starting at `i` (at the opening
/// quote), and the index just after the closing quote. The body must be
/// valid UTF-8.
pub open spec fn parse_string_spec(s: Seq<u8>, i: int) -> Option<(Seq<char>, int)> {
    if 0 <= i < s.len() && s[i] == 34 {
        match str_bytes_spec(s, i + 1) {
            Some(p) => if valid_utf8(p.0) {
                Some((decode_utf8(p.0), p.1))
            } else {
                None
            },
            None => None,
        }
    } else {
        None
    }
}

/// The value starting at `i`: a string, or an object of members between
/// braces. Yields the parsed value and the index just after it.
pub open spec fn parse_value_spec(s: Seq<u8>, i: int) -> Option<(RawV, int)>
    decreases s.len() - i, 1int,
{
    if 0 <= i < s.len() && s[i] == 34 {
        match parse_string_spec(s, i) {
            Some(p) => Some((RawV::Str(p.0), p.1)),
            None => None,
        }
    } else if 0 <= i < s.len() && s[i] == 123 {  // '{'
        let j = skip_ws_spec(s, i + 1);
        if j < s.len() && s[j] == 125 {  // '}'
            Some((RawV::Obj(Seq::empty()), j + 1))
        } else if i < j && j <= s.len() {
            match parse_members_spec(s, j) {
                Some(p) => Some((RawV::Obj(p.0), p.1)),
                None => None,
            }
        } else {
            None
        }
    } else {
        None
    }
}

/// One or more `"key": value` members starting at `i` (at the first key's
/// quote), separated by commas and closed by `}`. Yields the members in
/// order and the index just after the closing brace.
pub open spec fn parse_members_spec(s: Seq<u8>, i: int) -> Option<(Seq<(Seq<char>, RawV)>, int)>
    decreases s.len() - i, 0int,
{
    match parse_string_spec(s, i) {
        None => None,
        Some(kp) => {
            let j2 = skip_ws_spec(s, kp.1);
            if j2 < s.len() && s[j2] == 58 {  // ':'
                let j3 = skip_ws_spec(s, j2 + 1);
                if i < j3 && j3 <= s.len() {
                    match parse_value_spec(s, j3) {
                        None => None,
                        Some(vp) => {
                            let j5 = skip_ws_spec(s, vp.1);
                            if j5 < s.len() && s[j5] == 44 {  // ','
                                let j6 = skip_ws_spec(s, j5 + 1);
                                if i < j6 && j6 <= s.len() {
                                    match parse_members_spec(s, j6) {
                                        None => None,
                                        Some(mp) => Some(
                                            (seq![(kp.0, vp.0)] + mp.0, mp.1),
                                        ),
                                    }
                                } else {
                                    None
                                }
                            } else if j5 < s.len() && s[j5] == 125 {  // '}'
                                Some((seq![(kp.0, vp.0)], j5 + 1))
                            } else {
                                None
                            }
                        },
                    }
                } else {
                    None
                }
            } else {
                None
            }
        },
    }
}

/// The single value a whole document holds, surrounded only by whitespace.
pub open spec fn parse_document_spec(s: Seq<u8>) -> Option<RawV> {
    match parse_value_spec(s, skip_ws_spec(s, 0)) {
        Some(p) => if skip_ws_spec(s, p.1) == s.len() {
            Some(p.0)
        } else {
            None
        },
        None => None,
    }
}

/// Whether two members share a key.
pub open spec fn has_dup_key(ms: Seq<(Seq<char>, RawV)>) -> bool {
    exists|i: int, j: int| 0 <= i < j < ms.len() && (#[trigger] ms[i]).0 == (#[trigger] ms[j]).0
}

/// The first index at or after `k` whose member has the given key, or -1.
pub open spec fn find_key(ms: Seq<(Seq<char>, RawV)>, key: Seq<char>, k: int) -> int
    decreases ms.len() - k,
{
    if 0 <= k < ms.len() {
        if ms[k].0 == key {
            k
        } else {
            find_key(ms, key, k + 1)
        }
    } else {
        -1
    }
}

/// What a parsed value means. A bare string is no node. An object must
/// carry a `type` member holding a string: `"item"` asks for exactly one
/// further member, `text`, holding the payload string; `"folder"` makes
/// every other member a child node, in order; any other tag is unknown.
/// Duplicated keys are refused.
pub open spec fn interp_value_spec(v: RawV) -> Result<NodeV, DecodeError>
    decreases v, 1int,
{
    match v {
        RawV::Str(_) => Err(DecodeError::Shape),
        RawV::Obj(ms) => {
            if has_dup_key(ms) {
                Err(DecodeError::DuplicateName)
            } else {
                let t = find_key(ms, "type"@, 0);
                if t < 0 {
                    Err(DecodeError::Shape)
                } else {
                    match ms[t].1 {
                        RawV::Obj(_) => Err(DecodeError::Shape),
                        RawV::Str(tag) => {
                            if tag == "item"@ {
                                let x = find_key(ms, "text"@, 0);
                                if ms.len() == 2 && x >= 0 && ms[x].1 is Str {
                                    Ok(NodeV::Item(ms[x].1->Str_0))
                                } else {
                                    Err(DecodeError::Shape)
                                }
                            } else if tag == "folder"@ {
                                match interp_children_spec(ms, t, 0) {
                                    Ok(cs) => Ok(NodeV::Folder(cs)),
                                    Err(e) => Err(e),
                                }
                            } else {
                                Err(DecodeError::UnknownTag)
                            }
                        },
                    }
                }
            }
        },
    }
}

/// The children a folder's members name, from index `k` on, skipping the
/// `type` member at `skip`. The first rejected child rejects the folder.
pub open spec fn interp_children_spec(ms: Seq<(Seq<char>, RawV)>, skip: int, k: int) -> Result<
    Seq<(Seq<char>, NodeV)>,
    DecodeError,
>
    decreases ms, ms.len() - k,
{
    if 0 <= k < ms.len() {
        if k == skip {
            interp_children_spec(ms, skip, k + 1)
        } else {
            match interp_value_spec(ms[k].1) {
                Err(e) => Err(e),
                Ok(n) => match interp_children_spec(ms, skip, k + 1) {
                    Err(e) => Err(e),
                    Ok(cs) => Ok(seq![(ms[k].0, n)] + cs),
                },
            }
        }
    } else {
        Ok(Seq::empty())
    }
}

/// What decoding a whole byte buffer yields: the interpreted document, a
/// syntax error when the bytes do not parse, and the interpretation's error
/// otherwise.
pub open spec fn spec_decode(s: Seq<u8>) -> Result<NodeV, DecodeError> {
    match parse_document_spec(s) {
        None => Err(DecodeError::Syntax),
        Some(v) => interp_value_spec(v),
    }
}

/// Skips whitespace from `i` on.
fn skip_ws(s: &[u8], i: usize) -> (r: usize)
    ensures
        r == skip_ws_spec(s@, i as int),
        i <= r,
        i <= s.len() ==> r <= s.len(),
{
    let mut k = i;
    while k < s.len() && (s[k] == 32 || s[k] == 9 || s[k] == 10 || s[k] == 13)
        invariant
            i <= k,
            i <= s.len() ==> k <= s.len(),
            skip_ws_spec(s@, i as int) == skip_ws_spec(s@, k as int),
        decreases s.len() - k,
    {
        k = k + 1;
    }
    k
}

/// What a one-character escape stands for.
fn unescape(b: u8) -> (r: Option<u8>)
    ensures
        r == unescape_spec(b),
{
    if b == 34 {
        Some(34)
    } else if b == 92 {
        Some(92)
    } else if b == 47 {
        Some(47)
    } else if b == 98 {
        Some(8)
    } else if b == 102 {
        Some(12)
    } else if b == 110 {
        Some(10)
    } else if b == 114 {
        Some(13)
    } else if b == 116 {
        Some(9)
    } else {
        None
    }
}

/// Relies on `String::from_utf8`: bytes that are valid UTF-8 become the
/// string of exactly their decoded characters; any other bytes are refused.
#[verifier::external_body]
fn string_from_utf8(bytes: Vec<u8>) -> (r: Option<String>)
    ensures
        valid_utf8(bytes@) ==> r is Some && r->0@ == decode_utf8(bytes@),
        !valid_utf8(bytes@) ==> r is None,
{
    String::from_utf8(bytes).ok()
}

/// The value of one hexadecimal digit, if the byte is one.
fn hex_digit(b: u8) -> (r: Option<u32>)
    ensures
        r == hex_val(b),
{
    if 48 <= b && b <= 57 {
        Some((b - 48) as u32)
    } else if 97 <= b && b <= 102 {
        Some((b - 87) as u32)
    } else if 65 <= b && b <= 70 {
        Some((b - 55) as u32)
    } else {
        None
    }
}

/// Reads four hexadecimal digits starting at `i`.
fn hex4(s: &[u8], i: usize) -> (r: Option<u32>)
    ensures
        r == hex4_spec(s@, i as int),
        r is Some ==> r->0 <= 0xFFFF,
{
    if s.len() < 4 || i > s.len() - 4 {
        return None;
    }
    let h0 = hex_digit(s[i]);
    let h1 = hex_digit(s[i + 1]);
    let h2 = hex_digit(s[i + 2]);
    let h3 = hex_digit(s[i + 3]);
    match (h0, h1, h2, h3) {
        (Some(a), Some(b), Some(c), Some(d)) => Some(a * 0x1000 + b * 0x100 + c * 0x10 + d),
        _ => None,
    }
}

/// Reads a `\u` escape at `i` (at the backslash): one scalar, or a
/// surrogate pair of two escapes.
fn u_escape(s: &[u8], i: usize) -> (r: Option<(u32, usize)>)
    ensures
        match r {
            Some(p) => u_escape_spec(s@, i as int) == Some::<(u32, int)>((p.0, p.1 as int))
                && i < p.1 <= s.len() && is_scalar(p.0),
            None => u_escape_spec(s@, i as int) is None,
        },
{
    if s.len() < 6 || i > s.len() - 6 {
        return None;
    }
    match hex4(s, i + 2) {
        None => None,
        Some(v) => {
            if 0xD800 <= v && v <= 0xDBFF {
                if s.len() - i >= 8 && s[i + 6] == 92 && s[i + 7] == 117 {
                    match hex4(s, i + 8) {
                        Some(w) => {
                            if 0xDC00 <= w && w <= 0xDFFF {
                                Some((0x10000 + (v - 0xD800) * 0x400 + (w - 0xDC00), i + 12))
                            } else {
                                None
                            }
                        },
                        None => None,
                    }
                } else {
                    None
                }
            } else if 0xDC00 <= v && v <= 0xDFFF {
                None
            } else {
                Some((v, i + 6))
            }
        },
    }
}

/// Appends the UTF-8 encoding of one scalar.
fn push_scalar(acc: &mut Vec<u8>, v: u32)
    requires
        is_scalar(v),
    ensures
        final(acc)@ == old(acc)@ + encode_scalar(v),
{
    let ghost a0 = acc@;
    if v <= 0x7F {
        acc.push((v & 0x7F) as u8);
        proof {
            assert(acc@ =~= a0 + encode_scalar(v));
        }
    } else if v <= 0x7FF {
        acc.push(0xC0 | ((v >> 6) & 0x1F) as u8);
        acc.push(0x80 | (v & 0x3F) as u8);
        proof {
            assert(acc@ =~= a0 + encode_scalar(v));
        }
    } else if v <= 0xFFFF {
        acc.push(0xE0 | ((v >> 12) & 0x0F) as u8);
        acc.push(0x80 | ((v >> 6) & 0x3F) as u8);
        acc.push(0x80 | (v & 0x3F) as u8);
        proof {
            assert(acc@ =~= a0 + encode_scalar(v));
        }
    } else {
        acc.push(0xF0 | ((v >> 18) & 0x7) as u8);
        acc.push(0x80 | ((v >> 12) & 0x3F) as u8);
        acc.push(0x80 | ((v >> 6) & 0x3F) as u8);
        acc.push(0x80 | (v & 0x3F) as u8);
        proof {
            assert(acc@ =~= a0 + encode_scalar(v));
        }
    }
}

/// Collects a string body from `i` (just after the opening quote),
/// replacing escapes, up to the closing quote.
fn parse_str_bytes(s: &[u8], i: usize) -> (r: Option<(Vec<u8>, usize)>)
    ensures
        match r {
            Some(p) => str_bytes_spec(s@, i as int) == Some::<(Seq<u8>, int)>((p.0@, p.1 as int))
                && i < p.1 <= s.len(),
            None => str_bytes_spec(s@, i as int) is None,
        },
{
    let mut acc: Vec<u8> = Vec::new();
    let mut k = i;
    loop
        invariant
            i <= k,
            ({
                let full = str_bytes_spec(s@, i as int);
                match str_bytes_spec(s@, k as int) {
                    Some(p) => full == Some::<(Seq<u8>, int)>((acc@ + p.0, p.1)),
                    None => full is None,
                }
            }),
        decreases s@.len() - k,
    {
        if k >= s.len() {
            return None;
        }
        let b = s[k];
        if b == 34 {
            proof {
                assert(acc@ + Seq::<u8>::empty() =~= acc@);
            }
            return Some((acc, k + 1));
        } else if b == 92 {
            if k + 1 < s.len() && s[k + 1] == 117 {
                match u_escape(s, k) {
                    None => {
                        return None;
                    },
                    Some((v, nk)) => {
                        proof {
                            if let Some(p) = str_bytes_spec(s@, nk as int) {
                                assert((acc@ + encode_scalar(v)) + p.0 =~= acc@ + (
                                encode_scalar(v) + p.0));
                            }
                        }
                        push_scalar(&mut acc, v);
                        k = nk;
                    },
                }
            } else if k + 1 < s.len() {
                match unescape(s[k + 1]) {
                    None => {
                        return None;
                    },
                    Some(u) => {
                        proof {
                            if let Some(p) = str_bytes_spec(s@, k as int + 2) {
                                assert(acc@.push(u) + p.0 =~= acc@ + (seq![u] + p.0));
                            }
                        }
                        acc.push(u);
                        k = k + 2;
                    },
                }
            } else {
                return None;
            }
        } else if b < 32 {
            return None;
        } else {
            proof {
                if let Some(p) = str_bytes_spec(s@, k as int + 1) {
                    assert(acc@.push(b) + p.0 =~= acc@ + (seq![b] + p.0));
                }
            }
            acc.push(b);
            k = k + 1;
        }
    }
}

/// Parses a string literal at `i` into its characters.
fn parse_string(s: &[u8], i: usize) -> (r: Option<(String, usize)>)
    ensures
        match r {
            Some(p) => parse_string_spec(s@, i as int) == Some::<(Seq<char>, int)>(
                (p.0@, p.1 as int),
            ) && i < p.1 <= s.len(),
            None => parse_string_spec(s@, i as int) is None,
        },
{
    if i < s.len() && s[i] == 34 {
        match parse_str_bytes(s, i + 1) {
            Some((bs, j)) => {
                match string_from_utf8(bs) {
                    Some(st) => Some((st, j)),
                    None => None,
                }
            },
            None => None,
        }
    } else {
        None
    }
}

/// Parses the value at `i`, exactly as [`parse_value_spec`] says.
fn parse_value(s: &[u8], i: usize) -> (r: Option<(RawValue, usize)>)
    ensures
        match r {
            Some(p) => parse_value_spec(s@, i as int) == Some::<(RawV, int)>(
                (raw_view(p.0), p.1 as int),
            ) && i < p.1 <= s.len(),
            None => parse_value_spec(s@, i as int) is None,
        },
    decreases s@.len() - i,
{
    if i < s.len() && s[i] == 34 {
        match parse_string(s, i) {
            Some((st, j)) => Some((RawValue::Str(st), j)),
            None => None,
        }
    } else if i < s.len() && s[i] == 123 {
        let j = skip_ws(s, i + 1);
        if j < s.len() && s[j] == 125 {
            let empty_members: Vec<(String, RawValue)> = Vec::new();
            proof {
                assert(members_view(empty_members@, 0) =~= Seq::<(Seq<char>, RawV)>::empty());
            }
            Some((RawValue::Obj(empty_members), j + 1))
        } else {
            match parse_members(s, j) {
                Some((ms, j7)) => Some((RawValue::Obj(ms), j7)),
                None => None,
            }
        }
    } else {
        None
    }
}

/// Parses the members of an object from the first key at `i`, exactly as
/// [`parse_members_spec`] says.
fn parse_members(s: &[u8], i: usize) -> (r: Option<(Vec<(String, RawValue)>, usize)>)
    ensures
        match r {
            Some(p) => parse_members_spec(s@, i as int) == Some::<(Seq<(Seq<char>, RawV)>, int)>(
                (members_view(p.0@, 0), p.1 as int),
            ) && i < p.1 <= s.len(),
            None => parse_members_spec(s@, i as int) is None,
        },
    decreases s@.len() - i,
{
    let mut acc: Vec<(String, RawValue)> = Vec::new();
    let mut cur = i;
    loop
        invariant
            i <= cur,
            ({
                let full = parse_members_spec(s@, i as int);
                match parse_members_spec(s@, cur as int) {
                    Some(p) => full == Some::<(Seq<(Seq<char>, RawV)>, int)>(
                        (members_view(acc@, 0) + p.0, p.1),
                    ),
                    None => full is None,
                }
            }),
        decreases s@.len() - cur,
    {
        let kp = parse_string(s, cur);
        match kp {
            None => {
                return None;
            },
            Some((key, j)) => {
                let j2 = skip_ws(s, j);
                if !(j2 < s.len() && s[j2] == 58) {
                    return None;
                }
                let j3 = skip_ws(s, j2 + 1);
                match parse_value(s, j3) {
                    None => {
                        return None;
                    },
                    Some((v, j4)) => {
                        let j5 = skip_ws(s, j4);
                        if j5 < s.len() && s[j5] == 44 {
                            let j6 = skip_ws(s, j5 + 1);
                            proof {
                                lemma_members_view_push(acc@, key, v);
                                if let Some(p) = parse_members_spec(s@, j6 as int) {
                                    assert((members_view(acc@, 0) + seq![(key@, raw_view(v))])
                                        + p.0 =~= members_view(acc@, 0) + (seq![
                                        (key@, raw_view(v)),
                                    ] + p.0));
                                }
                            }
                            acc.push((key, v));
                            cur = j6;
                        } else if j5 < s.len() && s[j5] == 125 {
                            proof {
                                lemma_members_view_push(acc@, key, v);
                                assert(members_view(acc@.push((key, v)), 0) =~= members_view(
                                    acc@,
                                    0,
                                ) + seq![(key@, raw_view(v))]);
                            }
                            acc.push((key, v));
                            return Some((acc, j5 + 1));
                        } else {
                            return None;
                        }
                    },
                }
            },
        }
    }
}

/// The first member with the given key, if any.
fn find_key_exec(ms: &Vec<(String, RawValue)>, key: &str) -> (r: Option<usize>)
    ensures
        ({
            let mv = members_view(ms@, 0);
            match r {
                Some(k) => k < ms.len() && find_key(mv, key@, 0) == k as int,
                None => find_key(mv, key@, 0) == -1,
            }
        }),
{
    let ghost mv = members_view(ms@, 0);
    let mut k: usize = 0;
    while k < ms.len()
        invariant
            mv == members_view(ms@, 0),
            k <= ms.len(),
            find_key(mv, key@, 0) == find_key(mv, key@, k as int),
        decreases ms.len() - k,
    {
        proof {
            lemma_members_view_index(ms@, 0);
        }
        if str_eq(ms[k].0.as_str(), key) {
            return Some(k);
        }
        k = k + 1;
    }
    proof {
        lemma_members_view_index(ms@, 0);
    }
    None
}

/// Whether two members share a key.
fn has_dup_key_exec(ms: &Vec<(String, RawValue)>) -> (r: bool)
    ensures
        r == has_dup_key(members_view(ms@, 0)),
{
    let ghost mv = members_view(ms@, 0);
    proof {
        lemma_members_view_index(ms@, 0);
    }
    let mut a: usize = 0;
    while a < ms.len()
        invariant
            mv == members_view(ms@, 0),
            a <= ms.len(),
            forall|i: int, j: int| 0 <= i < j < ms.len() && i < a ==> (#[trigger] mv[i]).0 != (
            #[trigger] mv[j]).0,
        decreases ms.len() - a,
    {
        let mut b: usize = a + 1;
        while b < ms.len()
            invariant
                mv == members_view(ms@, 0),
                a < b <= ms.len() || (a + 1 == b && b > ms.len() - 1),
                a < ms.len(),
                b >= a + 1,
                forall|j: int| a < j < b ==> (#[trigger] mv[j]).0 != mv[a as int].0,
            decreases ms.len() - b,
        {
            proof {
                lemma_members_view_index(ms@, 0);
            }
            if str_eq(ms[a].0.as_str(), ms[b].0.as_str()) {
                proof {
                    assert(mv[a as int].0 == mv[b as int].0);
                }
                return true;
            }
            b = b + 1;
        }
        a = a + 1;
    }
    false
}

/// Interprets one parsed value as a node, exactly as [`interp_value_spec`]
/// says.
fn interp_value(v: &RawValue) -> (r: Result<JsonObject, DecodeError>)
    ensures
        match r {
            Ok(n) => interp_value_spec(raw_view(*v)) == Ok::<NodeV, DecodeError>(node_view(n)),
            Err(e) => interp_value_spec(raw_view(*v)) == Err::<NodeV, DecodeError>(e),
        },
    decreases *v,
{
    match v {
        RawValue::Str(_) => Err(DecodeError::Shape),
        RawValue::Obj(ms) => {
            let ghost mv = members_view(ms@, 0);
            proof {
                lemma_members_view_index(ms@, 0);
            }
            if has_dup_key_exec(ms) {
                return Err(DecodeError::DuplicateName);
            }
            match find_key_exec(ms, "type") {
                None => Err(DecodeError::Shape),
                Some(t) => {
                    match &ms[t].1 {
                        RawValue::Obj(_) => Err(DecodeError::Shape),
                        RawValue::Str(tag) => {
                            if str_eq(tag.as_str(), "item") {
                                if ms.len() == 2 {
                                    match find_key_exec(ms, "text") {
                                        None => Err(DecodeError::Shape),
                                        Some(x) => {
                                            match &ms[x].1 {
                                                RawValue::Str(text) => Ok(
                                                    JsonObject::Item(
                                                        ItemAsset { text: text.clone() },
                                                    ),
                                                ),
                                                RawValue::Obj(_) => Err(DecodeError::Shape),
                                            }
                                        },
                                    }
                                } else {
                                    Err(DecodeError::Shape)
                                }
                            } else if str_eq(tag.as_str(), "folder") {
                                proof {
                                    assert(decreases_to!(*v => ms@));
                                }
                                match interp_children_exec(ms, t) {
                                    Err(e) => Err(e),
                                    Ok(cs) => Ok(JsonObject::Folder(FolderAsset { children: cs })),
                                }
                            } else {
                                Err(DecodeError::UnknownTag)
                            }
                        },
                    }
                },
            }
        },
    }
}

/// Interprets a folder's members as its children, skipping the `type`
/// member, exactly as [`interp_children_spec`] says.
fn interp_children_exec(ms: &Vec<(String, RawValue)>, skip: usize) -> (r: Result<
    Vec<(String, JsonObject)>,
    DecodeError,
>)
    ensures
        ({
            let mv = members_view(ms@, 0);
            match r {
                Ok(cs) => interp_children_spec(mv, skip as int, 0) == Ok::<
                    Seq<(Seq<char>, NodeV)>,
                    DecodeError,
                >(children_view(cs@, 0)),
                Err(e) => interp_children_spec(mv, skip as int, 0) == Err::<
                    Seq<(Seq<char>, NodeV)>,
                    DecodeError,
                >(e),
            }
        }),
    decreases ms@, 0int,
{
    let ghost mv = members_view(ms@, 0);
    proof {
        lemma_members_view_index(ms@, 0);
    }
    let mut out: Vec<(String, JsonObject)> = Vec::new();
    let mut k: usize = 0;
    while k < ms.len()
        invariant
            mv == members_view(ms@, 0),
            mv.len() == ms@.len(),
            k <= ms.len(),
            ({
                match interp_children_spec(mv, skip as int, k as int) {
                    Ok(cs) => interp_children_spec(mv, skip as int, 0) == Ok::<
                        Seq<(Seq<char>, NodeV)>,
                        DecodeError,
                    >(children_view(out@, 0) + cs),
                    Err(e) => interp_children_spec(mv, skip as int, 0) == Err::<
                        Seq<(Seq<char>, NodeV)>,
                        DecodeError,
                    >(e),
                }
            }),
        decreases ms.len() - k,
    {
        proof {
            lemma_members_view_index(ms@, 0);
        }
        if k != skip {
            proof {
                assert(decreases_to!(ms@ => ms@[k as int]));
                assert(decreases_to!(ms@[k as int] => ms@[k as int].1));
            }
            match interp_value(&ms[k].1) {
                Err(e) => {
                    return Err(e);
                },
                Ok(n) => {
                    let name = ms[k].0.clone();
                    proof {
                        crate::model::lemma_children_view_push(out@, name, n);
                        if let Ok(cs) = interp_children_spec(mv, skip as int, k as int + 1) {
                            assert((children_view(out@, 0) + seq![(name@, node_view(n))]) + cs
                                =~= children_view(out@, 0) + (seq![(name@, node_view(n))] + cs));
                        }
                    }
                    out.push((name, n));
                },
            }
        }
        k = k + 1;
    }
    proof {
        assert(children_view(out@, 0) + Seq::<(Seq<char>, NodeV)>::empty() =~= children_view(
            out@,
            0,
        ));
    }
    Ok(out)
}

/// Decodes one document from its bytes, exactly as [`spec_decode`] says:
/// the buffer must hold one value surrounded only by whitespace, and the
/// value must interpret as a node. No partial tree is returned on error,
/// and a decoded tree is well-formed.
pub fn decode(bytes: &[u8]) -> (r: Result<RootAsset, DecodeError>)
    ensures
        match r {
            Ok(root) => spec_decode(bytes@) == Ok::<NodeV, DecodeError>(node_view(root.0))
                && wf_node(node_view(root.0)),
            Err(e) => spec_decode(bytes@) == Err::<NodeV, DecodeError>(e),
        },
{
    let i = skip_ws(bytes, 0);
    match parse_value(bytes, i) {
        None => Err(DecodeError::Syntax),
        Some((v, j)) => {
            let e = skip_ws(bytes, j);
            if e != bytes.len() {
                Err(DecodeError::Syntax)
            } else {
                match interp_value(&v) {
                    Ok(n) => {
                        proof {
                            lemma_interp_wf(raw_view(v));
                        }
                        Ok(RootAsset(n))
                    },
                    Err(er) => Err(er),
                }
            }
        },
    }
}

/// An interpreted node is well-formed: duplicated keys are refused, so the
/// child names in every folder of the result are unique.
pub proof fn lemma_interp_wf(v: RawV)
    requires
        interp_value_spec(v) is Ok,
    ensures
        wf_node(interp_value_spec(v)->Ok_0),
    decreases v, 1int,
{
    match v {
        RawV::Str(_) => {
        },
        RawV::Obj(ms) => {
            let t = find_key(ms, "type"@, 0);
            match ms[t].1 {
                RawV::Obj(_) => {
                },
                RawV::Str(tag) => {
                    reveal_strlit("item");
                    reveal_strlit("folder");
                    assert("item"@.len() != "folder"@.len());
                    if tag == "folder"@ {
                        lemma_interp_children_wf(ms, t, 0);
                        let cs = interp_children_spec(ms, t, 0)->Ok_0;
                        assert forall|a: int, b: int|
                            0 <= a < b < child_names(cs).len() implies child_names(cs)[a]
                            != child_names(cs)[b] by {
                            assert(child_names(cs)[a] == cs[a].0);
                            assert(child_names(cs)[b] == cs[b].0);
                        }
                        lemma_wf_children_from_each(cs, 0);
                    }
                },
            }
        },
    }
}

/// Every child a folder's members yield is well-formed, carries the key of
/// the member it came from, and no two children share a name.
proof fn lemma_interp_children_wf(ms: Seq<(Seq<char>, RawV)>, skip: int, k: int)
    requires
        !has_dup_key(ms),
        0 <= k,
        interp_children_spec(ms, skip, k) is Ok,
    ensures
        ({
            let cs = interp_children_spec(ms, skip, k)->Ok_0;
            &&& forall|a: int| 0 <= a < cs.len() ==> wf_node((#[trigger] cs[a]).1)
            &&& forall|a: int|
                0 <= a < cs.len() ==> exists|m: int|
                    k <= m < ms.len() && m != skip && (#[trigger] cs[a]).0 == (
                    #[trigger] ms[m]).0
            &&& forall|a: int, b: int|
                0 <= a < b < cs.len() ==> (#[trigger] cs[a]).0 != (#[trigger] cs[b]).0
        }),
    decreases ms, ms.len() - k,
{
    if 0 <= k < ms.len() {
        if k == skip {
            lemma_interp_children_wf(ms, skip, k + 1);
        } else {
            let n = interp_value_spec(ms[k].1)->Ok_0;
            lemma_interp_wf(ms[k].1);
            lemma_interp_children_wf(ms, skip, k + 1);
            let rest = interp_children_spec(ms, skip, k + 1)->Ok_0;
            let cs = interp_children_spec(ms, skip, k)->Ok_0;
            assert(cs == seq![(ms[k].0, n)] + rest);
            assert forall|a: int| 0 <= a < cs.len() implies exists|m: int|
                k <= m < ms.len() && m != skip && (#[trigger] cs[a]).0 == (
                #[trigger] ms[m]).0 by {
                if a == 0 {
                    assert(cs[0].0 == ms[k].0);
                } else {
                    assert(cs[a] == rest[a - 1]);
                    let m = choose|m: int|
                        k + 1 <= m < ms.len() && m != skip && rest[a - 1].0 == (
                        #[trigger] ms[m]).0;
                    assert(k <= m < ms.len() && m != skip && cs[a].0 == ms[m].0);
                }
            }
            assert forall|a: int, b: int| 0 <= a < b < cs.len() implies (#[trigger] cs[a]).0
                != (#[trigger] cs[b]).0 by {
                if a == 0 {
                    assert(cs[b] == rest[b - 1]);
                    let m = choose|m: int|
                        k + 1 <= m < ms.len() && m != skip && rest[b - 1].0 == (
                        #[trigger] ms[m]).0;
                    assert(ms[k].0 != ms[m].0);
                    assert(cs[0].0 == ms[k].0);
                } else {
                    assert(cs[a] == rest[a - 1]);
                    assert(cs[b] == rest[b - 1]);
                }
            }
        }
    }
}

/// Pushing one member extends the members' abstraction by its view.
proof fn lemma_members_view_push(ms: Seq<(String, RawValue)>, key: String, v: RawValue)
    ensures
        members_view(ms.push((key, v)), 0) == members_view(ms, 0) + seq![(key@, raw_view(v))],
{
    lemma_members_view_index(ms, 0);
    lemma_members_view_index(ms.push((key, v)), 0);
    assert forall|j: int| 0 <= j < ms.len() + 1 implies #[trigger] members_view(
        ms.push((key, v)),
        0,
    )[j] == (members_view(ms, 0) + seq![(key@, raw_view(v))])[j] by {
        if j < ms.len() {
            assert(ms.push((key, v))[j] == ms[j]);
        } else {
            assert(ms.push((key, v))[j] == (key, v));
        }
    }
    assert(members_view(ms.push((key, v)), 0) =~= members_view(ms, 0) + seq![
        (key@, raw_view(v)),
    ]);
}

} // verus!
