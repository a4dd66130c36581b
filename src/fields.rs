//! Splitting a data block into typed fields and rendering each as XML.
use vstd::prelude::*;
use vstd::string::StringExecFns;
use vstd::utf8::{valid_utf8, decode_utf8};
use crate::DictError;
use crate::text::{chars_of, cover_dict_data_to_xml, field_xml};

verus! {

/// The fragment that stands for an audio or image field.
pub open spec fn media_msg() -> Seq<char> {
    "<p class=\"error\"> DictUnifier: Media file is not supported. </p>"@
}

/// The fragment that stands for a resource field.
pub open spec fn resource_msg() -> Seq<char> {
    "<p class=\"error\"> DictUnifier: Resource file is not supported. </p>"@
}

/// Whether a field of type `t` holds media (sound, picture, reserved).
pub open spec fn is_media(t: char) -> bool {
    t == 'W' || t == 'P' || t == 'X'
}

/// The index of the first zero byte of `b` at or after `pos`, or `b.len()`.
pub open spec fn nul_end(b: Seq<u8>, pos: int) -> int
    decreases b.len() - pos,
{
    if pos < 0 || pos >= b.len() {
        b.len() as int
    } else if b[pos] == 0 {
        pos
    } else {
        nul_end(b, pos + 1)
    }
}

pub proof fn lemma_nul_end(b: Seq<u8>, pos: int)
    requires
        0 <= pos <= b.len(),
    ensures
        pos <= nul_end(b, pos) <= b.len(),
        forall|k: int| pos <= k < nul_end(b, pos) ==> b[k] != 0,
        nul_end(b, pos) < b.len() ==> b[nul_end(b, pos)] == 0,
    decreases b.len() - pos,
{
    if pos < b.len() && b[pos] != 0 {
        lemma_nul_end(b, pos + 1);
    }
}

/// The big-endian number held by `b[at]` and `b[at + 1]`.
pub open spec fn be16(b: Seq<u8>, at: int) -> int {
    b[at] as int * 256 + b[at + 1] as int
}

/// One field of type `t` that starts at `pos`: its fragment and where the next
/// field starts. A media field always gives the media placeholder: it begins
/// with a four-byte size whose last two bytes give the length of what follows,
/// and it takes the rest of the block where `sized` is false, or where the size
/// is missing or reaches past the block. Any other field ends at the next zero
/// byte or at the end.
pub open spec fn field_step(b: Seq<u8>, pos: int, t: char, sized: bool) -> Result<
    (Seq<char>, int),
    DictError,
> {
    if is_media(t) {
        if !sized || pos + 4 > b.len() || pos + 4 + be16(b, pos + 2) > b.len() {
            Ok((media_msg(), b.len() as int))
        } else {
            Ok((media_msg(), pos + 4 + be16(b, pos + 2)))
        }
    } else {
        let e = nul_end(b, pos);
        let next = if e < b.len() {
            e + 1
        } else {
            b.len() as int
        };
        if t == 'r' {
            Ok((resource_msg(), next))
        } else if valid_utf8(b.subrange(pos, e)) {
            Ok((field_xml(decode_utf8(b.subrange(pos, e)), t), next))
        } else {
            Err(DictError::Format)
        }
    }
}

/// `acc` put before the items of `r`, or the error of `r`.
pub open spec fn prepend<T>(acc: Seq<T>, r: Result<Seq<T>, DictError>) -> Result<Seq<T>, DictError> {
    match r {
        Ok(rest) => Ok(acc + rest),
        Err(e) => Err(e),
    }
}

/// The fragments of a block whose fields have the types `types`, from the
/// `i`-th type and the cursor `pos` on, until the types or the block run out.
pub open spec fn uniform_fields(b: Seq<u8>, types: Seq<char>, i: int, pos: int) -> Result<
    Seq<Seq<char>>,
    DictError,
>
    decreases types.len() - i,
{
    if i < 0 || i >= types.len() || pos >= b.len() {
        Ok(seq![])
    } else {
        match field_step(b, pos, types[i], i + 1 < types.len()) {
            Err(e) => Err(e),
            Ok(step) => prepend(seq![step.0], uniform_fields(b, types, i + 1, step.1)),
        }
    }
}

/// The fragments of a block whose fields each begin with a byte naming their
/// type, from the cursor `pos` on.
pub open spec fn inline_fields(b: Seq<u8>, pos: int) -> Result<Seq<Seq<char>>, DictError>
    decreases b.len() - pos,
    via inline_fields_decreases
{
    if pos < 0 || pos >= b.len() {
        Ok(seq![])
    } else if b[pos] >= 0x80 {
        Err(DictError::Format)
    } else {
        match field_step(b, pos + 1, b[pos] as char, true) {
            Err(e) => Err(e),
            Ok(step) => prepend(seq![step.0], inline_fields(b, step.1)),
        }
    }
}

#[via_fn]
proof fn inline_fields_decreases(b: Seq<u8>, pos: int) {
    if 0 <= pos < b.len() && b[pos] < 0x80 {
        lemma_nul_end(b, pos + 1);
    }
}

/// The fragments of a data block: with a type sequence each field has the next
/// type of it, without one each field names its own type.
pub open spec fn block_fields(b: Seq<u8>, types: Seq<char>) -> Result<Seq<Seq<char>>, DictError> {
    if types.len() == 0 {
        inline_fields(b, 0)
    } else {
        uniform_fields(b, types, 0, 0)
    }
}

/// The views of the strings of `v`.
pub open spec fn views(v: Seq<String>) -> Seq<Seq<char>> {
    v.map_values(|s: String| s@)
}

/// Relies on `String::from_utf8`: `b[start..end]` as text where it is valid UTF-8.
#[verifier::external_body]
pub(crate) fn utf8_text(b: &[u8], start: usize, end: usize) -> (r: Option<String>)
    requires
        start <= end <= b@.len(),
    ensures
        r is Some <==> valid_utf8(b@.subrange(start as int, end as int)),
        r matches Some(s) ==> s@ == decode_utf8(b@.subrange(start as int, end as int)),
{
    String::from_utf8(b[start..end].to_vec()).ok()
}

/// Relies on `byteorder::BigEndian::read_u16`: the big-endian number in
/// `b[at]` and `b[at + 1]`.
#[verifier::external_body]
pub(crate) fn read_be16(b: &[u8], at: usize) -> (r: u16)
    requires
        at + 2 <= b@.len(),
    ensures
        r as int == be16(b@, at as int),
{
    <byteorder::BigEndian as byteorder::ByteOrder>::read_u16(&b[at..at + 2])
}

/// The index of the first zero byte at or after `pos`, or the length of `b`.
pub fn find_nul(b: &[u8], pos: usize) -> (r: usize)
    requires
        pos <= b@.len(),
    ensures
        r as int == nul_end(b@, pos as int),
{
    let mut e = pos;
    while e < b.len() && b[e] != 0
        invariant
            pos <= e <= b@.len(),
            nul_end(b@, pos as int) == nul_end(b@, e as int),
        decreases b@.len() - e,
    {
        e += 1;
    }
    e
}

/// Decodes the field of type `t` at `pos`; see `field_step`.
fn decode_field(b: &[u8], pos: usize, t: char, sized: bool) -> (r: Result<(String, usize), DictError>)
    requires
        pos <= b@.len(),
    ensures
        match (r, field_step(b@, pos as int, t, sized)) {
            (Ok(x), Ok(y)) => x.0@ == y.0 && x.1 as int == y.1,
            (Err(x), Err(y)) => x == y,
            _ => false,
        },
{
    if t == 'W' || t == 'P' || t == 'X' {
        let msg = String::from_str("<p class=\"error\"> DictUnifier: Media file is not supported. </p>");
        if !sized || b.len() - pos < 4 {
            Ok((msg, b.len()))
        } else {
            let l = read_be16(b, pos + 2) as usize;
            if b.len() - pos - 4 < l {
                Ok((msg, b.len()))
            } else {
                Ok((msg, pos + 4 + l))
            }
        }
    } else {
        let e = find_nul(b, pos);
        proof {
            lemma_nul_end(b@, pos as int);
        }
        let next = if e < b.len() {
            e + 1
        } else {
            b.len()
        };
        if t == 'r' {
            let msg = String::from_str("<p class=\"error\"> DictUnifier: Resource file is not supported. </p>");
            Ok((msg, next))
        } else {
            match utf8_text(b, pos, e) {
                Some(text) => Ok((cover_dict_data_to_xml(text.as_str(), t), next)),
                None => Err(DictError::Format),
            }
        }
    }
}

/// Splits the data block `buffer` into fields and renders each: with a
/// non-empty `types` the fields have those types in turn, without one each
/// field begins with a byte that names its type. Stops where the types or the
/// block run out.
pub fn parse_dict_data_xml(buffer: &[u8], types: &str) -> (r: Result<Vec<String>, DictError>)
    ensures
        match (r, block_fields(buffer@, types@)) {
            (Ok(x), Ok(y)) => views(x@) == y,
            (Err(x), Err(y)) => x == y,
            _ => false,
        },
{
    let tps = chars_of(types);
    let mut res: Vec<String> = Vec::new();
    let mut pos: usize = 0;
    if tps.len() == 0 {
        assert(block_fields(buffer@, types@) == inline_fields(buffer@, 0));
        assert(views(res@) =~= seq![]);
        assert(inline_fields(buffer@, 0) == prepend(seq![], inline_fields(buffer@, 0)));
        while pos < buffer.len()
            invariant
                pos <= buffer@.len(),
                block_fields(buffer@, types@) == inline_fields(buffer@, 0),
                inline_fields(buffer@, 0) == prepend(views(res@), inline_fields(buffer@, pos as int)),
            decreases buffer@.len() - pos,
        {
            let code = buffer[pos];
            if code >= 0x80 {
                assert(inline_fields(buffer@, pos as int) == Err::<Seq<Seq<char>>, DictError>(DictError::Format));
                return Err(DictError::Format);
            }
            match decode_field(buffer, pos + 1, code as char, true) {
                Err(e) => {
                    assert(inline_fields(buffer@, pos as int) == Err::<Seq<Seq<char>>, DictError>(e));
                    return Err(e);
                },
                Ok((xml, next)) => {
                    proof {
                        lemma_nul_end(buffer@, pos + 1);
                    }
                    let ghost before = views(res@);
                    res.push(xml);
                    assert(views(res@) =~= before + seq![xml@]);
                    assert(before + seq![xml@] + seq![] =~= before + seq![xml@]);
                    proof {
                        match inline_fields(buffer@, next as int) {
                            Ok(rest) => {
                                assert(before + (seq![xml@] + rest) =~= before + seq![xml@] + rest);
                            },
                            Err(_) => {},
                        }
                    }
                    pos = next;
                },
            }
        }
    } else {
        let mut i: usize = 0;
        assert(views(res@) =~= seq![]);
        assert(uniform_fields(buffer@, tps@, 0, 0) == prepend(seq![], uniform_fields(buffer@, tps@, 0, 0)));
        while i < tps.len() && pos < buffer.len()
            invariant
                pos <= buffer@.len(),
                i <= tps@.len(),
                tps@ == types@,
                tps@.len() > 0,
                uniform_fields(buffer@, tps@, 0, 0) == prepend(views(res@), uniform_fields(buffer@, tps@, i as int, pos as int)),
            decreases tps@.len() - i,
        {
            match decode_field(buffer, pos, tps[i], i + 1 < tps.len()) {
                Err(e) => {
                    return Err(e);
                },
                Ok((xml, next)) => {
                    let ghost before = views(res@);
                    res.push(xml);
                    assert(views(res@) =~= before + seq![xml@]);
                    proof {
                        match uniform_fields(buffer@, tps@, i + 1, next as int) {
                            Ok(rest) => {
                                assert(before + (seq![xml@] + rest) =~= before + seq![xml@] + rest);
                            },
                            Err(_) => {},
                        }
                    }
                    pos = next;
                    i += 1;
                },
            }
        }
    }
    assert(views(res@) + seq![] =~= views(res@));
    Ok(res)
}

/// A media field gives the media placeholder whatever the bytes of the block,
/// and never fails.
pub proof fn lemma_media_field(b: Seq<u8>, pos: int, t: char, sized: bool)
    requires
        is_media(t),
    ensures
        field_step(b, pos, t, sized) matches Ok(step) && step.0 == media_msg(),
{
}

/// A block whose type sequence is a single media type renders, whatever its
/// bytes, as the one media placeholder, and never fails.
pub proof fn lemma_media_block(b: Seq<u8>, t: char)
    requires
        is_media(t),
        b.len() > 0,
    ensures
        block_fields(b, seq![t]) == Ok::<Seq<Seq<char>>, DictError>(seq![media_msg()]),
{
    let types = seq![t];
    assert(types[0] == t);
    assert(field_step(b, 0, t, false) == Ok::<(Seq<char>, int), DictError>((media_msg(), b.len() as int)));
    assert(uniform_fields(b, types, 1, b.len() as int) == Ok::<Seq<Seq<char>>, DictError>(seq![]));
    assert(seq![media_msg()] + seq![] =~= seq![media_msg()]);
}

} // verus!
