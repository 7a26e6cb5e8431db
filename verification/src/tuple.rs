//! Tuples and their wire form.
//!
//! A tuple on the wire is: the number of elements (`i32`), the total byte length of its
//! strings (`i32`), one 24-byte record per element, then the bytes of its strings one after
//! another. A record starts with a tag (`i32`) and carries the element's value from byte 8
//! on; a string's record holds the offset of its bytes in the string area (byte 8) and their
//! length (byte 16). The record buffer is reused from one element to the next, so the bytes
//! an element does not write keep what the elements before it left there.
use vstd::prelude::*;
use vstd::utf8::{encode_utf8, decode_utf8, valid_utf8};
use vstd::slice::{slice_subrange, slice_to_vec};
use crate::wire::{i32_le, u64_le, i32_at, u64_at, splice, ti, ctoi, ciot, ctod, cdot};

verus! {

/// Tag of an integer element (`'i'`).
pub const ASCII_I: i32 = 105;

/// Tag of a double element (`'d'`).
pub const ASCII_D: i32 = 100;

/// Tag of a string element (`'s'`).
pub const ASCII_S: i32 = 115;

/// Tag of a wildcard element (`'?'`), which matches any value in a template.
pub const ASCII_Q: i32 = 63;

/// One element of a tuple. A double is held as its IEEE 754 bit pattern.
#[derive(Clone, Debug)]
pub enum E {
    I(i32),
    D(u64),
    S(String),
    Wildcard,
}

/// What an element is, as a mathematical value.
pub enum Elem {
    Int(i32),
    Double(u64),
    Str(Seq<char>),
    Wildcard,
}

impl DeepView for E {
    type V = Elem;

    open spec fn deep_view(&self) -> Elem {
        match self {
            E::I(i) => Elem::Int(*i),
            E::D(d) => Elem::Double(*d),
            E::S(s) => Elem::Str(s@),
            E::Wildcard => Elem::Wildcard,
        }
    }
}

/// The bytes an element contributes to the string area.
pub open spec fn str_bytes(e: Elem) -> Seq<u8> {
    match e {
        Elem::Str(s) => encode_utf8(s),
        _ => seq![],
    }
}

/// The string area of the first `k` elements of `t`.
pub open spec fn strings_upto(t: Seq<Elem>, k: int) -> Seq<u8>
    decreases k,
{
    if k <= 0 {
        seq![]
    } else {
        strings_upto(t, k - 1) + str_bytes(t[k - 1])
    }
}

/// The string area of the whole tuple.
pub open spec fn strings_of(t: Seq<Elem>) -> Seq<u8> {
    strings_upto(t, t.len() as int)
}

/// The strings of `t` together fit in the `i32` length field of the header.
pub open spec fn strings_fit(t: Seq<Elem>) -> bool {
    strings_of(t).len() <= i32::MAX
}

/// The record buffer after element `e` was written over `prev`; `str_off` is where the
/// element's string bytes start in the string area.
pub open spec fn record_after(prev: Seq<u8>, e: Elem, str_off: int) -> Seq<u8> {
    match e {
        Elem::Int(i) => splice(splice(prev, 0, i32_le(ASCII_I)), 8, i32_le(i)),
        Elem::Double(d) => splice(splice(prev, 0, i32_le(ASCII_D)), 8, u64_le(d)),
        Elem::Str(s) => splice(
            splice(splice(prev, 0, i32_le(ASCII_S)), 8, i32_le(str_off as i32)),
            16,
            i32_le(encode_utf8(s).len() as i32),
        ),
        Elem::Wildcard => splice(prev, 0, i32_le(ASCII_Q)),
    }
}

/// The record buffer after the first `k` elements of `t` were written into a zeroed one.
pub open spec fn record_buf(t: Seq<Elem>, k: int) -> Seq<u8>
    decreases k,
{
    if k <= 0 {
        Seq::new(24, |j: int| 0u8)
    } else {
        record_after(record_buf(t, k - 1), t[k - 1], strings_upto(t, k - 1).len() as int)
    }
}

/// The records of the first `k` elements of `t`, one after another.
pub open spec fn records_upto(t: Seq<Elem>, k: int) -> Seq<u8>
    decreases k,
{
    if k <= 0 {
        seq![]
    } else {
        records_upto(t, k - 1) + record_buf(t, k)
    }
}

/// The two header fields: element count and string-area length.
pub open spec fn header_of(t: Seq<Elem>) -> Seq<u8> {
    i32_le(t.len() as i32) + i32_le(strings_of(t).len() as i32)
}

/// The bytes that send a tuple.
pub open spec fn encode_spec(t: Seq<Elem>) -> Seq<u8> {
    header_of(t) + records_upto(t, t.len() as int) + strings_of(t)
}

/// The string area only grows as elements are added.
pub proof fn lemma_strings_upto_mono(t: Seq<Elem>, i: int, j: int)
    requires
        i <= j,
    ensures
        strings_upto(t, i).len() <= strings_upto(t, j).len(),
        strings_upto(t, i) == strings_upto(t, j).subrange(0, strings_upto(t, i).len() as int),
    decreases j - i,
{
    if i < j {
        lemma_strings_upto_mono(t, i, j - 1);
        if j > 0 {
            assert(strings_upto(t, j - 1) =~= strings_upto(t, j).subrange(
                0,
                strings_upto(t, j - 1).len() as int,
            ));
        }
        assert(strings_upto(t, i) =~= strings_upto(t, j).subrange(
            0,
            strings_upto(t, i).len() as int,
        ));
    } else {
        assert(strings_upto(t, i) =~= strings_upto(t, j).subrange(
            0,
            strings_upto(t, i).len() as int,
        ));
    }
}

/// Each record is 24 bytes long.
pub proof fn lemma_record_buf_len(t: Seq<Elem>, k: int)
    ensures
        record_buf(t, k).len() == 24,
    decreases k,
{
    if k > 0 {
        lemma_record_buf_len(t, k - 1);
    }
}

/// The records of `k` elements take `24 * k` bytes.
pub proof fn lemma_records_upto_len(t: Seq<Elem>, k: int)
    requires
        0 <= k,
    ensures
        records_upto(t, k).len() == 24 * k,
    decreases k,
{
    if k > 0 {
        lemma_records_upto_len(t, k - 1);
        lemma_record_buf_len(t, k);
    }
}

/// Appends the bytes of `b` to `out`.
pub(crate) fn append_bytes(out: &mut Vec<u8>, b: &[u8])
    ensures
        final(out)@ == old(out)@ + b@,
{
    let mut i: usize = 0;
    while i < b.len()
        invariant
            i <= b@.len(),
            out@ == old(out)@ + b@.subrange(0, i as int),
        decreases b@.len() - i,
    {
        out.push(b[i]);
        i += 1;
        assert(out@ =~= old(out)@ + b@.subrange(0, i as int));
    }
    assert(b@.subrange(0, i as int) =~= b@);
}

/// Whether the strings of `tuple` together fit the `i32` length field of the header.
pub fn string_area_fits(tuple: &Vec<E>) -> (r: bool)
    ensures
        r == strings_fit(tuple.deep_view()),
{
    let ghost t = tuple.deep_view();
    let mut total: u64 = 0;
    let mut i: usize = 0;
    while i < tuple.len()
        invariant
            i <= tuple@.len(),
            t == tuple.deep_view(),
            total == strings_upto(t, i as int).len(),
            total <= i32::MAX,
        decreases tuple@.len() - i,
    {
        match &tuple[i] {
            E::S(s) => {
                assert(t[i as int] == Elem::Str(s@));
                let n: usize = s.as_str().as_bytes().len();
                if n as u64 > i32::MAX as u64 - total {
                    proof {
                        lemma_strings_upto_mono(t, i + 1, t.len() as int);
                    }
                    return false;
                }
                total = total + n as u64;
            },
            _ => {},
        }
        i += 1;
    }
    true
}

/// The bytes that send `tuple` to the server: header, records, string area.
pub fn encode_tuple(tuple: &Vec<E>) -> (out: Vec<u8>)
    requires
        strings_fit(tuple.deep_view()),
    ensures
        out@ == encode_spec(tuple.deep_view()),
        out@.len() == 8 + 24 * tuple@.len() + strings_of(tuple.deep_view()).len(),
        i32_at(out@, 0) == tuple@.len() as i32,
        i32_at(out@, 4) == strings_of(tuple.deep_view()).len(),
        forall|k: int|
            0 <= k < tuple@.len() ==> crate::roundtrip::record_holds(
                out@,
                8 + 24 * k,
                #[trigger] tuple.deep_view()[k],
                8 + 24 * (tuple@.len() as int),
                strings_upto(tuple.deep_view(), k).len() as int,
            ),
{
    let out = encode_message(tuple);
    proof {
        crate::roundtrip::lemma_encode_fields(tuple.deep_view());
    }
    out
}

/// Writes the header, the records and the string area of `tuple`.
fn encode_message(tuple: &Vec<E>) -> (out: Vec<u8>)
    requires
        strings_fit(tuple.deep_view()),
    ensures
        out@ == encode_spec(tuple.deep_view()),
{
    let ghost t = tuple.deep_view();
    let mut out: Vec<u8> = Vec::new();
    append_bytes(&mut out, &ti(tuple.len() as i32));

    let mut string_length: i32 = 0;
    let mut i: usize = 0;
    while i < tuple.len()
        invariant
            i <= tuple@.len(),
            t == tuple.deep_view(),
            strings_fit(t),
            string_length == strings_upto(t, i as int).len(),
            out@ == i32_le(t.len() as i32),
        decreases tuple@.len() - i,
    {
        proof {
            lemma_strings_upto_mono(t, i + 1, t.len() as int);
        }
        match &tuple[i] {
            E::S(s) => {
                assert(t[i as int] == Elem::Str(s@));
                let n: usize = s.as_str().as_bytes().len();
                string_length = string_length + n as i32;
            },
            _ => {},
        }
        i += 1;
    }
    append_bytes(&mut out, &ti(string_length));
    assert(out@ =~= header_of(t));

    string_length = 0;
    let mut buff: [u8; 24] = [0u8; 24];
    assert(buff@ =~= record_buf(t, 0));
    i = 0;
    while i < tuple.len()
        invariant
            i <= tuple@.len(),
            t == tuple.deep_view(),
            strings_fit(t),
            string_length == strings_upto(t, i as int).len(),
            buff@ == record_buf(t, i as int),
            out@ == header_of(t) + records_upto(t, i as int),
        decreases tuple@.len() - i,
    {
        proof {
            lemma_strings_upto_mono(t, i + 1, t.len() as int);
        }
        match &tuple[i] {
            E::I(v) => {
                ctoi(&mut buff, ASCII_I, 0);
                ctoi(&mut buff, *v, 8);
            },
            E::D(d) => {
                ctoi(&mut buff, ASCII_D, 0);
                ctod(&mut buff, *d, 8);
            },
            E::S(s) => {
                let n: usize = s.as_str().as_bytes().len();
                ctoi(&mut buff, ASCII_S, 0);
                ctoi(&mut buff, string_length, 8);
                ctoi(&mut buff, n as i32, 16);
                string_length = string_length + n as i32;
            },
            E::Wildcard => {
                ctoi(&mut buff, ASCII_Q, 0);
            },
        }
        append_bytes(&mut out, &buff);
        i += 1;
        assert(out@ =~= header_of(t) + records_upto(t, i as int));
    }

    i = 0;
    while i < tuple.len()
        invariant
            i <= tuple@.len(),
            t == tuple.deep_view(),
            out@ == header_of(t) + records_upto(t, t.len() as int) + strings_upto(t, i as int),
        decreases tuple@.len() - i,
    {
        match &tuple[i] {
            E::S(s) => {
                append_bytes(&mut out, s.as_str().as_bytes());
            },
            _ => {},
        }
        i += 1;
        assert(out@ =~= header_of(t) + records_upto(t, t.len() as int) + strings_upto(
            t,
            i as int,
        ));
    }
    out
}


/// Where a string element's bytes lie in the string area, as a record gives them.
#[derive(Clone, Copy, PartialEq, Eq, Structural, Debug)]
pub struct StrDesc {
    pub used: bool,
    pub offset: i32,
    pub len: i32,
}

/// Why received bytes do not make a tuple.
#[derive(Clone, Copy, PartialEq, Eq, Structural, Debug)]
pub enum DecodeError {
    /// The bytes end before the message does.
    Truncated,
    /// The header gives the string area a negative length.
    NegativeStringLength,
    /// Fewer records were understood than the header counts, and the string area is not empty.
    MissingDescriptor,
    /// A string record points outside the string area.
    BadStringRange,
    /// A string's bytes are not UTF-8.
    InvalidUtf8,
    /// A string record has no element of its own to fill (a wildcard record came before it).
    MissingElement,
}

/// The descriptor of an element that is not a string.
pub open spec fn plain_desc() -> StrDesc {
    StrDesc { used: false, offset: 0, len: 0 }
}

/// The element count of the header, negative counts read as none.
pub open spec fn element_count(b: Seq<u8>) -> int {
    if i32_at(b, 0) < 0 {
        0
    } else {
        i32_at(b, 0) as int
    }
}

/// Where the string area of a received message starts.
pub open spec fn body_end(b: Seq<u8>) -> int {
    8 + 24 * element_count(b)
}

/// The length of a received message, by its header.
pub open spec fn frame_len(b: Seq<u8>) -> int {
    body_end(b) + i32_at(b, 4)
}

/// The elements and string descriptors read from the first `k` records of `b`. An element
/// with an unknown tag yields neither; a wildcard yields a descriptor but no element.
pub open spec fn read_records(b: Seq<u8>, k: int) -> (Seq<Elem>, Seq<StrDesc>)
    decreases k,
{
    if k <= 0 {
        (seq![], seq![])
    } else {
        let (t, d) = read_records(b, k - 1);
        let base = 8 + 24 * (k - 1);
        let tag = i32_at(b, base);
        if tag == ASCII_I {
            (t.push(Elem::Int(i32_at(b, base + 8))), d.push(plain_desc()))
        } else if tag == ASCII_D {
            (t.push(Elem::Double(u64_at(b, base + 8))), d.push(plain_desc()))
        } else if tag == ASCII_S {
            (
                t.push(Elem::Str(seq![])),
                d.push(StrDesc { used: true, offset: i32_at(b, base + 8), len: i32_at(b, base + 16) }),
            )
        } else if tag == ASCII_Q {
            (t, d.push(plain_desc()))
        } else {
            (t, d)
        }
    }
}

/// Filling in the strings of the first `k` descriptors: descriptor `i` gives the string of
/// element `i`, taken from `space`.
pub open spec fn fill_strings(t: Seq<Elem>, d: Seq<StrDesc>, space: Seq<u8>, k: int) -> Result<
    Seq<Elem>,
    DecodeError,
>
    decreases k,
{
    if k <= 0 {
        Ok(t)
    } else {
        match fill_strings(t, d, space, k - 1) {
            Err(e) => Err(e),
            Ok(t2) => {
                let i = k - 1;
                if i >= d.len() {
                    Err(DecodeError::MissingDescriptor)
                } else if !d[i].used {
                    Ok(t2)
                } else if d[i].offset < 0 || d[i].len < 0 || d[i].offset + d[i].len > space.len() {
                    Err(DecodeError::BadStringRange)
                } else if !valid_utf8(
                    space.subrange(d[i].offset as int, d[i].offset + d[i].len),
                ) {
                    Err(DecodeError::InvalidUtf8)
                } else if i >= t2.len() {
                    Err(DecodeError::MissingElement)
                } else {
                    Ok(
                        t2.update(
                            i,
                            Elem::Str(
                                decode_utf8(
                                    space.subrange(d[i].offset as int, d[i].offset + d[i].len),
                                ),
                            ),
                        ),
                    )
                }
            },
        }
    }
}

/// The tuple that a received message `b` carries, with the number of bytes it takes.
/// A count of -1 is the server's answer that nothing matched: an empty tuple.
#[verifier::opaque]
pub open spec fn decode_spec(b: Seq<u8>) -> Result<(Seq<Elem>, int), DecodeError> {
    if b.len() < 4 {
        Err(DecodeError::Truncated)
    } else if i32_at(b, 0) == -1 {
        Ok((seq![], 4))
    } else if b.len() < 8 {
        Err(DecodeError::Truncated)
    } else if i32_at(b, 4) < 0 {
        Err(DecodeError::NegativeStringLength)
    } else if b.len() < frame_len(b) {
        Err(DecodeError::Truncated)
    } else {
        let (t, d) = read_records(b, element_count(b));
        if i32_at(b, 4) == 0 {
            Ok((t, frame_len(b)))
        } else {
            match fill_strings(t, d, b.subrange(body_end(b), frame_len(b)), element_count(b)) {
                Ok(t2) => Ok((t2, frame_len(b))),
                Err(e) => Err(e),
            }
        }
    }
}

/// Once filling fails, it fails the same way for every longer prefix.
pub proof fn lemma_fill_err_sticks(t: Seq<Elem>, d: Seq<StrDesc>, space: Seq<u8>, k1: int, k2: int)
    requires
        k1 <= k2,
        fill_strings(t, d, space, k1) is Err,
    ensures
        fill_strings(t, d, space, k2) == fill_strings(t, d, space, k1),
    decreases k2 - k1,
{
    if k1 < k2 {
        lemma_fill_err_sticks(t, d, space, k1, k2 - 1);
    }
}

/// Wraps `String::from_utf8`: as std documents it, the call returns the string made of
/// exactly the given bytes when they are valid UTF-8, and an error otherwise (here `None`).
#[verifier::external_body]
pub(crate) fn string_from_utf8(bytes: Vec<u8>) -> (r: Option<String>)
    ensures
        r is Some <==> valid_utf8(bytes@),
        r matches Some(s) ==> s@ == decode_utf8(bytes@),
{
    match String::from_utf8(bytes) {
        Ok(s) => Some(s),
        Err(_) => None,
    }
}

/// Reads one tuple from the front of `bytes`, and says how many bytes it took.
pub fn decode_tuple(bytes: &[u8]) -> (r: Result<(Vec<E>, usize), DecodeError>)
    ensures
        match r {
            Ok((t, n)) => decode_spec(bytes@) == Ok::<(Seq<Elem>, int), DecodeError>(
                (t.deep_view(), n as int),
            ),
            Err(e) => decode_spec(bytes@) == Err::<(Seq<Elem>, int), DecodeError>(e),
        },
{
    reveal(decode_spec);
    let ghost b = bytes@;
    if bytes.len() < 4 {
        return Err(DecodeError::Truncated);
    }
    let num_elements = ciot(bytes, 0);
    if num_elements == -1 {
        let empty: Vec<E> = Vec::new();
        assert(empty.deep_view() =~= seq![]);
        return Ok((empty, 4));
    }
    if bytes.len() < 8 {
        return Err(DecodeError::Truncated);
    }
    let string_length = ciot(bytes, 4);
    if string_length < 0 {
        return Err(DecodeError::NegativeStringLength);
    }
    let n: usize = if num_elements < 0 {
        0
    } else {
        num_elements as usize
    };
    assert(n == element_count(b));
    let total: u64 = 8 + 24 * (n as u64) + string_length as u64;
    if total > bytes.len() as u64 {
        return Err(DecodeError::Truncated);
    }
    let space_start: usize = 8 + 24 * n;
    let total: usize = total as usize;

    let mut tuple: Vec<E> = Vec::new();
    let mut descs: Vec<StrDesc> = Vec::new();
    let mut i: usize = 0;
    assert(tuple.deep_view() =~= read_records(b, 0).0);
    while i < n
        invariant
            b == bytes@,
            i <= n,
            space_start == 8 + 24 * n,
            space_start <= bytes@.len(),
            tuple.deep_view() == read_records(b, i as int).0,
            descs@ == read_records(b, i as int).1,
        decreases n - i,
    {
        let base: usize = 8 + 24 * i;
        let tag = ciot(bytes, base);
        let ghost prev_t = tuple.deep_view();
        if tag == ASCII_I {
            tuple.push(E::I(ciot(bytes, base + 8)));
            descs.push(StrDesc { used: false, offset: 0, len: 0 });
        } else if tag == ASCII_D {
            tuple.push(E::D(cdot(bytes, base + 8)));
            descs.push(StrDesc { used: false, offset: 0, len: 0 });
        } else if tag == ASCII_S {
            let offset = ciot(bytes, base + 8);
            let len = ciot(bytes, base + 16);
            descs.push(StrDesc { used: true, offset, len });
            tuple.push(E::S(String::new()));
        } else if tag == ASCII_Q {
            descs.push(StrDesc { used: false, offset: 0, len: 0 });
        }
        i += 1;
        assert(tuple.deep_view() =~= read_records(b, i as int).0);
        assert(descs@ =~= read_records(b, i as int).1);
    }

    if string_length != 0 {
        let ghost t1 = tuple.deep_view();
        let ghost d = descs@;
        let ghost space = b.subrange(space_start as int, total as int);
        let space_len: usize = string_length as usize;
        i = 0;
        while i < n
            invariant
                b == bytes@,
                i <= n,
                n == element_count(b),
                space_start + space_len == total,
                total <= bytes@.len(),
                space == b.subrange(space_start as int, total as int),
                space_len == space.len(),
                descs@ == d,
                t1 == read_records(b, n as int).0,
                d == read_records(b, n as int).1,
                space_start == body_end(b),
                total == frame_len(b),
                i32_at(b, 4) != 0,
                b.len() >= 8,
                i32_at(b, 0) != -1,
                i32_at(b, 4) >= 0,
                fill_strings(t1, d, space, i as int) == Ok::<Seq<Elem>, DecodeError>(
                    tuple.deep_view(),
                ),
            decreases n - i,
        {
            proof {
                reveal(decode_spec);
            }
            if i >= descs.len() {
                proof {
                    lemma_fill_err_sticks(t1, d, space, i + 1, n as int);
                }
                return Err(DecodeError::MissingDescriptor);
            }
            let desc = descs[i];
            if desc.used {
                if desc.offset < 0 || desc.len < 0 || desc.offset as u64 + desc.len as u64
                    > space_len as u64 {
                    proof {
                        lemma_fill_err_sticks(t1, d, space, i + 1, n as int);
                    }
                    return Err(DecodeError::BadStringRange);
                }
                let start: usize = space_start + desc.offset as usize;
                let end: usize = start + desc.len as usize;
                let piece = slice_to_vec(slice_subrange(bytes, start, end));
                assert(piece@ =~= space.subrange(
                    desc.offset as int,
                    desc.offset + desc.len,
                ));
                match string_from_utf8(piece) {
                    None => {
                        proof {
                            lemma_fill_err_sticks(t1, d, space, i + 1, n as int);
                        }
                        return Err(DecodeError::InvalidUtf8);
                    },
                    Some(s) => {
                        if i >= tuple.len() {
                            proof {
                                lemma_fill_err_sticks(t1, d, space, i + 1, n as int);
                            }
                            return Err(DecodeError::MissingElement);
                        }
                        let ghost prev = tuple.deep_view();
                        tuple[i] = E::S(s);
                        assert(tuple.deep_view() =~= prev.update(i as int, Elem::Str(s@)));
                    },
                }
            }
            i += 1;
        }
        assert(b.subrange(body_end(b), frame_len(b)) == space);
    }
    Ok((tuple, total))
}

} // verus!
