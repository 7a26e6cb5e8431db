//! What a receiver reads back of what a sender wrote.
use vstd::prelude::*;
use vstd::utf8::{encode_utf8, decode_utf8, encode_utf8_valid_utf8, encode_utf8_decode_utf8};
use crate::wire::{
    i32_le, u64_le, i32_at, u64_at, splice, lemma_i32_le_roundtrip, lemma_i32_at_same_bytes,
    lemma_u64_at_same_bytes, lemma_i32_at_splice, lemma_u64_at_splice, lemma_i32_at_splice_other,
};
use crate::tuple::{
    Elem, StrDesc, ASCII_I, ASCII_D, ASCII_S, ASCII_Q, str_bytes, strings_upto, strings_of,
    strings_fit, record_after, record_buf, records_upto, encode_spec, plain_desc,
    element_count, body_end, frame_len, read_records, fill_strings, decode_spec,
    lemma_strings_upto_mono, lemma_record_buf_len, lemma_records_upto_len,
};

verus! {

/// No element of `t` is a wildcard.
pub open spec fn no_wildcards(t: Seq<Elem>) -> bool {
    forall|j: int| 0 <= j < t.len() ==> !(#[trigger] t[j] is Wildcard)
}

/// What the tuple can carry on the wire and read back: its element count and its string
/// bytes fit the `i32` fields of the header, and it has no wildcards.
pub open spec fn sendable(t: Seq<Elem>) -> bool {
    &&& t.len() <= i32::MAX
    &&& strings_fit(t)
    &&& no_wildcards(t)
}

/// The first `k` elements of `t` as the records alone give them: strings still empty.
pub open spec fn blank_strings(t: Seq<Elem>, k: int) -> Seq<Elem> {
    Seq::new(k as nat, |j: int| if t[j] is Str { Elem::Str(seq![]) } else { t[j] })
}

/// The string descriptors of the first `k` elements of `t`, as `encode_spec` writes them.
pub open spec fn descs_of(t: Seq<Elem>, k: int) -> Seq<StrDesc> {
    Seq::new(
        k as nat,
        |j: int|
            match t[j] {
                Elem::Str(s) => StrDesc {
                    used: true,
                    offset: strings_upto(t, j).len() as i32,
                    len: encode_utf8(s).len() as i32,
                },
                _ => plain_desc(),
            },
    )
}

/// Record `j` of the records of `k` elements is the record buffer after element `j`.
proof fn lemma_record_slice(t: Seq<Elem>, k: int, j: int)
    requires
        0 <= j < k,
    ensures
        records_upto(t, k).subrange(24 * j, 24 * j + 24) == record_buf(t, j + 1),
    decreases k,
{
    lemma_records_upto_len(t, k - 1);
    lemma_record_buf_len(t, k);
    if j < k - 1 {
        lemma_record_slice(t, k - 1, j);
        lemma_records_upto_len(t, k - 1);
        assert(records_upto(t, k).subrange(24 * j, 24 * j + 24) =~= records_upto(
            t,
            k - 1,
        ).subrange(24 * j, 24 * j + 24));
    } else {
        assert(records_upto(t, k).subrange(24 * j, 24 * j + 24) =~= record_buf(t, k));
    }
}

/// A string element's bytes sit in the string area right after those of the elements
/// before it.
proof fn lemma_string_slice(t: Seq<Elem>, j: int)
    requires
        0 <= j < t.len(),
    ensures
        strings_upto(t, j + 1).len() == strings_upto(t, j).len() + str_bytes(t[j]).len(),
        strings_upto(t, j + 1).len() <= strings_of(t).len(),
        strings_of(t).subrange(
            strings_upto(t, j).len() as int,
            strings_upto(t, j + 1).len() as int,
        ) == str_bytes(t[j]),
{
    lemma_strings_upto_mono(t, j + 1, t.len() as int);
    let a = strings_upto(t, j);
    let c = strings_upto(t, j + 1);
    assert(c == a + str_bytes(t[j]));
    assert(strings_of(t).subrange(a.len() as int, c.len() as int) =~= c.subrange(
        a.len() as int,
        c.len() as int,
    ));
    assert(c.subrange(a.len() as int, c.len() as int) =~= str_bytes(t[j]));
}

/// The fields that record `j` holds for element `j`.
proof fn lemma_record_fields(t: Seq<Elem>, j: int)
    requires
        0 <= j < t.len(),
        strings_fit(t),
    ensures
        ({
            let r = record_buf(t, j + 1);
            let off = strings_upto(t, j).len();
            &&& r.len() == 24
            &&& match t[j] {
                Elem::Int(i) => i32_at(r, 0) == ASCII_I && i32_at(r, 8) == i,
                Elem::Double(d) => i32_at(r, 0) == ASCII_D && u64_at(r, 8) == d,
                Elem::Str(s) => i32_at(r, 0) == ASCII_S && i32_at(r, 8) == off && i32_at(r, 16)
                    == encode_utf8(s).len(),
                Elem::Wildcard => i32_at(r, 0) == ASCII_Q,
            }
        }),
{
    lemma_record_buf_len(t, j);
    lemma_string_slice(t, j);
    let prev = record_buf(t, j);
    let off = strings_upto(t, j).len() as int;
    assert(record_buf(t, j + 1) == record_after(prev, t[j], off));
    match t[j] {
        Elem::Int(i) => {
            let r0 = splice(prev, 0, i32_le(ASCII_I));
            lemma_i32_at_splice(prev, 0, ASCII_I);
            lemma_i32_at_splice_other(r0, 8, i32_le(i), 0);
            lemma_i32_at_splice(r0, 8, i);
        },
        Elem::Double(d) => {
            let r0 = splice(prev, 0, i32_le(ASCII_D));
            lemma_i32_at_splice(prev, 0, ASCII_D);
            lemma_i32_at_splice_other(r0, 8, u64_le(d), 0);
            lemma_u64_at_splice(r0, 8, d);
        },
        Elem::Str(s) => {
            let r0 = splice(prev, 0, i32_le(ASCII_S));
            let r1 = splice(r0, 8, i32_le(off as i32));
            let l = encode_utf8(s).len() as i32;
            lemma_i32_at_splice(prev, 0, ASCII_S);
            lemma_i32_at_splice_other(r0, 8, i32_le(off as i32), 0);
            lemma_i32_at_splice_other(r1, 16, i32_le(l), 0);
            lemma_i32_at_splice(r0, 8, off as i32);
            lemma_i32_at_splice_other(r1, 16, i32_le(l), 8);
            lemma_i32_at_splice(r1, 16, l);
        },
        Elem::Wildcard => {
            lemma_i32_at_splice(prev, 0, ASCII_Q);
        },
    }
}

/// Where the message of `t` is followed by other bytes, the fixed-width fields that a
/// receiver reads from record `j` are those that element `j` wrote.
proof fn lemma_read_record(t: Seq<Elem>, rest: Seq<u8>, j: int)
    requires
        0 <= j < t.len(),
        strings_fit(t),
    ensures
        ({
            let b = encode_spec(t) + rest;
            let r = record_buf(t, j + 1);
            let base = 8 + 24 * j;
            &&& i32_at(b, base) == i32_at(r, 0)
            &&& i32_at(b, base + 8) == i32_at(r, 8)
            &&& i32_at(b, base + 16) == i32_at(r, 16)
            &&& u64_at(b, base + 8) == u64_at(r, 8)
        }),
{
    let n = t.len() as int;
    let b = encode_spec(t) + rest;
    let r = record_buf(t, j + 1);
    let base = 8 + 24 * j;
    lemma_i32_le_roundtrip(0);
    lemma_records_upto_len(t, n);
    lemma_record_slice(t, n, j);
    lemma_record_buf_len(t, j + 1);
    assert(b.subrange(base, base + 24) =~= records_upto(t, n).subrange(24 * j, 24 * j + 24));
    assert(b.subrange(base, base + 4) =~= r.subrange(0, 4));
    assert(b.subrange(base + 8, base + 12) =~= r.subrange(8, 12));
    assert(b.subrange(base + 16, base + 20) =~= r.subrange(16, 20));
    assert(b.subrange(base + 8, base + 16) =~= r.subrange(8, 16));
    lemma_i32_at_same_bytes(b, base, r, 0);
    lemma_i32_at_same_bytes(b, base + 8, r, 8);
    lemma_i32_at_same_bytes(b, base + 16, r, 16);
    lemma_u64_at_same_bytes(b, base + 8, r, 8);
}

/// The header of the message of `t` gives its element count and string-area length, and
/// the message is the header, one 24-byte record per element, and the string bytes.
pub proof fn lemma_read_header(t: Seq<Elem>, rest: Seq<u8>)
    requires
        t.len() <= i32::MAX,
        strings_fit(t),
    ensures
        ({
            let b = encode_spec(t) + rest;
            &&& i32_at(b, 0) == t.len()
            &&& i32_at(b, 4) == strings_of(t).len()
            &&& encode_spec(t).len() == 8 + 24 * t.len() + strings_of(t).len()
        }),
{
    let n = t.len() as int;
    let b = encode_spec(t) + rest;
    lemma_i32_le_roundtrip(n as i32);
    lemma_i32_le_roundtrip(strings_of(t).len() as i32);
    lemma_records_upto_len(t, n);
    assert(b.subrange(0, 4) =~= i32_le(n as i32).subrange(0, 4));
    assert(b.subrange(4, 8) =~= i32_le(strings_of(t).len() as i32).subrange(0, 4));
    lemma_i32_at_same_bytes(b, 0, i32_le(n as i32), 0);
    lemma_i32_at_same_bytes(b, 4, i32_le(strings_of(t).len() as i32), 0);
}

/// Reading the records of the message of `t` gives its elements with empty strings, and
/// the descriptors of its strings.
proof fn lemma_read_records(t: Seq<Elem>, rest: Seq<u8>, k: int)
    requires
        sendable(t),
        0 <= k <= t.len(),
    ensures
        read_records(encode_spec(t) + rest, k) == (blank_strings(t, k), descs_of(t, k)),
    decreases k,
{
    if k > 0 {
        let b = encode_spec(t) + rest;
        let j = k - 1;
        lemma_read_records(t, rest, j);
        lemma_read_record(t, rest, j);
        lemma_record_fields(t, j);
        lemma_string_slice(t, j);
        assert(!(t[j] is Wildcard));
        let (bt, bd) = read_records(b, j);
        match t[j] {
            Elem::Str(s) => {
                assert(bt.push(Elem::Str(seq![])) =~= blank_strings(t, k));
                assert(bd.push(
                    StrDesc {
                        used: true,
                        offset: i32_at(b, 8 + 24 * j + 8),
                        len: i32_at(b, 8 + 24 * j + 16),
                    },
                ) =~= descs_of(t, k));
            },
            _ => {
                assert(bd.push(plain_desc()) =~= descs_of(t, k));
                assert(bt.push(t[j]) =~= blank_strings(t, k));
            },
        }
    } else {
        assert(blank_strings(t, 0) =~= seq![]);
        assert(descs_of(t, 0) =~= seq![]);
    }
}

/// Filling in the strings from the string area of `t` restores the first `k` elements.
proof fn lemma_fill(t: Seq<Elem>, k: int)
    requires
        sendable(t),
        0 <= k <= t.len(),
    ensures
        fill_strings(
            blank_strings(t, t.len() as int),
            descs_of(t, t.len() as int),
            strings_of(t),
            k,
        ) == Ok::<Seq<Elem>, crate::tuple::DecodeError>(
            Seq::new(
                t.len(),
                |j: int|
                    if j < k {
                        t[j]
                    } else {
                        blank_strings(t, t.len() as int)[j]
                    },
            ),
        ),
    decreases k,
{
    let n = t.len() as int;
    let bl = blank_strings(t, n);
    let d = descs_of(t, n);
    let space = strings_of(t);
    if k == 0 {
        assert(Seq::new(t.len(), |j: int| if j < k { t[j] } else { bl[j] }) =~= bl);
    } else {
        let j = k - 1;
        lemma_fill(t, j);
        let prev = Seq::new(t.len(), |x: int| if x < j { t[x] } else { bl[x] });
        let next = Seq::new(t.len(), |x: int| if x < k { t[x] } else { bl[x] });
        lemma_string_slice(t, j);
        match t[j] {
            Elem::Str(s) => {
                let off = strings_upto(t, j).len() as int;
                let len = encode_utf8(s).len() as int;
                assert(d[j].offset == off);
                assert(d[j].len == len);
                assert(space.subrange(off, off + len) == encode_utf8(s));
                encode_utf8_valid_utf8(s);
                encode_utf8_decode_utf8(s);
                assert(prev.update(j, Elem::Str(decode_utf8(encode_utf8(s)))) =~= next);
            },
            _ => {
                assert(!(t[j] is Wildcard));
                assert(prev =~= next);
            },
        }
    }
}

/// A string with no bytes is the empty string.
proof fn lemma_empty_encoding(s: Seq<char>)
    requires
        encode_utf8(s).len() == 0,
    ensures
        s == Seq::<char>::empty(),
{
    encode_utf8_decode_utf8(s);
    assert(encode_utf8(s) =~= Seq::<u8>::empty());
    assert(decode_utf8(Seq::<u8>::empty()) =~= Seq::<char>::empty());
}

/// Law: a receiver reads back exactly the tuple that was sent, and takes exactly the bytes
/// of its message, whatever follows them on the connection. This holds of every tuple whose
/// count and string bytes fit the header's `i32` fields and that has no wildcard (a received
/// wildcard record yields no element).
pub proof fn lemma_decode_encode(t: Seq<Elem>, rest: Seq<u8>)
    requires
        sendable(t),
    ensures
        decode_spec(encode_spec(t) + rest) == Ok::<(Seq<Elem>, int), crate::tuple::DecodeError>(
            (t, encode_spec(t).len() as int),
        ),
{
    reveal(decode_spec);
    let n = t.len() as int;
    let b = encode_spec(t) + rest;
    lemma_read_header(t, rest);
    assert(element_count(b) == n);
    assert(frame_len(b) == encode_spec(t).len());
    lemma_read_records(t, rest, n);
    let space = b.subrange(body_end(b), frame_len(b));
    lemma_records_upto_len(t, n);
    assert(space =~= strings_of(t));
    if strings_of(t).len() == 0 {
        assert forall|j: int| 0 <= j < n implies blank_strings(t, n)[j] == t[j] by {
            lemma_string_slice(t, j);
            if let Elem::Str(s) = t[j] {
                lemma_empty_encoding(s);
            }
        }
        assert(blank_strings(t, n) =~= t);
    } else {
        lemma_fill(t, n);
        assert(Seq::new(t.len(), |j: int| if j < n { t[j] } else { blank_strings(t, n)[j] })
            =~= t);
    }
}

/// The tag that marks an element's kind on the wire.
pub open spec fn tag_of(e: Elem) -> i32 {
    match e {
        Elem::Int(_) => ASCII_I,
        Elem::Double(_) => ASCII_D,
        Elem::Str(_) => ASCII_S,
        Elem::Wildcard => ASCII_Q,
    }
}

/// What the record at `base` of message `m` holds for element `e`, whose string bytes (if
/// any) start `str_off` bytes into the string area that begins at `area`: the element's tag,
/// then its value, or for a string the offset and length of its bytes, which are there.
pub open spec fn record_holds(m: Seq<u8>, base: int, e: Elem, area: int, str_off: int) -> bool {
    &&& i32_at(m, base) == tag_of(e)
    &&& match e {
        Elem::Int(i) => i32_at(m, base + 8) == i,
        Elem::Double(d) => u64_at(m, base + 8) == d,
        Elem::Str(s) => {
            &&& i32_at(m, base + 8) == str_off
            &&& i32_at(m, base + 16) == encode_utf8(s).len()
            &&& m.subrange(area + str_off, area + str_off + encode_utf8(s).len()) == encode_utf8(s)
        },
        Elem::Wildcard => true,
    }
}

/// Law: the message of a tuple is an 8-byte header that gives the element count and the
/// length of the string area, then one 24-byte record per element in order, each with the
/// element's tag and value (a string's record points at its UTF-8 bytes, which follow the
/// records in order), and nothing more. Wildcards included.
pub proof fn lemma_encode_fields(t: Seq<Elem>)
    requires
        strings_fit(t),
    ensures
        encode_spec(t).len() == 8 + 24 * t.len() + strings_of(t).len(),
        i32_at(encode_spec(t), 0) == t.len() as i32,
        i32_at(encode_spec(t), 4) == strings_of(t).len(),
        forall|k: int|
            0 <= k < t.len() ==> record_holds(
                encode_spec(t),
                8 + 24 * k,
                #[trigger] t[k],
                8 + 24 * (t.len() as int),
                strings_upto(t, k).len() as int,
            ),
{
    let n = t.len() as int;
    let m = encode_spec(t);
    let area = 8 + 24 * n;
    lemma_i32_le_roundtrip(n as i32);
    lemma_i32_le_roundtrip(strings_of(t).len() as i32);
    lemma_records_upto_len(t, n);
    assert(m + seq![] =~= m);
    assert(m.subrange(0, 4) =~= i32_le(n as i32).subrange(0, 4));
    assert(m.subrange(4, 8) =~= i32_le(strings_of(t).len() as i32).subrange(0, 4));
    lemma_i32_at_same_bytes(m, 0, i32_le(n as i32), 0);
    lemma_i32_at_same_bytes(m, 4, i32_le(strings_of(t).len() as i32), 0);
    assert forall|k: int| 0 <= k < t.len() implies record_holds(
        m,
        8 + 24 * k,
        #[trigger] t[k],
        area,
        strings_upto(t, k).len() as int,
    ) by {
        lemma_read_record(t, seq![], k);
        lemma_record_fields(t, k);
        lemma_string_slice(t, k);
        let off = strings_upto(t, k).len() as int;
        if let Elem::Str(s) = t[k] {
            assert(m.subrange(area + off, area + off + encode_utf8(s).len()) =~= strings_of(
                t,
            ).subrange(off, off + encode_utf8(s).len()));
        }
    }
}

} // verus!
