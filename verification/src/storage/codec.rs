use super::error::{corrupt, corrupt_with_number, DbError, SpecDbError};
use super::le::{
    le_bytes, le_value, lemma_le_bytes_len, lemma_le_bytes_of_value, lemma_le_roundtrip,
    lemma_le_value_bound, lemma_pow256_values, pow256, push_le, read_le,
};
use super::page::{PageId, NO_PAGE};
use super::schema::{columns_view, names_distinct, Column, Schema, SpecColumn};
use super::table::{SpecTable, Table};
use crate::row::{values_view, Row};
use crate::value::{DataType, SpecValue, Value};
use vstd::prelude::*;
use vstd::utf8::{decode_utf8, encode_utf8, valid_utf8};

verus! {

broadcast use {
    vstd::utf8::encode_utf8_valid_utf8,
    vstd::utf8::encode_utf8_decode_utf8,
    vstd::utf8::decode_utf8_encode_utf8,
};

/// The byte of a boolean.
pub open spec fn bool_byte(b: bool) -> u8 {
    if b {
        1
    } else {
        0
    }
}

/// The stored form of one value: a marker byte, then the payload.
pub open spec fn value_bytes(v: SpecValue) -> Seq<u8> {
    match v {
        SpecValue::Null => seq![0u8],
        SpecValue::Integer(i) => seq![1u8] + le_bytes((i as u64) as nat, 8),
        SpecValue::Boolean(b) => seq![2u8, bool_byte(b)],
        SpecValue::Text(s) => seq![3u8] + le_bytes(encode_utf8(s).len(), 4) + encode_utf8(s),
    }
}

/// The stored forms of the values, one after the other.
pub open spec fn values_bytes(vs: Seq<SpecValue>) -> Seq<u8>
    decreases vs.len(),
{
    if vs.len() == 0 {
        Seq::empty()
    } else {
        values_bytes(vs.drop_last()) + value_bytes(vs.last())
    }
}

/// The stored form of a row: the number of values, then the values.
pub open spec fn row_bytes(vs: Seq<SpecValue>) -> Seq<u8> {
    le_bytes(vs.len(), 2) + values_bytes(vs)
}

/// A value whose text fits the 32-bit length field.
pub open spec fn encodable_value(v: SpecValue) -> bool {
    match v {
        SpecValue::Text(s) => encode_utf8(s).len() <= 0xffff_ffff,
        _ => true,
    }
}

/// A row whose column count fits 16 bits and whose texts fit 32 bits.
pub open spec fn encodable_row(vs: Seq<SpecValue>) -> bool {
    &&& vs.len() <= 0xffff
    &&& forall|i: int| 0 <= i < vs.len() ==> #[trigger] encodable_value(vs[i])
}

proof fn lemma_values_bytes_split(vs: Seq<SpecValue>, i: int)
    requires
        0 <= i <= vs.len(),
    ensures
        values_bytes(vs) == values_bytes(vs.take(i)) + values_bytes(vs.skip(i)),
    decreases vs.len(),
{
    if i == vs.len() {
        assert(vs.take(i) =~= vs);
        assert(vs.skip(i) =~= Seq::<SpecValue>::empty());
        assert(values_bytes(vs) + Seq::<u8>::empty() =~= values_bytes(vs));
    } else {
        lemma_values_bytes_split(vs.drop_last(), i);
        assert(vs.drop_last().take(i) =~= vs.take(i));
        assert(vs.skip(i).drop_last() =~= vs.drop_last().skip(i));
        assert(vs.skip(i).last() == vs.last());
        assert(values_bytes(vs.take(i)) + values_bytes(vs.skip(i)) =~= values_bytes(vs.take(i))
            + values_bytes(vs.drop_last().skip(i)) + value_bytes(vs.last()));
    }
}

proof fn lemma_values_bytes_first(vs: Seq<SpecValue>)
    requires
        vs.len() > 0,
    ensures
        values_bytes(vs) == value_bytes(vs[0]) + values_bytes(vs.drop_first()),
{
    lemma_values_bytes_split(vs, 1);
    assert(vs.take(1).drop_last() =~= Seq::<SpecValue>::empty());
    assert(values_bytes(Seq::<SpecValue>::empty()) =~= Seq::<u8>::empty());
    assert(vs.take(1).last() == vs[0]);
    assert(values_bytes(vs.take(1)) =~= value_bytes(vs[0]));
    assert(vs.skip(1) =~= vs.drop_first());
}

/// A value's stored form is determined by its first bytes: two values whose
/// forms start two byte strings that are equal are equal, and so are the rests.
proof fn lemma_value_bytes_unique(a: SpecValue, b: SpecValue, ra: Seq<u8>, rb: Seq<u8>)
    requires
        encodable_value(a),
        encodable_value(b),
        value_bytes(a) + ra == value_bytes(b) + rb,
    ensures
        a == b,
        ra == rb,
{
    let s = value_bytes(a) + ra;
    assert(s[0] == value_bytes(a)[0]);
    assert(s[0] == value_bytes(b)[0]);
    lemma_pow256_values();
    match (a, b) {
        (SpecValue::Null, SpecValue::Null) => {
            assert(ra =~= s.skip(1));
            assert(rb =~= s.skip(1));
        },
        (SpecValue::Integer(x), SpecValue::Integer(y)) => {
            lemma_le_roundtrip((x as u64) as nat, 8);
            lemma_le_roundtrip((y as u64) as nat, 8);
            assert(s.subrange(1, 9) =~= le_bytes((x as u64) as nat, 8));
            assert(s.subrange(1, 9) =~= le_bytes((y as u64) as nat, 8));
            assert((x as u64) as i64 == x) by (bit_vector);
            assert((y as u64) as i64 == y) by (bit_vector);
            assert(ra =~= s.skip(9));
            assert(rb =~= s.skip(9));
        },
        (SpecValue::Boolean(x), SpecValue::Boolean(y)) => {
            assert(s[1] == bool_byte(x));
            assert(s[1] == bool_byte(y));
            assert(ra =~= s.skip(2));
            assert(rb =~= s.skip(2));
        },
        (SpecValue::Text(x), SpecValue::Text(y)) => {
            let ex = encode_utf8(x);
            let ey = encode_utf8(y);
            lemma_le_roundtrip(ex.len(), 4);
            lemma_le_roundtrip(ey.len(), 4);
            assert(s.subrange(1, 5) =~= le_bytes(ex.len(), 4));
            assert(s.subrange(1, 5) =~= le_bytes(ey.len(), 4));
            assert(ex.len() == ey.len());
            assert(s.subrange(5, 5 + ex.len() as int) =~= ex);
            assert(s.subrange(5, 5 + ey.len() as int) =~= ey);
            assert(decode_utf8(ex) == x);
            assert(decode_utf8(ey) == y);
            assert(ra =~= s.skip(5 + ex.len() as int));
            assert(rb =~= s.skip(5 + ey.len() as int));
        },
        _ => {},
    }
}

proof fn lemma_values_bytes_unique(a: Seq<SpecValue>, b: Seq<SpecValue>)
    requires
        a.len() == b.len(),
        forall|i: int| 0 <= i < a.len() ==> #[trigger] encodable_value(a[i]),
        forall|i: int| 0 <= i < b.len() ==> #[trigger] encodable_value(b[i]),
        values_bytes(a) == values_bytes(b),
    ensures
        a == b,
    decreases a.len(),
{
    if a.len() > 0 {
        lemma_values_bytes_first(a);
        lemma_values_bytes_first(b);
        assert(encodable_value(a[0]));
        assert(encodable_value(b[0]));
        lemma_value_bytes_unique(a[0], b[0], values_bytes(a.drop_first()), values_bytes(b.drop_first()));
        assert forall|i: int| 0 <= i < a.len() - 1 implies #[trigger] encodable_value(a.drop_first()[i]) by {
            assert(encodable_value(a[i + 1]));
        }
        assert forall|i: int| 0 <= i < b.len() - 1 implies #[trigger] encodable_value(b.drop_first()[i]) by {
            assert(encodable_value(b[i + 1]));
        }
        lemma_values_bytes_unique(a.drop_first(), b.drop_first());
        assert forall|i: int| 0 <= i < a.len() implies a[i] == b[i] by {
            if i > 0 {
                assert(a[i] == a.drop_first()[i - 1]);
                assert(b[i] == b.drop_first()[i - 1]);
            }
        }
        assert(a =~= b);
    } else {
        assert(a =~= b);
    }
}

/// Distinct rows have distinct stored forms.
pub proof fn lemma_row_bytes_injective(a: Seq<SpecValue>, b: Seq<SpecValue>)
    requires
        encodable_row(a),
        encodable_row(b),
        row_bytes(a) == row_bytes(b),
    ensures
        a == b,
{
    lemma_pow256_values();
    lemma_le_roundtrip(a.len(), 2);
    lemma_le_roundtrip(b.len(), 2);
    let s = row_bytes(a);
    assert(s.subrange(0, 2) =~= le_bytes(a.len(), 2));
    assert(s.subrange(0, 2) =~= le_bytes(b.len(), 2));
    assert(values_bytes(a) =~= s.skip(2));
    assert(values_bytes(b) =~= s.skip(2));
    lemma_values_bytes_unique(a, b);
}


/// Appends every byte of `src`.
pub(crate) fn append_bytes(out: &mut Vec<u8>, src: &[u8])
    ensures
        final(out)@ == old(out)@ + src@,
{
    let ghost start = out@;
    let mut i: usize = 0;
    while i < src.len()
        invariant
            i <= src@.len(),
            out@ == start + src@.take(i as int),
        decreases src@.len() - i,
    {
        out.push(src[i]);
        i += 1;
        assert(out@ =~= start + src@.take(i as int));
    }
    assert(src@.take(src@.len() as int) =~= src@);
}

fn encoding_error(message: &str) -> (r: DbError)
    ensures
        r is Encoding,
{
    DbError::Encoding(message.to_owned())
}

/// Serializes a row: a 16-bit value count, then each value as a marker byte
/// and its payload.
pub fn encode_row(row: &Row) -> (r: Result<Vec<u8>, DbError>)
    ensures
        r is Ok <==> encodable_row(row@),
        r matches Ok(bytes) ==> bytes@ == row_bytes(row@),
        r matches Err(e) ==> e is Encoding,
{
    let ghost vs = row@;
    if row.len() > 0xffff {
        return Err(encoding_error("too many columns in a row"));
    }
    let mut out: Vec<u8> = Vec::new();
    push_le(&mut out, row.len() as u64, 2);
    let values = row.values();
    let mut i: usize = 0;
    while i < values.len()
        invariant
            vs == row@,
            values_view(values@) == vs,
            vs.len() <= 0xffff,
            i <= vs.len(),
            out@ == le_bytes(vs.len(), 2) + values_bytes(vs.take(i as int)),
            forall|j: int| 0 <= j < i ==> #[trigger] encodable_value(vs[j]),
        decreases vs.len() - i,
    {
        let ghost before = out@;
        assert(vs[i as int] == values@[i as int]@);
        match &values[i] {
            Value::Null => {
                out.push(0u8);
            },
            Value::Integer(value) => {
                out.push(1u8);
                push_le(&mut out, *value as u64, 8);
            },
            Value::Boolean(value) => {
                out.push(2u8);
                out.push(if *value { 1u8 } else { 0u8 });
            },
            Value::Text(value) => {
                let bytes = value.as_str().as_bytes();
                if bytes.len() > 0xffff_ffff {
                    assert(!encodable_value(vs[i as int]));
                    return Err(encoding_error("too many bytes in text"));
                }
                out.push(3u8);
                push_le(&mut out, bytes.len() as u64, 4);
                append_bytes(&mut out, bytes);
            },
        }
        proof {
            assert(vs.take(i + 1).drop_last() =~= vs.take(i as int));
            assert(vs.take(i + 1).last() == vs[i as int]);
            assert(out@ =~= before + value_bytes(vs[i as int]));
        }
        i += 1;
    }
    assert(vs.take(vs.len() as int) =~= vs);
    Ok(out)
}

/// A cursor over bytes that are being decoded.
struct Input<'a> {
    bytes: &'a [u8],
    at: usize,
}

impl<'a> Input<'a> {
    fn new(bytes: &'a [u8]) -> (r: Self)
        ensures
            r.bytes@ == bytes@,
            r.at == 0,
    {
        Input { bytes, at: 0 }
    }

    /// The next `count` bytes; fails, consuming nothing, when fewer remain.
    fn take(&mut self, count: usize) -> (r: Result<&'a [u8], DbError>)
        requires
            old(self).at <= old(self).bytes@.len(),
        ensures
            final(self).bytes == old(self).bytes,
            r is Ok <==> old(self).at + count <= old(self).bytes@.len(),
            r matches Ok(s) ==> s@ == old(self).bytes@.subrange(
                old(self).at as int,
                old(self).at + count,
            ) && final(self).at == old(self).at + count,
            r is Err ==> final(self).at == old(self).at,
            r matches Err(e) ==> e is Corrupt,
    {
        let len = self.bytes.len();
        if count > len - self.at {
            return Err(corrupt("Truncated record"));
        }
        let end = self.at + count;
        let value = &self.bytes[self.at..end];
        self.at = end;
        Ok(value)
    }

    fn byte(&mut self) -> (r: Result<u8, DbError>)
        requires
            old(self).at <= old(self).bytes@.len(),
        ensures
            final(self).bytes == old(self).bytes,
            r is Ok <==> old(self).at + 1 <= old(self).bytes@.len(),
            r matches Ok(b) ==> b == old(self).bytes@[old(self).at as int] && final(self).at
                == old(self).at + 1,
            r is Err ==> final(self).at == old(self).at,
            r matches Err(e) ==> e is Corrupt,
    {
        let s = self.take(1)?;
        Ok(s[0])
    }

    /// The next `n` bytes as a little-endian number.
    fn number(&mut self, n: usize) -> (r: Result<u64, DbError>)
        requires
            old(self).at <= old(self).bytes@.len(),
            n <= 8,
        ensures
            final(self).bytes == old(self).bytes,
            r is Ok <==> old(self).at + n <= old(self).bytes@.len(),
            r matches Ok(v) ==> v as nat == le_value(
                old(self).bytes@.subrange(old(self).at as int, old(self).at + n),
            ) && final(self).at == old(self).at + n,
            r is Err ==> final(self).at == old(self).at,
            r matches Err(e) ==> e is Corrupt,
    {
        let s = self.take(n)?;
        assert(s@.subrange(0, n as int) =~= s@);
        Ok(read_le(s, 0, n))
    }

    /// A string stored as a 16-bit byte length and UTF-8 bytes.
    fn string(&mut self) -> (r: Result<String, DbError>)
        requires
            old(self).at <= old(self).bytes@.len(),
        ensures
            final(self).bytes == old(self).bytes,
            old(self).at <= final(self).at <= final(self).bytes@.len(),
            r matches Ok(s) ==> string_bytes(s@) == old(self).bytes@.subrange(
                old(self).at as int,
                final(self).at as int,
            ) && encode_utf8(s@).len() <= 0xffff,
            (exists|t: Seq<char>, rest: Seq<u8>|
                encode_utf8(t).len() <= 0xffff && #[trigger] (string_bytes(t) + rest)
                    == old(self).bytes@.skip(old(self).at as int)) ==> r is Ok,
            r matches Err(e) ==> e is Corrupt,
    {
        let ghost start = self.at;
        let ghost b = self.bytes@;
        let ghost has = exists|t: Seq<char>, rest: Seq<u8>|
            encode_utf8(t).len() <= 0xffff && #[trigger] (string_bytes(t) + rest) == b.skip(
                start as int,
            );
        let ghost (t, rest) = choose|t: Seq<char>, rest: Seq<u8>|
            encode_utf8(t).len() <= 0xffff && #[trigger] (string_bytes(t) + rest) == b.skip(
                start as int,
            );
        proof {
            lemma_pow256_values();
            if has {
                let e = encode_utf8(t);
                lemma_le_roundtrip(e.len(), 2);
                assert(b.skip(start as int).len() == 2 + e.len() + rest.len());
                assert(b.subrange(start as int, start + 2) =~= le_bytes(e.len(), 2));
                let sb = string_bytes(t) + rest;
                assert forall|j: int| 0 <= j < e.len() implies b.subrange(start + 2, start + 2 + e.len())[j]
                    == e[j] by {
                    assert(b.skip(start as int)[2 + j] == b[start + 2 + j]);
                    assert(sb[2 + j] == e[j]);
                }
                assert(b.subrange(start + 2, start + 2 + e.len()) =~= e);
            }
        }
        let length = match self.number(2) {
            Ok(length) => length,
            Err(e) => {
                return Err(e);
            },
        };
        proof {
            lemma_le_value_bound(b.subrange(start as int, start + 2));
        }
        let raw = match self.take(length as usize) {
            Ok(raw) => raw,
            Err(e) => {
                return Err(e);
            },
        };
        match crate::text::str_from_utf8(raw) {
            Some(text) => {
                proof {
                    lemma_le_bytes_of_value(b.subrange(start as int, start + 2));
                    assert(b.subrange(start as int, self.at as int) =~= b.subrange(start as int, start + 2)
                        + raw@);
                }
                Ok(text.to_owned())
            },
            None => {
                proof {
                    if has {
                        assert(raw@ =~= encode_utf8(t));
                    }
                }
                Err(corrupt("text is not UTF 8"))
            },
        }
    }

    fn finish(self) -> (r: Result<(), DbError>)
        ensures
            r is Ok <==> self.at == self.bytes@.len(),
            r matches Err(e) ==> e is Corrupt,
    {
        if self.at == self.bytes.len() {
            Ok(())
        } else {
            Err(corrupt("Record has trailing bytes"))
        }
    }
}

/// The stored form of a string: a 16-bit byte length, then its UTF-8 bytes.
pub open spec fn string_bytes(s: Seq<char>) -> Seq<u8> {
    le_bytes(encode_utf8(s).len(), 2) + encode_utf8(s)
}


/// Some value's stored form, followed by anything, starts `s`.
pub open spec fn starts_with_value(s: Seq<u8>) -> bool {
    exists|w: SpecValue, rest: Seq<u8>|
        encodable_value(w) && #[trigger] (value_bytes(w) + rest) == s
}

/// Decodes the value at the cursor.
fn read_value(input: &mut Input) -> (r: Result<Value, DbError>)
    requires
        old(input).at <= old(input).bytes@.len(),
    ensures
        final(input).bytes == old(input).bytes,
        old(input).at <= final(input).at <= final(input).bytes@.len(),
        r matches Ok(v) ==> encodable_value(v@) && value_bytes(v@) == old(input).bytes@.subrange(
            old(input).at as int,
            final(input).at as int,
        ),
        starts_with_value(old(input).bytes@.skip(old(input).at as int)) ==> r is Ok,
        r matches Err(e) ==> e is Corrupt,
{
    let ghost start = input.at as int;
    let ghost b = input.bytes@;
    let ghost has = starts_with_value(b.skip(start));
    let ghost (w, rest) = choose|w: SpecValue, rest: Seq<u8>|
        encodable_value(w) && #[trigger] (value_bytes(w) + rest) == b.skip(start);
    let ghost sb = value_bytes(w) + rest;
    proof {
        lemma_pow256_values();
        if has {
            assert(b.skip(start)[0] == b[start]);
            assert(sb[0] == value_bytes(w)[0]);
        }
    }
    let marker = match input.byte() {
        Ok(m) => m,
        Err(e) => {
            return Err(e);
        },
    };
    if marker == 0 {
        assert(b.subrange(start, start + 1) =~= seq![0u8]);
        Ok(Value::Null)
    } else if marker == 1 {
        proof {
            if has {
                if let SpecValue::Integer(x) = w {
                    lemma_le_bytes_len((x as u64) as nat, 8);
                    assert(b.skip(start).len() >= 9);
                }
            }
        }
        let raw = match input.number(8) {
            Ok(raw) => raw,
            Err(e) => {
                return Err(e);
            },
        };
        let value = raw as i64;
        proof {
            let digits = b.subrange(start + 1, start + 9);
            lemma_le_bytes_of_value(digits);
            assert((raw as i64) as u64 == raw) by (bit_vector);
            assert(b.subrange(start, start + 9) =~= seq![1u8] + digits);
        }
        Ok(Value::Integer(value))
    } else if marker == 2 {
        proof {
            if has {
                assert(b.skip(start).len() >= 2);
            }
        }
        let flag = match input.byte() {
            Ok(f) => f,
            Err(e) => {
                return Err(e);
            },
        };
        if flag == 0 {
            assert(b.subrange(start, start + 2) =~= seq![2u8, 0u8]);
            Ok(Value::Boolean(false))
        } else if flag == 1 {
            assert(b.subrange(start, start + 2) =~= seq![2u8, 1u8]);
            Ok(Value::Boolean(true))
        } else {
            proof {
                if has {
                    assert(b.skip(start)[1] == b[start + 1]);
                    assert(sb[1] == value_bytes(w)[1]);
                }
            }
            Err(corrupt("invalid Boolean encoding"))
        }
    } else if marker == 3 {
        proof {
            if has && w is Text {
                let t = w->Text_0;
                let e = encode_utf8(t);
                lemma_le_roundtrip(e.len(), 4);
                assert(b.skip(start).len() == 5 + e.len() + rest.len());
                assert forall|j: int| 0 <= j < 4 implies b.subrange(start + 1, start + 5)[j]
                    == le_bytes(e.len(), 4)[j] by {
                    assert(b.skip(start)[1 + j] == b[start + 1 + j]);
                    assert(sb[1 + j] == le_bytes(e.len(), 4)[j]);
                }
                assert(b.subrange(start + 1, start + 5) =~= le_bytes(e.len(), 4));
                assert forall|j: int| 0 <= j < e.len() implies b.subrange(start + 5, start + 5 + e.len())[j]
                    == e[j] by {
                    assert(b.skip(start)[5 + j] == b[start + 5 + j]);
                    assert(sb[5 + j] == e[j]);
                }
                assert(b.subrange(start + 5, start + 5 + e.len()) =~= e);
            }
        }
        let length = match input.number(4) {
            Ok(length) => length,
            Err(e) => {
                return Err(e);
            },
        };
        proof {
            lemma_le_value_bound(b.subrange(start + 1, start + 5));
        }
        let raw = match input.take(length as usize) {
            Ok(raw) => raw,
            Err(e) => {
                return Err(e);
            },
        };
        match crate::text::str_from_utf8(raw) {
            Some(text) => {
                proof {
                    lemma_le_bytes_of_value(b.subrange(start + 1, start + 5));
                    assert(b.subrange(start, input.at as int) =~= seq![3u8] + b.subrange(
                        start + 1,
                        start + 5,
                    ) + raw@);
                }
                Ok(Value::Text(text.to_owned()))
            },
            None => {
                proof {
                    if has && w is Text {
                        let t = w->Text_0;
                        assert(raw@ =~= encode_utf8(t));
                    }
                }
                Err(corrupt("text is not UTF-8"))
            },
        }
    } else {
        Err(corrupt_with_number("unknown value marker ", marker as u64, ""))
    }
}


/// Some encodable row has exactly these bytes as its stored form.
pub open spec fn is_row_encoding(bytes: Seq<u8>) -> bool {
    exists|vs: Seq<SpecValue>| encodable_row(vs) && #[trigger] row_bytes(vs) == bytes
}

/// Deserializes a row; exactly the stored forms of rows are accepted.
pub fn decode_row(bytes: &[u8]) -> (r: Result<Row, DbError>)
    ensures
        r matches Ok(row) ==> encodable_row(row@) && row_bytes(row@) == bytes@,
        is_row_encoding(bytes@) ==> r is Ok,
        r matches Err(e) ==> e is Corrupt,
{
    let ghost b = bytes@;
    let ghost has = is_row_encoding(b);
    let ghost w = choose|vs: Seq<SpecValue>| encodable_row(vs) && #[trigger] row_bytes(vs) == b;
    proof {
        lemma_pow256_values();
        if has {
            lemma_le_roundtrip(w.len(), 2);
            assert(b.subrange(0, 2) =~= le_bytes(w.len(), 2));
            assert(b.skip(2) =~= values_bytes(w));
            assert(b.len() >= 2);
        }
    }
    let mut input = Input::new(bytes);
    let raw_count = match input.number(2) {
        Ok(c) => c,
        Err(e) => {
            return Err(e);
        },
    };
    proof {
        lemma_le_value_bound(b.subrange(0, 2));
    }
    let count = raw_count as usize;
    let mut values: Vec<Value> = Vec::new();
    let mut i: usize = 0;
    while i < count
        invariant
            input.bytes@ == b,
            b == bytes@,
            has == is_row_encoding(b),
            2 <= input.at <= b.len(),
            i <= count,
            count as nat == le_value(b.subrange(0, 2)),
            count <= 0xffff,
            values@.len() == i,
            b.subrange(2, input.at as int) == values_bytes(values_view(values@)),
            forall|j: int| 0 <= j < i ==> #[trigger] encodable_value(values@[j]@),
            has ==> values_view(values@) == w.take(i as int) && count == w.len() && b.skip(2)
                == values_bytes(w) && encodable_row(w),
        decreases count - i,
    {
        let ghost at = input.at as int;
        let ghost done = values_view(values@);
        proof {
            if has {
                lemma_values_bytes_split(w, i as int);
                assert(b.skip(2) =~= b.subrange(2, at) + b.skip(at));
                let pre = values_bytes(w.take(i as int));
                let post = values_bytes(w.skip(i as int));
                assert(pre.len() == at - 2);
                assert forall|k: int| 0 <= k < b.skip(at).len() implies b.skip(at)[k] == post[k] by {
                    assert(b.skip(at)[k] == b.skip(2)[k + (at - 2)]);
                    assert((pre + post)[k + pre.len()] == post[k]);
                }
                assert(b.skip(at).len() == post.len());
                assert(b.skip(at) =~= post);
                lemma_values_bytes_first(w.skip(i as int));
                assert(w.skip(i as int).drop_first() =~= w.skip(i + 1));
                assert(encodable_value(w[i as int]));
                assert(value_bytes(w[i as int]) + values_bytes(w.skip(i + 1)) == b.skip(at));
                assert(starts_with_value(b.skip(at)));
            }
        }
        let value = match read_value(&mut input) {
            Ok(v) => v,
            Err(e) => {
                return Err(e);
            },
        };
        proof {
            let after = input.at as int;
            assert(b.skip(at) =~= b.subrange(at, after) + b.skip(after));
            if has {
                lemma_value_bytes_unique(value@, w[i as int], b.skip(after), values_bytes(w.skip(i + 1)));
            }
        }
        values.push(value);
        proof {
            let after = input.at as int;
            let now = values_view(values@);
            assert(now.drop_last() =~= done);
            assert(now.last() == value@);
            assert(b.subrange(2, after) =~= b.subrange(2, at) + b.subrange(at, after));
            if has {
                assert(now =~= w.take(i + 1));
            }
        }
        i += 1;
    }
    proof {
        if has {
            assert(w.take(count as int) =~= w);
            lemma_values_bytes_split(w, count as int);
            assert(w.skip(count as int) =~= Seq::<SpecValue>::empty());
            assert(b.skip(2) =~= b.subrange(2, input.at as int) + b.skip(input.at as int));
        }
    }
    match input.finish() {
        Ok(()) => {},
        Err(e) => {
            return Err(e);
        },
    }
    let row = Row::new(values);
    proof {
        lemma_le_bytes_of_value(b.subrange(0, 2));
        assert(b =~= b.subrange(0, 2) + b.subrange(2, b.len() as int));
        assert forall|j: int| 0 <= j < row@.len() implies #[trigger] encodable_value(row@[j]) by {
            assert(row@[j] == values@[j]@);
        }
    }
    Ok(row)
}

/// Reading back the stored form of a row gives the row.
pub proof fn lemma_row_roundtrip(a: Seq<SpecValue>, b: Seq<SpecValue>)
    requires
        encodable_row(a),
        encodable_row(b),
        row_bytes(b) == row_bytes(a),
    ensures
        is_row_encoding(row_bytes(a)),
        b == a,
{
    lemma_row_bytes_injective(a, b);
}


/// The byte that stands for a column type.
pub open spec fn type_byte(t: DataType) -> u8 {
    match t {
        DataType::Integer => 1,
        DataType::Boolean => 2,
        DataType::Text => 3,
    }
}

/// The stored form of a column: its name, its type byte and its nullable flag.
pub open spec fn column_bytes(c: SpecColumn) -> Seq<u8> {
    string_bytes(c.name) + seq![type_byte(c.data_type), bool_byte(c.nullable)]
}

pub open spec fn columns_bytes(cs: Seq<SpecColumn>) -> Seq<u8>
    decreases cs.len(),
{
    if cs.len() == 0 {
        Seq::empty()
    } else {
        columns_bytes(cs.drop_last()) + column_bytes(cs.last())
    }
}

/// The number that stands for an optional page: the all-ones number for none.
pub open spec fn page_number(p: Option<PageId>) -> u64 {
    match p {
        Some(id) => id.0,
        None => NO_PAGE,
    }
}

/// The stored form of a catalog entry.
pub open spec fn table_bytes(t: SpecTable) -> Seq<u8> {
    string_bytes(t.name) + le_bytes(t.columns.len(), 2) + columns_bytes(t.columns) + le_bytes(
        page_number(t.first_page) as nat,
        8,
    ) + le_bytes(t.row_count as nat, 8)
}

pub open spec fn encodable_column(c: SpecColumn) -> bool {
    encode_utf8(c.name).len() <= 0xffff
}

/// A table whose name, column count and column names fit their length fields.
pub open spec fn encodable_table(t: SpecTable) -> bool {
    &&& encode_utf8(t.name).len() <= 0xffff
    &&& t.columns.len() <= 0xffff
    &&& forall|i: int| 0 <= i < t.columns.len() ==> #[trigger] encodable_column(t.columns[i])
}

/// A table exactly as decoding produces one: identity flags are not stored,
/// and the all-ones page number means "no page".
pub open spec fn canonical_table(t: SpecTable) -> bool {
    &&& encodable_table(t)
    &&& names_distinct(t.columns)
    &&& forall|i: int| 0 <= i < t.columns.len() ==> !(#[trigger] t.columns[i]).identity
    &&& t.first_page != Some(PageId(NO_PAGE))
}

/// What remains of a table after storing and reading back its catalog entry.
pub open spec fn canonical_form(t: SpecTable) -> SpecTable {
    SpecTable {
        name: t.name,
        columns: t.columns.map_values(|c: SpecColumn| SpecColumn { identity: false, ..c }),
        first_page: if t.first_page == Some(PageId(NO_PAGE)) {
            None
        } else {
            t.first_page
        },
        row_count: t.row_count,
    }
}

proof fn lemma_string_bytes_unique(a: Seq<char>, b: Seq<char>, ra: Seq<u8>, rb: Seq<u8>)
    requires
        encode_utf8(a).len() <= 0xffff,
        encode_utf8(b).len() <= 0xffff,
        string_bytes(a) + ra == string_bytes(b) + rb,
    ensures
        a == b,
        ra == rb,
{
    let s = string_bytes(a) + ra;
    let ea = encode_utf8(a);
    let eb = encode_utf8(b);
    lemma_pow256_values();
    lemma_le_roundtrip(ea.len(), 2);
    lemma_le_roundtrip(eb.len(), 2);
    assert(s.subrange(0, 2) =~= le_bytes(ea.len(), 2));
    assert(s.subrange(0, 2) =~= le_bytes(eb.len(), 2));
    assert(s.subrange(2, 2 + ea.len() as int) =~= ea);
    assert(s.subrange(2, 2 + eb.len() as int) =~= eb);
    assert(decode_utf8(ea) == a);
    assert(decode_utf8(eb) == b);
    assert(ra =~= s.skip(2 + ea.len() as int));
    assert(rb =~= s.skip(2 + eb.len() as int));
}

proof fn lemma_column_bytes_unique(a: SpecColumn, b: SpecColumn, ra: Seq<u8>, rb: Seq<u8>)
    requires
        encodable_column(a),
        encodable_column(b),
        !a.identity,
        !b.identity,
        column_bytes(a) + ra == column_bytes(b) + rb,
    ensures
        a == b,
        ra == rb,
{
    let ta = seq![type_byte(a.data_type), bool_byte(a.nullable)] + ra;
    let tb = seq![type_byte(b.data_type), bool_byte(b.nullable)] + rb;
    assert(column_bytes(a) + ra =~= string_bytes(a.name) + ta);
    assert(column_bytes(b) + rb =~= string_bytes(b.name) + tb);
    lemma_string_bytes_unique(a.name, b.name, ta, tb);
    assert(ta[0] == tb[0] && ta[1] == tb[1]);
    assert(ra =~= ta.skip(2));
    assert(rb =~= tb.skip(2));
}

proof fn lemma_columns_bytes_split(cs: Seq<SpecColumn>, i: int)
    requires
        0 <= i <= cs.len(),
    ensures
        columns_bytes(cs) == columns_bytes(cs.take(i)) + columns_bytes(cs.skip(i)),
    decreases cs.len(),
{
    if i == cs.len() {
        assert(cs.take(i) =~= cs);
        assert(cs.skip(i) =~= Seq::<SpecColumn>::empty());
        assert(columns_bytes(cs) + Seq::<u8>::empty() =~= columns_bytes(cs));
    } else {
        lemma_columns_bytes_split(cs.drop_last(), i);
        assert(cs.drop_last().take(i) =~= cs.take(i));
        assert(cs.skip(i).drop_last() =~= cs.drop_last().skip(i));
        assert(cs.skip(i).last() == cs.last());
        assert(columns_bytes(cs.take(i)) + columns_bytes(cs.skip(i)) =~= columns_bytes(cs.take(i))
            + columns_bytes(cs.drop_last().skip(i)) + column_bytes(cs.last()));
    }
}

proof fn lemma_columns_bytes_first(cs: Seq<SpecColumn>)
    requires
        cs.len() > 0,
    ensures
        columns_bytes(cs) == column_bytes(cs[0]) + columns_bytes(cs.drop_first()),
{
    lemma_columns_bytes_split(cs, 1);
    assert(cs.take(1).drop_last() =~= Seq::<SpecColumn>::empty());
    assert(columns_bytes(Seq::<SpecColumn>::empty()) =~= Seq::<u8>::empty());
    assert(cs.take(1).last() == cs[0]);
    assert(columns_bytes(cs.take(1)) =~= column_bytes(cs[0]));
    assert(cs.skip(1) =~= cs.drop_first());
}

/// A column that can be stored and that carries no identity flag.
pub open spec fn column_ok(c: SpecColumn) -> bool {
    encodable_column(c) && !c.identity
}

proof fn lemma_columns_bytes_unique(a: Seq<SpecColumn>, b: Seq<SpecColumn>, ra: Seq<u8>, rb: Seq<u8>)
    requires
        a.len() == b.len(),
        forall|i: int| 0 <= i < a.len() ==> #[trigger] column_ok(a[i]),
        forall|i: int| 0 <= i < b.len() ==> #[trigger] column_ok(b[i]),
        columns_bytes(a) + ra == columns_bytes(b) + rb,
    ensures
        a == b,
        ra == rb,
    decreases a.len(),
{
    if a.len() > 0 {
        lemma_columns_bytes_first(a);
        lemma_columns_bytes_first(b);
        assert(column_ok(a[0]));
        assert(column_ok(b[0]));
        assert(column_bytes(a[0]) + (columns_bytes(a.drop_first()) + ra) =~= columns_bytes(a) + ra);
        assert(column_bytes(b[0]) + (columns_bytes(b.drop_first()) + rb) =~= columns_bytes(b) + rb);
        lemma_column_bytes_unique(
            a[0],
            b[0],
            columns_bytes(a.drop_first()) + ra,
            columns_bytes(b.drop_first()) + rb,
        );
        assert forall|i: int| 0 <= i < a.len() - 1 implies #[trigger] column_ok(a.drop_first()[i]) by {
            assert(column_ok(a[i + 1]));
        }
        assert forall|i: int| 0 <= i < b.len() - 1 implies #[trigger] column_ok(b.drop_first()[i]) by {
            assert(column_ok(b[i + 1]));
        }
        lemma_columns_bytes_unique(a.drop_first(), b.drop_first(), ra, rb);
        assert forall|i: int| 0 <= i < a.len() implies a[i] == b[i] by {
            if i > 0 {
                assert(a[i] == a.drop_first()[i - 1]);
                assert(b[i] == b.drop_first()[i - 1]);
            }
        }
        assert(a =~= b);
    } else {
        assert(a =~= b);
        assert(columns_bytes(a) =~= Seq::<u8>::empty());
        assert(ra =~= columns_bytes(a) + ra);
        assert(rb =~= columns_bytes(b) + rb);
    }
}

/// Distinct canonical catalog entries have distinct stored forms.
pub proof fn lemma_table_bytes_injective(a: SpecTable, b: SpecTable)
    requires
        canonical_table(a),
        canonical_table(b),
        table_bytes(a) == table_bytes(b),
    ensures
        a == b,
{
    lemma_pow256_values();
    let tail_a = le_bytes(a.columns.len(), 2) + columns_bytes(a.columns) + le_bytes(
        page_number(a.first_page) as nat,
        8,
    ) + le_bytes(a.row_count as nat, 8);
    let tail_b = le_bytes(b.columns.len(), 2) + columns_bytes(b.columns) + le_bytes(
        page_number(b.first_page) as nat,
        8,
    ) + le_bytes(b.row_count as nat, 8);
    assert(table_bytes(a) =~= string_bytes(a.name) + tail_a);
    assert(table_bytes(b) =~= string_bytes(b.name) + tail_b);
    lemma_string_bytes_unique(a.name, b.name, tail_a, tail_b);
    lemma_le_roundtrip(a.columns.len(), 2);
    lemma_le_roundtrip(b.columns.len(), 2);
    assert(tail_a.subrange(0, 2) =~= le_bytes(a.columns.len(), 2));
    assert(tail_b.subrange(0, 2) =~= le_bytes(b.columns.len(), 2));
    let end_a = le_bytes(page_number(a.first_page) as nat, 8) + le_bytes(a.row_count as nat, 8);
    let end_b = le_bytes(page_number(b.first_page) as nat, 8) + le_bytes(b.row_count as nat, 8);
    assert(tail_a.skip(2) =~= columns_bytes(a.columns) + end_a);
    assert(tail_b.skip(2) =~= columns_bytes(b.columns) + end_b);
    assert forall|i: int| 0 <= i < a.columns.len() implies #[trigger] column_ok(a.columns[i]) by {
        assert(encodable_column(a.columns[i]));
        assert(!a.columns[i].identity);
    }
    assert forall|i: int| 0 <= i < b.columns.len() implies #[trigger] column_ok(b.columns[i]) by {
        assert(encodable_column(b.columns[i]));
        assert(!b.columns[i].identity);
    }
    lemma_columns_bytes_unique(a.columns, b.columns, end_a, end_b);
    lemma_le_roundtrip(page_number(a.first_page) as nat, 8);
    lemma_le_roundtrip(page_number(b.first_page) as nat, 8);
    lemma_le_roundtrip(a.row_count as nat, 8);
    lemma_le_roundtrip(b.row_count as nat, 8);
    assert(end_a.subrange(0, 8) =~= le_bytes(page_number(a.first_page) as nat, 8));
    assert(end_b.subrange(0, 8) =~= le_bytes(page_number(b.first_page) as nat, 8));
    assert(end_a.skip(8) =~= le_bytes(a.row_count as nat, 8));
    assert(end_b.skip(8) =~= le_bytes(b.row_count as nat, 8));
}


/// Appends a string as a 16-bit byte length and its UTF-8 bytes.
fn put_string(out: &mut Vec<u8>, value: &str) -> (r: Result<(), DbError>)
    ensures
        r is Ok <==> encode_utf8(value@).len() <= 0xffff,
        r is Ok ==> final(out)@ == old(out)@ + string_bytes(value@),
        r matches Err(e) ==> e is Encoding,
{
    let bytes = value.as_bytes();
    if bytes.len() > 0xffff {
        return Err(encoding_error("too many bytes in a name"));
    }
    push_le(out, bytes.len() as u64, 2);
    append_bytes(out, bytes);
    assert(final(out)@ =~= old(out)@ + string_bytes(value@));
    Ok(())
}

fn type_marker(t: DataType) -> (r: u8)
    ensures
        r == type_byte(t),
{
    match t {
        DataType::Integer => 1,
        DataType::Boolean => 2,
        DataType::Text => 3,
    }
}

/// Serializes a catalog entry: name, columns, first data page and row count.
pub(crate) fn encode_table(table: &Table) -> (r: Result<Vec<u8>, DbError>)
    ensures
        r is Ok <==> encodable_table(table@),
        r matches Ok(bytes) ==> bytes@ == table_bytes(table@),
        r matches Err(e) ==> e is Encoding,
{
    let ghost t = table@;
    let mut out: Vec<u8> = Vec::new();
    match put_string(&mut out, table.name()) {
        Ok(()) => {},
        Err(e) => {
            return Err(e);
        },
    }
    let columns = table.schema().columns();
    let ghost cs = t.columns;
    assert(columns_view(columns@) == cs);
    if columns.len() > 0xffff {
        return Err(encoding_error("too many columns in a schema"));
    }
    push_le(&mut out, columns.len() as u64, 2);
    let ghost head = out@;
    let mut i: usize = 0;
    while i < columns.len()
        invariant
            columns_view(columns@) == cs,
            t == table@,
            cs == t.columns,
            cs.len() <= 0xffff,
            i <= cs.len(),
            out@ == head + columns_bytes(cs.take(i as int)),
            forall|j: int| 0 <= j < i ==> #[trigger] encodable_column(cs[j]),
        decreases cs.len() - i,
    {
        let ghost before = out@;
        let column = &columns[i];
        assert(column@ == cs[i as int]);
        match put_string(&mut out, column.name()) {
            Ok(()) => {},
            Err(e) => {
                assert(!encodable_column(cs[i as int]));
                return Err(e);
            },
        }
        out.push(type_marker(column.data_type()));
        out.push(if column.is_nullable() { 1u8 } else { 0u8 });
        proof {
            assert(cs.take(i + 1).drop_last() =~= cs.take(i as int));
            assert(cs.take(i + 1).last() == cs[i as int]);
            assert(out@ =~= before + column_bytes(cs[i as int]));
        }
        i += 1;
    }
    assert(cs.take(cs.len() as int) =~= cs);
    let first = match table.first_page() {
        Some(id) => id.0,
        None => NO_PAGE,
    };
    push_le(&mut out, first, 8);
    push_le(&mut out, table.stored_row_count(), 8);
    Ok(out)
}

/// Some storable column without an identity flag, followed by anything, starts `s`.
pub open spec fn starts_with_column(s: Seq<u8>) -> bool {
    exists|c: SpecColumn, rest: Seq<u8>| column_ok(c) && #[trigger] (column_bytes(c) + rest) == s
}

/// Decodes the column description at the cursor.
fn read_column(input: &mut Input) -> (r: Result<Column, DbError>)
    requires
        old(input).at <= old(input).bytes@.len(),
    ensures
        final(input).bytes == old(input).bytes,
        old(input).at <= final(input).at <= final(input).bytes@.len(),
        r matches Ok(c) ==> column_ok(c@) && column_bytes(c@) == old(input).bytes@.subrange(
            old(input).at as int,
            final(input).at as int,
        ),
        starts_with_column(old(input).bytes@.skip(old(input).at as int)) ==> r is Ok,
        r matches Err(e) ==> e is Corrupt,
{
    let ghost start = input.at as int;
    let ghost b = input.bytes@;
    let ghost has = starts_with_column(b.skip(start));
    let ghost (w, rest) = choose|c: SpecColumn, rest: Seq<u8>|
        column_ok(c) && #[trigger] (column_bytes(c) + rest) == b.skip(start);
    let ghost tail = seq![type_byte(w.data_type), bool_byte(w.nullable)] + rest;
    proof {
        if has {
            assert(column_bytes(w) + rest =~= string_bytes(w.name) + tail);
        }
    }
    let name = match input.string() {
        Ok(name) => name,
        Err(e) => {
            return Err(e);
        },
    };
    let ghost mid = input.at as int;
    proof {
        if has {
            assert(b.skip(start) =~= b.subrange(start, mid) + b.skip(mid));
            lemma_string_bytes_unique(name@, w.name, b.skip(mid), tail);
            assert(b.skip(mid)[0] == b[mid]);
            assert(b.skip(mid)[1] == b[mid + 1]);
        }
    }
    let marker = match input.byte() {
        Ok(m) => m,
        Err(e) => {
            return Err(e);
        },
    };
    let data_type = if marker == 1 {
        DataType::Integer
    } else if marker == 2 {
        DataType::Boolean
    } else if marker == 3 {
        DataType::Text
    } else {
        return Err(corrupt_with_number("unknown type marker ", marker as u64, ""));
    };
    let flag = match input.byte() {
        Ok(f) => f,
        Err(e) => {
            return Err(e);
        },
    };
    let nullable = if flag == 0 {
        false
    } else if flag == 1 {
        true
    } else {
        return Err(corrupt("invalid nullable flag"));
    };
    let column = Column::new(name.as_str(), data_type, nullable);
    proof {
        assert(b.subrange(start, input.at as int) =~= b.subrange(start, mid) + seq![marker, flag]);
    }
    Ok(column)
}


/// Some `count` storable columns, followed by anything, start `s`.
pub open spec fn starts_with_columns(s: Seq<u8>, count: int) -> bool {
    exists|cs: Seq<SpecColumn>, rest: Seq<u8>|
        cs.len() == count && (forall|i: int| 0 <= i < cs.len() ==> #[trigger] column_ok(cs[i]))
            && #[trigger] (columns_bytes(cs) + rest) == s
}

/// Decodes `count` column descriptions at the cursor.
fn read_columns(input: &mut Input, count: usize) -> (r: Result<Vec<Column>, DbError>)
    requires
        old(input).at <= old(input).bytes@.len(),
    ensures
        final(input).bytes == old(input).bytes,
        old(input).at <= final(input).at <= final(input).bytes@.len(),
        r matches Ok(cols) ==> cols@.len() == count && (forall|j: int|
            0 <= j < count ==> #[trigger] column_ok(cols@[j]@)) && columns_bytes(columns_view(cols@))
            == old(input).bytes@.subrange(old(input).at as int, final(input).at as int),
        starts_with_columns(old(input).bytes@.skip(old(input).at as int), count as int) ==> r is Ok,
        r matches Err(e) ==> e is Corrupt,
{
    let ghost b = input.bytes@;
    let ghost cols_start = input.at as int;
    let ghost has = starts_with_columns(b.skip(cols_start), count as int);
    let ghost (wc, end_part) = choose|cs: Seq<SpecColumn>, rest: Seq<u8>|
        cs.len() == count && (forall|i: int| 0 <= i < cs.len() ==> #[trigger] column_ok(cs[i]))
            && #[trigger] (columns_bytes(cs) + rest) == b.skip(cols_start);
    let mut columns: Vec<Column> = Vec::new();
    let mut i: usize = 0;
    while i < count
        invariant
            input.bytes == old(input).bytes,
            old(input).at == cols_start,
            input.bytes@ == b,
            0 <= cols_start <= input.at <= b.len(),
            i <= count,
            columns@.len() == i,
            b.subrange(cols_start, input.at as int) == columns_bytes(columns_view(columns@)),
            forall|j: int| 0 <= j < i ==> #[trigger] column_ok(columns@[j]@),
            has == starts_with_columns(b.skip(cols_start), count as int),
            has ==> columns_view(columns@) == wc.take(i as int) && count == wc.len() && b.skip(cols_start)
                == columns_bytes(wc) + end_part && (forall|k: int| 0 <= k < wc.len() ==> #[trigger] column_ok(wc[k])),
        decreases count - i,
    {
        let ghost at = input.at as int;
        let ghost done = columns_view(columns@);
        proof {
            if has {
                lemma_columns_bytes_split(wc, i as int);
                let pre = columns_bytes(wc.take(i as int));
                let post = columns_bytes(wc.skip(i as int)) + end_part;
                assert(b.skip(cols_start) =~= b.subrange(cols_start, at) + b.skip(at));
                assert(pre.len() == at - cols_start);
                assert(b.skip(cols_start) =~= pre + post);
                assert forall|k: int| 0 <= k < b.skip(at).len() implies b.skip(at)[k] == post[k] by {
                    assert(b.skip(at)[k] == b.skip(cols_start)[k + (at - cols_start)]);
                    assert((pre + post)[k + pre.len()] == post[k]);
                }
                assert(b.skip(at) =~= post);
                lemma_columns_bytes_first(wc.skip(i as int));
                assert(wc.skip(i as int).drop_first() =~= wc.skip(i + 1));
                assert(column_ok(wc[i as int]));
                assert(column_bytes(wc[i as int]) + (columns_bytes(wc.skip(i + 1)) + end_part) =~= b.skip(at));
                assert(starts_with_column(b.skip(at)));
            }
        }
        let column = match read_column(input) {
            Ok(c) => c,
            Err(e) => {
                return Err(e);
            },
        };
        proof {
            let after = input.at as int;
            assert(b.skip(at) =~= b.subrange(at, after) + b.skip(after));
            if has {
                assert(column_ok(wc[i as int]));
                lemma_column_bytes_unique(column@, wc[i as int], b.skip(after), columns_bytes(wc.skip(i + 1)) + end_part);
            }
        }
        columns.push(column);
        proof {
            let after = input.at as int;
            let now = columns_view(columns@);
            assert(now.drop_last() =~= done);
            assert(now.last() == column@);
            assert(b.subrange(cols_start, after) =~= b.subrange(cols_start, at) + b.subrange(at, after));
            if has {
                assert(now =~= wc.take(i + 1));
            }
        }
        i += 1;
    }
    Ok(columns)
}

/// Some canonical catalog entry has exactly these bytes as its stored form.
pub open spec fn is_table_encoding(bytes: Seq<u8>) -> bool {
    exists|t: SpecTable| canonical_table(t) && #[trigger] table_bytes(t) == bytes
}

/// Deserializes a catalog entry; exactly the stored forms of canonical
/// catalog entries are accepted.
#[verifier::rlimit(40)]
pub(crate) fn decode_table(bytes: &[u8]) -> (r: Result<Table, DbError>)
    ensures
        r matches Ok(t) ==> canonical_table(t@) && table_bytes(t@) == bytes@,
        is_table_encoding(bytes@) ==> r is Ok,
        r matches Err(e) ==> e is Corrupt || e is DuplicateColumn,
{
    let ghost b = bytes@;
    let ghost has = is_table_encoding(b);
    let ghost w = choose|t: SpecTable| canonical_table(t) && #[trigger] table_bytes(t) == b;
    let ghost wc = w.columns;
    let ghost end_part = le_bytes(page_number(w.first_page) as nat, 8) + le_bytes(w.row_count as nat, 8);
    let ghost tail = le_bytes(wc.len(), 2) + (columns_bytes(wc) + end_part);
    proof {
        lemma_pow256_values();
        if has {
            assert(table_bytes(w) =~= string_bytes(w.name) + tail);
            assert(string_bytes(w.name) + tail == b.skip(0));
        }
    }
    let mut input = Input::new(bytes);
    let name = match input.string() {
        Ok(name) => name,
        Err(e) => {
            return Err(e);
        },
    };
    let ghost after_name = input.at as int;
    proof {
        if has {
            assert(b =~= b.subrange(0, after_name) + b.skip(after_name));
            lemma_string_bytes_unique(name@, w.name, b.skip(after_name), tail);
            lemma_le_roundtrip(wc.len(), 2);
            assert(b.subrange(after_name, after_name + 2) =~= le_bytes(wc.len(), 2));
        }
    }
    let raw_count = match input.number(2) {
        Ok(c) => c,
        Err(e) => {
            return Err(e);
        },
    };
    proof {
        lemma_le_value_bound(b.subrange(after_name, after_name + 2));
    }
    let count = raw_count as usize;
    let ghost cols_start = input.at as int;
    proof {
        if has {
            assert(b.skip(after_name) =~= b.subrange(after_name, cols_start) + b.skip(cols_start));
            assert(b.skip(cols_start) =~= columns_bytes(wc) + end_part);
            assert forall|k: int| 0 <= k < wc.len() implies #[trigger] column_ok(wc[k]) by {
                assert(encodable_column(wc[k]));
                assert(!wc[k].identity);
            }
            assert(starts_with_columns(b.skip(cols_start), count as int));
        }
    }
    let columns = match read_columns(&mut input, count) {
        Ok(c) => c,
        Err(e) => {
            return Err(e);
        },
    };
    let ghost cols_end = input.at as int;
    let ghost cv = columns_view(columns@);
    proof {
        assert(b.skip(cols_start) =~= b.subrange(cols_start, cols_end) + b.skip(cols_end));
        if has {
            assert forall|k: int| 0 <= k < cv.len() implies #[trigger] column_ok(cv[k]) by {
                assert(column_ok(columns@[k]@));
            }
            lemma_columns_bytes_unique(cv, wc, b.skip(cols_end), end_part);
            lemma_le_roundtrip(page_number(w.first_page) as nat, 8);
            lemma_le_roundtrip(w.row_count as nat, 8);
            assert(b.skip(cols_end).len() == 16);
        }
    }
    let first = match input.number(8) {
        Ok(v) => v,
        Err(e) => {
            return Err(e);
        },
    };
    let row_count = match input.number(8) {
        Ok(v) => v,
        Err(e) => {
            return Err(e);
        },
    };
    match input.finish() {
        Ok(()) => {},
        Err(e) => {
            return Err(e);
        },
    }
    let schema = match Schema::new(columns) {
        Ok(s) => s,
        Err(e) => {
            return Err(e);
        },
    };
    let mut table = Table::new(name.as_str(), schema);
    let first_page = if first != NO_PAGE {
        Some(PageId(first))
    } else {
        None
    };
    table.set_storage(first_page, row_count);
    proof {
        let t = table@;
        lemma_le_bytes_of_value(b.subrange(after_name, cols_start));
        lemma_le_bytes_of_value(b.subrange(cols_end, cols_end + 8));
        lemma_le_bytes_of_value(b.subrange(cols_end + 8, cols_end + 16));
        assert(page_number(t.first_page) == first);
        assert(b =~= b.subrange(0, after_name) + b.subrange(after_name, cols_start) + b.subrange(
            cols_start,
            cols_end,
        ) + b.subrange(cols_end, cols_end + 8) + b.subrange(cols_end + 8, cols_end + 16));
        assert forall|j: int| 0 <= j < t.columns.len() implies #[trigger] encodable_column(t.columns[j])
            && !t.columns[j].identity by {
            assert(column_ok(columns@[j]@));
        }
        assert(names_distinct(t.columns));
        assert(encodable_table(t));
        assert forall|j: int| 0 <= j < t.columns.len() implies !(#[trigger] t.columns[j]).identity by {
            assert(column_ok(columns@[j]@));
        }
        assert(t.first_page != Some(PageId(NO_PAGE)));
        assert(canonical_table(t));
        assert(table_bytes(t) =~= b);
    }
    Ok(table)
}

/// Storing a table's catalog entry and reading it back gives the table in
/// canonical form (identity flags are not stored).
pub proof fn lemma_table_roundtrip(t: SpecTable, d: SpecTable)
    requires
        encodable_table(t),
        names_distinct(t.columns),
        canonical_table(d),
        table_bytes(d) == table_bytes(t),
    ensures
        is_table_encoding(table_bytes(t)),
        d == canonical_form(t),
{
    lemma_canonical_form(t);
    lemma_table_bytes_injective(canonical_form(t), d);
}

/// The canonical form of a table is canonical and has the same stored form.
pub proof fn lemma_canonical_form(t: SpecTable)
    requires
        encodable_table(t),
        names_distinct(t.columns),
    ensures
        canonical_table(canonical_form(t)),
        table_bytes(canonical_form(t)) == table_bytes(t),
        is_table_encoding(table_bytes(t)),
{
    let c = canonical_form(t);
    assert(columns_bytes(c.columns) == columns_bytes(t.columns)) by {
        lemma_columns_bytes_canonical(t.columns);
    }
    assert(table_bytes(c) =~= table_bytes(t));
    assert forall|i: int, j: int|
        0 <= i < c.columns.len() && 0 <= j < c.columns.len() && i != j implies #[trigger] c.columns[i].name
        != #[trigger] c.columns[j].name by {
        assert(t.columns[i].name != t.columns[j].name);
    }
    assert forall|i: int| 0 <= i < c.columns.len() implies #[trigger] encodable_column(c.columns[i]) by {
        assert(encodable_column(t.columns[i]));
    }
    assert(canonical_table(c));
}

proof fn lemma_columns_bytes_canonical(cs: Seq<SpecColumn>)
    ensures
        columns_bytes(cs.map_values(|c: SpecColumn| SpecColumn { identity: false, ..c })) == columns_bytes(cs),
    decreases cs.len(),
{
    let m = cs.map_values(|c: SpecColumn| SpecColumn { identity: false, ..c });
    if cs.len() > 0 {
        lemma_columns_bytes_canonical(cs.drop_last());
        assert(m.drop_last() =~= cs.drop_last().map_values(|c: SpecColumn| SpecColumn { identity: false, ..c }));
    }
}

} // verus!
