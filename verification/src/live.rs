//! The acquisition board's line format: unsigned decimal integers separated by
//! commas, ended by a newline. Bytes that are neither digits nor commas are
//! skipped, and nothing after the first newline is read.

use vstd::prelude::*;
use crate::text::{
    COMMA, NEWLINE, SPACE, ZERO, NINE, is_digit, split, digits_of, decimal_value,
    lemma_split_len, lemma_split_push, lemma_split_take, lemma_digits_push,
    lemma_digits_take, lemma_value_take, decimal_text, join, lemma_split_contains,
    lemma_split_without_sep, lemma_split_join, lemma_join_avoids, lemma_decimal_text,
    lemma_split_insert, lemma_digits_insert,
};

verus! {

/// The comma-separated fields of the first line of `buf`.
pub open spec fn first_line_fields(buf: Seq<u8>) -> Seq<Seq<u8>> {
    split(split(buf, NEWLINE)[0], COMMA)
}

/// The numbers of the fields that hold at least one digit, in order.
pub open spec fn decoded_fields(fs: Seq<Seq<u8>>) -> Seq<int>
    decreases fs.len(),
{
    if fs.len() == 0 {
        Seq::empty()
    } else if digits_of(fs.last()).len() > 0 {
        decoded_fields(fs.drop_last()).push(decimal_value(digits_of(fs.last())) as int)
    } else {
        decoded_fields(fs.drop_last())
    }
}

/// What a line decodes to: one number per field that holds a digit.
pub open spec fn decoded(buf: Seq<u8>) -> Seq<int> {
    decoded_fields(first_line_fields(buf))
}

/// A field of two or more digits is read in place, which needs every field before
/// it to hold a digit, and its number must fit an `i32`.
pub open spec fn field_ok(fs: Seq<Seq<u8>>, k: int) -> bool {
    digits_of(fs[k]).len() >= 2 ==> {
        &&& forall|j: int| 0 <= j < k ==> #[trigger] digits_of(fs[j]).len() > 0
        &&& decimal_value(digits_of(fs[k])) <= i32::MAX
    }
}

pub open spec fn fields_ok(fs: Seq<Seq<u8>>) -> bool {
    forall|k: int| 0 <= k < fs.len() ==> #[trigger] field_ok(fs, k)
}

/// The lines on which decoding completes.
pub open spec fn decodable(buf: Seq<u8>) -> bool {
    fields_ok(first_line_fields(buf))
}

proof fn lemma_decoded_len(fs: Seq<Seq<u8>>)
    ensures
        decoded_fields(fs).len() <= fs.len(),
        decoded_fields(fs).len() == fs.len() <==> (forall|j: int|
            0 <= j < fs.len() ==> #[trigger] digits_of(fs[j]).len() > 0),
    decreases fs.len(),
{
    if fs.len() > 0 {
        let init = fs.drop_last();
        lemma_decoded_len(init);
        if decoded_fields(fs).len() == fs.len() {
            assert(digits_of(fs.last()).len() > 0);
            assert forall|j: int| 0 <= j < fs.len() implies #[trigger] digits_of(fs[j]).len()
                > 0 by {
                if j < fs.len() - 1 {
                    assert(init[j] == fs[j]);
                }
            }
        }
        if forall|j: int| 0 <= j < fs.len() ==> #[trigger] digits_of(fs[j]).len() > 0 {
            assert forall|j: int| 0 <= j < init.len() implies #[trigger] digits_of(init[j]).len()
                > 0 by {
                assert(digits_of(fs[j]).len() > 0);
            }
            assert(digits_of(fs[fs.len() - 1]).len() > 0);
        }
    }
}

/// Facts about the field being read when byte `i` of `buf` is reached, taken from
/// the whole first line: the field read so far is a prefix of the line's field.
proof fn lemma_field_in_line(buf: Seq<u8>, i: int)
    requires
        0 <= i < buf.len(),
        split(buf.take(i + 1), NEWLINE) == seq![buf.take(i + 1)],
    ensures
        ({
            let fs = split(buf.take(i + 1), COMMA);
            let full = first_line_fields(buf);
            &&& 1 <= fs.len() <= full.len()
            &&& forall|j: int| 0 <= j < fs.len() - 1 ==> #[trigger] fs[j] == full[j]
            &&& digits_of(fs.last()).len() <= digits_of(full[fs.len() - 1]).len()
            &&& decimal_value(digits_of(fs.last())) <= decimal_value(
                digits_of(full[fs.len() - 1]),
            )
        }),
{
    let p = buf.take(i + 1);
    lemma_split_take(buf, i + 1, NEWLINE);
    let line = split(buf, NEWLINE)[0];
    assert(line.take(p.len() as int) == p);
    lemma_split_take(line, i + 1, COMMA);
    let fs = split(p, COMMA);
    let full = split(line, COMMA);
    let k = fs.len() - 1;
    lemma_digits_take(full[k], fs.last().len() as int);
    assert(full[k].take(fs.last().len() as int) == fs.last());
    let dl = digits_of(full[k]);
    let dp = digits_of(fs.last());
    lemma_value_take(dl, dp.len() as int);
    assert(dl.take(dp.len() as int) == dp);
}

/// A byte that is neither a digit nor a comma changes neither the numbers read so
/// far nor whether reading can go on.
proof fn lemma_skipped_byte(fs: Seq<Seq<u8>>, fs2: Seq<Seq<u8>>, b: u8)
    requires
        fs.len() >= 1,
        !is_digit(b),
        fs2 == fs.update(fs.len() - 1, fs.last().push(b)),
        fields_ok(fs),
    ensures
        decoded_fields(fs2) == decoded_fields(fs),
        fields_ok(fs2),
        fs2.len() == fs.len(),
        digits_of(fs2.last()) == digits_of(fs.last()),
{
    lemma_digits_push(fs.last(), b);
    assert(fs2.drop_last() =~= fs.drop_last());
    assert forall|k: int| 0 <= k < fs2.len() implies #[trigger] field_ok(fs2, k) by {
        assert(field_ok(fs, k));
        assert forall|j: int| 0 <= j < k implies fs2[j] == fs[j] by {}
    }
}

/// Decodes the first line of `buf`, or gives `None` exactly where decoding cannot
/// complete (see [`decode`]).
pub fn try_decode(buf: &Vec<u8>) -> (res: Option<Vec<i32>>)
    ensures
        res is Some <==> decodable(buf@),
        res matches Some(data) ==> data@.map_values(|x: i32| x as int) == decoded(buf@),
{
    let mut data: Vec<i32> = Vec::new();
    let mut new_index: bool = true;
    let mut index: usize = 0;
    let mut i: usize = 0;
    proof {
        let e = Seq::<u8>::empty();
        assert(buf@.take(0) =~= e);
        assert(split(e, COMMA) == seq![e]);
        assert(seq![e].drop_last() =~= Seq::<Seq<u8>>::empty());
        assert(digits_of(e) == e);
        assert(seq![e].len() == 1 && seq![e].last() == e);
        assert(decoded_fields(seq![e]) == decoded_fields(Seq::<Seq<u8>>::empty()));
    }
    while i < buf.len()
        invariant
            i <= buf.len(),
            split(buf@.take(i as int), NEWLINE) == seq![buf@.take(i as int)],
            split(buf@.take(i as int), COMMA).len() == index + 1,
            new_index == (digits_of(split(buf@.take(i as int), COMMA).last()).len() == 0),
            data@.len() == decoded_fields(split(buf@.take(i as int), COMMA)).len(),
            forall|j: int|
                0 <= j < data@.len() ==> data@[j] as int == #[trigger] decoded_fields(
                    split(buf@.take(i as int), COMMA),
                )[j],
            fields_ok(split(buf@.take(i as int), COMMA)),
        decreases buf.len() - i,
    {
        let b = buf[i];
        let ghost p = buf@.take(i as int);
        let ghost fs = split(p, COMMA);
        proof {
            assert(buf@.take(i + 1) =~= p.push(b));
            lemma_split_push(p, b, NEWLINE);
            lemma_split_push(p, b, COMMA);
            lemma_split_len(p, COMMA);
            lemma_decoded_len(fs);
        }
        if b == NEWLINE {
            proof {
                lemma_split_take(buf@, i + 1, NEWLINE);
                assert(split(buf@.take(i + 1), NEWLINE)[0] == p);
            }
            return Some(data);
        }
        let ghost p2 = buf@.take(i + 1);
        let ghost fs2 = split(p2, COMMA);
        proof {
            assert(split(p2, NEWLINE) =~= seq![p2]);
            lemma_digits_push(fs.last(), b);
        }
        if b == SPACE {
            // a space only pads the field it stands in
            proof {
                lemma_skipped_byte(fs, fs2, b);
                assert forall|j: int| 0 <= j < data@.len() implies data@[j] as int
                    == #[trigger] decoded_fields(fs2)[j] by {
                    assert(data@[j] as int == decoded_fields(fs)[j]);
                }
            }
        } else if b == COMMA {
            new_index = true;
            index += 1;
            proof {
                assert(fs2.drop_last() =~= fs);
                assert(digits_of(fs2.last()) =~= Seq::<u8>::empty());
                assert(decoded_fields(fs2) == decoded_fields(fs));
                assert forall|j: int| 0 <= j < data@.len() implies data@[j] as int
                    == #[trigger] decoded_fields(fs2)[j] by {
                    assert(data@[j] as int == decoded_fields(fs)[j]);
                }
                assert forall|k: int| 0 <= k < fs2.len() implies #[trigger] field_ok(fs2, k) by {
                    if k < fs.len() {
                        assert(field_ok(fs, k));
                        assert forall|j: int| 0 <= j < k implies fs2[j] == fs[j] by {}
                    }
                }
            }
        } else if ZERO <= b && b <= NINE {
            let d: u8 = b - ZERO;
            if new_index {
                data.push(d as i32);
                new_index = false;
                proof {
                    assert(fs2.drop_last() =~= fs.drop_last());
                    assert(decoded_fields(fs) == decoded_fields(fs.drop_last()));
                    assert(digits_of(fs2.last()) =~= seq![d]);
                    assert(seq![d].drop_last() =~= Seq::<u8>::empty());
                    assert(seq![d].len() == 1 && seq![d].last() == d);
                    assert(decimal_value(Seq::<u8>::empty()) == 0);
                    assert(decimal_value(seq![d]) == d as nat);
                    assert(decoded_fields(fs2) == decoded_fields(fs.drop_last()).push(d as int));
                    assert forall|j: int| 0 <= j < data@.len() implies data@[j] as int
                        == #[trigger] decoded_fields(fs2)[j] by {
                        if j < data@.len() - 1 {
                            assert(data@[j] as int == decoded_fields(fs)[j]);
                        }
                    }
                    assert forall|k: int| 0 <= k < fs2.len() implies #[trigger] field_ok(fs2, k) by {
                        if k < fs.len() - 1 {
                            assert(field_ok(fs, k));
                            assert forall|j: int| 0 <= j < k implies fs2[j] == fs[j] by {}
                        }
                    }
                }
            } else {
                proof {
                    lemma_field_in_line(buf@, i as int);
                }
                if index >= data.len() {
                    proof {
                        let full = first_line_fields(buf@);
                        let j = choose|j: int|
                            0 <= j < fs.len() && !(digits_of(fs[j]).len() > 0);
                        assert(j < index);
                        assert(fs2[j] == fs[j]);
                        assert(full[j] == fs2[j]);
                        assert(!field_ok(full, index as int));
                    }
                    return None;
                }
                let cur: i32 = data[index];
                let next: i64 = (cur as i64) * 10 + (d as i64);
                let ghost v = decimal_value(digits_of(fs.last()));
                proof {
                    assert(decoded_fields(fs) == decoded_fields(fs.drop_last()).push(v as int));
                    assert(data@[index as int] as int == decoded_fields(fs)[index as int]);
                    assert(cur as int == v);
                    assert(digits_of(fs2.last()).drop_last() =~= digits_of(fs.last()));
                    assert(decimal_value(digits_of(fs2.last())) == next);
                }
                if next > 2147483647 {
                    proof {
                        let full = first_line_fields(buf@);
                        assert(!field_ok(full, index as int));
                    }
                    return None;
                }
                data.set(index, next as i32);
                proof {
                    assert(fs2.drop_last() =~= fs.drop_last());
                    assert(decoded_fields(fs2) == decoded_fields(fs.drop_last()).push(next as int));
                    assert forall|j: int| 0 <= j < data@.len() implies data@[j] as int
                        == #[trigger] decoded_fields(fs2)[j] by {
                        if j < index {
                            assert(data@[j] as int == decoded_fields(fs)[j]);
                        }
                    }
                    assert forall|k: int| 0 <= k < fs2.len() implies #[trigger] field_ok(fs2, k) by {
                        if k < fs.len() - 1 {
                            assert(field_ok(fs, k));
                            assert forall|j: int| 0 <= j < k implies fs2[j] == fs[j] by {}
                        } else {
                            assert forall|j: int| 0 <= j < k implies #[trigger] digits_of(fs2[j]).len()
                                > 0 by {
                                assert(fs2[j] == fs[j]);
                                assert(digits_of(fs[j]).len() > 0);
                            }
                        }
                    }
                }
            }
        } else {
            proof {
                lemma_skipped_byte(fs, fs2, b);
                assert forall|j: int| 0 <= j < data@.len() implies data@[j] as int
                    == #[trigger] decoded_fields(fs2)[j] by {
                    assert(data@[j] as int == decoded_fields(fs)[j]);
                }
            }
        }
        i += 1;
    }
    proof {
        assert(buf@.take(i as int) =~= buf@);
    }
    proof {
        assert(data@.map_values(|x: i32| x as int) =~= decoded(buf@));
    }
    Some(data)
}

/// Decodes one line sent by the acquisition board: the numbers of the
/// comma-separated fields of the first line of `buf` that hold a digit, each made of
/// all the digits of its field. Other bytes, spaces among them, are skipped, and
/// nothing after the first newline is read. A field's first digit starts a new
/// number; each later digit is added to the number at the field's own position,
/// which exists only when every earlier field held a digit.
pub fn decode(buf: Vec<u8>) -> (data: Vec<i32>)
    requires
        decodable(buf@),
    ensures
        data@.map_values(|x: i32| x as int) == decoded(buf@),
{
    match try_decode(&buf) {
        Some(data) => data,
        None => Vec::new(),
    }
}

/// The line the board sends for `values`: their decimal texts separated by commas,
/// and a newline.
pub open spec fn encode_line(values: Seq<nat>) -> Seq<u8> {
    join(values.map_values(|v: nat| decimal_text(v)), COMMA).push(NEWLINE)
}

/// Every list of numbers that fit an `i32`, sent as a line, decodes to itself.
pub proof fn lemma_encode_decode(values: Seq<nat>)
    requires
        forall|k: int| 0 <= k < values.len() ==> values[k] <= i32::MAX,
    ensures
        decodable(encode_line(values)),
        decoded(encode_line(values)) == values.map_values(|v: nat| v as int),
{
    let pieces = values.map_values(|v: nat| decimal_text(v));
    let body = join(pieces, COMMA);
    assert forall|k: int| 0 <= k < pieces.len() implies {
        &&& pieces[k] == decimal_text(values[k])
        &&& forall|i: int| 0 <= i < pieces[k].len() ==> is_digit(#[trigger] pieces[k][i])
    } by {
        lemma_decimal_text(values[k]);
    }
    lemma_join_avoids(pieces, COMMA, NEWLINE);
    lemma_split_without_sep(body, NEWLINE);
    lemma_split_push(body, NEWLINE, NEWLINE);
    assert(split(encode_line(values), NEWLINE)[0] == body);
    let fs = first_line_fields(encode_line(values));
    if values.len() == 0 {
        assert(body == Seq::<u8>::empty());
        let e = Seq::<u8>::empty();
        assert(fs == seq![e]);
        assert(seq![e].len() == 1 && seq![e].last() == e);
        assert(seq![e].drop_last() =~= Seq::<Seq<u8>>::empty());
        assert(digits_of(e) == e);
        assert(decoded_fields(fs) == decoded_fields(Seq::<Seq<u8>>::empty()));
        assert(decoded_fields(fs) =~= values.map_values(|v: nat| v as int));
        assert forall|k: int| 0 <= k < fs.len() implies #[trigger] field_ok(fs, k) by {}
    } else {
        lemma_split_join(pieces, COMMA);
        assert(fs == pieces);
        lemma_decode_pieces(values);
        assert forall|k: int| 0 <= k < fs.len() implies #[trigger] field_ok(fs, k) by {
            lemma_decimal_text(values[k]);
            assert forall|j: int| 0 <= j < k implies #[trigger] digits_of(fs[j]).len() > 0 by {
                lemma_decimal_text(values[j]);
            }
        }
    }
}

proof fn lemma_decode_pieces(values: Seq<nat>)
    ensures
        decoded_fields(values.map_values(|v: nat| decimal_text(v))) == values.map_values(
            |v: nat| v as int,
        ),
    decreases values.len(),
{
    let pieces = values.map_values(|v: nat| decimal_text(v));
    if values.len() == 0 {
        assert(decoded_fields(pieces) =~= values.map_values(|v: nat| v as int));
    } else {
        let init = values.drop_last();
        lemma_decode_pieces(init);
        assert(pieces.drop_last() =~= init.map_values(|v: nat| decimal_text(v)));
        lemma_decimal_text(values.last());
        assert(pieces.last() == decimal_text(values.last()));
        assert(values.map_values(|v: nat| v as int) =~= init.map_values(|v: nat| v as int).push(
            values.last() as int,
        ));
    }
}

/// Nothing after the first newline changes what a line decodes to, or whether it
/// decodes.
pub proof fn lemma_text_after_newline_ignored(line: Seq<u8>, rest: Seq<u8>)
    requires
        line.contains(NEWLINE),
    ensures
        decoded(line + rest) == decoded(line),
        decodable(line + rest) == decodable(line),
{
    let whole = line + rest;
    assert(whole.take(line.len() as int) =~= line);
    lemma_split_take(whole, line.len() as int, NEWLINE);
    lemma_split_contains(line, NEWLINE);
    assert(split(line, NEWLINE)[0] == split(whole, NEWLINE)[0]);
}

/// Fields with the same digits, one by one, decode alike.
proof fn lemma_same_digits(fx: Seq<Seq<u8>>, fy: Seq<Seq<u8>>)
    requires
        fx.len() == fy.len(),
        forall|k: int| 0 <= k < fx.len() ==> #[trigger] digits_of(fy[k]) == digits_of(fx[k]),
    ensures
        decoded_fields(fy) == decoded_fields(fx),
        fields_ok(fy) == fields_ok(fx),
    decreases fx.len(),
{
    if fx.len() > 0 {
        assert forall|k: int| 0 <= k < fx.len() - 1 implies #[trigger] digits_of(
            fy.drop_last()[k],
        ) == digits_of(fx.drop_last()[k]) by {
            assert(digits_of(fy[k]) == digits_of(fx[k]));
        }
        lemma_same_digits(fx.drop_last(), fy.drop_last());
        assert(digits_of(fy[fx.len() - 1]) == digits_of(fx[fx.len() - 1]));
    }
    assert forall|k: int| 0 <= k < fx.len() implies #[trigger] field_ok(fy, k) == field_ok(fx, k) by {
        assert(digits_of(fy[k]) == digits_of(fx[k]));
        let before_y = forall|j: int| 0 <= j < k ==> #[trigger] digits_of(fy[j]).len() > 0;
        let before_x = forall|j: int| 0 <= j < k ==> #[trigger] digits_of(fx[j]).len() > 0;
        if before_x {
            assert forall|j: int| 0 <= j < k implies #[trigger] digits_of(fy[j]).len() > 0 by {
                assert(digits_of(fy[j]) == digits_of(fx[j]));
            }
        }
        if before_y {
            assert forall|j: int| 0 <= j < k implies #[trigger] digits_of(fx[j]).len() > 0 by {
                assert(digits_of(fy[j]) == digits_of(fx[j]));
            }
        }
        assert(before_x == before_y);
    }
    if fields_ok(fx) {
        assert forall|k: int| 0 <= k < fy.len() implies #[trigger] field_ok(fy, k) by {
            assert(field_ok(fx, k));
        }
    }
    if fields_ok(fy) {
        assert forall|k: int| 0 <= k < fx.len() implies #[trigger] field_ok(fx, k) by {
            assert(field_ok(fy, k));
        }
    }
}

/// A byte that is not a digit, comma or newline, inserted anywhere (a space, a
/// carriage return, a zero byte of padding), changes neither what a line decodes
/// to nor whether it decodes.
pub proof fn lemma_skipped_byte_ignored(a: Seq<u8>, b: Seq<u8>, c: u8)
    requires
        !is_digit(c),
        c != COMMA,
        c != NEWLINE,
    ensures
        decoded(a + seq![c] + b) == decoded(a + b),
        decodable(a + seq![c] + b) == decodable(a + b),
{
    let x = a + b;
    let y = a + seq![c] + b;
    let r = lemma_split_insert(a, b, c, NEWLINE);
    let fx = first_line_fields(x);
    let fy = first_line_fields(y);
    if r.0 == 0 {
        let r2 = lemma_split_insert(r.1, r.2, c, COMMA);
        lemma_digits_insert(r2.1, r2.2, c);
        assert forall|k: int| 0 <= k < fx.len() implies #[trigger] digits_of(fy[k]) == digits_of(
            fx[k],
        ) by {
            if k != r2.0 {
                assert(fy[k] == fx[k]);
            }
        }
        lemma_same_digits(fx, fy);
    } else {
        assert(split(y, NEWLINE)[0] == split(x, NEWLINE)[0]);
    }
}

} // verus!
