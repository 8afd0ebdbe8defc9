//! The radio receiver's packet format. A buffer holds one line per packet, ended by
//! a newline; a line holds comma-separated signed decimal readings such as `-12.75`.
//! The radio mode fixes how many packets a buffer carries.

use vstd::prelude::*;
use crate::text::{
    NEWLINE, COMMA, MINUS, DOT, ZERO, NINE, is_digit, split, digits_of, lemma_split_push,
    lemma_split_take, lemma_digits_push, join, lemma_split_join, lemma_join_avoids,
    lemma_split_insert, lemma_digits_insert,
};

verus! {

/// How many packets a buffer carries in each radio mode: suspension and driver
/// modes two, damper mode nine, slip/slide mode five, the general mode one.
pub open spec fn packets_in_mode(mode: i32) -> nat {
    if mode == 1 || mode == 3 {
        2
    } else if mode == 2 {
        9
    } else if mode == 4 {
        5
    } else {
        1
    }
}

/// The number of packets a buffer carries in radio mode `mode`.
pub fn packet_count(mode: i32) -> (n: usize)
    ensures
        n == packets_in_mode(mode),
{
    match mode {
        1 | 3 => 2,
        2 => 9,
        4 => 5,
        _ => 1,
    }
}

/// A decoded reading: its digit values in order, the power of ten it is divided by,
/// and whether it is negated.
pub struct ReadingModel {
    pub digits: Seq<u8>,
    pub scale: nat,
    pub negative: bool,
}

/// A reading as decoded: the number written by `digits` (most significant first),
/// divided by ten to the power `scale`, and negated when `negative` is set.
#[derive(Debug)]
pub struct Reading {
    pub digits: Vec<u8>,
    pub scale: u32,
    pub negative: bool,
}

impl View for Reading {
    type V = ReadingModel;

    open spec fn view(&self) -> ReadingModel {
        ReadingModel { digits: self.digits@, scale: self.scale as nat, negative: self.negative }
    }
}

pub open spec fn packet_view(p: Seq<Reading>) -> Seq<ReadingModel> {
    p.map_values(|r: Reading| r@)
}

pub open spec fn packets_view(ps: Seq<Vec<Reading>>) -> Seq<Seq<ReadingModel>> {
    ps.map_values(|p: Vec<Reading>| packet_view(p@))
}

/// The number of digits that follow the first decimal point of a field.
pub open spec fn decimals_of(f: Seq<u8>) -> nat
    decreases f.len(),
{
    if f.len() == 0 {
        0
    } else if is_digit(f.last()) && f.drop_last().contains(DOT) {
        decimals_of(f.drop_last()) + 1
    } else {
        decimals_of(f.drop_last())
    }
}

/// A field ended by a comma: scaled by its decimals, negated when it holds a minus.
pub open spec fn closed_reading(f: Seq<u8>) -> ReadingModel {
    ReadingModel { digits: digits_of(f), scale: decimals_of(f), negative: f.contains(MINUS) }
}

/// The last field of a line, which is neither scaled nor negated.
pub open spec fn open_reading(f: Seq<u8>) -> ReadingModel {
    ReadingModel { digits: digits_of(f), scale: 0, negative: false }
}

/// The readings of one line: none when its first field holds no digit, else one per
/// field.
pub open spec fn line_readings(line: Seq<u8>) -> Seq<ReadingModel> {
    let fs = split(line, COMMA);
    if digits_of(fs[0]).len() == 0 {
        Seq::empty()
    } else {
        Seq::new(
            fs.len(),
            |j: int|
                if j < fs.len() - 1 {
                    closed_reading(fs[j])
                } else {
                    open_reading(fs[j])
                },
        )
    }
}

/// What a buffer decodes to in radio mode `mode`: one packet per line, as many
/// packets as the mode carries; lines past those are not read, and missing lines
/// give empty packets.
pub open spec fn decoded_packets(mode: i32, buf: Seq<u8>) -> Seq<Seq<ReadingModel>> {
    let lines = split(buf, NEWLINE);
    Seq::new(
        packets_in_mode(mode),
        |k: int|
            if k < lines.len() {
                line_readings(lines[k])
            } else {
                Seq::empty()
            },
    )
}

/// A line decodes when a comma in it follows a digit of its first field, every
/// field ended by a comma has at most nine decimals (its divisor, ten to that
/// power, must fit an `i32`), and no field has more decimals than a `u32` counts.
pub open spec fn line_ok(line: Seq<u8>) -> bool {
    let fs = split(line, COMMA);
    &&& fs.len() > 1 ==> digits_of(fs[0]).len() > 0
    &&& forall|j: int| 0 <= j < fs.len() ==> #[trigger] decimals_of(fs[j]) <= u32::MAX
    &&& forall|j: int| 0 <= j < fs.len() - 1 ==> #[trigger] decimals_of(fs[j]) <= 9
}

/// The buffers that decode in radio mode `mode`: every line that is read is fine.
pub open spec fn decodable(mode: i32, buf: Seq<u8>) -> bool {
    let lines = split(buf, NEWLINE);
    forall|k: int| 0 <= k < lines.len() && k < packets_in_mode(mode) ==> #[trigger] line_ok(lines[k])
}

proof fn lemma_contains_push(s: Seq<u8>, b: u8, c: u8)
    ensures
        s.push(b).contains(c) == (s.contains(c) || b == c),
{
    let t = s.push(b);
    if s.contains(c) {
        let i = choose|i: int| 0 <= i < s.len() && s[i] == c;
        assert(t[i] == c);
    }
    if b == c {
        assert(t[s.len() as int] == c);
    }
    if t.contains(c) {
        let i = choose|i: int| 0 <= i < t.len() && t[i] == c;
        if i < s.len() {
            assert(s[i] == c);
        }
    }
}

/// What one more byte does to a field's digits, decimals, point and minus.
proof fn lemma_field_push(f: Seq<u8>, b: u8)
    ensures
        is_digit(b) ==> digits_of(f.push(b)) == digits_of(f).push((b - ZERO) as u8),
        !is_digit(b) ==> digits_of(f.push(b)) == digits_of(f),
        decimals_of(f.push(b)) == if is_digit(b) && f.contains(DOT) {
            decimals_of(f) + 1
        } else {
            decimals_of(f)
        },
        f.push(b).contains(DOT) == (f.contains(DOT) || b == DOT),
        f.push(b).contains(MINUS) == (f.contains(MINUS) || b == MINUS),
{
    lemma_digits_push(f, b);
    assert(f.push(b).drop_last() =~= f);
    lemma_contains_push(f, b, DOT);
    lemma_contains_push(f, b, MINUS);
}

proof fn lemma_decimals_take(f: Seq<u8>, m: int)
    requires
        0 <= m <= f.len(),
    ensures
        decimals_of(f.take(m)) <= decimals_of(f),
    decreases f.len() - m,
{
    if m == f.len() {
        assert(f.take(m) =~= f);
    } else {
        lemma_decimals_take(f, m + 1);
        assert(f.take(m + 1).drop_last() =~= f.take(m));
    }
}

/// The lines of the buffer read so far, and the fields of the line being read.
spec fn lines_upto(buf: Seq<u8>, i: int) -> Seq<Seq<u8>> {
    split(buf.take(i), NEWLINE)
}

spec fn fields_upto(buf: Seq<u8>, i: int) -> Seq<Seq<u8>> {
    split(lines_upto(buf, i).last(), COMMA)
}

/// The line and field read when byte `i` is reached agree with the whole buffer.
proof fn lemma_read_in_buffer(buf: Seq<u8>, i: int)
    requires
        0 <= i < buf.len(),
    ensures
        ({
            let lines = lines_upto(buf, i + 1);
            let full = split(buf, NEWLINE);
            let fs = fields_upto(buf, i + 1);
            let ffs = split(full[lines.len() - 1], COMMA);
            &&& 1 <= lines.len() <= full.len()
            &&& forall|j: int| 0 <= j < lines.len() - 1 ==> #[trigger] lines[j] == full[j]
            &&& 1 <= fs.len() <= ffs.len()
            &&& forall|j: int| 0 <= j < fs.len() - 1 ==> #[trigger] fs[j] == ffs[j]
            &&& digits_of(fs[0]).len() <= digits_of(ffs[0]).len()
            &&& decimals_of(fs.last()) <= decimals_of(ffs[fs.len() - 1])
        }),
{
    lemma_split_take(buf, i + 1, NEWLINE);
    let lines = lines_upto(buf, i + 1);
    let full = split(buf, NEWLINE);
    let line = lines.last();
    let fline = full[lines.len() - 1];
    assert(fline.take(line.len() as int) == line);
    lemma_split_take(fline, line.len() as int, COMMA);
    let fs = fields_upto(buf, i + 1);
    let ffs = split(fline, COMMA);
    lemma_decimals_take(ffs[fs.len() - 1], fs.last().len() as int);
    assert(ffs[fs.len() - 1].take(fs.last().len() as int) == fs.last());
    if fs.len() > 1 {
        assert(fs[0] == ffs[0]);
    } else {
        crate::text::lemma_digits_take(ffs[0], fs[0].len() as int);
    }
}

/// The state kept while reading a line: `cur` holds the readings of its fields
/// ended by a comma, and the other values describe the field being read.
spec fn line_state(
    fs: Seq<Seq<u8>>,
    cur: Seq<Reading>,
    started: bool,
    digits: Seq<u8>,
    decimal: bool,
    decimals: u32,
    negative: bool,
) -> bool {
    &&& fs.len() >= 1
    &&& started == (digits_of(fs[0]).len() > 0)
    &&& !started ==> fs.len() == 1
    &&& cur.len() == fs.len() - 1
    &&& forall|j: int| 0 <= j < cur.len() ==> #[trigger] cur[j]@ == closed_reading(fs[j])
    &&& forall|j: int| 0 <= j < fs.len() - 1 ==> #[trigger] decimals_of(fs[j]) <= 9
    &&& digits == digits_of(fs.last())
    &&& decimal == fs.last().contains(DOT)
    &&& decimals == decimals_of(fs.last())
    &&& negative == fs.last().contains(MINUS)
}

/// Ending a line: it is fine, and its readings are those collected plus its last
/// field, unscaled.
proof fn lemma_finish_line(
    line: Seq<u8>,
    cur: Seq<Reading>,
    started: bool,
    digits: Seq<u8>,
    decimal: bool,
    decimals: u32,
    negative: bool,
)
    requires
        line_state(split(line, COMMA), cur, started, digits, decimal, decimals, negative),
    ensures
        line_ok(line),
        started ==> packet_view(cur).push(ReadingModel { digits, scale: 0, negative: false })
            == line_readings(line),
        !started ==> line_readings(line) == Seq::<ReadingModel>::empty(),
{
    let fs = split(line, COMMA);
    if started {
        let got = packet_view(cur).push(ReadingModel { digits, scale: 0, negative: false });
        assert(got =~= line_readings(line));
    }
}

/// Decodes `buf` in radio mode `mode`, or gives `None` exactly where decoding cannot
/// complete (see [`decode`]).
pub fn try_decode(mode: i32, buf: &Vec<u8>) -> (res: Option<Vec<Vec<Reading>>>)
    ensures
        res is Some <==> decodable(mode, buf@),
        res matches Some(packets) ==> packets_view(packets@) == decoded_packets(mode, buf@),
{
    let count = packet_count(mode);
    let mut packets: Vec<Vec<Reading>> = Vec::new();
    let mut cur: Vec<Reading> = Vec::new();
    let mut started = false;
    let mut digits: Vec<u8> = Vec::new();
    let mut decimal = false;
    let mut decimals: u32 = 0;
    let mut negative = false;
    let mut i: usize = 0;
    proof {
        let e = Seq::<u8>::empty();
        assert(buf@.take(0) =~= e);
        assert(split(e, NEWLINE) == seq![e]);
        assert(split(e, COMMA) == seq![e]);
        assert(digits_of(e) == e);
        assert(decimals_of(e) == 0);
    }
    while i < buf.len()
        invariant
            i <= buf.len(),
            count == packets_in_mode(mode),
            lines_upto(buf@, i as int).len() == packets.len() + 1,
            packets.len() < count,
            forall|k: int|
                0 <= k < packets.len() ==> {
                    &&& packet_view(#[trigger] packets@[k]@) == line_readings(
                        lines_upto(buf@, i as int)[k],
                    )
                    &&& line_ok(lines_upto(buf@, i as int)[k])
                },
            line_state(
                fields_upto(buf@, i as int),
                cur@,
                started,
                digits@,
                decimal,
                decimals,
                negative,
            ),
        decreases buf.len() - i,
    {
        let b = buf[i];
        let ghost p = buf@.take(i as int);
        let ghost lines = lines_upto(buf@, i as int);
        let ghost fs = fields_upto(buf@, i as int);
        let ghost p2 = buf@.take(i + 1);
        proof {
            assert(p2 =~= p.push(b));
            lemma_split_push(p, b, NEWLINE);
            lemma_split_push(lines.last(), b, COMMA);
            lemma_field_push(fs.last(), b);
        }
        if b == NEWLINE {
            proof {
                lemma_finish_line(lines.last(), cur@, started, digits@, decimal, decimals, negative);
            }
            let mut line_packet: Vec<Reading> = Vec::new();
            if started {
                line_packet = cur;
                line_packet.push(Reading { digits, scale: 0, negative: false });
            }
            packets.push(line_packet);
            proof {
                let lines2 = lines_upto(buf@, i + 1);
                assert(lines2 == lines.push(Seq::<u8>::empty()));
                assert forall|k: int| 0 <= k < packets.len() implies {
                    &&& packet_view(#[trigger] packets@[k]@) == line_readings(lines2[k])
                    &&& line_ok(lines2[k])
                } by {
                    assert(lines2[k] == lines[k]);
                }
            }
            if packets.len() == count {
                proof {
                    lemma_split_take(buf@, i + 1, NEWLINE);
                    let lines2 = lines_upto(buf@, i + 1);
                    let full = split(buf@, NEWLINE);
                    assert forall|k: int| 0 <= k < packets.len() implies lines2[k] == full[k] by {}
                    assert forall|k: int| 0 <= k < packets.len() implies packets_view(packets@)[k]
                        == decoded_packets(mode, buf@)[k] by {
                        assert(packet_view(packets@[k]@) == line_readings(lines2[k]));
                    }
                    assert(packets_view(packets@) =~= decoded_packets(mode, buf@));
                    assert forall|k: int| 0 <= k < full.len() && k < packets_in_mode(mode) implies
                        #[trigger] line_ok(full[k]) by {
                        assert(packet_view(packets@[k]@) == line_readings(lines2[k]));
                        assert(lines2[k] == full[k]);
                    }
                }
                return Some(packets);
            }
            cur = Vec::new();
            started = false;
            digits = Vec::new();
            decimal = false;
            decimals = 0;
            negative = false;
            proof {
                let e = Seq::<u8>::empty();
                assert(lines_upto(buf@, i + 1).last() == e);
                assert(split(e, COMMA) == seq![e]);
                assert(digits_of(e) == e);
                assert(decimals_of(e) == 0);
            }
        } else if b == MINUS {
            negative = true;
        } else if b == DOT {
            decimal = true;
        } else if b == COMMA {
            if !started {
                proof {
                    lemma_read_in_buffer(buf@, i as int);
                    let full = split(buf@, NEWLINE);
                    let k = lines.len() - 1;
                    assert(fields_upto(buf@, i + 1)[0] == fs[0]);
                    assert(!line_ok(full[k]));
                }
                return None;
            }
            if decimals > 9 {
                proof {
                    lemma_read_in_buffer(buf@, i as int);
                    let full = split(buf@, NEWLINE);
                    let k = lines.len() - 1;
                    let ffs = split(full[k], COMMA);
                    let j = fs.len() - 1;
                    assert(fields_upto(buf@, i + 1)[j] == fs[j]);
                    assert(decimals_of(ffs[j]) > 9);
                    assert(!line_ok(full[k]));
                }
                return None;
            }
            cur.push(Reading { digits, scale: decimals, negative });
            digits = Vec::new();
            decimal = false;
            decimals = 0;
            negative = false;
            proof {
                let e = Seq::<u8>::empty();
                let fs2 = fields_upto(buf@, i + 1);
                assert(fs2 == fs.push(e));
                assert(digits_of(e) == e);
                assert(decimals_of(e) == 0);
                assert forall|j: int| 0 <= j < cur@.len() implies #[trigger] cur@[j]@
                    == closed_reading(fs2[j]) by {
                    assert(fs2[j] == fs[j]);
                }
                assert forall|j: int| 0 <= j < fs2.len() - 1 implies #[trigger] decimals_of(fs2[j])
                    <= 9 by {
                    assert(fs2[j] == fs[j]);
                }
            }
        } else if ZERO <= b && b <= NINE {
            if decimal {
                if decimals == 4294967295 {
                    proof {
                        lemma_read_in_buffer(buf@, i as int);
                        let full = split(buf@, NEWLINE);
                        let k = lines.len() - 1;
                        assert(!line_ok(full[k]));
                    }
                    return None;
                }
                decimals = decimals + 1;
            }
            digits.push(b - ZERO);
            started = true;
        }
        proof {
            if b != NEWLINE && b != COMMA {
                // the byte joined the field being read; the fields before it stay
                let fs2 = fields_upto(buf@, i + 1);
                assert forall|j: int| 0 <= j < cur@.len() implies #[trigger] cur@[j]@
                    == closed_reading(fs2[j]) by {
                    assert(fs2[j] == fs[j]);
                }
                assert forall|j: int| 0 <= j < fs2.len() - 1 implies #[trigger] decimals_of(fs2[j])
                    <= 9 by {
                    assert(fs2[j] == fs[j]);
                }
                if fs.len() > 1 {
                    assert(fs2[0] == fs[0]);
                }
            }
            if b != NEWLINE {
                let lines2 = lines_upto(buf@, i + 1);
                assert forall|k: int| 0 <= k < packets.len() implies lines2[k] == lines[k] by {}
            }
        }
        i += 1;
    }
    proof {
        assert(buf@.take(i as int) =~= buf@);
        let lines = lines_upto(buf@, i as int);
        lemma_finish_line(lines.last(), cur@, started, digits@, decimal, decimals, negative);
    }
    let mut line_packet: Vec<Reading> = Vec::new();
    if started {
        line_packet = cur;
        line_packet.push(Reading { digits, scale: 0, negative: false });
    }
    packets.push(line_packet);
    let ghost read = packets.len();
    while packets.len() < count
        invariant
            read <= packets.len() <= count,
            count == packets_in_mode(mode),
            read == split(buf@, NEWLINE).len(),
            forall|k: int|
                0 <= k < read ==> {
                    &&& packet_view(#[trigger] packets@[k]@) == line_readings(split(buf@, NEWLINE)[k])
                    &&& line_ok(split(buf@, NEWLINE)[k])
                },
            forall|k: int| read <= k < packets.len() ==> #[trigger] packets@[k]@.len() == 0,
        decreases count - packets.len(),
    {
        let ghost before = packets@;
        packets.push(Vec::new());
        proof {
            assert forall|k: int| 0 <= k < read implies #[trigger] packets@[k] == before[k] by {}
        }
    }
    proof {
        let full = split(buf@, NEWLINE);
        assert forall|k: int| 0 <= k < packets.len() implies packets_view(packets@)[k]
            == decoded_packets(mode, buf@)[k] by {
            if k < read {
                assert(packet_view(packets@[k]@) == line_readings(full[k]));
            } else {
                assert(packets@[k]@.len() == 0);
                assert(packet_view(packets@[k]@) =~= Seq::<ReadingModel>::empty());
            }
        }
        assert(packets_view(packets@) =~= decoded_packets(mode, buf@));
        assert forall|k: int| 0 <= k < full.len() && k < packets_in_mode(mode) implies
            #[trigger] line_ok(full[k]) by {
            assert(packet_view(packets@[k]@) == line_readings(full[k]));
        }
    }
    Some(packets)
}

/// Decodes a buffer from the radio receiver in radio mode `mode`: one packet per
/// line, as many as the mode carries (missing lines give empty packets, lines past
/// them are not read). A line whose first field holds a digit gives one reading per
/// comma-separated field: the field's digits, its number of decimals (digits after
/// its first point) as scale and whether it holds a minus; the last field of a line
/// is neither scaled nor negated. Any other line gives no reading.
pub fn decode(mode: i32, buf: Vec<u8>) -> (packets: Vec<Vec<Reading>>)
    requires
        decodable(mode, buf@),
    ensures
        packets_view(packets@) == decoded_packets(mode, buf@),
        packets@.len() == packets_in_mode(mode),
{
    match try_decode(mode, &buf) {
        Some(packets) => {
            proof {
                assert(packets_view(packets@).len() == packets@.len());
            }
            packets
        },
        None => Vec::new(),
    }
}

/// Once a buffer holds all the lines its radio mode carries, nothing after them
/// changes what it decodes to, or whether it decodes.
pub proof fn lemma_lines_past_count_ignored(mode: i32, head: Seq<u8>, rest: Seq<u8>)
    requires
        split(head, NEWLINE).len() > packets_in_mode(mode),
    ensures
        decoded_packets(mode, head + rest) == decoded_packets(mode, head),
        decodable(mode, head + rest) == decodable(mode, head),
{
    let whole = head + rest;
    assert(whole.take(head.len() as int) =~= head);
    lemma_split_take(whole, head.len() as int, NEWLINE);
    let a = split(head, NEWLINE);
    let full = split(whole, NEWLINE);
    assert forall|k: int| 0 <= k < packets_in_mode(mode) implies #[trigger] a[k] == full[k] by {}
    assert(decoded_packets(mode, whole) =~= decoded_packets(mode, head));
    if decodable(mode, head) {
        assert forall|k: int| 0 <= k < full.len() && k < packets_in_mode(mode) implies
            #[trigger] line_ok(full[k]) by {
            assert(a[k] == full[k]);
        }
    }
    if decodable(mode, whole) {
        assert forall|k: int| 0 <= k < a.len() && k < packets_in_mode(mode) implies
            #[trigger] line_ok(a[k]) by {
            assert(a[k] == full[k]);
        }
    }
}

/// The ASCII digits of digit values.
pub open spec fn ascii_digits(ds: Seq<u8>) -> Seq<u8> {
    ds.map_values(|d: u8| (d + ZERO) as u8)
}

/// How a reading is written on the radio line: a minus when negative, its digits,
/// and a decimal point before its last `scale` digits when `scale` is not zero.
pub open spec fn reading_text(r: ReadingModel) -> Seq<u8> {
    let whole = (r.digits.len() - r.scale) as int;
    (if r.negative {
        seq![MINUS]
    } else {
        Seq::empty()
    }) + ascii_digits(r.digits.take(whole)) + (if r.scale > 0 {
        seq![DOT] + ascii_digits(r.digits.skip(whole))
    } else {
        Seq::empty()
    })
}

/// A packet written as one line, without its newline.
pub open spec fn packet_text(readings: Seq<ReadingModel>) -> Seq<u8> {
    join(readings.map_values(|r: ReadingModel| reading_text(r)), COMMA)
}

/// Packets written one line each.
pub open spec fn packets_text(packets: Seq<Seq<ReadingModel>>) -> Seq<u8> {
    join(packets.map_values(|p: Seq<ReadingModel>| packet_text(p)), NEWLINE)
}

/// A packet that reads back as written: empty, or its first reading has a digit,
/// every reading is made of digit values with at most as many decimals as digits,
/// a reading followed by another has at most nine decimals, and the last reading
/// is neither scaled nor negative (the last field of a line is read unscaled and
/// unsigned).
pub open spec fn sendable_packet(readings: Seq<ReadingModel>) -> bool {
    readings.len() > 0 ==> {
        &&& readings[0].digits.len() > 0
        &&& forall|j: int, i: int|
            0 <= j < readings.len() && 0 <= i < readings[j].digits.len() ==> #[trigger] readings[j].digits[i]
                < 10
        &&& forall|j: int| 0 <= j < readings.len() ==> #[trigger] readings[j].scale <= readings[j].digits.len()
        &&& forall|j: int| 0 <= j < readings.len() - 1 ==> #[trigger] readings[j].scale <= 9
        &&& readings.last().scale == 0
        &&& !readings.last().negative
    }
}

proof fn lemma_contains_concat(a: Seq<u8>, b: Seq<u8>, c: u8)
    ensures
        (a + b).contains(c) == (a.contains(c) || b.contains(c)),
{
    let s = a + b;
    if a.contains(c) {
        let i = choose|i: int| 0 <= i < a.len() && a[i] == c;
        assert(s[i] == c);
    }
    if b.contains(c) {
        let i = choose|i: int| 0 <= i < b.len() && b[i] == c;
        assert(s[a.len() + i] == c);
    }
    if s.contains(c) {
        let i = choose|i: int| 0 <= i < s.len() && s[i] == c;
        if i < a.len() {
            assert(a[i] == c);
        } else {
            assert(b[i - a.len()] == c);
        }
    }
}

proof fn lemma_fields_concat(a: Seq<u8>, b: Seq<u8>)
    ensures
        digits_of(a + b) == digits_of(a) + digits_of(b),
        decimals_of(a + b) == decimals_of(a) + if a.contains(DOT) {
            digits_of(b).len()
        } else {
            decimals_of(b)
        },
    decreases b.len(),
{
    if b.len() == 0 {
        assert(a + b =~= a);
        assert(digits_of(a) + digits_of(b) =~= digits_of(a));
    } else {
        let b0 = b.drop_last();
        let c = b.last();
        lemma_fields_concat(a, b0);
        assert(a + b =~= (a + b0).push(c));
        assert(b0.push(c) =~= b);
        lemma_field_push(a + b0, c);
        lemma_field_push(b0, c);
        lemma_contains_concat(a, b0, DOT);
        if is_digit(c) {
            assert(digits_of(a) + digits_of(b0).push((c - ZERO) as u8) =~= (digits_of(a)
                + digits_of(b0)).push((c - ZERO) as u8));
        }
    }
}

proof fn lemma_ascii_digits(ds: Seq<u8>)
    requires
        forall|i: int| 0 <= i < ds.len() ==> ds[i] < 10,
    ensures
        digits_of(ascii_digits(ds)) == ds,
        !ascii_digits(ds).contains(DOT),
        !ascii_digits(ds).contains(MINUS),
        decimals_of(ascii_digits(ds)) == 0,
        forall|i: int| 0 <= i < ascii_digits(ds).len() ==> is_digit(#[trigger] ascii_digits(ds)[i]),
    decreases ds.len(),
{
    let t = ascii_digits(ds);
    if ds.len() == 0 {
        assert(t =~= Seq::<u8>::empty());
    } else {
        let d0 = ds.drop_last();
        lemma_ascii_digits(d0);
        assert(t =~= ascii_digits(d0).push((ds.last() + ZERO) as u8));
        lemma_field_push(ascii_digits(d0), (ds.last() + ZERO) as u8);
        assert(d0.push(ds.last()) =~= ds);
    }
}

/// The fields of a written reading read back as the reading.
proof fn lemma_reading_text(r: ReadingModel)
    requires
        r.scale <= r.digits.len(),
        forall|i: int| 0 <= i < r.digits.len() ==> #[trigger] r.digits[i] < 10,
    ensures
        digits_of(reading_text(r)) == r.digits,
        decimals_of(reading_text(r)) == r.scale,
        reading_text(r).contains(MINUS) == r.negative,
        !reading_text(r).contains(COMMA),
        !reading_text(r).contains(NEWLINE),
{
    let whole = (r.digits.len() - r.scale) as int;
    let sign: Seq<u8> = if r.negative {
        seq![MINUS]
    } else {
        Seq::empty()
    };
    let head = r.digits.take(whole);
    let tail = r.digits.skip(whole);
    let frac: Seq<u8> = if r.scale > 0 {
        seq![DOT] + ascii_digits(tail)
    } else {
        Seq::empty()
    };
    lemma_ascii_digits(head);
    lemma_ascii_digits(tail);
    let e = Seq::<u8>::empty();
    assert(digits_of(e) == e);
    assert(decimals_of(e) == 0);
    assert(!e.contains(DOT));
    assert(!e.contains(MINUS));
    // the sign
    assert(seq![MINUS] =~= e.push(MINUS));
    lemma_field_push(e, MINUS);
    lemma_contains_push(e, MINUS, COMMA);
    lemma_contains_push(e, MINUS, NEWLINE);
    assert(digits_of(sign) == e);
    assert(decimals_of(sign) == 0);
    assert(!sign.contains(DOT));
    // the decimal part
    assert(seq![DOT] =~= e.push(DOT));
    lemma_field_push(e, DOT);
    lemma_contains_push(e, DOT, COMMA);
    lemma_contains_push(e, DOT, NEWLINE);
    lemma_contains_push(e, DOT, MINUS);
    lemma_fields_concat(seq![DOT], ascii_digits(tail));
    lemma_contains_concat(seq![DOT], ascii_digits(tail), MINUS);
    lemma_contains_concat(seq![DOT], ascii_digits(tail), COMMA);
    lemma_contains_concat(seq![DOT], ascii_digits(tail), NEWLINE);
    lemma_contains_concat(sign, ascii_digits(head), MINUS);
    lemma_contains_concat(sign, ascii_digits(head), COMMA);
    lemma_contains_concat(sign, ascii_digits(head), NEWLINE);
    lemma_contains_concat(sign, ascii_digits(head), DOT);
    lemma_contains_concat(sign + ascii_digits(head), frac, MINUS);
    lemma_contains_concat(sign + ascii_digits(head), frac, COMMA);
    lemma_contains_concat(sign + ascii_digits(head), frac, NEWLINE);
    assert(forall|i: int| 0 <= i < ascii_digits(head).len() ==> is_digit(#[trigger] ascii_digits(head)[i]));
    if ascii_digits(head).contains(COMMA) {
        let i = choose|i: int| 0 <= i < ascii_digits(head).len() && ascii_digits(head)[i] == COMMA;
        assert(is_digit(ascii_digits(head)[i]));
    }
    if ascii_digits(head).contains(NEWLINE) {
        let i = choose|i: int| 0 <= i < ascii_digits(head).len() && ascii_digits(head)[i] == NEWLINE;
        assert(is_digit(ascii_digits(head)[i]));
    }
    if ascii_digits(tail).contains(COMMA) {
        let i = choose|i: int| 0 <= i < ascii_digits(tail).len() && ascii_digits(tail)[i] == COMMA;
        assert(is_digit(ascii_digits(tail)[i]));
    }
    if ascii_digits(tail).contains(NEWLINE) {
        let i = choose|i: int| 0 <= i < ascii_digits(tail).len() && ascii_digits(tail)[i] == NEWLINE;
        assert(is_digit(ascii_digits(tail)[i]));
    }
    lemma_fields_concat(sign, ascii_digits(head));
    lemma_fields_concat(sign + ascii_digits(head), frac);
    assert(reading_text(r) == sign + ascii_digits(head) + frac);
    if r.scale > 0 {
        assert(digits_of(frac) =~= tail);
    } else {
        assert(tail =~= e);
    }
    assert(head + tail =~= r.digits);
    assert(e + head =~= head);
    assert(e + head + tail =~= r.digits);
}

proof fn lemma_no_byte(s: Seq<u8>, c: u8)
    requires
        !s.contains(c),
    ensures
        forall|i: int| 0 <= i < s.len() ==> s[i] != c,
{
    assert forall|i: int| 0 <= i < s.len() implies s[i] != c by {
        if s[i] == c {
            assert(s.contains(c));
        }
    }
}

/// A sendable packet, written as a line, reads back as itself.
proof fn lemma_packet_text(readings: Seq<ReadingModel>)
    requires
        sendable_packet(readings),
    ensures
        line_ok(packet_text(readings)),
        line_readings(packet_text(readings)) == readings,
        !packet_text(readings).contains(NEWLINE),
{
    let pieces = readings.map_values(|r: ReadingModel| reading_text(r));
    let text = packet_text(readings);
    assert forall|k: int| 0 <= k < pieces.len() implies {
        &&& #[trigger] pieces[k] == reading_text(readings[k])
        &&& digits_of(pieces[k]) == readings[k].digits
        &&& decimals_of(pieces[k]) == readings[k].scale
        &&& pieces[k].contains(MINUS) == readings[k].negative
        &&& forall|i: int| 0 <= i < pieces[k].len() ==> pieces[k][i] != COMMA
        &&& forall|i: int| 0 <= i < pieces[k].len() ==> pieces[k][i] != NEWLINE
    } by {
        assert(readings[k].scale <= readings[k].digits.len());
        assert forall|i: int| 0 <= i < readings[k].digits.len() implies #[trigger] readings[k].digits[i]
            < 10 by {}
        lemma_reading_text(readings[k]);
        lemma_no_byte(pieces[k], COMMA);
        lemma_no_byte(pieces[k], NEWLINE);
    }
    assert forall|k: int, i: int| 0 <= k < pieces.len() && 0 <= i < pieces[k].len() implies
        #[trigger] pieces[k][i] != NEWLINE by {}
    lemma_join_avoids(pieces, COMMA, NEWLINE);
    if text.contains(NEWLINE) {
        // a newline in the line would sit at some position, where the join has none
        let i = choose|i: int| 0 <= i < text.len() && text[i] == NEWLINE;
        assert(text[i] != NEWLINE);
    }
    if readings.len() == 0 {
        let e = Seq::<u8>::empty();
        assert(text == e);
        assert(split(e, COMMA) == seq![e]);
        assert(digits_of(e) == e);
        assert(decimals_of(e) == 0);
        assert(line_readings(text) =~= readings);
    } else {
        assert forall|k: int, i: int| 0 <= k < pieces.len() && 0 <= i < pieces[k].len() implies
            #[trigger] pieces[k][i] != COMMA by {}
        lemma_split_join(pieces, COMMA);
        let fs = split(text, COMMA);
        assert(fs == pieces);
        assert forall|j: int| 0 <= j < readings.len() implies #[trigger] line_readings(text)[j]
            == readings[j] by {
            if j < readings.len() - 1 {
                assert(closed_reading(fs[j]) == readings[j]);
            } else {
                assert(open_reading(fs[j]) == readings[j]);
            }
        }
        assert(line_readings(text) =~= readings);
    }
}

/// Packets as many as the radio mode carries, each sendable and written one per
/// line, read back as themselves.
pub proof fn lemma_encode_decode_packets(mode: i32, packets: Seq<Seq<ReadingModel>>)
    requires
        packets.len() == packets_in_mode(mode),
        forall|k: int| 0 <= k < packets.len() ==> sendable_packet(#[trigger] packets[k]),
    ensures
        decodable(mode, packets_text(packets)),
        decoded_packets(mode, packets_text(packets)) == packets,
{
    let lines = packets.map_values(|p: Seq<ReadingModel>| packet_text(p));
    assert forall|k: int| 0 <= k < lines.len() implies {
        &&& #[trigger] lines[k] == packet_text(packets[k])
        &&& line_ok(lines[k])
        &&& line_readings(lines[k]) == packets[k]
        &&& forall|i: int| 0 <= i < lines[k].len() ==> lines[k][i] != NEWLINE
    } by {
        lemma_packet_text(packets[k]);
        lemma_no_byte(lines[k], NEWLINE);
    }
    assert forall|k: int, i: int| 0 <= k < lines.len() && 0 <= i < lines[k].len() implies
        #[trigger] lines[k][i] != NEWLINE by {}
    assert(packets_in_mode(mode) >= 1);
    lemma_split_join(lines, NEWLINE);
    assert(split(packets_text(packets), NEWLINE) == lines);
    assert(decoded_packets(mode, packets_text(packets)) =~= packets);
}

/// Inserting a byte the decoder skips into a field keeps its digits, decimals,
/// point and minus.
proof fn lemma_skip_in_field(u: Seq<u8>, v: Seq<u8>, c: u8)
    requires
        !is_digit(c),
        c != DOT,
        c != MINUS,
    ensures
        digits_of(u + seq![c] + v) == digits_of(u + v),
        decimals_of(u + seq![c] + v) == decimals_of(u + v),
        (u + seq![c] + v).contains(MINUS) == (u + v).contains(MINUS),
{
    let e = Seq::<u8>::empty();
    lemma_digits_insert(u, v, c);
    assert(seq![c] =~= e.push(c));
    lemma_field_push(e, c);
    lemma_contains_push(e, c, DOT);
    lemma_contains_push(e, c, MINUS);
    assert(digits_of(e) == e);
    assert(decimals_of(e) == 0);
    lemma_fields_concat(u, seq![c]);
    lemma_fields_concat(u + seq![c], v);
    lemma_fields_concat(u, v);
    lemma_contains_concat(u, seq![c], DOT);
    lemma_contains_concat(u, seq![c], MINUS);
    lemma_contains_concat(u + seq![c], v, MINUS);
    lemma_contains_concat(u, v, MINUS);
}

/// Inserting a byte the decoder skips into a line keeps its readings and whether
/// it decodes.
proof fn lemma_skip_in_line(u: Seq<u8>, v: Seq<u8>, c: u8)
    requires
        !is_digit(c),
        c != DOT,
        c != MINUS,
        c != COMMA,
    ensures
        line_readings(u + seq![c] + v) == line_readings(u + v),
        line_ok(u + seq![c] + v) == line_ok(u + v),
{
    let r = lemma_split_insert(u, v, c, COMMA);
    let fx = split(u + v, COMMA);
    let fy = split(u + seq![c] + v, COMMA);
    lemma_skip_in_field(r.1, r.2, c);
    assert forall|k: int| 0 <= k < fx.len() implies {
        &&& digits_of(#[trigger] fy[k]) == digits_of(fx[k])
        &&& decimals_of(fy[k]) == decimals_of(fx[k])
        &&& fy[k].contains(MINUS) == fx[k].contains(MINUS)
    } by {
        if k != r.0 {
            assert(fy[k] == fx[k]);
        }
    }
    assert(digits_of(fy[0]) == digits_of(fx[0]));
    assert(line_readings(u + seq![c] + v) =~= line_readings(u + v));
    if line_ok(u + v) {
        assert forall|j: int| 0 <= j < fy.len() implies #[trigger] decimals_of(fy[j]) <= u32::MAX by {
            assert(digits_of(fy[j]) == digits_of(fx[j]));
        }
        assert forall|j: int| 0 <= j < fy.len() - 1 implies #[trigger] decimals_of(fy[j]) <= 9 by {
            assert(digits_of(fy[j]) == digits_of(fx[j]));
        }
    }
    if line_ok(u + seq![c] + v) {
        assert forall|j: int| 0 <= j < fx.len() implies #[trigger] decimals_of(fx[j]) <= u32::MAX by {
            assert(digits_of(fy[j]) == digits_of(fx[j]));
        }
        assert forall|j: int| 0 <= j < fx.len() - 1 implies #[trigger] decimals_of(fx[j]) <= 9 by {
            assert(digits_of(fy[j]) == digits_of(fx[j]));
        }
    }
}

/// A byte the decoder skips (neither a newline, comma, point, minus nor digit),
/// inserted anywhere (a space, a carriage return, a zero byte of padding), changes
/// neither the packets a buffer decodes to nor whether it decodes.
pub proof fn lemma_skipped_byte_ignored(mode: i32, a: Seq<u8>, b: Seq<u8>, c: u8)
    requires
        !is_digit(c),
        c != NEWLINE,
        c != COMMA,
        c != DOT,
        c != MINUS,
    ensures
        decoded_packets(mode, a + seq![c] + b) == decoded_packets(mode, a + b),
        decodable(mode, a + seq![c] + b) == decodable(mode, a + b),
{
    let x = split(a + b, NEWLINE);
    let y = split(a + seq![c] + b, NEWLINE);
    let r = lemma_split_insert(a, b, c, NEWLINE);
    lemma_skip_in_line(r.1, r.2, c);
    assert forall|k: int| 0 <= k < x.len() implies {
        &&& line_readings(#[trigger] y[k]) == line_readings(x[k])
        &&& line_ok(y[k]) == line_ok(x[k])
    } by {
        if k != r.0 {
            assert(y[k] == x[k]);
        }
    }
    assert(decoded_packets(mode, a + seq![c] + b) =~= decoded_packets(mode, a + b));
    if decodable(mode, a + b) {
        assert forall|k: int| 0 <= k < y.len() && k < packets_in_mode(mode) implies
            #[trigger] line_ok(y[k]) by {
            assert(line_ok(x[k]));
        }
    }
    if decodable(mode, a + seq![c] + b) {
        assert forall|k: int| 0 <= k < x.len() && k < packets_in_mode(mode) implies
            #[trigger] line_ok(x[k]) by {
            assert(line_ok(y[k]));
            assert(line_readings(y[k]) == line_readings(x[k]));
        }
    }
}

} // verus!
