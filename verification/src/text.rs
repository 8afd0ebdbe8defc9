//! Byte-level text model shared by the decoders: splitting at a separator,
//! picking out the decimal digits of a field, and their value.

use vstd::prelude::*;

verus! {

pub const NEWLINE: u8 = 10;
pub const SPACE: u8 = 32;
pub const COMMA: u8 = 44;
pub const MINUS: u8 = 45;
pub const DOT: u8 = 46;
pub const ZERO: u8 = 48;
pub const NINE: u8 = 57;

/// An ASCII decimal digit.
pub open spec fn is_digit(b: u8) -> bool {
    ZERO <= b && b <= NINE
}

/// The pieces of `s` between occurrences of `sep`, in order; there is always at
/// least one piece (the empty text gives one empty piece).
pub open spec fn split(s: Seq<u8>, sep: u8) -> Seq<Seq<u8>>
    decreases s.len(),
{
    if s.len() == 0 {
        seq![Seq::empty()]
    } else {
        let pieces = split(s.drop_last(), sep);
        if s.last() == sep {
            pieces.push(Seq::empty())
        } else {
            pieces.update(pieces.len() - 1, pieces.last().push(s.last()))
        }
    }
}

/// The decimal digits occurring in `s`, in order, as values `0..=9`.
pub open spec fn digits_of(s: Seq<u8>) -> Seq<u8>
    decreases s.len(),
{
    if s.len() == 0 {
        Seq::empty()
    } else if is_digit(s.last()) {
        digits_of(s.drop_last()).push((s.last() - ZERO) as u8)
    } else {
        digits_of(s.drop_last())
    }
}

/// The number written by a sequence of digit values, most significant first.
pub open spec fn decimal_value(ds: Seq<u8>) -> nat
    decreases ds.len(),
{
    if ds.len() == 0 {
        0
    } else {
        (decimal_value(ds.drop_last()) * 10 + ds.last()) as nat
    }
}

/// The decimal text of `n`: its digits, most significant first, with no leading
/// zero.
pub open spec fn decimal_text(n: nat) -> Seq<u8>
    decreases n,
{
    if n < 10 {
        seq![(n + ZERO) as u8]
    } else {
        decimal_text(n / 10).push((n % 10 + ZERO) as u8)
    }
}

/// `pieces` with `sep` between each two neighbours.
pub open spec fn join(pieces: Seq<Seq<u8>>, sep: u8) -> Seq<u8>
    decreases pieces.len(),
{
    if pieces.len() == 0 {
        Seq::empty()
    } else if pieces.len() == 1 {
        pieces[0]
    } else {
        join(pieces.drop_last(), sep) + seq![sep] + pieces.last()
    }
}

pub proof fn lemma_split_nonempty(s: Seq<u8>, sep: u8)
    ensures
        split(s, sep).len() >= 1,
    decreases s.len(),
{
    if s.len() > 0 {
        lemma_split_nonempty(s.drop_last(), sep);
    }
}

/// Every separator opens one more piece, so there are at most one more pieces than
/// bytes.
pub proof fn lemma_split_len(s: Seq<u8>, sep: u8)
    ensures
        1 <= split(s, sep).len() <= s.len() + 1,
    decreases s.len(),
{
    if s.len() > 0 {
        lemma_split_len(s.drop_last(), sep);
    }
}

/// Appending one byte either opens a new piece or extends the last one.
pub proof fn lemma_split_push(s: Seq<u8>, b: u8, sep: u8)
    ensures
        split(s, sep).len() >= 1,
        b == sep ==> split(s.push(b), sep) == split(s, sep).push(Seq::empty()),
        b != sep ==> split(s.push(b), sep) == split(s, sep).update(
            split(s, sep).len() - 1,
            split(s, sep).last().push(b),
        ),
{
    lemma_split_nonempty(s, sep);
    assert(s.push(b).drop_last() =~= s);
}

/// The pieces of a prefix agree with the pieces of the whole text, except that the
/// last piece of the prefix may be cut short.
pub proof fn lemma_split_take(s: Seq<u8>, i: int, sep: u8)
    requires
        0 <= i <= s.len(),
    ensures
        1 <= split(s.take(i), sep).len() <= split(s, sep).len(),
        forall|j: int|
            0 <= j < split(s.take(i), sep).len() - 1 ==> #[trigger] split(s.take(i), sep)[j]
                == split(s, sep)[j],
        split(s.take(i), sep).last().len() <= split(s, sep)[split(s.take(i), sep).len()
            - 1].len(),
        split(s, sep)[split(s.take(i), sep).len() - 1].take(
            split(s.take(i), sep).last().len() as int,
        ) == split(s.take(i), sep).last(),
    decreases s.len() - i,
{
    lemma_split_nonempty(s.take(i), sep);
    if i == s.len() {
        assert(s.take(i) =~= s);
        let full = split(s, sep);
        assert(full[full.len() - 1].take(full.last().len() as int) =~= full.last());
        assert forall|j: int| 0 <= j < full.len() - 1 implies #[trigger] split(s.take(i), sep)[j]
            == full[j] by {}
    } else {
        lemma_split_take(s, i + 1, sep);
        assert(s.take(i + 1) =~= s.take(i).push(s[i]));
        lemma_split_push(s.take(i), s[i], sep);
        let a = split(s.take(i), sep);
        let a2 = split(s.take(i + 1), sep);
        let full = split(s, sep);
        if s[i] == sep {
            assert(a2[a.len() - 1] == a.last());
            assert(full[a.len() - 1].take(a.last().len() as int) =~= a.last());
            assert forall|j: int| 0 <= j < a.len() - 1 implies #[trigger] a[j] == full[j] by {
                assert(a2[j] == a[j]);
            }
        } else {
            let k = a.len() - 1;
            assert(a2[k] == a.last().push(s[i]));
            assert(full[k].take(a2[k].len() as int) == a2[k]);
            assert(full[k].take(a.last().len() as int) =~= a2[k].take(a.last().len() as int));
            assert(a2[k].take(a.last().len() as int) =~= a.last());
            assert forall|j: int| 0 <= j < a.len() - 1 implies #[trigger] a[j] == full[j] by {
                assert(a2[j] == a[j]);
            }
        }
    }
}

/// Appending one byte to a field adds at most that byte's digit.
pub proof fn lemma_digits_push(s: Seq<u8>, b: u8)
    ensures
        is_digit(b) ==> digits_of(s.push(b)) == digits_of(s).push((b - ZERO) as u8),
        !is_digit(b) ==> digits_of(s.push(b)) == digits_of(s),
{
    assert(s.push(b).drop_last() =~= s);
}

/// The digits of a prefix are a prefix of the digits.
pub proof fn lemma_digits_take(f: Seq<u8>, m: int)
    requires
        0 <= m <= f.len(),
    ensures
        digits_of(f.take(m)).len() <= digits_of(f).len(),
        digits_of(f).take(digits_of(f.take(m)).len() as int) == digits_of(f.take(m)),
    decreases f.len() - m,
{
    if m == f.len() {
        assert(f.take(m) =~= f);
        assert(digits_of(f).take(digits_of(f).len() as int) =~= digits_of(f));
    } else {
        lemma_digits_take(f, m + 1);
        assert(f.take(m + 1) =~= f.take(m).push(f[m]));
        lemma_digits_push(f.take(m), f[m]);
        let d = digits_of(f.take(m));
        let d2 = digits_of(f.take(m + 1));
        let all = digits_of(f);
        if is_digit(f[m]) {
            assert(all.take(d.len() as int) =~= d2.take(d.len() as int));
            assert(d2.take(d.len() as int) =~= d);
        }
    }
}

/// A prefix of a digit sequence never writes a larger number.
pub proof fn lemma_value_take(ds: Seq<u8>, k: int)
    requires
        0 <= k <= ds.len(),
    ensures
        decimal_value(ds.take(k)) <= decimal_value(ds),
    decreases ds.len() - k,
{
    if k == ds.len() {
        assert(ds.take(k) =~= ds);
    } else {
        lemma_value_take(ds, k + 1);
        assert(ds.take(k + 1).drop_last() =~= ds.take(k));
    }
}

/// Inserting a byte other than the separator into a text changes exactly one
/// piece, by inserting the byte into it. Gives that piece's position `m`, and the
/// parts `u` and `v` of the piece before and after the byte.
pub proof fn lemma_split_insert(a: Seq<u8>, b: Seq<u8>, c: u8, sep: u8) -> (r: (
    int,
    Seq<u8>,
    Seq<u8>,
))
    requires
        c != sep,
    ensures
        split(a + seq![c] + b, sep).len() == split(a + b, sep).len(),
        0 <= r.0 < split(a + b, sep).len(),
        split(a + b, sep)[r.0] == r.1 + r.2,
        split(a + seq![c] + b, sep)[r.0] == r.1 + seq![c] + r.2,
        forall|k: int|
            0 <= k < split(a + b, sep).len() && k != r.0 ==> #[trigger] split(
                a + seq![c] + b,
                sep,
            )[k] == split(a + b, sep)[k],
    decreases b.len(),
{
    let e = Seq::<u8>::empty();
    if b.len() == 0 {
        assert(a + b =~= a);
        assert(a + seq![c] + b =~= a.push(c));
        lemma_split_push(a, c, sep);
        let x = split(a, sep);
        let m = x.len() - 1;
        assert(x.last() + e =~= x.last());
        assert(x.last() + seq![c] + e =~= x.last().push(c));
        (m, x.last(), e)
    } else {
        let b0 = b.drop_last();
        let d = b.last();
        let r0 = lemma_split_insert(a, b0, c, sep);
        let (m, u, v) = r0;
        assert(a + b =~= (a + b0).push(d));
        assert(a + seq![c] + b =~= (a + seq![c] + b0).push(d));
        lemma_split_push(a + b0, d, sep);
        lemma_split_push(a + seq![c] + b0, d, sep);
        let x0 = split(a + b0, sep);
        if d == sep {
            (m, u, v)
        } else if m == x0.len() - 1 {
            assert((u + v).push(d) =~= u + v.push(d));
            assert((u + seq![c] + v).push(d) =~= u + seq![c] + v.push(d));
            (m, u, v.push(d))
        } else {
            (m, u, v)
        }
    }
}

/// Inserting a byte that is not a digit into a text leaves its digits unchanged.
pub proof fn lemma_digits_insert(u: Seq<u8>, v: Seq<u8>, c: u8)
    requires
        !is_digit(c),
    ensures
        digits_of(u + seq![c] + v) == digits_of(u + v),
    decreases v.len(),
{
    if v.len() == 0 {
        assert(u + seq![c] + v =~= u.push(c));
        assert(u + v =~= u);
        lemma_digits_push(u, c);
    } else {
        let v0 = v.drop_last();
        let d = v.last();
        lemma_digits_insert(u, v0, c);
        assert(u + seq![c] + v =~= (u + seq![c] + v0).push(d));
        assert(u + v =~= (u + v0).push(d));
        lemma_digits_push(u + seq![c] + v0, d);
        lemma_digits_push(u + v0, d);
    }
}

/// A text with a separator in it has at least two pieces.
pub proof fn lemma_split_contains(s: Seq<u8>, sep: u8)
    requires
        s.contains(sep),
    ensures
        split(s, sep).len() >= 2,
    decreases s.len(),
{
    lemma_split_push(s.drop_last(), s.last(), sep);
    assert(s.drop_last().push(s.last()) =~= s);
    if s.last() != sep {
        let i = choose|i: int| 0 <= i < s.len() && s[i] == sep;
        assert(s.drop_last()[i] == sep);
        lemma_split_contains(s.drop_last(), sep);
    }
}

/// A text with no separator in it is its only piece.
pub proof fn lemma_split_without_sep(s: Seq<u8>, sep: u8)
    requires
        forall|i: int| 0 <= i < s.len() ==> s[i] != sep,
    ensures
        split(s, sep) == seq![s],
    decreases s.len(),
{
    if s.len() == 0 {
        assert(s =~= Seq::<u8>::empty());
    } else {
        assert(s[s.len() - 1] != sep);
        lemma_split_without_sep(s.drop_last(), sep);
        lemma_split_push(s.drop_last(), s.last(), sep);
        assert(s.drop_last().push(s.last()) =~= s);
        assert(seq![s.drop_last()].update(0, s.drop_last().push(s.last())) =~= seq![s]);
    }
}

/// Appending text without a separator extends the last piece.
pub proof fn lemma_split_append(s: Seq<u8>, t: Seq<u8>, sep: u8)
    requires
        forall|i: int| 0 <= i < t.len() ==> t[i] != sep,
    ensures
        split(s + t, sep) == split(s, sep).update(
            split(s, sep).len() - 1,
            split(s, sep).last() + t,
        ),
    decreases t.len(),
{
    lemma_split_nonempty(s, sep);
    if t.len() == 0 {
        assert(s + t =~= s);
        assert(split(s, sep).last() + t =~= split(s, sep).last());
        assert(split(s, sep).update(split(s, sep).len() - 1, split(s, sep).last())
            =~= split(s, sep));
    } else {
        let t0 = t.drop_last();
        lemma_split_append(s, t0, sep);
        assert(s + t =~= (s + t0).push(t.last()));
        lemma_split_push(s + t0, t.last(), sep);
        let p = split(s, sep);
        assert((p.last() + t0).push(t.last()) =~= p.last() + t);
        assert(p.update(p.len() - 1, p.last() + t0).update(p.len() - 1, p.last() + t)
            =~= p.update(p.len() - 1, p.last() + t));
    }
}

/// Joining pieces that hold no separator and splitting again gives the pieces back.
pub proof fn lemma_split_join(pieces: Seq<Seq<u8>>, sep: u8)
    requires
        pieces.len() >= 1,
        forall|k: int, i: int|
            0 <= k < pieces.len() && 0 <= i < pieces[k].len() ==> #[trigger] pieces[k][i] != sep,
    ensures
        split(join(pieces, sep), sep) == pieces,
    decreases pieces.len(),
{
    let e = Seq::<u8>::empty();
    let last = pieces.last();
    assert forall|i: int| 0 <= i < last.len() implies last[i] != sep by {
        assert(pieces[pieces.len() - 1][i] != sep);
    }
    if pieces.len() == 1 {
        lemma_split_append(e, last, sep);
        assert(e + last =~= last);
        assert(split(e, sep) == seq![e]);
        assert(seq![e].update(0, e + last) =~= pieces);
    } else {
        let init = pieces.drop_last();
        assert forall|k: int, i: int| 0 <= k < init.len() && 0 <= i < init[k].len() implies
            #[trigger] init[k][i] != sep by {
            assert(pieces[k][i] != sep);
        }
        lemma_split_join(init, sep);
        let head = join(init, sep);
        assert(head + seq![sep] =~= head.push(sep));
        lemma_split_push(head, sep, sep);
        lemma_split_append(head.push(sep), last, sep);
        assert(head + seq![sep] + last =~= head.push(sep) + last);
        assert(e + last =~= last);
        assert(init.push(e).update(init.len() as int, e + last) =~= pieces);
    }
}

/// A byte that is neither the separator nor in any piece is not in the join.
pub proof fn lemma_join_avoids(pieces: Seq<Seq<u8>>, sep: u8, c: u8)
    requires
        c != sep,
        forall|k: int, i: int|
            0 <= k < pieces.len() && 0 <= i < pieces[k].len() ==> #[trigger] pieces[k][i] != c,
    ensures
        forall|i: int| 0 <= i < join(pieces, sep).len() ==> join(pieces, sep)[i] != c,
    decreases pieces.len(),
{
    if pieces.len() == 1 {
        assert forall|i: int| 0 <= i < pieces[0].len() implies pieces[0][i] != c by {
            assert(pieces[0][i] != c);
        }
    } else if pieces.len() > 1 {
        let init = pieces.drop_last();
        assert forall|k: int, i: int| 0 <= k < init.len() && 0 <= i < init[k].len() implies
            #[trigger] init[k][i] != c by {
            assert(pieces[k][i] != c);
        }
        lemma_join_avoids(init, sep, c);
        let head = join(init, sep);
        let last = pieces.last();
        let whole = head + seq![sep] + last;
        assert forall|i: int| 0 <= i < whole.len() implies whole[i] != c by {
            if i > head.len() {
                assert(whole[i] == last[i - head.len() - 1]);
                assert(pieces[pieces.len() - 1][i - head.len() - 1] != c);
            }
        }
    }
}

/// The decimal text of `n` is made of digits and reads back as `n`.
pub proof fn lemma_decimal_text(n: nat)
    ensures
        decimal_text(n).len() >= 1,
        forall|i: int| 0 <= i < decimal_text(n).len() ==> is_digit(#[trigger] decimal_text(n)[i]),
        digits_of(decimal_text(n)).len() == decimal_text(n).len(),
        decimal_value(digits_of(decimal_text(n))) == n,
    decreases n,
{
    let t = decimal_text(n);
    if n < 10 {
        let e = Seq::<u8>::empty();
        assert(t.drop_last() =~= e);
        assert(digits_of(t) == digits_of(e).push((n + ZERO - ZERO) as u8));
        assert(digits_of(t) =~= seq![n as u8]);
        assert(seq![n as u8].drop_last() =~= e);
        assert(decimal_value(e) == 0);
    } else {
        lemma_decimal_text(n / 10);
        let h = decimal_text(n / 10);
        let d = (n % 10 + ZERO) as u8;
        lemma_digits_push(h, d);
        assert(t == h.push(d));
        assert forall|i: int| 0 <= i < t.len() implies is_digit(#[trigger] t[i]) by {
            if i < h.len() {
                assert(t[i] == h[i]);
            }
        }
        let ds = digits_of(h).push((n % 10) as u8);
        assert(digits_of(t) == ds);
        assert(ds.drop_last() =~= digits_of(h));
        assert(n == (n / 10) * 10 + n % 10);
    }
}

} // verus!
