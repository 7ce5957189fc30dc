//! The text drawing of a skip list: a header with its height, then one line per
//! level from the top, where each pair shows its key text when it is linked on
//! that level and as many dashes otherwise, then a closing rule.
use crate::bytes_util::append_bytes;
use vstd::prelude::*;

verus! {

/// The decimal digits of `n`.
pub open spec fn decimal(n: nat) -> Seq<u8>
    decreases n,
{
    if n < 10 {
        seq![(48 + n) as u8]
    } else {
        decimal(n / 10) + seq![(48 + n % 10) as u8]
    }
}

/// `s` right-aligned in two columns.
pub open spec fn pad2(s: Seq<u8>) -> Seq<u8> {
    if s.len() < 2 {
        seq![32u8] + s
    } else {
        s
    }
}

/// `n` dashes.
pub open spec fn dashes(n: nat) -> Seq<u8> {
    Seq::new(n, |i: int| 45u8)
}

/// `--- SkipList (Height: `
pub open spec fn header_open() -> Seq<u8> {
    seq![45u8, 45, 45, 32, 83, 107, 105, 112, 76, 105, 115, 116, 32, 40, 72, 101, 105, 103, 104, 116, 58, 32]
}

/// `) ---` and a line break.
pub open spec fn header_close() -> Seq<u8> {
    seq![41u8, 32, 45, 45, 45, 10]
}

/// `Level `
pub open spec fn level_word() -> Seq<u8> {
    seq![76u8, 101, 118, 101, 108, 32]
}

/// `: Head`
pub open spec fn head_word() -> Seq<u8> {
    seq![58u8, 32, 72, 101, 97, 100]
}

/// ` -> [`
pub open spec fn cell_open() -> Seq<u8> {
    seq![32u8, 45, 62, 32, 91]
}

/// `]`
pub open spec fn cell_close() -> Seq<u8> {
    seq![93u8]
}

/// ` -> Nil` and a line break.
pub open spec fn nil_end() -> Seq<u8> {
    seq![32u8, 45, 62, 32, 78, 105, 108, 10]
}

/// The closing rule: 29 dashes.
pub open spec fn closing_rule() -> Seq<u8> {
    dashes(29)
}

/// One cell: the text when the pair is on the level, dashes of its length otherwise.
pub open spec fn cell(on_level: bool, text: Seq<u8>) -> Seq<u8> {
    cell_open() + (if on_level {
        text
    } else {
        dashes(text.len())
    }) + cell_close()
}

/// The cells of one level, one per pair.
pub open spec fn drawing_row(marks: Seq<bool>, texts: Seq<Seq<u8>>) -> Seq<u8>
    decreases texts.len(),
{
    if texts.len() == 0 {
        seq![]
    } else {
        cell(marks[0], texts[0]) + drawing_row(marks.drop_first(), texts.drop_first())
    }
}

/// The line of level `l`.
pub open spec fn level_line(l: nat, marks: Seq<bool>, texts: Seq<Seq<u8>>) -> Seq<u8> {
    level_word() + pad2(decimal(l)) + head_word() + drawing_row(marks, texts) + nil_end()
}

/// The lines of the levels from `top - 1` down to `bottom`.
pub open spec fn levels_text(marks: Seq<Seq<bool>>, texts: Seq<Seq<u8>>, top: int, bottom: int) -> Seq<u8>
    decreases top - bottom,
{
    if bottom >= top || bottom < 0 {
        seq![]
    } else {
        levels_text(marks, texts, top, bottom + 1) + level_line(bottom as nat, marks[bottom], texts)
    }
}

/// The drawing of a skip list of `height` levels, where `marks[l][i]` says whether
/// pair `i` is linked on level `l` and `texts[i]` is its key's text.
pub open spec fn skiplist_drawing(height: nat, marks: Seq<Seq<bool>>, texts: Seq<Seq<u8>>) -> Seq<u8> {
    header_open() + decimal(height) + header_close() + levels_text(marks, texts, height as int, 0)
        + closing_rule()
}

/// The views of some byte vectors.
pub open spec fn texts_of(v: Seq<Vec<u8>>) -> Seq<Seq<u8>> {
    v.map_values(|t: Vec<u8>| t@)
}

/// Appends the decimal digits of `n`.
pub fn push_decimal(out: &mut Vec<u8>, n: usize)
    ensures
        final(out)@ == old(out)@ + decimal(n as nat),
    decreases n,
{
    if n < 10 {
        out.push(48u8 + n as u8);
        assert(final(out)@ =~= old(out)@ + decimal(n as nat));
    } else {
        push_decimal(out, n / 10);
        out.push(48u8 + (n % 10) as u8);
        assert(final(out)@ =~= old(out)@ + decimal(n as nat));
    }
}

/// Appends the decimal digits of `n`, right-aligned in two columns.
pub fn push_pad2(out: &mut Vec<u8>, n: usize)
    ensures
        final(out)@ == old(out)@ + pad2(decimal(n as nat)),
{
    let mut digits: Vec<u8> = Vec::new();
    push_decimal(&mut digits, n);
    assert(digits@ =~= decimal(n as nat));
    if digits.len() < 2 {
        out.push(32u8);
    }
    append_bytes(out, &digits);
    assert(final(out)@ =~= old(out)@ + pad2(decimal(n as nat)));
}

/// Appends `n` dashes.
pub fn push_dashes(out: &mut Vec<u8>, n: usize)
    ensures
        final(out)@ == old(out)@ + dashes(n as nat),
{
    let mut i: usize = 0;
    while i < n
        invariant
            i <= n,
            out@ == old(out)@ + dashes(i as nat),
        decreases n - i,
    {
        out.push(45u8);
        i = i + 1;
        assert(out@ =~= old(out)@ + dashes(i as nat));
    }
}

/// Appends the bytes `piece` holds.
pub fn push_piece(out: &mut Vec<u8>, piece: Vec<u8>)
    ensures
        final(out)@ == old(out)@ + piece@,
{
    append_bytes(out, &piece);
}

pub fn header_open_bytes() -> (r: Vec<u8>)
    ensures
        r@ == header_open(),
{
    let r = vec![45u8, 45, 45, 32, 83, 107, 105, 112, 76, 105, 115, 116, 32, 40, 72, 101, 105, 103, 104, 116, 58, 32];
    assert(r@ =~= header_open());
    r
}

pub fn header_close_bytes() -> (r: Vec<u8>)
    ensures
        r@ == header_close(),
{
    let r = vec![41u8, 32, 45, 45, 45, 10];
    assert(r@ =~= header_close());
    r
}

pub fn level_word_bytes() -> (r: Vec<u8>)
    ensures
        r@ == level_word(),
{
    let r = vec![76u8, 101, 118, 101, 108, 32];
    assert(r@ =~= level_word());
    r
}

pub fn head_word_bytes() -> (r: Vec<u8>)
    ensures
        r@ == head_word(),
{
    let r = vec![58u8, 32, 72, 101, 97, 100];
    assert(r@ =~= head_word());
    r
}

pub fn cell_open_bytes() -> (r: Vec<u8>)
    ensures
        r@ == cell_open(),
{
    let r = vec![32u8, 45, 62, 32, 91];
    assert(r@ =~= cell_open());
    r
}

pub fn nil_end_bytes() -> (r: Vec<u8>)
    ensures
        r@ == nil_end(),
{
    let r = vec![32u8, 45, 62, 32, 78, 105, 108, 10];
    assert(r@ =~= nil_end());
    r
}

/// The width of a row of cells for `texts`: each cell takes the five bytes before
/// its text, the text's bytes, and the closing byte.
pub open spec fn row_width(texts: Seq<Seq<u8>>) -> int
    decreases texts.len(),
{
    if texts.len() == 0 {
        0
    } else {
        6 + texts[0].len() + row_width(texts.drop_first())
    }
}

/// A row of cells is as wide as its texts make it, whichever pairs are marked: so
/// the cells of a pair line up on every level, and each has exactly the width of
/// its key text. Within the `i`-th cell, after ` -> [`, stands the key text when
/// the pair is marked, and as many `-` bytes as the text has otherwise.
pub proof fn lemma_row_layout(marks: Seq<bool>, texts: Seq<Seq<u8>>)
    requires
        marks.len() >= texts.len(),
    ensures
        drawing_row(marks, texts).len() == row_width(texts),
        forall|i: int|
            #![trigger texts.take(i)]
            0 <= i < texts.len() ==> {
                let row = drawing_row(marks, texts);
                let at = row_width(texts.take(i));
                &&& 0 <= at && at + 6 + texts[i].len() <= row.len()
                &&& row.subrange(at, at + 5) == seq![32u8, 45, 62, 32, 91]
                &&& row.subrange(at + 5, at + 5 + texts[i].len()) == if marks[i] {
                    texts[i]
                } else {
                    Seq::new(texts[i].len(), |k: int| 45u8)
                }
                &&& row[at + 5 + texts[i].len()] == 93u8
            },
    decreases texts.len(),
{
    if texts.len() > 0 {
        let m2 = marks.drop_first();
        let t2 = texts.drop_first();
        lemma_row_layout(m2, t2);
        let c = cell(marks[0], texts[0]);
        let rest = drawing_row(m2, t2);
        let row = drawing_row(marks, texts);
        assert(row == c + rest);
        assert(c.len() == 6 + texts[0].len());
        assert forall|i: int| #![trigger texts.take(i)] 0 <= i < texts.len() implies {
            let at = row_width(texts.take(i));
            &&& 0 <= at && at + 6 + texts[i].len() <= row.len()
            &&& row.subrange(at, at + 5) == seq![32u8, 45, 62, 32, 91]
            &&& row.subrange(at + 5, at + 5 + texts[i].len()) == if marks[i] {
                texts[i]
            } else {
                Seq::new(texts[i].len(), |k: int| 45u8)
            }
            &&& row[at + 5 + texts[i].len()] == 93u8
        } by {
            if i == 0 {
                assert(texts.take(0).len() == 0);
                assert(row.subrange(0, 5) =~= seq![32u8, 45, 62, 32, 91]);
                if marks[0] {
                    assert(row.subrange(5, 5int + texts[0].len()) =~= texts[0]);
                } else {
                    assert(row.subrange(5, 5int + texts[0].len()) =~= Seq::new(texts[0].len(), |k: int| 45u8));
                }
            } else {
                assert(texts.take(i).drop_first() =~= t2.take(i - 1));
                assert(texts.take(i)[0] == texts[0]);
                let at2 = row_width(t2.take(i - 1));
                let at = row_width(texts.take(i));
                assert(at == c.len() + at2);
                assert(t2[i - 1] == texts[i]);
                assert(m2[i - 1] == marks[i]);
                assert(row.subrange(at, at + 5) =~= rest.subrange(at2, at2 + 5));
                assert(row.subrange(at + 5, at + 5 + texts[i].len()) =~= rest.subrange(
                    at2 + 5,
                    at2 + 5 + t2[i - 1].len(),
                ));
                assert(row[at + 5 + texts[i].len()] == rest[at2 + 5 + t2[i - 1].len()]);
            }
        }
    }
}

/// The number that decimal digits spell.
pub open spec fn digits_value(s: Seq<u8>) -> int
    decreases s.len(),
{
    if s.len() == 0 {
        0
    } else {
        digits_value(s.drop_last()) * 10 + (s.last() - 48)
    }
}

/// `decimal(n)` spells `n` in decimal: it is made of the digit bytes `0` to `9`,
/// it reads back as `n`, and it has no leading zero.
pub proof fn lemma_decimal_spells(n: nat)
    ensures
        decimal(n).len() >= 1,
        forall|k: int| 0 <= k < decimal(n).len() ==> 48 <= #[trigger] decimal(n)[k] <= 57,
        digits_value(decimal(n)) == n,
        decimal(n).len() > 1 ==> decimal(n)[0] != 48,
        n < 10 <==> decimal(n).len() == 1,
    decreases n,
{
    if n >= 10 {
        lemma_decimal_spells(n / 10);
        let d = decimal(n);
        let h = decimal(n / 10);
        assert(d == h + seq![(48 + n % 10) as u8]);
        assert(d.drop_last() =~= h);
        assert forall|k: int| 0 <= k < d.len() implies 48 <= #[trigger] d[k] <= 57 by {
            if k < h.len() {
                assert(d[k] == h[k]);
            }
        }
        assert(n == (n / 10) * 10 + n % 10);
        assert(d.last() == 48 + n % 10);
        assert(digits_value(d) == digits_value(h) * 10 + (d.last() - 48));
        assert(digits_value(h) == n / 10);
        assert(d[0] == h[0]);
    } else {
        assert(decimal(n).drop_last() =~= Seq::<u8>::empty());
        assert(digits_value(Seq::<u8>::empty()) == 0);
    }
}

/// Two columns hold the level number: a one-digit number gets a space before it.
pub proof fn lemma_pad2_width(n: nat)
    requires
        n < 100,
    ensures
        pad2(decimal(n)).len() == 2,
        pad2(decimal(n)).subrange(2 - decimal(n).len(), 2) == decimal(n),
        decimal(n).len() == 1 ==> pad2(decimal(n))[0] == 32u8,
{
    lemma_decimal_spells(n);
    if n >= 10 {
        lemma_decimal_spells(n / 10);
        assert(n / 10 < 10);
        assert(decimal(n).len() == 2);
    }
    assert(pad2(decimal(n)).subrange(2 - decimal(n).len(), 2) =~= decimal(n));
}

} // verus!
