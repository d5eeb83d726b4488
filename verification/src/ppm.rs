//! The canvas as a plain-text bitmap, and back.
//!
//! The text starts with the line `P3`, a line with the width and the height
//! and the line `255`; then comes one line for each pixel, row by row from
//! the top, with its red, green and blue channel. Numbers are written in
//! decimal without leading zeros, a single space stands between the numbers
//! of a line, and every line ends with a line feed.

use vstd::prelude::*;
use crate::canvas::Canvas;
use crate::color::Color;

verus! {

pub open spec fn is_digit(b: u8) -> bool {
    48 <= b <= 57
}

/// The decimal digits of `n`, the most significant first.
pub open spec fn decimal(n: nat) -> Seq<u8>
    decreases n,
{
    if n < 10 {
        seq![(48 + n) as u8]
    } else {
        decimal(n / 10).push((48 + n % 10) as u8)
    }
}

/// The number that the decimal digits `s` stand for.
pub open spec fn decimal_value(s: Seq<u8>) -> nat
    decreases s.len(),
{
    if s.len() == 0 {
        0
    } else {
        decimal_value(s.drop_last()) * 10 + (s.last() - 48) as nat
    }
}

/// `s` is written as `decimal` writes a number: it has a digit, holds
/// nothing but digits, and starts with a zero only if it is the one digit 0.
pub open spec fn is_decimal(s: Seq<u8>) -> bool {
    &&& s.len() >= 1
    &&& forall|i: int| 0 <= i < s.len() ==> is_digit(#[trigger] s[i])
    &&& s[0] == 48 ==> s.len() == 1
}

/// The digits of `s` that start at `pos` end just before `end`.
pub open spec fn digits_until(s: Seq<u8>, pos: int, end: int) -> bool {
    &&& 0 <= pos <= end <= s.len()
    &&& forall|i: int| pos <= i < end ==> is_digit(#[trigger] s[i])
    &&& end < s.len() ==> !is_digit(s[end])
}

/// What `decimal` writes is a decimal, and only zero starts with a zero.
pub proof fn lemma_decimal_is_decimal(n: nat)
    ensures
        is_decimal(decimal(n)),
        decimal(n)[0] == 48 <==> n == 0,
    decreases n,
{
    if n >= 10 {
        lemma_decimal_is_decimal(n / 10);
        let front = decimal(n / 10);
        let all = decimal(n);
        assert(all == front.push((48 + n % 10) as u8));
        assert(all[0] == front[0]);
        assert forall|i: int| 0 <= i < all.len() implies is_digit(#[trigger] all[i]) by {
            if i < front.len() {
                assert(all[i] == front[i]);
            }
        }
    }
}

/// Reading what `decimal` has written gives the number back.
pub proof fn lemma_decimal_value(n: nat)
    ensures
        decimal_value(decimal(n)) == n,
    decreases n,
{
    if n < 10 {
        let s = decimal(n);
        assert(s.drop_last() =~= Seq::<u8>::empty());
        reveal_with_fuel(decimal_value, 2);
    } else {
        lemma_decimal_value(n / 10);
        let s = decimal(n);
        assert(s.drop_last() =~= decimal(n / 10));
    }
}

/// Writing what was read from a decimal gives the decimal back.
pub proof fn lemma_decimal_of_value(s: Seq<u8>)
    requires
        is_decimal(s),
    ensures
        decimal(decimal_value(s)) == s,
    decreases s.len(),
{
    let front = s.drop_last();
    let d = (s.last() - 48) as nat;
    assert(is_digit(s[s.len() - 1]));
    if s.len() == 1 {
        assert(front =~= Seq::<u8>::empty());
        reveal_with_fuel(decimal_value, 2);
        assert(decimal_value(s) == d);
        assert(decimal(d) =~= s);
    } else {
        assert(front[0] == s[0]);
        assert forall|i: int| 0 <= i < front.len() implies is_digit(#[trigger] front[i]) by {
            assert(front[i] == s[i]);
        }
        // the front cannot be the single digit 0, for then s would start with a zero
        assert(is_decimal(front));
        lemma_decimal_of_value(front);
        let v = decimal_value(front);
        lemma_decimal_is_decimal(v);
        assert(v != 0);
        assert(decimal_value(s) == v * 10 + d);
        assert((v * 10 + d) / 10 == v && (v * 10 + d) % 10 == d);
        assert(decimal(v * 10 + d) =~= s);
    }
}

/// Two numbers that are written alike are the same number.
pub proof fn lemma_decimal_injective(m: nat, n: nat)
    requires
        decimal(m) == decimal(n),
    ensures
        m == n,
{
    lemma_decimal_value(m);
    lemma_decimal_value(n);
}

/// A number is no less than what its leading digits stand for.
proof fn lemma_value_of_prefix(s: Seq<u8>, k: int)
    requires
        0 <= k <= s.len(),
        forall|i: int| 0 <= i < s.len() ==> is_digit(#[trigger] s[i]),
    ensures
        decimal_value(s.subrange(0, k)) <= decimal_value(s),
    decreases s.len() - k,
{
    if k == s.len() {
        assert(s.subrange(0, k) =~= s);
    } else {
        let longer = s.subrange(0, k + 1);
        assert(longer.drop_last() =~= s.subrange(0, k));
        assert(is_digit(s[k]));
        assert(longer.last() == s[k]);
        lemma_value_of_prefix(s, k + 1);
    }
}

/// Appends the decimal digits of `n` to `out`.
pub fn push_decimal(out: &mut Vec<u8>, n: usize)
    ensures
        final(out)@ == old(out)@ + decimal(n as nat),
    decreases n,
{
    if n < 10 {
        out.push(48 + n as u8);
        assert(out@ =~= old(out)@ + decimal(n as nat));
    } else {
        push_decimal(out, n / 10);
        out.push(48 + (n % 10) as u8);
        assert(out@ =~= old(out)@ + decimal(n as nat));
    }
}

/// Reads the number whose digits start at `pos`: the number and the place
/// where its digits end. `None` where no number that fits in a `usize` is
/// written there.
pub fn parse_decimal(bytes: &[u8], pos: usize) -> (r: Option<(usize, usize)>)
    requires
        pos <= bytes@.len(),
    ensures
        match r {
            Some((v, end)) => {
                &&& pos < end
                &&& digits_until(bytes@, pos as int, end as int)
                &&& bytes@.subrange(pos as int, end as int) == decimal(v as nat)
            },
            None => forall|n: nat, end: int|
                #![trigger decimal(n), digits_until(bytes@, pos as int, end)]
                n <= usize::MAX && digits_until(bytes@, pos as int, end)
                    ==> bytes@.subrange(pos as int, end) != decimal(n),
        },
{
    let mut end: usize = pos;
    let mut value: usize = 0;
    while end < bytes.len() && 48 <= bytes[end] && bytes[end] <= 57
        invariant
            pos <= end <= bytes@.len(),
            forall|i: int| pos <= i < end ==> is_digit(#[trigger] bytes@[i]),
            value == decimal_value(bytes@.subrange(pos as int, end as int)),
            end > pos ==> is_decimal(bytes@.subrange(pos as int, end as int)),
        decreases bytes@.len() - end,
    {
        let d: usize = (bytes[end] - 48) as usize;
        let ghost run = bytes@.subrange(pos as int, end as int);
        let ghost longer = bytes@.subrange(pos as int, end + 1);
        proof {
            assert(longer.drop_last() =~= run);
            assert(longer.last() == bytes@[end as int]);
            assert(decimal_value(longer) == value * 10 + d);
        }
        if end > pos && value == 0 {
            // a zero with more digits behind it
            proof {
                lemma_decimal_of_value(run);
                lemma_decimal_is_decimal(0);
                assert(run.len() == 1);
                assert forall|n: nat, e: int|
                    #![trigger decimal(n), digits_until(bytes@, pos as int, e)]
                    n <= usize::MAX && digits_until(bytes@, pos as int, e) implies bytes@.subrange(
                    pos as int,
                    e,
                ) != decimal(n) by {
                    let text = bytes@.subrange(pos as int, e);
                    if text == decimal(n) {
                        assert(e > end);
                        lemma_decimal_is_decimal(n);
                        assert(text[0] == bytes@[pos as int]);
                        assert(run[0] == bytes@[pos as int]);
                    }
                }
            }
            return None;
        }
        if value > (usize::MAX - d) / 10 {
            proof {
                assert forall|n: nat, e: int|
                    #![trigger decimal(n), digits_until(bytes@, pos as int, e)]
                    n <= usize::MAX && digits_until(bytes@, pos as int, e) implies bytes@.subrange(
                    pos as int,
                    e,
                ) != decimal(n) by {
                    let text = bytes@.subrange(pos as int, e);
                    if text == decimal(n) {
                        assert(e > end);
                        lemma_decimal_value(n);
                        assert forall|i: int| 0 <= i < text.len() implies is_digit(
                            #[trigger] text[i],
                        ) by {
                            assert(text[i] == bytes@[pos + i]);
                        }
                        lemma_value_of_prefix(text, end + 1 - pos);
                        assert(text.subrange(0, end + 1 - pos) =~= longer);
                    }
                }
            }
            return None;
        }
        value = value * 10 + d;
        proof {
            assert(longer[0] == bytes@[pos as int]);
            if end > pos {
                assert(run[0] == bytes@[pos as int]);
                lemma_decimal_of_value(run);
                lemma_decimal_is_decimal(decimal_value(run));
            }
            assert forall|i: int| 0 <= i < longer.len() implies is_digit(#[trigger] longer[i]) by {
                assert(longer[i] == bytes@[pos + i]);
            }
        }
        end = end + 1;
    }
    if end == pos {
        proof {
            assert forall|n: nat, e: int|
                #![trigger decimal(n), digits_until(bytes@, pos as int, e)]
                n <= usize::MAX && digits_until(bytes@, pos as int, e) implies bytes@.subrange(
                pos as int,
                e,
            ) != decimal(n) by {
                let text = bytes@.subrange(pos as int, e);
                if text == decimal(n) {
                    lemma_decimal_is_decimal(n);
                    assert(e > pos);
                    assert(is_digit(bytes@[pos as int]));
                }
            }
        }
        return None;
    }
    proof {
        lemma_decimal_of_value(bytes@.subrange(pos as int, end as int));
    }
    Some((value, end))
}

/// A number with the byte that ends it.
pub open spec fn field(n: nat, end: u8) -> Seq<u8> {
    decimal(n).push(end)
}

/// The line of one pixel: `r g b` and a line feed.
pub open spec fn pixel_line(c: Color) -> Seq<u8> {
    field(c.0 as nat, 32) + field(c.1 as nat, 32) + field(c.2 as nat, 10)
}

/// The lines of the pixels, one after the other.
pub open spec fn pixel_lines(pixels: Seq<Color>) -> Seq<u8>
    decreases pixels.len(),
{
    if pixels.len() == 0 {
        Seq::empty()
    } else {
        pixel_line(pixels.first()) + pixel_lines(pixels.drop_first())
    }
}

/// The three lines that come before the pixels: `P3`, `w h` and `255`.
pub open spec fn header(w: nat, h: nat) -> Seq<u8> {
    seq![80u8, 51u8, 10u8] + field(w, 32) + field(h, 10) + seq![50u8, 53u8, 53u8, 10u8]
}

/// The text of a canvas of `w` by `h` pixels.
pub open spec fn ppm_text(w: nat, h: nat, pixels: Seq<Color>) -> Seq<u8> {
    header(w, h) + pixel_lines(pixels)
}

/// `text` is the text of the canvas of `w` by `h` pixels that holds `pixels`.
pub open spec fn encodes(text: Seq<u8>, w: nat, h: nat, pixels: Seq<Color>) -> bool {
    &&& w <= usize::MAX
    &&& h <= usize::MAX
    &&& pixels.len() == w * h
    &&& text == ppm_text(w, h, pixels)
}

/// `part` stands in `s` at `pos`.
pub open spec fn starts_with(s: Seq<u8>, pos: int, part: Seq<u8>) -> bool {
    &&& 0 <= pos
    &&& pos + part.len() <= s.len()
    &&& s.subrange(pos, pos + part.len()) == part
}

/// Where the rest of `s` from `pos` on is `part` and more, `part` stands at
/// `pos`, and the rest from its end on is that more.
proof fn lemma_split(s: Seq<u8>, pos: int, part: Seq<u8>, more: Seq<u8>)
    requires
        0 <= pos <= s.len(),
        s.subrange(pos, s.len() as int) == part + more,
    ensures
        starts_with(s, pos, part),
        s.subrange(pos + part.len(), s.len() as int) == more,
{
    let rest = s.subrange(pos, s.len() as int);
    assert(rest.len() == part.len() + more.len());
    assert(s.subrange(pos, pos + part.len()) =~= rest.subrange(0, part.len() as int));
    assert(rest.subrange(0, part.len() as int) =~= part);
    assert(s.subrange(pos + part.len(), s.len() as int) =~= rest.subrange(
        part.len() as int,
        rest.len() as int,
    ));
    assert(rest.subrange(part.len() as int, rest.len() as int) =~= more);
}

/// The lines of some pixels and one more are the lines of the pixels and
/// the line of the one.
pub proof fn lemma_pixel_lines_push(pixels: Seq<Color>, c: Color)
    ensures
        pixel_lines(pixels.push(c)) == pixel_lines(pixels) + pixel_line(c),
    decreases pixels.len(),
{
    let all = pixels.push(c);
    if pixels.len() == 0 {
        assert(all.drop_first() =~= Seq::<Color>::empty());
        assert(all.first() == c);
        reveal_with_fuel(pixel_lines, 2);
        assert(pixel_lines(all) =~= pixel_lines(pixels) + pixel_line(c));
    } else {
        assert(all.drop_first() =~= pixels.drop_first().push(c));
        assert(all.first() == pixels.first());
        lemma_pixel_lines_push(pixels.drop_first(), c);
        assert(pixel_lines(all) =~= pixel_lines(pixels) + pixel_line(c));
    }
}

/// Every pixel takes at least one byte of text.
proof fn lemma_pixel_lines_len(pixels: Seq<Color>)
    ensures
        pixel_lines(pixels).len() >= pixels.len(),
    decreases pixels.len(),
{
    if pixels.len() > 0 {
        lemma_pixel_lines_len(pixels.drop_first());
    }
}

/// Reads the number at `pos` and the byte `end` behind it: the number, and
/// the place behind that byte.
fn parse_field(bytes: &[u8], pos: usize, end: u8) -> (r: Option<(usize, usize)>)
    requires
        pos <= bytes@.len(),
        !is_digit(end),
    ensures
        match r {
            Some((v, next)) => {
                &&& starts_with(bytes@, pos as int, field(v as nat, end))
                &&& next == pos + field(v as nat, end).len()
                &&& forall|n: nat| starts_with(bytes@, pos as int, #[trigger] field(n, end)) ==> n == v
            },
            None => forall|n: nat|
                n <= usize::MAX ==> !starts_with(bytes@, pos as int, #[trigger] field(n, end)),
        },
{
    let parsed = parse_decimal(bytes, pos);
    proof {
        // a field at `pos` fixes where the digits at `pos` end
        assert forall|n: nat| starts_with(bytes@, pos as int, #[trigger] field(n, end)) implies {
            &&& digits_until(bytes@, pos as int, pos + decimal(n).len())
            &&& bytes@.subrange(pos as int, pos + decimal(n).len()) == decimal(n)
            &&& bytes@[pos + decimal(n).len()] == end
        } by {
            let f = field(n, end);
            let here = bytes@.subrange(pos as int, pos + f.len());
            lemma_decimal_is_decimal(n);
            assert(here[decimal(n).len() as int] == bytes@[pos + decimal(n).len()]);
            assert forall|i: int| pos <= i < pos + decimal(n).len() implies is_digit(
                #[trigger] bytes@[i],
            ) by {
                assert(here[i - pos] == bytes@[i]);
                assert(f[i - pos] == decimal(n)[i - pos]);
            }
            assert(bytes@.subrange(pos as int, pos + decimal(n).len()) =~= decimal(n)) by {
                assert forall|i: int| 0 <= i < decimal(n).len() implies bytes@[pos + i] == decimal(
                    n,
                )[i] by {
                    assert(here[i] == bytes@[pos + i]);
                    assert(f[i] == decimal(n)[i]);
                }
            }
        }
    }
    match parsed {
        None => None,
        Some((v, stop)) => {
            if stop < bytes.len() && bytes[stop] == end {
                proof {
                    assert forall|n: nat|
                        starts_with(bytes@, pos as int, #[trigger] field(n, end)) implies n
                        == v by {
                        assert(digits_until(bytes@, pos as int, pos + decimal(n).len()));
                        assert(pos + decimal(n).len() == stop);
                        lemma_decimal_injective(n, v as nat);
                    }
                    assert(bytes@.subrange(pos as int, stop + 1) =~= field(v as nat, end));
                }
                Some((v, stop + 1))
            } else {
                proof {
                    assert forall|n: nat| n <= usize::MAX implies !starts_with(
                        bytes@,
                        pos as int,
                        #[trigger] field(n, end),
                    ) by {
                        if starts_with(bytes@, pos as int, field(n, end)) {
                            assert(digits_until(bytes@, pos as int, pos + decimal(n).len()));
                            assert(pos + decimal(n).len() == stop);
                        }
                    }
                }
                None
            }
        },
    }
}

/// The text of a canvas starts with `P3` and a line feed, and goes on with
/// the width, the height, the line `255` and the pixels.
proof fn lemma_text_layout(w: nat, h: nat, pixels: Seq<Color>)
    ensures
        ppm_text(w, h, pixels).len() >= 3,
        ppm_text(w, h, pixels)[0] == 80,
        ppm_text(w, h, pixels)[1] == 51,
        ppm_text(w, h, pixels)[2] == 10,
        ppm_text(w, h, pixels).subrange(3, ppm_text(w, h, pixels).len() as int) == field(w, 32) + (
        field(h, 10) + (seq![50u8, 53u8, 53u8, 10u8] + pixel_lines(pixels))),
{
    let text = ppm_text(w, h, pixels);
    let rest = field(w, 32) + (field(h, 10) + (seq![50u8, 53u8, 53u8, 10u8] + pixel_lines(pixels)));
    assert(text =~= seq![80u8, 51u8, 10u8] + rest);
    assert(text.subrange(3, text.len() as int) =~= rest);
}

/// The lines of some pixels start with the three channels of the first.
proof fn lemma_pixel_lines_layout(pixels: Seq<Color>)
    requires
        pixels.len() > 0,
    ensures
        pixel_lines(pixels) == field(pixels[0].0 as nat, 32) + (field(pixels[0].1 as nat, 32) + (
        field(pixels[0].2 as nat, 10) + pixel_lines(pixels.drop_first()))),
{
    let c = pixels[0];
    let rest = pixel_lines(pixels.drop_first());
    assert(pixel_line(c) + rest =~= field(c.0 as nat, 32) + (field(c.1 as nat, 32) + (field(
        c.2 as nat,
        10,
    ) + rest)));
}

/// No canvas has the text `text`.
pub open spec fn no_canvas(text: Seq<u8>) -> bool {
    forall|w: nat, h: nat, pixels: Seq<Color>| !encodes(text, w, h, pixels)
}

/// The canvas that `text` is the text of, where there is one.
pub open spec fn spec_candidate(text: Seq<u8>) -> Option<(nat, nat, Seq<Color>)> {
    if exists|e: (nat, nat, Seq<Color>)| encodes(text, e.0, e.1, e.2) {
        Some(choose|e: (nat, nat, Seq<Color>)| encodes(text, e.0, e.1, e.2))
    } else {
        None
    }
}

proof fn lemma_no_candidate(text: Seq<u8>)
    requires
        spec_candidate(text) is None,
    ensures
        no_canvas(text),
{
    assert forall|w: nat, h: nat, pixels: Seq<Color>| !encodes(text, w, h, pixels) by {
        if encodes(text, w, h, pixels) {
            assert(encodes(text, (w, h, pixels).0, (w, h, pixels).1, (w, h, pixels).2));
        }
    }
}

impl Canvas {
    /// The canvas as text.
    pub fn to_ppm(&self) -> (text: Vec<u8>)
        requires
            self.wf(),
        ensures
            encodes(text@, self.spec_width(), self.spec_height(), self@),
    {
        proof {
            self.lemma_size();
        }
        let mut out: Vec<u8> = Vec::new();
        out.push(80);
        out.push(51);
        out.push(10);
        push_decimal(&mut out, self.width());
        out.push(32);
        push_decimal(&mut out, self.height());
        out.push(10);
        out.push(50);
        out.push(53);
        out.push(53);
        out.push(10);
        assert(out@ =~= header(self.spec_width(), self.spec_height()));
        let pixels = self.pixels();
        let mut i: usize = 0;
        assert(pixels@.subrange(0, 0) =~= Seq::<Color>::empty());
        assert(out@ =~= header(self.spec_width(), self.spec_height()) + pixel_lines(
            pixels@.subrange(0, 0),
        ));
        while i < pixels.len()
            invariant
                i <= pixels@.len(),
                out@ == header(self.spec_width(), self.spec_height()) + pixel_lines(
                    pixels@.subrange(0, i as int),
                ),
            decreases pixels@.len() - i,
        {
            let c = pixels[i];
            let ghost before = out@;
            push_decimal(&mut out, c.0 as usize);
            out.push(32);
            push_decimal(&mut out, c.1 as usize);
            out.push(32);
            push_decimal(&mut out, c.2 as usize);
            out.push(10);
            proof {
                assert(out@ =~= before + pixel_line(c));
                lemma_pixel_lines_push(pixels@.subrange(0, i as int), c);
                assert(pixels@.subrange(0, i + 1) =~= pixels@.subrange(0, i as int).push(c));
                assert(out@ =~= header(self.spec_width(), self.spec_height()) + pixel_lines(
                    pixels@.subrange(0, i + 1),
                ));
            }
            i = i + 1;
        }
        assert(pixels@.subrange(0, i as int) =~= pixels@);
        out
    }

    /// The canvas that `bytes` is the text of; `None` where it is the text of none.
    pub fn from_ppm(bytes: &[u8]) -> (r: Option<Canvas>)
        ensures
            match r {
                Some(canvas) => canvas.wf() && encodes(
                    bytes@,
                    canvas.spec_width(),
                    canvas.spec_height(),
                    canvas@,
                ),
                None => no_canvas(bytes@),
            },
    {
        let ghost text = bytes@;
        let ghost candidate = spec_candidate(text);
        let ghost len = text.len() as int;
        proof {
            if let Some(e) = candidate {
                lemma_text_layout(e.0, e.1, e.2);
            }
        }
        if bytes.len() < 3 || bytes[0] != 80 || bytes[1] != 51 || bytes[2] != 10 {
            proof {
                lemma_no_candidate(text);
            }
            return None;
        }
        let ghost after_h = seq![50u8, 53u8, 53u8, 10u8];
        // the width
        proof {
            if let Some(e) = candidate {
                lemma_split(text, 3, field(e.0, 32), field(e.1, 10) + (after_h + pixel_lines(e.2)));
            }
        }
        let (w, p1) = match parse_field(bytes, 3, 32) {
            Some(found) => found,
            None => {
                proof {
                    lemma_no_candidate(text);
                }
                return None;
            },
        };
        // the height
        proof {
            if let Some(e) = candidate {
                lemma_split(text, p1 as int, field(e.1, 10), after_h + pixel_lines(e.2));
            }
        }
        let (h, p2) = match parse_field(bytes, p1, 10) {
            Some(found) => found,
            None => {
                proof {
                    lemma_no_candidate(text);
                }
                return None;
            },
        };
        // the line `255`
        proof {
            if let Some(e) = candidate {
                lemma_split(text, p2 as int, after_h, pixel_lines(e.2));
                assert(text.subrange(p2 as int, p2 + 4)[0] == text[p2 as int]);
                assert(text.subrange(p2 as int, p2 + 4)[1] == text[p2 + 1]);
                assert(text.subrange(p2 as int, p2 + 4)[2] == text[p2 + 2]);
                assert(text.subrange(p2 as int, p2 + 4)[3] == text[p2 + 3]);
            }
        }
        if bytes.len() - p2 < 4 || bytes[p2] != 50 || bytes[p2 + 1] != 53 || bytes[p2 + 2] != 53
            || bytes[p2 + 3] != 10 {
            proof {
                lemma_no_candidate(text);
            }
            return None;
        }
        let p3: usize = p2 + 4;
        assert(text.subrange(0, p3 as int) =~= header(w as nat, h as nat)) by {
            let head = text.subrange(0, p3 as int);
            let fw = field(w as nat, 32);
            let fh = field(h as nat, 10);
            assert(text.subrange(3, 3int + fw.len()) == fw);
            assert(text.subrange(p1 as int, p1 + fh.len()) == fh);
            assert forall|i: int| 0 <= i < p3 implies head[i] == header(w as nat, h as nat)[i] by {
                if 3 <= i < p1 {
                    assert(text.subrange(3, 3int + fw.len())[i - 3] == text[i]);
                } else if p1 <= i < p2 {
                    assert(text.subrange(p1 as int, p1 + fh.len())[i - p1] == text[i]);
                }
            }
        }
        // the pixels
        let n: usize = match w.checked_mul(h) {
            Some(n) => n,
            None => {
                proof {
                    if let Some(e) = candidate {
                        lemma_pixel_lines_len(e.2);
                    }
                    lemma_no_candidate(text);
                }
                return None;
            },
        };
        let mut pixels: Vec<Color> = Vec::new();
        let mut pos: usize = p3;
        assert(text.subrange(0, pos as int) =~= header(w as nat, h as nat) + pixel_lines(pixels@));
        proof {
            if let Some(e) = candidate {
                assert(e.2.subrange(0, 0) =~= pixels@);
                assert(e.2.subrange(0, n as int) =~= e.2);
            }
        }
        while pixels.len() < n
            invariant
                pixels@.len() <= n,
                n == w * h,
                p3 <= pos <= len,
                len == text.len(),
                text == bytes@,
                candidate == spec_candidate(text),
                text.subrange(0, pos as int) == header(w as nat, h as nat) + pixel_lines(pixels@),
                candidate matches Some(e) ==> {
                    &&& e.0 == w
                    &&& e.1 == h
                    &&& e.2.len() == n
                    &&& pixels@ == e.2.subrange(0, pixels@.len() as int)
                    &&& text.subrange(pos as int, len) == pixel_lines(
                        e.2.subrange(pixels@.len() as int, n as int),
                    )
                },
            decreases n - pixels@.len(),
        {
            let ghost k = pixels@.len() as int;
            let ghost start = pos;
            let ghost done = pixels@;
            proof {
                if let Some(e) = candidate {
                    let remaining = e.2.subrange(k, n as int);
                    lemma_pixel_lines_layout(remaining);
                    assert(remaining[0] == e.2[k]);
                    assert(remaining.drop_first() =~= e.2.subrange(k + 1, n as int));
                    lemma_split(
                        text,
                        pos as int,
                        field(e.2[k].0 as nat, 32),
                        field(e.2[k].1 as nat, 32) + (field(e.2[k].2 as nat, 10) + pixel_lines(
                            e.2.subrange(k + 1, n as int),
                        )),
                    );
                }
            }
            let (red, q1) = match parse_field(bytes, pos, 32) {
                Some(found) => found,
                None => {
                    proof {
                        lemma_no_candidate(text);
                    }
                    return None;
                },
            };
            proof {
                if let Some(e) = candidate {
                    lemma_split(
                        text,
                        q1 as int,
                        field(e.2[k].1 as nat, 32),
                        field(e.2[k].2 as nat, 10) + pixel_lines(e.2.subrange(k + 1, n as int)),
                    );
                }
            }
            let (green, q2) = match parse_field(bytes, q1, 32) {
                Some(found) => found,
                None => {
                    proof {
                        lemma_no_candidate(text);
                    }
                    return None;
                },
            };
            proof {
                if let Some(e) = candidate {
                    lemma_split(
                        text,
                        q2 as int,
                        field(e.2[k].2 as nat, 10),
                        pixel_lines(e.2.subrange(k + 1, n as int)),
                    );
                }
            }
            let (blue, q3) = match parse_field(bytes, q2, 10) {
                Some(found) => found,
                None => {
                    proof {
                        lemma_no_candidate(text);
                    }
                    return None;
                },
            };
            if red > 255 || green > 255 || blue > 255 {
                proof {
                    lemma_no_candidate(text);
                }
                return None;
            }
            let c = Color(red as u8, green as u8, blue as u8);
            pixels.push(c);
            pos = q3;
            proof {
                let line = pixel_line(c);
                assert(text.subrange(start as int, q3 as int) =~= line) by {
                    let f1 = field(red as nat, 32);
                    let f2 = field(green as nat, 32);
                    let f3 = field(blue as nat, 10);
                    assert(text.subrange(start as int, start + f1.len()) == f1);
                    assert(text.subrange(q1 as int, q1 + f2.len()) == f2);
                    assert(text.subrange(q2 as int, q2 + f3.len()) == f3);
                    assert forall|i: int| 0 <= i < line.len() implies text[start + i] == line[i] by {
                        if i < f1.len() {
                            assert(text.subrange(start as int, start + f1.len())[i] == text[start
                                + i]);
                        } else if i < f1.len() + f2.len() {
                            assert(text.subrange(q1 as int, q1 + f2.len())[i - f1.len()] == text[start
                                + i]);
                        } else {
                            assert(text.subrange(q2 as int, q2 + f3.len())[i - f1.len() - f2.len()]
                                == text[start + i]);
                        }
                    }
                }
                lemma_pixel_lines_push(done, c);
                assert(text.subrange(0, pos as int) =~= text.subrange(0, start as int)
                    + text.subrange(start as int, q3 as int));
                if let Some(e) = candidate {
                    assert(c == e.2[k]);
                    assert(pixels@ =~= e.2.subrange(0, k + 1));
                }
            }
        }
        if pos != bytes.len() {
            proof {
                if let Some(e) = candidate {
                    assert(e.2.subrange(n as int, n as int) =~= Seq::<Color>::empty());
                }
                lemma_no_candidate(text);
            }
            return None;
        }
        assert(text.subrange(0, pos as int) =~= text);
        Some(Canvas::from_parts(w, h, pixels))
    }
}

/// A text is the text of one canvas at most: two canvases with the same
/// text have the same width, the same height and the same pixels.
pub proof fn lemma_text_is_of_one_canvas(
    text: Seq<u8>,
    w: nat,
    h: nat,
    pixels: Seq<Color>,
    w2: nat,
    h2: nat,
    pixels2: Seq<Color>,
)
    requires
        encodes(text, w, h, pixels),
        encodes(text, w2, h2, pixels2),
    ensures
        w == w2,
        h == h2,
        pixels == pixels2,
{
    let after_h = seq![50u8, 53u8, 53u8, 10u8];
    lemma_text_layout(w, h, pixels);
    lemma_text_layout(w2, h2, pixels2);
    lemma_split(text, 3, field(w, 32), field(h, 10) + (after_h + pixel_lines(pixels)));
    lemma_split(text, 3, field(w2, 32), field(h2, 10) + (after_h + pixel_lines(pixels2)));
    lemma_field_is_one(text, 3, w, w2, 32);
    let p1: int = 3int + field(w, 32).len();
    lemma_split(text, p1, field(h, 10), after_h + pixel_lines(pixels));
    lemma_split(text, p1, field(h2, 10), after_h + pixel_lines(pixels2));
    lemma_field_is_one(text, p1, h, h2, 10);
    let p2: int = p1 + field(h, 10).len();
    lemma_split(text, p2, after_h, pixel_lines(pixels));
    lemma_split(text, p2, after_h, pixel_lines(pixels2));
    lemma_pixel_lines_are_of_one(pixels, pixels2);
}

/// One number at most stands at a place, followed by a byte that is no digit.
proof fn lemma_field_is_one(s: Seq<u8>, pos: int, m: nat, n: nat, end: u8)
    requires
        !is_digit(end),
        starts_with(s, pos, field(m, end)),
        starts_with(s, pos, field(n, end)),
    ensures
        m == n,
{
    lemma_decimal_is_decimal(m);
    lemma_decimal_is_decimal(n);
    let one = field(m, end);
    let other = field(n, end);
    let lm = decimal(m).len() as int;
    let ln = decimal(n).len() as int;
    assert forall|i: int| 0 <= i < one.len() implies s[pos + i] == one[i] by {
        assert(s.subrange(pos, pos + one.len())[i] == s[pos + i]);
    }
    assert forall|i: int| 0 <= i < other.len() implies s[pos + i] == other[i] by {
        assert(s.subrange(pos, pos + other.len())[i] == s[pos + i]);
    }
    if lm < ln {
        assert(s[pos + lm] == one[lm]);
        assert(s[pos + lm] == other[lm]);
        assert(other[lm] == decimal(n)[lm]);
        assert(is_digit(decimal(n)[lm]));
    } else if ln < lm {
        assert(s[pos + ln] == other[ln]);
        assert(s[pos + ln] == one[ln]);
        assert(one[ln] == decimal(m)[ln]);
        assert(is_digit(decimal(m)[ln]));
    } else {
        assert(decimal(m) =~= decimal(n)) by {
            assert forall|i: int| 0 <= i < lm implies decimal(m)[i] == decimal(n)[i] by {
                assert(one[i] == decimal(m)[i]);
                assert(other[i] == decimal(n)[i]);
                assert(s[pos + i] == one[i]);
            }
        }
        lemma_decimal_injective(m, n);
    }
}

/// Pixels with the same lines are the same pixels.
proof fn lemma_pixel_lines_are_of_one(first: Seq<Color>, second: Seq<Color>)
    requires
        first.len() == second.len(),
        pixel_lines(first) == pixel_lines(second),
    ensures
        first == second,
    decreases first.len(),
{
    if first.len() == 0 {
        assert(first =~= second);
    } else {
        let s = pixel_lines(first);
        let a = first[0];
        let b = second[0];
        lemma_pixel_lines_layout(first);
        lemma_pixel_lines_layout(second);
        let rest_a = pixel_lines(first.drop_first());
        let rest_b = pixel_lines(second.drop_first());
        assert(s.subrange(0, s.len() as int) =~= s);
        lemma_split(s, 0, field(a.0 as nat, 32), field(a.1 as nat, 32) + (field(a.2 as nat, 10) + rest_a));
        lemma_split(s, 0, field(b.0 as nat, 32), field(b.1 as nat, 32) + (field(b.2 as nat, 10) + rest_b));
        lemma_field_is_one(s, 0, a.0 as nat, b.0 as nat, 32);
        let q1 = field(a.0 as nat, 32).len() as int;
        lemma_split(s, q1, field(a.1 as nat, 32), field(a.2 as nat, 10) + rest_a);
        lemma_split(s, q1, field(b.1 as nat, 32), field(b.2 as nat, 10) + rest_b);
        lemma_field_is_one(s, q1, a.1 as nat, b.1 as nat, 32);
        let q2: int = q1 + field(a.1 as nat, 32).len();
        lemma_split(s, q2, field(a.2 as nat, 10), rest_a);
        lemma_split(s, q2, field(b.2 as nat, 10), rest_b);
        lemma_field_is_one(s, q2, a.2 as nat, b.2 as nat, 10);
        lemma_pixel_lines_are_of_one(first.drop_first(), second.drop_first());
        assert(a == b);
        assert(first =~= second) by {
            assert forall|i: int| 0 <= i < first.len() implies first[i] == second[i] by {
                if i > 0 {
                    assert(first.drop_first()[i - 1] == first[i]);
                    assert(second.drop_first()[i - 1] == second[i]);
                }
            }
        }
    }
}

} // verus!
