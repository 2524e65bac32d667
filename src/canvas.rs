//! A grid of pixels and its plain-text PPM (`P3`) encoding.
use vstd::prelude::*;

verus! {

/// Longest line of a PPM file, in bytes, newline excluded.
pub const LINE_LEN_LIMIT: usize = 70;

/// A picture of `height` rows of `width` pixels; `pixels[y][x]` is the pixel
/// in row `y` and column `x`.
pub struct Canvas<T> {
    pub width: usize,
    pub height: usize,
    pub pixels: Vec<Vec<T>>,
}

/// The decimal digits of `n`, in ASCII, without leading zeros.
pub open spec fn decimal(n: nat) -> Seq<u8>
    decreases n,
{
    if n < 10 {
        seq![(48 + n) as u8]
    } else {
        decimal(n / 10).push((48 + n % 10) as u8)
    }
}

/// The channel values of a row of pixels, red, green, blue for each pixel.
pub open spec fn channels(row: Seq<(u8, u8, u8)>) -> Seq<u8>
    decreases row.len(),
{
    if row.len() == 0 {
        Seq::empty()
    } else {
        let p = row.last();
        channels(row.drop_last()) + seq![p.0, p.1, p.2]
    }
}

/// The values written one after the other, each followed by a space, where
/// a value that would take its line past the limit starts a new line in
/// place of the space before it. Also gives the length of the last line.
pub open spec fn wrapped(values: Seq<u8>) -> (Seq<u8>, nat)
    decreases values.len(),
{
    if values.len() == 0 {
        (Seq::empty(), 0)
    } else {
        let prev = wrapped(values.drop_last());
        let token = decimal(values.last() as nat);
        if prev.1 + token.len() > LINE_LEN_LIMIT {
            (prev.0.drop_last().push(10u8) + token.push(32u8), token.len() + 1)
        } else {
            (prev.0 + token.push(32u8), prev.1 + token.len() + 1)
        }
    }
}

/// The text of one row: its values wrapped, the last space made a newline.
pub open spec fn row_text(row: Seq<(u8, u8, u8)>) -> Seq<u8> {
    let values = channels(row);
    if values.len() == 0 {
        Seq::empty()
    } else {
        wrapped(values).0.drop_last().push(10u8)
    }
}

/// The text of the first `n` rows.
pub open spec fn rows_text(rows: Seq<Vec<(u8, u8, u8)>>, n: int) -> Seq<u8>
    decreases n,
{
    if n <= 0 {
        Seq::empty()
    } else {
        rows_text(rows, n - 1) + row_text(rows[n - 1]@)
    }
}

/// The header: magic number, width and height, largest channel value.
pub open spec fn header(width: nat, height: nat) -> Seq<u8> {
    seq![80u8, 51u8, 10u8] + decimal(width) + seq![32u8] + decimal(height) + seq![10u8]
        + decimal(255) + seq![10u8]
}

pub open spec fn ppm(c: Canvas<(u8, u8, u8)>) -> Seq<u8> {
    header(c.width as nat, c.height as nat) + rows_text(c.pixels@, c.pixels@.len() as int)
}

proof fn lemma_decimal_len(n: nat)
    ensures
        1 <= decimal(n).len(),
        n < 10 ==> decimal(n).len() == 1,
        n < 100 ==> decimal(n).len() <= 2,
        n < 1000 ==> decimal(n).len() <= 3,
    decreases n,
{
    if n >= 10 {
        lemma_decimal_len(n / 10);
    }
}

proof fn lemma_wrapped_line(values: Seq<u8>)
    ensures
        wrapped(values).1 <= LINE_LEN_LIMIT + 1,
        values.len() > 0 ==> wrapped(values).0.len() > 0,
    decreases values.len(),
{
    if values.len() > 0 {
        lemma_wrapped_line(values.drop_last());
        lemma_decimal_len(values.last() as nat);
    }
}

/// Appends the decimal digits of `n`.
fn push_decimal(out: &mut Vec<u8>, n: usize)
    ensures
        final(out)@ == old(out)@ + decimal(n as nat),
    decreases n,
{
    if n >= 10 {
        push_decimal(out, n / 10);
    }
    out.push((48 + n % 10) as u8);
    proof {
        if n >= 10 {
            assert(decimal(n as nat) == decimal((n / 10) as nat).push((48 + n % 10) as u8));
        }
    }
}

/// Writes one value of a row, wrapping the line where it would grow too long.
fn put_value(out: &mut Vec<u8>, line_len: &mut usize, v: u8, Ghost(prefix): Ghost<Seq<u8>>, Ghost(values): Ghost<Seq<u8>>)
    requires
        old(out)@ == prefix + wrapped(values).0,
        *old(line_len) == wrapped(values).1,
    ensures
        final(out)@ == prefix + wrapped(values.push(v)).0,
        *final(line_len) == wrapped(values.push(v)).1,
{
    proof {
        lemma_wrapped_line(values);
        lemma_decimal_len(v as nat);
        assert(values.push(v).drop_last() =~= values);
    }
    let ghost before = out@;
    let mut digits: Vec<u8> = Vec::new();
    push_decimal(&mut digits, v as usize);
    assert(digits@ =~= decimal(v as nat));
    if *line_len + digits.len() > LINE_LEN_LIMIT {
        out.pop();
        out.push(10u8);
        *line_len = 0;
        proof {
            assert(wrapped(values).0.len() > 0) by {
                if values.len() == 0 {
                    assert(wrapped(values).1 == 0);
                }
            }
            assert(out@ =~= prefix + wrapped(values).0.drop_last().push(10u8));
        }
    }
    let ghost mid = out@;
    let mut k: usize = 0;
    while k < digits.len()
        invariant
            k <= digits@.len(),
            out@ == mid + digits@.subrange(0, k as int),
        decreases digits@.len() - k,
    {
        out.push(digits[k]);
        proof {
            assert(digits@.subrange(0, k + 1) =~= digits@.subrange(0, k as int).push(digits@[k as int]));
        }
        k = k + 1;
    }
    out.push(32u8);
    *line_len = *line_len + digits.len() + 1;
    proof {
        assert(digits@.subrange(0, digits@.len() as int) =~= digits@);
        assert(out@ =~= mid + digits@.push(32u8));
    }
}

impl<T: Copy> Canvas<T> {
    /// A canvas of `height` rows of `width` pixels, each `blank`.
    pub fn new(width: usize, height: usize, blank: T) -> (c: Canvas<T>)
        ensures
            c.width == width,
            c.height == height,
            c.pixels@.len() == height,
            forall|y: int| 0 <= y < height ==> (#[trigger] c.pixels@[y])@ == Seq::new(width as nat, |x: int| blank),
    {
        let mut pixels: Vec<Vec<T>> = Vec::new();
        let mut y: usize = 0;
        while y < height
            invariant
                y <= height,
                pixels@.len() == y,
                forall|j: int| 0 <= j < y ==> (#[trigger] pixels@[j])@ == Seq::new(width as nat, |x: int| blank),
            decreases height - y,
        {
            let mut row: Vec<T> = Vec::new();
            let mut x: usize = 0;
            while x < width
                invariant
                    x <= width,
                    row@ == Seq::new(x as nat, |i: int| blank),
                decreases width - x,
            {
                row.push(blank);
                proof {
                    assert(row@ =~= Seq::new((x + 1) as nat, |i: int| blank));
                }
                x = x + 1;
            }
            pixels.push(row);
            y = y + 1;
        }
        Canvas { width, height, pixels }
    }
}

impl Canvas<(u8, u8, u8)> {
    /// The canvas as a plain-text PPM file: the header, then each row's
    /// channel values in decimal, separated by spaces, with no line longer
    /// than seventy bytes.
    pub fn to_ppm(&self) -> (r: Vec<u8>)
        ensures
            r@ == ppm(*self),
    {
        let mut out: Vec<u8> = Vec::new();
        out.push(80u8);
        out.push(51u8);
        out.push(10u8);
        push_decimal(&mut out, self.width);
        out.push(32u8);
        push_decimal(&mut out, self.height);
        out.push(10u8);
        push_decimal(&mut out, 255);
        out.push(10u8);
        let ghost head = header(self.width as nat, self.height as nat);
        assert(out@ =~= head);
        let mut y: usize = 0;
        while y < self.pixels.len()
            invariant
                y <= self.pixels@.len(),
                out@ == head + rows_text(self.pixels@, y as int),
            decreases self.pixels@.len() - y,
        {
            let row = &self.pixels[y];
            let ghost start = out@;
            let mut line_len: usize = 0;
            let mut x: usize = 0;
            assert(start =~= start + wrapped(channels(row@.subrange(0, 0))).0);
            while x < row.len()
                invariant
                    x <= row@.len(),
                    row == self.pixels@[y as int],
                    out@ == start + wrapped(channels(row@.subrange(0, x as int))).0,
                    line_len == wrapped(channels(row@.subrange(0, x as int))).1,
                decreases row@.len() - x,
            {
                let p = row[x];
                let ghost done = channels(row@.subrange(0, x as int));
                put_value(&mut out, &mut line_len, p.0, Ghost(start), Ghost(done));
                put_value(&mut out, &mut line_len, p.1, Ghost(start), Ghost(done.push(p.0)));
                put_value(&mut out, &mut line_len, p.2, Ghost(start), Ghost(done.push(p.0).push(p.1)));
                proof {
                    let next = row@.subrange(0, x + 1);
                    assert(next.drop_last() =~= row@.subrange(0, x as int));
                    assert(channels(next) =~= done.push(p.0).push(p.1).push(p.2));
                }
                x = x + 1;
            }
            proof {
                assert(row@.subrange(0, row@.len() as int) =~= row@);
                lemma_wrapped_line(channels(row@));
            }
            if row.len() > 0 {
                proof {
                    assert(channels(row@).len() > 0) by {
                        assert(channels(row@) == channels(row@.drop_last()) + seq![row@.last().0, row@.last().1, row@.last().2]);
                    }
                }
                out.pop();
                out.push(10u8);
                proof {
                    assert(out@ =~= start + row_text(row@));
                }
            } else {
                proof {
                    assert(channels(row@) =~= Seq::<u8>::empty());
                    assert(out@ =~= start + row_text(row@));
                }
            }
            proof {
                assert(rows_text(self.pixels@, y + 1) == rows_text(self.pixels@, y as int) + row_text(self.pixels@[y as int]@));
                assert(out@ =~= head + rows_text(self.pixels@, y + 1));
            }
            y = y + 1;
        }
        out
    }
}

} // verus!
