//! The pixel-map file format: a three-line text header, then three channels
//! per pixel, row by row from the top, as raw bytes (`P6`) or as decimal
//! numbers separated by white space (`P3`).

use vstd::prelude::*;
use vstd::slice::slice_subrange;

verus! {

/// The byte that ends a header line.
pub const NEWLINE: u8 = 10;

/// The byte between width and height.
pub const SPACE: u8 = 32;

/// The largest value of a channel, and the only one a header may name.
pub const MAX_COLOR: usize = 255;

/// One pixel: three channels of eight bits.
#[derive(Clone, Copy, Debug, PartialEq, Eq, Structural)]
pub struct Pixel {
    pub r: u8,
    pub g: u8,
    pub b: u8,
}

/// A decoded pixel grid, row by row from the top.
#[derive(Debug, PartialEq, Eq)]
pub struct Image {
    pub width: usize,
    pub height: usize,
    pub pixels: Vec<Pixel>,
}

/// Why a file was not decoded. Every fault of the input is of this one kind.
#[derive(Clone, Copy, Debug, PartialEq, Eq, Structural)]
pub enum ImageError {
    InvalidInput,
}

/// The first position in `from..to` at which `s` holds `b`, or `to` where it
/// holds none.
pub open spec fn find(s: Seq<u8>, from: int, to: int, b: u8) -> int
    decreases to - from,
{
    if from >= to {
        to
    } else if s[from] == b {
        from
    } else {
        find(s, from + 1, to, b)
    }
}

pub open spec fn is_digit(b: u8) -> bool {
    48 <= b <= 57
}

/// The value of a decimal digit; 0 for any other byte.
pub open spec fn digit_value(b: u8) -> nat {
    if is_digit(b) {
        (b - 48) as nat
    } else {
        0
    }
}

/// A number is one decimal digit or more, and nothing else.
pub open spec fn is_number(d: Seq<u8>) -> bool {
    d.len() > 0 && forall|i: int| 0 <= i < d.len() ==> is_digit(#[trigger] d[i])
}

/// The value of a run of decimal digits.
pub open spec fn decimal_value(d: Seq<u8>) -> nat
    decreases d.len(),
{
    if d.len() == 0 {
        0
    } else {
        decimal_value(d.drop_last()) * 10 + digit_value(d.last())
    }
}

/// The value of `d` where `d` is a number of at most `max`.
pub open spec fn number_in(d: Seq<u8>, max: nat) -> Option<usize> {
    if is_number(d) && decimal_value(d) <= max {
        Some(decimal_value(d) as usize)
    } else {
        None
    }
}

/// The bytes that separate the numbers of a text body: space, tab, line
/// feed, form feed and carriage return.
pub open spec fn is_space(b: u8) -> bool {
    b == 32 || b == 9 || b == 10 || b == 12 || b == 13
}

/// The first position from `from` on that holds no white space.
pub open spec fn skip_spaces(s: Seq<u8>, from: int) -> int
    decreases s.len() - from,
{
    if 0 <= from < s.len() && is_space(s[from]) {
        skip_spaces(s, from + 1)
    } else {
        from
    }
}

/// The first position from `from` on that holds white space, or the end.
pub open spec fn token_end(s: Seq<u8>, from: int) -> int
    decreases s.len() - from,
{
    if 0 <= from < s.len() && !is_space(s[from]) {
        token_end(s, from + 1)
    } else {
        from
    }
}

/// The channels grouped three to a pixel.
pub open spec fn pixels_of(channels: Seq<u8>) -> Seq<Pixel> {
    Seq::new(
        channels.len() / 3,
        |i: int| Pixel { r: channels[3 * i], g: channels[3 * i + 1], b: channels[3 * i + 2] },
    )
}

/// The pixels of a binary body: the first `3 * width * height` bytes, three to a
/// pixel. A body that is shorter holds no image.
pub open spec fn p6_pixels(width: nat, height: nat, data: Seq<u8>) -> Option<Seq<Pixel>> {
    if 3 * (width * height) <= data.len() {
        Some(pixels_of(data.take((3 * (width * height)) as int)))
    } else {
        None
    }
}

/// `head` before the channels of `tail`, where there are any.
pub open spec fn prepend(head: Seq<u8>, tail: Option<Seq<u8>>) -> Option<Seq<u8>> {
    match tail {
        Some(rest) => Some(head + rest),
        None => None,
    }
}

/// The first `count` channels written from `from` on: each is white space,
/// then a number of at most 255. Nothing where one of them is missing or is
/// no such number.
pub open spec fn p3_channels(s: Seq<u8>, from: int, count: nat) -> Option<Seq<u8>>
    decreases count,
{
    if count == 0 {
        Some(Seq::empty())
    } else {
        let start = skip_spaces(s, from);
        let end = token_end(s, start);
        match number_in(s.subrange(start, end), MAX_COLOR as nat) {
            Some(v) => prepend(seq![v as u8], p3_channels(s, end, (count - 1) as nat)),
            None => None,
        }
    }
}

/// The pixels of a text body: the first `3 * width * height` numbers, three
/// to a pixel.
pub open spec fn p3_pixels(width: nat, height: nat, data: Seq<u8>) -> Option<Seq<Pixel>> {
    match p3_channels(data, 0, 3 * (width * height)) {
        Some(channels) => Some(pixels_of(channels)),
        None => None,
    }
}

/// `skip_spaces` and `token_end` move forward and stay inside the bytes.
pub proof fn lemma_token_bounds(s: Seq<u8>, from: int)
    requires
        0 <= from <= s.len(),
    ensures
        from <= skip_spaces(s, from) <= s.len(),
        from <= token_end(s, from) <= s.len(),
    decreases s.len() - from,
{
    if from < s.len() {
        lemma_token_bounds(s, from + 1);
    }
}

/// Each channel of a text body takes at least one byte, and the channels
/// that are read are as many as were asked for.
pub proof fn lemma_p3_channels_fit(s: Seq<u8>, from: int, count: nat)
    requires
        0 <= from <= s.len(),
        p3_channels(s, from, count) is Some,
    ensures
        from + count <= s.len(),
        p3_channels(s, from, count).unwrap().len() == count,
    decreases count,
{
    if count > 0 {
        let start = skip_spaces(s, from);
        let end = token_end(s, start);
        lemma_token_bounds(s, from);
        lemma_token_bounds(s, start);
        lemma_p3_channels_fit(s, end, (count - 1) as nat);
    }
}

/// The decimal digits of `n`, without leading zeros.
pub open spec fn digits_of(n: nat) -> Seq<u8>
    decreases n,
{
    if n < 10 {
        seq![(48 + n) as u8]
    } else {
        digits_of(n / 10).push((48 + n % 10) as u8)
    }
}

/// The channels of the pixels in a row: red, green and blue of each in turn.
pub open spec fn channels_of(pixels: Seq<Pixel>) -> Seq<u8>
    decreases pixels.len(),
{
    if pixels.len() == 0 {
        Seq::empty()
    } else {
        channels_of(pixels.drop_last()).push(pixels.last().r).push(pixels.last().g).push(
            pixels.last().b,
        )
    }
}

/// The header of a file: the format's tag, width and height, and the
/// largest channel value, each on a line of its own.
pub open spec fn ppm_header(tag: u8, width: nat, height: nat) -> Seq<u8> {
    ((seq![80u8, tag, NEWLINE] + digits_of(width)).push(SPACE) + digits_of(height)).push(NEWLINE)
        + digits_of(MAX_COLOR as nat).push(NEWLINE)
}

/// The binary file of an image: the binary header, then the raw channels.
pub open spec fn ppm_file(width: nat, height: nat, pixels: Seq<Pixel>) -> Seq<u8> {
    ppm_header(54u8, width, height) + channels_of(pixels)
}

/// What a file holds: width, height and pixels. The header is three lines:
/// the tag `P6` or `P3`; width and height as numbers with one space between;
/// the number 255. The body after the third line feed is read as the tag
/// says. Nothing where any of this fails.
pub open spec fn parse_ppm(s: Seq<u8>) -> Option<(usize, usize, Seq<Pixel>)> {
    let len = s.len() as int;
    let e1 = find(s, 0, len, NEWLINE);
    let e2 = find(s, e1 + 1, len, NEWLINE);
    let e3 = find(s, e2 + 1, len, NEWLINE);
    let sp = find(s, e1 + 1, e2, SPACE);
    if e1 < len && e2 < len && e3 < len && sp < e2 {
        match (
            number_in(s.subrange(e1 + 1, sp), usize::MAX as nat),
            number_in(s.subrange(sp + 1, e2), usize::MAX as nat),
            number_in(s.subrange(e2 + 1, e3), MAX_COLOR as nat),
        ) {
            (Some(width), Some(height), Some(depth)) => {
                let body = s.subrange(e3 + 1, len);
                let pixels = if depth != MAX_COLOR || e1 != 2 || s[0] != 80u8 {
                    None
                } else if s[1] == 54u8 {
                    p6_pixels(width as nat, height as nat, body)
                } else if s[1] == 51u8 {
                    p3_pixels(width as nat, height as nat, body)
                } else {
                    None
                };
                match pixels {
                    Some(pixels) => Some((width, height, pixels)),
                    None => None,
                }
            },
            _ => None,
        }
    } else {
        None
    }
}

/// A prefix of a run of digits is worth no more than the run.
pub proof fn lemma_decimal_prefix(d: Seq<u8>, k: int)
    requires
        0 <= k <= d.len(),
    ensures
        decimal_value(d.take(k)) <= decimal_value(d),
    decreases d.len() - k,
{
    if k < d.len() {
        lemma_decimal_prefix(d.drop_last(), k);
        assert(d.drop_last().take(k) =~= d.take(k));
    } else {
        assert(d.take(k) =~= d);
    }
}

/// The first position in `from..to` that holds `b`, or `to`.
pub fn find_byte(bytes: &[u8], from: usize, to: usize, b: u8) -> (at: usize)
    requires
        from <= to <= bytes.len(),
    ensures
        at == find(bytes@, from as int, to as int, b),
        from <= at <= to,
        at < to ==> bytes@[at as int] == b,
        forall|k: int| from <= k < at ==> bytes@[k] != b,
{
    let mut at: usize = from;
    while at < to && bytes[at] != b
        invariant
            from <= at <= to <= bytes.len(),
            find(bytes@, from as int, to as int, b) == find(bytes@, at as int, to as int, b),
            forall|k: int| from <= k < at ==> bytes@[k] != b,
        decreases to - at,
    {
        at = at + 1;
    }
    at
}

/// Reads the bytes `start..end` as a decimal number of at most `max`.
pub fn parse_number(bytes: &[u8], start: usize, end: usize, max: usize) -> (r: Option<usize>)
    requires
        start <= end <= bytes.len(),
    ensures
        r == number_in(bytes@.subrange(start as int, end as int), max as nat),
{
    let ghost d = bytes@.subrange(start as int, end as int);
    if start == end {
        return None;
    }
    let mut value: usize = 0;
    let mut j: usize = start;
    assert(bytes@.subrange(start as int, start as int) =~= Seq::<u8>::empty());
    while j < end
        invariant
            start <= j <= end <= bytes.len(),
            d == bytes@.subrange(start as int, end as int),
            forall|k: int| 0 <= k < j - start ==> is_digit(#[trigger] d[k]),
            value == decimal_value(d.take(j - start)),
            value <= max,
        decreases end - j,
    {
        let c = bytes[j];
        if c < 48 || c > 57 {
            assert(!is_digit(d[j - start]));
            return None;
        }
        let digit: usize = (c - 48) as usize;
        proof {
            let next = d.take(j - start + 1);
            assert(next.drop_last() =~= d.take(j - start));
            assert(next.last() == c);
            assert(decimal_value(next) == value * 10 + digit);
            lemma_decimal_prefix(d, j - start + 1);
        }
        if digit > max || value > (max - digit) / 10 {
            return None;
        }
        value = value * 10 + digit;
        j = j + 1;
    }
    assert(d.take(end - start) =~= d);
    Some(value)
}

/// The first position from `from` on that holds no white space.
pub fn skip_white(bytes: &[u8], from: usize) -> (at: usize)
    requires
        from <= bytes.len(),
    ensures
        at == skip_spaces(bytes@, from as int),
        from <= at <= bytes.len(),
{
    let mut at: usize = from;
    while at < bytes.len() && (bytes[at] == 32 || bytes[at] == 9 || bytes[at] == 10 || bytes[at]
        == 12 || bytes[at] == 13)
        invariant
            from <= at <= bytes.len(),
            skip_spaces(bytes@, from as int) == skip_spaces(bytes@, at as int),
        decreases bytes.len() - at,
    {
        at = at + 1;
    }
    at
}

/// The first position from `from` on that holds white space, or the end.
pub fn skip_token(bytes: &[u8], from: usize) -> (at: usize)
    requires
        from <= bytes.len(),
    ensures
        at == token_end(bytes@, from as int),
        from <= at <= bytes.len(),
{
    let mut at: usize = from;
    while at < bytes.len() && !(bytes[at] == 32 || bytes[at] == 9 || bytes[at] == 10 || bytes[at]
        == 12 || bytes[at] == 13)
        invariant
            from <= at <= bytes.len(),
            token_end(bytes@, from as int) == token_end(bytes@, at as int),
        decreases bytes.len() - at,
    {
        at = at + 1;
    }
    at
}

/// Groups channels three to a pixel.
pub fn group_pixels(channels: &[u8]) -> (pixels: Vec<Pixel>)
    ensures
        pixels@ == pixels_of(channels@),
{
    let count = channels.len() / 3;
    let mut pixels: Vec<Pixel> = Vec::new();
    let mut i: usize = 0;
    while i < count
        invariant
            i <= count,
            count == channels.len() / 3,
            pixels.len() == i,
            forall|k: int|
                0 <= k < i ==> #[trigger] pixels@[k] == (Pixel {
                    r: channels@[3 * k],
                    g: channels@[3 * k + 1],
                    b: channels@[3 * k + 2],
                }),
        decreases count - i,
    {
        pixels.push(
            Pixel { r: channels[3 * i], g: channels[3 * i + 1], b: channels[3 * i + 2] },
        );
        i = i + 1;
    }
    assert(pixels@ =~= pixels_of(channels@));
    pixels
}

/// Appends the decimal digits of `n`.
pub fn push_decimal(out: &mut Vec<u8>, n: usize)
    ensures
        final(out)@ == old(out)@ + digits_of(n as nat),
    decreases n,
{
    if n >= 10 {
        push_decimal(out, n / 10);
    }
    out.push(48u8 + (n % 10) as u8);
    assert(out@ =~= old(out)@ + digits_of(n as nat));
}

impl Image {
    /// The grid holds one pixel for each position.
    pub open spec fn wf(&self) -> bool {
        self.pixels.len() == self.width * self.height
    }

    /// The pixel in column `w` of row `h`, counted from the top left: the
    /// pixel at position `h * width + w` of the grid, where the grid has one.
    pub fn sample(&self, w: usize, h: usize) -> (r: Option<Pixel>)
        ensures
            r == if h * self.width + w < self.pixels.len() {
                Some(self.pixels@[h * self.width + w])
            } else {
                None::<Pixel>
            },
    {
        let row_start = match h.checked_mul(self.width) {
            Some(row_start) => row_start,
            None => {
                return None;
            },
        };
        let at = match row_start.checked_add(w) {
            Some(at) => at,
            None => {
                return None;
            },
        };
        if at < self.pixels.len() {
            Some(self.pixels[at])
        } else {
            None
        }
    }

    /// Decodes a file. It is decoded exactly where `parse_ppm` finds an
    /// image in it, and every other input is refused as invalid.
    pub fn decode(contents: &[u8]) -> (r: Result<Image, ImageError>)
        ensures
            match r {
                Ok(image) => image.wf() && parse_ppm(contents@) == Some(
                    (image.width, image.height, image.pixels@),
                ),
                Err(e) => e == ImageError::InvalidInput && parse_ppm(contents@) is None,
            },
    {
        let len = contents.len();
        let e1 = find_byte(contents, 0, len, NEWLINE);
        if e1 >= len {
            return Err(ImageError::InvalidInput);
        }
        let e2 = find_byte(contents, e1 + 1, len, NEWLINE);
        if e2 >= len {
            return Err(ImageError::InvalidInput);
        }
        let e3 = find_byte(contents, e2 + 1, len, NEWLINE);
        if e3 >= len {
            return Err(ImageError::InvalidInput);
        }
        let sp = find_byte(contents, e1 + 1, e2, SPACE);
        if sp >= e2 {
            return Err(ImageError::InvalidInput);
        }
        let width = match parse_number(contents, e1 + 1, sp, usize::MAX) {
            Some(width) => width,
            None => {
                return Err(ImageError::InvalidInput);
            },
        };
        let height = match parse_number(contents, sp + 1, e2, usize::MAX) {
            Some(height) => height,
            None => {
                return Err(ImageError::InvalidInput);
            },
        };
        let depth = match parse_number(contents, e2 + 1, e3, MAX_COLOR) {
            Some(depth) => depth,
            None => {
                return Err(ImageError::InvalidInput);
            },
        };
        if depth != MAX_COLOR || e1 != 2 || contents[0] != 80u8 {
            return Err(ImageError::InvalidInput);
        }
        let body = slice_subrange(contents, e3 + 1, len);
        if contents[1] == 54u8 {
            Image::read_p6(width, height, body)
        } else if contents[1] == 51u8 {
            Image::read_p3(width, height, body)
        } else {
            Err(ImageError::InvalidInput)
        }
    }

    /// Encodes the image as a binary file: the binary header with the image's
    /// width and height, then the three channels of every pixel.
    pub fn encode(&self) -> (out: Vec<u8>)
        ensures
            out@ == ppm_file(self.width as nat, self.height as nat, self.pixels@),
    {
        let mut out: Vec<u8> = Vec::new();
        out.push(80u8);
        out.push(54u8);
        out.push(NEWLINE);
        assert(out@ =~= seq![80u8, 54u8, NEWLINE]);
        push_decimal(&mut out, self.width);
        out.push(SPACE);
        push_decimal(&mut out, self.height);
        out.push(NEWLINE);
        let ghost lines = out@;
        push_decimal(&mut out, MAX_COLOR);
        out.push(NEWLINE);
        assert(out@ =~= ppm_header(54u8, self.width as nat, self.height as nat));
        let ghost header = out@;
        let mut i: usize = 0;
        while i < self.pixels.len()
            invariant
                i <= self.pixels.len(),
                out@ == header + channels_of(self.pixels@.take(i as int)),
            decreases self.pixels.len() - i,
        {
            let pixel = self.pixels[i];
            proof {
                let next = self.pixels@.take(i + 1);
                assert(next.drop_last() =~= self.pixels@.take(i as int));
                assert(next.last() == pixel);
                assert(header + channels_of(next) =~= (header + channels_of(
                    self.pixels@.take(i as int),
                )).push(pixel.r).push(pixel.g).push(pixel.b));
            }
            out.push(pixel.r);
            out.push(pixel.g);
            out.push(pixel.b);
            i = i + 1;
        }
        assert(self.pixels@.take(i as int) =~= self.pixels@);
        out
    }

    /// Reads a binary body: three raw bytes for each of the `width * height`
    /// pixels. Bytes beyond them are ignored; a body with fewer is refused.
    pub fn read_p6(width: usize, height: usize, bytes: &[u8]) -> (r: Result<Image, ImageError>)
        ensures
            match r {
                Ok(image) => image.width == width && image.height == height && image.wf()
                    && p6_pixels(width as nat, height as nat, bytes@) == Some(image.pixels@),
                Err(e) => p6_pixels(width as nat, height as nat, bytes@) is None,
            },
    {
        let ghost area = (width as nat) * (height as nat);
        assert(area == width * height);
        let count = match width.checked_mul(height) {
            Some(count) => count,
            None => {
                assert(3 * area > bytes.len());
                return Err(ImageError::InvalidInput);
            },
        };
        let needed = match count.checked_mul(3) {
            Some(needed) => needed,
            None => {
                assert(3 * area > bytes.len());
                return Err(ImageError::InvalidInput);
            },
        };
        if needed > bytes.len() {
            return Err(ImageError::InvalidInput);
        }
        let pixels = group_pixels(slice_subrange(bytes, 0, needed));
        Ok(Image { width, height, pixels })
    }

    /// Reads a text body: three numbers for each of the `width * height`
    /// pixels, each a decimal number of at most 255 after any white space.
    /// What follows them is ignored; a body with fewer numbers, or with
    /// anything else in place of one, is refused.
    pub fn read_p3(width: usize, height: usize, bytes: &[u8]) -> (r: Result<Image, ImageError>)
        ensures
            match r {
                Ok(image) => image.width == width && image.height == height && image.wf()
                    && p3_pixels(width as nat, height as nat, bytes@) == Some(image.pixels@),
                Err(e) => p3_pixels(width as nat, height as nat, bytes@) is None,
            },
    {
        let ghost area = (width as nat) * (height as nat);
        assert(area == width * height);
        let ghost all = p3_channels(bytes@, 0, 3 * area);
        proof {
            if all is Some {
                lemma_p3_channels_fit(bytes@, 0, 3 * area);
            }
        }
        let count = match width.checked_mul(height) {
            Some(count) => count,
            None => {
                assert(3 * area > bytes.len());
                return Err(ImageError::InvalidInput);
            },
        };
        let needed = match count.checked_mul(3) {
            Some(needed) => needed,
            None => {
                assert(3 * area > bytes.len());
                return Err(ImageError::InvalidInput);
            },
        };
        if needed > bytes.len() {
            return Err(ImageError::InvalidInput);
        }
        let mut channels: Vec<u8> = Vec::new();
        let mut at: usize = 0;
        let mut k: usize = 0;
        assert(all is Some ==> Seq::<u8>::empty() + all.unwrap() =~= all.unwrap());
        while k < needed
            invariant
                k <= needed,
                needed == 3 * area,
                area == (width as nat) * (height as nat),
                at <= bytes.len(),
                channels.len() == k,
                all == p3_channels(bytes@, 0, 3 * area),
                all == prepend(channels@, p3_channels(bytes@, at as int, (needed - k) as nat)),
            decreases needed - k,
        {
            let start = skip_white(bytes, at);
            let end = skip_token(bytes, start);
            let ghost before = channels@;
            let ghost here = p3_channels(bytes@, at as int, (needed - k) as nat);
            let ghost rest = p3_channels(bytes@, end as int, (needed - k - 1) as nat);
            assert(here == match number_in(
                bytes@.subrange(start as int, end as int),
                MAX_COLOR as nat,
            ) {
                Some(v) => prepend(seq![v as u8], rest),
                None => None,
            });
            match parse_number(bytes, start, end, MAX_COLOR) {
                Some(v) => {
                    channels.push(v as u8);
                },
                None => {
                    return Err(ImageError::InvalidInput);
                },
            }
            proof {
                if rest is Some {
                    assert(before + (seq![channels@[k as int]] + rest.unwrap()) =~= channels@
                        + rest.unwrap());
                }
            }
            at = end;
            k = k + 1;
        }
        assert(channels@ + Seq::<u8>::empty() =~= channels@);
        let pixels = group_pixels(channels.as_slice());
        assert(pixels@.len() == area);
        Ok(Image { width, height, pixels })
    }
}

/// The digits of a number are a number, and its value is the number.
pub proof fn lemma_digits_of(n: nat)
    ensures
        is_number(digits_of(n)),
        decimal_value(digits_of(n)) == n,
    decreases n,
{
    let d = digits_of(n);
    if n < 10 {
        assert(d.drop_last() =~= Seq::<u8>::empty());
        assert(decimal_value(d.drop_last()) == 0);
    } else {
        lemma_digits_of(n / 10);
        assert(d.drop_last() =~= digits_of(n / 10));
    }
}

/// Grouping the channels of a row of pixels gives the pixels back.
pub proof fn lemma_channels_of(pixels: Seq<Pixel>)
    ensures
        channels_of(pixels).len() == 3 * pixels.len(),
        pixels_of(channels_of(pixels)) == pixels,
    decreases pixels.len(),
{
    if pixels.len() > 0 {
        let front = pixels.drop_last();
        lemma_channels_of(front);
        let c = channels_of(pixels);
        let back = pixels_of(c);
        assert forall|i: int| 0 <= i < pixels.len() implies back[i] == pixels[i] by {
            if i < front.len() {
                assert(pixels_of(channels_of(front))[i] == front[i]);
            }
        }
        assert(back =~= pixels);
    } else {
        assert(pixels_of(channels_of(pixels)) =~= pixels);
    }
}

/// Where `at` is the first position from `from` on that holds `b`, `find`
/// returns it.
pub proof fn lemma_find_at(s: Seq<u8>, from: int, to: int, b: u8, at: int)
    requires
        0 <= from <= at < to <= s.len(),
        s[at] == b,
        forall|k: int| from <= k < at ==> s[k] != b,
    ensures
        find(s, from, to, b) == at,
    decreases at - from,
{
    if from < at {
        lemma_find_at(s, from + 1, to, b, at);
    }
}

/// Decoding what `encode` wrote gives the image back: the same width and
/// height, and every channel of every pixel unchanged.
pub proof fn lemma_encode_decode_round_trip(width: usize, height: usize, pixels: Seq<Pixel>)
    requires
        pixels.len() == width * height,
    ensures
        parse_ppm(ppm_file(width as nat, height as nat, pixels)) == Some((width, height, pixels)),
{
    let dw = digits_of(width as nat);
    let dh = digits_of(height as nat);
    let dd = digits_of(MAX_COLOR as nat);
    let body = channels_of(pixels);
    let s = ppm_file(width as nat, height as nat, pixels);
    lemma_digits_of(width as nat);
    lemma_digits_of(height as nat);
    lemma_digits_of(MAX_COLOR as nat);
    lemma_channels_of(pixels);
    let len = s.len() as int;
    let e1 = 2int;
    let sp: int = 3int + dw.len();
    let e2: int = sp + 1 + dh.len();
    let e3: int = e2 + 1 + dd.len();
    assert(len == e3 + 1 + body.len());
    assert(s[0] == 80u8 && s[1] == 54u8 && s[2] == NEWLINE);
    assert(forall|k: int| 0 <= k < dw.len() ==> s[3 + k] == dw[k]);
    assert(s[sp] == SPACE);
    assert(forall|k: int| 0 <= k < dh.len() ==> s[sp + 1 + k] == dh[k]);
    assert(s[e2] == NEWLINE);
    assert(forall|k: int| 0 <= k < dd.len() ==> s[e2 + 1 + k] == dd[k]);
    assert(s[e3] == NEWLINE);
    assert(forall|k: int| 0 <= k < body.len() ==> s[e3 + 1 + k] == body[k]);
    lemma_find_at(s, 0, len, NEWLINE, e1);
    assert forall|k: int| e1 + 1 <= k < e2 implies s[k] != NEWLINE by {
        if k < sp {
            assert(is_digit(dw[k - 3]));
        } else if k > sp {
            assert(is_digit(dh[k - sp - 1]));
        }
    }
    lemma_find_at(s, e1 + 1, len, NEWLINE, e2);
    assert forall|k: int| e2 + 1 <= k < e3 implies s[k] != NEWLINE by {
        assert(is_digit(dd[k - e2 - 1]));
    }
    lemma_find_at(s, e2 + 1, len, NEWLINE, e3);
    assert forall|k: int| e1 + 1 <= k < sp implies s[k] != SPACE by {
        assert(is_digit(dw[k - 3]));
    }
    lemma_find_at(s, e1 + 1, e2, SPACE, sp);
    assert(s.subrange(e1 + 1, sp) =~= dw);
    assert(s.subrange(sp + 1, e2) =~= dh);
    assert(s.subrange(e2 + 1, e3) =~= dd);
    assert(s.subrange(e3 + 1, len) =~= body);
    assert(body.take((3 * (width * height)) as int) =~= body);
}

} // verus!
