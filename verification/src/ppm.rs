//! The finished image as a plain-text pixmap.
//!
//! The text opens with the magic `P3`, the image's width and height and the
//! largest channel value, 255.  One line per pixel follows, in the order of
//! the buffer: red, green and blue in decimal, a space between them.
use vstd::prelude::*;

verus! {

/// The largest value of a colour channel.
pub const MAX_CHANNEL: u8 = 255;

/// The letter `P`.
pub const LETTER_P: u8 = 80;

/// The digit `0`; the other digits follow it in order.
pub const DIGIT_0: u8 = 48;

/// The digit `2`.
pub const DIGIT_2: u8 = 50;

/// The digit `3`.
pub const DIGIT_3: u8 = 51;

/// The digit `5`.
pub const DIGIT_5: u8 = 53;

/// The space between two numbers.
pub const SPACE: u8 = 32;

/// The end of a line.
pub const NEWLINE: u8 = 10;

/// A brightness level as a channel value: levels below 0 become 0 and levels
/// above 255 become 255.
pub open spec fn spec_channel(level: i64) -> u8 {
    if level < 0 {
        0u8
    } else if level > 255 {
        255u8
    } else {
        level as u8
    }
}

/// Clamps a brightness level to what a channel can hold.
pub fn channel(level: i64) -> (r: u8)
    ensures
        r == spec_channel(level),
{
    if level < 0 {
        0
    } else if level > 255 {
        MAX_CHANNEL
    } else {
        level as u8
    }
}

/// The decimal digits of `n` as text, most significant first, without
/// leading zeros.
pub open spec fn digits(n: nat) -> Seq<u8>
    decreases n,
{
    if n < 10 {
        seq![(DIGIT_0 + n) as u8]
    } else {
        digits(n / 10).push((DIGIT_0 + n % 10) as u8)
    }
}

/// The number that a text of decimal digits stands for.
pub open spec fn number(text: Seq<u8>) -> nat
    decreases text.len(),
{
    if text.len() == 0 {
        0
    } else {
        (number(text.drop_last()) * 10 + (text.last() - DIGIT_0)) as nat
    }
}

/// The text of a number is made of digits only, starts with a zero only for
/// zero itself, and reads back as that number.
pub proof fn digits_read_back(n: nat)
    ensures
        digits(n).len() >= 1,
        forall|i: int| 0 <= i < digits(n).len() ==> DIGIT_0 <= #[trigger] digits(n)[i] <= DIGIT_0 + 9,
        n > 0 ==> digits(n)[0] != DIGIT_0,
        number(digits(n)) == n,
    decreases n,
{
    if n < 10 {
        assert(digits(n).drop_last() =~= Seq::<u8>::empty());
        assert(number(digits(n).drop_last()) == 0);
    } else {
        digits_read_back(n / 10);
        assert(digits(n).drop_last() =~= digits(n / 10));
    }
}

/// The opening of the pixmap: magic, width and height, largest value.
pub open spec fn header_text(width: nat, height: nat) -> Seq<u8> {
    seq![LETTER_P, DIGIT_3, NEWLINE] + digits(width) + seq![SPACE] + digits(height) + seq![
        NEWLINE,
        DIGIT_2,
        DIGIT_5,
        DIGIT_5,
        NEWLINE,
    ]
}

/// The line of one pixel.
pub open spec fn pixel_text(red: u8, green: u8, blue: u8) -> Seq<u8> {
    digits(red as nat) + seq![SPACE] + digits(green as nat) + seq![SPACE] + digits(blue as nat)
        + seq![NEWLINE]
}

/// The lines of the first `count` pixels of a buffer.
pub open spec fn body_text(pixels: Seq<u8>, count: nat) -> Seq<u8>
    decreases count,
{
    if count == 0 {
        Seq::<u8>::empty()
    } else {
        let at = 3 * (count - 1);
        body_text(pixels, (count - 1) as nat) + pixel_text(
            pixels[at],
            pixels[at + 1],
            pixels[at + 2],
        )
    }
}

/// The whole pixmap of a `width` by `height` image with the given buffer.
pub open spec fn pixmap_text(width: nat, height: nat, pixels: Seq<u8>) -> Seq<u8> {
    header_text(width, height) + body_text(pixels, pixels.len() / 3)
}

/// Appends the decimal text of `n`.
pub fn push_number(out: &mut Vec<u8>, n: usize)
    ensures
        final(out)@ == old(out)@ + digits(n as nat),
    decreases n,
{
    let ghost before = out@;
    if n >= 10 {
        push_number(out, n / 10);
    }
    let digit: u8 = (n % 10) as u8;
    out.push(DIGIT_0 + digit);
    proof {
        assert(out@ =~= before + digits(n as nat));
    }
}

/// Appends the opening of the pixmap.
pub fn push_header(out: &mut Vec<u8>, width: usize, height: usize)
    ensures
        final(out)@ == old(out)@ + header_text(width as nat, height as nat),
{
    let ghost before = out@;
    out.push(LETTER_P);
    out.push(DIGIT_3);
    out.push(NEWLINE);
    push_number(out, width);
    out.push(SPACE);
    push_number(out, height);
    out.push(NEWLINE);
    out.push(DIGIT_2);
    out.push(DIGIT_5);
    out.push(DIGIT_5);
    out.push(NEWLINE);
    proof {
        assert(out@ =~= before + header_text(width as nat, height as nat));
    }
}

/// Appends the line of one pixel.
pub fn push_pixel(out: &mut Vec<u8>, red: u8, green: u8, blue: u8)
    ensures
        final(out)@ == old(out)@ + pixel_text(red, green, blue),
{
    let ghost before = out@;
    push_number(out, red as usize);
    out.push(SPACE);
    push_number(out, green as usize);
    out.push(SPACE);
    push_number(out, blue as usize);
    out.push(NEWLINE);
    proof {
        assert(out@ =~= before + pixel_text(red, green, blue));
    }
}

/// Writes the pixmap of a `width` by `height` image whose pixels stand in
/// `pixels`, three bytes each.  There is no pixmap where the buffer's length
/// is not that of such an image.
pub fn encode(width: usize, height: usize, pixels: &[u8]) -> (r: Option<Vec<u8>>)
    ensures
        r is Some <==> pixels@.len() == width * height * 3,
        r is Some ==> r.unwrap()@ == pixmap_text(width as nat, height as nat, pixels@),
{
    let count: usize = pixels.len() / 3;
    if pixels.len() % 3 != 0 || !fills(width, height, count) {
        proof {
            if pixels@.len() == width * height * 3 {
                assert(pixels@.len() % 3 == 0 && pixels@.len() / 3 == width * height)
                    by (nonlinear_arith)
                    requires
                        pixels@.len() == width * height * 3,
                ;
            }
        }
        return None;
    }
    let mut out: Vec<u8> = Vec::new();
    push_header(&mut out, width, height);
    let ghost head = out@;
    let mut k: usize = 0;
    while k < count
        invariant
            k <= count,
            3 * count == pixels@.len() <= usize::MAX,
            head == header_text(width as nat, height as nat),
            out@ == head + body_text(pixels@, k as nat),
        decreases count - k,
    {
        let ghost before = out@;
        push_pixel(&mut out, pixels[3 * k], pixels[3 * k + 1], pixels[3 * k + 2]);
        k += 1;
        proof {
            assert(out@ =~= head + body_text(pixels@, k as nat));
        }
    }
    Some(out)
}

/// Whether `count` pixels fill a `width` by `height` image.
fn fills(width: usize, height: usize, count: usize) -> (r: bool)
    ensures
        r == (count == width * height),
{
    match width.checked_mul(height) {
        Some(area) => area == count,
        None => false,
    }
}

} // verus!
