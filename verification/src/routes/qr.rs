//! The arithmetic behind the rendering of a QR code: colours and the shape
//! of a dot.

use crate::qr_code::generator::{qr_dark, qr_size};
use crate::routes::drawing::Stage;
use crate::routes::pixels::{bytes_hold, canvas_pixels, canvas_size, places, Canvas};
use qrcodegen::QrCode;
use vstd::arithmetic::div_mod::{lemma_div_pos_is_pos, lemma_fundamental_div_mod};
use vstd::prelude::*;
use vstd::string::StringExecFns;
use vstd::utf8::encode_utf8;

verus! {

/// The point `(x, y)` lies no farther than `radius` from `(cx, cy)`.
pub open spec fn in_circle(x: int, y: int, cx: int, cy: int, radius: int) -> bool {
    (x - cx) * (x - cx) + (y - cy) * (y - cy) <= radius * radius
}

/// The point `(x, y)` belongs to the rounded shape of the rectangle whose
/// top left corner is `(rect_x, rect_y)`.
///
/// Each corner of the rectangle has a square of side `radius + 1`. A point
/// that lies in exactly one of the four squares belongs to the shape where
/// it lies within `radius` of that square's inner corner. Every other point
/// belongs to it.
pub open spec fn in_rounded_rect(
    x: int,
    y: int,
    rect_x: int,
    rect_y: int,
    rect_width: int,
    rect_height: int,
    radius: int,
) -> bool {
    let left = rect_x;
    let right = rect_x + rect_width - 1;
    let top = rect_y;
    let bottom = rect_y + rect_height - 1;
    let top_left = left <= x <= left + radius && top <= y <= top + radius;
    let top_right = right - radius <= x <= right && top <= y <= top + radius;
    let bottom_left = left <= x <= left + radius && bottom - radius <= y <= bottom;
    let bottom_right = right - radius <= x <= right && bottom - radius <= y <= bottom;
    if top_left && !top_right && !bottom_left && !bottom_right {
        in_circle(x, y, left + radius, top + radius, radius)
    } else if top_right && !top_left && !bottom_left && !bottom_right {
        in_circle(x, y, right - radius, top + radius, radius)
    } else if bottom_left && !top_left && !top_right && !bottom_right {
        in_circle(x, y, left + radius, bottom - radius, radius)
    } else if bottom_right && !top_left && !top_right && !bottom_left {
        in_circle(x, y, right - radius, bottom - radius, radius)
    } else {
        true
    }
}

/// The value of a hexadecimal digit, in either case.
pub open spec fn hex_digit(byte: u8) -> Option<u8> {
    if 0x30 <= byte <= 0x39 {
        Some((byte - 0x30) as u8)
    } else if 0x61 <= byte <= 0x66 {
        Some((byte - 0x61 + 10) as u8)
    } else if 0x41 <= byte <= 0x46 {
        Some((byte - 0x41 + 10) as u8)
    } else {
        None
    }
}

/// The number that two bytes spell in hexadecimal: two digits, or a plus
/// sign and one digit.
pub open spec fn hex_pair(first: u8, second: u8) -> Option<u8> {
    if first == 0x2b {
        hex_digit(second)
    } else {
        match (hex_digit(first), hex_digit(second)) {
            (Some(high), Some(low)) => Some((16 * high + low) as u8),
            _ => None,
        }
    }
}

/// The text without the `#` signs that it begins with.
pub open spec fn without_hashes(text: Seq<u8>) -> Seq<u8>
    decreases text.len(),
{
    if text.len() > 0 && text[0] == 0x23 {
        without_hashes(text.drop_first())
    } else {
        text
    }
}

/// The colour that a text names, as red, green, blue and opacity.
///
/// Six bytes after the leading `#` signs are three numbers in hexadecimal:
/// red, green and blue, fully opaque. They name no colour where one of the
/// three is not a number. A text of any other length names white.
pub open spec fn color_of(text: Seq<u8>) -> Option<[u8; 4]> {
    let digits = without_hashes(text);
    if digits.len() == 6 {
        match (
            hex_pair(digits[0], digits[1]),
            hex_pair(digits[2], digits[3]),
            hex_pair(digits[4], digits[5]),
        ) {
            (Some(r), Some(g), Some(b)) => Some([r, g, b, 255u8]),
            _ => None,
        }
    } else {
        Some([255u8, 255u8, 255u8, 255u8])
    }
}

fn squares_within(dx: i128, dy: i128, radius: i128) -> (within: bool)
    requires
        -0x2_0000_0000 <= dx <= 0x2_0000_0000,
        -0x2_0000_0000 <= dy <= 0x2_0000_0000,
        0 <= radius <= 0xffff_ffff,
    ensures
        within == (dx * dx + dy * dy <= radius * radius),
{
    assert(0 <= dx * dx <= 0x2_0000_0000 * 0x2_0000_0000) by (nonlinear_arith)
        requires
            -0x2_0000_0000 <= dx <= 0x2_0000_0000,
    ;
    assert(0 <= dy * dy <= 0x2_0000_0000 * 0x2_0000_0000) by (nonlinear_arith)
        requires
            -0x2_0000_0000 <= dy <= 0x2_0000_0000,
    ;
    assert(0 <= radius * radius <= 0xffff_ffff * 0xffff_ffff) by (nonlinear_arith)
        requires
            0 <= radius <= 0xffff_ffff,
    ;
    dx * dx + dy * dy <= radius * radius
}

/// Whether a pixel lies within a circle with the given centre and radius.
pub fn is_in_circle(x: u32, y: u32, center: (u32, u32), radius: u32) -> (inside: bool)
    ensures
        inside == in_circle(x as int, y as int, center.0 as int, center.1 as int, radius as int),
{
    let dx: i128 = x as i128 - center.0 as i128;
    let dy: i128 = y as i128 - center.1 as i128;
    squares_within(dx, dy, radius as i128)
}

/// Whether a pixel belongs to the rounded shape of a rectangle.
pub fn is_in_rounded_rect(
    x: u32,
    y: u32,
    rect_x: u32,
    rect_y: u32,
    rect_width: u32,
    rect_height: u32,
    radius: u32,
) -> (inside: bool)
    ensures
        inside == in_rounded_rect(
            x as int,
            y as int,
            rect_x as int,
            rect_y as int,
            rect_width as int,
            rect_height as int,
            radius as int,
        ),
{
    let px: i128 = x as i128;
    let py: i128 = y as i128;
    let r: i128 = radius as i128;
    let left: i128 = rect_x as i128;
    let right: i128 = rect_x as i128 + rect_width as i128 - 1;
    let top: i128 = rect_y as i128;
    let bottom: i128 = rect_y as i128 + rect_height as i128 - 1;
    let top_left: bool = px >= left && px <= left + r && py >= top && py <= top + r;
    let top_right: bool = px >= right - r && px <= right && py >= top && py <= top + r;
    let bottom_left: bool = px >= left && px <= left + r && py >= bottom - r && py <= bottom;
    let bottom_right: bool = px >= right - r && px <= right && py >= bottom - r && py <= bottom;
    if top_left && !top_right && !bottom_left && !bottom_right {
        squares_within(px - (left + r), py - (top + r), r)
    } else if top_right && !top_left && !bottom_left && !bottom_right {
        squares_within(px - (right - r), py - (top + r), r)
    } else if bottom_left && !top_left && !top_right && !bottom_right {
        squares_within(px - (left + r), py - (bottom - r), r)
    } else if bottom_right && !top_left && !top_right && !bottom_left {
        squares_within(px - (right - r), py - (bottom - r), r)
    } else {
        true
    }
}

fn parse_hex_digit(byte: u8) -> (value: Option<u8>)
    ensures
        value == hex_digit(byte),
{
    if 0x30 <= byte && byte <= 0x39 {
        Some(byte - 0x30)
    } else if 0x61 <= byte && byte <= 0x66 {
        Some(byte - 0x61 + 10)
    } else if 0x41 <= byte && byte <= 0x46 {
        Some(byte - 0x41 + 10)
    } else {
        None
    }
}

fn parse_hex_pair(first: u8, second: u8) -> (value: Option<u8>)
    ensures
        value == hex_pair(first, second),
{
    if first == 0x2b {
        parse_hex_digit(second)
    } else {
        match (parse_hex_digit(first), parse_hex_digit(second)) {
            (Some(high), Some(low)) => Some(16 * high + low),
            _ => None,
        }
    }
}

/// Reads a colour such as `#1A2B3C`. `None` where the text names no colour.
pub fn parse_color(hex: &str) -> (color: Option<[u8; 4]>)
    ensures
        color == color_of(encode_utf8(hex@)),
{
    let bytes = hex.as_bytes();
    let total: usize = bytes.len();
    let mut start: usize = 0;
    assert(bytes@.skip(0) =~= bytes@);
    while start < total && bytes[start] == 0x23
        invariant
            start <= total,
            total == bytes@.len(),
            without_hashes(bytes@) == without_hashes(bytes@.skip(start as int)),
        decreases total - start,
    {
        assert(bytes@.skip(start as int).drop_first() =~= bytes@.skip(start + 1));
        start = start + 1;
    }
    let ghost digits = bytes@.skip(start as int);
    assert(without_hashes(digits) == digits);
    if total - start == 6 {
        let red = parse_hex_pair(bytes[start], bytes[start + 1]);
        let green = parse_hex_pair(bytes[start + 2], bytes[start + 3]);
        let blue = parse_hex_pair(bytes[start + 4], bytes[start + 5]);
        match (red, green, blue) {
            (Some(r), Some(g), Some(b)) => Some([r, g, b, 255u8]),
            _ => None,
        }
    } else {
        Some([255u8, 255u8, 255u8, 255u8])
    }
}

/// The colour that a request names, or `default` where it names none.
pub open spec fn chosen_color(text: Option<String>, default: [u8; 4]) -> Option<[u8; 4]> {
    match text {
        Some(text) => color_of(encode_utf8(text@)),
        None => Some(default),
    }
}

/// The colour of one pixel of the picture of a QR code.
///
/// The code is drawn `border` pixels from the left and from the top, each
/// module as a square of `scale` pixels a side. A pixel of a dark module has
/// the colour `dot`. Every other pixel has the colour `background`.
pub open spec fn pixel_color(
    qr: QrCode,
    scale: int,
    border: int,
    dot: [u8; 4],
    background: [u8; 4],
    place: (int, int),
) -> [u8; 4] {
    if scale > 0 && 0 <= place.0 - border < qr_size(qr) * scale && 0 <= place.1 - border < qr_size(
        qr,
    ) * scale && qr_dark(qr).contains(((place.0 - border) / scale, (place.1 - border) / scale)) {
        dot
    } else {
        background
    }
}

/// The number of pixels that a module is wide in a picture that was asked to
/// be `size` pixels wide: as many as fit whole.
pub open spec fn module_scale(qr: QrCode, size: int) -> int {
    size / qr_size(qr)
}

/// The width and the height of the picture of a QR code: the modules and a
/// border on either side.
pub open spec fn picture_side(qr: QrCode, size: int, border: int) -> int {
    qr_size(qr) * module_scale(qr, size) + 2 * border
}

/// The picture of a QR code.
pub open spec fn picture(qr: QrCode, size: int, border: int, dot: [u8; 4], background: [u8; 4]) -> Map<
    (int, int),
    [u8; 4],
> {
    Map::new(
        |place: (int, int)|
            places(picture_side(qr, size, border), picture_side(qr, size, border)).contains(place),
        |place: (int, int)|
            pixel_color(qr, module_scale(qr, size), border, dot, background, place),
    )
}

/// The picture can be made: the border is not negative, the side of the
/// picture fits in an `i32`, and its bytes can be counted in a `usize`.
pub open spec fn picture_fits(qr: QrCode, size: int, border: int) -> bool {
    &&& 0 <= border
    &&& picture_side(qr, size, border) <= i32::MAX
    &&& 4 * picture_side(qr, size, border) * picture_side(qr, size, border) <= usize::MAX
}

/// The picture of a QR code: a square of `side` by `side` pixels, as its
/// bytes, four to a pixel (red, green, blue, opacity), row after row from
/// the top and each row from the left.
#[derive(Debug, Clone, PartialEq, Eq)]
pub struct Picture {
    /// The width and the height, in pixels.
    pub side: u32,
    /// The channels of the pixels.
    pub bytes: Vec<u8>,
}

/// Draws the picture of a QR code: every module as a square of as many
/// pixels as fit whole into `size`, inside a border of `border` pixels, in
/// the colours that the request names, or black on white. The radius is
/// taken and not used: every module is drawn as a full square.
#[verifier::loop_isolation(false)]
pub fn generate_image(
    qr: &QrCode,
    background_color: &Option<String>,
    dot_color: &Option<String>,
    size: u32,
    border: i32,
    _border_radius: i32,
) -> (image: Picture)
    requires
        picture_fits(*qr, size as int, border as int),
        chosen_color(*background_color, [255u8, 255u8, 255u8, 255u8]) is Some,
        chosen_color(*dot_color, [0u8, 0u8, 0u8, 255u8]) is Some,
    ensures
        image.side == picture_side(*qr, size as int, border as int),
        bytes_hold(
            image.bytes@,
            image.side as int,
            image.side as int,
            picture(
                *qr,
                size as int,
                border as int,
                chosen_color(*dot_color, [0u8, 0u8, 0u8, 255u8])->Some_0,
                chosen_color(*background_color, [255u8, 255u8, 255u8, 255u8])->Some_0,
            ),
        ),
{
    let background: [u8; 4] = match choose_color(background_color, [255u8, 255u8, 255u8, 255u8]) {
        Some(color) => color,
        None => [255u8, 255u8, 255u8, 255u8],
    };
    let dot: [u8; 4] = match choose_color(dot_color, [0u8, 0u8, 0u8, 255u8]) {
        Some(color) => color,
        None => [0u8, 0u8, 0u8, 255u8],
    };
    let n: u32 = qr.size() as u32;
    let scale: u32 = size / n;
    let margin: u32 = border as u32;
    let ghost stage = Stage { qr: *qr, scale: scale as int, border: border as int, dot, background };
    proof {
        stage.lemma_side(size as int);
    }
    let side: u32 = n * scale + 2 * margin;
    let mut canvas = Canvas::new(side, side);
    proof {
        stage.lemma_fill_starts();
    }
    let mut row: u32 = 0;
    while row < side
        invariant
            row <= side,
            canvas_size(canvas) == (side as int, side as int),
            canvas_pixels(canvas) == stage.filled(row as int, 0),
        decreases side - row,
    {
        let mut column: u32 = 0;
        while column < side
            invariant
                column <= side,
                canvas_size(canvas) == (side as int, side as int),
                canvas_pixels(canvas) == stage.filled(row as int, column as int),
            decreases side - column,
        {
            proof {
                stage.lemma_fill_pixel(row as int, column as int);
            }
            canvas.put_pixel(column, row, background);
            column = column + 1;
        }
        proof {
            stage.lemma_fill_row_ends(row as int);
        }
        row = row + 1;
    }
    proof {
        stage.lemma_fill_ends();
    }
    let mut y: u32 = 0;
    while y < n
        invariant
            y <= n,
            canvas_size(canvas) == (side as int, side as int),
            canvas_pixels(canvas) == stage.drawn(y as int, 0, 0, 0),
        decreases n - y,
    {
        let mut x: u32 = 0;
        while x < n
            invariant
                x <= n,
                canvas_size(canvas) == (side as int, side as int),
                canvas_pixels(canvas) == stage.drawn(y as int, x as int, 0, 0),
            decreases n - x,
        {
            let color: [u8; 4] = if qr.get_module(x as i32, y as i32) {
                dot
            } else {
                background
            };
            let mut dy: u32 = 0;
            while dy < scale
                invariant
                    dy <= scale,
                    canvas_size(canvas) == (side as int, side as int),
                    canvas_pixels(canvas) == stage.drawn(y as int, x as int, dy as int, 0),
                decreases scale - dy,
            {
                let mut dx: u32 = 0;
                while dx < scale
                    invariant
                        dx <= scale,
                        canvas_size(canvas) == (side as int, side as int),
                        canvas_pixels(canvas) == stage.drawn(
                            y as int,
                            x as int,
                            dy as int,
                            dx as int,
                        ),
                    decreases scale - dx,
                {
                    proof {
                        stage.lemma_draw_pixel(y as int, x as int, dy as int, dx as int);
                    }
                    let px: u32 = x * scale + dx + margin;
                    let py: u32 = y * scale + dy + margin;
                    canvas.put_pixel(px, py, color);
                    dx = dx + 1;
                }
                proof {
                    stage.lemma_draw_next(y as int, x as int, dy as int);
                }
                dy = dy + 1;
            }
            proof {
                stage.lemma_draw_next(y as int, x as int, 0);
            }
            x = x + 1;
        }
        proof {
            stage.lemma_draw_next(y as int, 0, 0);
        }
        y = y + 1;
    }
    proof {
        stage.lemma_draw_ends(size as int);
    }
    Picture { side, bytes: canvas.into_raw() }
}

/// The colour that a request names, or `default` where it names none;
/// `None` where the text it gives names no colour.
pub fn choose_color(text: &Option<String>, default: [u8; 4]) -> (color: Option<[u8; 4]>)
    ensures
        color == chosen_color(*text, default),
{
    match text {
        Some(text) => parse_color(text.as_str()),
        None => Some(default),
    }
}

/// Draws the picture of a QR code where it can be drawn: `None` where a
/// colour of the request names no colour, and where the picture does not
/// fit.
pub fn try_generate_image(
    qr: &QrCode,
    background_color: &Option<String>,
    dot_color: &Option<String>,
    size: u32,
    border: i32,
    border_radius: i32,
) -> (image: Option<Picture>)
    ensures
        image is Some <==> {
            &&& picture_fits(*qr, size as int, border as int)
            &&& chosen_color(*background_color, [255u8, 255u8, 255u8, 255u8]) is Some
            &&& chosen_color(*dot_color, [0u8, 0u8, 0u8, 255u8]) is Some
        },
        image matches Some(image) ==> {
            &&& image.side == picture_side(*qr, size as int, border as int)
            &&& bytes_hold(
                image.bytes@,
                image.side as int,
                image.side as int,
                picture(
                    *qr,
                    size as int,
                    border as int,
                    chosen_color(*dot_color, [0u8, 0u8, 0u8, 255u8])->Some_0,
                    chosen_color(*background_color, [255u8, 255u8, 255u8, 255u8])->Some_0,
                ),
            )
        },
{
    if choose_color(background_color, [255u8, 255u8, 255u8, 255u8]).is_none() {
        return None;
    }
    if choose_color(dot_color, [0u8, 0u8, 0u8, 255u8]).is_none() {
        return None;
    }
    if border < 0 {
        return None;
    }
    let n: u64 = qr.size() as u64;
    let scale: u64 = size as u64 / n;
    proof {
        lemma_fundamental_div_mod(size as int, n as int);
        lemma_div_pos_is_pos(size as int, n as int);
        assert(0 <= n * scale) by (nonlinear_arith)
            requires
                0 <= n,
                0 <= scale,
        ;
    }
    let side: u64 = n * scale + 2 * (border as u64);
    if side > i32::MAX as u64 {
        return None;
    }
    assert(4 * side * side <= 4 * 0x7fff_ffff * 0x7fff_ffff) by (nonlinear_arith)
        requires
            0 <= side <= 0x7fff_ffff,
    ;
    if 4 * side * side > usize::MAX as u64 {
        return None;
    }
    Some(generate_image(qr, background_color, dot_color, size, border, border_radius))
}

/// An image with the rounded shape of a rectangle painted onto it: the
/// pixels of the shape have the colour `color`, the others are as they were.
pub open spec fn with_rounded_rect(
    before: Map<(int, int), [u8; 4]>,
    x: int,
    y: int,
    width: int,
    height: int,
    radius: int,
    color: [u8; 4],
) -> Map<(int, int), [u8; 4]> {
    painting(before, x, y, width, height, radius, color, x + width, y)
}

/// An image while the rounded shape of a rectangle is painted onto it,
/// column by column: the painting has come to the row `j` of the column
/// `i`.
pub open spec fn painting(
    before: Map<(int, int), [u8; 4]>,
    x: int,
    y: int,
    width: int,
    height: int,
    radius: int,
    color: [u8; 4],
    i: int,
    j: int,
) -> Map<(int, int), [u8; 4]> {
    Map::new(
        |place: (int, int)| before.dom().contains(place),
        |place: (int, int)|
            if x <= place.0 < x + width && y <= place.1 < y + height && (place.0 < i || (place.0
                == i && place.1 < j)) && in_rounded_rect(
                place.0,
                place.1,
                x,
                y,
                width,
                height,
                radius,
            ) {
                color
            } else {
                before[place]
            },
    )
}

/// Paints the rounded shape of a rectangle onto an image.
#[verifier::loop_isolation(false)]
fn _draw_gliched_rect(
    image: &mut Canvas,
    x: u32,
    y: u32,
    width: u32,
    height: u32,
    radius: u32,
    color: [u8; 4],
)
    requires
        x + width <= u32::MAX,
        y + height <= u32::MAX,
        forall|i: int, j: int|
            x <= i < x + width && y <= j < y + height && in_rounded_rect(
                i,
                j,
                x as int,
                y as int,
                width as int,
                height as int,
                radius as int,
            ) ==> canvas_pixels(*old(image)).dom().contains((i, j)),
    ensures
        canvas_size(*final(image)) == canvas_size(*old(image)),
        canvas_pixels(*final(image)) == with_rounded_rect(
            canvas_pixels(*old(image)),
            x as int,
            y as int,
            width as int,
            height as int,
            radius as int,
            color,
        ),
{
    let ghost before = canvas_pixels(*image);
    let ghost stage = |i: int, j: int|
        painting(before, x as int, y as int, width as int, height as int, radius as int, color, i, j);
    let mut i: u32 = x;
    while i < x + width
        invariant
            x <= i <= x + width,
            canvas_size(*image) == canvas_size(*old(image)),
            canvas_pixels(*image) == stage(i as int, y as int),
        decreases x + width - i,
    {
        let mut j: u32 = y;
        while j < y + height
            invariant
                i < x + width,
                y <= j <= y + height,
                canvas_size(*image) == canvas_size(*old(image)),
                canvas_pixels(*image) == stage(i as int, j as int),
            decreases y + height - j,
        {
            if is_in_rounded_rect(i, j, x, y, width, height, radius) {
                image.put_pixel(i, j, color);
            }
            j = j + 1;
        }
        i = i + 1;
    }
}

/// The two characters that show one module in a text: a dark module as
/// two full blocks, a light one as two spaces.
pub open spec fn module_text(dark: bool) -> Seq<char> {
    if dark {
        "██"@
    } else {
        "  "@
    }
}

/// The characters of the row `y` of a QR code from the column `from` up to
/// the column `to`.
pub open spec fn row_text(qr: QrCode, y: int, from: int, to: int) -> Seq<char>
    decreases to - from,
{
    if to <= from {
        Seq::empty()
    } else {
        row_text(qr, y, from, to - 1) + module_text(qr_dark(qr).contains((to - 1, y)))
    }
}

/// The lines of the rows of a QR code from the row `from` up to the row
/// `to`, each with a quiet zone of four modules to its left and right.
pub open spec fn rows_text(qr: QrCode, from: int, to: int) -> Seq<char>
    decreases to - from,
{
    if to <= from {
        Seq::empty()
    } else {
        rows_text(qr, from, to - 1) + row_text(qr, to - 1, -4, qr_size(qr) + 4) + "\n"@
    }
}

/// A QR code as a text: its rows as lines, with a quiet zone of four
/// modules on every side, and an empty line at the end.
pub open spec fn qr_text(qr: QrCode) -> Seq<char> {
    rows_text(qr, -4, qr_size(qr) + 4) + "\n"@
}

/// Writes a QR code as a text that shows it on a console.
#[verifier::loop_isolation(false)]
pub fn print_qr(qr: &QrCode) -> (text: String)
    ensures
        text@ == qr_text(*qr),
{
    let border: i32 = 4;
    let n: i32 = qr.size();
    let mut text = String::new();
    let mut y: i32 = -border;
    while y < n + border
        invariant
            -4 <= y <= n + 4,
            text@ == rows_text(*qr, -4, y as int),
        decreases n + border - y,
    {
        let ghost lines = text@;
        let mut x: i32 = -border;
        while x < n + border
            invariant
                -4 <= x <= n + 4,
                text@ == lines + row_text(*qr, y as int, -4, x as int),
            decreases n + border - x,
        {
            if qr.get_module(x, y) {
                text.append("██");
            } else {
                text.append("  ");
            }
            x = x + 1;
        }
        text.append("\n");
        y = y + 1;
    }
    text.append("\n");
    text
}

/// How a request is to be rendered.
#[derive(Debug, Clone, Copy, PartialEq, Eq)]
pub struct RenderOptions {
    /// The width asked for, in pixels.
    pub size: u32,
    /// The border around the code.
    pub border: i32,
    /// The radius of the rounded corners.
    pub border_radius: i32,
    /// Whether the answer is an SVG document; a PNG image otherwise.
    pub svg: bool,
}

impl RenderOptions {
    /// What a request asks for, with what it leaves open filled in: 256
    /// pixels, a border of 4, square corners, a PNG image.
    pub fn from_request(
        size: Option<u32>,
        border: Option<u32>,
        border_radius: Option<u32>,
        format: Option<&str>,
    ) -> (options: RenderOptions)
        ensures
            options.size == if size is Some {
                size->Some_0
            } else {
                256u32
            },
            options.border == (if border is Some {
                border->Some_0
            } else {
                4u32
            }) as i32,
            options.border_radius == (if border_radius is Some {
                border_radius->Some_0
            } else {
                0u32
            }) as i32,
            options.svg == (format matches Some(name) && name@ == "svg"@),
    {
        let size: u32 = match size {
            Some(size) => size,
            None => 256,
        };
        let border: u32 = match border {
            Some(border) => border,
            None => 4,
        };
        let border_radius: u32 = match border_radius {
            Some(radius) => radius,
            None => 0,
        };
        let svg: bool = match format {
            Some(name) => name.to_owned() == "svg".to_owned(),
            None => false,
        };
        RenderOptions {
            size,
            border: #[verifier::truncate] (border as i32),
            border_radius: #[verifier::truncate] (border_radius as i32),
            svg,
        }
    }
}

} // verus!
