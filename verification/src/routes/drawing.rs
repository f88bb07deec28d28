//! The stages that a picture goes through while it is drawn, and why each
//! step leads from one stage to the next.

use crate::qr_code::generator::{qr_dark, qr_size};
use crate::routes::pixels::{places, plain};
use crate::routes::qr::{module_scale, picture, picture_side, pixel_color};
use qrcodegen::QrCode;
use vstd::arithmetic::div_mod::{
    lemma_div_pos_is_pos, lemma_fundamental_div_mod, lemma_fundamental_div_mod_converse,
    lemma_mod_pos_bound,
};
use vstd::prelude::*;

verus! {

/// What stays the same while a picture is drawn: the code, the size of a
/// module, the border and the two colours.
pub struct Stage {
    /// The code that is drawn.
    pub qr: QrCode,
    /// The number of pixels along the side of a module.
    pub scale: int,
    /// The number of pixels between the code and each edge of the picture.
    pub border: int,
    /// The colour of a dark module.
    pub dot: [u8; 4],
    /// The colour of everything else.
    pub background: [u8; 4],
}

impl Stage {
    /// The width and the height of the picture.
    pub open spec fn side(self) -> int {
        qr_size(self.qr) * self.scale + 2 * self.border
    }

    /// The scale and the border are not negative, and the code has a size
    /// that a QR code can have.
    pub open spec fn sound(self) -> bool {
        &&& 21 <= qr_size(self.qr) <= 177
        &&& 0 <= self.scale
        &&& 0 <= self.border
    }

    /// The colour that the finished picture has at `place`.
    pub open spec fn color(self, place: (int, int)) -> [u8; 4] {
        pixel_color(self.qr, self.scale, self.border, self.dot, self.background, place)
    }

    /// The image while the background is filled in, row by row: the filling
    /// has come to the place `column` of the row `row`.
    pub open spec fn filled(self, row: int, column: int) -> Map<(int, int), [u8; 4]> {
        Map::new(
            |place: (int, int)| places(self.side(), self.side()).contains(place),
            |place: (int, int)|
                if place.1 < row || (place.1 == row && place.0 < column) {
                    self.background
                } else {
                    [0u8, 0u8, 0u8, 0u8]
                },
        )
    }

    /// The pixel at `place` has its final colour once the drawing has come
    /// to the pixel `(dx, dy)` of the module `(x, y)`: modules are drawn row
    /// by row, and the pixels within a module row by row.
    pub open spec fn reached(self, y: int, x: int, dy: int, dx: int, place: (int, int)) -> bool {
        let u = place.0 - self.border;
        let v = place.1 - self.border;
        &&& self.scale > 0
        &&& 0 <= u < qr_size(self.qr) * self.scale
        &&& 0 <= v < qr_size(self.qr) * self.scale
        &&& (v / self.scale < y || (v / self.scale == y && (u / self.scale < x || (u / self.scale
            == x && (v % self.scale < dy || (v % self.scale == dy && u % self.scale < dx))))))
    }

    /// The image while the modules are drawn onto the background: the
    /// drawing has come to the pixel `(dx, dy)` of the module `(x, y)`.
    pub open spec fn drawn(self, y: int, x: int, dy: int, dx: int) -> Map<(int, int), [u8; 4]> {
        Map::new(
            |place: (int, int)| places(self.side(), self.side()).contains(place),
            |place: (int, int)|
                if self.reached(y, x, dy, dx, place) {
                    self.color(place)
                } else {
                    self.background
                },
        )
    }

    /// The pixel `offset` of the module `index` along one axis: where it
    /// lies, and that this place belongs to no other pixel of any module.
    proof fn lemma_module_pixel(self, index: int, offset: int)
        requires
            0 <= index < qr_size(self.qr),
            0 <= offset < self.scale,
        ensures
            0 <= index * self.scale + offset < qr_size(self.qr) * self.scale,
            (index * self.scale + offset) / self.scale == index,
            (index * self.scale + offset) % self.scale == offset,
    {
        let n = qr_size(self.qr);
        let scale = self.scale;
        lemma_fundamental_div_mod_converse(index * scale + offset, scale, index, offset);
        assert(index * scale + offset < n * scale) by (nonlinear_arith)
            requires
                0 <= index < n,
                0 <= offset < scale,
        ;
        assert(0 <= index * scale) by (nonlinear_arith)
            requires
                0 <= index,
                0 < scale,
        ;
    }

    /// A place among the modules belongs to one module and to one pixel of
    /// it.
    proof fn lemma_place_in_module(self, u: int)
        requires
            self.scale > 0,
            0 <= u < qr_size(self.qr) * self.scale,
        ensures
            0 <= u / self.scale < qr_size(self.qr),
            0 <= u % self.scale < self.scale,
            u == (u / self.scale) * self.scale + u % self.scale,
    {
        let n = qr_size(self.qr);
        let scale = self.scale;
        lemma_fundamental_div_mod(u, scale);
        lemma_mod_pos_bound(u, scale);
        lemma_div_pos_is_pos(u, scale);
        assert(u / scale < n) by (nonlinear_arith)
            requires
                scale > 0,
                u == scale * (u / scale) + u % scale,
                0 <= u % scale,
                u < n * scale,
        ;
    }

    /// Where a place lies among the modules.
    proof fn lemma_place(self, place: (int, int))
        ensures
            self.scale > 0 && 0 <= place.0 - self.border < qr_size(self.qr) * self.scale ==> {
                &&& 0 <= (place.0 - self.border) / self.scale < qr_size(self.qr)
                &&& 0 <= (place.0 - self.border) % self.scale < self.scale
                &&& place.0 - self.border == ((place.0 - self.border) / self.scale) * self.scale
                    + (place.0 - self.border) % self.scale
            },
            self.scale > 0 && 0 <= place.1 - self.border < qr_size(self.qr) * self.scale ==> {
                &&& 0 <= (place.1 - self.border) / self.scale < qr_size(self.qr)
                &&& 0 <= (place.1 - self.border) % self.scale < self.scale
                &&& place.1 - self.border == ((place.1 - self.border) / self.scale) * self.scale
                    + (place.1 - self.border) % self.scale
            },
    {
        if self.scale > 0 && 0 <= place.0 - self.border < qr_size(self.qr) * self.scale {
            self.lemma_place_in_module(place.0 - self.border);
        }
        if self.scale > 0 && 0 <= place.1 - self.border < qr_size(self.qr) * self.scale {
            self.lemma_place_in_module(place.1 - self.border);
        }
    }

    /// The side of the picture of a code drawn to fill `size` pixels.
    pub proof fn lemma_side(self, size: int)
        requires
            self.sound(),
            0 <= size,
            self.scale == module_scale(self.qr, size),
        ensures
            self.side() == picture_side(self.qr, size, self.border),
            0 <= qr_size(self.qr) * self.scale <= size,
            0 <= self.side(),
            4 * self.side() <= 4 * self.side() * self.side(),
    {
        let n = qr_size(self.qr);
        let scale = self.scale;
        let side = self.side();
        lemma_fundamental_div_mod(size, n);
        lemma_div_pos_is_pos(size, n);
        lemma_mod_pos_bound(size, n);
        assert(0 <= n * scale) by (nonlinear_arith)
            requires
                0 <= n,
                0 <= scale,
        ;
        assert(4 * side <= 4 * side * side) by (nonlinear_arith)
            requires
                0 <= side,
        ;
    }

    /// A new image is the start of the filling.
    pub proof fn lemma_fill_starts(self)
        ensures
            plain(self.side(), self.side(), [0u8, 0u8, 0u8, 0u8]) == self.filled(0, 0),
    {
    }

    /// Filling one more place of a row.
    pub proof fn lemma_fill_pixel(self, row: int, column: int)
        requires
            0 <= row < self.side(),
            0 <= column < self.side(),
        ensures
            self.filled(row, column).dom().contains((column, row)),
            self.filled(row, column).insert((column, row), self.background) == self.filled(
                row,
                column + 1,
            ),
    {
        assert(self.filled(row, column).insert((column, row), self.background) =~= self.filled(
            row,
            column + 1,
        ));
    }

    /// The end of a row is the start of the next.
    pub proof fn lemma_fill_row_ends(self, row: int)
        ensures
            self.filled(row, self.side()) == self.filled(row + 1, 0),
    {
    }

    /// The filled background is the start of the drawing.
    pub proof fn lemma_fill_ends(self)
        ensures
            self.filled(self.side(), 0) == self.drawn(0, 0, 0, 0),
    {
        assert forall|place: (int, int)| !self.reached(0, 0, 0, 0, place) by {
            self.lemma_place(place);
        }
    }

    /// Drawing one more pixel of a module: the pixel lies in the image, and
    /// giving it the colour of its module leads to the next stage.
    pub proof fn lemma_draw_pixel(self, y: int, x: int, dy: int, dx: int)
        requires
            self.sound(),
            0 <= x < qr_size(self.qr),
            0 <= y < qr_size(self.qr),
            0 <= dx < self.scale,
            0 <= dy < self.scale,
        ensures
            0 <= x * self.scale + dx + self.border < self.side(),
            0 <= y * self.scale + dy + self.border < self.side(),
            0 <= x * self.scale,
            0 <= y * self.scale,
            self.drawn(y, x, dy, dx).insert(
                (x * self.scale + dx + self.border, y * self.scale + dy + self.border),
                if qr_dark(self.qr).contains((x, y)) {
                    self.dot
                } else {
                    self.background
                },
            ) == self.drawn(y, x, dy, dx + 1),
    {
        let here = (x * self.scale + dx + self.border, y * self.scale + dy + self.border);
        self.lemma_module_pixel(x, dx);
        self.lemma_module_pixel(y, dy);
        assert(0 <= x * self.scale && 0 <= y * self.scale) by (nonlinear_arith)
            requires
                0 <= x,
                0 <= y,
                0 < self.scale,
        ;
        assert forall|place: (int, int)|
            self.reached(y, x, dy, dx + 1, place) == (self.reached(y, x, dy, dx, place) || place
                == here) by {
            self.lemma_place(place);
        }
        assert(self.drawn(y, x, dy, dx).insert(
            here,
            if qr_dark(self.qr).contains((x, y)) {
                self.dot
            } else {
                self.background
            },
        ) =~= self.drawn(y, x, dy, dx + 1));
    }

    /// The end of a row of pixels is the start of the next row, the end of
    /// a module the start of the next module, and the end of a row of
    /// modules the start of the next row of modules.
    pub proof fn lemma_draw_next(self, y: int, x: int, dy: int)
        requires
            self.sound(),
        ensures
            self.drawn(y, x, dy, self.scale) == self.drawn(y, x, dy + 1, 0),
            self.drawn(y, x, self.scale, 0) == self.drawn(y, x + 1, 0, 0),
            self.drawn(y, qr_size(self.qr), 0, 0) == self.drawn(y + 1, 0, 0, 0),
    {
        assert forall|place: (int, int)|
            self.reached(y, x, dy, self.scale, place) == self.reached(y, x, dy + 1, 0, place) by {
            self.lemma_place(place);
        }
        assert forall|place: (int, int)|
            self.reached(y, x, self.scale, 0, place) == self.reached(y, x + 1, 0, 0, place) by {
            self.lemma_place(place);
        }
        assert forall|place: (int, int)|
            self.reached(y, qr_size(self.qr), 0, 0, place) == self.reached(y + 1, 0, 0, 0, place) by {
            self.lemma_place(place);
        }
    }

    /// When the last row of modules is drawn the picture is finished.
    pub proof fn lemma_draw_ends(self, size: int)
        requires
            self.sound(),
            0 <= size,
            self.scale == module_scale(self.qr, size),
        ensures
            self.drawn(qr_size(self.qr), 0, 0, 0) == picture(
                self.qr,
                size,
                self.border,
                self.dot,
                self.background,
            ),
    {
        self.lemma_side(size);
        assert forall|place: (int, int)|
            self.reached(qr_size(self.qr), 0, 0, 0, place) == (self.scale > 0 && 0 <= place.0
                - self.border < qr_size(self.qr) * self.scale && 0 <= place.1 - self.border
                < qr_size(self.qr) * self.scale) by {
            self.lemma_place(place);
        }
        assert(self.drawn(qr_size(self.qr), 0, 0, 0) =~= picture(
            self.qr,
            size,
            self.border,
            self.dot,
            self.background,
        ));
    }
}

} // verus!
