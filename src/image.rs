//! The color-indexed pixel buffer and its strip-by-strip Sixel encoding.
use vstd::prelude::*;
use crate::decimal::{decimal, push_decimal};
use crate::rle::{
    push_run_length, run_length_encode, is_sixel_byte, lemma_encoding_by_runs, maximal_runs,
    expand_runs, flush_runs,
};

verus! {

/// The byte `#` that introduces a color's block.
pub const COLOR_MARK: u8 = 35;

/// The byte `$` that returns to the start of the strip after a color's block.
pub const STRIP_RETURN: u8 = 36;

/// The byte `-` that moves to the next strip.
pub const STRIP_NEXT: u8 = 45;

/// The printable base byte `?` that a column's six-bit mask is added to.
pub const SIXEL_BASE: u8 = 63;

/// An image of `width * height` color indices, stored row by row.
pub struct Sixel {
    width: usize,
    height: usize,
    buf: Vec<u16>,
}

/// The value of bit `i` in a column's mask.
pub open spec fn bit_weight(i: nat) -> nat
    decreases i,
{
    if i == 0 {
        1
    } else {
        2 * bit_weight((i - 1) as nat)
    }
}

proof fn lemma_bit_weights()
    ensures
        bit_weight(0) == 1,
        bit_weight(1) == 2,
        bit_weight(2) == 4,
        bit_weight(3) == 8,
        bit_weight(4) == 16,
        bit_weight(5) == 32,
        bit_weight(6) == 64,
{
    reveal_with_fuel(bit_weight, 7);
}

/// Position `(x, y)` of a `width`-wide image in its row-by-row buffer.
pub open spec fn cell_index(width: nat, x: int, y: int) -> int {
    x + y * width
}

proof fn lemma_cell_in_bounds(width: nat, height: nat, x: int, y: int)
    requires
        0 <= x < width,
        0 <= y < height,
    ensures
        0 <= y * width,
        0 <= cell_index(width, x, y) < width * height,
{
    assert(0 <= y * width && 0 <= x + y * width < width * height) by (nonlinear_arith)
        requires
            0 <= x < width,
            0 <= y < height,
    ;
}

proof fn lemma_cell_injective(width: nat, x: int, y: int, i: int, j: int)
    requires
        0 <= x < width,
        0 <= i < width,
        0 <= y,
        0 <= j,
        cell_index(width, x, y) == cell_index(width, i, j),
    ensures
        x == i,
        y == j,
{
    vstd::arithmetic::div_mod::lemma_fundamental_div_mod_converse(x + y * width, width as int, y, x);
    vstd::arithmetic::div_mod::lemma_fundamental_div_mod_converse(i + j * width, width as int, j, i);
}

impl Sixel {
    /// Number of columns.
    pub closed spec fn width(&self) -> nat {
        self.width as nat
    }

    /// Number of rows.
    pub closed spec fn height(&self) -> nat {
        self.height as nat
    }

    /// The color index at column `x` of row `y`.
    pub closed spec fn pixel(&self, x: int, y: int) -> u16 {
        self.buf@[cell_index(self.width as nat, x, y)]
    }

    /// The height is a positive multiple of six and the buffer holds exactly one index
    /// per cell.
    pub closed spec fn wf(&self) -> bool {
        &&& self.height > 0
        &&& self.height % 6 == 0
        &&& self.buf@.len() == self.width * self.height
    }

    /// Number of six-row strips.
    pub open spec fn strips(&self) -> nat {
        self.height() / 6
    }

    /// The pixels of strip `row`, row by row and left to right within a row.
    pub open spec fn strip_pixels(&self, row: nat) -> Seq<u16> {
        Seq::new(
            6 * self.width(),
            |k: int| self.pixel(k % self.width() as int, row * 6 + k / self.width() as int),
        )
    }

    /// The distinct color indices of strip `row`, in the order they are first met.
    pub open spec fn strip_colors(&self, row: nat) -> Seq<u16> {
        first_seen(self.strip_pixels(row))
    }

    /// Sum of the weights of the first `n` rows of strip `row` whose pixel at column `x`
    /// has index `color`.
    pub open spec fn column_mask(&self, color: u16, row: nat, x: nat, n: nat) -> nat
        decreases n,
    {
        if n == 0 {
            0
        } else {
            self.column_mask(color, row, x, (n - 1) as nat) + if self.pixel(
                x as int,
                row * 6 + n - 1,
            ) == color {
                bit_weight((n - 1) as nat)
            } else {
                0
            }
        }
    }

    /// The byte for column `x` of strip `row` and color `color`: `?` plus the mask of
    /// the six rows where that color stands.
    pub open spec fn column_byte(&self, color: u16, row: nat, x: nat) -> u8 {
        (SIXEL_BASE + self.column_mask(color, row, x, 6)) as u8
    }

    /// The column bytes of strip `row` for `color`, left to right.
    pub open spec fn column_bytes(&self, color: u16, row: nat) -> Seq<u8> {
        Seq::new(self.width(), |x: int| self.column_byte(color, row, x as nat))
    }

    /// `#<color>`, the compressed column bytes, then `$`.
    pub open spec fn color_block(&self, color: u16, row: nat) -> Seq<u8> {
        seq![COLOR_MARK] + decimal(color as nat) + run_length_encode(self.column_bytes(color, row))
            + seq![STRIP_RETURN]
    }

    /// The blocks of `colors` in strip `row`, one after another.
    pub open spec fn color_blocks(&self, row: nat, colors: Seq<u16>) -> Seq<u8>
        decreases colors.len(),
    {
        if colors.len() == 0 {
            Seq::empty()
        } else {
            self.color_blocks(row, colors.drop_last()) + self.color_block(colors.last(), row)
        }
    }

    /// Strip `row`: the block of each of its colors in discovery order, then `-`.
    pub open spec fn strip_block(&self, row: nat) -> Seq<u8> {
        self.color_blocks(row, self.strip_colors(row)) + seq![STRIP_NEXT]
    }

    /// The first `n` strips, one after another.
    pub open spec fn strips_encoding(&self, n: nat) -> Seq<u8>
        decreases n,
    {
        if n == 0 {
            Seq::empty()
        } else {
            self.strips_encoding((n - 1) as nat) + self.strip_block((n - 1) as nat)
        }
    }

    /// The whole image, every strip from top to bottom.
    pub open spec fn encoding(&self) -> Seq<u8> {
        self.strips_encoding(self.strips())
    }
}

impl Sixel {
    /// A `width` by `height` image with every pixel at color index 0, or `None` when
    /// `height` is not a positive multiple of six.
    pub fn new(width: usize, height: usize) -> (r: Option<Self>)
        requires
            height % 6 == 0 ==> width * height <= usize::MAX,
        ensures
            r is Some <==> height > 0 && height % 6 == 0,
            r matches Some(img) ==> {
                &&& img.wf()
                &&& img.width() == width
                &&& img.height() == height
                &&& forall|x: int, y: int|
                    0 <= x < width && 0 <= y < height ==> #[trigger] img.pixel(x, y) == 0
            },
    {
        if height > 0 && height % 6 == 0 {
            let n: usize = width * height;
            let mut buf: Vec<u16> = Vec::with_capacity(n);
            let mut i: usize = 0;
            while i < n
                invariant
                    i <= n,
                    n == width * height,
                    buf@.len() == i,
                    forall|k: int| 0 <= k < i ==> buf@[k] == 0,
                decreases n - i,
            {
                buf.push(0);
                i = i + 1;
            }
            let img = Sixel { width, height, buf };
            assert forall|x: int, y: int|
                0 <= x < width && 0 <= y < height implies #[trigger] img.pixel(x, y) == 0 by {
                lemma_cell_in_bounds(width as nat, height as nat, x, y);
            }
            Some(img)
        } else {
            None
        }
    }

    /// Sets pixel `(x, y)` to color index `color_code`, leaving every other pixel as it was.
    pub fn set(&mut self, x: usize, y: usize, color_code: u16)
        requires
            old(self).wf(),
            x < old(self).width(),
            y < old(self).height(),
        ensures
            final(self).wf(),
            final(self).width() == old(self).width(),
            final(self).height() == old(self).height(),
            final(self).pixel(x as int, y as int) == color_code,
            forall|i: int, j: int|
                0 <= i < old(self).width() && 0 <= j < old(self).height() && (i != x || j != y)
                    ==> #[trigger] final(self).pixel(i, j) == old(self).pixel(i, j),
    {
        proof {
            lemma_cell_in_bounds(self.width as nat, self.height as nat, x as int, y as int);
        }
        let len = self.buf.len();
        assert(y * self.width <= x + y * self.width < len);
        let k = x + y * self.width;
        self.buf.set(k, color_code);
        assert forall|i: int, j: int|
            0 <= i < old(self).width() && 0 <= j < old(self).height() && (i != x || j != y)
                implies #[trigger] self.pixel(i, j) == old(self).pixel(i, j) by {
            lemma_cell_in_bounds(self.width as nat, self.height as nat, i, j);
            if cell_index(self.width as nat, i, j) == k {
                lemma_cell_injective(self.width as nat, x as int, y as int, i, j);
            }
        }
    }

    /// The color index of pixel `(x, y)`.
    pub fn get(&self, x: usize, y: usize) -> (r: u16)
        requires
            self.wf(),
            x < self.width(),
            y < self.height(),
        ensures
            r == self.pixel(x as int, y as int),
    {
        proof {
            lemma_cell_in_bounds(self.width as nat, self.height as nat, x as int, y as int);
        }
        let len = self.buf.len();
        assert(y * self.width <= x + y * self.width < len);
        self.buf[x + y * self.width]
    }
}

impl Sixel {
    /// The distinct color indices of strip `row`, in the order a row-by-row,
    /// left-to-right scan first meets them.
    pub fn row_colors(&self, row: usize) -> (r: Vec<u16>)
        requires
            self.wf(),
            row < self.strips(),
        ensures
            r@ == self.strip_colors(row as nat),
    {
        let mut colors: Vec<u16> = Vec::new();
        let base_y = row * 6;
        let ghost w = self.width() as int;
        let ghost strip = self.strip_pixels(row as nat);
        let mut dy: usize = 0;
        while dy < 6
            invariant
                self.wf(),
                row < self.strips(),
                base_y == row * 6,
                w == self.width(),
                strip == self.strip_pixels(row as nat),
                dy <= 6,
                colors@ == first_seen(strip.take(dy * w)),
            decreases 6 - dy,
        {
            let y = base_y + dy;
            let mut x: usize = 0;
            while x < self.width
                invariant
                    self.wf(),
                    row < self.strips(),
                    base_y == row * 6,
                    w == self.width(),
                    strip == self.strip_pixels(row as nat),
                    dy < 6,
                    y == base_y + dy,
                    x <= w,
                    colors@ == first_seen(strip.take(dy * w + x)),
                decreases w - x,
            {
                let color = self.get(x, y);
                proof {
                    let k = dy * w + x;
                    assert(0 <= dy * w && k < 6 * w) by (nonlinear_arith)
                        requires
                            k == dy * w + x,
                            dy < 6,
                            x < w,
                    ;
                    vstd::arithmetic::div_mod::lemma_fundamental_div_mod_converse(
                        k,
                        w,
                        dy as int,
                        x as int,
                    );
                    assert(strip[k] == color);
                    assert(strip.take(k + 1).drop_last() =~= strip.take(k));
                }
                if !contains(&colors, color) {
                    colors.push(color);
                }
                x = x + 1;
            }
            proof {
                assert(dy * w + w == (dy + 1) * w) by (nonlinear_arith);
            }
            dy = dy + 1;
        }
        proof {
            assert(strip.take(6 * w) =~= strip);
        }
        colors
    }
}

impl Sixel {
    /// The byte for column `x` of strip `row` and color `color`.
    fn compute_column_byte(&self, color: u16, row: usize, x: usize) -> (r: u8)
        requires
            self.wf(),
            row < self.strips(),
            x < self.width(),
        ensures
            r == self.column_byte(color, row as nat, x as nat),
            is_sixel_byte(r),
    {
        let mut ch: u8 = SIXEL_BASE;
        let mut weight: u8 = 1;
        let mut i: usize = 0;
        while i < 6
            invariant
                self.wf(),
                row < self.strips(),
                x < self.width(),
                i <= 6,
                i < 6 ==> weight == bit_weight(i as nat),
                self.column_mask(color, row as nat, x as nat, i as nat) < bit_weight(i as nat),
                ch == SIXEL_BASE + self.column_mask(color, row as nat, x as nat, i as nat),
            decreases 6 - i,
        {
            proof {
                lemma_bit_weights();
            }
            if color == self.get(x, row * 6 + i) {
                ch = ch + weight;
            }
            if i < 5 {
                weight = weight * 2;
            }
            i = i + 1;
        }
        proof {
            lemma_bit_weights();
        }
        ch
    }

    /// Appends the encoding of every strip, top to bottom, to `output`. For each strip
    /// this is, for each of its colors in discovery order, `#<color>`, the compressed
    /// column bytes and `$`; then `-`. Nothing else is written: entering and leaving
    /// Sixel mode and defining colors are separate steps.
    pub fn print(&self, output: &mut Vec<u8>)
        requires
            self.wf(),
        ensures
            final(output)@ == old(output)@ + self.encoding(),
    {
        let ghost start = output@;
        let mut scratch: Vec<u8> = Vec::with_capacity(self.width);
        let strips = self.height / 6;
        let mut row: usize = 0;
        while row < strips
            invariant
                self.wf(),
                strips == self.strips(),
                row <= strips,
                start == old(output)@,
                output@ == start + self.strips_encoding(row as nat),
            decreases strips - row,
        {
            let colors = self.row_colors(row);
            let ghost strip_start = output@;
            let mut ci: usize = 0;
            while ci < colors.len()
                invariant
                    self.wf(),
                    row < self.strips(),
                    ci <= colors.len(),
                    colors@ == self.strip_colors(row as nat),
                    output@ == strip_start + self.color_blocks(row as nat, colors@.take(ci as int)),
                decreases colors.len() - ci,
            {
                let color = colors[ci];
                scratch.clear();
                let mut x: usize = 0;
                while x < self.width
                    invariant
                        self.wf(),
                        row < self.strips(),
                        x <= self.width(),
                        scratch@ == self.column_bytes(color, row as nat).take(x as int),
                    decreases self.width - x,
                {
                    let b = self.compute_column_byte(color, row, x);
                    scratch.push(b);
                    x = x + 1;
                    proof {
                        assert(scratch@ =~= self.column_bytes(color, row as nat).take(x as int));
                    }
                }
                let ghost before = output@;
                output.push(COLOR_MARK);
                push_decimal(output, color as u64);
                proof {
                    assert(scratch@ =~= self.column_bytes(color, row as nat));
                }
                push_run_length(output, &scratch);
                output.push(STRIP_RETURN);
                proof {
                    assert(output@ =~= before + self.color_block(color, row as nat));
                    assert(colors@.take(ci + 1).drop_last() =~= colors@.take(ci as int));
                }
                ci = ci + 1;
            }
            output.push(STRIP_NEXT);
            proof {
                assert(colors@.take(ci as int) =~= colors@);
                assert(output@ =~= start + self.strips_encoding((row + 1) as nat));
            }
            row = row + 1;
        }
    }
}

/// Whether `v` holds `c`.
fn contains(v: &Vec<u16>, c: u16) -> (r: bool)
    ensures
        r == v@.contains(c),
{
    let mut i: usize = 0;
    while i < v.len()
        invariant
            i <= v.len(),
            forall|k: int| 0 <= k < i ==> v@[k] != c,
        decreases v.len() - i,
    {
        if v[i] == c {
            return true;
        }
        i = i + 1;
    }
    false
}

/// The elements of `s` without repeats, each where it first occurs.
pub open spec fn first_seen(s: Seq<u16>) -> Seq<u16>
    decreases s.len(),
{
    if s.len() == 0 {
        Seq::empty()
    } else {
        let d = first_seen(s.drop_last());
        if d.contains(s.last()) {
            d
        } else {
            d.push(s.last())
        }
    }
}

proof fn lemma_column_mask_bound(img: &Sixel, color: u16, row: nat, x: nat, n: nat)
    ensures
        img.column_mask(color, row, x, n) < bit_weight(n),
    decreases n,
{
    if n > 0 {
        lemma_column_mask_bound(img, color, row, x, (n - 1) as nat);
    }
}

/// Each color's block in a strip is `#<color>`, then the flush of each maximal run of
/// its column bytes in turn, then `$`: runs of one or two bytes stay literal, longer
/// runs become a repeat token with their length.
pub proof fn lemma_color_block_by_runs(img: &Sixel, color: u16, row: nat) -> (runs: (
    Seq<u8>,
    Seq<nat>,
))
    ensures
        maximal_runs(runs.0, runs.1),
        expand_runs(runs.0, runs.1) == img.column_bytes(color, row),
        img.color_block(color, row) == seq![COLOR_MARK] + decimal(color as nat) + flush_runs(
            runs.0,
            runs.1,
        ) + seq![STRIP_RETURN],
        forall|i: int| 0 <= i < runs.0.len() ==> is_sixel_byte(#[trigger] runs.0[i]),
{
    let bytes = img.column_bytes(color, row);
    assert forall|i: int| 0 <= i < bytes.len() implies is_sixel_byte(#[trigger] bytes[i]) by {
        lemma_column_mask_bound(img, color, row, i as nat, 6);
        lemma_bit_weights();
    }
    lemma_encoding_by_runs(bytes)
}

/// Within strip `row`, the blocks come one per distinct color of the strip, in the
/// order a row-by-row, left-to-right scan first meets the colors, and the strip ends
/// with `-`.
pub proof fn lemma_strip_blocks_in_discovery_order(img: &Sixel, row: nat)
    ensures
        img.strip_block(row) == img.color_blocks(row, img.strip_colors(row)) + seq![STRIP_NEXT],
        img.strip_colors(row).no_duplicates(),
        forall|c: u16| #[trigger]
            img.strip_colors(row).contains(c) <==> img.strip_pixels(row).contains(c),
        forall|i: int, j: int, k: int|
            #![trigger img.strip_colors(row)[i], img.strip_colors(row)[j], img.strip_pixels(row)[k]]
            0 <= i < j < img.strip_colors(row).len() && 0 <= k < img.strip_pixels(row).len()
                && img.strip_pixels(row)[k] == img.strip_colors(row)[j] ==> img.strip_pixels(
                row,
            ).take(k).contains(img.strip_colors(row)[i]),
{
    lemma_first_seen(img.strip_pixels(row));
}

/// Two images with the same dimensions and the same pixels are encoded to the same
/// bytes: `print` depends on nothing else, so printing an unchanged image again, to any
/// sink, appends exactly the same bytes.
pub proof fn lemma_encoding_repeatable(a: &Sixel, b: &Sixel)
    requires
        a.wf(),
        b.wf(),
        a.width() == b.width(),
        a.height() == b.height(),
        forall|x: int, y: int|
            0 <= x < a.width() && 0 <= y < a.height() ==> #[trigger] a.pixel(x, y) == b.pixel(x, y),
    ensures
        a.encoding() == b.encoding(),
{
    let w = a.width as int;
    let h = a.height as int;
    assert forall|k: int| 0 <= k < a.buf@.len() implies a.buf@[k] == b.buf@[k] by {
        vstd::arithmetic::div_mod::lemma_fundamental_div_mod(k, w);
        let q = k / w;
        let r = k % w;
        assert(q < h) by (nonlinear_arith)
            requires
                k == w * q + r,
                0 <= r,
                k < w * h,
                w > 0,
        ;
        assert(0 <= q) by (nonlinear_arith)
            requires
                k == w * q + r,
                0 <= r < w,
                0 <= k,
        ;
        assert(r + q * w == k) by (nonlinear_arith)
            requires
                k == w * q + r,
        ;
        assert(a.pixel(r, q) == b.pixel(r, q));
    }
    assert(a.buf@ =~= b.buf@);
    lemma_strips_encoding_congruent(a, b, a.strips());
}

/// Spec functions of two images agree when their widths and buffers do.
proof fn lemma_strips_encoding_congruent(a: &Sixel, b: &Sixel, n: nat)
    requires
        a.width == b.width,
        a.buf@ == b.buf@,
    ensures
        a.strips_encoding(n) == b.strips_encoding(n),
    decreases n,
{
    if n > 0 {
        lemma_strips_encoding_congruent(a, b, (n - 1) as nat);
        let row = (n - 1) as nat;
        assert(a.strip_pixels(row) =~= b.strip_pixels(row));
        lemma_color_blocks_congruent(a, b, row, a.strip_colors(row));
    }
}

proof fn lemma_color_blocks_congruent(a: &Sixel, b: &Sixel, row: nat, colors: Seq<u16>)
    requires
        a.width == b.width,
        a.buf@ == b.buf@,
    ensures
        a.color_blocks(row, colors) == b.color_blocks(row, colors),
    decreases colors.len(),
{
    if colors.len() > 0 {
        lemma_color_blocks_congruent(a, b, row, colors.drop_last());
        let c = colors.last();
        assert forall|x: int| 0 <= x < a.width() implies #[trigger] a.column_byte(c, row, x as nat)
            == b.column_byte(c, row, x as nat) by {
            lemma_column_mask_congruent(a, b, c, row, x as nat, 6);
        }
        assert(a.column_bytes(c, row) =~= b.column_bytes(c, row));
    }
}

proof fn lemma_column_mask_congruent(a: &Sixel, b: &Sixel, color: u16, row: nat, x: nat, n: nat)
    requires
        a.width == b.width,
        a.buf@ == b.buf@,
    ensures
        a.column_mask(color, row, x, n) == b.column_mask(color, row, x, n),
    decreases n,
{
    if n > 0 {
        lemma_column_mask_congruent(a, b, color, row, x, (n - 1) as nat);
    }
}

/// Color discovery keeps each distinct element of `s` exactly once, and orders them by
/// first occurrence: every occurrence of a later color comes after some occurrence of
/// each earlier one.
pub proof fn lemma_first_seen(s: Seq<u16>)
    ensures
        first_seen(s).no_duplicates(),
        forall|c: u16| #[trigger] first_seen(s).contains(c) <==> s.contains(c),
        forall|i: int, j: int, k: int|
            #![trigger first_seen(s)[i], first_seen(s)[j], s[k]]
            0 <= i < j < first_seen(s).len() && 0 <= k < s.len() && s[k] == first_seen(s)[j]
                ==> s.take(k).contains(first_seen(s)[i]),
    decreases s.len(),
{
    if s.len() > 0 {
        let p = s.drop_last();
        let d = first_seen(p);
        let n = (s.len() - 1) as int;
        lemma_first_seen(p);
        assert forall|c: u16| #[trigger] first_seen(s).contains(c) <==> s.contains(c) by {
            if s.contains(c) {
                let k = choose|k: int| 0 <= k < s.len() && s[k] == c;
                if k < n {
                    assert(p[k] == c);
                    assert(p.contains(c));
                }
                if d.contains(c) {
                    let j = choose|j: int| 0 <= j < d.len() && d[j] == c;
                    assert(first_seen(s)[j] == c);
                } else {
                    assert(c == s.last());
                    assert(first_seen(s)[d.len() as int] == c);
                }
            }
            if first_seen(s).contains(c) {
                if d.contains(c) {
                    let k = choose|k: int| 0 <= k < p.len() && p[k] == c;
                    assert(s[k] == c);
                } else {
                    let j = choose|j: int| 0 <= j < first_seen(s).len() && first_seen(s)[j] == c;
                    if j < d.len() {
                        assert(d[j] == c);
                    }
                    assert(s[n] == c);
                }
            }
        }
        let f = first_seen(s);
        assert(f.no_duplicates()) by {
            if !d.contains(s.last()) {
                assert forall|i: int, j: int| 0 <= i < f.len() && 0 <= j < f.len() && i != j
                    implies f[i] != f[j] by {
                    if i < d.len() && j < d.len() {
                    } else if i < d.len() {
                        assert(d.contains(d[i]));
                    } else {
                        assert(d.contains(d[j]));
                    }
                }
            }
        }
        assert forall|i: int, j: int, k: int|
            #![trigger first_seen(s)[i], first_seen(s)[j], s[k]]
            0 <= i < j < first_seen(s).len() && 0 <= k < s.len() && s[k] == first_seen(s)[j]
                implies s.take(k).contains(first_seen(s)[i]) by {
            assert(d.contains(f[i])) by {
                assert(f[i] == d[i]);
            }
            assert(p.contains(f[i]));
            if j < d.len() {
                assert(f[j] == d[j]);
                if k < n {
                    assert(p[k] == d[j]);
                    assert(p.take(k).contains(d[i]));
                    let m = choose|m: int| 0 <= m < k && #[trigger] p.take(k)[m] == d[i];
                    assert(s.take(k)[m] == f[i]);
                } else {
                    assert(d.contains(d[j]));
                    assert(p.contains(d[j]));
                    let k2 = choose|k2: int| 0 <= k2 < p.len() && p[k2] == d[j];
                    assert(p.take(k2).contains(d[i]));
                    let m = choose|m: int| 0 <= m < k2 && #[trigger] p.take(k2)[m] == d[i];
                    assert(s.take(k)[m] == f[i]);
                }
            } else {
                assert(f[j] == s.last());
                assert(!d.contains(s.last()));
                if k < n {
                    assert(p[k] == s.last());
                    assert(p.contains(s.last()));
                }
                let m = choose|m: int| 0 <= m < p.len() && p[m] == f[i];
                assert(s.take(k)[m] == f[i]);
            }
        }
    } else {
        assert(first_seen(s).len() == 0);
    }
}

} // verus!
