//! The character-grid frame buffer the draw pass paints into, and the
//! plain-text rendering of values.

use vstd::prelude::*;

use crate::layout::Rect;
use crate::value::Value;

verus! {

/// A rectangular grid of characters, row by row.
pub struct TextBuffer {
    width: u16,
    height: u16,
    rows: Vec<Vec<char>>,
}

impl View for TextBuffer {
    type V = Seq<Seq<char>>;

    closed spec fn view(&self) -> Seq<Seq<char>> {
        self.rows@.map_values(|r: Vec<char>| r@)
    }
}

impl TextBuffer {
    /// The grid's extent.
    pub closed spec fn spec_width(&self) -> int {
        self.width as int
    }

    /// The grid's row count.
    pub closed spec fn spec_height(&self) -> int {
        self.height as int
    }

    /// Every row has the grid's width.
    pub open spec fn wf(&self) -> bool {
        &&& self@.len() == self.spec_height()
        &&& forall|y: int| 0 <= y < self@.len() ==> (#[trigger] self@[y]).len() == self.spec_width()
    }

    /// The grid's width.
    pub fn width(&self) -> (r: u16)
        ensures
            r as int == self.spec_width(),
    {
        self.width
    }

    /// The grid's height.
    pub fn height(&self) -> (r: u16)
        ensures
            r as int == self.spec_height(),
    {
        self.height
    }

    /// A buffer of the given extent, filled with spaces.
    pub fn new(width: u16, height: u16) -> (r: TextBuffer)
        ensures
            r.wf(),
            r.spec_width() == width,
            r.spec_height() == height,
            r@ == spec_blank(width as int, height as int),
            forall|y: int, x: int|
                0 <= y < height && 0 <= x < width ==> #[trigger] r@[y][x] == ' ',
    {
        let mut rows: Vec<Vec<char>> = Vec::new();
        let mut y: u16 = 0;
        #[verifier::loop_isolation(false)]
        while y < height
            invariant
                0 <= y <= height,
                rows@.len() == y,
                forall|j: int|
                    0 <= j < y ==> (#[trigger] rows@[j])@ == Seq::new(
                        width as nat,
                        |x: int| ' ',
                    ),
            decreases height - y,
        {
            let mut row: Vec<char> = Vec::new();
            let mut x: u16 = 0;
            #[verifier::loop_isolation(false)]
            while x < width
                invariant
                    0 <= x <= width,
                    row@ == Seq::new(x as nat, |i: int| ' '),
                decreases width - x,
            {
                row.push(' ');
                proof {
                    assert(row@ =~= Seq::new(x as nat + 1, |i: int| ' '));
                }
                x = x + 1;
            }
            rows.push(row);
            y = y + 1;
        }
        let r = TextBuffer { width, height, rows };
        proof {
            assert forall|y: int| 0 <= y < height implies (#[trigger] r@[y]).len() == width by {}
            assert forall|y: int| 0 <= y < height implies r@[y] =~= spec_blank(
                width as int,
                height as int,
            )[y] by {}
            assert(r@ =~= spec_blank(width as int, height as int));
        }
        r
    }

    /// Overwrites one cell.
    pub fn set(&mut self, x: u16, y: u16, c: char)
        requires
            old(self).wf(),
            x < old(self).spec_width(),
            y < old(self).spec_height(),
        ensures
            final(self).wf(),
            final(self).spec_width() == old(self).spec_width(),
            final(self).spec_height() == old(self).spec_height(),
            final(self)@ == old(self)@.update(
                y as int,
                old(self)@[y as int].update(x as int, c),
            ),
    {
        proof {
            assert(self@[y as int] == self.rows@[y as int]@);
        }
        let row = &mut self.rows[y as usize];
        let cell = &mut row[x as usize];
        *cell = c;
        proof {
            assert forall|yy: int| 0 <= yy < self@.len() implies self@[yy] == (if yy == y as int {
                old(self)@[yy].update(x as int, c)
            } else {
                old(self)@[yy]
            }) by {
                assert(self@[yy] == self.rows@[yy]@);
            }
            assert(self@ =~= old(self)@.update(y as int, old(self)@[y as int].update(x as int, c)));
        }
    }

    /// The character at a cell.
    pub fn get(&self, x: u16, y: u16) -> (r: char)
        requires
            self.wf(),
            x < self.spec_width(),
            y < self.spec_height(),
        ensures
            r == self@[y as int][x as int],
    {
        proof {
            assert(self@[y as int] == self.rows@[y as int]@);
        }
        self.rows[y as usize][x as usize]
    }

    /// The row `y` after `text` is painted at column `x`, cut off at
    /// `limit` columns past `x` and at the row's end.
    pub open spec fn spec_painted_row(
        row: Seq<char>,
        x: int,
        text: Seq<char>,
        limit: int,
    ) -> Seq<char> {
        Seq::new(
            row.len(),
            |j: int|
                if x <= j < x + text.len() && j < x + limit {
                    text[j - x]
                } else {
                    row[j]
                },
        )
    }

    /// Paints `text` into the buffer left to right from the top-left
    /// corner of `area`, clipped to `area`'s width and to the grid; rows
    /// other than the area's top row keep their contents, as does every
    /// cell outside the clip.
    pub fn paint_text(&mut self, area: Rect, text: &Vec<char>)
        requires
            old(self).wf(),
        ensures
            final(self).wf(),
            final(self).spec_width() == old(self).spec_width(),
            final(self).spec_height() == old(self).spec_height(),
            final(self)@.len() == old(self)@.len(),
            forall|y: int|
                0 <= y < old(self)@.len() && y != area.y ==> final(self)@[y] == old(self)@[y],
            area.y < old(self)@.len() && area.height > 0 ==> final(self)@[area.y as int]
                == Self::spec_painted_row(
                old(self)@[area.y as int],
                area.x as int,
                text@,
                area.width as int,
            ),
            (area.y >= old(self)@.len() || area.height == 0) ==> final(self)@ == old(self)@,
            final(self)@ == spec_paint(old(self)@, area, text@),
    {
        if area.height == 0 || area.y >= self.height {
            proof {
                assert(final(self)@ =~= old(self)@);
            }
            return ;
        }
        proof {
            assert(spec_paint(old(self)@, area, text@) == old(self)@.update(
                area.y as int,
                Self::spec_painted_row(
                    old(self)@[area.y as int],
                    area.x as int,
                    text@,
                    area.width as int,
                ),
            ));
        }
        let y = area.y as usize;
        let n = text.len();
        let m: usize = if n < area.width as usize {
            n
        } else {
            area.width as usize
        };
        let mut i: usize = 0;
        #[verifier::loop_isolation(false)]
        while i < m
            invariant
                0 <= i <= m,
                self.width == old(self).width,
                self.height == old(self).height,
                self.wf(),
                self@.len() == old(self)@.len(),
                forall|yy: int| 0 <= yy < self@.len() && yy != area.y ==> self@[yy] == old(self)@[yy],
                self@[y as int].len() == old(self)@[y as int].len(),
                forall|j: int|
                    0 <= j < self@[y as int].len() ==> #[trigger] self@[y as int][j] == (if area.x
                        <= j < area.x + i && j < area.x + area.width {
                        text@[j - area.x]
                    } else {
                        old(self)@[y as int][j]
                    }),
            decreases m - i,
        {
            let ghost prev = self@;
            let xi = area.x as usize + i;
            if xi < self.width as usize {
                let c = text[i];
                proof {
                    assert(self@[y as int] == self.rows@[y as int]@);
                }
                let row = &mut self.rows[y];
                let cell = &mut row[xi];
                *cell = c;
                proof {
                    assert forall|yy: int| 0 <= yy < self@.len() implies self@[yy] == (if yy
                        == y as int {
                        prev[yy].update(xi as int, c)
                    } else {
                        prev[yy]
                    }) by {
                        assert(self@[yy] == self.rows@[yy]@);
                    }
                }
            }
            i = i + 1;
        }
        proof {
            assert(forall|j: int|
                0 <= j < self@[y as int].len() ==> #[trigger] self@[y as int][j] == (if area.x <= j
                    < area.x + m && j < area.x + area.width {
                    text@[j - area.x]
                } else {
                    old(self)@[y as int][j]
                }));
        }
        proof {
            assert(final(self)@[area.y as int] =~= Self::spec_painted_row(
                old(self)@[area.y as int],
                area.x as int,
                text@,
                area.width as int,
            ));
        }
    }
}

/// A grid of the given extent holding only spaces.
pub open spec fn spec_blank(width: int, height: int) -> Seq<Seq<char>> {
    Seq::new(height as nat, |y: int| Seq::new(width as nat, |x: int| ' '))
}

/// The grid after `text` is painted from the top-left corner of `area`,
/// clipped to the area's width and the grid.
pub open spec fn spec_paint(grid: Seq<Seq<char>>, area: Rect, text: Seq<char>) -> Seq<Seq<char>> {
    if area.y < grid.len() && area.height > 0 {
        grid.update(
            area.y as int,
            TextBuffer::spec_painted_row(grid[area.y as int], area.x as int, text, area.width as int),
        )
    } else {
        grid
    }
}

/// The grid after the window of `src` starting at `(ox, oy)` is copied
/// into the `dest` region cell for cell; cells outside `dest`, and cells
/// whose source lies outside `src`, keep their contents.
pub open spec fn spec_blit(
    grid: Seq<Seq<char>>,
    dest: Rect,
    src: Seq<Seq<char>>,
    ox: int,
    oy: int,
) -> Seq<Seq<char>> {
    Seq::new(
        grid.len(),
        |y: int|
            Seq::new(
                grid[y].len(),
                |x: int|
                    if dest.x <= x < dest.x + dest.width && dest.y <= y < dest.y + dest.height
                        && 0 <= oy + (y - dest.y) < src.len() && 0 <= ox + (x - dest.x) < src[oy
                        + (y - dest.y)].len() {
                        src[oy + (y - dest.y)][ox + (x - dest.x)]
                    } else {
                        grid[y][x]
                    },
            ),
    )
}

/// The decimal digits of a non-negative number, most significant first.
pub open spec fn spec_digits(n: int) -> Seq<char>
    decreases n,
{
    if n < 0 {
        Seq::empty()
    } else if n < 10 {
        seq![spec_digit_char(n)]
    } else {
        spec_digits(n / 10).push(spec_digit_char(n % 10))
    }
}

/// The character of one decimal digit.
pub open spec fn spec_digit_char(d: int) -> char {
    ((d + 48) as u8) as char
}

/// The plain-text rendering of a value: nothing for the unit value, the
/// words `true` and `false` for booleans, the decimal digits (with a
/// leading minus sign when negative) for integers, and the characters
/// themselves for text.
pub open spec fn spec_value_text(v: crate::value::ValueModel) -> Seq<char> {
    match v {
        crate::value::ValueModel::Unit => Seq::empty(),
        crate::value::ValueModel::Bool(b) => if b {
            seq!['t', 'r', 'u', 'e']
        } else {
            seq!['f', 'a', 'l', 's', 'e']
        },
        crate::value::ValueModel::Int(i) => if i < 0 {
            seq!['-'] + spec_digits(-i)
        } else {
            spec_digits(i)
        },
        crate::value::ValueModel::Text(s) => s,
    }
}

/// The decimal digits of `n`, computed exactly.
pub fn format_u64(n: u64) -> (r: Vec<char>)
    ensures
        r@ == spec_digits(n as int),
    decreases n,
{
    if n < 10 {
        let d: u8 = (n as u8) + 48;
        let mut r: Vec<char> = Vec::new();
        r.push(d as char);
        proof {
            assert(r@ =~= seq![spec_digit_char(n as int)]);
        }
        r
    } else {
        let mut r = format_u64(n / 10);
        let d: u8 = ((n % 10) as u8) + 48;
        r.push(d as char);
        r
    }
}

/// The plain-text rendering of a value, computed exactly.
pub fn render_value(v: &Value) -> (r: Vec<char>)
    ensures
        r@ == spec_value_text(v@),
{
    match v {
        Value::Unit => Vec::new(),
        Value::Bool(b) => {
            let mut r: Vec<char> = Vec::new();
            if *b {
                r.push('t');
                r.push('r');
                r.push('u');
                r.push('e');
                proof {
                    assert(r@ =~= seq!['t', 'r', 'u', 'e']);
                }
            } else {
                r.push('f');
                r.push('a');
                r.push('l');
                r.push('s');
                r.push('e');
                proof {
                    assert(r@ =~= seq!['f', 'a', 'l', 's', 'e']);
                }
            }
            r
        },
        Value::Int(i) => {
            if *i < 0 {
                let m: u64 = (-(*i as i128)) as u64;
                let mut r: Vec<char> = Vec::new();
                r.push('-');
                let mut digits = format_u64(m);
                r.append(&mut digits);
                proof {
                    assert(r@ =~= seq!['-'] + spec_digits(m as int));
                }
                r
            } else {
                format_u64(*i as u64)
            }
        },
        Value::Text(s) => string_chars(s),
    }
}

/// The characters of a string, in order.
pub fn string_chars(s: &String) -> (r: Vec<char>)
    ensures
        r@ == s@,
{
    let str = s.as_str();
    let n = str.unicode_len();
    let mut r: Vec<char> = Vec::new();
    let mut i: usize = 0;
    #[verifier::loop_isolation(false)]
    while i < n
        invariant
            0 <= i <= n,
            r@ == s@.take(i as int),
        decreases n - i,
    {
        r.push(str.get_char(i));
        proof {
            assert(r@ =~= s@.take(i as int + 1));
        }
        i = i + 1;
    }
    proof {
        assert(s@.take(n as int) =~= s@);
    }
    r
}

} // verus!

verus! {

impl TextBuffer {
    /// Copies the window of `src` starting at `(ox, oy)` into the `dest`
    /// region of this buffer, cell for cell, exactly as [`spec_blit`]
    /// states: cells outside `dest` and cells without a source keep
    /// their contents.
    pub fn blit(&mut self, dest: Rect, src: &TextBuffer, ox: u16, oy: u16)
        requires
            old(self).wf(),
            src.wf(),
        ensures
            final(self).wf(),
            final(self).spec_width() == old(self).spec_width(),
            final(self).spec_height() == old(self).spec_height(),
            final(self)@ == spec_blit(old(self)@, dest, src@, ox as int, oy as int),
    {
        let ghost target = spec_blit(old(self)@, dest, src@, ox as int, oy as int);
        let mut yy: u16 = 0;
        #[verifier::loop_isolation(false)]
        while yy < dest.height
            invariant
                0 <= yy <= dest.height,
                self.wf(),
                self.spec_width() == old(self).spec_width(),
                self.spec_height() == old(self).spec_height(),
                self@.len() == old(self)@.len(),
                forall|y: int, x: int|
                    0 <= y < old(self)@.len() && 0 <= x < old(self)@[y].len()
                        ==> #[trigger] self@[y][x] == (if dest.y <= y < dest.y + yy {
                        target[y][x]
                    } else {
                        old(self)@[y][x]
                    }),
            decreases dest.height - yy,
        {
            let y32 = dest.y as u32 + yy as u32;
            if y32 < self.height() as u32 {
                let y = y32 as u16;
                let ghost row_before = self@;
                let mut xx: u16 = 0;
                #[verifier::loop_isolation(false)]
                while xx < dest.width
                    invariant
                        0 <= xx <= dest.width,
                        self.wf(),
                        self.spec_width() == old(self).spec_width(),
                        self.spec_height() == old(self).spec_height(),
                        self@.len() == old(self)@.len(),
                        y == dest.y + yy,
                        y < self@.len(),
                        forall|yi: int, x: int|
                            0 <= yi < old(self)@.len() && 0 <= x < old(self)@[yi].len() && yi != y
                                ==> #[trigger] self@[yi][x] == (if dest.y <= yi < dest.y + yy {
                                target[yi][x]
                            } else {
                                old(self)@[yi][x]
                            }),
                        forall|x: int|
                            0 <= x < old(self)@[y as int].len() ==> #[trigger] self@[y as int][x]
                                == (if dest.x <= x < dest.x + xx {
                                target[y as int][x]
                            } else {
                                old(self)@[y as int][x]
                            }),
                    decreases dest.width - xx,
                {
                    let x32 = dest.x as u32 + xx as u32;
                    if x32 < self.width() as u32 {
                        let x = x32 as u16;
                        let sy = oy as u32 + yy as u32;
                        let sx = ox as u32 + xx as u32;
                        if sy < src.height() as u32 && sx < src.width() as u32 {
                            let c = src.get(sx as u16, sy as u16);
                            self.set(x, y, c);
                        }
                    }
                    xx = xx + 1;
                }
            }
            yy = yy + 1;
        }
        proof {
            assert forall|y: int| 0 <= y < self@.len() implies self@[y] =~= target[y] by {}
            assert(self@ =~= target);
        }
    }
}

} // verus!
