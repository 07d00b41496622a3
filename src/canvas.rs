use vstd::prelude::*;
use crate::text::push_char;

verus! {

/// Rows of cells joined by line feeds.
pub open spec fn join_rows(rows: Seq<Seq<char>>) -> Seq<char>
    decreases rows.len(),
{
    if rows.len() == 0 {
        Seq::empty()
    } else if rows.len() == 1 {
        rows[0]
    } else {
        join_rows(rows.drop_last()).push('\n') + rows.last()
    }
}

/// A `width` by `height` grid of spaces.
pub open spec fn blank(width: nat, height: nat) -> Seq<Seq<char>> {
    Seq::new(height, |y: int| Seq::new(width, |x: int| ' '))
}

/// The grid after writing each `(x, y, ch)` of `cmds` in turn; later writes win.
pub open spec fn paint(g: Seq<Seq<char>>, cmds: Seq<(int, int, char)>) -> Seq<Seq<char>>
    decreases cmds.len(),
{
    if cmds.len() == 0 {
        g
    } else {
        let c = cmds.last();
        let h = paint(g, cmds.drop_last());
        h.update(c.1, h[c.1].update(c.0, c.2))
    }
}

/// Writes `ch` at columns `x0 .. x1` (end excluded) of row `y`.
pub open spec fn hline(x0: int, x1: int, y: int, ch: char) -> Seq<(int, int, char)> {
    Seq::new(if x1 > x0 { (x1 - x0) as nat } else { 0 }, |i: int| (x0 + i, y, ch))
}

/// Writes `ch` at rows `y0 .. y1` (end excluded) of column `x`.
pub open spec fn vline(x: int, y0: int, y1: int, ch: char) -> Seq<(int, int, char)> {
    Seq::new(if y1 > y0 { (y1 - y0) as nat } else { 0 }, |i: int| (x, y0 + i, ch))
}

/// Writes the characters of `s` one per column from column `x0` of row `y`.
pub open spec fn text(x0: int, y: int, s: Seq<char>) -> Seq<(int, int, char)> {
    Seq::new(s.len(), |i: int| (x0 + i, y, s[i]))
}

/// Writes one character.
pub open spec fn dot(x: int, y: int, ch: char) -> Seq<(int, int, char)> {
    seq![(x, y, ch)]
}

pub proof fn lemma_paint_concat(g: Seq<Seq<char>>, a: Seq<(int, int, char)>, b: Seq<(int, int, char)>)
    ensures
        paint(g, a + b) == paint(paint(g, a), b),
    decreases b.len(),
{
    if b.len() == 0 {
        assert(a + b =~= a);
    } else {
        assert((a + b).drop_last() =~= a + b.drop_last());
        lemma_paint_concat(g, a, b.drop_last());
    }
}

/// A fixed-size grid of characters, blank when created.
pub struct Canvas {
    grid: Vec<Vec<char>>,
    width: usize,
    height: usize,
}

impl View for Canvas {
    type V = Seq<Seq<char>>;

    closed spec fn view(&self) -> Seq<Seq<char>> {
        Seq::new(self.grid@.len(), |y: int| self.grid@[y]@)
    }
}

impl Canvas {
    pub closed spec fn spec_width(&self) -> nat {
        self.width as nat
    }

    pub closed spec fn spec_height(&self) -> nat {
        self.height as nat
    }

    /// The grid has `height` rows of `width` cells each.
    pub open spec fn wf(&self) -> bool {
        &&& self.spec_width() <= usize::MAX
        &&& self.spec_height() <= usize::MAX
        &&& self@.len() == self.spec_height()
        &&& forall|y: int| 0 <= y < self@.len() ==> (#[trigger] self@[y]).len() == self.spec_width()
    }

    /// A cell that `set_char` and `get_char` accept.
    pub open spec fn in_bounds(&self, x: int, y: int) -> bool {
        0 <= x < self.spec_width() && 0 <= y < self.spec_height()
    }

    /// The character at column `x` of row `y`.
    pub open spec fn cell(&self, x: int, y: int) -> char {
        self@[y][x]
    }

    /// A `width` by `height` grid filled with spaces.
    pub fn new(width: usize, height: usize) -> (r: Canvas)
        ensures
            r.wf(),
            r.spec_width() == width,
            r.spec_height() == height,
            r@ == blank(width as nat, height as nat),
    {
        let mut grid: Vec<Vec<char>> = Vec::new();
        let mut y: usize = 0;
        while y < height
            invariant
                y <= height,
                grid@.len() == y,
                forall|j: int| 0 <= j < y ==> (#[trigger] grid@[j])@ == Seq::new(width as nat, |i: int| ' '),
            decreases height - y,
        {
            let mut row: Vec<char> = Vec::new();
            let mut x: usize = 0;
            while x < width
                invariant
                    x <= width,
                    row@ == Seq::new(x as nat, |i: int| ' '),
                decreases width - x,
            {
                row.push(' ');
                x = x + 1;
                assert(row@ =~= Seq::new(x as nat, |i: int| ' '));
            }
            grid.push(row);
            y = y + 1;
        }
        let r = Canvas { grid, width, height };
        assert(r@ =~= blank(width as nat, height as nat));
        r
    }

    pub fn width(&self) -> (r: usize)
        ensures
            r == self.spec_width(),
    {
        self.width
    }

    pub fn height(&self) -> (r: usize)
        ensures
            r == self.spec_height(),
    {
        self.height
    }

    /// Writes `ch` at column `x` of row `y`; every other cell keeps its character.
    pub fn set_char(&mut self, x: usize, y: usize, ch: char)
        requires
            old(self).wf(),
            old(self).in_bounds(x as int, y as int),
        ensures
            final(self).wf(),
            final(self).spec_width() == old(self).spec_width(),
            final(self).spec_height() == old(self).spec_height(),
            final(self)@ == old(self)@.update(y as int, old(self)@[y as int].update(x as int, ch)),
    {
        let ghost before = self@;
        let mut row = self.grid[y].clone();
        assert(row@ == before[y as int]);
        row.set(x, ch);
        self.grid.set(y, row);
        assert(self@ =~= before.update(y as int, before[y as int].update(x as int, ch)));
    }

    /// The character at column `x` of row `y`.
    pub fn get_char(&self, x: usize, y: usize) -> (r: char)
        requires
            self.wf(),
            self.in_bounds(x as int, y as int),
        ensures
            r == self.cell(x as int, y as int),
    {
        assert(self@[y as int].len() == self.spec_width());
        self.grid[y][x]
    }

    /// The rows, top to bottom, joined by line feeds.
    pub fn to_string(&self) -> (r: String)
        ensures
            r@ == join_rows(self@),
    {
        let mut out = String::new();
        let mut y: usize = 0;
        while y < self.grid.len()
            invariant
                y <= self.grid@.len(),
                out@ == join_rows(self@.take(y as int)),
            decreases self.grid@.len() - y,
        {
            let ghost prefix = out@;
            if y > 0 {
                push_char(&mut out, '\n');
            }
            let row = &self.grid[y];
            let mut x: usize = 0;
            while x < row.len()
                invariant
                    x <= row@.len(),
                    y > 0 ==> out@ == prefix.push('\n') + row@.take(x as int),
                    y == 0 ==> out@ == row@.take(x as int),
                decreases row@.len() - x,
            {
                push_char(&mut out, row[x]);
                x = x + 1;
                proof {
                    assert(row@.take(x as int) =~= row@.take(x - 1).push(row@[x - 1]));
                }
            }
            proof {
                assert(row@.take(x as int) =~= row@);
                let t = self@.take(y + 1);
                assert(t.drop_last() =~= self@.take(y as int));
                assert(t.last() == row@);
                if y == 0 {
                    assert(out@ =~= join_rows(t));
                } else {
                    assert(out@ =~= join_rows(t));
                }
            }
            y = y + 1;
        }
        proof {
            assert(self@.take(y as int) =~= self@);
        }
        out
    }

    /// Every command writes inside the grid.
    pub open spec fn fits(&self, cmds: Seq<(int, int, char)>) -> bool {
        forall|i: int| 0 <= i < cmds.len() ==> self.in_bounds(#[trigger] cmds[i].0, cmds[i].1)
    }

    /// Writes `ch` at `(x, y)`, as one paint command.
    pub fn put(&mut self, x: usize, y: usize, ch: char)
        requires
            old(self).wf(),
            old(self).in_bounds(x as int, y as int),
        ensures
            final(self).wf(),
            final(self).spec_width() == old(self).spec_width(),
            final(self).spec_height() == old(self).spec_height(),
            final(self)@ == paint(old(self)@, dot(x as int, y as int, ch)),
    {
        let ghost g = self@;
        self.set_char(x, y, ch);
        let ghost c = dot(x as int, y as int, ch);
        assert(c.drop_last() =~= Seq::<(int, int, char)>::empty());
        assert(paint(g, c.drop_last()) == g);
    }

    /// Draws `ch` at columns `x0 .. x1` (end excluded) of row `y`.
    pub fn draw_hline(&mut self, x0: usize, x1: usize, y: usize, ch: char)
        requires
            old(self).wf(),
            old(self).fits(hline(x0 as int, x1 as int, y as int, ch)),
        ensures
            final(self).wf(),
            final(self).spec_width() == old(self).spec_width(),
            final(self).spec_height() == old(self).spec_height(),
            final(self)@ == paint(old(self)@, hline(x0 as int, x1 as int, y as int, ch)),
    {
        let ghost g = self@;
        let ghost cmds = hline(x0 as int, x1 as int, y as int, ch);
        let mut x = x0;
        while x < x1
            invariant
                x0 <= x,
                x1 > x0 ==> x <= x1,
                x1 <= x0 ==> x == x0,
                self.wf(),
                self.spec_width() == old(self).spec_width(),
                self.spec_height() == old(self).spec_height(),
                old(self).fits(cmds),
                cmds == hline(x0 as int, x1 as int, y as int, ch),
                self@ == paint(g, cmds.take(x - x0)),
            decreases x1 - x,
        {
            assert(cmds[x - x0] == (x as int, y as int, ch));
            assert(old(self).in_bounds(cmds[x - x0].0, cmds[x - x0].1));
            self.set_char(x, y, ch);
            assert(cmds.take(x + 1 - x0).drop_last() =~= cmds.take(x - x0));
            x = x + 1;
        }
        assert(cmds.take(x - x0) =~= cmds);
    }

    /// Draws `ch` at rows `y0 .. y1` (end excluded) of column `x`.
    pub fn draw_vline(&mut self, x: usize, y0: usize, y1: usize, ch: char)
        requires
            old(self).wf(),
            old(self).fits(vline(x as int, y0 as int, y1 as int, ch)),
        ensures
            final(self).wf(),
            final(self).spec_width() == old(self).spec_width(),
            final(self).spec_height() == old(self).spec_height(),
            final(self)@ == paint(old(self)@, vline(x as int, y0 as int, y1 as int, ch)),
    {
        let ghost g = self@;
        let ghost cmds = vline(x as int, y0 as int, y1 as int, ch);
        let mut y = y0;
        while y < y1
            invariant
                y0 <= y,
                y1 > y0 ==> y <= y1,
                y1 <= y0 ==> y == y0,
                self.wf(),
                self.spec_width() == old(self).spec_width(),
                self.spec_height() == old(self).spec_height(),
                old(self).fits(cmds),
                cmds == vline(x as int, y0 as int, y1 as int, ch),
                self@ == paint(g, cmds.take(y - y0)),
            decreases y1 - y,
        {
            assert(cmds[y - y0] == (x as int, y as int, ch));
            assert(old(self).in_bounds(cmds[y - y0].0, cmds[y - y0].1));
            self.set_char(x, y, ch);
            assert(cmds.take(y + 1 - y0).drop_last() =~= cmds.take(y - y0));
            y = y + 1;
        }
        assert(cmds.take(y - y0) =~= cmds);
    }

    /// Writes the characters of `s` one per column, from column `x0` of row `y`.
    pub fn draw_text(&mut self, x0: usize, y: usize, s: &str)
        requires
            old(self).wf(),
            old(self).fits(text(x0 as int, y as int, s@)),
        ensures
            final(self).wf(),
            final(self).spec_width() == old(self).spec_width(),
            final(self).spec_height() == old(self).spec_height(),
            final(self)@ == paint(old(self)@, text(x0 as int, y as int, s@)),
    {
        let ghost g = self@;
        let ghost cmds = text(x0 as int, y as int, s@);
        let n = s.unicode_len();
        let mut i: usize = 0;
        while i < n
            invariant
                n == s@.len(),
                i <= n,
                self.wf(),
                self.spec_width() == old(self).spec_width(),
                self.spec_height() == old(self).spec_height(),
                old(self).fits(cmds),
                cmds == text(x0 as int, y as int, s@),
                self@ == paint(g, cmds.take(i as int)),
            decreases n - i,
        {
            assert(cmds[i as int] == (x0 + i, y as int, s@[i as int]));
            assert(old(self).in_bounds(cmds[i as int].0, cmds[i as int].1));
            let ch = s.get_char(i);
            self.set_char(x0 + i, y, ch);
            assert(cmds.take(i + 1).drop_last() =~= cmds.take(i as int));
            i = i + 1;
        }
        assert(cmds.take(i as int) =~= cmds);
    }
}

/// On a grid of any size, `set_char` and `get_char` accept exactly the cells with
/// `x < width` and `y < height`; reading a cell right after writing it gives the
/// character written, and every other cell keeps its character.
pub proof fn lemma_canvas_access(c: Canvas, x: int, y: int, ch: char)
    requires
        c.wf(),
    ensures
        c.in_bounds(x, y) <==> (0 <= x < c.spec_width() && 0 <= y < c.spec_height()),
        c.in_bounds(x, y) ==> {
            let after = c@.update(y, c@[y].update(x, ch));
            &&& after[y][x] == ch
            &&& forall|u: int, v: int|
                c.in_bounds(u, v) && (u != x || v != y) ==> #[trigger] after[v][u] == c@[v][u]
        },
{
}

} // verus!
