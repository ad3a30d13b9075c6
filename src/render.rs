use vstd::prelude::*;
use crate::grid::{PixelInfo, PixelMap};

verus! {

/// The glyph of one cell: `O` for a living cell, `-` for a dead one.
pub open spec fn glyph(c: PixelInfo) -> char {
    if c.living {
        'O'
    } else {
        '-'
    }
}

/// The glyphs of row `y`, columns `0..width`.
pub open spec fn row_text(g: PixelMap, y: int, width: int) -> Seq<char> {
    Seq::new(width as nat, |x: int| glyph(g.at(x, y)))
}

/// Rows `0..height` of the frame, each ended by a line break.
pub open spec fn frame_text(g: PixelMap, width: int, height: int) -> Seq<char>
    decreases height,
{
    if height <= 0 {
        Seq::empty()
    } else {
        frame_text(g, width, height - 1) + row_text(g, height - 1, width).push('\n')
    }
}

/// Renders columns `0..width` of rows `0..height` as text, one line per row.
/// Called with the grid's own `xlen` and `ylen`, it leaves out the last
/// column and the last row, which lie on the border.
pub fn render_pixelmap(width: i32, height: i32, pixmap: &PixelMap) -> (r: String)
    requires
        pixmap.wf(),
        0 <= width <= pixmap.xlen + 1,
        0 <= height <= pixmap.ylen + 1,
    ensures
        r@ == frame_text(*pixmap, width as int, height as int),
{
    let mut sbuf = String::new();
    let mut y: i32 = 0;
    while y < height
        invariant
            pixmap.wf(),
            0 <= width <= pixmap.xlen + 1,
            0 <= height <= pixmap.ylen + 1,
            0 <= y <= height,
            sbuf@ == frame_text(*pixmap, width as int, y as int),
        decreases height - y,
    {
        let ghost done = sbuf@;
        let mut x: i32 = 0;
        while x < width
            invariant
                pixmap.wf(),
                0 <= width <= pixmap.xlen + 1,
                0 <= y < height <= pixmap.ylen + 1,
                0 <= x <= width,
                sbuf@ == done + row_text(*pixmap, y as int, x as int),
            decreases width - x,
        {
            proof {
                reveal_strlit("O");
                reveal_strlit("-");
            }
            let i = pixmap.index_of(x, y);
            if pixmap.cells[i].living {
                sbuf.append("O");
            } else {
                sbuf.append("-");
            }
            assert(row_text(*pixmap, y as int, x + 1) =~= row_text(*pixmap, y as int, x as int).push(
                glyph(pixmap.at(x as int, y as int)),
            ));
            x = x + 1;
        }
        proof {
            reveal_strlit("\n");
        }
        sbuf.append("\n");
        assert(sbuf@ =~= frame_text(*pixmap, width as int, y + 1));
        y = y + 1;
    }
    sbuf
}

} // verus!
