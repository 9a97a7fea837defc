//! A row-major framebuffer and the driver that fills it, one scanline per task.
use rayon::prelude::IndexedParallelIterator;
use rayon::prelude::ParallelIterator;
use rayon::prelude::ParallelSliceMut;
use vstd::arithmetic::div_mod::lemma_fundamental_div_mod;
use vstd::prelude::*;

verus! {

/// A `width` by `height` grid of pixels, stored row by row, top row first.
pub struct Frame<T> {
    width: usize,
    height: usize,
    cells: Vec<T>,
}

impl<T> View for Frame<T> {
    type V = Seq<T>;

    /// The pixels in row-major order.
    closed spec fn view(&self) -> Seq<T> {
        self.cells@
    }
}

/// The cell in column `i` of row `j`, where `cells` holds rows of `width`
/// cells one after the other.
pub open spec fn grid_cell<T>(cells: Seq<T>, width: usize, i: usize, j: usize) -> T {
    cells[j * width + i]
}

/// Every pixel `(i, j)` of a `width` by `height` grid may be handed to `shade`.
pub open spec fn shadeable<T, F: Fn(usize, usize) -> T>(shade: F, width: usize, height: usize) -> bool {
    forall|i: usize, j: usize| i < width && j < height ==> shade.requires((i, j))
}

/// `convert` gives at most one value for each pixel it is handed.
pub open spec fn single_valued<S, T, G: Fn(&S) -> T>(convert: G) -> bool {
    forall|s: S, a: T, b: T| convert.ensures((&s,), a) && convert.ensures((&s,), b) ==> a == b
}

/// `shade` gives at most one colour for each pixel.
pub open spec fn deterministic<T, F: Fn(usize, usize) -> T>(shade: F) -> bool {
    forall|i: usize, j: usize, a: T, b: T|
        shade.ensures((i, j), a) && shade.ensures((i, j), b) ==> a == b
}

impl<T> Frame<T> {
    /// Number of pixels in a row.
    pub closed spec fn spec_width(&self) -> usize {
        self.width
    }

    /// Number of rows.
    pub closed spec fn spec_height(&self) -> usize {
        self.height
    }

    /// The frame holds exactly one cell per pixel.
    pub open spec fn wf(&self) -> bool {
        self@.len() == self.spec_width() * self.spec_height()
    }

    /// The pixel in column `i` of row `j`.
    pub open spec fn at(&self, i: usize, j: usize) -> T {
        grid_cell(self@, self.spec_width(), i, j)
    }

    /// Every pixel holds a colour that `shade` gives for its column and row.
    pub open spec fn shaded_by<F: Fn(usize, usize) -> T>(&self, shade: F) -> bool {
        forall|i: usize, j: usize|
            i < self.spec_width() && j < self.spec_height() ==> shade.ensures(
                (i, j),
                #[trigger] self.at(i, j),
            )
    }

    /// This frame has the size of `source`, and each of its pixels is a
    /// value that `convert` gives for the pixel of `source` in its place.
    pub open spec fn mapped_from<S, G: Fn(&S) -> T>(&self, source: Frame<S>, convert: G) -> bool {
        &&& self.spec_width() == source.spec_width()
        &&& self.spec_height() == source.spec_height()
        &&& self@.len() == source@.len()
        &&& forall|k: int|
            0 <= k < source@.len() ==> convert.ensures((&source@[k],), #[trigger] self@[k])
    }

    #[verifier::when_used_as_spec(spec_width)]
    pub fn width(&self) -> (w: usize)
        ensures
            w == self.spec_width(),
    {
        self.width
    }

    #[verifier::when_used_as_spec(spec_height)]
    pub fn height(&self) -> (h: usize)
        ensures
            h == self.spec_height(),
    {
        self.height
    }

    /// The pixels in row-major order.
    pub fn cells(&self) -> (cells: &Vec<T>)
        ensures
            cells@ == self@,
    {
        &self.cells
    }

    /// The pixel in column `i` of row `j`.
    pub fn pixel(&self, i: usize, j: usize) -> (p: &T)
        requires
            self.wf(),
            i < self.spec_width(),
            j < self.spec_height(),
        ensures
            *p == self.at(i, j),
    {
        let n: usize = self.cells.len();
        proof {
            lemma_cell_in_frame(i as int, j as int, self.width as int, self.height as int);
            assert(j * self.width + i < n);
        }
        &self.cells[j * self.width + i]
    }

    /// Renders a frame: pixel `(i, j)` is `shade(i, j)`. The scanlines are
    /// shaded in parallel, each by one task; `blank` fills the frame before
    /// a pixel is shaded and is gone from it afterwards.
    pub fn render<F>(width: usize, height: usize, blank: T, shade: &F) -> (frame: Frame<T>)
        where T: Copy + Send, F: Fn(usize, usize) -> T + Sync,
        requires
            width * height <= usize::MAX,
            shadeable(*shade, width, height),
        ensures
            frame.wf(),
            frame.spec_width() == width,
            frame.spec_height() == height,
            frame.shaded_by(*shade),
    {
        let mut cells: Vec<T> = vec![blank; width * height];
        if width > 0 {
            proof {
                assert forall|i: usize, j: usize|
                    i < width && j * width + i < cells@.len() implies #[trigger] shade.requires(
                    (i, j),
                ) by {
                    lemma_row_in_frame(i as int, j as int, width as int, height as int);
                }
            }
            par_rows(&mut cells, width, shade);
        }
        let frame = Frame { width, height, cells };
        proof {
            assert forall|i: usize, j: usize| i < width && j < height implies shade.ensures(
                (i, j),
                #[trigger] frame.at(i, j),
            ) by {
                lemma_cell_in_frame(i as int, j as int, width as int, height as int);
                assert(frame.at(i, j) == grid_cell(cells@, width, i, j));
            }
        }
        frame
    }

    /// A frame of the same size whose pixel `k` is `convert` of this frame's
    /// pixel `k`.
    pub fn map<U, G>(&self, convert: &G) -> (out: Frame<U>)
        where G: Fn(&T) -> U,
        requires
            self.wf(),
            forall|k: int| 0 <= k < self@.len() ==> convert.requires((&#[trigger] self@[k],)),
        ensures
            out.wf(),
            out.mapped_from(*self, *convert),
    {
        let n: usize = self.cells.len();
        let mut cells: Vec<U> = Vec::new();
        let mut k: usize = 0;
        while k < n
            invariant
                k <= n,
                n == self.cells@.len(),
                cells@.len() == k,
                forall|m: int|
                    0 <= m < self.cells@.len() ==> convert.requires((&#[trigger] self.cells@[m],)),
                forall|m: int|
                    0 <= m < k ==> convert.ensures((&self.cells@[m],), #[trigger] cells@[m]),
            decreases n - k,
        {
            let converted: U = convert(&self.cells[k]);
            cells.push(converted);
            k = k + 1;
        }
        Frame { width: self.width, height: self.height, cells }
    }
}

/// Shades one scanline: cell `i` of `line` becomes `shade(i, j)`.
pub fn shade_row<T, F>(line: &mut [T], j: usize, shade: &F)
    where F: Fn(usize, usize) -> T,
    requires
        forall|i: usize| i < old(line)@.len() ==> shade.requires((i, j)),
    ensures
        final(line)@.len() == old(line)@.len(),
        forall|i: usize|
            i < old(line)@.len() ==> shade.ensures((i, j), #[trigger] final(line)@[i as int]),
{
    let n: usize = line.len();
    let mut i: usize = 0;
    while i < n
        invariant
            i <= n,
            n == line@.len(),
            line@.len() == old(line)@.len(),
            forall|k: usize| k < n ==> shade.requires((k, j)),
            forall|k: usize| k < i ==> shade.ensures((k, j), #[trigger] line@[k as int]),
        decreases n - i,
    {
        line[i] = shade(i, j);
        i = i + 1;
    }
}

/// Hands the scanlines of `cells` to rayon: `par_chunks_mut(width)` cuts the
/// cells into consecutive rows of `width` cells (the last one shorter where
/// `width` does not divide their number), `enumerate` numbers the rows from
/// zero, and `for_each` runs [`shade_row`] on each numbered row once, on
/// rayon's thread pool, returning when all are done. Cell `j * width + i`,
/// with `i < width`, is therefore cell `i` of row `j`, and what `shade_row`
/// ensures of it is assumed here, not proved. A `width` of zero, on which
/// rayon panics, is left out.
#[verifier::external_body]
fn par_rows<T, F>(cells: &mut Vec<T>, width: usize, shade: &F)
    where T: Send, F: Fn(usize, usize) -> T + Sync,
    requires
        width > 0,
        forall|i: usize, j: usize|
            i < width && j * width + i < old(cells)@.len() ==> #[trigger] shade.requires((i, j)),
    ensures
        final(cells)@.len() == old(cells)@.len(),
        forall|i: usize, j: usize|
            i < width && j * width + i < old(cells)@.len() ==> shade.ensures(
                (i, j),
                #[trigger] grid_cell(final(cells)@, width, i, j),
            ),
{
    cells.par_chunks_mut(width).enumerate().for_each(|(j, line)| shade_row(line, j, shade));
}

/// Two frames of one size, both shaded by the same deterministic `shade`,
/// hold the same pixels: what a render gives does not depend on the order in
/// which its scanlines were shaded.
pub proof fn lemma_render_reproducible<T, F: Fn(usize, usize) -> T>(
    a: Frame<T>,
    b: Frame<T>,
    shade: F,
)
    requires
        a.wf(),
        b.wf(),
        a.spec_width() == b.spec_width(),
        a.spec_height() == b.spec_height(),
        a.shaded_by(shade),
        b.shaded_by(shade),
        deterministic(shade),
    ensures
        a@ == b@,
{
    let width = a.spec_width();
    let height = a.spec_height();
    assert forall|k: int| 0 <= k < a@.len() implies a@[k] == b@[k] by {
        assert(width > 0) by (nonlinear_arith)
            requires
                0 <= k < width * height,
        ;
        lemma_index_in_frame(k, width as int, height as int);
        let i: usize = (k % (width as int)) as usize;
        let j: usize = (k / (width as int)) as usize;
        assert(a.at(i, j) == a@[k]);
        assert(b.at(i, j) == b@[k]);
    }
    assert(a@ =~= b@);
}

/// Frames mapped from equal frames by the same single-valued `convert` are
/// equal.
pub proof fn lemma_map_reproducible<S, T, G: Fn(&S) -> T>(
    a: Frame<S>,
    b: Frame<S>,
    convert: G,
    mapped_a: Frame<T>,
    mapped_b: Frame<T>,
)
    requires
        a@ == b@,
        mapped_a.mapped_from(a, convert),
        mapped_b.mapped_from(b, convert),
        single_valued(convert),
    ensures
        mapped_a@ == mapped_b@,
{
    assert forall|k: int| 0 <= k < mapped_a@.len() implies mapped_a@[k] == mapped_b@[k] by {
        assert(convert.ensures((&a@[k],), mapped_a@[k]));
        assert(convert.ensures((&b@[k],), mapped_b@[k]));
    }
    assert(mapped_a@ =~= mapped_b@);
}

/// Cell `k` of a `width` by `height` grid is column `k % width` of row
/// `k / width`, and both lie inside the grid.
pub proof fn lemma_index_in_frame(k: int, width: int, height: int)
    requires
        0 <= k < width * height,
        0 < width,
    ensures
        0 <= k % width < width,
        0 <= k / width < height,
        (k / width) * width + k % width == k,
{
    lemma_fundamental_div_mod(k, width);
    let q = k / width;
    let r = k % width;
    assert(q * width == width * q) by (nonlinear_arith);
    assert(0 <= q) by (nonlinear_arith)
        requires
            q * width + r == k,
            0 <= k,
            0 <= r < width,
    ;
    assert(q < height) by (nonlinear_arith)
        requires
            q * width + r == k,
            k < width * height,
            0 <= r,
            0 < width,
    ;
}

/// Column `i` of row `j` lies inside a `width` by `height` grid.
pub proof fn lemma_cell_in_frame(i: int, j: int, width: int, height: int)
    requires
        0 <= i < width,
        0 <= j < height,
    ensures
        0 <= j * width,
        0 <= j * width + i < width * height,
{
    assert(j * width + i < width * height) by (nonlinear_arith)
        requires
            0 <= i < width,
            0 <= j < height,
    ;
    assert(0 <= j * width) by (nonlinear_arith)
        requires
            0 <= j,
            0 <= width,
    ;
}

/// A cell of a `width` by `height` grid, reached as column `i` of row `j`,
/// lies in one of the grid's rows.
pub proof fn lemma_row_in_frame(i: int, j: int, width: int, height: int)
    requires
        0 <= i < width,
        0 <= j,
        j * width + i < width * height,
    ensures
        j < height,
{
    assert(j < height) by (nonlinear_arith)
        requires
            0 <= i < width,
            0 <= j,
            j * width + i < width * height,
    ;
}

} // verus!
