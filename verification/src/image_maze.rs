use vstd::prelude::*;

use crate::maze::{maze_wf, Maze, MAX_SIDE};
use crate::position::Pos;

verus! {

/// The squared perceptual colour distance of two pixels, scaled by 512 to
/// stay integral. With `dr = r1 - r2` and so on, the perceptual distance is
/// `sqrt((2 + rm/256)*dr^2 + 4*dg^2 + (2 + 255/256 - rm/256)*db^2)` for the
/// mean red `rm = (r1 + r2)/2`; multiplying its square by 512 clears every
/// denominator.
pub open spec fn spec_color_dist_sq_512(
    r1: int,
    g1: int,
    b1: int,
    r2: int,
    g2: int,
    b2: int,
) -> int {
    let dr = r1 - r2;
    let dg = g1 - g2;
    let db = b1 - b2;
    (1024 + r1 + r2) * (dr * dr) + 2048 * (dg * dg) + (1534 - r1 - r2) * (db * db)
}

/// Are two pixels closer than the classification threshold of 250? Exactly
/// `dist < 250`, compared as `512 * dist^2 < 512 * 250^2`.
pub open spec fn spec_color_close(r1: int, g1: int, b1: int, r2: int, g2: int, b2: int) -> bool {
    spec_color_dist_sq_512(r1, g1, b1, r2, g2, b2) < 32_000_000
}

/// Computes [`spec_color_close`].
fn color_close(p: [u8; 3], q: [u8; 3]) -> (r: bool)
    ensures
        r == spec_color_close(
            p[0] as int,
            p[1] as int,
            p[2] as int,
            q[0] as int,
            q[1] as int,
            q[2] as int,
        ),
{
    let dr: i64 = p[0] as i64 - q[0] as i64;
    let dg: i64 = p[1] as i64 - q[1] as i64;
    let db: i64 = p[2] as i64 - q[2] as i64;
    proof {
        assert(dr * dr <= 0x10000 && dr * dr >= 0) by (nonlinear_arith)
            requires
                -255 <= dr <= 255,
        ;
        assert(dg * dg <= 0x10000 && dg * dg >= 0) by (nonlinear_arith)
            requires
                -255 <= dg <= 255,
        ;
        assert(db * db <= 0x10000 && db * db >= 0) by (nonlinear_arith)
            requires
                -255 <= db <= 255,
        ;
        assert((1024 + p[0] as int + q[0] as int) * (dr * dr) <= 0x1000_0000 && (1024 + p[0] as int
            + q[0] as int) * (dr * dr) >= 0) by (nonlinear_arith)
            requires
                0 <= dr * dr <= 0x10000,
                1024 <= 1024 + p[0] as int + q[0] as int <= 1534,
        ;
        assert((1534 - p[0] as int - q[0] as int) * (db * db) <= 0x1000_0000 && (1534 - p[0] as int
            - q[0] as int) * (db * db) >= 0) by (nonlinear_arith)
            requires
                0 <= db * db <= 0x10000,
                1024 <= 1534 - p[0] as int - q[0] as int <= 1534,
        ;
    }
    let rsum: i64 = p[0] as i64 + q[0] as i64;
    (1024 + rsum) * (dr * dr) + 2048 * (dg * dg) + (1534 - rsum) * (db * db) < 32_000_000
}

/// Is the pixel close to reference green `(0, 255, 0)`?
pub fn is_goal(pixel: [u8; 3]) -> (r: bool)
    ensures
        r == spec_color_close(pixel[0] as int, pixel[1] as int, pixel[2] as int, 0, 255, 0),
{
    color_close(pixel, [0, 255, 0])
}

/// Is the pixel close to reference red `(255, 0, 0)`?
pub fn is_start(pixel: [u8; 3]) -> (r: bool)
    ensures
        r == spec_color_close(pixel[0] as int, pixel[1] as int, pixel[2] as int, 255, 0, 0),
{
    color_close(pixel, [255, 0, 0])
}

/// Is the pixel close to reference black `(0, 0, 0)`?
pub fn is_wall(pixel: [u8; 3]) -> (r: bool)
    ensures
        r == spec_color_close(pixel[0] as int, pixel[1] as int, pixel[2] as int, 0, 0, 0),
{
    color_close(pixel, [0, 0, 0])
}

/// The class code of pixel `i` of an RGB byte string: ambiguities resolve by
/// testing wall, then start, then goal; anything else is free. Codes follow
/// the binary format: start `1`, goal `2`, wall `3`, free `0`.
pub open spec fn spec_px_code(s: Seq<u8>, i: int) -> int {
    let r = s[3 * i] as int;
    let g = s[3 * i + 1] as int;
    let b = s[3 * i + 2] as int;
    if spec_color_close(r, g, b, 0, 0, 0) {
        3
    } else if spec_color_close(r, g, b, 255, 0, 0) {
        1
    } else if spec_color_close(r, g, b, 0, 255, 0) {
        2
    } else {
        0
    }
}

/// How many of the first `n` pixels carry class `c`.
pub open spec fn spec_px_count(s: Seq<u8>, n: int, c: int) -> int
    decreases n,
{
    if n <= 0 {
        0
    } else {
        spec_px_count(s, n - 1, c) + if spec_px_code(s, n - 1) == c {
            1int
        } else {
            0int
        }
    }
}

/// The first of the `n` pixels carrying class `c`, if any.
pub open spec fn spec_px_first(s: Seq<u8>, n: int, c: int) -> Option<int>
    decreases n,
{
    if n <= 0 {
        None
    } else if spec_px_first(s, n - 1, c) is Some {
        spec_px_first(s, n - 1, c)
    } else if spec_px_code(s, n - 1) == c {
        Some(n - 1)
    } else {
        None
    }
}

/// The wall pixels among the first `n`, in index order.
pub open spec fn spec_px_walls(s: Seq<u8>, w: int, n: int) -> Seq<Pos>
    decreases n,
{
    if n <= 0 {
        Seq::empty()
    } else {
        spec_px_walls(s, w, n - 1) + if spec_px_code(s, n - 1) == 3 {
            seq![crate::binary_maze::spec_index_pos(w, n - 1)]
        } else {
            Seq::empty()
        }
    }
}

/// What an RGB pixel raster describes: the grid whose cells are the pixel
/// classes, when the sides are in range, the byte string covers every pixel,
/// and exactly one start and one goal are present.
pub open spec fn spec_parse_pixels(w: int, h: int, s: Seq<u8>) -> Option<(Pos, Pos, Seq<Pos>)> {
    if !(1 <= w <= MAX_SIDE && 1 <= h <= MAX_SIDE) {
        None
    } else if s.len() != 3 * (w * h) {
        None
    } else if spec_px_count(s, w * h, 1) == 1 && spec_px_count(s, w * h, 2) == 1 {
        Some(
            (
                crate::binary_maze::spec_index_pos(w, spec_px_first(s, w * h, 1)->0),
                crate::binary_maze::spec_index_pos(w, spec_px_first(s, w * h, 2)->0),
                spec_px_walls(s, w, w * h),
            ),
        )
    } else {
        None
    }
}


/// What decoding a raster image yields on a byte string: `Some` size and
/// RGB samples (three bytes per pixel, row-major) for a readable image,
/// `None` otherwise. Decoding is a function of the bytes alone.
pub uninterp spec fn spec_decode_rgb(s: Seq<u8>) -> Option<(u32, u32, Seq<u8>)>;

/// Relies on `image::load_from_memory` and `DynamicImage::to_rgb8`: decodes
/// a raster image and hands back its size and its RGB samples, three bytes
/// per pixel in row-major order; `spec_decode_rgb` names the result. The
/// sample count is the `ImageBuffer` invariant.
#[verifier::external_body]
fn decode_image_rgb(bytes: &Vec<u8>) -> (r: Result<(u32, u32, Vec<u8>), String>)
    ensures
        r matches Ok(t) ==> spec_decode_rgb(bytes@) == Some((t.0, t.1, t.2@)) && t.2@.len() == 3
            * ((t.0 as int) * (t.1 as int)),
        r is Err ==> spec_decode_rgb(bytes@) is None,
{
    match image::load_from_memory(bytes.as_slice()) {
        Ok(img) => {
            let rgb = img.to_rgb8();
            let (w, h) = rgb.dimensions();
            Ok((w, h, rgb.into_raw()))
        },
        Err(e) => Err(e.to_string()),
    }
}

/// Relies on `image::RgbImage::from_raw` and `write_to` with the PNG
/// format: encodes RGB samples as a PNG file.
#[verifier::external_body]
fn encode_png_rgb(w: u32, h: u32, rgb: &Vec<u8>) -> (r: Result<Vec<u8>, String>) {
    let img = match image::RgbImage::from_raw(w, h, rgb.clone()) {
        Some(img) => img,
        None => {
            return Err("raster size mismatch".to_string());
        },
    };
    let mut out = std::io::Cursor::new(Vec::new());
    match img.write_to(&mut out, image::ImageFormat::Png) {
        Ok(()) => Ok(out.into_inner()),
        Err(e) => Err(e.to_string()),
    }
}

/// Builds the grid an RGB raster describes: each pixel is classified
/// against black, red and green, giving walls, the start, the goal and free
/// cells.
pub fn maze_from_pixels(w: u32, h: u32, rgb: &Vec<u8>) -> (r: Result<Maze, String>)
    ensures
        r is Ok <==> spec_parse_pixels(w as int, h as int, rgb@) is Some,
        r matches Ok(m) ==> {
            let t = spec_parse_pixels(w as int, h as int, rgb@)->0;
            &&& maze_wf(&m)
            &&& m.w == w
            &&& m.h == h
            &&& m.start == t.0
            &&& m.goal == t.1
            &&& m.walls@ == t.2
        },
{
    if w < 1 || w > MAX_SIDE || h < 1 || h > MAX_SIDE {
        return Err("grid sides out of range".to_string());
    }
    proof {
        assert((w as int) * (h as int) < 0x4000_0000) by (nonlinear_arith)
            requires
                0 <= w <= 0x7ffe,
                0 <= h <= 0x7ffe,
        ;
    }
    let n: usize = (w as usize) * (h as usize);
    if rgb.len() != 3 * n {
        return Err("raster does not match the grid size".to_string());
    }
    let mut start_opt: Option<Pos> = None;
    let mut goal_opt: Option<Pos> = None;
    let mut walls: Vec<Pos> = Vec::new();
    let mut i: usize = 0;
    while i < n
        invariant
            1 <= w <= MAX_SIDE,
            1 <= h <= MAX_SIDE,
            n == w * h,
            n < 0x4000_0000,
            rgb@.len() == 3 * n,
            0 <= i <= n,
            start_opt is Some <==> spec_px_first(rgb@, i as int, 1) is Some,
            start_opt matches Some(sp) ==> sp == crate::binary_maze::spec_index_pos(
                w as int,
                spec_px_first(rgb@, i as int, 1)->0,
            ),
            spec_px_count(rgb@, i as int, 1) == if start_opt is Some {
                1int
            } else {
                0int
            },
            goal_opt is Some <==> spec_px_first(rgb@, i as int, 2) is Some,
            goal_opt matches Some(gp) ==> gp == crate::binary_maze::spec_index_pos(
                w as int,
                spec_px_first(rgb@, i as int, 2)->0,
            ),
            spec_px_count(rgb@, i as int, 2) == if goal_opt is Some {
                1int
            } else {
                0int
            },
            walls@ == spec_px_walls(rgb@, w as int, i as int),
            walls@.no_duplicates(),
            forall|j: int|
                0 <= j < walls@.len() ==> 0 <= (#[trigger] walls@[j]).x < w && 0 <= walls@[j].y
                    < h,
        decreases n - i,
    {
        let px = [rgb[3 * i], rgb[3 * i + 1], rgb[3 * i + 2]];
        let code: u8 = if is_wall(px) {
            3
        } else if is_start(px) {
            1
        } else if is_goal(px) {
            2
        } else {
            0
        };
        proof {
            assert(code == spec_px_code(rgb@, i as int));
            crate::binary_maze::lemma_index_pos_roundtrip(w as int, h as int, i as int);
        }
        let xi: i16 = (i % (w as usize)) as i16;
        let yi: i16 = (i / (w as usize)) as i16;
        let pos = Pos { x: xi, y: yi };
        proof {
            assert(pos == crate::binary_maze::spec_index_pos(w as int, i as int));
        }
        if code == 1 {
            if start_opt.is_some() {
                proof {
                    lemma_px_count_mono(rgb@, i + 1 as int, n as int, 1);
                }
                return Err("more than one start pixel".to_string());
            }
            start_opt = Some(pos);
        } else if code == 2 {
            if goal_opt.is_some() {
                proof {
                    lemma_px_count_mono(rgb@, i + 1 as int, n as int, 2);
                }
                return Err("more than one goal pixel".to_string());
            }
            goal_opt = Some(pos);
        } else if code == 3 {
            proof {
                lemma_px_walls_membership(rgb@, w as int, i as int);
                if walls@.contains(pos) {
                    let j = choose|j: int|
                        0 <= j < i && #[trigger] spec_px_code(rgb@, j) == 3 && pos
                            == crate::binary_maze::spec_index_pos(w as int, j);
                    crate::binary_maze::lemma_index_pos_roundtrip(w as int, h as int, j);
                    assert(false);
                }
            }
            walls.push(pos);
            proof {
                assert(walls@.drop_last() == spec_px_walls(rgb@, w as int, i as int));
                assert(walls@ =~= spec_px_walls(rgb@, w as int, i + 1 as int));
            }
        }
        i = i + 1;
    }
    match (start_opt, goal_opt) {
        (Some(s), Some(g)) => {
            proof {
                let np = n as int;
                let wi = w as int;
                let is_ = spec_px_first(rgb@, np, 1)->0;
                let ig = spec_px_first(rgb@, np, 2)->0;
                lemma_px_first_props(rgb@, np, 1);
                lemma_px_first_props(rgb@, np, 2);
                crate::binary_maze::lemma_index_pos_roundtrip(wi, h as int, is_);
                crate::binary_maze::lemma_index_pos_roundtrip(wi, h as int, ig);
                assert(s != g) by {
                    if s == g {
                        assert(crate::binary_maze::spec_pos_index(wi, s) == is_
                            && crate::binary_maze::spec_pos_index(wi, g) == ig);
                    }
                }
                lemma_px_walls_membership(rgb@, wi, np);
                assert(!walls@.contains(s)) by {
                    if walls@.contains(s) {
                        let j = choose|j: int|
                            0 <= j < np && #[trigger] spec_px_code(rgb@, j) == 3 && s
                                == crate::binary_maze::spec_index_pos(wi, j);
                        crate::binary_maze::lemma_index_pos_roundtrip(wi, h as int, j);
                        assert(crate::binary_maze::spec_pos_index(wi, s) == j
                            && crate::binary_maze::spec_pos_index(wi, s) == is_);
                    }
                }
                assert(!walls@.contains(g)) by {
                    if walls@.contains(g) {
                        let j = choose|j: int|
                            0 <= j < np && #[trigger] spec_px_code(rgb@, j) == 3 && g
                                == crate::binary_maze::spec_index_pos(wi, j);
                        crate::binary_maze::lemma_index_pos_roundtrip(wi, h as int, j);
                        assert(crate::binary_maze::spec_pos_index(wi, g) == j
                            && crate::binary_maze::spec_pos_index(wi, g) == ig);
                    }
                }
            }
            let m = Maze { w, h, start: s, goal: g, walls };
            Ok(m)
        },
        _ => Err("start or goal pixel missing".to_string()),
    }
}

/// Pixel-class counts grow with the range.
proof fn lemma_px_count_mono(s: Seq<u8>, a: int, b: int, c: int)
    requires
        a <= b,
    ensures
        spec_px_count(s, a, c) <= spec_px_count(s, b, c),
    decreases b - a,
{
    if a < b {
        lemma_px_count_mono(s, a, b - 1, c);
    }
}

/// The first occurrence of a pixel class is an in-range pixel carrying it.
proof fn lemma_px_first_props(s: Seq<u8>, n: int, c: int)
    requires
        spec_px_first(s, n, c) is Some,
    ensures
        0 <= spec_px_first(s, n, c)->0 < n,
        spec_px_code(s, spec_px_first(s, n, c)->0) == c,
    decreases n,
{
    if n > 0 && spec_px_first(s, n - 1, c) is Some {
        lemma_px_first_props(s, n - 1, c);
    }
}

/// Membership in the wall list of a pixel prefix.
proof fn lemma_px_walls_membership(s: Seq<u8>, w: int, n: int)
    ensures
        forall|q: Pos|
            spec_px_walls(s, w, n).contains(q) <==> exists|j: int|
                0 <= j < n && #[trigger] spec_px_code(s, j) == 3 && q
                    == crate::binary_maze::spec_index_pos(w, j),
    decreases n,
{
    if n > 0 {
        lemma_px_walls_membership(s, w, n - 1);
        let cur = spec_px_walls(s, w, n);
        let prev = spec_px_walls(s, w, n - 1);
        assert forall|q: Pos| cur.contains(q) implies exists|j: int|
            0 <= j < n && #[trigger] spec_px_code(s, j) == 3 && q
                == crate::binary_maze::spec_index_pos(w, j) by {
            let t = choose|t: int| 0 <= t < cur.len() && cur[t] == q;
            if t < prev.len() {
                assert(prev[t] == q);
                assert(prev.contains(q));
                let j = choose|j: int|
                    0 <= j < n - 1 && #[trigger] spec_px_code(s, j) == 3 && q
                        == crate::binary_maze::spec_index_pos(w, j);
                assert(0 <= j < n && spec_px_code(s, j) == 3 && q
                    == crate::binary_maze::spec_index_pos(w, j));
            } else {
                assert(spec_px_code(s, n - 1) == 3 && q == crate::binary_maze::spec_index_pos(
                    w,
                    n - 1,
                ));
            }
        }
        assert forall|q: Pos|
            (exists|j: int|
                0 <= j < n && #[trigger] spec_px_code(s, j) == 3 && q
                    == crate::binary_maze::spec_index_pos(w, j)) implies cur.contains(q) by {
            let j = choose|j: int|
                0 <= j < n && #[trigger] spec_px_code(s, j) == 3 && q
                    == crate::binary_maze::spec_index_pos(w, j);
            if j < n - 1 {
                assert(prev.contains(q));
                let t = choose|t: int| 0 <= t < prev.len() && prev[t] == q;
                assert(cur[t] == q);
            } else {
                assert(cur[cur.len() - 1] == q);
            }
        }
    }
}

/// Reads a grid from the bytes of a raster image file.
pub struct MazeImageReader;

impl MazeImageReader {
    /// Decodes the image and classifies every pixel: a grid comes back
    /// exactly when the bytes decode and the decoded raster describes one,
    /// and then it is the well-formed grid the raster describes.
    pub fn read_maze(&self, bytes: &Vec<u8>) -> (r: Result<Maze, String>)
        ensures
            r is Ok <==> (spec_decode_rgb(bytes@) matches Some(t) && spec_parse_pixels(
                t.0 as int,
                t.1 as int,
                t.2,
            ) is Some),
            r matches Ok(m) ==> {
                let t = spec_decode_rgb(bytes@)->0;
                let g = spec_parse_pixels(t.0 as int, t.1 as int, t.2)->0;
                &&& maze_wf(&m)
                &&& m.w == t.0
                &&& m.h == t.1
                &&& m.start == g.0
                &&& m.goal == g.1
                &&& m.walls@ == g.2
            },
    {
        match decode_image_rgb(bytes) {
            Err(e) => Err(e),
            Ok((w, h, rgb)) => maze_from_pixels(w, h, &rgb),
        }
    }
}

/// The RGB colour of cell `i` when a grid is rendered: black walls, a red
/// start, a green goal, white free cells.
pub open spec fn spec_render_px(m: &Maze, i: int) -> (u8, u8, u8) {
    let code = crate::binary_maze::spec_grid_code(m, i);
    if code == 3 {
        (0u8, 0u8, 0u8)
    } else if code == 1 {
        (255u8, 0u8, 0u8)
    } else if code == 2 {
        (0u8, 255u8, 0u8)
    } else {
        (255u8, 255u8, 255u8)
    }
}

/// One channel of [`spec_render_px`], with path cells painted blue.
pub open spec fn spec_render_byte(m: &Maze, path: Seq<Pos>, k: int) -> u8 {
    let px = if path.contains(crate::binary_maze::spec_index_pos(m.w as int, k / 3)) {
        (0u8, 0u8, 255u8)
    } else {
        spec_render_px(m, k / 3)
    };
    if k % 3 == 0 {
        px.0
    } else if k % 3 == 1 {
        px.1
    } else {
        px.2
    }
}

/// Renders a grid to RGB samples, painting the cells of `path` blue over
/// the base colours.
pub fn render_pixels(m: &Maze, path: &Vec<Pos>) -> (r: Vec<u8>)
    requires
        maze_wf(m),
    ensures
        r@.len() == 3 * ((m.w as int) * (m.h as int)),
        forall|k: int| 0 <= k < r@.len() ==> #[trigger] r@[k] == spec_render_byte(m, path@, k),
{
    proof {
        assert((m.w as int) * (m.h as int) < 0x4000_0000) by (nonlinear_arith)
            requires
                0 <= m.w <= 0x7ffe,
                0 <= m.h <= 0x7ffe,
        ;
    }
    let n: usize = (m.w as usize) * (m.h as usize);
    let mut out: Vec<u8> = Vec::new();
    let mut i: usize = 0;
    while i < n
        invariant
            maze_wf(m),
            n == m.w * m.h,
            n < 0x4000_0000,
            0 <= i <= n,
            out@.len() == 3 * i,
            forall|k: int| 0 <= k < out@.len() ==> #[trigger] out@[k] == spec_render_byte(
                m,
                path@,
                k,
            ),
        decreases n - i,
    {
        let code = crate::binary_maze::grid_code(m, i, n);
        proof {
            crate::binary_maze::lemma_index_pos_roundtrip(m.w as int, m.h as int, i as int);
        }
        let xi: i16 = (i % (m.w as usize)) as i16;
        let yi: i16 = (i / (m.w as usize)) as i16;
        let pos = Pos { x: xi, y: yi };
        let px: [u8; 3] = if crate::paths::vec_contains_pos(path, pos) {
            [0, 0, 255]
        } else if code == 3 {
            [0, 0, 0]
        } else if code == 1 {
            [255, 0, 0]
        } else if code == 2 {
            [0, 255, 0]
        } else {
            [255, 255, 255]
        };
        out.push(px[0]);
        out.push(px[1]);
        out.push(px[2]);
        proof {
            assert forall|k: int| 0 <= k < out@.len() implies #[trigger] out@[k]
                == spec_render_byte(m, path@, k) by {
                if k >= 3 * i {
                    assert(k / 3 == i && (k % 3 == k - 3 * i)) by (nonlinear_arith)
                        requires
                            3 * i <= k < 3 * (i + 1),
                    ;
                }
            }
        }
        i = i + 1;
    }
    out
}

/// Writes grids as raster images.
pub struct ImageMazeWriter;

impl ImageMazeWriter {
    /// Renders the grid and encodes it as a PNG file.
    pub fn write_maze(&self, maze: &Maze) -> (r: Result<Vec<u8>, String>)
        requires
            maze_wf(maze),
    {
        let empty: Vec<Pos> = Vec::new();
        let rgb = render_pixels(maze, &empty);
        encode_png_rgb(maze.width(), maze.height(), &rgb)
    }

    /// Renders the grid with a path painted blue and encodes it as a PNG
    /// file.
    pub fn write_maze_with_path(&self, maze: &Maze, path: &Vec<Pos>) -> (r: Result<
        Vec<u8>,
        String,
    >)
        requires
            maze_wf(maze),
    {
        let rgb = render_pixels(maze, path);
        encode_png_rgb(maze.width(), maze.height(), &rgb)
    }
}
} // verus!
