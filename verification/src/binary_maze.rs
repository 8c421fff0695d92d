use vstd::prelude::*;

use crate::maze::{maze_wf, Maze, MAX_SIDE};
use crate::position::Pos;

verus! {

/// What `zstd` decompression yields on a byte string: `Some` payload for a
/// well-formed frame, `None` otherwise. Decompression is a function of the
/// bytes alone.
pub uninterp spec fn spec_zstd_decompress(s: Seq<u8>) -> Option<Seq<u8>>;

/// Relies on `zstd::stream::encode_all` at the default level: the output is
/// a zstd frame, and decoding a frame gives back exactly the bytes that were
/// encoded (the format is lossless). Encoding from a slice into a fresh
/// vector has no failing path, so the call succeeds.
#[verifier::external_body]
fn zstd_compress(data: &Vec<u8>) -> (r: Result<Vec<u8>, String>)
    ensures
        r is Ok,
        r matches Ok(c) ==> spec_zstd_decompress(c@) == Some(data@),
{
    match zstd::stream::encode_all(data.as_slice(), 0) {
        Ok(v) => Ok(v),
        Err(e) => Err(e.to_string()),
    }
}

/// Relies on `zstd::stream::decode_all`, whose result depends on the bytes
/// alone; `spec_zstd_decompress` names it.
#[verifier::external_body]
fn zstd_decompress(data: &Vec<u8>) -> (r: Result<Vec<u8>, String>)
    ensures
        r matches Ok(v) ==> spec_zstd_decompress(data@) == Some(v@),
        r is Err ==> spec_zstd_decompress(data@) is None,
{
    match zstd::stream::decode_all(data.as_slice()) {
        Ok(v) => Ok(v),
        Err(e) => Err(e.to_string()),
    }
}

/// One grid cell of the packed binary format, two bits each.
#[derive(Clone, Copy, PartialEq, Eq, Structural, Debug)]
pub enum Cell {
    Empty,
    Start,
    Goal,
    Wall,
}

impl Cell {
    /// The cell a two-bit code stands for.
    pub fn try_from(value: u8) -> (r: Result<Cell, String>)
        ensures
            r is Ok <==> value < 4,
            value == 0 ==> r == Ok::<Cell, String>(Cell::Empty),
            value == 1 ==> r == Ok::<Cell, String>(Cell::Start),
            value == 2 ==> r == Ok::<Cell, String>(Cell::Goal),
            value == 3 ==> r == Ok::<Cell, String>(Cell::Wall),
    {
        match value {
            0 => Ok(Cell::Empty),
            1 => Ok(Cell::Start),
            2 => Ok(Cell::Goal),
            3 => Ok(Cell::Wall),
            _ => Err("Invalid value provided".to_string()),
        }
    }

    /// The two-bit code of the cell.
    pub fn code(self) -> (r: u8)
        ensures
            r == spec_cell_value(self),
    {
        match self {
            Cell::Empty => 0,
            Cell::Start => 1,
            Cell::Goal => 2,
            Cell::Wall => 3,
        }
    }
}

/// The two-bit code of a cell.
pub open spec fn spec_cell_value(c: Cell) -> u8 {
    match c {
        Cell::Empty => 0,
        Cell::Start => 1,
        Cell::Goal => 2,
        Cell::Wall => 3,
    }
}

/// Unpacks the four cells of one byte, most significant pair first.
pub fn read_cell(b: u8) -> (r: [Cell; 4])
    ensures
        spec_cell_value(r[0]) == b / 64,
        spec_cell_value(r[1]) == (b / 16) % 4,
        spec_cell_value(r[2]) == (b / 4) % 4,
        spec_cell_value(r[3]) == b % 4,
{
    let c0 = match Cell::try_from(b / 64) {
        Ok(c) => c,
        Err(_) => Cell::Empty,
    };
    let c1 = match Cell::try_from((b / 16) % 4) {
        Ok(c) => c,
        Err(_) => Cell::Empty,
    };
    let c2 = match Cell::try_from((b / 4) % 4) {
        Ok(c) => c,
        Err(_) => Cell::Empty,
    };
    let c3 = match Cell::try_from(b % 4) {
        Ok(c) => c,
        Err(_) => Cell::Empty,
    };
    [c0, c1, c2, c3]
}

/// The four magic bytes every packed grid file starts with: `MAZE`.
pub open spec fn spec_header() -> Seq<u8> {
    seq![77u8, 65u8, 90u8, 69u8]
}

/// Does the byte string start with the magic header?
pub open spec fn spec_header_ok(s: Seq<u8>) -> bool {
    s.len() >= 4 && s.take(4) == spec_header()
}

/// The big-endian four-byte reading at `off`.
pub open spec fn spec_be32(s: Seq<u8>, off: int) -> int {
    (s[off] as int) * 0x1000000 + (s[off + 1] as int) * 0x10000 + (s[off + 2] as int) * 0x100 + (
    s[off + 3] as int)
}

/// The big-endian four-byte encoding of `v`.
pub open spec fn spec_be32_seq(v: int) -> Seq<u8> {
    seq![
        ((v / 0x1000000) % 0x100) as u8,
        ((v / 0x10000) % 0x100) as u8,
        ((v / 0x100) % 0x100) as u8,
        (v % 0x100) as u8,
    ]
}

/// The cell at row-major index `i` of a `w`-wide grid.
pub open spec fn spec_index_pos(w: int, i: int) -> Pos {
    Pos { x: (i % w) as i16, y: (i / w) as i16 }
}

/// The row-major index of `p` in a `w`-wide grid.
pub open spec fn spec_pos_index(w: int, p: Pos) -> int {
    p.y * w + p.x
}

/// The two-bit code of cell `i` of the grid: start `01`, goal `10`, wall
/// `11`, empty or out of range `00`.
pub open spec fn spec_grid_code(m: &Maze, i: int) -> int {
    if 0 <= i < m.w * m.h {
        let p = spec_index_pos(m.w as int, i);
        if p == m.start {
            1
        } else if p == m.goal {
            2
        } else if m.walls@.contains(p) {
            3
        } else {
            0
        }
    } else {
        0
    }
}

/// One byte of the packed cell array: four cells, most significant pair
/// first.
pub open spec fn spec_packed_byte(m: &Maze, b: int) -> u8 {
    (64 * spec_grid_code(m, 4 * b) + 16 * spec_grid_code(m, 4 * b + 1) + 4 * spec_grid_code(
        m,
        4 * b + 2,
    ) + spec_grid_code(m, 4 * b + 3)) as u8
}

/// The decompressed payload of a grid: width and height big-endian, then the
/// packed cells.
pub open spec fn spec_payload(m: &Maze) -> Seq<u8> {
    spec_be32_seq(m.w as int) + spec_be32_seq(m.h as int) + Seq::new(
        (((m.w * m.h) + 3) / 4) as nat,
        |b: int| spec_packed_byte(m, b),
    )
}

/// The two-bit code of cell `i` in a payload byte string.
pub open spec fn spec_code_at(p: Seq<u8>, i: int) -> int {
    let b = p[8 + i / 4] as int;
    if i % 4 == 0 {
        b / 64
    } else if i % 4 == 1 {
        (b / 16) % 4
    } else if i % 4 == 2 {
        (b / 4) % 4
    } else {
        b % 4
    }
}

/// How many of the first `n` cells carry code `c`.
pub open spec fn spec_count_code(p: Seq<u8>, n: int, c: int) -> int
    decreases n,
{
    if n <= 0 {
        0
    } else {
        spec_count_code(p, n - 1, c) + if spec_code_at(p, n - 1) == c {
            1int
        } else {
            0int
        }
    }
}

/// The first of the `n` cells carrying code `c`, if any.
pub open spec fn spec_first_code(p: Seq<u8>, n: int, c: int) -> Option<int>
    decreases n,
{
    if n <= 0 {
        None
    } else if spec_first_code(p, n - 1, c) is Some {
        spec_first_code(p, n - 1, c)
    } else if spec_code_at(p, n - 1) == c {
        Some(n - 1)
    } else {
        None
    }
}

/// The wall cells among the first `n`, in index order.
pub open spec fn spec_walls_upto(p: Seq<u8>, w: int, n: int) -> Seq<Pos>
    decreases n,
{
    if n <= 0 {
        Seq::empty()
    } else {
        spec_walls_upto(p, w, n - 1) + if spec_code_at(p, n - 1) == 3 {
            seq![spec_index_pos(w, n - 1)]
        } else {
            Seq::empty()
        }
    }
}

/// What a decompressed payload describes: `Some(width, height, start, goal,
/// walls)` when the sizes are in range, the payload covers every cell, and
/// exactly one start and one goal are present; `None` otherwise.
pub open spec fn spec_parse_grid(p: Seq<u8>) -> Option<(u32, u32, Pos, Pos, Seq<Pos>)> {
    if p.len() < 8 {
        None
    } else {
        let w = spec_be32(p, 0);
        let h = spec_be32(p, 4);
        if !(1 <= w <= MAX_SIDE && 1 <= h <= MAX_SIDE) {
            None
        } else {
            let n = w * h;
            if p.len() < 8 + (n + 3) / 4 {
                None
            } else if spec_count_code(p, n, 1) == 1 && spec_count_code(p, n, 2) == 1 {
                Some(
                    (
                        w as u32,
                        h as u32,
                        spec_index_pos(w, spec_first_code(p, n, 1)->0),
                        spec_index_pos(w, spec_first_code(p, n, 2)->0),
                        spec_walls_upto(p, w, n),
                    ),
                )
            } else {
                None
            }
        }
    }
}

/// How reading a packed grid can fail.
#[derive(Debug)]
pub enum BinaryMazeError {
    /// The magic header is missing.
    BadHeader,
    /// The compressed stream does not decode.
    Corrupt(String),
    /// The decompressed payload does not describe a grid.
    Malformed(String),
}


/// Decomposition facts for a packed byte built from four two-bit codes.
proof fn lemma_unpack(c0: int, c1: int, c2: int, c3: int)
    requires
        0 <= c0 <= 3,
        0 <= c1 <= 3,
        0 <= c2 <= 3,
        0 <= c3 <= 3,
    ensures
        ({
            let b = 64 * c0 + 16 * c1 + 4 * c2 + c3;
            &&& 0 <= b <= 255
            &&& b / 64 == c0
            &&& (b / 16) % 4 == c1
            &&& (b / 4) % 4 == c2
            &&& b % 4 == c3
        }),
{
    let b = 64 * c0 + 16 * c1 + 4 * c2 + c3;
    assert(b / 64 == c0 && (b / 16) % 4 == c1 && (b / 4) % 4 == c2 && b % 4 == c3) by (
    nonlinear_arith)
        requires
            0 <= c0 <= 3,
            0 <= c1 <= 3,
            0 <= c2 <= 3,
            0 <= c3 <= 3,
            b == 64 * c0 + 16 * c1 + 4 * c2 + c3,
    ;
}

/// Index arithmetic of a `w`-wide grid: valid positions and in-range
/// indices correspond one to one.
pub(crate) proof fn lemma_pos_index_roundtrip(w: int, h: int, p: Pos)
    requires
        1 <= w <= MAX_SIDE,
        1 <= h <= MAX_SIDE,
        0 <= p.x < w,
        0 <= p.y < h,
    ensures
        0 <= spec_pos_index(w, p) < w * h,
        spec_index_pos(w, spec_pos_index(w, p)) == p,
{
    let i = p.y * w + p.x;
    assert(0 <= i && i < w * h && i / w == p.y && i % w == p.x) by (nonlinear_arith)
        requires
            1 <= w,
            0 <= p.x < w,
            0 <= p.y < h,
            i == p.y * w + p.x,
    ;
}

/// An in-range index decodes to a valid position that encodes back to it.
pub(crate) proof fn lemma_index_pos_roundtrip(w: int, h: int, i: int)
    requires
        1 <= w <= MAX_SIDE,
        1 <= h <= MAX_SIDE,
        0 <= i < w * h,
    ensures
        0 <= spec_index_pos(w, i).x < w,
        0 <= spec_index_pos(w, i).y < h,
        spec_pos_index(w, spec_index_pos(w, i)) == i,
{
    assert(0 <= i % w < w && 0 <= i / w < h && (i / w) * w + i % w == i) by (nonlinear_arith)
        requires
            1 <= w,
            0 <= i < w * h,
    ;
}

/// Cell counts grow with the range.
proof fn lemma_count_mono(p: Seq<u8>, a: int, b: int, c: int)
    requires
        a <= b,
    ensures
        spec_count_code(p, a, c) <= spec_count_code(p, b, c),
    decreases b - a,
{
    if a < b {
        lemma_count_mono(p, a, b - 1, c);
    }
}

/// The first occurrence of a code is an in-range cell carrying it.
proof fn lemma_first_code_props(p: Seq<u8>, n: int, c: int)
    requires
        spec_first_code(p, n, c) is Some,
    ensures
        0 <= spec_first_code(p, n, c)->0 < n,
        spec_code_at(p, spec_first_code(p, n, c)->0) == c,
    decreases n,
{
    if n > 0 && spec_first_code(p, n - 1, c) is Some {
        lemma_first_code_props(p, n - 1, c);
    }
}

/// Membership in the wall list of a payload prefix.
proof fn lemma_walls_upto_membership(p: Seq<u8>, w: int, n: int)
    ensures
        forall|q: Pos|
            spec_walls_upto(p, w, n).contains(q) <==> exists|j: int|
                0 <= j < n && #[trigger] spec_code_at(p, j) == 3 && q == spec_index_pos(w, j),
    decreases n,
{
    if n > 0 {
        lemma_walls_upto_membership(p, w, n - 1);
        let cur = spec_walls_upto(p, w, n);
        let prev = spec_walls_upto(p, w, n - 1);
        assert forall|q: Pos| cur.contains(q) implies exists|j: int|
            0 <= j < n && #[trigger] spec_code_at(p, j) == 3 && q == spec_index_pos(w, j) by {
            let t = choose|t: int| 0 <= t < cur.len() && cur[t] == q;
            if t < prev.len() {
                assert(prev[t] == q);
                assert(prev.contains(q));
                let j = choose|j: int|
                    0 <= j < n - 1 && #[trigger] spec_code_at(p, j) == 3 && q == spec_index_pos(
                        w,
                        j,
                    );
                assert(0 <= j < n && spec_code_at(p, j) == 3 && q == spec_index_pos(w, j));
            } else {
                assert(spec_code_at(p, n - 1) == 3 && q == spec_index_pos(w, n - 1));
            }
        }
        assert forall|q: Pos|
            (exists|j: int|
                0 <= j < n && #[trigger] spec_code_at(p, j) == 3 && q == spec_index_pos(
                    w,
                    j,
                )) implies cur.contains(q) by {
            let j = choose|j: int|
                0 <= j < n && #[trigger] spec_code_at(p, j) == 3 && q == spec_index_pos(w, j);
            if j < n - 1 {
                assert(prev.contains(q));
                let t = choose|t: int| 0 <= t < prev.len() && prev[t] == q;
                assert(cur[t] == q);
            } else {
                assert(cur[cur.len() - 1] == q);
            }
        }
    }
}

/// Reads the big-endian word at `off`.
fn read_be32(p: &Vec<u8>, off: usize) -> (r: u32)
    requires
        off + 4 <= p@.len(),
    ensures
        r == spec_be32(p@, off as int),
{
    let l = p.len();
    let v: u64 = (p[off] as u64) * 0x1000000 + (p[off + 1] as u64) * 0x10000 + (p[off + 2]
        as u64) * 0x100 + (p[off + 3] as u64);
    v as u32
}

/// Turns a decompressed payload into a validated grid.
pub fn parse_payload(p: &Vec<u8>) -> (r: Result<Maze, BinaryMazeError>)
    ensures
        r is Ok <==> spec_parse_grid(p@) is Some,
        r matches Err(e) ==> e is Malformed,
        r matches Ok(m) ==> {
            let t = spec_parse_grid(p@)->0;
            &&& maze_wf(&m)
            &&& m.w == t.0
            &&& m.h == t.1
            &&& m.start == t.2
            &&& m.goal == t.3
            &&& m.walls@ == t.4
        },
{
    if p.len() < 8 {
        return Err(BinaryMazeError::Malformed("payload too short".to_string()));
    }
    let w = read_be32(p, 0);
    let h = read_be32(p, 4);
    if w < 1 || w > MAX_SIDE || h < 1 || h > MAX_SIDE {
        return Err(BinaryMazeError::Malformed("grid sides out of range".to_string()));
    }
    proof {
        assert((w as int) * (h as int) < 0x4000_0000) by (nonlinear_arith)
            requires
                0 <= w <= 0x7ffe,
                0 <= h <= 0x7ffe,
        ;
    }
    let n: usize = (w as usize) * (h as usize);
    let nbytes: usize = (n + 3) / 4;
    if p.len() < 8 + nbytes {
        return Err(BinaryMazeError::Malformed("payload truncated".to_string()));
    }
    let mut start_opt: Option<Pos> = None;
    let mut goal_opt: Option<Pos> = None;
    let mut walls: Vec<Pos> = Vec::new();
    let mut i: usize = 0;
    while i < n
        invariant
            p@.len() >= 8 + nbytes,
            1 <= w <= MAX_SIDE,
            1 <= h <= MAX_SIDE,
            w == spec_be32(p@, 0),
            h == spec_be32(p@, 4),
            n == w * h,
            nbytes == (n + 3) / 4,
            0 <= i <= n,
            start_opt is Some <==> spec_first_code(p@, i as int, 1) is Some,
            start_opt matches Some(sp) ==> sp == spec_index_pos(
                w as int,
                spec_first_code(p@, i as int, 1)->0,
            ),
            spec_count_code(p@, i as int, 1) == if start_opt is Some {
                1int
            } else {
                0int
            },
            goal_opt is Some <==> spec_first_code(p@, i as int, 2) is Some,
            goal_opt matches Some(gp) ==> gp == spec_index_pos(
                w as int,
                spec_first_code(p@, i as int, 2)->0,
            ),
            spec_count_code(p@, i as int, 2) == if goal_opt is Some {
                1int
            } else {
                0int
            },
            walls@ == spec_walls_upto(p@, w as int, i as int),
            walls@.no_duplicates(),
            forall|j: int|
                0 <= j < walls@.len() ==> 0 <= (#[trigger] walls@[j]).x < w && 0 <= walls@[j].y
                    < h,
        decreases n - i,
    {
        proof {
            assert((i as int) / 4 < nbytes) by (nonlinear_arith)
                requires
                    0 <= i < n,
                    nbytes == (n + 3) / 4,
            ;
        }
        let b = p[8 + i / 4];
        let q = i % 4;
        let code: u8 = if q == 0 {
            b / 64
        } else if q == 1 {
            (b / 16) % 4
        } else if q == 2 {
            (b / 4) % 4
        } else {
            b % 4
        };
        proof {
            assert(code == spec_code_at(p@, i as int));
            lemma_index_pos_roundtrip(w as int, h as int, i as int);
        }
        let xi: i16 = (i % (w as usize)) as i16;
        let yi: i16 = (i / (w as usize)) as i16;
        let pos = Pos { x: xi, y: yi };
        proof {
            assert(pos == spec_index_pos(w as int, i as int));
        }
        if code == 1 {
            if start_opt.is_some() {
                proof {
                    lemma_count_mono(p@, i + 1 as int, n as int, 1);
                }
                return Err(BinaryMazeError::Malformed("more than one start".to_string()));
            }
            start_opt = Some(pos);
        } else if code == 2 {
            if goal_opt.is_some() {
                proof {
                    lemma_count_mono(p@, i + 1 as int, n as int, 2);
                }
                return Err(BinaryMazeError::Malformed("more than one goal".to_string()));
            }
            goal_opt = Some(pos);
        } else if code == 3 {
            proof {
                lemma_walls_upto_membership(p@, w as int, i as int);
                if walls@.contains(pos) {
                    let j = choose|j: int|
                        0 <= j < i && #[trigger] spec_code_at(p@, j) == 3 && pos
                            == spec_index_pos(w as int, j);
                    lemma_index_pos_roundtrip(w as int, h as int, j);
                    assert(false);
                }
            }
            walls.push(pos);
            proof {
                assert(walls@.drop_last() == spec_walls_upto(p@, w as int, i as int));
                assert(walls@ =~= spec_walls_upto(p@, w as int, i + 1 as int));
            }
        }
        i = i + 1;
    }
    match (start_opt, goal_opt) {
        (Some(s), Some(g)) => {
            proof {
                let np = n as int;
                let wi = w as int;
                let is = spec_first_code(p@, np, 1)->0;
                let ig = spec_first_code(p@, np, 2)->0;
                lemma_first_code_props(p@, np, 1);
                lemma_first_code_props(p@, np, 2);
                lemma_index_pos_roundtrip(wi, h as int, is);
                lemma_index_pos_roundtrip(wi, h as int, ig);
                assert(s != g) by {
                    if s == g {
                        assert(spec_pos_index(wi, s) == is && spec_pos_index(wi, g) == ig);
                    }
                }
                lemma_walls_upto_membership(p@, wi, np);
                assert(!walls@.contains(s)) by {
                    if walls@.contains(s) {
                        let j = choose|j: int|
                            0 <= j < np && #[trigger] spec_code_at(p@, j) == 3 && s
                                == spec_index_pos(wi, j);
                        lemma_index_pos_roundtrip(wi, h as int, j);
                        assert(spec_pos_index(wi, s) == j && spec_pos_index(wi, s) == is);
                    }
                }
                assert(!walls@.contains(g)) by {
                    if walls@.contains(g) {
                        let j = choose|j: int|
                            0 <= j < np && #[trigger] spec_code_at(p@, j) == 3 && g
                                == spec_index_pos(wi, j);
                        lemma_index_pos_roundtrip(wi, h as int, j);
                        assert(spec_pos_index(wi, g) == j && spec_pos_index(wi, g) == ig);
                    }
                }
            }
            let m = Maze { w, h, start: s, goal: g, walls };
            Ok(m)
        },
        _ => Err(BinaryMazeError::Malformed("start or goal missing".to_string())),
    }
}

/// Packs a grid into its decompressed payload bytes.
pub fn encode_payload(m: &Maze) -> (r: Vec<u8>)
    requires
        maze_wf(m),
    ensures
        r@ == spec_payload(m),
{
    let w = m.width();
    let h = m.height();
    let mut out: Vec<u8> = Vec::new();
    out.push(((w / 0x1000000) % 0x100) as u8);
    out.push(((w / 0x10000) % 0x100) as u8);
    out.push(((w / 0x100) % 0x100) as u8);
    out.push((w % 0x100) as u8);
    out.push(((h / 0x1000000) % 0x100) as u8);
    out.push(((h / 0x10000) % 0x100) as u8);
    out.push(((h / 0x100) % 0x100) as u8);
    out.push((h % 0x100) as u8);
    proof {
        assert((w as int) * (h as int) < 0x4000_0000) by (nonlinear_arith)
            requires
                0 <= w <= 0x7ffe,
                0 <= h <= 0x7ffe,
        ;
    }
    let n: usize = (w as usize) * (h as usize);
    let nbytes: usize = (n + 3) / 4;
    let mut b: usize = 0;
    while b < nbytes
        invariant
            maze_wf(m),
            w == m.w,
            h == m.h,
            n == w * h,
            nbytes == (n + 3) / 4,
            0 <= b <= nbytes,
            out@.len() == 8 + b,
            out@.take(4) == spec_be32_seq(m.w as int),
            out@.subrange(4, 8) == spec_be32_seq(m.h as int),
            forall|j: int| 0 <= j < b ==> out@[8 + j] == spec_packed_byte(m, j),
        decreases nbytes - b,
    {
        let c0 = grid_code(m, 4 * b, n);
        let c1 = grid_code(m, 4 * b + 1, n);
        let c2 = grid_code(m, 4 * b + 2, n);
        let c3 = grid_code(m, 4 * b + 3, n);
        proof {
            lemma_unpack(c0 as int, c1 as int, c2 as int, c3 as int);
        }
        let byte: u8 = 64 * c0 + 16 * c1 + 4 * c2 + c3;
        let ghost old_out = out@;
        out.push(byte);
        proof {
            assert(out@.take(4) =~= old_out.take(4));
            assert(out@.subrange(4, 8) =~= old_out.subrange(4, 8));
        }
        b = b + 1;
    }
    proof {
        assert(out@ =~= spec_payload(m));
    }
    out
}

/// The two-bit code of cell `idx` of the grid, `0` past the end.
pub(crate) fn grid_code(m: &Maze, idx: usize, n: usize) -> (r: u8)
    requires
        maze_wf(m),
        n == m.w * m.h,
        idx <= 4 * n + 3,
    ensures
        r == spec_grid_code(m, idx as int),
        r <= 3,
{
    if idx >= n {
        return 0;
    }
    proof {
        lemma_index_pos_roundtrip(m.w as int, m.h as int, idx as int);
    }
    let xi: i16 = (idx % (m.w as usize)) as i16;
    let yi: i16 = (idx / (m.w as usize)) as i16;
    let pos = Pos { x: xi, y: yi };
    if pos == m.start {
        1
    } else if pos == m.goal {
        2
    } else if m.is_wall(pos) {
        3
    } else {
        0
    }
}

/// Reads packed binary grid files.
pub struct MazeBinaryReader;

impl MazeBinaryReader {
    /// Does `bytes` start with the magic header of the packed format?
    pub fn check(&self, bytes: &Vec<u8>) -> (r: bool)
        ensures
            r == spec_header_ok(bytes@),
    {
        let r = bytes.len() >= 4 && bytes[0] == 77 && bytes[1] == 65 && bytes[2] == 90
            && bytes[3] == 69;
        proof {
            if bytes@.len() >= 4 {
                if bytes@[0] == 77 && bytes@[1] == 65 && bytes@[2] == 90 && bytes@[3] == 69 {
                    assert(bytes@.take(4) =~= spec_header());
                } else {
                    if bytes@.take(4) == spec_header() {
                        assert(bytes@.take(4)[0] == bytes@[0] && bytes@.take(4)[1] == bytes@[1]
                            && bytes@.take(4)[2] == bytes@[2] && bytes@.take(4)[3] == bytes@[3]);
                    }
                }
            }
        }
        r
    }

    /// Reads a grid from the bytes of a packed file: the magic header, then
    /// one compressed stream whose payload is the grid.
    pub fn read_maze(&self, bytes: &Vec<u8>) -> (r: Result<Maze, BinaryMazeError>)
        ensures
            (r matches Err(e) && e is BadHeader) <==> !spec_header_ok(bytes@),
            spec_header_ok(bytes@) ==> match spec_zstd_decompress(bytes@.skip(4)) {
                Option::None => r matches Err(e) && e is Corrupt,
                Option::Some(p) => {
                    &&& (r is Ok <==> spec_parse_grid(p) is Some)
                    &&& (r matches Ok(m) ==> {
                        let t = spec_parse_grid(p)->0;
                        &&& maze_wf(&m)
                        &&& m.w == t.0
                        &&& m.h == t.1
                        &&& m.start == t.2
                        &&& m.goal == t.3
                        &&& m.walls@ == t.4
                    })
                },
            },
    {
        if !self.check(bytes) {
            return Err(BinaryMazeError::BadHeader);
        }
        let mut rest: Vec<u8> = Vec::new();
        let mut i: usize = 4;
        while i < bytes.len()
            invariant
                4 <= i <= bytes@.len(),
                rest@ == bytes@.subrange(4, i as int),
            decreases bytes@.len() - i,
        {
            proof {
                assert(bytes@.subrange(4, i + 1 as int).drop_last() =~= bytes@.subrange(
                    4,
                    i as int,
                ));
                assert(bytes@.subrange(4, i + 1 as int).last() == bytes@[i as int]);
            }
            rest.push(bytes[i]);
            i = i + 1;
        }
        proof {
            assert(rest@ =~= bytes@.skip(4));
        }
        match zstd_decompress(&rest) {
            Err(e) => Err(BinaryMazeError::Corrupt(e)),
            Ok(payload) => parse_payload(&payload),
        }
    }
}

/// Writes packed binary grid files.
pub struct BinaryMazeWriter;

impl BinaryMazeWriter {
    /// Serialises a grid: the magic header, then the compressed payload.
    /// Serialisation always succeeds, and decompressing what follows the
    /// header gives back exactly the payload of the grid.
    pub fn write_maze(&self, maze: &Maze) -> (r: Result<Vec<u8>, String>)
        requires
            maze_wf(maze),
        ensures
            r is Ok,
            r matches Ok(bytes) ==> spec_header_ok(bytes@) && spec_zstd_decompress(bytes@.skip(4))
                == Some(spec_payload(maze)),
    {
        let payload = encode_payload(maze);
        match zstd_compress(&payload) {
            Err(e) => Err(e),
            Ok(compressed) => {
                let mut out: Vec<u8> = Vec::new();
                out.push(77);
                out.push(65);
                out.push(90);
                out.push(69);
                let mut i: usize = 0;
                while i < compressed.len()
                    invariant
                        0 <= i <= compressed@.len(),
                        out@.len() == 4 + i,
                        out@.take(4) == spec_header(),
                        out@.skip(4) == compressed@.take(i as int),
                    decreases compressed@.len() - i,
                {
                    let ghost old_out = out@;
                    out.push(compressed[i]);
                    proof {
                        assert(out@.take(4) =~= old_out.take(4));
                        assert(out@.skip(4) =~= compressed@.take(i + 1 as int));
                    }
                    i = i + 1;
                }
                proof {
                    assert(compressed@.take(compressed@.len() as int) =~= compressed@);
                }
                Ok(out)
            },
        }
    }
}

/// Serialising a grid and parsing the result gives the grid back: the
/// payload of a well-formed grid parses to its exact width, height, start
/// and goal, and to its exact set of walls. Together with the contracts of
/// the writer and reader this makes a binary write followed by a binary
/// read the identity on grids.
pub proof fn lemma_binary_round_trip(m: &Maze)
    requires
        maze_wf(m),
    ensures
        spec_parse_grid(spec_payload(m)) matches Some(t) && t.0 == m.w && t.1 == m.h && t.2
            == m.start && t.3 == m.goal && t.4.to_set() == m.walls@.to_set(),
{
    let p = spec_payload(m);
    let wi = m.w as int;
    let hi = m.h as int;
    let n = wi * hi;
    assert(0 < n < 0x4000_0000) by (nonlinear_arith)
        requires
            1 <= wi <= 0x7ffe,
            1 <= hi <= 0x7ffe,
            n == wi * hi,
    ;
    let nbytes = (n + 3) / 4;
    assert(p.len() == 8 + nbytes);
    // The size words read back.
    assert(spec_be32(p, 0) == wi && spec_be32(p, 4) == hi) by {
        assert(p[0] == ((wi / 0x1000000) % 0x100) as u8);
        assert(p[1] == ((wi / 0x10000) % 0x100) as u8);
        assert(p[2] == ((wi / 0x100) % 0x100) as u8);
        assert(p[3] == (wi % 0x100) as u8);
        assert(p[4] == ((hi / 0x1000000) % 0x100) as u8);
        assert(p[5] == ((hi / 0x10000) % 0x100) as u8);
        assert(p[6] == ((hi / 0x100) % 0x100) as u8);
        assert(p[7] == (hi % 0x100) as u8);
    }
    // Every cell code reads back.
    assert forall|i: int| 0 <= i < n implies #[trigger] spec_code_at(p, i) == spec_grid_code(
        m,
        i,
    ) by {
        assert(0 <= i / 4 < nbytes) by (nonlinear_arith)
            requires
                0 <= i < n,
                nbytes == (n + 3) / 4,
        ;
        assert(p[8 + i / 4] == spec_packed_byte(m, i / 4));
        let b = i / 4;
        lemma_unpack(
            spec_grid_code(m, 4 * b),
            spec_grid_code(m, 4 * b + 1),
            spec_grid_code(m, 4 * b + 2),
            spec_grid_code(m, 4 * b + 3),
        );
        assert(i == 4 * b + i % 4);
    }
    let is = spec_pos_index(wi, m.start);
    let ig = spec_pos_index(wi, m.goal);
    lemma_pos_index_roundtrip(wi, hi, m.start);
    lemma_pos_index_roundtrip(wi, hi, m.goal);
    assert(spec_grid_code(m, is) == 1);
    assert(spec_grid_code(m, ig) == 2) by {
        if spec_index_pos(wi, ig) == m.start {
            lemma_pos_index_roundtrip(wi, hi, m.start);
        }
    }
    assert forall|i: int| 0 <= i < n && #[trigger] spec_grid_code(m, i) == 1 implies i == is by {
        lemma_index_pos_roundtrip(wi, hi, i);
    }
    assert forall|i: int| 0 <= i < n && #[trigger] spec_grid_code(m, i) == 2 implies i == ig by {
        lemma_index_pos_roundtrip(wi, hi, i);
    }
    lemma_counts_in_payload(m, p, n, is, 1);
    lemma_counts_in_payload(m, p, n, ig, 2);
    assert(spec_count_code(p, n, 1) == 1 && spec_first_code(p, n, 1) == Some(is));
    assert(spec_count_code(p, n, 2) == 1 && spec_first_code(p, n, 2) == Some(ig));
    let t = spec_parse_grid(p)->0;
    assert(t.2 == m.start && t.3 == m.goal);
    // Wall sets agree.
    lemma_walls_upto_membership(p, wi, n);
    assert(t.4.to_set() =~= m.walls@.to_set()) by {
        assert forall|q: Pos| t.4.to_set().contains(q) implies m.walls@.to_set().contains(q) by {
            let j = choose|j: int|
                0 <= j < n && #[trigger] spec_code_at(p, j) == 3 && q == spec_index_pos(wi, j);
            assert(spec_grid_code(m, j) == 3);
            assert(m.walls@.contains(q));
            let u = choose|u: int| 0 <= u < m.walls@.len() && m.walls@[u] == q;
        }
        assert forall|q: Pos| m.walls@.to_set().contains(q) implies t.4.to_set().contains(q) by {
            let u = choose|u: int| 0 <= u < m.walls@.len() && m.walls@[u] == q;
            assert(m.walls@.contains(q));
            lemma_pos_index_roundtrip(wi, hi, q);
            let j = spec_pos_index(wi, q);
            assert(spec_grid_code(m, j) == 3);
            assert(spec_code_at(p, j) == 3 && q == spec_index_pos(wi, j));
            assert(t.4.contains(q));
        }
    }
}

/// In the payload of a grid with a unique cell of code `c` at index `idx`,
/// the count of `c` over any prefix is one past `idx` and zero before, and
/// the first occurrence is `idx`.
proof fn lemma_counts_in_payload(m: &Maze, p: Seq<u8>, k: int, idx: int, c: int)
    requires
        maze_wf(m),
        0 <= idx < m.w * m.h,
        k <= m.w * m.h,
        spec_grid_code(m, idx) == c,
        forall|i: int| 0 <= i < m.w * m.h && #[trigger] spec_grid_code(m, i) == c ==> i == idx,
        forall|i: int|
            0 <= i < m.w * m.h ==> #[trigger] spec_code_at(p, i) == spec_grid_code(m, i),
    ensures
        spec_count_code(p, k, c) == if k > idx {
            1int
        } else {
            0int
        },
        spec_first_code(p, k, c) == if k > idx {
            Some(idx)
        } else {
            Option::<int>::None
        },
    decreases k,
{
    if k > 0 {
        lemma_counts_in_payload(m, p, k - 1, idx, c);
    }
}
} // verus!
