//! The spatial encoder and decoder: a byte buffer laid out along the Hilbert
//! curve on a square single-channel raster, and read back from it.
use crate::curve::{grid_side, hilbert_point, is_grid_side, is_pow2, to_2d};
use crate::metadata::MappingMetadata;
use vstd::prelude::*;
use vstd::relations::injective_on;
use vstd::set_lib::{lemma_int_range, lemma_map_size, lemma_subset_equality, set_int_range};

verus! {

/// A square grid of 8-bit intensities, stored row by row: the pixel at
/// `(x, y)` is `pixels[y * side + x]`.
pub struct Raster {
    pub side: usize,
    pub pixels: Vec<u8>,
}

/// Position in row-major storage of the cell `(x, y)` on a grid of side `n`.
pub open spec fn cell_index(p: (nat, nat), n: nat) -> int {
    (p.1 * n + p.0) as int
}

impl Raster {
    /// The side is a power of two and every cell has a pixel.
    pub open spec fn wf(&self) -> bool {
        &&& is_pow2(self.side as nat)
        &&& self.pixels@.len() == self.side * self.side
    }

    /// The intensity at the cell that the curve visits at distance `i`.
    pub open spec fn curve_pixel(&self, i: nat) -> u8 {
        self.pixels@[cell_index(hilbert_point(i, self.side as nat), self.side as nat)]
    }

    /// Checks `wf` at run time.
    pub fn is_well_formed(&self) -> (r: bool)
        ensures
            r == self.wf(),
    {
        let side = self.side;
        let plen = self.pixels.len();
        if side == 0 || side > 0xffff_ffff {
            proof {
                if side > 0xffff_ffff {
                    lemma_pow2_square_len(side as nat, plen as nat);
                }
            }
            return false;
        }
        let mut m: usize = side;
        while m > 1 && m % 2 == 0
            invariant
                m >= 1,
                is_pow2(m as nat) == is_pow2(side as nat),
            decreases m,
        {
            m = m / 2;
        }
        let pow2 = m == 1;
        assert(side * side <= 0xffff_ffff * 0xffff_ffff) by (nonlinear_arith)
            requires
                side <= 0xffff_ffff,
        ;
        let cells: u64 = side as u64 * side as u64;
        pow2 && plen as u64 == cells
    }
}

/// A well-formed raster whose side is above 2^32 cannot have a pixel per cell.
proof fn lemma_pow2_square_len(side: nat, len: nat)
    requires
        side > 0xffff_ffff,
        len <= usize::MAX,
    ensures
        len != side * side,
{
    assert(side * side >= 0x1_0000_0000 * 0x1_0000_0000) by (nonlinear_arith)
        requires
            side >= 0x1_0000_0000,
    ;
}

/// `r` is the raster of `data`: the grid is the smallest that holds it, the byte
/// at position `i` sits at the cell that the curve visits at distance `i`, and
/// every cell that no position reaches is zero.
pub open spec fn is_raster_of(r: Raster, data: Seq<u8>) -> bool {
    &&& r.wf()
    &&& is_grid_side(r.side as nat, data.len())
    &&& forall|i: nat| i < data.len() ==> #[trigger] r.curve_pixel(i) == data[i as int]
    &&& forall|c: int|
        0 <= c < r.pixels@.len() && (forall|i: nat|
            i < data.len() ==> cell_index(#[trigger] hilbert_point(i, r.side as nat), r.side as nat)
                != c) ==> r.pixels@[c] == 0
}

/// The first `len` bytes read back from `r` along the curve.
pub open spec fn read_back(r: Raster, len: nat) -> Seq<u8> {
    Seq::new(len, |i: int| r.curve_pixel(i as nat))
}

proof fn lemma_cell_index_injective(a: (nat, nat), b: (nat, nat), n: nat)
    requires
        a.0 < n,
        a.1 < n,
        b.0 < n,
        b.1 < n,
        cell_index(a, n) == cell_index(b, n),
    ensures
        a == b,
{
    if a.1 < b.1 {
        assert(a.1 * n + n <= b.1 * n) by (nonlinear_arith)
            requires
                a.1 < b.1,
        ;
    } else if b.1 < a.1 {
        assert(b.1 * n + n <= a.1 * n) by (nonlinear_arith)
            requires
                b.1 < a.1,
        ;
    }
}

proof fn lemma_cell_index_bound(p: (nat, nat), n: nat)
    requires
        p.0 < n,
        p.1 < n,
    ensures
        0 <= cell_index(p, n) < n * n,
        p.1 * n <= cell_index(p, n),
{
    assert(p.1 * n + p.0 < n * n) by (nonlinear_arith)
        requires
            p.0 < n,
            p.1 < n,
    ;
}

/// Every cell of the grid of side `n` is the cell of some distance below `len`.
pub open spec fn reaches_every_cell(n: nat, len: nat) -> bool {
    forall|c: int| 0 <= c < n * n ==> #[trigger] cell_reached(n, len, c)
}

/// The cell at row-major position `c` is the cell of some distance below `len`.
pub open spec fn cell_reached(n: nat, len: nat, c: int) -> bool {
    exists|i: nat| i < len && #[trigger] cell_index(hilbert_point(i, n), n) == c
}

/// Where the distances below `n * n` reach distinct cells of the grid, they
/// reach all of them.
proof fn lemma_distinct_cells_cover(n: nat)
    requires
        forall|j: nat|
            j < n * n ==> {
                let p = #[trigger] hilbert_point(j, n);
                &&& p.0 < n
                &&& p.1 < n
                &&& forall|e: nat| e < n * n && #[trigger] hilbert_point(e, n) == p ==> e == j
            },
    ensures
        reaches_every_cell(n, n * n),
{
    let f = |i: int| cell_index(hilbert_point(i as nat, n), n);
    let dom = set_int_range(0, (n * n) as int);
    let img = dom.map(f);
    lemma_int_range(0, (n * n) as int);
    assert(injective_on(f, dom)) by {
        assert forall|x1: int, x2: int|
            dom.contains(x1) && dom.contains(x2) && #[trigger] f(x1) == #[trigger] f(x2) implies x1 == x2 by {
            let q1 = hilbert_point(x1 as nat, n);
            let q2 = hilbert_point(x2 as nat, n);
            lemma_cell_index_injective(q1, q2, n);
        }
    }
    lemma_map_size(dom, img, f);
    assert(img.subset_of(dom)) by {
        assert forall|a: int| img.contains(a) implies dom.contains(a) by {
            let x = choose|x: int| dom.contains(x) && a == f(x);
            lemma_cell_index_bound(hilbert_point(x as nat, n), n);
        }
    }
    lemma_subset_equality(img, dom);
    assert forall|c: int| 0 <= c < n * n implies #[trigger] cell_reached(n, n * n, c) by {
        assert(dom.contains(c));
        assert(img.contains(c));
        let x = choose|x: int| dom.contains(x) && c == f(x);
        assert(cell_index(hilbert_point(x as nat, n), n) == c);
    }
}

/// Lays `data` out on the smallest power-of-two square raster, along the curve.
pub fn encode(data: &Vec<u8>) -> (r: Raster)
    requires
        data@.len() <= usize::MAX / 4,
    ensures
        is_raster_of(r, data@),
        data@.len() == r.side * r.side ==> reaches_every_cell(r.side as nat, data@.len()),
{
    let len = data.len();
    let n = grid_side(len);
    let mut pixels: Vec<u8> = vec![0u8; n * n];
    let mut i: usize = 0;
    while i < len
        invariant
            len == data@.len(),
            is_grid_side(n as nat, len as nat),
            n * n <= usize::MAX,
            i <= len,
            pixels@.len() == n * n,
            forall|j: nat|
                j < i ==> {
                    let p = #[trigger] hilbert_point(j, n as nat);
                    &&& p.0 < n
                    &&& p.1 < n
                    &&& forall|e: nat| e < n * n && #[trigger] hilbert_point(e, n as nat) == p ==> e == j
                    &&& pixels@[cell_index(p, n as nat)] == data@[j as int]
                },
            forall|c: int|
                0 <= c < pixels@.len() && (forall|j: nat|
                    j < i ==> cell_index(#[trigger] hilbert_point(j, n as nat), n as nat) != c)
                    ==> pixels@[c] == 0,
        decreases len - i,
    {
        let (x, y) = to_2d(i, n);
        let ghost p = (x as nat, y as nat);
        proof {
            lemma_cell_index_bound(p, n as nat);
            assert forall|j: nat| j < i implies cell_index(#[trigger] hilbert_point(j, n as nat), n as nat)
                != cell_index(p, n as nat) by {
                let q = hilbert_point(j, n as nat);
                if cell_index(q, n as nat) == cell_index(p, n as nat) {
                    lemma_cell_index_injective(q, p, n as nat);
                    assert(hilbert_point(i as nat, n as nat) == q);
                }
            }
        }
        let k = y * n + x;
        let ghost before = pixels@;
        pixels.set(k, data[i]);
        proof {
            assert forall|j: nat| j < i + 1 implies {
                let q = #[trigger] hilbert_point(j, n as nat);
                &&& q.0 < n
                &&& q.1 < n
                &&& forall|e: nat| e < n * n && #[trigger] hilbert_point(e, n as nat) == q ==> e == j
                &&& pixels@[cell_index(q, n as nat)] == data@[j as int]
            } by {
                if j < i {
                    let q = hilbert_point(j, n as nat);
                    lemma_cell_index_bound(q, n as nat);
                    assert(before[cell_index(q, n as nat)] == data@[j as int]);
                }
            }
        }
        i = i + 1;
    }
    let r = Raster { side: n, pixels };
    assert forall|j: nat| j < data@.len() implies #[trigger] r.curve_pixel(j) == data@[j as int] by {
        let p = hilbert_point(j, n as nat);
        assert(p.0 < n);
    }
    assert(is_raster_of(r, data@));
    proof {
        if len == n * n {
            lemma_distinct_cells_cover(n as nat);
        }
    }
    r
}

/// Reads the first `len` bytes back from `raster` along the curve.
pub fn decode(raster: &Raster, len: usize) -> (r: Vec<u8>)
    requires
        raster.wf(),
        len <= raster.side * raster.side,
    ensures
        r@ == read_back(*raster, len as nat),
{
    let n = raster.side;
    let total = raster.pixels.len();
    let mut out: Vec<u8> = Vec::with_capacity(len);
    let mut i: usize = 0;
    while i < len
        invariant
            raster.wf(),
            n == raster.side,
            len <= n * n,
            n * n == total,
            i <= len,
            out@ == read_back(*raster, i as nat),
        decreases len - i,
    {
        let (x, y) = to_2d(i, n);
        proof {
            lemma_cell_index_bound((x as nat, y as nat), n as nat);
        }
        out.push(raster.pixels[y * n + x]);
        assert(out@ =~= read_back(*raster, (i + 1) as nat));
        i = i + 1;
    }
    out
}

/// Decoding the raster of a buffer with the buffer's length gives the buffer back.
pub proof fn lemma_encode_decode_round_trip(r: Raster, data: Seq<u8>)
    requires
        is_raster_of(r, data),
    ensures
        read_back(r, data.len()) == data,
{
    assert(read_back(r, data.len()) =~= data);
}

/// Why a buffer could not be read back from a raster.
#[derive(PartialEq, Eq, Structural, Debug, Clone, Copy)]
pub enum SpatialError {
    /// No length was ever recorded for the subject.
    MissingMetadata,
    /// The raster's side is not a power of two, or its pixels do not fill it.
    MalformedRaster,
    /// The recorded length is more than the raster has cells.
    LengthExceedsRaster,
}

/// Reads back the buffer of `subject` from its raster, with the length that
/// `meta` recorded for it.
pub fn reconstruct(meta: &MappingMetadata, subject: &String, raster: &Raster) -> (r: Result<
    Vec<u8>,
    SpatialError,
>)
    ensures
        !meta.view().contains_key(subject@) ==> r == Err::<Vec<u8>, SpatialError>(
            SpatialError::MissingMetadata,
        ),
        meta.view().contains_key(subject@) ==> {
            let len = meta.view()[subject@];
            if !raster.wf() {
                r == Err::<Vec<u8>, SpatialError>(SpatialError::MalformedRaster)
            } else if len > raster.side * raster.side {
                r == Err::<Vec<u8>, SpatialError>(SpatialError::LengthExceedsRaster)
            } else {
                r.is_ok() && r.unwrap()@ == read_back(*raster, len as nat)
            }
        },
{
    let len = match meta.get(subject) {
        Some(len) => len,
        None => {
            return Err(SpatialError::MissingMetadata);
        },
    };
    if !raster.is_well_formed() {
        return Err(SpatialError::MalformedRaster);
    }
    let total = raster.pixels.len();
    if len > total {
        return Err(SpatialError::LengthExceedsRaster);
    }
    Ok(decode(raster, len))
}

/// Encodes the buffer of `subject` and records its length in `meta`.
pub fn encode_subject(meta: &mut MappingMetadata, subject: String, data: &Vec<u8>) -> (r: Raster)
    requires
        data@.len() <= usize::MAX / 4,
    ensures
        is_raster_of(r, data@),
        final(meta).view() == old(meta).view().insert(subject@, data@.len() as usize),
{
    let r = encode(data);
    meta.insert(subject, data.len());
    r
}

} // verus!
