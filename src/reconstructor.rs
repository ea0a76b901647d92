use vstd::prelude::*;
use vstd::arithmetic::div_mod::lemma_fundamental_div_mod_converse;

verus! {

/// Number of mirror segments that the command vector addresses.
pub const SEGMENTS: usize = 7;

#[derive(Clone, Copy, Debug, PartialEq, Eq, Structural)]
pub enum LayoutError {
    /// No operator was given.
    NoOperator,
    /// Operator `index` has another number of rows than the first one.
    RowMismatch { index: usize },
    /// Operator `index` has an odd number of columns: its input cannot be
    /// split into two equal halves.
    OddColumns { index: usize },
    /// The measurement vector is too short for the operators' columns.
    InputTooShort,
}

/// Half the columns of an operator of shape (rows, columns): the length of
/// each of the two slices it takes from a measurement vector.
pub open spec fn half_width(shape: (usize, usize)) -> nat {
    (shape.1 / 2) as nat
}

/// Where the slices of operator `k` start within each half of the input.
pub open spec fn offset(shapes: Seq<(usize, usize)>, k: int) -> nat
    decreases k,
{
    if k <= 0 {
        0
    } else {
        offset(shapes, k - 1) + half_width(shapes[k - 1])
    }
}

/// Index in a measurement vector of length `len` of element `j` of the input
/// of operator `k`: its first half comes from the first half of the vector,
/// its second half from the second half, both at the operator's offset.
pub open spec fn gather_index(shapes: Seq<(usize, usize)>, len: nat, k: int, j: int) -> int {
    let nv = half_width(shapes[k]) as int;
    if j < nv {
        offset(shapes, k) + j
    } else {
        (len / 2) as int + offset(shapes, k) + (j - nv)
    }
}

/// The input of each operator, taken from measurement vector `u`.
pub open spec fn split_of<T>(shapes: Seq<(usize, usize)>, u: Seq<T>) -> Seq<Seq<T>> {
    Seq::new(
        shapes.len(),
        |k: int| Seq::new(2 * half_width(shapes[k]), |j: int| u[gather_index(shapes, u.len(), k, j)]),
    )
}

/// Length of `n` values cut into chunks of `width`, with a zero in front of
/// each chunk.
pub open spec fn padded_len(n: nat, width: nat) -> nat {
    (n + (n + width - 1) / (width as int)) as nat
}

/// `y` cut into chunks of `width`, each chunk preceded by `zero`.
pub open spec fn padded<T>(y: Seq<T>, zero: T, width: nat) -> Seq<T> {
    Seq::new(
        padded_len(y.len(), width),
        |j: int| if j % (width + 1) as int == 0 { zero } else { y[j - j / (width + 1) as int - 1] },
    )
}

/// The first problem with a list of operator shapes, in the order `new`
/// tests them.
pub open spec fn shapes_error(shapes: Seq<(usize, usize)>) -> Option<LayoutError> {
    if shapes.len() == 0 {
        Some(LayoutError::NoOperator)
    } else if exists|k: int| 0 <= k < shapes.len() && (#[trigger] shapes[k]).0 != shapes[0].0 {
        Some(LayoutError::RowMismatch {
            index: (choose|k: int| 0 <= k < shapes.len() && (#[trigger] shapes[k]).0 != shapes[0].0
                && forall|i: int| 0 <= i < k ==> (#[trigger] shapes[i]).0 == shapes[0].0) as usize,
        })
    } else if exists|k: int| 0 <= k < shapes.len() && (#[trigger] shapes[k]).1 % 2 != 0 {
        Some(LayoutError::OddColumns {
            index: (choose|k: int| 0 <= k < shapes.len() && (#[trigger] shapes[k]).1 % 2 != 0
                && forall|i: int| 0 <= i < k ==> (#[trigger] shapes[i]).1 % 2 == 0) as usize,
        })
    } else {
        None
    }
}

proof fn lemma_offset_monotone(shapes: Seq<(usize, usize)>, k: int, m: int)
    requires
        0 <= k <= m,
    ensures
        offset(shapes, k) <= offset(shapes, m),
    decreases m - k,
{
    if k < m {
        lemma_offset_monotone(shapes, k, m - 1);
    }
}

proof fn lemma_padding_arith(i: int, c: int)
    requires
        c > 0,
        i >= 0,
    ensures
        (i + 1 + c - 1) / c == i / c + 1,
        i % c == 0 ==> (i + c - 1) / c == i / c,
        i % c != 0 ==> (i + c - 1) / c == i / c + 1,
        i % c == 0 ==> (i + i / c) % (c + 1) == 0,
        (i + i / c + 1) % (c + 1) != 0,
        (i + i / c + 1) / (c + 1) == i / c,
{
    let q = i / c;
    let r = i % c;
    assert(i == q * c + r) by {
        vstd::arithmetic::div_mod::lemma_fundamental_div_mod(i, c);
        assert(c * q == q * c) by (nonlinear_arith);
    }
    assert(0 <= r < c) by {
        vstd::arithmetic::div_mod::lemma_mod_bound(i, c);
    }
    assert((q + 1) * c == q * c + c) by (nonlinear_arith);
    lemma_fundamental_div_mod_converse(i + c, c, q + 1, r);
    if r == 0 {
        lemma_fundamental_div_mod_converse(i + c - 1, c, q, c - 1);
        assert(q * (c + 1) == q * c + q) by (nonlinear_arith);
        lemma_fundamental_div_mod_converse(i + q, c + 1, q, 0);
    } else {
        lemma_fundamental_div_mod_converse(i + c - 1, c, q + 1, r - 1);
    }
    assert(q * (c + 1) == q * c + q) by (nonlinear_arith);
    lemma_fundamental_div_mod_converse(i + q + 1, c + 1, q, r + 1);
}

/// With one operator whose columns span the whole measurement vector, the
/// operator receives that vector unchanged: the reconstruction is the plain
/// product of the operator with the measurements.
pub proof fn lemma_single_operator_takes_whole_input<T>(shapes: Seq<(usize, usize)>, u: Seq<T>)
    requires
        shapes.len() == 1,
        shapes[0].1 % 2 == 0,
        shapes[0].1 == u.len(),
    ensures
        split_of(shapes, u)[0] == u,
{
    assert(offset(shapes, 0) == 0);
    assert(split_of(shapes, u)[0] =~= u);
}

/// The layout of a modal reconstructor: the shapes of its operators, how a
/// measurement vector is split among them, and how the command vector is
/// laid out per segment.
#[derive(Clone, Debug)]
pub struct Reconstructor {
    shapes: Vec<(usize, usize)>,
    n_y: usize,
}

impl Reconstructor {
    pub closed spec fn operator_shapes(&self) -> Seq<(usize, usize)> {
        self.shapes@
    }

    /// Length of the command vector, before segment padding.
    pub closed spec fn rows(&self) -> nat {
        self.n_y as nat
    }

    pub open spec fn wf(&self) -> bool {
        &&& shapes_error(self.operator_shapes()) is None
        &&& self.rows() == self.operator_shapes()[0].0
    }

    /// Columns per segment in the command vector.
    pub open spec fn segment_width(&self) -> nat {
        self.rows() / (SEGMENTS as nat)
    }

    /// A reconstructor for operators of the given shapes (rows, columns).
    /// All operators must have the same number of rows and an even number
    /// of columns.
    pub fn new(shapes: Vec<(usize, usize)>) -> (r: Result<Reconstructor, LayoutError>)
        ensures
            match shapes_error(shapes@) {
                Some(e) => r == Err::<Reconstructor, LayoutError>(e),
                None => r is Ok && r->Ok_0.wf() && r->Ok_0.operator_shapes() == shapes@,
            },
    {
        if shapes.len() == 0 {
            return Err(LayoutError::NoOperator);
        }
        let n_y = shapes[0].0;
        let mut k: usize = 0;
        while k < shapes.len()
            invariant
                n_y == shapes@[0].0,
                k <= shapes@.len(),
                forall|i: int| 0 <= i < k ==> (#[trigger] shapes@[i]).0 == n_y,
            decreases shapes@.len() - k,
        {
            if shapes[k].0 != n_y {
                proof {
                    let c = choose|c: int| 0 <= c < shapes@.len() && (#[trigger] shapes@[c]).0 != shapes@[0].0
                        && forall|i: int| 0 <= i < c ==> (#[trigger] shapes@[i]).0 == shapes@[0].0;
                    assert(shapes@[k as int].0 != shapes@[0].0);
                    if c < k {
                        assert(shapes@[c].0 == n_y);
                    }
                    if c > k {
                        assert(shapes@[k as int].0 == shapes@[0].0);
                    }
                }
                return Err(LayoutError::RowMismatch { index: k });
            }
            k += 1;
        }
        let mut k: usize = 0;
        while k < shapes.len()
            invariant
                n_y == shapes@[0].0,
                k <= shapes@.len(),
                forall|i: int| 0 <= i < shapes@.len() ==> (#[trigger] shapes@[i]).0 == n_y,
                forall|i: int| 0 <= i < k ==> (#[trigger] shapes@[i]).1 % 2 == 0,
            decreases shapes@.len() - k,
        {
            if shapes[k].1 % 2 != 0 {
                proof {
                    let c = choose|c: int| 0 <= c < shapes@.len() && (#[trigger] shapes@[c]).1 % 2 != 0
                        && forall|i: int| 0 <= i < c ==> (#[trigger] shapes@[i]).1 % 2 == 0;
                    assert(shapes@[k as int].1 % 2 != 0);
                    if c < k {
                        assert(shapes@[c].1 % 2 == 0);
                    }
                    if c > k {
                        assert(shapes@[k as int].1 % 2 == 0);
                    }
                }
                return Err(LayoutError::OddColumns { index: k });
            }
            k += 1;
        }
        Ok(Reconstructor { shapes, n_y })
    }

    pub fn n_operators(&self) -> (r: usize)
        ensures
            r == self.operator_shapes().len(),
    {
        self.shapes.len()
    }

    pub fn n_rows(&self) -> (r: usize)
        ensures
            r == self.rows(),
    {
        self.n_y
    }

    pub fn shape(&self, k: usize) -> (r: (usize, usize))
        requires
            k < self.operator_shapes().len(),
        ensures
            r == self.operator_shapes()[k as int],
    {
        self.shapes[k]
    }

    /// Splits a measurement vector among the operators. Operator `k` takes
    /// `n` values at its offset in the first half of `u`, then `n` values at
    /// the same offset in the second half, where `n` is half its columns.
    pub fn split_input<T: Copy>(&self, u: &Vec<T>) -> (r: Result<Vec<Vec<T>>, LayoutError>)
        requires
            self.wf(),
        ensures
            r is Err <==> offset(self.operator_shapes(), self.operator_shapes().len() as int) > u@.len() / 2,
            r is Err ==> r == Err::<Vec<Vec<T>>, LayoutError>(LayoutError::InputTooShort),
            r is Ok ==> r->Ok_0@.len() == self.operator_shapes().len() && forall|k: int|
                0 <= k < self.operator_shapes().len() ==> (#[trigger] r->Ok_0@[k])@ == split_of(
                    self.operator_shapes(),
                    u@,
                )[k],
    {
        let shapes = &self.shapes;
        let len = u.len();
        let half = len / 2;
        let mut off: usize = 0;
        let mut out: Vec<Vec<T>> = Vec::new();
        let mut k: usize = 0;
        while k < shapes.len()
            invariant
                half == u@.len() / 2,
                len == u@.len(),
                shapes@ == self.operator_shapes(),
                k <= shapes@.len(),
                off == offset(shapes@, k as int),
                off <= half,
                out@.len() == k,
                forall|i: int| 0 <= i < k ==> (#[trigger] out@[i])@ == split_of(shapes@, u@)[i],
            decreases shapes@.len() - k,
        {
            let nv = shapes[k].1 / 2;
            if nv > half - off {
                proof {
                    assert(offset(shapes@, k + 1) == off + nv);
                    lemma_offset_monotone(shapes@, k + 1, shapes@.len() as int);
                }
                return Err(LayoutError::InputTooShort);
            }
            let mut part: Vec<T> = Vec::new();
            let mut j: usize = 0;
            while j < nv
                invariant
                    half == u@.len() / 2,
                    len == u@.len(),
                    k < shapes@.len(),
                    off + nv <= half,
                    nv == half_width(shapes@[k as int]),
                    off == offset(shapes@, k as int),
                    j <= nv,
                    part@.len() == j,
                    forall|i: int| 0 <= i < j ==> #[trigger] part@[i] == u@[gather_index(shapes@, u@.len(), k as int, i)],
                decreases nv - j,
            {
                part.push(u[off + j]);
                j += 1;
            }
            let mut j: usize = 0;
            while j < nv
                invariant
                    half == u@.len() / 2,
                    len == u@.len(),
                    k < shapes@.len(),
                    off + nv <= half,
                    nv == half_width(shapes@[k as int]),
                    off == offset(shapes@, k as int),
                    j <= nv,
                    part@.len() == nv + j,
                    forall|i: int| 0 <= i < nv + j ==> #[trigger] part@[i] == u@[gather_index(shapes@, u@.len(), k as int, i)],
                decreases nv - j,
            {
                part.push(u[half + off + j]);
                j += 1;
            }
            assert(part@ =~= split_of(shapes@, u@)[k as int]);
            out.push(part);
            off = off + nv;
            k += 1;
        }
        Ok(out)
    }

    /// Lays out a command vector per segment: each chunk of `segment_width`
    /// values is preceded by `zero`. The command vector must hold at least
    /// one row per segment.
    pub fn segment_output<T: Copy>(&self, y: &Vec<T>, zero: T) -> (r: Vec<T>)
        requires
            self.wf(),
            self.rows() >= SEGMENTS,
            y@.len() == self.rows(),
        ensures
            r@ == padded(y@, zero, self.segment_width()),
    {
        let c = self.n_y / SEGMENTS;
        let n = y.len();
        let mut out: Vec<T> = Vec::new();
        proof {
            lemma_padding_arith(0, c as int);
        }
        let mut i: usize = 0;
        while i < n
            invariant
                c == self.segment_width(),
                c > 0,
                n == y@.len(),
                i <= n,
                out@.len() == padded_len(i as nat, c as nat),
                forall|j: int| 0 <= j < out@.len() ==> #[trigger] out@[j] == (if j % (c + 1) == 0 {
                    zero
                } else {
                    y@[j - j / (c + 1) - 1]
                }),
            decreases n - i,
        {
            proof {
                lemma_padding_arith(i as int, c as int);
            }
            if i % c == 0 {
                out.push(zero);
            }
            out.push(y[i]);
            i += 1;
        }
        assert(out@ =~= padded(y@, zero, c as nat));
        out
    }
}

} // verus!
