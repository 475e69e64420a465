//! The per-bucket pairwise score matrix, and its byte-blob codec.
//!
//! For a bucket of `n` documents the matrix is `n * n` bytes, row-major.
//! Row `i` holds hypothesis `i`'s scores: `matrix[i][j]` for `j > i` is
//! `round(100 * score(hypothesis i, reference j))`, and every cell with
//! `j <= i` is zero by convention (no self or duplicate-direction
//! comparison). Every cell is a pure function of the two token lists and
//! the cache contents, so any schedule that computes whole rows — one
//! worker per row, or a single thread — assembles bit-identical bytes;
//! [`lemma_rows_assemble`] states that. The persisted form is the bare
//! byte blob, no header: the consumer must know `n`.

use vstd::prelude::*;
use vstd::arithmetic::power::pow;
use vstd::arithmetic::mul::{lemma_mul_inequality, lemma_mul_is_commutative};
use crate::Error;
use crate::align::{align_ok, enums_of};
use crate::bucket::entries_view;
use crate::cache::{Stemmer, Synsets};
use crate::meteor::{meteor_score, meteor_spec};
use crate::provider::{StemProvider, SynonymProvider};
use crate::score::{Tuning, POW_LIMIT};

verus! {

/// One bucket's score matrix.
pub struct ScoreMatrix {
    /// The bucket size.
    pub n: usize,
    /// `n * n` bytes, row-major.
    pub bytes: Vec<u8>,
}

impl View for ScoreMatrix {
    type V = (nat, Seq<u8>);

    /// The bucket size and the flat bytes.
    open spec fn view(&self) -> (nat, Seq<u8>) {
        (self.n as nat, self.bytes@)
    }
}

impl ScoreMatrix {
    /// The blob has exactly `n * n` bytes.
    pub open spec fn wf(&self) -> bool {
        self.bytes@.len() == self.n * self.n
    }

    /// The cell of row `i` (hypothesis) and column `j` (reference).
    pub open spec fn entry(&self, i: int, j: int) -> u8 {
        self.bytes@[i * (self.n as int) + j]
    }
}

/// What one cell must hold: zero on and below the diagonal, the scaled
/// score of (hypothesis `i`, reference `j`) above it.
pub open spec fn cell_spec(
    bucket: Seq<(u64, Seq<Seq<char>>)>,
    i: int,
    j: int,
    st: Map<Seq<char>, Seq<char>>,
    syn: Map<Seq<char>, Seq<Seq<char>>>,
    t: Tuning,
) -> int {
    if j <= i {
        0
    } else {
        meteor_spec(enums_of(bucket[i].1), enums_of(bucket[j].1), st, syn, t)
    }
}

/// Every document of the bucket is short enough for the exact score
/// arithmetic.
pub open spec fn bucket_lengths_ok(bucket: Seq<(u64, Seq<Seq<char>>)>, t: Tuning) -> bool {
    forall|k: int|
        0 <= k < bucket.len() ==> (#[trigger] bucket[k]).1.len() < 0x1_0000_0000 && pow(
            bucket[k].1.len() as int,
            t.beta as nat,
        ) <= POW_LIMIT
}

/// Row `i` of the bucket's matrix: hypothesis `i` scored against every
/// reference `j > i`, zero elsewhere. Fails with [`Error::CacheMiss`]
/// exactly when some pair of the row cannot run the cascade against the
/// caches.
pub fn score_row<P: StemProvider, Q: SynonymProvider>(
    bucket: &Vec<(u64, Vec<String>)>,
    i: usize,
    t: &Tuning,
    synsets: &Synsets<Q>,
    stemmer: &Stemmer<P>,
) -> (r: Result<Vec<u8>, Error>)
    requires
        stemmer.wf(),
        synsets.wf(),
        t.wf(),
        i < bucket@.len(),
        bucket_lengths_ok(entries_view(bucket@), *t),
    ensures
        ({
            let bv = entries_view(bucket@);
            match r {
                Ok(row) => {
                    &&& row@.len() == bv.len()
                    &&& forall|j: int|
                        0 <= j < bv.len() ==> (#[trigger] row@[j]) as int == cell_spec(
                            bv,
                            i as int,
                            j,
                            stemmer@,
                            synsets@,
                            *t,
                        )
                    &&& forall|j: int|
                        i < j < bv.len() ==> align_ok(
                            enums_of(bv[i as int].1),
                            enums_of((#[trigger] bv[j]).1),
                            stemmer@,
                            synsets@,
                        )
                },
                Err(e) => e == Error::CacheMiss && exists|j: int|
                    i < j < bv.len() && !align_ok(
                        enums_of(bv[i as int].1),
                        enums_of((#[trigger] bv[j]).1),
                        stemmer@,
                        synsets@,
                    ),
            }
        }),
{
    let ghost bv = entries_view(bucket@);
    let mut row: Vec<u8> = Vec::new();
    let mut j: usize = 0;
    while j < bucket.len()
        invariant
            stemmer.wf(),
            synsets.wf(),
            t.wf(),
            bv == entries_view(bucket@),
            i < bucket@.len(),
            bucket_lengths_ok(bv, *t),
            j <= bucket@.len(),
            row@.len() == j,
            forall|k: int|
                0 <= k < j ==> (#[trigger] row@[k]) as int == cell_spec(
                    bv,
                    i as int,
                    k,
                    stemmer@,
                    synsets@,
                    *t,
                ),
            forall|k: int|
                i < k < j ==> align_ok(
                    enums_of(bv[i as int].1),
                    enums_of((#[trigger] bv[k]).1),
                    stemmer@,
                    synsets@,
                ),
        decreases bucket@.len() - j,
    {
        if j <= i {
            row.push(0);
        } else {
            proof {
                assert(bv[i as int] == (bucket@[i as int].0, crate::align::words_view(
                    bucket@[i as int].1@,
                )));
                assert(bv[j as int] == (bucket@[j as int].0, crate::align::words_view(
                    bucket@[j as int].1@,
                )));
            }
            let score = match meteor_score(&bucket[j].1, &bucket[i].1, t, synsets, stemmer) {
                Ok(s) => s,
                Err(e) => {
                    return Err(e);
                },
            };
            row.push(score);
        }
        j = j + 1;
    }
    Ok(row)
}

/// The whole matrix of one bucket, rows assembled in order. Fails with
/// [`Error::CacheMiss`] exactly when some pair cannot run the cascade.
pub fn build_matrix<P: StemProvider, Q: SynonymProvider>(
    bucket: &Vec<(u64, Vec<String>)>,
    t: &Tuning,
    synsets: &Synsets<Q>,
    stemmer: &Stemmer<P>,
) -> (r: Result<ScoreMatrix, Error>)
    requires
        stemmer.wf(),
        synsets.wf(),
        t.wf(),
        bucket@.len() * bucket@.len() <= usize::MAX,
        bucket_lengths_ok(entries_view(bucket@), *t),
    ensures
        ({
            let bv = entries_view(bucket@);
            match r {
                Ok(m) => {
                    &&& m.n == bv.len()
                    &&& m.wf()
                    &&& forall|i: int, j: int|
                        0 <= i < bv.len() && 0 <= j < bv.len() ==> m.entry(i, j) as int
                            == cell_spec(bv, i, j, stemmer@, synsets@, *t)
                    &&& forall|i: int, j: int|
                        0 <= i < j < bv.len() ==> align_ok(
                            enums_of((#[trigger] bv[i]).1),
                            enums_of((#[trigger] bv[j]).1),
                            stemmer@,
                            synsets@,
                        )
                },
                Err(e) => e == Error::CacheMiss && exists|i: int, j: int|
                    0 <= i < j < bv.len() && !align_ok(
                        enums_of((#[trigger] bv[i]).1),
                        enums_of((#[trigger] bv[j]).1),
                        stemmer@,
                        synsets@,
                    ),
            }
        }),
{
    let ghost bv = entries_view(bucket@);
    let n = bucket.len();
    let mut bytes: Vec<u8> = Vec::new();
    let mut i: usize = 0;
    while i < n
        invariant
            stemmer.wf(),
            synsets.wf(),
            t.wf(),
            bv == entries_view(bucket@),
            n == bucket@.len(),
            n * n <= usize::MAX,
            bucket_lengths_ok(bv, *t),
            i <= n,
            bytes@.len() == i * n,
            forall|x: int, y: int|
                0 <= x < i && 0 <= y < n ==> (#[trigger] bytes@[x * (n as int) + y]) as int
                    == cell_spec(bv, x, y, stemmer@, synsets@, *t),
            forall|x: int, y: int|
                0 <= x < i && x < y < n ==> align_ok(
                    enums_of((#[trigger] bv[x]).1),
                    enums_of((#[trigger] bv[y]).1),
                    stemmer@,
                    synsets@,
                ),
        decreases n - i,
    {
        proof {
            lemma_mul_inequality(i + 1, n as int, n as int);
            lemma_mul_is_commutative(i as int, n as int);
        }
        let mut row = match score_row(bucket, i, t, synsets, stemmer) {
            Ok(v) => v,
            Err(e) => {
                return Err(e);
            },
        };
        let ghost row_view = row@;
        let ghost bytes_before = bytes@;
        bytes.append(&mut row);
        proof {
            assert((i + 1) * (n as int) == i * (n as int) + n) by (nonlinear_arith);
            assert forall|x: int, y: int| 0 <= x < i + 1 && 0 <= y < n implies (#[trigger] bytes@[x
                * (n as int) + y]) as int == cell_spec(bv, x, y, stemmer@, synsets@, *t) by {
                assert(x * (n as int) + y < (x + 1) * (n as int)) by (nonlinear_arith)
                    requires
                        y < n,
                        0 <= x,
                        0 <= y,
                ;
                assert((x + 1) * (n as int) <= (i + 1) * (n as int)) by (nonlinear_arith)
                    requires
                        x < i + 1,
                        0 <= n as int,
                ;
                assert(0 <= x * (n as int) + y) by (nonlinear_arith)
                    requires
                        0 <= x,
                        0 <= y,
                        0 <= n as int,
                ;
                if x < i {
                    assert(x * (n as int) + y < i * (n as int)) by (nonlinear_arith)
                        requires
                            x < i,
                            0 <= x,
                            0 <= y,
                            y < n,
                    ;
                    assert(bytes@[x * (n as int) + y] == bytes_before[x * (n as int) + y]);
                } else {
                    assert(x == i);
                    assert(bytes@[x * (n as int) + y] == row_view[y]);
                }
            }
        }
        i = i + 1;
    }
    proof {
        lemma_mul_is_commutative(i as int, n as int);
    }
    Ok(ScoreMatrix { n, bytes })
}

/// The persisted form of a matrix: its flat bytes, row-major, no header.
pub fn to_bytes(m: &ScoreMatrix) -> (out: Vec<u8>)
    ensures
        out@ == m.bytes@,
{
    let mut out: Vec<u8> = Vec::new();
    let mut i: usize = 0;
    while i < m.bytes.len()
        invariant
            i <= m.bytes@.len(),
            out@ == m.bytes@.take(i as int),
        decreases m.bytes@.len() - i,
    {
        out.push(m.bytes[i]);
        proof {
            assert(out@ =~= m.bytes@.take(i + 1));
        }
        i = i + 1;
    }
    proof {
        assert(m.bytes@.take(i as int) =~= m.bytes@);
    }
    out
}

/// A matrix read back from a blob: succeeds exactly when the blob has
/// `n * n` bytes, and returns the matrix whose bytes are the blob.
pub fn from_bytes(n: usize, bytes: Vec<u8>) -> (r: Result<ScoreMatrix, Error>)
    requires
        n * n <= usize::MAX,
    ensures
        match r {
            Ok(m) => bytes@.len() == n * n && m.n == n && m.bytes@ == bytes@ && m.wf(),
            Err(e) => e == Error::IoFailure && bytes@.len() != n * n,
        },
{
    if bytes.len() == n * n {
        Ok(ScoreMatrix { n, bytes })
    } else {
        Err(Error::IoFailure)
    }
}

/// Saving and loading is the identity: a matrix rebuilt from a
/// well-formed matrix's persisted bytes (same size, same blob — which is
/// what [`from_bytes`] of [`to_bytes`]'s output returns) has the same
/// view, cell for cell.
pub proof fn lemma_store_round_trip(m: ScoreMatrix, m2: ScoreMatrix)
    requires
        m.wf(),
        m2.n == m.n,
        m2.bytes@ == m.bytes@,
    ensures
        m.bytes@.len() == m.n * m.n,  // so from_bytes(m.n, to_bytes(&m)) returns Ok
        m2@ == m@,
        m2.wf(),
        forall|i: int, j: int| m2.entry(i, j) == m.entry(i, j),
{
}

/// Rows computed independently — in parallel, in any order — assemble
/// into exactly the sequential matrix: each row is a pure function of the
/// bucket, the caches and the tuning, so the flat concatenation is too.
pub proof fn lemma_rows_assemble(
    bucket: Seq<(u64, Seq<Seq<char>>)>,
    rows: Seq<Seq<u8>>,
    flat: Seq<u8>,
    m: ScoreMatrix,
    st: Map<Seq<char>, Seq<char>>,
    syn: Map<Seq<char>, Seq<Seq<char>>>,
    t: Tuning,
)
    requires
        rows.len() == bucket.len(),
        forall|i: int| 0 <= i < rows.len() ==> (#[trigger] rows[i]).len() == bucket.len(),
        forall|i: int, j: int|
            0 <= i < rows.len() && 0 <= j < bucket.len() ==> (#[trigger] rows[i][j]) as int
                == cell_spec(bucket, i, j, st, syn, t),
        flat == rows.flatten(),
        m.n == bucket.len(),
        m.wf(),
        forall|i: int, j: int|
            0 <= i < bucket.len() && 0 <= j < bucket.len() ==> m.entry(i, j) as int == cell_spec(
                bucket,
                i,
                j,
                st,
                syn,
                t,
            ),
    ensures
        flat == m.bytes@,
{
    lemma_flatten_uniform(rows, bucket.len() as int);
    let n = bucket.len() as int;
    assert(flat =~= m.bytes@) by {
        assert forall|p: int| 0 <= p < n * n implies flat[p] == m.bytes@[p] by {
            let i = p / n;
            let j = p % n;
            vstd::arithmetic::div_mod::lemma_fundamental_div_mod(p, n);
            vstd::arithmetic::div_mod::lemma_mod_bound(p, n);
            assert(0 <= i < n) by (nonlinear_arith)
                requires
                    p == i * n + j,
                    0 <= p < n * n,
                    0 <= j < n,
            ;
            assert(flat[i * n + j] == rows[i][j]);
            assert(m.entry(i, j) as int == cell_spec(bucket, i, j, st, syn, t));
            assert(m.bytes@[i * n + j] == m.entry(i, j));
        }
    }
}

/// A flattened sequence of uniform-length rows indexes row-major.
proof fn lemma_flatten_uniform(rows: Seq<Seq<u8>>, n: int)
    requires
        n >= 0,
        forall|i: int| 0 <= i < rows.len() ==> (#[trigger] rows[i]).len() == n,
    ensures
        rows.flatten().len() == rows.len() * n,
        forall|i: int, j: int|
            0 <= i < rows.len() && 0 <= j < n ==> rows.flatten()[i * n + j] == (
            #[trigger] rows[i][j]),
    decreases rows.len(),
{
    if rows.len() == 0 {
        assert(rows.flatten() =~= Seq::<u8>::empty());
    } else {
        lemma_flatten_uniform(rows.drop_first(), n);
        assert(rows.flatten() == rows.first() + rows.drop_first().flatten());
        assert(rows.flatten().len() == rows.len() * n) by (nonlinear_arith)
            requires
                rows.flatten().len() == n + (rows.len() - 1) * n,
        ;
        assert forall|i: int, j: int| 0 <= i < rows.len() && 0 <= j < n implies rows.flatten()[i
            * n + j] == (#[trigger] rows[i][j]) by {
            if i == 0 {
                assert(rows.flatten()[j] == rows.first()[j]);
            } else {
                assert((i - 1) * n + j >= 0 && (i - 1) * n + j < (rows.len() - 1) * n)
                    by (nonlinear_arith)
                    requires
                        1 <= i < rows.len(),
                        0 <= j < n,
                ;
                assert(rows.drop_first().flatten()[(i - 1) * n + j] == rows.drop_first()[i - 1][j]);
                assert(i * n + j - n == (i - 1) * n + j) by (nonlinear_arith);
                assert(rows.flatten()[i * n + j] == rows.drop_first().flatten()[(i - 1) * n + j]);
            }
        }
    }
}

} // verus!
