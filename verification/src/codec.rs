//! The JSON snapshot of a board: a document
//! `{"size":N,"tiles":[[..],..],"score":S}` written without spaces, with the
//! grid as `size` row arrays of `size` integers.  Writing and reading are
//! both verified: reading accepts exactly the documents this module writes,
//! and gives back exactly the board that was written.

use vstd::prelude::*;
use vstd::arithmetic::div_mod::{lemma_fundamental_div_mod, lemma_mod_bound};
use crate::game::{Board, lemma_flat_index};

verus! {

/// An ASCII decimal digit.
pub open spec fn is_digit(b: u8) -> bool {
    48 <= b <= 57
}

/// The shortest decimal spelling of `n`, as ASCII bytes.
pub open spec fn dec_digits(n: nat) -> Seq<u8>
    decreases n,
{
    if n < 10 {
        seq![(48 + n) as u8]
    } else {
        dec_digits(n / 10).push((48 + n % 10) as u8)
    }
}

/// The value of a digit string, most significant digit first.
pub open spec fn val_of(s: Seq<u8>) -> int
    decreases s.len(),
{
    if s.len() == 0 {
        0
    } else {
        val_of(s.drop_last()) * 10 + (s.last() - 48)
    }
}

/// `dec_digits(n)` is a non-empty digit string that spells `n`.
pub proof fn lemma_dec_digits(n: nat)
    ensures
        dec_digits(n).len() >= 1,
        forall|k: int| 0 <= k < dec_digits(n).len() ==> is_digit(#[trigger] dec_digits(n)[k]),
        val_of(dec_digits(n)) == n,
    decreases n,
{
    if n < 10 {
        assert(dec_digits(n) =~= seq![(48 + n) as u8]);
        assert(dec_digits(n).drop_last() =~= Seq::<u8>::empty());
        assert(val_of(Seq::<u8>::empty()) == 0);
        assert(dec_digits(n).last() == (48 + n) as u8);
    } else {
        lemma_fundamental_div_mod(n as int, 10);
        lemma_mod_bound(n as int, 10);
        lemma_dec_digits(n / 10);
        assert(dec_digits(n).drop_last() =~= dec_digits(n / 10));
    }
}

/// A digit string has a non-negative value.
pub proof fn lemma_val_nonneg(s: Seq<u8>)
    requires
        forall|k: int| 0 <= k < s.len() ==> is_digit(#[trigger] s[k]),
    ensures
        val_of(s) >= 0,
    decreases s.len(),
{
    if s.len() > 0 {
        lemma_val_nonneg(s.drop_last());
    }
}

/// Dropping digits from the right can only lower the value.
pub proof fn lemma_val_prefix(s: Seq<u8>, k: int)
    requires
        forall|i: int| 0 <= i < s.len() ==> is_digit(#[trigger] s[i]),
        0 <= k <= s.len(),
    ensures
        val_of(s.take(k)) <= val_of(s),
    decreases s.len(),
{
    if k == s.len() {
        assert(s.take(k) =~= s);
    } else {
        lemma_val_nonneg(s.drop_last());
        assert(s.take(k) =~= s.drop_last().take(k));
        lemma_val_prefix(s.drop_last(), k);
    }
}

/// `[i, j)` is the maximal digit run that starts at `i` in `s`.
pub open spec fn digit_run(s: Seq<u8>, i: int, j: int) -> bool {
    &&& 0 <= i < j <= s.len()
    &&& (forall|k: int| i <= k < j ==> is_digit(#[trigger] s[k]))
    &&& (j == s.len() || !is_digit(s[j]))
}

/// A maximal digit run from a given start is unique.
pub proof fn lemma_run_unique(s: Seq<u8>, i: int, j1: int, j2: int)
    requires
        digit_run(s, i, j1),
        digit_run(s, i, j2),
    ensures
        j1 == j2,
{
    if j1 < j2 {
        assert(is_digit(s[j1]));
    }
    if j2 < j1 {
        assert(is_digit(s[j2]));
    }
}

/// Reads the maximal digit run that starts at `i` and returns its value and
/// its end, or `None` when no digit starts there or the value does not fit
/// a `u64`.
pub fn parse_number(data: &Vec<u8>, i: usize) -> (r: Option<(u64, usize)>)
    ensures
        match r {
            Some(p) => digit_run(data@, i as int, p.1 as int) && p.0 as int == val_of(
                data@.subrange(i as int, p.1 as int),
            ),
            None => forall|j: int|
                digit_run(data@, i as int, j) ==> val_of(data@.subrange(i as int, j))
                    > u64::MAX as int,
        },
{
    let len = data.len();
    if i >= len {
        return None;
    }
    let mut j = i;
    let mut acc: u64 = 0;
    proof {
        assert(data@.subrange(i as int, i as int) =~= Seq::<u8>::empty());
    }
    while j < len && 48 <= data[j] && data[j] <= 57
        invariant
            i <= j <= len,
            len == data@.len(),
            forall|k: int| i <= k < j ==> is_digit(#[trigger] data@[k]),
            acc as int == val_of(data@.subrange(i as int, j as int)),
        decreases len - j,
    {
        let d = data[j] - 48;
        proof {
            assert(data@.subrange(i as int, j + 1 as int).drop_last() =~= data@.subrange(
                i as int,
                j as int,
            ));
        }
        if acc > (u64::MAX - d as u64) / 10 {
            proof {
                lemma_fundamental_div_mod((u64::MAX - d) as int, 10);
                assert(acc as int * 10 + d as int > u64::MAX as int);
                assert forall|j2: int| digit_run(data@, i as int, j2) implies val_of(
                    data@.subrange(i as int, j2),
                ) > u64::MAX as int by {
                    assert(is_digit(data@[j as int]));
                    assert(j2 > j) by {
                        if j2 <= j {
                            assert(is_digit(data@[j2]));
                        }
                    }
                    let run = data@.subrange(i as int, j2);
                    assert(run.take(j + 1 - i) =~= data@.subrange(i as int, j + 1 as int));
                    lemma_val_prefix(run, j + 1 - i);
                }
            }
            return None;
        }
        proof {
            lemma_fundamental_div_mod((u64::MAX - d) as int, 10);
        }
        acc = acc * 10 + d as u64;
        j = j + 1;
    }
    if j == i {
        proof {
            assert forall|j2: int| digit_run(data@, i as int, j2) implies val_of(
                data@.subrange(i as int, j2),
            ) > u64::MAX as int by {
                assert(is_digit(data@[i as int]));
            }
        }
        return None;
    }
    Some((acc, j))
}

/// Appends the decimal spelling of `n`.
pub fn push_number(out: &mut Vec<u8>, n: u64)
    ensures
        final(out)@ == old(out)@ + dec_digits(n as nat),
    decreases n,
{
    if n >= 10 {
        push_number(out, n / 10);
        out.push(48 + (n % 10) as u8);
        proof {
            assert(out@ =~= old(out)@ + dec_digits(n as nat));
        }
    } else {
        out.push(48 + n as u8);
        proof {
            assert(out@ =~= old(out)@ + dec_digits(n as nat));
        }
    }
}

/// The bytes of `{"size":`.
pub open spec fn lit_head() -> Seq<u8> {
    seq![123u8, 34u8, 115u8, 105u8, 122u8, 101u8, 34u8, 58u8]
}

/// The bytes of `,"tiles":[`.
pub open spec fn lit_tiles() -> Seq<u8> {
    seq![44u8, 34u8, 116u8, 105u8, 108u8, 101u8, 115u8, 34u8, 58u8, 91u8]
}

/// The bytes of `,"score":`.
pub open spec fn lit_score() -> Seq<u8> {
    seq![44u8, 34u8, 115u8, 99u8, 111u8, 114u8, 101u8, 34u8, 58u8]
}

/// The first `c` cells of row `r`, comma-separated.
pub open spec fn cells_json(t: Seq<i32>, size: int, r: int, c: int) -> Seq<u8>
    decreases c,
{
    if c <= 0 {
        Seq::empty()
    } else if c == 1 {
        dec_digits(t[r * size] as nat)
    } else {
        cells_json(t, size, r, c - 1) + seq![44u8] + dec_digits(t[r * size + (c - 1)] as nat)
    }
}

/// Row `r` as a JSON array.
pub open spec fn row_json(t: Seq<i32>, size: int, r: int) -> Seq<u8> {
    seq![91u8] + cells_json(t, size, r, size) + seq![93u8]
}

/// The first `r` rows, comma-separated.
pub open spec fn rows_json(t: Seq<i32>, size: int, r: int) -> Seq<u8>
    decreases r,
{
    if r <= 0 {
        Seq::empty()
    } else if r == 1 {
        row_json(t, size, 0)
    } else {
        rows_json(t, size, r - 1) + seq![44u8] + row_json(t, size, r - 1)
    }
}

/// The whole snapshot document.
pub open spec fn json_bytes(size: int, t: Seq<i32>, score: int) -> Seq<u8> {
    lit_head() + dec_digits(size as nat) + lit_tiles() + rows_json(t, size, size) + seq![93u8]
        + lit_score() + dec_digits(score as nat) + seq![125u8]
}

/// The cells of row `r` from column `from` on, each preceded by a comma.
pub open spec fn cells_tail(t: Seq<i32>, size: int, r: int, from: int) -> Seq<u8>
    decreases size - from,
{
    if from >= size {
        Seq::empty()
    } else {
        seq![44u8] + dec_digits(t[r * size + from] as nat) + cells_tail(t, size, r, from + 1)
    }
}

/// The rows from `from` on, each preceded by a comma.
pub open spec fn rows_tail(t: Seq<i32>, size: int, from: int) -> Seq<u8>
    decreases size - from,
{
    if from >= size {
        Seq::empty()
    } else {
        seq![44u8] + row_json(t, size, from) + rows_tail(t, size, from + 1)
    }
}

/// A full row splits after its first `u` cells.
proof fn lemma_cells_split(t: Seq<i32>, size: int, r: int, u: int)
    requires
        1 <= u <= size,
    ensures
        cells_json(t, size, r, size) == cells_json(t, size, r, u) + cells_tail(t, size, r, u),
    decreases size - u,
{
    if u == size {
        assert(cells_json(t, size, r, size) =~= cells_json(t, size, r, u) + cells_tail(
            t,
            size,
            r,
            u,
        ));
    } else {
        lemma_cells_split(t, size, r, u + 1);
        assert(cells_json(t, size, r, u + 1) + cells_tail(t, size, r, u + 1) =~= cells_json(
            t,
            size,
            r,
            u,
        ) + cells_tail(t, size, r, u));
    }
}

/// The full grid splits after its first `u` rows.
proof fn lemma_rows_split(t: Seq<i32>, size: int, u: int)
    requires
        1 <= u <= size,
    ensures
        rows_json(t, size, size) == rows_json(t, size, u) + rows_tail(t, size, u),
    decreases size - u,
{
    if u == size {
        assert(rows_json(t, size, size) =~= rows_json(t, size, u) + rows_tail(t, size, u));
    } else {
        lemma_rows_split(t, size, u + 1);
        assert(rows_json(t, size, u + 1) + rows_tail(t, size, u + 1) =~= rows_json(t, size, u)
            + rows_tail(t, size, u));
    }
}

/// A board whose snapshot the reader can hand back: the grid is square with
/// at least two rows and every cell is a non-negative exponent — exactly
/// the boards the writer accepts.  Every well-formed board qualifies.
pub open spec fn snapshot_src(b: Board) -> bool {
    &&& b.size >= 2
    &&& b.shaped()
    &&& b.cells_nonneg()
    &&& b.tiles@.len() <= usize::MAX
}

/// Every board the engine moves on can be snapshotted and read back: a
/// well-formed board is square with at least two rows, its cells are
/// non-negative, and the displayed-sum cap keeps every cell at or below
/// `31`.  With `serialize` and `deserialize` this closes the round trip:
/// for a well-formed board `b`, `deserialize(serialize(b))` returns a board
/// with `b`'s size, tiles and score.
pub proof fn lemma_wf_snapshot_src(b: Board)
    requires
        b.wf(),
    ensures
        snapshot_src(b),
        encodes(json_bytes(b.size as int, b.tiles@, b.score as int), b),
{
    crate::game::lemma_caps(b.tiles@);
}

/// `data` is the snapshot document of `b`.
pub open spec fn encodes(data: Seq<u8>, b: Board) -> bool {
    &&& snapshot_src(b)
    &&& data == json_bytes(b.size as int, b.tiles@, b.score as int)
}

/// The document splits around the rows region.
proof fn lemma_grid_decomp(data: Seq<u8>, b: Board)
    requires
        encodes(data, b),
    ensures
        data == (lit_head() + dec_digits(b.size as nat) + lit_tiles()) + rows_json(
            b.tiles@,
            b.size as int,
            b.size as int,
        ) + (seq![93u8] + lit_score() + dec_digits(b.score as nat) + seq![125u8]),
{
    let size = b.size as int;
    let t = b.tiles@;
    assert(data =~= (lit_head() + dec_digits(b.size as nat) + lit_tiles()) + rows_json(
        t,
        size,
        size,
    ) + (seq![93u8] + lit_score() + dec_digits(b.score as nat) + seq![125u8]));
}

/// The document splits around row `r`: a prefix, `[`, the row's cells, `]`,
/// and a suffix.
proof fn lemma_row_decomp(data: Seq<u8>, b: Board, r: int)
    requires
        encodes(data, b),
        0 <= r < b.size as int,
    ensures
        ({
            let size = b.size as int;
            let t = b.tiles@;
            let rp = (lit_head() + dec_digits(b.size as nat) + lit_tiles()) + rows_json(
                t,
                size,
                r,
            ) + (if r > 0 {
                seq![44u8]
            } else {
                Seq::<u8>::empty()
            });
            let rq = rows_tail(t, size, r + 1) + (seq![93u8] + lit_score() + dec_digits(
                b.score as nat,
            ) + seq![125u8]);
            data == rp + seq![91u8] + cells_json(t, size, r, size) + seq![93u8] + rq
        }),
{
    let size = b.size as int;
    let t = b.tiles@;
    let pre = lit_head() + dec_digits(b.size as nat) + lit_tiles();
    let post = seq![93u8] + lit_score() + dec_digits(b.score as nat) + seq![125u8];
    let rsep: Seq<u8> = if r > 0 { seq![44u8] } else { Seq::<u8>::empty() };
    lemma_grid_decomp(data, b);
    lemma_rows_split(t, size, r + 1);
    if r > 0 {
        lemma_rows_split(t, size, r);
        assert(rows_tail(t, size, r) == seq![44u8] + row_json(t, size, r) + rows_tail(
            t,
            size,
            r + 1,
        ));
        assert(rows_json(t, size, size) =~= rows_json(t, size, r) + rsep + row_json(t, size, r)
            + rows_tail(t, size, r + 1));
    } else {
        assert(rows_json(t, size, 1) == row_json(t, size, 0));
        assert(rows_json(t, size, size) =~= rows_json(t, size, r) + rsep + row_json(t, size, r)
            + rows_tail(t, size, r + 1));
    }
    assert(row_json(t, size, r) == seq![91u8] + cells_json(t, size, r, size) + seq![93u8]);
    let rp = pre + rows_json(t, size, r) + rsep;
    let rq = rows_tail(t, size, r + 1) + post;
    assert(data =~= rp + seq![91u8] + cells_json(t, size, r, size) + seq![93u8] + rq);
}

/// Reassociating a concatenation of eight pieces.
proof fn lemma_assoc8(
    a: Seq<u8>,
    x: Seq<u8>,
    cj: Seq<u8>,
    cs: Seq<u8>,
    d: Seq<u8>,
    ct: Seq<u8>,
    y: Seq<u8>,
    z: Seq<u8>,
)
    ensures
        a + x + (cj + cs + d + ct) + y + z == (a + x + cj + cs) + d + (ct + (y + z)),
{
    assert(a + x + (cj + cs + d + ct) + y + z =~= (a + x + cj + cs) + d + (ct + (y + z)));
}

/// Around cell `(r, c)`, the document reads: everything before the cell,
/// the cell's digits, then a non-digit rest.
proof fn lemma_cell_decomp(data: Seq<u8>, b: Board, r: int, c: int)
    requires
        encodes(data, b),
        0 <= r < b.size as int,
        0 <= c < b.size as int,
    ensures
        ({
            let size = b.size as int;
            let t = b.tiles@;
            let p = ((lit_head() + dec_digits(b.size as nat) + lit_tiles()) + rows_json(
                t,
                size,
                r,
            ) + (if r > 0 {
                seq![44u8]
            } else {
                Seq::<u8>::empty()
            }) + seq![91u8] + cells_json(t, size, r, c) + (if c > 0 {
                seq![44u8]
            } else {
                Seq::<u8>::empty()
            }));
            let d = dec_digits(t[r * size + c] as nat);
            let q = cells_tail(t, size, r, c + 1) + (seq![93u8] + (rows_tail(t, size, r + 1) + (
            seq![93u8] + lit_score() + dec_digits(b.score as nat) + seq![125u8])));
            &&& data == p + d + q
            &&& q.len() > 0
            &&& !is_digit(q[0])
        }),
{
    let size = b.size as int;
    let t = b.tiles@;
    let rsep: Seq<u8> = if r > 0 { seq![44u8] } else { Seq::<u8>::empty() };
    let csep: Seq<u8> = if c > 0 { seq![44u8] } else { Seq::<u8>::empty() };
    let pre = (lit_head() + dec_digits(b.size as nat) + lit_tiles()) + rows_json(t, size, r)
        + rsep;
    let rq = rows_tail(t, size, r + 1) + (seq![93u8] + lit_score() + dec_digits(b.score as nat)
        + seq![125u8]);
    lemma_row_decomp(data, b, r);
    lemma_cells_split(t, size, r, c + 1);
    assert(cells_json(t, size, r, c + 1) == if c == 0 {
        dec_digits(t[r * size] as nat)
    } else {
        cells_json(t, size, r, c) + seq![44u8] + dec_digits(t[r * size + c] as nat)
    });
    let cj = cells_json(t, size, r, c);
    let d = dec_digits(t[r * size + c] as nat);
    let ct = cells_tail(t, size, r, c + 1);
    assert(cells_json(t, size, r, size) =~= cj + csep + d + ct);
    lemma_assoc8(pre, seq![91u8], cj, csep, d, ct, seq![93u8], rq);
    assert(rq =~= rows_tail(t, size, r + 1) + (seq![93u8] + lit_score() + dec_digits(
        b.score as nat,
    ) + seq![125u8]));
    let q = ct + (seq![93u8] + (rows_tail(t, size, r + 1) + (seq![93u8] + lit_score()
        + dec_digits(b.score as nat) + seq![125u8])));
    assert(ct + (seq![93u8] + rq) =~= q);
    if c + 1 < size {
        assert(q[0] == 44u8);
    } else {
        assert(ct =~= Seq::<u8>::empty());
        assert(q[0] == 93u8);
    }
}

/// A number spelled at position `p.len()` and followed by a non-digit is a
/// maximal digit run with that number's value.
proof fn lemma_number_run(data: Seq<u8>, p: Seq<u8>, n: nat, q: Seq<u8>)
    requires
        data == p + dec_digits(n) + q,
        q.len() == 0 || !is_digit(q[0]),
    ensures
        digit_run(data, p.len() as int, p.len() as int + dec_digits(n).len() as int),
        val_of(data.subrange(p.len() as int, p.len() as int + dec_digits(n).len() as int)) == n,
{
    lemma_dec_digits(n);
    let i = p.len() as int;
    let l = dec_digits(n).len() as int;
    assert forall|k: int| i <= k < i + l implies is_digit(#[trigger] data[k]) by {
        assert(data[k] == dec_digits(n)[k - i]);
    }
    if i + l < data.len() {
        assert(data[i + l] == q[0]);
    }
    assert(data.subrange(i, i + l) =~= dec_digits(n));
}

/// Where the size stands in the document: after the literal `{"size":`,
/// spelled as digits, with the `,"tiles":[` literal right after it.
proof fn lemma_pin_size(data: Seq<u8>, b: Board)
    requires
        encodes(data, b),
    ensures
        ({
            let l = dec_digits(b.size as nat).len() as int;
            &&& data.len() >= 8
            &&& data.subrange(0, 8) == lit_head()
            &&& digit_run(data, 8, 8 + l)
            &&& val_of(data.subrange(8, 8 + l)) == b.size as nat
            &&& 18 + l <= data.len()
            &&& data.subrange(8 + l, 18 + l) == lit_tiles()
        }),
{
    let size = b.size as int;
    let t = b.tiles@;
    let d = dec_digits(b.size as nat);
    let l = d.len() as int;
    let q = lit_tiles() + (rows_json(t, size, size) + (seq![93u8] + lit_score() + dec_digits(
        b.score as nat,
    ) + seq![125u8]));
    assert(data =~= lit_head() + d + q);
    lemma_dec_digits(b.size as nat);
    assert(q[0] == 44u8);
    lemma_number_run(data, lit_head(), b.size as nat, q);
    assert(data.subrange(0, 8) =~= lit_head());
    assert(data.subrange(8 + l, 18 + l) =~= lit_tiles());
}

/// Where row `r` starts: its comma (for every row but the first) and its
/// opening bracket.
proof fn lemma_pin_row_start(data: Seq<u8>, b: Board, r: int)
    requires
        encodes(data, b),
        0 <= r < b.size as int,
    ensures
        ({
            let size = b.size as int;
            let n = 18 + dec_digits(b.size as nat).len() as int + rows_json(b.tiles@, size, r).len() as int;
            let sep: int = if r > 0 {
                1
            } else {
                0
            };
            &&& n + sep < data.len()
            &&& (r > 0 ==> data[n] == 44u8)
            &&& data[n + sep] == 91u8
        }),
{
    let size = b.size as int;
    let t = b.tiles@;
    lemma_row_decomp(data, b, r);
}

/// Where row `r` ends: the closing bracket after its `size` cells.
proof fn lemma_pin_row_end(data: Seq<u8>, b: Board, r: int)
    requires
        encodes(data, b),
        0 <= r < b.size as int,
    ensures
        ({
            let size = b.size as int;
            let sep: int = if r > 0 {
                1
            } else {
                0
            };
            let n = 18 + dec_digits(b.size as nat).len() as int + rows_json(
                b.tiles@,
                size,
                r,
            ).len() as int + sep + 1 + cells_json(b.tiles@, size, r, size).len() as int;
            &&& n < data.len()
            &&& data[n] == 93u8
        }),
{
    let size = b.size as int;
    let t = b.tiles@;
    lemma_row_decomp(data, b, r);
}

/// Where cell `(r, c)` stands: its comma (for every cell but the first of
/// its row) and its digits, followed by a non-digit.
proof fn lemma_pin_cell(data: Seq<u8>, b: Board, r: int, c: int)
    requires
        encodes(data, b),
        0 <= r < b.size as int,
        0 <= c < b.size as int,
    ensures
        ({
            let size = b.size as int;
            let rsep: int = if r > 0 {
                1
            } else {
                0
            };
            let csep: int = if c > 0 {
                1
            } else {
                0
            };
            let n = 18 + dec_digits(b.size as nat).len() as int + rows_json(
                b.tiles@,
                size,
                r,
            ).len() as int + rsep + 1 + cells_json(b.tiles@, size, r, c).len() as int;
            let l = dec_digits(b.tiles@[r * size + c] as nat).len() as int;
            &&& (c > 0 ==> n < data.len() && data[n] == 44u8)
            &&& digit_run(data, n + csep, n + csep + l)
            &&& val_of(data.subrange(n + csep, n + csep + l)) == b.tiles@[r * size + c] as nat
        }),
{
    let size = b.size as int;
    let t = b.tiles@;
    lemma_cell_decomp(data, b, r, c);
    let p = ((lit_head() + dec_digits(b.size as nat) + lit_tiles()) + rows_json(t, size, r) + (
    if r > 0 {
        seq![44u8]
    } else {
        Seq::<u8>::empty()
    }) + seq![91u8] + cells_json(t, size, r, c) + (if c > 0 {
        seq![44u8]
    } else {
        Seq::<u8>::empty()
    }));
    let d = dec_digits(t[r * size + c] as nat);
    let q = cells_tail(t, size, r, c + 1) + (seq![93u8] + (rows_tail(t, size, r + 1) + (
    seq![93u8] + lit_score() + dec_digits(b.score as nat) + seq![125u8])));
    lemma_number_run(data, p, t[r * size + c] as nat, q);
    if c > 0 {
        assert(data[p.len() - 1] == 44u8);
    }
}

/// Where the tail of the document stands: the bracket that closes the grid,
/// the `,"score":` literal, the score's digits, and the closing brace at the
/// very end.
proof fn lemma_pin_score(data: Seq<u8>, b: Board)
    requires
        encodes(data, b),
    ensures
        ({
            let size = b.size as int;
            let n = 18 + dec_digits(b.size as nat).len() as int + rows_json(b.tiles@, size, size).len() as int;
            let l = dec_digits(b.score as nat).len() as int;
            &&& n < data.len()
            &&& data[n] == 93u8
            &&& n + 10 <= data.len()
            &&& data.subrange(n + 1, n + 10) == lit_score()
            &&& digit_run(data, n + 10, n + 10 + l)
            &&& val_of(data.subrange(n + 10, n + 10 + l)) == b.score as nat
            &&& data[n + 10 + l] == 125u8
            &&& data.len() == n + 11 + l
        }),
{
    let size = b.size as int;
    let t = b.tiles@;
    lemma_grid_decomp(data, b);
    let n = 18 + dec_digits(b.size as nat).len() as int + rows_json(t, size, size).len() as int;
    let dsc = dec_digits(b.score as nat);
    let l = dsc.len() as int;
    let p = (lit_head() + dec_digits(b.size as nat) + lit_tiles()) + rows_json(t, size, size) + (
    seq![93u8] + lit_score());
    let q: Seq<u8> = seq![125u8];
    assert(data =~= p + dsc + q);
    lemma_number_run(data, p, b.score as nat, q);
    assert(data.subrange(n + 1, n + 10) =~= lit_score());
}

/// Byte-for-byte equality of two vectors.
fn bytes_eq(a: &Vec<u8>, d: &Vec<u8>) -> (r: bool)
    ensures
        r == (a@ == d@),
{
    if a.len() != d.len() {
        return false;
    }
    let n = a.len();
    let mut k: usize = 0;
    while k < n
        invariant
            k <= n,
            n == a@.len() == d@.len(),
            forall|m: int| 0 <= m < k ==> a@[m] == d@[m],
        decreases n - k,
    {
        if a[k] != d[k] {
            return false;
        }
        k = k + 1;
    }
    proof {
        assert(a@ =~= d@);
    }
    true
}

/// Compares `pat` against `data` at position `i`.
fn match_bytes(data: &Vec<u8>, i: usize, pat: &Vec<u8>) -> (r: Option<usize>)
    ensures
        match r {
            Some(j) => j == i + pat@.len() && j <= data@.len() && data@.subrange(
                i as int,
                j as int,
            ) == pat@,
            None => i + pat@.len() > data@.len() || data@.subrange(
                i as int,
                i + pat@.len(),
            ) != pat@,
        },
{
    let n = pat.len();
    let dlen = data.len();
    if i > dlen || n > dlen - i {
        return None;
    }
    let mut k: usize = 0;
    while k < n
        invariant
            k <= n,
            n == pat@.len(),
            dlen == data@.len(),
            i + n <= dlen,
            forall|m: int| 0 <= m < k ==> data@[i + m] == pat@[m],
        decreases n - k,
    {
        if data[i + k] != pat[k] {
            proof {
                if data@.subrange(i as int, i + pat@.len()) == pat@ {
                    assert(data@.subrange(i as int, i + pat@.len())[k as int] == data@[i + k]);
                }
            }
            return None;
        }
        k = k + 1;
    }
    proof {
        assert(data@.subrange(i as int, i + pat@.len()) =~= pat@);
    }
    Some(i + n)
}

/// Reads one byte at position `i`.
fn expect_byte(data: &Vec<u8>, i: usize, b: u8) -> (r: Option<usize>)
    ensures
        match r {
            Some(j) => j == i + 1 && i < data@.len() && data@[i as int] == b,
            None => i >= data@.len() || data@[i as int] != b,
        },
{
    if i < data.len() && data[i] == b {
        Some(i + 1)
    } else {
        None
    }
}

/// The bytes of `{"size":` as a vector.
fn head_vec() -> (v: Vec<u8>)
    ensures
        v@ == lit_head(),
{
    let mut v: Vec<u8> = Vec::new();
    v.push(123);
    v.push(34);
    v.push(115);
    v.push(105);
    v.push(122);
    v.push(101);
    v.push(34);
    v.push(58);
    proof {
        assert(v@ =~= lit_head());
    }
    v
}

/// The bytes of `,"tiles":[` as a vector.
fn tiles_vec() -> (v: Vec<u8>)
    ensures
        v@ == lit_tiles(),
{
    let mut v: Vec<u8> = Vec::new();
    v.push(44);
    v.push(34);
    v.push(116);
    v.push(105);
    v.push(108);
    v.push(101);
    v.push(115);
    v.push(34);
    v.push(58);
    v.push(91);
    proof {
        assert(v@ =~= lit_tiles());
    }
    v
}

/// The bytes of `,"score":` as a vector.
fn score_vec() -> (v: Vec<u8>)
    ensures
        v@ == lit_score(),
{
    let mut v: Vec<u8> = Vec::new();
    v.push(44);
    v.push(34);
    v.push(115);
    v.push(99);
    v.push(111);
    v.push(114);
    v.push(101);
    v.push(34);
    v.push(58);
    proof {
        assert(v@ =~= lit_score());
    }
    v
}

impl Board {
    /// Writes the board as the JSON document
    /// `{"size":N,"tiles":[[..],..],"score":S}`, without spaces.
    #[verifier::loop_isolation(false)]
    #[verifier::rlimit(50)]
    pub fn serialize(&self) -> (out: Vec<u8>)
        requires
            self.shaped(),
            self.cells_nonneg(),
            self.size >= 1,
        ensures
            out@ == json_bytes(self.size as int, self.tiles@, self.score as int),
    {
        let size = self.size;
        let mut out: Vec<u8> = Vec::new();
        out.push(123);
        out.push(34);
        out.push(115);
        out.push(105);
        out.push(122);
        out.push(101);
        out.push(34);
        out.push(58);
        proof {
            assert(out@ =~= lit_head());
        }
        push_number(&mut out, size as u64);
        out.push(44);
        out.push(34);
        out.push(116);
        out.push(105);
        out.push(108);
        out.push(101);
        out.push(115);
        out.push(34);
        out.push(58);
        out.push(91);
        proof {
            assert(out@ =~= lit_head() + dec_digits(size as nat) + lit_tiles());
        }
        let ghost base = out@;
        let mut r: usize = 0;
        while r < size
            invariant
                r <= size,
                out@ == base + rows_json(self.tiles@, size as int, r as int),
            decreases size - r,
        {
            if r > 0 {
                out.push(44);
            }
            out.push(91);
            let ghost rowbase = out@;
            let mut c: usize = 0;
            while c < size
                invariant
                    r < size,
                    c <= size,
                    rowbase == base + rows_json(self.tiles@, size as int, r as int) + (if r > 0 {
                        seq![44u8]
                    } else {
                        Seq::<u8>::empty()
                    }) + seq![91u8],
                    out@ == rowbase + cells_json(self.tiles@, size as int, r as int, c as int),
                decreases size - c,
            {
                if c > 0 {
                    out.push(44);
                }
                let v = self.get(&(r, c)).unwrap();
                proof {
                    lemma_flat_index(size as int, r as int, c as int);
                    assert(v >= 0);
                    assert(v as u64 as nat == v as nat);
                }
                push_number(&mut out, v as u64);
                proof {
                    assert(out@ =~= rowbase + cells_json(
                        self.tiles@,
                        size as int,
                        r as int,
                        c + 1 as int,
                    ));
                }
                c = c + 1;
            }
            out.push(93);
            proof {
                assert(out@ =~= base + rows_json(self.tiles@, size as int, r + 1 as int));
            }
            r = r + 1;
        }
        out.push(93);
        out.push(44);
        out.push(34);
        out.push(115);
        out.push(99);
        out.push(111);
        out.push(114);
        out.push(101);
        out.push(34);
        out.push(58);
        push_number(&mut out, self.score as u64);
        out.push(125);
        proof {
            assert(out@ =~= json_bytes(self.size as int, self.tiles@, self.score as int));
        }
        out
    }
}

/// Reads one row: its separating comma (for every row but the first), the
/// bracketed cell list, and the closing bracket, appending the cells read.
#[verifier::loop_isolation(false)]
#[verifier::rlimit(100)]
fn parse_row(data: &Vec<u8>, start: usize, size: usize, r: usize, cells: &mut Vec<i32>) -> (res:
    Option<usize>)
    requires
        r < size,
        size >= 2,
        old(cells)@.len() == r as int * size as int,
        forall|m: int| 0 <= m < old(cells)@.len() ==> 0 <= #[trigger] old(cells)@[m],
        forall|b2: Board|
            #[trigger] encodes(data@, b2) ==> b2.size == size && old(cells)@ == b2.tiles@.take(
                r as int * size as int,
            ) && start as int == 18 + dec_digits(b2.size as nat).len() + rows_json(
                b2.tiles@,
                size as int,
                r as int,
            ).len(),
    ensures
        match res {
            Some(j) => {
                &&& final(cells)@.len() == r as int * size as int + size as int
                &&& (forall|m: int|
                    0 <= m < final(cells)@.len() ==> 0 <= #[trigger] final(cells)@[m])
                &&& (forall|b2: Board|
                    #[trigger] encodes(data@, b2) ==> final(cells)@ == b2.tiles@.take(
                        r as int * size as int + size as int,
                    ) && j as int == 18 + dec_digits(b2.size as nat).len() + rows_json(
                        b2.tiles@,
                        size as int,
                        r as int + 1,
                    ).len())
            },
            None => forall|b2: Board| !(#[trigger] encodes(data@, b2)),
        },
{
    let mut i = start;
    if r > 0 {
        i = match expect_byte(data, i, 44) {
            Some(j) => j,
            None => {
                proof {
                    assert forall|b2: Board| !(#[trigger] encodes(data@, b2)) by {
                        if encodes(data@, b2) {
                            lemma_pin_row_start(data@, b2, r as int);
                        }
                    }
                }
                return None;
            },
        };
    }
    i = match expect_byte(data, i, 91) {
        Some(j) => j,
        None => {
            proof {
                assert forall|b2: Board| !(#[trigger] encodes(data@, b2)) by {
                    if encodes(data@, b2) {
                        lemma_pin_row_start(data@, b2, r as int);
                    }
                }
            }
            return None;
        },
    };
    let mut c: usize = 0;
    while c < size
        invariant
            c <= size,
            cells@.len() == r as int * size as int + c as int,
            forall|m: int| 0 <= m < cells@.len() ==> 0 <= #[trigger] cells@[m],
            forall|b2: Board|
                #[trigger] encodes(data@, b2) ==> cells@ == b2.tiles@.take(
                    r as int * size as int + c as int,
                ) && i as int == 18 + dec_digits(b2.size as nat).len() + rows_json(
                    b2.tiles@,
                    size as int,
                    r as int,
                ).len() + (if r > 0 {
                    1int
                } else {
                    0int
                }) + 1 + cells_json(b2.tiles@, size as int, r as int, c as int).len(),
        decreases size - c,
    {
        if c > 0 {
            i = match expect_byte(data, i, 44) {
                Some(j) => j,
                None => {
                    proof {
                        assert forall|b2: Board| !(#[trigger] encodes(data@, b2)) by {
                            if encodes(data@, b2) {
                                lemma_pin_cell(data@, b2, r as int, c as int);
                            }
                        }
                    }
                    return None;
                },
            };
        }
        let (v, ni) = match parse_number(data, i) {
            Some(p) => p,
            None => {
                proof {
                    assert forall|b2: Board| !(#[trigger] encodes(data@, b2)) by {
                        if encodes(data@, b2) {
                            lemma_pin_cell(data@, b2, r as int, c as int);
                            lemma_flat_index(size as int, r as int, c as int);
                            let kk = r as int * size as int + c as int;
                            let l = dec_digits(b2.tiles@[kk] as nat).len() as int;
                            assert(digit_run(data@, i as int, i as int + l));
                            assert(val_of(data@.subrange(i as int, i as int + l)) == b2.tiles@[kk] as nat);
                            assert(b2.tiles@[kk] <= 31);
                        }
                    }
                }
                return None;
            },
        };
        proof {
            assert forall|b2: Board| #[trigger] encodes(data@, b2) implies v as int
                == b2.tiles@[r as int * size as int + c as int] && ni as int == i as int
                + dec_digits(b2.tiles@[r as int * size as int + c as int] as nat).len() by {
                lemma_pin_cell(data@, b2, r as int, c as int);
                lemma_flat_index(size as int, r as int, c as int);
                lemma_run_unique(
                    data@,
                    i as int,
                    ni as int,
                    i as int + dec_digits(
                        b2.tiles@[r as int * size as int + c as int] as nat,
                    ).len() as int,
                );
            }
        }
        if v > (i32::MAX as u64) {
            proof {
                assert forall|b2: Board| !(#[trigger] encodes(data@, b2)) by {
                    if encodes(data@, b2) {
                        lemma_flat_index(size as int, r as int, c as int);
                    }
                }
            }
            return None;
        }
        cells.push(v as i32);
        i = ni;
        proof {
            assert forall|b2: Board| #[trigger] encodes(data@, b2) implies cells@
                == b2.tiles@.take(r as int * size as int + c as int + 1) && i as int == 18
                + dec_digits(b2.size as nat).len() + rows_json(
                b2.tiles@,
                size as int,
                r as int,
            ).len() + (if r > 0 {
                1int
            } else {
                0int
            }) + 1 + cells_json(b2.tiles@, size as int, r as int, c as int + 1).len() by {
                lemma_flat_index(size as int, r as int, c as int);
                assert(cells@ =~= b2.tiles@.take(r as int * size as int + c as int + 1));
                assert(cells_json(b2.tiles@, size as int, r as int, c as int + 1) == if c == 0 {
                    dec_digits(b2.tiles@[r as int * size as int] as nat)
                } else {
                    cells_json(b2.tiles@, size as int, r as int, c as int) + seq![44u8]
                        + dec_digits(b2.tiles@[r as int * size as int + c as int] as nat)
                });
            }
        }
        c = c + 1;
    }
    i = match expect_byte(data, i, 93) {
        Some(j) => j,
        None => {
            proof {
                assert forall|b2: Board| !(#[trigger] encodes(data@, b2)) by {
                    if encodes(data@, b2) {
                        lemma_pin_row_end(data@, b2, r as int);
                    }
                }
            }
            return None;
        },
    };
    proof {
        assert forall|b2: Board| #[trigger] encodes(data@, b2) implies i as int == 18
            + dec_digits(b2.size as nat).len() + rows_json(
            b2.tiles@,
            size as int,
            r as int + 1,
        ).len() by {
            assert(rows_json(b2.tiles@, size as int, r as int + 1) == if r == 0 {
                row_json(b2.tiles@, size as int, 0)
            } else {
                rows_json(b2.tiles@, size as int, r as int) + seq![44u8] + row_json(
                    b2.tiles@,
                    size as int,
                    r as int,
                )
            });
        }
    }
    Some(i)
}

/// Reads the whole grid: `size` bracketed rows, comma-separated.
#[verifier::loop_isolation(false)]
fn parse_grid(data: &Vec<u8>, start: usize, size: usize) -> (res: Option<(Vec<i32>, usize)>)
    requires
        size >= 2,
        forall|b2: Board|
            #[trigger] encodes(data@, b2) ==> b2.size == size && start as int == 18 + dec_digits(
                b2.size as nat,
            ).len(),
    ensures
        match res {
            Some(p) => {
                &&& p.0@.len() == size as int * size as int
                &&& (forall|m: int| 0 <= m < p.0@.len() ==> 0 <= #[trigger] p.0@[m])
                &&& (forall|b2: Board|
                    #[trigger] encodes(data@, b2) ==> p.0@ == b2.tiles@.take(
                        size as int * size as int,
                    ) && p.1 as int == 18 + dec_digits(b2.size as nat).len() + rows_json(
                        b2.tiles@,
                        size as int,
                        size as int,
                    ).len())
            },
            None => forall|b2: Board| !(#[trigger] encodes(data@, b2)),
        },
{
    let mut cells: Vec<i32> = Vec::new();
    let mut i = start;
    let mut r: usize = 0;
    proof {
        assert forall|b2: Board| #[trigger] encodes(data@, b2) implies cells@ == b2.tiles@.take(
            0,
        ) by {
            assert(cells@ =~= b2.tiles@.take(0));
        }
    }
    while r < size
        invariant
            r <= size,
            size >= 2,
            cells@.len() == r as int * size as int,
            forall|m: int| 0 <= m < cells@.len() ==> 0 <= #[trigger] cells@[m],
            forall|b2: Board|
                #[trigger] encodes(data@, b2) ==> b2.size == size && cells@ == b2.tiles@.take(
                    r as int * size as int,
                ) && i as int == 18 + dec_digits(b2.size as nat).len() + rows_json(
                    b2.tiles@,
                    size as int,
                    r as int,
                ).len(),
        decreases size - r,
    {
        i = match parse_row(data, i, size, r, &mut cells) {
            Some(j) => j,
            None => {
                return None;
            },
        };
        proof {
            assert(r as int * size as int + size as int == (r as int + 1) * (size as int))
                by (nonlinear_arith);
        }
        r = r + 1;
    }
    Some((cells, i))
}

/// Reads the opening literal, the size, and the literal that opens the
/// grid.
fn parse_header(data: &Vec<u8>) -> (res: Option<(usize, usize)>)
    ensures
        match res {
            Some(p) => p.0 >= 2 && (forall|b2: Board|
                #[trigger] encodes(data@, b2) ==> b2.size == p.0 && p.1 as int == 18
                    + dec_digits(b2.size as nat).len()),
            None => forall|b2: Board| !(#[trigger] encodes(data@, b2)),
        },
{
    let hv = head_vec();
    let i0 = match match_bytes(data, 0, &hv) {
        Some(j) => j,
        None => {
            proof {
                assert forall|b2: Board| !(#[trigger] encodes(data@, b2)) by {
                    if encodes(data@, b2) {
                        lemma_pin_size(data@, b2);
                    }
                }
            }
            return None;
        },
    };
    let (nsize, i1) = match parse_number(data, i0) {
        Some(p) => p,
        None => {
            proof {
                assert forall|b2: Board| !(#[trigger] encodes(data@, b2)) by {
                    if encodes(data@, b2) {
                        lemma_pin_size(data@, b2);
                    }
                }
            }
            return None;
        },
    };
    proof {
        assert forall|b2: Board| #[trigger] encodes(data@, b2) implies b2.size as int
            == nsize as int && i1 as int == 8 + dec_digits(b2.size as nat).len() by {
            lemma_pin_size(data@, b2);
            lemma_run_unique(data@, 8, i1 as int, 8 + dec_digits(b2.size as nat).len() as int);
        }
    }
    if nsize < 2 || nsize > (usize::MAX as u64) {
        proof {
            assert forall|b2: Board| !(#[trigger] encodes(data@, b2)) by {
                if encodes(data@, b2) {
                }
            }
        }
        return None;
    }
    let size = nsize as usize;
    let tv = tiles_vec();
    let i2 = match match_bytes(data, i1, &tv) {
        Some(j) => j,
        None => {
            proof {
                assert forall|b2: Board| !(#[trigger] encodes(data@, b2)) by {
                    if encodes(data@, b2) {
                        lemma_pin_size(data@, b2);
                    }
                }
            }
            return None;
        },
    };
    Some((size, i2))
}

/// Reads the bracket that closes the grid, the score, and the closing brace
/// at the end of the document.
fn parse_footer(data: &Vec<u8>, start: usize) -> (res: Option<u32>)
    requires
        forall|b2: Board|
            #[trigger] encodes(data@, b2) ==> start as int == 18 + dec_digits(
                b2.size as nat,
            ).len() + rows_json(b2.tiles@, b2.size as int, b2.size as int).len(),
    ensures
        match res {
            Some(sc) => forall|b2: Board| #[trigger] encodes(data@, b2) ==> b2.score == sc,
            None => forall|b2: Board| !(#[trigger] encodes(data@, b2)),
        },
{
    let i6 = match expect_byte(data, start, 93) {
        Some(j) => j,
        None => {
            proof {
                assert forall|b2: Board| !(#[trigger] encodes(data@, b2)) by {
                    if encodes(data@, b2) {
                        lemma_pin_score(data@, b2);
                    }
                }
            }
            return None;
        },
    };
    let sv = score_vec();
    let i3 = match match_bytes(data, i6, &sv) {
        Some(j) => j,
        None => {
            proof {
                assert forall|b2: Board| !(#[trigger] encodes(data@, b2)) by {
                    if encodes(data@, b2) {
                        lemma_pin_score(data@, b2);
                    }
                }
            }
            return None;
        },
    };
    let (sc, i4) = match parse_number(data, i3) {
        Some(p) => p,
        None => {
            proof {
                assert forall|b2: Board| !(#[trigger] encodes(data@, b2)) by {
                    if encodes(data@, b2) {
                        lemma_pin_score(data@, b2);
                    }
                }
            }
            return None;
        },
    };
    proof {
        assert forall|b2: Board| #[trigger] encodes(data@, b2) implies sc as int
            == b2.score as int && i4 as int == i3 as int + dec_digits(b2.score as nat).len() by {
            lemma_pin_score(data@, b2);
            lemma_run_unique(
                data@,
                i3 as int,
                i4 as int,
                i3 as int + dec_digits(b2.score as nat).len() as int,
            );
        }
    }
    if sc > (u32::MAX as u64) {
        proof {
            assert forall|b2: Board| !(#[trigger] encodes(data@, b2)) by {
                if encodes(data@, b2) {
                }
            }
        }
        return None;
    }
    let i5 = match expect_byte(data, i4, 125) {
        Some(j) => j,
        None => {
            proof {
                assert forall|b2: Board| !(#[trigger] encodes(data@, b2)) by {
                    if encodes(data@, b2) {
                        lemma_pin_score(data@, b2);
                    }
                }
            }
            return None;
        },
    };
    if i5 != data.len() {
        proof {
            assert forall|b2: Board| !(#[trigger] encodes(data@, b2)) by {
                if encodes(data@, b2) {
                    lemma_pin_score(data@, b2);
                }
            }
        }
        return None;
    }
    Some(sc as u32)
}

impl Board {
    /// Reads a snapshot document back into a board.  Exactly the documents
    /// that `serialize` writes are accepted: on `Some(b)` the input is
    /// byte-for-byte `b`'s snapshot, and any board whose snapshot the input
    /// is has `b`'s size, tiles and score — so reading a written snapshot
    /// gives back the written board.  On `None` the input is no board's
    /// snapshot.
    #[verifier::rlimit(100)]
    pub fn deserialize(data: &Vec<u8>) -> (r: Option<Board>)
        ensures
            match r {
                Some(b) => {
                    &&& snapshot_src(b)
                    &&& data@ == json_bytes(b.size as int, b.tiles@, b.score as int)
                    &&& forall|b2: Board|
                        #[trigger] encodes(data@, b2) ==> b2.size == b.size && b2.tiles@
                            == b.tiles@ && b2.score == b.score
                },
                None => forall|b2: Board| !(#[trigger] encodes(data@, b2)),
            },
    {
        let (size, i2) = match parse_header(data) {
            Some(p) => p,
            None => {
                return None;
            },
        };
        let (cells, igrid) = match parse_grid(data, i2, size) {
            Some(p) => p,
            None => {
                return None;
            },
        };
        let sc = match parse_footer(data, igrid) {
            Some(x) => x,
            None => {
                return None;
            },
        };
        // a Vec's length is a usize, so the grid read back fits the type
        let clen = cells.len();
        let board = Board { size, tiles: cells, score: sc };
        proof {
            assert(board.tiles@.len() <= usize::MAX);
            assert(board.shaped());
            assert(board.cells_nonneg());
            assert(snapshot_src(board));
        }
        let canon = board.serialize();
        if bytes_eq(&canon, data) {
            proof {
                assert forall|b2: Board| #[trigger] encodes(data@, b2) implies b2.size
                    == board.size && b2.tiles@ == board.tiles@ && b2.score == board.score by {
                    assert(b2.tiles@.take(size as int * size as int) =~= b2.tiles@);
                }
            }
            Some(board)
        } else {
            proof {
                assert forall|b2: Board| !(#[trigger] encodes(data@, b2)) by {
                    if encodes(data@, b2) {
                        assert(b2.tiles@.take(size as int * size as int) =~= b2.tiles@);
                        assert(json_bytes(b2.size as int, b2.tiles@, b2.score as int)
                            == json_bytes(board.size as int, board.tiles@, board.score as int));
                    }
                }
            }
            None
        }
    }
}

} // verus!
