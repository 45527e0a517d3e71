//! Launch plans for sums over many ranges of one sequence: every range is cut
//! into pieces that one thread can add in a short chain, then the pieces'
//! sums into pieces again, until one sum per range is left.

use vstd::arithmetic::div_mod::*;
use vstd::arithmetic::mul::*;
use vstd::prelude::*;

use crate::math::curve;
use crate::math::curve::Pt;
use crate::math::group;
use crate::math::ring::FieldLaws;

verus! {

/// `starts` cuts a sequence into consecutive ranges: one at least, and none backwards.
pub open spec fn ranges(starts: Seq<u32>) -> bool {
    &&& starts.len() > 0
    &&& forall|r: int, q: int|
        0 <= r <= q < starts.len() ==> #[trigger] starts[r] <= #[trigger] starts[q]
}

/// How many pieces of at most `chunk` entries a range of `size` entries has; an empty range
/// stays one empty piece.
pub open spec fn piece_count(size: int, chunk: int) -> int {
    if size <= chunk {
        1
    } else {
        (size + chunk - 1) / chunk
    }
}

/// The piece count in multiples of `chunk`.
proof fn lemma_piece_count(size: int, chunk: int)
    requires
        size >= 0,
        chunk > 0,
    ensures
        piece_count(size, chunk) >= 1,
        (piece_count(size, chunk) - 1) * chunk < size || size == 0 || piece_count(size, chunk) == 1,
        (piece_count(size, chunk) - 1) * chunk <= size,
        size <= piece_count(size, chunk) * chunk,
        piece_count(size, chunk) <= size + 1,
        piece_count(size, chunk) == 1 <==> size <= chunk,
{
    if size > chunk {
        let k = (size + chunk - 1) / chunk;
        lemma_fundamental_div_mod(size + chunk - 1, chunk);
        lemma_mod_bound(size + chunk - 1, chunk);
        lemma_mul_is_commutative(k, chunk);
        assert((k - 1) * chunk == k * chunk - chunk) by (nonlinear_arith);
        assert(k >= 2) by (nonlinear_arith)
            requires
                k * chunk >= size,
                size > chunk,
                chunk > 0,
        ;
        assert(k <= size) by (nonlinear_arith)
            requires
                (k - 1) * chunk < size,
                chunk >= 1,
                k >= 2,
        ;
    } else {
        lemma_mul_basics(chunk);
        assert(0 * chunk == 0);
    }
}

/// The first entries of the pieces of the range `from..to`.
pub open spec fn range_pieces(from: int, to: int, chunk: int) -> Seq<u32> {
    Seq::new(piece_count(to - from, chunk) as nat, |j: int| (from + j * chunk) as u32)
}

/// The first entries of the pieces of the first `r` ranges.
pub open spec fn pieces_before(starts: Seq<u32>, chunk: int, r: int) -> Seq<u32>
    decreases r,
{
    if r <= 0 {
        Seq::empty()
    } else {
        pieces_before(starts, chunk, r - 1) + range_pieces(
            starts[r - 1] as int,
            starts[r] as int,
            chunk,
        )
    }
}

/// The pieces of all ranges, as starts over the same sequence.
pub open spec fn pieces_of(starts: Seq<u32>, chunk: int) -> Seq<u32> {
    pieces_before(starts, chunk, starts.len() - 1).push(starts.last())
}

/// Which pieces belong to each range, as starts over the pieces.
pub open spec fn groups_of(starts: Seq<u32>, chunk: int) -> Seq<u32> {
    Seq::new(starts.len(), |r: int| pieces_before(starts, chunk, r).len() as u32)
}

/// How many pieces there are before range `r`.
pub open spec fn piece_index(starts: Seq<u32>, chunk: int, r: int) -> int {
    pieces_before(starts, chunk, r).len() as int
}

/// The pieces can be indexed: their number is a 32-bit one.
pub open spec fn indexable(starts: Seq<u32>, chunk: int) -> bool {
    piece_index(starts, chunk, starts.len() - 1) <= u32::MAX
}

proof fn lemma_piece_index_step(starts: Seq<u32>, chunk: int, r: int)
    requires
        ranges(starts),
        chunk > 0,
        0 <= r < starts.len() - 1,
    ensures
        piece_index(starts, chunk, r + 1) == piece_index(starts, chunk, r) + piece_count(
            starts[r + 1] - starts[r],
            chunk,
        ),
        piece_index(starts, chunk, r) < piece_index(starts, chunk, r + 1),
{
    assert(starts[r] <= starts[r + 1]);
    lemma_piece_count(starts[r + 1] - starts[r], chunk);
}

proof fn lemma_piece_index_monotone(starts: Seq<u32>, chunk: int, r: int, q: int)
    requires
        ranges(starts),
        chunk > 0,
        0 <= r <= q < starts.len(),
    ensures
        r - q <= 0,
        piece_index(starts, chunk, r) + (q - r) <= piece_index(starts, chunk, q),
        piece_index(starts, chunk, q) - piece_index(starts, chunk, r) <= (q - r) + (starts[q]
            - starts[r]),
    decreases q - r,
{
    if r < q {
        lemma_piece_index_monotone(starts, chunk, r, q - 1);
        lemma_piece_index_step(starts, chunk, q - 1);
        assert(starts[q - 1] <= starts[q]);
        lemma_piece_count(starts[q] - starts[q - 1], chunk);
    }
}

/// Piece indices are 32-bit.
proof fn lemma_piece_index_bound(starts: Seq<u32>, chunk: int, r: int)
    requires
        ranges(starts),
        indexable(starts, chunk),
        chunk > 0,
        0 <= r < starts.len(),
    ensures
        piece_index(starts, chunk, r) <= u32::MAX,
{
    lemma_piece_index_monotone(starts, chunk, r, starts.len() - 1);
}

/// There are at most as many pieces as ranges, and one more for every `chunk` entries.
pub proof fn lemma_piece_index_chunks(starts: Seq<u32>, chunk: int, r: int)
    requires
        ranges(starts),
        chunk > 0,
        0 <= r < starts.len(),
    ensures
        piece_index(starts, chunk, r) * chunk <= r * chunk + (starts[r] - starts[0]),
    decreases r,
{
    if r > 0 {
        lemma_piece_index_chunks(starts, chunk, r - 1);
        lemma_piece_index_step(starts, chunk, r - 1);
        assert(starts[r - 1] <= starts[r]);
        let size = starts[r] - starts[r - 1];
        let k = piece_count(size, chunk);
        let before = piece_index(starts, chunk, r - 1);
        lemma_piece_count(size, chunk);
        assert((before + k) * chunk <= r * chunk + (starts[r] - starts[0])) by (nonlinear_arith)
            requires
                before * chunk <= (r - 1) * chunk + (starts[r - 1] - starts[0]),
                (k - 1) * chunk <= size,
                size == starts[r] - starts[r - 1],
        ;
    }
}

/// Pieces of later ranges do not change those of earlier ones.
proof fn lemma_pieces_prefix(starts: Seq<u32>, chunk: int, r: int, q: int, i: int)
    requires
        0 <= r <= q,
        0 <= i < pieces_before(starts, chunk, r).len(),
    ensures
        i < pieces_before(starts, chunk, q).len(),
        pieces_before(starts, chunk, q)[i] == pieces_before(starts, chunk, r)[i],
    decreases q - r,
{
    if r < q {
        lemma_pieces_prefix(starts, chunk, r, q - 1, i);
    }
}

/// Piece `j` of range `r` starts `j` chunks into the range.
proof fn lemma_piece(starts: Seq<u32>, chunk: int, r: int, j: int)
    requires
        ranges(starts),
        chunk > 0,
        0 <= r < starts.len() - 1,
        0 <= j < piece_count(starts[r + 1] - starts[r], chunk),
    ensures
        piece_index(starts, chunk, r) + j < pieces_of(starts, chunk).len() - 1,
        pieces_of(starts, chunk)[piece_index(starts, chunk, r) + j] == starts[r] + j * chunk,
        starts[r] + j * chunk <= starts[r + 1],
{
    let i = piece_index(starts, chunk, r) + j;
    lemma_piece_index_step(starts, chunk, r);
    assert(starts[r] <= starts[r + 1]);
    lemma_piece_count(starts[r + 1] - starts[r], chunk);
    let k = piece_count(starts[r + 1] - starts[r], chunk);
    assert(0 <= j * chunk <= (k - 1) * chunk) by (nonlinear_arith)
        requires
            0 <= j <= k - 1,
            chunk > 0,
    ;
    lemma_pieces_prefix(starts, chunk, r + 1, starts.len() - 1, i);
}

/// The first piece of each range starts where the range does.
proof fn lemma_first_piece(starts: Seq<u32>, chunk: int, r: int)
    requires
        ranges(starts),
        chunk > 0,
        0 <= r < starts.len(),
    ensures
        piece_index(starts, chunk, r) < pieces_of(starts, chunk).len(),
        pieces_of(starts, chunk)[piece_index(starts, chunk, r)] == starts[r],
{
    if r < starts.len() - 1 {
        assert(starts[r] <= starts[r + 1]);
        lemma_piece_count(starts[r + 1] - starts[r], chunk);
        lemma_piece(starts, chunk, r, 0);
        assert(0 * chunk == 0);
    }
}

/// Every piece belongs to a range.
proof fn lemma_piece_range(starts: Seq<u32>, chunk: int, i: int, q: int) -> (r: int)
    requires
        ranges(starts),
        chunk > 0,
        0 < q < starts.len(),
        0 <= i < piece_index(starts, chunk, q),
    ensures
        0 <= r < q,
        piece_index(starts, chunk, r) <= i < piece_index(starts, chunk, r + 1),
    decreases q,
{
    if piece_index(starts, chunk, q - 1) <= i {
        q - 1
    } else {
        lemma_piece_range(starts, chunk, i, q - 1)
    }
}

/// Neighbouring pieces ascend by at most a chunk.
pub proof fn lemma_pieces_step(starts: Seq<u32>, chunk: int, i: int)
    requires
        ranges(starts),
        chunk > 0,
        0 <= i < pieces_of(starts, chunk).len() - 1,
    ensures
        pieces_of(starts, chunk)[i] <= pieces_of(starts, chunk)[i + 1],
        pieces_of(starts, chunk)[i + 1] - pieces_of(starts, chunk)[i] <= chunk,
{
    let last = starts.len() - 1;
    if last == 0 {
        assert(pieces_before(starts, chunk, 0).len() == 0);
    }
    let r = lemma_piece_range(starts, chunk, i, last);
    let j = i - piece_index(starts, chunk, r);
    let k = piece_count(starts[r + 1] - starts[r], chunk);
    lemma_piece_index_step(starts, chunk, r);
    assert(starts[r] <= starts[r + 1]);
    lemma_piece_count(starts[r + 1] - starts[r], chunk);
    lemma_piece(starts, chunk, r, j);
    assert((j + 1) * chunk == j * chunk + chunk) by (nonlinear_arith);
    if j + 1 < k {
        lemma_piece(starts, chunk, r, j + 1);
    } else {
        lemma_first_piece(starts, chunk, r + 1);
    }
}

proof fn lemma_pieces_ascend(starts: Seq<u32>, chunk: int, i: int, j: int)
    requires
        ranges(starts),
        chunk > 0,
        0 <= i <= j < pieces_of(starts, chunk).len(),
    ensures
        pieces_of(starts, chunk)[i] <= pieces_of(starts, chunk)[j],
    decreases j - i,
{
    if i < j {
        lemma_pieces_ascend(starts, chunk, i, j - 1);
        lemma_pieces_step(starts, chunk, j - 1);
    }
}

/// Pieces are ranges again.
pub proof fn lemma_pieces_ranges(starts: Seq<u32>, chunk: int)
    requires
        ranges(starts),
        chunk > 0,
    ensures
        ranges(pieces_of(starts, chunk)),
        pieces_of(starts, chunk).last() == starts.last(),
{
    let p = pieces_of(starts, chunk);
    assert forall|i: int, j: int| 0 <= i <= j < p.len() implies #[trigger] p[i]
        <= #[trigger] p[j] by {
        lemma_pieces_ascend(starts, chunk, i, j);
    }
}

/// Pieces and groups are ranges again.
pub proof fn lemma_chunked_ranges(starts: Seq<u32>, chunk: int)
    requires
        ranges(starts),
        indexable(starts, chunk),
        chunk > 0,
    ensures
        ranges(pieces_of(starts, chunk)),
        ranges(groups_of(starts, chunk)),
        pieces_of(starts, chunk).last() == starts.last(),
        groups_of(starts, chunk)[0] == 0,
        groups_of(starts, chunk).last() == pieces_of(starts, chunk).len() - 1,
        groups_of(starts, chunk).len() == starts.len(),
{
    let g = groups_of(starts, chunk);
    lemma_pieces_ranges(starts, chunk);
    assert forall|r: int, q: int| 0 <= r <= q < g.len() implies #[trigger] g[r]
        <= #[trigger] g[q] by {
        lemma_piece_index_monotone(starts, chunk, r, q);
        lemma_piece_index_bound(starts, chunk, r);
        lemma_piece_index_bound(starts, chunk, q);
    }
    lemma_piece_index_bound(starts, chunk, starts.len() - 1);
}

/// Split every range of `starts` (contiguous ranges over one sequence) into
/// pieces of at most `chunk` entries; an empty range stays one empty piece.
/// Returns the pieces, as `starts` over the same sequence, and the groups: for
/// each given range the range of piece indices that belong to it
/// (`groups.len() == starts.len()`).
pub fn chunk_ranges(starts: &[u32], chunk: u32) -> (r: (Vec<u32>, Vec<u32>))
    requires
        ranges(starts@),
        indexable(starts@, chunk as int),
        chunk > 0,
    ensures
        r.0@ == pieces_of(starts@, chunk as int),
        r.1@ == groups_of(starts@, chunk as int),
{
    let mut pieces: Vec<u32> = Vec::with_capacity(starts.len());
    let mut groups: Vec<u32> = Vec::with_capacity(starts.len());
    let n = starts.len() - 1;
    let mut r: usize = 0;
    while r < n
        invariant
            r <= n,
            n == starts@.len() - 1,
            ranges(starts@),
            indexable(starts@, chunk as int),
            chunk > 0,
            pieces@ == pieces_before(starts@, chunk as int, r as int),
            groups@ == groups_of(starts@, chunk as int).take(r as int),
        decreases n - r,
    {
        let from = starts[r];
        let to = starts[r + 1];
        proof {
            assert(starts@[r as int] <= starts@[r + 1]);
            lemma_piece_index_bound(starts@, chunk as int, r as int);
        }
        groups.push(pieces.len() as u32);
        push_pieces(&mut pieces, from, to, chunk);
        r = r + 1;
        proof {
            assert(groups@ =~= groups_of(starts@, chunk as int).take(r as int));
        }
    }
    proof {
        lemma_piece_index_bound(starts@, chunk as int, n as int);
    }
    groups.push(pieces.len() as u32);
    pieces.push(starts[n]);
    proof {
        assert(groups@ =~= groups_of(starts@, chunk as int));
        assert(pieces@ =~= pieces_of(starts@, chunk as int));
    }
    (pieces, groups)
}

/// Append the first entries of the pieces of one range.
pub(crate) fn push_pieces(pieces: &mut Vec<u32>, from: u32, to: u32, chunk: u32)
    requires
        from <= to,
        chunk > 0,
    ensures
        final(pieces)@ == old(pieces)@ + range_pieces(from as int, to as int, chunk as int),
{
    let ghost before = pieces@;
    let ghost c = chunk as int;
    let ghost mut j: int = 0;
    let mut at = from;
    pieces.push(at);
    proof {
        assert(0 * c == 0);
        assert(pieces@ =~= before + Seq::new(1, |j: int| (from + j * c) as u32));
    }
    while to - at > chunk
        invariant
            from <= at <= to,
            chunk > 0,
            c == chunk,
            j >= 0,
            at == from + j * c,
            j > 0 ==> j * c < to - from,
            pieces@ == before + Seq::new((j + 1) as nat, |j: int| (from + j * c) as u32),
        decreases to - at,
    {
        at = at + chunk;
        pieces.push(at);
        proof {
            assert((j + 1) * c == j * c + c) by (nonlinear_arith);
            j = j + 1;
            assert(pieces@ =~= before + Seq::new((j + 1) as nat, |j: int| (from + j * c) as u32));
        }
    }
    proof {
        // j chunks are before the last piece, which holds the rest
        let size = to - from;
        assert((j + 1) * c == j * c + c) by (nonlinear_arith);
        if size <= c {
            if j > 0 {
                assert(j * c >= c) by (nonlinear_arith)
                    requires
                        j >= 1,
                        c > 0,
                ;
            }
        } else {
            lemma_fundamental_div_mod_converse(size + c - 1, c, j + 1, size - 1 - j * c);
        }
        assert(j + 1 == piece_count(size, c));
        assert(pieces@ =~= before + range_pieces(from as int, to as int, c));
    }
}

// ---- plans ---------------------------------------------------------------------------------

/// The size of range `r`.
pub open spec fn span(starts: Seq<u32>, r: int) -> int {
    starts[r + 1] - starts[r]
}

/// Every range has one entry.
pub open spec fn all_single(groups: Seq<u32>) -> bool {
    forall|r: int| 0 <= r < groups.len() - 1 ==> #[trigger] span(groups, r) == 1
}

/// The levels of the plan for `starts`: its pieces, and, while some range has more than one
/// piece, the plan for the ranges of pieces.
pub open spec fn plan_of(levels: Seq<Seq<u32>>, starts: Seq<u32>, chunk: int) -> bool
    decreases levels.len(),
{
    &&& levels.len() > 0
    &&& levels[0] == pieces_of(starts, chunk)
    &&& if all_single(groups_of(starts, chunk)) {
        levels.len() == 1
    } else {
        plan_of(levels.skip(1), groups_of(starts, chunk), chunk)
    }
}

/// The contents of vectors.
pub open spec fn views(levels: Seq<Vec<u32>>) -> Seq<Seq<u32>> {
    Seq::new(levels.len(), |i: int| levels[i]@)
}

/// Every range has at least one entry.
spec fn none_empty(starts: Seq<u32>) -> bool {
    forall|r: int| 0 <= r < starts.len() - 1 ==> #[trigger] span(starts, r) > 0
}

/// Groups are never empty.
proof fn lemma_groups_nonempty(starts: Seq<u32>, chunk: int)
    requires
        ranges(starts),
        indexable(starts, chunk),
        chunk > 0,
    ensures
        none_empty(groups_of(starts, chunk)),
{
    let g = groups_of(starts, chunk);
    assert forall|r: int| 0 <= r < g.len() - 1 implies #[trigger] span(g, r) > 0 by {
        lemma_piece_index_step(starts, chunk, r);
        lemma_piece_index_bound(starts, chunk, r);
        lemma_piece_index_bound(starts, chunk, r + 1);
    }
}

/// Cutting nonempty ranges gives no more pieces than there are entries, and fewer when a range
/// has several entries.
proof fn lemma_fewer_pieces(starts: Seq<u32>, chunk: int, q: int)
    requires
        ranges(starts),
        none_empty(starts),
        chunk >= 2,
        0 <= q < starts.len(),
    ensures
        piece_index(starts, chunk, q) <= starts[q] - starts[0],
        (exists|r: int| 0 <= r < q && #[trigger] span(starts, r) > 1) ==> piece_index(
            starts,
            chunk,
            q,
        ) < starts[q] - starts[0],
    decreases q,
{
    if q > 0 {
        lemma_fewer_pieces(starts, chunk, q - 1);
        lemma_piece_index_step(starts, chunk, q - 1);
        let size = starts[q] - starts[q - 1];
        assert(span(starts, q - 1) > 0);
        lemma_piece_count(size, chunk);
        let k = piece_count(size, chunk);
        if size > 1 {
            assert(k < size) by {
                if size > chunk {
                    assert(k < size) by (nonlinear_arith)
                        requires
                            (k - 1) * chunk < size,
                            chunk >= 2,
                            size > chunk,
                            k >= 2,
                    ;
                }
            }
        }
        if exists|r: int| 0 <= r < q && #[trigger] span(starts, r) > 1 {
            let r = choose|r: int| 0 <= r < q && #[trigger] span(starts, r) > 1;
            if r < q - 1 {
                assert(exists|r: int|
                    0 <= r < q - 1 && #[trigger] span(starts, r) > 1);
            }
        }
    }
}

/// Whether every range has one entry.
fn is_all_single(groups: &[u32]) -> (r: bool)
    requires
        ranges(groups@),
    ensures
        r == all_single(groups@),
{
    let n = groups.len() - 1;
    let mut i: usize = 0;
    while i < n
        invariant
            i <= n,
            n == groups@.len() - 1,
            ranges(groups@),
            forall|r: int| 0 <= r < i ==> #[trigger] span(groups@, r) == 1,
        decreases n - i,
    {
        assert(groups@[i as int] <= groups@[i + 1]);
        if groups[i + 1] - groups[i] != 1 {
            assert(span(groups@, i as int) != 1);
            return false;
        }
        i = i + 1;
    }
    true
}

/// The launch plan that sums every range of `starts` with no thread adding
/// more than `chunk` entries: `levels[0]` are ranges over the given
/// sequence (for `bucket_sum`); `levels[k]`, `k ≥ 1`, ranges over the
/// outputs of level `k − 1` (for `jacobian_sum`); the last level has one
/// range per given range, in order. One level when no range exceeds
/// `chunk`; a range of `m` entries needs `⌈log_chunk m⌉` levels.
pub fn plan_ranges(starts: &[u32], chunk: u32) -> (levels: Vec<Vec<u32>>)
    requires
        ranges(starts@),
        indexable(starts@, chunk as int),
        chunk >= 2 || (chunk == 1 && all_single(groups_of(starts@, 1))),
    ensures
        plan_of(views(levels@), starts@, chunk as int),
{
    let mut levels: Vec<Vec<u32>> = Vec::new();
    let (mut pieces, mut groups) = chunk_ranges(starts, chunk);
    let ghost c = chunk as int;
    let ghost mut cur = starts@;
    proof {
        lemma_chunked_ranges(starts@, c);
        lemma_groups_nonempty(starts@, c);
        if chunk >= 2 {
            lemma_groups_indexable(starts@, c);
        }
        assert forall|rest: Seq<Seq<u32>>| #[trigger] plan_of(rest, cur, c) implies plan_of(
            views(levels@) + rest,
            starts@,
            c,
        ) by {
            assert(views(levels@) + rest =~= rest);
        }
    }
    loop
        invariant
            c == chunk,
            chunk >= 2 || all_single(groups@),
            chunk >= 1,
            pieces@ == pieces_of(cur, c),
            groups@ == groups_of(cur, c),
            ranges(groups@),
            none_empty(groups@),
            groups@[0] == 0,
            chunk >= 2 ==> indexable(groups@, c),
            forall|rest: Seq<Seq<u32>>| #[trigger]
                plan_of(rest, cur, c) ==> plan_of(views(levels@) + rest, starts@, c),
        decreases groups@.last(),
    {
        let ghost before = views(levels@);
        let ghost level = pieces@;
        levels.push(pieces);
        proof {
            assert(views(levels@) =~= before.push(level));
        }
        if is_all_single(&groups) {
            proof {
                let rest = seq![level];
                assert(plan_of(rest, cur, c));
                assert(before + rest =~= views(levels@));
            }
            return levels;
        }
        let ghost g = groups@;
        proof {
            assert forall|rest: Seq<Seq<u32>>| #[trigger] plan_of(rest, g, c) implies plan_of(
                views(levels@) + rest,
                starts@,
                c,
            ) by {
                let more = seq![level] + rest;
                assert(more.skip(1) =~= rest);
                assert(plan_of(more, cur, c));
                assert(before + more =~= views(levels@) + rest);
            }
            lemma_chunked_ranges(g, c);
            lemma_groups_nonempty(g, c);
            let last = g.len() - 1;
            let r = choose|r: int| 0 <= r < g.len() - 1 && #[trigger] span(g, r) != 1;
            assert(span(g, r) > 0);
            assert(exists|r: int| 0 <= r < last && #[trigger] span(g, r) > 1);
            lemma_fewer_pieces(g, c, last);
            lemma_groups_indexable(g, c);
        }
        let (p, q) = chunk_ranges(&groups, chunk);
        pieces = p;
        groups = q;
        proof {
            cur = g;
        }
    }
}

// ---- what a plan computes --------------------------------------------------------------------

/// The sums of the ranges of one level.
pub open spec fn level_sums<K: FieldLaws>(s: Seq<Pt<K>>, level: Seq<u32>) -> Seq<Pt<K>> {
    Seq::new(
        (level.len() - 1) as nat,
        |b: int| group::sum(s.subrange(level[b] as int, level[b + 1] as int)),
    )
}

/// The sums after all levels, each over the outputs of the one before.
pub open spec fn plan_sums<K: FieldLaws>(s: Seq<Pt<K>>, levels: Seq<Seq<u32>>) -> Seq<Pt<K>>
    decreases levels.len(),
{
    if levels.len() == 0 {
        s
    } else {
        level_sums(plan_sums(s, levels.drop_last()), levels.last())
    }
}

proof fn lemma_plan_sums_front<K: FieldLaws>(s: Seq<Pt<K>>, levels: Seq<Seq<u32>>)
    requires
        levels.len() > 0,
    ensures
        plan_sums(s, levels) == plan_sums(level_sums(s, levels[0]), levels.skip(1)),
    decreases levels.len(),
{
    let t = level_sums(s, levels[0]);
    if levels.len() == 1 {
        assert(levels.drop_last() =~= Seq::empty());
        assert(levels.skip(1) =~= Seq::empty());
        assert(plan_sums(s, levels.drop_last()) == s);
        assert(plan_sums(t, levels.skip(1)) == t);
    } else {
        lemma_plan_sums_front(s, levels.drop_last());
        assert(levels.drop_last()[0] == levels[0]);
        assert(levels.drop_last().skip(1) =~= levels.skip(1).drop_last());
        assert(levels.skip(1).last() == levels.last());
        assert(plan_sums(t, levels.skip(1)) == level_sums(
            plan_sums(t, levels.skip(1).drop_last()),
            levels.last(),
        ));
    }
}

/// Sums over ranges of points of the curve are on the curve.
pub proof fn lemma_level_sums_on<K: FieldLaws>(s: Seq<Pt<K>>, level: Seq<u32>, b: K)
    requires
        curve::smooth(b),
        group::all_on(s, b),
        ranges(level),
        level.last() <= s.len(),
    ensures
        group::all_on(level_sums(s, level), b),
{
    let t = level_sums(s, level);
    assert forall|r: int| 0 <= r < t.len() implies (#[trigger] t[r]).on(b) by {
        assert(level[r] <= level[r + 1]);
        assert(level[r + 1] <= level[level.len() - 1]);
        let u = s.subrange(level[r] as int, level[r + 1] as int);
        assert(group::all_on(u, b));
        group::lemma_sum_on(u, b);
    }
}

/// Neighbouring ranges' sums add to the sum of what they cover together.
proof fn lemma_telescope<K: FieldLaws>(s: Seq<Pt<K>>, level: Seq<u32>, x: int, y: int, b: K)
    requires
        curve::smooth(b),
        group::all_on(s, b),
        ranges(level),
        level.last() <= s.len(),
        0 <= x <= y < level.len(),
    ensures
        group::sum(level_sums(s, level).subrange(x, y)) == group::sum(
            s.subrange(level[x] as int, level[y] as int),
        ),
    decreases y - x,
{
    let t = level_sums(s, level);
    assert(level[x] <= level[y]);
    assert(level[y] <= level[level.len() - 1]);
    if x < y {
        lemma_telescope(s, level, x, y - 1, b);
        assert(t.subrange(x, y).drop_last() =~= t.subrange(x, y - 1));
        assert(level[x] <= level[y - 1]);
        assert(level[y - 1] <= level[y]);
        let u = s.subrange(level[x] as int, level[y - 1] as int);
        let v = s.subrange(level[y - 1] as int, level[y] as int);
        assert(s.subrange(level[x] as int, level[y] as int) =~= u + v);
        group::lemma_sum_concat(u, v, b);
    } else {
        assert(t.subrange(x, y) =~= Seq::empty());
        assert(s.subrange(level[x] as int, level[y] as int) =~= Seq::empty());
    }
}

/// Summing the pieces and then the groups of pieces sums the ranges.
pub proof fn lemma_chunked_sums<K: FieldLaws>(s: Seq<Pt<K>>, starts: Seq<u32>, chunk: int, b: K)
    requires
        curve::smooth(b),
        group::all_on(s, b),
        ranges(starts),
        indexable(starts, chunk),
        chunk > 0,
        starts.last() <= s.len(),
    ensures
        level_sums(level_sums(s, pieces_of(starts, chunk)), groups_of(starts, chunk))
            == level_sums(s, starts),
{
    let p = pieces_of(starts, chunk);
    let g = groups_of(starts, chunk);
    lemma_chunked_ranges(starts, chunk);
    let t = level_sums(s, p);
    assert forall|r: int| 0 <= r < starts.len() - 1 implies #[trigger] level_sums(t, g)[r]
        == level_sums(s, starts)[r] by {
        lemma_piece_index_bound(starts, chunk, r);
        lemma_piece_index_bound(starts, chunk, r + 1);
        lemma_first_piece(starts, chunk, r);
        lemma_first_piece(starts, chunk, r + 1);
        assert(g[r] <= g[r + 1]);
        lemma_telescope(s, p, g[r] as int, g[r + 1] as int, b);
    }
    assert(level_sums(t, g) =~= level_sums(s, starts));
}

/// Ranges of one entry leave a sequence as it is.
proof fn lemma_single_sums<K: FieldLaws>(s: Seq<Pt<K>>, groups: Seq<u32>)
    requires
        ranges(groups),
        all_single(groups),
        groups[0] == 0,
        groups.last() == s.len(),
        groups.len() > 0,
    ensures
        level_sums(s, groups) == s,
{
    lemma_single_index(groups, groups.len() - 1);
    assert forall|r: int| 0 <= r < groups.len() - 1 implies #[trigger] level_sums(s, groups)[r]
        == s[r] by {
        lemma_single_index(groups, r);
        lemma_single_index(groups, r + 1);
        let u = s.subrange(r, r + 1);
        assert(u.drop_last() =~= Seq::empty());
        assert(group::sum(u) == group::sum(u.drop_last()).plus(u.last()));
    }
    assert(level_sums(s, groups) =~= s);
}

proof fn lemma_single_index(groups: Seq<u32>, r: int)
    requires
        all_single(groups),
        groups.len() > 0,
        groups[0] == 0,
        0 <= r < groups.len(),
    ensures
        groups[r] == r,
    decreases r,
{
    if r > 0 {
        lemma_single_index(groups, r - 1);
        assert(span(groups, r - 1) == 1);
    }
}

/// A plan, unfolded once.
proof fn lemma_plan_unfold(levels: Seq<Seq<u32>>, starts: Seq<u32>, chunk: int)
    requires
        plan_of(levels, starts, chunk),
    ensures
        levels.len() > 0,
        levels[0] == pieces_of(starts, chunk),
        all_single(groups_of(starts, chunk)) ==> levels.len() == 1,
        !all_single(groups_of(starts, chunk)) ==> levels.len() > 1 && plan_of(
            levels.skip(1),
            groups_of(starts, chunk),
            chunk,
        ),
{
    if !all_single(groups_of(starts, chunk)) {
        reveal_with_fuel(plan_of, 2);
    }
}

/// The indices of the next level fit too.
proof fn lemma_groups_indexable(starts: Seq<u32>, chunk: int)
    requires
        ranges(starts),
        chunk >= 2,
        indexable(starts, chunk),
    ensures
        indexable(groups_of(starts, chunk), chunk),
{
    let g = groups_of(starts, chunk);
    lemma_chunked_ranges(starts, chunk);
    lemma_groups_nonempty(starts, chunk);
    lemma_fewer_pieces(g, chunk, g.len() - 1);
}

/// A plan sums every range: after its levels, one sum per range of `starts` is left, the sum of
/// that range.
pub proof fn lemma_plan_sums<K: FieldLaws>(
    s: Seq<Pt<K>>,
    levels: Seq<Seq<u32>>,
    starts: Seq<u32>,
    chunk: int,
    b: K,
)
    requires
        curve::smooth(b),
        group::all_on(s, b),
        ranges(starts),
        indexable(starts, chunk),
        chunk >= 2,
        starts.last() <= s.len(),
        plan_of(levels, starts, chunk),
    ensures
        plan_sums(s, levels) == level_sums(s, starts),
    decreases levels.len(),
{
    let p = pieces_of(starts, chunk);
    let g = groups_of(starts, chunk);
    let t = level_sums(s, p);
    lemma_plan_unfold(levels, starts, chunk);
    lemma_chunked_ranges(starts, chunk);
    lemma_chunked_sums(s, starts, chunk, b);
    lemma_plan_sums_front(s, levels);
    if all_single(g) {
        lemma_single_sums(t, g);
        assert(levels.skip(1) =~= Seq::empty());
    } else {
        lemma_level_sums_on(s, p, b);
        lemma_groups_nonempty(starts, chunk);
        lemma_groups_indexable(starts, chunk);
        lemma_plan_sums(t, levels.skip(1), g, chunk, b);
    }
}

/// No range has more than `chunk` entries.
pub open spec fn short(level: Seq<u32>, chunk: int) -> bool {
    forall|i: int| 0 <= i < level.len() - 1 ==> #[trigger] span(level, i) <= chunk
}

proof fn lemma_pieces_short(starts: Seq<u32>, chunk: int)
    requires
        ranges(starts),
        chunk > 0,
    ensures
        short(pieces_of(starts, chunk), chunk),
{
    let p = pieces_of(starts, chunk);
    assert forall|i: int| 0 <= i < p.len() - 1 implies #[trigger] span(p, i) <= chunk by {
        lemma_pieces_step(starts, chunk, i);
    }
}

/// No level of a plan has a range of more than `chunk` entries, each level covers the outputs of
/// the one before, and the last has one range per range of `starts`.
pub proof fn lemma_plan_bounded(levels: Seq<Seq<u32>>, starts: Seq<u32>, chunk: int, k: int)
    requires
        ranges(starts),
        indexable(starts, chunk),
        chunk >= 2,
        plan_of(levels, starts, chunk),
        0 <= k < levels.len(),
    ensures
        ranges(levels[k]),
        short(levels[k], chunk),
        levels[k].last() == (if k == 0 {
            starts.last() as int
        } else {
            levels[k - 1].len() - 1
        }),
        levels[k].len() <= levels[0].len(),
        levels.last().len() == starts.len(),
    decreases levels.len(),
{
    let g = groups_of(starts, chunk);
    lemma_plan_unfold(levels, starts, chunk);
    assert(ranges(levels[0]) && short(levels[0], chunk) && levels[0].last() == starts.last()
        && ranges(g) && none_empty(g) && g[0] == 0 && indexable(g, chunk) && g.len() == starts.len()
        && g.last() == levels[0].len() - 1) by {
        lemma_groups_indexable(starts, chunk);
        lemma_chunked_ranges(starts, chunk);
        lemma_groups_nonempty(starts, chunk);
        lemma_pieces_short(starts, chunk);
    }
    if all_single(g) {
        assert(levels.last().len() == starts.len()) by {
            lemma_single_index(g, g.len() - 1);
        }
    } else {
        let rest = levels.skip(1);
        let j = if k > 0 {
            k - 1
        } else {
            0
        };
        lemma_plan_bounded(rest, g, chunk, j);
        assert(rest.last() == levels.last());
        lemma_plan_unfold(rest, g, chunk);
        lemma_fewer_pieces(g, chunk, g.len() - 1);
        assert(levels[1] == rest[0]);
        if k > 0 {
            assert(rest[k - 1] == levels[k]);
            if k > 1 {
                assert(rest[k - 2] == levels[k - 1]);
            }
        }
    }
}

} // verus!
