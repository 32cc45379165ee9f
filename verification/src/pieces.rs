//! Sequences that are put together from pieces.

use vstd::prelude::*;

verus! {

/// With one more piece, the sequence goes on with that piece.
pub proof fn one_more_piece<A>(piece: spec_fn(int) -> Seq<A>, n: nat)
    ensures
        Seq::new(n + 1, piece).flatten() == Seq::new(n, piece).flatten() + piece(n as int),
{
    let before = Seq::new(n, piece);
    before.lemma_flatten_push(piece(n as int));
    assert(Seq::new(n + 1, piece) =~= before.push(piece(n as int)));
}

/// Whether `piece` stands in `s` as a whole.
pub open spec fn holds<A>(s: Seq<A>, piece: Seq<A>) -> bool {
    exists|at: int|
        0 <= at && at + piece.len() <= s.len() && #[trigger] s.subrange(at, at + piece.len())
            == piece
}

/// Every piece stands in the sequence as a whole.
pub proof fn every_piece_is_there<A>(pieces: Seq<Seq<A>>, k: int)
    requires
        0 <= k < pieces.len(),
    ensures
        holds(pieces.flatten(), pieces[k]),
    decreases k,
{
    let s = pieces.flatten();
    let piece = pieces[k];
    let first = pieces.first();
    let rest = pieces.drop_first();
    if k == 0 {
        assert(s.subrange(0int, 0int + piece.len()) =~= piece);
    } else {
        every_piece_is_there(rest, k - 1);
        let at = choose|at: int|
            0 <= at && at + piece.len() <= rest.flatten().len() && #[trigger]
            rest.flatten().subrange(at, at + piece.len()) == piece;
        let here = first.len() + at;
        assert forall|i: int| 0 <= i < piece.len() implies s.subrange(here, here + piece.len())[i]
            == piece[i] by {
            assert(rest.flatten().subrange(at, at + piece.len())[i] == rest.flatten()[at + i]);
            assert(s[here + i] == rest.flatten()[at + i]);
        }
        assert(s.subrange(here, here + piece.len()) =~= piece);
    }
}

} // verus!
