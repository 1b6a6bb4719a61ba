use vstd::prelude::*;

verus! {

broadcast use vstd::seq_lib::group_to_multiset_ensures, vstd::multiset::group_multiset_axioms;

/// A direction in which the blank slides. Moving in direction `m` swaps the
/// blank with its neighbor on that side: the neighboring tile slides the
/// opposite way into the vacated cell.
#[derive(Clone, Copy, PartialEq, Eq, Structural, Debug)]
pub enum Move {
    Up,
    Down,
    Left,
    Right,
}

/// The direction that undoes a move.
pub open spec fn opposite(m: Move) -> Move {
    match m {
        Move::Up => Move::Down,
        Move::Down => Move::Up,
        Move::Left => Move::Right,
        Move::Right => Move::Left,
    }
}

/// The canonical solved layout: value `k + 1` in cell `k` for the first
/// fifteen cells, the blank in the last cell.
pub open spec fn solved_seq() -> Seq<u8> {
    Seq::new(16, |k: int| if k == 15 { 0u8 } else { (k + 1) as u8 })
}

/// A well-formed board holds sixteen cells whose multiset of values is
/// exactly {0, ..., 15}: each value once, the single 0 marking the blank.
pub open spec fn wf_board(s: Seq<u8>) -> bool {
    &&& s.len() == 16
    &&& forall|v: u8|
        s.to_multiset().count(v) == (if v < 16 {
            1nat
        } else {
            0nat
        })
}

/// The cell index of the blank; the blank's row is `blank_of(s) / 4` and its
/// column is `blank_of(s) % 4`.
pub open spec fn blank_of(s: Seq<u8>) -> int {
    choose|k: int| 0 <= k < 16 && s[k] == 0
}

/// Whether the blank can move in direction `m` without leaving the grid.
pub open spec fn move_legal(s: Seq<u8>, m: Move) -> bool {
    match m {
        Move::Up => blank_of(s) / 4 > 0,
        Move::Down => blank_of(s) / 4 < 3,
        Move::Left => blank_of(s) % 4 > 0,
        Move::Right => blank_of(s) % 4 < 3,
    }
}

/// The cell the blank swaps with when it moves in direction `m`.
pub open spec fn neighbor_of(s: Seq<u8>, m: Move) -> int {
    match m {
        Move::Up => blank_of(s) - 4,
        Move::Down => blank_of(s) + 4,
        Move::Left => blank_of(s) - 1,
        Move::Right => blank_of(s) + 1,
    }
}

/// The board after a legal move in direction `m`: the neighbor's tile stands
/// in the blank's old cell and the blank in the neighbor's cell.
pub open spec fn move_result(s: Seq<u8>, m: Move) -> Seq<u8> {
    s.update(blank_of(s), s[neighbor_of(s, m)]).update(neighbor_of(s, m), 0u8)
}

/// One shuffling step: a legal move is applied, an illegal one is skipped
/// and leaves the board as it is.
pub open spec fn step(s: Seq<u8>, m: Move) -> Seq<u8> {
    if move_legal(s, m) {
        move_result(s, m)
    } else {
        s
    }
}

/// The board after the moves of `p` are applied in order, illegal moves
/// skipped.
pub open spec fn apply_path(s: Seq<u8>, p: Seq<Move>) -> Seq<u8>
    decreases p.len(),
{
    if p.len() == 0 {
        s
    } else {
        apply_path(step(s, p[0]), p.drop_first())
    }
}

/// Whether every move of `p`, applied in order from `s`, is legal.
pub open spec fn path_legal(s: Seq<u8>, p: Seq<Move>) -> bool
    decreases p.len(),
{
    p.len() == 0 || (move_legal(s, p[0]) && path_legal(move_result(s, p[0]), p.drop_first()))
}

/// The path that retraces `p` backwards: the opposites of its moves, in
/// reverse order.
pub open spec fn rev_path(p: Seq<Move>) -> Seq<Move>
    decreases p.len(),
{
    if p.len() == 0 {
        Seq::empty()
    } else {
        rev_path(p.drop_first()).push(opposite(p[0]))
    }
}

proof fn lemma_solved_prefix_counts(k: int)
    requires
        0 <= k <= 15,
    ensures
        forall|v: u8|
            solved_seq().subrange(0, k).to_multiset().count(v) == (if 1 <= v <= k {
                1nat
            } else {
                0nat
            }),
    decreases k,
{
    let s = solved_seq().subrange(0, k);
    if k == 0 {
        assert forall|v: u8| s.to_multiset().count(v) == 0nat by {
            if s.to_multiset().count(v) > 0 {
                assert(s.contains(v));
            }
        }
    } else {
        lemma_solved_prefix_counts(k - 1);
        let s0 = solved_seq().subrange(0, k - 1);
        assert(s =~= s0.push(k as u8));
        assert(s.to_multiset() == s0.to_multiset().insert(k as u8));
    }
}

/// The canonical solved layout is a well-formed board.
pub proof fn lemma_solved_wf()
    ensures
        wf_board(solved_seq()),
{
    lemma_solved_prefix_counts(15);
    let s15 = solved_seq().subrange(0, 15);
    assert(solved_seq() =~= s15.push(0u8));
    assert(solved_seq().to_multiset() == s15.to_multiset().insert(0u8));
}

/// Replacing the value at one cell replaces one occurrence in the multiset
/// of values.
proof fn lemma_update_to_multiset(s: Seq<u8>, i: int, v: u8)
    requires
        0 <= i < s.len(),
    ensures
        s.update(i, v).to_multiset() == s.to_multiset().remove(s[i]).insert(v),
{
    let t = s.update(i, v);
    assert(t.remove(i) =~= s.remove(i));
    assert(t.remove(i).to_multiset() == t.to_multiset().remove(v));
    assert(s.remove(i).to_multiset() == s.to_multiset().remove(s[i]));
    assert(t.contains(v)) by {
        assert(t[i] == v);
    }
    assert(t.to_multiset().count(v) > 0);
    assert(t.to_multiset() =~= t.to_multiset().remove(v).insert(v));
    assert(t.to_multiset() =~= s.to_multiset().remove(s[i]).insert(v));
}

/// On a well-formed board the blank exists, is unique, and every cell value
/// is below sixteen.
pub proof fn lemma_wf_facts(s: Seq<u8>)
    requires
        wf_board(s),
    ensures
        0 <= blank_of(s) < 16,
        s[blank_of(s)] == 0,
        forall|k: int| 0 <= k < 16 ==> s[k] < 16,
        forall|k: int| 0 <= k < 16 && s[k] == 0 ==> k == blank_of(s),
        forall|k1: int, k2: int| 0 <= k1 < 16 && 0 <= k2 < 16 && k1 != k2 ==> s[k1] != s[k2],
{
    assert(s.to_multiset().count(0u8) == 1);
    assert(s.contains(0u8));
    assert(exists|k: int| 0 <= k < 16 && s[k] == 0);
    assert forall|k: int| 0 <= k < 16 implies s[k] < 16 by {
        assert(s.contains(s[k]));
        assert(s.to_multiset().count(s[k]) > 0);
    }
    assert forall|x: u8| s.to_multiset().contains(x) implies s.to_multiset().count(x) == 1 by {
        assert(s.to_multiset().count(x) > 0);
    }
    s.lemma_multiset_has_no_duplicates_conv();
    assert forall|k: int| 0 <= k < 16 && s[k] == 0 implies k == blank_of(s) by {
        let b = blank_of(s);
        assert(0 <= b < 16 && s[b] == 0);
    }
}

/// A legal move keeps the board well formed; afterwards the blank stands in
/// the old neighbor cell.
pub proof fn lemma_move_result_wf(s: Seq<u8>, m: Move)
    requires
        wf_board(s),
        move_legal(s, m),
    ensures
        wf_board(move_result(s, m)),
        0 <= neighbor_of(s, m) < 16,
        neighbor_of(s, m) != blank_of(s),
        blank_of(move_result(s, m)) == neighbor_of(s, m),
        s[neighbor_of(s, m)] != 0,
{
    lemma_wf_facts(s);
    let b = blank_of(s);
    let n = neighbor_of(s, m);
    vstd::arithmetic::div_mod::lemma_fundamental_div_mod(b, 4);
    assert(0 <= n < 16);
    assert(n != b);
    assert(s[n] != 0);
    let t = move_result(s, m);
    lemma_update_to_multiset(s, b, s[n]);
    lemma_update_to_multiset(s.update(b, s[n]), n, 0u8);
    assert(s.update(b, s[n])[n] == s[n]);
    assert(t.to_multiset() == s.to_multiset().remove(s[b]).insert(s[n]).remove(s[n]).insert(0u8));
    assert(t.to_multiset() =~= s.to_multiset());
    assert(wf_board(t));
    lemma_wf_facts(t);
    assert(t[n] == 0);
}

/// Law: a legal move followed by its opposite restores the original board.
pub proof fn lemma_move_reversible(s: Seq<u8>, m: Move)
    requires
        wf_board(s),
        move_legal(s, m),
    ensures
        move_legal(move_result(s, m), opposite(m)),
        move_result(move_result(s, m), opposite(m)) == s,
{
    lemma_wf_facts(s);
    lemma_move_result_wf(s, m);
    let b = blank_of(s);
    let n = neighbor_of(s, m);
    let t = move_result(s, m);
    vstd::arithmetic::div_mod::lemma_fundamental_div_mod(b, 4);
    vstd::arithmetic::div_mod::lemma_fundamental_div_mod(n, 4);
    assert(move_legal(t, opposite(m))) by {
        assert(blank_of(t) == n);
        match m {
            Move::Up => {
                assert(n == b - 4);
                vstd::arithmetic::div_mod::lemma_fundamental_div_mod_converse(
                    n, 4, b / 4 - 1, b % 4);
            },
            Move::Down => {
                assert(n == b + 4);
                vstd::arithmetic::div_mod::lemma_fundamental_div_mod_converse(
                    n, 4, b / 4 + 1, b % 4);
            },
            Move::Left => {
                assert(n == b - 1);
                vstd::arithmetic::div_mod::lemma_fundamental_div_mod_converse(
                    n, 4, b / 4, b % 4 - 1);
            },
            Move::Right => {
                assert(n == b + 1);
                vstd::arithmetic::div_mod::lemma_fundamental_div_mod_converse(
                    n, 4, b / 4, b % 4 + 1);
            },
        }
    }
    assert(neighbor_of(t, opposite(m)) == b);
    let u = move_result(t, opposite(m));
    assert(u =~= s) by {
        assert(t[b] == s[n]);
        assert(u == t.update(n, t[b]).update(b, 0u8));
        assert(forall|k: int| 0 <= k < 16 && k != b && k != n ==> u[k] == s[k]);
        assert(u[b] == 0 && s[b] == 0);
        assert(u[n] == s[n]);
    }
}

/// Law: every board reachable by moves from a well-formed board is well
/// formed; its cell values are again exactly the multiset {0, ..., 15}.
pub proof fn lemma_apply_path_wf(s: Seq<u8>, p: Seq<Move>)
    requires
        wf_board(s),
    ensures
        wf_board(apply_path(s, p)),
    decreases p.len(),
{
    if p.len() > 0 {
        if move_legal(s, p[0]) {
            lemma_move_result_wf(s, p[0]);
        }
        lemma_apply_path_wf(step(s, p[0]), p.drop_first());
    }
}

/// Appending a move applies it after the rest of the path.
pub proof fn lemma_apply_path_snoc(s: Seq<u8>, p: Seq<Move>, m: Move)
    ensures
        apply_path(s, p.push(m)) == step(apply_path(s, p), m),
    decreases p.len(),
{
    let q = p.push(m);
    if p.len() == 0 {
        assert(q[0] == m);
        assert(q.drop_first() =~= Seq::<Move>::empty());
        assert(apply_path(s, q) == apply_path(step(s, m), q.drop_first()));
        assert(apply_path(step(s, m), q.drop_first()) == step(s, m));
        assert(apply_path(s, p) == s);
    } else {
        assert(q[0] == p[0]);
        assert(q.drop_first() =~= p.drop_first().push(m));
        assert(apply_path(s, q) == apply_path(step(s, p[0]), p.drop_first().push(m)));
        lemma_apply_path_snoc(step(s, p[0]), p.drop_first(), m);
        assert(apply_path(s, p) == apply_path(step(s, p[0]), p.drop_first()));
    }
}

/// A legal path stays legal when a move that is legal at its end is appended.
pub proof fn lemma_path_legal_snoc(s: Seq<u8>, p: Seq<Move>, m: Move)
    requires
        path_legal(s, p),
        move_legal(apply_path(s, p), m),
    ensures
        path_legal(s, p.push(m)),
    decreases p.len(),
{
    let q = p.push(m);
    if p.len() == 0 {
        assert(q[0] == m);
        assert(q.drop_first() =~= Seq::<Move>::empty());
        assert(apply_path(s, p) == s);
        assert(move_legal(s, m));
        assert(path_legal(move_result(s, m), q.drop_first()));
        assert(path_legal(s, q));
    } else {
        assert(q[0] == p[0]);
        assert(q.drop_first() =~= p.drop_first().push(m));
        assert(apply_path(s, p) == apply_path(step(s, p[0]), p.drop_first()));
        lemma_path_legal_snoc(move_result(s, p[0]), p.drop_first(), m);
        assert(path_legal(s, q) == (move_legal(s, q[0]) && path_legal(
            move_result(s, q[0]),
            q.drop_first(),
        )));
    }
}

/// Law: a board legally reached from an origin can be legally returned to it
/// by retracing the path backwards with opposite moves. In particular every
/// board shuffled from the solved layout can be moved back to it, so it is
/// solvable.
pub proof fn lemma_path_reversible(s: Seq<u8>, p: Seq<Move>)
    requires
        wf_board(s),
        path_legal(s, p),
    ensures
        path_legal(apply_path(s, p), rev_path(p)),
        apply_path(apply_path(s, p), rev_path(p)) == s,
    decreases p.len(),
{
    if p.len() > 0 {
        let m = p[0];
        let s1 = move_result(s, m);
        let rest = p.drop_first();
        let b = apply_path(s, p);
        lemma_move_result_wf(s, m);
        lemma_path_reversible(s1, rest);
        lemma_move_reversible(s, m);
        lemma_path_legal_snoc(b, rev_path(rest), opposite(m));
        lemma_apply_path_snoc(b, rev_path(rest), opposite(m));
    }
}

/// Relies on rand::thread_rng and rand::Rng::gen::<usize>: returns some
/// machine-chosen value; nothing is promised of it.
#[verifier::external_body]
fn random_usize() -> usize {
    rand::Rng::gen::<usize>(&mut rand::thread_rng())
}

/// One puzzle configuration: a 4x4 grid of tile labels stored row-major,
/// 0 marking the blank. Well-formedness is an invariant of the type.
pub struct Board {
    cells: Vec<u8>,
}

impl View for Board {
    type V = Seq<u8>;

    closed spec fn view(&self) -> Seq<u8> {
        self.cells@
    }
}

impl Clone for Board {
    /// A clone is an equal board.
    fn clone(&self) -> (r: Self)
        ensures
            r@ == self@,
    {
        proof {
            use_type_invariant(&*self);
        }
        Board { cells: self.copy_cells() }
    }
}

impl Board {
    /// Every board that can be observed is well formed.
    #[verifier::type_invariant]
    pub open spec fn well_formed(&self) -> bool {
        wf_board(self@)
    }

    /// The canonical solved board.
    pub fn solved() -> (r: Board)
        ensures
            r@ == solved_seq(),
    {
        let mut cells: Vec<u8> = Vec::new();
        let mut k: usize = 0;
        while k < 15
            invariant
                k <= 15,
                cells@ == solved_seq().subrange(0, k as int),
                forall|v: u8|
                    cells@.to_multiset().count(v) == (if 1 <= v <= k {
                        1nat
                    } else {
                        0nat
                    }),
            decreases 15 - k,
        {
            let ghost prev = cells@;
            cells.push((k + 1) as u8);
            proof {
                assert(cells@ == prev.push((k + 1) as u8));
                assert(cells@.to_multiset() == prev.to_multiset().insert((k + 1) as u8));
                assert(cells@ =~= solved_seq().subrange(0, k + 1 as int));
            }
            k += 1;
        }
        let ghost prev = cells@;
        cells.push(0);
        proof {
            assert(cells@ == prev.push(0u8));
            assert(cells@.to_multiset() == prev.to_multiset().insert(0u8));
            assert(cells@ =~= solved_seq());
            assert(wf_board(cells@));
        }
        Board { cells }
    }

    /// A shuffled, always-solvable board: the solved layout with one hundred
    /// random moves applied, illegal ones silently skipped. The result is
    /// reachable from the solved board by legal moves, hence solvable.
    pub fn new() -> (r: Board)
        ensures
            exists|p: Seq<Move>|
                path_legal(solved_seq(), p) && apply_path(solved_seq(), p) == r@,
    {
        Self::prepared_board()
    }

    fn prepared_board() -> (r: Board)
        ensures
            exists|p: Seq<Move>|
                path_legal(solved_seq(), p) && apply_path(solved_seq(), p) == r@,
    {
        let mut board = Board::solved();
        let ghost mut gpath: Seq<Move> = Seq::empty();

        let mut moves: Vec<Move> = Vec::new();
        moves.push(Move::Up);
        moves.push(Move::Down);
        moves.push(Move::Left);
        moves.push(Move::Right);

        let mut t: usize = 0;
        while t < 100
            invariant
                t <= 100,
                moves.len() == 4,
                path_legal(solved_seq(), gpath),
                apply_path(solved_seq(), gpath) == board@,
            decreases 100 - t,
        {
            let idx = random_usize() % 4;
            let m = moves[idx];
            if let Some(nb) = board.move_tile(&m) {
                proof {
                    lemma_path_legal_snoc(solved_seq(), gpath, m);
                    lemma_apply_path_snoc(solved_seq(), gpath, m);
                    gpath = gpath.push(m);
                }
                board = nb;
            }
            t += 1;
        }
        proof {
            assert(path_legal(solved_seq(), gpath) && apply_path(solved_seq(), gpath) == board@);
        }
        board
    }

    /// The current tile layout, row-major: cell `4 * row + column`.
    pub fn get_board(&self) -> (r: Vec<u8>)
        ensures
            r@ == self@,
            wf_board(r@),
    {
        proof {
            use_type_invariant(&*self);
        }
        self.copy_cells()
    }

    fn copy_cells(&self) -> (r: Vec<u8>)
        ensures
            r@ == self@,
    {
        let mut r: Vec<u8> = Vec::new();
        let mut k: usize = 0;
        while k < self.cells.len()
            invariant
                k <= self.cells.len(),
                r@ == self.cells@.subrange(0, k as int),
            decreases self.cells.len() - k,
        {
            let ghost prev = r@;
            r.push(self.cells[k]);
            proof {
                assert(r@ =~= self.cells@.subrange(0, k + 1 as int));
            }
            k += 1;
        }
        proof {
            assert(r@ =~= self.cells@);
        }
        r
    }

    /// The row and column of the blank. A well-formed board always has one,
    /// so the lookup cannot fail.
    pub fn free_slot(&self) -> (r: (usize, usize))
        ensures
            r.0 == blank_of(self@) / 4,
            r.1 == blank_of(self@) % 4,
            r.0 < 4,
            r.1 < 4,
    {
        proof {
            use_type_invariant(&*self);
            lemma_wf_facts(self@);
        }
        let mut k: usize = 0;
        while k < 16
            invariant
                k <= 16,
                wf_board(self@),
                forall|j: int| 0 <= j < k ==> self@[j] != 0,
            decreases 16 - k,
        {
            if self.cells[k] == 0 {
                proof {
                    lemma_wf_facts(self@);
                    assert(k == blank_of(self@));
                    vstd::arithmetic::div_mod::lemma_fundamental_div_mod(k as int, 4);
                }
                return (k / 4, k % 4);
            }
            k += 1;
        }
        proof {
            lemma_wf_facts(self@);
            assert(self@[blank_of(self@)] == 0);
            assert(false);
        }
        vstd::pervasive::unreached()
    }

    /// Whether two boards show the same layout, cell by cell.
    pub fn same_layout(&self, other: &Board) -> (r: bool)
        ensures
            r == (self@ == other@),
    {
        proof {
            use_type_invariant(&*self);
            use_type_invariant(&*other);
        }
        let mut k: usize = 0;
        while k < 16
            invariant
                k <= 16,
                wf_board(self@),
                wf_board(other@),
                forall|i: int| 0 <= i < k ==> self@[i] == other@[i],
            decreases 16 - k,
        {
            if self.cells[k] != other.cells[k] {
                return false;
            }
            k += 1;
        }
        proof {
            assert(self@ =~= other@);
        }
        true
    }

    /// The board with the blank moved one cell in direction `m`, or no board
    /// when that would leave the grid: the blank in the top row cannot move
    /// up, and so on for the other three edges.
    pub fn move_tile(&self, m: &Move) -> (r: Option<Board>)
        ensures
            r is Some <==> move_legal(self@, *m),
            (match r {
                Option::Some(nb) => nb@ == move_result(self@, *m),
                Option::None => true,
            }),
    {
        proof {
            use_type_invariant(&*self);
            lemma_wf_facts(self@);
        }
        let ghost s = self@;
        let ghost b = blank_of(s);
        let (i, j) = self.free_slot();
        proof {
            vstd::arithmetic::div_mod::lemma_fundamental_div_mod(b, 4);
        }
        let b_idx: usize = i * 4 + j;
        let n_idx: usize = match m {
            Move::Down => {
                if i == 3 {
                    return Option::None;
                }
                b_idx + 4
            },
            Move::Up => {
                if i == 0 {
                    return Option::None;
                }
                b_idx - 4
            },
            Move::Right => {
                if j == 3 {
                    return Option::None;
                }
                b_idx + 1
            },
            Move::Left => {
                if j == 0 {
                    return Option::None;
                }
                b_idx - 1
            },
        };
        proof {
            assert(b_idx == b);
            assert(move_legal(s, *m));
            lemma_move_result_wf(s, *m);
            assert(n_idx == neighbor_of(s, *m));
        }
        let mut cells = self.copy_cells();
        let moved = cells[n_idx];
        cells.set(b_idx, moved);
        cells.set(n_idx, 0);
        proof {
            assert(cells@ =~= move_result(s, *m));
            assert(wf_board(cells@));
        }
        Option::Some(Board { cells })
    }

}

} // verus!
