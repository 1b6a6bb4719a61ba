use vstd::prelude::*;
use vstd::multiset::Multiset;

use crate::board::{
    apply_path, blank_of, lemma_apply_path_snoc, lemma_move_result_wf, lemma_path_legal_snoc,
    lemma_path_reversible, lemma_solved_wf, lemma_wf_facts, move_legal, move_result, neighbor_of,
    path_legal, rev_path, solved_seq, wf_board, Board, Move,
};
use crate::frontier::{heap_delete_min, heap_entries, heap_insert, heap_is_empty, heap_new};

verus! {

broadcast use vstd::multiset::group_multiset_axioms;

/// Whether a board shows the goal configuration: each of the first fifteen
/// cells `k` holds the tile `k + 1` (the blank then fills the last cell).
pub open spec fn is_goal(s: Seq<u8>) -> bool {
    forall|k: int| 0 <= k < 15 ==> s[k] == k + 1
}

/// Whether a board can be taken to the goal by some sequence of legal moves.
pub open spec fn solvable(s: Seq<u8>) -> bool {
    exists|p: Seq<Move>| path_legal(s, p) && is_goal(apply_path(s, p))
}

/// Law: every board reachable from the solved layout by legal moves is
/// solvable — retracing the moves backwards solves it. The shuffle only
/// makes such boards.
pub proof fn lemma_shuffled_solvable(b: Seq<u8>)
    requires
        exists|p: Seq<Move>| path_legal(solved_seq(), p) && apply_path(solved_seq(), p) == b,
    ensures
        solvable(b),
{
    let p = choose|p: Seq<Move>| path_legal(solved_seq(), p) && apply_path(solved_seq(), p) == b;
    lemma_solved_wf();
    lemma_path_reversible(solved_seq(), p);
    assert(is_goal(solved_seq()));
    assert(path_legal(b, rev_path(p)) && is_goal(apply_path(b, rev_path(p))));
}

/// How many of the first `n` cells do not hold their goal tile.
pub open spec fn misplaced_upto(s: Seq<u8>, n: int) -> int
    decreases n,
{
    if n <= 0 {
        0
    } else {
        misplaced_upto(s, n - 1) + (if s[n - 1] == n {
            0int
        } else {
            1int
        })
    }
}

/// The number of the fifteen tiles that stand outside their goal cell.
pub open spec fn misplaced(s: Seq<u8>) -> int {
    misplaced_upto(s, 15)
}

/// The Manhattan distance of the value `v` standing in cell `k` from its
/// goal cell; the blank counts for nothing.
pub open spec fn tile_dist(v: u8, k: int) -> int {
    if v == 0 {
        0
    } else {
        vstd::math::abs(k / 4 - (v - 1) / 4) + vstd::math::abs(k % 4 - (v - 1) % 4) as int
    }
}

/// The summed Manhattan distance of the tiles in the first `n` cells.
pub open spec fn manhattan_upto(s: Seq<u8>, n: int) -> int
    decreases n,
{
    if n <= 0 {
        0
    } else {
        manhattan_upto(s, n - 1) + tile_dist(s[n - 1], n - 1)
    }
}

/// The Manhattan-distance heuristic: the summed distance of every tile from
/// its goal cell.
pub open spec fn manhattan(s: Seq<u8>) -> int {
    manhattan_upto(s, 16)
}

/// Replacing one cell value shifts the summed distance by that cell's term.
proof fn lemma_manhattan_update(s: Seq<u8>, i: int, x: u8, n: int)
    requires
        0 <= i < s.len(),
        0 <= n <= s.len(),
    ensures
        manhattan_upto(s.update(i, x), n) == manhattan_upto(s, n) + (if i < n {
            tile_dist(x, i) - tile_dist(s[i], i)
        } else {
            0int
        }),
    decreases n,
{
    let t = s.update(i, x);
    if n > 0 {
        lemma_manhattan_update(s, i, x, n - 1);
        if i == n - 1 {
            assert(t[n - 1] == x);
        } else {
            assert(t[n - 1] == s[n - 1]);
        }
    }
}

proof fn lemma_manhattan_upto_zero(s: Seq<u8>, n: int)
    requires
        0 <= n <= s.len(),
        forall|k: int| 0 <= k < n ==> tile_dist(s[k], k) == 0,
    ensures
        manhattan_upto(s, n) == 0,
    decreases n,
{
    if n > 0 {
        lemma_manhattan_upto_zero(s, n - 1);
    }
}

/// Law: on a well-formed board the goal test picks out exactly the canonical
/// solved layout, value `v` in cell `v - 1` and the blank in the last cell.
pub proof fn lemma_goal_is_solved(s: Seq<u8>)
    requires
        wf_board(s),
    ensures
        is_goal(s) <==> s == solved_seq(),
{
    lemma_wf_facts(s);
    if is_goal(s) {
        assert(s[15] == 0) by {
            if s[15] != 0 {
                let v = s[15];
                assert(v < 16);
                assert(s[v - 1] == v);
            }
        }
        assert(s =~= solved_seq());
    }
    if s == solved_seq() {
        assert(is_goal(s));
    }
}

/// On the goal board every tile stands in its goal cell, so the Manhattan
/// heuristic is zero there.
pub proof fn lemma_goal_manhattan_zero(s: Seq<u8>)
    requires
        wf_board(s),
        is_goal(s),
    ensures
        manhattan(s) == 0,
{
    lemma_wf_facts(s);
    assert(s[15] == 0) by {
        if s[15] != 0 {
            let v = s[15];
            assert(v < 16);
            assert(s[v - 1] == v);
        }
    }
    assert forall|k: int| 0 <= k < 16 implies tile_dist(s[k], k) == 0 by {
        if k < 15 {
            assert(s[k] == k + 1);
        }
    }
    lemma_manhattan_upto_zero(s, 16);
}

/// One move changes the Manhattan heuristic by at most one in either
/// direction: only the swapped tile moves, and only by one cell.
pub proof fn lemma_manhattan_step(s: Seq<u8>, m: Move)
    requires
        wf_board(s),
        move_legal(s, m),
    ensures
        manhattan(s) - 1 <= manhattan(move_result(s, m)) <= manhattan(s) + 1,
{
    lemma_wf_facts(s);
    lemma_move_result_wf(s, m);
    let b = blank_of(s);
    let n = neighbor_of(s, m);
    let v = s[n];
    let s2 = s.update(b, v);
    let t = move_result(s, m);
    lemma_manhattan_update(s, b, v, 16);
    assert(s2[n] == v);
    lemma_manhattan_update(s2, n, 0u8, 16);
    assert(tile_dist(s[b], b) == 0);
    assert(manhattan(t) == manhattan(s) + tile_dist(v, b) - tile_dist(v, n));
    vstd::arithmetic::div_mod::lemma_fundamental_div_mod(b, 4);
    vstd::arithmetic::div_mod::lemma_fundamental_div_mod(n, 4);
    assert(tile_dist(v, b) - 1 <= tile_dist(v, n) <= tile_dist(v, b) + 1) by {
        match m {
            Move::Up => {
                vstd::arithmetic::div_mod::lemma_fundamental_div_mod_converse(
                    n, 4, b / 4 - 1, b % 4);
            },
            Move::Down => {
                vstd::arithmetic::div_mod::lemma_fundamental_div_mod_converse(
                    n, 4, b / 4 + 1, b % 4);
            },
            Move::Left => {
                vstd::arithmetic::div_mod::lemma_fundamental_div_mod_converse(
                    n, 4, b / 4, b % 4 - 1);
            },
            Move::Right => {
                vstd::arithmetic::div_mod::lemma_fundamental_div_mod_converse(
                    n, 4, b / 4, b % 4 + 1);
            },
        }
    }
}

/// Law: the Manhattan-distance heuristic never exceeds the length of any
/// legal move sequence that takes the board to the goal, so it never
/// overstates the true number of moves still needed.
pub proof fn lemma_manhattan_admissible(s: Seq<u8>, p: Seq<Move>)
    requires
        wf_board(s),
        path_legal(s, p),
        is_goal(apply_path(s, p)),
    ensures
        manhattan(s) <= p.len(),
    decreases p.len(),
{
    if p.len() == 0 {
        lemma_goal_manhattan_zero(s);
    } else {
        let m = p[0];
        let t = move_result(s, m);
        lemma_move_result_wf(s, m);
        assert(apply_path(s, p) == apply_path(t, p.drop_first()));
        lemma_manhattan_admissible(t, p.drop_first());
        lemma_manhattan_step(s, m);
    }
}

/// Sixteen to the `k`-th power: the number of boards a `k`-cell suffix can
/// show.
spec fn pow16(k: int) -> int
    decreases k,
{
    if k <= 0 {
        1
    } else {
        16 * pow16(k - 1)
    }
}

proof fn lemma_pow16_pos(k: int)
    ensures
        pow16(k) >= 1,
    decreases k,
{
    if k > 0 {
        lemma_pow16_pos(k - 1);
    }
}

/// The board read as a base-16 number, cell `i` onwards, cell `i` the lowest
/// digit.
spec fn key_from(s: Seq<u8>, i: int) -> int
    decreases 16 - i,
{
    if i < 0 || i >= 16 {
        0
    } else {
        s[i] + 16 * key_from(s, i + 1)
    }
}

proof fn lemma_key_from_nonneg(s: Seq<u8>, i: int)
    ensures
        key_from(s, i) >= 0,
    decreases 16 - i,
{
    if 0 <= i && i < 16 {
        lemma_key_from_nonneg(s, i + 1);
    }
}

proof fn lemma_key_from_bound(s: Seq<u8>, i: int)
    requires
        0 <= i <= 16,
        forall|k: int| 0 <= k < 16 ==> s[k] < 16,
    ensures
        0 <= key_from(s, i) < pow16(16 - i),
    decreases 16 - i,
{
    if i < 16 {
        lemma_key_from_bound(s, i + 1);
        assert(pow16(16 - i) == 16 * pow16(15 - i));
    }
}

/// Two boards of in-range cell values with the same encoding agree cell by
/// cell: the encoding is injective.
proof fn lemma_key_from_injective(s: Seq<u8>, t: Seq<u8>, i: int)
    requires
        0 <= i <= 16,
        forall|k: int| 0 <= k < 16 ==> s[k] < 16,
        forall|k: int| 0 <= k < 16 ==> t[k] < 16,
        key_from(s, i) == key_from(t, i),
    ensures
        forall|k: int| i <= k < 16 ==> s[k] == t[k],
    decreases 16 - i,
{
    if i < 16 {
        lemma_key_from_nonneg(s, i + 1);
        lemma_key_from_nonneg(t, i + 1);
        let x = key_from(s, i);
        vstd::arithmetic::div_mod::lemma_fundamental_div_mod_converse(
            x, 16, key_from(s, i + 1), s[i] as int);
        vstd::arithmetic::div_mod::lemma_fundamental_div_mod_converse(
            x, 16, key_from(t, i + 1), t[i] as int);
        lemma_key_from_injective(s, t, i + 1);
    }
}

/// There are no more distinct well-formed boards than base-16 encodings of
/// sixteen digits, so a duplicate-free store of boards is bounded.
proof fn lemma_distinct_boards_bounded(bs: Seq<Board>)
    requires
        forall|j: int| 0 <= j < bs.len() ==> wf_board((#[trigger] bs[j])@),
        forall|j1: int, j2: int| 0 <= j1 < j2 < bs.len() ==> bs[j1]@ != bs[j2]@,
    ensures
        bs.len() <= pow16(16),
{
    let keys = Seq::new(bs.len(), |j: int| key_from(bs[j]@, 0));
    assert forall|j1: int, j2: int|
        0 <= j1 < keys.len() && 0 <= j2 < keys.len() && j1 != j2 implies keys[j1] != keys[j2] by {
        let a = if j1 < j2 {
            j1
        } else {
            j2
        };
        let b = if j1 < j2 {
            j2
        } else {
            j1
        };
        if keys[a] == keys[b] {
            lemma_wf_facts(bs[a]@);
            lemma_wf_facts(bs[b]@);
            lemma_key_from_injective(bs[a]@, bs[b]@, 0);
            assert(bs[a]@ =~= bs[b]@);
        }
    }
    assert(keys.no_duplicates());
    keys.unique_seq_to_set();
    lemma_pow16_pos(16);
    assert forall|x: int|
        keys.to_set().contains(x) implies vstd::set_lib::set_int_range(0, pow16(16)).contains(
        x,
    ) by {
        let j = choose|j: int| 0 <= j < keys.len() && keys[j] == x;
        lemma_wf_facts(bs[j]@);
        lemma_key_from_bound(bs[j]@, 0);
    }
    assert(keys.to_set().subset_of(vstd::set_lib::set_int_range(0, pow16(16))));
    vstd::set_lib::lemma_int_range(0, pow16(16));
    vstd::set_lib::lemma_len_subset(keys.to_set(), vstd::set_lib::set_int_range(0, pow16(16)));
}

/// The best-first searcher over boards.
pub struct BoardSolver {}

/// A frontier entry: a board reached so far, with the moves that reached it
/// from the start board.
struct HistoryNode {
    board: Board,
    path: Vec<Move>,
}

/// A node records a legal path from the start board to its own board.
spec fn node_ok(start: Seq<u8>, n: HistoryNode) -> bool {
    &&& path_legal(start, n.path@)
    &&& apply_path(start, n.path@) == n.board@
}

/// Every stored node is a correct record, and every heap entry points at a
/// stored node.
spec fn frontier_ok(
    start: Seq<u8>,
    nodes: Seq<HistoryNode>,
    entries: Multiset<(usize, usize)>,
) -> bool {
    &&& forall|i: int| 0 <= i < nodes.len() ==> node_ok(start, #[trigger] nodes[i])
    &&& forall|e: (usize, usize)| entries.count(e) > 0 ==> e.0 < nodes.len()
}

/// The state `t` is the board of some entry still waiting in the frontier.
spec fn state_in_frontier(
    t: Seq<u8>,
    nodes: Seq<HistoryNode>,
    entries: Multiset<(usize, usize)>,
) -> bool {
    exists|e: (usize, usize)|
        #![trigger entries.count(e)]
        entries.count(e) > 0 && (e.0 as int) < nodes.len() && nodes[e.0 as int].board@ == t
}

/// The state `t` is the board of some already-expanded entry.
spec fn in_visited(t: Seq<u8>, visited: Seq<Board>) -> bool {
    exists|j: int| 0 <= j < visited.len() && (#[trigger] visited[j])@ == t
}

/// The state `t` has been expanded or still waits in the frontier.
spec fn covered(
    t: Seq<u8>,
    visited: Seq<Board>,
    nodes: Seq<HistoryNode>,
    entries: Multiset<(usize, usize)>,
) -> bool {
    in_visited(t, visited) || state_in_frontier(t, nodes, entries)
}

/// The expanded states are well formed, none is the goal, none repeats.
spec fn visited_ok(visited: Seq<Board>) -> bool {
    &&& forall|j: int| 0 <= j < visited.len() ==> wf_board((#[trigger] visited[j])@)
    &&& forall|j: int| 0 <= j < visited.len() ==> !is_goal((#[trigger] visited[j])@)
    &&& forall|j1: int, j2: int| 0 <= j1 < j2 < visited.len() ==> visited[j1]@ != visited[j2]@
}

/// Every legal successor of an expanded state is expanded or in the
/// frontier: the search loses no reachable state.
spec fn closure_ok(
    visited: Seq<Board>,
    nodes: Seq<HistoryNode>,
    entries: Multiset<(usize, usize)>,
) -> bool {
    forall|j: int, m: Move|
        #![trigger move_legal(visited[j]@, m)]
        0 <= j < visited.len() && move_legal(visited[j]@, m) ==> covered(
            move_result(visited[j]@, m),
            visited,
            nodes,
            entries,
        )
}

/// With an empty frontier the closed set is closed under legal moves, so it
/// holds every board legally reachable from any of its members.
proof fn lemma_closed_covers(start: Seq<u8>, p: Seq<Move>, visited: Seq<Board>)
    requires
        in_visited(start, visited),
        path_legal(start, p),
        forall|j: int, m: Move|
            #![trigger move_legal(visited[j]@, m)]
            0 <= j < visited.len() && move_legal(visited[j]@, m) ==> in_visited(
                move_result(visited[j]@, m),
                visited,
            ),
    ensures
        in_visited(apply_path(start, p), visited),
    decreases p.len(),
{
    if p.len() > 0 {
        let j0 = choose|j: int| 0 <= j < visited.len() && (#[trigger] visited[j])@ == start;
        assert(move_legal(visited[j0]@, p[0]));
        let s1 = move_result(start, p[0]);
        assert(in_visited(s1, visited));
        lemma_closed_covers(s1, p.drop_first(), visited);
        assert(apply_path(start, p) == apply_path(s1, p.drop_first()));
    }
}

/// An exhausted frontier proves there is nothing left to find: had the start
/// board been solvable, the goal board would sit in the closed set, which
/// holds no goal board.
proof fn lemma_exhausted_means_unsolvable(
    start: Seq<u8>,
    visited: Seq<Board>,
    nodes: Seq<HistoryNode>,
    entries: Multiset<(usize, usize)>,
)
    requires
        entries.len() == 0,
        covered(start, visited, nodes, entries),
        closure_ok(visited, nodes, entries),
        visited_ok(visited),
    ensures
        !solvable(start),
{
    assert forall|t: Seq<u8>| !state_in_frontier(t, nodes, entries) by {
        if state_in_frontier(t, nodes, entries) {
            let e = choose|e: (usize, usize)|
                #![trigger entries.count(e)]
                entries.count(e) > 0 && (e.0 as int) < nodes.len() && nodes[e.0 as int].board@
                    == t;
            assert(entries.count(e) <= entries.len());
        }
    }
    if solvable(start) {
        let p = choose|p: Seq<Move>| path_legal(start, p) && is_goal(apply_path(start, p));
        assert forall|j: int, m: Move|
            #![trigger move_legal(visited[j]@, m)]
            0 <= j < visited.len() && move_legal(visited[j]@, m) implies in_visited(
            move_result(visited[j]@, m),
            visited,
        ) by {
            assert(covered(move_result(visited[j]@, m), visited, nodes, entries));
        }
        lemma_closed_covers(start, p, visited);
        let j = choose|j: int|
            0 <= j < visited.len() && (#[trigger] visited[j])@ == apply_path(start, p);
        assert(!is_goal(visited[j]@));
        assert(false);
    }
}

fn clone_moves(p: &Vec<Move>) -> (r: Vec<Move>)
    ensures
        r@ == p@,
{
    let mut r: Vec<Move> = Vec::new();
    let mut k: usize = 0;
    while k < p.len()
        invariant
            k <= p.len(),
            r@ == p@.subrange(0, k as int),
        decreases p.len() - k,
    {
        r.push(p[k]);
        proof {
            assert(r@ =~= p@.subrange(0, k + 1 as int));
        }
        k += 1;
    }
    proof {
        assert(r@ =~= p@);
    }
    r
}

/// Whether the closed set already holds a board with this layout.
fn visited_contains(visited: &Vec<Board>, b: &Board) -> (r: bool)
    ensures
        r == in_visited(b@, visited@),
{
    let mut k: usize = 0;
    while k < visited.len()
        invariant
            k <= visited@.len(),
            forall|j: int| 0 <= j < k ==> (#[trigger] visited@[j])@ != b@,
        decreases visited@.len() - k,
    {
        if visited[k].same_layout(b) {
            return true;
        }
        k += 1;
    }
    false
}

impl BoardSolver {
    /// Runs a best-first search from `board` toward the solved layout, the
    /// frontier keyed by path length plus Manhattan heuristic, skipping
    /// already-expanded states. A returned non-empty sequence is legal move
    /// by move and ends on the solved board; an already-solved board yields
    /// the empty sequence at once; and on every solvable board the search
    /// succeeds — it returns empty-handed only when the frontier is
    /// exhausted, which proves the board unsolvable.
    pub fn solve(board: &Board) -> (r: Vec<Move>)
        ensures
            path_legal(board@, r@),
            r@.len() > 0 ==> is_goal(apply_path(board@, r@)),
            is_goal(board@) ==> r@.len() == 0,
            solvable(board@) ==> is_goal(apply_path(board@, r@)),
    {
        proof {
            use_type_invariant(&*board);
        }
        let ghost start = board@;
        let mut heap = heap_new();
        let mut nodes: Vec<HistoryNode> = Vec::new();
        let mut visited: Vec<Board> = Vec::new();

        let root = HistoryNode { board: board.clone(), path: Vec::new() };
        let h0 = Self::heuristic(board);
        proof {
            assert(node_ok(start, root));
        }
        nodes.push(root);
        heap_insert(&mut heap, 0, h0);
        proof {
            let e0 = (0usize, h0);
            assert(heap_entries(heap).count(e0) > 0);
            assert(nodes@[0].board@ == start);
            assert(state_in_frontier(start, nodes@, heap_entries(heap)));
        }
        loop
            invariant
                start == board@,
                wf_board(start),
                frontier_ok(start, nodes@, heap_entries(heap)),
                visited_ok(visited@),
                covered(start, visited@, nodes@, heap_entries(heap)),
                closure_ok(visited@, nodes@, heap_entries(heap)),
                is_goal(start) ==> (forall|e: (usize, usize)|
                    heap_entries(heap).count(e) > 0 ==> nodes@[e.0 as int].path@.len() == 0),
            decreases
                pow16(16) - visited@.len(),
                heap_entries(heap).len(),
        {
            let ghost entries_head = heap_entries(heap);
            let ghost nodes_head = nodes@;
            let ghost visited_head = visited@;
            if heap_is_empty(&heap) {
                proof {
                    lemma_exhausted_means_unsolvable(
                        start,
                        visited@,
                        nodes@,
                        heap_entries(heap),
                    );
                }
                return Vec::new();
            }
            let popped = heap_delete_min(&mut heap);
            let (idx, pkey) = match popped {
                Option::Some(pair) => pair,
                Option::None => {
                    proof {
                        assert(false);
                    }
                    vstd::pervasive::unreached()
                },
            };
            let ghost e_pop = (idx, pkey);
            proof {
                assert(heap_entries(heap) =~= entries_head.remove(e_pop));
                assert((e_pop.0 as int) < nodes@.len());
                assert(node_ok(start, nodes@[idx as int]));
            }
            let picked = &nodes[idx];
            let node_board = picked.board.clone();
            let node_path = clone_moves(&picked.path);
            if Self::check_board(&node_board) {
                return node_path;
            }
            proof {
                use_type_invariant(&node_board);
                if is_goal(start) {
                    assert(node_path@.len() == 0);
                    assert(node_board@ == start);
                    assert(false);
                }
            }
            let ghost nb = node_board@;
            let ghost entries_mid = heap_entries(heap);
            if visited_contains(&visited, &node_board) {
                proof {
                    assert forall|t: Seq<u8>|
                        covered(t, visited_head, nodes_head, entries_head) implies covered(
                        t,
                        visited@,
                        nodes@,
                        heap_entries(heap),
                    ) by {
                        if state_in_frontier(t, nodes_head, entries_head) {
                            let e = choose|e: (usize, usize)|
                                #![trigger entries_head.count(e)]
                                entries_head.count(e) > 0 && (e.0 as int) < nodes_head.len()
                                    && nodes_head[e.0 as int].board@ == t;
                            if e == e_pop {
                                assert(t == nb);
                                assert(in_visited(t, visited@));
                            } else {
                                assert(heap_entries(heap).count(e) == entries_head.count(e));
                            }
                        }
                    }
                    assert(heap_entries(heap).len() == entries_head.len() - 1) by {
                        assert(entries_head.remove(e_pop).insert(e_pop) =~= entries_head);
                    }
                    lemma_distinct_boards_bounded(visited@);
                }
            } else {
                proof {
                    assert(frontier_ok(start, nodes@, heap_entries(heap)));
                }
                Self::expand_all(&mut heap, &mut nodes, &node_board, &node_path, Ghost(start));
                let ghost nodes_end = nodes@;
                let ghost entries_end = heap_entries(heap);
                visited.push(node_board);
                proof {
                    assert(visited@ =~= visited_head.push(visited@.last()));
                    assert(visited@.last()@ == nb);
                    // The closed set stays well formed, goal-free and
                    // duplicate-free.
                    assert(visited_ok(visited@));
                    // Anything covered before the pop is still covered: a
                    // surviving entry keeps its count, and the popped entry's
                    // own state is the state just pushed to the closed set.
                    assert forall|t: Seq<u8>|
                        covered(t, visited_head, nodes_head, entries_head) implies covered(
                        t,
                        visited@,
                        nodes@,
                        heap_entries(heap),
                    ) by {
                        if in_visited(t, visited_head) {
                            let j = choose|j: int|
                                0 <= j < visited_head.len() && (#[trigger] visited_head[j])@ == t;
                            assert(visited@[j]@ == t);
                            assert(in_visited(t, visited@));
                        } else if state_in_frontier(t, nodes_head, entries_head) {
                            let e = choose|e: (usize, usize)|
                                #![trigger entries_head.count(e)]
                                entries_head.count(e) > 0 && (e.0 as int) < nodes_head.len()
                                    && nodes_head[e.0 as int].board@ == t;
                            if e == e_pop {
                                assert(t == nb);
                                assert(visited@[visited_head.len() as int]@ == t);
                                assert(in_visited(t, visited@));
                            } else {
                                assert(entries_mid.count(e) == entries_head.count(e));
                                assert(entries_end.count(e) >= entries_mid.count(e));
                                assert(nodes_end[e.0 as int] == nodes_head[e.0 as int]);
                                assert(state_in_frontier(t, nodes@, heap_entries(heap)));
                            }
                        }
                    }
                    // The freshly expanded state's own successors are all in
                    // the frontier now, so the closure survives the push.
                    assert forall|j: int, m: Move|
                        #![trigger move_legal(visited@[j]@, m)]
                        0 <= j < visited@.len() && move_legal(visited@[j]@, m) implies covered(
                        move_result(visited@[j]@, m),
                        visited@,
                        nodes@,
                        heap_entries(heap),
                    ) by {
                        if j < visited_head.len() {
                            assert(covered(
                                move_result(visited_head[j]@, m),
                                visited_head,
                                nodes_head,
                                entries_head,
                            ));
                        } else {
                            assert(visited@[j]@ == nb);
                            assert(state_in_frontier(
                                move_result(nb, m),
                                nodes_end,
                                entries_end,
                            ));
                        }
                    }
                    lemma_distinct_boards_bounded(visited@);
                }
            }
        }
    }

    /// Tries all four directions from a popped node in the fixed order up,
    /// down, left, right; every legal successor is recorded and enters the
    /// frontier.
    fn expand_all(
        heap: &mut pheap::PairingHeap<usize, usize>,
        nodes: &mut Vec<HistoryNode>,
        node_board: &Board,
        node_path: &Vec<Move>,
        Ghost(start): Ghost<Seq<u8>>,
    )
        requires
            path_legal(start, node_path@),
            apply_path(start, node_path@) == node_board@,
            frontier_ok(start, old(nodes)@, heap_entries(*old(heap))),
        ensures
            frontier_ok(start, final(nodes)@, heap_entries(*final(heap))),
            final(nodes)@.len() >= old(nodes)@.len(),
            forall|i: int| 0 <= i < old(nodes)@.len() ==> final(nodes)@[i] == old(nodes)@[i],
            forall|x: (usize, usize)|
                heap_entries(*final(heap)).count(x) >= heap_entries(*old(heap)).count(x),
            forall|m: Move|
                move_legal(node_board@, m) ==> state_in_frontier(
                    move_result(node_board@, m),
                    final(nodes)@,
                    heap_entries(*final(heap)),
                ),
    {
        Self::expand(heap, nodes, node_board, node_path, Move::Up, Ghost(start));
        let ghost n1 = nodes@;
        let ghost g1 = heap_entries(*heap);
        Self::expand(heap, nodes, node_board, node_path, Move::Down, Ghost(start));
        let ghost n2 = nodes@;
        let ghost g2 = heap_entries(*heap);
        Self::expand(heap, nodes, node_board, node_path, Move::Left, Ghost(start));
        let ghost n3 = nodes@;
        let ghost g3 = heap_entries(*heap);
        Self::expand(heap, nodes, node_board, node_path, Move::Right, Ghost(start));
        proof {
            assert forall|m: Move| move_legal(node_board@, m) implies state_in_frontier(
                move_result(node_board@, m),
                nodes@,
                heap_entries(*heap),
            ) by {
                match m {
                    Move::Up => {
                        let e = choose|e: (usize, usize)|
                            (e.0 as int) == old(nodes)@.len() && g1 == heap_entries(
                                *old(heap),
                            ).insert(e);
                        assert(g1.count(e) > 0);
                        assert(n1[e.0 as int].board@ == move_result(node_board@, m));
                        assert(nodes@[e.0 as int] == n1[e.0 as int]);
                        assert(heap_entries(*heap).count(e) > 0);
                    },
                    Move::Down => {
                        let e = choose|e: (usize, usize)|
                            (e.0 as int) == n1.len() && g2 == g1.insert(e);
                        assert(g2.count(e) > 0);
                        assert(n2[e.0 as int].board@ == move_result(node_board@, m));
                        assert(nodes@[e.0 as int] == n2[e.0 as int]);
                        assert(heap_entries(*heap).count(e) > 0);
                    },
                    Move::Left => {
                        let e = choose|e: (usize, usize)|
                            (e.0 as int) == n2.len() && g3 == g2.insert(e);
                        assert(g3.count(e) > 0);
                        assert(n3[e.0 as int].board@ == move_result(node_board@, m));
                        assert(nodes@[e.0 as int] == n3[e.0 as int]);
                        assert(heap_entries(*heap).count(e) > 0);
                    },
                    Move::Right => {
                        let e = choose|e: (usize, usize)|
                            (e.0 as int) == n3.len() && heap_entries(*heap) == g3.insert(e);
                        assert(heap_entries(*heap).count(e) > 0);
                        assert(nodes@[e.0 as int].board@ == move_result(node_board@, m));
                    },
                }
            }
        }
    }

    /// Tries one direction from a popped node: a legal move adds the
    /// successor node to the store and its entry to the frontier, an
    /// illegal one adds nothing.
    fn expand(
        heap: &mut pheap::PairingHeap<usize, usize>,
        nodes: &mut Vec<HistoryNode>,
        node_board: &Board,
        node_path: &Vec<Move>,
        dir: Move,
        Ghost(start): Ghost<Seq<u8>>,
    )
        requires
            path_legal(start, node_path@),
            apply_path(start, node_path@) == node_board@,
            frontier_ok(start, old(nodes)@, heap_entries(*old(heap))),
        ensures
            frontier_ok(start, final(nodes)@, heap_entries(*final(heap))),
            final(nodes)@.len() >= old(nodes)@.len(),
            forall|i: int| 0 <= i < old(nodes)@.len() ==> final(nodes)@[i] == old(nodes)@[i],
            forall|x: (usize, usize)|
                heap_entries(*final(heap)).count(x) >= heap_entries(*old(heap)).count(x),
            !move_legal(node_board@, dir) ==> final(nodes)@ == old(nodes)@ && heap_entries(
                *final(heap),
            ) == heap_entries(*old(heap)),
            move_legal(node_board@, dir) ==> ({
                &&& final(nodes)@.len() == old(nodes)@.len() + 1
                &&& final(nodes)@.last().board@ == move_result(node_board@, dir)
                &&& (exists|e: (usize, usize)|
                    (e.0 as int) == old(nodes)@.len() && heap_entries(*final(heap))
                        == heap_entries(*old(heap)).insert(e))
            }),
    {
        if let Some(nb) = node_board.move_tile(&dir) {
            let h = Self::heuristic_shortest_path(&nb);
            let mut p2 = clone_moves(node_path);
            p2.push(dir);
            proof {
                lemma_path_legal_snoc(start, node_path@, dir);
                lemma_apply_path_snoc(start, node_path@, dir);
            }
            let g1 = node_path.len();
            let prio = if g1 <= usize::MAX - 97 {
                g1 + 1 + h
            } else {
                usize::MAX
            };
            let node = HistoryNode { board: nb, path: p2 };
            proof {
                assert(node_ok(start, node));
            }
            nodes.push(node);
            heap_insert(heap, nodes.len() - 1, prio);
            proof {
                let e: (usize, usize) = (((nodes@.len() - 1) as usize), prio);
                assert((e.0 as int) == old(nodes)@.len());
                assert(heap_entries(*heap) == heap_entries(*old(heap)).insert(e));
            }
        }
    }

    /// The misplaced-tile heuristic: how many tiles stand outside their goal
    /// cell. It keys only the very first frontier entry.
    pub fn heuristic(board: &Board) -> (r: usize)
        ensures
            r == misplaced(board@),
            r <= 15,
    {
        let g = board.get_board();
        let mut hit: usize = 0;
        let mut i: usize = 1;
        while i < 16
            invariant
                1 <= i <= 16,
                g@ == board@,
                g@.len() == 16,
                hit == misplaced_upto(g@, i - 1),
                hit <= i - 1,
            decreases 16 - i,
        {
            let v = i - 1;
            if g[v] != (i as u8) {
                hit += 1;
            }
            i += 1;
        }
        hit
    }

    /// The Manhattan-distance heuristic: for every tile the absolute row
    /// difference plus the absolute column difference between its cell and
    /// its goal cell, summed. It keys every successor entry.
    pub fn heuristic_shortest_path(board: &Board) -> (r: usize)
        ensures
            r == manhattan(board@),
            r <= 96,
    {
        let g = board.get_board();
        proof {
            lemma_wf_facts(g@);
        }
        let mut sum: usize = 0;
        let mut k: usize = 0;
        while k < 16
            invariant
                k <= 16,
                g@ == board@,
                wf_board(g@),
                sum == manhattan_upto(g@, k as int),
                sum <= 6 * k,
            decreases 16 - k,
        {
            proof {
                lemma_wf_facts(g@);
            }
            let v = g[k];
            if v != 0 {
                let slot = Self::appropriate_slot(v);
                let i = k / 4;
                let j = k % 4;
                let di = if i >= slot.0 {
                    i - slot.0
                } else {
                    slot.0 - i
                };
                let dj = if j >= slot.1 {
                    j - slot.1
                } else {
                    slot.1 - j
                };
                proof {
                    assert(di + dj == tile_dist(v, k as int));
                    assert(di <= 3 && dj <= 3);
                }
                sum = sum + di + dj;
            }
            k += 1;
        }
        sum
    }

    /// The goal cell of the tile `value`: row `(value - 1) / 4`, column
    /// `(value - 1) % 4`.
    pub fn appropriate_slot(value: u8) -> (r: (usize, usize))
        requires
            1 <= value,
        ensures
            r.0 == (value - 1) / 4,
            r.1 == (value - 1) % 4,
    {
        let v = value - 1;
        (((v / 4) as usize), ((v % 4) as usize))
    }

    /// Whether the board is solved: every one of the fifteen tiles stands in
    /// its goal cell.
    pub fn check_board(board: &Board) -> (r: bool)
        ensures
            r == is_goal(board@),
    {
        let g = board.get_board();
        let mut i: usize = 1;
        while i < 16
            invariant
                1 <= i <= 16,
                g@ == board@,
                g@.len() == 16,
                forall|k: int| 0 <= k < i - 1 ==> g@[k] == k + 1,
            decreases 16 - i,
        {
            let v = i - 1;
            if g[v] != (i as u8) {
                return false;
            }
            i += 1;
        }
        true
    }
}

} // verus!
