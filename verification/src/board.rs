use crate::bounds::Bounds;
use crate::point::Point;
use crate::stone::Stone;
use crate::storage::RawBoard;
use vstd::prelude::*;

verus! {

/// Why a stone could not be placed.
#[derive(Debug, Clone, Copy, PartialEq, Eq, Structural)]
pub enum SetError {
    Occupied,
    OutOfBounds,
}

impl SetError {
    /// The error in words.
    pub open spec fn spec_message(&self) -> &'static str {
        match *self {
            SetError::Occupied => "occupied",
            SetError::OutOfBounds => "out of bounds",
        }
    }

    /// The error in words.
    #[verifier::when_used_as_spec(spec_message)]
    pub fn message(&self) -> (r: &'static str)
        ensures
            r == self.spec_message(),
    {
        match self {
            SetError::Occupied => "occupied",
            SetError::OutOfBounds => "out of bounds",
        }
    }
}

/// The cells that are occupied after the moves of `moves` were made in order.
pub open spec fn occupancy_of(moves: Seq<(Point, Stone)>) -> Map<Point, Stone>
    decreases moves.len(),
{
    if moves.len() == 0 {
        Map::empty()
    } else {
        occupancy_of(moves.drop_last()).insert(moves.last().0, moves.last().1)
    }
}

/// No two moves of `moves` are on the same point.
pub open spec fn distinct_points(moves: Seq<(Point, Stone)>) -> bool {
    forall|i: int, j: int| 0 <= i < j < moves.len() ==> moves[i].0 != moves[j].0
}

/// Every move of `moves` is on a point of `bounds`.
pub open spec fn all_within(bounds: Bounds, moves: Seq<(Point, Stone)>) -> bool {
    forall|i: int| 0 <= i < moves.len() ==> bounds.spec_contains(#[trigger] moves[i].0)
}

/// A cell is occupied after `moves` exactly if one of the moves is on it.
pub proof fn lemma_occupancy_dom(moves: Seq<(Point, Stone)>, p: Point)
    ensures
        occupancy_of(moves).contains_key(p) <==> exists|i: int|
            0 <= i < moves.len() && (#[trigger] moves[i]).0 == p,
    decreases moves.len(),
{
    if moves.len() > 0 {
        let front = moves.drop_last();
        lemma_occupancy_dom(front, p);
        if occupancy_of(moves).contains_key(p) {
            if moves.last().0 == p {
                assert(moves[moves.len() - 1].0 == p);
            } else {
                let i = choose|i: int| 0 <= i < front.len() && (#[trigger] front[i]).0 == p;
                assert(moves[i].0 == p);
            }
        } else {
            assert forall|i: int| 0 <= i < moves.len() implies (#[trigger] moves[i]).0 != p by {
                if i < front.len() {
                    assert(front[i].0 != p);
                }
            }
        }
    }
}

/// Where no two moves share a point, each move's stone stands on its point.
pub proof fn lemma_occupancy_of_move(moves: Seq<(Point, Stone)>, i: int)
    requires
        distinct_points(moves),
        0 <= i < moves.len(),
    ensures
        occupancy_of(moves).contains_key(moves[i].0),
        occupancy_of(moves)[moves[i].0] == moves[i].1,
    decreases moves.len(),
{
    let front = moves.drop_last();
    if i < moves.len() - 1 {
        assert(front[i] == moves[i]);
        lemma_occupancy_of_move(front, i);
    }
}

/// Taking the last move back empties its cell and changes no other.
pub proof fn lemma_occupancy_drop_last(moves: Seq<(Point, Stone)>)
    requires
        distinct_points(moves),
        moves.len() > 0,
    ensures
        !occupancy_of(moves.drop_last()).contains_key(moves.last().0),
        occupancy_of(moves).remove(moves.last().0) == occupancy_of(moves.drop_last()),
{
    let front = moves.drop_last();
    let p = moves.last().0;
    lemma_occupancy_dom(front, p);
    if occupancy_of(front).contains_key(p) {
        let i = choose|i: int| 0 <= i < front.len() && (#[trigger] front[i]).0 == p;
        assert(moves[i].0 == moves[moves.len() - 1].0);
    }
    assert(occupancy_of(moves).remove(p) =~= occupancy_of(front));
}

/// What a board is, apart from how it is stored: its bounds, every move that was
/// entered and is not yet discarded, and how many of them are applied.
pub struct BoardView {
    pub bounds: Bounds,
    pub history: Seq<(Point, Stone)>,
    pub cursor: nat,
}

impl BoardView {
    /// The cursor lies within the history, no two moves of the history (applied or
    /// not) are on the same point, and all of them lie within the bounds.
    pub open spec fn wf(self) -> bool {
        &&& self.cursor <= self.history.len()
        &&& distinct_points(self.history)
        &&& all_within(self.bounds, self.history)
    }

    /// The moves that are applied: the history up to the cursor.
    pub open spec fn applied(self) -> Seq<(Point, Stone)> {
        self.history.take(self.cursor as int)
    }

    /// The occupied cells: those of the applied moves.
    pub open spec fn occupancy(self) -> Map<Point, Stone> {
        occupancy_of(self.applied())
    }

    /// What stands on the cell `p`.
    pub open spec fn spec_get(self, p: Point) -> Option<Stone> {
        if self.occupancy().contains_key(p) {
            Some(self.occupancy()[p])
        } else {
            None
        }
    }

    /// An empty board.
    pub open spec fn spec_new(bounds: Bounds) -> BoardView {
        BoardView { bounds, history: Seq::empty(), cursor: 0 }
    }

    /// Placing a stone: refused outside the bounds, then refused on an occupied
    /// cell; else the moves after the cursor are discarded and the new move is
    /// appended and applied.
    pub open spec fn spec_set(self, p: Point, stone: Stone) -> (Result<(), SetError>, BoardView) {
        if !self.bounds.spec_contains(p) {
            (Err(SetError::OutOfBounds), self)
        } else if self.occupancy().contains_key(p) {
            (Err(SetError::Occupied), self)
        } else {
            (
                Ok(()),
                BoardView {
                    bounds: self.bounds,
                    history: self.applied().push((p, stone)),
                    cursor: self.cursor + 1,
                },
            )
        }
    }

    /// Undoing the last applied move: the cursor steps back, the history stays.
    pub open spec fn spec_unset(self) -> (Option<(Point, Stone)>, BoardView) {
        if self.cursor == 0 {
            (None, self)
        } else {
            (
                Some(self.history[self.cursor - 1]),
                BoardView { cursor: (self.cursor - 1) as nat, ..self },
            )
        }
    }

    /// Redoing the next move of the history: the cursor steps forward.
    pub open spec fn spec_reset(self) -> (Option<(Point, Stone)>, BoardView) {
        if self.cursor >= self.history.len() {
            (None, self)
        } else {
            (Some(self.history[self.cursor as int]), BoardView { cursor: self.cursor + 1, ..self })
        }
    }

    /// Moving the cursor to `index`.
    pub open spec fn spec_jump(self, index: nat) -> BoardView {
        BoardView { cursor: index, ..self }
    }

    /// Whose turn it is after the applied moves, and whether one stone is left to
    /// play in that turn (`true`) or two (`false`). Black opens with a single
    /// stone; after that a turn is two stones of one colour.
    pub open spec fn spec_infer_turn(self) -> (Stone, bool) {
        let a = self.applied();
        if a.len() == 0 {
            (Stone::Black, true)
        } else if a.len() == 1 {
            (Stone::White, a[0].1 == Stone::White)
        } else {
            let last = a[a.len() - 1].1;
            let last_prev = a[a.len() - 2].1;
            if last == last_prev {
                (last.spec_opposite(), false)
            } else {
                (last, true)
            }
        }
    }

    /// Two boards are equal if their bounds and their applied moves are; the
    /// moves after the cursor are not compared.
    pub open spec fn spec_eq(self, other: BoardView) -> bool {
        self.bounds == other.bounds && self.applied() == other.applied()
    }
}

/// A board: the stones on it, the moves that led there, and the moves that were
/// undone and can still be redone.
#[derive(Debug)]
pub struct Board {
    board: RawBoard,
    bounds: Bounds,
    record: Vec<(Point, Stone)>,
    index: usize,
}

impl View for Board {
    type V = BoardView;

    /// The bounds, the history and the cursor of the board.
    closed spec fn view(&self) -> BoardView {
        BoardView {
            bounds: self.bounds,
            history: self.record@,
            cursor: if self.index <= self.record.len() {
                self.index as nat
            } else {
                self.record.len() as nat
            },
        }
    }
}

impl Board {
    /// The stored cells are the occupancy of the applied moves.
    pub closed spec fn storage_agrees(&self) -> bool {
        &&& self.board.wf()
        &&& self.index <= self.record.len()
        &&& self.board@ == occupancy_of(self.record@.take(self.index as int))
    }

    /// The board's invariant: its view is well formed, and its storage holds
    /// exactly the stones of the applied moves.
    pub open spec fn wf(&self) -> bool {
        self@.wf() && self.storage_agrees()
    }

    /// An empty board with these bounds.
    pub fn new(bounds: Bounds) -> (r: Board)
        ensures
            r.wf(),
            r@ == BoardView::spec_new(bounds),
    {
        let r = Board { board: RawBoard::new(), bounds, record: Vec::new(), index: 0 };
        assert(r.record@.take(0) =~= Seq::empty());
        r
    }

    /// An empty board without bounds.
    pub fn new_infinite() -> (r: Board)
        ensures
            r.wf(),
            r@ == BoardView::spec_new(Bounds::Infinite),
    {
        Board::new(Bounds::Infinite)
    }

    /// An empty board of `size` by `size` cells around the origin.
    pub fn new_square(size: u32) -> (r: Board)
        ensures
            r.wf(),
            r@ == BoardView::spec_new(Bounds::Rect(size, size)),
    {
        Board::new(Bounds::Rect(size, size))
    }

    /// The bounds of the board.
    pub fn bounds(&self) -> (r: Bounds)
        ensures
            r == self@.bounds,
    {
        self.bounds
    }

    /// The length of the history, undone moves included.
    pub fn total_count(&self) -> (r: usize)
        ensures
            r == self@.history.len(),
    {
        self.record.len()
    }

    /// The cursor: how many moves of the history are applied.
    pub fn index(&self) -> (r: usize)
        requires
            self.wf(),
        ensures
            r == self@.cursor,
    {
        self.index
    }

    /// Whether no move is applied.
    pub fn is_empty(&self) -> (r: bool)
        requires
            self.wf(),
        ensures
            r == (self@.cursor == 0),
    {
        self.index == 0
    }

    /// What stands on the cell `point`.
    pub fn get(&self, point: Point) -> (r: Option<Stone>)
        requires
            self.wf(),
        ensures
            r == self@.spec_get(point),
    {
        self.board.get(point)
    }

    /// The applied moves, oldest first.
    pub fn past_record(&self) -> (r: &[(Point, Stone)])
        requires
            self.wf(),
        ensures
            r@ == self@.applied(),
    {
        let r = &self.record.as_slice()[0..self.index];
        assert(r@ =~= self@.applied());
        r
    }

    /// Places a stone. Outside the bounds and on an occupied cell it is refused, and the
    /// board stays as it is. Else the moves that were undone are discarded, and the
    /// move is appended to the history and applied.
    pub fn set(&mut self, point: Point, stone: Stone) -> (r: Result<(), SetError>)
        requires
            old(self).wf(),
        ensures
            final(self).wf(),
            r == old(self)@.spec_set(point, stone).0,
            final(self)@ == old(self)@.spec_set(point, stone).1,
    {
        if !self.bounds.contains(point) {
            Err(SetError::OutOfBounds)
        } else if !self.board.set(point, stone) {
            Err(SetError::Occupied)
        } else {
            let ghost applied = self.record@.take(self.index as int);
            self.record.truncate(self.index);
            self.record.push((point, stone));
            assert(self.record.len() == self.index + 1);
            self.index += 1;
            proof {
                let now = self.record@;
                assert(now =~= applied.push((point, stone)));
                assert(now.take(self.index as int) =~= now);
                assert(now.drop_last() =~= applied);
                assert forall|i: int, j: int| 0 <= i < j < now.len() implies now[i].0
                    != now[j].0 by {
                    if j == now.len() - 1 {
                        lemma_occupancy_dom(applied, point);
                        assert(applied[i].0 == now[i].0);
                    } else {
                        assert(now[i] == old(self).record@[i]);
                        assert(now[j] == old(self).record@[j]);
                    }
                }
                assert forall|i: int| 0 <= i < now.len() implies self.bounds.spec_contains(
                    #[trigger] now[i].0,
                ) by {
                    if i < now.len() - 1 {
                        assert(now[i] == old(self).record@[i]);
                    }
                }
            }
            Ok(())
        }
    }

    /// Undoes the last applied move and returns it, if there is one. The move stays
    /// in the history and can be redone.
    pub fn unset(&mut self) -> (r: Option<(Point, Stone)>)
        requires
            old(self).wf(),
        ensures
            final(self).wf(),
            r == old(self)@.spec_unset().0,
            final(self)@ == old(self)@.spec_unset().1,
    {
        if self.index == 0 {
            return None;
        }
        self.index -= 1;
        let last = self.record[self.index];
        proof {
            lemma_unapply(self.record@, self.index as int);
        }
        self.board.unset(last.0);
        Some(last)
    }

    /// Redoes the next move of the history and returns it, if there is one.
    pub fn reset(&mut self) -> (r: Option<(Point, Stone)>)
        requires
            old(self).wf(),
        ensures
            final(self).wf(),
            r == old(self)@.spec_reset().0,
            final(self)@ == old(self)@.spec_reset().1,
    {
        if self.index >= self.record.len() {
            return None;
        }
        let next = self.record[self.index];
        proof {
            lemma_unapply(self.record@, self.index as int);
        }
        self.index += 1;
        let _ = self.board.set(next.0, next.1);
        Some(next)
    }

    /// Moves the cursor to `index`, redoing or undoing moves one at a time.
    pub fn jump(&mut self, index: usize)
        requires
            old(self).wf(),
            index <= old(self)@.history.len(),
        ensures
            final(self).wf(),
            final(self)@ == old(self)@.spec_jump(index as nat),
    {
        let mut i = self.index;
        if self.index < index {
            while i < index
                invariant
                    self.board.wf(),
                    self.record@ == old(self).record@,
                    self.bounds == old(self).bounds,
                    i <= index <= self.record.len(),
                    distinct_points(self.record@),
                    self.board@ == occupancy_of(self.record@.take(i as int)),
                decreases index - i,
            {
                let next = self.record[i];
                proof {
                    lemma_unapply(self.record@, i as int);
                }
                let _ = self.board.set(next.0, next.1);
                i += 1;
            }
        } else {
            while i > index
                invariant
                    self.board.wf(),
                    self.record@ == old(self).record@,
                    self.bounds == old(self).bounds,
                    index <= i <= self.record.len(),
                    distinct_points(self.record@),
                    self.board@ == occupancy_of(self.record@.take(i as int)),
                decreases i,
            {
                i -= 1;
                let last = self.record[i];
                proof {
                    lemma_unapply(self.record@, i as int);
                }
                self.board.unset(last.0);
            }
        }
        self.index = index;
    }

    /// Whose turn it is, and whether one stone is left to play in it (`true`) or two
    /// (`false`).
    pub fn infer_turn(&self) -> (r: (Stone, bool))
        requires
            self.wf(),
        ensures
            r == self@.spec_infer_turn(),
    {
        if self.index == 0 {
            return (Stone::Black, true);
        }
        let last = self.record[self.index - 1].1;
        if self.index == 1 {
            return (Stone::White, last == Stone::White);
        }
        let last_prev = self.record[self.index - 2].1;
        if last == last_prev {
            (last.opposite(), false)
        } else {
            (last, true)
        }
    }
}

/// The occupancy after `n + 1` moves of a history without repeated points is
/// that after `n` moves with the next move's cell filled, and that cell was empty
/// before.
pub proof fn lemma_unapply(history: Seq<(Point, Stone)>, n: int)
    requires
        distinct_points(history),
        0 <= n < history.len(),
    ensures
        !occupancy_of(history.take(n)).contains_key(history[n].0),
        occupancy_of(history.take(n + 1)) == occupancy_of(history.take(n)).insert(
            history[n].0,
            history[n].1,
        ),
        occupancy_of(history.take(n + 1)).remove(history[n].0) == occupancy_of(history.take(n)),
{
    let more = history.take(n + 1);
    assert(more.drop_last() =~= history.take(n));
    assert(more.last() == history[n]);
    assert(distinct_points(more)) by {
        assert forall|i: int, j: int| 0 <= i < j < more.len() implies more[i].0 != more[j].0 by {
            assert(more[i] == history[i] && more[j] == history[j]);
        }
    }
    lemma_occupancy_drop_last(more);
}

impl Default for Board {
    /// An empty board without bounds.
    fn default() -> (r: Board)
        ensures
            r.wf(),
            r@ == BoardView::spec_new(Bounds::Infinite),
    {
        Board::new(Bounds::Infinite)
    }
}

impl Board {
    /// How many of the moves are applied, whatever the cursor holds.
    fn applied_len(&self) -> (n: usize)
        ensures
            n == self@.cursor,
            n <= self.record.len(),
    {
        if self.index <= self.record.len() {
            self.index
        } else {
            self.record.len()
        }
    }
}

impl PartialEq for Board {
    fn eq(&self, other: &Board) -> (r: bool) {
        let n = self.applied_len();
        if self.bounds != other.bounds || n != other.applied_len() {
            assert(self@.applied().len() == n);
            assert(other@.applied().len() == other@.cursor);
            return false;
        }
        let mut i: usize = 0;
        while i < n
            invariant
                i <= n,
                n == self@.cursor,
                n == other@.cursor,
                n <= self.record.len(),
                n <= other.record.len(),
                self@.bounds == other@.bounds,
                forall|j: int| 0 <= j < i ==> self.record@[j] == other.record@[j],
            decreases n - i,
        {
            let a = self.record[i];
            let b = other.record[i];
            if a.0 != b.0 || a.1 != b.1 {
                assert(self@.applied()[i as int] != other@.applied()[i as int]);
                return false;
            }
            i += 1;
        }
        assert(self@.applied() =~= other@.applied());
        true
    }
}

impl vstd::std_specs::cmp::PartialEqSpecImpl for Board {
    open spec fn obeys_eq_spec() -> bool {
        true
    }

    open spec fn eq_spec(&self, other: &Board) -> bool {
        self@.spec_eq(other@)
    }
}

impl Eq for Board {

}

/// A new board is well formed and empty, and Black is to open with one stone.
pub proof fn lemma_new_board(bounds: Bounds)
    ensures
        BoardView::spec_new(bounds).wf(),
        BoardView::spec_new(bounds).occupancy() == Map::<Point, Stone>::empty(),
        BoardView::spec_new(bounds).spec_infer_turn() == (Stone::Black, true),
{
    assert(BoardView::spec_new(bounds).applied() =~= Seq::empty());
}

/// Placing, undoing, redoing and jumping keep a board's view well formed.
pub proof fn lemma_operations_keep_wf(v: BoardView, p: Point, stone: Stone, index: nat)
    requires
        v.wf(),
        index <= v.history.len(),
    ensures
        v.spec_set(p, stone).1.wf(),
        v.spec_unset().1.wf(),
        v.spec_reset().1.wf(),
        v.spec_jump(index).wf(),
{
    let w = v.spec_set(p, stone).1;
    if v.spec_set(p, stone).0 is Ok {
        let applied = v.applied();
        assert forall|i: int, j: int| 0 <= i < j < w.history.len() implies w.history[i].0
            != w.history[j].0 by {
            if j == w.history.len() - 1 {
                lemma_occupancy_dom(applied, p);
                assert(applied[i].0 == w.history[i].0);
            } else {
                assert(w.history[i] == v.history[i]);
                assert(w.history[j] == v.history[j]);
            }
        }
        assert forall|i: int| 0 <= i < w.history.len() implies w.bounds.spec_contains(
            #[trigger] w.history[i].0,
        ) by {
            if i < w.history.len() - 1 {
                assert(w.history[i] == v.history[i]);
            }
        }
    }
}

/// After a stone was placed, its cell holds it and nothing else has changed on the
/// board; whoever then places a stone on that cell is refused with `Occupied`, and
/// the board stays as it is.
pub proof fn lemma_set_then_get(v: BoardView, p: Point, stone: Stone, second: Stone)
    requires
        v.wf(),
        v.spec_set(p, stone).0 is Ok,
    ensures
        v.spec_set(p, stone).1.spec_get(p) == Some(stone),
        v.spec_set(p, stone).1.occupancy() == v.occupancy().insert(p, stone),
        v.spec_set(p, stone).1.spec_set(p, second) == (
            Err::<(), SetError>(SetError::Occupied),
            v.spec_set(p, stone).1,
        ),
{
    let w = v.spec_set(p, stone).1;
    assert(w.applied() =~= w.history);
    assert(w.history.drop_last() =~= v.applied());
}

/// Undoing the stone that was just placed empties its cell again and gives back
/// the occupancy from before, so that a stone can be placed there anew.
pub proof fn lemma_set_then_unset(v: BoardView, p: Point, stone: Stone, second: Stone)
    requires
        v.wf(),
        v.spec_set(p, stone).0 is Ok,
    ensures
        v.spec_set(p, stone).1.spec_unset().0 == Some((p, stone)),
        v.spec_set(p, stone).1.spec_unset().1.occupancy() == v.occupancy(),
        v.spec_set(p, stone).1.spec_unset().1.spec_get(p) == None::<Stone>,
        v.spec_set(p, stone).1.spec_unset().1.spec_set(p, second).0 is Ok,
{
    let w = v.spec_set(p, stone).1;
    let u = w.spec_unset().1;
    assert(u.applied() =~= v.applied());
}

/// A cell is occupied exactly as long as the move on it is applied: a failed
/// placement, an undo of another move or a redo leave every other cell alone.
pub proof fn lemma_undo_redo_occupancy(v: BoardView)
    requires
        v.wf(),
    ensures
        v.cursor > 0 ==> v.spec_unset().1.occupancy() == v.occupancy().remove(
            v.history[v.cursor - 1].0,
        ),
        v.cursor < v.history.len() ==> v.spec_reset().1.occupancy() == v.occupancy().insert(
            v.history[v.cursor as int].0,
            v.history[v.cursor as int].1,
        ),
        v.cursor < v.history.len() ==> v.spec_reset().1.spec_unset().1 == v,
        v.cursor > 0 ==> v.spec_unset().1.spec_reset().1 == v,
{
    if v.cursor > 0 {
        lemma_unapply(v.history, v.cursor - 1);
    }
    if v.cursor < v.history.len() {
        lemma_unapply(v.history, v.cursor as int);
    }
}

/// Jumping to where the cursor stands changes nothing, once or twice; jumping
/// twice is jumping to the second place; and from a board whose moves are all
/// applied, jumping to the start and then to the end gives the board back, with
/// the occupancy that it had.
pub proof fn lemma_jump(v: BoardView, first: nat, second: nat)
    requires
        v.wf(),
    ensures
        v.spec_jump(v.cursor) == v,
        v.spec_jump(v.cursor).spec_jump(v.cursor) == v,
        v.spec_jump(first).spec_jump(second) == v.spec_jump(second),
        v.spec_jump(0).occupancy() == Map::<Point, Stone>::empty(),
        v.spec_jump(0).spec_jump(v.history.len()).occupancy() == occupancy_of(v.history),
        v.cursor == v.history.len() ==> v.spec_jump(0).spec_jump(v.history.len()) == v,
{
    assert(v.spec_jump(0).applied() =~= Seq::empty());
    assert(v.spec_jump(v.history.len()).applied() =~= v.history);
}

} // verus!
