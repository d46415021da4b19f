//! The rules engine: board positions, move validation and move application.
use vstd::prelude::*;

verus! {

/// Houses per side.
pub const KALAH_M: usize = 6;

/// Holes on the board: both rows of houses and both stores.
pub const NUM_HOLES: usize = 14;

/// Index of the store of the side about to move.
pub const PLAYER_STORE: usize = 6;

/// Index of the store of the side waiting.
pub const OPPONENT_STORE: usize = 13;

#[derive(Debug, Clone, Copy, PartialEq, Eq, Structural)]
pub enum Player {
    First,
    Second,
}

impl Player {
    pub open spec fn spec_other(self) -> Player {
        match self {
            Player::First => Player::Second,
            Player::Second => Player::First,
        }
    }

    pub fn other(self) -> (r: Player)
        ensures
            r == self.spec_other(),
            r != self,
    {
        match self {
            Player::First => Player::Second,
            Player::Second => Player::First,
        }
    }
}

/// A move names one of the mover's houses, `0..6`.
#[derive(Debug, Clone, Copy, PartialEq, Eq, Structural)]
pub struct Move(pub usize);

/// Every character is an ASCII digit.
pub open spec fn all_digits(s: Seq<char>) -> bool {
    forall|i: int| 0 <= i < s.len() ==> '0' <= #[trigger] s[i] <= '9'
}

/// The number that a string of decimal digits writes.
pub open spec fn digits_value(s: Seq<char>) -> int
    decreases s.len(),
{
    if s.len() == 0 {
        0
    } else {
        digits_value(s.drop_last()) * 10 + (s.last() as int - '0' as int)
    }
}

/// The unsigned number that `s` writes in decimal: one digit or more, with
/// an optional leading `+`.
pub open spec fn decimal_value(s: Seq<char>) -> Option<int> {
    if s.len() > 0 && all_digits(s) {
        Some(digits_value(s))
    } else if s.len() > 1 && s[0] == '+' && all_digits(s.skip(1)) {
        Some(digits_value(s.skip(1)))
    } else {
        None
    }
}

/// The move that `s` names by its house number, `1..=6`.
pub open spec fn move_of(s: Seq<char>) -> Option<Move> {
    match decimal_value(s) {
        Some(v) => if 1 <= v <= 6 {
            Some(Move((v - 1) as usize))
        } else {
            None
        },
        None => None,
    }
}

/// Relies on `str::parse::<usize>`: an optional `+` and decimal digits, at
/// least one, whose value fits in `usize`; anything else is an error.
#[verifier::external_body]
fn parse_usize(s: &str) -> (r: Option<usize>)
    ensures
        r is Some <==> (decimal_value(s@) matches Some(v) && v <= usize::MAX),
        r matches Some(n) ==> decimal_value(s@) == Some(n as int),
{
    s.parse::<usize>().ok()
}

impl Move {
    /// Reads a move written as its house number, `1..=6`.
    pub fn from_text(s: &str) -> (r: Option<Move>)
        ensures
            r == move_of(s@),
    {
        match parse_usize(s) {
            Some(i) => if 0 < i && i <= KALAH_M {
                Some(Move(i - 1))
            } else {
                None
            },
            None => None,
        }
    }
}

impl std::str::FromStr for Move {
    type Err = ();

    fn from_str(s: &str) -> (r: Result<Move, ()>)
        ensures
            r == match move_of(s@) {
                Some(m) => Ok(m),
                None => Err(()),
            },
    {
        match Move::from_text(s) {
            Some(m) => Ok(m),
            None => Err(()),
        }
    }
}

/// A position. `holes[0..6]` are the mover's houses and `holes[6]` the mover's
/// store; `holes[7..13]` are the opponent's houses and `holes[13]` the
/// opponent's store. `player` is the side that is about to move.
#[derive(Debug, Clone, Copy)]
pub struct Board {
    pub holes: [u8; NUM_HOLES],
    pub player: Player,
}

/// Stones in the mover's six houses.
pub open spec fn mover_sum(h: Seq<int>) -> int {
    h[0] + h[1] + h[2] + h[3] + h[4] + h[5]
}

/// Stones in the opponent's six houses.
pub open spec fn opponent_sum(h: Seq<int>) -> int {
    h[7] + h[8] + h[9] + h[10] + h[11] + h[12]
}

/// Stones on the whole board.
pub open spec fn total(h: Seq<int>) -> int {
    mover_sum(h) + h[6] + opponent_sum(h) + h[13]
}

/// Stones on the whole board, read off the array.
#[verifier::opaque]
pub open spec fn array_total(a: [u8; 14]) -> int {
    a[0] + a[1] + a[2] + a[3] + a[4] + a[5] + a[6] + a[7] + a[8] + a[9] + a[10] + a[11] + a[12]
        + a[13]
}

/// Sowing steps from house `m` to hole `j` (`1..=13`): sowing goes round the
/// thirteen holes `0..13` and never drops a stone in the opponent's store.
pub open spec fn steps_to(m: int, j: int) -> int {
    (j - m + 12) % 13 + 1
}

/// How many of `k` stones sown from house `m` land in hole `j`.
#[verifier::opaque]
pub open spec fn laps(m: int, k: int, j: int) -> int {
    (k + 13 - steps_to(m, j)) / 13
}

/// The counts once the stones of house `m` have been taken out and sown, one
/// per hole: hole `j` receives one stone for each lap that reaches it.
pub open spec fn sown(h: Seq<int>, m: int) -> Seq<int> {
    Seq::new(
        14,
        |j: int|
            if j == 13 {
                h[13]
            } else {
                (if j == m {
                    0
                } else {
                    h[j]
                }) + laps(m, h[m], j)
            },
    )
}

/// The hole that receives the last stone sown from house `m`.
pub open spec fn last_hole(h: Seq<int>, m: int) -> int {
    (m + h[m]) % 13
}

/// The opponent's house across from the mover's house `i`.
pub open spec fn opposite(i: int) -> int {
    12 - i
}

/// The last stone lands in an empty house of the mover across from stones.
pub open spec fn captures(h: Seq<int>, m: int) -> bool {
    let s = sown(h, m);
    let l = last_hole(h, m);
    l < 6 && s[l] == 1 && s[opposite(l)] > 0
}

/// The counts after sowing and, where it fires, the capture.
pub open spec fn after_capture(h: Seq<int>, m: int) -> Seq<int> {
    let s = sown(h, m);
    let l = last_hole(h, m);
    if captures(h, m) {
        s.update(6, s[6] + 1 + s[opposite(l)]).update(l, 0).update(opposite(l), 0)
    } else {
        s
    }
}

/// The last stone lands in the mover's store.
pub open spec fn bonus_turn(h: Seq<int>, m: int) -> bool {
    last_hole(h, m) == 6
}

/// The opponent's house stones go to the opponent's store.
pub open spec fn sweep_opponent(c: Seq<int>) -> Seq<int> {
    Seq::new(
        14,
        |j: int|
            if 7 <= j < 13 {
                0
            } else if j == 13 {
                c[13] + opponent_sum(c)
            } else {
                c[j]
            },
    )
}

/// The mover's house stones go to the mover's store.
pub open spec fn sweep_mover(c: Seq<int>) -> Seq<int> {
    Seq::new(
        14,
        |j: int|
            if 0 <= j < 6 {
                0
            } else if j == 6 {
                c[6] + mover_sum(c)
            } else {
                c[j]
            },
    )
}

/// The board seen from the other side: the two rows swap with their stores.
pub open spec fn rotated(c: Seq<int>) -> Seq<int> {
    Seq::new(14, |j: int| c[(j + 7) % 14])
}

/// The turn passes: neither row is empty and the last stone missed the store.
pub open spec fn switches_side(h: Seq<int>, m: int) -> bool {
    let c = after_capture(h, m);
    mover_sum(c) != 0 && opponent_sum(c) != 0 && !bonus_turn(h, m)
}

/// The counts after playing house `m`, seen from the side that moves next.
pub open spec fn after_move(h: Seq<int>, m: int) -> Seq<int> {
    let c = after_capture(h, m);
    if mover_sum(c) == 0 {
        sweep_opponent(c)
    } else if opponent_sum(c) == 0 {
        sweep_mover(c)
    } else if bonus_turn(h, m) {
        c
    } else {
        rotated(c)
    }
}

/// One more stone sown adds a lap to exactly one hole, the next one.
proof fn lemma_sow_step(m: int, k: int, j: int)
    requires
        0 <= m < 6,
        0 <= k,
        0 <= j < 13,
    ensures
        laps(m, k + 1, j) == laps(m, k, j) + (if j == (m + k + 1) % 13 {
            1int
        } else {
            0
        }),
        laps(m, 0, j) == 0,
{
    reveal(laps);
}

/// One hole never holds more than the board; one stone more there is one
/// stone more on the board.
proof fn lemma_array_total_bump(a: [u8; 14], b: [u8; 14], i: int)
    requires
        0 <= i < 14,
        a[i] < 255,
        b@ == a@.update(i, (a[i] + 1) as u8),
    ensures
        a[i] <= array_total(a),
        array_total(b) == array_total(a) + 1,
{
    reveal(array_total);
    assert(b[i] == a[i] + 1);
    assert(forall|j: int| 0 <= j < 14 && j != i ==> b[j] == a[j]);
}

/// One hole never holds more than the board.
proof fn lemma_hole_le_total(a: [u8; 14], i: int)
    requires
        0 <= i < 14,
    ensures
        a[i] <= array_total(a),
{
    reveal(array_total);
}

/// The legal moves from house `i` on, in the order of the houses.
pub open spec fn legal_from(h: Seq<int>, i: int) -> Seq<Move>
    decreases 6 - i,
{
    if i >= 6 || i < 0 {
        Seq::empty()
    } else if h[i] > 0 {
        seq![Move(i as usize)] + legal_from(h, i + 1)
    } else {
        legal_from(h, i + 1)
    }
}

proof fn lemma_legal_from(b: Board, i: int)
    requires
        0 <= i <= 6,
    ensures
        forall|k: int|
            0 <= k < legal_from(b.counts(), i).len() ==> i <= (#[trigger] legal_from(
                b.counts(),
                i,
            )[k]).0 < 6 && b.spec_is_valid_move(legal_from(b.counts(), i)[k].0 as int),
        forall|k1: int, k2: int|
            0 <= k1 < k2 < legal_from(b.counts(), i).len() ==> (#[trigger] legal_from(
                b.counts(),
                i,
            )[k1]).0 < (#[trigger] legal_from(b.counts(), i)[k2]).0,
        forall|j: int|
            i <= j < 6 && b.spec_is_valid_move(j) ==> exists|k: int|
                0 <= k < legal_from(b.counts(), i).len() && (#[trigger] legal_from(
                    b.counts(),
                    i,
                )[k]).0 == j,
    decreases 6 - i,
{
    if i < 6 {
        lemma_legal_from(b, i + 1);
        let h = b.counts();
        let rest = legal_from(h, i + 1);
        if h[i] > 0 {
            let all = legal_from(h, i);
            assert(all == seq![Move(i as usize)] + rest);
            assert forall|k: int| 0 < k < all.len() implies #[trigger] all[k] == rest[k - 1] by {}
            assert forall|j: int| i <= j < 6 && b.spec_is_valid_move(j) implies exists|k: int|
                0 <= k < all.len() && (#[trigger] all[k]).0 == j by {
                if j == i {
                    assert(all[0].0 == j);
                } else {
                    let k0 = choose|k0: int| 0 <= k0 < rest.len() && (#[trigger] rest[k0]).0 == j;
                    assert(all[k0 + 1].0 == j);
                }
            }
        } else {
            assert(legal_from(h, i) == rest);
            assert(!b.spec_is_valid_move(i));
        }
    }
}

/// The legal moves are exactly the non-empty houses of the mover, each once
/// and in increasing order, and each is accepted as valid.
pub proof fn lemma_legal_moves(b: Board)
    ensures
        forall|k: int|
            0 <= k < b.legal_moves().len() ==> b.spec_is_valid_move(
                (#[trigger] b.legal_moves()[k]).0 as int,
            ),
        forall|k1: int, k2: int|
            0 <= k1 < k2 < b.legal_moves().len() ==> (#[trigger] b.legal_moves()[k1]).0 < (
            #[trigger] b.legal_moves()[k2]).0,
        forall|j: int|
            0 <= j < 6 && b.spec_is_valid_move(j) ==> exists|k: int|
                0 <= k < b.legal_moves().len() && (#[trigger] b.legal_moves()[k]).0 == j,
        b.legal_moves().len() == 0 <==> mover_sum(b.counts()) == 0,
{
    lemma_legal_from(b, 0);
    assert(b.legal_moves() == legal_from(b.counts(), 0));
    if mover_sum(b.counts()) != 0 {
        let j = choose|j: int| 0 <= j < 6 && b.holes[j] > 0;
        assert(b.spec_is_valid_move(j));
        let k = choose|k: int|
            0 <= k < b.legal_moves().len() && (#[trigger] b.legal_moves()[k]).0 == j;
    } else if b.legal_moves().len() > 0 {
        assert(b.spec_is_valid_move(b.legal_moves()[0].0 as int));
    }
}

/// A capture empties the landing house and the house across from it, and
/// puts the landing stone and the stones across into the mover's store. Where
/// the turn then passes, the two houses and that store are found turned round;
/// where a row empties, the sweep follows.
pub proof fn lemma_capture(b: Board, m: int)
    requires
        b.wf(),
        b.spec_is_valid_move(m),
        captures(b.counts(), m),
    ensures
        ({
            let h = b.counts();
            let s = sown(h, m);
            let l = last_hole(h, m);
            let c = after_capture(h, m);
            let a = after_move(h, m);
            &&& 0 <= l < 6
            &&& c[l] == 0
            &&& c[opposite(l)] == 0
            &&& c[6] == s[6] + 1 + s[opposite(l)]
            &&& switches_side(h, m) ==> a[l + 7] == 0 && a[5 - l] == 0 && a[13]
                == s[6] + 1 + s[opposite(l)]
            &&& mover_sum(c) == 0 ==> a[6] == s[6] + 1 + s[opposite(l)]
            &&& mover_sum(c) != 0 && opponent_sum(c) == 0 ==> a[6] == s[6] + 1 + s[opposite(l)]
                + mover_sum(c)
        }),
{
}

/// A last stone in the mover's own store keeps the turn with the mover and
/// leaves the board unturned.
pub proof fn lemma_bonus_turn(b: Board, m: int)
    requires
        b.wf(),
        b.spec_is_valid_move(m),
        bonus_turn(b.counts(), m),
    ensures
        !switches_side(b.counts(), m),
        !captures(b.counts(), m),
        ({
            let c = after_capture(b.counts(), m);
            let a = after_move(b.counts(), m);
            a == c || a == sweep_opponent(c) || a == sweep_mover(c)
        }),
        forall|next: Board| #[trigger] b.is_successor(next, m) ==> next.player == b.player,
{
}

/// When a move leaves a row of houses empty, the other row is swept into
/// its own store: both rows end empty, nothing is turned round and the
/// turn stays put.
pub proof fn lemma_endgame_sweep(b: Board, m: int)
    requires
        b.wf(),
        b.spec_is_valid_move(m),
        mover_sum(after_capture(b.counts(), m)) == 0 || opponent_sum(after_capture(b.counts(), m))
            == 0,
    ensures
        ({
            let c = after_capture(b.counts(), m);
            let a = after_move(b.counts(), m);
            &&& mover_sum(a) == 0
            &&& opponent_sum(a) == 0
            &&& mover_sum(c) == 0 ==> a[13] == c[13] + opponent_sum(c) && a[6] == c[6]
            &&& mover_sum(c) != 0 ==> a[6] == c[6] + mover_sum(c) && a[13] == c[13]
        }),
        !switches_side(b.counts(), m),
{
}

/// Stones in the two stores.
pub open spec fn stores(h: Seq<int>) -> int {
    h[6] + h[13]
}

/// For each stone in a house, the number of steps to its own side's store,
/// summed over the board.
pub open spec fn distance(h: Seq<int>) -> int {
    6 * h[0] + 5 * h[1] + 4 * h[2] + 3 * h[3] + 2 * h[4] + h[5] + 6 * h[7] + 5 * h[8] + 4 * h[9]
        + 3 * h[10] + 2 * h[11] + h[12]
}

/// A measure that every move of a game in progress lowers: a move either
/// brings a stone to a store, or keeps the stores and moves the mover's
/// stones closer to the mover's store.
pub open spec fn progress(h: Seq<int>) -> int {
    (total(h) - stores(h)) * 1531 + distance(h)
}

proof fn lemma_sown_facts(h: Seq<int>, m: int)
    requires
        h.len() == 14,
        0 <= m < 6,
        h[m] >= 1,
        forall|j: int| 0 <= j < 14 ==> h[j] >= 0,
    ensures
        forall|j: int| 0 <= j < 14 ==> #[trigger] sown(h, m)[j] >= 0,
        stores(sown(h, m)) >= stores(h),
        h[m] >= 6 - m ==> sown(h, m)[6] >= h[6] + 1,
        h[m] < 6 - m ==> forall|j: int|
            0 <= j < 13 ==> #[trigger] sown(h, m)[j] == (if j == m {
                0
            } else {
                h[j]
            }) + if m < j <= m + h[m] {
                1int
            } else {
                0
            },
        sown(h, m)[13] == h[13],
{
    reveal(laps);
}

proof fn lemma_after_capture_facts(h: Seq<int>, m: int)
    requires
        h.len() == 14,
        0 <= m < 6,
        h[m] >= 1,
        forall|j: int| 0 <= j < 14 ==> h[j] >= 0,
    ensures
        forall|j: int| 0 <= j < 14 ==> #[trigger] after_capture(h, m)[j] >= 0,
        stores(after_capture(h, m)) >= stores(sown(h, m)),
        captures(h, m) ==> stores(after_capture(h, m)) >= stores(sown(h, m)) + 1,
        !captures(h, m) ==> after_capture(h, m) == sown(h, m),
        after_capture(h, m).len() == 14,
{
    lemma_sown_facts(h, m);
}

proof fn lemma_after_move_stores(h: Seq<int>, m: int)
    requires
        after_capture(h, m).len() == 14,
        forall|j: int| 0 <= j < 14 ==> #[trigger] after_capture(h, m)[j] >= 0,
    ensures
        stores(after_move(h, m)) >= stores(after_capture(h, m)),
{
}

proof fn lemma_short_sow_distance(h: Seq<int>, m: int)
    requires
        h.len() == 14,
        0 <= m < 6,
        1 <= h[m] < 6 - m,
        forall|j: int|
            0 <= j < 13 ==> #[trigger] sown(h, m)[j] == (if j == m {
                0
            } else {
                h[j]
            }) + if m < j <= m + h[m] {
                1int
            } else {
                0
            },
    ensures
        distance(sown(h, m)) < distance(h),
        distance(rotated(sown(h, m))) == distance(sown(h, m)),
{
}

proof fn lemma_progress_combine(h: Seq<int>, a: Seq<int>)
    requires
        total(a) == total(h),
        0 <= distance(a) <= 6 * (total(a) - stores(a)),
        total(a) - stores(a) <= 255,
        0 <= distance(h),
        stores(a) >= stores(h) + 1 || (stores(a) == stores(h) && distance(a) < distance(h)),
    ensures
        progress(a) < progress(h),
{
}

/// The move either brings a stone to a store, or keeps the stores and
/// brings stones closer to their store.
proof fn lemma_move_gain(h: Seq<int>, m: int)
    requires
        h.len() == 14,
        0 <= m < 6,
        h[m] >= 1,
        forall|j: int| 0 <= j < 14 ==> h[j] >= 0,
        opponent_sum(h) > 0,
    ensures
        stores(after_move(h, m)) >= stores(h) + 1 || (stores(after_move(h, m)) == stores(h)
            && distance(after_move(h, m)) < distance(h)),
{
    lemma_sown_facts(h, m);
    lemma_after_capture_facts(h, m);
    lemma_after_move_stores(h, m);
    if h[m] < 6 - m && !captures(h, m) {
        lemma_short_move(h, m);
    }
}

proof fn lemma_short_move(h: Seq<int>, m: int)
    requires
        h.len() == 14,
        0 <= m < 6,
        1 <= h[m] < 6 - m,
        !captures(h, m),
        after_capture(h, m) == sown(h, m),
        forall|j: int| 0 <= j < 14 ==> h[j] >= 0,
        opponent_sum(h) > 0,
        sown(h, m)[13] == h[13],
        forall|j: int|
            0 <= j < 13 ==> #[trigger] sown(h, m)[j] == (if j == m {
                0
            } else {
                h[j]
            }) + if m < j <= m + h[m] {
                1int
            } else {
                0
            },
    ensures
        stores(after_move(h, m)) == stores(h),
        distance(after_move(h, m)) < distance(h),
{
    let c = sown(h, m);
    lemma_short_sow_distance(h, m);
    assert(mover_sum(c) > 0) by {
        assert(c[m + h[m]] >= 1);
    }
    assert(opponent_sum(c) == opponent_sum(h));
    assert(!bonus_turn(h, m));
    assert(after_move(h, m) == rotated(c));
    assert(stores(rotated(c)) == stores(c));
}

/// Every move of a game in progress lowers `progress`, which never goes
/// below zero: a game ends after at most `progress` of its start moves.
pub proof fn lemma_move_progress(b: Board, next: Board, m: int)
    requires
        b.wf(),
        b.spec_is_valid_move(m),
        !b.spec_is_game_over(),
        b.is_successor(next, m),
        total(next.counts()) == total(b.counts()),
    ensures
        0 <= progress(next.counts()) < progress(b.counts()),
{
    let h = b.counts();
    let a = next.counts();
    assert(h[m] == b.holes[m]);
    assert(forall|j: int| 0 <= j < 14 ==> h[j] >= 0);
    assert(0 <= distance(a) <= 6 * (total(a) - stores(a)));
    assert(0 <= distance(h));
    lemma_move_gain(h, m);
    lemma_progress_combine(h, a);
}

/// `b` is reached from `a` by `n` legal moves of a game in progress.
pub open spec fn reaches(a: Board, b: Board, n: nat) -> bool
    decreases n,
{
    if n == 0 {
        a == b
    } else {
        exists|mid: Board, m: int|
            reaches(a, mid, (n - 1) as nat) && !mid.spec_is_game_over() && mid.spec_is_valid_move(m)
                && mid.is_successor(b, m)
    }
}

impl Board {
    /// The stone counts as integers.
    pub open spec fn counts(self) -> Seq<int> {
        Seq::new(14, |i: int| self.holes[i] as int)
    }

    /// Every stone count of the board fits the counters while stones move.
    pub open spec fn wf(self) -> bool {
        total(self.counts()) <= 255
    }

    pub open spec fn spec_is_valid_move(self, m: int) -> bool {
        0 <= m < 6 && self.holes[m] > 0
    }

    /// `next` is this board with house `m` played.
    pub open spec fn is_successor(self, next: Board, m: int) -> bool {
        &&& next.counts() == after_move(self.counts(), m)
        &&& next.player == if switches_side(self.counts(), m) {
            self.player.spec_other()
        } else {
            self.player
        }
    }

    pub open spec fn spec_is_game_over(self) -> bool {
        mover_sum(self.counts()) == 0 || opponent_sum(self.counts()) == 0
    }

    /// The starting position: `n` stones in every house, both stores empty,
    /// the first player to move.
    pub open spec fn is_initial(self, n: u8) -> bool {
        &&& self.player == Player::First
        &&& forall|i: int| 0 <= i < 14 && i != 6 && i != 13 ==> self.holes[i] == n
        &&& self.holes[6] == 0
        &&& self.holes[13] == 0
    }

    pub fn new(n: u8) -> (r: Board)
        requires
            12 * n <= 255,
        ensures
            r.is_initial(n),
            r.wf(),
    {
        let mut holes = [n; NUM_HOLES];
        holes[PLAYER_STORE] = 0;
        holes[OPPONENT_STORE] = 0;
        Board { holes, player: Player::First }
    }

    pub fn player(&self) -> (r: Player)
        ensures
            r == self.player,
    {
        self.player
    }

    pub fn is_valid_move(&self, next_move: Move) -> (r: bool)
        ensures
            r == self.spec_is_valid_move(next_move.0 as int),
    {
        next_move.0 < KALAH_M && self.holes[next_move.0] > 0
    }

    /// Takes the stones out of house `m` and sows them; returns the hole of
    /// the last stone.
    fn sow(&mut self, m: usize) -> (last: usize)
        requires
            old(self).wf(),
            old(self).spec_is_valid_move(m as int),
        ensures
            final(self).counts() == sown(old(self).counts(), m as int),
            last == last_hole(old(self).counts(), m as int),
            final(self).player == old(self).player,
            total(final(self).counts()) == total(old(self).counts()),
    {
        let ghost h0 = self.counts();
        proof {
            reveal(array_total);
        }
        let mut holes = self.holes;
        let stones = holes[m];
        holes[m] = 0;
        let mut k: u8 = 0;
        let mut i: usize = m;
        proof {
            assert forall|j: int| 0 <= j < 13 implies laps(m as int, 0, j) == 0 by {
                lemma_sow_step(m as int, 0, j);
            }
        }
        while k < stones
            invariant
                0 <= m < 6,
                stones == h0[m as int],
                total(h0) <= 255,
                0 <= k <= stones,
                i == (m + k) % 13,
                forall|j: int|
                    0 <= j < 13 ==> holes[j] == (if j == m {
                        0
                    } else {
                        h0[j]
                    }) + laps(m as int, k as int, j),
                holes[13] == h0[13],
                array_total(holes) + stones - k == total(h0),
            decreases stones - k,
        {
            let ghost prev = holes;
            i = if i == 12 {
                0
            } else {
                i + 1
            };
            proof {
                lemma_hole_le_total(holes, i as int);
            }
            holes[i] = holes[i] + 1;
            proof {
                lemma_array_total_bump(prev, holes, i as int);
            }
            proof {
                assert forall|j: int|
                    0 <= j < 13 implies #[trigger] laps(m as int, k + 1, j) == laps(m as int, k as int, j) + (if j == i {
                    1int
                } else {
                    0
                }) by {
                    lemma_sow_step(m as int, k as int, j);
                }
            }
            k = k + 1;
        }
        self.holes = holes;
        assert(self.counts() =~= sown(h0, m as int));
        proof {
            reveal(array_total);
        }
        i
    }

    /// Plays house `next_move`: sows its stones, captures, sweeps a row that
    /// the move left empty and otherwise, unless the last stone reached the
    /// mover's store, turns the board round for the other side.
    #[verifier::rlimit(40)]
    pub fn apply_move(&mut self, next_move: Move)
        requires
            old(self).wf(),
            old(self).spec_is_valid_move(next_move.0 as int),
        ensures
            old(self).is_successor(*final(self), next_move.0 as int),
            total(final(self).counts()) == total(old(self).counts()),
            final(self).wf(),
            final(self).spec_is_game_over() ==> mover_sum(final(self).counts()) == 0
                && opponent_sum(final(self).counts()) == 0,
    {
        let ghost h0 = self.counts();
        let m = next_move.0;
        let i = self.sow(m);
        self.capture(i);
        let additional_move = i == PLAYER_STORE;
        let ghost c = self.counts();
        assert(c == after_capture(h0, m as int));
        let house_sum = self.house_sum();
        if house_sum.0 == 0 {
            self.sweep_opponent_row();
        } else if house_sum.1 == 0 {
            self.sweep_mover_row();
        } else if !additional_move {
            self.rotate();
            self.player = self.player.other();
        }
    }

    /// Moves the last stone and the stones across from it to the mover's
    /// store where the last stone, in hole `i`, fell in an empty house of
    /// the mover across from stones.
    fn capture(&mut self, i: usize)
        requires
            old(self).wf(),
            i < 13,
        ensures
            final(self).counts() == if i < 6 && old(self).holes[i as int] == 1 && old(self).holes[12
                - i] > 0 {
                old(self).counts().update(
                    6,
                    old(self).holes[6] + 1 + old(self).holes[12 - i],
                ).update(i as int, 0).update(12 - i, 0)
            } else {
                old(self).counts()
            },
            final(self).player == old(self).player,
            total(final(self).counts()) == total(old(self).counts()),
    {
        let ghost h = self.counts();
        if i < KALAH_M {
            let opposite = OPPONENT_STORE - i - 1;
            if self.holes[i] == 1 && self.holes[opposite] > 0 {
                self.holes[PLAYER_STORE] = self.holes[PLAYER_STORE] + 1 + self.holes[opposite];
                self.holes[i] = 0;
                self.holes[opposite] = 0;
                assert(self.counts() =~= h.update(6, h[6] + 1 + h[12 - i]).update(
                    i as int,
                    0,
                ).update(12 - i, 0));
            }
        }
    }

    /// Empties the opponent's houses into the opponent's store.
    fn sweep_opponent_row(&mut self)
        requires
            old(self).wf(),
        ensures
            final(self).counts() == sweep_opponent(old(self).counts()),
            final(self).player == old(self).player,
    {
        let ghost c = self.counts();
        let house_sum = self.house_sum();
        self.holes[OPPONENT_STORE] = self.holes[OPPONENT_STORE] + house_sum.1 as u8;
        let mut j: usize = PLAYER_STORE + 1;
        while j < OPPONENT_STORE
            invariant
                7 <= j <= 13,
                self.player == old(self).player,
                forall|t: int| 7 <= t < j ==> self.holes[t] == 0,
                forall|t: int|
                    0 <= t < 14 && !(7 <= t < j) ==> self.holes[t] == (if t == 13 {
                        c[13] + opponent_sum(c)
                    } else {
                        c[t]
                    }),
            decreases 13 - j,
        {
            self.holes[j] = 0;
            j = j + 1;
        }
        assert(self.counts() =~= sweep_opponent(c));
    }

    /// Empties the mover's houses into the mover's store.
    fn sweep_mover_row(&mut self)
        requires
            old(self).wf(),
        ensures
            final(self).counts() == sweep_mover(old(self).counts()),
            final(self).player == old(self).player,
    {
        let ghost c = self.counts();
        let house_sum = self.house_sum();
        self.holes[PLAYER_STORE] = self.holes[PLAYER_STORE] + house_sum.0 as u8;
        let mut j: usize = 0;
        while j < PLAYER_STORE
            invariant
                0 <= j <= 6,
                self.player == old(self).player,
                forall|t: int| 0 <= t < j ==> self.holes[t] == 0,
                forall|t: int|
                    0 <= t < 14 && !(0 <= t < j) ==> self.holes[t] == (if t == 6 {
                        c[6] + mover_sum(c)
                    } else {
                        c[t]
                    }),
            decreases 6 - j,
        {
            self.holes[j] = 0;
            j = j + 1;
        }
        assert(self.counts() =~= sweep_mover(c));
    }

    /// Turns the board round: each row with its store trades places.
    fn rotate(&mut self)
        ensures
            final(self).counts() == rotated(old(self).counts()),
            final(self).player == old(self).player,
    {
        let ghost c = self.counts();
        let before = self.holes;
        let mut j: usize = 0;
        while j < NUM_HOLES
            invariant
                0 <= j <= 14,
                self.player == old(self).player,
                forall|t: int| 0 <= t < 14 ==> before[t] as int == c[t],
                forall|t: int| 0 <= t < j ==> self.holes[t] == before[(t + 7) % 14],
            decreases 14 - j,
        {
            self.holes[j] = before[(j + KALAH_M + 1) % NUM_HOLES];
            j = j + 1;
        }
        assert(self.counts() =~= rotated(c));
    }

    pub fn is_game_over(&self) -> (r: bool)
        ensures
            r == self.spec_is_game_over(),
    {
        let house_sum = self.house_sum();
        house_sum.0 == 0 || house_sum.1 == 0
    }

    /// The side whose store holds at least as many stones as the other's;
    /// a tie goes to the mover.
    pub open spec fn spec_winner(self) -> Player {
        if self.holes[6] >= self.holes[13] {
            self.player
        } else {
            self.player.spec_other()
        }
    }

    pub fn winner(&self) -> (r: Option<Player>)
        ensures
            r == if self.spec_is_game_over() {
                Some(self.spec_winner())
            } else {
                None
            },
    {
        if !self.is_game_over() {
            return None;
        }
        if self.holes[PLAYER_STORE] >= self.holes[OPPONENT_STORE] {
            Some(self.player)
        } else {
            Some(self.player.other())
        }
    }

    /// The legal moves, in the order of the houses.
    pub open spec fn legal_moves(self) -> Seq<Move> {
        legal_from(self.counts(), 0)
    }

    pub fn possible_moves(&self) -> (r: Vec<Move>)
        ensures
            r@ == self.legal_moves(),
    {
        let mut r: Vec<Move> = Vec::new();
        let mut i: usize = 0;
        while i < KALAH_M
            invariant
                0 <= i <= 6,
                r@ + legal_from(self.counts(), i as int) == legal_from(self.counts(), 0),
            decreases 6 - i,
        {
            if self.is_valid_move(Move(i)) {
                r.push(Move(i));
                assert(r@ + legal_from(self.counts(), i + 1) =~= (r@.drop_last() + legal_from(
                    self.counts(),
                    i as int,
                )));
            }
            i = i + 1;
        }
        assert(r@ =~= r@ + legal_from(self.counts(), 6));
        r
    }

    pub fn next_states(&self) -> (r: Vec<Board>)
        requires
            self.wf(),
        ensures
            r@.len() == self.legal_moves().len(),
            forall|k: int|
                0 <= k < r@.len() ==> self.is_successor(#[trigger] r@[k], self.legal_moves()[k].0 as int),
            forall|k: int| 0 <= k < r@.len() ==> (#[trigger] r@[k]).wf(),
    {
        let moves = self.possible_moves();
        proof {
            lemma_legal_moves(*self);
        }
        let mut r: Vec<Board> = Vec::new();
        let mut k: usize = 0;
        while k < moves.len()
            invariant
                self.wf(),
                moves@ == self.legal_moves(),
                0 <= k <= moves.len(),
                r@.len() == k,
                forall|t: int| 0 <= t < k ==> self.is_successor(#[trigger] r@[t], moves@[t].0 as int),
                forall|t: int| 0 <= t < k ==> (#[trigger] r@[t]).wf(),
                forall|t: int| 0 <= t < moves@.len() ==> self.spec_is_valid_move(#[trigger] moves@[t].0 as int),
            decreases moves.len() - k,
        {
            let mut next = *self;
            next.apply_move(moves[k]);
            r.push(next);
            k = k + 1;
        }
        r
    }

    fn house_sum(&self) -> (r: (u16, u16))
        ensures
            r.0 == mover_sum(self.counts()),
            r.1 == opponent_sum(self.counts()),
    {
        let h = &self.holes;
        (
            h[0] as u16 + h[1] as u16 + h[2] as u16 + h[3] as u16 + h[4] as u16 + h[5] as u16,
            h[7] as u16 + h[8] as u16 + h[9] as u16 + h[10] as u16 + h[11] as u16 + h[12] as u16,
        )
    }
}

impl PartialEq for Board {
    fn eq(&self, other: &Board) -> (r: bool)
        ensures
            r == (self.holes@ == other.holes@ && self.player == other.player),
    {
        let mut i: usize = 0;
        while i < NUM_HOLES
            invariant
                0 <= i <= 14,
                forall|j: int| 0 <= j < i ==> self.holes[j] == other.holes[j],
            decreases 14 - i,
        {
            if self.holes[i] != other.holes[i] {
                return false;
            }
            i = i + 1;
        }
        assert(self.holes@ =~= other.holes@);
        self.player == other.player
    }
}

impl vstd::std_specs::cmp::PartialEqSpecImpl for Board {
    open spec fn obeys_eq_spec() -> bool {
        true
    }

    open spec fn eq_spec(&self, other: &Board) -> bool {
        self.holes@ == other.holes@ && self.player == other.player
    }
}

impl Eq for Board {}

} // verus!
