//! The arena worker's decisions: the registry that binds durable client
//! identifiers and names to arena slots, what each inbound command does, and
//! what each tick sends out.

use vstd::prelude::*;
use crate::render::{Color, YardBuf};
use crate::yard::{player_color, player_color_of, Coord, Direction, YardSim, MAX_PLAYERS};

verus! {

/// A command from a client.
#[derive(Clone, Debug)]
pub enum YardCtrl {
    /// A client's random identifier and display name, asking for a snake.
    NewSnake(u64, String),
    /// A client steering its snake.
    CtrlSnake(u64, Direction),
}

/// The score board: one coloured line per scoring snake.
pub type BoardType = Vec<(Color, String)>;

/// An event for all clients.
#[derive(Clone, Debug)]
pub enum YardInfo {
    /// A client's identifier and whether it got a snake.
    RegisteredSnake(u64, bool),
    /// A snapshot of the field.
    RefreshScreen(YardBuf),
    /// The snake of this client died.
    Failed(u64),
    /// The score board.
    Board(BoardType),
}

/// The character of a decimal digit.
pub open spec fn digit_char(d: nat) -> char {
    if d == 0 {
        '0'
    } else if d == 1 {
        '1'
    } else if d == 2 {
        '2'
    } else if d == 3 {
        '3'
    } else if d == 4 {
        '4'
    } else if d == 5 {
        '5'
    } else if d == 6 {
        '6'
    } else if d == 7 {
        '7'
    } else if d == 8 {
        '8'
    } else {
        '9'
    }
}

/// `n` written in decimal, without leading zeros.
pub open spec fn decimal(n: nat) -> Seq<char>
    decreases n,
{
    if n < 10 {
        seq![digit_char(n)]
    } else {
        decimal(n / 10) + seq![digit_char(n % 10)]
    }
}

fn digit_str(d: usize) -> (r: &'static str)
    requires
        d < 10,
    ensures
        r@ == seq![digit_char(d as nat)],
{
    proof {
        reveal_strlit("0");
        reveal_strlit("1");
        reveal_strlit("2");
        reveal_strlit("3");
        reveal_strlit("4");
        reveal_strlit("5");
        reveal_strlit("6");
        reveal_strlit("7");
        reveal_strlit("8");
        reveal_strlit("9");
    }
    match d {
        0 => "0",
        1 => "1",
        2 => "2",
        3 => "3",
        4 => "4",
        5 => "5",
        6 => "6",
        7 => "7",
        8 => "8",
        _ => "9",
    }
}

/// Appends `n` in decimal to `s`.
fn push_decimal(s: &mut String, n: usize)
    ensures
        final(s)@ == old(s)@ + decimal(n as nat),
    decreases n,
{
    if n >= 10 {
        push_decimal(s, n / 10);
    }
    s.append(digit_str(n % 10));
    assert(final(s)@ =~= old(s)@ + decimal(n as nat)) by {
        if n >= 10 {
            assert(decimal(n as nat) == decimal((n / 10) as nat) + seq![digit_char((n % 10) as nat)]);
        }
    }
}

/// A score board entry: `name: score`.
pub open spec fn board_text(name: Seq<char>, score: nat) -> Seq<char> {
    name + ": "@ + decimal(score)
}

/// Writes a score board entry.
pub fn board_line(name: &String, score: usize) -> (r: String)
    ensures
        r@ == board_text(name@, score as nat),
{
    let mut s = name.clone();
    s.append(": ");
    push_decimal(&mut s, score);
    assert(s@ =~= board_text(name@, score as nat));
    s
}

/// The lines of the score board for slots `0..n`: one per slot with a
/// positive score, in slot order, in the slot's colour.
pub open spec fn board_upto(names: Seq<Option<String>>, scores: Seq<usize>, n: int) -> Seq<(Color, Seq<char>)>
    decreases n,
{
    if n <= 0 {
        Seq::empty()
    } else {
        let prev = board_upto(names, scores, n - 1);
        let i = n - 1;
        if scores[i] > 0 {
            let name = match names[i] {
                Some(nm) => nm@,
                None => Seq::empty(),
            };
            prev.push((player_color_of(i), board_text(name, scores[i] as nat)))
        } else {
            prev
        }
    }
}

/// The client identifiers of the failed slots among `0..n`, in slot order.
pub open spec fn notices_upto(ids: Seq<Option<u64>>, failed: Seq<bool>, n: int) -> Seq<u64>
    decreases n,
{
    if n <= 0 {
        Seq::empty()
    } else {
        let prev = notices_upto(ids, failed, n - 1);
        if failed[n - 1] {
            prev.push(ids[n - 1]->0)
        } else {
            prev
        }
    }
}

/// What a score board holds, as colours and texts.
pub open spec fn board_view(b: BoardType) -> Seq<(Color, Seq<char>)> {
    b@.map_values(|e: (Color, String)| (e.0, e.1@))
}

/// The arena and its registry, owned by the arena worker alone.
pub struct Server {
    yard: YardSim,
    client_id: Vec<Option<u64>>,
    client_name: Vec<Option<String>>,
}

impl Server {
    /// The arena.
    pub closed spec fn arena(&self) -> YardSim {
        self.yard
    }

    /// The client bound to each slot.
    pub closed spec fn clients(&self) -> Seq<Option<u64>> {
        self.client_id@
    }

    /// The display name bound to each slot.
    pub closed spec fn names(&self) -> Seq<Option<String>> {
        self.client_name@
    }

    /// The arena is well formed, and a slot is bound to a client and a name
    /// exactly when it holds a snake.
    pub open spec fn wf(&self) -> bool {
        &&& self.arena().wf()
        &&& self.clients().len() == MAX_PLAYERS
        &&& self.names().len() == MAX_PLAYERS
        &&& forall|i: int|
            0 <= i < MAX_PLAYERS ==> (#[trigger] self.clients()[i] is Some) == self.arena().live(i) && (
            self.names()[i] is Some) == self.arena().live(i)
    }

    /// The lowest slot bound to client `cid`, from slot `from` on.
    pub open spec fn slot_from(&self, cid: u64, from: int) -> Option<int>
        decreases MAX_PLAYERS - from,
    {
        if from < 0 || from >= MAX_PLAYERS {
            None
        } else if self.clients()[from] == Some(cid) {
            Some(from)
        } else {
            self.slot_from(cid, from + 1)
        }
    }

    /// The slot that client `cid` controls: the lowest one bound to it (an
    /// id that registered twice steers its lower slot).
    pub open spec fn slot_of_client(&self, cid: u64) -> Option<int> {
        self.slot_from(cid, 0)
    }

    /// An arena around `yard`, whose slots must all be free.
    pub fn from_yard(yard: YardSim) -> (s: Server)
        requires
            yard.wf(),
            forall|i: int| 0 <= i < MAX_PLAYERS ==> !#[trigger] yard.live(i),
        ensures
            s.wf(),
            s.arena() == yard,
            forall|i: int| 0 <= i < MAX_PLAYERS ==> #[trigger] s.clients()[i] is None,
    {
        let mut client_id: Vec<Option<u64>> = Vec::new();
        let mut client_name: Vec<Option<String>> = Vec::new();
        let mut i: usize = 0;
        while i < MAX_PLAYERS as usize
            invariant
                i <= MAX_PLAYERS,
                client_id@.len() == i,
                client_name@.len() == i,
                forall|k: int| 0 <= k < i ==> #[trigger] client_id@[k] is None,
                forall|k: int| 0 <= k < i ==> #[trigger] client_name@[k] is None,
            decreases MAX_PLAYERS - i,
        {
            client_id.push(None);
            client_name.push(None);
            i = i + 1;
        }
        Server { yard, client_id, client_name }
    }

    /// The arena as the game runs it: 30 columns, 20 rows, 5 beans, snakes
    /// of 3 cells; no client yet.
    pub fn new() -> (s: Server)
        ensures
            s.wf(),
            s.arena().cols() == 30,
            s.arena().rows() == 20,
            s.arena().target() == 5,
            s.arena().init_len() == 3,
            forall|i: int| 0 <= i < MAX_PLAYERS ==> #[trigger] s.clients()[i] is None,
    {
        Server::from_yard(YardSim::new(30, 20, 5, 3))
    }

    /// The arena, to look at.
    pub fn yard(&self) -> (r: &YardSim)
        ensures
            *r == self.arena(),
    {
        &self.yard
    }

    /// The slot that client `cid` controls, if any.
    pub fn slot_of(&self, cid: u64) -> (r: Option<u8>)
        requires
            self.wf(),
        ensures
            r matches Some(i) ==> self.slot_of_client(cid) == Some(i as int),
            r is None ==> self.slot_of_client(cid) is None,
    {
        let mut i: usize = 0;
        while i < MAX_PLAYERS as usize
            invariant
                self.wf(),
                i <= MAX_PLAYERS,
                self.slot_of_client(cid) == self.slot_from(cid, i as int),
            decreases MAX_PLAYERS - i,
        {
            if self.client_id[i] == Some(cid) {
                return Some(i as u8);
            }
            i = i + 1;
        }
        None
    }

    fn bind(&mut self, id: u8, cid: u64, name: String)
        requires
            id < MAX_PLAYERS,
            old(self).clients().len() == MAX_PLAYERS,
            old(self).names().len() == MAX_PLAYERS,
        ensures
            final(self).arena() == old(self).arena(),
            final(self).clients() == old(self).clients().update(id as int, Some(cid)),
            final(self).names() == old(self).names().update(id as int, Some(name)),
    {
        self.client_id[id as usize] = Some(cid);
        self.client_name[id as usize] = Some(name);
    }

    /// Gives client `cid`, named `name`, a snake at a random place in the
    /// lowest free slot and binds the slot to it. `false`, with nothing
    /// changed, when the arena is full (or the snake fits nowhere).
    pub fn register(&mut self, cid: u64, name: String) -> (accepted: bool)
        requires
            old(self).wf(),
        ensures
            final(self).wf(),
            accepted == (old(self).arena().first_free() is Some && exists|t: Coord, d: Direction|
                old(self).arena().fits(t, d)),
            accepted ==> {
                let i = old(self).arena().first_free()->0;
                &&& exists|t: Coord, d: Direction|
                    old(self).arena().fits(t, d) && final(self).arena().placed_from(&old(self).arena(), i, t, d)
                &&& final(self).clients() == old(self).clients().update(i, Some(cid))
                &&& final(self).names() == old(self).names().update(i, Some(name))
            },
            !accepted ==> *final(self) == *old(self),
    {
        proof {
            self.yard.lemma_first_free();
        }
        match self.yard.init_snake() {
            Some(id) => {
                self.bind(id, cid, name);
                proof {
                    self.lemma_bound(*old(self), id as int);
                }
                true
            },
            None => false,
        }
    }

    /// Like `register`, with the snake laid from `tail` in direction `d`:
    /// `false`, with nothing changed, when the arena is full or the snake
    /// does not fit there.
    pub fn register_at(&mut self, cid: u64, name: String, tail: Coord, d: Direction) -> (accepted: bool)
        requires
            old(self).wf(),
        ensures
            final(self).wf(),
            accepted == (old(self).arena().first_free() is Some && old(self).arena().fits(tail, d)),
            accepted ==> {
                let i = old(self).arena().first_free()->0;
                &&& final(self).arena().placed_from(&old(self).arena(), i, tail, d)
                &&& final(self).clients() == old(self).clients().update(i, Some(cid))
                &&& final(self).names() == old(self).names().update(i, Some(name))
            },
            !accepted ==> *final(self) == *old(self),
    {
        proof {
            self.yard.lemma_first_free();
        }
        match self.yard.init_snake_at(tail, d) {
            Some(id) => {
                self.bind(id, cid, name);
                proof {
                    self.lemma_bound(*old(self), id as int);
                }
                true
            },
            None => false,
        }
    }

    proof fn lemma_bound(&self, old: Server, i: int)
        requires
            old.wf(),
            0 <= i < MAX_PLAYERS,
            !old.arena().live(i),
            self.arena().wf(),
            self.arena().live(i),
            forall|j: int| 0 <= j < MAX_PLAYERS && j != i ==> #[trigger] self.arena().same_slot(&old.arena(), j),
            self.clients() == old.clients().update(i, Some(self.clients()[i]->0)),
            self.clients()[i] is Some,
            self.names() == old.names().update(i, Some(self.names()[i]->0)),
            self.names()[i] is Some,
        ensures
            self.wf(),
    {
        assert forall|j: int| 0 <= j < MAX_PLAYERS implies (#[trigger] self.clients()[j] is Some) == self.arena().live(j)
            && (self.names()[j] is Some) == self.arena().live(j) by {
            if j != i {
                assert(self.arena().same_slot(&old.arena(), j));
                assert(old.clients()[j] is Some == old.arena().live(j));
            }
        }
    }

    proof fn lemma_slot_from(&self, cid: u64, from: int)
        requires
            0 <= from,
        ensures
            self.slot_from(cid, from) matches Some(j) ==> from <= j < MAX_PLAYERS && self.clients()[j] == Some(cid),
        decreases MAX_PLAYERS - from,
    {
        if from < MAX_PLAYERS && self.clients()[from] != Some(cid) {
            self.lemma_slot_from(cid, from + 1);
        }
    }

    /// Steers the snake of client `cid` toward `d` (see
    /// `YardSim::control_snake`). `false`, with nothing changed, when no slot
    /// is bound to `cid`: a late command for a snake already gone.
    pub fn dispatch_control(&mut self, cid: u64, d: Direction) -> (found: bool)
        requires
            old(self).wf(),
        ensures
            final(self).wf(),
            found == old(self).slot_of_client(cid) is Some,
            final(self).clients() == old(self).clients(),
            final(self).names() == old(self).names(),
            old(self).slot_of_client(cid) matches Some(i) ==> final(self).arena().steered_from(&old(self).arena(), i, d),
            !found ==> *final(self) == *old(self),
    {
        proof {
            self.lemma_slot_from(cid, 0);
        }
        match self.slot_of(cid) {
            Some(i) => {
                proof {
                    assert(self.clients()[i as int] is Some);
                }
                self.yard.control_snake(i, d);
                proof {
                    assert forall|j: int| 0 <= j < MAX_PLAYERS implies (#[trigger] self.clients()[j] is Some)
                        == self.arena().live(j) && (self.names()[j] is Some) == self.arena().live(j) by {
                        assert(old(self).clients()[j] is Some == old(self).arena().live(j));
                        if j != i {
                            assert(self.arena().same_slot(&old(self).arena(), j));
                        }
                    }
                }
                true
            },
            None => false,
        }
    }

    /// The score board for the committed `scores` of all slots.
    pub fn build_board(&self, scores: &Vec<usize>) -> (b: BoardType)
        requires
            self.names().len() == MAX_PLAYERS,
            scores@.len() == MAX_PLAYERS,
        ensures
            board_view(b) == board_upto(self.names(), scores@, MAX_PLAYERS as int),
    {
        let mut board: BoardType = Vec::new();
        let mut i: usize = 0;
        while i < MAX_PLAYERS as usize
            invariant
                self.names().len() == MAX_PLAYERS,
                scores@.len() == MAX_PLAYERS,
                i <= MAX_PLAYERS,
                board_view(board) == board_upto(self.names(), scores@, i as int),
            decreases MAX_PLAYERS - i,
        {
            if scores[i] > 0 {
                let line = match &self.client_name[i] {
                    Some(n) => board_line(n, scores[i]),
                    None => board_line(&String::new(), scores[i]),
                };
                let ghost before = board;
                board.push((player_color(i as u8), line));
                assert(board_view(board) =~= board_view(before).push(
                    (player_color_of(i as int), board_text(
                        match self.names()[i as int] {
                            Some(nm) => nm@,
                            None => Seq::empty(),
                        },
                        scores@[i as int] as nat,
                    )),
                ));
            }
            i = i + 1;
        }
        board
    }

    /// A snapshot of the field.
    pub fn snapshot(&self) -> (r: YardInfo)
        requires
            self.wf(),
        ensures
            r matches YardInfo::RefreshScreen(buf) && self.arena().shows(&buf),
    {
        YardInfo::RefreshScreen(self.yard.generate_buf())
    }

    /// The outcome of a tick from `old` to `new` with events `infos`, given
    /// the arena's passage `mid` and `swept` and its report `scores` and
    /// `failed`: the arena ticked; each failed slot's client gets a notice,
    /// in slot order, and loses its slot; then come the score board and a
    /// snapshot.
    pub open spec fn tick_outcome(
        old: &Server,
        new: &Server,
        infos: Seq<YardInfo>,
        mid: YardSim,
        swept: YardSim,
        scores: Seq<usize>,
        failed: Seq<bool>,
    ) -> bool {
        let notices = notices_upto(old.clients(), failed, MAX_PLAYERS as int);
        let n = notices.len() as int;
        &&& YardSim::tick_chain(&old.arena(), &mid, &swept, &new.arena(), scores, failed)
        &&& infos.len() == n + 2
        &&& forall|k: int| 0 <= k < n ==> #[trigger] infos[k] == YardInfo::Failed(notices[k])
        &&& infos[n] matches YardInfo::Board(b) && board_view(b) == board_upto(old.names(), scores, MAX_PLAYERS as int)
        &&& infos[n + 1] matches YardInfo::RefreshScreen(buf) && new.arena().shows(&buf)
        &&& forall|i: int|
            0 <= i < MAX_PLAYERS ==> #[trigger] new.clients()[i] == if failed[i] {
                None
            } else {
                old.clients()[i]
            }
        &&& forall|i: int|
            0 <= i < MAX_PLAYERS ==> #[trigger] new.names()[i] == if failed[i] {
                None
            } else {
                old.names()[i]
            }
    }

    /// Runs one tick of the arena and returns what to send out: a failure
    /// notice per failed slot's client (whose binding is dropped), the score
    /// board, and a snapshot.
    pub fn tick(&mut self) -> (infos: Vec<YardInfo>)
        requires
            old(self).wf(),
        ensures
            final(self).wf(),
            exists|mid: YardSim, swept: YardSim, scores: Seq<usize>, failed: Seq<bool>|
                #[trigger] Server::tick_outcome(old(self), final(self), infos@, mid, swept, scores, failed),
    {
        let ghost pre = *self;
        let (scores, failed) = self.yard.next_tick();
        let ghost ticked = self.yard;
        let board = self.build_board(&scores);
        let mut infos: Vec<YardInfo> = Vec::new();
        let mut i: usize = 0;
        while i < MAX_PLAYERS as usize
            invariant
                i <= MAX_PLAYERS,
                pre.wf(),
                self.yard == self.arena(),
                self.yard == ticked,
                exists|m: YardSim, sw: YardSim| #[trigger] YardSim::tick_chain(&pre.arena(), &m, &sw, &ticked, scores@, failed@),
                self.arena().wf(),
                scores@.len() == MAX_PLAYERS,
                failed@.len() == MAX_PLAYERS,
                self.clients().len() == MAX_PLAYERS,
                self.names().len() == MAX_PLAYERS,
                forall|j: int| 0 <= j < MAX_PLAYERS && #[trigger] failed@[j] ==> pre.arena().live(j),
                forall|j: int| 0 <= j < MAX_PLAYERS ==> #[trigger] self.arena().live(j) == (pre.arena().live(j) && !failed@[j]),
                forall|j: int|
                    0 <= j < MAX_PLAYERS ==> #[trigger] self.clients()[j] == if j < i && failed@[j] {
                        None
                    } else {
                        pre.clients()[j]
                    },
                forall|j: int|
                    0 <= j < MAX_PLAYERS ==> #[trigger] self.names()[j] == if j < i && failed@[j] {
                        None
                    } else {
                        pre.names()[j]
                    },
                infos@.len() == notices_upto(pre.clients(), failed@, i as int).len(),
                forall|k: int|
                    0 <= k < infos@.len() ==> #[trigger] infos@[k] == YardInfo::Failed(
                        notices_upto(pre.clients(), failed@, i as int)[k],
                    ),
            decreases MAX_PLAYERS - i,
        {
            if failed[i] {
                proof {
                    assert(pre.clients()[i as int] is Some == pre.arena().live(i as int));
                }
                let cid = self.client_id[i].unwrap();
                infos.push(YardInfo::Failed(cid));
                self.client_id[i] = None;
                self.client_name[i] = None;
            }
            i = i + 1;
        }
        proof {
            assert forall|j: int| 0 <= j < MAX_PLAYERS implies (#[trigger] self.clients()[j] is Some) == self.arena().live(j)
                && (self.names()[j] is Some) == self.arena().live(j) by {
                assert(pre.clients()[j] is Some == pre.arena().live(j));
            }
        }
        infos.push(YardInfo::Board(board));
        infos.push(self.snapshot());
        proof {
            let (m, sw) = choose|m: YardSim, sw: YardSim| #[trigger] YardSim::tick_chain(&pre.arena(), &m, &sw, &self.arena(), scores@, failed@);
            assert(YardSim::tick_chain(&pre.arena(), &m, &sw, &self.arena(), scores@, failed@));
            let notices = notices_upto(pre.clients(), failed@, MAX_PLAYERS as int);
            assert(infos@.len() == notices.len() + 2);
            assert forall|k: int| 0 <= k < notices.len() implies #[trigger] infos@[k] == YardInfo::Failed(notices[k]) by {
                assert(infos@[k] == YardInfo::Failed(notices_upto(pre.clients(), failed@, MAX_PLAYERS as int)[k]));
            }
            assert(pre.names() == old(self).names());
            assert(Server::tick_outcome(&pre, self, infos@, m, sw, scores@, failed@));
        }
        infos
    }

    /// Acts on one command: a join registers the client (see `register`) and
    /// is answered only when accepted; a move steers the client's snake (see
    /// `dispatch_control`) and is not answered.
    pub fn handle_ctrl(&mut self, ctrl: YardCtrl) -> (r: Option<YardInfo>)
        requires
            old(self).wf(),
        ensures
            final(self).wf(),
            match ctrl {
                YardCtrl::NewSnake(cid, name) => {
                    let accepted = old(self).arena().first_free() is Some && exists|t: Coord, d: Direction|
                        old(self).arena().fits(t, d);
                    &&& r == if accepted {
                        Some(YardInfo::RegisteredSnake(cid, true))
                    } else {
                        None
                    }
                    &&& accepted ==> final(self).clients() == old(self).clients().update(
                        old(self).arena().first_free()->0,
                        Some(cid),
                    )
                    &&& !accepted ==> *final(self) == *old(self)
                },
                YardCtrl::CtrlSnake(cid, d) => {
                    &&& r is None
                    &&& final(self).clients() == old(self).clients()
                    &&& old(self).slot_of_client(cid) matches Some(i) ==> final(self).arena().steered_from(
                        &old(self).arena(),
                        i,
                        d,
                    )
                    &&& old(self).slot_of_client(cid) is None ==> *final(self) == *old(self)
                },
            },
    {
        match ctrl {
            YardCtrl::NewSnake(cid, name) => {
                if self.register(cid, name) {
                    Some(YardInfo::RegisteredSnake(cid, true))
                } else {
                    None
                }
            },
            YardCtrl::CtrlSnake(cid, d) => {
                self.dispatch_control(cid, d);
                None
            },
        }
    }
}

} // verus!
