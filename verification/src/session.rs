//! The count of the games of a session. Times are whole milliseconds on a
//! clock of the caller's choice.

use vstd::prelude::*;

verus! {

/// A game that is under way.
#[derive(Debug)]
pub struct RunningGame {
    pub id: String,
    /// The last turn that was seen.
    pub turns: usize,
    /// When the game began.
    pub started: u64,
}

/// Where the game `id` stands among the first `n` games.
pub open spec fn index_of_game(games: Seq<RunningGame>, id: Seq<char>, n: int) -> Option<int>
    decreases n,
{
    if n <= 0 {
        None
    } else {
        match index_of_game(games, id, n - 1) {
            Some(k) => Some(k),
            None => if games[n - 1].id@ == id {
                Some(n - 1)
            } else {
                None
            },
        }
    }
}

/// No two games have the same id.
pub open spec fn distinct_ids(games: Seq<RunningGame>) -> bool {
    forall|i: int, j: int|
        0 <= i < j < games.len() ==> (#[trigger] games[i]).id@ != (#[trigger] games[j]).id@
}

/// The time that a game has run by `now`; one millisecond where the clock
/// has gone back.
pub open spec fn age(game: RunningGame, now: u64) -> int {
    if now >= game.started {
        now - game.started
    } else {
        1
    }
}

/// How many of the first `n` games have run for longer than `timeout`.
pub open spec fn overdue(games: Seq<RunningGame>, now: u64, timeout: u64, n: int) -> int
    decreases n,
{
    if n <= 0 {
        0
    } else {
        overdue(games, now, timeout, n - 1) + if age(games[n - 1], now) > timeout {
            1int
        } else {
            0int
        }
    }
}

/// The turns of those of the first `n` games that have run for longer than
/// `timeout`.
pub open spec fn overdue_turns(games: Seq<RunningGame>, now: u64, timeout: u64, n: int) -> int
    decreases n,
{
    if n <= 0 {
        0
    } else {
        overdue_turns(games, now, timeout, n - 1) + if age(games[n - 1], now) > timeout {
            games[n - 1].turns as int
        } else {
            0int
        }
    }
}

/// Those of the first `n` games that have not run for longer than
/// `timeout`, in their order.
pub open spec fn in_time(games: Seq<RunningGame>, now: u64, timeout: u64, n: int) -> Seq<
    RunningGame,
>
    decreases n,
{
    if n <= 0 {
        Seq::empty()
    } else if age(games[n - 1], now) > timeout {
        in_time(games, now, timeout, n - 1)
    } else {
        in_time(games, now, timeout, n - 1).push(games[n - 1])
    }
}

/// The turns of the first `n` games together.
pub open spec fn all_turns(games: Seq<RunningGame>, n: int) -> int
    decreases n,
{
    if n <= 0 {
        0
    } else {
        all_turns(games, n - 1) + games[n - 1].turns
    }
}

/// What a session has counted.
pub struct SessionModel {
    pub games: nat,
    pub wins: nat,
    pub total_turns: nat,
    pub running: Seq<RunningGame>,
    /// The time after which a game that is under way counts as ended.
    pub timeout: u64,
}

/// The games of a session: how many have ended, how many of them were won,
/// how many turns they took, and the games that are under way.
pub struct SessionStats {
    games: usize,
    wins: usize,
    total_turns: usize,
    running_games: Vec<RunningGame>,
    timeout: u64,
}

impl View for SessionStats {
    type V = SessionModel;

    closed spec fn view(&self) -> SessionModel {
        SessionModel {
            games: self.games as nat,
            wins: self.wins as nat,
            total_turns: self.total_turns as nat,
            running: self.running_games@,
            timeout: self.timeout,
        }
    }
}

proof fn lemma_index_of_game(games: Seq<RunningGame>, id: Seq<char>, n: int)
    requires
        0 <= n <= games.len(),
    ensures
        match index_of_game(games, id, n) {
            Some(k) => 0 <= k < n && games[k].id@ == id && forall|j: int|
                0 <= j < k ==> (#[trigger] games[j]).id@ != id,
            None => forall|j: int| 0 <= j < n ==> (#[trigger] games[j]).id@ != id,
        },
    decreases n,
{
    if n > 0 {
        lemma_index_of_game(games, id, n - 1);
    }
}

proof fn lemma_in_time(games: Seq<RunningGame>, now: u64, timeout: u64, n: int)
    requires
        0 <= n <= games.len(),
        distinct_ids(games),
    ensures
        distinct_ids(in_time(games, now, timeout, n)),
        in_time(games, now, timeout, n).len() == n - overdue(games, now, timeout, n),
        0 <= overdue(games, now, timeout, n) <= n,
        0 <= overdue_turns(games, now, timeout, n),
        forall|k: int|
            0 <= k < in_time(games, now, timeout, n).len() ==> exists|i: int|
                0 <= i < n && games[i] == #[trigger] in_time(games, now, timeout, n)[k],
    decreases n,
{
    if n > 0 {
        lemma_in_time(games, now, timeout, n - 1);
        let prev = in_time(games, now, timeout, n - 1);
        let cur = in_time(games, now, timeout, n);
        assert forall|k: int| 0 <= k < cur.len() implies exists|i: int|
            0 <= i < n && games[i] == #[trigger] cur[k] by {
            if k < prev.len() {
                let i = choose|i: int| 0 <= i < n - 1 && games[i] == prev[k];
                assert(cur[k] == prev[k]);
                assert(games[i] == cur[k]);
            } else {
                assert(cur[k] == games[n - 1]);
            }
        }
        assert forall|i: int, j: int| 0 <= i < j < cur.len() implies (#[trigger] cur[i]).id@ != (
        #[trigger] cur[j]).id@ by {
            if j < prev.len() {
                assert(cur[i] == prev[i] && cur[j] == prev[j]);
            } else {
                assert(cur[i] == prev[i]);
                let a = choose|a: int| 0 <= a < n - 1 && games[a] == prev[i];
                assert(games[a].id@ != games[n - 1].id@);
            }
        }
    }
}

impl SessionStats {
    /// No game is under way twice.
    pub open spec fn wf(&self) -> bool {
        distinct_ids(self@.running)
    }

    /// A session in which nothing has happened yet. `timeout` is in
    /// seconds.
    pub fn new(timeout: u64) -> (s: SessionStats)
        requires
            timeout * 1000 <= u64::MAX,
        ensures
            s.wf(),
            s@ == (SessionModel {
                games: 0,
                wins: 0,
                total_turns: 0,
                running: Seq::empty(),
                timeout: (timeout * 1000) as u64,
            }),
    {
        SessionStats {
            games: 0,
            wins: 0,
            total_turns: 0,
            running_games: Vec::new(),
            timeout: timeout * 1000,
        }
    }

    /// Where the game `id` stands among the games that are under way.
    fn find(&self, id: &String) -> (r: Option<usize>)
        ensures
            match r {
                Some(k) => index_of_game(self@.running, id@, self@.running.len() as int) == Some(
                    k as int,
                ) && k < self@.running.len() && self@.running[k as int].id@ == id@,
                None => index_of_game(self@.running, id@, self@.running.len() as int) is None,
            },
    {
        let mut i: usize = 0;
        while i < self.running_games.len()
            invariant
                i <= self.running_games.len(),
                index_of_game(self@.running, id@, i as int) is None,
            decreases self.running_games.len() - i,
        {
            if self.running_games[i].id == *id {
                proof {
                    lemma_found_stays(self@.running, id@, i as int, self@.running.len() as int);
                }
                return Some(i);
            }
            i += 1;
        }
        None
    }

    /// Puts the game `id` among the games that are under way, at turn 0 and
    /// begun at `now`. A game of the same id that was under way begins
    /// anew.
    pub fn start_game(&mut self, id: String, now: u64)
        requires
            old(self).wf(),
        ensures
            final(self).wf(),
            final(self)@.games == old(self)@.games,
            final(self)@.wins == old(self)@.wins,
            final(self)@.total_turns == old(self)@.total_turns,
            final(self)@.timeout == old(self)@.timeout,
            match index_of_game(old(self)@.running, id@, old(self)@.running.len() as int) {
                Some(k) => final(self)@.running == old(self)@.running.update(
                    k,
                    RunningGame { id: old(self)@.running[k].id, turns: 0, started: now },
                ),
                None => final(self)@.running == old(self)@.running.push(
                    RunningGame { id, turns: 0, started: now },
                ),
            },
    {
        proof {
            lemma_index_of_game(self@.running, id@, self@.running.len() as int);
        }
        match self.find(&id) {
            Some(k) => {
                let ghost before = self.running_games@;
                self.running_games[k].turns = 0;
                self.running_games[k].started = now;
                proof {
                    let after = self.running_games@;
                    assert(after =~= before.update(
                        k as int,
                        RunningGame { id: before[k as int].id, turns: 0, started: now },
                    ));
                    assert forall|i: int, j: int| 0 <= i < j < after.len() implies (
                    #[trigger] after[i]).id@ != (#[trigger] after[j]).id@ by {
                        assert(after[i].id@ == before[i].id@ && after[j].id@ == before[j].id@);
                    }
                }
            },
            None => {
                let ghost before = self.running_games@;
                self.running_games.push(RunningGame { id, turns: 0, started: now });
                proof {
                    let after = self.running_games@;
                    assert forall|i: int, j: int| 0 <= i < j < after.len() implies (
                    #[trigger] after[i]).id@ != (#[trigger] after[j]).id@ by {
                        if j < before.len() {
                            assert(after[i] == before[i] && after[j] == before[j]);
                        } else {
                            assert(after[i] == before[i]);
                        }
                    }
                }
            },
        }
    }

    /// Notes the turn that the game `id` has got to; a game that is not
    /// under way is passed over.
    pub fn update_game(&mut self, id: &String, turns: usize)
        requires
            old(self).wf(),
        ensures
            final(self).wf(),
            final(self)@.games == old(self)@.games,
            final(self)@.wins == old(self)@.wins,
            final(self)@.total_turns == old(self)@.total_turns,
            final(self)@.timeout == old(self)@.timeout,
            match index_of_game(old(self)@.running, id@, old(self)@.running.len() as int) {
                Some(k) => final(self)@.running == old(self)@.running.update(
                    k,
                    RunningGame {
                        id: old(self)@.running[k].id,
                        turns,
                        started: old(self)@.running[k].started,
                    },
                ),
                None => final(self)@.running == old(self)@.running,
            },
    {
        match self.find(id) {
            Some(k) => {
                let ghost before = self.running_games@;
                self.running_games[k].turns = turns;
                proof {
                    let after = self.running_games@;
                    assert(after =~= before.update(
                        k as int,
                        RunningGame {
                            id: before[k as int].id,
                            turns,
                            started: before[k as int].started,
                        },
                    ));
                    assert forall|i: int, j: int| 0 <= i < j < after.len() implies (
                    #[trigger] after[i]).id@ != (#[trigger] after[j]).id@ by {
                        assert(after[i].id@ == before[i].id@ && after[j].id@ == before[j].id@);
                    }
                }
            },
            None => {},
        }
    }

    /// Ends the game `id`: it is counted with its turns, as won if `win` is
    /// set, and is no longer under way. A game that is not under way is
    /// passed over.
    pub fn end_game(&mut self, id: &String, win: bool)
        requires
            old(self).wf(),
            old(self)@.games < usize::MAX,
            old(self)@.wins < usize::MAX,
            forall|k: int|
                0 <= k < old(self)@.running.len() ==> old(self)@.total_turns + (
                #[trigger] old(self)@.running[k]).turns <= usize::MAX,
        ensures
            final(self).wf(),
            final(self)@.timeout == old(self)@.timeout,
            match index_of_game(old(self)@.running, id@, old(self)@.running.len() as int) {
                Some(k) => {
                    &&& final(self)@.running == old(self)@.running.remove(k)
                    &&& final(self)@.games == old(self)@.games + 1
                    &&& final(self)@.wins == old(self)@.wins + if win {
                        1nat
                    } else {
                        0nat
                    }
                    &&& final(self)@.total_turns == old(self)@.total_turns + old(
                        self,
                    )@.running[k].turns
                },
                None => final(self)@ == old(self)@,
            },
    {
        match self.find(id) {
            Some(k) => {
                let ghost before = self.running_games@;
                let game = self.running_games.remove(k);
                self.total_turns = self.total_turns + game.turns;
                self.games = self.games + 1;
                if win {
                    self.wins = self.wins + 1;
                }
                proof {
                    let after = self.running_games@;
                    assert forall|i: int, j: int| 0 <= i < j < after.len() implies (
                    #[trigger] after[i]).id@ != (#[trigger] after[j]).id@ by {
                        let a = if i < k {
                            i
                        } else {
                            i + 1
                        };
                        let b = if j < k {
                            j
                        } else {
                            j + 1
                        };
                        assert(after[i] == before[a] && after[j] == before[b]);
                    }
                }
            },
            None => {},
        }
    }

    /// Ends, as lost, every game that has been under way for longer than
    /// the timeout by `now`.
    pub fn garbage_collect(&mut self, now: u64)
        requires
            old(self).wf(),
            old(self)@.games + old(self)@.running.len() <= usize::MAX,
            old(self)@.total_turns + overdue_turns(
                old(self)@.running,
                now,
                old(self)@.timeout,
                old(self)@.running.len() as int,
            ) <= usize::MAX,
        ensures
            final(self).wf(),
            final(self)@.timeout == old(self)@.timeout,
            final(self)@.wins == old(self)@.wins,
            final(self)@.running == in_time(
                old(self)@.running,
                now,
                old(self)@.timeout,
                old(self)@.running.len() as int,
            ),
            final(self)@.games == old(self)@.games + overdue(
                old(self)@.running,
                now,
                old(self)@.timeout,
                old(self)@.running.len() as int,
            ),
            final(self)@.total_turns == old(self)@.total_turns + overdue_turns(
                old(self)@.running,
                now,
                old(self)@.timeout,
                old(self)@.running.len() as int,
            ),
    {
        let ghost before = self.running_games@;
        let ghost games0 = self.games;
        let ghost turns0 = self.total_turns;
        let timeout = self.timeout;
        let mut kept: Vec<RunningGame> = Vec::new();
        let mut games = self.games;
        let mut total_turns = self.total_turns;
        let n = self.running_games.len();
        let mut i: usize = 0;
        while i < n
            invariant
                i <= n,
                n == before.len(),
                self.running_games@ == before,
                distinct_ids(before),
                games0 + n <= usize::MAX,
                turns0 + overdue_turns(before, now, timeout, n as int) <= usize::MAX,
                kept@ == in_time(before, now, timeout, i as int),
                games == games0 + overdue(before, now, timeout, i as int),
                total_turns == turns0 + overdue_turns(before, now, timeout, i as int),
            decreases n - i,
        {
            proof {
                lemma_in_time(before, now, timeout, i as int);
                lemma_in_time(before, now, timeout, i + 1);
                lemma_overdue_grows(before, now, timeout, i + 1, n as int);
            }
            let game = &self.running_games[i];
            let elapsed: u64 = if now >= game.started {
                now - game.started
            } else {
                1
            };
            if elapsed > timeout {
                games = games + 1;
                total_turns = total_turns + game.turns;
            } else {
                kept.push(
                    RunningGame { id: game.id.clone(), turns: game.turns, started: game.started },
                );
                assert(kept@[kept@.len() - 1] == before[i as int]);
            }
            i += 1;
        }
        proof {
            lemma_in_time(before, now, timeout, n as int);
        }
        self.running_games = kept;
        self.games = games;
        self.total_turns = total_turns;
    }

    /// Whether the counts have room for all the games that are under way:
    /// then any of them can be ended, and any time can be collected at.
    pub fn has_room(&self) -> (b: bool)
        ensures
            b == (self@.games + self@.running.len() <= usize::MAX && self@.wins < usize::MAX
                && self@.total_turns + all_turns(self@.running, self@.running.len() as int)
                <= usize::MAX),
            b ==> self@.games < usize::MAX || self@.running.len() == 0,
            b ==> forall|k: int|
                0 <= k < self@.running.len() ==> self@.total_turns + (#[trigger] self@.running[k]).turns
                    <= usize::MAX,
            b ==> forall|now: u64|
                self@.total_turns + #[trigger] overdue_turns(
                    self@.running,
                    now,
                    self@.timeout,
                    self@.running.len() as int,
                ) <= usize::MAX,
    {
        let n = self.running_games.len();
        let mut sum: u128 = self.total_turns as u128;
        let mut i: usize = 0;
        while i < n
            invariant
                i <= n,
                n == self.running_games.len(),
                sum == self@.total_turns + all_turns(self@.running, i as int),
                sum <= (i + 1) * 0x1_0000_0000_0000_0000,
            decreases n - i,
        {
            sum = sum + self.running_games[i].turns as u128;
            i += 1;
        }
        let b = self.games <= usize::MAX - n && self.wins < usize::MAX && sum <= usize::MAX as u128;
        proof {
            if b {
                assert forall|k: int| 0 <= k < self@.running.len() implies self@.total_turns + (
                #[trigger] self@.running[k]).turns <= usize::MAX by {
                    lemma_turns_bound(self@.running, k, n as int);
                }
                assert forall|now: u64|
                    self@.total_turns + #[trigger] overdue_turns(
                        self@.running,
                        now,
                        self@.timeout,
                        self@.running.len() as int,
                    ) <= usize::MAX by {
                    lemma_overdue_turns_bound(self@.running, now, self@.timeout, n as int);
                }
            }
        }
        b
    }

    /// The number of games that are under way.
    pub fn get_running_len(&self) -> (n: usize)
        ensures
            n == self@.running.len(),
    {
        self.running_games.len()
    }

    /// Sets the time, in milliseconds, after which a game that is under way
    /// counts as ended.
    pub fn set_timeout(&mut self, new_timeout: u64)
        ensures
            final(self)@ == (SessionModel { timeout: new_timeout, ..old(self)@ }),
    {
        self.timeout = new_timeout;
    }

    /// The timeout in whole seconds.
    pub fn get_timeout(&mut self) -> (secs: u64)
        ensures
            secs == old(self)@.timeout / 1000,
            *final(self) == *old(self),
    {
        self.timeout / 1000
    }

    pub fn get_games(&self) -> (n: usize)
        ensures
            n == self@.games,
    {
        self.games
    }

    pub fn get_wins(&self) -> (n: usize)
        ensures
            n == self@.wins,
    {
        self.wins
    }

    pub fn get_total_turns(&self) -> (n: usize)
        ensures
            n == self@.total_turns,
    {
        self.total_turns
    }
}

proof fn lemma_turns_bound(games: Seq<RunningGame>, k: int, n: int)
    requires
        0 <= k < n <= games.len(),
    ensures
        games[k].turns <= all_turns(games, n),
        0 <= all_turns(games, n),
    decreases n,
{
    if n > k + 1 {
        lemma_turns_bound(games, k, n - 1);
    } else {
        lemma_all_turns_positive(games, n - 1);
    }
}

proof fn lemma_all_turns_positive(games: Seq<RunningGame>, n: int)
    requires
        0 <= n <= games.len(),
    ensures
        0 <= all_turns(games, n),
    decreases n,
{
    if n > 0 {
        lemma_all_turns_positive(games, n - 1);
    }
}

proof fn lemma_overdue_turns_bound(games: Seq<RunningGame>, now: u64, timeout: u64, n: int)
    requires
        0 <= n <= games.len(),
    ensures
        0 <= overdue_turns(games, now, timeout, n) <= all_turns(games, n),
    decreases n,
{
    if n > 0 {
        lemma_overdue_turns_bound(games, now, timeout, n - 1);
    }
}

proof fn lemma_found_stays(games: Seq<RunningGame>, id: Seq<char>, k: int, n: int)
    requires
        0 <= k < n <= games.len(),
        index_of_game(games, id, k) is None,
        games[k].id@ == id,
    ensures
        index_of_game(games, id, n) == Some(k),
    decreases n - k,
{
    if n > k + 1 {
        lemma_found_stays(games, id, k, n - 1);
    }
}

proof fn lemma_overdue_grows(games: Seq<RunningGame>, now: u64, timeout: u64, m: int, n: int)
    requires
        0 <= m <= n <= games.len(),
    ensures
        overdue_turns(games, now, timeout, m) <= overdue_turns(games, now, timeout, n),
        overdue(games, now, timeout, m) <= overdue(games, now, timeout, n),
        overdue(games, now, timeout, n) <= n,
    decreases n - m,
{
    if m < n {
        lemma_overdue_grows(games, now, timeout, m, n - 1);
    }
    lemma_overdue_bound(games, now, timeout, n);
}

proof fn lemma_overdue_bound(games: Seq<RunningGame>, now: u64, timeout: u64, n: int)
    requires
        0 <= n <= games.len(),
    ensures
        0 <= overdue(games, now, timeout, n) <= n,
    decreases n,
{
    if n > 0 {
        lemma_overdue_bound(games, now, timeout, n - 1);
    }
}

} // verus!
