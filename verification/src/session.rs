use vstd::prelude::*;
use bevy_prng::WyRand;
use crate::board::{
    empty_cells, empty_cells_in_order, get_positions_complement_set, well_formed, Board, Tiles,
};
use crate::calculate::{calc_sliced_movement, handle_player_input, resolve_move};
use crate::constants::INITIAL_TILES;
use crate::error::ModelFault;
use crate::events::{PlayerInputEvent, TileMovementEvent, TileSpawnEvent};
use crate::game_over::{board_is_stuck, no_move_left};
use crate::game_state::GameState;
use crate::movement::{apply_events, move_tiles};
use crate::played::{
    exhausted, lemma_changing_move_leaves_room, lemma_resolved_move_plays, ranks_can_rise,
};
use crate::resolves::lemma_move_resolves;
use crate::score::Score;
use crate::scoring::points_of_merges;
use crate::spawn::{
    create_random_tile, next_u32, next_u64, pick_random_tile, spawn_drawn_tile,
    spawn_event_for, with_random_tiles, with_tile,
};

verus! {

/// What a session holds, as mathematical values.
pub struct SessionView {
    /// The tiles on the board.
    pub tiles: Tiles,
    /// The points so far.
    pub score: nat,
    /// Where the session stands in its turn.
    pub state: GameState,
    /// The move that was asked for and is not resolved yet.
    pub input: Option<PlayerInputEvent>,
    /// The steps and merges of the resolved move that are not applied yet.
    pub movements: Seq<TileMovementEvent>,
    /// Whether the move applied last changed the board.
    pub moved: bool,
}

impl SessionView {
    /// The session before its first tile: an empty board, no points, waiting for input.
    pub open spec fn fresh() -> SessionView {
        SessionView {
            tiles: Seq::empty(),
            score: 0,
            state: GameState::Input,
            input: None,
            movements: Seq::empty(),
            moved: false,
        }
    }

    /// The session at its start: the fresh session with one new tile for
    /// each pair of bits drawn.
    pub open spec fn started(draws: Seq<(u64, u32)>) -> SessionView {
        SessionView { tiles: with_random_tiles(Seq::empty(), draws), ..SessionView::fresh() }
    }

    /// The session after the move `input` was asked for. While the session
    /// does not wait for input, the move is dropped.
    pub open spec fn after_input(self, input: PlayerInputEvent) -> SessionView {
        if self.state == GameState::Input {
            SessionView { state: GameState::Calculate, input: Some(input), ..self }
        } else {
            self
        }
    }

    /// The session after the move asked for was resolved into steps and
    /// merges, and the fault that kept it from being resolved.
    pub open spec fn after_calculate(self) -> (SessionView, Option<ModelFault>) {
        if self.state != GameState::Calculate {
            (self, None)
        } else {
            match self.input {
                None => (
                    SessionView { state: GameState::Movement, movements: Seq::empty(), ..self },
                    None,
                ),
                Some(input) => match resolve_move(self.tiles, input) {
                    Ok(events) => (
                        SessionView { state: GameState::Movement, movements: events, ..self },
                        None,
                    ),
                    Err(fault) => (self, Some(fault)),
                },
            }
        }
    }

    /// The session after the steps and merges were applied to board and
    /// score, and the fault that ended the run before its end.
    ///
    /// After a fault the session stays in its state, with the board and the
    /// score as the run has left them, and holds the move and what is left of
    /// its steps and merges no longer.
    pub open spec fn after_movement(self) -> (SessionView, Option<ModelFault>) {
        if self.state != GameState::Movement {
            (self, None)
        } else {
            let (tiles, score, fault) = apply_events(self.tiles, self.score, self.movements);
            match fault {
                None => (
                    SessionView {
                        tiles,
                        score,
                        state: GameState::Spawn,
                        input: None,
                        movements: Seq::empty(),
                        moved: self.movements.len() > 0,
                    },
                    None,
                ),
                Some(fault) => (
                    SessionView {
                        tiles,
                        score,
                        input: None,
                        movements: Seq::empty(),
                        ..self
                    },
                    Some(fault),
                ),
            }
        }
    }

    /// Every tile stands on a cell of the board, and no two tiles on the
    /// same cell. The steps and merges that wait to be applied are what the
    /// move that the session holds resolves to on the board. And where a new
    /// tile is to close the turn, the board has an empty cell for it.
    pub open spec fn wf(self) -> bool {
        &&& well_formed(self.tiles)
        &&& self.state == GameState::Movement ==> match self.input {
            Some(input) => resolve_move(self.tiles, input) == Ok::<
                Seq<TileMovementEvent>,
                ModelFault,
            >(self.movements),
            None => self.movements.len() == 0,
        }
        &&& self.state == GameState::Spawn && self.moved ==> empty_cells_in_order(
            self.tiles,
        ).len() > 0
    }

    /// The session after the turn was closed with the new tile `event`.
    ///
    /// The tile comes only after a move that changed the board. The session
    /// is over if the board is then full with nothing left to merge, and
    /// waits for input otherwise.
    pub open spec fn after_spawn_of(self, event: Option<TileSpawnEvent>) -> SessionView {
        if self.state != GameState::Spawn {
            self
        } else {
            let tiles = if self.moved {
                with_tile(self.tiles, event)
            } else {
                self.tiles
            };
            SessionView {
                tiles,
                state: if no_move_left(tiles) {
                    GameState::GameOver
                } else {
                    GameState::Input
                },
                moved: false,
                ..self
            }
        }
    }

    /// The session after the turn was closed with the new tile for the bits drawn.
    pub open spec fn after_spawn(self, cell_bits: u64, tile_bits: u32) -> SessionView {
        self.after_spawn_of(
            spawn_event_for(empty_cells_in_order(self.tiles), cell_bits, tile_bits),
        )
    }

    /// The session one tick later: after the one stage that belongs to its state.
    pub open spec fn after_tick(
        self,
        input: Option<PlayerInputEvent>,
        cell_bits: u64,
        tile_bits: u32,
    ) -> (SessionView, Option<ModelFault>) {
        match self.state {
            GameState::Input => match input {
                Some(input) => (self.after_input(input), None),
                None => (self, None),
            },
            GameState::Calculate => self.after_calculate(),
            GameState::Movement => self.after_movement(),
            GameState::Spawn => (self.after_spawn(cell_bits, tile_bits), None),
            GameState::GameOver => (self, None),
        }
    }
}

/// A session that is not over ends with a tick if and only if that tick
/// closes a turn and leaves the board with no empty cell and no two tiles of
/// the same rank side by side. A session that is over stays as it is.
pub proof fn lemma_game_over_exactly_when_stuck(
    session: SessionView,
    input: Option<PlayerInputEvent>,
    cell_bits: u64,
    tile_bits: u32,
)
    ensures
        ({
            let (next, fault) = session.after_tick(input, cell_bits, tile_bits);
            &&& session.state != GameState::GameOver ==> (next.state == GameState::GameOver
                <==> session.state == GameState::Spawn && no_move_left(next.tiles))
            &&& session.state == GameState::GameOver ==> next == session && fault is None
        }),
{
}

/// The fault that a stage ended with, if it did.
pub open spec fn fault_of(r: Result<(), ModelFault>) -> Option<ModelFault> {
    match r {
        Ok(_) => None,
        Err(fault) => Some(fault),
    }
}

/// One game, from an empty board to the board on which nothing moves any more.
pub struct Session {
    board: Board,
    score: Score,
    state: GameState,
    input: Option<PlayerInputEvent>,
    movements: Vec<TileMovementEvent>,
    moved: bool,
}

impl View for Session {
    type V = SessionView;

    closed spec fn view(&self) -> SessionView {
        SessionView {
            tiles: self.board@,
            score: self.score@,
            state: self.state,
            input: self.input,
            movements: self.movements@,
            moved: self.moved,
        }
    }
}

impl Session {
    /// The session is as its stages leave it: see [`SessionView::wf`].
    pub open spec fn wf(&self) -> bool {
        self@.wf()
    }

    /// The session before its first tile.
    pub fn new() -> (session: Self)
        ensures
            session.wf(),
            session@ == SessionView::fresh(),
    {
        Session {
            board: Board::new(),
            score: Score::default(),
            state: GameState::Input,
            input: None,
            movements: Vec::new(),
            moved: false,
        }
    }

    /// A session on the given board, without points: over if the board is
    /// full with nothing left to merge, and waiting for input otherwise.
    pub fn with_board(board: Board) -> (session: Self)
        requires
            board.wf(),
        ensures
            session.wf(),
            session@ == (SessionView {
                tiles: board@,
                state: if no_move_left(board@) {
                    GameState::GameOver
                } else {
                    GameState::Input
                },
                ..SessionView::fresh()
            }),
    {
        let state = if board_is_stuck(&board) {
            GameState::GameOver
        } else {
            GameState::Input
        };
        Session {
            board,
            score: Score::default(),
            state,
            input: None,
            movements: Vec::new(),
            moved: false,
        }
    }

    /// The session at its start, with one new tile for each pair of bits in `draws`.
    pub fn start_with(draws: &Vec<(u64, u32)>) -> (session: Self)
        ensures
            session.wf(),
            session@ == SessionView::started(draws@),
    {
        let mut session = Session::new();
        let mut i: usize = 0;
        assert(draws@.skip(0) =~= draws@);
        while i < draws.len()
            invariant
                i <= draws@.len(),
                session.wf(),
                session@ == (SessionView { tiles: session@.tiles, ..SessionView::fresh() }),
                with_random_tiles(Seq::empty(), draws@) == with_random_tiles(
                    session@.tiles,
                    draws@.skip(i as int),
                ),
            decreases draws.len() - i,
        {
            proof {
                assert(draws@.skip(i as int).drop_first() =~= draws@.skip(i as int + 1));
            }
            let candidates = get_positions_complement_set(&session.board);
            let event = pick_random_tile(&candidates, draws[i].0, draws[i].1);
            proof {
                if event is Some {
                    let count = candidates@.len() as int;
                    assert(candidates@.to_set().contains(
                        candidates@[draws@[i as int].0 as int % count],
                    ));
                }
            }
            spawn_drawn_tile(event, &mut session.board);
            i += 1;
        }
        session
    }

    /// The session at its start, with `INITIAL_TILES` tiles drawn from `rng`.
    pub fn start(rng: &mut WyRand) -> (session: Self)
        ensures
            session.wf(),
            exists|draws: Seq<(u64, u32)>|
                draws.len() == INITIAL_TILES && session@ == #[trigger] SessionView::started(draws),
    {
        let mut draws: Vec<(u64, u32)> = Vec::new();
        let mut i: usize = 0;
        while i < INITIAL_TILES
            invariant
                i <= INITIAL_TILES,
                draws@.len() == i,
            decreases INITIAL_TILES - i,
        {
            let cell_bits = next_u64(rng);
            let tile_bits = next_u32(rng);
            draws.push((cell_bits, tile_bits));
            i += 1;
        }
        Session::start_with(&draws)
    }

    /// Where the session stands in its turn.
    pub fn state(&self) -> (state: GameState)
        ensures
            state == self@.state,
    {
        self.state
    }

    /// The points so far.
    pub fn score(&self) -> (score: usize)
        ensures
            score == self@.score,
    {
        self.score.value()
    }

    /// The board.
    pub fn board(&self) -> (board: &Board)
        ensures
            board@ == self@.tiles,
    {
        &self.board
    }

    /// The steps and merges that are resolved and not applied yet.
    pub fn movements(&self) -> (events: &Vec<TileMovementEvent>)
        ensures
            events@ == self@.movements,
    {
        &self.movements
    }
}

/// The stage that takes the player's move.
pub struct InputPlugin;

impl InputPlugin {
    /// Takes the move `input` if the session waits for one, and drops it otherwise.
    pub fn run(session: &mut Session, input: PlayerInputEvent)
        requires
            old(session).wf(),
        ensures
            final(session).wf(),
            final(session)@ == old(session)@.after_input(input),
    {
        if session.state == GameState::Input {
            session.input = Some(input);
            session.state = GameState::Calculate;
        }
    }
}

/// The move that the arrow keys ask for: of the keys just pressed, the first
/// among left, right, up, down.
pub fn input_from_keyboard(left: bool, right: bool, up: bool, down: bool) -> (input: Option<
    PlayerInputEvent,
>)
    ensures
        input == (if left {
            Some(PlayerInputEvent::Left)
        } else if right {
            Some(PlayerInputEvent::Right)
        } else if up {
            Some(PlayerInputEvent::Up)
        } else if down {
            Some(PlayerInputEvent::Down)
        } else {
            None
        }),
{
    if left {
        Some(PlayerInputEvent::Left)
    } else if right {
        Some(PlayerInputEvent::Right)
    } else if up {
        Some(PlayerInputEvent::Up)
    } else if down {
        Some(PlayerInputEvent::Down)
    } else {
        None
    }
}

/// The stage that resolves the move into steps and merges.
pub struct CalculatePlugin;

impl CalculatePlugin {
    /// Resolves the move that was asked for. On the board of a session every
    /// move resolves, so no fault comes of it.
    pub fn run(session: &mut Session) -> (r: Result<(), ModelFault>)
        requires
            old(session).wf(),
        ensures
            final(session).wf(),
            (final(session)@, fault_of(r)) == old(session)@.after_calculate(),
            r is Ok,
    {
        if session.state != GameState::Calculate {
            return Ok(());
        }
        proof {
            if session.input is Some {
                lemma_move_resolves(session@.tiles, session.input.unwrap());
            }
        }
        match session.input {
            None => {
                session.movements = Vec::new();
                session.state = GameState::Movement;
                Ok(())
            },
            Some(input) => {
                let slices = handle_player_input(&session.board, input);
                match calc_sliced_movement(&slices, &session.board) {
                    Ok(events) => {
                        session.movements = events;
                        session.state = GameState::Movement;
                        Ok(())
                    },
                    Err(fault) => Err(fault),
                }
            },
        }
    }
}

/// The stage that applies the steps and merges to board and score.
pub struct MovementPlugin;

impl MovementPlugin {
    /// Applies the resolved steps and merges in order. A fault ends the run:
    /// what was applied before it stays applied, the rest is dropped, and the
    /// session stays in its state.
    ///
    /// No step leaves the board or meets a tile, and no merge misses one: the
    /// only faults are those of exhaustion, which do not arise as long as
    /// every rank on the board can still rise and the score has room for the
    /// points of the merges.
    pub fn run(session: &mut Session) -> (r: Result<(), ModelFault>)
        requires
            old(session).wf(),
        ensures
            final(session).wf(),
            (final(session)@, fault_of(r)) == old(session)@.after_movement(),
            final(session)@.score >= old(session)@.score,
            r matches Err(fault) ==> exhausted(
                old(session)@.tiles,
                old(session)@.score,
                old(session)@.movements,
                fault,
            ),
            ranks_can_rise(old(session)@.tiles) && old(session)@.score + points_of_merges(
                old(session)@.tiles,
                old(session)@.movements,
            ) <= usize::MAX ==> r is Ok,
    {
        if session.state != GameState::Movement {
            return Ok(());
        }
        proof {
            match session.input {
                Some(input) => {
                    lemma_resolved_move_plays(session@.tiles, session@.score, input);
                    lemma_changing_move_leaves_room(session@.tiles, session@.score, input);
                },
                None => {},
            }
        }
        session.input = None;
        match move_tiles(&session.movements, &mut session.board, &mut session.score) {
            Ok(_) => {
                session.moved = session.movements.len() > 0;
                session.movements = Vec::new();
                session.state = GameState::Spawn;
                Ok(())
            },
            Err(fault) => {
                session.movements = Vec::new();
                Err(fault)
            },
        }
    }
}

/// The stage that closes the turn: it brings the new tile and decides
/// whether the session goes on.
pub struct SpawnPlugin;

impl SpawnPlugin {
    /// Closes the turn with the new tile `event`, drawn for an empty cell.
    fn close_turn(session: &mut Session, event: Option<TileSpawnEvent>)
        requires
            old(session).wf(),
            old(session)@.state == GameState::Spawn,
            event matches Some(e) ==> e.tile.0 >= 1 && empty_cells(old(session)@.tiles).contains(
                e.position,
            ),
        ensures
            final(session).wf(),
            final(session)@ == old(session)@.after_spawn_of(event),
    {
        if session.moved {
            spawn_drawn_tile(event, &mut session.board);
        }
        session.moved = false;
        session.state = if board_is_stuck(&session.board) {
            GameState::GameOver
        } else {
            GameState::Input
        };
    }

    /// Closes the turn with the new tile for the bits drawn.
    ///
    /// After a move that changed the board a new tile comes onto an empty
    /// cell. The session is then over if and only if no cell is empty and no
    /// two tiles side by side have the same rank; otherwise it waits for input.
    pub fn run_with(session: &mut Session, cell_bits: u64, tile_bits: u32)
        requires
            old(session).wf(),
        ensures
            final(session).wf(),
            final(session)@ == old(session)@.after_spawn(cell_bits, tile_bits),
            old(session)@.state == GameState::Spawn ==> (final(session)@.state
                == GameState::GameOver <==> no_move_left(final(session)@.tiles)),
            old(session)@.state == GameState::Spawn && !old(session)@.moved
                ==> final(session)@.tiles == old(session)@.tiles,
            old(session)@.state == GameState::Spawn && old(session)@.moved
                ==> final(session)@.tiles.len() == old(session)@.tiles.len() + 1,
    {
        if session.state != GameState::Spawn {
            return ;
        }
        let candidates = get_positions_complement_set(&session.board);
        let event = pick_random_tile(&candidates, cell_bits, tile_bits);
        proof {
            if event is Some {
                let count = candidates@.len() as int;
                assert(candidates@.to_set().contains(candidates@[cell_bits as int % count]));
            }
        }
        SpawnPlugin::close_turn(session, event);
    }

    /// Closes the turn with a new tile drawn from `rng`.
    pub fn run(session: &mut Session, rng: &mut WyRand)
        requires
            old(session).wf(),
        ensures
            final(session).wf(),
            exists|cell_bits: u64, tile_bits: u32|
                final(session)@ == #[trigger] old(session)@.after_spawn(cell_bits, tile_bits),
            old(session)@.state == GameState::Spawn ==> (final(session)@.state
                == GameState::GameOver <==> no_move_left(final(session)@.tiles)),
            old(session)@.state == GameState::Spawn && !old(session)@.moved
                ==> final(session)@.tiles == old(session)@.tiles,
            old(session)@.state == GameState::Spawn && old(session)@.moved
                ==> final(session)@.tiles.len() == old(session)@.tiles.len() + 1,
    {
        if session.state != GameState::Spawn {
            assert(session@ == session@.after_spawn(0, 0));
            return ;
        }
        if !session.moved {
            SpawnPlugin::close_turn(session, None);
            assert(session@ == old(session)@.after_spawn(0, 0));
            return ;
        }
        let event = create_random_tile(&session.board, rng);
        SpawnPlugin::close_turn(session, event);
        proof {
            let cells = empty_cells_in_order(old(session)@.tiles);
            if event is Some {
                let (cell_bits, tile_bits) = choose|cell_bits: u64, tile_bits: u32|
                    event == #[trigger] spawn_event_for(cells, cell_bits, tile_bits);
                assert(session@ == old(session)@.after_spawn(cell_bits, tile_bits));
            } else {
                assert(spawn_event_for(cells, 0, 0) is None);
                assert(session@ == old(session)@.after_spawn(0, 0));
            }
        }
    }
}

/// All the stages of a turn, of which each tick runs the one that belongs to
/// the state of the session.
pub struct GamePluginGroup;

impl GamePluginGroup {
    /// Runs one stage, with the bits drawn for the new tile.
    ///
    /// A move is taken only while the session waits for input, and a session
    /// that is over stays as it is.
    pub fn tick_with(
        session: &mut Session,
        input: Option<PlayerInputEvent>,
        cell_bits: u64,
        tile_bits: u32,
    ) -> (r: Result<(), ModelFault>)
        requires
            old(session).wf(),
        ensures
            final(session).wf(),
            (final(session)@, fault_of(r)) == old(session)@.after_tick(
                input,
                cell_bits,
                tile_bits,
            ),
            final(session)@.score >= old(session)@.score,
            r matches Err(fault) ==> old(session)@.state == GameState::Movement && exhausted(
                old(session)@.tiles,
                old(session)@.score,
                old(session)@.movements,
                fault,
            ),
    {
        match session.state {
            GameState::Input => {
                match input {
                    Some(input) => {
                        InputPlugin::run(session, input);
                    },
                    None => {},
                }
                Ok(())
            },
            GameState::Calculate => CalculatePlugin::run(session),
            GameState::Movement => MovementPlugin::run(session),
            GameState::Spawn => {
                SpawnPlugin::run_with(session, cell_bits, tile_bits);
                Ok(())
            },
            GameState::GameOver => Ok(()),
        }
    }

    /// Runs one stage, with the new tile drawn from `rng`.
    pub fn tick(session: &mut Session, input: Option<PlayerInputEvent>, rng: &mut WyRand) -> (r:
        Result<(), ModelFault>)
        requires
            old(session).wf(),
        ensures
            final(session).wf(),
            exists|cell_bits: u64, tile_bits: u32|
                (final(session)@, fault_of(r)) == #[trigger] old(session)@.after_tick(
                    input,
                    cell_bits,
                    tile_bits,
                ),
            final(session)@.score >= old(session)@.score,
            r matches Err(fault) ==> old(session)@.state == GameState::Movement && exhausted(
                old(session)@.tiles,
                old(session)@.score,
                old(session)@.movements,
                fault,
            ),
    {
        match session.state {
            GameState::Spawn => {
                SpawnPlugin::run(session, rng);
                proof {
                    let (cell_bits, tile_bits) = choose|cell_bits: u64, tile_bits: u32|
                        session@ == #[trigger] old(session)@.after_spawn(cell_bits, tile_bits);
                    assert((session@, None::<ModelFault>) == old(session)@.after_tick(
                        input,
                        cell_bits,
                        tile_bits,
                    ));
                }
                Ok(())
            },
            _ => {
                let r = GamePluginGroup::tick_with(session, input, 0, 0);
                assert((session@, fault_of(r)) == old(session)@.after_tick(input, 0, 0));
                r
            },
        }
    }
}

} // verus!
