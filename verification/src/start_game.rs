//! The stages of starting a game: start the server where one is to be run, connect and sign
//! in, request the columns around the player, wait until they have arrived, then enter the
//! game. The work of each stage (the server, the socket, the world) is the caller's; this
//! machine decides what comes next from what that work brought.

use crate::chunk::ColumnStatus;
use vstd::prelude::*;

verus! {

/// How many columns are loaded before the game is entered: enough to hold the chunks near
/// the player.
pub const PRELOAD_COLUMN_COUNT: usize = 49;

/// The stages of a start, in the order they run.
#[derive(PartialEq, Eq, Structural, Debug, Copy, Clone)]
pub enum StartGameStage {
    StartingServer,
    Connecting,
    WaitForSignInConfirm,
    RequestingChunks,
    DownloadingChunks,
    EnteringGame,
}

/// What the work of the current stage brought.
pub enum StartGameEvent {
    /// The server was started, where one is to be run.
    ServerStarted,
    /// The sign-in was sent.
    SignInSent,
    /// The server confirmed the sign-in and the world was set up.
    SignInConfirmed,
    /// Nothing arrived from the server yet.
    NothingReceived,
    /// This many columns were requested.
    ColumnsRequested(usize),
    /// The statuses of columns that came in, and whether the player's column is meshed.
    ColumnsArrived { statuses: Vec<ColumnStatus>, player_column_meshed: bool },
    /// A stage that needs nothing from outside: no download pending, or entering the game.
    Idle,
}

/// What the caller does after a step.
#[derive(PartialEq, Eq, Structural, Debug, Copy, Clone)]
pub enum StartGameCommand {
    /// Show the message and progress of the stage that ran.
    ShowProgress,
    /// Show nothing this time.
    Nothing,
    /// Leave the start and enter the game.
    EnterGame,
}

/// The stage a start is in, how many requested columns it still awaits, and whether the
/// player's own column has been meshed.
pub struct StartGameState {
    pub preload_count: usize,
    pub player_chunk_stored: bool,
    pub stage: StartGameStage,
}

/// The number of `Received` statuses in `s`.
pub open spec fn received_count(s: Seq<ColumnStatus>) -> nat
    decreases s.len(),
{
    if s.len() == 0 {
        0
    } else {
        received_count(s.drop_last()) + if s.last() == ColumnStatus::Received { 1nat } else { 0nat }
    }
}

/// Open requests less the ones whose column was received, never below zero.
pub open spec fn spec_remaining_requests(open: usize, s: Seq<ColumnStatus>) -> usize {
    if received_count(s) >= open {
        0
    } else {
        (open - received_count(s)) as usize
    }
}

/// Count down `open` requests by the columns among `statuses` that were received, stopping
/// at zero.
pub fn remaining_requests(open: usize, statuses: &Vec<ColumnStatus>) -> (r: usize)
    ensures
        r == spec_remaining_requests(open, statuses@),
{
    let mut left = open;
    let mut i: usize = 0;
    while i < statuses.len()
        invariant
            i <= statuses.len(),
            left == spec_remaining_requests(open, statuses@.take(i as int)),
        decreases statuses.len() - i,
    {
        assert(statuses@.take(i + 1).drop_last() =~= statuses@.take(i as int));
        if statuses[i] == ColumnStatus::Received && left > 0 {
            left = left - 1;
        }
        i = i + 1;
    }
    assert(statuses@.take(i as int) =~= statuses@);
    left
}

/// Whether `event` is what the work of `stage` brings.
pub open spec fn event_fits(stage: StartGameStage, preload_count: usize, event: StartGameEvent) -> bool {
    match stage {
        StartGameStage::StartingServer => event is ServerStarted,
        StartGameStage::Connecting => event is SignInSent,
        StartGameStage::WaitForSignInConfirm => event is SignInConfirmed || event is NothingReceived,
        StartGameStage::RequestingChunks => event is ColumnsRequested,
        StartGameStage::DownloadingChunks => if preload_count == 0 {
            event is Idle
        } else {
            event is ColumnsArrived
        },
        StartGameStage::EnteringGame => event is Idle,
    }
}

/// The stage, preload count and player-column flag after a step from `stage` on `event`, and
/// the command: each stage moves to the next once its work is done; the sign-in waits for
/// the confirmation; downloading counts the received columns down and ends when none is
/// left to wait for; entering the game ends the start.
pub open spec fn spec_start_step(
    stage: StartGameStage,
    count: usize,
    stored: bool,
    event: StartGameEvent,
) -> (StartGameStage, usize, bool, StartGameCommand) {
    match event {
        StartGameEvent::ServerStarted => (StartGameStage::Connecting, count, stored, StartGameCommand::ShowProgress),
        StartGameEvent::SignInSent => (StartGameStage::WaitForSignInConfirm, count, stored, StartGameCommand::ShowProgress),
        StartGameEvent::SignInConfirmed => (StartGameStage::RequestingChunks, count, stored, StartGameCommand::ShowProgress),
        StartGameEvent::NothingReceived => (stage, count, stored, StartGameCommand::ShowProgress),
        StartGameEvent::ColumnsRequested(n) => (StartGameStage::DownloadingChunks, n, stored, StartGameCommand::ShowProgress),
        StartGameEvent::ColumnsArrived { statuses, player_column_meshed } => (
            stage,
            spec_remaining_requests(count, statuses@),
            stored || player_column_meshed,
            StartGameCommand::ShowProgress,
        ),
        StartGameEvent::Idle => if stage == StartGameStage::EnteringGame {
            (stage, count, stored, StartGameCommand::EnterGame)
        } else {
            (StartGameStage::EnteringGame, count, stored, StartGameCommand::Nothing)
        },
    }
}

impl StartGameState {
    /// A start at its first stage, with nothing preloaded.
    pub fn new() -> (r: Self)
        ensures
            r.preload_count == 0,
            !r.player_chunk_stored,
            r.stage == StartGameStage::StartingServer,
    {
        StartGameState { preload_count: 0, player_chunk_stored: false, stage: StartGameStage::StartingServer }
    }

    /// Begin the start again.
    pub fn initialize(&mut self)
        ensures
            final(self).preload_count == 0,
            !final(self).player_chunk_stored,
            final(self).stage == StartGameStage::StartingServer,
    {
        self.preload_count = 0;
        self.player_chunk_stored = false;
        self.stage = StartGameStage::StartingServer;
    }

    /// One step of the start, on what the work of the current stage brought.
    pub fn update(&mut self, event: StartGameEvent) -> (r: StartGameCommand)
        requires
            event_fits(old(self).stage, old(self).preload_count, event),
        ensures
            ({
                let (stage, count, stored, cmd) = spec_start_step(
                    old(self).stage,
                    old(self).preload_count,
                    old(self).player_chunk_stored,
                    event,
                );
                &&& final(self).stage == stage
                &&& final(self).preload_count == count
                &&& final(self).player_chunk_stored == stored
                &&& r == cmd
            }),
    {
        match event {
            StartGameEvent::ServerStarted => {
                self.stage = StartGameStage::Connecting;
                StartGameCommand::ShowProgress
            },
            StartGameEvent::SignInSent => {
                self.stage = StartGameStage::WaitForSignInConfirm;
                StartGameCommand::ShowProgress
            },
            StartGameEvent::SignInConfirmed => {
                self.stage = StartGameStage::RequestingChunks;
                StartGameCommand::ShowProgress
            },
            StartGameEvent::NothingReceived => StartGameCommand::ShowProgress,
            StartGameEvent::ColumnsRequested(n) => {
                self.preload_count = n;
                self.stage = StartGameStage::DownloadingChunks;
                StartGameCommand::ShowProgress
            },
            StartGameEvent::ColumnsArrived { statuses, player_column_meshed } => {
                self.preload_count = remaining_requests(self.preload_count, &statuses);
                if player_column_meshed {
                    self.player_chunk_stored = true;
                }
                StartGameCommand::ShowProgress
            },
            StartGameEvent::Idle => {
                if self.stage == StartGameStage::EnteringGame {
                    StartGameCommand::EnterGame
                } else {
                    self.stage = StartGameStage::EnteringGame;
                    StartGameCommand::Nothing
                }
            },
        }
    }
}

/// Counting down never raises the number of open requests, and each received column lowers
/// it by one until none is open.
pub proof fn lemma_remaining_requests_drop(open: usize, s: Seq<ColumnStatus>)
    ensures
        spec_remaining_requests(open, s) <= open,
        spec_remaining_requests(open, s.push(ColumnStatus::Received)) == if spec_remaining_requests(open, s) == 0 {
            0
        } else {
            spec_remaining_requests(open, s) - 1
        },
{
    assert(s.push(ColumnStatus::Received).drop_last() =~= s);
}

} // verus!
