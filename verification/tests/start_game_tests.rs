use yab_world::chunk::ColumnStatus;
use yab_world::start_game::{
    remaining_requests, StartGameCommand, StartGameEvent, StartGameStage, StartGameState, PRELOAD_COLUMN_COUNT,
};

#[test]
fn received_columns_count_down_to_zero() {
    assert_eq!(remaining_requests(3, &vec![ColumnStatus::Received, ColumnStatus::Stored, ColumnStatus::Received]), 1);
    assert_eq!(remaining_requests(1, &vec![ColumnStatus::Received; 3]), 0);
    assert_eq!(remaining_requests(5, &vec![]), 5);
    assert_eq!(remaining_requests(0, &vec![ColumnStatus::Received]), 0);
    assert_eq!(remaining_requests(2, &vec![ColumnStatus::Meshed, ColumnStatus::Propagated]), 2);
}

#[test]
fn a_start_runs_through_its_stages() {
    let mut s = StartGameState::new();
    assert_eq!(s.stage, StartGameStage::StartingServer);
    assert_eq!(s.update(StartGameEvent::ServerStarted), StartGameCommand::ShowProgress);
    assert_eq!(s.stage, StartGameStage::Connecting);
    s.update(StartGameEvent::SignInSent);
    assert_eq!(s.stage, StartGameStage::WaitForSignInConfirm);
    s.update(StartGameEvent::NothingReceived);
    assert_eq!(s.stage, StartGameStage::WaitForSignInConfirm);
    s.update(StartGameEvent::SignInConfirmed);
    assert_eq!(s.stage, StartGameStage::RequestingChunks);
    s.update(StartGameEvent::ColumnsRequested(PRELOAD_COLUMN_COUNT));
    assert_eq!(s.stage, StartGameStage::DownloadingChunks);
    assert_eq!(s.preload_count, 49);
    let statuses = vec![ColumnStatus::Received; 48];
    s.update(StartGameEvent::ColumnsArrived { statuses, player_column_meshed: false });
    assert_eq!(s.preload_count, 1);
    assert!(!s.player_chunk_stored);
    s.update(StartGameEvent::ColumnsArrived { statuses: vec![ColumnStatus::Received, ColumnStatus::Received], player_column_meshed: true });
    assert_eq!(s.preload_count, 0);
    assert!(s.player_chunk_stored);
    assert_eq!(s.stage, StartGameStage::DownloadingChunks);
    assert_eq!(s.update(StartGameEvent::Idle), StartGameCommand::Nothing);
    assert_eq!(s.stage, StartGameStage::EnteringGame);
    assert_eq!(s.update(StartGameEvent::Idle), StartGameCommand::EnterGame);
    s.initialize();
    assert_eq!(s.stage, StartGameStage::StartingServer);
    assert_eq!(s.preload_count, 0);
    assert!(!s.player_chunk_stored);
}
