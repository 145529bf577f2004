//! Batches of additions over one connection.

use mikrotik_api::mikrotik_api::{AddOutcome, ApiError, ErrorKind, ReplyEvent};
use mikrotik_api::pipeline::{Pipeline, PipelineAction, PipelineEvent};

fn outcome(result: &Result<AddOutcome, ApiError>) -> String {
    match result {
        Ok(AddOutcome::Added) => "added".to_string(),
        Ok(AddOutcome::Duplicate) => "duplicate".to_string(),
        Err(e) => match e.kind {
            ErrorKind::NotConnected => format!("not connected: {}", e.message),
            ErrorKind::ConnectionReset => format!("reset: {}", e.message),
            ErrorKind::Other => format!("other: {}", e.message),
            ErrorKind::InvalidInput => format!("invalid: {}", e.message),
        },
    }
}

fn outcomes(pipeline: Pipeline) -> Vec<String> {
    assert_eq!(pipeline.action(), PipelineAction::Finish);
    pipeline.finish().iter().map(outcome).collect()
}

#[test]
fn empty_batch_is_finished() {
    let pipeline = Pipeline::new(0);
    assert_eq!(outcomes(pipeline), Vec::<String>::new());
}

#[test]
fn results_follow_replies() {
    let mut pipeline = Pipeline::new(4);
    for i in 0..4 {
        assert_eq!(pipeline.action(), PipelineAction::Send(i));
        pipeline.step(PipelineEvent::Sent);
    }
    assert_eq!(pipeline.action(), PipelineAction::Receive(0));
    pipeline.step(PipelineEvent::Reply(ReplyEvent::Empty));
    pipeline.step(PipelineEvent::Reply(ReplyEvent::Reply(vec![])));
    assert_eq!(pipeline.action(), PipelineAction::Receive(0));
    pipeline.step(PipelineEvent::Reply(ReplyEvent::Done));
    assert_eq!(pipeline.action(), PipelineAction::Receive(1));
    pipeline.step(PipelineEvent::Reply(ReplyEvent::Trap));
    pipeline.step(PipelineEvent::Reply(ReplyEvent::Fatal));
    pipeline.step(PipelineEvent::Closed);
    assert_eq!(
        outcomes(pipeline),
        vec![
            "added",
            "duplicate",
            "reset: fatal error from RouterOS",
            "reset: connection closed without response",
        ]
    );
}

#[test]
fn broken_connection_skips_the_rest() {
    let mut pipeline = Pipeline::new(5);
    pipeline.step(PipelineEvent::Sent);
    pipeline.step(PipelineEvent::Sent);
    assert_eq!(pipeline.action(), PipelineAction::Send(2));
    pipeline.step(PipelineEvent::SendFailed("broken pipe".to_string()));
    assert_eq!(pipeline.action(), PipelineAction::Receive(0));
    pipeline.step(PipelineEvent::Reply(ReplyEvent::Trap));
    assert_eq!(pipeline.action(), PipelineAction::Receive(1));
    pipeline.step(PipelineEvent::Reply(ReplyEvent::Done));
    assert_eq!(
        outcomes(pipeline),
        vec![
            "duplicate",
            "added",
            "other: broken pipe",
            "not connected: skipped: connection broken during pipeline",
            "not connected: skipped: connection broken during pipeline",
        ]
    );
}

#[test]
fn nothing_sent_waits_for_nothing() {
    let mut pipeline = Pipeline::new(1);
    pipeline.step(PipelineEvent::SendFailed("gone".to_string()));
    assert_eq!(outcomes(pipeline), vec!["other: gone"]);
}

#[test]
fn events_that_no_action_asked_for_are_ignored() {
    let mut pipeline = Pipeline::new(1);
    pipeline.step(PipelineEvent::Reply(ReplyEvent::Done));
    pipeline.step(PipelineEvent::Closed);
    assert_eq!(pipeline.action(), PipelineAction::Send(0));
    pipeline.step(PipelineEvent::Sent);
    pipeline.step(PipelineEvent::Sent);
    pipeline.step(PipelineEvent::SendFailed("late".to_string()));
    assert_eq!(pipeline.action(), PipelineAction::Receive(0));
    pipeline.step(PipelineEvent::Reply(ReplyEvent::Done));
    pipeline.step(PipelineEvent::Closed);
    assert_eq!(outcomes(pipeline), vec!["added"]);
}
