use harness_book::turn::{
    EchoModel, Event, Item, ItemId, RunTurnError, ThreadId, TurnId, run_turn, run_turn_with_model,
};

#[test]
fn one_prompt_produces_ordered_events() {
    let outcome = match run_turn("hello") {
        Ok(outcome) => outcome,
        Err(error) => panic!("expected a completed turn, got {}", error.message()),
    };

    assert_eq!(
        outcome.events(),
        &[
            Event::ThreadStarted {
                thread_id: ThreadId::new(1),
            },
            Event::TurnStarted {
                thread_id: ThreadId::new(1),
                turn_id: TurnId::new(1),
            },
            Event::ItemCompleted {
                thread_id: ThreadId::new(1),
                turn_id: TurnId::new(1),
                item: Item::User {
                    id: ItemId::new(1),
                    text: "hello".to_owned(),
                },
            },
            Event::ItemCompleted {
                thread_id: ThreadId::new(1),
                turn_id: TurnId::new(1),
                item: Item::Assistant {
                    id: ItemId::new(2),
                    text: "Echo: hello".to_owned(),
                },
            },
            Event::TurnCompleted {
                thread_id: ThreadId::new(1),
                turn_id: TurnId::new(1),
            },
        ]
    );
}

fn model_must_not_run(_prompt: &str) -> String {
    panic!("model was called before prompt validation");
}

#[test]
fn blank_prompt_is_rejected_before_turn_start() {
    let result = run_turn_with_model(" \n\t ", model_must_not_run);

    assert_eq!(result, Err(RunTurnError::BlankPrompt));
}

#[test]
fn completed_event_reuses_thread_and_turn_ids() {
    let outcome = match run_turn("hello") {
        Ok(outcome) => outcome,
        Err(error) => panic!("expected a completed turn, got {}", error.message()),
    };

    let expected_thread_id = ThreadId::new(1);
    let expected_turn_id = TurnId::new(1);

    for event in outcome.events() {
        match event {
            Event::ThreadStarted { thread_id } => {
                assert_eq!(*thread_id, expected_thread_id);
            }
            Event::TurnStarted { thread_id, turn_id }
            | Event::ItemCompleted {
                thread_id, turn_id, ..
            }
            | Event::TurnCompleted { thread_id, turn_id } => {
                assert_eq!(*thread_id, expected_thread_id);
                assert_eq!(*turn_id, expected_turn_id);
            }
        }
    }
}

#[test]
fn prompt_is_trimmed_before_the_model_sees_it() {
    let outcome = run_turn("  hi there \n").expect("a non-blank prompt completes");
    match &outcome.events()[3] {
        Event::ItemCompleted {
            item: Item::Assistant { text, .. },
            ..
        } => assert_eq!(text, "Echo: hi there"),
        other => panic!("unexpected event {other:?}"),
    }
}

#[test]
fn identifiers_have_readable_labels() {
    assert_eq!(ThreadId::new(1).label(), "thread-1");
    assert_eq!(TurnId::new(12).label(), "turn-12");
    assert_eq!(ItemId::new(305).label(), "item-305");
}

#[test]
fn echo_model_prefixes_the_prompt() {
    assert_eq!(EchoModel::respond("ping"), "Echo: ping");
}

#[test]
fn blank_prompt_error_message() {
    assert_eq!(
        RunTurnError::BlankPrompt.message(),
        "prompt must contain a non-whitespace character"
    );
    assert!(run_turn("").is_err());
}

#[test]
fn repeated_turns_on_one_prompt_are_equal() {
    assert_eq!(run_turn("  same prompt "), run_turn("same prompt"));
    assert_eq!(run_turn("x"), run_turn_with_model("x", EchoModel::respond));
}

fn shouting_model(prompt: &str) -> String {
    prompt.to_uppercase()
}

#[test]
fn any_model_gets_the_same_lifecycle_ids() {
    let Ok(outcome) = run_turn_with_model("hello", shouting_model) else {
        panic!("a non-blank prompt should complete");
    };
    let events = outcome.events();
    assert_eq!(events.len(), 5);
    assert_eq!(events[0], Event::ThreadStarted { thread_id: ThreadId::new(1) });
    assert_eq!(events[4], Event::TurnCompleted { thread_id: ThreadId::new(1), turn_id: TurnId::new(1) });
    assert_eq!(
        events[3],
        Event::ItemCompleted {
            thread_id: ThreadId::new(1),
            turn_id: TurnId::new(1),
            item: Item::Assistant { id: ItemId::new(2), text: "HELLO".to_string() },
        }
    );
}
