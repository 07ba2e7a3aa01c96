//! The teaching harness core: identifiers, lifecycle events and one
//! synchronous turn through a model function.
use vstd::prelude::*;

use crate::text::{chars_of, decimal, decimal_exec, push_all, push_str, string_of, trim, trimmed};

verus! {

/// Identifies one conversation container in the teaching harness.
#[derive(Clone, Copy, Debug, PartialEq, Eq)]
pub struct ThreadId(u64);

/// Identifies one user-to-assistant exchange inside a thread.
#[derive(Clone, Copy, Debug, PartialEq, Eq)]
pub struct TurnId(u64);

/// Identifies one user or assistant item inside a turn.
#[derive(Clone, Copy, Debug, PartialEq, Eq)]
pub struct ItemId(u64);

impl ThreadId {
    pub closed spec fn value(self) -> u64 {
        self.0
    }

    pub fn new(value: u64) -> (r: Self)
        ensures
            r.value() == value,
    {
        ThreadId(value)
    }

    /// The identifier as shown to people: `thread-<n>`.
    pub fn label(&self) -> (r: String)
        ensures
            r@ == "thread-"@ + decimal(self.value() as nat),
    {
        id_label("thread-", self.0)
    }
}

impl TurnId {
    pub closed spec fn value(self) -> u64 {
        self.0
    }

    pub fn new(value: u64) -> (r: Self)
        ensures
            r.value() == value,
    {
        TurnId(value)
    }

    /// The identifier as shown to people: `turn-<n>`.
    pub fn label(&self) -> (r: String)
        ensures
            r@ == "turn-"@ + decimal(self.value() as nat),
    {
        id_label("turn-", self.0)
    }
}

impl ItemId {
    pub closed spec fn value(self) -> u64 {
        self.0
    }

    pub fn new(value: u64) -> (r: Self)
        ensures
            r.value() == value,
    {
        ItemId(value)
    }

    /// The identifier as shown to people: `item-<n>`.
    pub fn label(&self) -> (r: String)
        ensures
            r@ == "item-"@ + decimal(self.value() as nat),
    {
        id_label("item-", self.0)
    }
}

fn id_label(prefix: &str, value: u64) -> (r: String)
    ensures
        r@ == prefix@ + decimal(value as nat),
{
    let mut out: Vec<char> = Vec::new();
    push_str(&mut out, prefix);
    let digits = decimal_exec(value);
    push_all(&mut out, digits.as_slice());
    string_of(out.as_slice())
}

/// One user or assistant contribution to a turn.
#[derive(Clone, Debug, PartialEq, Eq)]
pub enum Item {
    User { id: ItemId, text: String },
    Assistant { id: ItemId, text: String },
}

/// Observable lifecycle output returned by the harness core.
#[derive(Clone, Debug, PartialEq, Eq)]
pub enum Event {
    ThreadStarted { thread_id: ThreadId },
    TurnStarted { thread_id: ThreadId, turn_id: TurnId },
    ItemCompleted { thread_id: ThreadId, turn_id: TurnId, item: Item },
    TurnCompleted { thread_id: ThreadId, turn_id: TurnId },
}

/// The complete observable result of one synchronous teaching turn.
#[derive(Clone, Debug, PartialEq, Eq)]
pub struct TurnOutcome {
    events: Vec<Event>,
}

impl TurnOutcome {
    pub closed spec fn events_view(self) -> Seq<Event> {
        self.events@
    }

    pub fn events(&self) -> (r: &[Event])
        ensures
            r@ == self.events_view(),
    {
        self.events.as_slice()
    }
}

/// Validation failures that stop a turn before model work begins.
#[derive(Clone, Copy, Debug, PartialEq, Eq)]
pub enum RunTurnError {
    BlankPrompt,
}

impl RunTurnError {
    /// The sentence shown to people for this error.
    pub fn message(&self) -> (r: String)
        ensures
            r@ == "prompt must contain a non-whitespace character"@,
    {
        match self {
            RunTurnError::BlankPrompt => String::from_str(
                "prompt must contain a non-whitespace character",
            ),
        }
    }
}

/// A concrete, deterministic model used before the book introduces provider traits.
pub struct EchoModel;

impl EchoModel {
    /// Answers with the prompt behind `Echo: `.
    pub fn respond(prompt: &str) -> (r: String)
        ensures
            r@ == "Echo: "@ + prompt@,
    {
        let mut out: Vec<char> = Vec::new();
        push_str(&mut out, "Echo: ");
        push_str(&mut out, prompt);
        string_of(out.as_slice())
    }
}

/// The thread, turn and item numbers of the single demonstration turn.
pub open spec fn demo_thread(id: ThreadId) -> bool {
    id.value() == 1
}

pub open spec fn demo_turn(id: TurnId) -> bool {
    id.value() == 1
}

/// The five events of a completed turn on `prompt` whose model answered
/// `answer`, in the order in which they happen.
pub open spec fn completed_turn(events: Seq<Event>, prompt: Seq<char>, answer: Seq<char>) -> bool {
    &&& events.len() == 5
    &&& events[0] matches Event::ThreadStarted { thread_id } && demo_thread(thread_id)
    &&& events[1] matches Event::TurnStarted { thread_id, turn_id } && demo_thread(thread_id)
        && demo_turn(turn_id)
    &&& events[2] matches Event::ItemCompleted {
        thread_id,
        turn_id,
        item: Item::User { id, text },
    } && demo_thread(thread_id) && demo_turn(turn_id) && id.value() == 1 && text@ == prompt
    &&& events[3] matches Event::ItemCompleted {
        thread_id,
        turn_id,
        item: Item::Assistant { id, text },
    } && demo_thread(thread_id) && demo_turn(turn_id) && id.value() == 2 && text@ == answer
    &&& events[4] matches Event::TurnCompleted { thread_id, turn_id } && demo_thread(thread_id)
        && demo_turn(turn_id)
}

/// The model of an [`Item`]: its number and text.
pub enum ItemM {
    User { id: u64, text: Seq<char> },
    Assistant { id: u64, text: Seq<char> },
}

/// The model of an [`Event`]: thread, turn and item by number, texts as sequences.
pub enum EventM {
    ThreadStarted { thread: u64 },
    TurnStarted { thread: u64, turn: u64 },
    ItemCompleted { thread: u64, turn: u64, item: ItemM },
    TurnCompleted { thread: u64, turn: u64 },
}

pub open spec fn item_model(i: Item) -> ItemM {
    match i {
        Item::User { id, text } => ItemM::User { id: id.value(), text: text@ },
        Item::Assistant { id, text } => ItemM::Assistant { id: id.value(), text: text@ },
    }
}

pub open spec fn event_model(e: Event) -> EventM {
    match e {
        Event::ThreadStarted { thread_id } => EventM::ThreadStarted { thread: thread_id.value() },
        Event::TurnStarted { thread_id, turn_id } => EventM::TurnStarted {
            thread: thread_id.value(),
            turn: turn_id.value(),
        },
        Event::ItemCompleted { thread_id, turn_id, item } => EventM::ItemCompleted {
            thread: thread_id.value(),
            turn: turn_id.value(),
            item: item_model(item),
        },
        Event::TurnCompleted { thread_id, turn_id } => EventM::TurnCompleted {
            thread: thread_id.value(),
            turn: turn_id.value(),
        },
    }
}

pub open spec fn events_model(es: Seq<Event>) -> Seq<EventM> {
    Seq::new(es.len(), |k: int| event_model(es[k]))
}

/// The events of the turn on `prompt` answered with `answer`: thread 1,
/// turn 1, the user's item 1 and the assistant's item 2.
pub open spec fn turn_model(prompt: Seq<char>, answer: Seq<char>) -> Seq<EventM> {
    seq![
        EventM::ThreadStarted { thread: 1 },
        EventM::TurnStarted { thread: 1, turn: 1 },
        EventM::ItemCompleted { thread: 1, turn: 1, item: ItemM::User { id: 1, text: prompt } },
        EventM::ItemCompleted { thread: 1, turn: 1, item: ItemM::Assistant { id: 2, text: answer } },
        EventM::TurnCompleted { thread: 1, turn: 1 },
    ]
}

proof fn lemma_completed_turn_model(events: Seq<Event>, prompt: Seq<char>, answer: Seq<char>)
    requires
        completed_turn(events, prompt, answer),
    ensures
        events_model(events) == turn_model(prompt, answer),
{
    assert(events_model(events) =~= turn_model(prompt, answer));
}

/// A completed turn is fixed by its prompt and its answer: two turns on the
/// same prompt with the same answer have the same events, ids included. With
/// the echo model the answer is fixed by the prompt, so repeated turns on one
/// prompt give equal outcomes.
pub proof fn law_completed_turn_is_determined(
    first: Seq<Event>,
    second: Seq<Event>,
    prompt: Seq<char>,
    answer: Seq<char>,
)
    requires
        completed_turn(first, prompt, answer),
        completed_turn(second, prompt, answer),
    ensures
        events_model(first) == events_model(second),
        events_model(first) == turn_model(prompt, answer),
{
    lemma_completed_turn_model(first, prompt, answer);
    lemma_completed_turn_model(second, prompt, answer);
}

/// The thread an event belongs to.
pub open spec fn thread_of(e: EventM) -> u64 {
    match e {
        EventM::ThreadStarted { thread } => thread,
        EventM::TurnStarted { thread, turn } => thread,
        EventM::ItemCompleted { thread, turn, item } => thread,
        EventM::TurnCompleted { thread, turn } => thread,
    }
}

/// The turn an event belongs to, for every event but the thread's start.
pub open spec fn turn_of(e: EventM) -> Option<u64> {
    match e {
        EventM::ThreadStarted { thread } => None,
        EventM::TurnStarted { thread, turn } => Some(turn),
        EventM::ItemCompleted { thread, turn, item } => Some(turn),
        EventM::TurnCompleted { thread, turn } => Some(turn),
    }
}

/// Every completed turn, whatever the model answered, has five events in
/// lifecycle order (thread start, turn start, user item, assistant item,
/// turn end), all on thread 1, and every event after the thread's start on
/// turn 1: the completion events reuse the ids the turn started with.
pub proof fn law_turn_events_reuse_ids(events: Seq<Event>, prompt: Seq<char>, answer: Seq<char>)
    requires
        completed_turn(events, prompt, answer),
    ensures
        events_model(events).len() == 5,
        events_model(events)[0] is ThreadStarted,
        events_model(events)[1] is TurnStarted,
        events_model(events)[2] matches EventM::ItemCompleted { item: ItemM::User { .. }, .. },
        events_model(events)[3] matches EventM::ItemCompleted { item: ItemM::Assistant { .. }, .. },
        events_model(events)[4] is TurnCompleted,
        forall|k: int| 0 <= k < 5 ==> thread_of(#[trigger] events_model(events)[k]) == 1,
        forall|k: int| 1 <= k < 5 ==> turn_of(#[trigger] events_model(events)[k]) == Some(1u64),
{
    lemma_completed_turn_model(events, prompt, answer);
    let m = events_model(events);
    assert forall|k: int| 0 <= k < 5 implies thread_of(#[trigger] m[k]) == 1 by {
        if k == 0 {} else if k == 1 {} else if k == 2 {} else if k == 3 {} else {}
    }
    assert forall|k: int| 1 <= k < 5 implies turn_of(#[trigger] m[k]) == Some(1u64) by {
        if k == 1 {} else if k == 2 {} else if k == 3 {} else {}
    }
}

/// The assistant text of the fourth event of a completed turn.
pub open spec fn answer_of(events: Seq<Event>) -> Seq<char> {
    match events[3] {
        Event::ItemCompleted { item: Item::Assistant { text, .. }, .. } => text@,
        _ => seq![],
    }
}

/// Runs one complete offline turn with the concrete echo model.
///
/// Returns `RunTurnError::BlankPrompt` before model work starts when the
/// prompt contains no non-whitespace character.
pub fn run_turn(prompt: &str) -> (r: Result<TurnOutcome, RunTurnError>)
    ensures
        r is Err <==> trim(prompt@).len() == 0,
        r is Err ==> r == Err::<TurnOutcome, RunTurnError>(RunTurnError::BlankPrompt),
        r matches Ok(o) ==> completed_turn(o.events_view(), trim(prompt@), "Echo: "@ + trim(prompt@)),
        r matches Ok(o) ==> events_model(o.events_view()) == turn_model(
            trim(prompt@),
            "Echo: "@ + trim(prompt@),
        ),
{
    let r = run_turn_with_model(prompt, EchoModel::respond);
    proof {
        if r is Ok {
            let o = r->Ok_0;
            let s = choose|s: &str|
                s@ == trim(prompt@) && call_ensures(
                    EchoModel::respond,
                    (s,),
                    answer_string(o.events_view()),
                );
            assert(answer_string(o.events_view())@ == answer_of(o.events_view()));
            lemma_completed_turn_model(o.events_view(), trim(prompt@), "Echo: "@ + trim(prompt@));
        }
    }
    r
}

/// The assistant `String` of the fourth event of a completed turn.
pub open spec fn answer_string(events: Seq<Event>) -> String {
    match events[3] {
        Event::ItemCompleted { item: Item::Assistant { text, .. }, .. } => text,
        _ => arbitrary(),
    }
}

/// Runs one complete turn through a small function seam.
///
/// The prompt is trimmed; a blank prompt is rejected before `model` is
/// called. Otherwise `model` answers the trimmed prompt once and the outcome
/// holds the five lifecycle events in order.
pub fn run_turn_with_model<F: Fn(&str) -> String>(prompt: &str, model: F) -> (r: Result<
    TurnOutcome,
    RunTurnError,
>)
    requires
        forall|s: &str| #[trigger] model.requires((s,)),
    ensures
        r is Err <==> trim(prompt@).len() == 0,
        r is Err ==> r == Err::<TurnOutcome, RunTurnError>(RunTurnError::BlankPrompt),
        r matches Ok(o) ==> {
            &&& completed_turn(o.events_view(), trim(prompt@), answer_of(o.events_view()))
            &&& answer_string(o.events_view())@ == answer_of(o.events_view())
            &&& events_model(o.events_view()) == turn_model(trim(prompt@), answer_of(o.events_view()))
            &&& exists|s: &str|
                s@ == trim(prompt@) && call_ensures(
                    model,
                    (s,),
                    answer_string(o.events_view()),
                )
        },
{
    let chars = chars_of(prompt);
    let trimmed_chars = trimmed(chars.as_slice());
    if trimmed_chars.len() == 0 {
        return Err(RunTurnError::BlankPrompt);
    }
    let user_text = string_of(trimmed_chars.as_slice());
    let assistant_text = model(user_text.as_str());
    let ghost answer = assistant_text;
    let thread_id = ThreadId::new(1);
    let turn_id = TurnId::new(1);
    let mut events: Vec<Event> = Vec::new();
    events.push(Event::ThreadStarted { thread_id });
    events.push(Event::TurnStarted { thread_id, turn_id });
    events.push(
        Event::ItemCompleted {
            thread_id,
            turn_id,
            item: Item::User { id: ItemId::new(1), text: user_text },
        },
    );
    events.push(
        Event::ItemCompleted {
            thread_id,
            turn_id,
            item: Item::Assistant { id: ItemId::new(2), text: assistant_text },
        },
    );
    events.push(Event::TurnCompleted { thread_id, turn_id });
    let outcome = TurnOutcome { events };
    proof {
        assert(answer_string(outcome.events_view()) == answer);
        lemma_completed_turn_model(outcome.events_view(), trim(prompt@), answer@);
    }
    Ok(outcome)
}

} // verus!
