use aitia::stef::diagram::state_diagram;
use aitia::stef::framing::{frame, unframe};
use aitia::stef::recording::{play, replay};
use aitia::stef::{
    Act, ActionRecorder, FileActionRecorder, MemoryCassette, RecordActions, RunEffects, Share,
    State, StoreEffects, Total,
};
use std::path::PathBuf;

/// A counter that adds what it is told to, and answers with its new value.
#[derive(Debug, Clone, Default, PartialEq, Eq)]
struct Counter(u32);

impl State for Counter {
    type Action = u32;
    type Effect = u32;

    fn transition(&mut self, amount: u32) -> u32 {
        self.0 += amount;
        self.0
    }
}

#[test]
fn store_effects_keeps_effects_in_order() {
    let mut store = StoreEffects::new(Counter(10), 4);
    assert!(store.effects().is_empty());
    store.transition(1);
    store.transition(2);
    store.transition(3);
    assert_eq!(store.effects().iter().copied().collect::<Vec<_>>(), vec![11, 13, 16]);
    assert_eq!(store.state(), &Counter(16));
    assert_eq!(store.0, 16);
}

#[test]
fn drain_effects_hands_out_everything_once() {
    let mut store = StoreEffects::new(Counter(0), 0);
    store.transition(5);
    store.transition(5);
    assert_eq!(store.drain_effects(), vec![5, 10]);
    assert!(store.effects().is_empty());
    assert_eq!(store.drain_effects(), Vec::<u32>::new());
    assert_eq!(store.state(), &Counter(10));
    store.transition(1);
    assert_eq!(store.drain_effects(), vec![11]);
}

#[test]
fn run_effects_runs_the_runner_on_each_effect() {
    let mut run = RunEffects::new(Counter(1), |effect: u32| format!("now {}", effect));
    assert_eq!(run.transition(2), "now 3");
    assert_eq!(run.transition(4), "now 7");
    assert_eq!(run.state(), &Counter(7));
}

#[test]
fn run_effects_starts_from_the_default_state() {
    let mut run: RunEffects<Counter, u32, _> = RunEffects::initial(|effect: u32| effect * 2);
    assert_eq!(run.state(), &Counter(0));
    assert_eq!(run.transition(3), 6);
}

#[test]
fn act_holds_an_action_or_nothing() {
    let push: Act<u32> = Act::Push(7);
    let pop: Act<u32> = Act::Pop;
    assert!(matches!(push, Act::Push(7)));
    assert!(matches!(pop, Act::Pop));
}

#[test]
fn total_calls_its_function() {
    let double = Total::new(|x: u32| x * 2);
    assert_eq!(double.call(21), 42);
}

#[test]
fn share_is_shared_by_its_clones() {
    let first = Share::new(Counter(0));
    let mut second = first.clone();
    assert_eq!(second.transition(4), 4);
    assert_eq!(first.get(), Counter(4));
    assert_eq!(first.read(|c| c.0 + 1), 5);
    let list = Share::new(vec![1u8]);
    list.clone().push(2);
    assert_eq!(list.get(), vec![1, 2]);
}

#[test]
fn play_applies_actions_in_order() {
    let mut counter = Counter(0);
    assert_eq!(play(vec![1, 10, 100], &mut counter), vec![1, 11, 111]);
    assert_eq!(counter, Counter(111));
    assert_eq!(play(vec![], &mut counter), Vec::<u32>::new());
    assert_eq!(counter, Counter(111));
}

#[test]
fn recorded_actions_can_be_played_back() {
    let cassette: MemoryCassette<Counter> = MemoryCassette::new();
    let mut recorded: RecordActions<Counter, MemoryCassette<Counter>> =
        RecordActions::new(Some(cassette.clone()), Counter(0));
    assert_eq!(recorded.transition(2), 2);
    assert_eq!(recorded.transition(3), 5);
    assert_eq!(cassette.retrieve_actions().unwrap(), vec![2, 3]);
    assert_eq!(
        RecordActions::<Counter, MemoryCassette<Counter>>::retrieve_actions(cassette.clone())
            .unwrap(),
        vec![2, 3]
    );

    let mut fresh = Counter(0);
    assert_eq!(cassette.playback_actions(&mut fresh).unwrap(), vec![2, 5]);
    assert_eq!(fresh, Counter(5));
}

#[test]
fn without_a_recorder_nothing_is_recorded() {
    let none: Option<MemoryCassette<Counter>> = None;
    let mut plain: RecordActions<Counter, MemoryCassette<Counter>> =
        RecordActions::new(none, Counter(1));
    assert_eq!(plain.transition(1), 2);
    assert_eq!(plain.state(), &Counter(2));
}

#[test]
fn file_recorder_names_its_file() {
    let recorder: FileActionRecorder<Counter> = PathBuf::from("actions.stef").into();
    assert_eq!(recorder.path(), &PathBuf::from("actions.stef"));
}

#[test]
fn frame_puts_the_length_first() {
    assert_eq!(frame(&[]), Some(vec![0, 0, 0, 0]));
    assert_eq!(frame(&[9, 8, 7]), Some(vec![3, 0, 0, 0, 9, 8, 7]));
    let long = vec![1u8; 258];
    let framed = frame(&long).unwrap();
    assert_eq!(&framed[..4], &[2, 1, 0, 0]);
    assert_eq!(&framed[4..], &long[..]);
}

#[test]
fn unframe_reads_records_one_after_the_other() {
    assert_eq!(unframe(&[]), Some(vec![]));
    assert_eq!(unframe(&[0, 0, 0, 0]), Some(vec![vec![]]));
    assert_eq!(
        unframe(&[3, 0, 0, 0, 9, 8, 7, 0, 0, 0, 0, 1, 0, 0, 0, 5]),
        Some(vec![vec![9, 8, 7], vec![], vec![5]])
    );
}

#[test]
fn unframe_refuses_a_file_that_ends_within_a_record() {
    assert_eq!(unframe(&[3, 0, 0]), None);
    assert_eq!(unframe(&[3, 0, 0, 0, 9, 8]), None);
    assert_eq!(unframe(&[1, 0, 0, 0, 9, 2]), None);
    assert_eq!(unframe(&[0xff, 0xff, 0xff, 0xff]), None);
}

#[test]
fn unframe_recovers_what_was_framed() {
    let payloads: Vec<Vec<u8>> = vec![vec![], vec![1], vec![2, 3], vec![0; 300]];
    let mut file = Vec::new();
    for p in payloads.iter() {
        file.extend(frame(p).unwrap());
    }
    assert_eq!(unframe(&file), Some(payloads));
}

#[test]
fn diagram_holds_each_state_and_each_step_once() {
    // Walks over the states 0, 1, 2 under the labels 'a' and 'b'.
    let walks = vec![
        vec![('a', 1u8), ('b', 2), ('a', 1)],
        vec![('a', 1), ('a', 1), ('b', 0)],
        vec![],
    ];
    let d = state_diagram(0u8, walks);
    assert_eq!(d.node_count(), 3);
    assert_eq!(d.node(0), &0);
    assert_eq!(d.node(1), &1);
    assert_eq!(d.node(2), &2);
    let edges: Vec<(usize, usize, char)> =
        (0..d.edge_count()).map(|e| d.edge(e)).map(|(a, b, l)| (a, b, *l)).collect();
    assert_eq!(
        edges,
        vec![(0, 1, 'a'), (1, 2, 'b'), (2, 1, 'a'), (1, 1, 'a'), (1, 0, 'b')]
    );
}

#[test]
fn diagram_of_no_walks_is_the_first_state_alone() {
    let d = state_diagram::<u8, char>(7, vec![]);
    assert_eq!(d.node_count(), 1);
    assert_eq!(d.node(0), &7);
    assert_eq!(d.edge_count(), 0);
}

#[test]
fn replay_plays_what_was_read_or_hands_on_the_error() {
    let mut counter = Counter(1);
    let effects = replay(Ok(vec![2, 3]), &mut counter).unwrap();
    assert_eq!(effects, vec![3, 6]);
    assert_eq!(counter, Counter(6));

    let failed = replay(Err(anyhow::Error::msg("the record is gone")), &mut counter);
    assert_eq!(failed.unwrap_err().to_string(), "the record is gone");
    assert_eq!(counter, Counter(6));
}

#[test]
fn a_new_cassette_holds_no_actions() {
    let cassette: MemoryCassette<Counter> = MemoryCassette::new();
    assert_eq!(cassette.retrieve_actions().unwrap(), Vec::<u32>::new());
    let mut counter = Counter(9);
    assert_eq!(cassette.playback_actions(&mut counter).unwrap(), Vec::<u32>::new());
    assert_eq!(counter, Counter(9));
}
