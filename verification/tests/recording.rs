use aitia::stef::framing::{frame, unframe};
use aitia::stef::{ActionRecorder, RecordActions, Share, State};

/// Keeps actions as a file would hold them, each as MessagePack behind its
/// length, but in memory. Its clones write to the same bytes.
#[derive(Clone)]
struct Tape {
    name: &'static str,
    bytes: Share<Vec<u8>>,
}

impl Tape {
    fn named(name: &'static str) -> Self {
        Tape { name, bytes: Share::new(Vec::new()) }
    }
}

impl ActionRecorder<()> for Tape {
    fn initialize(&self) {
        assert!(self.bytes.get().is_empty(), "{} holds actions already", self.name);
    }

    fn record_action(&self, action: &()) {
        let bytes = rmp_serde::to_vec(action).unwrap();
        for byte in frame(&bytes).unwrap() {
            self.bytes.push(byte);
        }
    }

    fn retrieve_actions(&self) -> anyhow::Result<Vec<()>> {
        let payloads = unframe(&self.bytes.get())
            .ok_or_else(|| anyhow::Error::msg(format!("{} ends within an action", self.name)))?;
        Ok(payloads.iter().map(|p| rmp_serde::from_slice(p).unwrap()).collect())
    }
}

#[test]
fn action_recording_roundtrip() {
    let tape = Tape::named("actions.stef");
    let mut rec: RecordActions<(), Tape> = RecordActions::new(Some(tape.clone()), ());
    rec.transition(());
    rec.transition(());
    rec.transition(());
    let actions: Vec<()> = RecordActions::<(), Tape>::retrieve_actions(tape).unwrap();
    assert_eq!(actions, vec![(), (), ()]);
}

#[test]
fn each_recorded_action_is_one_record() {
    let tape = Tape::named("actions.stef");
    let mut rec: RecordActions<(), Tape> = RecordActions::new(Some(tape.clone()), ());
    rec.transition(());
    rec.transition(());
    // `()` is one byte of MessagePack, behind a length of one.
    assert_eq!(tape.bytes.get(), vec![1, 0, 0, 0, 0xc0, 1, 0, 0, 0, 0xc0]);
}

#[test]
fn a_record_that_was_cut_short_cannot_be_read() {
    let tape = Tape::named("actions.stef");
    tape.record_action(&());
    tape.bytes.push(1);
    assert!(tape.retrieve_actions().is_err());
}
