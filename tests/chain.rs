use topn_state::chain::{Chain, ChainState, SnapshotFailure};

#[derive(Debug, Clone, PartialEq)]
enum Message {
    Chunk(i32),
    Barrier,
}

#[derive(Debug, Clone, PartialEq)]
enum ReadError {
    Eof,
}

/// An upstream that hands out its messages in order; a snapshot reports its
/// barrier as the end of the stream.
struct MockSource {
    messages: Vec<Message>,
    is_snapshot: bool,
}

impl MockSource {
    fn next(&mut self) -> Result<Message, ReadError> {
        let m = self.messages.remove(0);
        if self.is_snapshot && m == Message::Barrier {
            Err(ReadError::Eof)
        } else {
            Ok(m)
        }
    }
}

fn next(chain: &mut Chain<MockSource>) -> Result<Message, ReadError> {
    match chain.state() {
        ChainState::ReadingSnapshot => match chain.snapshot.next() {
            Ok(m) => Ok(m),
            Err(e) => match chain.on_snapshot_failure(e == ReadError::Eof) {
                SnapshotFailure::SwitchToMView => chain.mview.next(),
                SnapshotFailure::Propagate => Err(e),
            },
        },
        ChainState::ReadingMView => chain.mview.next(),
    }
}

#[test]
fn test_basic() {
    let first = MockSource {
        messages: vec![Message::Chunk(1), Message::Chunk(2), Message::Barrier],
        is_snapshot: true,
    };
    let second = MockSource {
        messages: vec![Message::Chunk(3), Message::Chunk(4), Message::Barrier],
        is_snapshot: false,
    };
    let mut chain = Chain::new(first, second);
    let mut count = 0;
    loop {
        let k = next(&mut chain).unwrap();
        count += 1;
        if let Message::Chunk(target) = k {
            assert_eq!(target, count);
        } else {
            assert!(matches!(k, Message::Barrier));
            return;
        }
    }
}
