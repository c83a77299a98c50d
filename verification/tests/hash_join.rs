//! Hash joins of whole streams: messages go in on both sides, and the messages that come out are
//! compared.
use std::collections::VecDeque;

use rw_core::JoinType::{
    FullOuter, Inner, LeftAnti, LeftOuter, LeftSemi, RightAnti, RightOuter, RightSemi,
};
use rw_core::SideType::{Left as LeftSide, Right as RightSide};
use rw_core::chunk::{Op, StreamChunk};
use rw_core::hash_join::{HashJoinExecutor, JoinParams};
use rw_core::join_state::{JoinRow, StateWrite};
use rw_core::join_step::{EvalError, HashJoinError};
use rw_core::join_stream::{Action, AlignedMessage, Barrier, Epoch, JoinStream, KeyType};
use rw_core::row::Row;
use rw_core::schema::{DataType, Field, Schema};

type Cond = fn(&Row, &Vec<DataType>) -> Result<Vec<Option<bool>>, EvalError>;

enum Message {
    Chunk(StreamChunk),
    Barrier(Barrier<Option<u8>>),
}

fn into_chunk(message: Message) -> StreamChunk {
    match message {
        Message::Chunk(chunk) => chunk,
        Message::Barrier(_) => panic!("a barrier"),
    }
}

fn datum(text: &str) -> Option<Vec<u8>> {
    if text == "." {
        None
    } else {
        Some(text.parse::<i64>().unwrap().to_be_bytes().to_vec())
    }
}

/// A chunk from text: a line of column types, and a line for each change.
fn from_pretty(text: &str) -> StreamChunk {
    let mut lines = text.lines();
    let width = lines.next().unwrap().split_whitespace().count();
    let mut ops = vec![];
    let mut rows = vec![];
    for line in lines {
        let mut words = line.split_whitespace();
        ops.push(match words.next().unwrap() {
            "+" => Op::Insert,
            "-" => Op::Delete,
            "U-" => Op::UpdateDelete,
            "U+" => Op::UpdateInsert,
            other => panic!("{}", other),
        });
        let row: Vec<_> = words.map(datum).collect();
        assert_eq!(row.len(), width);
        rows.push(Row(row));
    }
    StreamChunk { ops, rows, visibility: None, width }
}

/// One input of a join.
#[derive(Default)]
struct Input {
    messages: VecDeque<Result<StreamChunk, u64>>,
}

impl Input {
    fn push_chunk(&mut self, chunk: StreamChunk) {
        self.messages.push_back(Ok(chunk));
    }

    fn push_barrier(&mut self, epoch: u64) {
        self.messages.push_back(Err(epoch));
    }
}

/// A join with its inputs and a state store in memory.
struct Join<const T: u8> {
    left: Input,
    right: Input,
    store: Vec<(u8, Row, Row, JoinRow)>,
    fetching: VecDeque<KeyType>,
    stream: JoinStream<Cond, Option<u8>, T>,
    out: VecDeque<Message>,
}

impl<const T: u8> Join<T> {
    fn new(executor: HashJoinExecutor<Cond, T>) -> Self {
        Join {
            left: Input::default(),
            right: Input::default(),
            store: vec![],
            fetching: VecDeque::new(),
            stream: executor.into_stream(),
            out: VecDeque::new(),
        }
    }

    /// The next message of the inputs, aligned at their barriers.
    fn aligned(&mut self) -> Option<AlignedMessage<Option<u8>>> {
        if let Some(Ok(_)) = self.left.messages.front() {
            return self.left.messages.pop_front().map(|c| AlignedMessage::Left(c.unwrap()));
        }
        if let Some(Ok(_)) = self.right.messages.front() {
            return self.right.messages.pop_front().map(|c| AlignedMessage::Right(c.unwrap()));
        }
        if self.left.messages.is_empty() || self.right.messages.is_empty() {
            return None;
        }
        let curr = self.left.messages.pop_front().unwrap().unwrap_err();
        assert_eq!(self.right.messages.pop_front(), Some(Err(curr)));
        Some(AlignedMessage::Barrier(Barrier {
            epoch: Epoch { curr, prev: curr - 1 },
            payload: None,
        }))
    }

    fn stored(&self, key: &KeyType) -> Vec<(Row, JoinRow)> {
        let (side, key) = match key {
            KeyType::Left(key) => (LeftSide, key),
            KeyType::Right(key) => (RightSide, key),
        };
        self.store
            .iter()
            .filter(|(s, k, _, _)| *s == side && k == key)
            .map(|(_, _, pk, row)| (pk.clone(), row.copy()))
            .collect()
    }

    fn write(&mut self, side: u8, writes: Vec<StateWrite>) {
        for write in writes {
            self.store.retain(|(s, k, pk, _)| !(*s == side && *k == write.key && *pk == write.pk));
            if let Some(row) = write.row {
                self.store.push((side, write.key, write.pk, row));
            }
        }
    }

    /// Runs the join until it puts out a message.
    fn next(&mut self) -> Message {
        if let Some(message) = self.out.pop_front() {
            return message;
        }
        let mut action = self.stream.advance();
        let mut idle = 0;
        loop {
            action = match action {
                Action::PollInput => match self.aligned() {
                    Some(message) => {
                        let (fetches, action) = self.stream.on_message(message);
                        self.fetching.extend(fetches);
                        action
                    }
                    None => self.stream.on_input_pending(),
                },
                Action::PollFetches => match self.fetching.pop_front() {
                    Some(key) => {
                        let rows = self.stored(&key);
                        assert!(self.stream.on_fetched(key, rows));
                        Action::PollFetches
                    }
                    None => self.stream.on_fetches_pending(),
                },
                Action::Sleep => {
                    idle += 1;
                    assert!(idle < 10);
                    self.stream.advance()
                }
                Action::Load(keys) => {
                    for key in keys {
                        let rows = self.stored(&key);
                        self.stream.on_loaded(key, rows);
                    }
                    self.stream.on_fetches_pending()
                }
                Action::Output(output) => {
                    assert_eq!(output.error, None);
                    self.out.extend(output.chunks.into_iter().map(Message::Chunk));
                    return self.out.pop_front().unwrap();
                }
                Action::Flush(flushed, barrier) => {
                    self.write(LeftSide, flushed.left);
                    self.write(RightSide, flushed.right);
                    return Message::Barrier(barrier);
                }
                Action::DegreeOverflow => panic!("a degree is too large"),
                Action::Finish => panic!("the stream is over"),
            };
        }
    }
}

fn less_than(row: &Row, _types: &Vec<DataType>) -> Result<Vec<Option<bool>>, EvalError> {
    let value = |i: usize| -> Option<i64> {
        row.0[i].as_ref().map(|bytes| i64::from_be_bytes(bytes.clone().try_into().unwrap()))
    };
    Ok(vec![match (value(1), value(3)) {
        (Some(a), Some(b)) => Some(a < b),
        _ => None,
    }])
}

fn int_columns(count: usize) -> Schema {
    Schema { fields: (0..count).map(|_| Field::unnamed(DataType::Int64)).collect() }
}

fn create_executor<const T: u8>(with_condition: bool) -> Join<T> {
    let schema = int_columns(2);
    let cond: Option<Cond> = if with_condition { Some(less_than) } else { None };
    Join::new(HashJoinExecutor::<Cond, T>::new(
        &schema,
        vec![0, 1],
        &schema,
        vec![0, 1],
        JoinParams::new(vec![0]),
        JoinParams::new(vec![0]),
        vec![1],
        1,
        cond,
        "HashJoinExecutor".to_string(),
        vec![],
        false,
        64,
        u64::MAX,
    ))
}

fn create_append_only_executor<const T: u8>(with_condition: bool) -> Join<T> {
    let schema = int_columns(3);
    let cond: Option<Cond> = if with_condition { Some(less_than) } else { None };
    Join::new(HashJoinExecutor::<Cond, T>::new(
        &schema,
        vec![0],
        &schema,
        vec![0],
        JoinParams::new(vec![0, 1]),
        JoinParams::new(vec![0, 1]),
        vec![1],
        1,
        cond,
        "HashJoinExecutor".to_string(),
        vec![],
        true,
        64,
        u64::MAX,
    ))
}

#[test]
fn test_streaming_hash_inner_join() {
    let chunk_l1 = from_pretty(
        "  I I
         + 1 4
         + 2 5
         + 3 6",
    );
    let chunk_l2 = from_pretty(
        "  I I
         + 3 8
         - 3 8",
    );
    let chunk_r1 = from_pretty(
        "  I I
         + 2 7
         + 4 8
         + 6 9",
    );
    let chunk_r2 = from_pretty(
        "  I  I
         + 3 10
         + 6 11",
    );
    let mut hash_join = create_executor::<Inner>(false);

    // push the init barrier for left and right
    hash_join.left.push_barrier(1);
    hash_join.right.push_barrier(1);
    hash_join.next();

    // push the 1st left chunk
    hash_join.left.push_chunk(chunk_l1);
    let chunk = hash_join.next();
    assert_eq!(
        into_chunk(chunk),
        from_pretty("I I I I")
    );

    // push the init barrier for left and right
    hash_join.left.push_barrier(1);
    hash_join.right.push_barrier(1);
    hash_join.next();

    // push the 2nd left chunk
    hash_join.left.push_chunk(chunk_l2);
    let chunk = hash_join.next();
    assert_eq!(
        into_chunk(chunk),
        from_pretty("I I I I")
    );

    // push the 1st right chunk
    hash_join.right.push_chunk(chunk_r1);
    let chunk = hash_join.next();
    assert_eq!(
        into_chunk(chunk),
        from_pretty(
            " I I I I
            + 2 5 2 7"
        )
    );

    // push the 2nd right chunk
    hash_join.right.push_chunk(chunk_r2);
    let chunk = hash_join.next();
    assert_eq!(
        into_chunk(chunk),
        from_pretty(
            " I I I I
            + 3 6 3 10"
        )
    );
}

#[test]
fn test_streaming_hash_left_semi_join() {
    let chunk_l1 = from_pretty(
        "  I I
         + 1 4
         + 2 5
         + 3 6",
    );
    let chunk_l2 = from_pretty(
        "  I I
         + 3 8
         - 3 8",
    );
    let chunk_r1 = from_pretty(
        "  I I
         + 2 7
         + 4 8
         + 6 9",
    );
    let chunk_r2 = from_pretty(
        "  I  I
         + 3 10
         + 6 11",
    );
    let chunk_l3 = from_pretty(
        "  I I
         + 6 10",
    );
    let chunk_r3 = from_pretty(
        "  I  I
         - 6 11",
    );
    let chunk_r4 = from_pretty(
        "  I  I
         - 6 9",
    );
    let mut hash_join = create_executor::<LeftSemi>(false);

    // push the init barrier for left and right
    hash_join.left.push_barrier(1);
    hash_join.right.push_barrier(1);
    hash_join.next();

    // push the 1st left chunk
    hash_join.left.push_chunk(chunk_l1);
    let chunk = hash_join.next();
    assert_eq!(into_chunk(chunk), from_pretty("I I"));

    // push the init barrier for left and right
    hash_join.left.push_barrier(1);
    hash_join.right.push_barrier(1);
    hash_join.next();

    // push the 2nd left chunk
    hash_join.left.push_chunk(chunk_l2);
    let chunk = hash_join.next();
    assert_eq!(into_chunk(chunk), from_pretty("I I"));

    // push the 1st right chunk
    hash_join.right.push_chunk(chunk_r1);
    let chunk = hash_join.next();
    assert_eq!(
        into_chunk(chunk),
        from_pretty(
            " I I
            + 2 5"
        )
    );

    // push the 2nd right chunk
    hash_join.right.push_chunk(chunk_r2);
    let chunk = hash_join.next();
    assert_eq!(
        into_chunk(chunk),
        from_pretty(
            " I I
            + 3 6"
        )
    );

    // push the 3rd left chunk (tests forward_exactly_once)
    hash_join.left.push_chunk(chunk_l3);
    let chunk = hash_join.next();
    assert_eq!(
        into_chunk(chunk),
        from_pretty(
            " I I
            + 6 10"
        )
    );

    // push the 3rd right chunk
    // (tests that no change if there are still matches)
    hash_join.right.push_chunk(chunk_r3);
    let chunk = hash_join.next();
    assert_eq!(into_chunk(chunk), from_pretty("I I"));

    // push the 3rd left chunk
    // (tests that deletion occurs when there are no more matches)
    hash_join.right.push_chunk(chunk_r4);
    let chunk = hash_join.next();
    assert_eq!(
        into_chunk(chunk),
        from_pretty(
            " I I
            - 6 10"
        )
    );
}

#[test]
fn test_streaming_hash_inner_join_append_only() {
    let chunk_l1 = from_pretty(
        "  I I I
         + 1 4 1
         + 2 5 2
         + 3 6 3",
    );
    let chunk_l2 = from_pretty(
        "  I I I
         + 4 9 4
         + 5 10 5",
    );
    let chunk_r1 = from_pretty(
        "  I I I
         + 2 5 1
         + 4 9 2
         + 6 9 3",
    );
    let chunk_r2 = from_pretty(
        "  I I I
         + 1 4 4
         + 3 6 5",
    );

    let mut hash_join = create_append_only_executor::<Inner>(false);

    // push the init barrier for left and right
    hash_join.left.push_barrier(1);
    hash_join.right.push_barrier(1);
    hash_join.next();

    // push the 1st left chunk
    hash_join.left.push_chunk(chunk_l1);
    let chunk = hash_join.next();
    assert_eq!(
        into_chunk(chunk),
        from_pretty("I I I I I I")
    );

    // push the init barrier for left and right
    hash_join.left.push_barrier(1);
    hash_join.right.push_barrier(1);
    hash_join.next();

    // push the 2nd left chunk
    hash_join.left.push_chunk(chunk_l2);
    let chunk = hash_join.next();
    assert_eq!(
        into_chunk(chunk),
        from_pretty("I I I I I I")
    );

    // push the 1st right chunk
    hash_join.right.push_chunk(chunk_r1);
    let chunk = hash_join.next();
    assert_eq!(
        into_chunk(chunk),
        from_pretty(
            " I I I I I I
            + 2 5 2 2 5 1
            + 4 9 4 4 9 2"
        )
    );

    // push the 2nd right chunk
    hash_join.right.push_chunk(chunk_r2);
    let chunk = hash_join.next();
    assert_eq!(
        into_chunk(chunk),
        from_pretty(
            " I I I I I I
            + 1 4 1 1 4 4
            + 3 6 3 3 6 5"
        )
    );
}

#[test]
fn test_streaming_hash_left_semi_join_append_only() {
    let chunk_l1 = from_pretty(
        "  I I I
         + 1 4 1
         + 2 5 2
         + 3 6 3",
    );
    let chunk_l2 = from_pretty(
        "  I I I
         + 4 9 4
         + 5 10 5",
    );
    let chunk_r1 = from_pretty(
        "  I I I
         + 2 5 1
         + 4 9 2
         + 6 9 3",
    );
    let chunk_r2 = from_pretty(
        "  I I I
         + 1 4 4
         + 3 6 5",
    );

    let mut hash_join = create_append_only_executor::<LeftSemi>(false);

    // push the init barrier for left and right
    hash_join.left.push_barrier(1);
    hash_join.right.push_barrier(1);
    hash_join.next();

    // push the 1st left chunk
    hash_join.left.push_chunk(chunk_l1);
    let chunk = hash_join.next();
    assert_eq!(
        into_chunk(chunk),
        from_pretty("I I I")
    );

    // push the init barrier for left and right
    hash_join.left.push_barrier(1);
    hash_join.right.push_barrier(1);
    hash_join.next();

    // push the 2nd left chunk
    hash_join.left.push_chunk(chunk_l2);
    let chunk = hash_join.next();
    assert_eq!(
        into_chunk(chunk),
        from_pretty("I I I")
    );

    // push the 1st right chunk
    hash_join.right.push_chunk(chunk_r1);
    let chunk = hash_join.next();
    assert_eq!(
        into_chunk(chunk),
        from_pretty(
            " I I I
            + 2 5 2
            + 4 9 4"
        )
    );

    // push the 2nd right chunk
    hash_join.right.push_chunk(chunk_r2);
    let chunk = hash_join.next();
    assert_eq!(
        into_chunk(chunk),
        from_pretty(
            " I I I
            + 1 4 1
            + 3 6 3"
        )
    );
}

#[test]
fn test_streaming_hash_right_semi_join_append_only() {
    let chunk_l1 = from_pretty(
        "  I I I
         + 1 4 1
         + 2 5 2
         + 3 6 3",
    );
    let chunk_l2 = from_pretty(
        "  I I I
         + 4 9 4
         + 5 10 5",
    );
    let chunk_r1 = from_pretty(
        "  I I I
         + 2 5 1
         + 4 9 2
         + 6 9 3",
    );
    let chunk_r2 = from_pretty(
        "  I I I
         + 1 4 4
         + 3 6 5",
    );

    let mut hash_join = create_append_only_executor::<RightSemi>(false);

    // push the init barrier for left and right
    hash_join.left.push_barrier(1);
    hash_join.right.push_barrier(1);
    hash_join.next();

    // push the 1st left chunk
    hash_join.left.push_chunk(chunk_l1);
    let chunk = hash_join.next();
    assert_eq!(
        into_chunk(chunk),
        from_pretty("I I I")
    );

    // push the init barrier for left and right
    hash_join.left.push_barrier(1);
    hash_join.right.push_barrier(1);
    hash_join.next();

    // push the 2nd left chunk
    hash_join.left.push_chunk(chunk_l2);
    let chunk = hash_join.next();
    assert_eq!(
        into_chunk(chunk),
        from_pretty("I I I")
    );

    // push the 1st right chunk
    hash_join.right.push_chunk(chunk_r1);
    let chunk = hash_join.next();
    assert_eq!(
        into_chunk(chunk),
        from_pretty(
            " I I I
            + 2 5 1
            + 4 9 2"
        )
    );

    // push the 2nd right chunk
    hash_join.right.push_chunk(chunk_r2);
    let chunk = hash_join.next();
    assert_eq!(
        into_chunk(chunk),
        from_pretty(
            " I I I
            + 1 4 4
            + 3 6 5"
        )
    );
}

#[test]
fn test_streaming_hash_right_semi_join() {
    let chunk_r1 = from_pretty(
        "  I I
         + 1 4
         + 2 5
         + 3 6",
    );
    let chunk_r2 = from_pretty(
        "  I I
         + 3 8
         - 3 8",
    );
    let chunk_l1 = from_pretty(
        "  I I
         + 2 7
         + 4 8
         + 6 9",
    );
    let chunk_l2 = from_pretty(
        "  I  I
         + 3 10
         + 6 11",
    );
    let chunk_r3 = from_pretty(
        "  I I
         + 6 10",
    );
    let chunk_l3 = from_pretty(
        "  I  I
         - 6 11",
    );
    let chunk_l4 = from_pretty(
        "  I  I
         - 6 9",
    );
    let mut hash_join = create_executor::<RightSemi>(false);

    // push the init barrier for left and right
    hash_join.left.push_barrier(1);
    hash_join.right.push_barrier(1);
    hash_join.next();

    // push the 1st right chunk
    hash_join.right.push_chunk(chunk_r1);
    let chunk = hash_join.next();
    assert_eq!(into_chunk(chunk), from_pretty("I I"));

    // push the init barrier for left and right
    hash_join.left.push_barrier(1);
    hash_join.right.push_barrier(1);
    hash_join.next();

    // push the 2nd right chunk
    hash_join.right.push_chunk(chunk_r2);
    let chunk = hash_join.next();
    assert_eq!(into_chunk(chunk), from_pretty("I I"));

    // push the 1st left chunk
    hash_join.left.push_chunk(chunk_l1);
    let chunk = hash_join.next();
    assert_eq!(
        into_chunk(chunk),
        from_pretty(
            " I I
            + 2 5"
        )
    );

    // push the 2nd left chunk
    hash_join.left.push_chunk(chunk_l2);
    let chunk = hash_join.next();
    assert_eq!(
        into_chunk(chunk),
        from_pretty(
            " I I
            + 3 6"
        )
    );

    // push the 3rd right chunk (tests forward_exactly_once)
    hash_join.right.push_chunk(chunk_r3);
    let chunk = hash_join.next();
    assert_eq!(
        into_chunk(chunk),
        from_pretty(
            " I I
            + 6 10"
        )
    );

    // push the 3rd left chunk
    // (tests that no change if there are still matches)
    hash_join.left.push_chunk(chunk_l3);
    let chunk = hash_join.next();
    assert_eq!(into_chunk(chunk), from_pretty("I I"));

    // push the 3rd right chunk
    // (tests that deletion occurs when there are no more matches)
    hash_join.left.push_chunk(chunk_l4);
    let chunk = hash_join.next();
    assert_eq!(
        into_chunk(chunk),
        from_pretty(
            " I I
            - 6 10"
        )
    );
}

#[test]
fn test_streaming_hash_left_anti_join() {
    let chunk_l1 = from_pretty(
        "  I I
         + 1 4
         + 2 5
         + 3 6",
    );
    let chunk_l2 = from_pretty(
        "  I I
         + 3 8
         - 3 8",
    );
    let chunk_r1 = from_pretty(
        "  I I
         + 2 7
         + 4 8
         + 6 9",
    );
    let chunk_r2 = from_pretty(
        "  I  I
         + 3 10
         + 6 11
         + 1 2
         + 1 3",
    );
    let chunk_l3 = from_pretty(
        "  I I
         + 9 10",
    );
    let chunk_r3 = from_pretty(
        "  I I
         - 1 2",
    );
    let chunk_r4 = from_pretty(
        "  I I
         - 1 3",
    );
    let mut hash_join = create_executor::<LeftAnti>(false);

    // push the init barrier for left and right
    hash_join.left.push_barrier(1);
    hash_join.right.push_barrier(1);
    hash_join.next();

    // push the 1st left chunk
    hash_join.left.push_chunk(chunk_l1);
    let chunk = hash_join.next();
    assert_eq!(
        into_chunk(chunk),
        from_pretty(
            " I I
            + 1 4
            + 2 5
            + 3 6",
        )
    );

    // push the init barrier for left and right
    hash_join.left.push_barrier(1);
    hash_join.right.push_barrier(1);
    hash_join.next();

    // push the 2nd left chunk
    hash_join.left.push_chunk(chunk_l2);
    let chunk = hash_join.next();
    assert_eq!(
        into_chunk(chunk),
        from_pretty(
            "  I I
             + 3 8
             - 3 8",
        )
    );

    // push the 1st right chunk
    hash_join.right.push_chunk(chunk_r1);
    let chunk = hash_join.next();
    assert_eq!(
        into_chunk(chunk),
        from_pretty(
            " I I
            - 2 5"
        )
    );

    // push the 2nd right chunk
    hash_join.right.push_chunk(chunk_r2);
    let chunk = hash_join.next();
    assert_eq!(
        into_chunk(chunk),
        from_pretty(
            " I I
            - 3 6
            - 1 4"
        )
    );

    // push the 3rd left chunk (tests forward_exactly_once)
    hash_join.left.push_chunk(chunk_l3);
    let chunk = hash_join.next();
    assert_eq!(
        into_chunk(chunk),
        from_pretty(
            " I I
            + 9 10"
        )
    );

    // push the 3rd right chunk
    // (tests that no change if there are still matches)
    hash_join.right.push_chunk(chunk_r3);
    let chunk = hash_join.next();
    assert_eq!(into_chunk(chunk), from_pretty("I I"));

    // push the 4th right chunk
    // (tests that insertion occurs when there are no more matches)
    hash_join.right.push_chunk(chunk_r4);
    let chunk = hash_join.next();
    assert_eq!(
        into_chunk(chunk),
        from_pretty(
            " I I
            + 1 4"
        )
    );
}

#[test]
fn test_streaming_hash_right_anti_join() {
    let chunk_r1 = from_pretty(
        "  I I
         + 1 4
         + 2 5
         + 3 6",
    );
    let chunk_r2 = from_pretty(
        "  I I
         + 3 8
         - 3 8",
    );
    let chunk_l1 = from_pretty(
        "  I I
         + 2 7
         + 4 8
         + 6 9",
    );
    let chunk_l2 = from_pretty(
        "  I  I
         + 3 10
         + 6 11
         + 1 2
         + 1 3",
    );
    let chunk_r3 = from_pretty(
        "  I I
         + 9 10",
    );
    let chunk_l3 = from_pretty(
        "  I I
         - 1 2",
    );
    let chunk_l4 = from_pretty(
        "  I I
         - 1 3",
    );
    let mut hash_join = create_executor::<LeftAnti>(false);

    // push the init barrier for left and right
    hash_join.left.push_barrier(1);
    hash_join.right.push_barrier(1);
    hash_join.next();

    // push the 1st right chunk
    hash_join.left.push_chunk(chunk_r1);
    let chunk = hash_join.next();
    assert_eq!(
        into_chunk(chunk),
        from_pretty(
            " I I
            + 1 4
            + 2 5
            + 3 6",
        )
    );

    // push the init barrier for left and right
    hash_join.left.push_barrier(1);
    hash_join.right.push_barrier(1);
    hash_join.next();

    // push the 2nd right chunk
    hash_join.left.push_chunk(chunk_r2);
    let chunk = hash_join.next();
    assert_eq!(
        into_chunk(chunk),
        from_pretty(
            "  I I
             + 3 8
             - 3 8",
        )
    );

    // push the 1st left chunk
    hash_join.right.push_chunk(chunk_l1);
    let chunk = hash_join.next();
    assert_eq!(
        into_chunk(chunk),
        from_pretty(
            " I I
            - 2 5"
        )
    );

    // push the 2nd left chunk
    hash_join.right.push_chunk(chunk_l2);
    let chunk = hash_join.next();
    assert_eq!(
        into_chunk(chunk),
        from_pretty(
            " I I
            - 3 6
            - 1 4"
        )
    );

    // push the 3rd right chunk (tests forward_exactly_once)
    hash_join.left.push_chunk(chunk_r3);
    let chunk = hash_join.next();
    assert_eq!(
        into_chunk(chunk),
        from_pretty(
            " I I
            + 9 10"
        )
    );

    // push the 3rd left chunk
    // (tests that no change if there are still matches)
    hash_join.right.push_chunk(chunk_l3);
    let chunk = hash_join.next();
    assert_eq!(into_chunk(chunk), from_pretty("I I"));

    // push the 4th left chunk
    // (tests that insertion occurs when there are no more matches)
    hash_join.right.push_chunk(chunk_l4);
    let chunk = hash_join.next();
    assert_eq!(
        into_chunk(chunk),
        from_pretty(
            " I I
            + 1 4"
        )
    );
}

#[test]
fn test_streaming_hash_inner_join_with_barrier() {
    let chunk_l1 = from_pretty(
        "  I I
         + 1 4
         + 2 5
         + 3 6",
    );
    let chunk_l2 = from_pretty(
        "  I I
         + 6 8
         + 3 8",
    );
    let chunk_r1 = from_pretty(
        "  I I
         + 2 7
         + 4 8
         + 6 9",
    );
    let chunk_r2 = from_pretty(
        "  I  I
         + 3 10
         + 6 11",
    );
    let mut hash_join = create_executor::<Inner>(false);

    // push the init barrier for left and right
    hash_join.left.push_barrier(1);
    hash_join.right.push_barrier(1);
    hash_join.next();

    // push the 1st left chunk
    hash_join.left.push_chunk(chunk_l1);
    let chunk = hash_join.next();
    assert_eq!(
        into_chunk(chunk),
        from_pretty("I I I I")
    );

    // push a barrier to left side
    hash_join.left.push_barrier(2);

    // push the 2nd left chunk
    hash_join.left.push_chunk(chunk_l2);

    // join the first right chunk
    hash_join.right.push_chunk(chunk_r1);

    // Consume stream chunk
    let chunk = hash_join.next();
    assert_eq!(
        into_chunk(chunk),
        from_pretty(
            " I I I I
            + 2 5 2 7"
        )
    );

    // push a barrier to right side
    hash_join.right.push_barrier(2);

    // get the aligned barrier here
    let expected_epoch = Epoch { curr: 2, prev: 1 };
    assert!(matches!(
        hash_join.next(),
        Message::Barrier(Barrier {
            epoch,
            payload: None,
        }) if epoch == expected_epoch
    ));

    // join the 2nd left chunk
    let chunk = hash_join.next();
    assert_eq!(
        into_chunk(chunk),
        from_pretty(
            " I I I I
            + 6 8 6 9"
        )
    );

    // push the 2nd right chunk
    hash_join.right.push_chunk(chunk_r2);
    let chunk = hash_join.next();
    assert_eq!(
        into_chunk(chunk),
        from_pretty(
            " I I I I
            + 3 6 3 10
            + 3 8 3 10
            + 6 8 6 11"
        )
    );
}

#[test]
fn test_streaming_hash_inner_join_with_null_and_barrier() {
    let chunk_l1 = from_pretty(
        "  I I
         + 1 4
         + 2 .
         + 3 .",
    );
    let chunk_l2 = from_pretty(
        "  I I
         + 6 .
         + 3 8",
    );
    let chunk_r1 = from_pretty(
        "  I I
         + 2 7
         + 4 8
         + 6 9",
    );
    let chunk_r2 = from_pretty(
        "  I  I
         + 3 10
         + 6 11",
    );
    let mut hash_join = create_executor::<Inner>(false);

    // push the init barrier for left and right
    hash_join.left.push_barrier(1);
    hash_join.right.push_barrier(1);
    hash_join.next();

    // push the 1st left chunk
    hash_join.left.push_chunk(chunk_l1);
    let chunk = hash_join.next();
    assert_eq!(
        into_chunk(chunk),
        from_pretty("I I I I")
    );

    // push a barrier to left side
    hash_join.left.push_barrier(2);

    // push the 2nd left chunk
    hash_join.left.push_chunk(chunk_l2);

    // join the first right chunk
    hash_join.right.push_chunk(chunk_r1);

    // Consume stream chunk
    let chunk = hash_join.next();
    assert_eq!(
        into_chunk(chunk),
        from_pretty(
            " I I I I
            + 2 . 2 7"
        )
    );

    // push a barrier to right side
    hash_join.right.push_barrier(2);

    // get the aligned barrier here
    let expected_epoch = Epoch { curr: 2, prev: 1 };
    assert!(matches!(
        hash_join.next(),
        Message::Barrier(Barrier {
            epoch,
            payload: None,
        }) if epoch == expected_epoch
    ));

    // join the 2nd left chunk
    let chunk = hash_join.next();
    assert_eq!(
        into_chunk(chunk),
        from_pretty(
            " I I I I
            + 6 . 6 9"
        )
    );

    // push the 2nd right chunk
    hash_join.right.push_chunk(chunk_r2);
    let chunk = hash_join.next();
    assert_eq!(
        into_chunk(chunk),
        from_pretty(
            " I I I I
            + 3 . 3 10
            + 3 8 3 10
            + 6 . 6 11"
        )
    );
}

#[test]
fn test_streaming_hash_left_join() {
    let chunk_l1 = from_pretty(
        "  I I
         + 1 4
         + 2 5
         + 3 6",
    );
    let chunk_l2 = from_pretty(
        "  I I
         + 3 8
         - 3 8",
    );
    let chunk_r1 = from_pretty(
        "  I I
         + 2 7
         + 4 8
         + 6 9",
    );
    let chunk_r2 = from_pretty(
        "  I  I
         + 3 10
         + 6 11",
    );
    let mut hash_join = create_executor::<LeftOuter>(false);

    // push the init barrier for left and right
    hash_join.left.push_barrier(1);
    hash_join.right.push_barrier(1);
    hash_join.next();

    // push the 1st left chunk
    hash_join.left.push_chunk(chunk_l1);
    let chunk = hash_join.next();
    assert_eq!(
        into_chunk(chunk),
        from_pretty(
            " I I I I
            + 1 4 . .
            + 2 5 . .
            + 3 6 . ."
        )
    );

    // push the 2nd left chunk
    hash_join.left.push_chunk(chunk_l2);
    let chunk = hash_join.next();
    assert_eq!(
        into_chunk(chunk),
        from_pretty(
            " I I I I
            + 3 8 . .
            - 3 8 . ."
        )
    );

    // push the 1st right chunk
    hash_join.right.push_chunk(chunk_r1);
    let chunk = hash_join.next();
    assert_eq!(
        into_chunk(chunk),
        from_pretty(
            "  I I I I
            U- 2 5 . .
            U+ 2 5 2 7"
        )
    );

    // push the 2nd right chunk
    hash_join.right.push_chunk(chunk_r2);
    let chunk = hash_join.next();
    assert_eq!(
        into_chunk(chunk),
        from_pretty(
            "  I I I I
            U- 3 6 . .
            U+ 3 6 3 10"
        )
    );
}

#[test]
fn test_streaming_hash_right_join() {
    let chunk_l1 = from_pretty(
        "  I I
         + 1 4
         + 2 5
         + 3 6",
    );
    let chunk_l2 = from_pretty(
        "  I I
         + 3 8
         - 3 8",
    );
    let chunk_r1 = from_pretty(
        "  I I
         + 2 7
         + 4 8
         + 6 9",
    );
    let chunk_r2 = from_pretty(
        "  I  I
         + 5 10
         - 5 10",
    );
    let mut hash_join = create_executor::<RightOuter>(false);

    // push the init barrier for left and right
    hash_join.left.push_barrier(1);
    hash_join.right.push_barrier(1);
    hash_join.next();

    // push the 1st left chunk
    hash_join.left.push_chunk(chunk_l1);
    let chunk = hash_join.next();
    assert_eq!(
        into_chunk(chunk),
        from_pretty("I I I I")
    );

    // push the 2nd left chunk
    hash_join.left.push_chunk(chunk_l2);
    let chunk = hash_join.next();
    assert_eq!(
        into_chunk(chunk),
        from_pretty("I I I I")
    );

    // push the 1st right chunk
    hash_join.right.push_chunk(chunk_r1);
    let chunk = hash_join.next();
    assert_eq!(
        into_chunk(chunk),
        from_pretty(
            " I I I I
            + 2 5 2 7
            + . . 4 8
            + . . 6 9"
        )
    );

    // push the 2nd right chunk
    hash_join.right.push_chunk(chunk_r2);
    let chunk = hash_join.next();
    assert_eq!(
        into_chunk(chunk),
        from_pretty(
            " I I I I
            + . . 5 10
            - . . 5 10"
        )
    );
}

#[test]
fn test_streaming_hash_left_join_append_only() {
    let chunk_l1 = from_pretty(
        "  I I I
         + 1 4 1
         + 2 5 2
         + 3 6 3",
    );
    let chunk_l2 = from_pretty(
        "  I I I
         + 4 9 4
         + 5 10 5",
    );
    let chunk_r1 = from_pretty(
        "  I I I
         + 2 5 1
         + 4 9 2
         + 6 9 3",
    );
    let chunk_r2 = from_pretty(
        "  I I I
         + 1 4 4
         + 3 6 5",
    );

    let mut hash_join = create_append_only_executor::<LeftOuter>(false);

    // push the init barrier for left and right
    hash_join.left.push_barrier(1);
    hash_join.right.push_barrier(1);
    hash_join.next();

    // push the 1st left chunk
    hash_join.left.push_chunk(chunk_l1);
    let chunk = hash_join.next();
    assert_eq!(
        into_chunk(chunk),
        from_pretty(
            " I I I I I I
            + 1 4 1 . . .
            + 2 5 2 . . .
            + 3 6 3 . . ."
        )
    );

    // push the 2nd left chunk
    hash_join.left.push_chunk(chunk_l2);
    let chunk = hash_join.next();
    assert_eq!(
        into_chunk(chunk),
        from_pretty(
            " I I I I I I
            + 4 9 4 . . .
            + 5 10 5 . . ."
        )
    );

    // push the 1st right chunk
    hash_join.right.push_chunk(chunk_r1);
    let chunk = hash_join.next();
    assert_eq!(
        into_chunk(chunk),
        from_pretty(
            "  I I I I I I
            U- 2 5 2 . . .
            U+ 2 5 2 2 5 1
            U- 4 9 4 . . .
            U+ 4 9 4 4 9 2"
        )
    );

    // push the 2nd right chunk
    hash_join.right.push_chunk(chunk_r2);
    let chunk = hash_join.next();
    assert_eq!(
        into_chunk(chunk),
        from_pretty(
            "  I I I I I I
            U- 1 4 1 . . .
            U+ 1 4 1 1 4 4
            U- 3 6 3 . . .
            U+ 3 6 3 3 6 5"
        )
    );
}

#[test]
fn test_streaming_hash_right_join_append_only() {
    let chunk_l1 = from_pretty(
        "  I I I
         + 1 4 1
         + 2 5 2
         + 3 6 3",
    );
    let chunk_l2 = from_pretty(
        "  I I I
         + 4 9 4
         + 5 10 5",
    );
    let chunk_r1 = from_pretty(
        "  I I I
         + 2 5 1
         + 4 9 2
         + 6 9 3",
    );
    let chunk_r2 = from_pretty(
        "  I I I
         + 1 4 4
         + 3 6 5
         + 7 7 6",
    );

    let mut hash_join = create_append_only_executor::<RightOuter>(false);

    // push the init barrier for left and right
    hash_join.left.push_barrier(1);
    hash_join.right.push_barrier(1);
    hash_join.next();

    // push the 1st left chunk
    hash_join.left.push_chunk(chunk_l1);
    let chunk = hash_join.next();
    assert_eq!(
        into_chunk(chunk),
        from_pretty("I I I I I I")
    );

    // push the 2nd left chunk
    hash_join.left.push_chunk(chunk_l2);
    let chunk = hash_join.next();
    assert_eq!(
        into_chunk(chunk),
        from_pretty("I I I I I I")
    );

    // push the 1st right chunk
    hash_join.right.push_chunk(chunk_r1);
    let chunk = hash_join.next();
    assert_eq!(
        into_chunk(chunk),
        from_pretty(
            "  I I I I I I
            + 2 5 2 2 5 1
            + 4 9 4 4 9 2
            + . . . 6 9 3"
        )
    );

    // push the 2nd right chunk
    hash_join.right.push_chunk(chunk_r2);
    let chunk = hash_join.next();
    assert_eq!(
        into_chunk(chunk),
        from_pretty(
            "  I I I I I I
            + 1 4 1 1 4 4
            + 3 6 3 3 6 5
            + . . . 7 7 6"
        )
    );
}

#[test]
fn test_streaming_hash_full_outer_join() {
    let chunk_l1 = from_pretty(
        "  I I
         + 1 4
         + 2 5
         + 3 6",
    );
    let chunk_l2 = from_pretty(
        "  I I
         + 3 8
         - 3 8",
    );
    let chunk_r1 = from_pretty(
        "  I I
         + 2 7
         + 4 8
         + 6 9",
    );
    let chunk_r2 = from_pretty(
        "  I  I
         + 5 10
         - 5 10",
    );
    let mut hash_join = create_executor::<FullOuter>(false);

    // push the init barrier for left and right
    hash_join.left.push_barrier(1);
    hash_join.right.push_barrier(1);
    hash_join.next();

    // push the 1st left chunk
    hash_join.left.push_chunk(chunk_l1);
    let chunk = hash_join.next();
    assert_eq!(
        into_chunk(chunk),
        from_pretty(
            " I I I I
            + 1 4 . .
            + 2 5 . .
            + 3 6 . ."
        )
    );

    // push the 2nd left chunk
    hash_join.left.push_chunk(chunk_l2);
    let chunk = hash_join.next();
    assert_eq!(
        into_chunk(chunk),
        from_pretty(
            " I I I I
            + 3 8 . .
            - 3 8 . ."
        )
    );

    // push the 1st right chunk
    hash_join.right.push_chunk(chunk_r1);
    let chunk = hash_join.next();
    assert_eq!(
        into_chunk(chunk),
        from_pretty(
            "  I I I I
            U- 2 5 . .
            U+ 2 5 2 7
            +  . . 4 8
            +  . . 6 9"
        )
    );

    // push the 2nd right chunk
    hash_join.right.push_chunk(chunk_r2);
    let chunk = hash_join.next();
    assert_eq!(
        into_chunk(chunk),
        from_pretty(
            " I I I I
            + . . 5 10
            - . . 5 10"
        )
    );
}

#[test]
fn test_streaming_hash_full_outer_join_with_nonequi_condition() {
    let chunk_l1 = from_pretty(
        "  I I
         + 1 4
         + 2 5
         + 3 6
         + 3 7",
    );
    let chunk_l2 = from_pretty(
        "  I I
         + 3 8
         - 3 8
         - 1 4", // delete row to cause an empty JoinHashEntry
    );
    let chunk_r1 = from_pretty(
        "  I I
         + 2 6
         + 4 8
         + 3 4",
    );
    let chunk_r2 = from_pretty(
        "  I  I
         + 5 10
         - 5 10
         + 1 2",
    );
    let mut hash_join = create_executor::<FullOuter>(true);

    // push the init barrier for left and right
    hash_join.left.push_barrier(1);
    hash_join.right.push_barrier(1);
    hash_join.next();

    // push the 1st left chunk
    hash_join.left.push_chunk(chunk_l1);
    let chunk = hash_join.next();
    assert_eq!(
        into_chunk(chunk),
        from_pretty(
            " I I I I
            + 1 4 . .
            + 2 5 . .
            + 3 6 . .
            + 3 7 . ."
        )
    );

    // push the 2nd left chunk
    hash_join.left.push_chunk(chunk_l2);
    let chunk = hash_join.next();
    assert_eq!(
        into_chunk(chunk),
        from_pretty(
            " I I I I
            + 3 8 . .
            - 3 8 . .
            - 1 4 . ."
        )
    );

    // push the 1st right chunk
    hash_join.right.push_chunk(chunk_r1);
    let chunk = hash_join.next();
    assert_eq!(
        into_chunk(chunk),
        from_pretty(
            "  I I I I
            U- 2 5 . .
            U+ 2 5 2 6
            +  . . 4 8
            +  . . 3 4" /* regression test (#2420): 3 4 should be forwarded only once
                         * despite matching on eq join on 2
                         * entries */
        )
    );

    // push the 2nd right chunk
    hash_join.right.push_chunk(chunk_r2);
    let chunk = hash_join.next();
    assert_eq!(
        into_chunk(chunk),
        from_pretty(
            " I I I I
            + . . 5 10
            - . . 5 10
            + . . 1 2" /* regression test (#2420): 1 2 forwarded even if matches on an empty
                        * join entry */
        )
    );
}

#[test]
fn test_streaming_hash_inner_join_with_nonequi_condition() {
    let chunk_l1 = from_pretty(
        "  I I
         + 1 4
         + 2 10
         + 3 6",
    );
    let chunk_l2 = from_pretty(
        "  I I
         + 3 8
         - 3 8",
    );
    let chunk_r1 = from_pretty(
        "  I I
         + 2 7
         + 4 8
         + 6 9",
    );
    let chunk_r2 = from_pretty(
        "  I  I
         + 3 10
         + 6 11",
    );
    let mut hash_join = create_executor::<Inner>(true);

    // push the init barrier for left and right
    hash_join.left.push_barrier(1);
    hash_join.right.push_barrier(1);
    hash_join.next();

    // push the 1st left chunk
    hash_join.left.push_chunk(chunk_l1);
    let chunk = hash_join.next();
    assert_eq!(
        into_chunk(chunk),
        from_pretty("I I I I")
    );

    // push the 2nd left chunk
    hash_join.left.push_chunk(chunk_l2);
    let chunk = hash_join.next();
    assert_eq!(
        into_chunk(chunk),
        from_pretty("I I I I")
    );

    // push the 1st right chunk
    hash_join.right.push_chunk(chunk_r1);
    let chunk = hash_join.next();
    assert_eq!(
        into_chunk(chunk),
        from_pretty("I I I I")
    );

    // push the 2nd right chunk
    hash_join.right.push_chunk(chunk_r2);
    let chunk = hash_join.next();
    assert_eq!(
        into_chunk(chunk),
        from_pretty(
            " I I I I
            + 3 6 3 10"
        )
    );
}

/// Numbers that look random and are the same each time.
struct Numbers(u64);

impl Numbers {
    fn below(&mut self, bound: u64) -> u64 {
        self.0 = self.0.wrapping_mul(6364136223846793005).wrapping_add(1442695040888963407);
        (self.0 >> 33) % bound
    }
}

/// The join of two bags of rows of two columns, by its definition.
fn plain_join(
    join_type: u8,
    left: &[(Option<i64>, i64)],
    right: &[(Option<i64>, i64)],
    with_condition: bool,
) -> Vec<Vec<Option<i64>>> {
    let belong = |l: &(Option<i64>, i64), r: &(Option<i64>, i64)| {
        l.0.is_some() && l.0 == r.0 && (!with_condition || l.1 < r.1)
    };
    let mut out = vec![];
    for l in left {
        let matched: Vec<_> = right.iter().filter(|r| belong(l, r)).collect();
        match join_type {
            LeftSemi if !matched.is_empty() => out.push(vec![l.0, Some(l.1)]),
            LeftAnti if matched.is_empty() => out.push(vec![l.0, Some(l.1)]),
            Inner | LeftOuter | RightOuter | FullOuter => {
                for r in &matched {
                    out.push(vec![l.0, Some(l.1), r.0, Some(r.1)]);
                }
                if matched.is_empty() && (join_type == LeftOuter || join_type == FullOuter) {
                    out.push(vec![l.0, Some(l.1), None, None]);
                }
            }
            _ => {}
        }
    }
    for r in right {
        let hit = left.iter().any(|l| belong(l, r));
        match join_type {
            RightSemi if hit => out.push(vec![r.0, Some(r.1)]),
            RightAnti if !hit => out.push(vec![r.0, Some(r.1)]),
            RightOuter | FullOuter if !hit => out.push(vec![None, None, r.0, Some(r.1)]),
            _ => {}
        }
    }
    out.sort();
    out
}

fn encoded(value: Option<i64>) -> Option<Vec<u8>> {
    value.map(|v| v.to_be_bytes().to_vec())
}

fn decoded(datum: &Option<Vec<u8>>) -> Option<i64> {
    datum.as_ref().map(|bytes| i64::from_be_bytes(bytes.clone().try_into().unwrap()))
}

/// Applies the changes of a chunk to a bag of rows.
fn apply(bag: &mut Vec<Vec<Option<i64>>>, chunk: &StreamChunk) {
    for (op, row) in chunk.ops.iter().zip(&chunk.rows) {
        let row: Vec<_> = row.0.iter().map(decoded).collect();
        match op {
            Op::Insert | Op::UpdateInsert => bag.push(row),
            Op::Delete | Op::UpdateDelete => {
                let at = bag.iter().position(|r| *r == row).expect("a row that is there");
                bag.remove(at);
            }
        }
    }
}

/// Runs a join on many changes, and holds the changes that come out against the definition.
fn follow<const T: u8>(with_condition: bool, seed: u64) {
    let mut numbers = Numbers(seed);
    let mut join = create_executor::<T>(with_condition);
    let mut left: Vec<(Option<i64>, i64)> = vec![];
    let mut right: Vec<(Option<i64>, i64)> = vec![];
    let mut bag = vec![];
    let mut epoch = 1;
    for round in 0..60 {
        let on_left = numbers.below(2) == 0;
        let own = if on_left { &mut left } else { &mut right };
        let mut chunk = StreamChunk { ops: vec![], rows: vec![], visibility: Some(vec![]), width: 2 };
        for _ in 0..numbers.below(5) {
            let hidden = numbers.below(8) == 0;
            let delete = !own.is_empty() && numbers.below(3) == 0;
            let row = if delete {
                own[numbers.below(own.len() as u64) as usize]
            } else {
                let key = if numbers.below(6) == 0 { None } else { Some(numbers.below(4) as i64) };
                (key, numbers.below(50) as i64)
            };
            if !hidden {
                if delete {
                    let at = own.iter().position(|r| *r == row).unwrap();
                    own.remove(at);
                } else if own.contains(&row) {
                    continue;
                } else {
                    own.push(row);
                }
            }
            chunk.ops.push(if delete { Op::Delete } else { Op::Insert });
            chunk.rows.push(Row(vec![encoded(row.0), encoded(Some(row.1))]));
            chunk.visibility.as_mut().unwrap().push(!hidden);
        }
        if on_left {
            join.left.push_chunk(chunk);
        } else {
            join.right.push_chunk(chunk);
        }
        apply(&mut bag, &into_chunk(join.next()));
        bag.sort();
        assert_eq!(bag, plain_join(T, &left, &right, with_condition), "round {}", round);
        if numbers.below(4) == 0 {
            epoch += 1;
            join.left.push_barrier(epoch);
            join.right.push_barrier(epoch);
            assert!(matches!(join.next(), Message::Barrier(b) if b.epoch.curr == epoch));
            if numbers.below(2) == 0 {
                // What has been written can be dropped from memory.
                join.stream.executor.side_l.ht.target_cap = numbers.below(3) as usize;
                join.stream.executor.side_r.ht.target_cap = numbers.below(3) as usize;
            }
        }
    }
    // The depth of the queue is not to be adjusted.
    assert_eq!(join.stream.max_queue_depth, 64);
}

#[test]
fn inner_join_follows_definition() {
    for seed in 0..20 {
        follow::<Inner>(false, seed);
        follow::<Inner>(true, seed);
    }
}

#[test]
fn semi_joins_follow_definition() {
    for seed in 0..20 {
        follow::<LeftSemi>(false, seed);
        follow::<RightSemi>(false, seed);
    }
}

#[test]
fn anti_joins_follow_definition() {
    for seed in 0..20 {
        follow::<LeftAnti>(false, seed);
        follow::<RightAnti>(false, seed);
    }
}

#[test]
fn outer_joins_follow_definition() {
    for seed in 0..20 {
        follow::<LeftOuter>(false, seed);
        follow::<LeftOuter>(true, seed);
        follow::<RightOuter>(false, seed);
        follow::<RightOuter>(true, seed);
        follow::<FullOuter>(false, seed);
        follow::<FullOuter>(true, seed);
    }
}

#[test]
fn append_only_join_gives_join_of_all_rows() {
    let mut numbers = Numbers(7);
    let mut join = create_append_only_executor::<FullOuter>(false);
    let mut left: Vec<(Option<i64>, i64)> = vec![];
    let mut right: Vec<(Option<i64>, i64)> = vec![];
    let mut bag = vec![];
    for _ in 0..80 {
        let on_left = numbers.below(2) == 0;
        let own = if on_left { &mut left } else { &mut right };
        let pk = numbers.below(30) as i64;
        if own.iter().any(|(key, _)| *key == Some(pk)) {
            continue;
        }
        let value = numbers.below(100) as i64;
        own.push((Some(pk), value));
        let chunk = StreamChunk {
            ops: vec![Op::Insert],
            rows: vec![Row(vec![encoded(Some(pk)), encoded(Some(pk + 1)), encoded(Some(value))])],
            visibility: None,
            width: 3,
        };
        if on_left {
            join.left.push_chunk(chunk);
        } else {
            join.right.push_chunk(chunk);
        }
        apply(&mut bag, &into_chunk(join.next()));
        let mut short: Vec<_> = bag.iter().map(|r| vec![r[0], r[2], r[3], r[5]]).collect();
        short.sort();
        assert_eq!(short, plain_join(FullOuter, &left, &right, false));
    }
    // Of rows that have matched nothing is left.
    for (key, _) in &left {
        if right.iter().any(|(other, _)| other == key) {
            let key = Row(vec![encoded(*key), encoded(key.map(|k| k + 1))]);
            let entry = join.stream.executor.side_l.ht.get_cached(&key);
            assert!(entry.map(|e| e.cached_len()).unwrap_or(0) == 0);
        }
    }
}

#[test]
fn last_match_of_preserved_row_is_taken_back() {
    let mut join = create_executor::<LeftOuter>(false);
    join.left.push_chunk(from_pretty("I I\n + 2 5"));
    assert_eq!(into_chunk(join.next()), from_pretty("I I I I\n + 2 5 . ."));
    join.right.push_chunk(from_pretty("I I\n + 2 7"));
    assert_eq!(into_chunk(join.next()), from_pretty("I I I I\n U- 2 5 . .\n U+ 2 5 2 7"));
    join.right.push_chunk(from_pretty("I I\n - 2 7"));
    assert_eq!(into_chunk(join.next()), from_pretty("I I I I\n U- 2 5 2 7\n U+ 2 5 . ."));
    // Only the last match brings the row back alone.
    join.right.push_chunk(from_pretty("I I\n + 2 8\n + 2 9"));
    assert_eq!(
        into_chunk(join.next()),
        from_pretty("I I I I\n U- 2 5 . .\n U+ 2 5 2 8\n + 2 5 2 9")
    );
    join.right.push_chunk(from_pretty("I I\n - 2 8\n - 2 9"));
    assert_eq!(
        into_chunk(join.next()),
        from_pretty("I I I I\n - 2 5 2 8\n U- 2 5 2 9\n U+ 2 5 . .")
    );
}

#[test]
fn updates_keep_their_operations() {
    let mut join = create_executor::<LeftOuter>(false);
    join.left.push_chunk(from_pretty("I I\n + 1 4"));
    join.next();
    join.left.push_chunk(from_pretty("I I\n U- 1 4\n U+ 1 5"));
    assert_eq!(into_chunk(join.next()), from_pretty("I I I I\n U- 1 4 . .\n U+ 1 5 . ."));
}

#[test]
fn removal_without_match_fails() {
    let mut join = create_executor::<Inner>(false);
    join.left.push_chunk(from_pretty("I I\n + 1 4\n + 1 5"));
    join.next();
    // No row was ever there that this one could have matched.
    join.right.push_chunk(from_pretty("I I\n - 1 9"));
    let message = join.stream.advance();
    assert!(matches!(message, Action::PollInput));
    let right = join.aligned().unwrap();
    let (fetches, action) = join.stream.on_message(right);
    assert!(fetches.len() == 1 && matches!(action, Action::PollInput));
    assert!(matches!(join.stream.on_input_pending(), Action::PollFetches));
    assert!(join.stream.on_fetched(KeyType::Left(Row(vec![datum("1")])), vec![]));
    match join.stream.on_fetches_pending() {
        Action::Output(output) => {
            assert_eq!(output.error, Some(HashJoinError::ZeroDegree));
            assert!(output.chunks.is_empty());
        }
        _ => panic!("no output"),
    }
}

fn fails_on_six(row: &Row, _types: &Vec<DataType>) -> Result<Vec<Option<bool>>, EvalError> {
    if decoded(&row.0[1]) == Some(6) {
        Err(EvalError { message: "six".to_string() })
    } else {
        Ok(vec![Some(true)])
    }
}

#[test]
fn condition_error_ends_chunk() {
    let mut join = create_executor::<Inner>(false);
    join.stream.executor.cond = Some(fails_on_six);
    join.left.push_chunk(from_pretty("I I\n + 1 5\n + 1 6\n + 1 7"));
    join.next();
    join.right.push_chunk(from_pretty("I I\n + 1 1"));
    join.stream.advance();
    let message = join.aligned().unwrap();
    join.stream.on_message(message);
    join.stream.on_input_pending();
    assert!(join.stream.on_fetched(KeyType::Left(Row(vec![datum("1")])), vec![]));
    match join.stream.on_fetches_pending() {
        Action::Output(output) => {
            let error = EvalError { message: "six".to_string() };
            assert_eq!(output.error, Some(HashJoinError::Condition(error)));
            // The first row has matched, but its chunk has not filled up.
            assert!(output.chunks.is_empty());
        }
        _ => panic!("no output"),
    }
    let key = Row(vec![datum("1")]);
    let entry = join.stream.executor.side_l.ht.get_cached(&key).unwrap();
    let degrees: Vec<u64> = (0..3).map(|i| entry.cached_row(i).degree).collect();
    assert_eq!(degrees, vec![1, 0, 0]);
}

#[test]
fn long_output_is_cut_into_chunks() {
    let mut join = create_executor::<LeftOuter>(false);
    let mut chunk = from_pretty("I I");
    for i in 0..1500i64 {
        chunk.ops.push(Op::Insert);
        chunk.rows.push(Row(vec![encoded(Some(1)), encoded(Some(i))]));
    }
    join.left.push_chunk(chunk);
    let first = into_chunk(join.next());
    let second = into_chunk(join.next());
    assert_eq!((first.rows.len(), second.rows.len()), (1023, 477));
    // Each of the rows gets its first match: an `UpdateDelete` and an `UpdateInsert`.
    join.right.push_chunk(from_pretty("I I\n + 1 7"));
    let sizes: Vec<usize> = (0..3).map(|_| into_chunk(join.next()).rows.len()).collect();
    assert_eq!(sizes, vec![1024, 1024, 952]);
}

#[test]
fn hidden_rows_are_no_part_of_the_stream() {
    let mut join = create_executor::<LeftOuter>(false);
    let mut chunk = from_pretty("I I\n + 1 4\n + 2 5\n + 3 6");
    chunk.visibility = Some(vec![true, false, true]);
    join.left.push_chunk(chunk);
    assert_eq!(into_chunk(join.next()), from_pretty("I I I I\n + 1 4 . .\n + 3 6 . ."));
}

#[test]
fn keys_are_fetched_once() {
    let mut join = create_executor::<Inner>(false);
    join.left.push_chunk(from_pretty("I I\n + 1 4\n + 2 5\n + 1 6"));
    join.left.push_chunk(from_pretty("I I\n + 2 7\n + 3 8"));
    join.stream.advance();
    let message = join.aligned().unwrap();
    let (fetches, _) = join.stream.on_message(message);
    let key = |text: &str| KeyType::Right(Row(vec![datum(text)]));
    assert_eq!(fetches, vec![key("1"), key("2")]);
    let message = join.aligned().unwrap();
    let (fetches, _) = join.stream.on_message(message);
    assert_eq!(fetches, vec![key("3")]);
    assert!(matches!(join.stream.on_input_pending(), Action::PollFetches));
    // The first message waits for both of its keys.
    assert!(matches!(join.stream.on_fetches_pending(), Action::Sleep));
    assert!(join.stream.on_fetched(key("2"), vec![]));
    assert!(!join.stream.on_fetched(key("2"), vec![]));
    assert!(matches!(join.stream.on_fetches_pending(), Action::Sleep));
    assert!(join.stream.on_fetched(key("1"), vec![]));
    assert!(matches!(join.stream.on_fetches_pending(), Action::Output(_)));
    // The second one waits for its own.
    assert!(matches!(join.stream.on_fetches_pending(), Action::Sleep));
    assert!(join.stream.on_fetched(key("3"), vec![]));
    assert!(matches!(join.stream.on_fetches_pending(), Action::Output(_)));
    assert_eq!(join.stream.msg_queue.len(), 0);
    assert!(matches!(join.stream.on_input_ended(), Action::Finish));
}

#[test]
fn messages_are_answered_in_their_order() {
    let mut join = create_executor::<Inner>(false);
    let key = |side: fn(Row) -> KeyType, text: &str| side(Row(vec![datum(text)]));
    join.stream.on_message(AlignedMessage::Left(from_pretty("I I\n + 1 4")));
    let barrier = Barrier { epoch: Epoch { curr: 2, prev: 1 }, payload: Some(7) };
    join.stream.on_message(AlignedMessage::Barrier(barrier));
    join.stream.on_message(AlignedMessage::Right(from_pretty("I I\n + 1 8")));
    // The rows for the last message are there first; it waits all the same.
    assert!(join.stream.on_fetched(key(KeyType::Left, "1"), vec![]));
    assert!(matches!(join.stream.on_fetches_pending(), Action::Sleep));
    assert!(matches!(join.stream.on_input_ended(), Action::PollFetches));
    assert!(join.stream.on_fetched(key(KeyType::Right, "1"), vec![]));
    match join.stream.on_fetches_pending() {
        Action::Output(output) => assert_eq!(output.chunks, vec![from_pretty("I I I I")]),
        _ => panic!("no output"),
    }
    assert!(matches!(join.stream.advance(), Action::PollFetches));
    match join.stream.on_fetches_pending() {
        Action::Flush(_, b) => assert_eq!((b.epoch.curr, b.payload), (2, Some(7))),
        _ => panic!("no barrier"),
    }
    assert!(matches!(join.stream.advance(), Action::PollFetches));
    match join.stream.on_fetches_pending() {
        Action::Output(output) => {
            assert_eq!(output.chunks, vec![from_pretty("I I I I\n + 1 4 1 8")]);
        }
        _ => panic!("no output"),
    }
    assert!(matches!(join.stream.advance(), Action::Finish));
}

/// Runs a join and its mirror image, and holds the messages that come out against each other.
fn mirror<const S: u8, const T: u8>(seed: u64) {
    let mut numbers = Numbers(seed);
    let mut a = create_executor::<S>(false);
    let mut b = create_executor::<T>(false);
    let mut rows: [Vec<(i64, i64)>; 2] = [vec![], vec![]];
    for epoch in 2..40 {
        let side = numbers.below(2) as usize;
        let mut chunk = from_pretty("I I");
        for _ in 0..numbers.below(5) {
            let row = (numbers.below(3) as i64, numbers.below(4) as i64);
            match rows[side].iter().position(|r| *r == row) {
                Some(at) => {
                    rows[side].remove(at);
                    chunk.ops.push(Op::Delete);
                }
                None => {
                    rows[side].push(row);
                    chunk.ops.push(Op::Insert);
                }
            }
            chunk.rows.push(Row(vec![encoded(Some(row.0)), encoded(Some(row.1))]));
        }
        let same = StreamChunk { ops: chunk.ops.clone(), rows: chunk.rows.clone(), ..from_pretty("I I") };
        if side == 0 {
            a.left.push_chunk(chunk);
            b.right.push_chunk(same);
        } else {
            a.right.push_chunk(chunk);
            b.left.push_chunk(same);
        }
        assert_eq!(into_chunk(a.next()), into_chunk(b.next()));
        if numbers.below(3) == 0 {
            a.left.push_barrier(epoch);
            a.right.push_barrier(epoch);
            b.left.push_barrier(epoch);
            b.right.push_barrier(epoch);
            assert!(matches!(a.next(), Message::Barrier(x) if x.epoch.curr == epoch));
            assert!(matches!(b.next(), Message::Barrier(x) if x.epoch.curr == epoch));
        }
    }
}

#[test]
fn right_semi_and_anti_joins_mirror_left_ones() {
    for seed in 0..20 {
        mirror::<LeftSemi, RightSemi>(seed);
        mirror::<LeftAnti, RightAnti>(seed);
    }
}

#[test]
fn queue_depth_is_adjusted() {
    let mut join = create_executor::<Inner>(false);
    join.stream.executor.prefetch_queue_depth = 2;
    join.stream.executor.aimd_adjust_rate_msgs = 1;
    join.stream.max_queue_depth = 2;
    let barrier = || {
        AlignedMessage::Barrier(Barrier { epoch: Epoch { curr: 2, prev: 1 }, payload: None })
    };
    // The queue is full after a message was processed: two more are taken.
    join.stream.on_message(barrier());
    assert!(matches!(join.stream.on_fetches_pending(), Action::Flush(_, _)));
    join.stream.on_message(barrier());
    assert!(matches!(join.stream.on_message(barrier()).1, Action::PollFetches));
    assert_eq!(join.stream.max_queue_depth, 4);
    // More messages than the initial depth without a wait: a quarter less, rounded up.
    assert!(matches!(join.stream.on_fetches_pending(), Action::Flush(_, _)));
    assert!(!join.stream.backpressure);
    assert!(matches!(join.stream.on_fetches_pending(), Action::Flush(_, _)));
    assert!(join.stream.backpressure);
    assert!(matches!(join.stream.on_input_pending(), Action::Sleep));
    assert_eq!(join.stream.max_queue_depth, 3);
    assert!(!join.stream.backpressure);
    assert!(join.stream.can_count());
}

#[test]
fn rows_that_were_evicted_are_loaded() {
    let mut join = create_executor::<Inner>(false);
    join.stream.executor.side_l.ht.target_cap = 0;
    join.left.push_chunk(from_pretty("I I\n + 1 4"));
    join.next();
    join.right.push_chunk(from_pretty("I I\n + 1 7"));
    assert_eq!(into_chunk(join.next()), from_pretty("I I I I\n + 1 4 1 7"));
    // A message is prefetched while its rows are in memory; they are gone when its turn comes.
    join.left.push_barrier(2);
    join.right.push_barrier(2);
    join.stream.advance();
    let message = join.aligned().unwrap();
    join.stream.on_message(message);
    let (fetches, _) = join.stream.on_message(AlignedMessage::Right(from_pretty("I I\n + 1 8")));
    assert_eq!(fetches, vec![]);
    match join.stream.on_fetches_pending() {
        Action::Flush(flushed, _) => {
            assert_eq!(flushed.epoch, 0);
            assert_eq!(flushed.left.len(), 1);
            assert_eq!(flushed.left[0].row.as_ref().map(|r| r.degree), Some(1));
            join.write(LeftSide, flushed.left);
        }
        _ => panic!("no flush"),
    }
    let key = KeyType::Left(Row(vec![datum("1")]));
    match join.stream.on_fetches_pending() {
        Action::Load(keys) => assert_eq!(keys, vec![KeyType::Left(Row(vec![datum("1")]))]),
        _ => panic!("nothing to load"),
    }
    let rows = join.stored(&key);
    join.stream.on_loaded(key, rows);
    match join.stream.on_fetches_pending() {
        Action::Output(output) => {
            assert_eq!(output.chunks, vec![from_pretty("I I I I\n + 1 4 1 8")]);
        }
        _ => panic!("no output"),
    }
}

#[test]
fn degrees_do_not_overflow() {
    let mut join = create_executor::<Inner>(false);
    let key = Row(vec![datum("1")]);
    let row = Row(vec![datum("1"), datum("4")]);
    join.stream.on_loaded(
        KeyType::Left(key),
        vec![(row.clone(), JoinRow::new(row, u64::MAX))],
    );
    let (fetches, _) = join.stream.on_message(AlignedMessage::Right(from_pretty("I I\n + 1 8")));
    assert_eq!(fetches, vec![]);
    assert!(matches!(join.stream.on_fetches_pending(), Action::DegreeOverflow));
    assert_eq!(join.stream.msg_queue.len(), 1);
}

#[test]
fn executor_is_set_up() {
    let executor = create_executor::<Inner>(false).stream.executor;
    assert_eq!(executor.identity(), "HashJoinExecutor 1");
    assert_eq!(executor.schema().len(), 4);
    assert_eq!(executor.pk_indices(), &vec![1]);
    assert_eq!(executor.output_data_types, vec![DataType::Int64; 4]);
    assert_eq!((executor.side_l.start_pos, executor.side_r.start_pos), (0, 2));
    assert!(!executor.append_only_optimize);
    assert!(!executor.side_l.is_dirty());
    let semi = create_append_only_executor::<RightSemi>(false).stream.executor;
    assert_eq!(semi.schema().len(), 3);
    assert!(semi.append_only_optimize);
    // The join key does not cover the primary key of the left side.
    let schema = int_columns(2);
    let plain = HashJoinExecutor::<Cond, Inner>::new(
        &schema,
        vec![0, 1],
        &schema,
        vec![0],
        JoinParams::new(vec![0]),
        JoinParams::new(vec![0]),
        vec![],
        0xbeef,
        None,
        String::new(),
        vec![],
        true,
        64,
        u64::MAX,
    );
    assert!(!plain.append_only_optimize);
    assert_eq!(plain.identity(), "HashJoinExecutor BEEF");
}
