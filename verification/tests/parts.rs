//! The smaller parts of the library.
use rw_core::JoinType::{
    FullOuter, Inner, JoinTypePrimitive, LeftAnti, LeftOuter, LeftSemi, RightAnti, RightOuter,
    RightSemi,
};
use rw_core::SideType::{Left, Right};
use rw_core::chunk::{Op, StreamChunk, StreamChunkBuilder};
use rw_core::function_catalog::{FunctionCatalog, FunctionId, ProstFunction};
use rw_core::ha_setup::{kv_report, leader_page, node_name};
use rw_core::join_builder::HashJoinChunkBuilder;
use rw_core::join_kind::{
    forward_exactly_once, is_anti, is_outer_side, is_semi, is_semi_or_anti,
    only_forward_matched_side, outer_side_null,
};
use rw_core::join_run::{bool_from_array_ref, row_concat};
use rw_core::join_state::{JoinEntryState, JoinHashMap, JoinRow, StateWrite};
use rw_core::keyed::KeyedList;
use rw_core::recency::RecencyMap;
use rw_core::row::{Row, indices_are_below, pad_row, place_row};
use rw_core::schema::{DataType, Field, Schema};
use rw_core::text::{append_decimal, append_hexadecimal};

const ALL: [JoinTypePrimitive; 8] =
    [Inner, LeftOuter, RightOuter, FullOuter, LeftSemi, LeftAnti, RightSemi, RightAnti];

fn row(values: &[Option<u8>]) -> Row {
    Row(values.iter().map(|v| v.map(|b| vec![b])).collect())
}

fn full(values: &[u8]) -> Row {
    Row(values.iter().map(|b| Some(vec![*b])).collect())
}

fn kinds(f: fn(JoinTypePrimitive) -> bool) -> Vec<JoinTypePrimitive> {
    ALL.iter().copied().filter(|t| f(*t)).collect()
}

#[test]
fn kinds_of_joins() {
    assert_eq!(kinds(|t| is_outer_side(t, Left)), vec![LeftOuter, FullOuter]);
    assert_eq!(kinds(|t| is_outer_side(t, Right)), vec![RightOuter, FullOuter]);
    assert_eq!(kinds(|t| outer_side_null(t, Left)), vec![RightOuter, FullOuter]);
    assert_eq!(kinds(|t| outer_side_null(t, Right)), vec![LeftOuter, FullOuter]);
    assert_eq!(kinds(|t| forward_exactly_once(t, Left)), vec![LeftSemi, LeftAnti]);
    assert_eq!(kinds(|t| forward_exactly_once(t, Right)), vec![RightSemi, RightAnti]);
    assert_eq!(kinds(|t| only_forward_matched_side(t, Left)), vec![RightSemi, RightAnti]);
    assert_eq!(kinds(|t| only_forward_matched_side(t, Right)), vec![LeftSemi, LeftAnti]);
    assert_eq!(kinds(is_semi), vec![LeftSemi, RightSemi]);
    assert_eq!(kinds(is_anti), vec![LeftAnti, RightAnti]);
    assert_eq!(kinds(is_semi_or_anti), vec![LeftSemi, LeftAnti, RightSemi, RightAnti]);
}

#[test]
fn rows_are_placed_and_projected() {
    assert_eq!(place_row(5, 0, &full(&[1, 2]), 3, &full(&[7, 8])), row(&[Some(1), Some(2), None, Some(7), Some(8)]));
    assert_eq!(place_row(2, 0, &full(&[1, 2]), 0, &full(&[7])), full(&[7, 2]));
    assert_eq!(pad_row(4, 2, &full(&[1, 2])), row(&[None, None, Some(1), Some(2)]));
    assert_eq!(row_concat(&full(&[1, 2]), 1, &full(&[7]), 0), full(&[7, 1, 2]));
    assert_eq!(full(&[4, 5, 6]).row_by_indices(&vec![2, 0, 2]), full(&[6, 4, 6]));
    assert!(row(&[Some(1), None]).has_null());
    assert!(!full(&[1]).has_null());
    assert!(indices_are_below(&vec![0, 2], 3));
    assert!(!indices_are_below(&vec![0, 3], 3));
    assert!(bool_from_array_ref(&vec![Some(true), None]));
    assert!(!bool_from_array_ref(&vec![Some(false)]));
}

#[test]
fn numbers_as_text() {
    let decimal = |n: u64| {
        let mut out = String::from("n");
        append_decimal(&mut out, n);
        out
    };
    let hexadecimal = |n: u64| {
        let mut out = String::new();
        append_hexadecimal(&mut out, n);
        out
    };
    assert_eq!(decimal(0), "n0");
    assert_eq!(decimal(1203), "n1203");
    assert_eq!(decimal(u64::MAX), "n18446744073709551615");
    assert_eq!(hexadecimal(0xdeadbeef), "DEADBEEF");
    assert_eq!(hexadecimal(0x10), "10");
    assert_eq!(hexadecimal(u64::MAX), "FFFFFFFFFFFFFFFF");
}

#[test]
fn hidden_changes_are_left_out() {
    let chunk = StreamChunk {
        ops: vec![Op::Insert, Op::Delete, Op::Insert],
        rows: vec![full(&[1]), full(&[2]), full(&[3])],
        visibility: Some(vec![false, true, true]),
        width: 1,
    };
    assert_eq!(
        chunk.compact(),
        StreamChunk {
            ops: vec![Op::Delete, Op::Insert],
            rows: vec![full(&[2]), full(&[3])],
            visibility: None,
            width: 1,
        }
    );
}

#[test]
fn update_pairs_stay_together() {
    let mut builder = StreamChunkBuilder::new(3, 2, 0, 1);
    assert_eq!(builder.append_row_update(Op::Insert, &full(&[1])), None);
    assert_eq!(builder.append_row_matched(Op::UpdateDelete, &full(&[7])), None);
    let chunk = builder.append_row(Op::UpdateInsert, &full(&[2]), &full(&[7])).unwrap();
    assert_eq!(chunk.ops, vec![Op::Insert, Op::UpdateDelete, Op::UpdateInsert]);
    assert_eq!(
        chunk.rows,
        vec![row(&[Some(1), None]), row(&[None, Some(7)]), row(&[Some(2), Some(7)])]
    );
    assert_eq!(builder.append_row_update(Op::Insert, &full(&[3])), None);
    let chunk = builder.append_row_update(Op::Delete, &full(&[3])).unwrap();
    assert_eq!(chunk.ops, vec![Op::Insert, Op::Delete]);
    assert_eq!(builder.take().rows, vec![]);
}

fn builder<const T: u8, const SIDE: u8>(width: usize, update: usize, matched: usize) -> HashJoinChunkBuilder<T, SIDE> {
    HashJoinChunkBuilder { stream_chunk_builder: StreamChunkBuilder::new(1024, width, update, matched) }
}

fn changes<const T: u8, const SIDE: u8>(mut builder: HashJoinChunkBuilder<T, SIDE>) -> Vec<(Op, Row)> {
    let chunk = builder.take();
    chunk.ops.into_iter().zip(chunk.rows).collect()
}

#[test]
fn matches_put_out_changes() {
    let fresh = JoinRow::new(full(&[7]), 0);
    let matched = JoinRow::new(full(&[7]), 1);

    let mut b = builder::<Inner, Left>(2, 0, 1);
    b.with_match_on_insert(&full(&[1]), &fresh);
    b.with_match_on_delete(&full(&[1]), &fresh);
    b.forward_if_not_matched(Op::Insert, &full(&[1]));
    b.forward_exactly_once_if_matched(Op::Insert, &full(&[1]));
    assert_eq!(changes(b), vec![(Op::Insert, full(&[1, 7])), (Op::Delete, full(&[1, 7]))]);

    let mut b = builder::<RightOuter, Left>(2, 0, 1);
    b.with_match_on_insert(&full(&[1]), &fresh);
    b.with_match_on_insert(&full(&[2]), &matched);
    b.with_match_on_delete(&full(&[2]), &matched);
    b.with_match_on_delete(&full(&[1]), &fresh);
    b.forward_if_not_matched(Op::Insert, &full(&[3]));
    assert_eq!(
        changes(b),
        vec![
            (Op::UpdateDelete, row(&[None, Some(7)])),
            (Op::UpdateInsert, full(&[1, 7])),
            (Op::Insert, full(&[2, 7])),
            (Op::Delete, full(&[2, 7])),
            (Op::UpdateDelete, full(&[1, 7])),
            (Op::UpdateInsert, row(&[None, Some(7)])),
        ]
    );

    let mut b = builder::<LeftSemi, Right>(1, 0, 0);
    b.with_match_on_insert(&full(&[1]), &fresh);
    b.with_match_on_insert(&full(&[1]), &matched);
    b.with_match_on_delete(&full(&[1]), &fresh);
    b.with_match_on_delete(&full(&[1]), &matched);
    b.forward_exactly_once_if_matched(Op::Insert, &full(&[1]));
    assert_eq!(changes(b), vec![(Op::Insert, full(&[7])), (Op::Delete, full(&[7]))]);

    let mut b = builder::<LeftAnti, Right>(1, 0, 0);
    b.with_match_on_insert(&full(&[1]), &fresh);
    b.with_match_on_delete(&full(&[1]), &fresh);
    b.forward_if_not_matched(Op::Insert, &full(&[1]));
    assert_eq!(changes(b), vec![(Op::Delete, full(&[7])), (Op::Insert, full(&[7]))]);

    let mut b = builder::<LeftSemi, Left>(1, 0, 0);
    b.forward_exactly_once_if_matched(Op::Insert, &full(&[1]));
    b.forward_if_not_matched(Op::Insert, &full(&[2]));
    assert_eq!(changes(b), vec![(Op::Insert, full(&[1]))]);

    let mut b = builder::<LeftAnti, Left>(1, 0, 0);
    b.forward_exactly_once_if_matched(Op::Insert, &full(&[1]));
    b.forward_if_not_matched(Op::UpdateDelete, &full(&[2]));
    assert_eq!(changes(b), vec![(Op::UpdateDelete, full(&[2]))]);
}

#[test]
fn degrees_are_counted() {
    let mut joined = JoinRow::new(full(&[1, 2]), 0);
    assert!(joined.is_zero_degree());
    assert_eq!(joined.dec_degree(), Err(()));
    joined.inc_degree();
    assert!(!joined.is_zero_degree());
    assert_eq!(joined.dec_degree(), Ok(()));
    assert_eq!(joined, JoinRow::new(full(&[1, 2]), 0));
    assert_eq!(joined.row_by_indices(&vec![1]), full(&[2]));
}

#[test]
fn fetched_rows_give_way_to_writes() {
    let mut entry = JoinEntryState::new();
    entry.insert(full(&[1]), JoinRow::new(full(&[1, 1]), 4));
    entry.remove(full(&[2]));
    assert!(entry.is_dirty() && !entry.is_cached());
    entry.attach(KeyedList::from_pairs(vec![
        (full(&[1]), JoinRow::new(full(&[1, 0]), 0)),
        (full(&[2]), JoinRow::new(full(&[2, 0]), 0)),
        (full(&[3]), JoinRow::new(full(&[3, 0]), 0)),
    ]));
    assert_eq!(entry.cached_len(), 2);
    assert_eq!(entry.cached_row(0), JoinRow::new(full(&[1, 1]), 4));
    assert_eq!(entry.cached_row(1), JoinRow::new(full(&[3, 0]), 0));
}

#[test]
fn least_recently_used_entries_are_evicted() {
    let mut table = JoinHashMap::new(2);
    for key in 1..=3 {
        table.insert_cached(full(&[key]), KeyedList::new());
    }
    let entry = table.take_or_init_without_cache(&full(&[1]));
    table.put(full(&[1]), entry);
    table.evict_to_target_cap();
    assert!(table.get_cached(&full(&[2])).is_none());
    assert!(table.get_cached(&full(&[1])).is_some());
    assert!(table.get_cached(&full(&[3])).is_some());
    table.update_epoch(9);
    assert_eq!(table.epoch, 9);
}

#[test]
fn map_keeps_the_order_of_use() {
    let mut map = RecencyMap::new();
    for key in 0..50u8 {
        map.push(full(&[key, key]), JoinRow::new(full(&[key]), 0));
    }
    // Many uses, so that empty slots are swept more than once.
    for round in 0..40u8 {
        for key in [3, 40, round] {
            let value = map.take(&full(&[key, key])).unwrap();
            assert!(map.get(&full(&[key, key])).is_none());
            assert!(map.take(&full(&[key, key])).is_none());
            map.push(full(&[key, key]), value);
        }
    }
    assert_eq!(map.count, 50);
    assert_eq!(map.get(&full(&[7, 7])), Some(&JoinRow::new(full(&[7]), 0)));
    assert!(map.get(&full(&[7])).is_none());
    let order: Vec<Row> = map.drain().into_iter().map(|(_, value)| value.row).collect();
    let last: Vec<Row> = order[46..].to_vec();
    assert_eq!(last, vec![full(&[38]), full(&[3]), full(&[40]), full(&[39])]);
    assert_eq!(order.len(), 50);
    assert_eq!(order[0], full(&[41]));
    assert_eq!(map.count, 0);
}

#[test]
fn writes_are_handed_over_once() {
    let mut table = JoinHashMap::new(8);
    let mut entry = table.take_or_init_without_cache(&full(&[1]));
    entry.insert(full(&[5]), JoinRow::new(full(&[1, 5]), 0));
    entry.remove(full(&[6]));
    entry.insert(full(&[5]), JoinRow::new(full(&[1, 5]), 2));
    table.put(full(&[1]), entry);
    assert!(table.is_dirty());
    let mut batch = vec![];
    table.flush(&mut batch);
    assert_eq!(
        batch,
        vec![
            StateWrite { key: full(&[1]), pk: full(&[5]), row: Some(JoinRow::new(full(&[1, 5]), 2)) },
            StateWrite { key: full(&[1]), pk: full(&[6]), row: None },
        ]
    );
    assert!(!table.is_dirty());
    let mut batch = vec![];
    table.flush(&mut batch);
    assert_eq!(batch, vec![]);
}

#[test]
fn schemas_are_put_together() {
    let left = Schema { fields: vec![Field { data_type: DataType::Int64, name: "a".to_string() }] };
    let right = Schema { fields: vec![Field::unnamed(DataType::List(3))] };
    let both = left.concat(&right);
    assert_eq!(both.data_types(), vec![DataType::Int64, DataType::List(3)]);
    assert_eq!(both.fields[0], Field { data_type: DataType::Int64, name: "a".to_string() });
    assert_eq!(both.fields[1].name, "");
    assert_eq!(left.copy(), left);
}

#[test]
fn function_is_catalogued() {
    let prost = ProstFunction {
        id: 7,
        name: "gcd".to_string(),
        owner: 1,
        arg_types: vec![DataType::Int32, DataType::Int32],
        return_type: Some(DataType::Int64),
        language: "python".to_string(),
        path: "http://localhost:8815".to_string(),
    };
    let catalog = FunctionCatalog::from(&prost);
    assert_eq!(catalog.id, FunctionId(7));
    assert_eq!(catalog.name, "gcd");
    assert_eq!(catalog.owner, 1);
    assert_eq!(catalog.arg_types, vec![DataType::Int32, DataType::Int32]);
    assert_eq!(catalog.return_type, DataType::Int64);
    assert_eq!(catalog.language, "python");
    assert_eq!(catalog.path, "http://localhost:8815");
    assert_eq!(catalog.clone(), catalog);
}

#[test]
fn node_speaks_of_itself() {
    assert_eq!(node_name(None), "unknown");
    assert_eq!(node_name(Some("meta-1".to_string())), "meta-1");
    assert_eq!(
        leader_page("meta-1", "unknown"),
        "HTTP/1.1 200 OK\r\nContent-Type: text/html; charset=UTF-8\r\n\r\n\
         <html><body>I am meta-1</br>Leader is unknown</body></html>\r\n"
    );
    assert_eq!(kv_report(Some(("foo", "bar"))), "got kv: {foo: bar}");
    assert_eq!(kv_report(None), "failed to get kv pair");
}
