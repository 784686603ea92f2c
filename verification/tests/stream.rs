use proctor::stream::{next_item, Fault, Item, ReadResult};

#[test]
fn an_empty_read_is_the_end() {
    assert!(matches!(next_item(ReadResult::Count(0), 7), Some(Item::End)));
}

#[test]
fn a_read_yields_the_byte() {
    assert!(matches!(next_item(ReadResult::Count(1), 0xff), Some(Item::Byte(0xff))));
}

#[test]
fn an_interrupted_read_is_made_again() {
    let result = ReadResult::Failed(Fault::Interrupted, "interrupted".to_string());
    assert!(next_item(result, 7).is_none());
}

#[test]
fn a_failed_read_yields_its_text() {
    for fault in [Fault::WouldBlock, Fault::InvalidInput, Fault::Other] {
        let result = ReadResult::Failed(fault, "timed out".to_string());
        match next_item(result, 7) {
            Some(Item::Failed(text)) => assert_eq!(text, "timed out"),
            other => panic!("unexpected item {:?}", other),
        }
    }
}

#[test]
fn a_copy_is_the_same_item() {
    assert!(matches!(Item::Byte(3).copied(), Item::Byte(3)));
    assert!(matches!(Item::End.copied(), Item::End));
    match Item::Failed("gone".to_string()).copied() {
        Item::Failed(text) => assert_eq!(text, "gone"),
        other => panic!("unexpected item {:?}", other),
    }
}

#[test]
fn the_items_are_those_of_the_reads_that_were_not_interrupted() {
    let reads = vec![
        (ReadResult::Failed(Fault::Interrupted, "interrupted".to_string()), 1),
        (ReadResult::Count(1), 2),
        (ReadResult::Failed(Fault::Interrupted, "interrupted".to_string()), 3),
        (ReadResult::Failed(Fault::Other, "timed out".to_string()), 4),
        (ReadResult::Count(1), 5),
        (ReadResult::Count(0), 6),
    ];
    let items: Vec<Item> =
        reads.into_iter().filter_map(|(result, byte)| next_item(result, byte)).collect();
    let shown: Vec<String> = items.iter().map(|item| format!("{:?}", item)).collect();
    assert_eq!(shown, vec!["Byte(2)", "Failed(\"timed out\")", "Byte(5)", "End"]);
}
