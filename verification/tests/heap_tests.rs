use rlox::heap::{
    ObjString, ObjectData, ObjectHeap, ObjectRef, HEAP_GROW_FACTOR, INITIAL_GC_THRESHOLD,
    OBJECT_HEADER_SIZE,
};

fn text_of(heap: &ObjectHeap, handle: ObjectRef) -> Option<String> {
    heap.get(handle).map(|object| match &object.data {
        ObjectData::String(s) => s.as_str().to_string(),
    })
}

#[test]
fn a_string_object_holds_its_text_length_and_hash() {
    let empty = ObjString::new("");
    assert_eq!(empty.as_str(), "");
    assert_eq!(empty.len(), 0);
    assert_eq!(empty.hash(), 0x811c_9dc5);
    let a = ObjString::new("a");
    assert_eq!(a.len(), 1);
    assert_eq!(a.hash(), 0xe40c_292c);
    let foobar = ObjString::new("foobar");
    assert_eq!(foobar.as_str(), "foobar");
    assert_eq!(foobar.len(), 6);
    assert_eq!(foobar.hash(), 0xbf9c_f968);
    let accented = ObjString::new("h\u{e9}");
    assert_eq!(accented.len(), 3);
}

#[test]
fn a_new_heap_is_empty_with_the_initial_threshold() {
    let heap = ObjectHeap::new();
    let stats = heap.stats();
    assert_eq!(stats.bytes_allocated, 0);
    assert_eq!(stats.next_gc, INITIAL_GC_THRESHOLD);
    assert_eq!(stats.next_gc, 1024 * 1024);
    assert_eq!(stats.total_slots, 0);
    assert_eq!(stats.live_objects, 0);
    assert_eq!(stats.free_slots, 0);
    assert!(heap.get(ObjectRef(0)).is_none());
    assert!(heap.get_string(ObjectRef(0)).is_none());
    assert!(heap.get_string_hash(ObjectRef(0)).is_none());
}

#[test]
fn allocation_appends_slots_and_counts_bytes() {
    let mut heap = ObjectHeap::new();
    assert!(heap.has_room("abc"));
    let first = heap.alloc_string("abc");
    let second = heap.alloc_string("");
    assert_eq!(first, ObjectRef(0));
    assert_eq!(second, ObjectRef(1));
    assert_eq!(heap.get_string(first), Some("abc".to_string()));
    assert_eq!(heap.get_string(second), Some(String::new()));
    assert_eq!(text_of(&heap, first), Some("abc".to_string()));
    assert_eq!(heap.get_string_hash(first), Some(ObjString::new("abc").hash()));
    let stats = heap.stats();
    assert_eq!(stats.bytes_allocated, 2 * OBJECT_HEADER_SIZE + 3);
    assert_eq!(stats.total_slots, 2);
    assert_eq!(stats.live_objects, 2);
    assert_eq!(stats.free_slots, 0);
    assert_eq!(stats.next_gc, INITIAL_GC_THRESHOLD);
}

#[test]
fn equal_texts_are_two_objects() {
    let mut heap = ObjectHeap::new();
    let first = heap.alloc_string("same");
    let second = heap.alloc_string("same");
    assert_ne!(first, second);
    assert_eq!(heap.get_string(first), heap.get_string(second));
}

#[test]
fn a_collection_keeps_what_the_roots_name_and_frees_the_rest() {
    let mut heap = ObjectHeap::new();
    let a = heap.alloc_string("a");
    let b = heap.alloc_string("bb");
    let c = heap.alloc_string("ccc");
    let d = heap.alloc_string("dddd");
    heap.add_root(b);
    heap.add_root(d);
    heap.collect_garbage();
    assert!(heap.get(a).is_none());
    assert!(heap.get(c).is_none());
    assert_eq!(heap.get_string(b), Some("bb".to_string()));
    assert_eq!(heap.get_string(d), Some("dddd".to_string()));
    let stats = heap.stats();
    assert_eq!(stats.bytes_allocated, 2 * OBJECT_HEADER_SIZE + 6);
    assert_eq!(stats.next_gc, stats.bytes_allocated * HEAP_GROW_FACTOR);
    assert_eq!(stats.total_slots, 4);
    assert_eq!(stats.live_objects, 2);
    assert_eq!(stats.free_slots, 2);
}

#[test]
fn the_slot_freed_last_is_filled_first() {
    let mut heap = ObjectHeap::new();
    let a = heap.alloc_string("a");
    let b = heap.alloc_string("b");
    let c = heap.alloc_string("c");
    heap.add_root(b);
    heap.collect_garbage();
    // Slots 0 and 2 were freed in rising order: 2 is at the end of the list.
    let first = heap.alloc_string("x");
    heap.add_root(first);
    let second = heap.alloc_string("y");
    heap.add_root(second);
    let third = heap.alloc_string("z");
    assert_eq!(first, c);
    assert_eq!(second, a);
    assert_eq!(third, ObjectRef(3));
    assert_eq!(heap.get_string(c), Some("x".to_string()));
    assert_eq!(heap.get_string(a), Some("y".to_string()));
    assert_eq!(heap.get_string(b), Some("b".to_string()));
    assert_eq!(heap.stats().free_slots, 0);
    assert_eq!(heap.stats().bytes_allocated, 4 * OBJECT_HEADER_SIZE + 4);
}

#[test]
fn a_second_collection_changes_nothing() {
    let mut heap = ObjectHeap::new();
    let keep = heap.alloc_string("keep");
    heap.alloc_string("drop");
    heap.add_root(keep);
    heap.collect_garbage();
    let once = heap.stats();
    heap.collect_garbage();
    let twice = heap.stats();
    assert_eq!(once.bytes_allocated, twice.bytes_allocated);
    assert_eq!(once.bytes_allocated, OBJECT_HEADER_SIZE + 4);
    assert_eq!(once.next_gc, twice.next_gc);
    assert_eq!(once.live_objects, twice.live_objects);
    assert_eq!(once.free_slots, twice.free_slots);
    assert_eq!(heap.get_string(keep), Some("keep".to_string()));
}

#[test]
fn a_collection_of_an_empty_heap_sets_the_threshold_to_zero() {
    let mut heap = ObjectHeap::new();
    heap.collect_garbage();
    let stats = heap.stats();
    assert_eq!(stats.bytes_allocated, 0);
    assert_eq!(stats.next_gc, 0);
    // Every allocation now collects first; a rooted object still stays.
    let a = heap.alloc_string("a");
    heap.add_root(a);
    let b = heap.alloc_string("b");
    assert_eq!(heap.get_string(a), Some("a".to_string()));
    assert_eq!(heap.get_string(b), Some("b".to_string()));
    let c = heap.alloc_string("c");
    assert_eq!(c, b);
    assert_eq!(heap.get_string(c), Some("c".to_string()));
}

#[test]
fn removing_a_root_removes_each_copy_of_it() {
    let mut heap = ObjectHeap::new();
    let a = heap.alloc_string("a");
    let b = heap.alloc_string("b");
    heap.add_root(a);
    heap.add_root(b);
    heap.add_root(a);
    heap.remove_root(a);
    heap.collect_garbage();
    assert!(heap.get(a).is_none());
    assert_eq!(heap.get_string(b), Some("b".to_string()));
    heap.remove_root(ObjectRef(17));
    heap.collect_garbage();
    assert_eq!(heap.get_string(b), Some("b".to_string()));
}

#[test]
fn a_root_that_names_no_object_is_passed_over() {
    let mut heap = ObjectHeap::new();
    heap.add_root(ObjectRef(5));
    let a = heap.alloc_string("a");
    heap.collect_garbage();
    assert!(heap.get(a).is_none());
    assert_eq!(heap.stats().free_slots, 1);
}

#[test]
fn an_allocation_over_the_threshold_collects_first() {
    let mut heap = ObjectHeap::new();
    let block = "x".repeat(100 * 1024);
    let size = OBJECT_HEADER_SIZE + block.len();
    let kept = heap.alloc_string(&block);
    heap.add_root(kept);
    for _ in 0..9 {
        heap.alloc_string(&block);
    }
    assert_eq!(heap.stats().bytes_allocated, 10 * size);
    assert_eq!(heap.stats().next_gc, INITIAL_GC_THRESHOLD);
    // The eleventh block would take the count over one mebibyte.
    let last = heap.alloc_string(&block);
    let stats = heap.stats();
    assert_eq!(stats.bytes_allocated, 2 * size);
    assert_eq!(stats.next_gc, size * HEAP_GROW_FACTOR);
    assert_eq!(stats.live_objects, 2);
    assert_eq!(stats.total_slots, 10);
    assert_eq!(last, ObjectRef(9));
    assert_eq!(heap.get_string(kept).map(|s| s.len()), Some(block.len()));
}
