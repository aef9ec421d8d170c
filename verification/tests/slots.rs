use unei::editing::buffer::Buffer;
use unei::editing::rope::rope_to_string;
use unei::editor::slots::with_buffers;

#[test]
fn buffers_are_numbered_in_order_and_the_first_is_shown() {
    let e = with_buffers(vec![Buffer::from_text("a"), Buffer::from_text("b"), Buffer::from_text("c")]);
    assert_eq!(rope_to_string(&e.shown.rope), "a\n");
    assert_eq!(e.buffer_count(), 3);
    let ids: Vec<usize> = e.slots.iter().map(|s| s.id).collect();
    assert_eq!(ids, vec![1, 2, 3]);
    assert!(e.slots[0].buffer.is_none());
    assert_eq!(rope_to_string(&e.slots[2].buffer.as_ref().unwrap().rope), "c\n");
    assert_eq!(e.current, 1);
    assert_eq!(e.next_buf_id, 4);
    assert!(e.alternate.is_none());
}
