use huffman_coding::linked_list::LinkedList;

#[test]
fn builds_a_chain_of_values() {
    let mut list = LinkedList::new(1u32);
    list.insert_node(2);
    list.insert_node(3);
    list.insert_node(4);
}

#[test]
fn holds_borrowed_style_payloads() {
    let mut list = LinkedList::new(String::from("head"));
    list.insert_node(String::from("middle"));
    list.insert_node(String::from("tail"));
}
