use accesskit::{Action, ActionRequest, NodeId, TreeId};
use accesskit_stream::action::{decode_action_request, Inbox};

fn click(node: u64) -> ActionRequest {
    ActionRequest {
        action: Action::Click,
        target_tree: TreeId::ROOT,
        target_node: NodeId(node),
        data: None,
    }
}

#[test]
fn well_formed_request_decodes_to_an_equal_value() {
    let bytes = serde_json::to_vec(&click(3)).unwrap();
    assert_eq!(decode_action_request(&bytes), Some(click(3)));
}

#[test]
fn malformed_request_is_dropped() {
    assert_eq!(decode_action_request(b"{\"action\":"), None);
    assert_eq!(decode_action_request(b""), None);
    assert_eq!(decode_action_request(b"[1,2,3]"), None);
}

#[test]
fn request_in_pieces_is_relayed_once() {
    let bytes = serde_json::to_vec(&click(8)).unwrap();
    let (a, b) = bytes.split_at(bytes.len() / 2);
    let mut inbox = Inbox::new();
    assert!(inbox.start(1));
    assert!(!inbox.start(1));
    assert!(inbox.receive(1, a));
    assert!(inbox.receive(1, b));
    assert_eq!(inbox.complete(1), Some(click(8)));
    assert_eq!(inbox.complete(1), None);
    assert!(!inbox.receive(1, b"x"));
}

#[test]
fn unfinished_requests_stay_apart() {
    let mut inbox = Inbox::new();
    assert!(inbox.start(1));
    assert!(inbox.start(2));
    assert!(inbox.receive(1, b"{\"act"));
    assert!(inbox.receive(2, b"garbage"));
    assert_eq!(inbox.finish(1), Some(b"{\"act".to_vec()));
    assert_eq!(inbox.complete(2), None);
    assert_eq!(inbox.finish(2), None);
}
