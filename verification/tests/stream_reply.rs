use vision_postprocessor::stream_reply::{first_payload, StreamReply};

fn s(x: &str) -> String {
    x.to_string()
}

#[test]
fn empty_reply_has_no_payload() {
    let reply: StreamReply = vec![];
    assert_eq!(first_payload(&reply), None);
}

#[test]
fn reply_without_payload_field_has_no_payload() {
    let reply: StreamReply = vec![(
        s("input_stream"),
        vec![(s("1-0"), vec![(s("other"), s("x")), (s("meta"), s("y"))])],
    )];
    assert_eq!(first_payload(&reply), None);
}

#[test]
fn first_payload_in_reply_order_is_returned_with_its_message_id() {
    let reply: StreamReply = vec![
        (s("a"), vec![(s("1-0"), vec![(s("other"), s("x"))])]),
        (
            s("b"),
            vec![
                (s("2-0"), vec![(s("k"), s("v")), (s("metadata"), s("first"))]),
                (s("3-0"), vec![(s("metadata"), s("second"))]),
            ],
        ),
        (s("c"), vec![(s("4-0"), vec![(s("metadata"), s("third"))])]),
    ];
    assert_eq!(first_payload(&reply), Some((s("2-0"), s("first"))));
}

#[test]
fn payload_field_name_must_match_exactly() {
    let reply: StreamReply = vec![(
        s("a"),
        vec![(s("5-1"), vec![(s("Metadata"), s("no")), (s("metadata "), s("no")), (s("metadata"), s("yes"))])],
    )];
    assert_eq!(first_payload(&reply), Some((s("5-1"), s("yes"))));
}
