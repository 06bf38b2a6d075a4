use vstd::prelude::*;

verus! {

/// One field of a stream message: its name and its value.
pub type StreamField = (String, String);

/// One stream message: its id and its fields, in order.
pub type StreamMessage = (String, Vec<StreamField>);

/// A reply to a stream read: for each stream read, its key and its messages, in order.
pub type StreamReply = Vec<(String, Vec<StreamMessage>)>;

/// The name of the field that carries a message's payload.
pub open spec fn payload_field() -> Seq<char> {
    "metadata"@
}

/// Field `f` of message `m` of stream `s` of the reply is a payload field.
pub open spec fn is_payload_at(reply: Seq<(String, Vec<StreamMessage>)>, s: int, m: int, f: int) -> bool {
    &&& 0 <= s < reply.len()
    &&& 0 <= m < reply[s].1@.len()
    &&& 0 <= f < reply[s].1@[m].1@.len()
    &&& reply[s].1@[m].1@[f].0@ == payload_field()
}

/// Position `(s1, m1, f1)` comes before `(s2, m2, f2)` in reply order.
pub open spec fn comes_before(s1: int, m1: int, f1: int, s2: int, m2: int, f2: int) -> bool {
    ||| s1 < s2
    ||| s1 == s2 && m1 < m2
    ||| s1 == s2 && m1 == m2 && f1 < f2
}

/// Finds the first payload field of a stream-read reply, in reply order, and
/// returns the id of its message with its value; `None` when the reply holds no
/// payload field.
pub fn first_payload(reply: &StreamReply) -> (found: Option<(String, String)>)
    ensures
        match found {
            None => forall|s: int, m: int, f: int| !#[trigger] is_payload_at(reply@, s, m, f),
            Some((id, value)) => exists|s: int, m: int, f: int|
                {
                    &&& #[trigger] is_payload_at(reply@, s, m, f)
                    &&& id@ == reply@[s].1@[m].0@
                    &&& value@ == reply@[s].1@[m].1@[f].1@
                    &&& forall|s2: int, m2: int, f2: int|
                        comes_before(s2, m2, f2, s, m, f) ==> !#[trigger] is_payload_at(
                            reply@,
                            s2,
                            m2,
                            f2,
                        )
                },
        },
{
    let key = "metadata".to_owned();
    proof {
        assert(key@ == payload_field());
    }
    let ns = reply.len();
    for s in 0..ns
        invariant
            ns == reply@.len(),
            key@ == payload_field(),
            forall|s2: int, m2: int, f2: int|
                s2 < s ==> !#[trigger] is_payload_at(reply@, s2, m2, f2),
    {
        let messages = &reply[s].1;
        let nm = messages.len();
        for m in 0..nm
            invariant
                ns == reply@.len(),
                s < ns,
                messages == &reply@[s as int].1,
                nm == messages@.len(),
                key@ == payload_field(),
                forall|s2: int, m2: int, f2: int|
                    (s2 < s || (s2 == s && m2 < m)) ==> !#[trigger] is_payload_at(
                        reply@,
                        s2,
                        m2,
                        f2,
                    ),
        {
            let fields = &messages[m].1;
            let nf = fields.len();
            for f in 0..nf
                invariant
                    ns == reply@.len(),
                    s < ns,
                    m < nm,
                    messages == &reply@[s as int].1,
                    nm == messages@.len(),
                    fields == &messages@[m as int].1,
                    nf == fields@.len(),
                    key@ == payload_field(),
                    forall|s2: int, m2: int, f2: int|
                        (s2 < s || (s2 == s && m2 < m) || (s2 == s && m2 == m && f2 < f))
                            ==> !#[trigger] is_payload_at(reply@, s2, m2, f2),
            {
                if fields[f].0 == key {
                    let id = messages[m].0.clone();
                    let value = fields[f].1.clone();
                    assert(is_payload_at(reply@, s as int, m as int, f as int));
                    return Some((id, value));
                }
                assert(!is_payload_at(reply@, s as int, m as int, f as int));
            }
        }
    }
    None
}

/// A payload field is exactly a field, inside the reply, whose name is `metadata`.
pub proof fn lemma_payload_field_is_metadata(
    reply: Seq<(String, Vec<StreamMessage>)>,
    s: int,
    m: int,
    f: int,
)
    ensures
        is_payload_at(reply, s, m, f) <==> (0 <= s < reply.len() && 0 <= m < reply[s].1@.len()
            && 0 <= f < reply[s].1@[m].1@.len() && reply[s].1@[m].1@[f].0@ == "metadata"@),
{
}

/// Reply order is lexicographic on (stream, message, field): earlier streams
/// first, then earlier messages of a stream, then earlier fields of a message.
pub proof fn lemma_reply_order_is_lexicographic(s1: int, m1: int, f1: int, s2: int, m2: int, f2: int)
    ensures
        comes_before(s1, m1, f1, s2, m2, f2) <==> (s1 < s2 || (s1 == s2 && m1 < m2) || (s1 == s2
            && m1 == m2 && f1 < f2)),
        !comes_before(s1, m1, f1, s1, m1, f1),
        comes_before(s1, m1, f1, s2, m2, f2) ==> !comes_before(s2, m2, f2, s1, m1, f1),
{
}

} // verus!
