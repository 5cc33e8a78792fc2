use vstd::prelude::*;

verus! {

/// Why a raw message could not be turned into a batch.
#[derive(Debug, Clone, Copy, PartialEq, Eq, Structural)]
pub enum DecodeError {
    /// The message does not start with the expected topic token.
    TopicMismatch,
    /// The payload after the topic is not a well-formed batch.
    Malformed,
}

/// `msg` starts with `topic`.
pub open spec fn has_prefix(msg: Seq<u8>, topic: Seq<u8>) -> bool {
    topic.len() <= msg.len() && msg.subrange(0, topic.len() as int) == topic
}

/// Strips the topic token from a raw message, handing back the payload.
pub fn strip_topic(message: &[u8], topic: &[u8]) -> (r: Result<Vec<u8>, DecodeError>)
    ensures
        has_prefix(message@, topic@) <==> r.is_ok(),
        r.is_ok() ==> r.unwrap()@ == message@.subrange(topic@.len() as int, message@.len() as int),
        r.is_err() ==> r == Err::<Vec<u8>, DecodeError>(DecodeError::TopicMismatch),
{
    if topic.len() > message.len() {
        return Err(DecodeError::TopicMismatch);
    }
    let mut i: usize = 0;
    while i < topic.len()
        invariant
            topic@.len() <= message@.len(),
            i <= topic@.len(),
            forall|j: int| 0 <= j < i ==> message@[j] == topic@[j],
        decreases topic@.len() - i,
    {
        if message[i] != topic[i] {
            assert(message@.subrange(0, topic@.len() as int)[i as int] != topic@[i as int]);
            return Err(DecodeError::TopicMismatch);
        }
        i = i + 1;
    }
    assert(message@.subrange(0, topic@.len() as int) =~= topic@);
    let mut payload: Vec<u8> = Vec::new();
    let mut k: usize = topic.len();
    while k < message.len()
        invariant
            topic@.len() <= k <= message@.len(),
            payload@ == message@.subrange(topic@.len() as int, k as int),
        decreases message@.len() - k,
    {
        payload.push(message[k]);
        k = k + 1;
        assert(payload@ =~= message@.subrange(topic@.len() as int, k as int));
    }
    Ok(payload)
}

/// Puts the topic token in front of a payload, as a publisher does.
pub fn frame_message(topic: &[u8], payload: &[u8]) -> (m: Vec<u8>)
    requires
        topic@.len() + payload@.len() <= usize::MAX,
    ensures
        m@ == topic@ + payload@,
{
    let mut m: Vec<u8> = Vec::new();
    let mut i: usize = 0;
    while i < topic.len()
        invariant
            i <= topic@.len(),
            m@ == topic@.take(i as int),
        decreases topic@.len() - i,
    {
        m.push(topic[i]);
        i = i + 1;
        assert(m@ =~= topic@.take(i as int));
    }
    let mut k: usize = 0;
    while k < payload.len()
        invariant
            k <= payload@.len(),
            m@ == topic@ + payload@.take(k as int),
        decreases payload@.len() - k,
    {
        m.push(payload[k]);
        k = k + 1;
        assert(m@ =~= topic@ + payload@.take(k as int));
    }
    assert(payload@.take(payload@.len() as int) =~= payload@);
    m
}

/// Framing a payload under a topic and stripping that topic again gives the
/// payload back, whatever its bytes.
pub proof fn lemma_frame_round_trip(topic: Seq<u8>, payload: Seq<u8>)
    ensures
        has_prefix(topic + payload, topic),
        (topic + payload).subrange(topic.len() as int, (topic + payload).len() as int) == payload,
{
    assert((topic + payload).subrange(0, topic.len() as int) =~= topic);
    assert((topic + payload).subrange(topic.len() as int, (topic + payload).len() as int) =~= payload);
}

} // verus!
