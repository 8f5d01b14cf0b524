use vstd::prelude::*;
use crate::codec::views;
use crate::json::{Json, JsonModel, json_of_text, dump_json, json_text};

verus! {

/// Id of the message that created a `Subscription`.
pub type CreationID = u64;

/// A subscription made on a channel, with the facts delivered to it that
/// nobody has taken yet.
#[derive(Debug, Clone)]
pub struct Subscription {
    /// The uid of the channel this subscription was made in.
    pub channel_uid: String,
    /// The id of the message that created this subscription.
    pub creation_id: CreationID,
    /// The app subscribed to.
    pub app: String,
    /// The path subscribed to in that app.
    pub path: String,
    /// Facts not yet taken, oldest first, each as JSON text.
    pub message_list: Vec<String>,
}

/// The message id that an event payload answers: its `id` member.
pub open spec fn payload_id(p: JsonModel) -> Option<u64> {
    match p.field("id"@) {
        Some(x) => x.as_u64(),
        None => None,
    }
}

/// The fact that an event payload carries: its `json` member, when present
/// and not null.
pub open spec fn payload_fact(p: JsonModel) -> Option<JsonModel> {
    match p.field("json"@) {
        Some(JsonModel::Null) => None,
        Some(f) => Some(f),
        None => None,
    }
}

/// Whether a payload is a fact for the subscription created by message `id`.
pub open spec fn delivers_to(p: JsonModel, id: u64) -> bool {
    payload_id(p) == Some(id) && payload_fact(p) is Some
}

impl Subscription {
    /// Whether the event payload answers the message that created this subscription.
    pub fn event_matches(&self, payload: &Json) -> (r: bool)
        ensures
            r == (payload_id(payload@) == Some(self.creation_id)),
    {
        match payload.get("id") {
            Some(id) => match id.as_u64() {
                Some(n) => n == self.creation_id,
                None => false,
            },
            None => false,
        }
    }

    /// Queues the fact of a parsed event payload when the payload is for this
    /// subscription; returns the new queue length, or `None` and changes
    /// nothing.
    pub fn add_parsed_message(&mut self, payload: &Json) -> (r: Option<u64>)
        ensures
            delivers_to(payload@, old(self).creation_id) ==> {
                &&& views(final(self).message_list@) == views(old(self).message_list@).push(
                    json_text(payload_fact(payload@)->0),
                )
                &&& r == Some(final(self).message_list@.len() as u64)
            },
            !delivers_to(payload@, old(self).creation_id) ==> r is None && views(
                final(self).message_list@,
            ) == views(old(self).message_list@),
            r is None ==> *final(self) == *old(self),
            final(self).creation_id == old(self).creation_id,
            final(self).app == old(self).app,
            final(self).path == old(self).path,
            final(self).channel_uid == old(self).channel_uid,
    {
        if !self.event_matches(payload) {
            return None;
        }
        match payload.get("json") {
            Some(fact) => {
                if fact.is_null() {
                    return None;
                }
                let text = dump_json(fact);
                let ghost before = self.message_list@;
                self.message_list.push(text);
                assert(views(self.message_list@) =~= views(before).push(text@));
                Some(self.message_list.len() as u64)
            },
            None => None,
        }
    }

    /// Parses the data of an event and queues its fact when it is for this
    /// subscription; `None` where the data is not JSON (or holds a
    /// run of more than `MAX_DIGIT_RUN` digits).
    pub fn add_to_message_list(&mut self, data: &str) -> (r: Option<u64>)
        ensures
            json_of_text(data@) is None ==> r is None && final(self).message_list@
                == old(self).message_list@,
            json_of_text(data@) is Some && delivers_to(
                json_of_text(data@)->0,
                old(self).creation_id,
            ) ==> views(final(self).message_list@) == views(old(self).message_list@).push(
                json_text(payload_fact(json_of_text(data@)->0)->0),
            ) && r == Some(final(self).message_list@.len() as u64),
            json_of_text(data@) is Some && !delivers_to(
                json_of_text(data@)->0,
                old(self).creation_id,
            ) ==> r is None && views(final(self).message_list@) == views(
                old(self).message_list@,
            ),
            final(self).creation_id == old(self).creation_id,
            final(self).app == old(self).app,
            final(self).path == old(self).path,
            final(self).channel_uid == old(self).channel_uid,
    {
        match Json::parse(data) {
            Some(payload) => self.add_parsed_message(&payload),
            None => None,
        }
    }

    /// Takes the oldest queued fact, `None` when the queue is empty.
    pub fn pop_message(&mut self) -> (r: Option<String>)
        ensures
            old(self).message_list@.len() == 0 ==> r is None && *final(self) == *old(self),
            old(self).message_list@.len() > 0 ==> r == Some(old(self).message_list@[0])
                && final(self).message_list@ == old(self).message_list@.drop_first(),
            final(self).creation_id == old(self).creation_id,
            final(self).app == old(self).app,
            final(self).path == old(self).path,
            final(self).channel_uid == old(self).channel_uid,
    {
        if self.message_list.len() == 0 {
            return None;
        }
        let m = self.message_list.remove(0);
        assert(self.message_list@ =~= old(self).message_list@.drop_first());
        Some(m)
    }
}

} // verus!
