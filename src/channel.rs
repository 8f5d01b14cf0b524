use vstd::prelude::*;
use crate::codec::views;
use crate::error::UrbitAPIError;
use crate::json::{Json, JsonModel, member_views, lemma_object_view, lemma_array_view, json_of_text, json_text};
use crate::subscription::{Subscription, CreationID, delivers_to, payload_fact};
use crate::text::{parse_u64, u64_of_text};

verus! {

/// The message-id bookkeeping of a channel.
pub struct IdState {
    /// The id that the next action will carry.
    pub next_id: u64,
    /// Whether the channel was deleted; a deleted channel issues no id.
    pub deleted: bool,
}

/// Issuing one message id: the current one, and the counter one higher;
/// refused once the channel is deleted or the counter is spent.
pub open spec fn issue(s: IdState) -> (Option<u64>, IdState) {
    if s.deleted || s.next_id == u64::MAX {
        (None, s)
    } else {
        (Some(s.next_id), IdState { next_id: (s.next_id + 1) as u64, deleted: false })
    }
}

/// Deleting a channel: the delete action takes an id, and the channel is
/// deleted from then on.
pub open spec fn delete(s: IdState) -> (Option<u64>, IdState) {
    (issue(s).0, IdState { deleted: true, ..issue(s).1 })
}

/// Message ids go up by exactly one per issued action, and once a channel is
/// deleted every further request for an id is refused and changes nothing.
pub proof fn lemma_id_sequence(s: IdState)
    ensures
        issue(s).0 is Some ==> issue(s).0 == Some(s.next_id) && issue(s).1.next_id == s.next_id
            + 1,
        issue(s).0 is None ==> issue(s).1 == s,
        delete(s).1.deleted,
        issue(delete(s).1) == (None::<u64>, delete(s).1),
{
}

/// An action envelope: the one-element array that is PUT to the channel.
pub open spec fn envelope(members: Seq<(Seq<char>, JsonModel)>) -> JsonModel {
    JsonModel::Array(seq![JsonModel::Object(members)])
}

pub open spec fn num(n: u64) -> JsonModel {
    JsonModel::Number(true, n, 0)
}

/// The mandatory first action of a channel: a `hood` poke with id 1.
pub open spec fn open_envelope(ship: Seq<char>) -> JsonModel {
    envelope(
        seq![
            ("id"@, num(1)),
            ("action"@, JsonModel::Str("poke"@)),
            ("ship"@, JsonModel::Str(ship)),
            ("app"@, JsonModel::Str("hood"@)),
            ("mark"@, JsonModel::Str("helm-hi"@)),
            ("json"@, JsonModel::Str("Opening channel"@)),
        ],
    )
}

pub open spec fn poke_envelope(
    id: u64,
    ship: Seq<char>,
    app: Seq<char>,
    mark: Seq<char>,
    json: JsonModel,
) -> JsonModel {
    envelope(
        seq![
            ("id"@, num(id)),
            ("action"@, JsonModel::Str("poke"@)),
            ("ship"@, JsonModel::Str(ship)),
            ("app"@, JsonModel::Str(app)),
            ("mark"@, JsonModel::Str(mark)),
            ("json"@, json),
        ],
    )
}

pub open spec fn subscribe_envelope(
    id: u64,
    ship: Seq<char>,
    app: Seq<char>,
    path: Seq<char>,
) -> JsonModel {
    envelope(
        seq![
            ("id"@, num(id)),
            ("action"@, JsonModel::Str("subscribe"@)),
            ("ship"@, JsonModel::Str(ship)),
            ("app"@, JsonModel::Str(app)),
            ("path"@, JsonModel::Str(path)),
        ],
    )
}

pub open spec fn ack_envelope(id: u64, event_id: u64) -> JsonModel {
    envelope(
        seq![("id"@, num(id)), ("action"@, JsonModel::Str("ack"@)), ("event-id"@, num(event_id))],
    )
}

pub open spec fn delete_envelope(id: u64) -> JsonModel {
    envelope(seq![("id"@, num(id)), ("action"@, JsonModel::Str("delete"@))])
}

/// The view of an optional document.
pub open spec fn opt_json(r: Option<Json>) -> Option<JsonModel> {
    match r {
        Some(j) => Some(j@),
        None => None,
    }
}

/// What delivering an event payload does: the first subscription created by
/// the message that the payload answers queues the payload's fact, and the
/// event is acknowledged with the next id (`ack`, to be sent); a payload for
/// no subscription, or without a fact, changes nothing and is not
/// acknowledged.
pub open spec fn delivered(
    old: Channel,
    new: Channel,
    event_id: u64,
    payload: JsonModel,
    ack: Option<JsonModel>,
) -> bool {
    let subs = old.subs();
    let k = first_with_id(subs, crate::subscription::payload_id(payload)->0);
    if crate::subscription::payload_id(payload) is Some && k >= 0 && delivers_to(
        payload,
        subs[k].creation_id,
    ) {
        &&& new.subs().len() == subs.len()
        &&& forall|j: int| 0 <= j < subs.len() && j != k ==> new.subs()[j] == subs[j]
        &&& views(new.subs()[k].message_list@) == views(subs[k].message_list@).push(
            json_text(payload_fact(payload)->0),
        )
        &&& new.subs()[k].creation_id == subs[k].creation_id
        &&& new.subs()[k].app == subs[k].app
        &&& new.subs()[k].path == subs[k].path
        &&& new.ids() == issue(old.ids()).1
        &&& (issue(old.ids()).0 is Some ==> ack == Some(ack_envelope(issue(old.ids()).0->0, event_id)))
        &&& (issue(old.ids()).0 is None ==> ack is None)
    } else {
        &&& ack is None
        &&& new.subs() == old.subs()
        &&& new.ids() == old.ids()
    }
}

/// The status with which the ship acknowledges an action.
pub const NO_CONTENT: u16 = 204;

/// Position of the first subscription created by message `id`, or -1.
pub open spec fn first_with_id(subs: Seq<Subscription>, id: u64) -> int
    decreases subs.len(),
{
    if subs.len() == 0 {
        -1
    } else if first_with_id(subs.drop_last(), id) >= 0 {
        first_with_id(subs.drop_last(), id)
    } else if subs.last().creation_id == id {
        subs.len() - 1
    } else {
        -1
    }
}

/// Position of the first subscription to `app` and `path`, or -1.
pub open spec fn first_with_topic(subs: Seq<Subscription>, app: Seq<char>, path: Seq<char>) -> int
    decreases subs.len(),
{
    if subs.len() == 0 {
        -1
    } else if first_with_topic(subs.drop_last(), app, path) >= 0 {
        first_with_topic(subs.drop_last(), app, path)
    } else if subs.last().app@ == app && subs.last().path@ == path {
        subs.len() - 1
    } else {
        -1
    }
}

proof fn lemma_first_with_id(subs: Seq<Subscription>, id: u64)
    ensures
        -1 <= first_with_id(subs, id) < subs.len(),
        first_with_id(subs, id) >= 0 ==> subs[first_with_id(subs, id)].creation_id == id,
        forall|j: int|
            0 <= j < subs.len() && (first_with_id(subs, id) == -1 || j < first_with_id(subs, id))
                ==> #[trigger] subs[j].creation_id != id,
    decreases subs.len(),
{
    if subs.len() > 0 {
        lemma_first_with_id(subs.drop_last(), id);
        assert forall|j: int| 0 <= j < subs.len() - 1 implies subs.drop_last()[j] == subs[j] by {}
    }
}

proof fn lemma_first_with_topic(subs: Seq<Subscription>, app: Seq<char>, path: Seq<char>)
    ensures
        -1 <= first_with_topic(subs, app, path) < subs.len(),
        first_with_topic(subs, app, path) >= 0 ==> subs[first_with_topic(subs, app, path)].app@
            == app && subs[first_with_topic(subs, app, path)].path@ == path,
        forall|j: int|
            0 <= j < subs.len() && (first_with_topic(subs, app, path) == -1 || j
                < first_with_topic(subs, app, path)) ==> (#[trigger] subs[j]).app@ != app
                || subs[j].path@ != path,
    decreases subs.len(),
{
    if subs.len() > 0 {
        lemma_first_with_topic(subs.drop_last(), app, path);
        assert forall|j: int| 0 <= j < subs.len() - 1 implies subs.drop_last()[j] == subs[j] by {}
    }
}

/// A channel to a ship: the message-id counter, the subscriptions made on it
/// and the framing of every action sent over it.
#[derive(Debug)]
pub struct Channel {
    ship_name: String,
    uid: String,
    url: String,
    subscription_list: Vec<Subscription>,
    message_id_count: u64,
    deleted: bool,
}

/// Builds `[{key: value, ..}]`.
fn envelope_of(members: Vec<(String, Json)>) -> (r: Json)
    ensures
        r@ == envelope(member_views(members@)),
{
    let obj = Json::Object(members);
    proof {
        lemma_object_view(&obj);
    }
    let r = Json::Array(vec![obj]);
    proof {
        lemma_array_view(&r);
        assert(r@->Array_0 =~= seq![JsonModel::Object(member_views(members@))]);
    }
    r
}

fn member(key: &str, value: Json) -> (r: (String, Json))
    ensures
        r.0@ == key@,
        r.1 == value,
{
    (key.to_owned(), value)
}

impl Channel {
    /// The message-id state of this channel.
    pub closed spec fn ids(&self) -> IdState {
        IdState { next_id: self.message_id_count, deleted: self.deleted }
    }

    /// The subscriptions made on this channel, oldest first.
    pub closed spec fn subs(&self) -> Seq<Subscription> {
        self.subscription_list@
    }

    /// The name of the ship, without `~`.
    pub closed spec fn ship(&self) -> Seq<char> {
        self.ship_name@
    }

    /// The url of the channel.
    pub closed spec fn url_text(&self) -> Seq<char> {
        self.url@
    }

    /// The uid of the channel.
    pub closed spec fn uid_text(&self) -> Seq<char> {
        self.uid@
    }

    /// The subscriptions made on this channel, oldest first.
    pub fn subscription_list(&self) -> (r: &Vec<Subscription>)
        ensures
            r@ == self.subs(),
    {
        &self.subscription_list
    }

    /// The name of the ship, without `~`.
    pub fn ship_name(&self) -> (r: &String)
        ensures
            r@ == self.ship(),
    {
        &self.ship_name
    }

    /// The url of the channel.
    pub fn url(&self) -> (r: &String)
        ensures
            r@ == self.url_text(),
    {
        &self.url
    }

    /// The uid of the channel.
    pub fn uid(&self) -> (r: &String)
        ensures
            r@ == self.uid_text(),
    {
        &self.uid
    }

    /// Takes the oldest queued fact of subscription `k`.
    pub fn pop_message(&mut self, k: usize) -> (r: Option<String>)
        requires
            k < old(self).subs().len(),
        ensures
            ({
                let q = old(self).subs()[k as int].message_list@;
                &&& q.len() == 0 ==> r is None && final(self).subs() == old(self).subs()
                &&& q.len() > 0 ==> r == Some(q[0]) && final(self).subs() == old(self).subs().update(
                    k as int,
                    Subscription { message_list: final(self).subs()[k as int].message_list, ..old(self).subs()[k as int] },
                ) && final(self).subs()[k as int].message_list@ == q.drop_first()
            }),
            final(self).ids() == old(self).ids(),
            final(self).ship() == old(self).ship(),
            final(self).url_text() == old(self).url_text(),
            final(self).uid_text() == old(self).uid_text(),
    {
        let ghost before = self.subscription_list@;
        let r = self.subscription_list[k].pop_message();
        proof {
            if before[k as int].message_list@.len() == 0 {
                assert(self.subscription_list@ =~= before);
            } else {
                assert(self.subscription_list@ =~= before.update(
                    k as int,
                    Subscription { message_list: self.subscription_list@[k as int].message_list, ..before[k as int] },
                ));
            }
        }
        r
    }

    /// The id that the next action will carry.
    pub fn message_id_count(&self) -> (r: u64)
        ensures
            r == self.ids().next_id,
    {
        self.message_id_count
    }

    /// Whether the channel was deleted.
    pub fn is_deleted(&self) -> (r: bool)
        ensures
            r == self.ids().deleted,
    {
        self.deleted
    }

    /// The url of a channel: `<ship url>/~/channel/<uid>`.
    pub fn channel_url(ship_url: &str, uid: &str) -> (r: String)
        ensures
            r@ == ship_url@ + "/~/channel/"@ + uid@,
    {
        let mut s = ship_url.to_owned();
        s.append("/~/channel/");
        s.append(uid);
        s
    }

    /// The action that opens a channel, with message id 1.
    pub fn open_action(ship_name: &str) -> (r: Json)
        ensures
            r@ == open_envelope(ship_name@),
    {
        let members = vec![
            member("id", Json::from_u64(1)),
            member("action", Json::from_str("poke")),
            member("ship", Json::from_str(ship_name)),
            member("app", Json::from_str("hood")),
            member("mark", Json::from_str("helm-hi")),
            member("json", Json::from_str("Opening channel")),
        ];
        let r = envelope_of(members);
        assert(member_views(members@) =~= open_envelope(ship_name@)->Array_0[0]->Object_0);
        r
    }

    /// The channel that the open action made, once the ship answered it with
    /// `status`: open, with id 1 spent, when the status is 204.
    pub fn new(ship_url: &str, ship_name: &str, uid: &str, status: u16) -> (r: Result<
        Channel,
        UrbitAPIError,
    >)
        ensures
            status == NO_CONTENT ==> r is Ok && r->Ok_0.ids() == (IdState {
                next_id: 2,
                deleted: false,
            }) && r->Ok_0.subs().len() == 0 && r->Ok_0.ship() == ship_name@
                && r->Ok_0.uid_text() == uid@ && r->Ok_0.url_text() == ship_url@ + "/~/channel/"@ + uid@,
            status != NO_CONTENT ==> r == Err::<Channel, UrbitAPIError>(
                UrbitAPIError::FailedToCreateNewChannel,
            ),
    {
        if status != NO_CONTENT {
            return Err(UrbitAPIError::FailedToCreateNewChannel);
        }
        Ok(
            Channel {
                ship_name: ship_name.to_owned(),
                uid: uid.to_owned(),
                url: Channel::channel_url(ship_url, uid),
                subscription_list: Vec::new(),
                message_id_count: 2,
                deleted: false,
            },
        )
    }

    /// Issues the next message id; `None` once the channel is deleted.
    pub fn get_and_raise_message_id_count(&mut self) -> (r: Option<u64>)
        ensures
            (r, final(self).ids()) == issue(old(self).ids()),
            final(self).subs() == old(self).subs(),
            final(self).ship() == old(self).ship(),
            final(self).url_text() == old(self).url_text(),
            final(self).uid_text() == old(self).uid_text(),
    {
        if self.deleted || self.message_id_count == u64::MAX {
            return None;
        }
        let current = self.message_id_count;
        self.message_id_count = self.message_id_count + 1;
        Some(current)
    }

    /// Frames a poke of `app` with `mark` and `json`, spending one id.
    pub fn poke(&mut self, app: &str, mark: &str, json: Json) -> (r: Option<Json>)
        ensures
            issue(old(self).ids()).0 is Some ==> r is Some && r->0@ == poke_envelope(
                issue(old(self).ids()).0->0,
                old(self).ship(),
                app@,
                mark@,
                json@,
            ),
            issue(old(self).ids()).0 is None ==> r is None,
            final(self).ids() == issue(old(self).ids()).1,
            final(self).subs() == old(self).subs(),
            final(self).ship() == old(self).ship(),
            final(self).url_text() == old(self).url_text(),
    {
        let id = match self.get_and_raise_message_id_count() {
            Some(id) => id,
            None => {
                return None;
            },
        };
        let ghost jv = json@;
        let members = vec![
            member("id", Json::from_u64(id)),
            member("action", Json::from_str("poke")),
            member("ship", Json::from_str(self.ship_name.as_str())),
            member("app", Json::from_str(app)),
            member("mark", Json::from_str(mark)),
            member("json", json),
        ];
        let r = envelope_of(members);
        assert(member_views(members@) =~= poke_envelope(
            id,
            self.ship_name@,
            app@,
            mark@,
            jv,
        )->Array_0[0]->Object_0);
        Some(r)
    }

    /// Frames a subscription to `app` at `path`, spending one id: the id,
    /// which becomes the subscription's creation id, and the action.
    pub fn subscribe_action(&mut self, app: &str, path: &str) -> (r: Option<(CreationID, Json)>)
        ensures
            match r {
                Some((id, body)) => issue(old(self).ids()).0 == Some(id) && body@
                    == subscribe_envelope(id, old(self).ship(), app@, path@),
                None => issue(old(self).ids()).0 is None,
            },
            final(self).ids() == issue(old(self).ids()).1,
            final(self).subs() == old(self).subs(),
            final(self).ship() == old(self).ship(),
            final(self).uid_text() == old(self).uid_text(),
    {
        let id = match self.get_and_raise_message_id_count() {
            Some(id) => id,
            None => {
                return None;
            },
        };
        let members = vec![
            member("id", Json::from_u64(id)),
            member("action", Json::from_str("subscribe")),
            member("ship", Json::from_str(self.ship_name.as_str())),
            member("app", Json::from_str(app)),
            member("path", Json::from_str(path)),
        ];
        let r = envelope_of(members);
        assert(member_views(members@) =~= subscribe_envelope(
            id,
            self.ship_name@,
            app@,
            path@,
        )->Array_0[0]->Object_0);
        Some((id, r))
    }

    /// Records the subscription that message `creation_id` asked for, once
    /// the ship answered it with `status`: added when the status is 204.
    pub fn create_new_subscription(
        &mut self,
        creation_id: CreationID,
        app: &str,
        path: &str,
        status: u16,
    ) -> (r: Result<CreationID, UrbitAPIError>)
        ensures
            status == NO_CONTENT ==> r == Ok::<CreationID, UrbitAPIError>(creation_id)
                && final(self).subs().len() == old(self).subs().len() + 1
                && final(self).subs().drop_last() == old(self).subs() && ({
                let s = final(self).subs().last();
                &&& s.creation_id == creation_id
                &&& s.app@ == app@
                &&& s.path@ == path@
                &&& s.channel_uid@ == old(self).uid_text()
                &&& s.message_list@.len() == 0
            }),
            status != NO_CONTENT ==> r == Err::<CreationID, UrbitAPIError>(
                UrbitAPIError::FailedToCreateNewSubscription,
            ) && final(self).subs() == old(self).subs(),
            final(self).ids() == old(self).ids(),
            final(self).ship() == old(self).ship(),
            final(self).url_text() == old(self).url_text(),
            final(self).uid_text() == old(self).uid_text(),
    {
        if status != NO_CONTENT {
            return Err(UrbitAPIError::FailedToCreateNewSubscription);
        }
        let sub = Subscription {
            channel_uid: self.uid.clone(),
            creation_id,
            app: app.to_owned(),
            path: path.to_owned(),
            message_list: Vec::new(),
        };
        self.subscription_list.push(sub);
        assert(self.subscription_list@.drop_last() =~= old(self).subs());
        Ok(creation_id)
    }

    /// Frames the acknowledgement of transport event `event_id`, spending one id.
    pub fn ack_action(&mut self, event_id: u64) -> (r: Option<Json>)
        ensures
            issue(old(self).ids()).0 is Some ==> r is Some && r->0@ == ack_envelope(
                issue(old(self).ids()).0->0,
                event_id,
            ),
            issue(old(self).ids()).0 is None ==> r is None,
            final(self).ids() == issue(old(self).ids()).1,
            final(self).subs() == old(self).subs(),
            final(self).ship() == old(self).ship(),
            final(self).url_text() == old(self).url_text(),
    {
        let id = match self.get_and_raise_message_id_count() {
            Some(id) => id,
            None => {
                return None;
            },
        };
        let members = vec![
            member("id", Json::from_u64(id)),
            member("action", Json::from_str("ack")),
            member("event-id", Json::from_u64(event_id)),
        ];
        let r = envelope_of(members);
        assert(member_views(members@) =~= ack_envelope(id, event_id)->Array_0[0]->Object_0);
        Some(r)
    }

    /// Delivers a parsed event payload: the first subscription created by the
    /// message the payload answers queues its fact, and the event is
    /// acknowledged (the acknowledgement is returned, to be sent). Payloads
    /// for no subscription, or without a fact, are dropped.
    pub fn deliver_event(&mut self, event_id: u64, payload: &Json) -> (r: Option<Json>)
        ensures
            delivered(*old(self), *final(self), event_id, payload@, opt_json(r)),
            final(self).ship() == old(self).ship(),
            final(self).url_text() == old(self).url_text(),
    {
        let id = match payload.get("id") {
            Some(x) => x.as_u64(),
            None => None,
        };
        let id = match id {
            Some(id) => id,
            None => {
                return None;
            },
        };
        proof {
            lemma_first_with_id(self.subscription_list@, id);
        }
        let mut k: usize = 0;
        while k < self.subscription_list.len() && self.subscription_list[k].creation_id != id
            invariant
                *self == *old(self),
                k <= self.subscription_list@.len(),
                forall|j: int|
                    0 <= j < k ==> #[trigger] self.subscription_list@[j].creation_id != id,
            decreases self.subscription_list@.len() - k,
        {
            k = k + 1;
        }
        if k == self.subscription_list.len() {
            return None;
        }
        assert(self.subscription_list@[k as int].creation_id == id);
        assert(first_with_id(old(self).subs(), id) == k);
        let ghost before = self.subscription_list@;
        let added = self.subscription_list[k].add_parsed_message(payload);
        if added.is_none() {
            assert(self.subscription_list@ =~= before);
            return None;
        }
        self.ack_action(event_id)
    }

    /// Handles one transport event with sequence number `event_id` and data
    /// `data`: see `deliver_event`. Events whose data is not JSON (or holds a
    /// run of more than `MAX_DIGIT_RUN` digits), or whose sequence number is
    /// not a number, are dropped.
    pub fn process_event(&mut self, event_id: &str, data: &str) -> (r: Option<Json>)
        ensures
            (u64_of_text(event_id@) is None || json_of_text(data@) is None) ==> r is None
                && final(self).subs() == old(self).subs() && final(self).ids()
                == old(self).ids(),
            (u64_of_text(event_id@) is Some && json_of_text(data@) is Some) ==> delivered(
                *old(self),
                *final(self),
                u64_of_text(event_id@)->0,
                json_of_text(data@)->0,
                opt_json(r),
            ),
            final(self).ship() == old(self).ship(),
            final(self).url_text() == old(self).url_text(),
    {
        let eid = match parse_u64(event_id) {
            Some(e) => e,
            None => {
                return None;
            },
        };
        match Json::parse(data) {
            Some(payload) => self.deliver_event(eid, &payload),
            None => None,
        }
    }

    /// Position of the first subscription to `app` at `path`.
    pub fn find_subscription(&self, app: &str, path: &str) -> (r: Option<usize>)
        ensures
            match r {
                Some(k) => first_with_topic(self.subs(), app@, path@) == k as int,
                None => first_with_topic(self.subs(), app@, path@) == -1,
            },
    {
        proof {
            lemma_first_with_topic(self.subscription_list@, app@, path@);
        }
        let mut k: usize = 0;
        while k < self.subscription_list.len()
            invariant
                k <= self.subscription_list@.len(),
                forall|j: int|
                    0 <= j < k ==> (#[trigger] self.subscription_list@[j]).app@ != app@
                        || self.subscription_list@[j].path@ != path@,
            decreases self.subscription_list@.len() - k,
        {
            let s = &self.subscription_list[k];
            if crate::text::str_eq(s.app.as_str(), app) && crate::text::str_eq(
                s.path.as_str(),
                path,
            ) {
                assert(self.subscription_list@[k as int].app@ == app@);
                assert(self.subscription_list@[k as int].path@ == path@);
                proof {
                    let subs = self.subscription_list@;
                    lemma_first_with_topic(subs, app@, path@);
                    let f = first_with_topic(subs, app@, path@);
                    if f < k {
                        if f >= 0 {
                            assert(subs[f].app@ != app@ || subs[f].path@ != path@);
                        } else {
                            assert(subs[k as int].app@ != app@ || subs[k as int].path@ != path@);
                        }
                    } else if f > k {
                        assert(subs[k as int].app@ != app@ || subs[k as int].path@ != path@);
                    }
                }
                return Some(k);
            }
            k = k + 1;
        }
        None
    }

    /// Removes the first subscription to `app` at `path` from this channel's
    /// records; `None` where there is none. The ship is not told.
    pub fn unsubscribe(&mut self, app: &str, path: &str) -> (r: Option<bool>)
        ensures
            ({
                let k = first_with_topic(old(self).subs(), app@, path@);
                &&& k == -1 ==> r is None && final(self).subs()
                    == old(self).subs()
                &&& k >= 0 ==> r == Some(true) && final(self).subs()
                    == old(self).subs().remove(k)
            }),
            final(self).ids() == old(self).ids(),
    {
        match self.find_subscription(app, path) {
            Some(k) => {
                proof {
                    lemma_first_with_topic(self.subscription_list@, app@, path@);
                }
                self.subscription_list.remove(k);
                Some(true)
            },
            None => None,
        }
    }

    /// Frames the deletion of the channel, spending one id; from then on the
    /// channel issues no id. `None` where no id could be issued.
    pub fn delete_channel(&mut self) -> (r: Option<Json>)
        ensures
            delete(old(self).ids()).0 is Some ==> r is Some && r->0@ == delete_envelope(
                delete(old(self).ids()).0->0,
            ),
            delete(old(self).ids()).0 is None ==> r is None,
            final(self).ids() == delete(old(self).ids()).1,
            final(self).subs() == old(self).subs(),
    {
        let id = self.get_and_raise_message_id_count();
        self.deleted = true;
        match id {
            Some(id) => {
                let members = vec![member("id", Json::from_u64(id)), member("action", Json::from_str("delete"))];
                let r = envelope_of(members);
                assert(member_views(members@) =~= delete_envelope(id)->Array_0[0]->Object_0);
                Some(r)
            },
            None => None,
        }
    }
}

} // verus!
