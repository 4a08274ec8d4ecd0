//! Who is connected: one Studio client at a time, its route, and who gets a message.

use crate::text::{copy_optional, optional_text};
use vstd::prelude::*;

verus! {

/// Why a request to the queue is refused.
#[derive(Debug, Clone, Copy, PartialEq, Eq, Structural)]
pub enum QueueError {
    NotSubscribed,
    AlreadySubscribed,
    OtherClient,
    NoClient,
    NoRoute,
}

impl QueueError {
    pub open spec fn text(self) -> Seq<char> {
        match self {
            QueueError::NotSubscribed => "Not subscribed"@,
            QueueError::AlreadySubscribed => "Already subscribed"@,
            QueueError::OtherClient => "another Studio client is already connected"@,
            QueueError::NoClient => "Capture Manifest requires one connected Studio client"@,
            QueueError::NoRoute => "Studio route is unavailable"@,
        }
    }

    pub fn message(&self) -> (message: String)
        ensures
            message@ == self.text(),
    {
        match self {
            QueueError::NotSubscribed => "Not subscribed".to_owned(),
            QueueError::AlreadySubscribed => "Already subscribed".to_owned(),
            QueueError::OtherClient => "another Studio client is already connected".to_owned(),
            QueueError::NoClient => "Capture Manifest requires one connected Studio client".to_owned(),
            QueueError::NoRoute => "Studio route is unavailable".to_owned(),
        }
    }
}

/// The Studio that a client speaks for.
#[derive(Debug, PartialEq, Eq)]
pub struct StudioRoute {
    pub studio_session_id: String,
    pub instance_id: String,
    pub bridge_id: Option<String>,
    pub manifest_identities_authoritative: bool,
}

#[verifier::ext_equal]
pub struct RouteView {
    pub studio_session_id: Seq<char>,
    pub instance_id: Seq<char>,
    pub bridge_id: Option<Seq<char>>,
    pub manifest_identities_authoritative: bool,
}

impl View for StudioRoute {
    type V = RouteView;

    open spec fn view(&self) -> RouteView {
        RouteView {
            studio_session_id: self.studio_session_id@,
            instance_id: self.instance_id@,
            bridge_id: optional_text(self.bridge_id),
            manifest_identities_authoritative: self.manifest_identities_authoritative,
        }
    }
}

impl Clone for StudioRoute {
    fn clone(&self) -> (copy: StudioRoute)
        ensures
            copy@ == self@,
    {
        StudioRoute {
            studio_session_id: self.studio_session_id.clone(),
            instance_id: self.instance_id.clone(),
            bridge_id: copy_optional(&self.bridge_id),
            manifest_identities_authoritative: self.manifest_identities_authoritative,
        }
    }
}

/// A connected client.
#[derive(Debug)]
pub struct Listener {
    pub id: u32,
    pub name: String,
    pub studio_route: Option<StudioRoute>,
}

#[verifier::ext_equal]
pub struct ListenerView {
    pub id: u32,
    pub name: Seq<char>,
    pub studio_route: Option<RouteView>,
}

/// The route that is known, if any.
pub open spec fn known_route(route: Option<StudioRoute>) -> Option<RouteView> {
    match route {
        Some(route) => Some(route@),
        None => None,
    }
}

impl View for Listener {
    type V = ListenerView;

    open spec fn view(&self) -> ListenerView {
        ListenerView { id: self.id, name: self.name@, studio_route: known_route(self.studio_route) }
    }
}

/// The connected clients. At most one is connected at a time.
#[derive(Debug)]
pub struct Queue {
    listeners: Vec<Listener>,
    unsynced_changes: usize,
    awaits_first: bool,
}

#[verifier::ext_equal]
pub struct QueueView {
    /// The connected client.
    pub listener: Option<ListenerView>,
    /// How many messages nobody got.
    pub unsynced_changes: usize,
    /// The first subscription is still to be reported.
    pub awaits_first: bool,
}

impl View for Queue {
    type V = QueueView;

    closed spec fn view(&self) -> QueueView {
        QueueView {
            listener: if self.listeners@.len() > 0 {
                Some(self.listeners@[0]@)
            } else {
                None
            },
            unsynced_changes: self.unsynced_changes,
            awaits_first: self.awaits_first,
        }
    }
}

impl QueueView {
    /// A client is connected under that number.
    pub open spec fn is_subscribed(self, id: u32) -> bool {
        self.listener matches Some(listener) && listener.id == id
    }

    /// The route of a client.
    pub open spec fn route(self, id: u32) -> Option<RouteView> {
        if self.is_subscribed(id) {
            self.listener->0.studio_route
        } else {
            None
        }
    }

    /// The queue with another route of its client.
    pub open spec fn with_route(self, route: RouteView) -> QueueView {
        QueueView {
            listener: Some(ListenerView { studio_route: Some(route), ..self.listener->0 }),
            ..self
        }
    }
}

impl Queue {
    #[verifier::type_invariant]
    spec fn single(self) -> bool {
        self.listeners@.len() <= 1
    }

    pub fn new() -> (queue: Queue)
        ensures
            queue@ == (QueueView { listener: None, unsynced_changes: 0, awaits_first: false }),
    {
        Queue { listeners: Vec::new(), unsynced_changes: 0, awaits_first: false }
    }

    /// Asks for a report of the first subscription.
    pub fn on_first_subscribe(&mut self)
        ensures
            final(self)@ == (QueueView { awaits_first: true, ..old(self)@ }),
    {
        proof {
            use_type_invariant(&*self);
        }
        self.awaits_first = true;
    }

    pub fn is_subscribed(&self, id: u32) -> (subscribed: bool)
        ensures
            subscribed == self@.is_subscribed(id),
    {
        self.listeners.len() > 0 && self.listeners[0].id == id
    }

    pub fn has_subscribers(&self) -> (some: bool)
        ensures
            some == (self@.listener is Some),
    {
        self.listeners.len() > 0
    }

    /// Who gets a message: the client that is named, or whoever is connected. A
    /// message that nobody gets is counted.
    pub fn push(&mut self, id: Option<u32>) -> (recipient: Result<Option<u32>, QueueError>)
        ensures
            match id {
                Some(id) => {
                    &&& final(self)@ == old(self)@
                    &&& recipient == (if old(self)@.is_subscribed(id) {
                        Ok::<Option<u32>, QueueError>(Some(id))
                    } else {
                        Err::<Option<u32>, QueueError>(QueueError::NotSubscribed)
                    })
                },
                None => match old(self)@.listener {
                    Some(listener) => final(self)@ == old(self)@ && recipient == Ok::<Option<u32>, QueueError>(
                        Some(listener.id),
                    ),
                    None => recipient == Ok::<Option<u32>, QueueError>(None) && final(self)@ == (QueueView {
                        unsynced_changes: if old(self)@.unsynced_changes < usize::MAX {
                            (old(self)@.unsynced_changes + 1) as usize
                        } else {
                            usize::MAX
                        },
                        ..old(self)@
                    }),
                },
            },
    {
        match id {
            Some(id) => if self.is_subscribed(id) {
                Ok(Some(id))
            } else {
                Err(QueueError::NotSubscribed)
            },
            None => {
                if self.listeners.len() > 0 {
                    return Ok(Some(self.listeners[0].id));
                }
                proof {
                    use_type_invariant(&*self);
                }
                if self.unsynced_changes < usize::MAX {
                    self.unsynced_changes = self.unsynced_changes + 1;
                }
                Ok(None)
            },
        }
    }

    /// Whether the messages that nobody got are worth a warning. A limit of zero
    /// means none.
    pub fn warns(&self, max_unsynced_changes: usize) -> (warns: bool)
        ensures
            warns == (max_unsynced_changes > 0 && self@.unsynced_changes >= max_unsynced_changes),
    {
        max_unsynced_changes > 0 && self.unsynced_changes >= max_unsynced_changes
    }

    /// How many messages nobody got.
    pub fn unsynced_changes(&self) -> (count: usize)
        ensures
            count == self@.unsynced_changes,
    {
        self.unsynced_changes
    }

    /// Connects a client, unless one is connected. The result says whether it is
    /// the first one, which is to be reported.
    pub fn subscribe(&mut self, id: u32, name: &str, studio_route: Option<StudioRoute>) -> (result: Result<
        bool,
        QueueError,
    >)
        ensures
            match old(self)@.listener {
                Some(listener) => {
                    &&& final(self)@ == old(self)@
                    &&& result == Err::<bool, QueueError>(
                        if listener.id == id {
                            QueueError::AlreadySubscribed
                        } else {
                            QueueError::OtherClient
                        },
                    )
                },
                None => {
                    &&& result == Ok::<bool, QueueError>(old(self)@.awaits_first)
                    &&& final(self)@ == (QueueView {
                        listener: Some(
                            ListenerView { id, name: name@, studio_route: known_route(studio_route) },
                        ),
                        awaits_first: false,
                        ..old(self)@
                    })
                },
            },
    {
        if self.is_subscribed(id) {
            return Err(QueueError::AlreadySubscribed);
        }
        if self.listeners.len() > 0 {
            return Err(QueueError::OtherClient);
        }
        let first: bool = self.awaits_first;
        let unsynced_changes: usize = self.unsynced_changes;
        let listener: Listener = Listener { id, name: name.to_owned(), studio_route };
        let mut listeners: Vec<Listener> = Vec::new();
        listeners.push(listener);
        *self = Queue { listeners, unsynced_changes, awaits_first: false };
        Ok(first)
    }

    /// Disconnects a client.
    pub fn unsubscribe(&mut self, id: u32) -> (result: Result<(), QueueError>)
        ensures
            old(self)@.is_subscribed(id) ==> result is Ok && final(self)@ == (QueueView {
                listener: None,
                ..old(self)@
            }),
            !old(self)@.is_subscribed(id) ==> result == Err::<(), QueueError>(QueueError::NotSubscribed) && final(self)@ == old(self)@,
    {
        if !self.is_subscribed(id) {
            return Err(QueueError::NotSubscribed);
        }
        self.listeners = Vec::new();
        Ok(())
    }

    /// The number of the connected client.
    pub fn single_listener_id(&self) -> (result: Result<u32, QueueError>)
        ensures
            match self@.listener {
                Some(listener) => result == Ok::<u32, QueueError>(listener.id),
                None => result == Err::<u32, QueueError>(QueueError::NoClient),
            },
    {
        if self.listeners.len() == 0 {
            return Err(QueueError::NoClient);
        }
        Ok(self.listeners[0].id)
    }

    /// The route of a client.
    pub fn studio_route(&self, id: u32) -> (route: Option<StudioRoute>)
        ensures
            known_route(route) == self@.route(id),
    {
        if !self.is_subscribed(id) {
            return None;
        }
        match &self.listeners[0].studio_route {
            Some(route) => Some(route.clone()),
            None => None,
        }
    }

    /// Binds the route of a client to a bridge.
    pub fn bind_studio_bridge(&mut self, id: u32, bridge_id: &str) -> (result: Result<(), QueueError>)
        ensures
            match old(self)@.route(id) {
                Some(route) => result is Ok && final(self)@ == old(self)@.with_route(
                    RouteView { bridge_id: Some(bridge_id@), ..route },
                ),
                None => result == Err::<(), QueueError>(QueueError::NoRoute) && final(self)@ == old(self)@,
            },
    {
        let mut route: StudioRoute = match self.studio_route(id) {
            Some(route) => route,
            None => {
                return Err(QueueError::NoRoute);
            },
        };
        route.bridge_id = Some(bridge_id.to_owned());
        self.replace_route(route);
        Ok(())
    }

    fn replace_route(&mut self, route: StudioRoute)
        requires
            old(self)@.listener is Some,
        ensures
            final(self)@ == old(self)@.with_route(route@),
    {
        let id: u32 = self.listeners[0].id;
        let name: String = self.listeners[0].name.clone();
        let mut listeners: Vec<Listener> = Vec::new();
        listeners.push(Listener { id, name, studio_route: Some(route) });
        self.listeners = listeners;
    }

    pub fn mark_manifest_identities_authoritative(&mut self, id: u32) -> (result: Result<(), QueueError>)
        ensures
            match old(self)@.route(id) {
                Some(route) => result is Ok && final(self)@ == old(self)@.with_route(
                    RouteView { manifest_identities_authoritative: true, ..route },
                ),
                None => result == Err::<(), QueueError>(QueueError::NoRoute) && final(self)@ == old(self)@,
            },
    {
        self.set_manifest_identities_authoritative(id, true)
    }

    /// Says whether the identities of the manifest count in the Studio of a client.
    pub fn set_manifest_identities_authoritative(&mut self, id: u32, authoritative: bool) -> (result: Result<
        (),
        QueueError,
    >)
        ensures
            match old(self)@.route(id) {
                Some(route) => result is Ok && final(self)@ == old(self)@.with_route(
                    RouteView { manifest_identities_authoritative: authoritative, ..route },
                ),
                None => result == Err::<(), QueueError>(QueueError::NoRoute) && final(self)@ == old(self)@,
            },
    {
        let mut route: StudioRoute = match self.studio_route(id) {
            Some(route) => route,
            None => {
                return Err(QueueError::NoRoute);
            },
        };
        route.manifest_identities_authoritative = authoritative;
        self.replace_route(route);
        Ok(())
    }

    /// The name of the connected client.
    pub fn get_first_non_internal_listener_name(&self) -> (name: Option<String>)
        ensures
            optional_text(name) == (match self@.listener {
                Some(listener) => Some(listener.name),
                None => None,
            }),
    {
        if self.listeners.len() == 0 {
            return None;
        }
        Some(self.listeners[0].name.clone())
    }
}

} // verus!
