//! Document lifecycle events and the bus that broadcasts them.
//!
//! Events are sent after a change to a document or folder has been made.
//! Every subscriber receives every event sent after it subscribed; a sender
//! never waits for a subscriber.

use vstd::prelude::*;
use vstd::arithmetic::power2::is_pow2;
use std::sync::Arc;
use tokio::sync::broadcast::{Receiver, Sender};

verus! {

/// A change to one document. Paths are relative and slash-separated.
#[derive(Debug, Clone)]
pub enum DocEvent {
    /// A new document was created.
    Created { rel_path: String },
    /// The content of a document was updated.
    Updated { rel_path: String },
    /// A document was deleted.
    Deleted { rel_path: String },
    /// A document was renamed.
    Renamed { old_path: String, new_path: String },
    /// A document was moved to another folder.
    Moved { old_path: String, new_path: String },
}

/// A change to one folder, with the documents it affects.
#[derive(Debug, Clone)]
pub enum FolderEvent {
    /// A folder was created.
    Created { rel_path: String },
    /// A folder was renamed; `affected_docs` pairs old and new paths.
    Renamed { old_path: String, new_path: String, affected_docs: Vec<(String, String)> },
    /// A folder was moved; `affected_docs` pairs old and new paths.
    Moved { old_path: String, new_path: String, affected_docs: Vec<(String, String)> },
    /// A folder was deleted with the documents in it.
    Deleted { rel_path: String, removed_docs: Vec<String> },
}

/// Any lifecycle event.
#[derive(Debug, Clone)]
pub enum Event {
    Doc(DocEvent),
    Folder(FolderEvent),
}

#[verifier::external_type_specification]
#[verifier::external_body]
#[verifier::reject_recursive_types(T)]
pub struct ExSender<T>(Sender<T>);

#[verifier::external_type_specification]
#[verifier::external_body]
#[verifier::reject_recursive_types(T)]
pub struct ExReceiver<T>(Receiver<T>);

/// The number of events that the channel of `sender` buffers for each
/// subscriber: the length of its ring of slots.
pub uninterp spec fn channel_capacity(sender: Sender<Event>) -> nat;

/// The least of `power`, `2 * power`, `4 * power`, ... that is at least
/// `capacity`.
pub open spec fn round_up(capacity: nat, power: nat) -> nat
    decreases
            if capacity > power {
                capacity - power
            } else {
                0
            },
{
    if power == 0 || power >= capacity {
        power
    } else {
        round_up(capacity, 2 * power)
    }
}

/// The number of events that a channel asked to buffer `capacity` events
/// does buffer: the least power of two that is at least `capacity`.
pub open spec fn buffer_size(capacity: nat) -> nat {
    round_up(capacity, 1)
}

proof fn lemma_round_up(capacity: nat, power: nat)
    requires
        capacity >= 1,
        is_pow2(power as int),
        power < 2 * capacity,
    ensures
        capacity <= round_up(capacity, power) < 2 * capacity,
        is_pow2(round_up(capacity, power) as int),
    decreases
            if capacity > power {
                capacity - power
            } else {
                0
            },
{
    reveal(is_pow2);
    if power < capacity {
        assert(power >= 1);
        assert(is_pow2((2 * power) as int)) by {
            assert((2 * power) / 2 == power);
        }
        lemma_round_up(capacity, 2 * power);
    }
}

/// A channel buffers at least what it was asked for, less than twice as
/// much, and a power of two.
pub proof fn lemma_buffer_size(capacity: nat)
    requires
        capacity >= 1,
    ensures
        capacity <= buffer_size(capacity) < 2 * capacity,
        is_pow2(buffer_size(capacity) as int),
        is_pow2(capacity as int) ==> buffer_size(capacity) == capacity,
{
    reveal(is_pow2);
    lemma_round_up(capacity, 1);
    if is_pow2(capacity as int) {
        lemma_round_up_reaches(capacity, 1);
    }
}

proof fn lemma_round_up_reaches(capacity: nat, power: nat)
    requires
        is_pow2(capacity as int),
        is_pow2(power as int),
        power <= capacity,
    ensures
        round_up(capacity, power) == capacity,
    decreases
            if capacity > power {
                capacity - power
            } else {
                0
            },
{
    reveal(is_pow2);
    if power < capacity {
        assert(power >= 1);
        lemma_pow2_gap(capacity as int, power as int);
        assert(is_pow2((2 * power) as int)) by {
            assert((2 * power) / 2 == power);
        }
        lemma_round_up_reaches(capacity, 2 * power);
    }
}

/// Between a power of two and its double lies no power of two.
proof fn lemma_pow2_gap(big: int, small: int)
    requires
        is_pow2(big),
        is_pow2(small),
        small < big,
    ensures
        2 * small <= big,
    decreases big,
{
    reveal(is_pow2);
    if small > 1 {
        lemma_pow2_gap(big / 2, small / 2);
    }
}

/// Makes a channel with `tokio::sync::broadcast::channel` and keeps its
/// sending half.
///
/// Trusted: the channel rounds the capacity asked for up to a power of two
/// and buffers that many events. The call panics for a capacity of zero or
/// above `usize::MAX / 2`, which `requires` leaves out.
#[verifier::external_body]
fn open_channel(capacity: usize) -> (sender: Sender<Event>)
    requires
        0 < capacity <= usize::MAX / 2,
    ensures
        channel_capacity(sender) == buffer_size(capacity as nat),
{
    let (sender, _) = tokio::sync::broadcast::channel(capacity);
    sender
}

/// Makes another sending half with `Sender::clone`.
///
/// Trusted: the copy sends to the channel of `sender`.
#[verifier::external_body]
fn clone_sender(sender: &Sender<Event>) -> (copy: Sender<Event>)
    ensures
        channel_capacity(copy) == channel_capacity(*sender),
{
    sender.clone()
}

/// The number of events that the channel `receiver` listens to buffers for
/// it.
pub uninterp spec fn receiver_capacity(receiver: Receiver<Event>) -> nat;

/// The most subscribers that a channel counts.
pub const MAX_SUBSCRIBERS: usize = usize::MAX / 4;

/// Subscribes with `Sender::subscribe`.
///
/// Trusted: the receiver listens to the channel of `sender`, so as many
/// events are buffered for it as that channel buffers. Which events it will
/// see is not claimed. The call panics once `MAX_SUBSCRIBERS` receivers are alive
/// together, which no address space has room for.
#[verifier::external_body]
fn new_receiver(sender: &Sender<Event>) -> (receiver: Receiver<Event>)
    ensures
        receiver_capacity(receiver) == channel_capacity(*sender),
{
    sender.subscribe()
}

/// Sends with `Sender::send`. Without subscribers the event is dropped; that
/// is no failure.
#[verifier::external_body]
fn send_event(sender: &Sender<Event>, event: Event) {
    let _ = sender.send(event);
}

/// Counts the subscribers with `Sender::receiver_count`.
///
/// Trusted: the count never exceeds `MAX_SUBSCRIBERS`, because a channel
/// refuses the subscriber that would take it further. The count itself
/// changes as subscribers come and go, so no more is claimed.
#[verifier::external_body]
fn count_receivers(sender: &Sender<Event>) -> (count: usize)
    ensures
        count <= MAX_SUBSCRIBERS,
{
    sender.receiver_count()
}

/// The capacity of a bus made by [`EventBus::new`].
pub const DEFAULT_CAPACITY: usize = 256;

/// Broadcasts lifecycle events to its subscribers.
pub struct EventBus {
    sender: Sender<Event>,
}

/// A bus shared by its users.
pub type SharedEventBus = Arc<EventBus>;

impl EventBus {
    /// The number of events buffered for a subscriber that falls behind.
    pub closed spec fn capacity(&self) -> nat {
        channel_capacity(self.sender)
    }

    /// A bus that buffers `DEFAULT_CAPACITY` events for each subscriber.
    pub fn new() -> (bus: EventBus)
        ensures
            bus.capacity() == DEFAULT_CAPACITY,
    {
        proof {
            reveal_with_fuel(round_up, 10);
            assert(buffer_size(256) == 256);
        }
        EventBus::with_capacity(DEFAULT_CAPACITY)
    }

    /// A bus that buffers at least `capacity` events for each subscriber:
    /// `capacity` rounded up to a power of two.
    pub fn with_capacity(capacity: usize) -> (bus: EventBus)
        requires
            0 < capacity <= usize::MAX / 2,
        ensures
            bus.capacity() == buffer_size(capacity as nat),
            capacity <= bus.capacity() < 2 * capacity,
    {
        proof {
            lemma_buffer_size(capacity as nat);
        }
        EventBus { sender: open_channel(capacity) }
    }

    /// A new subscriber: it receives the events sent from now on, and
    /// `capacity()` of them are buffered for it while it falls behind.
    pub fn subscribe(&self) -> (receiver: Receiver<Event>)
        ensures
            receiver_capacity(receiver) == self.capacity(),
    {
        new_receiver(&self.sender)
    }

    /// Sends a document event to every subscriber.
    pub fn emit_doc(&self, event: DocEvent) {
        send_event(&self.sender, Event::Doc(event));
    }

    /// Sends a folder event to every subscriber.
    pub fn emit_folder(&self, event: FolderEvent) {
        send_event(&self.sender, Event::Folder(event));
    }

    /// The number of subscribers alive now; never more than
    /// `MAX_SUBSCRIBERS`.
    pub fn subscriber_count(&self) -> (count: usize)
        ensures
            count <= MAX_SUBSCRIBERS,
    {
        count_receivers(&self.sender)
    }
}

impl Clone for EventBus {
    /// Another handle to the same bus.
    fn clone(&self) -> (copy: EventBus)
        ensures
            copy.capacity() == self.capacity(),
    {
        EventBus { sender: clone_sender(&self.sender) }
    }
}

impl Default for EventBus {
    fn default() -> (bus: EventBus)
        ensures
            bus.capacity() == DEFAULT_CAPACITY,
    {
        EventBus::new()
    }
}

/// A new bus of default capacity, ready to be shared.
pub fn create_event_bus() -> (bus: SharedEventBus)
    ensures
        bus.capacity() == DEFAULT_CAPACITY,
{
    Arc::new(EventBus::new())
}

} // verus!
