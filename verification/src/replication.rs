//! The replication update message: type hashes, entity links, the writer of
//! an update and the reader that tells the receiving side what to apply.
use vstd::prelude::*;
use crate::codec::append_bytes;

verus! {

// ---------------------------------------------------------------------------
// Little-endian 32-bit words, through byteorder
// ---------------------------------------------------------------------------

/// The four little-endian bytes of `v`.
pub open spec fn le32(v: u32) -> Seq<u8> {
    seq![(v % 0x100) as u8, ((v / 0x100) % 0x100) as u8, ((v / 0x1_0000) % 0x100) as u8, (v / 0x100_0000) as u8]
}

/// The number that the first four bytes of `s` give, least significant first.
pub open spec fn le32_value(s: Seq<u8>) -> nat {
    s[0] as nat + 0x100 * s[1] as nat + 0x1_0000 * s[2] as nat + 0x100_0000 * s[3] as nat
}

/// `<LittleEndian as ByteOrder>::write_u32` into a four-byte array: the bytes
/// of `n`, least significant first (byteorder copies `n.to_le_bytes()`).
#[verifier::external_body]
fn u32_le_bytes(n: u32) -> (r: [u8; 4])
    ensures
        r@ == le32(n),
{
    let mut b = [0u8; 4];
    <byteorder::LittleEndian as byteorder::ByteOrder>::write_u32(&mut b, n);
    b
}

/// `<LittleEndian as ByteOrder>::read_u32` on the first four bytes of `buf`,
/// least significant first (byteorder reads `u32::from_le_bytes`); it panics
/// on fewer than four bytes, which the bound leaves out.
#[verifier::external_body]
fn u32_from_le(buf: &[u8]) -> (r: u32)
    requires
        buf@.len() >= 4,
    ensures
        r as nat == le32_value(buf@),
{
    <byteorder::LittleEndian as byteorder::ByteOrder>::read_u32(buf)
}

/// Reading back the bytes of a word gives the word.
pub proof fn law_le32_roundtrip(v: u32)
    ensures
        le32(v).len() == 4,
        le32_value(le32(v)) == v,
{
    let a = v % 0x100;
    let b = (v / 0x100) % 0x100;
    let c = (v / 0x1_0000) % 0x100;
    let d = v / 0x100_0000;
    assert(v == a + 0x100 * b + 0x1_0000 * c + 0x100_0000 * d) by (nonlinear_arith)
        requires
            a == v % 0x100,
            b == (v / 0x100) % 0x100,
            c == (v / 0x1_0000) % 0x100,
            d == v / 0x100_0000;
}

// ---------------------------------------------------------------------------
// Type hashes
// ---------------------------------------------------------------------------

/// The hash that `std::hash::DefaultHasher::new()` gives the string `name`.
pub uninterp spec fn default_hash_str(name: Seq<char>) -> u64;

/// Hashes `name` as a `str` with a fresh `std::hash::DefaultHasher`, and
/// finishes: `DefaultHasher::new`, `Hash::hash`, `Hasher::finish`, the one
/// idiom. Every hasher that `new` creates is the same, so the result is
/// named by `name` alone.
#[verifier::external_body]
fn hash_type_name(name: &str) -> (r: u64)
    ensures
        r == default_hash_str(name@),
{
    let mut hasher = std::hash::DefaultHasher::new();
    std::hash::Hash::hash(name, &mut hasher);
    std::hash::Hasher::finish(&hasher)
}

/// A 64-bit hash folded to 32 bits: its low half XOR its high half.
pub open spec fn folded_hash(hash: u64) -> u32 {
    (hash as u32) ^ ((hash >> 32u64) as u32)
}

/// Folds a 64-bit hash to the 32 bits that identify a type on the wire.
pub fn fold_type_hash(hash: u64) -> (r: u32)
    ensures
        r == folded_hash(hash),
{
    hash as u32 ^ (hash >> 32) as u32
}

/// The 32-bit hash that identifies the type named `name` across instances.
pub fn type_hash(name: &str) -> (r: u32)
    ensures
        r == folded_hash(default_hash_str(name@)),
{
    fold_type_hash(hash_type_name(name))
}

// ---------------------------------------------------------------------------
// Entity links
// ---------------------------------------------------------------------------

/// Sent back to the peer when a replicated entity is spawned here: `local`
/// is the index of the new entity here, `remote` the peer's entity index.
#[derive(Clone, Copy, Debug)]
pub struct EntityLinkEvent {
    local: u32,
    remote: u32,
}

impl EntityLinkEvent {
    /// The index of the entity on the side that sends the event.
    pub closed spec fn spec_local(&self) -> u32 {
        self.local
    }

    /// The index of the entity on the side that receives the event.
    pub closed spec fn spec_remote(&self) -> u32 {
        self.remote
    }

    /// An event linking `local` to `remote`.
    pub fn new(local: u32, remote: u32) -> (r: EntityLinkEvent)
        ensures
            r.spec_local() == local,
            r.spec_remote() == remote,
    {
        EntityLinkEvent { local, remote }
    }

    /// The index of the entity on the side that sends the event.
    pub fn local(&self) -> (r: u32)
        ensures
            r == self.spec_local(),
    {
        self.local
    }

    /// The index of the entity on the side that receives the event.
    pub fn remote(&self) -> (r: u32)
        ensures
            r == self.spec_remote(),
    {
        self.remote
    }
}

/// The entities of one connection: the peer's entity index to the bits of the
/// entity here that stands for it, held in Bevy's hash map
/// (`bevy::utils::HashMap`, hashbrown's). The map type is held whole: its
/// declaration would need hashbrown's `Allocator` bound, which hashbrown does
/// not export.
#[verifier::external_body]
pub struct EntityLinks {
    links: bevy::utils::HashMap<u32, u64>,
}

/// The links that `links` holds.
pub uninterp spec fn entity_link_map(links: EntityLinks) -> Map<u32, u64>;

impl View for EntityLinks {
    type V = Map<u32, u64>;

    open spec fn view(&self) -> Map<u32, u64> {
        entity_link_map(*self)
    }
}

/// The map with no links.
pub open spec fn no_links() -> Map<u32, u64> {
    Map::empty()
}

/// `HashMap::default`: a map with no entries.
#[verifier::external_body]
fn empty_links() -> (r: EntityLinks)
    ensures
        entity_link_map(r) == no_links(),
{
    EntityLinks { links: bevy::utils::HashMap::default() }
}

/// `HashMap::get`, its value copied out: the value of `remote`, where the
/// map holds it.
#[verifier::external_body]
fn links_get(links: &EntityLinks, remote: u32) -> (r: Option<u64>)
    ensures
        r == (if entity_link_map(*links).contains_key(remote) {
            Some(entity_link_map(*links)[remote])
        } else {
            None::<u64>
        }),
{
    links.links.get(&remote).copied()
}

/// `HashMap::insert`: `remote` now maps to `local`, in place of any value it
/// had; no other entry changes.
#[verifier::external_body]
fn links_insert(links: &mut EntityLinks, remote: u32, local: u64)
    ensures
        entity_link_map(*final(links)) == entity_link_map(*old(links)).insert(remote, local),
{
    links.links.insert(remote, local);
}

impl EntityLinks {
    /// No links.
    pub fn new() -> (r: EntityLinks)
        ensures
            r@ == Map::<u32, u64>::empty(),
    {
        empty_links()
    }

    /// The entity here that stands for the peer's entity `remote`, if any.
    pub fn get(&self, remote: u32) -> (r: Option<u64>)
        ensures
            r == (if self@.contains_key(remote) { Some(self@[remote]) } else { None::<u64> }),
    {
        links_get(self, remote)
    }

    /// Links the peer's entity `remote` to the entity `local` here, in place
    /// of any earlier link of `remote`.
    pub fn insert(&mut self, remote: u32, local: u64)
        ensures
            final(self)@ == old(self)@.insert(remote, local),
    {
        links_insert(self, remote, local);
    }

    /// Links the peer's entity `remote` to the entity just spawned here for
    /// it, whose bits are `local`, and gives the event that tells the peer of
    /// the link: the new entity's index, the low 32 bits of its bits, and
    /// `remote`. This is what a receiver does for a component of an entity
    /// that `get` does not know yet.
    pub fn link_spawned(&mut self, remote: u32, local: u64) -> (r: EntityLinkEvent)
        ensures
            final(self)@ == old(self)@.insert(remote, local),
            r.spec_local() == local as u32,
            r.spec_remote() == remote,
    {
        self.insert(remote, local);
        EntityLinkEvent::new(local as u32, remote)
    }
}

// ---------------------------------------------------------------------------
// Writing an update
// ---------------------------------------------------------------------------

/// Past this many bytes, a component array is cut and the message sent.
pub const MESSAGE_SPLIT_LEN: usize = 1346;

/// Builds the update message for one connection.
///
/// A message is a run of sections, each led by the type hash of what it
/// holds: a resource, its data; events, their data; components, an array of
/// entity index and data, ended by a zero word. A zero word ends the message.
pub struct UpdateWriter {
    message: Vec<u8>,
    type_hash: u32,
    array_begin: usize,
}

/// Appends the four little-endian bytes of `v`.
fn push_u32(message: &mut Vec<u8>, v: u32)
    ensures
        final(message)@ == old(message)@ + le32(v),
{
    let bytes = u32_le_bytes(v);
    message.push(bytes[0]);
    message.push(bytes[1]);
    message.push(bytes[2]);
    message.push(bytes[3]);
    assert(final(message)@ =~= old(message)@ + le32(v));
}

impl UpdateWriter {
    /// The bytes written so far.
    pub closed spec fn bytes(&self) -> Seq<u8> {
        self.message@
    }

    /// Where the data of the open component array starts.
    pub closed spec fn array_start(&self) -> nat {
        self.array_begin as nat
    }

    /// The type hash of the open component array.
    pub closed spec fn array_hash(&self) -> u32 {
        self.type_hash
    }

    /// The array start lies within the bytes.
    pub closed spec fn wf(&self) -> bool {
        self.array_begin <= self.message@.len()
    }

    /// An empty message.
    pub fn new() -> (r: UpdateWriter)
        ensures
            r.wf(),
            r.bytes() == Seq::<u8>::empty(),
            r.array_start() == 0,
    {
        UpdateWriter { message: Vec::new(), type_hash: 0, array_begin: 0 }
    }

    /// How many bytes have been written.
    pub fn len(&self) -> (r: usize)
        ensures
            r == self.bytes().len(),
    {
        self.message.len()
    }

    /// Writes a resource: its type hash, then its data.
    ///
    /// A message that would grow past `isize::MAX` bytes is left out.
    pub fn write_resource(&mut self, type_hash: u32, data: &[u8])
        requires
            old(self).wf(),
            old(self).bytes().len() + data@.len() + 4 <= isize::MAX,
        ensures
            final(self).wf(),
            final(self).bytes() == old(self).bytes() + le32(type_hash) + data@,
            final(self).array_start() == old(self).array_start(),
            final(self).array_hash() == old(self).array_hash(),
    {
        push_u32(&mut self.message, type_hash);
        append_bytes(&mut self.message, data);
    }

    /// Writes the events of one type: their type hash, then their data; where
    /// there were no new events (no data), the type hash is taken back.
    pub fn write_events(&mut self, type_hash: u32, data: &[u8])
        requires
            old(self).wf(),
            old(self).bytes().len() + data@.len() + 4 <= isize::MAX,
        ensures
            final(self).wf(),
            final(self).bytes() == (if data@.len() == 0 {
                old(self).bytes()
            } else {
                old(self).bytes() + le32(type_hash) + data@
            }),
            final(self).array_start() == old(self).array_start(),
            final(self).array_hash() == old(self).array_hash(),
    {
        push_u32(&mut self.message, type_hash);
        let message_data_begin = self.message.len();
        append_bytes(&mut self.message, data);
        // Check if any event was written.
        if message_data_begin == self.message.len() {
            // Drop type hash.
            self.message.truncate(message_data_begin - 4);
            assert(self.message@ =~= old(self).message@);
        }
    }

    /// Opens the component array of one type: writes its type hash.
    pub fn begin_components(&mut self, type_hash: u32)
        requires
            old(self).wf(),
            old(self).bytes().len() + 4 <= isize::MAX,
        ensures
            final(self).wf(),
            final(self).bytes() == old(self).bytes() + le32(type_hash),
            final(self).array_start() == final(self).bytes().len(),
            final(self).array_hash() == type_hash,
    {
        push_u32(&mut self.message, type_hash);
        self.type_hash = type_hash;
        self.array_begin = self.message.len();
    }

    /// Writes one element of the open component array: the entity index,
    /// then the component's data.
    ///
    /// Where the message grows past `MESSAGE_SPLIT_LEN` bytes, the element's
    /// entity index is overwritten with the zero word that ends the array,
    /// the message up to there is returned to be sent at once, and a new
    /// message starts with the array's type hash and the element.
    pub fn write_component(&mut self, entity: u32, data: &[u8]) -> (r: Option<Vec<u8>>)
        requires
            old(self).wf(),
            old(self).array_start() >= 4,
            old(self).bytes().len() + data@.len() + 8 <= isize::MAX,
        ensures
            final(self).wf(),
            final(self).array_hash() == old(self).array_hash(),
            ({
                let grown = old(self).bytes() + le32(entity) + data@;
                if grown.len() <= MESSAGE_SPLIT_LEN {
                    &&& r is None
                    &&& final(self).bytes() == grown
                    &&& final(self).array_start() == old(self).array_start()
                } else {
                    &&& r matches Some(sent) && sent@ == old(self).bytes() + le32(0)
                    &&& final(self).bytes() == le32(old(self).array_hash()) + le32(entity) + data@
                    &&& final(self).array_start() == 4
                }
            }),
    {
        let message_element_begin = self.message.len();
        push_u32(&mut self.message, entity);
        append_bytes(&mut self.message, data);
        if self.message.len() > MESSAGE_SPLIT_LEN {
            // End the array where this element began, and send what came before.
            let end = u32_le_bytes(0);
            self.message.set(message_element_begin, end[0]);
            self.message.set(message_element_begin + 1, end[1]);
            self.message.set(message_element_begin + 2, end[2]);
            self.message.set(message_element_begin + 3, end[3]);
            let sent = vstd::slice::slice_to_vec(
                vstd::slice::slice_subrange(self.message.as_slice(), 0, message_element_begin + 4),
            );
            assert(sent@ =~= old(self).bytes() + le32(0));
            self.message.clear();
            push_u32(&mut self.message, self.type_hash);
            self.array_begin = self.message.len();
            push_u32(&mut self.message, entity);
            append_bytes(&mut self.message, data);
            assert(self.message@ =~= le32(old(self).array_hash()) + le32(entity) + data@);
            Some(sent)
        } else {
            assert(self.message@ =~= old(self).bytes() + le32(entity) + data@);
            None
        }
    }

    /// Closes the open component array: where it holds no element its type
    /// hash is taken back, else the zero word ends it.
    pub fn end_components(&mut self)
        requires
            old(self).wf(),
            old(self).array_start() >= 4,
            old(self).bytes().len() + 4 <= isize::MAX,
        ensures
            final(self).wf(),
            final(self).bytes() == (if old(self).bytes().len() == old(self).array_start() {
                old(self).bytes().take(old(self).array_start() - 4)
            } else {
                old(self).bytes() + le32(0)
            }),
    {
        // Check if any component was written.
        if self.array_begin == self.message.len() {
            // Drop type hash.
            self.message.truncate(self.array_begin - 4);
            self.array_begin = self.message.len();
        } else {
            // Null-terminated.
            push_u32(&mut self.message, 0);
        }
    }

    /// Ends the message with the zero word. The message is to be sent unless
    /// it is nine bytes long, which counts as empty.
    pub fn finish(self) -> (r: Option<Vec<u8>>)
        requires
            self.bytes().len() + 4 <= isize::MAX,
        ensures
            ({
                let m = self.bytes() + le32(0);
                if m.len() == 9 {
                    r is None
                } else {
                    r matches Some(sent) && sent@ == m
                }
            }),
    {
        let mut message = self.message;
        // Null-terminated.
        push_u32(&mut message, 0);
        // Skip if update is empty.
        if message.len() == 1 + 4 + 4 {
            None
        } else {
            Some(message)
        }
    }
}

// ---------------------------------------------------------------------------
// Reading an update
// ---------------------------------------------------------------------------

/// What a type hash is registered to be received as.
#[derive(Clone, Copy, Debug, PartialEq, Eq, Structural)]
pub enum Registered {
    Resource,
    Event,
    Component,
}

/// A set of type hashes, held in Bevy's hash set (`bevy::utils::HashSet`,
/// hashbrown's), held whole for the reason given at `EntityLinks`.
#[verifier::external_body]
pub struct TypeHashes {
    hashes: bevy::utils::HashSet<u32>,
}

/// The hashes that `hashes` holds.
pub uninterp spec fn type_hash_set(hashes: TypeHashes) -> Set<u32>;

impl View for TypeHashes {
    type V = Set<u32>;

    open spec fn view(&self) -> Set<u32> {
        type_hash_set(*self)
    }
}

/// `HashSet::default`: a set with no hashes.
#[verifier::external_body]
fn empty_hashes() -> (r: TypeHashes)
    ensures
        type_hash_set(r) == Set::<u32>::empty(),
{
    TypeHashes { hashes: bevy::utils::HashSet::default() }
}

/// `HashSet::insert`: the set now holds `type_hash` besides what it held.
#[verifier::external_body]
fn hashes_insert(hashes: &mut TypeHashes, type_hash: u32)
    ensures
        type_hash_set(*final(hashes)) == type_hash_set(*old(hashes)).insert(type_hash),
{
    hashes.hashes.insert(type_hash);
}

/// `HashSet::contains`: whether the set holds `type_hash`.
#[verifier::external_body]
fn hashes_contain(hashes: &TypeHashes, type_hash: u32) -> (r: bool)
    ensures
        r == type_hash_set(*hashes).contains(type_hash),
{
    hashes.hashes.contains(&type_hash)
}

impl TypeHashes {
    /// No hashes.
    pub fn new() -> (r: TypeHashes)
        ensures
            r@ == Set::<u32>::empty(),
    {
        empty_hashes()
    }

    /// Adds `type_hash`.
    pub fn insert(&mut self, type_hash: u32)
        ensures
            final(self)@ == old(self)@.insert(type_hash),
    {
        hashes_insert(self, type_hash);
    }

    /// Whether `type_hash` is held.
    pub fn contains(&self, type_hash: u32) -> (r: bool)
        ensures
            r == self@.contains(type_hash),
    {
        hashes_contain(self, type_hash)
    }
}

/// The type hashes that this instance receives, by what they are received as.
pub struct RecvRegistry {
    resources: TypeHashes,
    events: TypeHashes,
    components: TypeHashes,
}

/// The hashes registered as resources, as events, and as components.
pub struct Registrations {
    pub resources: Set<u32>,
    pub events: Set<u32>,
    pub components: Set<u32>,
}

/// What `type_hash` is received as: a resource before an event before a component.
pub open spec fn kind_of(reg: Registrations, type_hash: u32) -> Option<Registered> {
    if reg.resources.contains(type_hash) {
        Some(Registered::Resource)
    } else if reg.events.contains(type_hash) {
        Some(Registered::Event)
    } else if reg.components.contains(type_hash) {
        Some(Registered::Component)
    } else {
        None
    }
}

impl View for RecvRegistry {
    type V = Registrations;

    closed spec fn view(&self) -> Registrations {
        Registrations { resources: self.resources@, events: self.events@, components: self.components@ }
    }
}

impl RecvRegistry {
    /// Nothing registered.
    pub fn new() -> (r: RecvRegistry)
        ensures
            r@.resources == Set::<u32>::empty(),
            r@.events == Set::<u32>::empty(),
            r@.components == Set::<u32>::empty(),
    {
        RecvRegistry { resources: TypeHashes::new(), events: TypeHashes::new(), components: TypeHashes::new() }
    }

    /// Registers `type_hash` as a resource.
    pub fn register_resource(&mut self, type_hash: u32)
        ensures
            final(self)@.resources == old(self)@.resources.insert(type_hash),
            final(self)@.events == old(self)@.events,
            final(self)@.components == old(self)@.components,
    {
        self.resources.insert(type_hash);
    }

    /// Registers `type_hash` as events.
    pub fn register_event(&mut self, type_hash: u32)
        ensures
            final(self)@.resources == old(self)@.resources,
            final(self)@.events == old(self)@.events.insert(type_hash),
            final(self)@.components == old(self)@.components,
    {
        self.events.insert(type_hash);
    }

    /// Registers `type_hash` as a component.
    pub fn register_component(&mut self, type_hash: u32)
        ensures
            final(self)@.resources == old(self)@.resources,
            final(self)@.events == old(self)@.events,
            final(self)@.components == old(self)@.components.insert(type_hash),
    {
        self.components.insert(type_hash);
    }

    /// What `type_hash` is received as, if it is registered.
    pub fn kind(&self, type_hash: u32) -> (r: Option<Registered>)
        ensures
            r == kind_of(self@, type_hash),
    {
        if self.resources.contains(type_hash) {
            Some(Registered::Resource)
        } else if self.events.contains(type_hash) {
            Some(Registered::Event)
        } else if self.components.contains(type_hash) {
            Some(Registered::Component)
        } else {
            None
        }
    }
}

impl Default for RecvRegistry {
    /// Nothing registered.
    fn default() -> (r: RecvRegistry)
        ensures
            r@.resources == Set::<u32>::empty(),
            r@.events == Set::<u32>::empty(),
            r@.components == Set::<u32>::empty(),
    {
        RecvRegistry::new()
    }
}

/// What the reader of an update asks for next.
#[derive(Clone, Copy, Debug, PartialEq, Eq, Structural)]
pub enum Step {
    /// A resource of this type: deserialize it from the remaining bytes, then
    /// report how many were read.
    Resource(u32),
    /// Events of this type: deserialize them from the remaining bytes, then
    /// report how many were read.
    Event(u32),
    /// A component of this type (first) for the peer's entity (second):
    /// deserialize it from the remaining bytes, then report how many were read.
    Component(u32, u32),
    /// The message is over.
    End,
}

/// Where the reader of an update stands.
#[derive(Clone, Copy, Debug, PartialEq, Eq, Structural)]
pub enum Phase {
    /// Before a type hash.
    AtTypeHash,
    /// Before an entity index in the component array of this type.
    AtEntity(u32),
    /// While a resource or events are deserialized.
    InSection,
    /// While a component of the array of this type is deserialized.
    InElement(u32),
    /// After the end of the message.
    Ended,
}

/// The little-endian word at `pos`, if four bytes are there.
pub open spec fn word_at(msg: Seq<u8>, pos: nat) -> Option<u32> {
    if pos + 4 <= msg.len() {
        Some(le32_value(msg.skip(pos as int)) as u32)
    } else {
        None
    }
}

/// Reading on from `pos` in `phase`: the next step, the position after what
/// was read, and the phase then; `None` where the message ends first. A type
/// hash of zero ends the message; an unregistered type hash is passed over;
/// a component type hash opens an array of entity indexes that a zero ends.
pub open spec fn scan(msg: Seq<u8>, pos: nat, phase: Phase, reg: Registrations) -> Option<(Step, nat, Phase)>
    decreases msg.len() - pos,
{
    match word_at(msg, pos) {
        None => None,
        Some(w) => match phase {
            Phase::AtTypeHash => if w == 0 {
                Some((Step::End, pos + 4, Phase::Ended))
            } else {
                match kind_of(reg, w) {
                    Some(Registered::Resource) => Some((Step::Resource(w), pos + 4, Phase::InSection)),
                    Some(Registered::Event) => Some((Step::Event(w), pos + 4, Phase::InSection)),
                    Some(Registered::Component) => scan(msg, pos + 4, Phase::AtEntity(w), reg),
                    None => scan(msg, pos + 4, Phase::AtTypeHash, reg),
                }
            },
            Phase::AtEntity(h) => if w == 0 {
                scan(msg, pos + 4, Phase::AtTypeHash, reg)
            } else {
                Some((Step::Component(h, w), pos + 4, Phase::InElement(h)))
            },
            _ => None,
        },
    }
}

/// The phase after a deserializer has read its bytes.
pub open spec fn after_payload(phase: Phase) -> Phase {
    match phase {
        Phase::InElement(h) => Phase::AtEntity(h),
        _ => Phase::AtTypeHash,
    }
}

/// Reads an update message the way it is applied: step by step, each
/// deserializer reporting how many bytes it read.
pub struct UpdateReader {
    position: usize,
    phase: Phase,
}

impl UpdateReader {
    /// How many bytes of the message have been read.
    pub closed spec fn pos(&self) -> nat {
        self.position as nat
    }

    /// Where the reader stands.
    pub closed spec fn spec_phase(&self) -> Phase {
        self.phase
    }

    /// At the start of a message.
    pub fn new() -> (r: UpdateReader)
        ensures
            r.pos() == 0,
            r.spec_phase() == Phase::AtTypeHash,
    {
        UpdateReader { position: 0, phase: Phase::AtTypeHash }
    }

    /// How many bytes of the message have been read.
    pub fn position(&self) -> (r: usize)
        ensures
            r == self.pos(),
    {
        self.position
    }

    /// Where the reader stands.
    pub fn phase(&self) -> (r: Phase)
        ensures
            r == self.spec_phase(),
    {
        self.phase
    }

    /// Reads on to the next step, as `scan` says; `None`, where the message
    /// ends before a word that it needs (an update cut short), with the
    /// reader left where it was.
    ///
    /// Asking while a deserializer still has to report is left out.
    pub fn next(&mut self, message: &[u8], registry: &RecvRegistry) -> (r: Option<Step>)
        requires
            old(self).pos() <= message@.len(),
            old(self).spec_phase() is AtTypeHash || old(self).spec_phase() is AtEntity,
        ensures
            final(self).pos() <= message@.len(),
            match scan(message@, old(self).pos(), old(self).spec_phase(), registry@) {
                Some((step, pos, phase)) => r == Some(step) && final(self).pos() == pos
                    && final(self).spec_phase() == phase,
                None => r is None && final(self).pos() == old(self).pos()
                    && final(self).spec_phase() == old(self).spec_phase(),
            },
    {
        let ghost target = scan(message@, self.pos(), self.phase, registry@);
        let mut position = self.position;
        let mut phase = self.phase;
        loop
            invariant
                position <= message@.len(),
                phase is AtTypeHash || phase is AtEntity,
                scan(message@, position as nat, phase, registry@) == target,
                target == scan(message@, old(self).pos(), old(self).spec_phase(), registry@),
                old(self).pos() <= message@.len(),
                *self == *old(self),
            decreases message@.len() - position,
        {
            if message.len() - position < 4 {
                return None;
            }
            let rest = vstd::slice::slice_subrange(message, position, message.len());
            let word = u32_from_le(rest);
            assert(word_at(message@, position as nat) == Some(word));
            position = position + 4;
            match phase {
                Phase::AtTypeHash => {
                    if word == 0 {
                        self.position = position;
                        self.phase = Phase::Ended;
                        return Some(Step::End);
                    }
                    match registry.kind(word) {
                        Some(Registered::Resource) => {
                            self.position = position;
                            self.phase = Phase::InSection;
                            return Some(Step::Resource(word));
                        },
                        Some(Registered::Event) => {
                            self.position = position;
                            self.phase = Phase::InSection;
                            return Some(Step::Event(word));
                        },
                        Some(Registered::Component) => {
                            phase = Phase::AtEntity(word);
                        },
                        None => {},
                    }
                },
                Phase::AtEntity(type_hash) => {
                    if word == 0 {
                        phase = Phase::AtTypeHash;
                    } else {
                        self.position = position;
                        self.phase = Phase::InElement(type_hash);
                        return Some(Step::Component(type_hash, word));
                    }
                },
                _ => {},
            }
        }
    }

    /// The bytes not read yet, for a deserializer to read from.
    pub fn remaining<'a>(&self, message: &'a [u8]) -> (r: &'a [u8])
        requires
            self.pos() <= message@.len(),
        ensures
            r@ == message@.skip(self.pos() as int),
    {
        vstd::slice::slice_subrange(message, self.position, message.len())
    }

    /// Reports that the deserializer of the last step read `n` bytes: the
    /// reader moves past them.
    pub fn consumed(&mut self, message: &[u8], n: usize)
        requires
            old(self).pos() + n <= message@.len(),
            old(self).spec_phase() is InSection || old(self).spec_phase() is InElement,
        ensures
            final(self).pos() == old(self).pos() + n,
            final(self).spec_phase() == after_payload(old(self).spec_phase()),
    {
        let len = message.len();
        assert(self.position + n <= len);
        self.position = self.position + n;
        self.phase = match self.phase {
            Phase::InElement(type_hash) => Phase::AtEntity(type_hash),
            _ => Phase::AtTypeHash,
        };
    }
}

// ---------------------------------------------------------------------------
// What is read back of what was written
// ---------------------------------------------------------------------------

/// One section of an update as the sending side writes it: a resource, the
/// events of one type, or a component array of entity index and data.
pub enum Section {
    Resource(u32, Seq<u8>),
    Events(u32, Seq<u8>),
    Components(u32, Seq<(u32, Seq<u8>)>),
}

/// The bytes of the elements of a component array.
pub open spec fn entries_bytes(es: Seq<(u32, Seq<u8>)>) -> Seq<u8>
    decreases es.len(),
{
    if es.len() == 0 {
        Seq::<u8>::empty()
    } else {
        le32(es[0].0) + es[0].1 + entries_bytes(es.drop_first())
    }
}

/// The bytes of a section: `UpdateWriter::write_resource`,
/// `UpdateWriter::write_events`, or `begin_components`, `write_component`
/// for each element and `end_components`, where no split happens.
pub open spec fn section_bytes(s: Section) -> Seq<u8> {
    match s {
        Section::Resource(h, d) => le32(h) + d,
        Section::Events(h, d) => le32(h) + d,
        Section::Components(h, es) => le32(h) + entries_bytes(es) + le32(0),
    }
}

/// The bytes of sections, one after the other.
pub open spec fn sections_bytes(ss: Seq<Section>) -> Seq<u8>
    decreases ss.len(),
{
    if ss.len() == 0 {
        Seq::<u8>::empty()
    } else {
        section_bytes(ss[0]) + sections_bytes(ss.drop_first())
    }
}

/// The steps for the elements of a component array of type `h`.
pub open spec fn entries_steps(h: u32, es: Seq<(u32, Seq<u8>)>) -> Seq<Step>
    decreases es.len(),
{
    if es.len() == 0 {
        Seq::<Step>::empty()
    } else {
        seq![Step::Component(h, es[0].0)] + entries_steps(h, es.drop_first())
    }
}

/// The data lengths of the elements of a component array.
pub open spec fn entries_lens(es: Seq<(u32, Seq<u8>)>) -> Seq<nat>
    decreases es.len(),
{
    if es.len() == 0 {
        Seq::<nat>::empty()
    } else {
        seq![es[0].1.len()] + entries_lens(es.drop_first())
    }
}

/// The steps that a section asks for.
pub open spec fn section_steps(s: Section) -> Seq<Step> {
    match s {
        Section::Resource(h, _) => seq![Step::Resource(h)],
        Section::Events(h, _) => seq![Step::Event(h)],
        Section::Components(h, es) => entries_steps(h, es),
    }
}

/// The numbers of bytes that the deserializers of a section read.
pub open spec fn section_lens(s: Section) -> Seq<nat> {
    match s {
        Section::Resource(_, d) => seq![d.len()],
        Section::Events(_, d) => seq![d.len()],
        Section::Components(_, es) => entries_lens(es),
    }
}

/// The steps that sections ask for, one after the other.
pub open spec fn sections_steps(ss: Seq<Section>) -> Seq<Step>
    decreases ss.len(),
{
    if ss.len() == 0 {
        Seq::<Step>::empty()
    } else {
        section_steps(ss[0]) + sections_steps(ss.drop_first())
    }
}

/// The numbers of bytes that the deserializers of sections read, in order.
pub open spec fn sections_lens(ss: Seq<Section>) -> Seq<nat>
    decreases ss.len(),
{
    if ss.len() == 0 {
        Seq::<nat>::empty()
    } else {
        section_lens(ss[0]) + sections_lens(ss.drop_first())
    }
}

/// The steps that reading `msg` from `pos` in `phase` asks for, where the
/// deserializers read `lens` bytes in turn, up to the end of the message;
/// `None` where the message is cut short or `lens` runs out.
pub open spec fn replay(msg: Seq<u8>, pos: nat, phase: Phase, reg: Registrations, lens: Seq<nat>) -> Option<Seq<Step>>
    decreases lens.len(),
{
    match scan(msg, pos, phase, reg) {
        None => None,
        Some((step, next, after)) => if step == Step::End {
            Some(seq![Step::End])
        } else if lens.len() == 0 {
            None
        } else {
            match replay(msg, next + lens[0], after_payload(after), reg, lens.drop_first()) {
                Some(rest) => Some(seq![step] + rest),
                None => None,
            }
        },
    }
}

/// A section that the receiving side reads as written: its type hash is not
/// zero and is registered as what the section holds, and no entity index of
/// a component array is zero.
pub open spec fn section_ok(reg: Registrations, s: Section) -> bool {
    match s {
        Section::Resource(h, _) => h != 0 && kind_of(reg, h) == Some(Registered::Resource),
        Section::Events(h, _) => h != 0 && kind_of(reg, h) == Some(Registered::Event),
        Section::Components(h, es) => h != 0 && kind_of(reg, h) == Some(Registered::Component)
            && forall|i: int| 0 <= i < es.len() ==> (#[trigger] es[i]).0 != 0,
    }
}

proof fn lemma_word_at(msg: Seq<u8>, pos: int, w: u32)
    requires
        0 <= pos,
        pos + 4 <= msg.len(),
        msg.subrange(pos, pos + 4) == le32(w),
    ensures
        word_at(msg, pos as nat) == Some(w),
{
    law_le32_roundtrip(w);
    let t = msg.skip(pos);
    assert(t[0] == le32(w)[0] && t[1] == le32(w)[1] && t[2] == le32(w)[2] && t[3] == le32(w)[3]) by {
        assert(msg.subrange(pos, pos + 4)[0] == t[0]);
        assert(msg.subrange(pos, pos + 4)[1] == t[1]);
        assert(msg.subrange(pos, pos + 4)[2] == t[2]);
        assert(msg.subrange(pos, pos + 4)[3] == t[3]);
    }
}

proof fn lemma_subrange_split(msg: Seq<u8>, pos: int, a: Seq<u8>, b: Seq<u8>)
    requires
        0 <= pos,
        pos + a.len() + b.len() <= msg.len(),
        msg.subrange(pos, pos + a.len() + b.len()) == a + b,
    ensures
        msg.subrange(pos, pos + a.len()) == a,
        msg.subrange(pos + a.len(), pos + a.len() + b.len()) == b,
{
    assert(msg.subrange(pos, pos + a.len()) =~= (a + b).subrange(0, a.len() as int));
    assert(msg.subrange(pos + a.len(), pos + a.len() + b.len()) =~= (a + b).subrange(
        a.len() as int,
        (a.len() + b.len()) as int,
    ));
    assert((a + b).subrange(0, a.len() as int) =~= a);
    assert((a + b).subrange(a.len() as int, (a.len() + b.len()) as int) =~= b);
}

#[verifier::spinoff_prover]
proof fn lemma_replay_entries(
    msg: Seq<u8>,
    pos: int,
    h: u32,
    es: Seq<(u32, Seq<u8>)>,
    reg: Registrations,
    lens_after: Seq<nat>,
    steps_after: Seq<Step>,
)
    requires
        0 <= pos,
        pos + entries_bytes(es).len() + 4 <= msg.len(),
        msg.subrange(pos, pos + entries_bytes(es).len() + 4) == entries_bytes(es) + le32(0),
        forall|i: int| 0 <= i < es.len() ==> (#[trigger] es[i]).0 != 0,
        replay(msg, (pos + entries_bytes(es).len() + 4) as nat, Phase::AtTypeHash, reg, lens_after) == Some(steps_after),
    ensures
        replay(msg, pos as nat, Phase::AtEntity(h), reg, entries_lens(es) + lens_after) == Some(
            entries_steps(h, es) + steps_after,
        ),
    decreases es.len(),
{
    law_le32_roundtrip(0);
    if es.len() == 0 {
        assert(entries_lens(es) + lens_after =~= lens_after);
        assert(entries_steps(h, es) + steps_after =~= steps_after);
        lemma_word_at(msg, pos, 0);
    } else {
        let e = es[0];
        let tail = es.drop_first();
        law_le32_roundtrip(e.0);
        assert(entries_bytes(es) + le32(0) =~= le32(e.0) + (e.1 + entries_bytes(tail) + le32(0)));
        lemma_subrange_split(msg, pos, le32(e.0), e.1 + entries_bytes(tail) + le32(0));
        lemma_word_at(msg, pos, e.0);
        let next = pos + 4 + e.1.len();
        assert(e.1 + entries_bytes(tail) + le32(0) =~= e.1 + (entries_bytes(tail) + le32(0)));
        lemma_subrange_split(msg, pos + 4, e.1, entries_bytes(tail) + le32(0));
        assert(forall|i: int| 0 <= i < tail.len() ==> (#[trigger] tail[i]).0 != 0) by {
            assert forall|i: int| 0 <= i < tail.len() implies (#[trigger] tail[i]).0 != 0 by {
                assert(tail[i] == es[i + 1]);
            }
        }
        lemma_replay_entries(msg, next, h, tail, reg, lens_after, steps_after);
        let lens = entries_lens(es) + lens_after;
        assert(lens[0] == e.1.len());
        assert(lens.drop_first() =~= entries_lens(tail) + lens_after);
        assert(entries_steps(h, es) + steps_after =~= seq![Step::Component(h, e.0)] + (entries_steps(
            h,
            tail,
        ) + steps_after));
    }
}

#[verifier::spinoff_prover]
proof fn lemma_replay_sections(msg: Seq<u8>, pos: int, ss: Seq<Section>, reg: Registrations)
    requires
        0 <= pos,
        pos + sections_bytes(ss).len() + 4 <= msg.len(),
        msg.subrange(pos, pos + sections_bytes(ss).len() + 4) == sections_bytes(ss) + le32(0),
        forall|i: int| 0 <= i < ss.len() ==> section_ok(reg, #[trigger] ss[i]),
    ensures
        replay(msg, pos as nat, Phase::AtTypeHash, reg, sections_lens(ss)) == Some(sections_steps(ss) + seq![Step::End]),
    decreases ss.len(),
{
    law_le32_roundtrip(0);
    if ss.len() == 0 {
        lemma_word_at(msg, pos, 0);
        assert(sections_steps(ss) + seq![Step::End] =~= seq![Step::End]);
    } else {
        let s = ss[0];
        let tail = ss.drop_first();
        assert(section_ok(reg, s));
        assert(forall|i: int| 0 <= i < tail.len() ==> section_ok(reg, #[trigger] tail[i])) by {
            assert forall|i: int| 0 <= i < tail.len() implies section_ok(reg, #[trigger] tail[i]) by {
                assert(tail[i] == ss[i + 1]);
            }
        }
        let after = pos + section_bytes(s).len();
        assert(sections_bytes(ss) + le32(0) =~= section_bytes(s) + (sections_bytes(tail) + le32(0)));
        lemma_subrange_split(msg, pos, section_bytes(s), sections_bytes(tail) + le32(0));
        lemma_replay_sections(msg, after, tail, reg);
        let lens = sections_lens(ss);
        assert(lens =~= section_lens(s) + sections_lens(tail));
        assert(sections_steps(ss) + seq![Step::End] =~= section_steps(s) + (sections_steps(tail) + seq![Step::End]));
        match s {
            Section::Resource(h, d) => {
                law_le32_roundtrip(h);
                lemma_subrange_split(msg, pos, le32(h), d);
                lemma_word_at(msg, pos, h);
                assert(lens[0] == d.len());
                assert(lens.drop_first() =~= sections_lens(tail));
            },
            Section::Events(h, d) => {
                law_le32_roundtrip(h);
                lemma_subrange_split(msg, pos, le32(h), d);
                lemma_word_at(msg, pos, h);
                assert(lens[0] == d.len());
                assert(lens.drop_first() =~= sections_lens(tail));
            },
            Section::Components(h, es) => {
                law_le32_roundtrip(h);
                assert(section_bytes(s) =~= le32(h) + (entries_bytes(es) + le32(0)));
                lemma_subrange_split(msg, pos, le32(h), entries_bytes(es) + le32(0));
                lemma_word_at(msg, pos, h);
                lemma_replay_entries(
                    msg,
                    pos + 4,
                    h,
                    es,
                    reg,
                    sections_lens(tail),
                    sections_steps(tail) + seq![Step::End],
                );
                assert(scan(msg, pos as nat, Phase::AtTypeHash, reg) == scan(msg, (pos + 4) as nat, Phase::AtEntity(h), reg));
            },
        }
    }
}

/// Update round trip: reading a message made of `sections` and the zero
/// word that ends it (followed by anything), where each section's type is
/// registered as what it holds and each deserializer reads exactly the data
/// that was written for it, asks for exactly the steps that the sections
/// stand for, in order, and then ends.
pub proof fn law_update_roundtrip(sections: Seq<Section>, reg: Registrations, rest: Seq<u8>)
    requires
        forall|i: int| 0 <= i < sections.len() ==> section_ok(reg, #[trigger] sections[i]),
    ensures
        replay(sections_bytes(sections) + le32(0) + rest, 0, Phase::AtTypeHash, reg, sections_lens(sections))
            == Some(sections_steps(sections) + seq![Step::End]),
{
    let msg = sections_bytes(sections) + le32(0) + rest;
    law_le32_roundtrip(0);
    assert(msg.subrange(0, (sections_bytes(sections).len() + 4) as int) =~= sections_bytes(sections) + le32(0));
    lemma_replay_sections(msg, 0, sections, reg);
}

/// What a received type hash is taken as follows from the registrations
/// alone, whatever the hash's value: a resource where it is registered as one;
/// else events where it is registered for events; else a component array
/// where it is registered as a component; else nothing.
pub proof fn law_kind_follows_registration(reg: Registrations, type_hash: u32)
    ensures
        reg.resources.contains(type_hash) ==> kind_of(reg, type_hash) == Some(Registered::Resource),
        !reg.resources.contains(type_hash) && reg.events.contains(type_hash) ==> kind_of(reg, type_hash) == Some(
            Registered::Event,
        ),
        !reg.resources.contains(type_hash) && !reg.events.contains(type_hash) && reg.components.contains(type_hash)
            ==> kind_of(reg, type_hash) == Some(Registered::Component),
        !reg.resources.contains(type_hash) && !reg.events.contains(type_hash) && !reg.components.contains(type_hash)
            ==> kind_of(reg, type_hash) is None,
{
}

/// The reader takes a registered events type as events: at a type hash that
/// is registered for events and not as a resource, the next step is the
/// events of that type, and the reader moves past the hash.
pub proof fn law_events_are_read_as_events(msg: Seq<u8>, pos: nat, reg: Registrations, type_hash: u32)
    requires
        type_hash != 0,
        word_at(msg, pos) == Some(type_hash),
        !reg.resources.contains(type_hash),
        reg.events.contains(type_hash),
    ensures
        scan(msg, pos, Phase::AtTypeHash, reg) == Some((Step::Event(type_hash), pos + 4, Phase::InSection)),
{
    law_kind_follows_registration(reg, type_hash);
}

} // verus!
