//! Packets waiting for their turn.
//!
//! A sender numbers its packets. Every config packet opens a new group; the
//! packets that follow it belong to that group. Config packets arrive over a
//! reliable stream, the others as datagrams that may be lost, duplicated or
//! reordered. The receiver keeps what has arrived in groups, and hands out the
//! next packet as soon as it is there, or, past a deadline, the next one that
//! there is.

use vstd::prelude::*;

verus! {

/// How long a complete packet may wait for missing ones, in microseconds.
pub const MAX_BUFFERING_MICROS: u64 = 50_000;

/// The latest instant that still leaves room for a deadline.
pub const MAX_INSTANT: u64 = 0xFFFF_FFFF_FFFF_3CAF;

/// An item that is found by a number.
pub trait Keyed {
    spec fn spec_key(&self) -> u64;

    fn key(&self) -> (key: u64)
        ensures
            key == self.spec_key(),
    ;
}

/// The numbers are strictly increasing.
pub open spec fn increasing(keys: Seq<u64>) -> bool {
    forall|i: int, j: int| 0 <= i < j < keys.len() ==> keys[i] < keys[j]
}

/// How many of the numbers are below `key`: where `key` stands, or belongs,
/// among increasing numbers.
pub open spec fn slot(keys: Seq<u64>, key: u64) -> int
    decreases keys.len(),
{
    if keys.len() == 0 {
        0
    } else {
        slot(keys.drop_last(), key) + if keys.last() < key {
            1int
        } else {
            0
        }
    }
}

/// The number stands in its slot.
pub open spec fn found(keys: Seq<u64>, key: u64) -> bool {
    slot(keys, key) < keys.len() && keys[slot(keys, key)] == key
}

/// The slot is the one place that splits the numbers.
pub proof fn lemma_slot_is(keys: Seq<u64>, key: u64, at: int)
    requires
        0 <= at <= keys.len(),
        forall|i: int| 0 <= i < at ==> keys[i] < key,
        forall|i: int| at <= i < keys.len() ==> keys[i] >= key,
    ensures
        slot(keys, key) == at,
    decreases keys.len(),
{
    if keys.len() > 0 {
        if at == keys.len() {
            lemma_slot_is(keys.drop_last(), key, at - 1);
        } else {
            lemma_slot_is(keys.drop_last(), key, at);
        }
    }
}

/// Among increasing numbers, those before the slot are below `key` and those
/// from the slot on are not.
pub proof fn lemma_slot(keys: Seq<u64>, key: u64)
    requires
        increasing(keys),
    ensures
        0 <= slot(keys, key) <= keys.len(),
        forall|i: int| 0 <= i < slot(keys, key) ==> keys[i] < key,
        forall|i: int| slot(keys, key) <= i < keys.len() ==> keys[i] >= key,
        found(keys, key) <==> keys.contains(key),
    decreases keys.len(),
{
    if keys.len() > 0 {
        lemma_slot(keys.drop_last(), key);
        let at = slot(keys.drop_last(), key);
        if at < keys.len() - 1 {
            assert(keys.drop_last()[at] >= key);
            assert(keys[at] < keys.last());
        }
        assert forall|i: int| 0 <= i < slot(keys, key) implies keys[i] < key by {
            if i < at {
                assert(keys.drop_last()[i] < key);
            }
        }
        assert forall|i: int| slot(keys, key) <= i < keys.len() implies keys[i] >= key by {
            if i < keys.len() - 1 {
                assert(keys.drop_last()[i] >= key);
            }
        }
        if keys.contains(key) {
            let i = choose|i: int| 0 <= i < keys.len() && keys[i] == key;
            assert(i >= slot(keys, key));
            if i > slot(keys, key) {
                assert(keys[slot(keys, key)] < keys[i]);
            }
        }
    }
}

/// The numbers of the items.
pub open spec fn keys_of<T: Keyed>(items: Seq<T>) -> Seq<u64> {
    items.map_values(|item: T| item.spec_key())
}

/// Searches for `key` by halving. `Ok` is where it stands, `Err` where it
/// belongs.
pub fn search<T: Keyed>(items: &Vec<T>, key: u64) -> (r: Result<usize, usize>)
    requires
        increasing(keys_of(items@)),
    ensures
        match r {
            Ok(index) => found(keys_of(items@), key) && index == slot(keys_of(items@), key),
            Err(index) => !found(keys_of(items@), key) && index == slot(keys_of(items@), key),
        },
{
    let ghost keys = keys_of(items@);
    let mut low: usize = 0;
    let mut high: usize = items.len();
    while low < high
        invariant
            low <= high <= items.len(),
            keys == keys_of(items@),
            increasing(keys),
            forall|i: int| 0 <= i < low ==> keys[i] < key,
            forall|i: int| high <= i < keys.len() ==> keys[i] >= key,
        decreases high - low,
    {
        let middle: usize = low + (high - low) / 2;
        let there: u64 = items[middle].key();
        assert(there == keys[middle as int]);
        if there < key {
            low = middle + 1;
        } else {
            high = middle;
        }
    }
    proof {
        lemma_slot_is(keys, key, low as int);
    }
    if low < items.len() && items[low].key() == key {
        Ok(low)
    } else {
        Err(low)
    }
}

/// A packet put together from datagrams, and when that was.
#[derive(Debug)]
pub struct DatagramPacket<P> {
    pub packet: P,
    pub kypacket_seq: u64,
    pub instant: u64,
}

/// A packet that came over the stream.
#[derive(Debug)]
pub struct StreamPacket<P> {
    pub packet: P,
    pub kypacket_seq: u64,
}

/// The config packet of a group: not there yet, there, or handed out.
#[derive(Debug)]
pub enum ConfigPacket<P> {
    Absent,
    Ready(StreamPacket<P>),
    Sent,
}

/// A datagram that cannot be a part of the packet it claims to belong to, or
/// that completes something which is not a media packet.
#[derive(Clone, Copy, Debug, PartialEq, Eq, Structural)]
pub struct BadDatagram;

impl<P> Keyed for DatagramPacket<P> {
    open spec fn spec_key(&self) -> u64 {
        self.kypacket_seq
    }

    fn key(&self) -> u64 {
        self.kypacket_seq
    }
}

impl<P: View> View for DatagramPacket<P> {
    type V = DatagramPacket<P::V>;

    open spec fn view(&self) -> DatagramPacket<P::V> {
        DatagramPacket {
            packet: self.packet@,
            kypacket_seq: self.kypacket_seq,
            instant: self.instant,
        }
    }
}

impl<P: View> View for StreamPacket<P> {
    type V = StreamPacket<P::V>;

    open spec fn view(&self) -> StreamPacket<P::V> {
        StreamPacket { packet: self.packet@, kypacket_seq: self.kypacket_seq }
    }
}

impl<P: View> View for ConfigPacket<P> {
    type V = ConfigPacket<P::V>;

    open spec fn view(&self) -> ConfigPacket<P::V> {
        match self {
            ConfigPacket::Absent => ConfigPacket::Absent,
            ConfigPacket::Ready(packet) => ConfigPacket::Ready(packet@),
            ConfigPacket::Sent => ConfigPacket::Sent,
        }
    }
}

impl<P: View> ConfigPacket<P> {
    pub fn is_ready(&self) -> (r: bool)
        ensures
            r == (self@ is Ready),
    {
        match self {
            ConfigPacket::Ready(_) => true,
            _ => false,
        }
    }

    pub fn is_none(&self) -> (r: bool)
        ensures
            r == (self@ is Absent),
    {
        match self {
            ConfigPacket::Absent => true,
            _ => false,
        }
    }

    pub fn is_sent(&self) -> (r: bool)
        ensures
            r == (self@ is Sent),
    {
        match self {
            ConfigPacket::Sent => true,
            _ => false,
        }
    }

    /// Hands the packet out.
    pub fn consume(&mut self) -> (packet: StreamPacket<P>)
        requires
            old(self)@ is Ready,
        ensures
            final(self)@ is Sent,
            old(self)@ == ConfigPacket::Ready(packet@),
    {
        let mut state = ConfigPacket::Sent;
        std::mem::swap(self, &mut state);
        match state {
            ConfigPacket::Ready(packet) => packet,
            _ => {
                assert(false);
                vstd::pervasive::unreached()
            },
        }
    }
}

/// A packet under assembly from the parts that datagrams bring.
pub trait Reassembly: View + Keyed + Sized {
    type Part: View;

    type Packet: View;

    spec fn wf(&self) -> bool;

    /// Whether an assembly can start with this part.
    spec fn can_start(part: <Self::Part as View>::V) -> bool;

    /// The assembly that starts for this part, before it is added.
    spec fn started(part: <Self::Part as View>::V) -> Self::V;

    /// Whether the part fits the assembly.
    spec fn can_add(v: Self::V, part: <Self::Part as View>::V) -> bool;

    /// The assembly with the part added.
    spec fn added(v: Self::V, part: <Self::Part as View>::V) -> Self::V;

    /// What is known of every assembly that parts were added to.
    spec fn sound(v: Self::V) -> bool;

    /// Whether nothing more is needed.
    spec fn complete(v: Self::V) -> bool;

    /// The packet that a complete assembly yields, if it is well formed.
    spec fn assembled(v: Self::V) -> Option<<Self::Packet as View>::V>;

    fn start(kypacket_seq: u64, part: &Self::Part) -> (r: Option<Self>)
        ensures
            r is Some == Self::can_start(part@),
            r matches Some(assembly) ==> {
                &&& assembly.wf()
                &&& assembly.spec_key() == kypacket_seq
                &&& assembly@ == Self::started(part@)
            },
    ;

    fn add_part(&mut self, part: Self::Part) -> (ok: bool)
        requires
            old(self).wf(),
        ensures
            final(self).wf(),
            final(self).spec_key() == old(self).spec_key(),
            ok == Self::can_add(old(self)@, part@),
            ok ==> final(self)@ == Self::added(old(self)@, part@) && Self::sound(final(self)@),
            !ok ==> final(self)@ == old(self)@,
    ;

    fn has_all_parts(&self) -> (r: bool)
        requires
            self.wf(),
        ensures
            r == Self::complete(self@),
    ;

    fn finish(self, now: u64) -> (r: Option<DatagramPacket<Self::Packet>>)
        requires
            self.wf(),
            Self::complete(self@),
        ensures
            match r {
                Some(datagram) => {
                    &&& Self::assembled(self@) == Some(datagram.packet@)
                    &&& datagram.kypacket_seq == self.spec_key()
                    &&& datagram.instant == now
                },
                None => Self::assembled(self@) is None,
            },
    ;
}

/// What a pending group holds: its number, its config packet, the packets put
/// together so far and the unfinished ones, both by increasing sequence number.
#[verifier::ext_equal]
pub struct GroupView<V, S> {
    pub group_seq: u64,
    pub config_packet: ConfigPacket<V>,
    pub datagrams: Seq<DatagramPacket<V>>,
    pub segments: Seq<(u64, S)>,
}

impl<V, S> GroupView<V, S> {
    /// A group about which nothing is known yet.
    pub open spec fn empty(group_seq: u64) -> GroupView<V, S> {
        GroupView {
            group_seq,
            config_packet: ConfigPacket::Absent,
            datagrams: Seq::empty(),
            segments: Seq::empty(),
        }
    }

    pub open spec fn datagram_keys(self) -> Seq<u64> {
        self.datagrams.map_values(|d: DatagramPacket<V>| d.kypacket_seq)
    }

    pub open spec fn segment_keys(self) -> Seq<u64> {
        self.segments.map_values(|s: (u64, S)| s.0)
    }

    pub open spec fn wf(self) -> bool {
        &&& increasing(self.datagram_keys())
        &&& increasing(self.segment_keys())
        &&& forall|i: int|
            0 <= i < self.datagrams.len() ==> (#[trigger] self.datagrams[i]).instant <= MAX_INSTANT
    }

    /// The group with a packet put in its place. A packet that is there already
    /// stays.
    pub open spec fn with_datagram_packet(self, packet: DatagramPacket<V>) -> GroupView<V, S> {
        let keys = self.datagram_keys();
        if found(keys, packet.kypacket_seq) {
            self
        } else {
            GroupView {
                datagrams: self.datagrams.insert(slot(keys, packet.kypacket_seq), packet),
                ..self
            }
        }
    }

    /// The group once its first complete packet is handed out: the unfinished
    /// packets that come before it are forgotten.
    pub open spec fn without_first_datagram(self) -> GroupView<V, S> {
        GroupView { datagrams: self.datagrams.skip(1), ..self }.without_expired_segments(
            self.datagrams[0].kypacket_seq,
        )
    }

    /// The group without the unfinished packets below a sequence number.
    pub open spec fn without_expired_segments(self, until: u64) -> GroupView<V, S> {
        GroupView { segments: self.segments.skip(slot(self.segment_keys(), until)), ..self }
    }
}

/// What a group of packets assembled by `R` holds.
pub type GroupOf<R> = GroupView<<<R as Reassembly>::Packet as View>::V, <R as View>::V>;

/// The group after a datagram of packet `kypacket_seq`, and whether the datagram
/// was good.
///
/// A datagram of a packet that is complete already changes nothing. Any other
/// goes to the assembly of its packet, which starts if there is none; once the
/// assembly has all it needs, it leaves its place to the packet.
pub open spec fn with_datagram<R: Reassembly>(
    group: GroupOf<R>,
    kypacket_seq: u64,
    part: <R::Part as View>::V,
    now: u64,
) -> (GroupOf<R>, bool) {
    let keys = group.segment_keys();
    let at = slot(keys, kypacket_seq);
    if found(group.datagram_keys(), kypacket_seq) {
        (group, true)
    } else if !found(keys, kypacket_seq) && !R::can_start(part) {
        (group, false)
    } else {
        let segments = if found(keys, kypacket_seq) {
            group.segments
        } else {
            group.segments.insert(at, (kypacket_seq, R::started(part)))
        };
        let assembly = segments[at].1;
        if !R::can_add(assembly, part) {
            (GroupView { segments, ..group }, false)
        } else {
            let assembly = R::added(assembly, part);
            if !R::complete(assembly) {
                (
                    GroupView { segments: segments.update(at, (kypacket_seq, assembly)), ..group },
                    true,
                )
            } else {
                let rest = GroupView { segments: segments.remove(at), ..group };
                match R::assembled(assembly) {
                    None => (rest, false),
                    Some(packet) => (
                        rest.with_datagram_packet(
                            DatagramPacket { packet, kypacket_seq, instant: now },
                        ),
                        true,
                    ),
                }
            }
        }
    }
}

/// The assembly that a datagram of packet `kypacket_seq` makes, if the datagram
/// goes to one: the packet is not complete yet, and the datagram is a part of it.
pub open spec fn assembly_after<R: Reassembly>(
    group: GroupOf<R>,
    kypacket_seq: u64,
    part: <R::Part as View>::V,
) -> Option<R::V> {
    let keys = group.segment_keys();
    let assembly = if found(keys, kypacket_seq) {
        group.segments[slot(keys, kypacket_seq)].1
    } else {
        R::started(part)
    };
    if !found(group.datagram_keys(), kypacket_seq) && (found(keys, kypacket_seq) || R::can_start(
        part,
    )) && R::can_add(assembly, part) {
        Some(R::added(assembly, part))
    } else {
        None
    }
}

/// The packets of one group.
pub struct PendingGroup<R: Reassembly> {
    group_seq: u64,
    config_packet: ConfigPacket<R::Packet>,
    datagrams: Vec<DatagramPacket<R::Packet>>,
    segments: Vec<R>,
}

impl<R: Reassembly> View for PendingGroup<R> {
    type V = GroupOf<R>;

    closed spec fn view(&self) -> GroupOf<R> {
        GroupView {
            group_seq: self.group_seq,
            config_packet: self.config_packet@,
            datagrams: self.datagrams@.map_values(|d: DatagramPacket<R::Packet>| d@),
            segments: self.segments@.map_values(|s: R| (s.spec_key(), s@)),
        }
    }
}

impl<R: Reassembly> Keyed for PendingGroup<R> {
    closed spec fn spec_key(&self) -> u64 {
        self.group_seq
    }

    fn key(&self) -> u64 {
        self.group_seq
    }
}

impl<R: Reassembly> PendingGroup<R> {
    pub closed spec fn wf(&self) -> bool {
        &&& self@.wf()
        &&& forall|i: int| 0 <= i < self.segments@.len() ==> (#[trigger] self.segments@[i]).wf()
    }

    proof fn lemma_keys(&self)
        ensures
            keys_of(self.datagrams@) == self@.datagram_keys(),
            keys_of(self.segments@) == self@.segment_keys(),
    {
        assert(keys_of(self.datagrams@) =~= self@.datagram_keys());
        assert(keys_of(self.segments@) =~= self@.segment_keys());
    }

    pub fn new(group_seq: u64) -> (r: Self)
        ensures
            r.wf(),
            r@ == GroupOf::<R>::empty(group_seq),
    {
        let r = PendingGroup {
            group_seq,
            config_packet: ConfigPacket::Absent,
            datagrams: Vec::new(),
            segments: Vec::new(),
        };
        assert(r@ =~= GroupOf::<R>::empty(group_seq));
        r
    }

    /// Where the assembly of a packet stands, after starting it where there is
    /// none.
    fn prepare_datagram_segments(&mut self, kypacket_seq: u64, part: &R::Part) -> (r: Option<usize>)
        requires
            old(self).wf(),
        ensures
            final(self).wf(),
            r is None == (!found(old(self)@.segment_keys(), kypacket_seq) && !R::can_start(part@)),
            r is None ==> final(self)@ == old(self)@,
            r matches Some(index) ==> {
                &&& index == slot(old(self)@.segment_keys(), kypacket_seq)
                &&& index < final(self).segments@.len()
                &&& final(self)@.segments[index as int].0 == kypacket_seq
                &&& final(self)@ == (GroupView {
                    segments: if found(old(self)@.segment_keys(), kypacket_seq) {
                        old(self)@.segments
                    } else {
                        old(self)@.segments.insert(index as int, (kypacket_seq, R::started(part@)))
                    },
                    ..old(self)@
                })
            },
    {
        proof {
            self.lemma_keys();
        }
        match search(&self.segments, kypacket_seq) {
            Ok(index) => {
                assert(self@.segment_keys()[index as int] == kypacket_seq);
                Some(index)
            },
            Err(index) => {
                match R::start(kypacket_seq, part) {
                    None => None,
                    Some(assembly) => {
                        proof {
                            lemma_slot(self@.segment_keys(), kypacket_seq);
                        }
                        let ghost before = self@;
                        self.segments.insert(index, assembly);
                        assert(self@.segments =~= before.segments.insert(
                            index as int,
                            (kypacket_seq, R::started(part@)),
                        ));
                        assert(self@.segment_keys() =~= before.segment_keys().insert(
                            index as int,
                            kypacket_seq,
                        ));
                        proof {
                            lemma_insert_key(
                                before.segment_keys(),
                                self@.segment_keys(),
                                kypacket_seq,
                            );
                        }
                        Some(index)
                    },
                }
            },
        }
    }

    /// Puts a complete packet in its place, unless it is there already.
    fn insert_datagram_packet(&mut self, packet: DatagramPacket<R::Packet>)
        requires
            old(self).wf(),
            packet.instant <= MAX_INSTANT,
        ensures
            final(self).wf(),
            final(self)@ == old(self)@.with_datagram_packet(packet@),
    {
        proof {
            self.lemma_keys();
        }
        match search(&self.datagrams, packet.kypacket_seq) {
            Ok(_) => {},
            Err(index) => {
                let ghost before = self@;
                let ghost p = packet@;
                proof {
                    lemma_slot(before.datagram_keys(), p.kypacket_seq);
                }
                self.datagrams.insert(index, packet);
                assert(self@.datagrams =~= before.datagrams.insert(index as int, p));
                assert(self@.datagram_keys() =~= before.datagram_keys().insert(
                    index as int,
                    p.kypacket_seq,
                ));
                proof {
                    lemma_insert_key(
                        before.datagram_keys(),
                        self@.datagram_keys(),
                        p.kypacket_seq,
                    );
                }
            },
        }
    }

    /// Takes a datagram in.
    pub fn insert_datagram(&mut self, kypacket_seq: u64, part: R::Part, now: u64) -> (r: Result<
        (),
        BadDatagram,
    >)
        requires
            old(self).wf(),
            now <= MAX_INSTANT,
        ensures
            final(self).wf(),
            final(self)@ == with_datagram::<R>(old(self)@, kypacket_seq, part@, now).0,
            r is Ok == with_datagram::<R>(old(self)@, kypacket_seq, part@, now).1,
            assembly_after::<R>(old(self)@, kypacket_seq, part@) matches Some(assembly)
                ==> R::sound(assembly),
    {
        proof {
            self.lemma_keys();
        }
        let present = match search(&self.datagrams, kypacket_seq) {
            Ok(_) => true,
            Err(_) => false,
        };
        // If the packet is not complete already
        if present {
            return Ok(());
        }
        let index: usize = match self.prepare_datagram_segments(kypacket_seq, &part) {
            Some(index) => index,
            None => return Err(BadDatagram),
        };
        let ghost before = self@;
        let ghost segments = self.segments@;
        let ghost p = part@;
        assert(before.segment_keys()[index as int] == kypacket_seq);
        proof {
            lemma_slot(old(self)@.segment_keys(), kypacket_seq);
            assert(before.segments[index as int].1 == if found(
                old(self)@.segment_keys(),
                kypacket_seq,
            ) {
                old(self)@.segments[index as int].1
            } else {
                R::started(p)
            });
        }
        let good = self.segments[index].add_part(part);
        assert(self@.segment_keys() =~= before.segment_keys());
        if !good {
            assert(self@ =~= before);
            return Err(BadDatagram);
        }
        let ghost assembly = R::added(before.segments[index as int].1, p);
        assert(self.segments@[index as int]@ == assembly);
        assert(self@.segments =~= before.segments.update(index as int, (kypacket_seq, assembly)));
        if self.segments[index].has_all_parts() {
            let segments = self.segments.remove(index);
            assert(self@.segments =~= before.segments.remove(index as int));
            assert(self@.segment_keys() =~= before.segment_keys().remove(index as int));
            match segments.finish(now) {
                None => Err(BadDatagram),
                Some(datagram_packet) => {
                    self.insert_datagram_packet(datagram_packet);
                    Ok(())
                },
            }
        } else {
            Ok(())
        }
    }

    /// Forgets the unfinished packets below a sequence number.
    fn drop_expired_segments(&mut self, until_kypacket_seq: u64)
        requires
            old(self).wf(),
        ensures
            final(self).wf(),
            final(self)@ == old(self)@.without_expired_segments(until_kypacket_seq),
    {
        proof {
            self.lemma_keys();
        }
        let index: usize = match search(&self.segments, until_kypacket_seq) {
            Ok(index) => index,
            Err(index) => index,
        };
        let ghost before = self@;
        proof {
            lemma_slot(before.segment_keys(), until_kypacket_seq);
        }
        self.segments = self.segments.split_off(index);
        assert(self@.segments =~= before.segments.skip(index as int));
        assert(self@.segment_keys() =~= before.segment_keys().skip(index as int));
    }

    /// Gives the group its config packet.
    pub fn set_config_packet(&mut self, packet: StreamPacket<R::Packet>)
        requires
            old(self).wf(),
            old(self)@.config_packet is Absent,
        ensures
            final(self).wf(),
            final(self)@ == (GroupView {
                config_packet: ConfigPacket::Ready(packet@),
                ..old(self)@
            }),
    {
        self.config_packet = ConfigPacket::Ready(packet);
    }

    /// Hands the config packet out.
    fn take_config_packet(&mut self) -> (packet: StreamPacket<R::Packet>)
        requires
            old(self).wf(),
            old(self)@.config_packet is Ready,
        ensures
            final(self).wf(),
            final(self)@ == (GroupView { config_packet: ConfigPacket::Sent, ..old(self)@ }),
            old(self)@.config_packet == ConfigPacket::Ready(packet@),
    {
        self.config_packet.consume()
    }

    /// Hands the first complete packet out, and forgets the unfinished ones that
    /// come before it.
    fn take_datagram_packet(&mut self) -> (packet: DatagramPacket<R::Packet>)
        requires
            old(self).wf(),
            old(self)@.datagrams.len() > 0,
        ensures
            final(self).wf(),
            packet@ == old(self)@.datagrams[0],
            final(self)@ == old(self)@.without_first_datagram(),
    {
        let ghost before = self@;
        let packet = self.datagrams.remove(0);
        assert(self@.datagrams =~= before.datagrams.skip(1));
        assert(self@.datagram_keys() =~= before.datagram_keys().skip(1));
        self.drop_expired_segments(packet.kypacket_seq);
        packet
    }

    /// The earliest instant of the complete packets.
    fn min_instant(&self) -> (r: Option<u64>)
        ensures
            r == earliest(self@.datagrams),
    {
        let mut min: Option<u64> = None;
        let mut i: usize = 0;
        while i < self.datagrams.len()
            invariant
                i <= self.datagrams.len(),
                min == earliest(self@.datagrams.take(i as int)),
            decreases self.datagrams.len() - i,
        {
            let ghost all = self@.datagrams;
            assert(all.take(i + 1).drop_last() =~= all.take(i as int));
            assert(all.take(i + 1).last() == self.datagrams@[i as int]@);
            min = earlier_of(min, Some(self.datagrams[i].instant));
            i += 1;
        }
        assert(self@.datagrams.take(i as int) =~= self@.datagrams);
        min
    }
}

/// A number inserted in its slot leaves the numbers increasing.
proof fn lemma_insert_key(before: Seq<u64>, after: Seq<u64>, key: u64)
    requires
        increasing(before),
        !found(before, key),
        after == before.insert(slot(before, key), key),
    ensures
        increasing(after),
{
    lemma_slot(before, key);
}

/// What comes next.
#[derive(Clone, Copy, Debug, PartialEq, Eq, Structural)]
pub enum NextPacket {
    /// There is nothing to hand out or to wait for.
    Nothing,
    /// This packet.
    Ready(PacketRef),
    /// Nothing before this instant.
    Deadline(u64),
}

/// The config packet of a group, or the first complete packet of that group.
#[derive(Clone, Copy, Debug, PartialEq, Eq, Structural)]
pub struct PacketRef {
    pub pending_group_index: usize,
    pub config_packet: bool,
}

/// What to do next: hand a packet out, wait until an instant, or neither.
#[derive(Debug)]
pub enum Action<P> {
    Packet { kypacket_seq: u64, packet: P },
    Deadline(u64),
    Idle,
}

impl<P: View> View for Action<P> {
    type V = Action<P::V>;

    open spec fn view(&self) -> Action<P::V> {
        match self {
            Action::Packet { kypacket_seq, packet } => Action::Packet {
                kypacket_seq: *kypacket_seq,
                packet: packet@,
            },
            Action::Deadline(instant) => Action::Deadline(*instant),
            Action::Idle => Action::Idle,
        }
    }
}

/// The earlier of two instants.
pub open spec fn earlier(a: Option<u64>, b: Option<u64>) -> Option<u64> {
    match (a, b) {
        (Some(x), Some(y)) => Some(if x <= y {
            x
        } else {
            y
        }),
        (Some(x), None) => Some(x),
        (None, b) => b,
    }
}

/// The earliest instant of the packets.
pub open spec fn earliest<V>(datagrams: Seq<DatagramPacket<V>>) -> Option<u64>
    decreases datagrams.len(),
{
    if datagrams.len() == 0 {
        None
    } else {
        earlier(earliest(datagrams.drop_last()), Some(datagrams.last().instant))
    }
}

/// The earliest instant of the packets of all groups.
pub open spec fn spec_min_instant<V, S>(groups: Seq<GroupView<V, S>>) -> Option<u64>
    decreases groups.len(),
{
    if groups.len() == 0 {
        None
    } else {
        earlier(spec_min_instant(groups.drop_last()), earliest(groups.last().datagrams))
    }
}

pub open spec fn group_keys<V, S>(groups: Seq<GroupView<V, S>>) -> Seq<u64> {
    groups.map_values(|g: GroupView<V, S>| g.group_seq)
}

/// Groups stand by increasing number, each well formed.
pub open spec fn groups_wf<V, S>(groups: Seq<GroupView<V, S>>) -> bool {
    &&& increasing(group_keys(groups))
    &&& forall|i: int| 0 <= i < groups.len() ==> (#[trigger] groups[i]).wf()
}

/// The groups, with an empty one in its place where the number is new.
pub open spec fn with_group<V, S>(groups: Seq<GroupView<V, S>>, group_seq: u64) -> Seq<
    GroupView<V, S>,
> {
    if found(group_keys(groups), group_seq) {
        groups
    } else {
        groups.insert(slot(group_keys(groups), group_seq), GroupView::empty(group_seq))
    }
}

/// The config packet is the packet `next`.
pub open spec fn config_is<V, S>(group: GroupView<V, S>, next: u64) -> bool {
    group.config_packet matches ConfigPacket::Ready(packet) && packet.kypacket_seq == next
}

/// The group can bring the next packet: its config packet has arrived, and
/// either is the next packet or has a complete packet behind it.
pub open spec fn is_candidate<V, S>(group: GroupView<V, S>, next: u64) -> bool {
    &&& group.config_packet !is Absent
    &&& config_is(group, next) || group.datagrams.len() > 0
}

/// Where the first candidate stands; the number of groups if there is none.
pub open spec fn candidate<V, S>(groups: Seq<GroupView<V, S>>, next: u64) -> int
    decreases groups.len(),
{
    if groups.len() == 0 {
        0
    } else {
        let at = candidate(groups.drop_last(), next);
        if at < groups.len() - 1 || is_candidate(groups.last(), next) {
            at
        } else {
            groups.len() as int
        }
    }
}

/// The first candidate decides. If it holds the packet `next`, or if the
/// earliest complete packet of all groups has waited long enough, its config
/// packet is handed out, or, where that was, its first complete packet. Else the
/// wait goes on.
pub open spec fn spec_next_packet<V, S>(
    groups: Seq<GroupView<V, S>>,
    next: u64,
    now: u64,
) -> NextPacket {
    let at = candidate(groups, next);
    if at >= groups.len() {
        NextPacket::Nothing
    } else {
        let group = groups[at];
        let deadline = spec_min_instant(groups).unwrap() + MAX_BUFFERING_MICROS;
        if config_is(group, next) || group.datagrams[0].kypacket_seq == next || deadline <= now {
            NextPacket::Ready(
                PacketRef {
                    pending_group_index: at as usize,
                    config_packet: group.config_packet is Ready,
                },
            )
        } else {
            NextPacket::Deadline(deadline as u64)
        }
    }
}

/// The groups and the action, once the next packet is taken. Groups before the
/// one that it comes from are forgotten.
pub open spec fn spec_take<V, S>(groups: Seq<GroupView<V, S>>, next: u64, now: u64) -> (
    Seq<GroupView<V, S>>,
    Action<V>,
) {
    match spec_next_packet(groups, next, now) {
        NextPacket::Nothing => (groups, Action::Idle),
        NextPacket::Deadline(instant) => (groups, Action::Deadline(instant)),
        NextPacket::Ready(packet_ref) => {
            let rest = groups.skip(packet_ref.pending_group_index as int);
            let group = rest[0];
            if packet_ref.config_packet {
                let packet = group.config_packet->Ready_0;
                (
                    rest.update(0, GroupView { config_packet: ConfigPacket::Sent, ..group }),
                    Action::Packet { kypacket_seq: packet.kypacket_seq, packet: packet.packet },
                )
            } else {
                let packet = group.datagrams[0];
                (
                    rest.update(0, group.without_first_datagram()),
                    Action::Packet { kypacket_seq: packet.kypacket_seq, packet: packet.packet },
                )
            }
        },
    }
}

/// The earliest instant of all packets is one of them, and no packet is earlier.
pub proof fn lemma_earliest<V>(datagrams: Seq<DatagramPacket<V>>)
    ensures
        earliest(datagrams) is None <==> datagrams.len() == 0,
        earliest(datagrams) matches Some(instant) ==> {
            &&& exists|i: int|
                0 <= i < datagrams.len() && (#[trigger] datagrams[i]).instant == instant
            &&& forall|i: int|
                0 <= i < datagrams.len() ==> (#[trigger] datagrams[i]).instant >= instant
        },
    decreases datagrams.len(),
{
    if datagrams.len() > 0 {
        let rest = datagrams.drop_last();
        lemma_earliest(rest);
        let last = datagrams.len() - 1;
        if rest.len() > 0 {
            let i = choose|i: int|
                0 <= i < rest.len() && (#[trigger] rest[i]).instant == earliest(rest).unwrap();
            assert(datagrams[i] == rest[i]);
        }
        assert(datagrams[last] == datagrams.last());
        assert forall|i: int| 0 <= i < datagrams.len() implies (#[trigger] datagrams[i]).instant
            >= earliest(datagrams).unwrap() by {
            if i < last {
                assert(rest[i] == datagrams[i]);
            }
        }
    }
}

/// The minimum over all groups is the instant of one of their packets, and no
/// packet of any group is earlier; there is none only where no group has a
/// complete packet.
pub proof fn lemma_min_instant<V, S>(groups: Seq<GroupView<V, S>>)
    ensures
        spec_min_instant(groups) is None <==> forall|i: int|
            0 <= i < groups.len() ==> (#[trigger] groups[i]).datagrams.len() == 0,
        spec_min_instant(groups) matches Some(instant) ==> {
            &&& exists|i: int, j: int|
                0 <= i < groups.len() && 0 <= j < groups[i].datagrams.len() && (
                #[trigger] groups[i].datagrams[j]).instant == instant
            &&& forall|i: int, j: int|
                0 <= i < groups.len() && 0 <= j < groups[i].datagrams.len() ==> (
                #[trigger] groups[i].datagrams[j]).instant >= instant
        },
    decreases groups.len(),
{
    if groups.len() > 0 {
        let rest = groups.drop_last();
        let last = groups.len() - 1;
        lemma_min_instant(rest);
        lemma_earliest(groups.last().datagrams);
        assert(groups[last] == groups.last());
        assert forall|i: int| 0 <= i < last implies #[trigger] groups[i] == rest[i] by {}
        let a = spec_min_instant(rest);
        let b = earliest(groups.last().datagrams);
        if a is None && b is None {
            assert forall|i: int| 0 <= i < groups.len() implies (
            #[trigger] groups[i]).datagrams.len() == 0 by {
                if i < last {
                    assert(rest[i].datagrams.len() == 0);
                }
            }
        } else {
            if a is Some {
                let (i, j) = choose|i: int, j: int|
                    0 <= i < rest.len() && 0 <= j < rest[i].datagrams.len() && (
                    #[trigger] rest[i].datagrams[j]).instant == a.unwrap();
                assert(groups[i].datagrams[j].instant == a.unwrap());
            }
            if b is Some {
                let j = choose|j: int|
                    0 <= j < groups.last().datagrams.len() && (
                    #[trigger] groups.last().datagrams[j]).instant == b.unwrap();
                assert(groups[last].datagrams[j].instant == b.unwrap());
            }
            assert forall|i: int, j: int|
                0 <= i < groups.len() && 0 <= j < groups[i].datagrams.len() implies (
            #[trigger] groups[i].datagrams[j]).instant >= spec_min_instant(groups).unwrap() by {
                if i < last {
                    assert(rest[i].datagrams[j].instant >= a.unwrap());
                } else {
                    assert(groups.last().datagrams[j].instant >= b.unwrap());
                }
            }
        }
    }
}

/// The candidate is the first one.
pub proof fn lemma_candidate<V, S>(groups: Seq<GroupView<V, S>>, next: u64)
    ensures
        0 <= candidate(groups, next) <= groups.len(),
        forall|i: int|
            0 <= i < candidate(groups, next) ==> !is_candidate(#[trigger] groups[i], next),
        candidate(groups, next) < groups.len() ==> is_candidate(
            groups[candidate(groups, next)],
            next,
        ),
    decreases groups.len(),
{
    if groups.len() > 0 {
        let rest = groups.drop_last();
        lemma_candidate(rest, next);
        assert forall|i: int| 0 <= i < candidate(groups, next) implies !is_candidate(
            #[trigger] groups[i],
            next,
        ) by {
            if i < rest.len() {
                assert(rest[i] == groups[i]);
            }
        }
    }
}

/// Only the first candidate has these properties.
proof fn lemma_candidate_is<V, S>(groups: Seq<GroupView<V, S>>, next: u64, at: int)
    requires
        0 <= at <= groups.len(),
        forall|i: int| 0 <= i < at ==> !is_candidate(#[trigger] groups[i], next),
        at < groups.len() ==> is_candidate(groups[at], next),
    ensures
        candidate(groups, next) == at,
{
    lemma_candidate(groups, next);
}

/// The packets of all groups.
pub struct PendingGroups<R: Reassembly> {
    pending_groups: Vec<PendingGroup<R>>,
}

impl<R: Reassembly> View for PendingGroups<R> {
    type V = Seq<GroupOf<R>>;

    closed spec fn view(&self) -> Seq<GroupOf<R>> {
        self.pending_groups@.map_values(|g: PendingGroup<R>| g@)
    }
}

impl<R: Reassembly> PendingGroups<R> {
    pub closed spec fn wf(&self) -> bool {
        &&& groups_wf(self@)
        &&& forall|i: int|
            0 <= i < self.pending_groups@.len() ==> (#[trigger] self.pending_groups@[i]).wf()
    }

    proof fn lemma_keys(&self)
        ensures
            keys_of(self.pending_groups@) == group_keys(self@),
    {
        assert(keys_of(self.pending_groups@) =~= group_keys(self@));
    }

    /// Well-formed groups are well formed as seen from outside, and there are no
    /// more of them than memory can index.
    pub proof fn lemma_len(&self)
        requires
            self.wf(),
        ensures
            groups_wf(self@),
            self@.len() <= usize::MAX,
    {
        assert(self@.len() == self.pending_groups.len());
    }

    pub fn new() -> (r: Self)
        ensures
            r.wf(),
            r@ == Seq::<GroupOf<R>>::empty(),
    {
        let r = PendingGroups { pending_groups: Vec::new() };
        assert(r@ =~= Seq::<GroupOf<R>>::empty());
        r
    }

    /// Where a group stands, after adding it where there is none.
    pub fn prepare_pending_group(&mut self, group_seq: u64) -> (index: usize)
        requires
            old(self).wf(),
        ensures
            final(self).wf(),
            final(self)@ == with_group(old(self)@, group_seq),
            index == slot(group_keys(old(self)@), group_seq),
            index < final(self)@.len(),
            final(self)@[index as int].group_seq == group_seq,
    {
        proof {
            self.lemma_keys();
            lemma_slot(group_keys(self@), group_seq);
        }
        match search(&self.pending_groups, group_seq) {
            Ok(index) => {
                assert(group_keys(self@)[index as int] == group_seq);
                index
            },
            Err(index) => {
                let ghost before = self@;
                let pending_group = PendingGroup::new(group_seq);
                self.pending_groups.insert(index, pending_group);
                assert(self@ =~= before.insert(index as int, GroupView::empty(group_seq)));
                assert(group_keys(self@) =~= group_keys(before).insert(index as int, group_seq));
                proof {
                    lemma_insert_key(group_keys(before), group_keys(self@), group_seq);
                    lemma_empty_wf::<<R::Packet as View>::V, R::V>(group_seq);
                }
                index
            },
        }
    }

    /// Whether the group of that number still lacks its config packet.
    pub fn awaits_config(&self, group_seq: u64) -> (r: bool)
        requires
            self.wf(),
        ensures
            r == (with_group(self@, group_seq)[slot(group_keys(self@), group_seq)].config_packet
                is Absent),
    {
        proof {
            self.lemma_keys();
            lemma_slot(group_keys(self@), group_seq);
        }
        match search(&self.pending_groups, group_seq) {
            Ok(index) => {
                assert(self@[index as int] == self.pending_groups@[index as int]@);
                self.pending_groups[index].config_packet.is_none()
            },
            Err(_) => true,
        }
    }

    /// Takes a config packet in. A group has one config packet.
    pub fn insert_stream_packet(&mut self, group_seq: u64, kypacket_seq: u64, packet: R::Packet)
        requires
            old(self).wf(),
            with_group(old(self)@, group_seq)[slot(
                group_keys(old(self)@),
                group_seq,
            )].config_packet is Absent,
        ensures
            final(self).wf(),
            final(self)@ == with_config(
                old(self)@,
                group_seq,
                StreamPacket { packet: packet@, kypacket_seq },
            ),
    {
        let index: usize = self.prepare_pending_group(group_seq);
        let ghost before = self@;
        let packet = StreamPacket { packet, kypacket_seq };
        let ghost group = GroupView {
            config_packet: ConfigPacket::Ready(packet@),
            ..before[index as int]
        };
        self.pending_groups[index].set_config_packet(packet);
        assert(self@ =~= before.update(index as int, group));
        assert(group_keys(self@) =~= group_keys(before));
        proof {
            assert(before[index as int].wf());
            assert(group.datagram_keys() =~= before[index as int].datagram_keys());
            assert(group.segment_keys() =~= before[index as int].segment_keys());
        }
    }

    /// Takes a datagram in.
    pub fn insert_datagram(
        &mut self,
        group_seq: u64,
        kypacket_seq: u64,
        part: R::Part,
        now: u64,
    ) -> (r: Result<(), BadDatagram>)
        requires
            old(self).wf(),
            now <= MAX_INSTANT,
        ensures
            final(self).wf(),
            final(self)@ == with_datagram_in::<R>(
                old(self)@,
                group_seq,
                kypacket_seq,
                part@,
                now,
            ).0,
            r is Ok == with_datagram_in::<R>(
                old(self)@,
                group_seq,
                kypacket_seq,
                part@,
                now,
            ).1,
            assembly_in::<R>(old(self)@, group_seq, kypacket_seq, part@) matches Some(assembly)
                ==> R::sound(assembly),
    {
        let index: usize = self.prepare_pending_group(group_seq);
        let ghost before = self@;
        let ghost p = part@;
        let r = self.pending_groups[index].insert_datagram(kypacket_seq, part, now);
        let ghost group = with_datagram::<R>(before[index as int], kypacket_seq, p, now).0;
        assert(self@ =~= before.update(index as int, group));
        assert(group_keys(self@) =~= group_keys(before));
        r
    }

    /// The earliest instant of all complete packets.
    fn min_instant(&self) -> (r: Option<u64>)
        requires
            self.wf(),
        ensures
            r == spec_min_instant(self@),
    {
        let mut min: Option<u64> = None;
        let mut i: usize = 0;
        while i < self.pending_groups.len()
            invariant
                i <= self.pending_groups.len(),
                min == spec_min_instant(self@.take(i as int)),
            decreases self.pending_groups.len() - i,
        {
            let group_min = self.pending_groups[i].min_instant();
            assert(self@.take(i + 1).drop_last() =~= self@.take(i as int));
            assert(self@.take(i + 1).last() == self.pending_groups@[i as int]@);
            min = earlier_of(min, group_min);
            i += 1;
        }
        assert(self@.take(i as int) =~= self@);
        min
    }

    /// What comes next after packet `next_kypacket_seq - 1`.
    pub fn next_packet(&self, next_kypacket_seq: u64, now: u64) -> (r: NextPacket)
        requires
            self.wf(),
        ensures
            r == spec_next_packet(self@, next_kypacket_seq, now),
    {
        let mut index: usize = 0;
        while index < self.pending_groups.len()
            invariant
                self.wf(),
                index <= self.pending_groups.len(),
                forall|i: int|
                    0 <= i < index ==> !is_candidate(#[trigger] self@[i], next_kypacket_seq),
            decreases self.pending_groups.len() - index,
        {
            let group = &self.pending_groups[index];
            let ghost g = self@[index as int];
            assert(g == group@);
            // Ignore pending groups without config packet
            if !group.config_packet.is_none() {
                let config_packet = group.config_packet.is_ready();
                let expected = match &group.config_packet {
                    ConfigPacket::Ready(packet) => packet.kypacket_seq == next_kypacket_seq,
                    _ => false,
                };
                assert(expected == config_is(g, next_kypacket_seq));
                if expected {
                    // The config packet is the next expected packet
                    proof {
                        lemma_candidate_is(self@, next_kypacket_seq, index as int);
                    }
                    return NextPacket::Ready(
                        PacketRef { pending_group_index: index, config_packet: true },
                    );
                }
                if group.datagrams.len() > 0 {
                    proof {
                        lemma_candidate_is(self@, next_kypacket_seq, index as int);
                        lemma_min_instant(self@);
                    }
                    if group.datagrams[0].kypacket_seq != next_kypacket_seq {
                        if let Some(min_instant) = self.min_instant() {
                            proof {
                                let (i, j) = choose|i: int, j: int|
                                    0 <= i < self@.len() && 0 <= j < self@[i].datagrams.len() && (
                                    #[trigger] self@[i].datagrams[j]).instant == min_instant;
                                assert(self@[i].wf());
                                assert(self@[i].datagrams[j].instant <= MAX_INSTANT);
                            }
                            let deadline: u64 = min_instant + MAX_BUFFERING_MICROS;
                            if deadline > now {
                                return NextPacket::Deadline(deadline);
                            }
                        }
                    }
                    // Hand out either the datagram packet or the config packet before it
                    return NextPacket::Ready(
                        PacketRef { pending_group_index: index, config_packet },
                    );
                }
            }
            index += 1;
        }
        proof {
            lemma_candidate_is(self@, next_kypacket_seq, index as int);
        }
        NextPacket::Nothing
    }

    /// Takes the next packet out, if its time has come.
    pub fn take_next_packet(&mut self, next_kypacket_seq: u64, now: u64) -> (r: Action<R::Packet>)
        requires
            old(self).wf(),
        ensures
            final(self).wf(),
            final(self)@ == spec_take(old(self)@, next_kypacket_seq, now).0,
            r@ == spec_take(old(self)@, next_kypacket_seq, now).1,
    {
        proof {
            lemma_candidate(self@, next_kypacket_seq);
        }
        match self.next_packet(next_kypacket_seq, now) {
            NextPacket::Nothing => Action::Idle,
            NextPacket::Deadline(instant) => Action::Deadline(instant),
            NextPacket::Ready(packet_ref) => {
                let ghost before = self@;
                let index: usize = packet_ref.pending_group_index;
                assert(before.len() == self.pending_groups.len());
                assert(index == candidate(before, next_kypacket_seq));
                if index > 0 {
                    self.pending_groups = self.pending_groups.split_off(index);
                }
                let ghost rest = before.skip(index as int);
                assert(self@ =~= rest);
                assert(group_keys(rest) =~= group_keys(before).skip(index as int));
                assert(self.wf());
                assert(self.pending_groups@[0]@ == before[index as int]);
                if packet_ref.config_packet {
                    let config_packet = self.pending_groups[0].take_config_packet();
                    assert(self@ =~= rest.update(
                        0,
                        GroupView { config_packet: ConfigPacket::Sent, ..rest[0] },
                    ));
                    assert(group_keys(self@) =~= group_keys(rest));
                    Action::Packet {
                        kypacket_seq: config_packet.kypacket_seq,
                        packet: config_packet.packet,
                    }
                } else {
                    let datagram = self.pending_groups[0].take_datagram_packet();
                    assert(self@ =~= rest.update(0, rest[0].without_first_datagram()));
                    assert(group_keys(self@) =~= group_keys(rest));
                    Action::Packet {
                        kypacket_seq: datagram.kypacket_seq,
                        packet: datagram.packet,
                    }
                }
            },
        }
    }
}

/// The groups with a config packet in its group.
pub open spec fn with_config<V, S>(
    groups: Seq<GroupView<V, S>>,
    group_seq: u64,
    packet: StreamPacket<V>,
) -> Seq<GroupView<V, S>> {
    let all = with_group(groups, group_seq);
    let at = slot(group_keys(groups), group_seq);
    all.update(at, GroupView { config_packet: ConfigPacket::Ready(packet), ..all[at] })
}

/// The groups after a datagram, and whether the datagram was good.
pub open spec fn with_datagram_in<R: Reassembly>(
    groups: Seq<GroupOf<R>>,
    group_seq: u64,
    kypacket_seq: u64,
    part: <R::Part as View>::V,
    now: u64,
) -> (Seq<GroupOf<R>>, bool) {
    let all = with_group(groups, group_seq);
    let at = slot(group_keys(groups), group_seq);
    let (group, good) = with_datagram::<R>(all[at], kypacket_seq, part, now);
    (all.update(at, group), good)
}

/// The assembly that a datagram makes, if the datagram goes to one.
pub open spec fn assembly_in<R: Reassembly>(
    groups: Seq<GroupOf<R>>,
    group_seq: u64,
    kypacket_seq: u64,
    part: <R::Part as View>::V,
) -> Option<R::V> {
    assembly_after::<R>(
        with_group(groups, group_seq)[slot(group_keys(groups), group_seq)],
        kypacket_seq,
        part,
    )
}

proof fn lemma_empty_wf<V, S>(group_seq: u64)
    ensures
        GroupView::<V, S>::empty(group_seq).wf(),
{
}

fn earlier_of(a: Option<u64>, b: Option<u64>) -> (r: Option<u64>)
    ensures
        r == earlier(a, b),
{
    match (a, b) {
        (Some(x), Some(y)) => if x <= y {
            Some(x)
        } else {
            Some(y)
        },
        (Some(x), None) => Some(x),
        (None, b) => b,
    }
}

/// Groups stay well formed, and so by strictly increasing number, when one is asked
/// for. The one in the slot has the number that was asked for. If it was there
/// nothing changed; if it was not, it is empty, and it is the only one that is new.
pub proof fn lemma_with_group<V, S>(groups: Seq<GroupView<V, S>>, group_seq: u64)
    requires
        groups_wf(groups),
    ensures
        groups_wf(with_group(groups, group_seq)),
        ({
            let all = with_group(groups, group_seq);
            let at = slot(group_keys(groups), group_seq);
            &&& 0 <= at < all.len()
            &&& all[at].group_seq == group_seq
            &&& group_keys(groups).contains(group_seq) ==> all == groups
            &&& !group_keys(groups).contains(group_seq) ==> {
                &&& all.len() == groups.len() + 1
                &&& all[at] == GroupView::<V, S>::empty(group_seq)
                &&& all.remove(at) == groups
            }
        }),
{
    lemma_with_group_wf(groups, group_seq);
    let keys = group_keys(groups);
    lemma_slot(keys, group_seq);
    let at = slot(keys, group_seq);
    if found(keys, group_seq) {
        assert(keys[at] == group_seq);
    } else {
        assert(with_group(groups, group_seq).remove(at) =~= groups);
    }
}

/// Adding an empty group keeps the groups well formed.
proof fn lemma_with_group_wf<V, S>(groups: Seq<GroupView<V, S>>, group_seq: u64)
    requires
        groups_wf(groups),
    ensures
        groups_wf(with_group(groups, group_seq)),
        0 <= slot(group_keys(groups), group_seq) < with_group(groups, group_seq).len(),
        with_group(groups, group_seq)[slot(group_keys(groups), group_seq)].group_seq == group_seq,
        with_group(groups, group_seq).len() <= groups.len() + 1,
{
    let keys = group_keys(groups);
    lemma_slot(keys, group_seq);
    let at = slot(keys, group_seq);
    let all = with_group(groups, group_seq);
    if found(keys, group_seq) {
        assert(keys[at] == group_seq);
    } else {
        assert(group_keys(all) =~= keys.insert(at, group_seq));
        lemma_insert_key(keys, group_keys(all), group_seq);
        lemma_empty_wf::<V, S>(group_seq);
    }
}

/// Taking the next packet keeps the groups well formed.
pub proof fn lemma_take_wf<V, S>(groups: Seq<GroupView<V, S>>, next: u64, now: u64)
    requires
        groups_wf(groups),
        groups.len() <= usize::MAX,
    ensures
        groups_wf(spec_take(groups, next, now).0),
        spec_take(groups, next, now).0.len() <= groups.len(),
{
    lemma_candidate(groups, next);
    let (after, action) = spec_take(groups, next, now);
    if let Action::Packet { .. } = action {
        let at = candidate(groups, next);
        let group = groups[at];
        let rest = groups.skip(at);
        assert(group.wf());
        lemma_slot(group.segment_keys(), group.datagrams[0].kypacket_seq);
        assert(group_keys(after) =~= group_keys(groups).skip(at));
        if group.config_packet is Ready {
            assert(after[0].datagram_keys() =~= group.datagram_keys());
            assert(after[0].segment_keys() =~= group.segment_keys());
        } else {
            let cut = slot(group.segment_keys(), group.datagrams[0].kypacket_seq);
            assert(after[0].datagram_keys() =~= group.datagram_keys().skip(1));
            assert(after[0].segment_keys() =~= group.segment_keys().skip(cut));
            assert forall|i: int| 0 <= i < after[0].datagrams.len() implies (
            #[trigger] after[0].datagrams[i]).instant <= MAX_INSTANT by {
                assert(after[0].datagrams[i] == group.datagrams[i + 1]);
            }
        }
        assert forall|i: int| 0 <= i < after.len() implies (#[trigger] after[i]).wf() by {
            if i > 0 {
                assert(after[i] == groups[at + i]);
            }
        }
    }
}

/// A config packet keeps the groups well formed.
pub proof fn lemma_with_config_wf<V, S>(
    groups: Seq<GroupView<V, S>>,
    group_seq: u64,
    packet: StreamPacket<V>,
)
    requires
        groups_wf(groups),
    ensures
        groups_wf(with_config(groups, group_seq, packet)),
        with_config(groups, group_seq, packet).len() <= groups.len() + 1,
{
    lemma_with_group_wf(groups, group_seq);
    let all = with_group(groups, group_seq);
    let at = slot(group_keys(groups), group_seq);
    let after = with_config(groups, group_seq, packet);
    assert(group_keys(after) =~= group_keys(all));
    assert(all[at].wf());
    assert(after[at].datagram_keys() =~= all[at].datagram_keys());
    assert(after[at].segment_keys() =~= all[at].segment_keys());
}

/// A datagram keeps its group well formed.
pub proof fn lemma_group_with_datagram_wf<R: Reassembly>(
    group: GroupOf<R>,
    kypacket_seq: u64,
    part: <R::Part as View>::V,
    now: u64,
)
    requires
        group.wf(),
        now <= MAX_INSTANT,
    ensures
        with_datagram::<R>(group, kypacket_seq, part, now).0.wf(),
{
    let (after, good) = with_datagram::<R>(group, kypacket_seq, part, now);
    lemma_slot(group.segment_keys(), kypacket_seq);
    lemma_slot(group.datagram_keys(), kypacket_seq);
    let index = slot(group.segment_keys(), kypacket_seq);
    let segments = if found(group.segment_keys(), kypacket_seq) {
        group.segments
    } else {
        group.segments.insert(index, (kypacket_seq, R::started(part)))
    };
    let keys = segments.map_values(|s: (u64, R::V)| s.0);
    if found(group.segment_keys(), kypacket_seq) {
        assert(keys =~= group.segment_keys());
        assert(keys[index] == kypacket_seq);
    } else {
        assert(keys =~= group.segment_keys().insert(index, kypacket_seq));
        lemma_insert_key(group.segment_keys(), keys, kypacket_seq);
    }
    assert(increasing(after.segment_keys())) by {
        if after.segments.len() == keys.len() {
            assert(after.segment_keys() =~= keys || after.segment_keys()
                =~= group.segment_keys());
        } else if after.segments.len() < keys.len() {
            assert(after.segment_keys() =~= keys.remove(index) || after.segment_keys()
                =~= group.segment_keys());
        }
    }
    assert(increasing(after.datagram_keys())) by {
        if after.datagrams.len() > group.datagrams.len() {
            let at = slot(group.datagram_keys(), kypacket_seq);
            assert(after.datagram_keys() =~= group.datagram_keys().insert(at, kypacket_seq));
            lemma_insert_key(group.datagram_keys(), after.datagram_keys(), kypacket_seq);
        } else {
            assert(after.datagram_keys() =~= group.datagram_keys());
        }
    }
}

/// A datagram keeps the groups well formed.
pub proof fn lemma_with_datagram_wf<R: Reassembly>(
    groups: Seq<GroupOf<R>>,
    group_seq: u64,
    kypacket_seq: u64,
    part: <R::Part as View>::V,
    now: u64,
)
    requires
        groups_wf(groups),
        now <= MAX_INSTANT,
    ensures
        groups_wf(with_datagram_in::<R>(groups, group_seq, kypacket_seq, part, now).0),
        with_datagram_in::<R>(groups, group_seq, kypacket_seq, part, now).0.len() <= groups.len()
            + 1,
{
    lemma_with_group_wf(groups, group_seq);
    let all = with_group(groups, group_seq);
    let at = slot(group_keys(groups), group_seq);
    assert(all[at].wf());
    lemma_group_with_datagram_wf::<R>(all[at], kypacket_seq, part, now);
    let after = with_datagram::<R>(all[at], kypacket_seq, part, now).0;
    let result = all.update(at, after);
    assert(group_keys(result) =~= group_keys(all));
}

} // verus!
