//! The compact binary form in which the radar state is sent to the
//! browser: a little-endian byte writer, and the layout of a state.
use vstd::prelude::*;
use vstd::string::StringSliceAdditionalSpecFns;
use vstd::utf8::encode_utf8;

verus! {

/// The two little-endian bytes of `v`.
pub open spec fn u16_le_bytes(v: u16) -> Seq<u8> {
    seq![(v % 256) as u8, (v / 256) as u8]
}

/// The two little-endian bytes of `v` in two's complement.
pub open spec fn i16_le_bytes(v: i16) -> Seq<u8> {
    u16_le_bytes(v as u16)
}

/// A string as written: its UTF-8 length modulo 256 in one byte, then
/// that many of its bytes. A string longer than 255 bytes is cut.
pub open spec fn string_field(s: Seq<char>) -> Seq<u8> {
    let b = encode_utf8(s);
    let n = b.len() % 256;
    seq![n as u8] + b.take(n as int)
}

/// One call of a `BinaryWriter` method, with its argument.
pub enum WriteCall {
    U8(u8),
    I16(i16),
    U16(u16),
    Str(Seq<char>),
}

/// The bytes one call appends.
pub open spec fn call_bytes(c: WriteCall) -> Seq<u8> {
    match c {
        WriteCall::U8(v) => seq![v],
        WriteCall::I16(v) => i16_le_bytes(v),
        WriteCall::U16(v) => u16_le_bytes(v),
        WriteCall::Str(s) => string_field(s),
    }
}

/// The concatenation of the bytes of the calls, in order.
pub open spec fn calls_bytes(cs: Seq<WriteCall>) -> Seq<u8>
    decreases cs.len(),
{
    if cs.len() == 0 {
        Seq::empty()
    } else {
        calls_bytes(cs.drop_last()) + call_bytes(cs.last())
    }
}

/// The buffer after the calls `cs`, made one after another from `start`,
/// each appending its bytes as the writer's methods do.
pub open spec fn after_calls(start: Seq<u8>, cs: Seq<WriteCall>) -> Seq<u8>
    decreases cs.len(),
{
    if cs.len() == 0 {
        start
    } else {
        after_calls(start + call_bytes(cs[0]), cs.skip(1))
    }
}

proof fn lemma_calls_bytes_front(c: WriteCall, cs: Seq<WriteCall>)
    ensures
        calls_bytes(seq![c] + cs) == call_bytes(c) + calls_bytes(cs),
    decreases cs.len(),
{
    if cs.len() == 0 {
        assert(seq![c] + cs =~= seq![c]);
        assert(seq![c].drop_last() =~= Seq::<WriteCall>::empty());
        assert(calls_bytes(seq![c].drop_last()) == Seq::<u8>::empty());
        assert(calls_bytes(seq![c]) == calls_bytes(seq![c].drop_last()) + call_bytes(c));
        assert(call_bytes(c) + Seq::<u8>::empty() =~= call_bytes(c));
        assert(Seq::<u8>::empty() + call_bytes(c) =~= call_bytes(c));
    } else {
        lemma_calls_bytes_front(c, cs.drop_last());
        assert((seq![c] + cs).drop_last() =~= seq![c] + cs.drop_last());
        assert((seq![c] + cs).last() == cs.last());
        assert(calls_bytes(seq![c] + cs) == calls_bytes((seq![c] + cs).drop_last()) + call_bytes(cs.last()));
        assert(calls_bytes(cs) == calls_bytes(cs.drop_last()) + call_bytes(cs.last()));
        assert(call_bytes(c) + calls_bytes(cs.drop_last()) + call_bytes(cs.last()) =~= call_bytes(c) + (
        calls_bytes(cs.drop_last()) + call_bytes(cs.last())));
    }
}

/// A writer's output is the concatenation of its calls' bytes: a run of
/// calls from a buffer `start` leaves `start` followed by each call's
/// bytes in order; a string of at most 255 bytes is written as its length
/// in one byte, then all its UTF-8 bytes.
pub proof fn lemma_writer_concatenates(start: Seq<u8>, cs: Seq<WriteCall>)
    ensures
        after_calls(start, cs) == start + calls_bytes(cs),
        forall|s: Seq<char>|
            encode_utf8(s).len() <= 255 ==> #[trigger] call_bytes(WriteCall::Str(s)) == seq![
                encode_utf8(s).len() as u8,
            ] + encode_utf8(s),
    decreases cs.len(),
{
    if cs.len() == 0 {
        assert(start + Seq::<u8>::empty() =~= start);
    } else {
        lemma_writer_concatenates(start + call_bytes(cs[0]), cs.skip(1));
        lemma_calls_bytes_front(cs[0], cs.skip(1));
        assert(seq![cs[0]] + cs.skip(1) =~= cs);
        assert(start + call_bytes(cs[0]) + calls_bytes(cs.skip(1)) =~= start + (call_bytes(cs[0]) + calls_bytes(
            cs.skip(1),
        )));
    }
    assert forall|s: Seq<char>| encode_utf8(s).len() <= 255 implies #[trigger] call_bytes(WriteCall::Str(s))
        == seq![encode_utf8(s).len() as u8] + encode_utf8(s) by {
        assert(encode_utf8(s).take(encode_utf8(s).len() as int) =~= encode_utf8(s));
    }
}

/// Builds a byte buffer by appending little-endian values.
pub struct BinaryWriter {
    buffer: Vec<u8>,
}

impl View for BinaryWriter {
    type V = Seq<u8>;

    closed spec fn view(&self) -> Seq<u8> {
        self.buffer@
    }
}

impl BinaryWriter {
    /// An empty writer with room for `cap` bytes.
    pub fn with_capacity(cap: usize) -> (w: Self)
        ensures
            w@ == Seq::<u8>::empty(),
    {
        BinaryWriter { buffer: Vec::with_capacity(cap) }
    }

    /// Appends one byte.
    pub fn write_u8(&mut self, val: u8)
        ensures
            final(self)@ == old(self)@.push(val),
            final(self)@ == old(self)@ + call_bytes(WriteCall::U8(val)),
    {
        self.buffer.push(val);
    }

    /// Appends an `i16`, little endian.
    pub fn write_i16(&mut self, val: i16)
        ensures
            final(self)@ == old(self)@ + i16_le_bytes(val),
            final(self)@ == old(self)@ + call_bytes(WriteCall::I16(val)),
    {
        self.write_u16(val as u16);
    }

    /// Appends a `u16`, little endian.
    pub fn write_u16(&mut self, val: u16)
        ensures
            final(self)@ == old(self)@ + u16_le_bytes(val),
            final(self)@ == old(self)@ + call_bytes(WriteCall::U16(val)),
    {
        self.buffer.push((val % 256) as u8);
        self.buffer.push((val / 256) as u8);
        assert(self.buffer@ =~= old(self)@ + u16_le_bytes(val));
    }

    /// Appends a string: its byte length as one byte (modulo 256), then
    /// that many of its UTF-8 bytes.
    pub fn write_string(&mut self, val: &str)
        ensures
            final(self)@ == old(self)@ + string_field(val@),
            final(self)@ == old(self)@ + call_bytes(WriteCall::Str(val@)),
    {
        let bytes = val.as_bytes();
        let len = (bytes.len() % 256) as u8;
        self.write_u8(len);
        let n = len as usize;
        let ghost start = self.buffer@;
        let mut i: usize = 0;
        while i < n
            invariant
                i <= n,
                n <= bytes@.len(),
                n == bytes@.len() % 256,
                bytes@ == encode_utf8(val@),
                self.buffer@ == start + bytes@.take(i as int),
            decreases n - i,
        {
            self.buffer.push(bytes[i]);
            i = i + 1;
            assert(bytes@.take(i as int) =~= bytes@.take(i - 1).push(bytes@[i - 1]));
        }
        assert(self.buffer@ =~= old(self)@ + string_field(val@));
    }

    /// The bytes written.
    pub fn finish(self) -> (r: Vec<u8>)
        ensures
            r@ == self@,
    {
        self.buffer
    }
}

/// A vertical section of a map, as sent: its name and altitude range.
#[derive(Debug, Clone)]
pub struct VerticalSectionWire {
    pub name: String,
    pub altitude_max: i16,
    pub altitude_min: i16,
}

/// A map overview, as sent: the radar image's origin, its scale in
/// thousandths, and the vertical sections.
#[derive(Debug, Clone)]
pub struct OverviewWire {
    pub pos_x: i16,
    pub pos_y: i16,
    pub scale: u16,
    pub vertical_sections: Vec<VerticalSectionWire>,
}

/// A player, as sent.
#[derive(Debug, Clone)]
pub struct PlayerWire {
    pub name: String,
    pub health: i32,
    pub team: u8,
    pub pos: [i16; 3],
}

/// What the radar shows at one moment: the map, its overview when known,
/// and the players.
#[derive(Debug, Clone)]
pub struct WebState {
    pub map_name: String,
    pub overview: Option<OverviewWire>,
    pub players: Vec<PlayerWire>,
}

/// The byte length of a string's UTF-8 encoding.
pub open spec fn utf8_len(s: Seq<char>) -> int {
    encode_utf8(s).len() as int
}

/// The bytes of the vertical sections.
pub open spec fn sections_bytes(s: Seq<VerticalSectionWire>) -> Seq<u8>
    decreases s.len(),
{
    if s.len() == 0 {
        Seq::empty()
    } else {
        sections_bytes(s.drop_last()) + string_field(s.last().name@) + i16_le_bytes(s.last().altitude_max)
            + i16_le_bytes(s.last().altitude_min)
    }
}

/// The bytes of one player: name, health (low byte), team, position.
pub open spec fn player_bytes(p: PlayerWire) -> Seq<u8> {
    string_field(p.name@) + seq![p.health as u8, p.team] + i16_le_bytes(p.pos[0]) + i16_le_bytes(p.pos[1])
        + i16_le_bytes(p.pos[2])
}

/// The bytes of the players.
pub open spec fn players_bytes(p: Seq<PlayerWire>) -> Seq<u8>
    decreases p.len(),
{
    if p.len() == 0 {
        Seq::empty()
    } else {
        players_bytes(p.drop_last()) + player_bytes(p.last())
    }
}

/// The bytes of the optional overview: a flag byte, then the overview.
pub open spec fn overview_bytes(o: Option<OverviewWire>) -> Seq<u8> {
    match o {
        None => seq![0u8],
        Some(ov) => seq![1u8] + i16_le_bytes(ov.pos_x) + i16_le_bytes(ov.pos_y) + u16_le_bytes(ov.scale)
            + seq![(ov.vertical_sections@.len() % 256) as u8] + sections_bytes(ov.vertical_sections@),
    }
}

/// The binary form of a state: map name, overview, player count (modulo
/// 256), then every player.
pub open spec fn state_bytes(st: WebState) -> Seq<u8> {
    string_field(st.map_name@) + overview_bytes(st.overview) + seq![(st.players@.len() % 256) as u8]
        + players_bytes(st.players@)
}

/// The size estimate of the vertical sections.
pub open spec fn sections_size(s: Seq<VerticalSectionWire>) -> int
    decreases s.len(),
{
    if s.len() == 0 {
        0
    } else {
        sections_size(s.drop_last()) + 1 + utf8_len(s.last().name@) + 4
    }
}

/// The size estimate of the players.
pub open spec fn players_size(p: Seq<PlayerWire>) -> int
    decreases p.len(),
{
    if p.len() == 0 {
        0
    } else {
        players_size(p.drop_last()) + 1 + utf8_len(p.last().name@) + 1 + 1 + 6
    }
}

/// The size estimate of a state: every string counted at its full length.
pub open spec fn state_size(st: WebState) -> int {
    1 + utf8_len(st.map_name@) + 1 + match st.overview {
        Some(ov) => 4 + 2 + 1 + sections_size(ov.vertical_sections@),
        None => 0,
    } + 1 + players_size(st.players@)
}

proof fn lemma_sections_size_prefix(s: Seq<VerticalSectionWire>, i: int)
    requires
        0 <= i <= s.len(),
    ensures
        0 <= sections_size(s.take(i)) <= sections_size(s),
    decreases s.len(),
{
    if i < s.len() {
        lemma_sections_size_prefix(s.drop_last(), i);
        assert(s.drop_last().take(i) =~= s.take(i));
    } else {
        assert(s.take(i) =~= s);
        lemma_sections_size_nonneg(s);
    }
}

proof fn lemma_sections_size_nonneg(s: Seq<VerticalSectionWire>)
    ensures
        sections_size(s) >= 0,
    decreases s.len(),
{
    if s.len() > 0 {
        lemma_sections_size_nonneg(s.drop_last());
    }
}

proof fn lemma_players_size_nonneg(p: Seq<PlayerWire>)
    ensures
        players_size(p) >= 0,
    decreases p.len(),
{
    if p.len() > 0 {
        lemma_players_size_nonneg(p.drop_last());
    }
}

proof fn lemma_players_size_prefix(p: Seq<PlayerWire>, i: int)
    requires
        0 <= i <= p.len(),
    ensures
        0 <= players_size(p.take(i)) <= players_size(p),
    decreases p.len(),
{
    if i < p.len() {
        lemma_players_size_prefix(p.drop_last(), i);
        assert(p.drop_last().take(i) =~= p.take(i));
    } else {
        assert(p.take(i) =~= p);
        lemma_players_size_nonneg(p);
    }
}

impl WebState {
    /// The number of bytes `to_binary` needs when no string is longer than
    /// 255 bytes; an upper bound otherwise.
    pub fn size_hint(&self) -> (r: usize)
        requires
            state_size(*self) <= usize::MAX,
        ensures
            r == state_size(*self),
    {
        proof {
            lemma_players_size_nonneg(self.players@);
            if self.overview is Some {
                lemma_sections_size_nonneg(self.overview->0.vertical_sections@);
            }
        }
        let mut size = 1 + self.map_name.as_str().len();
        size = size + 1;
        match &self.overview {
            Some(ov) => {
                proof {
                    lemma_sections_size_nonneg(ov.vertical_sections@);
                    lemma_players_size_nonneg(self.players@);
                }
                size = size + 4;
                size = size + 2;
                size = size + 1;
                let ghost base = size;
                let mut i: usize = 0;
                while i < ov.vertical_sections.len()
                    invariant
                        i <= ov.vertical_sections@.len(),
                        size == base + sections_size(ov.vertical_sections@.take(i as int)),
                        base + sections_size(ov.vertical_sections@) <= usize::MAX,
                    decreases ov.vertical_sections.len() - i,
                {
                    let vs = &ov.vertical_sections[i];
                    proof {
                        lemma_sections_size_prefix(ov.vertical_sections@, i + 1);
                        assert(ov.vertical_sections@.take(i + 1).drop_last() =~= ov.vertical_sections@.take(
                            i as int,
                        ));
                    }
                    size = size + 1 + vs.name.as_str().len() + 4;
                    i = i + 1;
                }
                assert(ov.vertical_sections@.take(i as int) =~= ov.vertical_sections@);
            },
            None => {
                proof {
                    lemma_players_size_nonneg(self.players@);
                }
            },
        }
        size = size + 1;
        let ghost base = size;
        let mut i: usize = 0;
        while i < self.players.len()
            invariant
                i <= self.players@.len(),
                size == base + players_size(self.players@.take(i as int)),
                base + players_size(self.players@) <= usize::MAX,
            decreases self.players.len() - i,
        {
            let p = &self.players[i];
            proof {
                lemma_players_size_prefix(self.players@, i + 1);
                assert(self.players@.take(i + 1).drop_last() =~= self.players@.take(i as int));
            }
            size = size + 1 + p.name.as_str().len() + 1 + 1 + 6;
            i = i + 1;
        }
        assert(self.players@.take(i as int) =~= self.players@);
        size
    }
}

impl WebState {
    /// Whether `size_hint` can count this state without overflowing.
    pub fn fits_size_hint(&self) -> (r: bool)
        ensures
            r == (state_size(*self) <= usize::MAX),
    {
        proof {
            lemma_players_size_nonneg(self.players@);
            if self.overview is Some {
                lemma_sections_size_nonneg(self.overview->0.vertical_sections@);
            }
        }
        let ghost ov_part: int = if self.overview is Some {
            7 + sections_size(self.overview->0.vertical_sections@)
        } else {
            0
        };
        let mut size: u128 = 1 + self.map_name.as_str().as_bytes().len() as u128 + 1;
        match &self.overview {
            Some(ov) => {
                size = size + 7;
                let ghost base = size;
                let mut i: usize = 0;
                while i < ov.vertical_sections.len()
                    invariant
                        i <= ov.vertical_sections@.len(),
                        size == base + sections_size(ov.vertical_sections@.take(i as int)),
                        base == 2 + utf8_len(self.map_name@) + 7,
                        base <= 3 * usize::MAX,
                        size <= usize::MAX + usize::MAX + 5,
                        ov_part == 7 + sections_size(ov.vertical_sections@),
                        state_size(*self) == 2 + utf8_len(self.map_name@) + ov_part + 1 + players_size(
                            self.players@,
                        ),
                        players_size(self.players@) >= 0,
                    decreases ov.vertical_sections.len() - i,
                {
                    proof {
                        let t = ov.vertical_sections@.take(i + 1);
                        assert(t.drop_last() =~= ov.vertical_sections@.take(i as int));
                        assert(t.last() == ov.vertical_sections@[i as int]);
                    }
                    if size > usize::MAX as u128 {
                        proof {
                            lemma_sections_size_prefix(ov.vertical_sections@, i as int);
                        }
                        return false;
                    }
                    size = size + 1 + ov.vertical_sections[i].name.as_str().as_bytes().len() as u128 + 4;
                    i = i + 1;
                }
                assert(ov.vertical_sections@.take(i as int) =~= ov.vertical_sections@);
            },
            None => {},
        }
        if size > usize::MAX as u128 {
            return false;
        }
        size = size + 1;
        let ghost base = size;
        let mut i: usize = 0;
        while i < self.players.len()
            invariant
                i <= self.players@.len(),
                size == base + players_size(self.players@.take(i as int)),
                base == 2 + utf8_len(self.map_name@) + ov_part + 1,
                base <= usize::MAX + 1,
                size <= usize::MAX + 1 + usize::MAX + 9,
                state_size(*self) == base + players_size(self.players@),
            decreases self.players.len() - i,
        {
            proof {
                let t = self.players@.take(i + 1);
                assert(t.drop_last() =~= self.players@.take(i as int));
                assert(t.last() == self.players@[i as int]);
            }
            if size > usize::MAX as u128 {
                proof {
                    lemma_players_size_prefix(self.players@, i as int);
                }
                return false;
            }
            size = size + 1 + self.players[i].name.as_str().as_bytes().len() as u128 + 8;
            i = i + 1;
        }
        assert(self.players@.take(i as int) =~= self.players@);
        size <= usize::MAX as u128
    }

    /// The binary form of this state.
    pub fn to_binary(&self) -> (r: Vec<u8>)
        requires
            state_size(*self) <= usize::MAX,
        ensures
            r@ == state_bytes(*self),
    {
        let mut w = BinaryWriter::with_capacity(self.size_hint());
        w.write_string(self.map_name.as_str());
        let ghost head = w@;
        match &self.overview {
            Some(ov) => {
                w.write_u8(1);
                w.write_i16(ov.pos_x);
                w.write_i16(ov.pos_y);
                w.write_u16(ov.scale);
                w.write_u8((ov.vertical_sections.len() % 256) as u8);
                let ghost base = w@;
                let mut i: usize = 0;
                while i < ov.vertical_sections.len()
                    invariant
                        i <= ov.vertical_sections@.len(),
                        w@ == base + sections_bytes(ov.vertical_sections@.take(i as int)),
                    decreases ov.vertical_sections.len() - i,
                {
                    let vs = &ov.vertical_sections[i];
                    let ghost before = w@;
                    w.write_string(vs.name.as_str());
                    w.write_i16(vs.altitude_max);
                    w.write_i16(vs.altitude_min);
                    proof {
                        let t = ov.vertical_sections@.take(i + 1);
                        assert(t.drop_last() =~= ov.vertical_sections@.take(i as int));
                        assert(t.last() == *vs);
                        assert(w@ =~= base + sections_bytes(t));
                    }
                    i = i + 1;
                }
                assert(ov.vertical_sections@.take(i as int) =~= ov.vertical_sections@);
                assert(w@ =~= head + overview_bytes(self.overview));
            },
            None => {
                w.write_u8(0);
                assert(w@ =~= head + overview_bytes(self.overview));
            },
        }
        w.write_u8((self.players.len() % 256) as u8);
        let ghost base = w@;
        let mut i: usize = 0;
        while i < self.players.len()
            invariant
                i <= self.players@.len(),
                w@ == base + players_bytes(self.players@.take(i as int)),
            decreases self.players.len() - i,
        {
            let p = &self.players[i];
            w.write_string(p.name.as_str());
            w.write_u8(p.health as u8);
            w.write_u8(p.team);
            w.write_i16(p.pos[0]);
            w.write_i16(p.pos[1]);
            w.write_i16(p.pos[2]);
            proof {
                let t = self.players@.take(i + 1);
                assert(t.drop_last() =~= self.players@.take(i as int));
                assert(t.last() == *p);
                assert(w@ =~= base + players_bytes(t));
            }
            i = i + 1;
        }
        assert(self.players@.take(i as int) =~= self.players@);
        assert(w@ =~= state_bytes(*self));
        w.finish()
    }
}

/// The players part of the binary form is built player by player: the
/// bytes of two runs of players are the bytes of the first run followed by
/// those of the second, and one player is sent as its name, its health's
/// low byte, its team and its own three position values, little endian.
pub proof fn lemma_players_bytes_split(a: Seq<PlayerWire>, b: Seq<PlayerWire>)
    ensures
        players_bytes(a + b) == players_bytes(a) + players_bytes(b),
        forall|q: PlayerWire|
            #[trigger] players_bytes(seq![q]) == string_field(q.name@) + seq![q.health as u8, q.team] + seq![
                (q.pos[0] as u16 % 256) as u8,
                (q.pos[0] as u16 / 256) as u8,
                (q.pos[1] as u16 % 256) as u8,
                (q.pos[1] as u16 / 256) as u8,
                (q.pos[2] as u16 % 256) as u8,
                (q.pos[2] as u16 / 256) as u8,
            ],
    decreases b.len(),
{
    if b.len() == 0 {
        assert(a + b =~= a);
        assert(players_bytes(a) + Seq::<u8>::empty() =~= players_bytes(a));
    } else {
        lemma_players_bytes_split(a, b.drop_last());
        assert((a + b).drop_last() =~= a + b.drop_last());
        assert((a + b).last() == b.last());
        assert(players_bytes(a) + players_bytes(b.drop_last()) + player_bytes(b.last()) =~= players_bytes(a) + (
        players_bytes(b.drop_last()) + player_bytes(b.last())));
    }
    assert forall|q: PlayerWire|
        #[trigger] players_bytes(seq![q]) == string_field(q.name@) + seq![q.health as u8, q.team] + seq![
            (q.pos[0] as u16 % 256) as u8,
            (q.pos[0] as u16 / 256) as u8,
            (q.pos[1] as u16 % 256) as u8,
            (q.pos[1] as u16 / 256) as u8,
            (q.pos[2] as u16 % 256) as u8,
            (q.pos[2] as u16 / 256) as u8,
        ] by {
        assert(seq![q].drop_last() =~= Seq::<PlayerWire>::empty());
        assert(players_bytes(seq![q].drop_last()) == Seq::<u8>::empty());
        assert(seq![q].last() == q);
        assert(players_bytes(seq![q]) == Seq::<u8>::empty() + player_bytes(q));
        assert(Seq::<u8>::empty() + player_bytes(q) =~= player_bytes(q));
        assert(players_bytes(seq![q]) =~= string_field(q.name@) + seq![q.health as u8, q.team] + seq![
            (q.pos[0] as u16 % 256) as u8,
            (q.pos[0] as u16 / 256) as u8,
            (q.pos[1] as u16 % 256) as u8,
            (q.pos[1] as u16 / 256) as u8,
            (q.pos[2] as u16 % 256) as u8,
            (q.pos[2] as u16 / 256) as u8,
        ]);
    }
}

/// The vertical sections part of an overview is built section by section:
/// two runs of sections are sent as the first run's bytes followed by the
/// second's, and one section as its name, then its own highest and lowest
/// altitude, little endian.
pub proof fn lemma_sections_bytes_split(a: Seq<VerticalSectionWire>, b: Seq<VerticalSectionWire>)
    ensures
        sections_bytes(a + b) == sections_bytes(a) + sections_bytes(b),
        forall|v: VerticalSectionWire|
            #[trigger] sections_bytes(seq![v]) == string_field(v.name@) + seq![
                (v.altitude_max as u16 % 256) as u8,
                (v.altitude_max as u16 / 256) as u8,
                (v.altitude_min as u16 % 256) as u8,
                (v.altitude_min as u16 / 256) as u8,
            ],
    decreases b.len(),
{
    if b.len() == 0 {
        assert(a + b =~= a);
        assert(sections_bytes(a) + Seq::<u8>::empty() =~= sections_bytes(a));
    } else {
        lemma_sections_bytes_split(a, b.drop_last());
        assert((a + b).drop_last() =~= a + b.drop_last());
        assert((a + b).last() == b.last());
        let l = b.last();
        assert(sections_bytes(a) + sections_bytes(b.drop_last()) + string_field(l.name@) + i16_le_bytes(l.altitude_max)
            + i16_le_bytes(l.altitude_min) =~= sections_bytes(a) + (sections_bytes(b.drop_last()) + string_field(l.name@)
            + i16_le_bytes(l.altitude_max) + i16_le_bytes(l.altitude_min)));
    }
    assert forall|v: VerticalSectionWire|
        #[trigger] sections_bytes(seq![v]) == string_field(v.name@) + seq![
            (v.altitude_max as u16 % 256) as u8,
            (v.altitude_max as u16 / 256) as u8,
            (v.altitude_min as u16 % 256) as u8,
            (v.altitude_min as u16 / 256) as u8,
        ] by {
        assert(seq![v].drop_last() =~= Seq::<VerticalSectionWire>::empty());
        assert(sections_bytes(seq![v].drop_last()) == Seq::<u8>::empty());
        assert(seq![v].last() == v);
        assert(sections_bytes(seq![v]) =~= string_field(v.name@) + i16_le_bytes(v.altitude_max) + i16_le_bytes(
            v.altitude_min,
        ));
        assert(sections_bytes(seq![v]) =~= string_field(v.name@) + seq![
            (v.altitude_max as u16 % 256) as u8,
            (v.altitude_max as u16 / 256) as u8,
            (v.altitude_min as u16 % 256) as u8,
            (v.altitude_min as u16 / 256) as u8,
        ]);
    }
}

/// Whether no string of the state is longer than 255 bytes.
pub open spec fn strings_fit(st: WebState) -> bool {
    &&& utf8_len(st.map_name@) < 256
    &&& match st.overview {
        Some(ov) => forall|i: int|
            0 <= i < ov.vertical_sections@.len() ==> utf8_len(#[trigger] ov.vertical_sections@[i].name@) < 256,
        None => true,
    }
    &&& forall|i: int| 0 <= i < st.players@.len() ==> utf8_len(#[trigger] st.players@[i].name@) < 256
}

proof fn lemma_string_field_len(s: Seq<char>)
    ensures
        string_field(s).len() <= 1 + utf8_len(s),
        utf8_len(s) < 256 ==> string_field(s).len() == 1 + utf8_len(s),
{
}

proof fn lemma_sections_len(s: Seq<VerticalSectionWire>)
    ensures
        sections_bytes(s).len() <= sections_size(s),
        (forall|i: int| 0 <= i < s.len() ==> utf8_len(#[trigger] s[i].name@) < 256) ==> sections_bytes(
            s,
        ).len() == sections_size(s),
    decreases s.len(),
{
    if s.len() > 0 {
        lemma_sections_len(s.drop_last());
        lemma_string_field_len(s.last().name@);
        if forall|i: int| 0 <= i < s.len() ==> utf8_len(#[trigger] s[i].name@) < 256 {
            assert forall|i: int| 0 <= i < s.drop_last().len() implies utf8_len(
                #[trigger] s.drop_last()[i].name@,
            ) < 256 by {
                assert(s.drop_last()[i] == s[i]);
            }
            assert(utf8_len(s[s.len() - 1].name@) < 256);
        }
    }
}

proof fn lemma_players_len(p: Seq<PlayerWire>)
    ensures
        players_bytes(p).len() <= players_size(p),
        (forall|i: int| 0 <= i < p.len() ==> utf8_len(#[trigger] p[i].name@) < 256) ==> players_bytes(
            p,
        ).len() == players_size(p),
    decreases p.len(),
{
    if p.len() > 0 {
        lemma_players_len(p.drop_last());
        lemma_string_field_len(p.last().name@);
        if forall|i: int| 0 <= i < p.len() ==> utf8_len(#[trigger] p[i].name@) < 256 {
            assert forall|i: int| 0 <= i < p.drop_last().len() implies utf8_len(
                #[trigger] p.drop_last()[i].name@,
            ) < 256 by {
                assert(p.drop_last()[i] == p[i]);
            }
            assert(utf8_len(p[p.len() - 1].name@) < 256);
        }
    }
}

/// The size hint never falls short of the binary form, and is its exact
/// length when no string is longer than 255 bytes (longer strings are cut
/// in the binary form but counted whole by the hint).
pub proof fn lemma_size_hint_covers(st: WebState)
    ensures
        state_bytes(st).len() <= state_size(st),
        strings_fit(st) ==> state_bytes(st).len() == state_size(st),
{
    lemma_string_field_len(st.map_name@);
    lemma_players_len(st.players@);
    match st.overview {
        Some(ov) => {
            lemma_sections_len(ov.vertical_sections@);
        },
        None => {},
    }
}

} // verus!
