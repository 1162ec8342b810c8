//! Reading the game's state out of its process memory: the configured
//! signatures and field offsets, and the decisions of a scan of the
//! entity list, one memory read at a time.
use crate::text::chars_of;
use crate::text::find_name_start;
use crate::text::lemma_name_start_bounds;
use crate::text::lemma_name_start_no_slash;
use crate::text::name_start;
use crate::text::sub_chars;
use crate::text::string_from_chars;
use vstd::prelude::*;
use vstd::string::StringExecFns;
use vstd::utf8::decode_utf8;
use vstd::utf8::valid_utf8;

verus! {

/// The byte signatures that locate the game's globals.
#[derive(Debug, Clone)]
pub struct Signatures {
    pub entity_list: String,
    pub global_vars: String,
}

/// Offsets of the fields the radar reads.
#[allow(non_snake_case)]
#[derive(Debug, Clone, Copy, PartialEq, Eq)]
pub struct Offsets {
    pub m_hPawn: usize,
    pub m_iHealth: usize,
    pub m_iTeamNum: usize,
    pub m_pGameSceneNode: usize,
    pub m_vecAbsOrigin: usize,
    pub m_sSanitizedPlayerName: usize,
    pub m_map_name: usize,
    pub controller_entry: usize,
}

/// The reader's configuration.
#[derive(Debug, Clone)]
pub struct Config {
    pub signatures: Signatures,
    pub offsets: Offsets,
}

impl Default for Config {
    /// The signatures and offsets of the game build the radar was made for.
    fn default() -> (r: Self)
        ensures
            r.signatures.entity_list@ == "48 89 0D ? ? ? ? E9 ? ? ? ? CC"@,
            r.signatures.global_vars@ == "48 89 15 ? ? ? ? 48 89 42"@,
            r.offsets == (Offsets {
                m_hPawn: 0x6BC,
                m_iHealth: 0x34C,
                m_iTeamNum: 0x3EB,
                m_pGameSceneNode: 0x330,
                m_vecAbsOrigin: 0xC8,
                m_sSanitizedPlayerName: 0x6F4,
                m_map_name: 0x188,
                controller_entry: 0x70,
            }),
    {
        Config {
            signatures: Signatures {
                entity_list: String::from_str("48 89 0D ? ? ? ? E9 ? ? ? ? CC"),
                global_vars: String::from_str("48 89 15 ? ? ? ? 48 89 42"),
            },
            offsets: Offsets {
                m_hPawn: 0x6BC,
                m_iHealth: 0x34C,
                m_iTeamNum: 0x3EB,
                m_pGameSceneNode: 0x330,
                m_vecAbsOrigin: 0xC8,
                m_sSanitizedPlayerName: 0x6F4,
                m_map_name: 0x188,
                controller_entry: 0x70,
            },
        }
    }
}

/// `a + b`, wrapping around like the address arithmetic of a release build.
pub open spec fn wadd(a: usize, b: usize) -> usize {
    ((a + b) % (usize::MAX + 1)) as usize
}

/// `a * b`, wrapping around.
pub open spec fn wmul(a: usize, b: usize) -> usize {
    ((a * b) % (usize::MAX + 1)) as usize
}

fn add_wrapping(a: usize, b: usize) -> (r: usize)
    ensures
        r == wadd(a, b),
{
    let r = a.wrapping_add(b);
    proof {
        let m = usize::MAX + 1;
        let x = a + b;
        if x > usize::MAX {
            assert(r == x - m);
            assert(x % m == x - m) by (nonlinear_arith)
                requires
                    m <= x < 2 * m,
            ;
        } else {
            assert(x % m == x) by (nonlinear_arith)
                requires
                    0 <= x < m,
            ;
        }
    }
    r
}

fn mul_wrapping(a: usize, b: usize) -> (r: usize)
    ensures
        r == wmul(a, b),
{
    a.wrapping_mul(b)
}

/// Whether a pointer read from the game looks like a user-space address.
pub open spec fn plausible_pointer(p: usize) -> bool {
    p != 0 && p >= 0x1000000 && p as int <= 0x7FFFFFFFFFFF
}

/// The slot of the entity list that holds the chunk of entity `index`.
pub open spec fn chunk_address(entity_list: usize, index: usize) -> usize {
    wadd(wadd(entity_list, wmul(8, index / 512)), 16)
}

/// The address of the entry of entity `index` in its chunk.
pub open spec fn entry_address(chunk: usize, stride: usize, index: usize) -> usize {
    wadd(chunk, wmul(stride, index % 512))
}

/// Whether a pawn handle refers to an entity.
pub open spec fn valid_handle(h: u32) -> bool {
    h != 0 && h != 0xFFFFFFFF
}

/// The entity index a pawn handle refers to.
pub open spec fn handle_index(h: u32) -> usize {
    (h % 0x8000) as usize
}

/// Whether a health value is that of a living player.
pub open spec fn alive(health: i32) -> bool {
    0 < health <= 100
}

/// The highest entity index scanned.
pub const MAX_ENTITY: usize = 512;

/// The bytes of a fixed-size name buffer up to its first NUL, or `None`
/// when it holds no NUL (`CStr::from_bytes_until_nul`).
pub open spec fn until_nul(b: Seq<u8>) -> Option<Seq<u8>>
    decreases b.len(),
{
    if b.len() == 0 {
        None
    } else if b[0] == 0 {
        Some(Seq::empty())
    } else {
        match until_nul(b.skip(1)) {
            Some(rest) => Some(seq![b[0]] + rest),
            None => None,
        }
    }
}

/// The bytes before the first NUL are fewer than the buffer's bytes.
pub proof fn lemma_until_nul_shorter(b: Seq<u8>)
    ensures
        until_nul(b) matches Some(n) ==> n.len() < b.len() && n == b.take(n.len() as int),
    decreases b.len(),
{
    if b.len() > 0 && b[0] != 0 {
        lemma_until_nul_shorter(b.skip(1));
        match until_nul(b.skip(1)) {
            Some(rest) => {
                assert(seq![b[0]] + rest =~= b.take(rest.len() + 1 as int));
            },
            None => {},
        }
    }
}

/// Whether a byte is printable ASCII or a space.
pub open spec fn printable(c: u8) -> bool {
    0x20 <= c <= 0x7e
}

/// The name of a player given the result of reading its name buffer:
/// the bytes up to the first NUL when the read succeeded, they are not
/// empty, and every one is printable ASCII or a space; `Unknown`
/// otherwise.
pub open spec fn spec_player_name(ok: bool, bytes: Seq<u8>) -> Seq<char> {
    if ok {
        match until_nul(bytes) {
            Some(n) => if n.len() > 0 && forall|i: int| 0 <= i < n.len() ==> printable(#[trigger] n[i]) {
                n.map_values(|c: u8| c as char)
            } else {
                "Unknown"@
            },
            None => "Unknown"@,
        }
    } else {
        "Unknown"@
    }
}

/// The name of a player, from the result of reading its name buffer.
pub fn player_name(ok: bool, bytes: &[u8]) -> (r: String)
    ensures
        r@ == spec_player_name(ok, bytes@),
{
    if !ok {
        return String::from_str("Unknown");
    }
    let n = match bytes_until_nul(bytes) {
        None => {
            return String::from_str("Unknown");
        },
        Some(n) => n,
    };
    if n.len() == 0 {
        return String::from_str("Unknown");
    }
    let mut cs: Vec<char> = Vec::new();
    let mut k: usize = 0;
    while k < n.len()
        invariant
            k <= n@.len(),
            ok,
            n@.len() > 0,
            until_nul(bytes@) == Some(n@),
            forall|j: int| 0 <= j < k ==> printable(#[trigger] n@[j]),
            cs@ == n@.take(k as int).map_values(|c: u8| c as char),
        decreases n.len() - k,
    {
        let b = n[k];
        if b < 0x20 || b > 0x7e {
            assert(!printable(n@[k as int]));
            return String::from_str("Unknown");
        }
        cs.push(b as char);
        k = k + 1;
        assert(cs@ =~= n@.take(k as int).map_values(|c: u8| c as char));
    }
    assert(n@.take(n@.len() as int) =~= n@);
    string_from_chars(cs.as_slice())
}

/// A player name read from a 32-byte buffer has at most 31 characters.
pub proof fn lemma_player_name_fits(ok: bool, bytes: Seq<u8>)
    requires
        bytes.len() == 32,
    ensures
        spec_player_name(ok, bytes).len() <= 31,
{
    reveal_strlit("Unknown");
    lemma_until_nul_shorter(bytes);
}

/// A memory read that a scan asks for.
#[derive(Debug, Clone, Copy, PartialEq, Eq, Structural)]
pub enum Request {
    /// A pointer (`usize`) at the address.
    Pointer(usize),
    /// A pawn handle (`u32`) at the address.
    Handle(usize),
    /// A health value (`i32`) at the address.
    Health(usize),
    /// A team number (`u8`) at the address.
    Team(usize),
    /// A position (three `f32`) at the address; its value is kept by the
    /// caller for the player being read.
    Position(usize),
    /// The 32-byte name buffer at the address.
    Name(usize),
    /// 64 bytes at the address, of which the first 32 are the map name
    /// buffer.
    MapName(usize),
    /// The scan is over.
    Finished,
}

/// The outcome of a requested read.
#[derive(Debug, Clone)]
pub enum Reply {
    Pointer(usize),
    Handle(u32),
    Health(i32),
    Team(u8),
    Position,
    /// Whether the read succeeded, and the 32 bytes of the name buffer.
    Name(bool, [u8; 32]),
}

/// Whether a reply answers a request.
pub open spec fn answers(q: Request, r: Reply) -> bool {
    match q {
        Request::Pointer(_) => r is Pointer,
        Request::Handle(_) => r is Handle,
        Request::Health(_) => r is Health,
        Request::Team(_) => r is Team,
        Request::Position(_) => r is Position,
        Request::Name(_) => r is Name,
        Request::MapName(_) => r is Name,
        Request::Finished => false,
    }
}

/// Where a scan is in reading one entity.
#[derive(Debug, Clone, Copy, PartialEq, Eq, Structural)]
pub enum ScanStage {
    EntityList,
    ListEntry,
    Controller,
    PawnHandle,
    PawnListEntry,
    Pawn,
    Health,
    Team,
    SceneNode,
    Position,
    Name,
    Done,
}

/// A scan of the entity list for living players, driven one read at a
/// time: `request` says what to read, `feed` takes what was read.
#[derive(Debug, Clone, Copy)]
pub struct PlayerScan {
    pub entity_list_ptr: usize,
    pub offsets: Offsets,
    pub entity_list: usize,
    pub index: usize,
    pub stage: ScanStage,
    pub chunk: usize,
    pub controller: usize,
    pub handle: u32,
    pub pawn: usize,
    pub health: i32,
    pub team: u8,
    pub scene_node: usize,
}

/// A living player found by a scan (its position is the one read at the
/// scan's `Position` request for it).
#[derive(Debug, Clone)]
pub struct PlayerRecord {
    pub name: String,
    pub health: i32,
    pub team: u8,
}

/// The read that the scan asks for in state `s`.
pub open spec fn spec_request(s: PlayerScan) -> Request {
    let o = s.offsets;
    match s.stage {
        ScanStage::EntityList => Request::Pointer(s.entity_list_ptr),
        ScanStage::ListEntry => Request::Pointer(chunk_address(s.entity_list, s.index)),
        ScanStage::Controller => Request::Pointer(entry_address(s.chunk, o.controller_entry, s.index)),
        ScanStage::PawnHandle => Request::Handle(wadd(s.controller, o.m_hPawn)),
        ScanStage::PawnListEntry => Request::Pointer(chunk_address(s.entity_list, handle_index(s.handle))),
        ScanStage::Pawn => Request::Pointer(entry_address(s.chunk, o.controller_entry, handle_index(s.handle))),
        ScanStage::Health => Request::Health(wadd(s.pawn, o.m_iHealth)),
        ScanStage::Team => Request::Team(wadd(s.pawn, o.m_iTeamNum)),
        ScanStage::SceneNode => Request::Pointer(wadd(s.pawn, o.m_pGameSceneNode)),
        ScanStage::Position => Request::Position(wadd(s.scene_node, o.m_vecAbsOrigin)),
        ScanStage::Name => Request::Name(wadd(s.controller, o.m_sSanitizedPlayerName)),
        ScanStage::Done => Request::Finished,
    }
}

/// Where a scan looks for a pawn depends on the pawn handle's entity
/// index alone (its low 15 bits): the chunk slot read is
/// `entity_list + 8 * (index / 512) + 16` and the pawn's entry is
/// `chunk + stride * (index % 512)`, so handles that differ only in their
/// serial bits (bit 15 and up) ask for the same reads.
pub proof fn lemma_pawn_reads_use_entity_index(s: PlayerScan, h2: u32)
    requires
        s.handle % 0x8000 == h2 % 0x8000,
    ensures
        s.stage == ScanStage::PawnListEntry ==> spec_request(s) == Request::Pointer(
            ((s.entity_list + 8 * ((s.handle % 0x8000) / 512) + 16) % (usize::MAX + 1)) as usize,
        ),
        s.stage == ScanStage::Pawn ==> spec_request(s) == Request::Pointer(
            ((s.chunk + s.offsets.controller_entry * ((s.handle % 0x8000) % 512)) % (usize::MAX + 1)) as usize,
        ),
        spec_request(s) == spec_request(PlayerScan { handle: h2, ..s }),
{
    let m = usize::MAX + 1;
    let e = s.entity_list as int;
    let q = ((s.handle % 0x8000) / 512) as int;
    assert(0 <= q < 64);
    vstd::arithmetic::div_mod::lemma_small_mod((8 * q) as nat, m as nat);
    vstd::arithmetic::div_mod::lemma_small_mod(16nat, m as nat);
    vstd::arithmetic::div_mod::lemma_add_mod_noop(e + 8 * q, 16, m as int);
    let c = s.chunk as int;
    let st = s.offsets.controller_entry as int;
    let r = ((s.handle % 0x8000) % 512) as int;
    vstd::arithmetic::div_mod::lemma_add_mod_noop_right(c, st * r, m as int);
}

/// The state that moves on to the next entity, or ends the scan after
/// the last one.
pub open spec fn next_entity(s: PlayerScan) -> PlayerScan {
    if s.index >= MAX_ENTITY {
        PlayerScan { stage: ScanStage::Done, ..s }
    } else {
        PlayerScan { index: (s.index + 1) as usize, stage: ScanStage::ListEntry, ..s }
    }
}

/// The state after reply `r` in state `s`. A zero entity list ends the
/// scan; an entity is skipped as soon as a read shows it is not a living
/// player: a null list entry, an implausible controller or pawn pointer,
/// an invalid pawn handle, a health outside 1..=100, or a null scene node.
pub open spec fn spec_advance(s: PlayerScan, r: Reply) -> PlayerScan {
    match (s.stage, r) {
        (ScanStage::EntityList, Reply::Pointer(v)) => if v == 0 {
            PlayerScan { stage: ScanStage::Done, ..s }
        } else {
            PlayerScan { entity_list: v, index: 1, stage: ScanStage::ListEntry, ..s }
        },
        (ScanStage::ListEntry, Reply::Pointer(v)) => if v == 0 {
            next_entity(s)
        } else {
            PlayerScan { chunk: v, stage: ScanStage::Controller, ..s }
        },
        (ScanStage::Controller, Reply::Pointer(v)) => if !plausible_pointer(v) {
            next_entity(s)
        } else {
            PlayerScan { controller: v, stage: ScanStage::PawnHandle, ..s }
        },
        (ScanStage::PawnHandle, Reply::Handle(h)) => if !valid_handle(h) {
            next_entity(s)
        } else {
            PlayerScan { handle: h, stage: ScanStage::PawnListEntry, ..s }
        },
        (ScanStage::PawnListEntry, Reply::Pointer(v)) => if v == 0 {
            next_entity(s)
        } else {
            PlayerScan { chunk: v, stage: ScanStage::Pawn, ..s }
        },
        (ScanStage::Pawn, Reply::Pointer(v)) => if !plausible_pointer(v) {
            next_entity(s)
        } else {
            PlayerScan { pawn: v, stage: ScanStage::Health, ..s }
        },
        (ScanStage::Health, Reply::Health(h)) => if !alive(h) {
            next_entity(s)
        } else {
            PlayerScan { health: h, stage: ScanStage::Team, ..s }
        },
        (ScanStage::Team, Reply::Team(t)) => PlayerScan { team: t, stage: ScanStage::SceneNode, ..s },
        (ScanStage::SceneNode, Reply::Pointer(v)) => if v == 0 {
            next_entity(s)
        } else {
            PlayerScan { scene_node: v, stage: ScanStage::Position, ..s }
        },
        (ScanStage::Position, Reply::Position) => PlayerScan { stage: ScanStage::Name, ..s },
        (ScanStage::Name, Reply::Name(_, _)) => next_entity(s),
        _ => s,
    }
}

/// How many reads a scan in state `s` can still ask for, at most.
pub open spec fn steps_left(s: PlayerScan) -> nat {
    let per = 10nat;
    let rank = stage_rank(s.stage) as nat;
    match s.stage {
        ScanStage::Done => 0,
        ScanStage::EntityList => per * (MAX_ENTITY as nat) + 1,
        _ => if s.index <= MAX_ENTITY && s.index >= 1 {
            (per * ((MAX_ENTITY - s.index) as nat) + (per - rank)) as nat
        } else {
            0
        },
    }
}

/// Whether a scan state can arise: the entity index stays in 1..=512
/// once the entity list is known.
pub open spec fn scan_wf(s: PlayerScan) -> bool {
    let k = stage_rank(s.stage);
    &&& s.stage != ScanStage::EntityList && s.stage != ScanStage::Done ==> 1 <= s.index <= MAX_ENTITY
    &&& k >= 2 ==> plausible_pointer(s.controller)
    &&& k >= 3 ==> valid_handle(s.handle)
    &&& k >= 5 ==> plausible_pointer(s.pawn)
    &&& k >= 6 ==> alive(s.health)
    &&& k >= 8 ==> s.scene_node != 0
}

/// How far into reading one entity a stage is.
pub open spec fn stage_rank(stage: ScanStage) -> int {
    match stage {
        ScanStage::EntityList => 0,
        ScanStage::ListEntry => 0,
        ScanStage::Controller => 1,
        ScanStage::PawnHandle => 2,
        ScanStage::PawnListEntry => 3,
        ScanStage::Pawn => 4,
        ScanStage::Health => 5,
        ScanStage::Team => 6,
        ScanStage::SceneNode => 7,
        ScanStage::Position => 8,
        ScanStage::Name => 9,
        ScanStage::Done => 0,
    }
}

/// How many entities a scan in state `s` has finished with: none before
/// the entity list is read, all 512 once the scan is over, otherwise those
/// before the current one.
pub open spec fn entities_done(s: PlayerScan) -> int {
    match s.stage {
        ScanStage::EntityList => 0,
        ScanStage::Done => MAX_ENTITY as int,
        _ => s.index - 1,
    }
}

/// Whether each reply answers the request of the state it is given in.
pub open spec fn valid_run(s: PlayerScan, rs: Seq<Reply>) -> bool
    decreases rs.len(),
{
    rs.len() == 0 || (answers(spec_request(s), rs[0]) && valid_run(spec_advance(s, rs[0]), rs.skip(1)))
}

/// How many players a scan from `s` reports over the replies `rs`: one
/// for each reply to a name read.
pub open spec fn players_reported(s: PlayerScan, rs: Seq<Reply>) -> int
    decreases rs.len(),
{
    if rs.len() == 0 {
        0
    } else {
        (if s.stage == ScanStage::Name { 1int } else { 0int }) + players_reported(spec_advance(s, rs[0]), rs.skip(1))
    }
}

proof fn lemma_advance_counts(s: PlayerScan, r: Reply)
    requires
        scan_wf(s),
        answers(spec_request(s), r),
    ensures
        scan_wf(spec_advance(s, r)),
        0 <= entities_done(s) <= MAX_ENTITY,
        entities_done(s) + (if s.stage == ScanStage::Name { 1int } else { 0int }) <= entities_done(spec_advance(s, r)),
        entities_done(spec_advance(s, r)) <= MAX_ENTITY,
{
}

/// A scan reports each entity at most once, so at most 512 players: over
/// any run of answered reads from a possible state, the players reported
/// are at most the entities the scan has still to finish with.
pub proof fn lemma_scan_reports_at_most_512(s: PlayerScan, rs: Seq<Reply>)
    requires
        scan_wf(s),
        valid_run(s, rs),
    ensures
        0 <= players_reported(s, rs) <= MAX_ENTITY - entities_done(s),
        s.stage == ScanStage::EntityList ==> players_reported(s, rs) <= MAX_ENTITY,
    decreases rs.len(),
{
    if rs.len() > 0 {
        lemma_advance_counts(s, rs[0]);
        lemma_scan_reports_at_most_512(spec_advance(s, rs[0]), rs.skip(1));
    }
}

impl PlayerScan {
    /// A scan of the entity list whose address is stored at
    /// `entity_list_ptr`.
    pub fn new(entity_list_ptr: usize, offsets: Offsets) -> (r: PlayerScan)
        ensures
            r.stage == ScanStage::EntityList,
            r.entity_list_ptr == entity_list_ptr,
            r.offsets == offsets,
            scan_wf(r),
    {
        PlayerScan {
            entity_list_ptr,
            offsets,
            entity_list: 0,
            index: 0,
            stage: ScanStage::EntityList,
            chunk: 0,
            controller: 0,
            handle: 0,
            pawn: 0,
            health: 0,
            team: 0,
            scene_node: 0,
        }
    }

    /// The read to perform next.
    pub fn request(&self) -> (r: Request)
        ensures
            r == spec_request(*self),
    {
        let o = self.offsets;
        match self.stage {
            ScanStage::EntityList => Request::Pointer(self.entity_list_ptr),
            ScanStage::ListEntry => Request::Pointer(self.chunk_slot(self.index)),
            ScanStage::Controller => Request::Pointer(
                add_wrapping(self.chunk, mul_wrapping(o.controller_entry, self.index % 512)),
            ),
            ScanStage::PawnHandle => Request::Handle(add_wrapping(self.controller, o.m_hPawn)),
            ScanStage::PawnListEntry => Request::Pointer(self.chunk_slot((self.handle % 0x8000) as usize)),
            ScanStage::Pawn => Request::Pointer(
                add_wrapping(self.chunk, mul_wrapping(o.controller_entry, ((self.handle % 0x8000) as usize) % 512)),
            ),
            ScanStage::Health => Request::Health(add_wrapping(self.pawn, o.m_iHealth)),
            ScanStage::Team => Request::Team(add_wrapping(self.pawn, o.m_iTeamNum)),
            ScanStage::SceneNode => Request::Pointer(add_wrapping(self.pawn, o.m_pGameSceneNode)),
            ScanStage::Position => Request::Position(add_wrapping(self.scene_node, o.m_vecAbsOrigin)),
            ScanStage::Name => Request::Name(add_wrapping(self.controller, o.m_sSanitizedPlayerName)),
            ScanStage::Done => Request::Finished,
        }
    }

    fn chunk_slot(&self, index: usize) -> (r: usize)
        ensures
            r == chunk_address(self.entity_list, index),
    {
        add_wrapping(add_wrapping(self.entity_list, mul_wrapping(8, index / 512)), 16)
    }

    fn advance_entity(&mut self)
        ensures
            *final(self) == next_entity(*old(self)),
    {
        if self.index >= MAX_ENTITY {
            self.stage = ScanStage::Done;
        } else {
            self.index = self.index + 1;
            self.stage = ScanStage::ListEntry;
        }
    }

    /// Takes the outcome of the requested read; returns the player whose
    /// reading it completes.
    pub fn feed(&mut self, reply: Reply) -> (r: Option<PlayerRecord>)
        requires
            answers(spec_request(*old(self)), reply),
            scan_wf(*old(self)),
        ensures
            *final(self) == spec_advance(*old(self), reply),
            scan_wf(*final(self)),
            steps_left(*final(self)) < steps_left(*old(self)),
            match r {
                Some(p) => {
                    &&& alive(p.health)
                    &&& old(self).stage == ScanStage::Name
                    &&& reply matches Reply::Name(ok, bytes)
                    &&& p.name@ == spec_player_name(ok, bytes@)
                    &&& p.name@.len() <= 31
                    &&& p.health == old(self).health
                    &&& p.team == old(self).team
                },
                None => !(old(self).stage == ScanStage::Name),
            },
    {
        match (self.stage, reply) {
            (ScanStage::EntityList, Reply::Pointer(v)) => {
                if v == 0 {
                    self.stage = ScanStage::Done;
                } else {
                    self.entity_list = v;
                    self.index = 1;
                    self.stage = ScanStage::ListEntry;
                }
                None
            },
            (ScanStage::ListEntry, Reply::Pointer(v)) => {
                if v == 0 {
                    self.advance_entity();
                } else {
                    self.chunk = v;
                    self.stage = ScanStage::Controller;
                }
                None
            },
            (ScanStage::Controller, Reply::Pointer(v)) => {
                if v == 0 || v < 0x1000000 || v as u64 > 0x7FFFFFFFFFFFu64 {
                    self.advance_entity();
                } else {
                    self.controller = v;
                    self.stage = ScanStage::PawnHandle;
                }
                None
            },
            (ScanStage::PawnHandle, Reply::Handle(h)) => {
                if h == 0 || h == 0xFFFFFFFF {
                    self.advance_entity();
                } else {
                    self.handle = h;
                    self.stage = ScanStage::PawnListEntry;
                }
                None
            },
            (ScanStage::PawnListEntry, Reply::Pointer(v)) => {
                if v == 0 {
                    self.advance_entity();
                } else {
                    self.chunk = v;
                    self.stage = ScanStage::Pawn;
                }
                None
            },
            (ScanStage::Pawn, Reply::Pointer(v)) => {
                if v == 0 || v < 0x1000000 || v as u64 > 0x7FFFFFFFFFFFu64 {
                    self.advance_entity();
                } else {
                    self.pawn = v;
                    self.stage = ScanStage::Health;
                }
                None
            },
            (ScanStage::Health, Reply::Health(h)) => {
                if h <= 0 || h > 100 {
                    self.advance_entity();
                } else {
                    self.health = h;
                    self.stage = ScanStage::Team;
                }
                None
            },
            (ScanStage::Team, Reply::Team(t)) => {
                self.team = t;
                self.stage = ScanStage::SceneNode;
                None
            },
            (ScanStage::SceneNode, Reply::Pointer(v)) => {
                if v == 0 {
                    self.advance_entity();
                } else {
                    self.scene_node = v;
                    self.stage = ScanStage::Position;
                }
                None
            },
            (ScanStage::Position, Reply::Position) => {
                self.stage = ScanStage::Name;
                None
            },
            (ScanStage::Name, Reply::Name(ok, bytes)) => {
                let name = player_name(ok, bytes.as_slice());
                proof {
                    lemma_player_name_fits(ok, bytes@);
                }
                let record = PlayerRecord { name, health: self.health, team: self.team };
                self.advance_entity();
                Some(record)
            },
            _ => None,
        }
    }
}

/// The characters that `String::from_utf8_lossy` makes of `bytes`:
/// every invalid sequence becomes U+FFFD.
pub uninterp spec fn utf8_lossy(bytes: Seq<u8>) -> Seq<char>;

/// `String::from_utf8_lossy`: the text of `bytes`, invalid sequences
/// replaced by U+FFFD; valid UTF-8 is decoded as it is.
#[verifier::external_body]
fn string_from_utf8_lossy(bytes: &[u8]) -> (r: String)
    ensures
        r@ == utf8_lossy(bytes@),
        r@.len() <= bytes@.len(),
        valid_utf8(bytes@) ==> r@ == decode_utf8(bytes@),
{
    String::from_utf8_lossy(bytes).into_owned()
}

/// The map name shown for the decoded text of the name buffer: the text
/// without any path before its last `/`, or `Unknown` when that is empty
/// or `<empty>`.
pub open spec fn spec_clean_map_name(text: Seq<char>) -> Seq<char> {
    let clean = text.skip(name_start(text));
    if clean.len() > 0 && clean != "<empty>"@ {
        clean
    } else {
        "Unknown"@
    }
}

/// A cleaned map name is never empty, never `<empty>`, and holds no `/`.
pub proof fn lemma_clean_map_name_shape(text: Seq<char>)
    ensures
        spec_clean_map_name(text).len() > 0,
        spec_clean_map_name(text) != "<empty>"@,
        forall|i: int| 0 <= i < spec_clean_map_name(text).len() ==> spec_clean_map_name(text)[i] != '/',
{
    reveal_strlit("Unknown");
    reveal_strlit("<empty>");
    lemma_name_start_bounds(text);
    lemma_name_start_no_slash(text);
    let clean = text.skip(name_start(text));
    assert forall|i: int| 0 <= i < clean.len() implies clean[i] != '/' by {
        assert(clean[i] == text[name_start(text) + i]);
    }
    assert("Unknown"@ != "<empty>"@) by {
        assert("Unknown"@[0] != "<empty>"@[0]);
    }
}

/// The map name given the result of reading the map name buffer: the
/// text up to the first NUL, decoded leniently, cleaned by
/// `spec_clean_map_name`; `Unknown` when the read failed or the buffer
/// has no NUL.
pub open spec fn spec_map_name(ok: bool, bytes: Seq<u8>) -> Seq<char> {
    if !ok {
        "Unknown"@
    } else {
        match until_nul(bytes) {
            None => "Unknown"@,
            Some(n) => spec_clean_map_name(utf8_lossy(n)),
        }
    }
}

/// The bytes before the first NUL, if any.
fn bytes_until_nul(bytes: &[u8]) -> (r: Option<Vec<u8>>)
    ensures
        match r {
            Some(n) => until_nul(bytes@) == Some(n@),
            None => until_nul(bytes@) is None,
        },
{
    let mut i: usize = 0;
    proof {
        assert(bytes@.skip(0) =~= bytes@);
        match until_nul(bytes@) {
            Some(rest) => {
                assert(bytes@.take(0) + rest =~= rest);
            },
            None => {},
        }
    }
    while i < bytes.len() && bytes[i] != 0
        invariant
            i <= bytes@.len(),
            until_nul(bytes@) == match until_nul(bytes@.skip(i as int)) {
                Some(rest) => Some(bytes@.take(i as int) + rest),
                None => None,
            },
        decreases bytes.len() - i,
    {
        proof {
            let s = bytes@.skip(i as int);
            assert(s.skip(1) =~= bytes@.skip(i + 1));
            match until_nul(bytes@.skip(i + 1)) {
                Some(rest) => {
                    assert(bytes@.take(i as int) + (seq![bytes@[i as int]] + rest) =~= bytes@.take(i + 1) + rest);
                },
                None => {},
            }
        }
        i = i + 1;
    }
    if i == bytes.len() {
        assert(bytes@.skip(i as int) =~= Seq::<u8>::empty());
        return None;
    }
    proof {
        assert(bytes@.skip(i as int)[0] == 0);
        assert(bytes@.take(i as int) + Seq::<u8>::empty() =~= bytes@.take(i as int));
    }
    let mut n: Vec<u8> = Vec::new();
    let mut k: usize = 0;
    while k < i
        invariant
            k <= i < bytes@.len(),
            n@ == bytes@.take(k as int),
        decreases i - k,
    {
        n.push(bytes[k]);
        k = k + 1;
        assert(n@ =~= bytes@.take(k as int));
    }
    Some(n)
}

/// The map name shown for the decoded text of the name buffer.
pub fn clean_map_name(text: &str) -> (r: String)
    ensures
        r@ == spec_clean_map_name(text@),
        r@ == "Unknown"@ || r@.len() <= text@.len(),
{
    let cs = chars_of(text);
    let start = find_name_start(cs.as_slice());
    proof {
        lemma_name_start_bounds(cs@);
    }
    let clean = sub_chars(cs.as_slice(), start, cs.len());
    assert(clean@ =~= text@.skip(name_start(text@)));
    let s = string_from_chars(clean.as_slice());
    if clean.len() > 0 && s != String::from_str("<empty>") {
        s
    } else {
        String::from_str("Unknown")
    }
}

/// The map name, from the result of reading the map name buffer.
pub fn map_name(ok: bool, bytes: &[u8]) -> (r: String)
    ensures
        r@ == spec_map_name(ok, bytes@),
        r@ == "Unknown"@ || r@.len() < bytes@.len(),
{
    if !ok {
        return String::from_str("Unknown");
    }
    match bytes_until_nul(bytes) {
        None => String::from_str("Unknown"),
        Some(n) => {
            let text = string_from_utf8_lossy(n.as_slice());
            proof {
                lemma_until_nul_shorter(bytes@);
            }
            clean_map_name(text.as_str())
        },
    }
}

/// Where a map name probe is.
#[derive(Debug, Clone, Copy, PartialEq, Eq, Structural)]
pub enum MapStage {
    GlobalVars,
    NamePointer,
    NameBytes,
    Done,
}

/// Reads the current map's name, one read at a time.
#[derive(Debug, Clone, Copy)]
pub struct MapNameProbe {
    pub global_vars_ptr: usize,
    pub map_name_offset: usize,
    pub stage: MapStage,
    pub global_vars: usize,
    pub name_ptr: usize,
}

/// The read a map name probe asks for.
pub open spec fn spec_map_request(p: MapNameProbe) -> Request {
    match p.stage {
        MapStage::GlobalVars => Request::Pointer(p.global_vars_ptr),
        MapStage::NamePointer => Request::Pointer(wadd(p.global_vars, p.map_name_offset)),
        MapStage::NameBytes => Request::MapName(p.name_ptr),
        MapStage::Done => Request::Finished,
    }
}

impl MapNameProbe {
    /// A probe for the map name reached through the globals pointer
    /// stored at `global_vars_ptr`.
    pub fn new(global_vars_ptr: usize, map_name_offset: usize) -> (r: MapNameProbe)
        ensures
            r.stage == MapStage::GlobalVars,
            r.global_vars_ptr == global_vars_ptr,
            r.map_name_offset == map_name_offset,
    {
        MapNameProbe { global_vars_ptr, map_name_offset, stage: MapStage::GlobalVars, global_vars: 0, name_ptr: 0 }
    }

    /// The read to perform next.
    pub fn request(&self) -> (r: Request)
        ensures
            r == spec_map_request(*self),
    {
        match self.stage {
            MapStage::GlobalVars => Request::Pointer(self.global_vars_ptr),
            MapStage::NamePointer => Request::Pointer(add_wrapping(self.global_vars, self.map_name_offset)),
            MapStage::NameBytes => Request::MapName(self.name_ptr),
            MapStage::Done => Request::Finished,
        }
    }

    /// Takes the outcome of the requested read; returns the map name when
    /// the probe is over. A null globals pointer, or a name pointer that is
    /// null or below 0x1000000, gives `Unknown`.
    pub fn feed(&mut self, reply: Reply) -> (r: Option<String>)
        requires
            answers(spec_map_request(*old(self)), reply),
        ensures
            match (old(self).stage, reply) {
                (MapStage::GlobalVars, Reply::Pointer(v)) => if v == 0 {
                    final(self).stage == MapStage::Done && (r matches Some(n) && n@ == "Unknown"@)
                } else {
                    *final(self) == (MapNameProbe { global_vars: v, stage: MapStage::NamePointer, ..*old(self) })
                        && r is None
                },
                (MapStage::NamePointer, Reply::Pointer(v)) => if v != 0 && v > 0x1000000 {
                    *final(self) == (MapNameProbe { name_ptr: v, stage: MapStage::NameBytes, ..*old(self) })
                        && r is None
                } else {
                    final(self).stage == MapStage::Done && (r matches Some(n) && n@ == "Unknown"@)
                },
                (MapStage::NameBytes, Reply::Name(ok, bytes)) => final(self).stage == MapStage::Done
                    && (r matches Some(n) && n@ == spec_map_name(ok, bytes@) && n@.len() <= 31),
                _ => false,
            },
    {
        match (self.stage, reply) {
            (MapStage::GlobalVars, Reply::Pointer(v)) => {
                if v == 0 {
                    self.stage = MapStage::Done;
                    Some(String::from_str("Unknown"))
                } else {
                    self.global_vars = v;
                    self.stage = MapStage::NamePointer;
                    None
                }
            },
            (MapStage::NamePointer, Reply::Pointer(v)) => {
                if v != 0 && v > 0x1000000 {
                    self.name_ptr = v;
                    self.stage = MapStage::NameBytes;
                    None
                } else {
                    self.stage = MapStage::Done;
                    Some(String::from_str("Unknown"))
                }
            },
            (MapStage::NameBytes, Reply::Name(ok, bytes)) => {
                self.stage = MapStage::Done;
                proof {
                    reveal_strlit("Unknown");
                }
                Some(map_name(ok, bytes.as_slice()))
            },
            _ => None,
        }
    }
}

} // verus!
