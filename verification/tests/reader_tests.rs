use radar::reader::{
    clean_map_name, map_name, player_name, Config, MapNameProbe, MapStage, Offsets, PlayerRecord, PlayerScan,
    Reply, Request,
};
use std::collections::HashMap;

fn name_buf(s: &[u8]) -> [u8; 32] {
    let mut b = [0u8; 32];
    b[..s.len()].copy_from_slice(s);
    b
}

#[test]
fn player_names_are_sanitized() {
    assert_eq!(player_name(true, &name_buf(b"s1mple")), "s1mple");
    assert_eq!(player_name(true, &name_buf(b"a b")), "a b");
    assert_eq!(player_name(false, &name_buf(b"s1mple")), "Unknown");
    assert_eq!(player_name(true, &name_buf(b"")), "Unknown");
    assert_eq!(player_name(true, &name_buf("é".as_bytes())), "Unknown");
    assert_eq!(player_name(true, &name_buf(b"tab\t")), "Unknown");
    assert_eq!(player_name(true, &name_buf(&[b'n'; 31])), "n".repeat(31));
    assert_eq!(player_name(true, &[b'x'; 32]), "Unknown");
}

#[test]
fn map_names_drop_their_path() {
    assert_eq!(map_name(true, &name_buf(b"maps/de_dust2")), "de_dust2");
    assert_eq!(map_name(true, &name_buf(b"de_mirage")), "de_mirage");
    assert_eq!(map_name(true, &name_buf(b"<empty>")), "Unknown");
    assert_eq!(map_name(true, &name_buf(b"maps/")), "Unknown");
    assert_eq!(map_name(false, &name_buf(b"de_dust2")), "Unknown");
    assert_eq!(map_name(true, &[b'x'; 32]), "Unknown");
    assert_eq!(map_name(true, &name_buf(&[b'a', 0xff, b'b'])), "a\u{fffd}b");
}

#[test]
fn cleans_decoded_map_names() {
    assert_eq!(clean_map_name("maps/workshop/de_vertigo"), "de_vertigo");
    assert_eq!(clean_map_name("de_inferno"), "de_inferno");
    assert_eq!(clean_map_name(""), "Unknown");
    assert_eq!(clean_map_name("a/<empty>"), "Unknown");
    assert_eq!(clean_map_name("x/"), "Unknown");
}

#[test]
fn default_reader_config() {
    let c = Config::default();
    assert_eq!(c.signatures.entity_list, "48 89 0D ? ? ? ? E9 ? ? ? ? CC");
    assert_eq!(c.signatures.global_vars, "48 89 15 ? ? ? ? 48 89 42");
    assert_eq!(c.offsets.m_hPawn, 0x6BC);
    assert_eq!(c.offsets.m_iHealth, 0x34C);
    assert_eq!(c.offsets.m_iTeamNum, 0x3EB);
    assert_eq!(c.offsets.m_pGameSceneNode, 0x330);
    assert_eq!(c.offsets.m_vecAbsOrigin, 0xC8);
    assert_eq!(c.offsets.m_sSanitizedPlayerName, 0x6F4);
    assert_eq!(c.offsets.m_map_name, 0x188);
    assert_eq!(c.offsets.controller_entry, 0x70);
}

struct Memory {
    words: HashMap<usize, u64>,
    names: HashMap<usize, [u8; 32]>,
}

impl Memory {
    fn word(&self, a: usize) -> u64 {
        *self.words.get(&a).unwrap_or(&0)
    }
}

fn run_scan(mem: &Memory, ptr: usize, offsets: Offsets) -> (Vec<PlayerRecord>, Vec<usize>, usize) {
    let mut scan = PlayerScan::new(ptr, offsets);
    let mut players = Vec::new();
    let mut positions = Vec::new();
    let mut reads = 0;
    loop {
        let reply = match scan.request() {
            Request::Finished => break,
            Request::Pointer(a) => Reply::Pointer(mem.word(a) as usize),
            Request::Handle(a) => Reply::Handle(mem.word(a) as u32),
            Request::Health(a) => Reply::Health(mem.word(a) as i32),
            Request::Team(a) => Reply::Team(mem.word(a) as u8),
            Request::Position(a) => {
                positions.push(a);
                Reply::Position
            }
            Request::Name(a) | Request::MapName(a) => match mem.names.get(&a) {
                Some(b) => Reply::Name(true, *b),
                None => Reply::Name(false, [0; 32]),
            },
        };
        reads += 1;
        if let Some(p) = scan.feed(reply) {
            players.push(p);
        }
    }
    (players, positions, reads)
}

#[test]
fn scans_the_entity_list() {
    let o = Config::default().offsets;
    let ptr = 0x5000;
    let list = 0x2000_0000usize;
    let chunk = 0x3000_0000usize;
    let controller = 0x4000_0000usize;
    let pawn = 0x5000_0000usize;
    let scene = 0x6000_0000usize;
    let handle: u32 = 0x0203; // index 515: chunk 1, slot 3
    let mut words = HashMap::new();
    words.insert(ptr, list as u64);
    // entity 2 lives in chunk 0, slot 2
    words.insert(list + 16, chunk as u64);
    words.insert(chunk + o.controller_entry * 2, controller as u64);
    words.insert(controller + o.m_hPawn, handle as u64);
    words.insert(list + 8 + 16, (chunk + 0x100000) as u64);
    words.insert(chunk + 0x100000 + o.controller_entry * 3, pawn as u64);
    words.insert(pawn + o.m_iHealth, 87);
    words.insert(pawn + o.m_iTeamNum, 3);
    words.insert(pawn + o.m_pGameSceneNode, scene as u64);
    let mut names = HashMap::new();
    names.insert(controller + o.m_sSanitizedPlayerName, name_buf(b"player one"));
    let mem = Memory { words, names };
    let (players, positions, reads) = run_scan(&mem, ptr, o);
    assert_eq!(players.len(), 1);
    assert_eq!(players[0].name, "player one");
    assert_eq!(players[0].health, 87);
    assert_eq!(players[0].team, 3);
    assert_eq!(positions, vec![scene + o.m_vecAbsOrigin]);
    assert!(reads <= 10 * 512 + 1);
}

#[test]
fn skips_dead_players_and_stops_without_a_list() {
    let o = Config::default().offsets;
    let mem = Memory { words: HashMap::new(), names: HashMap::new() };
    let (players, _, reads) = run_scan(&mem, 0x10, o);
    assert!(players.is_empty());
    assert_eq!(reads, 1);

    // entity 1's pawn handle points back at entity 1, whose health is 0
    let ptr = 0x5000;
    let list = 0x2000_0000usize;
    let chunk = 0x3000_0000usize;
    let controller = 0x4000_0000usize;
    let mut words = HashMap::new();
    words.insert(ptr, list as u64);
    words.insert(list + 16, chunk as u64);
    words.insert(chunk + o.controller_entry, controller as u64);
    words.insert(controller + o.m_hPawn, 1u64);
    words.insert(controller + o.m_iHealth, 0);
    let mem = Memory { words, names: HashMap::new() };
    let (players, _, _) = run_scan(&mem, ptr, o);
    assert!(players.is_empty());
}

#[test]
fn probes_the_map_name() {
    let o = Config::default().offsets;
    let mut words = HashMap::new();
    words.insert(0x100usize, 0x9000u64);
    words.insert(0x9000 + o.m_map_name, 0x2000_0000u64);
    let mut names = HashMap::new();
    names.insert(0x2000_0000usize, name_buf(b"maps/de_inferno"));
    let mem = Memory { words, names };
    let mut probe = MapNameProbe::new(0x100, o.m_map_name);
    let mut result = None;
    while probe.stage != MapStage::Done {
        let reply = match probe.request() {
            Request::Pointer(a) => Reply::Pointer(mem.word(a) as usize),
            Request::MapName(a) => Reply::Name(true, *mem.names.get(&a).unwrap()),
            other => panic!("unexpected request {:?}", other),
        };
        result = probe.feed(reply);
    }
    assert_eq!(result.as_deref(), Some("de_inferno"));

    let mut low = MapNameProbe::new(0x100, o.m_map_name);
    assert_eq!(low.feed(Reply::Pointer(0x9000)), None);
    assert_eq!(low.feed(Reply::Pointer(0x1000)).as_deref(), Some("Unknown"));
    let mut null = MapNameProbe::new(0x100, o.m_map_name);
    assert_eq!(null.feed(Reply::Pointer(0)).as_deref(), Some("Unknown"));
}

#[test]
fn a_scan_reports_at_most_512_players() {
    let mut scan = PlayerScan::new(0x1000, Config::default().offsets);
    let mut players = 0;
    loop {
        let reply = match scan.request() {
            Request::Finished => break,
            Request::Pointer(_) => Reply::Pointer(0x2000_0000),
            Request::Handle(_) => Reply::Handle(5),
            Request::Health(_) => Reply::Health(50),
            Request::Team(_) => Reply::Team(2),
            Request::Position(_) => Reply::Position,
            Request::Name(_) | Request::MapName(_) => Reply::Name(true, name_buf(b"bot")),
        };
        if scan.feed(reply).is_some() {
            players += 1;
        }
    }
    assert_eq!(players, 512);
}
