use radar::memory::{
    find_signature_in_bytes, names_match, parse_hex_byte, parse_signature, read_succeeded,
    relative_target, relative_target_fits, PointerChain, ProcessModule,
};

#[test]
fn parses_signatures_with_wildcards() {
    assert_eq!(
        parse_signature("48 89 0D ? ? ? ? E9 ? ? ? ? CC"),
        vec![
            Some(0x48), Some(0x89), Some(0x0D), None, None, None, None, Some(0xE9), None, None, None,
            None, Some(0xCC)
        ]
    );
    assert_eq!(parse_signature("  48\t?? zz 1ff +a\n"), vec![Some(0x48), None, Some(0), Some(0), Some(0x0a)]);
    assert_eq!(parse_signature(""), Vec::<Option<u8>>::new());
    assert_eq!(parse_signature("???"), vec![Some(0)]);
    assert_eq!(parse_signature("ff\u{3000}00ff"), vec![Some(0xff), Some(0xff)]);
}

#[test]
fn hex_bytes_follow_from_str_radix() {
    let chars = |s: &str| s.chars().collect::<Vec<char>>();
    for s in ["0", "ff", "FF", "+7f", "000ff", "100", "", "+", "-1", "g1", "fff"] {
        assert_eq!(parse_hex_byte(&chars(s)), u8::from_str_radix(s, 16).ok(), "{}", s);
    }
}

#[test]
fn finds_the_first_match() {
    let data = [0x00, 0x48, 0x89, 0x0D, 0x11, 0x22, 0x48, 0x89, 0x0D, 0x99, 0x00];
    let sig = parse_signature("48 89 0D ??");
    assert_eq!(find_signature_in_bytes(0x1000, &data, &sig), 0x1001);
    let none = parse_signature("48 89 0E");
    assert_eq!(find_signature_in_bytes(0x1000, &data, &none), 0);
    // the last position, where the pattern would end exactly at the end, is not tried
    let tail = parse_signature("99 00");
    assert_eq!(find_signature_in_bytes(0x1000, &data, &tail), 0);
    assert_eq!(find_signature_in_bytes(0x1000, &[], &sig), 0);
}

#[test]
fn resolves_relative_targets() {
    assert!(relative_target_fits(0x1000, -0x10, 3, 4));
    assert_eq!(relative_target(0x1000, -0x10, 3, 4), 0x1000 - 0x10 + 3 + 4);
    assert_eq!(relative_target(0x2000, 0x20, 3, 4), 0x2027);
    assert!(!relative_target_fits(usize::MAX / 2, isize::MAX, 0, 0));
}

#[test]
fn read_status() {
    assert!(read_succeeded(0, 0, 8));
    assert!(read_succeeded(-1, 8, 8));
    assert!(!read_succeeded(-1, 4, 8));
}

#[test]
fn names_ignore_ascii_case() {
    assert!(names_match("CS2.exe", "cs2.EXE"));
    assert!(!names_match("cs2.exe", "cs2.ex"));
    assert!(!names_match("É", "é"));
}

#[test]
fn follows_pointer_chains() {
    let mem = |a: usize| a * 2;
    let mut chain = PointerChain::new(10, &[1, 2, 3]);
    let mut reads = Vec::new();
    while let Some(a) = chain.next_read() {
        reads.push(a);
        chain.feed(mem(a));
    }
    assert_eq!(reads, vec![11, 24, 51]);
    assert_eq!(chain.address(), 102);
    let empty = PointerChain::new(7, &[]);
    assert_eq!(empty.next_read(), None);
    assert_eq!(empty.address(), 7);
    let mut wrap = PointerChain::new(usize::MAX, &[2]);
    assert_eq!(wrap.next_read(), Some(1));
    wrap.feed(5);
    assert_eq!(wrap.address(), 5);
}

#[test]
fn module_defaults_to_nothing() {
    assert_eq!(ProcessModule::default(), ProcessModule { base: 0, size: 0 });
}

#[test]
fn printed_signatures_parse_back() {
    let v = vec![Some(0x48), Some(0x89), Some(0x0D), None, None, Some(0xFF), Some(0x00), None];
    let printed: Vec<String> = v
        .iter()
        .map(|x| match x {
            None => "??".to_string(),
            Some(b) => format!("{:02X}", b),
        })
        .collect();
    assert_eq!(parse_signature(&printed.join(" ")), v);
    assert_eq!(parse_signature(""), Vec::<Option<u8>>::new());
}

#[test]
fn chain_follows_to_the_last_read() {
    let mem = |a: usize| a * 2 + 1;
    let offsets = [3usize, 5, 7];
    let mut chain = PointerChain::new(100, &offsets);
    while let Some(a) = chain.next_read() {
        chain.feed(mem(a));
    }
    let mut addr = 100usize;
    for o in &offsets[..offsets.len() - 1] {
        addr = mem(addr + o);
    }
    assert_eq!(chain.address(), mem(addr + offsets[offsets.len() - 1]));
}
