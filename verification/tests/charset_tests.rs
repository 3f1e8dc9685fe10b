use charset::CharSet;

fn collect_chars(s: &CharSet) -> Vec<char> {
    let mut out = Vec::new();
    let mut it = s.iter();
    while let Some(c) = it.next() {
        out.push(c);
    }
    out
}

fn collect_ranges(s: &CharSet) -> Vec<(char, char)> {
    let mut out = Vec::new();
    let mut it = s.ranges();
    while let Some(r) = it.next() {
        out.push(r);
    }
    out
}

#[test]
fn it_works() {
    let mut s = CharSet::new();
    s.insert('a');
    assert_eq!(collect_chars(&s), vec!['a']);
}

#[test]
fn new_set_is_empty() {
    let s = CharSet::new();
    assert!(s.is_empty());
    assert_eq!(collect_chars(&s), Vec::<char>::new());
    assert_eq!(collect_ranges(&s), Vec::<(char, char)>::new());
}

#[test]
fn with_capacity_is_empty() {
    let s = CharSet::with_capacity(16);
    assert!(s.is_empty());
    assert_eq!(collect_chars(&s), Vec::<char>::new());
}

#[test]
fn insert_reports_change() {
    let mut s = CharSet::new();
    assert!(s.insert('x'));
    assert!(!s.insert('x'));
    assert!(!s.is_empty());
}

#[test]
fn remove_reports_presence() {
    let mut s = CharSet::new();
    s.insert('x');
    assert!(s.remove('x'));
    assert!(!s.remove('x'));
    assert!(s.is_empty());
}

#[test]
fn round_trip_membership() {
    let mut s = CharSet::new();
    s.insert('q');
    assert!(collect_chars(&s).contains(&'q'));
    s.remove('q');
    assert!(!collect_chars(&s).contains(&'q'));
}

#[test]
fn insert_bridges_two_adjacent_ranges() {
    let mut s = CharSet::new();
    s.insert('a');
    s.insert('c');
    assert_eq!(collect_ranges(&s), vec![('a', 'a'), ('c', 'c')]);
    s.insert('b');
    assert_eq!(collect_ranges(&s), vec![('a', 'c')]);
}

#[test]
fn merge_adjacent_ranges() {
    let mut s = CharSet::new();
    s.insert_range('a', 'c');
    s.insert_range('d', 'f');
    assert_eq!(collect_ranges(&s), vec![('a', 'f')]);
}

#[test]
fn insert_range_idempotent() {
    let mut once = CharSet::new();
    once.insert_range('g', 'p');
    let mut twice = CharSet::new();
    twice.insert_range('g', 'p');
    twice.insert_range('g', 'p');
    assert_eq!(collect_ranges(&once), collect_ranges(&twice));
}

#[test]
fn remove_splits_a_range() {
    let mut s = CharSet::new();
    s.insert_range('a', 'z');
    s.remove_range('m', 'm');
    assert_eq!(collect_ranges(&s), vec![('a', 'l'), ('n', 'z')]);
}

#[test]
fn full_range_splits_at_surrogate_gap() {
    let mut s = CharSet::new();
    s.insert_range('\u{0}', '\u{10FFFF}');
    assert_eq!(
        collect_ranges(&s),
        vec![('\u{0}', '\u{D7FF}'), ('\u{E000}', '\u{10FFFF}')]
    );
    let mut it = s.iter();
    let mut count: u64 = 0;
    let mut prev: Option<char> = None;
    while let Some(c) = it.next() {
        let v = c as u32;
        assert!(!(0xD800..=0xDFFF).contains(&v));
        if let Some(p) = prev {
            assert!(p < c);
        }
        prev = Some(c);
        count += 1;
    }
    // Every scalar value: 0x110000 code points minus the 0x800 surrogates.
    assert_eq!(count, 0x110000 - 0x800);
}

#[test]
fn range_straddling_gap_is_cut() {
    let mut s = CharSet::new();
    s.insert_range('\u{D000}', '\u{E800}');
    assert_eq!(
        collect_ranges(&s),
        vec![('\u{D000}', '\u{D7FF}'), ('\u{E000}', '\u{E800}')]
    );
}

#[test]
fn range_below_gap_stays_whole() {
    let mut s = CharSet::new();
    s.insert_range('\u{100}', '\u{D7FF}');
    assert_eq!(collect_ranges(&s), vec![('\u{100}', '\u{D7FF}')]);
}

#[test]
fn range_above_gap_stays_whole() {
    let mut s = CharSet::new();
    s.insert_range('\u{E000}', '\u{FFFF}');
    assert_eq!(collect_ranges(&s), vec![('\u{E000}', '\u{FFFF}')]);
}

#[test]
fn clear_empties_the_set() {
    let mut s = CharSet::new();
    s.insert_range('a', 'z');
    s.clear();
    assert!(s.is_empty());
    assert_eq!(collect_chars(&s), Vec::<char>::new());
    assert_eq!(collect_ranges(&s), Vec::<(char, char)>::new());
}

#[test]
fn ranges_stay_minimal_across_operations() {
    let mut s = CharSet::new();
    s.insert_range('b', 'h');
    s.insert_range('k', 'p');
    s.remove_range('d', 'e');
    s.insert('i');
    s.insert('j');
    s.insert_range('a', 'c');
    let rs = collect_ranges(&s);
    for w in rs.windows(2) {
        let (_, hi) = w[0];
        let (lo, _) = w[1];
        assert!((hi as u32) + 1 < lo as u32);
    }
    for (lo, hi) in rs {
        assert!(lo <= hi);
    }
}

#[test]
fn from_range_matches_insert_range() {
    let s = CharSet::from_range('0', '9');
    assert_eq!(collect_ranges(&s), vec![('0', '9')]);
    assert_eq!(
        collect_chars(&s),
        vec!['0', '1', '2', '3', '4', '5', '6', '7', '8', '9']
    );
}

#[test]
fn iter_is_restartable() {
    let mut s = CharSet::new();
    s.insert_range('x', 'z');
    let first: Vec<char> = collect_chars(&s);
    let second: Vec<char> = collect_chars(&s);
    assert_eq!(first, second);
    assert_eq!(first, vec!['x', 'y', 'z']);
}

#[test]
fn into_inner_exposes_the_engine() {
    let mut s = CharSet::new();
    s.insert_range('a', 'c');
    let engine = s.into_inner();
    assert_eq!(engine.num_ranges(), 1);
    assert_eq!(engine.range_at(0), ('a' as u32, 'c' as u32));
    assert!(engine.contains_val('b' as u32));
    assert!(!engine.contains_val('d' as u32));
}
