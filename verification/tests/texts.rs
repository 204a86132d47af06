use spire::blessings::Blessing;
use spire::fuzz::ascends_past_path;
use spire::rng::{rand_slice, remove_random, Rand};
use spire::step::{
    first_of, has_kind, index_of, indices_of, settle, step_name, OfferedStep, StepKind,
};
use spire::text::{contains, parse_usize, trim};

fn chars(s: &str) -> Vec<char> {
    s.chars().collect()
}

fn step(debug: &str) -> OfferedStep {
    OfferedStep { kind: StepKind::Other, debug: debug.to_owned(), description: String::new() }
}

#[test]
fn numbers_are_read_as_the_standard_library_reads_them() {
    for text in [
        "0",
        "7",
        "+12",
        "007",
        "",
        "+",
        "-1",
        " 3",
        "3 ",
        "1x",
        "++1",
        "18446744073709551615",
        "18446744073709551616",
        "00000000000000000000000000000001",
        "99999999999999999999999",
    ] {
        assert_eq!(parse_usize(&chars(text)), text.parse::<usize>().ok(), "{text}");
    }
}

#[test]
fn white_space_is_trimmed_as_the_standard_library_trims_it() {
    for text in ["", "  ", " a b ", "\u{3000}x\u{2009}\t", "x\u{85}", "\u{200b}x", "\u{1680}\u{205f}y"]
    {
        assert_eq!(trim(&chars(text)), chars(text.trim()), "{text:?}");
    }
    for c in (0..0x3100).filter_map(char::from_u32) {
        assert_eq!(spire::text::char_is_space(c), c.is_whitespace(), "{:x}", c as u32);
    }
}

#[test]
fn a_text_is_found_in_another() {
    for (text, pattern) in
        [("abcabd", "abd"), ("aab", "ab"), ("", ""), ("abc", ""), ("ab", "abc"), ("äöü", "öü")]
    {
        assert_eq!(contains(text, pattern), text.contains(pattern), "{text} {pattern}");
    }
}

#[test]
fn a_step_goes_by_the_name_of_its_type() {
    assert_eq!(step_name(&step("AscendStep { x: 1, y: 2 }")), "AscendStep");
    assert_eq!(step_name(&step("ChooseBlessingStep(RemoveCard)")), "ChooseBlessingStep");
    assert_eq!(step_name(&step("EndTurnStep")), "EndTurnStep");
    assert_eq!(step_name(&step("Tight{x: 1}")), "Tight");
    assert_eq!(step_name(&step("")), "");
}

#[test]
fn steps_are_found_by_name() {
    let steps = vec![step("A"), step("B(1)"), step("A { x: 1 }"), step("AB")];
    assert_eq!(indices_of(&steps, "A"), vec![0, 2]);
    assert_eq!(indices_of(&steps, "C"), Vec::<usize>::new());
    assert_eq!(first_of(&steps, "B"), Some(1));
    assert_eq!(first_of(&steps, "C"), None);
    assert!(has_kind(&steps, "AB"));
    assert!(!has_kind(&steps, "B(1)"));
}

#[test]
fn steps_are_found_by_what_they_are() {
    let mut steps = vec![step("A"), step("B"), step("C")];
    let blessing = StepKind::ChooseBlessing(Blessing::CommonRelic);
    steps[1].kind = blessing;
    steps[2].kind = blessing;
    assert_eq!(index_of(&steps, blessing), Some(1));
    assert_eq!(index_of(&steps, StepKind::EndTurn), None);
    assert_eq!(settle(&steps, 1), 1);
    assert_eq!(settle(&steps, 9), 2);
}

#[test]
fn steps_behind_the_last_room_are_recognised() {
    assert!(ascends_past_path("ascend to (3, 8)", 8));
    assert!(!ascends_past_path("ascend to (3, 7)", 8));
    assert!(ascends_past_path("ascend to (3, 9))", 8));
    assert!(ascends_past_path("ascend to (, 8)", 8));
    assert!(!ascends_past_path("ascend to (3,8)", 8));
    assert!(!ascends_past_path("ascend to (3, 8, 9)", 8));
    assert!(!ascends_past_path("ascend to (3,  8)", 8));
    assert!(!ascends_past_path("descend to (3, 8)", 8));
    assert!(!ascends_past_path("ascend to (3, x)", 8));
    assert!(!ascends_past_path("ascend to (", 8));
}

#[test]
fn a_seed_determines_what_is_drawn() {
    let mut a = Rand::seed_from_u64(42);
    let mut b = Rand::seed_from_u64(42);
    let mut c = Rand::seed_from_u64(43);
    let from_a: Vec<u64> = (0..8).map(|_| a.bits()).collect();
    let from_b: Vec<u64> = (0..8).map(|_| b.bits()).collect();
    let from_c: Vec<u64> = (0..8).map(|_| c.bits()).collect();
    assert_eq!(from_a, from_b);
    assert_ne!(from_a, from_c);
    assert_eq!(a.made_from(), Some(42));
    let mut d = a.clone();
    assert_eq!(d.made_from(), Some(42));
    assert_eq!(a.below(1000), d.below(1000));
    assert_eq!(a.bits(), d.bits());
}

#[test]
fn fresh_sources_differ() {
    let mut a = Rand::default();
    let mut b = Rand::default();
    assert_eq!(a.made_from(), None);
    let from_a: Vec<u64> = (0..4).map(|_| a.bits()).collect();
    let from_b: Vec<u64> = (0..4).map(|_| b.bits()).collect();
    assert_ne!(from_a, from_b);
}

#[test]
fn draws_stay_in_range_and_reach_all_of_it() {
    let mut rng = Rand::seed_from_u64(9);
    let mut seen = [false; 5];
    for _ in 0..200 {
        seen[rng.below(5)] = true;
    }
    assert_eq!(seen, [true; 5]);
    assert_eq!(rng.below(1), 0);
    let mut found = [false; 3];
    for _ in 0..100 {
        found[rand_slice(&mut rng, &[0usize, 1, 2])] = true;
    }
    assert_eq!(found, [true; 3]);
}

#[test]
fn taking_at_random_takes_one_and_keeps_the_order() {
    let mut rng = Rand::seed_from_u64(11);
    let mut v = vec![10, 20, 30, 40];
    let taken = remove_random(&mut rng, &mut v);
    let mut rest = vec![10, 20, 30, 40];
    rest.retain(|n| *n != taken);
    assert_eq!(v, rest);
    while !v.is_empty() {
        remove_random(&mut rng, &mut v);
    }
}

#[test]
fn what_is_taken_at_random_is_what_the_source_draws() {
    let mut rng = Rand::seed_from_u64(12);
    let mut by_hand = rng.clone();
    let mut v: Vec<u32> = (0..30).collect();
    let mut w = v.clone();
    while !v.is_empty() {
        let n = w.len();
        let expected = w.remove(by_hand.below(n));
        assert_eq!(remove_random(&mut rng, &mut v), expected);
        assert_eq!(v, w);
    }
    assert_eq!(rng.bits(), by_hand.bits());
}
