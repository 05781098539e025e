use namegen::generate::{generate, Rng};
use namegen::grammar::parse;

const FANTASY: &str = "name = <syllable><syllable> | <syllable><syllable><syllable> | <syllable>'<syllable>\n\nsyllable = ka|ke|ki|ko|ku|ra|re|ri|ro|ru|sha|shi|tha|thi|zar|zan|dun|dan|mor|mir|fen|fal|bry|gor|nal|vess\n";

fn names(src: &str, start: &str, seed: u64, n: usize) -> Vec<String> {
    let g = parse(src).ok().expect("grammar parses");
    let mut rng = Rng::new_seeded(seed);
    (0..n).map(|_| generate(&g, start, &mut rng).expect("generates")).collect()
}

#[test]
fn fantasy_names_for_seed_42() {
    assert_eq!(
        names(FANTASY, "name", 42, 5),
        vec!["gormirdan", "thabry", "katha", "danzar", "mir're"]
    );
}

#[test]
fn fantasy_names_for_seed_7() {
    assert_eq!(names(FANTASY, "name", 7, 3), vec!["brybry", "shamir", "fenriru"]);
}

#[test]
fn same_seed_same_names() {
    assert_eq!(names(FANTASY, "name", 2024, 20), names(FANTASY, "name", 2024, 20));
}

#[test]
fn seed_is_made_odd() {
    assert_eq!(names(FANTASY, "name", 0, 10), names(FANTASY, "name", 1, 10));
}

#[test]
fn character_classes_expand_to_one_character() {
    let src = "id = [A-Z][0-9][0-9]";
    assert_eq!(names(src, "id", 99, 3), vec!["K77", "T55", "G38"]);
}

#[test]
fn single_alternative_is_always_chosen() {
    for seed in 0..20u64 {
        assert_eq!(names("name = abc", "name", seed, 1), vec!["abc"]);
    }
}

#[test]
fn start_rule_other_than_name() {
    let src = "name = <x>\nx = hello";
    assert_eq!(names(src, "x", 5, 2), vec!["hello", "hello"]);
}

#[test]
fn self_reference_exceeds_the_depth_limit() {
    let g = parse("name = a<name>").ok().unwrap();
    let mut rng = Rng::new_seeded(3);
    let e = generate(&g, "name", &mut rng).err().expect("too deep");
    assert_eq!(
        e,
        "generation exceeded the maximum depth (100) while expanding rule 'name' - the grammar likely has a rule that refers back to itself with no way to stop"
    );
}

#[test]
fn depth_error_names_the_rule_being_expanded() {
    let g = parse("name = <loop>\nloop = <loop>").ok().unwrap();
    let mut rng = Rng::new_seeded(3);
    let e = generate(&g, "name", &mut rng).err().unwrap();
    assert!(e.contains("rule 'loop'"));
}

#[test]
fn nesting_of_exactly_the_limit_succeeds() {
    // r0 refers to r1, ..., r99 refers to r100: depth 100 is allowed.
    let mut src = String::new();
    for i in 0..100 {
        src.push_str(&format!("r{} = <r{}>\n", i, i + 1));
    }
    src.push_str("r100 = end\n");
    assert_eq!(names(&src, "r0", 1, 1), vec!["end"]);
    src.push_str("top = <r0>\n");
    let g = parse(&src).ok().unwrap();
    let mut rng = Rng::new_seeded(1);
    assert!(generate(&g, "top", &mut rng).is_err());
}

#[test]
fn weighted_index_follows_shares() {
    let mut rng = Rng::new_seeded(1);
    let picks: Vec<usize> = (0..8).map(|_| rng.weighted_index(&vec![5, 3, 1, 1])).collect();
    assert_eq!(picks, vec![1, 3, 0, 1, 0, 2, 1, 0]);
}

#[test]
fn weighted_index_single_weight() {
    let mut rng = Rng::new_seeded(77);
    for _ in 0..10 {
        assert_eq!(rng.weighted_index(&vec![4]), 0);
    }
}

#[test]
fn uniform_index_values() {
    let mut rng = Rng::new_seeded(123);
    let picks: Vec<usize> = (0..5).map(|_| rng.uniform_index(26)).collect();
    assert_eq!(picks, vec![15, 22, 24, 21, 16]);
}

#[test]
fn from_entropy_mixes_clock_and_pid() {
    // (1234567890123 ^ 4321 * GOLDEN_GAMMA) | 1, wrapping.
    let mut a = Rng::from_entropy(Some(1234567890123), 4321);
    let mut b = Rng::new_seeded(0x865d92e2f9c35abf);
    for _ in 0..5 {
        assert_eq!(a.uniform_index(1000), b.uniform_index(1000));
    }
    let mut c = Rng::from_entropy(None, 0);
    let mut d = Rng::new_seeded(0x2545_F491_4F6C_DD1D);
    for _ in 0..5 {
        assert_eq!(c.uniform_index(1000), d.uniform_index(1000));
    }
}

#[test]
fn generated_names_are_in_the_language() {
    let syllables = [
        "ka", "ke", "ki", "ko", "ku", "ra", "re", "ri", "ro", "ru", "sha", "shi", "tha", "thi",
        "zar", "zan", "dun", "dan", "mor", "mir", "fen", "fal", "bry", "gor", "nal", "vess",
    ];
    fn split_into(s: &str, syl: &[&str], n: usize) -> bool {
        if n == 0 {
            return s.is_empty();
        }
        syl.iter().any(|x| s.starts_with(x) && split_into(&s[x.len()..], syl, n - 1))
    }
    for name in names(FANTASY, "name", 11, 40) {
        let ok = split_into(&name, &syllables, 2)
            || split_into(&name, &syllables, 3)
            || name.split_once('\'').map_or(false, |(a, b)| {
                split_into(a, &syllables, 1) && split_into(b, &syllables, 1)
            });
        assert!(ok, "{name}");
    }
}

#[test]
fn acyclic_grammar_always_generates() {
    let src = "name = <a><b> | <b>\na = <b>x | y\nb = [a-c] | z";
    let g = parse(src).ok().unwrap();
    for seed in 0..50u64 {
        let mut rng = Rng::new_seeded(seed);
        assert!(generate(&g, "name", &mut rng).is_ok());
    }
}
