use planetgen::generator::{indexed_domain_key, PlanetGenerator, FNV_OFFSET};
use planetgen::tools::{expand_seed64, generate_seed8, splitmix64, SEED8_LIMIT};
use rand::rngs::StdRng;
use rand::{RngCore, SeedableRng};

fn generator(seed: u64) -> PlanetGenerator {
    PlanetGenerator {
        seed,
        num_plates: 12,
        num_micro_plates: 4,
        merge_selection_threshold: 0,
        merge_two_neighbors_threshold: 0,
    }
}

#[test]
fn splitmix64_known_outputs() {
    assert_eq!(splitmix64(0), 0xE220A8397B1DCDAF);
    assert_eq!(splitmix64(1), 0x910A2DEC89025CC1);
}

#[test]
fn expand_seed64_is_one_splitmix_step() {
    assert_eq!(expand_seed64(0), 0xE220A8397B1DCDAF);
    assert_eq!(expand_seed64(12345678), 0x11D5CF7B5B0AE679);
    assert_eq!(expand_seed64(12345678), splitmix64(12345678));
}

#[test]
fn generate_seed8_stays_below_limit() {
    for _ in 0..100 {
        assert!(generate_seed8() < SEED8_LIMIT);
    }
}

#[test]
fn fnv1a64_standard_vectors() {
    assert_eq!(PlanetGenerator::fnv1a64(0, b""), FNV_OFFSET);
    assert_eq!(PlanetGenerator::fnv1a64(0, b"a"), 0xAF63DC4C8601EC8C);
    assert_eq!(PlanetGenerator::fnv1a64(0, b"foobar"), 0x85944171F73967E8);
}

#[test]
fn fnv1a64_continues_from_nonzero_accumulator() {
    assert_eq!(PlanetGenerator::fnv1a64(42, b"continents"), 0x6E57F24D66F73FE7);
    assert_eq!(PlanetGenerator::fnv1a64(42, b""), 42);
}

#[test]
fn seed32_for_expands_domain_hash() {
    let g = generator(7);
    let expected: [u8; 32] = [
        32, 160, 140, 52, 253, 31, 2, 97, 37, 184, 197, 128, 122, 151, 63, 198, 121, 125, 2, 37, 42,
        122, 38, 90, 2, 38, 44, 50, 103, 0, 102, 130,
    ];
    assert_eq!(g.seed32_for("merge/selection"), expected);
    assert_eq!(g.seed32_for_bytes(b"merge/selection"), expected);
}

#[test]
fn seed_u32_for_takes_low_half() {
    let g = generator(7);
    assert_eq!(g.seed_u32_for("continents"), 0xDE5755DA);
    assert_ne!(g.seed_u32_for("mountains"), g.seed_u32_for("mountains/width"));
}

#[test]
fn indexed_domain_key_spells_slash_and_digits() {
    assert_eq!(indexed_domain_key("plates/direction", 12), b"plates/direction/12".to_vec());
    assert_eq!(indexed_domain_key("x", 0), b"x/0".to_vec());
    assert_eq!(indexed_domain_key("", 18446744073709551615), b"/18446744073709551615".to_vec());
}

#[test]
fn indexed_keys_of_distinct_indices_differ() {
    assert_ne!(indexed_domain_key("microplates/pick", 1), indexed_domain_key("microplates/pick", 10));
    assert_ne!(indexed_domain_key("microplates/pick", 3), indexed_domain_key("microplates/pick", 30));
}

#[test]
fn seed32_for_indexed_uses_indexed_key() {
    let g = generator(7);
    let expected: [u8; 32] = [
        210, 203, 153, 158, 26, 21, 171, 254, 124, 12, 96, 89, 124, 193, 14, 236, 110, 83, 185, 116,
        98, 193, 21, 107, 173, 32, 143, 195, 63, 44, 172, 58,
    ];
    assert_eq!(g.seed32_for_indexed("microplates/pick", 3), expected);
    assert_eq!(g.seed32_for_indexed("microplates/pick", 3), g.seed32_for("microplates/pick/3"));
}

#[test]
fn rng_streams_are_reproducible() {
    let g = generator(99);
    let mut a = g.rng_for("merge/selection");
    let mut b = g.rng_for("merge/selection");
    for _ in 0..8 {
        assert_eq!(a.next_u64(), b.next_u64());
    }
    let mut c = g.rng_for_indexed("plates/angular", 5);
    let mut d = g.rng_for_indexed("plates/angular", 5);
    assert_eq!(c.next_u64(), d.next_u64());
}

#[test]
fn rng_streams_of_different_domains_differ() {
    let g = generator(99);
    let mut a = g.rng_for_indexed("plates/direction", 0);
    let mut b = g.rng_for_indexed("plates/direction", 1);
    assert_ne!(a.next_u64(), b.next_u64());
    let h = generator(100);
    let mut c = g.rng_for("merge/selection");
    let mut d = h.rng_for("merge/selection");
    assert_ne!(c.next_u64(), d.next_u64());
}

#[test]
fn rng_streams_are_seeded_with_domain_seeds() {
    let g = generator(31);
    let mut a = g.rng_for("merge/selection");
    let mut b = StdRng::from_seed(g.seed32_for("merge/selection"));
    let mut c = g.rng_for_indexed("microplates/jitter", 4);
    let mut d = StdRng::from_seed(g.seed32_for("microplates/jitter/4"));
    for _ in 0..4 {
        assert_eq!(a.next_u64(), b.next_u64());
        assert_eq!(c.next_u64(), d.next_u64());
    }
}

#[test]
fn distinct_seed_codes_expand_to_distinct_seeds() {
    let mut seen = std::collections::HashSet::new();
    for code in 0..2000u32 {
        assert!(seen.insert(expand_seed64(code)));
    }
    assert!(seen.insert(expand_seed64(SEED8_LIMIT - 1)));
}
