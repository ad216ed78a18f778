use rand::rngs::StdRng;
use rand::{Rng, RngCore, SeedableRng};
use vstd::prelude::*;
use vstd::string::StringSliceAdditionalSpecFns;

use crate::plate_map::{cell, wf_map, PlateMap};
use crate::tools::{splitmix64, splitmix64_spec};

verus! {

#[verifier::external_type_specification]
#[verifier::external_body]
pub struct ExStdRng(StdRng);

/// FNV-1a offset basis, used when the running hash is zero.
pub const FNV_OFFSET: u64 = 0xcbf29ce484222325;

/// FNV-1a 64-bit prime.
pub const FNV_PRIME: u64 = 0x100000001b3;

/// The FNV-1a fold of `bytes` from the running hash `h`.
pub open spec fn fnv_fold(h: u64, bytes: Seq<u8>) -> u64
    decreases bytes.len(),
{
    if bytes.len() == 0 {
        h
    } else {
        let prev = fnv_fold(h, bytes.drop_last());
        crate::tools::mod64((prev ^ (bytes.last() as u64)) * FNV_PRIME)
    }
}

/// FNV-1a over `bytes`, where a zero accumulator stands for the offset basis.
pub open spec fn fnv1a64_spec(acc: u64, bytes: Seq<u8>) -> u64 {
    fnv_fold(if acc == 0 { FNV_OFFSET } else { acc }, bytes)
}

/// Byte `j` (0 = least significant) of `v`.
pub open spec fn le_byte(v: u64, j: int) -> u8 {
    ((v >> ((8 * j) as u64)) & 0xffu64) as u8
}

/// The 32-byte seed derived from the 64-bit hash `s`: four SplitMix64 words of
/// `s ^ 0 .. s ^ 3`, each written little-endian.
pub open spec fn seed32_spec(s: u64) -> Seq<u8> {
    Seq::new(32, |k: int| le_byte(splitmix64_spec(s ^ ((k / 8) as u64)), k % 8))
}

/// ASCII decimal digits of `n`, most significant first, without leading zeros.
pub open spec fn decimal_digits(n: u64) -> Seq<u8>
    decreases n,
{
    if n < 10 {
        seq![(48 + n) as u8]
    } else {
        decimal_digits(n / 10).push((48 + n % 10) as u8)
    }
}

/// The bytes of the key `"{domain}/{idx}"`.
pub open spec fn indexed_key(domain: Seq<u8>, idx: u64) -> Seq<u8> {
    domain.push(47u8) + decimal_digits(idx)
}

proof fn lemma_decimal_digits_len(n: u64)
    ensures
        decimal_digits(n).len() >= 1,
        n >= 10 ==> decimal_digits(n).len() >= 2,
    decreases n,
{
    if n >= 10 {
        lemma_decimal_digits_len(n / 10);
    }
}

proof fn lemma_digit_byte(d: u64)
    by (bit_vector)
    requires
        d < 10,
    ensures
        ((48 + d) as u8) == 48 + d,
{
}

/// Distinct numbers have distinct decimal spellings.
pub proof fn lemma_decimal_digits_injective(a: u64, b: u64)
    requires
        decimal_digits(a) == decimal_digits(b),
    ensures
        a == b,
    decreases a,
{
    lemma_decimal_digits_len(a);
    lemma_decimal_digits_len(b);
    if a < 10 && b < 10 {
        assert(decimal_digits(a) == seq![(48 + a) as u8]);
        assert(decimal_digits(b) == seq![(48 + b) as u8]);
        assert(decimal_digits(a)[0] == decimal_digits(b)[0]);
        assert(seq![(48 + a) as u8][0] == (48 + a) as u8);
        assert(seq![(48 + b) as u8][0] == (48 + b) as u8);
        lemma_digit_byte(a);
        lemma_digit_byte(b);
        assert(48 + a == 48 + b);
    } else if a >= 10 && b >= 10 {
        let da = decimal_digits(a);
        let db = decimal_digits(b);
        assert(da.last() == db.last());
        lemma_digit_byte((a % 10) as u64);
        lemma_digit_byte((b % 10) as u64);
        assert(a % 10 == b % 10);
        assert(da.drop_last() =~= decimal_digits(a / 10));
        assert(db.drop_last() =~= decimal_digits(b / 10));
        lemma_decimal_digits_injective(a / 10, b / 10);
        assert(a == 10 * (a / 10) + a % 10);
        assert(b == 10 * (b / 10) + b % 10);
    } else {
        assert(decimal_digits(a).len() != decimal_digits(b).len());
    }
}

/// The `i`-th and `j`-th streams of one domain are keyed apart: distinct
/// indices give distinct keys.
pub proof fn lemma_indexed_keys_distinct(domain: Seq<u8>, i: u64, j: u64)
    requires
        i != j,
    ensures
        indexed_key(domain, i) != indexed_key(domain, j),
{
    if indexed_key(domain, i) == indexed_key(domain, j) {
        let p = domain.push(47u8);
        assert(indexed_key(domain, i).skip(p.len() as int) =~= decimal_digits(i));
        assert(indexed_key(domain, j).skip(p.len() as int) =~= decimal_digits(j));
        lemma_decimal_digits_injective(i, j);
    }
}

/// The 32-byte seed a `StdRng` was made with (its ChaCha key, which
/// `rand_chacha`'s `get_seed` reads back).
pub uninterp spec fn std_rng_seed(rng: StdRng) -> Seq<u8>;

/// Trusted: `rand::rngs::StdRng::from_seed`, which wraps
/// `rand_chacha::ChaCha12Rng::from_seed` and keys the cipher with `seed`.
/// The contract claims only that the generator is made with that seed;
/// nothing is claimed of the numbers it will produce.
#[verifier::external_body]
fn std_rng_from_seed(seed: [u8; 32]) -> (rng: StdRng)
    ensures
        std_rng_seed(rng) == seed@,
{
    StdRng::from_seed(seed)
}

/// Trusted: `rand::RngCore::next_u64` on a `StdRng`. Any 64-bit value may come
/// back, so nothing is claimed of it; the generator's state advances.
#[verifier::external_body]
pub(crate) fn next_u64(rng: &mut StdRng) -> u64 {
    rng.next_u64()
}

/// Trusted: `rand::Rng::random_range(0..n)` on `usize`. It returns a value in
/// `0..n` (it panics on an empty range, which `requires` rules out); which one
/// depends on the generator's state and is left unsaid.
#[verifier::external_body]
pub(crate) fn random_below(rng: &mut StdRng, n: usize) -> (r: usize)
    requires
        n > 0,
    ensures
        r < n,
{
    rng.random_range(0..n)
}

/// Trusted: `rand::Rng::random_range(0..=hi)` on `usize`. It returns a value in
/// `0..=hi`; which one depends on the generator's state and is left unsaid.
#[verifier::external_body]
pub(crate) fn random_at_most(rng: &mut StdRng, hi: usize) -> (r: usize)
    ensures
        r <= hi,
{
    rng.random_range(0..=hi)
}

/// Appends the decimal digits of `n` to `out`.
fn push_decimal(out: &mut Vec<u8>, n: u64)
    ensures
        final(out)@ == old(out)@ + decimal_digits(n),
    decreases n,
{
    if n < 10 {
        out.push((48 + n) as u8);
        assert(old(out)@ + decimal_digits(n) =~= old(out)@.push((48 + n) as u8));
    } else {
        push_decimal(out, n / 10);
        out.push((48 + n % 10) as u8);
        assert(old(out)@ + decimal_digits(n) =~= (old(out)@ + decimal_digits(n / 10)).push(
            (48 + n % 10) as u8,
        ));
    }
}

/// The bytes of the key `"{domain}/{idx}"` that names the `idx`-th stream of a domain.
pub fn indexed_domain_key(domain: &str, idx: u64) -> (key: Vec<u8>)
    ensures
        key@ == indexed_key(domain.spec_bytes(), idx),
{
    let bytes = domain.as_bytes();
    let mut key: Vec<u8> = Vec::new();
    let mut i: usize = 0;
    while i < bytes.len()
        invariant
            i <= bytes@.len(),
            bytes@ == domain.spec_bytes(),
            key@ == bytes@.take(i as int),
        decreases bytes@.len() - i,
    {
        key.push(bytes[i]);
        i += 1;
        assert(key@ =~= bytes@.take(i as int));
    }
    assert(bytes@.take(i as int) =~= bytes@);
    key.push(47u8);
    push_decimal(&mut key, idx);
    key
}

/// The integer part of a planet generator's settings: the master seed from which
/// every random stream is derived, the plate counts, and the two merge
/// probabilities, each written as a threshold on a 53-bit uniform draw
/// (a draw `k` stands for the fraction `k / 2^53`).
pub struct PlanetGenerator {
    pub seed: u64,
    pub num_plates: usize,
    pub num_micro_plates: usize,
    /// A plate is passed over as a merge primary when its draw exceeds this.
    pub merge_selection_threshold: u64,
    /// Two neighbours (instead of one) are merged when the draw is below this.
    pub merge_two_neighbors_threshold: u64,
}

impl PlanetGenerator {
    /// FNV-1a 64-bit hash of `bytes`, continuing from `acc` (zero starts afresh
    /// from the offset basis).
    pub fn fnv1a64(acc: u64, bytes: &[u8]) -> (h: u64)
        ensures
            h == fnv1a64_spec(acc, bytes@),
    {
        let mut h: u64 = if acc == 0 { FNV_OFFSET } else { acc };
        let ghost h0 = h;
        let mut i: usize = 0;
        while i < bytes.len()
            invariant
                i <= bytes@.len(),
                h0 == (if acc == 0 { FNV_OFFSET } else { acc }),
                h == fnv_fold(h0, bytes@.take(i as int)),
            decreases bytes@.len() - i,
        {
            assert(bytes@.take(i + 1).drop_last() =~= bytes@.take(i as int));
            h = h ^ (bytes[i] as u64);
            h = h.wrapping_mul(FNV_PRIME);
            i += 1;
        }
        assert(bytes@.take(i as int) =~= bytes@);
        h
    }

    /// The 32-byte generator seed for a domain given by its bytes.
    pub fn seed32_for_bytes(&self, domain: &[u8]) -> (out: [u8; 32])
        ensures
            out@ == seed32_spec(fnv1a64_spec(self.seed, domain@)),
    {
        let s = Self::fnv1a64(self.seed, domain);
        let mut out = [0u8; 32];
        let mut i: usize = 0;
        while i < 4
            invariant
                i <= 4,
                s == fnv1a64_spec(self.seed, domain@),
                out@.len() == 32,
                forall|k: int| 0 <= k < 8 * i ==> out@[k] == #[trigger] seed32_spec(s)[k],
            decreases 4 - i,
        {
            let v = splitmix64(s ^ (i as u64));
            let mut j: usize = 0;
            while j < 8
                invariant
                    i < 4,
                    j <= 8,
                    v == splitmix64_spec(s ^ (i as u64)),
                    out@.len() == 32,
                    forall|k: int| 0 <= k < 8 * i + j ==> out@[k] == #[trigger] seed32_spec(s)[k],
                decreases 8 - j,
            {
                let byte = ((v >> ((8 * j) as u64)) & 0xffu64) as u8;
                out[8 * i + j] = byte;
                proof {
                    let k = 8 * i + j;
                    assert((k as int) / 8 == i as int);
                    assert((k as int) % 8 == j as int);
                }
                j += 1;
            }
            i += 1;
        }
        assert(out@ =~= seed32_spec(s));
        out
    }

    /// The 32-byte generator seed for a named domain: the master seed is mixed
    /// with the domain label by FNV-1a, then expanded with SplitMix64.
    pub fn seed32_for(&self, domain: &str) -> (out: [u8; 32])
        ensures
            out@ == seed32_spec(fnv1a64_spec(self.seed, domain.spec_bytes())),
    {
        self.seed32_for_bytes(domain.as_bytes())
    }

    /// A 32-bit seed for a named domain: the low half of one SplitMix64 step
    /// over the FNV-1a mix of the master seed and the label.
    pub fn seed_u32_for(&self, domain: &str) -> (r: u32)
        ensures
            r == (splitmix64_spec(fnv1a64_spec(self.seed, domain.spec_bytes())) & 0xFFFF_FFFFu64) as u32,
    {
        let v = splitmix64(Self::fnv1a64(self.seed, domain.as_bytes()));
        (v & 0xFFFF_FFFFu64) as u32
    }

    /// The seed of the `idx`-th random stream of a domain: the domain seed of
    /// the key `"{domain}/{idx}"`.
    pub fn seed32_for_indexed(&self, domain: &str, idx: u64) -> (out: [u8; 32])
        ensures
            out@ == seed32_spec(fnv1a64_spec(self.seed, indexed_key(domain.spec_bytes(), idx))),
    {
        let key = indexed_domain_key(domain, idx);
        self.seed32_for_bytes(key.as_slice())
    }

    /// The `idx`-th random stream of a domain, a `StdRng` seeded with
    /// `seed32_for_indexed(domain, idx)`.
    pub fn rng_for_indexed(&self, domain: &str, idx: u64) -> (rng: StdRng)
        ensures
            std_rng_seed(rng) == seed32_spec(fnv1a64_spec(self.seed, indexed_key(domain.spec_bytes(), idx))),
    {
        std_rng_from_seed(self.seed32_for_indexed(domain, idx))
    }

    /// The random stream of a domain, a `StdRng` seeded with `seed32_for(domain)`.
    pub fn rng_for(&self, domain: &str) -> (rng: StdRng)
        ensures
            std_rng_seed(rng) == seed32_spec(fnv1a64_spec(self.seed, domain.spec_bytes())),
    {
        std_rng_from_seed(self.seed32_for(domain))
    }
}


/// Cell `(f, y, x)` lies on a seam between plates: its right neighbour or the
/// cell below it (each clamped to the face's edge) holds another plate.
pub open spec fn is_seam_cell(m: Seq<Seq<Seq<usize>>>, n: int, f: int, y: int, x: int) -> bool {
    let c = m[f][y][x];
    let r = m[f][y][if x + 1 < n { x + 1 } else { n - 1 }];
    let d = m[f][if y + 1 < n { y + 1 } else { n - 1 }][x];
    r != c || d != c
}

/// Whether cell `(f, y, x)` lies on a seam between plates: its right
/// neighbour or the cell below it (each clamped to the face's edge) holds
/// another plate.
pub fn seam_at(plate_map: &PlateMap, face_grid_size: usize, f: usize, y: usize, x: usize) -> (r: bool)
    requires
        wf_map(plate_map.deep_view(), face_grid_size as int),
        f < 6,
        y < face_grid_size,
        x < face_grid_size,
    ensures
        r == is_seam_cell(plate_map.deep_view(), face_grid_size as int, f as int, y as int, x as int),
{
    let n = face_grid_size;
    let here = cell(plate_map, n, f, y, x);
    let rx = if x + 1 < n { x + 1 } else { n - 1 };
    let dy = if y + 1 < n { y + 1 } else { n - 1 };
    let right = cell(plate_map, n, f, y, rx);
    let down = cell(plate_map, n, f, dy, x);
    right != here || down != here
}

/// Some cell of the map lies on a seam between plates.
pub open spec fn has_seam(m: Seq<Seq<Seq<usize>>>, n: int) -> bool {
    exists|f: int, y: int, x: int| 0 <= f < 6 && 0 <= y < n && 0 <= x < n && #[trigger] is_seam_cell(m, n, f, y, x)
}

/// The first seam cell in face-row-column order, as `(face, x, y)`, if any.
fn first_seam_cell(plate_map: &PlateMap, face_grid_size: usize) -> (r: Option<(usize, usize, usize)>)
    requires
        wf_map(plate_map.deep_view(), face_grid_size as int),
    ensures
        r is None <==> !has_seam(plate_map.deep_view(), face_grid_size as int),
        r matches Some((f, x, y)) ==> f < 6 && x < face_grid_size && y < face_grid_size
            && is_seam_cell(plate_map.deep_view(), face_grid_size as int, f as int, y as int, x as int),
{
    let n = face_grid_size;
    let ghost m = plate_map.deep_view();
    let mut f: usize = 0;
    while f < 6
        invariant
            f <= 6,
            m == plate_map.deep_view(),
                n == face_grid_size,
            wf_map(m, n as int),
            forall|a: int, b: int, c: int| 0 <= a < f && 0 <= b < n && 0 <= c < n ==> !#[trigger] is_seam_cell(m, n as int, a, b, c),
        decreases 6 - f,
    {
        let mut y: usize = 0;
        while y < n
            invariant
                f < 6,
                y <= n,
                m == plate_map.deep_view(),
                n == face_grid_size,
                wf_map(m, n as int),
                forall|a: int, b: int, c: int| 0 <= a < f && 0 <= b < n && 0 <= c < n ==> !#[trigger] is_seam_cell(m, n as int, a, b, c),
                forall|b: int, c: int| 0 <= b < y && 0 <= c < n ==> !#[trigger] is_seam_cell(m, n as int, f as int, b, c),
            decreases n - y,
        {
            let mut x: usize = 0;
            while x < n
                invariant
                    f < 6,
                    y < n,
                    x <= n,
                    m == plate_map.deep_view(),
                n == face_grid_size,
                    wf_map(m, n as int),
                    forall|a: int, b: int, c: int| 0 <= a < f && 0 <= b < n && 0 <= c < n ==> !#[trigger] is_seam_cell(m, n as int, a, b, c),
                    forall|b: int, c: int| 0 <= b < y && 0 <= c < n ==> !#[trigger] is_seam_cell(m, n as int, f as int, b, c),
                    forall|c: int| 0 <= c < x ==> !#[trigger] is_seam_cell(m, n as int, f as int, y as int, c),
                decreases n - x,
            {
                if seam_at(plate_map, n, f, y, x) {
                    assert(is_seam_cell(m, n as int, f as int, y as int, x as int));
                    return Some((f, x, y));
                }
                x += 1;
            }
            y += 1;
        }
        f += 1;
    }
    None
}

/// Of the drawn cells `(face, x, y)`, in the order drawn, the first on a seam.
pub open spec fn first_seam_draw(m: Seq<Seq<Seq<usize>>>, n: int, draws: Seq<(usize, usize, usize)>) -> Option<(usize, usize, usize)>
    decreases draws.len(),
{
    if draws.len() == 0 {
        None
    } else {
        match first_seam_draw(m, n, draws.drop_last()) {
            Some(c) => Some(c),
            None => {
                let d = draws.last();
                if is_seam_cell(m, n, d.0 as int, d.2 as int, d.1 as int) {
                    Some(d)
                } else {
                    None
                }
            },
        }
    }
}

/// The first seam draw is one of the draws, lies on a seam, and every draw
/// before it missed; with no seam draw, every draw missed.
pub proof fn lemma_first_seam_draw(m: Seq<Seq<Seq<usize>>>, n: int, draws: Seq<(usize, usize, usize)>)
    ensures
        first_seam_draw(m, n, draws) matches Some(c) ==> exists|i: int| 0 <= i < draws.len() && draws[i] == c
            && is_seam_cell(m, n, c.0 as int, c.2 as int, c.1 as int)
            && forall|j: int| 0 <= j < i ==> !is_seam_cell(m, n, #[trigger] draws[j].0 as int, draws[j].2 as int, draws[j].1 as int),
        first_seam_draw(m, n, draws) is None ==> forall|j: int| 0 <= j < draws.len()
            ==> !is_seam_cell(m, n, #[trigger] draws[j].0 as int, draws[j].2 as int, draws[j].1 as int),
    decreases draws.len(),
{
    if draws.len() > 0 {
        let p = draws.drop_last();
        lemma_first_seam_draw(m, n, p);
        match first_seam_draw(m, n, p) {
            Some(c) => {
                let i = choose|i: int| 0 <= i < p.len() && p[i] == c && is_seam_cell(m, n, c.0 as int, c.2 as int, c.1 as int)
                    && forall|j: int| 0 <= j < i ==> !is_seam_cell(m, n, #[trigger] p[j].0 as int, p[j].2 as int, p[j].1 as int);
                assert(draws[i] == c);
                assert forall|j: int| 0 <= j < i implies !is_seam_cell(m, n, #[trigger] draws[j].0 as int, draws[j].2 as int, draws[j].1 as int) by {
                    assert(draws[j] == p[j]);
                }
            },
            None => {
                assert forall|j: int| 0 <= j < draws.len() - 1 implies !is_seam_cell(m, n, #[trigger] draws[j].0 as int, draws[j].2 as int, draws[j].1 as int) by {
                    assert(draws[j] == p[j]);
                }
            },
        }
    }
}

impl PlanetGenerator {
    /// Picks the seed cell of the `i`-th microplate: draws a face, a row and a
    /// column from the `"microplates/pick"` stream of index `i` until the cell
    /// lies on a seam between plates, and returns `(face, x, y)`. Should
    /// `u64::MAX` draws all miss, the first seam cell in scan order is taken.
    /// The result is `None` exactly when the map has no seam at all.
    pub fn pick_microplate_cell(&self, face_grid_size: usize, plate_map: &PlateMap, i: usize) -> (r: Option<(usize, usize, usize)>)
        requires
            wf_map(plate_map.deep_view(), face_grid_size as int),
            face_grid_size > 0,
        ensures
            r is None <==> !has_seam(plate_map.deep_view(), face_grid_size as int),
            r matches Some((f, x, y)) ==> f < 6 && x < face_grid_size && y < face_grid_size
                && is_seam_cell(plate_map.deep_view(), face_grid_size as int, f as int, y as int, x as int),
            exists|draws: Seq<(usize, usize, usize)>| {
                &&& draws.len() <= u64::MAX
                &&& forall|k: int| 0 <= k < draws.len() ==> (#[trigger] draws[k]).0 < 6 && draws[k].1 < face_grid_size
                    && draws[k].2 < face_grid_size
                &&& match #[trigger] first_seam_draw(plate_map.deep_view(), face_grid_size as int, draws) {
                    Some(c) => r == Some(c),
                    None => draws.len() == u64::MAX,
                }
            },
    {
        let n = face_grid_size;
        let ghost m = plate_map.deep_view();
        let mut rng = self.rng_for_indexed("microplates/pick", i as u64);
        let mut tries: u64 = u64::MAX;
        let ghost mut draws: Seq<(usize, usize, usize)> = Seq::empty();
        while tries > 0
            invariant
                wf_map(plate_map.deep_view(), n as int),
                m == plate_map.deep_view(),
                n > 0,
                n == face_grid_size,
                draws.len() == u64::MAX - tries,
                forall|k: int| 0 <= k < draws.len() ==> (#[trigger] draws[k]).0 < 6 && draws[k].1 < n && draws[k].2 < n,
                first_seam_draw(m, n as int, draws) is None,
            decreases tries,
        {
            let f = random_below(&mut rng, 6);
            let y = random_below(&mut rng, n);
            let x = random_below(&mut rng, n);
            let ghost prev = draws;
            proof {
                draws = prev.push((f, x, y));
                assert(draws.drop_last() =~= prev);
            }
            if seam_at(plate_map, n, f, y, x) {
                assert(first_seam_draw(m, n as int, draws) == Some((f, x, y)));
                return Some((f, x, y));
            }
            assert(first_seam_draw(m, n as int, draws) is None);
            tries -= 1;
        }
        let r = first_seam_cell(plate_map, n);
        assert(first_seam_draw(m, n as int, draws) is None);
        r
    }
}

} // verus!

