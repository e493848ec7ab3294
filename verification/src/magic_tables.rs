//! Magic bitboard tables: the attacks of a rook or bishop for every occupancy of its mask,
//! found by multiplying the occupancy by a magic number and keeping the top bits.
use vstd::prelude::*;
use crate::bits::{bit, count_ones, lemma_bit_and, lemma_bits_ext, popcount};
use crate::magics::{BISHOP_MAGICS, ROOK_MAGICS};
use crate::sliders::{
    bishop_attacks_on_the_fly, bishop_hit, bishop_mask_hit, bishop_masks, inner_ok, is_dir, mask_hit, ray_file, ray_hit,
    ray_on_board, ray_rank, ray_sq, rook_attacks_on_the_fly, rook_hit, rook_mask_hit, rook_masks,
};

verus! {

/// The submask that follows `s` in the enumeration `s -> (s - mask) & mask`.
pub open spec fn next_subset(s: u64, mask: u64) -> u64 {
    vstd::wrapping::u64_specs::wrapping_sub(s, mask) & mask
}

/// `u` holds only squares of `mask`.
pub open spec fn submask(u: u64, mask: u64) -> bool {
    u & !mask == 0
}

/// The enumeration steps from a submask to the smallest larger submask, and from the full
/// mask back to zero.
proof fn lemma_next_subset(mask: u64, s: u64, t: u64)
    by (bit_vector)
    requires
        s & !mask == 0,
        t & !mask == 0,
    ensures
        next_subset(s, mask) & !mask == 0,
        s < t ==> s < next_subset(s, mask) && next_subset(s, mask) <= t,
        s == mask ==> next_subset(s, mask) == 0,
        s <= mask,
{
}

/// Zero and the mask itself are submasks.
proof fn lemma_trivial_submasks(mask: u64)
    by (bit_vector)
    ensures
        0u64 & !mask == 0,
        mask & !mask == 0,
{
}

/// The occupancy restricted to a mask is a submask of it, with the same bits inside it.
proof fn lemma_restrict(occ: u64, mask: u64)
    by (bit_vector)
    ensures
        (occ & mask) & !mask == 0,
{
}

/// The top `64 - shift` bits of a word, as a number, are below `2^(64 - shift)`.
proof fn lemma_index_bound(w: u64, shift: u64)
    by (bit_vector)
    requires
        44 <= shift <= 63,
    ensures
        (w >> shift) < (1u64 << ((64 - shift) as u64)),
        (1u64 << ((64 - shift) as u64)) <= 0x10_0000,
{
}

/// Whether the attacks of a bishop (else of a rook) on `s` reach `t` past the occupancy `occ`.
pub open spec fn slider_hit(bishop: bool, s: u64, t: u64, occ: u64) -> bool {
    if bishop {
        bishop_hit(s, t, occ)
    } else {
        rook_hit(s, t, occ)
    }
}

/// Whether `t` is in the relevant-occupancy mask of a bishop (else of a rook) on `s`.
pub open spec fn slider_mask_hit(bishop: bool, s: u64, t: u64) -> bool {
    if bishop {
        bishop_mask_hit(s, t)
    } else {
        rook_mask_hit(s, t)
    }
}

/// Along a ray, only the squares short of the edge can stop the slider: the squares before
/// any reachable square are in the ray's mask.
proof fn lemma_ray_relevant(s: u64, dr: int, df: int, t: u64, occ: u64, mask: u64)
    requires
        s < 64,
        is_dir(dr, df),
        forall|u: u64| u < 64 && mask_hit(s, dr, df, u) ==> #[trigger] bit(mask, u),
    ensures
        ray_hit(s, dr, df, t, occ) <==> ray_hit(s, dr, df, t, occ & mask),
{
    if ray_hit(s, dr, df, t, occ) {
        let k = choose|k: int| #![trigger ray_sq(s, dr, df, k)] k >= 1 && ray_on_board(s, dr, df, k) && t == ray_sq(s, dr, df, k)
            && forall|j: int| 1 <= j < k ==> !bit(occ, #[trigger] ray_sq(s, dr, df, j) as u64);
        assert forall|j: int| 1 <= j < k implies !bit(occ & mask, #[trigger] ray_sq(s, dr, df, j) as u64) by {
            lemma_bit_and(occ, mask, ray_sq(s, dr, df, j) as u64);
        }
    }
    if ray_hit(s, dr, df, t, occ & mask) {
        let k = choose|k: int| #![trigger ray_sq(s, dr, df, k)] k >= 1 && ray_on_board(s, dr, df, k) && t == ray_sq(s, dr, df, k)
            && forall|j: int| 1 <= j < k ==> !bit(occ & mask, #[trigger] ray_sq(s, dr, df, j) as u64);
        assert forall|j: int| 1 <= j < k implies !bit(occ, #[trigger] ray_sq(s, dr, df, j) as u64) by {
            let u = ray_sq(s, dr, df, j) as u64;
            lemma_bit_and(occ, mask, u);
            assert(inner_ok(s, dr, df, j));
            assert(mask_hit(s, dr, df, u));
            assert(!bit(occ & mask, u));
        }
    }
}

/// A slider's attacks depend only on the occupancy of its mask.
pub proof fn lemma_relevant_occupancy(bishop: bool, s: u64, t: u64, occ: u64, mask: u64)
    requires
        s < 64,
        forall|u: u64| u < 64 ==> (#[trigger] bit(mask, u) <==> slider_mask_hit(bishop, s, u)),
    ensures
        slider_hit(bishop, s, t, occ) <==> slider_hit(bishop, s, t, occ & mask),
{
    if bishop {
        lemma_ray_relevant(s, 1, 1, t, occ, mask);
        lemma_ray_relevant(s, 1, -1, t, occ, mask);
        lemma_ray_relevant(s, -1, 1, t, occ, mask);
        lemma_ray_relevant(s, -1, -1, t, occ, mask);
    } else {
        lemma_ray_relevant(s, 1, 0, t, occ, mask);
        lemma_ray_relevant(s, -1, 0, t, occ, mask);
        lemma_ray_relevant(s, 0, 1, t, occ, mask);
        lemma_ray_relevant(s, 0, -1, t, occ, mask);
    }
}

/// No slider attacks its own square, and the full word has every square.
proof fn lemma_not_self(bishop: bool, s: u64, occ: u64)
    requires
        s < 64,
    ensures
        !slider_hit(bishop, s, s, occ),
        bit(0xFFFF_FFFF_FFFF_FFFFu64, s),
{
    assert((0xFFFF_FFFF_FFFF_FFFFu64 >> s) & 1u64 == 1u64) by (bit_vector)
        requires
            s < 64,
    ;
    assert forall|dr: int, df: int, k: int| is_dir(dr, df) && k >= 1 && ray_on_board(s, dr, df, k) implies #[trigger] ray_sq(s, dr, df, k) != s by {
        if dr != 0 {
            assert(ray_rank(s, dr, k) != (s / 8) as int);
        } else {
            assert(ray_file(s, df, k) != (s % 8) as int);
        }
    }
}

/// The magic index of an occupancy: the top bits of its product with the magic number.
pub open spec fn magic_index(u: u64, magic: u64, shift: u64) -> u64 {
    vstd::wrapping::u64_specs::wrapping_mul(u, magic) >> shift
}

/// The slot of a submask: the offset of its square plus its magic index.
pub open spec fn magic_slot(offset: int, u: u64, magic: u64, shift: u64) -> int {
    offset + magic_index(u, magic, shift) as int
}

/// A bishop (else a rook) on `sq` attacks the same squares past the occupancies `u` and `v`.
pub open spec fn same_attacks(bishop: bool, sq: u64, u: u64, v: u64) -> bool {
    forall|t: u64| t < 64 ==> (#[trigger] slider_hit(bishop, sq, t, u) <==> slider_hit(bishop, sq, t, v))
}

/// The magic number and shift give two submasks of `mask` one index only when their
/// attacks agree.
pub open spec fn magic_fits(bishop: bool, sq: u64, mask: u64, magic: u64, shift: u64) -> bool {
    forall|u: u64, v: u64|
        #![trigger submask(u, mask), submask(v, mask)]
        submask(u, mask) && submask(v, mask) && magic_index(u, magic, shift) == magic_index(v, magic, shift)
            ==> same_attacks(bishop, sq, u, v)
}

/// `m` has exactly the squares of the relevant-occupancy mask of a bishop (else a rook) on `sq`.
pub open spec fn is_relevant_mask(bishop: bool, sq: u64, m: u64) -> bool {
    forall|t: u64| t < 64 ==> (#[trigger] bit(m, t) <==> slider_mask_hit(bishop, sq, t))
}

/// The relevant-occupancy mask of a bishop (else a rook) on `sq`.
pub open spec fn relevant_mask(bishop: bool, sq: u64) -> u64 {
    choose|m: u64| is_relevant_mask(bishop, sq, m)
}

/// The magic number of a bishop (else a rook) on `sq`.
pub open spec fn magic_of(bishop: bool, sq: int) -> u64 {
    if bishop {
        BISHOP_MAGICS[sq]
    } else {
        ROOK_MAGICS[sq]
    }
}

/// Square `sq` can be tabled: its mask has one to twenty squares, and its magic number,
/// shifted by 64 less that count, keeps apart the occupancies with different attacks.
pub open spec fn square_fits(bishop: bool, sq: int) -> bool {
    let mask = relevant_mask(bishop, sq as u64);
    let bits = popcount(mask);
    &&& 1 <= bits <= 20
    &&& magic_fits(bishop, sq as u64, mask, magic_of(bishop, sq), (64 - bits) as u64)
}

/// Every square can be tabled.
pub open spec fn magics_fit(bishop: bool) -> bool {
    forall|sq: int| 0 <= sq < 64 ==> #[trigger] square_fits(bishop, sq)
}

/// A mask with the relevant squares is the relevant mask.
proof fn lemma_relevant_mask(bishop: bool, sq: u64, m: u64)
    requires
        is_relevant_mask(bishop, sq, m),
    ensures
        relevant_mask(bishop, sq) == m,
{
    let r = relevant_mask(bishop, sq);
    assert(is_relevant_mask(bishop, sq, r));
    assert forall|t: u64| t < 64 implies (#[trigger] bit(r, t) <==> bit(m, t)) by {
        assert(bit(r, t) <==> slider_mask_hit(bishop, sq, t));
        assert(bit(m, t) <==> slider_mask_hit(bishop, sq, t));
    }
    lemma_bits_ext(r, m);
}

/// Slot `slot` holds the attacks of a slider on `sq` for the occupancy `u`.
pub open spec fn slot_ok(entries: Seq<u64>, bishop: bool, sq: u64, slot: int, u: u64) -> bool {
    &&& 0 <= slot < entries.len()
    &&& forall|t: u64| t < 64 ==> (#[trigger] bit(entries[slot], t) <==> slider_hit(bishop, sq, t, u))
}

/// The attacks of a bishop (else a rook) on `sq` for `blockers`, ray by ray.
fn on_the_fly(bishop: bool, sq: u8, blockers: u64) -> (r: u64)
    requires
        sq < 64,
    ensures
        forall|t: u64| t < 64 ==> (#[trigger] bit(r, t) <==> slider_hit(bishop, sq as u64, t, blockers)),
{
    if bishop {
        bishop_attacks_on_the_fly(sq, blockers)
    } else {
        rook_attacks_on_the_fly(sq, blockers)
    }
}

/// Fills the slots of square `sq`: for each submask of `mask`, from zero up, the attacks
/// for that occupancy go to its magic slot. Fails when two occupancies with different
/// attacks share a slot.
fn fill_square(entries: &mut Vec<u64>, bishop: bool, sq: u8, mask: u64, magic: u64, shift: u64, offset: usize) -> (ok: bool)
    requires
        sq < 64,
        44 <= shift <= 63,
        forall|t: u64| t < 64 ==> (#[trigger] bit(mask, t) <==> slider_mask_hit(bishop, sq as u64, t)),
        offset + (1u64 << ((64 - shift) as u64)) <= old(entries)@.len(),
        forall|i: int| offset <= i < offset + (1u64 << ((64 - shift) as u64)) ==> #[trigger] old(entries)@[i] == 0xFFFF_FFFF_FFFF_FFFFu64,
    ensures
        final(entries)@.len() == old(entries)@.len(),
        forall|i: int| 0 <= i < old(entries)@.len() && !(offset <= i < offset + (1u64 << ((64 - shift) as u64)))
            ==> #[trigger] final(entries)@[i] == old(entries)@[i],
        ok ==> forall|u: u64| #[trigger] submask(u, mask) ==> slot_ok(final(entries)@, bishop, sq as u64, magic_slot(offset as int, u, magic, shift), u),
        ok == magic_fits(bishop, sq as u64, mask, magic, shift),
{
    let ghost size = (1u64 << ((64 - shift) as u64)) as int;
    let ghost e0 = entries@;
    let mut subset: u64 = 0;
    proof {
        lemma_trivial_submasks(mask);
    }
    loop
        invariant
            sq < 64,
            44 <= shift <= 63,
            forall|t: u64| t < 64 ==> (#[trigger] bit(mask, t) <==> slider_mask_hit(bishop, sq as u64, t)),
            size == (1u64 << ((64 - shift) as u64)) as int,
            offset + size <= e0.len(),
            e0 == old(entries)@,
            entries@.len() == e0.len(),
            forall|i: int| 0 <= i < e0.len() && !(offset <= i < offset + size) ==> #[trigger] entries@[i] == e0[i],
            forall|i: int| offset <= i < offset + size ==> #[trigger] entries@[i] == 0xFFFF_FFFF_FFFF_FFFFu64
                || exists|u: u64| submask(u, mask) && u < subset && magic_slot(offset as int, u, magic, shift) == i,
            submask(subset, mask),
            forall|u: u64| #[trigger] submask(u, mask) && u < subset ==> slot_ok(entries@, bishop, sq as u64, magic_slot(offset as int, u, magic, shift), u),
        decreases mask - subset,
    {
        let attacks = on_the_fly(bishop, sq, subset);
        let w = subset.wrapping_mul(magic);
        proof {
            lemma_index_bound(w, shift);
        }
        let idx = (w >> shift) as usize;
        let len = entries.len();
        assert(idx < size);
        let slot = offset + idx;
        let ghost before = entries@;
        proof {
            assert(slot as int == magic_slot(offset as int, subset, magic, shift));
        }
        if entries[slot] == 0xFFFF_FFFF_FFFF_FFFFu64 {
            entries.set(slot, attacks);
            proof {
                assert forall|u: u64| #[trigger] submask(u, mask) && u < subset implies slot_ok(entries@, bishop, sq as u64, magic_slot(offset as int, u, magic, shift), u) by {
                    let su = magic_slot(offset as int, u, magic, shift);
                    assert(slot_ok(before, bishop, sq as u64, su, u));
                    if su == slot as int {
                        lemma_not_self(bishop, sq as u64, u);
                        assert(bit(before[su], sq as u64) <==> slider_hit(bishop, sq as u64, sq as u64, u));
                        assert(false);
                    }
                }
            }
        } else if entries[slot] != attacks {
            proof {
                let u = choose|u: u64| submask(u, mask) && u < subset && magic_slot(offset as int, u, magic, shift) == slot as int;
                assert(slot_ok(entries@, bishop, sq as u64, slot as int, u));
                if same_attacks(bishop, sq as u64, u, subset) {
                    assert forall|t: u64| t < 64 implies (#[trigger] bit(entries@[slot as int], t) <==> bit(attacks, t)) by {
                        assert(slider_hit(bishop, sq as u64, t, u) <==> slider_hit(bishop, sq as u64, t, subset));
                    }
                    lemma_bits_ext(entries@[slot as int], attacks);
                }
                assert(submask(u, mask) && submask(subset, mask));
            }
            return false;
        }
        proof {
            assert(slot_ok(entries@, bishop, sq as u64, slot as int, subset));
        }
        let next = subset.wrapping_sub(mask) & mask;
        proof {
            lemma_trivial_submasks(mask);
            lemma_next_subset(mask, subset, mask);
            assert forall|u: u64| #[trigger] submask(u, mask) && u <= subset implies slot_ok(entries@, bishop, sq as u64, magic_slot(offset as int, u, magic, shift), u) by {
                if u < subset {
                    assert(slot_ok(entries@, bishop, sq as u64, magic_slot(offset as int, u, magic, shift), u));
                }
            }
            assert forall|i: int| offset <= i < offset + size implies #[trigger] entries@[i] == 0xFFFF_FFFF_FFFF_FFFFu64
                || exists|u: u64| submask(u, mask) && u <= subset && magic_slot(offset as int, u, magic, shift) == i by {
                if i != slot as int {
                    assert(entries@[i] == before[i]);
                    if before[i] != 0xFFFF_FFFF_FFFF_FFFFu64 {
                        let u = choose|u: u64| submask(u, mask) && u < subset && magic_slot(offset as int, u, magic, shift) == i;
                        assert(submask(u, mask) && u <= subset && magic_slot(offset as int, u, magic, shift) == i);
                    }
                } else {
                    assert(submask(subset, mask) && subset <= subset && magic_slot(offset as int, subset, magic, shift) == i);
                }
            }
        }
        if next == 0 {
            proof {
                assert(subset == mask);
                assert forall|u: u64| #[trigger] submask(u, mask) implies slot_ok(entries@, bishop, sq as u64, magic_slot(offset as int, u, magic, shift), u) by {
                    lemma_next_subset(mask, u, u);
                }
                assert forall|u: u64, v: u64|
                    #![trigger submask(u, mask), submask(v, mask)]
                    submask(u, mask) && submask(v, mask) && magic_index(u, magic, shift) == magic_index(v, magic, shift)
                        implies same_attacks(bishop, sq as u64, u, v) by {
                    let sl = magic_slot(offset as int, u, magic, shift);
                    assert(slot_ok(entries@, bishop, sq as u64, sl, u));
                    assert(slot_ok(entries@, bishop, sq as u64, sl, v));
                    assert forall|t: u64| t < 64 implies (#[trigger] slider_hit(bishop, sq as u64, t, u) <==> slider_hit(bishop, sq as u64, t, v)) by {
                        assert(bit(entries@[sl], t) <==> slider_hit(bishop, sq as u64, t, u));
                        assert(bit(entries@[sl], t) <==> slider_hit(bishop, sq as u64, t, v));
                    }
                }
            }
            return true;
        }
        proof {
            assert forall|u: u64| #[trigger] submask(u, mask) && u < next implies slot_ok(entries@, bishop, sq as u64, magic_slot(offset as int, u, magic, shift), u) by {
                lemma_next_subset(mask, subset, u);
            }
            assert forall|i: int| offset <= i < offset + size implies #[trigger] entries@[i] == 0xFFFF_FFFF_FFFF_FFFFu64
                || exists|u: u64| submask(u, mask) && u < next && magic_slot(offset as int, u, magic, shift) == i by {
                if entries@[i] != 0xFFFF_FFFF_FFFF_FFFFu64 {
                    let u = choose|u: u64| submask(u, mask) && u <= subset && magic_slot(offset as int, u, magic, shift) == i;
                    assert(u < next);
                }
            }
        }
        subset = next;
    }
}

/// The tables of one slider kind: its masks, magic numbers and shifts per square, where
/// each square's slots start, and the slots themselves.
struct MagicTable {
    bishop: bool,
    entries: Vec<u64>,
    masks: Vec<u64>,
    magics: Vec<u64>,
    shifts: Vec<u64>,
    offsets: Vec<usize>,
}

impl MagicTable {
    /// Every square's mask is its relevant-occupancy mask, and every occupancy of that mask
    /// finds its attacks in its magic slot.
    spec fn wf(&self) -> bool {
        &&& self.masks@.len() == 64
        &&& self.magics@.len() == 64
        &&& self.shifts@.len() == 64
        &&& self.offsets@.len() == 64
        &&& forall|sq: int, t: u64| 0 <= sq < 64 && t < 64 ==> (#[trigger] bit(self.masks@[sq], t) <==> slider_mask_hit(self.bishop, sq as u64, t))
        &&& forall|sq: int| 0 <= sq < 64 ==> 44 <= #[trigger] self.shifts@[sq] <= 63
        &&& forall|sq: int, u: u64| 0 <= sq < 64 && #[trigger] submask(u, self.masks@[sq]) ==> slot_ok(
            self.entries@,
            self.bishop,
            sq as u64,
            magic_slot(self.offsets@[sq] as int, u, self.magics@[sq], self.shifts@[sq]),
            u,
        )
    }

    /// Builds the tables of a bishop (else a rook) from its masks and magic numbers; `None`
    /// when two occupancies of a square with different attacks share a slot, or a mask has
    /// no squares or more than twenty.
    fn build(bishop: bool) -> (r: Option<MagicTable>)
        ensures
            r matches Some(t) ==> t.wf() && t.bishop == bishop,
            r is Some <==> magics_fit(bishop),
    {
        let masks = if bishop {
            bishop_masks()
        } else {
            rook_masks()
        };
        proof {
            assert forall|k: int| 0 <= k < 64 implies #[trigger] masks@[k] == relevant_mask(bishop, k as u64) by {
                assert forall|t: u64| t < 64 implies (#[trigger] bit(masks@[k], t) <==> slider_mask_hit(bishop, k as u64, t)) by {}
                lemma_relevant_mask(bishop, k as u64, masks@[k]);
            }
        }
        let mut magics: Vec<u64> = Vec::new();
        let mut shifts: Vec<u64> = Vec::new();
        let mut offsets: Vec<usize> = Vec::new();
        let mut total: usize = 0;
        let mut sq: usize = 0;
        while sq < 64
            invariant
                sq <= 64,
                masks@.len() == 64,
                magics@.len() == sq,
                shifts@.len() == sq,
                offsets@.len() == sq,
                total <= sq * 0x10_0000,
                forall|k: int| 0 <= k < sq ==> 44 <= #[trigger] shifts@[k] <= 63,
                forall|k: int| 0 <= k < sq ==> #[trigger] offsets@[k] + (1u64 << ((64 - shifts@[k]) as u64)) <= total,
                forall|k: int, j: int| 0 <= k < j < sq ==> #[trigger] offsets@[k] + (1u64 << ((64 - shifts@[k]) as u64)) <= #[trigger] offsets@[j],
                forall|k: int| 0 <= k < 64 ==> #[trigger] masks@[k] == relevant_mask(bishop, k as u64),
                forall|k: int| 0 <= k < sq ==> #[trigger] magics@[k] == magic_of(bishop, k),
                forall|k: int| 0 <= k < sq ==> 1 <= popcount(#[trigger] masks@[k]) <= 20 && shifts@[k] == 64 - popcount(masks@[k]),
            decreases 64 - sq,
        {
            let magic = if bishop {
                BISHOP_MAGICS[sq]
            } else {
                ROOK_MAGICS[sq]
            };
            magics.push(magic);
            let bits = count_ones(masks[sq]);
            if bits == 0 || bits > 20 {
                proof {
                    assert(masks@[sq as int] == relevant_mask(bishop, sq as u64));
                    assert(!square_fits(bishop, sq as int));
                }
                return None;
            }
            let shift: u64 = 64 - bits as u64;
            let size: u64 = 1u64 << bits as u64;
            proof {
                lemma_index_bound(0, shift);
                assert(size == (1u64 << ((64 - shift) as u64)));
            }
            shifts.push(shift);
            offsets.push(total);
            total = total + size as usize;
            sq += 1;
        }
        let mut entries: Vec<u64> = vec![0xFFFF_FFFF_FFFF_FFFFu64; total];
        let mut sq: usize = 0;
        while sq < 64
            invariant
                sq <= 64,
                masks@.len() == 64,
                magics@.len() == 64,
                shifts@.len() == 64,
                offsets@.len() == 64,
                entries@.len() == total,
                forall|k: int, t: u64| 0 <= k < 64 && t < 64 ==> (#[trigger] bit(masks@[k], t) <==> slider_mask_hit(bishop, k as u64, t)),
                forall|k: int| 0 <= k < 64 ==> 44 <= #[trigger] shifts@[k] <= 63,
                forall|k: int| 0 <= k < 64 ==> #[trigger] offsets@[k] + (1u64 << ((64 - shifts@[k]) as u64)) <= total,
                forall|k: int, j: int| 0 <= k < j < 64 ==> #[trigger] offsets@[k] + (1u64 << ((64 - shifts@[k]) as u64)) <= #[trigger] offsets@[j],
                sq < 64 ==> forall|i: int| offsets@[sq as int] <= i < total ==> #[trigger] entries@[i] == 0xFFFF_FFFF_FFFF_FFFFu64,
                forall|k: int, u: u64| 0 <= k < sq && #[trigger] submask(u, masks@[k]) ==> slot_ok(
                    entries@,
                    bishop,
                    k as u64,
                    magic_slot(offsets@[k] as int, u, magics@[k], shifts@[k]),
                    u,
                ) && magic_slot(offsets@[k] as int, u, magics@[k], shifts@[k]) < offsets@[k] + (1u64 << ((64 - shifts@[k]) as u64)),
                forall|k: int| 0 <= k < 64 ==> #[trigger] masks@[k] == relevant_mask(bishop, k as u64),
                forall|k: int| 0 <= k < 64 ==> #[trigger] magics@[k] == magic_of(bishop, k),
                forall|k: int| 0 <= k < 64 ==> 1 <= popcount(#[trigger] masks@[k]) <= 20 && shifts@[k] == 64 - popcount(masks@[k]),
                forall|k: int| 0 <= k < sq ==> #[trigger] square_fits(bishop, k),
            decreases 64 - sq,
        {
            let ghost before = entries@;
            let ok = fill_square(&mut entries, bishop, sq as u8, masks[sq], magics[sq], shifts[sq], offsets[sq]);
            proof {
                assert(masks@[sq as int] == relevant_mask(bishop, sq as u64));
                assert(magics@[sq as int] == magic_of(bishop, sq as int));
                assert(1 <= popcount(masks@[sq as int]) <= 20);
                assert(ok == square_fits(bishop, sq as int));
            }
            if !ok {
                return None;
            }
            proof {
                let off = offsets@[sq as int] as int;
                let size = (1u64 << ((64 - shifts@[sq as int]) as u64)) as int;
                assert forall|k: int, u: u64| 0 <= k < sq + 1 && #[trigger] submask(u, masks@[k]) implies slot_ok(
                    entries@,
                    bishop,
                    k as u64,
                    magic_slot(offsets@[k] as int, u, magics@[k], shifts@[k]),
                    u,
                ) && magic_slot(offsets@[k] as int, u, magics@[k], shifts@[k]) < offsets@[k] + (1u64 << ((64 - shifts@[k]) as u64)) by {
                    lemma_index_bound(vstd::wrapping::u64_specs::wrapping_mul(u, magics@[k]), shifts@[k]);
                    if k < sq {
                        let sl = magic_slot(offsets@[k] as int, u, magics@[k], shifts@[k]);
                        assert(slot_ok(before, bishop, k as u64, sl, u));
                        assert(sl < off);
                        assert(entries@[sl] == before[sl]);
                    }
                }
                if sq + 1 < 64 {
                    assert forall|i: int| offsets@[sq + 1] <= i < total implies #[trigger] entries@[i] == 0xFFFF_FFFF_FFFF_FFFFu64 by {
                        assert(entries@[i] == before[i]);
                    }
                }
            }
            sq += 1;
        }
        proof {
            assert forall|k: int| 0 <= k < 64 implies #[trigger] square_fits(bishop, k) by {}
        }
        Some(MagicTable { bishop, entries, masks, magics, shifts, offsets })
    }

    /// The attacks from `sq` for the occupancy `occ`, looked up in its magic slot.
    fn attacks(&self, sq: usize, occ: u64) -> (r: u64)
        requires
            self.wf(),
            sq < 64,
        ensures
            forall|t: u64| t < 64 ==> (#[trigger] bit(r, t) <==> slider_hit(self.bishop, sq as u64, t, occ)),
    {
        let mask = self.masks[sq];
        let u = occ & mask;
        let w = u.wrapping_mul(self.magics[sq]);
        let shift = self.shifts[sq];
        proof {
            lemma_restrict(occ, mask);
            lemma_index_bound(w, shift);
            assert(submask(u, self.masks@[sq as int]));
        }
        let idx = (w >> shift) as usize;
        let len = self.entries.len();
        let r = self.entries[self.offsets[sq] + idx];
        proof {
            assert forall|t: u64| t < 64 implies (#[trigger] bit(r, t) <==> slider_hit(self.bishop, sq as u64, t, occ)) by {
                lemma_relevant_occupancy(self.bishop, sq as u64, t, occ, mask);
            }
        }
        r
    }
}

/// The rook attack table: for every square and every occupancy of its rook mask, the rook's
/// attacks, in the slot its magic number picks.
pub struct AlignedRookTable(MagicTable);

/// The bishop attack table, laid out like the rook's.
pub struct AlignedBishopTable(MagicTable);

impl AlignedRookTable {
    /// Every occupancy of every square's mask finds the rook's attacks in its slot.
    pub closed spec fn wf(&self) -> bool {
        self.0.wf() && !self.0.bishop
    }

    /// Builds the table from the rook masks and magic numbers; `None` when the magic numbers
    /// send two occupancies of a square with different attacks to one slot.
    pub fn build() -> (r: Option<Self>)
        ensures
            r matches Some(t) ==> t.wf(),
            r is Some <==> magics_fit(false),
    {
        match MagicTable::build(false) {
            Some(t) => Some(AlignedRookTable(t)),
            None => None,
        }
    }

    /// The squares a rook on `sq` attacks with the occupancy `occ`.
    pub fn attacks(&self, sq: usize, occ: u64) -> (r: u64)
        requires
            self.wf(),
            sq < 64,
        ensures
            forall|t: u64| t < 64 ==> (#[trigger] bit(r, t) <==> rook_hit(sq as u64, t, occ)),
    {
        self.0.attacks(sq, occ)
    }
}

impl AlignedBishopTable {
    /// Every occupancy of every square's mask finds the bishop's attacks in its slot.
    pub closed spec fn wf(&self) -> bool {
        self.0.wf() && self.0.bishop
    }

    /// Builds the table from the bishop masks and magic numbers; `None` when the magic
    /// numbers send two occupancies of a square with different attacks to one slot.
    pub fn build() -> (r: Option<Self>)
        ensures
            r matches Some(t) ==> t.wf(),
            r is Some <==> magics_fit(true),
    {
        match MagicTable::build(true) {
            Some(t) => Some(AlignedBishopTable(t)),
            None => None,
        }
    }

    /// The squares a bishop on `sq` attacks with the occupancy `occ`.
    pub fn attacks(&self, sq: usize, occ: u64) -> (r: u64)
        requires
            self.wf(),
            sq < 64,
        ensures
            forall|t: u64| t < 64 ==> (#[trigger] bit(r, t) <==> bishop_hit(sq as u64, t, occ)),
    {
        self.0.attacks(sq, occ)
    }
}

} // verus!
